//! Paths as decimal numerals, and the classes of equivalent games in the
//! form in which they are handed on: a representative and its synonyms.

use vstd::prelude::*;
use crate::board::{decimal, lemma_decimal_bound, lemma_pow10_monotonic, pow10};
use crate::outcome::is_path;

verus! {

/// The cell identifiers of a path as the digits of a numeral.
pub open spec fn digits_of(path: Seq<u8>) -> Seq<int> {
    path.map_values(|id: u8| id as int)
}

/// The code of a path: the decimal numeral whose digits are the cell
/// identifiers in the order of play, so the path 1, 2, 3, 4 has the code 1234.
pub open spec fn encoded(path: Seq<u8>) -> int {
    decimal(digits_of(path))
}

/// The codes of a sequence of paths, in their order.
pub open spec fn encoded_all(paths: Seq<Seq<u8>>) -> Seq<int> {
    paths.map_values(|path: Seq<u8>| encoded(path))
}

/// A class of equivalent games: the code of its first game, and the codes of
/// all its games in their order.
#[derive(Debug, Clone, PartialEq, Eq)]
pub struct GameData {
    pub game: u32,
    pub synonyms: Vec<u32>,
}

/// The mathematical model of a `GameData`.
pub struct ClassCodes {
    pub game: int,
    pub synonyms: Seq<int>,
}

impl View for GameData {
    type V = ClassCodes;

    open spec fn view(&self) -> ClassCodes {
        ClassCodes {
            game: self.game as int,
            synonyms: self.synonyms@.map_values(|code: u32| code as int),
        }
    }
}

impl DeepView for GameData {
    type V = ClassCodes;

    open spec fn deep_view(&self) -> ClassCodes {
        self@
    }
}

/// A class in the form in which it is handed on: the code of its first
/// path as the representative, and the codes of all its paths in their order.
pub open spec fn codes_of(class: Seq<Seq<u8>>) -> ClassCodes {
    ClassCodes { game: encoded(class[0]), synonyms: encoded_all(class) }
}

/// The code of a path is the code of the path without its last move, times
/// ten, plus the last move.
pub proof fn lemma_encoded_push(path: Seq<u8>, id: u8)
    ensures
        encoded(path.push(id)) == 10 * encoded(path) + id,
{
    assert(digits_of(path.push(id)).drop_last() =~= digits_of(path));
}

/// Paths with the same code are the same path: no move is lost in the code.
pub proof fn lemma_encoded_injective(a: Seq<u8>, b: Seq<u8>)
    requires
        is_path(a),
        is_path(b),
        encoded(a) == encoded(b),
    ensures
        a == b,
    decreases a.len(),
{
    if a.len() == 0 {
        if b.len() > 0 {
            lemma_encoded_nonnegative(b.drop_last());
            assert(b =~= b.drop_last().push(b.last()));
            lemma_encoded_push(b.drop_last(), b.last());
        }
        assert(a =~= b);
    } else {
        lemma_encoded_nonnegative(a.drop_last());
        assert(a =~= a.drop_last().push(a.last()));
        lemma_encoded_push(a.drop_last(), a.last());
        if b.len() > 0 {
            lemma_encoded_nonnegative(b.drop_last());
            assert(b =~= b.drop_last().push(b.last()));
            lemma_encoded_push(b.drop_last(), b.last());
            lemma_encoded_injective(a.drop_last(), b.drop_last());
        }
    }
}

/// The code of a path is not negative.
pub proof fn lemma_encoded_nonnegative(path: Seq<u8>)
    ensures
        0 <= encoded(path),
    decreases path.len(),
{
    if path.len() > 0 {
        lemma_encoded_nonnegative(path.drop_last());
        assert(path =~= path.drop_last().push(path.last()));
        lemma_encoded_push(path.drop_last(), path.last());
    }
}

/// The code of a path of at most nine moves has at most nine digits.
pub proof fn lemma_encoded_bound(path: Seq<u8>)
    requires
        is_path(path),
    ensures
        0 <= encoded(path) < pow10(path.len()) <= 1_000_000_000,
{
    lemma_decimal_bound(digits_of(path));
    lemma_pow10_monotonic(path.len(), 9);
    assert(pow10(9) == 1_000_000_000) by {
        reveal_with_fuel(pow10, 10);
    }
}

/// The code of a path.
pub fn collapse_game(game: &[u8]) -> (code: u32)
    requires
        is_path(game@),
    ensures
        code == encoded(game@),
{
    let mut code: u32 = 0;
    let mut pos: usize = 0;
    while pos < game.len()
        invariant
            pos <= game@.len(),
            is_path(game@),
            code == encoded(game@.take(pos as int)),
        decreases game@.len() - pos,
    {
        proof {
            let before = game@.take(pos as int);
            assert(game@.take(pos + 1) =~= before.push(game@[pos as int]));
            lemma_encoded_push(before, game@[pos as int]);
            lemma_encoded_bound(game@.take(pos + 1));
        }
        code = 10 * code + game[pos] as u32;
        pos += 1;
    }
    assert(game@.take(pos as int) =~= game@);
    code
}

/// The code of a path, or nothing where the path names more than nine cells
/// or a cell that is not on the board.
pub fn checked_collapse_game(game: &[u8]) -> (code: Option<u32>)
    ensures
        code is Some <==> is_path(game@),
        code matches Some(value) ==> value == encoded(game@),
{
    if game.len() > 9 {
        return None;
    }
    let mut pos: usize = 0;
    while pos < game.len()
        invariant
            pos <= game@.len(),
            forall|i: int| 0 <= i < pos ==> 1 <= #[trigger] game@[i] <= 9,
        decreases game@.len() - pos,
    {
        if game[pos] < 1 || game[pos] > 9 {
            return None;
        }
        pos += 1;
    }
    Some(collapse_game(game))
}

/// A class of games as a representative and its synonyms: the code of its
/// first path, and the codes of all its paths in their order.
pub fn collapse_class(games: &Vec<Vec<u8>>) -> (class: GameData)
    requires
        games@.len() > 0,
        forall|i: int| 0 <= i < games@.len() ==> is_path(#[trigger] games@[i]@),
    ensures
        class@ == codes_of(games.deep_view()),
{
    let first_game = collapse_game(games[0].as_slice());
    let mut synonyms: Vec<u32> = Vec::new();
    let mut at: usize = 0;
    while at < games.len()
        invariant
            at <= games@.len(),
            forall|i: int| 0 <= i < games@.len() ==> is_path(#[trigger] games@[i]@),
            synonyms@.len() == at,
            forall|i: int| 0 <= i < at ==> #[trigger] synonyms@[i] == encoded(games@[i]@),
        decreases games@.len() - at,
    {
        synonyms.push(collapse_game(games[at].as_slice()));
        at += 1;
    }
    let class = GameData { game: first_game, synonyms };
    proof {
        let wanted = codes_of(games.deep_view());
        assert(games.deep_view()[0] =~= games@[0]@);
        assert forall|i: int| 0 <= i < wanted.synonyms.len() implies class@.synonyms[i]
            == wanted.synonyms[i] by {
            assert(games.deep_view()[i] =~= games@[i]@);
        }
        assert(class@.synonyms =~= wanted.synonyms);
    }
    class
}

/// Every class of `classes` as a representative and its synonyms.
pub fn collapse_classes(classes: &Vec<Vec<Vec<u8>>>) -> (data: Vec<GameData>)
    requires
        forall|c: int| 0 <= c < classes@.len() ==> (#[trigger] classes@[c])@.len() > 0,
        forall|c: int, i: int|
            0 <= c < classes@.len() && 0 <= i < classes@[c]@.len() ==> is_path(
                #[trigger] classes@[c]@[i]@,
            ),
    ensures
        data.deep_view() == classes.deep_view().map_values(|class: Seq<Seq<u8>>| codes_of(class)),
{
    let mut data: Vec<GameData> = Vec::new();
    let mut at: usize = 0;
    while at < classes.len()
        invariant
            at <= classes@.len(),
            forall|c: int| 0 <= c < classes@.len() ==> (#[trigger] classes@[c])@.len() > 0,
            forall|c: int, i: int|
                0 <= c < classes@.len() && 0 <= i < classes@[c]@.len() ==> is_path(
                    #[trigger] classes@[c]@[i]@,
                ),
            data@.len() == at,
            forall|c: int|
                0 <= c < at ==> (#[trigger] data@[c])@ == codes_of(classes@[c].deep_view()),
        decreases classes@.len() - at,
    {
        data.push(collapse_class(&classes[at]));
        at += 1;
    }
    data
}

} // verus!
