//! The whole run: the walk from the empty board, and for each outcome the
//! classes of equivalent games as representatives with their synonyms.

use vstd::prelude::*;
use crate::board::{empty_grid, is_board, Board};
use crate::encode::{codes_of, collapse_classes, ClassCodes, GameData};
use crate::exhaustive::{holds_longer_games, lemma_walk_is_exhaustive};
use crate::games::{lemma_empty_game, record_of};
use crate::outcome::{
    all_of_length, all_on_boards, all_records, is_path, is_record, GameRecord, State,
    TicTacToeState,
};
use crate::reduce::{classes_under, reduce_states, reduction_of};
use crate::reduce_laws::lemma_reduction_keeps_paths;
use crate::walk::{counts_of, play_games, walk, TurnCounts, Walk};
use crate::walk_laws::{lemma_ply_lengths, lemma_walk_records, lemma_walk_turns, produced};

verus! {

/// How many finished games each outcome has.
#[derive(Debug, Clone, Copy, PartialEq, Eq, Structural)]
pub struct Totals {
    pub draws: usize,
    pub x_wins: usize,
    pub o_wins: usize,
}

/// What a run yields: the counts of each ply, the number of finished games
/// of each outcome, and for each outcome the classes of equivalent games.
#[derive(Debug, Clone, PartialEq, Eq)]
pub struct Enumeration {
    pub turns: Vec<TurnCounts>,
    pub totals: Totals,
    pub draws: Vec<GameData>,
    pub x_wins: Vec<GameData>,
    pub o_wins: Vec<GameData>,
}

/// The mathematical model of an `Enumeration`.
pub struct EnumerationModel {
    pub turns: Seq<TurnCounts>,
    pub totals: Totals,
    pub draws: Seq<ClassCodes>,
    pub x_wins: Seq<ClassCodes>,
    pub o_wins: Seq<ClassCodes>,
}

impl View for Enumeration {
    type V = EnumerationModel;

    open spec fn view(&self) -> EnumerationModel {
        EnumerationModel {
            turns: self.turns@,
            totals: self.totals,
            draws: self.draws.deep_view(),
            x_wins: self.x_wins.deep_view(),
            o_wins: self.o_wins.deep_view(),
        }
    }
}

/// The walk from the empty board with `'X'` to move at the ply numbered 1.
pub open spec fn first_walk() -> Walk {
    walk(seq![record_of(Seq::empty())], 'X', 1)
}

/// The classes of `records` in the form in which they are handed on: the
/// reduction of the records, each class as a representative and its synonyms.
pub open spec fn exported(records: Seq<GameRecord>) -> Seq<ClassCodes> {
    reduction_of(records).map_values(|class: Seq<Seq<u8>>| codes_of(class))
}

/// What a run yields.
pub open spec fn enumeration() -> EnumerationModel {
    EnumerationModel {
        turns: first_walk().turns,
        totals: Totals {
            draws: first_walk().draws.len() as usize,
            x_wins: first_walk().x_wins.len() as usize,
            o_wins: first_walk().o_wins.len() as usize,
        },
        draws: exported(first_walk().draws),
        x_wins: exported(first_walk().x_wins),
        o_wins: exported(first_walk().o_wins),
    }
}

/// The ply numbered `n` of the first walk produces the games of `n` moves:
/// its counts stand under the number `n`, and every record it produces is
/// well-formed, with a path of `n` moves and `n` marks on its board.
pub proof fn lemma_ply_number_is_path_length(n: nat)
    requires
        1 <= n <= first_walk().turns.len(),
    ensures
        first_walk().turns[n - 1] == counts_of(
            n as int,
            produced(seq![record_of(Seq::empty())], 'X', (n - 1) as nat),
        ),
        all_records(produced(seq![record_of(Seq::empty())], 'X', (n - 1) as nat)),
        all_of_length(produced(seq![record_of(Seq::empty())], 'X', (n - 1) as nat), n as int),
{
    let start = seq![record_of(Seq::<u8>::empty())];
    lemma_empty_game();
    lemma_walk_turns(start, 'X', 1, (n - 1) as nat);
    lemma_ply_lengths(start, 'X', 0, (n - 1) as nat);
}

/// The first walk finds every game: the bucket of each outcome holds
/// exactly the games that can be played from the empty board and end with
/// that outcome, each once.
pub proof fn lemma_first_walk_finds_all()
    ensures
        holds_longer_games(first_walk().draws, 0, TicTacToeState::Draw),
        holds_longer_games(first_walk().x_wins, 0, TicTacToeState::XWin),
        holds_longer_games(first_walk().o_wins, 0, TicTacToeState::OWin),
{
    lemma_walk_is_exhaustive(1);
}

/// Two runs yield the same: the same counts for each ply, the same totals,
/// and for each outcome the same classes with the same codes in the same order.
pub proof fn lemma_runs_agree(first: Enumeration, second: Enumeration)
    requires
        first@ == enumeration(),
        second@ == enumeration(),
    ensures
        first@ == second@,
{
}

/// The empty board.
pub fn empty_board() -> (board: Board)
    ensures
        board.deep_view() == empty_grid(),
        is_board(board.deep_view()),
{
    let mut board: Board = Vec::new();
    let mut rownum: usize = 0;
    while rownum < 3
        invariant
            rownum <= 3,
            board@.len() == rownum,
            forall|r: int| 0 <= r < rownum ==> (#[trigger] board@[r])@ == seq![' ', ' ', ' '],
        decreases 3 - rownum,
    {
        let mut row: Vec<char> = Vec::new();
        row.push(' ');
        row.push(' ');
        row.push(' ');
        board.push(row);
        rownum += 1;
    }
    proof {
        let g = board.deep_view();
        assert forall|r: int| 0 <= r < 3 implies #[trigger] g[r] =~= empty_grid()[r] by {}
    }
    board
}

/// The record of the game in which nothing has been played.
pub fn initial_state() -> (state: State)
    ensures
        state@ == record_of(Seq::empty()),
        is_record(state@),
{
    let state = State { board: empty_board(), path: Vec::new() };
    proof {
        lemma_empty_game();
    }
    state
}

/// The classes of equivalent games among `states`, each as a representative
/// and its synonyms.
pub fn export_games(states: Vec<State>) -> (data: Vec<GameData>)
    requires
        all_on_boards(states.deep_view()),
        forall|i: int| 0 <= i < states@.len() ==> is_path(#[trigger] states@[i]@.path),
    ensures
        data.deep_view() == exported(states.deep_view()),
{
    let ghost records = states.deep_view();
    let classes = reduce_states(states);
    proof {
        let model = classes.deep_view();
        lemma_reduction_keeps_paths(records, model);
        let keys = choose|keys: Seq<int>| classes_under(records, keys, model);
        assert forall|c: int| 0 <= c < classes@.len() implies (#[trigger] classes@[c])@.len()
            > 0 by {
            assert(model[c].len() > 0);
        }
        assert forall|c: int, i: int|
            0 <= c < classes@.len() && 0 <= i < classes@[c]@.len() implies is_path(
            #[trigger] classes@[c]@[i]@,
        ) by {
            assert(classes@[c]@[i].deep_view() =~= classes@[c]@[i]@);
            let r = choose|r: int|
                0 <= r < records.len() && (#[trigger] records[r]).path == model[c][i];
        }
    }
    collapse_classes(&classes)
}

/// Plays every game from the empty board and sorts the finished games into
/// classes of equivalent games.
pub fn enumerate_games() -> (run: Enumeration)
    ensures
        run@ == enumeration(),
{
    let mut start: Vec<State> = Vec::new();
    start.push(initial_state());
    let ghost frontier = start.deep_view();
    proof {
        assert(frontier =~= seq![record_of(Seq::empty())]);
        lemma_walk_records(frontier, 'X', 1);
    }
    let (games, turns) = play_games(start, 'X', 1);
    let totals = Totals {
        draws: games.draws.len(),
        x_wins: games.x_wins.len(),
        o_wins: games.o_wins.len(),
    };
    proof {
        lemma_paths_of_records(games.draws);
        lemma_paths_of_records(games.x_wins);
        lemma_paths_of_records(games.o_wins);
    }
    let draws = export_games(games.draws);
    let x_wins = export_games(games.x_wins);
    let o_wins = export_games(games.o_wins);
    Enumeration { turns, totals, draws, x_wins, o_wins }
}

/// Well-formed records have well-formed paths.
proof fn lemma_paths_of_records(states: Vec<State>)
    requires
        all_records(states.deep_view()),
    ensures
        forall|i: int| 0 <= i < states@.len() ==> is_path(#[trigger] states@[i]@.path),
{
    let records = states.deep_view();
    assert forall|i: int| 0 <= i < states@.len() implies is_path(#[trigger] states@[i]@.path) by {
        assert(is_record(records[i]));
    }
}

} // verus!
