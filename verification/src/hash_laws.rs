//! What holds of the hash for every board: boards and nine-digit numerals
//! over the digits 1, 2 and 3 correspond one to one.

use vstd::prelude::*;
use crate::board::{cells, decimal, hash_of, is_board, ord_of, Grid};
use crate::symmetry::lemma_grid_equal;

verus! {

/// Numerals of the same length with digits from 0 to 9 that have the same
/// value have the same digits.
pub proof fn lemma_decimal_injective(a: Seq<int>, b: Seq<int>)
    requires
        a.len() == b.len(),
        forall|i: int| 0 <= i < a.len() ==> 0 <= #[trigger] a[i] <= 9,
        forall|i: int| 0 <= i < b.len() ==> 0 <= #[trigger] b[i] <= 9,
        decimal(a) == decimal(b),
    ensures
        a == b,
    decreases a.len(),
{
    if a.len() > 0 {
        lemma_decimal_injective(a.drop_last(), b.drop_last());
        assert(a =~= a.drop_last().push(a.last()));
    }
}

/// Boards with the same hash are the same board: two boards that differ in
/// at least one cell have different hashes.
pub proof fn lemma_hash_injective(a: Grid, b: Grid)
    requires
        is_board(a),
        is_board(b),
        hash_of(a) == hash_of(b),
    ensures
        a == b,
{
    let da = cells(a).map_values(|c: char| ord_of(c));
    let db = cells(b).map_values(|c: char| ord_of(c));
    lemma_decimal_injective(da, db);
    assert forall|r: int, c: int| 0 <= r < 3 && 0 <= c < 3 implies #[trigger] a[r][c]
        == b[r][c] by {
        let k = 3 * r + c;
        assert(da[k] == db[k]);
    }
    lemma_grid_equal(a, b);
}

/// Two boards that differ in a cell have different hashes.
pub proof fn lemma_hash_tells_boards_apart(a: Grid, b: Grid, row: int, col: int)
    requires
        is_board(a),
        is_board(b),
        0 <= row < 3,
        0 <= col < 3,
        a[row][col] != b[row][col],
    ensures
        hash_of(a) != hash_of(b),
{
    if hash_of(a) == hash_of(b) {
        lemma_hash_injective(a, b);
    }
}

/// The mark that a digit of a hash stands for.
pub open spec fn mark_of(digit: int) -> char {
    if digit == 1 {
        'X'
    } else if digit == 2 {
        'O'
    } else {
        ' '
    }
}

/// Every numeral of nine digits from 1 to 3 is the hash of a board, so the
/// boards and these numerals correspond one to one.
pub proof fn lemma_every_numeral_is_a_hash(digits: Seq<int>)
    requires
        digits.len() == 9,
        forall|i: int| 0 <= i < 9 ==> 1 <= #[trigger] digits[i] <= 3,
    ensures
        exists|g: Grid| is_board(g) && hash_of(g) == decimal(digits),
{
    let g = Seq::new(3, |r: int| Seq::new(3, |c: int| mark_of(digits[3 * r + c])));
    assert(is_board(g)) by {}
    let of_board = cells(g).map_values(|c: char| ord_of(c));
    assert(of_board =~= digits) by {}
}

/// The hash of a board is a numeral of nine digits from 1 to 3.
pub proof fn lemma_hash_range(g: Grid)
    requires
        is_board(g),
    ensures
        111_111_111 <= hash_of(g) <= 333_333_333,
{
    reveal_with_fuel(decimal, 10);
}

} // verus!
