//! The games that can be played: X moves first, the players take turns,
//! every move goes into an empty cell, and nobody moves once a game is won
//! or the board is full.

use vstd::prelude::*;
use crate::board::{
    empty_grid, lemma_mark_count, lemma_placed_counts, mark_count, open_count, placed, Grid,
};
use crate::outcome::{is_path, is_record, outcome_of, GameRecord, TicTacToeState};
use crate::turns::{cell_id, follows, lemma_follows, other_player, successor};

verus! {

/// The player who makes the move numbered `n`, counting from 0.
pub open spec fn mover(n: int) -> char {
    if n % 2 == 0 {
        'X'
    } else {
        'O'
    }
}

/// The row of the cell with the identifier `id`.
pub open spec fn row_of(id: int) -> int {
    (id - 1) / 3
}

/// The column of the cell with the identifier `id`.
pub open spec fn col_of(id: int) -> int {
    (id - 1) % 3
}

/// The board after the moves of `path` from the empty board.
pub open spec fn replay(path: Seq<u8>) -> Grid
    decreases path.len(),
{
    if path.len() == 0 {
        empty_grid()
    } else {
        placed(
            replay(path.drop_last()),
            row_of(path.last() as int),
            col_of(path.last() as int),
            mover(path.len() - 1),
        )
    }
}

/// The record of the game played by the moves of `path`.
pub open spec fn record_of(path: Seq<u8>) -> GameRecord {
    GameRecord { board: replay(path), path }
}

/// `path` is a game as it can be played: before each move the game was
/// open, and the move names a cell of the board that was empty.
pub open spec fn playable(path: Seq<u8>) -> bool
    decreases path.len(),
{
    path.len() == 0 || {
        &&& playable(path.drop_last())
        &&& outcome_of(record_of(path.drop_last())) == TicTacToeState::Intermediate
        &&& 1 <= path.last() <= 9
        &&& replay(path.drop_last())[row_of(path.last() as int)][col_of(path.last() as int)]
            == ' '
    }
}

/// `path` is a game of `length` moves that can be played and has the
/// outcome `outcome`.
pub open spec fn game_of(path: Seq<u8>, length: int, outcome: TicTacToeState) -> bool {
    playable(path) && path.len() == length && outcome_of(record_of(path)) == outcome
}

/// `path` is a game of more than `length` moves that can be played and has
/// the outcome `outcome`.
pub open spec fn longer_game_of(path: Seq<u8>, length: int, outcome: TicTacToeState) -> bool {
    playable(path) && path.len() > length && outcome_of(record_of(path)) == outcome
}

/// The record of the game in which nothing has been played is well-formed,
/// and the game is open.
pub proof fn lemma_empty_game()
    ensures
        is_record(record_of(Seq::empty())),
        game_of(Seq::empty(), 0, TicTacToeState::Intermediate),
        open_count(empty_grid()) == 9,
        mark_count(empty_grid(), 'X') == 0,
        mark_count(empty_grid(), 'O') == 0,
{
    lemma_mark_count(empty_grid(), ' ');
    lemma_mark_count(empty_grid(), 'X');
    lemma_mark_count(empty_grid(), 'O');
}

/// The last move of a game that can be played leads from the record of the
/// game before it to the record of the game.
pub proof fn lemma_last_move(path: Seq<u8>)
    requires
        playable(path),
        path.len() > 0,
    ensures
        follows(record_of(path.drop_last()), mover(path.len() - 1), record_of(path)),
        record_of(path) == successor(
            record_of(path.drop_last()),
            row_of(path.last() as int),
            col_of(path.last() as int),
            mover(path.len() - 1),
        ),
{
    let before = path.drop_last();
    let id = path.last() as int;
    assert(before.push(id as u8) =~= path);
    assert(record_of(path) == successor(
        record_of(before),
        row_of(id),
        col_of(id),
        mover(path.len() - 1),
    ));
}

/// The record of a game that can be played is well-formed: its path has one
/// entry for each mark on its board.
pub proof fn lemma_playable_record(path: Seq<u8>)
    requires
        playable(path),
    ensures
        is_record(record_of(path)),
        is_path(path),
    decreases path.len(),
{
    if path.len() == 0 {
        lemma_empty_game();
    } else {
        lemma_playable_record(path.drop_last());
        lemma_last_move(path);
        lemma_follows(record_of(path.drop_last()), mover(path.len() - 1), record_of(path));
    }
}

/// A move into an empty cell of an open game that can be played gives a
/// game that can be played, one move longer.
pub proof fn lemma_next_move(path: Seq<u8>, row: int, col: int)
    requires
        playable(path),
        outcome_of(record_of(path)) == TicTacToeState::Intermediate,
        0 <= row < 3,
        0 <= col < 3,
        replay(path)[row][col] == ' ',
    ensures
        playable(path.push(cell_id(row, col) as u8)),
        successor(record_of(path), row, col, mover(path.len() as int)) == record_of(
            path.push(cell_id(row, col) as u8),
        ),
{
    let id = cell_id(row, col);
    let next = path.push(id as u8);
    assert(next.drop_last() =~= path);
}

/// Every beginning of a game that can be played is a game that can be
/// played, and is open if moves follow it.
pub proof fn lemma_beginning(path: Seq<u8>, n: int)
    requires
        playable(path),
        0 <= n <= path.len(),
    ensures
        playable(path.take(n)),
        n < path.len() ==> outcome_of(record_of(path.take(n))) == TicTacToeState::Intermediate,
    decreases path.len() - n,
{
    if n == path.len() {
        assert(path.take(n) =~= path);
    } else {
        lemma_beginning(path, n + 1);
        assert(path.take(n + 1).drop_last() =~= path.take(n));
    }
}

/// The players take turns on the board: after a game that can be played,
/// `'X'` has as many marks on the board as `'O'`, or one more.
pub proof fn lemma_marks_balanced(path: Seq<u8>)
    requires
        playable(path),
    ensures
        mark_count(replay(path), 'X') == (path.len() + 1) / 2,
        mark_count(replay(path), 'O') == path.len() / 2,
        mark_count(replay(path), 'X') - mark_count(replay(path), 'O') == path.len() % 2,
    decreases path.len(),
{
    if path.len() == 0 {
        lemma_empty_game();
    } else {
        let before = path.drop_last();
        let row = row_of(path.last() as int);
        let col = col_of(path.last() as int);
        lemma_marks_balanced(before);
        lemma_placed_counts(replay(before), row, col, mover(path.len() - 1), 'X');
        lemma_placed_counts(replay(before), row, col, mover(path.len() - 1), 'O');
    }
}

/// The players take turns.
pub proof fn lemma_movers_alternate(n: int)
    ensures
        mover(n + 1) == other_player(mover(n)),
        mover(n) == 'X' || mover(n) == 'O',
{
}

} // verus!
