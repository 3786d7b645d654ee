//! The moves open to a player: one successor record for each empty cell.

use vstd::prelude::*;
use crate::board::{
    apply_mark, filled_count, is_board, is_player, lemma_board_cells, lemma_placed_fills_one,
    marks_before, open_count, placed,
};
use crate::outcome::{all_of_length, all_on_boards, all_records, is_record, GameRecord, State};

verus! {

/// The identifier of the cell at `row`, `col`: 1 to 9 in row-major order.
pub open spec fn cell_id(row: int, col: int) -> int {
    col + 3 * row + 1
}

/// The player who moves after `player`.
pub open spec fn other_player(player: char) -> char {
    if player == 'X' {
        'O'
    } else {
        'X'
    }
}

/// The record that follows `rec` when `player` moves into the cell at `row`, `col`.
pub open spec fn successor(rec: GameRecord, row: int, col: int, player: char) -> GameRecord {
    GameRecord {
        board: placed(rec.board, row, col, player),
        path: rec.path.push(cell_id(row, col) as u8),
    }
}

/// The successor of `rec` by a move of `player` into the cell numbered
/// `cell`, counting from 0 in row-major order.
pub open spec fn successor_at(rec: GameRecord, cell: int, player: char) -> GameRecord {
    successor(rec, cell / 3, cell % 3, player)
}

/// The successors of `rec` for `player` into the empty cells among the first
/// `k` cells, in row-major order of the cell played.
pub open spec fn successors_before(rec: GameRecord, player: char, k: nat) -> Seq<GameRecord>
    decreases k,
{
    if k == 0 {
        Seq::empty()
    } else {
        let earlier = successors_before(rec, player, (k - 1) as nat);
        if rec.board[(k - 1) / 3][(k - 1) % 3] == ' ' {
            earlier.push(successor_at(rec, k - 1, player))
        } else {
            earlier
        }
    }
}

/// All successors of `rec` for `player`: one for each empty cell, in
/// row-major order of the cell played.
pub open spec fn successors(rec: GameRecord, player: char) -> Seq<GameRecord> {
    successors_before(rec, player, 9)
}

/// `next` follows `rec` by a move of `player` into some empty cell.
pub open spec fn follows(rec: GameRecord, player: char, next: GameRecord) -> bool {
    exists|row: int, col: int|
        0 <= row < 3 && 0 <= col < 3 && rec.board[row][col] == ' ' && next == #[trigger] successor(
            rec,
            row,
            col,
            player,
        )
}

/// There are as many successors among the first `k` cells as empty cells,
/// and each comes from a move into an empty cell.
pub proof fn lemma_successors_before(rec: GameRecord, player: char, k: nat)
    requires
        k <= 9,
    ensures
        successors_before(rec, player, k).len() == marks_before(rec.board, ' ', k),
        forall|i: int|
            0 <= i < successors_before(rec, player, k).len() ==> follows(
                rec,
                player,
                #[trigger] successors_before(rec, player, k)[i],
            ),
    decreases k,
{
    if k > 0 {
        lemma_successors_before(rec, player, (k - 1) as nat);
    }
}

/// The successors among the first `k` cells come in the order of the cells
/// played, one for each empty cell: their last moves ascend, and the
/// successor into each empty cell is among them.
pub proof fn lemma_successors_cells(rec: GameRecord, player: char, k: nat)
    requires
        k <= 9,
    ensures
        forall|i: int|
            0 <= i < successors_before(rec, player, k).len() ==> 1 <= (
            #[trigger] successors_before(rec, player, k)[i]).path.last() <= k,
        forall|i: int, j: int|
            0 <= i < j < successors_before(rec, player, k).len() ==> (
            #[trigger] successors_before(rec, player, k)[i]).path.last() < (
            #[trigger] successors_before(rec, player, k)[j]).path.last(),
        forall|cell: int|
            0 <= cell < k && rec.board[cell / 3][cell % 3] == ' ' ==> successors_before(
                rec,
                player,
                k,
            ).contains(#[trigger] successor_at(rec, cell, player)),
    decreases k,
{
    if k > 0 {
        lemma_successors_cells(rec, player, (k - 1) as nat);
        let earlier = successors_before(rec, player, (k - 1) as nat);
        let all = successors_before(rec, player, k);
        let added = successor_at(rec, k - 1, player);
        assert forall|cell: int|
            0 <= cell < k && rec.board[cell / 3][cell % 3] == ' ' implies all.contains(
            #[trigger] successor_at(rec, cell, player),
        ) by {
            if cell < k - 1 {
                let i = choose|i: int|
                    0 <= i < earlier.len() && earlier[i] == successor_at(rec, cell, player);
                assert(all[i] == earlier[i]);
            } else {
                assert(all[all.len() - 1] == added);
            }
        }
    }
}

/// A record that follows another has the other's path and one move more.
pub proof fn lemma_follows_path(rec: GameRecord, player: char, next: GameRecord)
    requires
        follows(rec, player, next),
    ensures
        next.path.len() == rec.path.len() + 1,
        next.path.drop_last() == rec.path,
{
}

/// A move fills one cell and adds its identifier to the path: the record
/// that follows has a board, one empty cell fewer and one more entry on its
/// path. If the record before it is well-formed, so is it: the length of
/// its path is the number of marks on its board.
pub proof fn lemma_follows(rec: GameRecord, player: char, next: GameRecord)
    requires
        is_board(rec.board),
        is_player(player),
        follows(rec, player, next),
    ensures
        is_board(next.board),
        open_count(next.board) == open_count(rec.board) - 1,
        filled_count(next.board) == filled_count(rec.board) + 1,
        next.path.len() == rec.path.len() + 1,
        next.path.drop_last() == rec.path,
        1 <= next.path.last() <= 9,
        is_record(rec) ==> is_record(next),
{
    let (row, col) = choose|row: int, col: int|
        0 <= row < 3 && 0 <= col < 3 && rec.board[row][col] == ' ' && next
            == #[trigger] successor(rec, row, col, player);
    lemma_placed_fills_one(rec.board, row, col, player);
}

/// A record has one successor for each empty cell, none if the board is
/// full, and each follows the record by a move.
pub proof fn lemma_successors(rec: GameRecord, player: char)
    ensures
        successors(rec, player).len() == open_count(rec.board),
        forall|i: int|
            0 <= i < successors(rec, player).len() ==> follows(
                rec,
                player,
                #[trigger] successors(rec, player)[i],
            ),
{
    lemma_successors_before(rec, player, 9);
}

/// The identifier under which a move into the cell at `row`, `col` is recorded.
pub fn get_ord_from_coords(row: usize, col: usize) -> (id: u8)
    requires
        row < 3,
        col < 3,
    ensures
        id == cell_id(row as int, col as int),
{
    let id: usize = col + (3 * row) + 1;
    id as u8
}

/// The player who moves after `player`.
pub fn get_next_player(player: char) -> (next: char)
    ensures
        next == other_player(player),
{
    if player == 'X' {
        return 'O';
    }
    'X'
}

/// The records that follow `state` when `player` moves: one for each empty
/// cell, in row-major order of the cell played.
pub fn generate_next_turns(state: State, player: char) -> (res: Vec<State>)
    requires
        is_board(state@.board),
        is_player(player),
    ensures
        res.deep_view() == successors(state@, player),
        res@.len() == 9 - filled_count(state@.board),
        all_on_boards(res.deep_view()),
        all_of_length(res.deep_view(), state@.path.len() as int + 1),
        is_record(state@) ==> all_records(res.deep_view()),
{
    let ghost rec = state@;
    proof {
        lemma_board_cells(state.board);
        lemma_successors(rec, player);
        assert forall|i: int| 0 <= i < successors(rec, player).len() implies {
            let next = #[trigger] successors(rec, player)[i];
            &&& is_board(next.board)
            &&& next.path.len() == rec.path.len() + 1
            &&& is_record(rec) ==> is_record(next)
        } by {
            lemma_follows(rec, player, successors(rec, player)[i]);
        }
    }
    let mut res: Vec<State> = Vec::new();
    let mut rownum: usize = 0;
    while rownum < 3
        invariant
            rownum <= 3,
            rec == state@,
            is_board(rec.board),
            is_player(player),
            state.board@.len() == 3,
            forall|r: int| 0 <= r < 3 ==> (#[trigger] state.board@[r])@.len() == 3,
            forall|r: int, c: int|
                0 <= r < 3 && 0 <= c < 3 ==> #[trigger] state.board@[r]@[c] == rec.board[r][c],
            res.deep_view() == successors_before(rec, player, (3 * rownum) as nat),
        decreases 3 - rownum,
    {
        let mut colnum: usize = 0;
        while colnum < 3
            invariant
                rownum < 3,
                colnum <= 3,
                rec == state@,
                is_board(rec.board),
                is_player(player),
                state.board@.len() == 3,
                forall|r: int| 0 <= r < 3 ==> (#[trigger] state.board@[r])@.len() == 3,
                forall|r: int, c: int|
                    0 <= r < 3 && 0 <= c < 3 ==> #[trigger] state.board@[r]@[c]
                        == rec.board[r][c],
                res.deep_view() == successors_before(rec, player, (3 * rownum + colnum) as nat),
            decreases 3 - colnum,
        {
            if state.board[rownum][colnum] == ' ' {
                let board = apply_mark(&state.board, rownum, colnum, player);
                let mut path = state.path.clone();
                path.push(get_ord_from_coords(rownum, colnum));
                let next = State { board, path };
                res.push(next);
            }
            colnum += 1;
        }
        rownum += 1;
    }
    res
}

} // verus!
