//! Game records and their outcome: won by one side, drawn, or still open.

use vstd::prelude::*;
use crate::board::{filled_count, is_board, lemma_board_cells, Board, Grid};

verus! {

/// A game in progress or finished: the board, and the cells in the order in
/// which they were played, each named by its identifier from 1 to 9.
#[derive(Debug, Clone)]
pub struct State {
    pub board: Board,
    pub path: Vec<u8>,
}

/// The mathematical model of a `State`.
pub struct GameRecord {
    pub board: Grid,
    pub path: Seq<u8>,
}

impl View for State {
    type V = GameRecord;

    open spec fn view(&self) -> GameRecord {
        GameRecord { board: self.board.deep_view(), path: self.path@ }
    }
}

impl DeepView for State {
    type V = GameRecord;

    open spec fn deep_view(&self) -> GameRecord {
        self@
    }
}

/// How a game stands.
#[derive(Debug, Clone, Copy, PartialEq, Eq, Hash, Structural)]
pub enum TicTacToeState {
    /// Nobody has won and cells are left to play.
    Intermediate,
    /// The board is full and nobody has won.
    Draw,
    /// `'X'` holds a full line.
    XWin,
    /// `'O'` holds a full line, and `'X'` does not.
    OWin,
}

/// A path names at most nine cells, each by an identifier from 1 to 9.
pub open spec fn is_path(path: Seq<u8>) -> bool {
    &&& path.len() <= 9
    &&& forall|i: int| 0 <= i < path.len() ==> 1 <= #[trigger] path[i] <= 9
}

/// A well-formed record: a board, and a path with one entry for each cell
/// of the board that holds a player's mark.
pub open spec fn is_record(rec: GameRecord) -> bool {
    &&& is_board(rec.board)
    &&& is_path(rec.path)
    &&& rec.path.len() == filled_count(rec.board)
}

/// Every record of `records` holds a well-formed board.
pub open spec fn all_on_boards(records: Seq<GameRecord>) -> bool {
    forall|i: int| 0 <= i < records.len() ==> is_board(#[trigger] records[i].board)
}

/// Every record of `records` is well-formed.
pub open spec fn all_records(records: Seq<GameRecord>) -> bool {
    forall|i: int| 0 <= i < records.len() ==> is_record(#[trigger] records[i])
}

/// Every record of `records` has a path of `length` moves.
pub open spec fn all_of_length(records: Seq<GameRecord>, length: int) -> bool {
    forall|i: int| 0 <= i < records.len() ==> (#[trigger] records[i]).path.len() == length
}

/// The three cells of row `r` all hold `mark`.
pub open spec fn row_full(g: Grid, r: int, mark: char) -> bool {
    g[r][0] == mark && g[r][1] == mark && g[r][2] == mark
}

/// The three cells of column `c` all hold `mark`.
pub open spec fn col_full(g: Grid, c: int, mark: char) -> bool {
    g[0][c] == mark && g[1][c] == mark && g[2][c] == mark
}

/// Some row, some column or one of the two diagonals holds `mark` three times.
pub open spec fn wins(g: Grid, mark: char) -> bool {
    ||| row_full(g, 0, mark)
    ||| row_full(g, 1, mark)
    ||| row_full(g, 2, mark)
    ||| col_full(g, 0, mark)
    ||| col_full(g, 1, mark)
    ||| col_full(g, 2, mark)
    ||| (g[0][0] == mark && g[1][1] == mark && g[2][2] == mark)
    ||| (g[2][0] == mark && g[1][1] == mark && g[0][2] == mark)
}

/// The outcome of a record. A line of `'X'` is looked for first, so a board
/// with a line of each counts for `'X'`; a board without a line is drawn
/// once nine moves are on the path.
pub open spec fn outcome_of(rec: GameRecord) -> TicTacToeState {
    if wins(rec.board, 'X') {
        TicTacToeState::XWin
    } else if wins(rec.board, 'O') {
        TicTacToeState::OWin
    } else if rec.path.len() == 9 {
        TicTacToeState::Draw
    } else {
        TicTacToeState::Intermediate
    }
}

impl TicTacToeState {
    /// The name of the outcome as a sequence of characters.
    pub open spec fn label(self) -> Seq<char> {
        match self {
            TicTacToeState::Intermediate => "Intermediate"@,
            TicTacToeState::Draw => "Draw"@,
            TicTacToeState::XWin => "XWin"@,
            TicTacToeState::OWin => "OWin"@,
        }
    }

    /// The name of the outcome, as used to name what is written out for it.
    pub fn name(&self) -> (name: &'static str)
        ensures
            name@ == self.label(),
    {
        match self {
            TicTacToeState::Intermediate => "Intermediate",
            TicTacToeState::Draw => "Draw",
            TicTacToeState::XWin => "XWin",
            TicTacToeState::OWin => "OWin",
        }
    }
}

/// Whether `player` holds a full row, a full column or a full diagonal.
pub fn check_win_for(state: &Board, player: char) -> (won: bool)
    requires
        is_board(state.deep_view()),
    ensures
        won == wins(state.deep_view(), player),
{
    let ghost g = state.deep_view();
    proof {
        lemma_board_cells(*state);
    }
    let mut rownum: usize = 0;
    while rownum < 3
        invariant
            rownum <= 3,
            g == state.deep_view(),
            state@.len() == 3,
            forall|r: int| 0 <= r < 3 ==> (#[trigger] state@[r])@.len() == 3,
            forall|r: int, c: int|
                0 <= r < 3 && 0 <= c < 3 ==> #[trigger] state@[r]@[c] == g[r][c],
            forall|r: int| 0 <= r < rownum ==> !row_full(g, r, player),
        decreases 3 - rownum,
    {
        if state[rownum][0] == player && state[rownum][1] == player && state[rownum][2]
            == player {
            return true;
        }
        rownum += 1;
    }
    let mut colnum: usize = 0;
    while colnum < 3
        invariant
            colnum <= 3,
            g == state.deep_view(),
            state@.len() == 3,
            forall|r: int| 0 <= r < 3 ==> (#[trigger] state@[r])@.len() == 3,
            forall|r: int, c: int|
                0 <= r < 3 && 0 <= c < 3 ==> #[trigger] state@[r]@[c] == g[r][c],
            forall|r: int| 0 <= r < 3 ==> !row_full(g, r, player),
            forall|c: int| 0 <= c < colnum ==> !col_full(g, c, player),
        decreases 3 - colnum,
    {
        if state[0][colnum] == player && state[1][colnum] == player && state[2][colnum]
            == player {
            return true;
        }
        colnum += 1;
    }
    (state[0][0] == player && state[1][1] == player && state[2][2] == player) || (state[2][0]
        == player && state[1][1] == player && state[0][2] == player)
}

/// The outcome of a game record.
pub fn get_end_state(state: &State) -> (outcome: TicTacToeState)
    requires
        is_board(state@.board),
    ensures
        outcome == outcome_of(state@),
{
    if check_win_for(&state.board, 'X') {
        return TicTacToeState::XWin;
    }
    if check_win_for(&state.board, 'O') {
        return TicTacToeState::OWin;
    }
    if state.path.len() == 9 {
        return TicTacToeState::Draw;
    }
    TicTacToeState::Intermediate
}

} // verus!
