use tictactoe::{check_win_for, get_end_state, Board, State, TicTacToeState};

fn board_of(rows: [&str; 3]) -> Board {
    rows.iter().map(|row| row.chars().collect()).collect()
}

fn state_of(rows: [&str; 3], path: &[u8]) -> State {
    State { board: board_of(rows), path: path.to_vec() }
}

#[test]
fn each_row_wins() {
    assert!(check_win_for(&board_of(["XXX", "O O", "   "]), 'X'));
    assert!(check_win_for(&board_of(["O O", "XXX", "   "]), 'X'));
    assert!(check_win_for(&board_of(["O O", "   ", "XXX"]), 'X'));
}

#[test]
fn each_column_wins() {
    assert!(check_win_for(&board_of(["OX ", "O X", "O  "]), 'O'));
    assert!(check_win_for(&board_of(["XO ", " OX", " O "]), 'O'));
    assert!(check_win_for(&board_of(["X O", " XO", "  O"]), 'O'));
}

#[test]
fn both_diagonals_win() {
    assert!(check_win_for(&board_of(["XO ", "OX ", "  X"]), 'X'));
    assert!(check_win_for(&board_of(["XXO", " O ", "O X"]), 'O'));
}

#[test]
fn two_in_a_line_do_not_win() {
    let board = board_of(["XX ", "OO ", "X O"]);
    assert!(!check_win_for(&board, 'X'));
    assert!(!check_win_for(&board, 'O'));
    assert!(!check_win_for(&board_of(["   ", "   ", "   "]), 'X'));
}

#[test]
fn a_line_counts_only_for_its_own_mark() {
    let board = board_of(["XXX", "OO ", " X "]);
    assert!(check_win_for(&board, 'X'));
    assert!(!check_win_for(&board, 'O'));
    assert!(!check_win_for(&board, ' '));
}

#[test]
fn empty_line_wins_for_the_empty_mark_only() {
    let board = board_of(["   ", "XOX", "OXO"]);
    assert!(check_win_for(&board, ' '));
    assert!(!check_win_for(&board, 'X'));
}

#[test]
fn outcome_of_a_win_for_x() {
    let state = state_of(["XXX", "OO ", "   "], &[1, 4, 2, 5, 3]);
    assert_eq!(get_end_state(&state), TicTacToeState::XWin);
}

#[test]
fn outcome_of_a_win_for_o() {
    let state = state_of(["XX ", "OOO", "X  "], &[1, 4, 2, 5, 7, 6]);
    assert_eq!(get_end_state(&state), TicTacToeState::OWin);
}

#[test]
fn outcome_of_a_full_board_without_a_line_is_a_draw() {
    let state = state_of(["XOX", "XOO", "OXX"], &[1, 2, 3, 5, 4, 6, 8, 7, 9]);
    assert_eq!(get_end_state(&state), TicTacToeState::Draw);
}

#[test]
fn outcome_of_an_open_game_is_intermediate() {
    let state = state_of(["XO ", "   ", "   "], &[1, 2]);
    assert_eq!(get_end_state(&state), TicTacToeState::Intermediate);
    let start = state_of(["   ", "   ", "   "], &[]);
    assert_eq!(get_end_state(&start), TicTacToeState::Intermediate);
}

#[test]
fn a_line_of_each_counts_for_x() {
    let state = state_of(["XXX", "OOO", "   "], &[1, 4, 2, 5, 3, 6]);
    assert_eq!(get_end_state(&state), TicTacToeState::XWin);
}

#[test]
fn a_win_on_the_ninth_move_is_a_win_not_a_draw() {
    let state = state_of(["XOX", "OXO", "OXX"], &[1, 2, 3, 4, 5, 6, 8, 7, 9]);
    assert_eq!(get_end_state(&state), TicTacToeState::XWin);
}

#[test]
fn the_length_of_the_path_decides_a_draw() {
    let full = ["XOX", "XOO", "OXX"];
    let short = state_of(full, &[1, 2, 3]);
    assert_eq!(get_end_state(&short), TicTacToeState::Intermediate);
    let nine = state_of(["XO ", "   ", "   "], &[1, 2, 3, 4, 5, 6, 7, 8, 9]);
    assert_eq!(get_end_state(&nine), TicTacToeState::Draw);
}

#[test]
fn names_of_the_outcomes() {
    assert_eq!(TicTacToeState::Intermediate.name(), "Intermediate");
    assert_eq!(TicTacToeState::Draw.name(), "Draw");
    assert_eq!(TicTacToeState::XWin.name(), "XWin");
    assert_eq!(TicTacToeState::OWin.name(), "OWin");
}
