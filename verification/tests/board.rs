use tictactoe::{
    apply_mark, empty_board, get_hash, get_ord, initial_state, is_valid_board, set_cell, Board,
};

fn board_of(rows: [&str; 3]) -> Board {
    rows.iter().map(|row| row.chars().collect()).collect()
}

#[test]
fn ordinals_of_the_three_marks() {
    assert_eq!(get_ord('X'), 1);
    assert_eq!(get_ord('O'), 2);
    assert_eq!(get_ord(' '), 3);
}

#[test]
fn well_formed_boards_are_three_by_three_with_marks() {
    assert!(is_valid_board(&empty_board()));
    assert!(is_valid_board(&board_of(["XO ", " XO", "O X"])));
    assert!(!is_valid_board(&board_of(["XO ", " XO", "O Y"])));
    assert!(!is_valid_board(&board_of(["xo ", "   ", "   "])));
    assert!(!is_valid_board(&vec![vec![' '; 3]; 2]));
    assert!(!is_valid_board(&vec![vec![' '; 3]; 4]));
    assert!(!is_valid_board(&vec![vec![' '; 3], vec![' '; 2], vec![' '; 3]]));
    assert!(!is_valid_board(&vec![vec![' '; 3], vec![' '; 3], vec![' '; 4]]));
    assert!(!is_valid_board(&Vec::new()));
}

#[test]
fn hash_of_the_empty_board() {
    assert_eq!(get_hash(&empty_board()), 333333333);
    assert_eq!(get_hash(&initial_state().board), 333333333);
}

#[test]
fn hash_reads_the_cells_in_row_major_order() {
    let board = board_of(["XO ", " XO", "O X"]);
    assert_eq!(get_hash(&board), 123312231);
}

#[test]
fn hash_of_the_fixture_board() {
    let board = board_of(["OXO", "XXO", "XOX"]);
    assert_eq!(get_hash(&board), 212112121);
}

#[test]
fn boards_that_differ_in_one_cell_have_different_hashes() {
    let base = board_of(["XO ", " XO", "O X"]);
    for row in 0..3 {
        for col in 0..3 {
            for mark in ['X', 'O', ' '] {
                if base[row][col] == mark {
                    continue;
                }
                let mut other = base.clone();
                set_cell(&mut other, row, col, mark);
                assert_ne!(get_hash(&base), get_hash(&other));
            }
        }
    }
}

#[test]
fn all_boards_have_distinct_hashes() {
    let marks = ['X', 'O', ' '];
    let mut hashes = Vec::new();
    for code in 0..19683u32 {
        let mut rest = code;
        let mut board = empty_board();
        for row in 0..3 {
            for col in 0..3 {
                board[row][col] = marks[(rest % 3) as usize];
                rest /= 3;
            }
        }
        hashes.push(get_hash(&board));
    }
    hashes.sort_unstable();
    hashes.dedup();
    assert_eq!(hashes.len(), 19683);
}

#[test]
fn apply_mark_fills_one_cell_of_a_copy() {
    let board = board_of(["XO ", "   ", "   "]);
    let next = apply_mark(&board, 1, 2, 'X');
    assert_eq!(next, board_of(["XO ", "  X", "   "]));
    assert_eq!(board, board_of(["XO ", "   ", "   "]));
}

#[test]
fn set_cell_writes_in_place() {
    let mut board = empty_board();
    set_cell(&mut board, 2, 0, 'O');
    assert_eq!(board, board_of(["   ", "   ", "O  "]));
    set_cell(&mut board, 2, 0, ' ');
    assert_eq!(board, empty_board());
}

#[test]
fn empty_board_is_three_rows_of_three_empty_cells() {
    assert_eq!(empty_board(), vec![vec![' '; 3]; 3]);
    let state = initial_state();
    assert_eq!(state.board, vec![vec![' '; 3]; 3]);
    assert!(state.path.is_empty());
}
