use tictactoe::{
    generate_next_turns, get_next_player, get_ord_from_coords, initial_state, Board, State,
};

fn board_of(rows: [&str; 3]) -> Board {
    rows.iter().map(|row| row.chars().collect()).collect()
}

fn filled(board: &Board) -> usize {
    board.iter().flatten().filter(|&&c| c != ' ').count()
}

#[test]
fn cell_identifiers_run_from_one_to_nine_in_row_major_order() {
    assert_eq!(get_ord_from_coords(0, 0), 1);
    assert_eq!(get_ord_from_coords(0, 2), 3);
    assert_eq!(get_ord_from_coords(1, 0), 4);
    assert_eq!(get_ord_from_coords(1, 1), 5);
    assert_eq!(get_ord_from_coords(2, 1), 8);
    assert_eq!(get_ord_from_coords(2, 2), 9);
    let mut expected = 1;
    for row in 0..3 {
        for col in 0..3 {
            assert_eq!(get_ord_from_coords(row, col), expected);
            expected += 1;
        }
    }
}

#[test]
fn players_take_turns() {
    assert_eq!(get_next_player('X'), 'O');
    assert_eq!(get_next_player('O'), 'X');
    assert_eq!(get_next_player(' '), 'X');
}

#[test]
fn first_move_has_nine_successors_in_row_major_order() {
    let next = generate_next_turns(initial_state(), 'X');
    assert_eq!(next.len(), 9);
    for (i, state) in next.iter().enumerate() {
        assert_eq!(state.path, vec![i as u8 + 1]);
        let mut expected = vec![vec![' '; 3]; 3];
        expected[i / 3][i % 3] = 'X';
        assert_eq!(state.board, expected);
    }
}

#[test]
fn successors_fill_the_empty_cells_only() {
    let state = State { board: board_of(["XO ", " X ", "O  "]), path: vec![1, 2, 5, 7] };
    let next = generate_next_turns(state, 'O');
    let paths: Vec<Vec<u8>> = next.iter().map(|s| s.path.clone()).collect();
    assert_eq!(
        paths,
        vec![
            vec![1, 2, 5, 7, 3],
            vec![1, 2, 5, 7, 4],
            vec![1, 2, 5, 7, 6],
            vec![1, 2, 5, 7, 8],
            vec![1, 2, 5, 7, 9],
        ]
    );
    assert_eq!(next[0].board, board_of(["XOO", " X ", "O  "]));
    assert_eq!(next[1].board, board_of(["XO ", "OX ", "O  "]));
    assert_eq!(next[2].board, board_of(["XO ", " XO", "O  "]));
    assert_eq!(next[3].board, board_of(["XO ", " X ", "OO "]));
    assert_eq!(next[4].board, board_of(["XO ", " X ", "O O"]));
}

#[test]
fn full_board_has_no_successors() {
    let state = State {
        board: board_of(["XOX", "XOO", "OXX"]),
        path: vec![1, 2, 3, 5, 4, 6, 8, 7, 9],
    };
    assert!(generate_next_turns(state, 'X').is_empty());
}

#[test]
fn board_with_one_empty_cell_has_one_successor() {
    let state = State {
        board: board_of(["XOX", "XOO", "OX "]),
        path: vec![1, 2, 3, 5, 4, 6, 8, 7],
    };
    let next = generate_next_turns(state, 'X');
    assert_eq!(next.len(), 1);
    assert_eq!(next[0].board, board_of(["XOX", "XOO", "OXX"]));
    assert_eq!(next[0].path, vec![1, 2, 3, 5, 4, 6, 8, 7, 9]);
}

#[test]
fn path_is_as_long_as_the_board_has_marks() {
    let mut frontier = vec![initial_state()];
    let mut player = 'X';
    for ply in 1..=4 {
        let mut next = Vec::new();
        for state in frontier {
            next.extend(generate_next_turns(state, player));
        }
        assert!(!next.is_empty());
        for state in &next {
            assert_eq!(state.path.len(), ply);
            assert_eq!(filled(&state.board), ply);
        }
        frontier = next;
        player = get_next_player(player);
    }
}
