use tictactoe::{
    get_hash, get_smallest_hash, reflect_board, reflect_board_backward_diag,
    reflect_board_forward_diag, reflect_board_x, reflect_board_y, rotate_board, Board, State,
};

fn test_state() -> State {
    let board = vec![
        vec!['X', 'X', 'O'],
        vec!['O', 'X', 'X'],
        vec!['X', 'O', 'O'],
    ];
    let path = vec![1, 3, 5, 4, 7, 9, 2, 8, 6];
    State { board, path }
}

fn board_of(rows: [&str; 3]) -> Board {
    rows.iter().map(|row| row.chars().collect()).collect()
}

fn rotated(board: &Board) -> Board {
    let mut turned = board.clone();
    rotate_board(&mut turned);
    turned
}

fn sample_boards() -> Vec<Board> {
    vec![
        board_of(["   ", "   ", "   "]),
        board_of(["X  ", "   ", "   "]),
        board_of(["XO ", " X ", "  O"]),
        board_of(["XXO", "OXX", "XOO"]),
        board_of(["OXO", "XXO", "XOX"]),
        board_of(["XOX", "OXO", "OXO"]),
        board_of([" O ", "X X", " O "]),
    ]
}

fn images(board: &Board) -> Vec<Board> {
    let quarter = rotated(board);
    let half = rotated(&quarter);
    let three_quarters = rotated(&half);
    vec![
        board.clone(),
        quarter,
        half,
        three_quarters,
        reflect_board_x(board),
        reflect_board_y(board),
        reflect_board_forward_diag(board),
        reflect_board_backward_diag(board),
    ]
}

#[test]
fn test_hash() {
    let state = test_state();
    let hash = get_hash(&state.board);

    assert_eq!(hash, 112211122);
}

#[test]
fn test_rotate() {
    let mut state = test_state();
    rotate_board(&mut state.board);
    let hash = get_hash(&state.board);

    assert_eq!(hash, 212112121);
}

#[test]
fn test_get_smallest_hash() {
    let mut state = test_state();
    let (hash, is_smallest) = get_smallest_hash(&state.board);
    assert_eq!(hash, 112211122);
    assert!(is_smallest);

    rotate_board(&mut state.board);
    let (hash, is_smallest) = get_smallest_hash(&state.board);

    assert_eq!(hash, 112211122);
    assert!(!is_smallest);
}

#[test]
fn rotation_turns_anticlockwise() {
    let board = board_of(["XO ", "   ", "  O"]);
    assert_eq!(rotated(&board), board_of(["  O", "O  ", "X  "]));
}

#[test]
fn rotation_moves_each_cell_to_its_place() {
    let mut board = vec![
        vec!['X', 'O', ' '],
        vec!['O', ' ', 'X'],
        vec![' ', 'X', 'X'],
    ];
    rotate_board(&mut board);
    assert_eq!(
        board,
        vec![
            vec![' ', 'X', 'X'],
            vec!['O', ' ', 'X'],
            vec!['X', 'O', ' '],
        ]
    );
}

#[test]
fn fixture_board_rotated_once() {
    let mut board = board_of(["OXO", "XXO", "XOX"]);
    assert_eq!(get_hash(&board), 212112121);
    rotate_board(&mut board);
    assert_eq!(get_hash(&board), 221112211);
}

#[test]
fn fixture_board_has_the_canonical_key_of_its_orbit() {
    let board = board_of(["OXO", "XXO", "XOX"]);
    assert_eq!(get_smallest_hash(&board), (112211122, false));
    let canonical: Vec<Board> = images(&board)
        .into_iter()
        .filter(|image| get_hash(image) == 112211122)
        .collect();
    assert!(!canonical.is_empty());
    for image in canonical {
        assert_eq!(get_smallest_hash(&image), (112211122, true));
    }
}

#[test]
fn four_rotations_give_the_board_back() {
    for board in sample_boards() {
        let mut turned = board.clone();
        for _ in 0..4 {
            rotate_board(&mut turned);
        }
        assert_eq!(turned, board);
    }
}

#[test]
fn each_reflection_twice_gives_the_board_back() {
    for board in sample_boards() {
        assert_eq!(reflect_board_x(&reflect_board_x(&board)), board);
        assert_eq!(reflect_board_y(&reflect_board_y(&board)), board);
        assert_eq!(
            reflect_board_forward_diag(&reflect_board_forward_diag(&board)),
            board
        );
        assert_eq!(
            reflect_board_backward_diag(&reflect_board_backward_diag(&board)),
            board
        );
    }
}

#[test]
fn reflections_move_each_cell_to_its_place() {
    let board = board_of(["XO ", "O X", " XX"]);
    assert_eq!(reflect_board_x(&board), board_of([" XX", "O X", "XO "]));
    assert_eq!(reflect_board_y(&board), board_of([" OX", "X O", "XX "]));
    assert_eq!(
        reflect_board_forward_diag(&board),
        board_of(["XX ", "X O", " OX"])
    );
    assert_eq!(
        reflect_board_backward_diag(&board),
        board_of(["XO ", "O X", " XX"])
    );
    let other = board_of(["XXO", "   ", "O  "]);
    assert_eq!(
        reflect_board_backward_diag(&other),
        board_of(["X O", "X  ", "O  "])
    );
}

#[test]
fn reflect_board_exchanges_the_three_pairs() {
    let board = board_of(["XO ", "O X", " XX"]);
    let swapped = reflect_board(&board, 0, 0, 2, 2, 0, 1, 1, 1, 1, 0, 1, 2);
    assert_eq!(swapped, board_of(["X  ", "XOO", " XX"]));
}

#[test]
fn reflect_board_lets_the_later_assignment_stand() {
    let board = board_of(["XO ", "   ", "   "]);
    let swapped = reflect_board(&board, 0, 0, 0, 1, 0, 0, 0, 2, 2, 2, 2, 2);
    assert_eq!(swapped, board_of([" XX", "   ", "   "]));
}

#[test]
fn canonical_key_is_the_same_for_all_eight_images() {
    for board in sample_boards() {
        let (key, _) = get_smallest_hash(&board);
        let all = images(&board);
        let least = all.iter().map(get_hash).min().unwrap();
        assert_eq!(key, least);
        for image in &all {
            assert_eq!(get_smallest_hash(image).0, key);
        }
        assert!(all.iter().any(|image| get_smallest_hash(image).1));
    }
}

#[test]
fn canonical_flag_tells_whether_the_own_hash_is_least() {
    for board in sample_boards() {
        for image in images(&board) {
            let (key, is_smallest) = get_smallest_hash(&image);
            assert_eq!(is_smallest, get_hash(&image) == key);
        }
    }
}

#[test]
fn symmetric_board_is_its_own_canonical_form() {
    let board = board_of(["   ", " X ", "   "]);
    assert_eq!(get_smallest_hash(&board), (333313333, true));
    assert_eq!(get_smallest_hash(&board_of(["   ", "   ", "   "])), (333333333, true));
}
