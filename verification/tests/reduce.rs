use tictactoe::{
    collapse_game, get_smallest_hash, path_in_order, reduce_states, reflect_board_x,
    reflect_board_y, rotate_board, Board, State,
};

fn test_state() -> State {
    let board = vec![
        vec!['X', 'X', 'O'],
        vec!['O', 'X', 'X'],
        vec!['X', 'O', 'O'],
    ];
    let path = vec![1, 3, 5, 4, 7, 9, 2, 8, 6];
    State { board, path }
}

fn board_of(rows: [&str; 3]) -> Board {
    rows.iter().map(|row| row.chars().collect()).collect()
}

fn state_of(rows: [&str; 3], path: &[u8]) -> State {
    State { board: board_of(rows), path: path.to_vec() }
}

fn sample() -> Vec<State> {
    vec![
        state_of(["XXX", "OO ", "   "], &[1, 4, 2, 5, 3]),
        state_of(["  X", " OX", " OX"], &[3, 5, 6, 8, 9]),
        state_of(["XXX", "OO ", "   "], &[3, 5, 2, 4, 1]),
        state_of(["XOX", "XOO", "OXX"], &[1, 2, 3, 5, 4, 6, 8, 7, 9]),
        state_of(["   ", " OO", "XXX"], &[7, 5, 8, 6, 9]),
        state_of(["XXX", "OO ", "   "], &[1, 4, 2, 5, 3]),
        state_of(["XX ", "OOO", "X  "], &[1, 4, 2, 5, 7, 6]),
    ]
}

#[test]
fn test_reduction() {
    let state = test_state();
    let mut state2 = test_state();
    rotate_board(&mut state2.board);
    let states = vec![state2, state];

    let reduced = reduce_states(states);

    let paths = &reduced[0];
    assert_eq!(paths.len(), 2);
}

#[test]
fn test_collapse_game() {
    let input = vec![1, 2, 3, 4];
    let result = collapse_game(&input);

    assert_eq!(result, 1234);
}

#[test]
fn rotated_boards_share_a_class_whatever_the_order() {
    let first = State { board: test_state().board, path: vec![1, 3, 5, 4, 7, 9, 2, 8, 6] };
    let mut second = State { board: test_state().board, path: vec![1, 2, 5, 4, 7, 9, 3, 8, 6] };
    rotate_board(&mut second.board);
    let expected = vec![vec![
        vec![1, 2, 5, 4, 7, 9, 3, 8, 6],
        vec![1, 3, 5, 4, 7, 9, 2, 8, 6],
    ]];
    assert_eq!(reduce_states(vec![first.clone(), second.clone()]), expected);
    assert_eq!(reduce_states(vec![second, first]), expected);
}

#[test]
fn reduction_of_nothing_is_nothing() {
    assert!(reduce_states(Vec::new()).is_empty());
}

#[test]
fn reduction_of_one_record_is_one_class_of_one_path() {
    let reduced = reduce_states(vec![test_state()]);
    assert_eq!(reduced, vec![vec![vec![1, 3, 5, 4, 7, 9, 2, 8, 6]]]);
}

#[test]
fn classes_come_by_ascending_key_with_their_paths_in_order() {
    let reduced = reduce_states(sample());
    assert_eq!(
        reduced,
        vec![
            vec![
                vec![1, 4, 2, 5, 3],
                vec![1, 4, 2, 5, 3],
                vec![3, 5, 2, 4, 1],
                vec![3, 5, 6, 8, 9],
                vec![7, 5, 8, 6, 9],
            ],
            vec![vec![1, 2, 3, 5, 4, 6, 8, 7, 9]],
            vec![vec![1, 4, 2, 5, 7, 6]],
        ]
    );
}

#[test]
fn reduction_does_not_depend_on_the_order_of_the_records() {
    let expected = reduce_states(sample());
    let mut reversed = sample();
    reversed.reverse();
    assert_eq!(reduce_states(reversed), expected);
    let mut turned = sample();
    turned.rotate_left(3);
    assert_eq!(reduce_states(turned), expected);
    let mut swapped = sample();
    swapped.swap(0, 6);
    swapped.swap(2, 4);
    assert_eq!(reduce_states(swapped), expected);
}

#[test]
fn reduction_keeps_every_path() {
    let reduced = reduce_states(sample());
    let mut paths: Vec<Vec<u8>> = reduced.into_iter().flatten().collect();
    paths.sort();
    let mut expected: Vec<Vec<u8>> = sample().into_iter().map(|s| s.path).collect();
    expected.sort();
    assert_eq!(paths, expected);
}

#[test]
fn mirrored_boards_share_a_class() {
    let base = state_of(["XO ", " X ", "O X"], &[1, 2, 5, 7, 9]);
    let across = State { board: reflect_board_x(&base.board), path: vec![7, 8, 5, 1, 3] };
    let along = State { board: reflect_board_y(&base.board), path: vec![3, 2, 5, 9, 7] };
    let other = state_of(["XO ", " X ", "  X"], &[1, 2, 5, 9]);
    let key = get_smallest_hash(&base.board).0;
    assert_eq!(get_smallest_hash(&across.board).0, key);
    assert_eq!(get_smallest_hash(&along.board).0, key);
    assert_ne!(get_smallest_hash(&other.board).0, key);
    let reduced = reduce_states(vec![other, along, base, across]);
    assert_eq!(reduced.len(), 2);
    let class: &Vec<Vec<u8>> = reduced.iter().find(|class| class.len() == 3).unwrap();
    assert_eq!(
        class,
        &vec![vec![1, 2, 5, 7, 9], vec![3, 2, 5, 9, 7], vec![7, 8, 5, 1, 3]]
    );
}

#[test]
fn paths_are_ordered_like_words() {
    assert!(path_in_order(&vec![1, 2, 3], &vec![1, 2, 3]));
    assert!(path_in_order(&vec![1, 2, 3], &vec![1, 2, 4]));
    assert!(!path_in_order(&vec![1, 2, 4], &vec![1, 2, 3]));
    assert!(path_in_order(&vec![1, 2], &vec![1, 2, 3]));
    assert!(!path_in_order(&vec![1, 2, 3], &vec![1, 2]));
    assert!(path_in_order(&vec![], &vec![1]));
    assert!(path_in_order(&vec![], &vec![]));
    assert!(!path_in_order(&vec![1], &vec![]));
    assert!(path_in_order(&vec![1, 9, 9], &vec![2]));
    assert!(!path_in_order(&vec![2], &vec![1, 9, 9]));
}

#[test]
fn paths_are_ordered_as_the_standard_order_of_vectors() {
    let paths: Vec<Vec<u8>> = vec![
        vec![],
        vec![1],
        vec![1, 1],
        vec![1, 2],
        vec![2],
        vec![2, 1, 9],
        vec![9, 1],
        vec![9, 1, 1],
    ];
    for a in &paths {
        for b in &paths {
            assert_eq!(path_in_order(a, b), a <= b);
        }
    }
}
