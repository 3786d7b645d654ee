use tictactoe::{initial_state, merge_runs, sort_range, State};

fn with_path(path: &[u8]) -> State {
    State { board: initial_state().board, path: path.to_vec() }
}

fn sample() -> (Vec<u32>, Vec<State>) {
    let keys = vec![30, 10, 20, 10, 30, 10];
    let states = vec![
        with_path(&[5, 1]),
        with_path(&[2, 9]),
        with_path(&[7]),
        with_path(&[2, 3]),
        with_path(&[5]),
        with_path(&[1, 9, 9]),
    ];
    (keys, states)
}

#[test]
fn numbers_come_in_the_order_of_key_and_path() {
    let (keys, states) = sample();
    assert_eq!(sort_range(&keys, &states, 0, 6), vec![5, 3, 1, 2, 4, 0]);
}

#[test]
fn only_the_numbers_of_the_range_are_sorted() {
    let (keys, states) = sample();
    assert_eq!(sort_range(&keys, &states, 1, 4), vec![3, 1, 2]);
    assert_eq!(sort_range(&keys, &states, 4, 6), vec![5, 4]);
    assert_eq!(sort_range(&keys, &states, 2, 3), vec![2]);
    assert!(sort_range(&keys, &states, 3, 3).is_empty());
}

#[test]
fn sorting_keeps_every_number_once() {
    let keys: Vec<u32> = (0..50u32).map(|i| (i * 37) % 11).collect();
    let states: Vec<State> = (0..50u8).map(|i| with_path(&[i % 7 + 1, i % 3 + 1])).collect();
    let order = sort_range(&keys, &states, 0, 50);
    let mut seen = order.clone();
    seen.sort_unstable();
    assert_eq!(seen, (0..50).collect::<Vec<usize>>());
    for pair in order.windows(2) {
        let a = (keys[pair[0]], &states[pair[0]].path);
        let b = (keys[pair[1]], &states[pair[1]].path);
        assert!(a <= b);
    }
}

#[test]
fn merging_two_runs_gives_one_run_in_order() {
    let (keys, states) = sample();
    let left = vec![3, 1, 0];
    let right = vec![5, 2, 4];
    assert_eq!(merge_runs(&keys, &states, &left, &right), vec![5, 3, 1, 2, 4, 0]);
    assert_eq!(merge_runs(&keys, &states, &right, &left), vec![5, 3, 1, 2, 4, 0]);
}

#[test]
fn merging_with_an_empty_run_gives_the_other() {
    let (keys, states) = sample();
    let run = vec![5, 3, 1];
    assert_eq!(merge_runs(&keys, &states, &run, &Vec::new()), run);
    assert_eq!(merge_runs(&keys, &states, &Vec::new(), &run), run);
    assert!(merge_runs(&keys, &states, &Vec::new(), &Vec::new()).is_empty());
}

#[test]
fn equal_entries_keep_the_left_run_first() {
    let keys = vec![1, 1];
    let states = vec![with_path(&[4]), with_path(&[4])];
    assert_eq!(merge_runs(&keys, &states, &vec![1], &vec![0]), vec![1, 0]);
    assert_eq!(sort_range(&keys, &states, 0, 2), vec![0, 1]);
}
