use tictactoe::{
    classify, count_states, expand_states, get_end_state, initial_state, play_games, Board,
    Classified, State, TicTacToeState, TurnCounts,
};

fn board_of(rows: [&str; 3]) -> Board {
    rows.iter().map(|row| row.chars().collect()).collect()
}

fn state_of(rows: [&str; 3], path: &[u8]) -> State {
    State { board: board_of(rows), path: path.to_vec() }
}

fn paths(states: &[State]) -> Vec<Vec<u8>> {
    states.iter().map(|s| s.path.clone()).collect()
}

#[test]
fn classify_sorts_by_outcome_and_keeps_the_order() {
    let states = vec![
        state_of(["XO ", "   ", "   "], &[1, 2]),
        state_of(["XXX", "OO ", "   "], &[1, 4, 2, 5, 3]),
        state_of(["XOX", "XOO", "OXX"], &[1, 2, 3, 5, 4, 6, 8, 7, 9]),
        state_of(["XX ", "OOO", "X  "], &[1, 4, 2, 5, 7, 6]),
        state_of(["X  ", " O ", "   "], &[1, 5]),
        state_of(["XXX", "O O", "   "], &[1, 4, 2, 6, 3]),
    ];
    let sorted = classify(states);
    assert_eq!(paths(&sorted.intermediate), vec![vec![1, 2], vec![1, 5]]);
    assert_eq!(paths(&sorted.draws), vec![vec![1, 2, 3, 5, 4, 6, 8, 7, 9]]);
    assert_eq!(paths(&sorted.x_wins), vec![vec![1, 4, 2, 5, 3], vec![1, 4, 2, 6, 3]]);
    assert_eq!(paths(&sorted.o_wins), vec![vec![1, 4, 2, 5, 7, 6]]);
}

#[test]
fn classify_of_nothing_is_four_empty_buckets() {
    let sorted = classify(Vec::new());
    assert!(sorted.intermediate.is_empty());
    assert!(sorted.draws.is_empty());
    assert!(sorted.x_wins.is_empty());
    assert!(sorted.o_wins.is_empty());
}

#[test]
fn classify_loses_and_repeats_nothing() {
    let next = expand_states(expand_states(vec![initial_state()], 'X'), 'O');
    let all = paths(&next);
    let sorted = classify(next);
    let mut joined = paths(&sorted.intermediate);
    joined.extend(paths(&sorted.draws));
    joined.extend(paths(&sorted.x_wins));
    joined.extend(paths(&sorted.o_wins));
    assert_eq!(joined.len(), 72);
    joined.sort();
    let mut expected = all;
    expected.sort();
    assert_eq!(joined, expected);
}

#[test]
fn expansion_lists_the_successors_record_by_record() {
    let states = vec![
        state_of(["XOX", "XOO", "OX "], &[1, 2, 3, 5, 4, 6, 8, 7]),
        state_of(["XOX", "XOO", "OXX"], &[1, 2, 3, 5, 4, 6, 8, 7, 9]),
        state_of(["XOX", "XO ", "O  "], &[1, 2, 3, 5, 4, 7]),
    ];
    let next = expand_states(states, 'X');
    assert_eq!(
        paths(&next),
        vec![
            vec![1, 2, 3, 5, 4, 6, 8, 7, 9],
            vec![1, 2, 3, 5, 4, 7, 6],
            vec![1, 2, 3, 5, 4, 7, 8],
            vec![1, 2, 3, 5, 4, 7, 9],
        ]
    );
}

#[test]
fn counts_are_the_sizes_of_the_buckets() {
    let sorted = Classified {
        intermediate: vec![initial_state(), initial_state()],
        draws: Vec::new(),
        x_wins: vec![initial_state()],
        o_wins: vec![initial_state(), initial_state(), initial_state()],
    };
    assert_eq!(
        count_states(7, &sorted),
        TurnCounts { turn: 7, intermediate: 2, draws: 0, x_wins: 1, o_wins: 3 }
    );
}

#[test]
fn full_walk_counts_every_game() {
    let initial = State { board: vec![vec![' '; 3]; 3], path: Vec::new() };
    let (games, turns) = play_games(vec![initial], 'X', 1);
    assert_eq!(games.intermediate.len(), 0);
    assert_eq!(games.draws.len(), 46080);
    assert_eq!(games.x_wins.len(), 131184);
    assert_eq!(games.o_wins.len(), 77904);
    assert_eq!(games.draws.len() + games.x_wins.len() + games.o_wins.len(), 255168);
    assert_eq!(turns.len(), 9);
}

#[test]
fn full_walk_counts_each_ply() {
    let (_, turns) = play_games(vec![initial_state()], 'X', 1);
    let expected = vec![
        TurnCounts { turn: 1, intermediate: 9, draws: 0, x_wins: 0, o_wins: 0 },
        TurnCounts { turn: 2, intermediate: 72, draws: 0, x_wins: 0, o_wins: 0 },
        TurnCounts { turn: 3, intermediate: 504, draws: 0, x_wins: 0, o_wins: 0 },
        TurnCounts { turn: 4, intermediate: 3024, draws: 0, x_wins: 0, o_wins: 0 },
        TurnCounts { turn: 5, intermediate: 13680, draws: 0, x_wins: 1440, o_wins: 0 },
        TurnCounts { turn: 6, intermediate: 49392, draws: 0, x_wins: 0, o_wins: 5328 },
        TurnCounts { turn: 7, intermediate: 100224, draws: 0, x_wins: 47952, o_wins: 0 },
        TurnCounts { turn: 8, intermediate: 127872, draws: 0, x_wins: 0, o_wins: 72576 },
        TurnCounts { turn: 9, intermediate: 0, draws: 46080, x_wins: 81792, o_wins: 0 },
    ];
    assert_eq!(turns, expected);
}

#[test]
fn full_walk_puts_each_game_in_the_bucket_of_its_outcome() {
    let (games, _) = play_games(vec![initial_state()], 'X', 1);
    for state in &games.draws {
        assert_eq!(get_end_state(state), TicTacToeState::Draw);
        assert_eq!(state.path.len(), 9);
    }
    for state in &games.x_wins {
        assert_eq!(get_end_state(state), TicTacToeState::XWin);
        assert_eq!(state.path.len() % 2, 1);
    }
    for state in &games.o_wins {
        assert_eq!(get_end_state(state), TicTacToeState::OWin);
        assert_eq!(state.path.len() % 2, 0);
    }
}

#[test]
fn full_walk_finds_each_game_once() {
    let (games, _) = play_games(vec![initial_state()], 'X', 1);
    let mut all = paths(&games.draws);
    all.extend(paths(&games.x_wins));
    all.extend(paths(&games.o_wins));
    all.sort();
    let before = all.len();
    all.dedup();
    assert_eq!(all.len(), before);
    assert_eq!(all.len(), 255168);
}

#[test]
fn full_walk_reaches_958_finished_boards() {
    let (games, _) = play_games(vec![initial_state()], 'X', 1);
    let mut boards: Vec<Board> = Vec::new();
    boards.extend(games.draws.into_iter().map(|s| s.board));
    boards.extend(games.x_wins.into_iter().map(|s| s.board));
    boards.extend(games.o_wins.into_iter().map(|s| s.board));
    boards.sort();
    boards.dedup();
    assert_eq!(boards.len(), 958);
}

#[test]
fn walk_lists_the_plies_in_order_within_a_bucket() {
    let (games, _) = play_games(vec![initial_state()], 'X', 1);
    let lengths: Vec<usize> = games.x_wins.iter().map(|s| s.path.len()).collect();
    assert!(lengths.windows(2).all(|pair| pair[0] <= pair[1]));
    assert_eq!(games.x_wins[0].path, vec![1, 2, 4, 3, 7]);
    assert_eq!(games.o_wins[0].path, vec![1, 2, 3, 5, 4, 8]);
    assert_eq!(games.draws[0].path, vec![1, 2, 3, 4, 5, 7, 6, 9, 8]);
}

#[test]
fn walk_from_a_late_position() {
    let start = state_of(["XOX", "XO ", "O  "], &[1, 2, 3, 5, 4, 7]);
    let (games, turns) = play_games(vec![start], 'X', 7);
    assert_eq!(
        turns,
        vec![
            TurnCounts { turn: 7, intermediate: 3, draws: 0, x_wins: 0, o_wins: 0 },
            TurnCounts { turn: 8, intermediate: 4, draws: 0, x_wins: 0, o_wins: 2 },
            TurnCounts { turn: 9, intermediate: 0, draws: 4, x_wins: 0, o_wins: 0 },
        ]
    );
    assert!(games.intermediate.is_empty());
    assert_eq!(
        paths(&games.o_wins),
        vec![
            vec![1, 2, 3, 5, 4, 7, 6, 8],
            vec![1, 2, 3, 5, 4, 7, 9, 8],
        ]
    );
    assert_eq!(
        paths(&games.draws),
        vec![
            vec![1, 2, 3, 5, 4, 7, 6, 9, 8],
            vec![1, 2, 3, 5, 4, 7, 8, 6, 9],
            vec![1, 2, 3, 5, 4, 7, 8, 9, 6],
            vec![1, 2, 3, 5, 4, 7, 9, 6, 8],
        ]
    );
    assert!(games.x_wins.is_empty());
}

#[test]
fn walk_from_nothing_counts_one_empty_ply() {
    let (games, turns) = play_games(Vec::new(), 'O', 3);
    assert_eq!(
        turns,
        vec![TurnCounts { turn: 3, intermediate: 0, draws: 0, x_wins: 0, o_wins: 0 }]
    );
    assert!(games.draws.is_empty() && games.x_wins.is_empty() && games.o_wins.is_empty());
}

#[test]
fn walk_from_a_full_board_finds_nothing() {
    let full = state_of(["XOX", "XOO", "OXX"], &[1, 2, 3, 5, 4, 6, 8, 7, 9]);
    let (games, turns) = play_games(vec![full], 'X', 10);
    assert_eq!(turns.len(), 1);
    assert!(games.draws.is_empty() && games.x_wins.is_empty() && games.o_wins.is_empty());
}
