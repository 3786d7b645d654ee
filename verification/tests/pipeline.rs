use tictactoe::{
    collapse_game, enumerate_games, export_games, initial_state, play_games, reduce_states,
    rotate_board, GameData, State, Totals,
};

fn test_state() -> State {
    let board = vec![
        vec!['X', 'X', 'O'],
        vec!['O', 'X', 'X'],
        vec!['X', 'O', 'O'],
    ];
    let path = vec![1, 3, 5, 4, 7, 9, 2, 8, 6];
    State { board, path }
}

#[test]
fn export_gives_each_class_a_representative_and_its_synonyms() {
    let first = test_state();
    let mut second = State { board: test_state().board, path: vec![1, 2, 5, 4, 7, 9, 3, 8, 6] };
    rotate_board(&mut second.board);
    assert_eq!(
        export_games(vec![first, second]),
        vec![GameData { game: 125479386, synonyms: vec![125479386, 135479286] }]
    );
    assert!(export_games(Vec::new()).is_empty());
}

#[test]
fn run_counts_the_games_and_the_classes() {
    let run = enumerate_games();
    assert_eq!(run.totals, Totals { draws: 46080, x_wins: 131184, o_wins: 77904 });
    assert_eq!(run.totals.draws + run.totals.x_wins + run.totals.o_wins, 255168);
    assert_eq!(run.turns.len(), 9);
    assert_eq!(run.draws.len(), 3);
    assert_eq!(run.x_wins.len(), 91);
    assert_eq!(run.o_wins.len(), 44);
    assert_eq!(run.draws.len() + run.x_wins.len() + run.o_wins.len(), 138);
}

#[test]
fn run_lists_every_game_once_among_the_synonyms() {
    let run = enumerate_games();
    let sizes: Vec<usize> = run.draws.iter().map(|class| class.synonyms.len()).collect();
    assert_eq!(sizes, vec![23040, 11520, 11520]);
    let mut codes: Vec<u32> = Vec::new();
    for class in run.draws.iter().chain(run.x_wins.iter()).chain(run.o_wins.iter()) {
        assert_eq!(class.game, class.synonyms[0]);
        assert!(class.synonyms.windows(2).all(|pair| pair[0] < pair[1]));
        codes.extend(class.synonyms.iter());
    }
    assert_eq!(codes.len(), 255168);
    codes.sort_unstable();
    codes.dedup();
    assert_eq!(codes.len(), 255168);
}

#[test]
fn run_names_the_known_representatives() {
    let run = enumerate_games();
    assert_eq!(run.draws[0].game, 123457698);
    assert_eq!(run.draws[0].synonyms[1], 123457896);
    assert_eq!(run.draws[0].synonyms[2], 123459678);
    assert_eq!(*run.draws[0].synonyms.last().unwrap(), 987653412);
    assert_eq!(run.draws[2].game, 123465798);
    assert_eq!(*run.draws[2].synonyms.last().unwrap(), 987645312);
    assert_eq!(run.x_wins[0].game, 124385967);
    assert_eq!(run.x_wins[90].game, 24568);
    assert_eq!(*run.x_wins[90].synonyms.last().unwrap(), 86542);
    assert_eq!(run.o_wins[0].game, 13264759);
    assert_eq!(run.o_wins[43].game, 216487);
    assert_eq!(*run.o_wins[43].synonyms.last().unwrap(), 894623);
    let sum = |classes: &Vec<GameData>| classes.iter().map(|class| class.game as u64).sum::<u64>();
    assert_eq!(sum(&run.draws), 370471194);
    assert_eq!(sum(&run.x_wins), 1658433395);
    assert_eq!(sum(&run.o_wins), 305307374);
}

#[test]
fn two_runs_yield_the_same() {
    let first = enumerate_games();
    let second = enumerate_games();
    assert_eq!(first, second);
}

#[test]
fn run_is_the_walk_reduced_and_encoded() {
    let run = enumerate_games();
    let (games, turns) = play_games(vec![initial_state()], 'X', 1);
    assert_eq!(run.turns, turns);
    let classes = reduce_states(games.o_wins);
    assert_eq!(classes.len(), run.o_wins.len());
    for (class, data) in classes.iter().zip(run.o_wins.iter()) {
        let codes: Vec<u32> = class.iter().map(|path| collapse_game(path)).collect();
        assert_eq!(data.game, codes[0]);
        assert_eq!(data.synonyms, codes);
    }
}
