use tictactoe::{checked_collapse_game, collapse_class, collapse_classes, collapse_game, GameData};

#[test]
fn code_of_a_full_game() {
    assert_eq!(collapse_game(&[1, 3, 5, 4, 7, 9, 2, 8, 6]), 135479286);
    assert_eq!(collapse_game(&[9, 8, 7, 6, 5, 4, 3, 2, 1]), 987654321);
    assert_eq!(collapse_game(&[9, 9, 9, 9, 9, 9, 9, 9, 9]), 999999999);
}

#[test]
fn code_of_a_short_path() {
    assert_eq!(collapse_game(&[7]), 7);
    assert_eq!(collapse_game(&[2, 4, 5, 6, 8]), 24568);
}

#[test]
fn code_of_the_empty_path_is_zero() {
    assert_eq!(collapse_game(&[]), 0);
    assert_eq!(checked_collapse_game(&[]), Some(0));
}

#[test]
fn code_weighs_each_move_by_its_place() {
    let path = [3u8, 1, 4, 2];
    let mut sum = 0u32;
    for (i, &id) in path.iter().enumerate() {
        sum += id as u32 * 10u32.pow((path.len() - 1 - i) as u32);
    }
    assert_eq!(collapse_game(&path), sum);
    assert_eq!(collapse_game(&path), 3142);
}

#[test]
fn different_paths_have_different_codes() {
    let paths: Vec<Vec<u8>> = vec![
        vec![],
        vec![1],
        vec![9],
        vec![1, 1],
        vec![1, 2],
        vec![2, 1],
        vec![1, 2, 3],
        vec![1, 2, 3, 4, 5, 6, 7, 8, 9],
        vec![1, 2, 3, 4, 5, 6, 7, 9, 8],
    ];
    for (i, a) in paths.iter().enumerate() {
        for (j, b) in paths.iter().enumerate() {
            assert_eq!(collapse_game(a) == collapse_game(b), i == j);
        }
    }
}

#[test]
fn checked_code_of_a_good_path() {
    assert_eq!(checked_collapse_game(&[1, 2, 3, 4]), Some(1234));
    assert_eq!(checked_collapse_game(&[1, 3, 5, 4, 7, 9, 2, 8, 6]), Some(135479286));
}

#[test]
fn path_of_ten_moves_is_refused() {
    assert_eq!(checked_collapse_game(&[1, 2, 3, 4, 5, 6, 7, 8, 9, 1]), None);
    assert_eq!(checked_collapse_game(&[1; 40]), None);
}

#[test]
fn cell_that_is_not_on_the_board_is_refused() {
    assert_eq!(checked_collapse_game(&[1, 0, 3]), None);
    assert_eq!(checked_collapse_game(&[10]), None);
    assert_eq!(checked_collapse_game(&[1, 2, 255]), None);
    assert_eq!(checked_collapse_game(&[0]), None);
}

#[test]
fn class_is_its_first_code_and_all_its_codes() {
    let games = vec![vec![1, 2, 5, 7, 9], vec![3, 2, 5, 9, 7], vec![7, 8, 5, 1, 3]];
    assert_eq!(
        collapse_class(&games),
        GameData { game: 12579, synonyms: vec![12579, 32597, 78513] }
    );
    assert_eq!(
        collapse_class(&vec![vec![4, 5]]),
        GameData { game: 45, synonyms: vec![45] }
    );
}

#[test]
fn classes_are_collapsed_one_by_one() {
    let classes = vec![
        vec![vec![1, 4, 2, 5, 3], vec![3, 5, 2, 4, 1]],
        vec![vec![1, 2, 3, 5, 4, 6, 8, 7, 9]],
    ];
    assert_eq!(
        collapse_classes(&classes),
        vec![
            GameData { game: 14253, synonyms: vec![14253, 35241] },
            GameData { game: 123546879, synonyms: vec![123546879] },
        ]
    );
    assert!(collapse_classes(&Vec::new()).is_empty());
}
