use jump_game::{JumpGame, JumpGameError};

fn winnable(board: Vec<usize>, start: usize) -> bool {
    JumpGame::new(board, start).unwrap().is_winnable()
}

#[test]
fn handles_a_cyclical_board_without_panicking() {
    let game = JumpGame::new(vec![1, 1, 1, 1, 0], 0).unwrap();
    assert!(game.is_winnable());
}

#[test]
fn test_cases() {
    let cases: Vec<(Vec<usize>, usize, bool)> = vec![
        (vec![1, 2, 3, 0, 3, 2], 0, true),
        (vec![1, 2, 3, 0, 3, 2], 1, true),
        (vec![1, 2, 3, 0, 3, 2], 2, true),
        (vec![1, 2, 3, 0, 3, 2], 3, true),
        (vec![1, 2, 3, 0, 3, 2], 4, true),
        (vec![1, 2, 3, 0, 3, 2], 5, true),
        (vec![1, 7, 3, 0, 3, 2], 0, false),
        (vec![1, 7, 3, 0, 3, 2], 1, false),
        (vec![1, 7, 3, 0, 3, 2], 2, true),
        (vec![1, 7, 3, 0, 3, 2], 3, true),
        (vec![1, 7, 3, 0, 3, 2], 4, false),
        (vec![1, 7, 3, 0, 3, 2], 5, true),
        (vec![1, 1, 6, 0, 2, 2, 2], 0, false),
        (vec![1, 1, 6, 0, 2, 2, 2], 1, false),
        (vec![1, 1, 6, 0, 2, 2, 2], 2, false),
        (vec![1, 1, 6, 0, 2, 2, 2], 3, true),
        (vec![1, 1, 6, 0, 2, 2, 2], 4, false),
        (vec![1, 1, 6, 0, 2, 2, 2], 5, true),
        (vec![1, 1, 6, 0, 2, 2, 2], 6, false),
    ];
    for (board, start, expected) in cases {
        assert_eq!(winnable(board.clone(), start), expected, "board {:?} start {}", board, start);
    }
}

#[test]
fn empty_board_is_reported_before_bounds() {
    assert_eq!(JumpGame::new(vec![], 5).err(), Some(JumpGameError::EmptyBoard));
    assert_eq!(JumpGame::new(vec![], 0).err(), Some(JumpGameError::EmptyBoard));
}

#[test]
fn starting_index_out_of_bounds_is_reported() {
    assert_eq!(
        JumpGame::new(vec![1, 0], 3).err(),
        Some(JumpGameError::StartingIndexOutOfBounds)
    );
    assert_eq!(
        JumpGame::new(vec![1, 0], 2).err(),
        Some(JumpGameError::StartingIndexOutOfBounds)
    );
}

#[test]
fn bounds_are_reported_before_missing_zero() {
    assert_eq!(
        JumpGame::new(vec![1, 2], 7).err(),
        Some(JumpGameError::StartingIndexOutOfBounds)
    );
}

#[test]
fn board_without_zero_is_reported() {
    assert_eq!(JumpGame::new(vec![1, 2, 3], 0).err(), Some(JumpGameError::NoWinningCell));
    assert_eq!(JumpGame::new(vec![2, 2, 2, 2], 1).err(), Some(JumpGameError::NoWinningCell));
}

#[test]
fn valid_game_is_built() {
    assert!(JumpGame::new(vec![0], 0).is_ok());
    assert!(JumpGame::new(vec![5, 5, 0], 2).is_ok());
}

#[test]
fn starting_on_zero_wins() {
    assert!(winnable(vec![0], 0));
    assert!(winnable(vec![4, 9, 0, 9], 2));
    assert!(winnable(vec![1, 0, 1, 0], 3));
}

#[test]
fn unreachable_zero_loses() {
    assert!(!winnable(vec![1, 2, 0, 3, 2], 0));
    assert!(!winnable(vec![2, 2, 2, 2, 0], 1));
}

#[test]
fn jumps_off_both_edges_lose() {
    assert!(!winnable(vec![5, 0], 0));
    assert!(!winnable(vec![0, 5], 1));
}

#[test]
fn large_jump_values_do_not_overflow() {
    assert!(!winnable(vec![usize::MAX, 0], 0));
    assert!(!winnable(vec![0, usize::MAX], 1));
    assert!(winnable(vec![usize::MAX, 1, 0], 1));
}

#[test]
fn zero_far_beyond_a_dense_cycle_is_found() {
    let mut board: Vec<usize> = vec![1; 200];
    board.push(0);
    assert!(winnable(board, 0));
}

#[test]
fn repeated_queries_agree() {
    let game = JumpGame::new(vec![1, 7, 3, 0, 3, 2], 4).unwrap();
    let first = game.is_winnable();
    let second = game.is_winnable();
    assert_eq!(first, second);
    assert!(!first);
    let game = JumpGame::new(vec![1, 7, 3, 0, 3, 2], 2).unwrap();
    assert_eq!(game.is_winnable(), game.is_winnable());
    assert!(game.is_winnable());
}
