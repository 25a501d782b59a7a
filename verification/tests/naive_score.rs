use connect4::naive_score::NaiveScore;
use connect4::Color::{Red, Yellow};
use connect4::{Color, Position};

fn drop_all(moves: &[(Color, usize)]) -> Position {
    let mut board = Position::default();
    for (color, col) in moves {
        board = board.with_move(*color, *col).unwrap();
    }
    board
}

#[test]
fn even() {
    assert_eq!(Position::default().naive_score(), NaiveScore::RedFavour(0));
}

#[test]
fn sideways_win() {
    let pos = Position::default()
        .with_move(Red, 3)
        .unwrap()
        .with_move(Red, 4)
        .unwrap()
        .with_move(Red, 5)
        .unwrap()
        .with_move(Red, 6)
        .unwrap();

    assert_eq!(pos.naive_score(), NaiveScore::Winner(Red));
}

#[test]
fn vert_win() {
    let pos = Position::default()
        .with_move(Yellow, 2)
        .unwrap()
        .with_move(Yellow, 2)
        .unwrap()
        .with_move(Yellow, 2)
        .unwrap()
        .with_move(Yellow, 2)
        .unwrap();

    assert_eq!(pos.naive_score(), NaiveScore::Winner(Yellow));
}

#[test]
fn right_diag_win() {
    let pos = Position::default()
        .with_move(Yellow, 2)
        .unwrap()
        .with_move(Yellow, 2)
        .unwrap()
        .with_move(Yellow, 2)
        .unwrap()
        .with_move(Red, 2)
        .unwrap()
        .with_move(Yellow, 3)
        .unwrap()
        .with_move(Yellow, 3)
        .unwrap()
        .with_move(Red, 3)
        .unwrap()
        .with_move(Yellow, 4)
        .unwrap()
        .with_move(Red, 4)
        .unwrap()
        .with_move(Red, 5)
        .unwrap();

    assert_eq!(pos.naive_score(), NaiveScore::Winner(Red));
}

#[test]
fn left_diag_win() {
    let pos = Position::default()
        .with_move(Yellow, 6)
        .unwrap()
        .with_move(Yellow, 6)
        .unwrap()
        .with_move(Yellow, 6)
        .unwrap()
        .with_move(Red, 6)
        .unwrap()
        .with_move(Yellow, 5)
        .unwrap()
        .with_move(Yellow, 5)
        .unwrap()
        .with_move(Red, 5)
        .unwrap()
        .with_move(Yellow, 4)
        .unwrap()
        .with_move(Red, 4)
        .unwrap()
        .with_move(Red, 3)
        .unwrap();

    assert_eq!(pos.naive_score(), NaiveScore::Winner(Red));
}

#[test]
fn a_lone_disc_in_the_corner_counts_three_windows() {
    // The bottom-left cell lies in one horizontal, one vertical and one
    // diagonal window, each worth 1/27 to its owner.
    assert_eq!(drop_all(&[(Red, 0)]).naive_score(), NaiveScore::RedFavour(3));
    assert_eq!(drop_all(&[(Yellow, 0)]).naive_score(), NaiveScore::RedFavour(-3));
}

#[test]
fn a_lone_disc_in_the_middle_counts_seven_windows() {
    // Bottom row, column 3: four horizontal windows, one vertical, one on
    // each diagonal through the cell.
    assert_eq!(drop_all(&[(Red, 3)]).naive_score(), NaiveScore::RedFavour(7));
}

#[test]
fn two_and_three_in_a_window_are_cubed() {
    // Red at the bottom of columns 0 and 1. Horizontal windows: [0..3] holds
    // both discs (8), [1..4] holds one (1). Vertical: one each (2). Diagonals:
    // one through each disc (2).
    assert_eq!(drop_all(&[(Red, 0), (Red, 1)]).naive_score(), NaiveScore::RedFavour(13));
    // Three Yellow discs stacked in column 0: the bottom vertical window
    // holds three (27), the next two (8), the third one (1); each disc also
    // lies in one horizontal window (3) and in one window of the diagonal
    // that rises to the right (3).
    let stacked = drop_all(&[(Yellow, 0), (Yellow, 0), (Yellow, 0)]).naive_score();
    assert_eq!(stacked, NaiveScore::RedFavour(-(27 + 8 + 1 + 3 + 3)));
}

#[test]
fn mixed_windows_count_for_nobody() {
    // Red and Yellow side by side in the bottom row of columns 0 and 1: the
    // window over columns 0..3 is mixed. Red keeps its vertical and diagonal
    // windows (2); Yellow keeps the horizontal window over columns 1..4, its
    // vertical and its diagonal (3).
    assert_eq!(drop_all(&[(Red, 0), (Yellow, 1)]).naive_score(), NaiveScore::RedFavour(-1));
}

#[test]
fn three_in_a_row_is_no_win() {
    let pos = drop_all(&[(Red, 0), (Red, 1), (Red, 2)]);
    assert!(matches!(pos.naive_score(), NaiveScore::RedFavour(_)));
    let blocked = drop_all(&[(Red, 0), (Red, 1), (Red, 2), (Yellow, 3), (Red, 4)]);
    assert!(matches!(blocked.naive_score(), NaiveScore::RedFavour(_)));
}
