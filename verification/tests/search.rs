use connect4::naive_score::NaiveScore;
use connect4::search::{Choice, SearchError};
use connect4::smart_minmax::{choose_move, smart_minmax};
use connect4::Color::{Red, Yellow};
use connect4::{Color, Position};
use std::collections::BTreeMap;

fn drop_all(moves: &[(Color, usize)]) -> Position {
    let mut board = Position::default();
    for (color, col) in moves {
        board = board.with_move(*color, *col).unwrap();
    }
    board
}

/// Builds a board from its columns, each given bottom-up as a string of
/// `R` and `Y`.
fn from_columns(columns: [&str; 7]) -> Position {
    let mut board = Position::default();
    for (col, discs) in columns.iter().enumerate() {
        for disc in discs.chars() {
            let color = if disc == 'R' { Red } else { Yellow };
            board = board.with_move(color, col).unwrap();
        }
    }
    board
}

const DRAWN: [&str; 7] = ["RRYYRY", "YYRYRR", "YYRRRY", "RRYYYR", "RYYRRY", "RRRYYY", "YRYRYR"];

fn choice(column: usize, value: NaiveScore) -> Result<Choice, SearchError> {
    Ok(Choice { column, value })
}

#[test]
fn opening_move_is_the_centre() {
    let board = Position::default();
    assert_eq!(choose_move(&board, Red, 0), choice(3, NaiveScore::RedFavour(7)));
    assert_eq!(choose_move(&board, Yellow, 0), choice(3, NaiveScore::RedFavour(-7)));
    assert_eq!(choose_move(&board, Red, 2), choice(3, NaiveScore::RedFavour(18)));
    assert_eq!(choose_move(&board, Yellow, 3), choice(3, NaiveScore::RedFavour(2)));
}

#[test]
fn an_immediate_win_is_taken() {
    let board = drop_all(&[(Red, 0), (Yellow, 0), (Red, 1), (Yellow, 1), (Red, 2), (Yellow, 2)]);
    assert_eq!(choose_move(&board, Red, 0), choice(3, NaiveScore::Winner(Red)));
    assert_eq!(choose_move(&board, Red, 2), choice(3, NaiveScore::Winner(Red)));
}

#[test]
fn a_threat_is_blocked() {
    let board = drop_all(&[(Red, 0), (Yellow, 0), (Red, 1), (Yellow, 1), (Red, 2)]);
    assert_eq!(choose_move(&board, Yellow, 1), choice(3, NaiveScore::RedFavour(13)));
    assert_eq!(choose_move(&board, Yellow, 3), choice(3, NaiveScore::RedFavour(14)));
}

#[test]
fn a_lost_position_still_yields_a_legal_move() {
    // Red threatens both ends of its open three; Yellow can stop only one.
    let board = drop_all(&[(Red, 2), (Yellow, 2), (Red, 3), (Yellow, 3), (Red, 4)]);
    assert_eq!(choose_move(&board, Yellow, 1), choice(0, NaiveScore::Winner(Red)));
    assert_eq!(choose_move(&board, Yellow, 2), choice(0, NaiveScore::Winner(Red)));
    // Without lookahead the threat goes unseen.
    assert_eq!(choose_move(&board, Yellow, 0), choice(4, NaiveScore::RedFavour(-9)));
}

#[test]
fn a_full_board_has_no_move() {
    let board = from_columns(DRAWN);
    assert!(board.allowed_moves().is_empty());
    assert_eq!(board.naive_score(), NaiveScore::RedFavour(0));
    assert_eq!(choose_move(&board, Red, 0), Err(SearchError::NoMovesAvailable));
    assert_eq!(choose_move(&board, Yellow, 3), Err(SearchError::NoMovesAvailable));
}

#[test]
fn a_side_without_reply_counts_as_lost() {
    let mut columns = DRAWN;
    columns[6] = "YRYRY";
    let board = from_columns(columns);
    assert_eq!(board.allowed_moves(), vec![6]);
    assert_eq!(choose_move(&board, Red, 0), choice(6, NaiveScore::RedFavour(0)));
    assert_eq!(choose_move(&board, Red, 1), choice(6, NaiveScore::Winner(Red)));
    assert_eq!(choose_move(&board, Red, 5), choice(6, NaiveScore::Winner(Red)));
    assert_eq!(choose_move(&board, Yellow, 1), choice(6, NaiveScore::Winner(Yellow)));

    columns[0] = "RRYYR";
    let board = from_columns(columns);
    assert_eq!(choose_move(&board, Yellow, 1), choice(0, NaiveScore::RedFavour(0)));
    assert_eq!(choose_move(&board, Yellow, 2), choice(0, NaiveScore::Winner(Red)));
    assert_eq!(choose_move(&board, Yellow, 7), choice(0, NaiveScore::Winner(Red)));
}

#[test]
fn deeper_search_in_the_middle_game() {
    let board = drop_all(&[
        (Red, 3),
        (Yellow, 3),
        (Red, 2),
        (Yellow, 4),
        (Red, 3),
        (Yellow, 2),
        (Red, 4),
        (Yellow, 1),
    ]);
    let expected = [47, 18, 75, 30, 100];
    for (depth, favour) in expected.iter().enumerate() {
        assert_eq!(
            choose_move(&board, Red, depth as u32),
            choice(2, NaiveScore::RedFavour(*favour))
        );
    }
}

#[test]
fn equal_moves_go_to_the_lowest_column() {
    // Column 3 is full and the board is its own mirror image, so columns 2
    // and 4 are worth the same.
    let board = drop_all(&[(Red, 3), (Yellow, 3), (Red, 3), (Yellow, 3), (Red, 3), (Yellow, 3)]);
    let left = board.with_move(Red, 2).unwrap().naive_score();
    let right = board.with_move(Red, 4).unwrap().naive_score();
    assert_eq!(left, NaiveScore::RedFavour(23));
    assert_eq!(right, NaiveScore::RedFavour(23));
    assert_eq!(choose_move(&board, Red, 0), choice(2, NaiveScore::RedFavour(23)));
    assert_eq!(choose_move(&board, Yellow, 0), choice(2, NaiveScore::RedFavour(-11)));
}

#[test]
fn depth_zero_is_one_ply_greedy() {
    let boards = [
        Position::default(),
        drop_all(&[(Red, 3), (Yellow, 3), (Red, 2), (Yellow, 4), (Red, 3)]),
        drop_all(&[(Red, 0), (Yellow, 6), (Red, 0), (Yellow, 6), (Red, 0), (Yellow, 6)]),
    ];
    for board in boards {
        for turn in [Red, Yellow] {
            let mut best: Option<Choice> = None;
            for column in board.allowed_moves() {
                let value = board.with_move(turn, column).unwrap().naive_score();
                let better = match best {
                    Some(held) => value.beats(held.value, turn),
                    None => true,
                };
                if better {
                    best = Some(Choice { column, value });
                }
            }
            assert_eq!(choose_move(&board, turn, 0), Ok(best.unwrap()));
        }
    }
}

#[test]
fn the_same_question_gets_the_same_answer() {
    let board = drop_all(&[(Red, 3), (Yellow, 2), (Red, 4)]);
    let first = choose_move(&board, Yellow, 4);
    let second = choose_move(&board, Yellow, 4);
    assert_eq!(first, second);
    let mut cache = BTreeMap::new();
    assert_eq!(smart_minmax(&board, Yellow, 4, &mut cache), first.ok());
    // A second call finds the answer in the cache and leaves it as it is.
    let filled = cache.clone();
    assert_eq!(smart_minmax(&board, Yellow, 4, &mut cache), first.ok());
    assert_eq!(cache, filled);
}

#[test]
fn the_cache_holds_each_position_once() {
    let board = Position::default();
    let mut cache = BTreeMap::new();
    let best = smart_minmax(&board, Yellow, 2, &mut cache);
    assert_eq!(
        best,
        Some(Choice {
            column: 3,
            value: NaiveScore::RedFavour(-18)
        })
    );
    // The root, its 7 successors and their 49; no two of them are equal.
    assert_eq!(cache.len(), 57);
    assert_eq!(cache.get(&board.inner), Some(&best));

    // One ply deeper, 400 positions are met but only 295 differ.
    let mut cache = BTreeMap::new();
    smart_minmax(&board, Yellow, 3, &mut cache);
    assert_eq!(cache.len(), 295);
}

#[test]
fn a_search_cut_short_by_a_win_stores_no_answer_for_its_position() {
    // Red wins at once in column 3; the replies to columns 0, 1 and 2 were
    // searched before that and have their answers stored.
    let board = drop_all(&[(Red, 0), (Yellow, 0), (Red, 1), (Yellow, 1), (Red, 2), (Yellow, 2)]);
    let mut cache = BTreeMap::new();
    let best = smart_minmax(&board, Red, 1, &mut cache);
    assert_eq!(
        best,
        Some(Choice {
            column: 3,
            value: NaiveScore::Winner(Red)
        })
    );
    assert_eq!(cache.len(), 3);
    assert!(!cache.contains_key(&board.inner));
    for col in 0..3 {
        let reply = board.with_move(Red, col).unwrap();
        assert!(cache.contains_key(&reply.inner));
    }
    // With no ply to look ahead nothing but the answer itself could be
    // stored, and the win cuts that short too.
    let mut cache = BTreeMap::new();
    smart_minmax(&board, Red, 0, &mut cache);
    assert!(cache.is_empty());
}

#[test]
fn a_full_board_is_remembered_as_having_no_move() {
    let board = from_columns(DRAWN);
    let mut cache = BTreeMap::new();
    assert_eq!(smart_minmax(&board, Red, 2, &mut cache), None);
    assert_eq!(cache.len(), 1);
    assert_eq!(cache.get(&board.inner), Some(&None));
}

#[test]
fn verdicts_are_ordered_from_yellow_win_to_red_win() {
    let red = NaiveScore::Winner(Red);
    let yellow = NaiveScore::Winner(Yellow);
    let high = NaiveScore::RedFavour(i32::MAX);
    let low = NaiveScore::RedFavour(i32::MIN);
    assert!(red.beats(high, Red));
    assert!(high.beats(low, Red));
    assert!(low.beats(yellow, Red));
    assert!(yellow.beats(low, Yellow));
    assert!(low.beats(high, Yellow));
    assert!(high.beats(red, Yellow));
    assert!(!red.beats(red, Red));
    assert!(!red.beats(red, Yellow));
    assert!(!NaiveScore::RedFavour(5).beats(NaiveScore::RedFavour(5), Red));
    assert!(!NaiveScore::RedFavour(5).beats(NaiveScore::RedFavour(5), Yellow));
    assert_eq!(red.rank_value(), 2147483648);
    assert_eq!(yellow.rank_value(), -2147483649);
    assert_eq!(NaiveScore::RedFavour(-42).rank_value(), -42);
}
