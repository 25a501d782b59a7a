use connect4::minmax::minmax;
use connect4::naive_score::NaiveScore;
use connect4::search::Choice;
use connect4::smart_minmax::choose_move;
use connect4::Color::{Red, Yellow};
use connect4::{Color, Position};
use std::collections::BTreeMap;

fn drop_all(moves: &[(Color, usize)]) -> Position {
    let mut board = Position::default();
    for (color, col) in moves {
        board = board.with_move(*color, *col).unwrap();
    }
    board
}

#[test]
fn without_lookahead_only_the_root_is_met() {
    let board = Position::default();
    let mut dupes = BTreeMap::new();
    let best = minmax(&board, Red, 0, &mut dupes);
    assert_eq!(
        best,
        Some(Choice {
            column: 3,
            value: NaiveScore::RedFavour(7)
        })
    );
    assert_eq!(dupes.len(), 1);
    assert_eq!(dupes.get(&0), Some(&1));
}

#[test]
fn two_plies_meet_no_position_twice() {
    let board = Position::default();
    let mut dupes = BTreeMap::new();
    let best = minmax(&board, Yellow, 2, &mut dupes);
    assert_eq!(
        best,
        Some(Choice {
            column: 3,
            value: NaiveScore::RedFavour(-18)
        })
    );
    assert_eq!(dupes.len(), 57);
    assert!(dupes.values().all(|count| *count == 1));
}

#[test]
fn three_plies_meet_transpositions() {
    let board = Position::default();
    let mut dupes = BTreeMap::new();
    let best = minmax(&board, Yellow, 3, &mut dupes);
    assert_eq!(
        best,
        Some(Choice {
            column: 3,
            value: NaiveScore::RedFavour(2)
        })
    );
    assert_eq!(dupes.len(), 295);
    assert_eq!(dupes.values().sum::<u64>(), 400);
    assert_eq!(dupes.values().max(), Some(&2));
    // Yellow 0, Red 1, Yellow 2 and Yellow 2, Red 1, Yellow 0 meet.
    let met_twice = drop_all(&[(Yellow, 0), (Red, 1), (Yellow, 2)]);
    assert_eq!(dupes.get(&met_twice.inner), Some(&2));
    let met_once = drop_all(&[(Yellow, 0), (Red, 0), (Yellow, 0)]);
    assert_eq!(dupes.get(&met_once.inner), Some(&1));
}

#[test]
fn counts_add_up_over_calls() {
    let board = drop_all(&[
        (Red, 3),
        (Yellow, 3),
        (Red, 2),
        (Yellow, 4),
        (Red, 3),
        (Yellow, 2),
        (Red, 4),
        (Yellow, 1),
    ]);
    let mut dupes = BTreeMap::new();
    let first = minmax(&board, Red, 3, &mut dupes);
    assert_eq!(
        first,
        Some(Choice {
            column: 2,
            value: NaiveScore::RedFavour(30)
        })
    );
    assert_eq!(dupes.len(), 293);
    assert_eq!(dupes.values().sum::<u64>(), 395);
    let once = dupes.clone();
    let second = minmax(&board, Red, 3, &mut dupes);
    assert_eq!(second, first);
    assert_eq!(dupes.len(), 293);
    for (key, count) in &once {
        assert_eq!(dupes.get(key), Some(&(2 * count)));
    }
}

#[test]
fn a_winning_column_ends_the_count() {
    // Red wins at once in column 3: the replies to columns 0, 1 and 2 are
    // searched, nothing after them.
    let board = drop_all(&[(Red, 0), (Yellow, 0), (Red, 1), (Yellow, 1), (Red, 2), (Yellow, 2)]);
    let mut dupes = BTreeMap::new();
    let best = minmax(&board, Red, 1, &mut dupes);
    assert_eq!(
        best,
        Some(Choice {
            column: 3,
            value: NaiveScore::Winner(Red)
        })
    );
    assert_eq!(dupes.len(), 4);
    for col in 0..3 {
        let reply = board.with_move(Red, col).unwrap();
        assert_eq!(dupes.get(&reply.inner), Some(&1));
    }
    assert_eq!(dupes.get(&board.inner), Some(&1));
}

#[test]
fn both_searches_agree() {
    let boards = [
        Position::default(),
        drop_all(&[(Red, 3), (Yellow, 3), (Red, 2)]),
        drop_all(&[(Red, 2), (Yellow, 2), (Red, 3), (Yellow, 3), (Red, 4)]),
    ];
    for board in boards {
        for turn in [Red, Yellow] {
            for depth in 0..4 {
                let mut dupes = BTreeMap::new();
                let plain = minmax(&board, turn, depth, &mut dupes);
                assert_eq!(choose_move(&board, turn, depth).ok(), plain);
            }
        }
    }
}
