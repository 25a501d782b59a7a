use connect4::board::MoveError;
use connect4::Color::{Red, Yellow};
use connect4::{Color, Position, Slot};

fn play(board: Position, color: Color, col: usize) -> Position {
    board.with_move(color, col).unwrap()
}

#[test]
fn test_encoding() {
    let mut board = Position::default();

    assert_eq!(board.inner, 0);
    board = board.with_move(Color::Yellow, 0).unwrap();
    assert_eq!(board.inner, 1);
    board = board.with_move(Color::Red, 1).unwrap();
    assert_eq!(board.inner, (1) | (1 << 9) | (1 << 17));
}

#[test]
fn test_getting() {
    let board = Position::default()
        .with_move(Red, 0)
        .unwrap()
        .with_move(Yellow, 0)
        .unwrap()
        .with_move(Red, 0)
        .unwrap()
        .with_move(Yellow, 3)
        .unwrap()
        .with_move(Red, 3)
        .unwrap();

    // Rows count from the top: the first disc of a column rests in row 5.
    assert_eq!(board.get(5, 0), Slot::Color(Red));
    assert_eq!(board.get(5, 3), Slot::Color(Yellow));
    assert_eq!(board.get(4, 0), Slot::Color(Yellow));
    assert_eq!(board.get(4, 3), Slot::Color(Red));
    assert_eq!(board.get(3, 0), Slot::Color(Red));
}

#[test]
fn test_allowed_moves() {
    let mut board = Position::default();
    for _ in 0..6 {
        board = board
            .with_move(Color::Red, 1)
            .unwrap()
            .with_move(Color::Yellow, 3)
            .unwrap()
            .with_move(Color::Red, 6)
            .unwrap();
    }

    assert_eq!(board.allowed_moves(), vec![0, 2, 4, 5]);

    let board = Position {
        inner: 0b01100000001000000001100000001100000001000000001100000001,
    };

    assert_eq!(
        board.allowed_moves(),
        (0..7usize).into_iter().collect::<Vec<usize>>()
    );
}

#[test]
fn empty_cells_above_the_stack() {
    let board = play(play(Position::default(), Color::Red, 2), Color::Yellow, 2);
    assert_eq!(board.get(5, 2), Slot::Color(Color::Red));
    assert_eq!(board.get(4, 2), Slot::Color(Color::Yellow));
    for row in 0..4 {
        assert_eq!(board.get(row, 2), Slot::Empty);
    }
    for row in 0..6 {
        assert_eq!(board.get(row, 1), Slot::Empty);
        assert_eq!(board.get(row, 3), Slot::Empty);
    }
}

#[test]
fn seventh_disc_is_refused() {
    let mut board = Position::default();
    for i in 0..6 {
        let color = if i % 2 == 0 { Color::Red } else { Color::Yellow };
        board = board.with_move(color, 4).unwrap();
    }
    assert_eq!(board.with_move(Color::Red, 4), Err(MoveError::ColumnFull));
    assert_eq!(board.with_move(Color::Yellow, 4), Err(MoveError::ColumnFull));
    assert_eq!(board.allowed_moves(), vec![0, 1, 2, 3, 5, 6]);
}

#[test]
fn a_move_leaves_the_board_before_it_untouched() {
    let before = play(Position::default(), Color::Red, 0);
    let copy = before;
    let after = before.with_move(Color::Yellow, 0).unwrap();
    assert_eq!(before, copy);
    assert_eq!(before.get(4, 0), Slot::Empty);
    assert_eq!(after.get(4, 0), Slot::Color(Color::Yellow));
    assert_eq!(after.get(5, 0), Slot::Color(Color::Red));
}

#[test]
fn rendering_shows_the_top_row_first() {
    let board = play(
        play(play(Position::default(), Color::Red, 0), Color::Yellow, 0),
        Color::Red,
        6,
    );
    let empty_row = "(-)(-)(-)(-)(-)(-)(-)\n";
    let expected = format!(
        "{}{}{}{}{}{}",
        empty_row, empty_row, empty_row, empty_row, "(Y)(-)(-)(-)(-)(-)(-)\n", "(R)(-)(-)(-)(-)(-)(R)\n"
    );
    assert_eq!(board.stringify(), expected);
    assert_eq!(board.stringify().len(), 132);
}

#[test]
fn opposite_swaps_the_players() {
    assert_eq!(Color::Red.opposite(), Color::Yellow);
    assert_eq!(Color::Yellow.opposite(), Color::Red);
    assert_eq!(Color::Red.favour_mod(), 1);
    assert_eq!(Color::Yellow.favour_mod(), -1);
}

#[test]
fn stacks_grow_from_the_bottom_without_gaps() {
    // A game that fills the board in a fixed pattern; after every move the
    // occupied cells of each column form one block that rests on the floor.
    let order = [3, 3, 2, 4, 4, 2, 0, 6, 6, 0, 1, 5, 5, 1, 3, 3, 3, 3, 0, 0, 0, 0, 6, 6, 6, 6];
    let mut board = Position::default();
    let mut heights = [0usize; 7];
    for (ply, col) in order.iter().enumerate() {
        let color = if ply % 2 == 0 { Red } else { Yellow };
        board = board.with_move(color, *col).unwrap();
        assert_eq!(board.get(5 - heights[*col], *col), Slot::Color(color));
        heights[*col] += 1;
        for c in 0..7 {
            assert!(heights[c] <= 6);
            for row in 0..6 {
                let occupied = board.get(row, c) != Slot::Empty;
                assert_eq!(occupied, row >= 6 - heights[c]);
            }
        }
        let open: Vec<usize> = (0..7).filter(|c| heights[*c] < 6).collect();
        assert_eq!(board.allowed_moves(), open);
    }
    assert_eq!(board.allowed_moves(), vec![1, 2, 4, 5]);
}
