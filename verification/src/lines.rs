//! The lines of the grid along which four discs can align.
//!
//! There are 25 of them: the six rows from the bottom row up, the seven
//! columns from left to right (each read from the bottom up), the six
//! diagonals that descend to the right, and the six that descend to the left.
//! Diagonals shorter than four cells are left out. Together the lines hold
//! 24 + 21 + 12 + 12 = 69 windows of four cells.

use vstd::prelude::*;

verus! {

/// The row in which diagonal `d` starts, whichever way it descends.
pub open spec fn diagonal_row(d: int) -> int {
    if d < 3 {
        2 - d
    } else {
        0
    }
}

/// The number of cells of line `line`.
pub open spec fn line_len(line: int) -> int {
    if line < 6 {
        7
    } else if line < 13 {
        6
    } else if line < 19 {
        let d = line - 13;
        if d < 3 {
            4 + d
        } else {
            9 - d
        }
    } else {
        let d = line - 19;
        if d < 3 {
            4 + d
        } else {
            d + 1
        }
    }
}

/// The row of cell `k` of line `line`.
pub open spec fn line_row(line: int, k: int) -> int {
    if line < 6 {
        5 - line
    } else if line < 13 {
        5 - k
    } else if line < 19 {
        diagonal_row(line - 13) + k
    } else {
        diagonal_row(line - 19) + k
    }
}

/// The column of cell `k` of line `line`.
pub open spec fn line_col(line: int, k: int) -> int {
    if line < 6 {
        k
    } else if line < 13 {
        line - 6
    } else if line < 19 {
        let d = line - 13;
        if d < 3 {
            k
        } else {
            d - 2 + k
        }
    } else {
        let d = line - 19;
        if d < 3 {
            6 - k
        } else {
            d - k
        }
    }
}

/// The number of windows of four cells in a line of `len` cells.
pub open spec fn windows_in(len: int) -> int {
    if len >= 4 {
        len - 3
    } else {
        0
    }
}

/// The number of windows in the first `n` lines.
pub open spec fn windows_below(n: int) -> int
    decreases n,
{
    if n <= 0 {
        0
    } else {
        windows_below(n - 1) + windows_in(line_len(n - 1))
    }
}

/// The rows hold 24 windows, the columns 21 more, and each family of
/// diagonals another 12: 69 in all.
pub proof fn lemma_window_count()
    ensures
        windows_below(6) == 24,
        windows_below(13) == 45,
        windows_below(19) == 57,
        windows_below(25) == 69,
{
    reveal_with_fuel(windows_below, 7);
    assert(windows_below(6) == 24);
    assert(windows_below(10) == 36);
    assert(windows_below(13) == 45);
    assert(windows_below(16) == 51);
    assert(windows_below(19) == 57);
    assert(windows_below(22) == 63);
    assert(windows_below(25) == 69);
}

/// The four ways in which cells can align.
#[derive(Clone, Copy, Debug, PartialEq, Eq, Structural)]
pub enum Direction {
    /// Along a row, left to right.
    Across,
    /// Along a column, top to bottom.
    Down,
    /// Diagonally, down and to the right.
    DownRight,
    /// Diagonally, down and to the left.
    DownLeft,
}

/// The row of cell `i` of the run that starts in row `row` and goes in
/// direction `dir`.
pub open spec fn run_row(row: int, dir: Direction, i: int) -> int {
    match dir {
        Direction::Across => row,
        _ => row + i,
    }
}

/// The column of cell `i` of the run that starts in column `col` and goes in
/// direction `dir`.
pub open spec fn run_col(col: int, dir: Direction, i: int) -> int {
    match dir {
        Direction::Across => col + i,
        Direction::Down => col,
        Direction::DownRight => col + i,
        Direction::DownLeft => col - i,
    }
}

/// The four cells of the run lie in the grid.
pub open spec fn run_in_grid(row: int, col: int, dir: Direction) -> bool {
    &&& 0 <= row && run_row(row, dir, 3) < 6
    &&& 0 <= run_col(col, dir, 0) < 7
    &&& 0 <= run_col(col, dir, 3) < 7
}

/// Every cell of every line lies in the grid.
pub proof fn lemma_line_in_grid(line: int, k: int)
    requires
        0 <= line < 25,
        0 <= k < line_len(line),
    ensures
        0 <= line_row(line, k) < 6,
        0 <= line_col(line, k) < 7,
{
}

/// The line that holds the run starting at (`row`, `col`) in direction `dir`.
pub open spec fn run_line(row: int, col: int, dir: Direction) -> int {
    match dir {
        Direction::Across => 5 - row,
        Direction::Down => 6 + col,
        Direction::DownRight => 13 + (col - row + 2),
        Direction::DownLeft => 19 + if row + col >= 6 {
            8 - (row + col)
        } else {
            row + col
        },
    }
}

/// The index, within its line, of the first cell that the line shares with
/// the run starting at (`row`, `col`) in direction `dir`.
pub open spec fn run_offset(row: int, col: int, dir: Direction) -> int {
    match dir {
        Direction::Across => col,
        Direction::Down => 2 - row,
        _ => row - diagonal_row(run_line(row, col, dir) - if dir == Direction::DownRight {
            13int
        } else {
            19int
        }),
    }
}

/// Cell `i` of a run is cell `i` of its window, except in a column, which
/// its line reads from the bottom up.
pub open spec fn run_cell_index(dir: Direction, i: int) -> int {
    if dir == Direction::Down {
        3 - i
    } else {
        i
    }
}

/// Every run of four cells in the grid is a window of one of the lines.
pub proof fn lemma_run_is_window(row: int, col: int, dir: Direction)
    requires
        run_in_grid(row, col, dir),
    ensures
        0 <= run_line(row, col, dir) < 25,
        0 <= run_offset(row, col, dir),
        run_offset(row, col, dir) + 4 <= line_len(run_line(row, col, dir)),
        forall|i: int|
            0 <= i < 4 ==> {
                &&& line_row(
                    run_line(row, col, dir),
                    run_offset(row, col, dir) + run_cell_index(dir, i),
                ) == #[trigger] run_row(row, dir, i)
                &&& line_col(
                    run_line(row, col, dir),
                    run_offset(row, col, dir) + run_cell_index(dir, i),
                ) == run_col(col, dir, i)
            },
{
}

/// The direction in which the cells of line `line` align.
pub open spec fn line_direction(line: int) -> Direction {
    if line < 6 {
        Direction::Across
    } else if line < 13 {
        Direction::Down
    } else if line < 19 {
        Direction::DownRight
    } else {
        Direction::DownLeft
    }
}

/// The row in which the run that covers window `start` of line `line` starts.
pub open spec fn window_row(line: int, start: int) -> int {
    line_row(line, start + run_cell_index(line_direction(line), 0))
}

/// The column in which the run that covers window `start` of line `line`
/// starts.
pub open spec fn window_col(line: int, start: int) -> int {
    line_col(line, start + run_cell_index(line_direction(line), 0))
}

/// Every window of every line is a run of four cells in the grid.
pub proof fn lemma_window_is_run(line: int, start: int)
    requires
        0 <= line < 25,
        0 <= start,
        start + 4 <= line_len(line),
    ensures
        run_in_grid(window_row(line, start), window_col(line, start), line_direction(line)),
        forall|i: int|
            0 <= i < 4 ==> {
                &&& #[trigger] line_row(line, start + i) == run_row(
                    window_row(line, start),
                    line_direction(line),
                    run_cell_index(line_direction(line), i),
                )
                &&& line_col(line, start + i) == run_col(
                    window_col(line, start),
                    line_direction(line),
                    run_cell_index(line_direction(line), i),
                )
            },
{
}

/// The number of cells of line `line`.
pub fn line_length(line: usize) -> (len: usize)
    requires
        line < 25,
    ensures
        len == line_len(line as int),
        4 <= len <= 7,
{
    if line < 6 {
        7
    } else if line < 13 {
        6
    } else if line < 19 {
        let d: usize = line - 13;
        if d < 3 {
            4 + d
        } else {
            9 - d
        }
    } else {
        let d: usize = line - 19;
        if d < 3 {
            4 + d
        } else {
            d + 1
        }
    }
}

/// The row and the column of cell `k` of line `line`.
pub fn line_cell(line: usize, k: usize) -> (cell: (usize, usize))
    requires
        line < 25,
        k < line_len(line as int),
    ensures
        cell.0 == line_row(line as int, k as int),
        cell.1 == line_col(line as int, k as int),
        cell.0 < 6,
        cell.1 < 7,
{
    if line < 6 {
        (5 - line, k)
    } else if line < 13 {
        (5 - k, line - 6)
    } else if line < 19 {
        let d: usize = line - 13;
        if d < 3 {
            (2 - d + k, k)
        } else {
            (k, d - 2 + k)
        }
    } else {
        let d: usize = line - 19;
        if d < 3 {
            (2 - d + k, 6 - k)
        } else {
            (k, d - k)
        }
    }
}

} // verus!
