//! The heuristic evaluator.
//!
//! Every run of four neighbouring cells along a row, a column or a diagonal
//! is a window. A window filled with one colour wins the game for it. A
//! window that holds `k` discs of one colour and no disc of the other is
//! worth `k³` twenty-sevenths to that colour: positive for Red, negative for
//! Yellow. Scores are kept as whole numbers of twenty-sevenths.

use crate::board::{Color, Position, Slot};
use crate::lines::{
    lemma_line_in_grid, lemma_run_is_window, lemma_window_count, lemma_window_is_run, line_cell,
    line_col, line_direction, line_len, line_length, line_row, run_cell_index, run_col,
    run_in_grid, run_line, run_offset, run_row, window_col, window_row, windows_below,
    windows_in, Direction,
};
use vstd::prelude::*;

verus! {

/// The verdict on a position.
#[derive(Clone, Copy, Debug, PartialEq, Eq, Structural)]
pub enum NaiveScore {
    /// Four discs of this colour stand in a line.
    Winner(Color),
    /// Nobody has won; the payload is Red's advantage in twenty-sevenths.
    RedFavour(i32),
}

/// `1` where `slot` holds a disc of `color`, else `0`.
pub open spec fn holds(slot: Slot, color: Color) -> int {
    if slot == Slot::Color(color) {
        1
    } else {
        0
    }
}

/// How many of the four cells `s[start..start + 4]` hold a disc of `color`.
pub open spec fn window_count(s: Seq<Slot>, start: int, color: Color) -> int {
    holds(s[start], color) + holds(s[start + 1], color) + holds(s[start + 2], color) + holds(
        s[start + 3],
        color,
    )
}

/// The colour that fills the window at `start`, if one does.
pub open spec fn window_winner(s: Seq<Slot>, start: int) -> Option<Color> {
    if window_count(s, start, Color::Red) == 4 {
        Some(Color::Red)
    } else if window_count(s, start, Color::Yellow) == 4 {
        Some(Color::Yellow)
    } else {
        None
    }
}

/// What the window at `start` is worth to Red, in twenty-sevenths.
pub open spec fn window_favour(s: Seq<Slot>, start: int) -> int {
    let red = window_count(s, start, Color::Red);
    let yellow = window_count(s, start, Color::Yellow);
    if red > 0 && yellow == 0 {
        red * red * red
    } else if yellow > 0 && red == 0 {
        -(yellow * yellow * yellow)
    } else {
        0
    }
}

/// The colour of the first winning window among the first `n` windows of `s`.
pub open spec fn scan_winner(s: Seq<Slot>, n: int) -> Option<Color>
    decreases n,
{
    if n <= 0 {
        None
    } else {
        match scan_winner(s, n - 1) {
            Some(color) => Some(color),
            None => window_winner(s, n - 1),
        }
    }
}

/// The summed worth of the first `n` windows of `s`.
pub open spec fn scan_favour(s: Seq<Slot>, n: int) -> int
    decreases n,
{
    if n <= 0 {
        0
    } else {
        scan_favour(s, n - 1) + window_favour(s, n - 1)
    }
}

/// The worth of a window lies between -27 and 27: a full window of one
/// colour is a win and is never counted.
pub proof fn lemma_window_favour_bound(s: Seq<Slot>, start: int)
    requires
        window_winner(s, start) is None,
    ensures
        -27 <= window_favour(s, start) <= 27,
{
    let red = window_count(s, start, Color::Red);
    let yellow = window_count(s, start, Color::Yellow);
    assert(0 <= red <= 3 && 0 <= yellow <= 3);
    assert(red * red * red <= 27) by (nonlinear_arith)
        requires
            0 <= red <= 3,
    ;
    assert(yellow * yellow * yellow <= 27) by (nonlinear_arith)
        requires
            0 <= yellow <= 3,
    ;
    assert(red * red * red >= 0) by (nonlinear_arith)
        requires
            0 <= red <= 3,
    ;
    assert(yellow * yellow * yellow >= 0) by (nonlinear_arith)
        requires
            0 <= yellow <= 3,
    ;
}

/// Windows depend only on the cells they cover, so a scan of a prefix agrees
/// with the scan of the whole line on the windows that fit in the prefix.
pub proof fn lemma_scan_prefix(s: Seq<Slot>, t: Seq<Slot>, n: int)
    requires
        n <= windows_in(s.len() as int),
        s.len() <= t.len(),
        forall|i: int| 0 <= i < s.len() ==> s[i] == t[i],
    ensures
        scan_winner(s, n) == scan_winner(t, n),
        scan_favour(s, n) == scan_favour(t, n),
    decreases n,
{
    if n > 0 {
        lemma_scan_prefix(s, t, n - 1);
    }
}

/// Once a window has won, later windows no longer change the winner.
pub proof fn lemma_scan_winner_stays(s: Seq<Slot>, n: int, m: int)
    requires
        n <= m,
        scan_winner(s, n) is Some,
    ensures
        scan_winner(s, m) == scan_winner(s, n),
    decreases m,
{
    if n < m {
        lemma_scan_winner_stays(s, n, m - 1);
    }
}

/// While no window has won, the sum stays within 27 per window.
pub proof fn lemma_scan_favour_bound(s: Seq<Slot>, n: int)
    requires
        0 <= n,
        scan_winner(s, n) is None,
    ensures
        -27 * n <= scan_favour(s, n) <= 27 * n,
    decreases n,
{
    if n > 0 {
        lemma_scan_favour_bound(s, n - 1);
        lemma_window_favour_bound(s, n - 1);
    }
}

/// The verdict on one line of cells.
pub open spec fn slots_score(s: Seq<Slot>) -> NaiveScore {
    let n = windows_in(s.len() as int);
    match scan_winner(s, n) {
        Some(color) => NaiveScore::Winner(color),
        None => NaiveScore::RedFavour(scan_favour(s, n) as i32),
    }
}

/// A winner found among the first `n` windows fills one of them.
pub proof fn lemma_scan_winner_window(s: Seq<Slot>, n: int) -> (start: int)
    requires
        scan_winner(s, n) is Some,
    ensures
        0 <= start < n,
        window_winner(s, start) == scan_winner(s, n),
    decreases n,
{
    if scan_winner(s, n - 1) is Some {
        lemma_scan_winner_window(s, n - 1)
    } else {
        n - 1
    }
}

/// A window whose winner is `color` holds four discs of `color`.
pub proof fn lemma_full_window(s: Seq<Slot>, start: int, color: Color)
    requires
        window_winner(s, start) == Some(color),
    ensures
        s[start] == Slot::Color(color),
        s[start + 1] == Slot::Color(color),
        s[start + 2] == Slot::Color(color),
        s[start + 3] == Slot::Color(color),
{
}

/// A line of empty cells has no winner and is worth nothing.
pub proof fn lemma_bare_scan(s: Seq<Slot>, n: int)
    requires
        n <= windows_in(s.len() as int),
        forall|k: int| 0 <= k < s.len() ==> s[k] == Slot::Empty,
    ensures
        scan_winner(s, n) is None,
        scan_favour(s, n) == 0,
    decreases n,
{
    if n > 0 {
        lemma_bare_scan(s, n - 1);
    }
}

impl Position {
    /// The cells of line `line`, in the order of the line.
    pub open spec fn line_slots(self, line: int) -> Seq<Slot> {
        Seq::new(
            line_len(line) as nat,
            |k: int| self.slot(line_row(line, k), line_col(line, k)),
        )
    }

    /// The colour of the first winning window of line `line`.
    pub open spec fn line_winner(self, line: int) -> Option<Color> {
        scan_winner(self.line_slots(line), windows_in(line_len(line)))
    }

    /// The summed worth of the windows of line `line`.
    pub open spec fn line_favour(self, line: int) -> int {
        scan_favour(self.line_slots(line), windows_in(line_len(line)))
    }

    /// The colour of the first winning window of the first `n` lines.
    pub open spec fn winner_upto(self, n: int) -> Option<Color>
        decreases n,
    {
        if n <= 0 {
            None
        } else {
            match self.winner_upto(n - 1) {
                Some(color) => Some(color),
                None => self.line_winner(n - 1),
            }
        }
    }

    /// The summed worth of the windows of the first `n` lines.
    pub open spec fn favour_upto(self, n: int) -> int
        decreases n,
    {
        if n <= 0 {
            0
        } else {
            self.favour_upto(n - 1) + self.line_favour(n - 1)
        }
    }

    /// The verdict on the position: the colour of the first winning window
    /// in the order of the lines, or else the summed worth of all windows.
    pub open spec fn score(self) -> NaiveScore {
        match self.winner_upto(25) {
            Some(color) => NaiveScore::Winner(color),
            None => NaiveScore::RedFavour(self.favour_upto(25) as i32),
        }
    }

    /// The four cells of the run starting at (`row`, `col`) in direction
    /// `dir` all hold a disc of `color`.
    pub open spec fn run_filled(self, row: int, col: int, dir: Direction, color: Color) -> bool {
        forall|i: int|
            0 <= i < 4 ==> self.slot(#[trigger] run_row(row, dir, i), run_col(col, dir, i))
                == Slot::Color(color)
    }

    /// Four discs of `color` stand next to each other in a row, a column or
    /// a diagonal.
    pub open spec fn four_in_a_row(self, color: Color) -> bool {
        exists|row: int, col: int, dir: Direction|
            run_in_grid(row, col, dir) && #[trigger] self.run_filled(row, col, dir, color)
    }

    /// A winner found in the first `n` lines stays the winner.
    pub proof fn lemma_winner_stays(self, n: int, m: int)
        requires
            n <= m,
            self.winner_upto(n) is Some,
        ensures
            self.winner_upto(m) == self.winner_upto(n),
        decreases m,
    {
        if n < m {
            self.lemma_winner_stays(n, m - 1);
        }
    }

    /// While no line has a winner, the sum stays within 27 per window.
    pub proof fn lemma_favour_bound(self, n: int)
        requires
            0 <= n <= 25,
            self.winner_upto(n) is None,
        ensures
            -27 * windows_below(n) <= self.favour_upto(n) <= 27 * windows_below(n),
            0 <= windows_below(n) <= 4 * n,
        decreases n,
    {
        if n > 0 {
            self.lemma_favour_bound(n - 1);
            lemma_scan_favour_bound(self.line_slots(n - 1), windows_in(line_len(n - 1)));
        }
    }

    /// Cell `i` of the run that covers a window is a cell of that window.
    pub proof fn lemma_window_cell(self, line: int, start: int, i: int)
        requires
            0 <= line < 25,
            0 <= start,
            start + 4 <= line_len(line),
            0 <= i < 4,
        ensures
            self.slot(
                run_row(window_row(line, start), line_direction(line), i),
                run_col(window_col(line, start), line_direction(line), i),
            ) == self.line_slots(line)[start + run_cell_index(line_direction(line), i)],
    {
        let k = run_cell_index(line_direction(line), i);
        lemma_window_is_run(line, start);
        assert(run_cell_index(line_direction(line), k) == i);
        assert(line_row(line, start + k) == run_row(
            window_row(line, start),
            line_direction(line),
            i,
        ));
    }

    /// Cell `i` of a run in the grid is a cell of the run's window.
    pub proof fn lemma_run_cell(self, row: int, col: int, dir: Direction, i: int)
        requires
            run_in_grid(row, col, dir),
            0 <= i < 4,
        ensures
            0 <= run_line(row, col, dir) < 25,
            0 <= run_offset(row, col, dir),
            run_offset(row, col, dir) + 4 <= line_len(run_line(row, col, dir)),
            self.slot(run_row(row, dir, i), run_col(col, dir, i)) == self.line_slots(
                run_line(row, col, dir),
            )[run_offset(row, col, dir) + run_cell_index(dir, i)],
    {
        lemma_run_is_window(row, col, dir);
        assert(line_row(
            run_line(row, col, dir),
            run_offset(row, col, dir) + run_cell_index(dir, i),
        ) == run_row(row, dir, i));
    }

    /// A line with a winning window makes the board a won one.
    pub proof fn lemma_line_wins(self, line: int, start: int)
        requires
            0 <= line < 25,
            0 <= start,
            start + 4 <= line_len(line),
            window_winner(self.line_slots(line), start) is Some,
        ensures
            self.winner_upto(25) is Some,
    {
        let s = self.line_slots(line);
        assert(scan_winner(s, start + 1) is Some);
        lemma_scan_winner_stays(s, start + 1, windows_in(line_len(line)));
        assert(self.line_winner(line) is Some);
        assert(self.winner_upto(line + 1) is Some);
        self.lemma_winner_stays(line + 1, 25);
    }

    /// A winner among the first `n` lines fills a window of one of them.
    pub proof fn lemma_winner_window(self, n: int) -> (at: (int, int))
        requires
            0 <= n <= 25,
            self.winner_upto(n) is Some,
        ensures
            0 <= at.0 < n,
            0 <= at.1,
            at.1 + 4 <= line_len(at.0),
            window_winner(self.line_slots(at.0), at.1) == self.winner_upto(n),
        decreases n,
    {
        if self.winner_upto(n - 1) is Some {
            self.lemma_winner_window(n - 1)
        } else {
            let line = n - 1;
            let start = lemma_scan_winner_window(
                self.line_slots(line),
                windows_in(line_len(line)),
            );
            (line, start)
        }
    }

    /// A colour that the evaluator names as winner has four discs in a row.
    pub proof fn lemma_winner_has_four(self)
        requires
            self.winner_upto(25) is Some,
        ensures
            self.four_in_a_row(self.winner_upto(25)->0),
    {
        let color = self.winner_upto(25)->0;
        let (line, start) = self.lemma_winner_window(25);
        let s = self.line_slots(line);
        let dir = line_direction(line);
        let row = window_row(line, start);
        let col = window_col(line, start);
        lemma_full_window(s, start, color);
        lemma_window_is_run(line, start);
        assert forall|i: int| 0 <= i < 4 implies self.slot(
            #[trigger] run_row(row, dir, i),
            run_col(col, dir, i),
        ) == Slot::Color(color) by {
            self.lemma_window_cell(line, start, i);
        }
        assert(self.run_filled(row, col, dir, color));
    }

    /// Four discs of one colour in a row never escape the evaluator.
    pub proof fn lemma_four_has_winner(self, row: int, col: int, dir: Direction, color: Color)
        requires
            run_in_grid(row, col, dir),
            self.run_filled(row, col, dir, color),
        ensures
            self.winner_upto(25) is Some,
    {
        let line = run_line(row, col, dir);
        let start = run_offset(row, col, dir);
        let s = self.line_slots(line);
        self.lemma_run_cell(row, col, dir, 0);
        self.lemma_run_cell(row, col, dir, 1);
        self.lemma_run_cell(row, col, dir, 2);
        self.lemma_run_cell(row, col, dir, 3);
        assert(self.slot(run_row(row, dir, 0), run_col(col, dir, 0)) == Slot::Color(color));
        assert(self.slot(run_row(row, dir, 1), run_col(col, dir, 1)) == Slot::Color(color));
        assert(self.slot(run_row(row, dir, 2), run_col(col, dir, 2)) == Slot::Color(color));
        assert(self.slot(run_row(row, dir, 3), run_col(col, dir, 3)) == Slot::Color(color));
        assert(window_count(s, start, color) == 4) by {
            assert(s[start] == Slot::Color(color));
            assert(s[start + 1] == Slot::Color(color));
            assert(s[start + 2] == Slot::Color(color));
            assert(s[start + 3] == Slot::Color(color));
        }
        self.lemma_line_wins(line, start);
    }

    /// On a board whose cells are all empty the first `n` lines have no
    /// winner and are worth nothing.
    pub proof fn lemma_bare_lines(self, n: int)
        requires
            0 <= n <= 25,
            forall|row: int, col: int|
                0 <= row < 6 && 0 <= col < 7 ==> #[trigger] self.slot(row, col) == Slot::Empty,
        ensures
            self.winner_upto(n) is None,
            self.favour_upto(n) == 0,
        decreases n,
    {
        if n > 0 {
            self.lemma_bare_lines(n - 1);
            let line = n - 1;
            let s = self.line_slots(line);
            assert forall|k: int| 0 <= k < s.len() implies s[k] == Slot::Empty by {
                lemma_line_in_grid(line, k);
            }
            lemma_bare_scan(s, windows_in(line_len(line)));
        }
    }

    /// The empty board is even: nobody has won and nobody is favoured.
    pub proof fn lemma_empty_is_even()
        ensures
            (Position { inner: 0 }).score() == NaiveScore::RedFavour(0),
    {
        let empty = Position { inner: 0 };
        assert forall|row: int, col: int| 0 <= row < 6 && 0 <= col < 7 implies #[trigger] empty.slot(
            row,
            col,
        ) == Slot::Empty by {
            Position::lemma_empty(col);
        }
        empty.lemma_bare_lines(25);
    }

    /// Scans one line of the board.
    fn scan_line(&self, line: usize) -> (score: NaiveScore)
        requires
            line < 25,
        ensures
            score == slots_score(self.line_slots(line as int)),
    {
        let ghost cells = self.line_slots(line as int);
        let len = line_length(line);
        let mut scan = ScanState::new();
        let mut won = false;
        let mut k: usize = 0;
        while k < len && !won
            invariant
                line < 25,
                len == line_len(line as int),
                cells == self.line_slots(line as int),
                k <= len,
                scan.wf(),
                scan.eaten() == cells.take(k as int),
                won == (scan.winner is Some),
            decreases len - k + if won { 0int } else { 1int },
        {
            let cell = line_cell(line, k);
            won = scan.eat(self.get(cell.0, cell.1));
            proof {
                assert(cells.take(k as int).push(cells[k as int]) =~= cells.take(k + 1));
            }
            k += 1;
        }
        proof {
            let seen = windows_in(k as int);
            if won {
                lemma_scan_prefix(cells.take(k as int), cells, seen);
                lemma_scan_winner_stays(cells, seen, windows_in(len as int));
            } else {
                assert(cells.take(k as int) =~= cells);
            }
        }
        scan.naive_score()
    }

    /// Judges the position: a winner where four discs of one colour stand in
    /// a row, otherwise Red's advantage in twenty-sevenths.
    pub fn naive_score(&self) -> (score: NaiveScore)
        ensures
            score == self.score(),
            score matches NaiveScore::Winner(color) ==> self.four_in_a_row(color),
            score matches NaiveScore::RedFavour(favour) ==> {
                &&& !self.four_in_a_row(Color::Red)
                &&& !self.four_in_a_row(Color::Yellow)
                &&& favour == self.favour_upto(25)
                &&& -27 * 69 <= favour <= 27 * 69
            },
    {
        let mut total_favour: i32 = 0;
        for line in 0..25usize
            invariant
                self.winner_upto(line as int) is None,
                total_favour == self.favour_upto(line as int),
        {
            proof {
                self.lemma_favour_bound(line as int);
            }
            let score = self.scan_line(line);
            match score {
                NaiveScore::RedFavour(favour) => {
                    proof {
                        lemma_scan_favour_bound(
                            self.line_slots(line as int),
                            windows_in(line_len(line as int)),
                        );
                    }
                    total_favour = total_favour + favour;
                },
                NaiveScore::Winner(_) => {
                    proof {
                        self.lemma_winner_stays(line + 1, 25);
                        self.lemma_winner_has_four();
                    }
                    return score;
                },
            }
        }
        proof {
            self.lemma_favour_bound(25);
            lemma_window_count();
            assert forall|color: Color| !self.four_in_a_row(color) by {
                if self.four_in_a_row(color) {
                    let (row, col, dir) = choose|row: int, col: int, dir: Direction|
                        run_in_grid(row, col, dir) && #[trigger] self.run_filled(
                            row,
                            col,
                            dir,
                            color,
                        );
                    self.lemma_four_has_winner(row, col, dir, color);
                }
            }
        }
        NaiveScore::RedFavour(total_favour)
    }
}

/// A four-cell window that slides along one line of the board.
struct ScanState {
    winner: Option<Color>,
    favour: i32,
    slot_window: [Slot; 4],
    slot_fill_index: usize,
    eaten: Ghost<Seq<Slot>>,
}

impl ScanState {
    /// The cells fed to the scan so far.
    spec fn eaten(self) -> Seq<Slot> {
        self.eaten@
    }

    /// The fields agree with the cells eaten: the window holds the last four
    /// of them, and winner and favour are those of the windows seen.
    spec fn wf(self) -> bool {
        let s = self.eaten@;
        let n = windows_in(s.len() as int);
        &&& self.slot_fill_index == if s.len() < 4 { s.len() } else { 4 }
        &&& forall|i: int|
            0 <= i < self.slot_fill_index ==> #[trigger] self.slot_window[i] == s[s.len()
                - self.slot_fill_index + i]
        &&& self.winner == scan_winner(s, n)
        &&& self.winner is None ==> self.favour == scan_favour(s, n)
    }

    /// The most cells that a scan takes: no line of the board has more.
    spec fn capacity() -> int {
        7
    }

    /// A scan that has eaten nothing.
    fn new() -> (scan: ScanState)
        ensures
            scan.wf(),
            scan.eaten() == Seq::<Slot>::empty(),
            scan.winner is None,
    {
        ScanState {
            winner: None,
            favour: 0,
            slot_window: [Slot::Empty; 4],
            slot_fill_index: 0,
            eaten: Ghost(Seq::empty()),
        }
    }

    /// Counts the discs of `color` in the window.
    fn count(&self, color: Color) -> (n: i32)
        ensures
            n == holds(self.slot_window[0], color) + holds(self.slot_window[1], color) + holds(
                self.slot_window[2],
                color,
            ) + holds(self.slot_window[3], color),
    {
        let mut n: i32 = 0;
        if self.slot_window[0] == Slot::Color(color) {
            n += 1;
        }
        if self.slot_window[1] == Slot::Color(color) {
            n += 1;
        }
        if self.slot_window[2] == Slot::Color(color) {
            n += 1;
        }
        if self.slot_window[3] == Slot::Color(color) {
            n += 1;
        }
        n
    }

    /// Feeds the next cell of the line to the scan. Returns `true` when the
    /// window that this cell completes is filled with one colour.
    fn eat(&mut self, slot: Slot) -> (won: bool)
        requires
            old(self).wf(),
            old(self).winner is None,
            old(self).eaten().len() < Self::capacity(),
        ensures
            final(self).wf(),
            final(self).eaten() == old(self).eaten().push(slot),
            won == (final(self).winner is Some),
    {
        let ghost before = self.eaten@;
        let ghost after = before.push(slot);
        let ghost seen = windows_in(before.len() as int);
        proof {
            lemma_scan_prefix(before, after, seen);
            lemma_scan_favour_bound(before, seen);
        }
        self.eaten = Ghost(after);
        if self.slot_fill_index < 4 {
            self.slot_window[self.slot_fill_index] = slot;
            self.slot_fill_index += 1;
            if self.slot_fill_index < 4 {
                return false;
            }
        } else {
            self.slot_window[0] = self.slot_window[1];
            self.slot_window[1] = self.slot_window[2];
            self.slot_window[2] = self.slot_window[3];
            self.slot_window[3] = slot;
        }
        assert(windows_in(after.len() as int) == seen + 1);
        assert(forall|i: int| 0 <= i < 4 ==> self.slot_window[i] == after[seen + i]);

        let red_cnt = self.count(Color::Red);
        let ylw_cnt = self.count(Color::Yellow);
        assert(red_cnt == window_count(after, seen, Color::Red));
        assert(ylw_cnt == window_count(after, seen, Color::Yellow));

        if red_cnt == 4 {
            self.winner = Some(Color::Red);
            return true;
        }
        if ylw_cnt == 4 {
            self.winner = Some(Color::Yellow);
            return true;
        }
        proof {
            lemma_window_favour_bound(after, seen);
        }
        if red_cnt > 0 && ylw_cnt == 0 {
            assert(red_cnt * red_cnt * red_cnt <= 27) by (nonlinear_arith)
                requires
                    0 < red_cnt <= 3,
            ;
            assert(red_cnt * red_cnt <= 9) by (nonlinear_arith)
                requires
                    0 < red_cnt <= 3,
            ;
            self.favour = self.favour + red_cnt * red_cnt * red_cnt;
        } else if ylw_cnt > 0 && red_cnt == 0 {
            assert(ylw_cnt * ylw_cnt * ylw_cnt <= 27) by (nonlinear_arith)
                requires
                    0 < ylw_cnt <= 3,
            ;
            assert(ylw_cnt * ylw_cnt <= 9) by (nonlinear_arith)
                requires
                    0 < ylw_cnt <= 3,
            ;
            self.favour = self.favour - ylw_cnt * ylw_cnt * ylw_cnt;
        }
        false
    }

    /// The verdict on the cells eaten so far.
    fn naive_score(&self) -> (score: NaiveScore)
        requires
            self.wf(),
        ensures
            score == slots_score(self.eaten()),
            score == match self.winner {
                Some(winner) => NaiveScore::Winner(winner),
                None => NaiveScore::RedFavour(self.favour),
            },
    {
        if let Some(winner) = self.winner {
            NaiveScore::Winner(winner)
        } else {
            NaiveScore::RedFavour(self.favour)
        }
    }
}

} // verus!
