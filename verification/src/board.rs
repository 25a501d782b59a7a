//! The board: seven columns of at most six discs, packed into one `u64`.
//!
//! Each column owns nine bits. The low three bits hold the column's height;
//! the remaining six hold one colour bit per disc, the first disc dropped in
//! the highest bit. Rows are numbered from the top of the displayed grid, so
//! the first disc of a column rests in row 5.

use vstd::prelude::*;

verus! {

/// One of the two players.
#[derive(Clone, Copy, Debug, PartialEq, Eq, Structural)]
pub enum Color {
    Red,
    Yellow,
}

/// What a cell of the grid holds.
#[derive(Clone, Copy, Debug, Default, PartialEq, Eq, Structural)]
pub enum Slot {
    #[default]
    Empty,
    Color(Color),
}

impl Color {
    /// The player who is not `self`.
    pub open spec fn other(self) -> Color {
        match self {
            Color::Red => Color::Yellow,
            Color::Yellow => Color::Red,
        }
    }

    /// The sign that orients scores: `1` for Red, `-1` for Yellow.
    pub open spec fn sign(self) -> int {
        match self {
            Color::Red => 1,
            Color::Yellow => -1,
        }
    }

    /// The other player.
    pub fn opposite(self) -> (other: Color)
        ensures
            other == self.other(),
    {
        match self {
            Color::Red => Color::Yellow,
            Color::Yellow => Color::Red,
        }
    }

    /// The sign that orients scores: `1` for Red, who gains as scores rise,
    /// `-1` for Yellow, who gains as they fall.
    pub fn favour_mod(self) -> (sign: i32)
        ensures
            sign == self.sign(),
    {
        match self {
            Color::Red => 1,
            Color::Yellow => -1,
        }
    }
}

/// Why a move was refused.
#[derive(Clone, Copy, Debug, PartialEq, Eq, Structural)]
pub enum MoveError {
    /// The column already holds six discs.
    ColumnFull,
}

/// The nine bits that `inner` keeps for column `col`.
pub open spec fn column_bits(inner: u64, col: u64) -> u64 {
    (inner >> ((9 * col) as u64)) & 0x1ff
}

/// The height recorded in the nine bits of one column.
pub open spec fn bits_height(bits: u64) -> u64 {
    bits & 7
}

/// The colour bit that the nine bits of one column keep for disc `k`,
/// counted from the bottom of the column.
pub open spec fn bits_disc(bits: u64, k: u64) -> u64 {
    (bits >> ((8 - k) as u64)) & 1
}

/// The nine bits of a column are in canonical form: the height is at most
/// six and no colour bit is set above it.
pub open spec fn bits_wf(bits: u64) -> bool {
    &&& bits_height(bits) <= 6
    &&& bits & 0x1f8 & ((((1u64 << ((9 - bits_height(bits)) as u64)) - 1) as u64)) == 0
}

/// `inner` after a disc with colour bit `bit` has settled in column `col`.
pub open spec fn inner_with_disc(inner: u64, bit: u64, col: u64) -> u64 {
    let len = bits_height(column_bits(inner, col));
    let place = (8 - len) as u64;
    let shift = (9 * col) as u64;
    (inner & !((7 | (1u64 << place)) << shift)) | ((((len + 1) as u64) | (bit << place)) << shift)
}

/// In the column that receives the disc, the height grows by one and the
/// new disc's colour bit is written; the column stays canonical.
pub proof fn lemma_disc_lands(inner: u64, bit: u64, col: u64)
    by (bit_vector)
    requires
        col < 7,
        bit <= 1,
        bits_height(column_bits(inner, col)) < 6,
    ensures
        bits_height(column_bits(inner_with_disc(inner, bit, col), col)) == bits_height(
            column_bits(inner, col),
        ) + 1,
        bits_disc(
            column_bits(inner_with_disc(inner, bit, col), col),
            bits_height(column_bits(inner, col)),
        ) == bit,
        bits_wf(column_bits(inner, col)) ==> bits_wf(
            column_bits(inner_with_disc(inner, bit, col), col),
        ),
        inner_with_disc(inner, bit, col) >> 63 == inner >> 63,
{
}

/// The discs that already lay in the column keep their colour bits.
pub proof fn lemma_disc_keeps_lower(inner: u64, bit: u64, col: u64, k: u64)
    by (bit_vector)
    requires
        col < 7,
        bit <= 1,
        bits_height(column_bits(inner, col)) < 6,
        k < 6,
        k != bits_height(column_bits(inner, col)),
    ensures
        bits_disc(column_bits(inner_with_disc(inner, bit, col), col), k) == bits_disc(
            column_bits(inner, col),
            k,
        ),
{
}

/// The other columns keep all nine of their bits.
pub proof fn lemma_disc_keeps_others(inner: u64, bit: u64, col: u64, other: u64)
    by (bit_vector)
    requires
        col < 7,
        other < 7,
        other != col,
        bit <= 1,
        bits_height(column_bits(inner, col)) < 6,
    ensures
        column_bits(inner_with_disc(inner, bit, col), other) == column_bits(inner, other),
{
}

/// A canonical column is determined by its height and the colour bits of its
/// discs.
pub proof fn lemma_column_determined(a: u64, b: u64)
    by (bit_vector)
    requires
        a <= 0x1ff,
        b <= 0x1ff,
        bits_wf(a),
        bits_wf(b),
        bits_height(a) == bits_height(b),
        0 < bits_height(a) ==> bits_disc(a, 0) == bits_disc(b, 0),
        1 < bits_height(a) ==> bits_disc(a, 1) == bits_disc(b, 1),
        2 < bits_height(a) ==> bits_disc(a, 2) == bits_disc(b, 2),
        3 < bits_height(a) ==> bits_disc(a, 3) == bits_disc(b, 3),
        4 < bits_height(a) ==> bits_disc(a, 4) == bits_disc(b, 4),
        5 < bits_height(a) ==> bits_disc(a, 5) == bits_disc(b, 5),
    ensures
        a == b,
{
}

/// A packed board is determined by the bits of its seven columns and its
/// spare top bit.
pub proof fn lemma_inner_determined(a: u64, b: u64)
    by (bit_vector)
    requires
        a >> 63 == b >> 63,
        column_bits(a, 0) == column_bits(b, 0),
        column_bits(a, 1) == column_bits(b, 1),
        column_bits(a, 2) == column_bits(b, 2),
        column_bits(a, 3) == column_bits(b, 3),
        column_bits(a, 4) == column_bits(b, 4),
        column_bits(a, 5) == column_bits(b, 5),
        column_bits(a, 6) == column_bits(b, 6),
    ensures
        a == b,
{
}

/// The bits of a column fit in nine bits, and a colour bit is 0 or 1.
pub proof fn lemma_bits_range(inner: u64, col: u64, k: u64)
    by (bit_vector)
    requires
        col < 7,
        k < 6,
    ensures
        column_bits(inner, col) <= 0x1ff,
        bits_disc(column_bits(inner, col), k) <= 1,
{
}

/// A grid state.
#[derive(Clone, Copy, Debug, PartialEq, Eq, PartialOrd, Ord, Hash, Structural)]
pub struct Position {
    pub inner: u64,
}

impl View for Position {
    type V = Seq<Seq<Color>>;

    /// The columns from left to right, each as the colours of its discs from
    /// the bottom up.
    open spec fn view(&self) -> Seq<Seq<Color>> {
        Seq::new(7, |c: int| Seq::new(self.height(c) as nat, |k: int| self.disc(c, k)))
    }
}

impl Default for Position {
    /// The empty board.
    fn default() -> (empty: Position)
        ensures
            empty.inner == 0,
            empty.wf(),
            forall|col: int| 0 <= col < 7 ==> #[trigger] empty.height(col) == 0,
    {
        proof {
            assert forall|col: int| 0 <= col < 7 implies #[trigger] (Position {
                inner: 0,
            }).height(col) == 0 by {
                Position::lemma_empty(col);
            }
            Position::lemma_empty(0);
        }
        Position { inner: 0 }
    }
}

impl Position {
    /// The number of discs in column `col`.
    pub open spec fn height(self, col: int) -> int {
        bits_height(column_bits(self.inner, col as u64)) as int
    }

    /// The colour of disc `k` of column `col`, counted from the bottom.
    pub open spec fn disc(self, col: int, k: int) -> Color {
        if bits_disc(column_bits(self.inner, col as u64), k as u64) == 1 {
            Color::Red
        } else {
            Color::Yellow
        }
    }

    /// What the cell in row `row` (0 at the top) of column `col` holds.
    pub open spec fn slot(self, row: int, col: int) -> Slot {
        if row < 6 - self.height(col) {
            Slot::Empty
        } else {
            Slot::Color(self.disc(col, 5 - row))
        }
    }

    /// The board is in canonical form: every height is at most six, no colour
    /// bit is set for an empty cell, and the spare top bit is clear.
    pub open spec fn wf(self) -> bool {
        &&& self.inner >> 63 == 0
        &&& forall|c: int| 0 <= c < 7 ==> bits_wf(#[trigger] column_bits(self.inner, c as u64))
    }

    /// The board after `color` has dropped a disc into column `col`.
    pub open spec fn dropped(self, color: Color, col: int) -> Position {
        Position {
            inner: inner_with_disc(
                self.inner,
                if color == Color::Red { 1 } else { 0 },
                col as u64,
            ),
        }
    }

    /// Column `col` can take a disc.
    pub open spec fn legal(self, col: int) -> bool {
        0 <= col < 7 && self.height(col) < 6
    }

    /// The number of discs on the board.
    pub open spec fn discs(self) -> int {
        self.height(0) + self.height(1) + self.height(2) + self.height(3) + self.height(4)
            + self.height(5) + self.height(6)
    }

    /// The board that a game reaches from the empty board by `moves`, each a
    /// colour and a column; `None` if one of them is not legal when made.
    pub open spec fn replay(moves: Seq<(Color, int)>) -> Option<Position>
        decreases moves.len(),
    {
        if moves.len() == 0 {
            Some(Position { inner: 0 })
        } else {
            match Self::replay(moves.drop_last()) {
                Some(board) => if board.legal(moves.last().1) {
                    Some(board.dropped(moves.last().0, moves.last().1))
                } else {
                    None
                },
                None => None,
            }
        }
    }

    /// Some game reaches the board from the empty board.
    pub open spec fn reachable(self) -> bool {
        exists|moves: Seq<(Color, int)>| Self::replay(moves) == Some(self)
    }

    /// Looks up the cell in row `row`, counted from the top, of column `col`.
    pub fn get(&self, row: usize, col: usize) -> (slot: Slot)
        requires
            row < 6,
            col < 7,
        ensures
            slot == self.slot(row as int, col as int),
    {
        let col_data: u64 = (self.inner >> (9 * col)) & 0x1ff;
        let len: u64 = col_data & 7;
        assert(len <= 7) by (bit_vector)
            requires
                len == col_data & 7,
        ;
        if (row as u64) + len < 6 {
            Slot::Empty
        } else {
            let bit: u64 = (col_data >> (3 + row)) & 1;
            assert(bit == 0 || bit == 1) by (bit_vector)
                requires
                    bit == (col_data >> (3 + row)) & 1,
            ;
            if bit == 1 {
                Slot::Color(Color::Red)
            } else {
                Slot::Color(Color::Yellow)
            }
        }
    }

    /// Drops a disc of `color` into column `col`. The disc settles in the
    /// lowest empty row of that column; a full column refuses it.
    pub fn with_move(&self, color: Color, col: usize) -> (moved: Result<Position, MoveError>)
        requires
            col < 7,
        ensures
            moved is Ok <==> self.height(col as int) < 6,
            moved matches Err(e) ==> e == MoveError::ColumnFull,
            moved matches Ok(next) ==> {
                &&& next == self.dropped(color, col as int)
                &&& next.height(col as int) == self.height(col as int) + 1
                &&& next.slot(5 - self.height(col as int), col as int) == Slot::Color(color)
                &&& forall|r: int, c: int|
                    0 <= r < 6 && 0 <= c < 7 && !(r == 5 - self.height(col as int) && c == col)
                        ==> #[trigger] next.slot(r, c) == self.slot(r, c)
                &&& forall|c: int|
                    0 <= c < 7 && c != col ==> #[trigger] next.height(c) == self.height(c)
                &&& next@ == self@.update(col as int, self@[col as int].push(color))
                &&& self.wf() ==> next.wf()
            },
    {
        let shift: usize = 9 * col;
        let col_data: u64 = (self.inner >> shift) & 0x1ff;
        let len: u64 = col_data & 7;
        assert(len <= 7) by (bit_vector)
            requires
                len == col_data & 7,
        ;
        if len < 6 {
            let new_len: u64 = len + 1;
            let color_bit: u64 = if color == Color::Red { 1 } else { 0 };
            let mask: u64 = !((7 | (1u64 << (9 - new_len))) << shift);
            let edit: u64 = (new_len | (color_bit << (9 - new_len))) << shift;
            let new_inner: u64 = (self.inner & mask) | edit;
            proof {
                self.lemma_dropped(color, col as int);
            }
            Ok(Position { inner: new_inner })
        } else {
            Err(MoveError::ColumnFull)
        }
    }

    /// The columns that can still take a disc, in ascending order.
    pub fn allowed_moves(&self) -> (moves: Vec<usize>)
        ensures
            forall|i: int| 0 <= i < moves.len() ==> self.legal(#[trigger] moves[i] as int),
            forall|i: int, j: int| 0 <= i < j < moves.len() ==> moves[i] < moves[j],
            forall|col: int| self.legal(col) ==> moves@.contains(col as usize),
    {
        let mut moves: Vec<usize> = Vec::new();
        for c in 0..7usize
            invariant
                forall|i: int|
                    0 <= i < moves.len() ==> moves[i] < c && self.height(
                        #[trigger] moves[i] as int,
                    ) < 6,
                forall|i: int, j: int| 0 <= i < j < moves.len() ==> moves[i] < moves[j],
                forall|d: int| 0 <= d < c && self.height(d) < 6 ==> moves@.contains(d as usize),
        {
            if self.get(0, c) == Slot::Empty {
                let ghost before = moves@;
                moves.push(c);
                proof {
                    assert(moves@[before.len() as int] == c);
                    assert forall|d: int| 0 <= d < c + 1 && self.height(d) < 6 implies moves@.contains(
                        d as usize,
                    ) by {
                        if d < c {
                            let i = choose|i: int| 0 <= i < before.len() && before[i] == d as usize;
                            assert(moves@[i] == d as usize);
                        }
                    }
                }
            }
        }
        moves
    }

    /// The empty board is canonical and all its columns are empty.
    pub proof fn lemma_empty(col: int)
        requires
            0 <= col < 7,
        ensures
            (Position { inner: 0 }).wf(),
            (Position { inner: 0 }).height(col) == 0,
    {
        assert forall|c: u64| 0 <= c < 7 implies #[trigger] column_bits(0, c) == 0 by {
            assert(column_bits(0, c) == 0) by (bit_vector);
        }
        assert(0u64 >> 63 == 0) by (bit_vector);
        assert(bits_wf(0)) by (bit_vector);
        assert(bits_height(0) == 0) by (bit_vector);
        assert(column_bits(0, col as u64) == 0);
    }

    /// A board that a game of `moves` reaches is canonical, holds one disc
    /// for each move, and none of its columns is higher than six.
    pub proof fn lemma_replay(moves: Seq<(Color, int)>)
        requires
            Self::replay(moves) is Some,
        ensures
            Self::replay(moves)->0.wf(),
            Self::replay(moves)->0.discs() == moves.len(),
            forall|col: int| 0 <= col < 7 ==> 0 <= #[trigger] Self::replay(moves)->0.height(col) <= 6,
        decreases moves.len(),
    {
        let board = Self::replay(moves)->0;
        if moves.len() == 0 {
            Self::lemma_empty(0);
            Self::lemma_empty(1);
            Self::lemma_empty(2);
            Self::lemma_empty(3);
            Self::lemma_empty(4);
            Self::lemma_empty(5);
            Self::lemma_empty(6);
        } else {
            Self::lemma_replay(moves.drop_last());
            let before = Self::replay(moves.drop_last())->0;
            before.lemma_dropped(moves.last().0, moves.last().1);
        }
        board.lemma_heights();
    }

    /// On a canonical board no column is higher than six.
    pub proof fn lemma_heights(self)
        requires
            self.wf(),
        ensures
            forall|col: int| 0 <= col < 7 ==> 0 <= #[trigger] self.height(col) <= 6,
            0 <= self.discs() <= 42,
    {
        assert forall|col: int| 0 <= col < 7 implies 0 <= #[trigger] self.height(col) <= 6 by {
            assert(bits_wf(column_bits(self.inner, col as u64)));
        }
    }

    /// Every reachable board is canonical, and each of its columns holds
    /// between zero and six discs.
    pub proof fn lemma_reachable(self)
        requires
            self.reachable(),
        ensures
            self.wf(),
            forall|col: int| 0 <= col < 7 ==> 0 <= #[trigger] self.height(col) <= 6,
    {
        let moves = choose|moves: Seq<(Color, int)>| Self::replay(moves) == Some(self);
        Self::lemma_replay(moves);
    }

    /// Two canonical boards with the same columns have the same packed form.
    pub proof fn lemma_column_agrees(self, other: Position, col: int)
        requires
            self.wf(),
            other.wf(),
            self@ == other@,
            0 <= col < 7,
        ensures
            column_bits(self.inner, col as u64) == column_bits(other.inner, col as u64),
    {
        let a = column_bits(self.inner, col as u64);
        let b = column_bits(other.inner, col as u64);
        assert(self@[col].len() == self.height(col));
        assert(other@[col].len() == other.height(col));
        assert(self.height(col) == other.height(col));
        assert forall|k: int| 0 <= k < self.height(col) implies #[trigger] self.disc(col, k)
            == other.disc(col, k) by {
            assert(self@[col][k] == self.disc(col, k));
            assert(other@[col][k] == other.disc(col, k));
        }
        assert(bits_wf(a) && bits_wf(b));
        lemma_bits_range(self.inner, col as u64, 0);
        lemma_bits_range(self.inner, col as u64, 1);
        lemma_bits_range(self.inner, col as u64, 2);
        lemma_bits_range(self.inner, col as u64, 3);
        lemma_bits_range(self.inner, col as u64, 4);
        lemma_bits_range(self.inner, col as u64, 5);
        lemma_bits_range(other.inner, col as u64, 0);
        lemma_bits_range(other.inner, col as u64, 1);
        lemma_bits_range(other.inner, col as u64, 2);
        lemma_bits_range(other.inner, col as u64, 3);
        lemma_bits_range(other.inner, col as u64, 4);
        lemma_bits_range(other.inner, col as u64, 5);
        assert(0 < self.height(col) ==> self.disc(col, 0) == other.disc(col, 0));
        assert(1 < self.height(col) ==> self.disc(col, 1) == other.disc(col, 1));
        assert(2 < self.height(col) ==> self.disc(col, 2) == other.disc(col, 2));
        assert(3 < self.height(col) ==> self.disc(col, 3) == other.disc(col, 3));
        assert(4 < self.height(col) ==> self.disc(col, 4) == other.disc(col, 4));
        assert(5 < self.height(col) ==> self.disc(col, 5) == other.disc(col, 5));
        lemma_column_determined(a, b);
    }

    /// Boards are equal exactly if their columns hold the same discs: the
    /// packed form of a canonical board is its identity.
    pub proof fn lemma_equal_views(self, other: Position)
        requires
            self.wf(),
            other.wf(),
        ensures
            self@ == other@ <==> self == other,
    {
        if self@ == other@ {
            self.lemma_column_agrees(other, 0);
            self.lemma_column_agrees(other, 1);
            self.lemma_column_agrees(other, 2);
            self.lemma_column_agrees(other, 3);
            self.lemma_column_agrees(other, 4);
            self.lemma_column_agrees(other, 5);
            self.lemma_column_agrees(other, 6);
            lemma_inner_determined(self.inner, other.inner);
        }
    }

    /// What a move changes: the disc settles on top of its column, in row
    /// `5 - height`, and every other cell stays as it was.
    pub proof fn lemma_dropped(self, color: Color, col: int)
        requires
            0 <= col < 7,
            self.height(col) < 6,
        ensures
            self.dropped(color, col).height(col) == self.height(col) + 1,
            forall|c: int|
                0 <= c < 7 && c != col ==> #[trigger] self.dropped(color, col).height(c)
                    == self.height(c),
            self.dropped(color, col).slot(5 - self.height(col), col) == Slot::Color(color),
            forall|r: int, c: int|
                0 <= r < 6 && 0 <= c < 7 && !(r == 5 - self.height(col) && c == col)
                    ==> #[trigger] self.dropped(color, col).slot(r, c) == self.slot(r, c),
            self.dropped(color, col)@ == self@.update(col, self@[col].push(color)),
            self.wf() ==> self.dropped(color, col).wf(),
    {
        let next = self.dropped(color, col);
        let bit: u64 = if color == Color::Red { 1 } else { 0 };
        let h = self.height(col);
        lemma_disc_lands(self.inner, bit, col as u64);
        assert forall|c: int| 0 <= c < 7 && c != col implies #[trigger] column_bits(
            next.inner,
            c as u64,
        ) == column_bits(self.inner, c as u64) by {
            lemma_disc_keeps_others(self.inner, bit, col as u64, c as u64);
        }
        assert forall|k: int| 0 <= k < 6 && k != h implies #[trigger] next.disc(col, k)
            == self.disc(col, k) by {
            lemma_disc_keeps_lower(self.inner, bit, col as u64, k as u64);
        }
        assert forall|r: int, c: int|
            0 <= r < 6 && 0 <= c < 7 && !(r == 5 - h && c == col) implies #[trigger] next.slot(
            r,
            c,
        ) == self.slot(r, c) by {
            if c == col {
                if r > 5 - h {
                    assert(next.disc(col, 5 - r) == self.disc(col, 5 - r));
                }
            } else {
                assert(column_bits(next.inner, c as u64) == column_bits(self.inner, c as u64));
            }
        }
        assert forall|c: int| 0 <= c < 7 && c != col implies #[trigger] next.height(c)
            == self.height(c) by {
            assert(column_bits(next.inner, c as u64) == column_bits(self.inner, c as u64));
        }
        let column = self@[col].push(color);
        assert(next@[col] =~= column) by {
            assert forall|k: int| 0 <= k < h + 1 implies next@[col][k] == column[k] by {
                if k != h {
                    assert(next.disc(col, k) == self.disc(col, k));
                }
            }
        }
        assert forall|c: int| 0 <= c < 7 && c != col implies next@[c] =~= self@[c] by {
            assert(column_bits(next.inner, c as u64) == column_bits(self.inner, c as u64));
        }
        assert(next@ =~= self@.update(col, column));
        if self.wf() {
            assert forall|c: int| 0 <= c < 7 implies bits_wf(
                #[trigger] column_bits(next.inner, c as u64),
            ) by {
                if c != col {
                    assert(column_bits(next.inner, c as u64) == column_bits(
                        self.inner,
                        c as u64,
                    ));
                }
            }
        }
    }
}

} // verus!
