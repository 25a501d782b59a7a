//! Depth-limited minimax over the evaluator's verdicts.
//!
//! The side to move tries its legal columns in ascending order. A column that
//! wins at once is taken without looking further. Otherwise each column is
//! valued by the evaluator, or, with plies left, by the opponent's best
//! reply, and the first column with the best value is chosen. A side that
//! cannot move is counted as lost.
//!
//! Taking the first immediate win is greedy: a column tried earlier may win
//! as surely through its replies, and is passed over all the same.

use crate::board::{Color, Position};
use crate::naive_score::NaiveScore;
use vstd::prelude::*;

verus! {

/// A column together with what it is worth.
#[derive(Clone, Copy, Debug, PartialEq, Eq, Structural)]
pub struct Choice {
    pub column: usize,
    pub value: NaiveScore,
}

/// Why a search gave no move.
#[derive(Clone, Copy, Debug, PartialEq, Eq, Structural)]
pub enum SearchError {
    /// Every column is full.
    NoMovesAvailable,
}

impl NaiveScore {
    /// The place of a verdict on the line from Yellow's win to Red's win:
    /// a win lies beyond every favour.
    pub open spec fn rank(self) -> int {
        match self {
            NaiveScore::Winner(Color::Red) => 0x8000_0000,
            NaiveScore::Winner(Color::Yellow) => -0x8000_0001,
            NaiveScore::RedFavour(favour) => favour as int,
        }
    }

    /// `self` is strictly better for `turn` than `other`: higher for Red,
    /// lower for Yellow.
    pub open spec fn better_for(self, turn: Color, other: NaiveScore) -> bool {
        match turn {
            Color::Red => self.rank() > other.rank(),
            Color::Yellow => self.rank() < other.rank(),
        }
    }

    /// The rank as a machine integer.
    pub fn rank_value(self) -> (rank: i64)
        ensures
            rank == self.rank(),
    {
        match self {
            NaiveScore::Winner(Color::Red) => 0x8000_0000,
            NaiveScore::Winner(Color::Yellow) => -0x8000_0001,
            NaiveScore::RedFavour(favour) => favour as i64,
        }
    }

    /// Whether `self` is strictly better for `turn` than `other`.
    pub fn beats(self, other: NaiveScore, turn: Color) -> (better: bool)
        ensures
            better == self.better_for(turn, other),
    {
        match turn {
            Color::Red => self.rank_value() > other.rank_value(),
            Color::Yellow => self.rank_value() < other.rank_value(),
        }
    }
}

impl Position {
    /// Dropping into column `col` wins the game for `turn` at once.
    pub open spec fn wins_at(self, turn: Color, col: int) -> bool {
        self.legal(col) && self.dropped(turn, col).score() == NaiveScore::Winner(turn)
    }

    /// The lowest column below `n` in which `turn` wins at once.
    pub open spec fn first_win(self, turn: Color, n: int) -> Option<int>
        decreases n,
    {
        if n <= 0 {
            None
        } else {
            match self.first_win(turn, n - 1) {
                Some(col) => Some(col),
                None => if self.wins_at(turn, n - 1) {
                    Some(n - 1)
                } else {
                    None
                },
            }
        }
    }

    /// The column at which the search stops trying: the first that wins at
    /// once, or 7.
    pub open spec fn stop(self, turn: Color) -> int {
        match self.first_win(turn, 7) {
            Some(col) => col,
            None => 7,
        }
    }

    /// What dropping into the legal column `col` is worth to `turn` with
    /// `depth` further plies to look ahead: the evaluator's verdict if the
    /// move wins or no ply is left, else the value of the opponent's best
    /// reply. An opponent left without a reply has lost.
    pub open spec fn move_value(self, turn: Color, depth: nat, col: int) -> NaiveScore
        decreases depth, 0int, 0int,
    {
        let next = self.dropped(turn, col);
        if depth == 0 || next.score() == NaiveScore::Winner(turn) {
            next.score()
        } else {
            match next.best_move(turn.other(), (depth - 1) as nat) {
                Some(reply) => reply.value,
                None => NaiveScore::Winner(turn),
            }
        }
    }

    /// The best of the legal columns below `n`: the first whose value no
    /// later one strictly betters.
    pub open spec fn best_upto(self, turn: Color, depth: nat, n: int) -> Option<Choice>
        decreases depth, 1int, n,
    {
        if n <= 0 {
            None
        } else {
            let best = self.best_upto(turn, depth, n - 1);
            if !self.legal(n - 1) {
                best
            } else {
                let value = self.move_value(turn, depth, n - 1);
                if best is Some && !value.better_for(turn, best->0.value) {
                    best
                } else {
                    Some(Choice { column: (n - 1) as usize, value })
                }
            }
        }
    }

    /// The move that `turn` makes with `depth` further plies to look ahead:
    /// the first column that wins at once, else the best column; `None`
    /// where every column is full.
    pub open spec fn best_move(self, turn: Color, depth: nat) -> Option<Choice>
        decreases depth, 2int, 0int,
    {
        match self.first_win(turn, 7) {
            Some(col) => Some(Choice { column: col as usize, value: NaiveScore::Winner(turn) }),
            None => self.best_upto(turn, depth, 7),
        }
    }
}

impl Position {
    /// An immediate win found below `n` stays the first one.
    pub proof fn lemma_first_win_stays(self, turn: Color, n: int, m: int)
        requires
            n <= m,
            self.first_win(turn, n) is Some,
        ensures
            self.first_win(turn, m) == self.first_win(turn, n),
        decreases m,
    {
        if n < m {
            self.lemma_first_win_stays(turn, n, m - 1);
        }
    }

    /// Full columns change neither the first win nor the best column.
    pub proof fn lemma_skip_full(self, turn: Color, depth: nat, from: int, to: int)
        requires
            from <= to,
            forall|col: int| from <= col < to ==> !self.legal(col),
        ensures
            self.first_win(turn, to) == self.first_win(turn, from),
            self.best_upto(turn, depth, to) == self.best_upto(turn, depth, from),
        decreases to - from,
    {
        if from < to {
            self.lemma_skip_full(turn, depth, from, to - 1);
            assert(!self.legal(to - 1));
        }
    }
}

impl Position {
    /// The first immediate win is an immediate win, and no lower column is.
    pub proof fn lemma_first_win(self, turn: Color, n: int)
        requires
            0 <= n <= 7,
        ensures
            match self.first_win(turn, n) {
                Some(col) => {
                    &&& 0 <= col < n
                    &&& self.wins_at(turn, col)
                    &&& forall|lower: int| 0 <= lower < col ==> !self.wins_at(turn, lower)
                },
                None => forall|col: int| 0 <= col < n ==> !self.wins_at(turn, col),
            },
        decreases n,
    {
        if n > 0 {
            self.lemma_first_win(turn, n - 1);
        }
    }

    /// The best column below `n` is legal, no legal column below `n` is worth
    /// strictly more to `turn`, and every legal column before it is worth
    /// strictly less.
    pub proof fn lemma_best_upto(self, turn: Color, depth: nat, n: int)
        requires
            0 <= n <= 7,
        ensures
            match self.best_upto(turn, depth, n) {
                Some(best) => {
                    &&& best.column < n
                    &&& self.legal(best.column as int)
                    &&& best.value == self.move_value(turn, depth, best.column as int)
                    &&& forall|col: int|
                        0 <= col < n && self.legal(col) ==> !(#[trigger] self.move_value(
                            turn,
                            depth,
                            col,
                        )).better_for(turn, best.value)
                    &&& forall|col: int|
                        0 <= col < best.column && self.legal(col) ==> best.value.better_for(
                            turn,
                            #[trigger] self.move_value(turn, depth, col),
                        )
                },
                None => forall|col: int| 0 <= col < n ==> !self.legal(col),
            },
        decreases n,
    {
        if n > 0 {
            self.lemma_best_upto(turn, depth, n - 1);
        }
    }

    /// What the search returns. It finds no move exactly where every column
    /// is full. The move it finds is legal and carries its own value, and no
    /// legal move is worth strictly more to `turn`. Where some column wins at
    /// once, the move is the first such column; where none does, every legal
    /// column before the move is worth strictly less.
    pub proof fn lemma_best_move(self, turn: Color, depth: nat)
        ensures
            match self.best_move(turn, depth) {
                Some(best) => {
                    &&& self.legal(best.column as int)
                    &&& best.value == self.move_value(turn, depth, best.column as int)
                    &&& forall|col: int|
                        self.legal(col) ==> !(#[trigger] self.move_value(
                            turn,
                            depth,
                            col,
                        )).better_for(turn, best.value)
                    &&& forall|col: int|
                        0 <= col < best.column ==> !self.wins_at(turn, col)
                    &&& self.wins_at(turn, best.column as int) || forall|col: int|
                        self.legal(col) ==> !self.wins_at(turn, col) && (col < best.column
                            ==> best.value.better_for(
                            turn,
                            #[trigger] self.move_value(turn, depth, col),
                        ))
                },
                None => forall|col: int| !self.legal(col),
            },
    {
        self.lemma_first_win(turn, 7);
        self.lemma_best_upto(turn, depth, 7);
    }

    /// With no ply to look ahead the search is greedy: it takes the legal
    /// column whose resulting position the evaluator likes best for `turn`,
    /// and among equals the lowest.
    pub proof fn lemma_depth_zero_is_greedy(self, turn: Color)
        ensures
            match self.best_move(turn, 0) {
                Some(best) => {
                    &&& self.legal(best.column as int)
                    &&& best.value == self.dropped(turn, best.column as int).score()
                    &&& forall|col: int|
                        self.legal(col) ==> !(#[trigger] self.dropped(
                            turn,
                            col,
                        ).score()).better_for(turn, best.value)
                    &&& forall|col: int|
                        self.legal(col) && col < best.column ==> best.value.better_for(
                            turn,
                            #[trigger] self.dropped(turn, col).score(),
                        )
                },
                None => forall|col: int| !self.legal(col),
            },
    {
        self.lemma_best_move(turn, 0);
        assert forall|col: int| self.legal(col) implies #[trigger] self.dropped(
            turn,
            col,
        ).score() == self.move_value(turn, 0, col) by {}
        if let Some(best) = self.best_move(turn, 0) {
            assert forall|col: int| self.legal(col) && col < best.column implies best.value.better_for(
                turn,
                #[trigger] self.dropped(turn, col).score(),
            ) by {
                assert(self.dropped(turn, col).score() == self.move_value(turn, 0, col));
                assert(!self.wins_at(turn, col));
            }
        }
    }
}

/// `moves` lists the columns of `board` that can take a disc, in ascending
/// order.
#[verifier::opaque]
pub open spec fn ascending_open_columns(board: Position, moves: Seq<usize>) -> bool {
    &&& forall|j: int| 0 <= j < moves.len() ==> board.legal(#[trigger] moves[j] as int)
    &&& forall|j: int, k: int| 0 <= j < k < moves.len() ==> moves[j] < moves[k]
    &&& forall|col: int| board.legal(col) ==> moves.contains(col as usize)
}

/// The column up to which the search has looked once it has tried the moves
/// before the `i`-th: that move's column, or 7 once the moves are used up.
pub open spec fn tried_below(moves: Seq<usize>, i: int) -> int {
    if i < moves.len() {
        moves[i] as int
    } else {
        7
    }
}

/// Every listed move is legal.
pub proof fn lemma_move_is_legal(board: Position, moves: Seq<usize>, i: int)
    requires
        ascending_open_columns(board, moves),
        0 <= i < moves.len(),
    ensures
        board.legal(moves[i] as int),
{
    reveal(ascending_open_columns);
}

/// Between two neighbouring moves of the list every column is full, and so
/// is every column before the first move and after the last.
pub proof fn lemma_gap_is_full(board: Position, moves: Seq<usize>, i: int)
    requires
        ascending_open_columns(board, moves),
        0 <= i <= moves.len(),
    ensures
        (if i == 0 {
            0
        } else {
            moves[i - 1] + 1
        }) <= tried_below(moves, i),
        forall|col: int|
            (if i == 0 {
                0
            } else {
                moves[i - 1] + 1
            }) <= col < tried_below(moves, i) ==> !board.legal(col),
{
    reveal(ascending_open_columns);
    let low = if i == 0 {
        0
    } else {
        moves[i - 1] + 1
    };
    if 0 < i < moves.len() {
        assert(moves[i - 1] < moves[i]);
    }
    if i > 0 {
        assert(board.legal(moves[i - 1] as int));
    }
    assert forall|col: int| low <= col < tried_below(moves, i) implies !board.legal(col) by {
        if board.legal(col) {
            let j = choose|j: int| 0 <= j < moves.len() && moves[j] == col as usize;
            if j < i {
                if j < i - 1 {
                    assert(moves[j] < moves[i - 1]);
                }
            } else if j > i {
                assert(moves[i] < moves[j]);
            }
        }
    }
}

} // verus!
