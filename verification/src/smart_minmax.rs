//! The search with a transposition cache.
//!
//! Different orders of the same moves lead to the same position. The cache
//! maps the packed form of each position searched to the answer found for
//! it, so that no position is searched twice. It serves one search: within
//! one search a position is always met with the same side to move and the
//! same number of plies left, because both follow from the number of discs
//! on the board.

use crate::board::{Color, Position};
use crate::naive_score::NaiveScore;
use crate::search::{
    ascending_open_columns, lemma_gap_is_full, lemma_move_is_legal, tried_below, Choice,
    SearchError,
};
use std::collections::BTreeMap;
use vstd::prelude::*;

verus! {

impl Position {
    /// The positions that hold an answer once the replies to the legal
    /// columns below `n` have been searched, where `known` held one before.
    /// A column that wins at once has no replies, and with no ply left
    /// nothing is searched.
    pub open spec fn cached_upto(self, turn: Color, depth: nat, known: Set<u64>, n: int) -> Set<
        u64,
    >
        decreases depth, 1int, n,
    {
        if n <= 0 {
            known
        } else {
            let so_far = self.cached_upto(turn, depth, known, n - 1);
            if depth > 0 && self.legal(n - 1) && !self.wins_at(turn, n - 1) {
                self.dropped(turn, n - 1).cached(turn.other(), (depth - 1) as nat, so_far)
            } else {
                so_far
            }
        }
    }

    /// The positions that hold an answer once this position has been
    /// searched, where `known` held one before. A position that is known is
    /// not searched again. A search that ends on a column that wins at once
    /// stores the answers of the replies tried before it and none for the
    /// position itself.
    pub open spec fn cached(self, turn: Color, depth: nat, known: Set<u64>) -> Set<u64>
        decreases depth, 2int, 0int,
    {
        if known.contains(self.inner) {
            known
        } else if self.first_win(turn, 7) is Some {
            self.cached_upto(turn, depth, known, self.stop(turn))
        } else {
            self.cached_upto(turn, depth, known, 7).insert(self.inner)
        }
    }

    /// Full columns store no answers.
    pub proof fn lemma_cached_skip_full(
        self,
        turn: Color,
        depth: nat,
        known: Set<u64>,
        from: int,
        to: int,
    )
        requires
            from <= to,
            forall|col: int| from <= col < to ==> !self.legal(col),
        ensures
            self.cached_upto(turn, depth, known, to) == self.cached_upto(turn, depth, known, from),
        decreases to - from,
    {
        if from < to {
            self.lemma_cached_skip_full(turn, depth, known, from, to - 1);
            assert(!self.legal(to - 1));
        }
    }
}

/// The side that moves `ahead` plies after a position in which `turn` moves.
pub open spec fn mover(turn: Color, ahead: int) -> Color {
    if ahead % 2 == 0 {
        turn
    } else {
        turn.other()
    }
}

/// Every entry of `cache` is the answer of the search that looks `depth`
/// plies ahead of `board`, with `turn` to move there: the entry of a
/// position that lies some plies after `board` holds that position's best
/// move for the side then to move, with the plies then left.
#[verifier::opaque]
pub open spec fn cache_coherent(
    cache: Map<u64, Option<Choice>>,
    board: Position,
    turn: Color,
    depth: nat,
) -> bool {
    forall|key: u64| #[trigger]
        cache.contains_key(key) ==> {
            let cached = Position { inner: key };
            let ahead = cached.discs() - board.discs();
            &&& ahead <= depth
            &&& cache[key] == cached.best_move(mover(turn, ahead), (depth - ahead) as nat)
        }
}

/// The empty cache serves every search.
pub proof fn lemma_coherent_empty(board: Position, turn: Color, depth: nat)
    ensures
        cache_coherent(Map::empty(), board, turn, depth),
{
    reveal(cache_coherent);
}

/// What a coherent cache holds for the position searched is that search's
/// answer.
pub proof fn lemma_coherent_hit(
    cache: Map<u64, Option<Choice>>,
    board: Position,
    turn: Color,
    depth: nat,
)
    requires
        cache_coherent(cache, board, turn, depth),
        cache.contains_key(board.inner),
    ensures
        cache[board.inner] == board.best_move(turn, depth),
{
    reveal(cache_coherent);
    assert(mover(turn, 0) == turn);
}

/// A coherent cache stays coherent when the search's answer is stored for
/// the position searched.
pub proof fn lemma_coherent_insert(
    cache: Map<u64, Option<Choice>>,
    board: Position,
    turn: Color,
    depth: nat,
)
    requires
        cache_coherent(cache, board, turn, depth),
    ensures
        cache_coherent(
            cache.insert(board.inner, board.best_move(turn, depth)),
            board,
            turn,
            depth,
        ),
{
    reveal(cache_coherent);
    assert(mover(turn, 0) == turn);
}

/// A cache that serves a search serves the search of each reply, one ply
/// further on with one ply less to go, and the other way round.
pub proof fn lemma_coherent_across_move(
    cache: Map<u64, Option<Choice>>,
    board: Position,
    turn: Color,
    depth: nat,
    col: int,
)
    requires
        depth > 0,
        board.legal(col),
    ensures
        cache_coherent(cache, board, turn, depth) <==> cache_coherent(
            cache,
            board.dropped(turn, col),
            turn.other(),
            (depth - 1) as nat,
        ),
{
    reveal(cache_coherent);
    let next = board.dropped(turn, col);
    board.lemma_dropped(turn, col);
    assert(next.discs() == board.discs() + 1);
    assert(turn.other().other() == turn);
    assert forall|key: u64| cache.contains_key(key) implies ({
        let cached = Position { inner: key };
        let ahead = cached.discs() - board.discs();
        mover(turn.other(), ahead - 1) == mover(turn, ahead)
    }) by {}
}

/// The value of the move that led to `next`, where the move did not win at
/// once: with plies left, the value of the opponent's best reply, and
/// `turn`'s win where the opponent has none; with no ply left, the verdict
/// on `next`.
fn value_after(
    next: &Position,
    verdict: NaiveScore,
    turn: Color,
    depth: u32,
    cache: &mut BTreeMap<u64, Option<Choice>>,
) -> (value: NaiveScore)
    requires
        verdict == next.score(),
        verdict != NaiveScore::Winner(turn),
        depth > 0 ==> cache_coherent(old(cache)@, *next, turn.other(), (depth - 1) as nat),
    ensures
        value == if depth == 0 {
            verdict
        } else {
            match next.best_move(turn.other(), (depth - 1) as nat) {
                Some(reply) => reply.value,
                None => NaiveScore::Winner(turn),
            }
        },
        depth > 0 ==> cache_coherent(final(cache)@, *next, turn.other(), (depth - 1) as nat),
        depth > 0 ==> final(cache)@.dom() == next.cached(
            turn.other(),
            (depth - 1) as nat,
            old(cache)@.dom(),
        ),
        depth == 0 ==> final(cache)@ == old(cache)@,
        old(cache)@.submap_of(final(cache)@),
    decreases depth, 0int,
{
    if depth > 0 {
        match smart_minmax(next, turn.opposite(), depth - 1, cache) {
            Some(reply) => reply.value,
            None => NaiveScore::Winner(turn),
        }
    } else {
        verdict
    }
}

/// Searches for `turn`'s move with `depth` further plies to look ahead,
/// reusing and filling `cache`, which maps the packed form of a position to
/// the answer found for it.
pub fn smart_minmax(
    board: &Position,
    turn: Color,
    depth: u32,
    cache: &mut BTreeMap<u64, Option<Choice>>,
) -> (best: Option<Choice>)
    requires
        cache_coherent(old(cache)@, *board, turn, depth as nat),
    ensures
        best == board.best_move(turn, depth as nat),
        cache_coherent(final(cache)@, *board, turn, depth as nat),
        old(cache)@.submap_of(final(cache)@),
        final(cache)@.dom() == board.cached(turn, depth as nat, old(cache)@.dom()),
    decreases depth, 1int,
{
    let ghost start = cache@;
    if let Some(hit) = cache.get(&board.inner) {
        proof {
            lemma_coherent_hit(start, *board, turn, depth as nat);
        }
        return *hit;
    }
    let moves = board.allowed_moves();
    let mut best: Option<Choice> = None;
    let mut i: usize = 0;
    proof {
        assert(ascending_open_columns(*board, moves@)) by {
            reveal(ascending_open_columns);
        }
        lemma_gap_is_full(*board, moves@, 0);
        board.lemma_skip_full(turn, depth as nat, 0, tried_below(moves@, 0));
        board.lemma_cached_skip_full(
            turn,
            depth as nat,
            start.dom(),
            0,
            tried_below(moves@, 0),
        );
    }
    while i < moves.len()
        invariant
            i <= moves.len(),
            ascending_open_columns(*board, moves@),
            cache_coherent(cache@, *board, turn, depth as nat),
            start == old(cache)@,
            start.submap_of(cache@),
            !start.contains_key(board.inner),
            cache@.dom() == board.cached_upto(
                turn,
                depth as nat,
                start.dom(),
                tried_below(moves@, i as int),
            ),
            board.first_win(turn, tried_below(moves@, i as int)) is None,
            best == board.best_upto(turn, depth as nat, tried_below(moves@, i as int)),
        decreases moves.len() - i,
    {
        let mve = moves[i];
        let ghost col = mve as int;
        let ghost before = cache@;
        proof {
            lemma_move_is_legal(*board, moves@, i as int);
        }
        if let Ok(new_board) = board.with_move(turn, mve) {
            let verdict = new_board.naive_score();
            if verdict == NaiveScore::Winner(turn) {
                proof {
                    assert(board.first_win(turn, col + 1) == Some(col));
                    board.lemma_first_win_stays(turn, col + 1, 7);
                }
                return Some(Choice { column: mve, value: verdict });
            }
            proof {
                if depth > 0 {
                    lemma_coherent_across_move(before, *board, turn, depth as nat, col);
                }
            }
            let value = value_after(&new_board, verdict, turn, depth, cache);
            proof {
                if depth > 0 {
                    lemma_coherent_across_move(cache@, *board, turn, depth as nat, col);
                }
                vstd::map_lib::lemma_submap_of_trans(start, before, cache@);
                assert(value == board.move_value(turn, depth as nat, col));
            }
            let replace = match best {
                Some(held) => value.beats(held.value, turn),
                None => true,
            };
            if replace {
                best = Some(Choice { column: mve, value });
            }
            assert(best == board.best_upto(turn, depth as nat, col + 1));
        }
        i += 1;
        proof {
            lemma_gap_is_full(*board, moves@, i as int);
            board.lemma_skip_full(turn, depth as nat, col + 1, tried_below(moves@, i as int));
            board.lemma_cached_skip_full(
                turn,
                depth as nat,
                start.dom(),
                col + 1,
                tried_below(moves@, i as int),
            );
        }
    }
    let ghost before = cache@;
    cache.insert(board.inner, best);
    proof {
        lemma_coherent_insert(before, *board, turn, depth as nat);
        assert forall|key: u64| #[trigger] start.dom().contains(key) implies cache@.dom().contains(
            key,
        ) && start[key] == cache@[key] by {
            assert(before.dom().contains(key) && start[key] == before[key]);
        }
    }
    best
}

/// The answer that `choose_move` owes: the search's move, or the report that
/// there is none.
pub open spec fn chosen(board: Position, turn: Color, depth: nat) -> Result<Choice, SearchError> {
    match board.best_move(turn, depth) {
        Some(best) => Ok(best),
        None => Err(SearchError::NoMovesAvailable),
    }
}

/// Chooses `turn`'s move on `board`, looking `depth` plies beyond it, with a
/// cache that lives for this call alone. The answer depends on the three
/// arguments and on nothing else.
pub fn choose_move(board: &Position, turn: Color, depth: u32) -> (choice: Result<
    Choice,
    SearchError,
>)
    ensures
        choice == chosen(*board, turn, depth as nat),
        choice is Err <==> forall|col: int| !board.legal(col),
        choice matches Ok(best) ==> {
            &&& board.legal(best.column as int)
            &&& best.value == board.move_value(turn, depth as nat, best.column as int)
            &&& forall|col: int|
                board.legal(col) ==> !(#[trigger] board.move_value(
                    turn,
                    depth as nat,
                    col,
                )).better_for(turn, best.value)
        },
{
    let mut cache: BTreeMap<u64, Option<Choice>> = BTreeMap::new();
    proof {
        board.lemma_best_move(turn, depth as nat);
        lemma_coherent_empty(*board, turn, depth as nat);
    }
    match smart_minmax(board, turn, depth, &mut cache) {
        Some(best) => Ok(best),
        None => Err(SearchError::NoMovesAvailable),
    }
}

} // verus!
