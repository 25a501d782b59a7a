//! The search without a cache, which keeps count of the positions it meets.
//!
//! The counts show how much of the search is repeated work: a position that
//! is met twice would be searched once with a transposition cache.

use crate::board::{Color, Position};
use crate::naive_score::NaiveScore;
use crate::search::{
    ascending_open_columns, lemma_gap_is_full, lemma_move_is_legal, tried_below, Choice,
};
use std::collections::BTreeMap;
use vstd::multiset::Multiset;
use vstd::prelude::*;

verus! {

impl Position {
    /// The positions that the search meets below the replies to the legal
    /// columns under `n`, each as often as it is met. A column that wins at
    /// once has no replies, and with no ply left nothing is searched.
    pub open spec fn visits_upto(self, turn: Color, depth: nat, n: int) -> Multiset<u64>
        decreases depth, 1int, n,
    {
        if n <= 0 {
            Multiset::empty()
        } else {
            let met = self.visits_upto(turn, depth, n - 1);
            if depth > 0 && self.legal(n - 1) && !self.wins_at(turn, n - 1) {
                met.add(self.dropped(turn, n - 1).visits(turn.other(), (depth - 1) as nat))
            } else {
                met
            }
        }
    }

    /// The positions that the search of this position meets, by their packed
    /// form and each as often as it is met: the position itself, and what the
    /// searches of the replies meet, up to the first column that wins at once.
    pub open spec fn visits(self, turn: Color, depth: nat) -> Multiset<u64>
        decreases depth, 2int, 0int,
    {
        Multiset::singleton(self.inner).add(self.visits_upto(turn, depth, self.stop(turn)))
    }

    /// More columns, more visits.
    pub proof fn lemma_visits_grow(self, turn: Color, depth: nat, n: int, m: int)
        requires
            n <= m,
        ensures
            self.visits_upto(turn, depth, n).subset_of(self.visits_upto(turn, depth, m)),
        decreases m - n,
    {
        if n < m {
            self.lemma_visits_grow(turn, depth, n, m - 1);
        }
    }

    /// Full columns add no visits.
    pub proof fn lemma_visits_skip_full(self, turn: Color, depth: nat, from: int, to: int)
        requires
            from <= to,
            forall|col: int| from <= col < to ==> !self.legal(col),
        ensures
            self.visits_upto(turn, depth, to) == self.visits_upto(turn, depth, from),
        decreases to - from,
    {
        if from < to {
            self.lemma_visits_skip_full(turn, depth, from, to - 1);
            assert(!self.legal(to - 1));
        }
    }
}

/// The most positions that a search with `depth` further plies can meet:
/// one, and seven times as many as a search with one ply less.
pub open spec fn visit_limit(depth: nat) -> nat
    decreases depth,
{
    if depth == 0 {
        1
    } else {
        1 + 7 * visit_limit((depth - 1) as nat)
    }
}

/// A search with at most 22 further plies meets fewer positions than a `u64`
/// can count.
pub proof fn lemma_visit_limit(depth: nat)
    requires
        depth <= 22,
    ensures
        visit_limit(depth) <= 4561457890013486057,
    decreases 22 - depth,
{
    if depth < 22 {
        lemma_visit_limit(depth + 1);
    } else {
        reveal_with_fuel(visit_limit, 2);
        assert(visit_limit(0) == 1);
        assert(visit_limit(1) == 8);
        assert(visit_limit(2) == 57);
        assert(visit_limit(3) == 400);
        assert(visit_limit(4) == 2801);
        assert(visit_limit(5) == 19608);
        assert(visit_limit(6) == 137257);
        assert(visit_limit(7) == 960800);
        assert(visit_limit(8) == 6725601);
        assert(visit_limit(9) == 47079208);
        assert(visit_limit(10) == 329554457);
        assert(visit_limit(11) == 2306881200);
        assert(visit_limit(12) == 16148168401);
        assert(visit_limit(13) == 113037178808);
        assert(visit_limit(14) == 791260251657);
        assert(visit_limit(15) == 5538821761600);
        assert(visit_limit(16) == 38771752331201);
        assert(visit_limit(17) == 271402266318408);
        assert(visit_limit(18) == 1899815864228857);
        assert(visit_limit(19) == 13298711049602000);
        assert(visit_limit(20) == 93090977347214001);
        assert(visit_limit(21) == 651636841430498008);
        assert(visit_limit(22) == 4561457890013486057);
    }
}

impl Position {
    /// The replies to the columns below `n` lead to at most `n` searches of
    /// one ply less.
    pub proof fn lemma_visits_upto_len(self, turn: Color, depth: nat, n: int)
        requires
            0 <= n <= 7,
        ensures
            self.visits_upto(turn, depth, n).len() <= if depth == 0 {
                0
            } else {
                n * visit_limit((depth - 1) as nat)
            },
        decreases depth, 1int, n,
    {
        if n > 0 {
            self.lemma_visits_upto_len(turn, depth, n - 1);
            if depth > 0 {
                self.dropped(turn, n - 1).lemma_visits_len(turn.other(), (depth - 1) as nat);
                let limit = visit_limit((depth - 1) as nat);
                assert((n - 1) * limit + limit == n * limit) by (nonlinear_arith);
            }
        }
    }

    /// A search meets no more positions than its depth allows.
    pub proof fn lemma_visits_len(self, turn: Color, depth: nat)
        ensures
            self.visits(turn, depth).len() <= visit_limit(depth),
        decreases depth, 2int, 0int,
    {
        self.lemma_first_win(turn, 7);
        let stop = self.stop(turn);
        self.lemma_visits_upto_len(turn, depth, stop);
        if depth > 0 {
            let limit = visit_limit((depth - 1) as nat);
            assert(stop * limit <= 7 * limit) by (nonlinear_arith)
                requires
                    0 <= stop <= 7,
                    0 <= limit,
            ;
        }
    }

    /// Into an empty map a search with at most 22 further plies can be
    /// counted.
    pub proof fn lemma_fresh_fits(self, turn: Color, depth: nat)
        requires
            depth <= 22,
        ensures
            fits(Map::empty(), self.visits(turn, depth)),
    {
        reveal(fits);
        self.lemma_visits_len(turn, depth);
        lemma_visit_limit(depth);
    }
}

/// The count that `dupes` keeps for `key`: zero where it keeps none.
pub open spec fn tally(dupes: Map<u64, u64>, key: u64) -> int {
    if dupes.contains_key(key) {
        dupes[key] as int
    } else {
        0
    }
}

/// `after` is `before` with the positions of `met` counted in: each count has
/// grown by the number of times the position occurs in `met`, and a position
/// has a count exactly if it had one before or occurs in `met`.
#[verifier::opaque]
pub open spec fn counted(before: Map<u64, u64>, after: Map<u64, u64>, met: Multiset<u64>) -> bool {
    forall|key: u64|
        #![trigger after.contains_key(key)]
        #![trigger met.count(key)]
        {
            &&& after.contains_key(key) <==> before.contains_key(key) || met.count(key) > 0
            &&& tally(after, key) == tally(before, key) + met.count(key)
        }
}

/// Counting the positions of `met` into `dupes` overflows no count.
#[verifier::opaque]
pub open spec fn fits(dupes: Map<u64, u64>, met: Multiset<u64>) -> bool {
    forall|key: u64| tally(dupes, key) + #[trigger] met.count(key) <= u64::MAX
}

/// Counting first `first` and then `second` counts both.
pub proof fn lemma_counted_chain(
    a: Map<u64, u64>,
    b: Map<u64, u64>,
    c: Map<u64, u64>,
    first: Multiset<u64>,
    second: Multiset<u64>,
)
    requires
        counted(a, b, first),
        counted(b, c, second),
    ensures
        counted(a, c, first.add(second)),
{
    reveal(counted);
    assert forall|key: u64|
        #![trigger c.contains_key(key)]
        #![trigger first.add(second).count(key)]
        {
            &&& c.contains_key(key) <==> a.contains_key(key) || first.add(second).count(key) > 0
            &&& tally(c, key) == tally(a, key) + first.add(second).count(key)
        } by {
        assert(b.contains_key(key) <==> a.contains_key(key) || first.count(key) > 0);
        assert(tally(b, key) == tally(a, key) + first.count(key));
        assert(tally(c, key) == tally(b, key) + second.count(key));
    }
}

/// Where counting `whole` fits, counting a part of it after another part of
/// it fits too.
pub proof fn lemma_fits_part(
    a: Map<u64, u64>,
    b: Map<u64, u64>,
    first: Multiset<u64>,
    second: Multiset<u64>,
    whole: Multiset<u64>,
)
    requires
        fits(a, whole),
        counted(a, b, first),
        first.add(second).subset_of(whole),
    ensures
        fits(b, second),
{
    reveal(counted);
    reveal(fits);
    assert forall|key: u64| tally(b, key) + #[trigger] second.count(key) <= u64::MAX by {
        assert(tally(b, key) == tally(a, key) + first.count(key));
        assert(first.add(second).count(key) <= whole.count(key));
        assert(tally(a, key) + whole.count(key) <= u64::MAX);
    }
}

/// The value of the move that led to `next`, where the move did not win at
/// once; the positions met on the way are counted into `dupes`.
fn value_after(
    next: &Position,
    verdict: NaiveScore,
    turn: Color,
    depth: u32,
    dupes: &mut BTreeMap<u64, u64>,
) -> (value: NaiveScore)
    requires
        verdict == next.score(),
        verdict != NaiveScore::Winner(turn),
        depth > 0 ==> fits(old(dupes)@, next.visits(turn.other(), (depth - 1) as nat)),
    ensures
        value == if depth == 0 {
            verdict
        } else {
            match next.best_move(turn.other(), (depth - 1) as nat) {
                Some(reply) => reply.value,
                None => NaiveScore::Winner(turn),
            }
        },
        depth > 0 ==> counted(
            old(dupes)@,
            final(dupes)@,
            next.visits(turn.other(), (depth - 1) as nat),
        ),
        depth == 0 ==> final(dupes)@ == old(dupes)@,
    decreases depth, 0int,
{
    if depth > 0 {
        match minmax(next, turn.opposite(), depth - 1, dupes) {
            Some(reply) => reply.value,
            None => NaiveScore::Winner(turn),
        }
    } else {
        verdict
    }
}

/// Searches for `turn`'s move with `depth` further plies to look ahead, and
/// adds to `dupes`, under its packed form, one for every time a position is
/// met.
pub fn minmax(board: &Position, turn: Color, depth: u32, dupes: &mut BTreeMap<u64, u64>) -> (best:
    Option<Choice>)
    requires
        fits(old(dupes)@, board.visits(turn, depth as nat)),
    ensures
        best == board.best_move(turn, depth as nat),
        counted(old(dupes)@, final(dupes)@, board.visits(turn, depth as nat)),
    decreases depth, 1int,
{
    let ghost start = dupes@;
    let ghost whole = board.visits(turn, depth as nat);
    let ghost here = Multiset::singleton(board.inner);
    proof {
        reveal(fits);
        assert(tally(start, board.inner) + whole.count(board.inner) <= u64::MAX);
        assert(whole.count(board.inner) >= 1);
    }
    let seen: u64 = match dupes.get(&board.inner) {
        Some(count) => *count,
        None => 0,
    };
    dupes.insert(board.inner, seen + 1);
    proof {
        assert(counted(start, dupes@, here)) by {
            reveal(counted);
            assert forall|key: u64|
                #![trigger dupes@.contains_key(key)]
                #![trigger here.count(key)]
                {
                    &&& dupes@.contains_key(key) <==> start.contains_key(key) || here.count(key)
                        > 0
                    &&& tally(dupes@, key) == tally(start, key) + here.count(key)
                } by {
                if key != board.inner {
                    assert(here.count(key) == 0);
                }
            }
        }
    }
    let moves = board.allowed_moves();
    let mut best: Option<Choice> = None;
    let mut i: usize = 0;
    proof {
        assert(ascending_open_columns(*board, moves@)) by {
            reveal(ascending_open_columns);
        }
        lemma_gap_is_full(*board, moves@, 0);
        board.lemma_skip_full(turn, depth as nat, 0, tried_below(moves@, 0));
        board.lemma_visits_skip_full(turn, depth as nat, 0, tried_below(moves@, 0));
        assert(here.add(board.visits_upto(turn, depth as nat, 0)) =~= here);
    }
    while i < moves.len()
        invariant
            i <= moves.len(),
            ascending_open_columns(*board, moves@),
            start == old(dupes)@,
            whole == board.visits(turn, depth as nat),
            here == Multiset::singleton(board.inner),
            fits(start, whole),
            counted(
                start,
                dupes@,
                here.add(board.visits_upto(turn, depth as nat, tried_below(moves@, i as int))),
            ),
            board.first_win(turn, tried_below(moves@, i as int)) is None,
            best == board.best_upto(turn, depth as nat, tried_below(moves@, i as int)),
        decreases moves.len() - i,
    {
        let mve = moves[i];
        let ghost col = mve as int;
        let ghost before = dupes@;
        let ghost met = here.add(board.visits_upto(turn, depth as nat, col));
        proof {
            lemma_move_is_legal(*board, moves@, i as int);
        }
        if let Ok(new_board) = board.with_move(turn, mve) {
            let verdict = new_board.naive_score();
            if verdict == NaiveScore::Winner(turn) {
                proof {
                    assert(board.first_win(turn, col + 1) == Some(col));
                    board.lemma_first_win_stays(turn, col + 1, 7);
                }
                return Some(Choice { column: mve, value: verdict });
            }
            let ghost below = new_board.visits(turn.other(), (depth - 1) as nat);
            proof {
                if depth > 0 {
                    assert(board.visits_upto(turn, depth as nat, col + 1)
                        == board.visits_upto(turn, depth as nat, col).add(below));
                    board.lemma_first_win(turn, 7);
                    board.lemma_first_win(turn, col + 1);
                    assert(col + 1 <= board.stop(turn));
                    board.lemma_visits_grow(turn, depth as nat, col + 1, board.stop(turn));
                    assert(met.add(below) =~= here.add(
                        board.visits_upto(turn, depth as nat, col + 1),
                    ));
                    assert(met.add(below).subset_of(whole));
                    lemma_fits_part(start, before, met, below, whole);
                }
            }
            let value = value_after(&new_board, verdict, turn, depth, dupes);
            proof {
                if depth > 0 {
                    lemma_counted_chain(start, before, dupes@, met, below);
                }
                assert(value == board.move_value(turn, depth as nat, col));
            }
            let replace = match best {
                Some(held) => value.beats(held.value, turn),
                None => true,
            };
            if replace {
                best = Some(Choice { column: mve, value });
            }
            assert(best == board.best_upto(turn, depth as nat, col + 1));
        }
        i += 1;
        proof {
            lemma_gap_is_full(*board, moves@, i as int);
            board.lemma_skip_full(turn, depth as nat, col + 1, tried_below(moves@, i as int));
            board.lemma_visits_skip_full(
                turn,
                depth as nat,
                col + 1,
                tried_below(moves@, i as int),
            );
        }
    }
    best
}

} // verus!
