//! What the counts of a search add up to: how many positions were met once,
//! twice and so on, and how many visits were made in all.

use std::collections::BTreeMap;
use vstd::prelude::*;

verus! {

/// How many of the first `n` of `counts` are equal to `count`.
pub open spec fn occurrences(counts: Seq<u64>, count: u64, n: int) -> int
    decreases n,
{
    if n <= 0 {
        0
    } else {
        occurrences(counts, count, n - 1) + if counts[n - 1] == count {
            1int
        } else {
            0int
        }
    }
}

/// The sum of the first `n` of `counts`.
pub open spec fn sum_upto(counts: Seq<u64>, n: int) -> int
    decreases n,
{
    if n <= 0 {
        0
    } else {
        sum_upto(counts, n - 1) + counts[n - 1]
    }
}

/// No count occurs more often than there are counts.
pub proof fn lemma_occurrences_bound(counts: Seq<u64>, count: u64, n: int)
    requires
        0 <= n,
    ensures
        0 <= occurrences(counts, count, n) <= n,
    decreases n,
{
    if n > 0 {
        lemma_occurrences_bound(counts, count, n - 1);
    }
}

/// A sum never shrinks as more counts are added.
pub proof fn lemma_sum_grows(counts: Seq<u64>, n: int, m: int)
    requires
        0 <= n <= m,
    ensures
        0 <= sum_upto(counts, n) <= sum_upto(counts, m),
    decreases m,
{
    if n < m {
        lemma_sum_grows(counts, n, m - 1);
    } else if n > 0 {
        lemma_sum_grows(counts, n - 1, n - 1);
    }
}

/// Sorts the counts by size: the result maps each count that occurs to the
/// number of times it occurs.
pub fn histogram(counts: &Vec<u64>) -> (hist: BTreeMap<u64, u32>)
    requires
        counts.len() <= u32::MAX,
    ensures
        forall|count: u64| #[trigger]
            hist@.contains_key(count) <==> occurrences(counts@, count, counts.len() as int) > 0,
        forall|count: u64| #[trigger]
            hist@.contains_key(count) ==> hist@[count] == occurrences(
                counts@,
                count,
                counts.len() as int,
            ),
{
    let mut hist: BTreeMap<u64, u32> = BTreeMap::new();
    let mut i: usize = 0;
    while i < counts.len()
        invariant
            i <= counts.len() <= u32::MAX,
            forall|count: u64| #[trigger]
                hist@.contains_key(count) <==> occurrences(counts@, count, i as int) > 0,
            forall|count: u64| #[trigger]
                hist@.contains_key(count) ==> hist@[count] == occurrences(
                    counts@,
                    count,
                    i as int,
                ),
        decreases counts.len() - i,
    {
        let cnt = counts[i];
        proof {
            lemma_occurrences_bound(counts@, cnt, i as int);
        }
        let seen: u32 = match hist.get(&cnt) {
            Some(n) => *n,
            None => 0,
        };
        let ghost before = hist@;
        hist.insert(cnt, seen + 1);
        proof {
            assert forall|count: u64| #[trigger]
                hist@.contains_key(count) <==> occurrences(counts@, count, i + 1) > 0 by {
                lemma_occurrences_bound(counts@, count, i as int);
                assert(before.contains_key(count) <==> occurrences(counts@, count, i as int) > 0);
            }
            assert forall|count: u64| #[trigger] hist@.contains_key(count) implies hist@[count]
                == occurrences(counts@, count, i + 1) by {
                if count != cnt {
                    assert(before.contains_key(count));
                }
            }
        }
        i += 1;
    }
    hist
}

/// Adds the counts up; `None` where the sum is more than a `u64` holds.
pub fn total_visits(counts: &Vec<u64>) -> (total: Option<u64>)
    ensures
        total is Some <==> sum_upto(counts@, counts.len() as int) <= u64::MAX,
        total matches Some(sum) ==> sum == sum_upto(counts@, counts.len() as int),
{
    let mut sum: u64 = 0;
    let mut i: usize = 0;
    while i < counts.len()
        invariant
            i <= counts.len(),
            sum == sum_upto(counts@, i as int),
        decreases counts.len() - i,
    {
        let cnt = counts[i];
        if cnt > u64::MAX - sum {
            proof {
                lemma_sum_grows(counts@, i + 1, counts.len() as int);
            }
            return None;
        }
        sum = sum + cnt;
        i += 1;
    }
    Some(sum)
}

} // verus!
