//! Deterministic aggregation of completed results.
//!
//! The aggregate over a run is computed in ascending path order: the
//! sum of all scores, the number of cases, and the first case attaining
//! the maximum and the minimum score. The mean is the sum divided by
//! the count; both are reported exactly here, the division is a display
//! concern of the caller. An empty run has no aggregate: that is an
//! explicit outcome, not a fault.

use vstd::prelude::*;

use crate::cases::CaseScore;
use crate::cases::paths_sorted;
use crate::cases::sort_by_path;

verus! {

/// The sum of the scores of a result sequence.
pub open spec fn scores_sum(s: Seq<CaseScore>) -> int
    decreases s.len(),
{
    if s.len() == 0 {
        0
    } else {
        scores_sum(s.drop_last()) + s.last().score
    }
}

/// The index of the first case attaining the maximum score.
pub open spec fn first_max_index(s: Seq<CaseScore>) -> int
    decreases s.len(),
{
    if s.len() <= 1 {
        0
    } else {
        let k = first_max_index(s.drop_last());
        if s.last().score > s[k].score {
            s.len() - 1
        } else {
            k
        }
    }
}

/// The index of the first case attaining the minimum score.
pub open spec fn first_min_index(s: Seq<CaseScore>) -> int
    decreases s.len(),
{
    if s.len() <= 1 {
        0
    } else {
        let k = first_min_index(s.drop_last());
        if s.last().score < s[k].score {
            s.len() - 1
        } else {
            k
        }
    }
}

/// The aggregate outcome over a non-empty result set.
pub struct AggregateReport {
    /// The sum of all scores.
    pub sum: u128,
    /// The number of cases.
    pub count: usize,
    /// The index of the first case attaining the maximum score.
    pub max_index: usize,
    /// The index of the first case attaining the minimum score.
    pub min_index: usize,
}

/// The sum of a result sequence is non-negative and at most one
/// maximal score per case.
pub proof fn lemma_scores_sum_bounds(s: Seq<CaseScore>)
    ensures
        0 <= scores_sum(s) <= s.len() * u64::MAX,
    decreases s.len(),
{
    if s.len() > 0 {
        lemma_scores_sum_bounds(s.drop_last());
    }
}

/// Removing one case takes exactly its score out of the sum.
proof fn lemma_scores_sum_remove(s: Seq<CaseScore>, i: int)
    requires
        0 <= i < s.len(),
    ensures
        scores_sum(s) == scores_sum(s.remove(i)) + s[i].score,
    decreases s.len(),
{
    if i == s.len() - 1 {
        assert(s.remove(i) =~= s.drop_last());
    } else {
        lemma_scores_sum_remove(s.drop_last(), i);
        assert(s.remove(i).drop_last() =~= s.drop_last().remove(i));
        assert(s.remove(i).last() == s.last());
    }
}

/// The sum is the same whatever order the cases stand in: reordering a
/// run's results — by completion timing or by the report's sort —
/// never changes it.
pub proof fn lemma_scores_sum_permutation(a: Seq<CaseScore>, b: Seq<CaseScore>)
    requires
        a.to_multiset() == b.to_multiset(),
    ensures
        scores_sum(a) == scores_sum(b),
    decreases a.len(),
{
    broadcast use vstd::seq_lib::group_to_multiset_ensures;
    broadcast use vstd::multiset::group_multiset_axioms;

    assert(a.len() == a.to_multiset().len());
    assert(b.len() == b.to_multiset().len());
    if a.len() > 0 {
        let x = a.last();
        assert(a.to_multiset().contains(x)) by {
            assert(a[a.len() - 1] == x);
        }
        assert(b.contains(x));
        let j = choose|j: int| 0 <= j < b.len() && b[j] == x;
        let a1 = a.drop_last();
        let b1 = b.remove(j);
        assert(a1.to_multiset() =~= a.to_multiset().remove(x)) by {
            assert(a1 =~= a.remove(a.len() - 1));
        }
        assert(b1.to_multiset() =~= b.to_multiset().remove(x));
        lemma_scores_sum_permutation(a1, b1);
        lemma_scores_sum_remove(b, j);
    }
}

/// The extremum indices point at scores that bound every element, and
/// at the first position attaining that bound.
pub proof fn lemma_extrema_bounds(s: Seq<CaseScore>)
    requires
        s.len() > 0,
    ensures
        0 <= first_max_index(s) < s.len(),
        0 <= first_min_index(s) < s.len(),
        forall|i: int| 0 <= i < s.len() ==> #[trigger] s[i].score <= s[first_max_index(s)].score,
        forall|i: int| 0 <= i < s.len() ==> #[trigger] s[i].score >= s[first_min_index(s)].score,
        forall|i: int| 0 <= i < first_max_index(s) ==> #[trigger] s[i].score < s[first_max_index(s)].score,
        forall|i: int| 0 <= i < first_min_index(s) ==> #[trigger] s[i].score > s[first_min_index(s)].score,
    decreases s.len(),
{
    if s.len() > 1 {
        lemma_extrema_bounds(s.drop_last());
        assert(forall|i: int| 0 <= i < s.len() - 1 ==> s[i] == s.drop_last()[i]);
    }
}

/// Sorts the results into ascending path order and computes their
/// aggregate: sum, count, and the first maximum- and minimum-scoring
/// cases of the sorted order. An empty result set yields no aggregate.
pub fn aggregate(results: &mut Vec<CaseScore>) -> (r: Option<AggregateReport>)
    ensures
        paths_sorted(final(results)@),
        final(results)@.to_multiset() == old(results)@.to_multiset(),
        final(results)@.len() == old(results)@.len(),
        r is None <==> old(results)@.len() == 0,
        match r {
            Some(rep) => {
                &&& rep.count == final(results)@.len()
                &&& rep.sum == scores_sum(final(results)@)
                &&& rep.sum == scores_sum(old(results)@)
                &&& rep.max_index == first_max_index(final(results)@)
                &&& rep.min_index == first_min_index(final(results)@)
            },
            None => true,
        },
{
    sort_by_path(results);
    proof {
        broadcast use vstd::seq_lib::group_to_multiset_ensures;

        assert(results@.len() == results@.to_multiset().len());
        assert(old(results)@.len() == old(results)@.to_multiset().len());
    }
    let n = results.len();
    if n == 0 {
        return None;
    }
    let mut sum: u128 = results[0].score as u128;
    let mut max_i: usize = 0;
    let mut min_i: usize = 0;
    let mut i: usize = 1;
    proof {
        assert(results@.take(1).drop_last() =~= Seq::<CaseScore>::empty());
        assert(results@.take(1).last() == results@[0]);
        assert(scores_sum(Seq::<CaseScore>::empty()) == 0);
    }
    while i < n
        invariant
            1 <= i <= n == results@.len(),
            max_i < i,
            min_i < i,
            sum == scores_sum(results@.take(i as int)),
            max_i == first_max_index(results@.take(i as int)),
            min_i == first_min_index(results@.take(i as int)),
        decreases n - i,
    {
        proof {
            lemma_scores_sum_bounds(results@.take(i as int));
            assert((i as int) * (u64::MAX as int) <= (u64::MAX as int) * (u64::MAX as int)) by (nonlinear_arith)
                requires
                    0 <= i as int <= u64::MAX as int,
            ;
            assert(results@.take(i + 1).drop_last() =~= results@.take(i as int));
            assert(results@.take(i + 1).last() == results@[i as int]);
            assert(forall|k: int| 0 <= k <= i ==> results@.take(i + 1)[k] == results@[k]);
        }
        sum = sum + (results[i].score as u128);
        if results[i].score > results[max_i].score {
            max_i = i;
        }
        if results[i].score < results[min_i].score {
            min_i = i;
        }
        i = i + 1;
    }
    proof {
        assert(results@.take(n as int) =~= results@);
        lemma_scores_sum_permutation(results@, old(results)@);
    }
    Some(AggregateReport { sum, count: n, max_index: max_i, min_index: min_i })
}

} // verus!
