//! Summary statistics of the runs that a checkpoint records for one program
//! and one port count.
use vstd::prelude::*;
use std::collections::HashMap;
use crate::counts::{
    below, is_nth_smallest, lemma_below_finite, lemma_total_remove, lemma_total_submap, map_total,
    nth_smallest, total_count,
};

verus! {

broadcast use vstd::std_specs::hash::group_hash_axioms;

/// Index (from zero) of the lower quartile in the sorted list of `n` runs.
pub open spec fn lower_quartile_index(n: nat) -> nat {
    n / 4
}

/// Index (from zero) of the upper quartile in the sorted list of `n` runs:
/// three quarters of `n`, rounded up, less one.
pub open spec fn upper_quartile_index(n: nat) -> int {
    (3 * n + 3) / 4 - 1
}

/// The figures that the summary and the CSV export show for the runs of one
/// program at one port count.
#[derive(Debug, Clone, Copy, PartialEq, Eq)]
pub struct PortStatistics {
    /// How many runs were recorded.
    pub total_runs: usize,
    /// The lower quartile of the swap counts.
    pub lower_quartile: usize,
    /// The upper quartile of the swap counts.
    pub upper_quartile: usize,
    /// Upper quartile less lower quartile.
    pub interquartile_range: usize,
}

/// Order statistics go up with their index: the element at a later index of
/// the sorted list of runs is no smaller.
pub proof fn lemma_nth_smallest_monotone(m: Map<usize, usize>, k1: nat, v1: usize, k2: nat, v2: usize)
    requires
        m.dom().finite(),
        k1 <= k2,
        is_nth_smallest(m, k1, v1),
        is_nth_smallest(m, k2, v2),
    ensures
        v1 <= v2,
{
    if v2 < v1 {
        let b1 = below(m, v1);
        let b2 = below(m, v2);
        lemma_below_finite(m, v1);
        assert(b1.contains_key(v2));
        lemma_total_remove(b1, v2);
        assert(b2.submap_of(b1.remove(v2)));
        lemma_total_submap(b2, b1.remove(v2));
    }
}

/// There is one element at each index of the sorted list of runs.
pub proof fn lemma_nth_smallest_unique(m: Map<usize, usize>, k: nat, v1: usize, v2: usize)
    requires
        m.dom().finite(),
        is_nth_smallest(m, k, v1),
        is_nth_smallest(m, k, v2),
    ensures
        v1 == v2,
{
    lemma_nth_smallest_monotone(m, k, v1, k, v2);
    lemma_nth_smallest_monotone(m, k, v2, k, v1);
}

/// The quartile indices among `n` runs: the lower at `n / 4`, the upper at
/// three quarters of `n` rounded up, less one; the lower never after the
/// upper, the upper within the list.
pub proof fn lemma_quartile_indices(n: nat)
    requires
        n > 0,
    ensures
        lower_quartile_index(n) == n / 4,
        upper_quartile_index(n) == (3 * n + 3) / 4 - 1,
        4 * lower_quartile_index(n) <= n < 4 * lower_quartile_index(n) + 4,
        3 * n <= 4 * (upper_quartile_index(n) + 1) < 3 * n + 4,
        lower_quartile_index(n) <= upper_quartile_index(n) < n,
{
}

/// The statistics of a frequency map (swaps to runs): the number of runs,
/// the lower and upper quartiles of the swap counts of the runs (the runs
/// at indices `n / 4` and `ceil(3n / 4) - 1` of the sorted list of all `n`
/// runs), and their difference; `None` where there is no run, or where the
/// number of runs does not fit in a `usize`.
pub fn port_statistics(items: &HashMap<usize, usize>) -> (res: Option<PortStatistics>)
    ensures
        match res {
            Some(st) => {
                &&& st.total_runs as nat == map_total(items@)
                &&& st.total_runs > 0
                &&& is_nth_smallest(items@, map_total(items@) / 4, st.lower_quartile)
                &&& is_nth_smallest(items@, ((3 * map_total(items@) + 3) / 4 - 1) as nat, st.upper_quartile)
                &&& is_nth_smallest(items@, lower_quartile_index(map_total(items@)), st.lower_quartile)
                &&& is_nth_smallest(items@, upper_quartile_index(map_total(items@)) as nat, st.upper_quartile)
                &&& st.lower_quartile <= st.upper_quartile
                &&& st.interquartile_range == st.upper_quartile - st.lower_quartile
            },
            None => map_total(items@) > usize::MAX || map_total(items@) == 0,
        },
{
    let total = match total_count(items) {
        Some(t) => t,
        None => return None,
    };
    if total == 0 {
        return None;
    }
    let lower_index: usize = total / 4;
    let upper_index: usize = total - total / 4 - 1;
    assert(upper_index == upper_quartile_index(total as nat)) by (nonlinear_arith)
        requires
            upper_index == total - total / 4 - 1,
            total >= 1,
    ;
    let upper = match nth_smallest(items, upper_index) {
        Some(v) => v,
        None => return None,
    };
    let lower = match nth_smallest(items, lower_index) {
        Some(v) => v,
        None => return None,
    };
    proof {
        lemma_nth_smallest_monotone(items@, lower_index as nat, lower, upper_index as nat, upper);
    }
    Some(PortStatistics {
        total_runs: total,
        lower_quartile: lower,
        upper_quartile: upper,
        interquartile_range: upper - lower,
    })
}

} // verus!
