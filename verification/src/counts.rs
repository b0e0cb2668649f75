//! Frequency maps: for each number of swaps, how many runs needed it.
//! Their totals, their pointwise sums, and their order statistics.
use vstd::prelude::*;
use std::collections::HashMap;
use vstd::std_specs::iter::IteratorSpec;
use itertools::Itertools;

verus! {

broadcast use vstd::std_specs::hash::group_hash_axioms;

/// The number of runs that a frequency map records, over all its keys.
pub open spec fn map_total(m: Map<usize, usize>) -> nat
    decreases m.dom().len(),
{
    if m.dom().finite() && m.dom().len() > 0 {
        let k = m.dom().choose();
        m[k] as nat + map_total(m.remove(k))
    } else {
        0
    }
}

/// The count that `m` records for `k`, zero where it has none.
pub open spec fn count_of(m: Map<usize, usize>, k: usize) -> nat {
    if m.contains_key(k) {
        m[k] as nat
    } else {
        0
    }
}

/// Whether the counts of `a` and `b` can be added key by key in a `usize`.
pub open spec fn counts_fit(a: Map<usize, usize>, b: Map<usize, usize>) -> bool {
    forall|k: usize| #[trigger] a.contains_key(k) && b.contains_key(k) ==> a[k] + b[k] <= usize::MAX
}

/// The key-by-key sum of two frequency maps.
pub open spec fn sum_counts(a: Map<usize, usize>, b: Map<usize, usize>) -> Map<usize, usize> {
    Map::new(
        |k: usize| a.contains_key(k) || b.contains_key(k),
        |k: usize| (count_of(a, k) + count_of(b, k)) as usize,
    )
}

/// The part of `m` whose keys lie below `v`.
pub open spec fn below(m: Map<usize, usize>, v: usize) -> Map<usize, usize> {
    m.restrict(Set::new(|x: usize| x < v))
}

/// `v` is the element at index `k` (from zero) of the sorted list in which
/// every key of `m` stands as many times as `m` counts it.
pub open spec fn is_nth_smallest(m: Map<usize, usize>, k: nat, v: usize) -> bool {
    &&& m.contains_key(v)
    &&& map_total(below(m, v)) <= k
    &&& k < map_total(below(m, v)) + m[v]
}

/// The sum of the counts of a list of (key, count) pairs.
pub open spec fn seq_total(s: Seq<(usize, usize)>) -> nat
    decreases s.len(),
{
    if s.len() == 0 {
        0
    } else {
        seq_total(s.drop_last()) + s.last().1 as nat
    }
}

/// `s` lists the entries of `m`, each key once.
pub open spec fn lists_exactly(s: Seq<(usize, usize)>, m: Map<usize, usize>) -> bool {
    &&& forall|i: int| 0 <= i < s.len() ==> #[trigger] m.contains_key(s[i].0) && m[s[i].0] == s[i].1
    &&& forall|k: usize| #[trigger] m.contains_key(k) ==> exists|i: int| 0 <= i < s.len() && s[i].0 == k
    &&& forall|i: int, j: int| 0 <= i < j < s.len() ==> (#[trigger] s[i]).0 != (#[trigger] s[j]).0
}

/// Lexicographic order on (key, count) pairs, as std orders tuples.
pub open spec fn pair_le(a: (usize, usize), b: (usize, usize)) -> bool {
    a.0 < b.0 || (a.0 == b.0 && a.1 <= b.1)
}

pub proof fn lemma_total_empty(m: Map<usize, usize>)
    requires
        m.dom().finite(),
        m.dom().len() == 0,
    ensures
        map_total(m) == 0,
{
}

/// Taking any one key out of a finite frequency map takes its count out of
/// the total.
pub proof fn lemma_total_remove(m: Map<usize, usize>, k: usize)
    requires
        m.dom().finite(),
        m.contains_key(k),
    ensures
        map_total(m) == m[k] + map_total(m.remove(k)),
    decreases m.dom().len(),
{
    assert(m.dom().len() > 0) by {
        vstd::set_lib::lemma_len_subset(set![k], m.dom());
    }
    let c = m.dom().choose();
    if c != k {
        let mc = m.remove(c);
        let mk = m.remove(k);
        assert(mc.dom().len() < m.dom().len());
        lemma_total_remove(mc, k);
        lemma_total_remove(mk, c);
        assert(mc.remove(k) =~= mk.remove(c));
    }
}

/// Setting the count of one key replaces its old count in the total.
pub proof fn lemma_total_insert(m: Map<usize, usize>, k: usize, v: usize)
    requires
        m.dom().finite(),
    ensures
        map_total(m.insert(k, v)) == map_total(m.remove(k)) + v,
        map_total(m) == map_total(m.remove(k)) + count_of(m, k),
{
    let n = m.insert(k, v);
    lemma_total_remove(n, k);
    assert(n.remove(k) =~= m.remove(k));
    if m.contains_key(k) {
        lemma_total_remove(m, k);
    } else {
        assert(m.remove(k) =~= m);
    }
}

/// Adding two frequency maps adds their totals: no run is lost or made up.
pub proof fn lemma_total_sum_counts(a: Map<usize, usize>, b: Map<usize, usize>)
    requires
        a.dom().finite(),
        b.dom().finite(),
        counts_fit(a, b),
    ensures
        sum_counts(a, b).dom().finite(),
        map_total(sum_counts(a, b)) == map_total(a) + map_total(b),
    decreases b.dom().len(),
{
    let s = sum_counts(a, b);
    assert(s.dom() =~= a.dom().union(b.dom()));
    if b.dom().len() == 0 {
        assert(b.dom() =~= Set::empty());
        assert(s =~= a);
    } else {
        let k = b.dom().choose();
        let b2 = b.remove(k);
        lemma_total_sum_counts(a, b2);
        let s2 = sum_counts(a, b2);
        assert(s =~= s2.insert(k, (count_of(a, k) + b[k]) as usize));
        lemma_total_insert(s2, k, (count_of(a, k) + b[k]) as usize);
        lemma_total_remove(b, k);
        assert(count_of(s2, k) == count_of(a, k));
    }
}

/// A frequency map inside a finite one records no more runs.
pub proof fn lemma_total_submap(sub: Map<usize, usize>, sup: Map<usize, usize>)
    requires
        sup.dom().finite(),
        sub.submap_of(sup),
    ensures
        sub.dom().finite(),
        map_total(sub) <= map_total(sup),
    decreases sup.dom().len(),
{
    vstd::set_lib::lemma_set_subset_finite(sup.dom(), sub.dom());
    if sup.dom().len() == 0 {
        vstd::set_lib::lemma_len_subset(sub.dom(), sup.dom());
    } else {
        let k = sup.dom().choose();
        lemma_total_remove(sup, k);
        if sub.contains_key(k) {
            lemma_total_remove(sub, k);
            lemma_total_submap(sub.remove(k), sup.remove(k));
        } else {
            assert(sub.submap_of(sup.remove(k)));
            lemma_total_submap(sub, sup.remove(k));
        }
    }
}

/// The part of a finite frequency map below a key is finite, and inside it.
pub proof fn lemma_below_finite(m: Map<usize, usize>, v: usize)
    requires
        m.dom().finite(),
    ensures
        below(m, v).dom().finite(),
        below(m, v).submap_of(m),
{
    vstd::set_lib::lemma_set_subset_finite(m.dom(), below(m, v).dom());
}

/// The counts of a list that lists a map exactly add up to the map's total.
pub proof fn lemma_seq_total_lists(s: Seq<(usize, usize)>, m: Map<usize, usize>)
    requires
        m.dom().finite(),
        lists_exactly(s, m),
    ensures
        seq_total(s) == map_total(m),
    decreases s.len(),
{
    if s.len() == 0 {
        assert(m.dom() =~= Set::empty()) by {
            assert forall|k: usize| !m.contains_key(k) by {
                if m.contains_key(k) {
                    let i = choose|i: int| 0 <= i < s.len() && s[i].0 == k;
                }
            }
        }
    } else {
        let last = s.last();
        let rest = s.drop_last();
        let m2 = m.remove(last.0);
        assert(m.contains_key(s[s.len() - 1].0));
        assert(lists_exactly(rest, m2)) by {
            assert forall|i: int| 0 <= i < rest.len() implies #[trigger] m2.contains_key(rest[i].0)
                && m2[rest[i].0] == rest[i].1 by {
                assert(s[i] == rest[i]);
                assert(s[i].0 != s[s.len() - 1].0);
            }
            assert forall|k: usize| #[trigger] m2.contains_key(k) implies exists|i: int|
                0 <= i < rest.len() && rest[i].0 == k by {
                let i = choose|i: int| 0 <= i < s.len() && s[i].0 == k;
                assert(i != s.len() - 1);
                assert(rest[i] == s[i]);
            }
            assert forall|i: int, j: int| 0 <= i < j < rest.len() implies (#[trigger] rest[i]).0
                != (#[trigger] rest[j]).0 by {
                assert(rest[i] == s[i] && rest[j] == s[j]);
            }
        }
        lemma_seq_total_lists(rest, m2);
        lemma_total_remove(m, last.0);
    }
}

/// The counts of a prefix of a list add up to no more than those of the list.
pub proof fn lemma_seq_total_prefix(s: Seq<(usize, usize)>, i: int)
    requires
        0 <= i <= s.len(),
    ensures
        seq_total(s.take(i)) <= seq_total(s),
    decreases s.len() - i,
{
    if i < s.len() {
        lemma_seq_total_prefix(s, i + 1);
        assert(s.take(i + 1).drop_last() =~= s.take(i));
    } else {
        assert(s.take(i) =~= s);
    }
}

/// The entries of a frequency map as a list of (key, count) pairs, each key
/// once, in the order in which the map hands them out.
pub fn collect_pairs(m: &HashMap<usize, usize>) -> (out: Vec<(usize, usize)>)
    ensures
        lists_exactly(out@, m@),
        out@.no_duplicates(),
{
    let mut out: Vec<(usize, usize)> = Vec::new();
    let ghost s = vstd::std_specs::hash::spec_hash_map_iter(m).remaining();
    for (k, v) in it: m.iter()
        invariant
            it.seq() == s,
            out@.len() == it.index(),
            forall|i: int| 0 <= i < it.index() ==> out@[i] == (*s[i].0, *s[i].1),
    {
        out.push((*k, *v));
    }
    proof {
        assert(s.len() == m@.dom().len());
        assert forall|k: usize| #[trigger] m@.contains_key(k) implies exists|i: int|
            0 <= i < out@.len() && out@[i].0 == k by {
            assert(s.contains((&k, &m@[k])));
            let j = choose|j: int| 0 <= j < s.len() && s[j] == (&k, &m@[k]);
            assert(out@[j].0 == k);
        }
        assert forall|i: int| 0 <= i < out@.len() implies #[trigger] m@.contains_key(out@[i].0)
            && m@[out@[i].0] == out@[i].1 by {
            assert(m@.contains_key(*s[i].0));
        }
        assert forall|i: int, j: int| 0 <= i < j < out@.len() implies (#[trigger] out@[i]).0
            != (#[trigger] out@[j]).0 by {
            assert(s[i] != s[j]);
            assert(m@.contains_key(*s[i].0) && m@.contains_key(*s[j].0));
        }
    }
    out
}


/// The total number of runs that a frequency map records, or `None` where
/// that number does not fit in a `usize`.
pub fn total_count(m: &HashMap<usize, usize>) -> (res: Option<usize>)
    ensures
        match res {
            Some(t) => t as nat == map_total(m@),
            None => map_total(m@) > usize::MAX,
        },
{
    let pairs = collect_pairs(m);
    let mut acc: usize = 0;
    let mut i: usize = 0;
    while i < pairs.len()
        invariant
            i <= pairs@.len(),
            lists_exactly(pairs@, m@),
            acc as nat == seq_total(pairs@.take(i as int)),
        decreases pairs@.len() - i,
    {
        proof {
            assert(pairs@.take(i + 1).drop_last() =~= pairs@.take(i as int));
        }
        match acc.checked_add(pairs[i].1) {
            Some(next) => acc = next,
            None => {
                proof {
                    lemma_seq_total_prefix(pairs@, i + 1);
                    lemma_seq_total_lists(pairs@, m@);
                }
                return None;
            },
        }
        i = i + 1;
    }
    proof {
        assert(pairs@.take(i as int) =~= pairs@);
        lemma_seq_total_lists(pairs@, m@);
    }
    Some(acc)
}

/// Whether the counts of `from` can be added to those of `into`, key by
/// key, without leaving the range of a `usize`.
pub fn counts_fit_exec(into: &HashMap<usize, usize>, from: &HashMap<usize, usize>) -> (res: bool)
    ensures
        res == counts_fit(into@, from@),
{
    let pairs = collect_pairs(from);
    let mut i: usize = 0;
    while i < pairs.len()
        invariant
            i <= pairs@.len(),
            lists_exactly(pairs@, from@),
            forall|j: int| 0 <= j < i ==> #[trigger] into@.contains_key(pairs@[j].0) ==> into@[pairs@[j].0]
                + pairs@[j].1 <= usize::MAX,
        decreases pairs@.len() - i,
    {
        let (k, v) = pairs[i];
        match into.get(&k) {
            Some(x) => {
                if *x > usize::MAX - v {
                    proof {
                        assert(from@.contains_key(pairs@[i as int].0));
                    }
                    return false;
                }
            },
            None => {},
        }
        i = i + 1;
    }
    proof {
        assert forall|k: usize| #[trigger] into@.contains_key(k) && from@.contains_key(k) implies into@[k]
            + from@[k] <= usize::MAX by {
            let j = choose|j: int| 0 <= j < pairs@.len() && pairs@[j].0 == k;
            assert(into@.contains_key(pairs@[j].0));
        }
    }
    true
}

/// Adds the counts of `from` to those of `into`, key by key; a key that
/// `into` lacks starts from zero.
pub fn add_counts(into: &mut HashMap<usize, usize>, from: &HashMap<usize, usize>)
    requires
        counts_fit(old(into)@, from@),
    ensures
        final(into)@ == sum_counts(old(into)@, from@),
{
    let pairs = collect_pairs(from);
    let ghost start = into@;
    let ghost mut done: Map<usize, usize> = Map::empty();
    let mut i: usize = 0;
    proof {
        assert(into@ =~= sum_counts(start, done));
    }
    while i < pairs.len()
        invariant
            i <= pairs@.len(),
            lists_exactly(pairs@, from@),
            counts_fit(start, from@),
            into@ == sum_counts(start, done),
            done.submap_of(from@),
            forall|j: int| 0 <= j < i ==> #[trigger] done.contains_key(pairs@[j].0),
            forall|k: usize| #[trigger] done.contains_key(k) ==> exists|j: int| 0 <= j < i && pairs@[j].0 == k,
        decreases pairs@.len() - i,
    {
        let (k, v) = pairs[i];
        proof {
            assert(from@.contains_key(pairs@[i as int].0));
            if done.contains_key(k) {
                let j = choose|j: int| 0 <= j < i && pairs@[j].0 == k;
                assert(pairs@[j].0 != pairs@[i as int].0);
            }
        }
        let cur: usize = match into.get(&k) {
            Some(x) => *x,
            None => 0,
        };
        into.insert(k, cur + v);
        proof {
            let done2 = done.insert(k, v);
            assert(into@ =~= sum_counts(start, done2));
            assert forall|k2: usize| #[trigger] done2.contains_key(k2) implies exists|j: int|
                0 <= j < i + 1 && pairs@[j].0 == k2 by {
                if k2 != k {
                    let j = choose|j: int| 0 <= j < i && pairs@[j].0 == k2;
                    assert(0 <= j < i + 1 && pairs@[j].0 == k2);
                } else {
                    assert(pairs@[i as int].0 == k2);
                }
            }
            done = done2;
        }
        i = i + 1;
    }
    proof {
        assert forall|k: usize| #[trigger] from@.contains_key(k) implies done.contains_key(k) by {
            let j = choose|j: int| 0 <= j < pairs@.len() && pairs@[j].0 == k;
            assert(done.contains_key(pairs@[j].0));
        }
        assert(done =~= from@);
    }
}

/// `Itertools::sorted` of itertools, on (key, count) pairs: the same pairs,
/// in ascending lexicographic order.
#[verifier::external_body]
fn sorted_pairs(pairs: Vec<(usize, usize)>) -> (out: Vec<(usize, usize)>)
    ensures
        out@.to_multiset() == pairs@.to_multiset(),
        forall|i: int, j: int| 0 <= i < j < out@.len() ==> pair_le(#[trigger] out@[i], #[trigger] out@[j]),
{
    pairs.into_iter().sorted().collect()
}

/// Sorting a list that lists a map exactly gives a list that lists it
/// exactly too, with its keys strictly ascending.
proof fn lemma_sorted_lists(pairs: Seq<(usize, usize)>, out: Seq<(usize, usize)>, m: Map<usize, usize>)
    requires
        lists_exactly(pairs, m),
        pairs.no_duplicates(),
        out.to_multiset() == pairs.to_multiset(),
        forall|i: int, j: int| 0 <= i < j < out.len() ==> pair_le(#[trigger] out[i], #[trigger] out[j]),
    ensures
        lists_exactly(out, m),
        forall|i: int, j: int| 0 <= i < j < out.len() ==> (#[trigger] out[i]).0 < (#[trigger] out[j]).0,
{
    broadcast use vstd::seq_lib::to_multiset_contains;
    pairs.lemma_multiset_has_no_duplicates();
    out.lemma_multiset_has_no_duplicates_conv();
    assert forall|i: int| 0 <= i < out.len() implies #[trigger] m.contains_key(out[i].0) && m[out[i].0]
        == out[i].1 by {
        assert(out.contains(out[i]));
        assert(out.to_multiset().count(out[i]) > 0);
        assert(pairs.contains(out[i]));
        let j = choose|j: int| 0 <= j < pairs.len() && pairs[j] == out[i];
        assert(m.contains_key(pairs[j].0));
    }
    assert forall|k: usize| #[trigger] m.contains_key(k) implies exists|i: int| 0 <= i < out.len() && out[i].0 == k by {
        let j = choose|j: int| 0 <= j < pairs.len() && pairs[j].0 == k;
        assert(pairs.contains(pairs[j]));
        assert(pairs.to_multiset().count(pairs[j]) > 0);
        assert(out.contains(pairs[j]));
        let i = choose|i: int| 0 <= i < out.len() && out[i] == pairs[j];
        assert(out[i].0 == k);
    }
    assert forall|i: int, j: int| 0 <= i < j < out.len() implies (#[trigger] out[i]).0 < (#[trigger] out[j]).0 by {
        assert(pair_le(out[i], out[j]));
        assert(m.contains_key(out[i].0) && m.contains_key(out[j].0));
        assert(out[i] != out[j]);
    }
}

/// For a list sorted by strictly ascending keys that lists `m` exactly, the
/// part before position `i` lists exactly the part of `m` below its key.
proof fn lemma_sorted_prefix_below(s: Seq<(usize, usize)>, m: Map<usize, usize>, i: int)
    requires
        lists_exactly(s, m),
        forall|a: int, b: int| 0 <= a < b < s.len() ==> (#[trigger] s[a]).0 < (#[trigger] s[b]).0,
        0 <= i < s.len(),
    ensures
        lists_exactly(s.take(i), below(m, s[i].0)),
{
    let t = s.take(i);
    let b = below(m, s[i].0);
    assert forall|a: int| 0 <= a < t.len() implies #[trigger] b.contains_key(t[a].0) && b[t[a].0] == t[a].1 by {
        assert(t[a] == s[a]);
        assert(m.contains_key(s[a].0));
        assert(s[a].0 < s[i].0);
    }
    assert forall|k: usize| #[trigger] b.contains_key(k) implies exists|a: int| 0 <= a < t.len() && t[a].0 == k by {
        assert(m.contains_key(k));
        let a = choose|a: int| 0 <= a < s.len() && s[a].0 == k;
        if a >= i {
            if a > i {
                assert(s[i].0 < s[a].0);
            }
        }
        assert(t[a] == s[a]);
    }
    assert forall|a: int, c: int| 0 <= a < c < t.len() implies (#[trigger] t[a]).0 != (#[trigger] t[c]).0 by {
        assert(t[a] == s[a] && t[c] == s[c]);
    }
}

/// The element at index `k` (from zero) of the sorted list in which every
/// key of `m` stands as many times as `m` counts it, or `None` where that
/// list is shorter.
pub fn nth_smallest(m: &HashMap<usize, usize>, k: usize) -> (res: Option<usize>)
    ensures
        match res {
            Some(v) => is_nth_smallest(m@, k as nat, v),
            None => map_total(m@) <= k,
        },
{
    let pairs = collect_pairs(m);
    let sorted = sorted_pairs(pairs);
    proof {
        lemma_sorted_lists(pairs@, sorted@, m@);
    }
    let mut cum: usize = 0;
    let mut i: usize = 0;
    while i < sorted.len()
        invariant
            i <= sorted@.len(),
            lists_exactly(sorted@, m@),
            forall|a: int, b: int| 0 <= a < b < sorted@.len() ==> (#[trigger] sorted@[a]).0 < (#[trigger] sorted@[b]).0,
            cum as nat == seq_total(sorted@.take(i as int)),
            cum <= k,
        decreases sorted@.len() - i,
    {
        let (key, count) = sorted[i];
        proof {
            lemma_sorted_prefix_below(sorted@, m@, i as int);
            lemma_below_finite(m@, key);
            lemma_seq_total_lists(sorted@.take(i as int), below(m@, key));
            assert(m@.contains_key(sorted@[i as int].0));
            assert(sorted@.take(i + 1).drop_last() =~= sorted@.take(i as int));
        }
        if k - cum < count {
            return Some(key);
        }
        cum = cum + count;
        i = i + 1;
    }
    proof {
        assert(sorted@.take(i as int) =~= sorted@);
        lemma_seq_total_lists(sorted@, m@);
    }
    None
}

} // verus!
