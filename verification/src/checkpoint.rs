//! Checkpoints: for each program (keyed by the digest of its source), the
//! swap counts of its runs, per port count. Merging two checkpoints,
//! recording the runs of a finished job, and counting what is on record.
use vstd::prelude::*;
use std::collections::HashMap;
use vstd::std_specs::iter::IteratorSpec;
use crate::counts::{
    add_counts, counts_fit, counts_fit_exec, lemma_total_sum_counts, map_total, sum_counts, total_count,
};

verus! {

broadcast use vstd::std_specs::hash::group_hash_axioms;

/// What a checkpoint records of one program.
#[derive(Debug)]
pub struct CheckpointEntry {
    pub name: String,
    /// map of {ports: {swaps: count}}
    pub frequency_map: HashMap<usize, HashMap<usize, usize>>,
}

/// The recorded runs of every program that was tested, each program under
/// the digest of its source, each digest once (see `wf`).
#[derive(Debug)]
pub struct Checkpoint {
    /// When the checkpoint was made, in seconds.
    pub time: u64,
    pub algorithms: Vec<([u8; 32], CheckpointEntry)>,
}

/// The runs of one program: for each port count, its frequency map.
pub open spec fn runs_view(fm: HashMap<usize, HashMap<usize, usize>>) -> Map<usize, Map<usize, usize>> {
    Map::new(|p: usize| fm@.contains_key(p), |p: usize| fm@[p]@)
}

/// What an entry records: the program's name and its runs.
pub open spec fn entry_model(e: CheckpointEntry) -> (Seq<char>, Map<usize, Map<usize, usize>>) {
    (e.name@, runs_view(e.frequency_map))
}

/// Some entry of `s` is filed under `key`.
pub open spec fn has_key(s: Seq<([u8; 32], CheckpointEntry)>, key: Seq<u8>) -> bool {
    exists|i: int| 0 <= i < s.len() && (#[trigger] s[i]).0@ == key
}

/// No two entries of `s` are filed under the same key.
pub open spec fn keys_distinct(s: Seq<([u8; 32], CheckpointEntry)>) -> bool {
    forall|i: int, j: int| 0 <= i < j < s.len() ==> (#[trigger] s[i]).0@ != (#[trigger] s[j]).0@
}

/// The entries of `s` as a map from key to what the entry records.
pub open spec fn algorithms_model(s: Seq<([u8; 32], CheckpointEntry)>) -> Map<
    Seq<u8>,
    (Seq<char>, Map<usize, Map<usize, usize>>),
> {
    Map::new(
        |key: Seq<u8>| has_key(s, key),
        |key: Seq<u8>| entry_model(s[choose|i: int| 0 <= i < s.len() && (#[trigger] s[i]).0@ == key].1),
    )
}

impl Checkpoint {
    /// Each program is filed once.
    pub open spec fn wf(&self) -> bool {
        keys_distinct(self.algorithms@)
    }

    /// What the checkpoint records: key to (name, runs).
    pub open spec fn model(&self) -> Map<Seq<u8>, (Seq<char>, Map<usize, Map<usize, usize>>)> {
        algorithms_model(self.algorithms@)
    }
}

/// Whether the runs of `b` can be added to those of `a` without a count
/// leaving the range of a `usize`.
pub open spec fn runs_fit(a: Map<usize, Map<usize, usize>>, b: Map<usize, Map<usize, usize>>) -> bool {
    forall|p: usize| #[trigger] a.contains_key(p) && b.contains_key(p) ==> counts_fit(a[p], b[p])
}

/// The runs of `a` and `b` together: where both hold a port count, their
/// frequency maps are added; otherwise the one that holds it stands.
pub open spec fn merge_runs(a: Map<usize, Map<usize, usize>>, b: Map<usize, Map<usize, usize>>) -> Map<
    usize,
    Map<usize, usize>,
> {
    Map::new(
        |p: usize| a.contains_key(p) || b.contains_key(p),
        |p: usize|
            if a.contains_key(p) && b.contains_key(p) {
                sum_counts(a[p], b[p])
            } else if a.contains_key(p) {
                a[p]
            } else {
                b[p]
            },
    )
}

/// Whether two checkpoints can be merged without a count leaving the range
/// of a `usize`.
pub open spec fn models_fit(
    a: Map<Seq<u8>, (Seq<char>, Map<usize, Map<usize, usize>>)>,
    b: Map<Seq<u8>, (Seq<char>, Map<usize, Map<usize, usize>>)>,
) -> bool {
    forall|key: Seq<u8>| #[trigger] a.contains_key(key) && b.contains_key(key) ==> runs_fit(a[key].1, b[key].1)
}

/// Two checkpoints merged: a program that both record keeps the name from
/// `a` and has its runs merged; any other program stands as recorded.
pub open spec fn merge_models(
    a: Map<Seq<u8>, (Seq<char>, Map<usize, Map<usize, usize>>)>,
    b: Map<Seq<u8>, (Seq<char>, Map<usize, Map<usize, usize>>)>,
) -> Map<Seq<u8>, (Seq<char>, Map<usize, Map<usize, usize>>)> {
    Map::new(
        |key: Seq<u8>| a.contains_key(key) || b.contains_key(key),
        |key: Seq<u8>|
            if a.contains_key(key) && b.contains_key(key) {
                (a[key].0, merge_runs(a[key].1, b[key].1))
            } else if a.contains_key(key) {
                a[key]
            } else {
                b[key]
            },
    )
}

pub proof fn lemma_model_at(s: Seq<([u8; 32], CheckpointEntry)>, i: int)
    requires
        keys_distinct(s),
        0 <= i < s.len(),
    ensures
        algorithms_model(s).contains_key(s[i].0@),
        algorithms_model(s)[s[i].0@] == entry_model(s[i].1),
{
    let key = s[i].0@;
    assert(has_key(s, key));
    let j = choose|j: int| 0 <= j < s.len() && (#[trigger] s[j]).0@ == key;
    if j != i {
        if j < i {
            assert(s[j].0@ != s[i].0@);
        } else {
            assert(s[i].0@ != s[j].0@);
        }
    }
}

/// A list of entries with distinct keys models the map that holds, for
/// each of its keys, what the entry records, and no other key.
pub proof fn lemma_model_equals(
    s: Seq<([u8; 32], CheckpointEntry)>,
    m: Map<Seq<u8>, (Seq<char>, Map<usize, Map<usize, usize>>)>,
)
    requires
        keys_distinct(s),
        forall|i: int| 0 <= i < s.len() ==> #[trigger] m.contains_key(s[i].0@) && m[s[i].0@] == entry_model(s[i].1),
        forall|key: Seq<u8>| #[trigger] m.contains_key(key) ==> has_key(s, key),
    ensures
        algorithms_model(s) == m,
{
    let a = algorithms_model(s);
    assert forall|key: Seq<u8>| #[trigger] a.contains_key(key) <==> m.contains_key(key) by {
        if a.contains_key(key) {
            let i = choose|i: int| 0 <= i < s.len() && (#[trigger] s[i]).0@ == key;
            assert(m.contains_key(s[i].0@));
        }
    }
    assert forall|key: Seq<u8>| #[trigger] a.contains_key(key) implies a[key] == m[key] by {
        let i = choose|i: int| 0 <= i < s.len() && (#[trigger] s[i]).0@ == key;
        lemma_model_at(s, i);
        assert(m.contains_key(s[i].0@));
    }
    assert(a =~= m);
}

/// Replacing an entry by one under the same key replaces what the model
/// holds for that key.
pub proof fn lemma_model_update(s: Seq<([u8; 32], CheckpointEntry)>, i: int, x: ([u8; 32], CheckpointEntry))
    requires
        keys_distinct(s),
        0 <= i < s.len(),
        x.0@ == s[i].0@,
    ensures
        keys_distinct(s.update(i, x)),
        algorithms_model(s.update(i, x)) == algorithms_model(s).insert(x.0@, entry_model(x.1)),
{
    let t = s.update(i, x);
    let target = algorithms_model(s).insert(x.0@, entry_model(x.1));
    assert(keys_distinct(t)) by {
        assert forall|a: int, b: int| 0 <= a < b < t.len() implies (#[trigger] t[a]).0@ != (#[trigger] t[b]).0@ by {
            assert(s[a].0@ != s[b].0@);
        }
    }
    assert forall|j: int| 0 <= j < t.len() implies #[trigger] target.contains_key(t[j].0@) && target[t[j].0@]
        == entry_model(t[j].1) by {
        if j != i {
            lemma_model_at(s, j);
            if j < i {
                assert(s[j].0@ != s[i].0@);
            } else {
                assert(s[i].0@ != s[j].0@);
            }
        }
    }
    assert forall|k: Seq<u8>| #[trigger] target.contains_key(k) implies has_key(t, k) by {
        if k == x.0@ {
            assert(t[i].0@ == k);
        } else {
            let j = choose|j: int| 0 <= j < s.len() && (#[trigger] s[j]).0@ == k;
            assert(t[j] == s[j]);
        }
    }
    lemma_model_equals(t, target);
}

/// Appending an entry under a new key adds it to the model.
pub proof fn lemma_model_push(s: Seq<([u8; 32], CheckpointEntry)>, x: ([u8; 32], CheckpointEntry))
    requires
        keys_distinct(s),
        !algorithms_model(s).contains_key(x.0@),
    ensures
        keys_distinct(s.push(x)),
        algorithms_model(s.push(x)) == algorithms_model(s).insert(x.0@, entry_model(x.1)),
{
    let t = s.push(x);
    let target = algorithms_model(s).insert(x.0@, entry_model(x.1));
    assert(keys_distinct(t)) by {
        assert forall|a: int, b: int| 0 <= a < b < t.len() implies (#[trigger] t[a]).0@ != (#[trigger] t[b]).0@ by {
            if b == s.len() {
                assert(t[a] == s[a]);
                assert(has_key(s, s[a].0@));
            } else {
                assert(s[a].0@ != s[b].0@);
            }
        }
    }
    assert forall|j: int| 0 <= j < t.len() implies #[trigger] target.contains_key(t[j].0@) && target[t[j].0@]
        == entry_model(t[j].1) by {
        if j < s.len() {
            lemma_model_at(s, j);
            assert(t[j] == s[j]);
            assert(has_key(s, s[j].0@));
        }
    }
    assert forall|k: Seq<u8>| #[trigger] target.contains_key(k) implies has_key(t, k) by {
        if k == x.0@ {
            assert(t[s.len() as int].0@ == k);
        } else {
            let j = choose|j: int| 0 <= j < s.len() && (#[trigger] s[j]).0@ == k;
            assert(t[j] == s[j]);
        }
    }
    lemma_model_equals(t, target);
}

/// Whether the array `a` holds the bytes `b`.
fn same_key(a: &[u8; 32], b: &[u8]) -> (res: bool)
    ensures
        res == (a@ == b@),
{
    if b.len() != 32 {
        return false;
    }
    let mut i: usize = 0;
    while i < 32
        invariant
            i <= 32,
            a@.len() == 32,
            b@.len() == 32,
            forall|j: int| 0 <= j < i ==> a@[j] == b@[j],
        decreases 32 - i,
    {
        if a[i] != b[i] {
            return false;
        }
        i = i + 1;
    }
    proof {
        assert(a@ =~= b@);
    }
    true
}

/// The position of the entry filed under `key`, if there is one.
pub fn find_algorithm(algorithms: &Vec<([u8; 32], CheckpointEntry)>, key: &[u8]) -> (res: Option<usize>)
    ensures
        match res {
            Some(i) => i < algorithms@.len() && algorithms@[i as int].0@ == key@,
            None => !has_key(algorithms@, key@),
        },
{
    let mut i: usize = 0;
    while i < algorithms.len()
        invariant
            i <= algorithms@.len(),
            forall|j: int| 0 <= j < i ==> (#[trigger] algorithms@[j]).0@ != key@,
        decreases algorithms@.len() - i,
    {
        if same_key(&algorithms[i].0, key) {
            return Some(i);
        }
        i = i + 1;
    }
    None
}

/// The keys of a map, each once.
pub fn collect_keys<V>(m: &HashMap<usize, V>) -> (out: Vec<usize>)
    ensures
        out@.no_duplicates(),
        forall|i: int| 0 <= i < out@.len() ==> m@.contains_key(#[trigger] out@[i]),
        forall|k: usize| #[trigger] m@.contains_key(k) ==> out@.contains(k),
{
    let mut out: Vec<usize> = Vec::new();
    let ghost s = vstd::std_specs::hash::spec_keys_iter(m).remaining();
    for k in it: m.keys()
        invariant
            it.seq() == s,
            out@.len() == it.index(),
            forall|i: int| 0 <= i < it.index() ==> out@[i] == *s[i],
    {
        out.push(*k);
    }
    proof {
        assert(out@ =~= s.unref());
        assert(s.unref().to_set() == m@.dom());
        assert forall|i: int| 0 <= i < out@.len() implies m@.contains_key(#[trigger] out@[i]) by {
            assert(s.unref().to_set().contains(out@[i]));
        }
        assert forall|k: usize| #[trigger] m@.contains_key(k) implies out@.contains(k) by {
            assert(s.unref().to_set().contains(k));
        }
        assert forall|i: int, j: int| 0 <= i < out@.len() && 0 <= j < out@.len() && i != j implies out@[i]
            != out@[j] by {
            assert(s[i] != s[j]);
        }
    }
    out
}


/// Whether the runs of `b` can be added to those of `a` without a count
/// leaving the range of a `usize`.
pub fn runs_fit_exec(a: &HashMap<usize, HashMap<usize, usize>>, b: &HashMap<usize, HashMap<usize, usize>>) -> (res: bool)
    ensures
        res == runs_fit(runs_view(*a), runs_view(*b)),
{
    let ports = collect_keys(b);
    let mut i: usize = 0;
    while i < ports.len()
        invariant
            i <= ports@.len(),
            forall|j: int| 0 <= j < ports@.len() ==> b@.contains_key(#[trigger] ports@[j]),
            forall|k: usize| #[trigger] b@.contains_key(k) ==> ports@.contains(k),
            forall|j: int| 0 <= j < i ==> #[trigger] a@.contains_key(ports@[j]) ==> counts_fit(
                a@[ports@[j]]@,
                b@[ports@[j]]@,
            ),
        decreases ports@.len() - i,
    {
        let p = ports[i];
        assert(b@.contains_key(ports@[i as int]));
        match a.get(&p) {
            Some(x) => {
                let y = b.get(&p).unwrap();
                if !counts_fit_exec(x, y) {
                    proof {
                        assert(runs_view(*a).contains_key(p) && runs_view(*b).contains_key(p));
                        assert(runs_view(*a)[p] == x@ && runs_view(*b)[p] == y@);
                    }
                    return false;
                }
            },
            None => {},
        }
        i = i + 1;
    }
    proof {
        assert forall|p: usize| #[trigger] runs_view(*a).contains_key(p) && runs_view(*b).contains_key(p) implies counts_fit(
            runs_view(*a)[p],
            runs_view(*b)[p],
        ) by {
            assert(ports@.contains(p));
            let j = choose|j: int| 0 <= j < ports@.len() && ports@[j] == p;
            assert(a@.contains_key(ports@[j]));
        }
    }
    true
}

/// Adds the runs of `b` to those of `a`: port counts that both hold have
/// their frequency maps added; the others of `b` are copied over.
pub fn merge_runs_into(a: &mut HashMap<usize, HashMap<usize, usize>>, b: &HashMap<usize, HashMap<usize, usize>>)
    requires
        runs_fit(runs_view(*old(a)), runs_view(*b)),
    ensures
        runs_view(*final(a)) == merge_runs(runs_view(*old(a)), runs_view(*b)),
{
    let ghost start = runs_view(*a);
    let ghost bv = runs_view(*b);
    let ports = collect_keys(b);
    let ghost mut done: Set<usize> = Set::empty();
    proof {
        assert(runs_view(*a) =~= merge_runs(start, bv.restrict(done)));
    }
    let mut i: usize = 0;
    while i < ports.len()
        invariant
            i <= ports@.len(),
            bv == runs_view(*b),
            runs_fit(start, bv),
            ports@.no_duplicates(),
            forall|j: int| 0 <= j < ports@.len() ==> b@.contains_key(#[trigger] ports@[j]),
            forall|k: usize| #[trigger] b@.contains_key(k) ==> ports@.contains(k),
            runs_view(*a) == merge_runs(start, bv.restrict(done)),
            forall|j: int| 0 <= j < i ==> done.contains(#[trigger] ports@[j]),
            forall|k: usize| #[trigger] done.contains(k) ==> exists|j: int| 0 <= j < i && ports@[j] == k,
            forall|k: usize| #[trigger] done.contains(k) ==> b@.contains_key(k),
        decreases ports@.len() - i,
    {
        let p = ports[i];
        proof {
            assert(b@.contains_key(ports@[i as int]));
            if done.contains(p) {
                let j = choose|j: int| 0 <= j < i && ports@[j] == p;
                assert(ports@[j] != ports@[i as int]);
            }
        }
        let bp = b.get(&p).unwrap();
        let ghost before = *a;
        proof {
            assert(runs_view(before) == merge_runs(start, bv.restrict(done)));
            assert(bp@ == bv[p]);
        }
        match a.remove(&p) {
            Some(mut inner) => {
                proof {
                    assert(before@.contains_key(p) && before@[p] == inner);
                    assert(runs_view(before).contains_key(p));
                    assert(runs_view(before)[p] == inner@);
                    assert(!bv.restrict(done).contains_key(p));
                    assert(start.contains_key(p));
                    assert(inner@ == start[p]);
                    assert(counts_fit(start[p], bv[p]));
                }
                add_counts(&mut inner, bp);
                a.insert(p, inner);
            },
            None => {
                proof {
                    assert(!before@.contains_key(p));
                    assert(!runs_view(before).contains_key(p));
                    assert(!start.contains_key(p));
                }
                a.insert(p, bp.clone());
            },
        }
        proof {
            let done2 = done.insert(p);
            assert(a@ == before@.insert(p, a@[p]));
            assert forall|k: usize| k != p implies #[trigger] runs_view(*a).contains_key(k) == runs_view(before).contains_key(k)
                && (runs_view(*a).contains_key(k) ==> runs_view(*a)[k] == runs_view(before)[k]) by {}
            assert(runs_view(*a).contains_key(p));
            assert(runs_view(*a)[p] == merge_runs(start, bv.restrict(done2))[p]);
            assert(runs_view(*a) =~= merge_runs(start, bv.restrict(done2)));
            assert forall|k: usize| #[trigger] done2.contains(k) implies exists|j: int| 0 <= j < i + 1 && ports@[j] == k by {
                if k != p {
                    let j = choose|j: int| 0 <= j < i && ports@[j] == k;
                    assert(0 <= j < i + 1 && ports@[j] == k);
                } else {
                    assert(ports@[i as int] == k);
                }
            }
            done = done2;
        }
        i = i + 1;
    }
    proof {
        assert forall|k: usize| #[trigger] bv.contains_key(k) implies done.contains(k) by {
            assert(ports@.contains(k));
            let j = choose|j: int| 0 <= j < ports@.len() && ports@[j] == k;
            assert(done.contains(ports@[j]));
        }
        assert(bv.restrict(done) =~= bv);
    }
}


/// Whether two checkpoints can be merged without a count leaving the range
/// of a `usize`.
pub fn checkpoints_fit(a: &Checkpoint, b: &Checkpoint) -> (res: bool)
    requires
        a.wf(),
        b.wf(),
    ensures
        res == models_fit(a.model(), b.model()),
{
    let mut j: usize = 0;
    while j < b.algorithms.len()
        invariant
            a.wf(),
            b.wf(),
            j <= b.algorithms@.len(),
            forall|k: int| 0 <= k < j ==> #[trigger] a.model().contains_key(b.algorithms@[k].0@) ==> runs_fit(
                a.model()[b.algorithms@[k].0@].1,
                entry_model(b.algorithms@[k].1).1,
            ),
        decreases b.algorithms@.len() - j,
    {
        let key: &[u8; 32] = &b.algorithms[j].0;
        match find_algorithm(&a.algorithms, key.as_slice()) {
            Some(i) => {
                proof {
                    lemma_model_at(a.algorithms@, i as int);
                    lemma_model_at(b.algorithms@, j as int);
                }
                if !runs_fit_exec(&a.algorithms[i].1.frequency_map, &b.algorithms[j].1.frequency_map) {
                    return false;
                }
            },
            None => {},
        }
        j = j + 1;
    }
    proof {
        assert forall|key: Seq<u8>| #[trigger] a.model().contains_key(key) && b.model().contains_key(key) implies runs_fit(
            a.model()[key].1,
            b.model()[key].1,
        ) by {
            let k = choose|k: int| 0 <= k < b.algorithms@.len() && (#[trigger] b.algorithms@[k]).0@ == key;
            lemma_model_at(b.algorithms@, k);
            assert(a.model().contains_key(b.algorithms@[k].0@));
        }
    }
    true
}

/// Merges checkpoint `b` into checkpoint `a` and stamps the result with
/// `time`: programs that both record keep the name from `a` and have their
/// runs added port count by port count, swap count by swap count; the
/// others are taken as they are. `None` where some count would leave the
/// range of a `usize`.
pub fn merge_checkpoints(a: Checkpoint, b: Checkpoint, time: u64) -> (res: Option<Checkpoint>)
    requires
        a.wf(),
        b.wf(),
    ensures
        res is Some <==> models_fit(a.model(), b.model()),
        res matches Some(merged) ==> {
            &&& merged.wf()
            &&& merged.model() == merge_models(a.model(), b.model())
            &&& merged.time == time
        },
{
    if !checkpoints_fit(&a, &b) {
        return None;
    }
    let ghost ma = a.model();
    let ghost sb = b.algorithms@;
    let ghost mb = b.model();
    let mut mine = a.algorithms;
    let mut theirs = b.algorithms;
    proof {
        assert(sb.skip(sb.len() as int) =~= Seq::<([u8; 32], CheckpointEntry)>::empty());
        lemma_model_equals(sb.skip(sb.len() as int), Map::empty());
        assert(algorithms_model(mine@) =~= merge_models(ma, Map::empty()));
    }
    while theirs.len() > 0
        invariant
            keys_distinct(sb),
            mb == algorithms_model(sb),
            models_fit(ma, mb),
            theirs@ == sb.take(theirs@.len() as int),
            theirs@.len() <= sb.len(),
            keys_distinct(mine@),
            algorithms_model(mine@) == merge_models(ma, algorithms_model(sb.skip(theirs@.len() as int))),
        decreases theirs@.len(),
    {
        let ghost n = theirs@.len() as int;
        let ghost done = sb.skip(n);
        let ghost done2 = sb.skip(n - 1);
        let ghost cur = algorithms_model(mine@);
        let (key, entry) = theirs.pop().unwrap();
        proof {
            assert(sb[n - 1] == (key, entry));
            lemma_model_at(sb, n - 1);
            assert(keys_distinct(done)) by {
                assert forall|i: int, j: int| 0 <= i < j < done.len() implies (#[trigger] done[i]).0@ != (#[trigger] done[j]).0@ by {
                    assert(done[i] == sb[n + i] && done[j] == sb[n + j]);
                }
            }
            assert(keys_distinct(done2)) by {
                assert forall|i: int, j: int| 0 <= i < j < done2.len() implies (#[trigger] done2[i]).0@ != (#[trigger] done2[j]).0@ by {
                    assert(done2[i] == sb[n - 1 + i] && done2[j] == sb[n - 1 + j]);
                }
            }
            assert(!has_key(done, key@)) by {
                if has_key(done, key@) {
                    let i = choose|i: int| 0 <= i < done.len() && (#[trigger] done[i]).0@ == key@;
                    assert(done[i] == sb[n + i]);
                }
            }
            let target = algorithms_model(done).insert(key@, entry_model(entry));
            assert forall|i: int| 0 <= i < done2.len() implies #[trigger] target.contains_key(done2[i].0@)
                && target[done2[i].0@] == entry_model(done2[i].1) by {
                if i > 0 {
                    assert(done2[i] == done[i - 1]);
                    lemma_model_at(done, i - 1);
                } else {
                    assert(done2[0] == (key, entry));
                }
            }
            assert forall|k: Seq<u8>| #[trigger] target.contains_key(k) implies has_key(done2, k) by {
                if k == key@ {
                    assert(done2[0].0@ == k);
                } else {
                    let i = choose|i: int| 0 <= i < done.len() && (#[trigger] done[i]).0@ == k;
                    assert(done2[i + 1] == done[i]);
                }
            }
            lemma_model_equals(done2, target);
            assert(!algorithms_model(done).contains_key(key@));
        }
        match find_algorithm(&mine, key.as_slice()) {
            Some(i) => {
                let ghost before = mine@;
                let (own_key, mut own) = mine.remove(i);
                proof {
                    assert(before[i as int] == (own_key, own));
                    lemma_model_at(before, i as int);
                    assert(cur.contains_key(key@));
                    assert(ma.contains_key(key@));
                    assert(cur[key@] == ma[key@]);
                    assert(mb.contains_key(key@));
                    assert(runs_fit(ma[key@].1, mb[key@].1));
                }
                merge_runs_into(&mut own.frequency_map, &entry.frequency_map);
                mine.insert(i, (own_key, own));
                proof {
                    assert(mine@ =~= before.update(i as int, (own_key, own)));
                    lemma_model_update(before, i as int, (own_key, own));
                    assert(algorithms_model(mine@) =~= merge_models(ma, algorithms_model(done2)));
                }
            },
            None => {
                proof {
                    assert(!cur.contains_key(key@));
                }
                let ghost before = mine@;
                mine.push((key, entry));
                proof {
                    lemma_model_push(before, (key, entry));
                    assert(algorithms_model(mine@) =~= merge_models(ma, algorithms_model(done2)));
                }
            },
        }
        proof {
            assert(theirs@ =~= sb.take(n - 1));
        }
    }
    proof {
        assert(sb.skip(0) =~= sb);
    }
    Some(Checkpoint { time, algorithms: mine })
}


/// The checkpoint after the runs `freqs` of program `key`, named `name`,
/// were recorded at port count `ports`: a program seen before keeps its
/// name, and its counts at that port count are added to.
pub open spec fn recorded(
    m: Map<Seq<u8>, (Seq<char>, Map<usize, Map<usize, usize>>)>,
    key: Seq<u8>,
    name: Seq<char>,
    ports: usize,
    freqs: Map<usize, usize>,
) -> Map<Seq<u8>, (Seq<char>, Map<usize, Map<usize, usize>>)> {
    let entry = if m.contains_key(key) {
        m[key]
    } else {
        (name, Map::empty())
    };
    let counts = if entry.1.contains_key(ports) {
        entry.1[ports]
    } else {
        Map::empty()
    };
    m.insert(key, (entry.0, entry.1.insert(ports, sum_counts(counts, freqs))))
}

/// Whether recording `freqs` for `key` at `ports` keeps every count in the
/// range of a `usize`.
pub open spec fn record_fits(
    m: Map<Seq<u8>, (Seq<char>, Map<usize, Map<usize, usize>>)>,
    key: Seq<u8>,
    ports: usize,
    freqs: Map<usize, usize>,
) -> bool {
    m.contains_key(key) && m[key].1.contains_key(ports) ==> counts_fit(m[key].1[ports], freqs)
}

/// How many runs a checkpoint records for program `key` at `ports`.
pub open spec fn computed_runs(
    m: Map<Seq<u8>, (Seq<char>, Map<usize, Map<usize, usize>>)>,
    key: Seq<u8>,
    ports: usize,
) -> nat {
    if m.contains_key(key) && m[key].1.contains_key(ports) {
        map_total(m[key].1[ports])
    } else {
        0
    }
}

impl Checkpoint {
    /// A checkpoint made at `time` that records nothing.
    pub fn new(time: u64) -> (res: Checkpoint)
        ensures
            res.wf(),
            res.time == time,
            res.model() == Map::<Seq<u8>, (Seq<char>, Map<usize, Map<usize, usize>>)>::empty(),
    {
        let res = Checkpoint { time, algorithms: Vec::new() };
        proof {
            lemma_model_equals(res.algorithms@, Map::empty());
        }
        res
    }

    /// Records the runs `freqs` of a finished program: under its `key`
    /// (a new entry named `name` where the program is new), at `ports`,
    /// the counts are added swap count by swap count. Returns whether it
    /// recorded; it does not where a count would leave the range of a
    /// `usize`, and then leaves the checkpoint as it was.
    pub fn record_runs(&mut self, key: [u8; 32], name: String, ports: usize, freqs: &HashMap<usize, usize>) -> (done: bool)
        requires
            old(self).wf(),
        ensures
            final(self).wf(),
            final(self).time == old(self).time,
            done == record_fits(old(self).model(), key@, ports, freqs@),
            done ==> final(self).model() == recorded(old(self).model(), key@, name@, ports, freqs@),
            !done ==> final(self).model() == old(self).model(),
    {
        let ghost m = self.model();
        match find_algorithm(&self.algorithms, key.as_slice()) {
            Some(i) => {
                proof {
                    lemma_model_at(self.algorithms@, i as int);
                }
                let fits = match self.algorithms[i].1.frequency_map.get(&ports) {
                    Some(c) => counts_fit_exec(c, freqs),
                    None => true,
                };
                if !fits {
                    return false;
                }
                let ghost before = self.algorithms@;
                let (own_key, mut own) = self.algorithms.remove(i);
                let ghost runs0 = runs_view(own.frequency_map);
                proof {
                    assert(before[i as int] == (own_key, own));
                    assert(m[key@] == (own.name@, runs0));
                }
                let mut counts: HashMap<usize, usize> = match own.frequency_map.remove(&ports) {
                    Some(c) => c,
                    None => HashMap::new(),
                };
                add_counts(&mut counts, freqs);
                proof {
                    if runs0.contains_key(ports) {
                        assert(counts@ == sum_counts(runs0[ports], freqs@));
                    } else {
                        assert(counts@ == sum_counts(Map::empty(), freqs@));
                    }
                }
                own.frequency_map.insert(ports, counts);
                proof {
                    assert(runs_view(own.frequency_map) =~= runs0.insert(ports, counts@));
                }
                self.algorithms.insert(i, (own_key, own));
                proof {
                    assert(self.algorithms@ =~= before.update(i as int, (own_key, own)));
                    lemma_model_update(before, i as int, (own_key, own));
                    assert(self.model() =~= recorded(m, key@, name@, ports, freqs@));
                }
                true
            },
            None => {
                let mut counts: HashMap<usize, usize> = HashMap::new();
                add_counts(&mut counts, freqs);
                let mut runs: HashMap<usize, HashMap<usize, usize>> = HashMap::new();
                runs.insert(ports, counts);
                let ghost before = self.algorithms@;
                let entry = CheckpointEntry { name, frequency_map: runs };
                proof {
                    assert(runs_view(entry.frequency_map) =~= Map::<usize, Map<usize, usize>>::empty().insert(
                        ports,
                        sum_counts(Map::empty(), freqs@),
                    ));
                }
                self.algorithms.push((key, entry));
                proof {
                    assert(!m.contains_key(key@));
                    lemma_model_push(before, (key, entry));
                    assert(self.model() =~= recorded(m, key@, name@, ports, freqs@));
                }
                true
            },
        }
    }

    /// How many runs the checkpoint records for program `key` at `ports`
    /// (none where it holds no such entry), or `None` where that number does
    /// not fit in a `usize`.
    pub fn already_computed(&self, key: &[u8], ports: usize) -> (res: Option<usize>)
        requires
            self.wf(),
        ensures
            match res {
                Some(t) => t as nat == computed_runs(self.model(), key@, ports),
                None => computed_runs(self.model(), key@, ports) > usize::MAX,
            },
    {
        match find_algorithm(&self.algorithms, key) {
            Some(i) => {
                proof {
                    lemma_model_at(self.algorithms@, i as int);
                }
                match self.algorithms[i].1.frequency_map.get(&ports) {
                    Some(c) => total_count(c),
                    None => Some(0),
                }
            },
            None => Some(0),
        }
    }
}


/// Every frequency map that a checkpoint model records is finite.
pub open spec fn runs_finite(m: Map<Seq<u8>, (Seq<char>, Map<usize, Map<usize, usize>>)>) -> bool {
    forall|key: Seq<u8>, p: usize| #[trigger] m.contains_key(key) && #[trigger] m[key].1.contains_key(p) ==> m[key].1[p].dom().finite()
}

/// The frequency maps of a checkpoint are finite.
pub proof fn lemma_checkpoint_runs_finite(c: Checkpoint)
    requires
        c.wf(),
    ensures
        runs_finite(c.model()),
{
    assert forall|key: Seq<u8>, p: usize| #[trigger] c.model().contains_key(key) && #[trigger] c.model()[key].1.contains_key(p)
        implies c.model()[key].1[p].dom().finite() by {
        let i = choose|i: int| 0 <= i < c.algorithms@.len() && (#[trigger] c.algorithms@[i]).0@ == key;
        lemma_model_at(c.algorithms@, i);
        let fm = c.algorithms@[i].1.frequency_map;
        assert(fm@.contains_key(p));
        vstd::std_specs::hash::axiom_hashmap_view_finite_dom(fm@[p]);
    }
}

/// Recording the runs of a job adds exactly their number to what the
/// checkpoint holds for that program and port count, and changes nothing
/// for any other program or port count.
pub proof fn lemma_record_adds_runs(
    m: Map<Seq<u8>, (Seq<char>, Map<usize, Map<usize, usize>>)>,
    key: Seq<u8>,
    name: Seq<char>,
    ports: usize,
    freqs: Map<usize, usize>,
    other_key: Seq<u8>,
    other_ports: usize,
)
    requires
        runs_finite(m),
        freqs.dom().finite(),
        record_fits(m, key, ports, freqs),
    ensures
        computed_runs(recorded(m, key, name, ports, freqs), key, ports) == computed_runs(m, key, ports) + map_total(
            freqs,
        ),
        other_key != key || other_ports != ports ==> computed_runs(recorded(m, key, name, ports, freqs), other_key, other_ports)
            == computed_runs(m, other_key, other_ports),
{
    let r = recorded(m, key, name, ports, freqs);
    if m.contains_key(key) && m[key].1.contains_key(ports) {
        lemma_total_sum_counts(m[key].1[ports], freqs);
    } else {
        lemma_total_sum_counts(Map::empty(), freqs);
        assert(Map::<usize, usize>::empty().dom() =~= Set::empty());
    }
}

/// Merging two checkpoints adds up, for every program and port count, the
/// runs that the two hold: none is lost, none is made up.
pub proof fn lemma_merge_adds_runs(
    a: Map<Seq<u8>, (Seq<char>, Map<usize, Map<usize, usize>>)>,
    b: Map<Seq<u8>, (Seq<char>, Map<usize, Map<usize, usize>>)>,
    key: Seq<u8>,
    ports: usize,
)
    requires
        runs_finite(a),
        runs_finite(b),
        models_fit(a, b),
    ensures
        computed_runs(merge_models(a, b), key, ports) == computed_runs(a, key, ports) + computed_runs(b, key, ports),
{
    if a.contains_key(key) && b.contains_key(key) && a[key].1.contains_key(ports) && b[key].1.contains_key(ports) {
        assert(runs_fit(a[key].1, b[key].1));
        lemma_total_sum_counts(a[key].1[ports], b[key].1[ports]);
    }
}

/// Merging with a checkpoint that records nothing changes nothing.
pub proof fn lemma_merge_empty(a: Map<Seq<u8>, (Seq<char>, Map<usize, Map<usize, usize>>)>)
    ensures
        merge_models(a, Map::empty()) == a,
        merge_models(Map::empty(), a) == a,
{
    assert(merge_models(a, Map::empty()) =~= a);
    assert(merge_models(Map::empty(), a) =~= a);
}


/// Merging gives the same counts whichever checkpoint comes first: the same
/// programs, and for each the same runs; only the name of a program that
/// both record may differ. Both orders fit, or neither does.
pub proof fn lemma_merge_counts_symmetric(
    a: Map<Seq<u8>, (Seq<char>, Map<usize, Map<usize, usize>>)>,
    b: Map<Seq<u8>, (Seq<char>, Map<usize, Map<usize, usize>>)>,
)
    ensures
        models_fit(a, b) == models_fit(b, a),
        merge_models(a, b).dom() == merge_models(b, a).dom(),
        forall|key: Seq<u8>| #[trigger] merge_models(a, b).contains_key(key) ==> merge_models(a, b)[key].1
            == merge_models(b, a)[key].1,
{
    assert forall|x: Map<usize, usize>, y: Map<usize, usize>| #[trigger] sum_counts(x, y) == sum_counts(y, x)
        && counts_fit(x, y) == counts_fit(y, x) by {
        assert(sum_counts(x, y) =~= sum_counts(y, x));
    }
    assert forall|x: Map<usize, Map<usize, usize>>, y: Map<usize, Map<usize, usize>>| #[trigger] merge_runs(x, y)
        == merge_runs(y, x) && runs_fit(x, y) == runs_fit(y, x) by {
        assert forall|p: usize| #[trigger] merge_runs(x, y).contains_key(p) implies merge_runs(x, y)[p] == merge_runs(y, x)[p] by {
            if x.contains_key(p) && y.contains_key(p) {
                assert(sum_counts(x[p], y[p]) == sum_counts(y[p], x[p]));
            }
        }
        assert(merge_runs(x, y) =~= merge_runs(y, x));
        if runs_fit(x, y) {
            assert forall|p: usize| #[trigger] y.contains_key(p) && x.contains_key(p) implies counts_fit(y[p], x[p]) by {
                assert(counts_fit(x[p], y[p]) == counts_fit(y[p], x[p]));
            }
        }
        if runs_fit(y, x) {
            assert forall|p: usize| #[trigger] x.contains_key(p) && y.contains_key(p) implies counts_fit(x[p], y[p]) by {
                assert(counts_fit(x[p], y[p]) == counts_fit(y[p], x[p]));
            }
        }
    }
    if models_fit(a, b) {
        assert forall|key: Seq<u8>| #[trigger] b.contains_key(key) && a.contains_key(key) implies runs_fit(b[key].1, a[key].1) by {
            assert(runs_fit(a[key].1, b[key].1) == runs_fit(b[key].1, a[key].1));
        }
    }
    if models_fit(b, a) {
        assert forall|key: Seq<u8>| #[trigger] a.contains_key(key) && b.contains_key(key) implies runs_fit(a[key].1, b[key].1) by {
            assert(runs_fit(a[key].1, b[key].1) == runs_fit(b[key].1, a[key].1));
        }
    }
    assert forall|key: Seq<u8>| #[trigger] merge_models(a, b).contains_key(key) implies merge_models(a, b)[key].1
        == merge_models(b, a)[key].1 by {
        if a.contains_key(key) && b.contains_key(key) {
            assert(merge_runs(a[key].1, b[key].1) == merge_runs(b[key].1, a[key].1));
        }
    }
    assert(merge_models(a, b).dom() =~= merge_models(b, a).dom());
}

impl Checkpoint {
    /// Whether each program is filed once.
    pub fn is_wf(&self) -> (res: bool)
        ensures
            res == self.wf(),
    {
        let n = self.algorithms.len();
        let mut i: usize = 0;
        while i < n
            invariant
                n == self.algorithms@.len(),
                i <= n,
                forall|a: int, b: int| 0 <= a < b < n && a < i ==> (#[trigger] self.algorithms@[a]).0@
                    != (#[trigger] self.algorithms@[b]).0@,
            decreases n - i,
        {
            let mut j: usize = i + 1;
            while j < n
                invariant
                    n == self.algorithms@.len(),
                    i < n,
                    i + 1 <= j <= n,
                    forall|a: int, b: int| 0 <= a < b < n && a < i ==> (#[trigger] self.algorithms@[a]).0@
                        != (#[trigger] self.algorithms@[b]).0@,
                    forall|b: int| i < b < j ==> self.algorithms@[i as int].0@ != (#[trigger] self.algorithms@[b]).0@,
                decreases n - j,
            {
                if same_key(&self.algorithms[i].0, self.algorithms[j].0.as_slice()) {
                    return false;
                }
                j = j + 1;
            }
            i = i + 1;
        }
        true
    }
}

} // verus!
