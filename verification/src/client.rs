//! The child process's side: the port board that a tested program sorts
//! through `query()` and `swap(i, j)`, and the bookkeeping of a job.
use vstd::prelude::*;
use std::collections::HashMap;
use rand::seq::SliceRandom;
use crate::counts::{count_of, lemma_total_insert, map_total};
use crate::structs::{C2SMessage, JobResult, S2CMessage};

verus! {

broadcast use vstd::std_specs::hash::group_hash_axioms;

/// The number of ports whose cable is not in its place: positions `i`
/// of `s` that do not hold `i`.
pub open spec fn misplaced(s: Seq<usize>) -> nat
    decreases s.len(),
{
    if s.len() == 0 {
        0
    } else {
        misplaced(s.drop_last()) + if s.last() != (s.len() - 1) as usize {
            1nat
        } else {
            0nat
        }
    }
}

/// The cables in order: position `i` holds cable `i`.
pub open spec fn identity(n: nat) -> Seq<usize> {
    Seq::new(n, |i: int| i as usize)
}

/// `s` holds each cable `0..n` once, where `n` is its length.
pub open spec fn is_arrangement(s: Seq<usize>) -> bool {
    s.to_multiset() == identity(s.len()).to_multiset()
}

/// Each position holds its own cable.
pub open spec fn is_in_order(s: Seq<usize>) -> bool {
    forall|i: int| 0 <= i < s.len() ==> s[i] == i
}

/// The board after swapping the cables at positions `i` and `j`.
pub open spec fn swapped(s: Seq<usize>, i: int, j: int) -> Seq<usize> {
    s.update(i, s[j]).update(j, s[i])
}

pub proof fn lemma_misplaced_bound(s: Seq<usize>)
    ensures
        misplaced(s) <= s.len(),
    decreases s.len(),
{
    if s.len() > 0 {
        lemma_misplaced_bound(s.drop_last());
    }
}

/// Putting `a` at position `i` changes the count of misplaced cables only
/// by what position `i` was and becomes.
pub proof fn lemma_misplaced_update(s: Seq<usize>, i: int, a: usize)
    requires
        0 <= i < s.len(),
    ensures
        misplaced(s.update(i, a)) + (if s[i] != i as usize { 1int } else { 0int }) == misplaced(s) + (if a
            != i as usize { 1int } else { 0int }),
    decreases s.len(),
{
    let t = s.update(i, a);
    if i == s.len() - 1 {
        assert(t.drop_last() =~= s.drop_last());
    } else {
        assert(t.drop_last() =~= s.drop_last().update(i, a));
        lemma_misplaced_update(s.drop_last(), i, a);
    }
}

/// No cable is misplaced exactly where all are in order.
pub proof fn lemma_misplaced_zero(s: Seq<usize>)
    requires
        s.len() <= usize::MAX + 1,
    ensures
        misplaced(s) == 0 <==> is_in_order(s),
    decreases s.len(),
{
    if s.len() > 0 {
        lemma_misplaced_zero(s.drop_last());
        if is_in_order(s) {
            assert(is_in_order(s.drop_last()));
        }
        if misplaced(s) == 0 {
            assert forall|i: int| 0 <= i < s.len() implies s[i] == i by {
                if i < s.len() - 1 {
                    assert(s.drop_last()[i] == s[i]);
                }
            }
        }
    }
}

/// Swapping the same two positions again restores the board.
pub proof fn lemma_swap_twice(s: Seq<usize>, i: int, j: int)
    requires
        0 <= i < s.len(),
        0 <= j < s.len(),
    ensures
        swapped(swapped(s, i, j), i, j) == s,
{
    assert(swapped(swapped(s, i, j), i, j) =~= s);
}

/// `SliceRandom::shuffle` of rand with the thread's generator: the same
/// cables in an order left to chance.
#[verifier::external_body]
fn shuffle(order: &mut Vec<usize>)
    ensures
        final(order)@.to_multiset() == old(order)@.to_multiset(),
        final(order)@.len() == old(order)@.len(),
{
    order.as_mut_slice().shuffle(&mut rand::thread_rng())
}

/// The board of a run: where each cable is, how many are misplaced, how
/// many swaps the program made.
#[derive(Debug)]
pub struct PortBoard {
    pub order: Vec<usize>,
    pub wrong: usize,
    pub swaps: usize,
}

impl PortBoard {
    /// The board holds each cable once and counts its misplaced cables.
    pub open spec fn wf(&self) -> bool {
        &&& is_arrangement(self.order@)
        &&& self.wrong == misplaced(self.order@)
    }

    /// A board of `ports` cables in an order left to chance, no swap made.
    pub fn new_shuffled(ports: usize) -> (board: PortBoard)
        ensures
            board.wf(),
            board.order@.len() == ports,
            board.swaps == 0,
    {
        let mut order: Vec<usize> = Vec::new();
        let mut i: usize = 0;
        while i < ports
            invariant
                i <= ports,
                order@ == identity(i as nat),
            decreases ports - i,
        {
            order.push(i);
            proof {
                assert(order@ =~= identity((i + 1) as nat));
            }
            i = i + 1;
        }
        shuffle(&mut order);
        PortBoard::from_order(order)
    }

    /// The board that holds the cables in `order`, with its misplaced
    /// cables counted and no swap made.
    pub fn from_order(order: Vec<usize>) -> (board: PortBoard)
        requires
            is_arrangement(order@),
        ensures
            board.wf(),
            board.order@ == order@,
            board.wrong as nat == misplaced(order@),
            board.swaps == 0,
    {
        let mut wrong: usize = 0;
        let mut j: usize = 0;
        while j < order.len()
            invariant
                j <= order@.len(),
                wrong as nat == misplaced(order@.take(j as int)),
            decreases order@.len() - j,
        {
            proof {
                assert(order@.take(j + 1).drop_last() =~= order@.take(j as int));
                lemma_misplaced_bound(order@.take(j as int));
            }
            if order[j] != j {
                wrong = wrong + 1;
            }
            j = j + 1;
        }
        proof {
            assert(order@.take(j as int) =~= order@);
        }
        PortBoard { order, wrong, swaps: 0 }
    }

    /// What `query()` answers: how many cables are misplaced.
    pub fn query(&self) -> (n: usize)
        requires
            self.wf(),
        ensures
            n as nat == misplaced(self.order@),
    {
        self.wrong
    }

    /// What `swap(first, second)` does: swaps the cables at the two
    /// positions, counts the swap, and updates the number of misplaced
    /// cables from what the two positions were and became.
    pub fn swap(&mut self, first: usize, second: usize)
        requires
            old(self).wf(),
            first < old(self).order@.len(),
            second < old(self).order@.len(),
            old(self).swaps < usize::MAX,
        ensures
            final(self).wf(),
            final(self).order@ == swapped(old(self).order@, first as int, second as int),
            final(self).swaps == old(self).swaps + 1,
    {
        let ghost s0 = self.order@;
        let first_item = self.order[first];
        let second_item = self.order[second];
        self.order.set(first, second_item);
        self.order.set(second, first_item);
        let ghost s1 = s0.update(first as int, s0[second as int]);
        proof {
            assert(self.order@ == s1.update(second as int, s0[first as int]));
            lemma_misplaced_update(s0, first as int, s0[second as int]);
            lemma_misplaced_update(s1, second as int, s0[first as int]);
            lemma_misplaced_bound(self.order@);
            vstd::seq_lib::to_multiset_update(s0, first as int, s0[second as int]);
            vstd::seq_lib::to_multiset_update(s1, second as int, s0[first as int]);
            broadcast use vstd::multiset::group_multiset_axioms;
            broadcast use vstd::seq_lib::to_multiset_contains;
            assert(s0.contains(s0[first as int]));
            assert(s1.contains(s1[second as int]));
            assert(s0.to_multiset().count(s0[first as int]) > 0);
            assert(s1.to_multiset().count(s1[second as int]) > 0);
            assert(self.order@.to_multiset() =~= s0.to_multiset());
        }
        // a position joins the misplaced ones where it held its own cable
        // and gave it away; it leaves them where it receives its own cable
        let mut plus: usize = 0;
        let mut minus: usize = 0;
        if first == self.order[second] {
            plus = plus + 1;
        }
        if second == self.order[first] {
            plus = plus + 1;
        }
        if first == self.order[first] {
            minus = minus + 1;
        }
        if second == self.order[second] {
            minus = minus + 1;
        }
        proof {
            if first == second {
                assert(self.order@ =~= s0);
            }
            assert(misplaced(self.order@) as int == self.wrong as int + plus as int - minus as int);
        }
        let len = self.order.len();
        assert(misplaced(self.order@) <= len);
        if minus <= self.wrong {
            self.wrong = self.wrong - minus + plus;
        } else {
            self.wrong = self.wrong + plus - minus;
        }
        self.swaps = self.swaps + 1;
    }

    /// Whether every cable is in its place; on a well-formed board, exactly
    /// where `query()` answers zero.
    pub fn is_sorted(&self) -> (res: bool)
        ensures
            res == is_in_order(self.order@),
            self.wf() ==> (res <==> self.wrong == 0),
    {
        let _cables: usize = self.order.len();
        proof {
            lemma_misplaced_zero(self.order@);
        }
        let mut i: usize = 0;
        while i < self.order.len()
            invariant
                i <= self.order@.len(),
                forall|j: int| 0 <= j < i ==> self.order@[j] == j,
                misplaced(self.order@) == 0 <==> is_in_order(self.order@),
            decreases self.order@.len() - i,
        {
            if self.order[i] != i {
                return false;
            }
            i = i + 1;
        }
        true
    }
}

/// A child's bookkeeping of one job: how many runs it made and the swap
/// counts of those that sorted.
#[derive(Debug)]
pub struct ChildJob {
    pub job_handle: usize,
    pub iterations: usize,
    pub completed: usize,
    pub freq: HashMap<usize, usize>,
}

impl ChildJob {
    /// Every run made so far sorted and is counted, and no more runs are
    /// made than the job asks for.
    pub open spec fn wf(&self) -> bool {
        &&& self.completed <= self.iterations
        &&& map_total(self.freq@) == self.completed
        &&& forall|k: usize| #[trigger] self.freq@.contains_key(k) ==> self.freq@[k] <= self.completed
    }

    /// A job of `iterations` runs under `job_handle`, none made yet.
    pub fn new(job_handle: usize, iterations: usize) -> (res: ChildJob)
        ensures
            res.wf(),
            res.job_handle == job_handle,
            res.iterations == iterations,
            res.completed == 0,
            res.freq@ == Map::<usize, usize>::empty(),
    {
        ChildJob { job_handle, iterations, completed: 0, freq: HashMap::new() }
    }

    /// Whether every run of the job has been made.
    pub fn is_done(&self) -> (res: bool)
        ensures
            res == (self.completed == self.iterations),
    {
        self.completed == self.iterations
    }

    /// A run sorted the board in `swaps` swaps: count it, and report the
    /// number of runs completed so far as the job's progress.
    pub fn record_success(&mut self, swaps: usize) -> (msg: C2SMessage)
        requires
            old(self).wf(),
            old(self).completed < old(self).iterations,
        ensures
            final(self).wf(),
            final(self).job_handle == old(self).job_handle,
            final(self).iterations == old(self).iterations,
            final(self).completed == old(self).completed + 1,
            final(self).freq@ == old(self).freq@.insert(swaps, (count_of(old(self).freq@, swaps) + 1) as usize),
            msg == (C2SMessage::JobProgress {
                job_handle: final(self).job_handle,
                iterations_completed: final(self).completed,
            }),
    {
        let count: usize = match self.freq.get(&swaps) {
            Some(c) => *c,
            None => 0,
        };
        proof {
            lemma_total_insert(self.freq@, swaps, (count + 1) as usize);
        }
        self.freq.insert(swaps, count + 1);
        self.completed = self.completed + 1;
        C2SMessage::JobProgress { job_handle: self.job_handle, iterations_completed: self.completed }
    }

    /// A run failed for the reason `why` after `time` milliseconds into the
    /// job: the job ends here, and this failure is its one and only result.
    /// The job is used up, so no further report can be made for it.
    pub fn record_failure(self, why: String, time: usize) -> (msg: C2SMessage)
        ensures
            msg == (C2SMessage::JobResult {
                job_handle: self.job_handle,
                result: JobResult::Failed { why, time },
            }),
    {
        C2SMessage::JobResult { job_handle: self.job_handle, result: JobResult::Failed { why, time } }
    }

    /// The report that closes a job all of whose runs sorted, after `time`
    /// milliseconds: success, with the swap counts of all its runs. The job
    /// is used up.
    pub fn finish(self, time: usize) -> (msg: C2SMessage)
        requires
            self.wf(),
            self.completed == self.iterations,
        ensures
            msg matches C2SMessage::JobResult { job_handle, result: JobResult::Succeeded { freq, time: t } }
                && job_handle == self.job_handle && freq@ == self.freq@ && t == time
                && map_total(freq@) == self.iterations,
    {
        C2SMessage::JobResult { job_handle: self.job_handle, result: JobResult::Succeeded { freq: self.freq, time } }
    }
}

/// What a child does with a message from the server.
#[derive(Debug)]
pub enum ChildCommand {
    /// Stop.
    Exit,
    /// Run the job: the program on boards of `ports` cables.
    Run { job: ChildJob, program: String, ports: usize },
    /// A message a child does not expect.
    Unexpected(S2CMessage),
}

/// Decides what a child does with a message from the server.
pub fn child_dispatch(msg: S2CMessage) -> (cmd: ChildCommand)
    ensures
        match msg {
            S2CMessage::Finish => cmd is Exit,
            S2CMessage::Job { job_handle, iterations, ports, program } => cmd matches ChildCommand::Run {
                job,
                program: p,
                ports: q,
            } && job.wf() && job.job_handle == job_handle && job.iterations == iterations && job.completed == 0
                && job.freq@ == Map::<usize, usize>::empty() && p == program && q == ports,
            S2CMessage::ExtraJobHandle { .. } => cmd matches ChildCommand::Unexpected(m) && m == msg,
        },
{
    match msg {
        S2CMessage::Finish => ChildCommand::Exit,
        S2CMessage::Job { job_handle, iterations, ports, program } => ChildCommand::Run {
            job: ChildJob::new(job_handle, iterations),
            program,
            ports,
        },
        S2CMessage::ExtraJobHandle { job_handle } => ChildCommand::Unexpected(
            S2CMessage::ExtraJobHandle { job_handle },
        ),
    }
}

} // verus!
