//! How the server cuts the runs a program still needs into jobs.
use vstd::prelude::*;
use crate::checkpoint::{computed_runs, Checkpoint};
use crate::digest::{program_digest, sha256};

verus! {

/// One job of a program: its position among the program's jobs, and how
/// many runs it asks for.
#[derive(Debug, Clone, Copy, PartialEq, Eq)]
pub struct Batch {
    pub id: usize,
    pub iterations: usize,
}

/// How many runs are still to do when `requested` are asked for and
/// `already` are on record; `None` where the record already holds enough
/// and the program is skipped.
pub fn remaining_iterations(requested: usize, already: usize) -> (res: Option<usize>)
    ensures
        res == (if already >= requested {
            None::<usize>
        } else {
            Some((requested - already) as usize)
        }),
{
    if already >= requested {
        None
    } else {
        Some(requested - already)
    }
}

/// The number of jobs that `iterations` runs take in batches of
/// `batch_size`: the quotient rounded up.
pub open spec fn batch_count(iterations: nat, batch_size: nat) -> nat {
    iterations / batch_size + if iterations % batch_size != 0 {
        1nat
    } else {
        0nat
    }
}

/// The size of job `i` when `iterations` runs are cut into batches of
/// `batch_size`: full batches first, then what is left over.
pub open spec fn batch_size_at(iterations: nat, batch_size: nat, i: nat) -> nat {
    if i < iterations / batch_size {
        batch_size
    } else {
        iterations % batch_size
    }
}

/// The number of jobs for `iterations` runs in batches of `batch_size`.
pub fn jobs_for(iterations: usize, batch_size: usize) -> (n: usize)
    requires
        batch_size > 0,
    ensures
        n as nat == batch_count(iterations as nat, batch_size as nat),
{
    let full: usize = iterations / batch_size;
    if iterations % batch_size != 0 {
        assert(full * batch_size <= iterations) by (nonlinear_arith)
            requires
                full == iterations / batch_size,
                batch_size > 0,
        ;
        assert(full < iterations) by (nonlinear_arith)
            requires
                full * batch_size <= iterations,
                iterations % batch_size != 0,
                full == iterations / batch_size,
                batch_size > 0,
        ;
        full + 1
    } else {
        full
    }
}

/// Cuts `iterations` runs into jobs of `batch_size` runs, numbered from
/// zero, with one smaller job last for the runs left over.
pub fn plan_batches(iterations: usize, batch_size: usize) -> (plan: Vec<Batch>)
    requires
        batch_size > 0,
    ensures
        plan@.len() == batch_count(iterations as nat, batch_size as nat),
        forall|i: int| 0 <= i < plan@.len() ==> (#[trigger] plan@[i]).id == i
            && plan@[i].iterations == batch_size_at(iterations as nat, batch_size as nat, i as nat),
{
    let full: usize = iterations / batch_size;
    let rest: usize = iterations % batch_size;
    let mut plan: Vec<Batch> = Vec::new();
    let mut id: usize = 0;
    while id < full
        invariant
            id <= full,
            full == iterations / batch_size,
            batch_size > 0,
            plan@.len() == id,
            forall|i: int| 0 <= i < plan@.len() ==> (#[trigger] plan@[i]).id == i
                && plan@[i].iterations == batch_size_at(iterations as nat, batch_size as nat, i as nat),
        decreases full - id,
    {
        plan.push(Batch { id, iterations: batch_size });
        id = id + 1;
    }
    if rest != 0 {
        plan.push(Batch { id: full, iterations: rest });
    }
    plan
}

/// The sizes of the jobs in a plan, added up.
pub open spec fn planned_runs(plan: Seq<Batch>) -> nat
    decreases plan.len(),
{
    if plan.len() == 0 {
        0
    } else {
        planned_runs(plan.drop_last()) + plan.last().iterations as nat
    }
}

/// The first `n` jobs of a plan, all of full size, ask for `n` batches.
proof fn lemma_planned_prefix(plan: Seq<Batch>, iterations: nat, batch_size: nat, n: int)
    requires
        batch_size > 0,
        0 <= n <= plan.len(),
        n <= iterations / batch_size,
        forall|i: int| 0 <= i < plan.len() ==> (#[trigger] plan[i]).iterations == batch_size_at(
            iterations,
            batch_size,
            i as nat,
        ),
    ensures
        planned_runs(plan.take(n)) == n * batch_size,
    decreases n,
{
    if n > 0 {
        lemma_planned_prefix(plan, iterations, batch_size, n - 1);
        assert(plan.take(n).drop_last() =~= plan.take(n - 1));
        assert(plan.take(n).last() == plan[n - 1]);
        assert(plan[n - 1].iterations == batch_size_at(iterations, batch_size, (n - 1) as nat));
        assert(plan[n - 1].iterations == batch_size);
        assert(planned_runs(plan.take(n)) == planned_runs(plan.take(n - 1)) + batch_size);
        assert((n - 1) * batch_size + batch_size == n * batch_size) by (nonlinear_arith);
    } else {
        assert(plan.take(n).len() == 0);
        assert(n * batch_size == 0);
    }
}

/// A plan asks for exactly the runs it was made for.
pub proof fn lemma_plan_covers(plan: Seq<Batch>, iterations: nat, batch_size: nat)
    requires
        batch_size > 0,
        plan.len() == batch_count(iterations, batch_size),
        forall|i: int| 0 <= i < plan.len() ==> (#[trigger] plan[i]).iterations == batch_size_at(
            iterations,
            batch_size,
            i as nat,
        ),
    ensures
        planned_runs(plan) == iterations,
{
    let full = iterations / batch_size;
    assert(full * batch_size + iterations % batch_size == iterations) by (nonlinear_arith)
        requires
            batch_size > 0,
            full == iterations / batch_size,
    ;
    lemma_planned_prefix(plan, iterations, batch_size, full as int);
    if iterations % batch_size != 0 {
        assert(plan.take(full as int + 1).drop_last() =~= plan.take(full as int));
        assert(plan.take(full as int + 1) =~= plan);
    } else {
        assert(plan.take(full as int) =~= plan);
    }
}


/// What the server does with one program.
#[derive(Debug)]
pub enum ProgramPlan {
    /// The checkpoint already holds `already` runs, enough.
    Skip { already: usize },
    /// Run `remaining` more, filed under `key`, cut into `batches`; the
    /// program's bookkeeping expects `jobs` jobs.
    Run { key: [u8; 32], remaining: usize, batches: Vec<Batch>, jobs: usize },
}

/// Plans the runs of a program whose source is `source`, when `requested`
/// runs at `ports` ports are asked for and the checkpoint already holds
/// some under the digest of the source; `None` where the number on record
/// does not fit in a `usize`.
pub fn plan_program(checkpoint: &Checkpoint, source: &[u8], requested: usize, ports: usize, batch_size: usize) -> (res: Option<ProgramPlan>)
    requires
        checkpoint.wf(),
        batch_size > 0,
    ensures
        res is None <==> computed_runs(checkpoint.model(), sha256(source@), ports) > usize::MAX,
        res matches Some(ProgramPlan::Skip { already }) ==> {
            &&& already as nat == computed_runs(checkpoint.model(), sha256(source@), ports)
            &&& already >= requested
        },
        res matches Some(ProgramPlan::Run { key, remaining, batches, jobs }) ==> {
            let done = computed_runs(checkpoint.model(), sha256(source@), ports);
            &&& key@ == sha256(source@)
            &&& done < requested
            &&& remaining == requested - done
            &&& jobs as nat == batch_count(remaining as nat, batch_size as nat)
            &&& batches@.len() == jobs
            &&& forall|i: int| 0 <= i < batches@.len() ==> (#[trigger] batches@[i]).id == i
                && batches@[i].iterations == batch_size_at(remaining as nat, batch_size as nat, i as nat)
        },
{
    let key = program_digest(source);
    let already = match checkpoint.already_computed(key.as_slice(), ports) {
        Some(n) => n,
        None => return None,
    };
    match remaining_iterations(requested, already) {
        None => Some(ProgramPlan::Skip { already }),
        Some(remaining) => {
            let batches = plan_batches(remaining, batch_size);
            let jobs = jobs_for(remaining, batch_size);
            Some(ProgramPlan::Run { key, remaining, batches, jobs })
        },
    }
}

} // verus!
