//! The bookkeeping of a program's jobs while workers run them: progress
//! per job, total time, the swap counts of finished jobs, and whether a
//! job failed. The server feeds it the reports of the workers one by one
//! and shows what it answers.
use vstd::prelude::*;
use std::collections::HashMap;
use crate::counts::{add_counts, counts_fit, counts_fit_exec, sum_counts};

verus! {

broadcast use vstd::std_specs::hash::group_hash_axioms;

/// A report from a worker about one job of a program.
#[derive(Debug, Clone)]
pub enum JobProgress {
    Progress {
        id: usize,
        progress: usize,
    },
    Finished {
        id: usize,
        progress: usize,
        time: usize,
        frequencies: HashMap<usize, usize>,
    },
    Failed {
        id: usize,
        progress: usize,
        why: String,
        time: usize,
    },
}

/// What the progress display is to do after a report.
#[derive(Debug)]
pub enum SupervisorAction {
    /// Move the program's bar to this many runs.
    SetPosition(usize),
    /// The first failure: mark the program failed, with the job's time and
    /// reason, and show a bar of the workers that still have to stop.
    ShowFailure { time: usize, why: String },
    /// A further job stopped after the program failed.
    CountStoppedJob,
}

/// Why a report cannot be taken in (where the server would abort).
#[derive(Debug, PartialEq, Eq)]
pub enum SupervisorError {
    /// The report names a job that the program does not have.
    UnknownJob,
    /// A count would leave the range of a `usize`.
    Overflow,
}

/// How the runs of a program ended, once all its jobs have reported.
#[derive(Debug)]
pub enum SupervisorOutcome {
    Completed { total_time: usize, frequencies: HashMap<usize, usize> },
    Failed { total_time: usize },
}

/// The bookkeeping of one program's jobs.
#[derive(Debug)]
pub struct Supervisor {
    /// The progress each job reported last, by job id.
    pub progresses: Vec<usize>,
    /// The progress shown: the sum of `progresses` as of the last report
    /// that was not a failure.
    pub progress: usize,
    /// The runs the program was given.
    pub iterations: usize,
    /// The time that finished and failed jobs took, added up.
    pub total_time: usize,
    /// The swap counts of the finished jobs, added up.
    pub frequencies: HashMap<usize, usize>,
    /// Whether a job failed.
    pub failed: bool,
}

/// The sum of a list of numbers.
pub open spec fn seq_sum(s: Seq<usize>) -> nat
    decreases s.len(),
{
    if s.len() == 0 {
        0
    } else {
        seq_sum(s.drop_last()) + s.last() as nat
    }
}

/// The sum of a list of numbers, or `None` where it does not fit in a `usize`.
fn checked_sum(v: &Vec<usize>) -> (res: Option<usize>)
    ensures
        match res {
            Some(t) => t as nat == seq_sum(v@),
            None => seq_sum(v@) > usize::MAX,
        },
{
    let mut acc: usize = 0;
    let mut i: usize = 0;
    while i < v.len()
        invariant
            i <= v@.len(),
            acc as nat == seq_sum(v@.take(i as int)),
        decreases v@.len() - i,
    {
        proof {
            assert(v@.take(i + 1).drop_last() =~= v@.take(i as int));
        }
        match acc.checked_add(v[i]) {
            Some(next) => acc = next,
            None => {
                proof {
                    lemma_seq_sum_prefix(v@, i + 1);
                }
                return None;
            },
        }
        i = i + 1;
    }
    proof {
        assert(v@.take(i as int) =~= v@);
    }
    Some(acc)
}

proof fn lemma_seq_sum_prefix(s: Seq<usize>, i: int)
    requires
        0 <= i <= s.len(),
    ensures
        seq_sum(s.take(i)) <= seq_sum(s),
    decreases s.len() - i,
{
    if i < s.len() {
        lemma_seq_sum_prefix(s, i + 1);
        assert(s.take(i + 1).drop_last() =~= s.take(i));
    } else {
        assert(s.take(i) =~= s);
    }
}

impl Supervisor {
    /// The bookkeeping for a program given `iterations` runs in `jobs` jobs:
    /// no progress, no time, no counts, no failure.
    pub fn new(iterations: usize, jobs: usize) -> (res: Supervisor)
        ensures
            res.progresses@ == Seq::new(jobs as nat, |i: int| 0usize),
            res.progress == 0,
            res.iterations == iterations,
            res.total_time == 0,
            res.frequencies@ == Map::<usize, usize>::empty(),
            !res.failed,
    {
        let mut progresses: Vec<usize> = Vec::new();
        let mut i: usize = 0;
        while i < jobs
            invariant
                i <= jobs,
                progresses@ == Seq::new(i as nat, |k: int| 0usize),
            decreases jobs - i,
        {
            progresses.push(0);
            proof {
                assert(progresses@ =~= Seq::new((i + 1) as nat, |k: int| 0usize));
            }
            i = i + 1;
        }
        Supervisor {
            progresses,
            progress: 0,
            iterations,
            total_time: 0,
            frequencies: HashMap::new(),
            failed: false,
        }
    }

    /// Whether every run of the program has been reported.
    pub fn is_done(&self) -> (res: bool)
        ensures
            res == (self.progress == self.iterations),
    {
        self.progress == self.iterations
    }

    /// Takes in a report. A progress report sets the job's progress and
    /// shows the new sum; a finished job does so too, and adds its time and
    /// its swap counts; a failed job sets its progress and adds its time,
    /// leaves the progress shown as it was, and is shown as the program's
    /// failure if it is the first. A report that names an unknown job, or
    /// would take a sum out of the range of a `usize`, is refused and
    /// changes nothing.
    pub fn handle(&mut self, event: JobProgress) -> (res: Result<SupervisorAction, SupervisorError>)
        ensures
            final(self).iterations == old(self).iterations,
            match event {
                JobProgress::Progress { id, progress } => {
                    let updated = old(self).progresses@.update(id as int, progress);
                    if id >= old(self).progresses@.len() {
                        res == Err::<SupervisorAction, SupervisorError>(SupervisorError::UnknownJob) && *final(self) == *old(self)
                    } else if seq_sum(updated) > usize::MAX {
                        res == Err::<SupervisorAction, SupervisorError>(SupervisorError::Overflow) && *final(self) == *old(self)
                    } else {
                        &&& final(self).progresses@ == updated
                        &&& final(self).progress as nat == seq_sum(updated)
                        &&& res == Ok::<SupervisorAction, SupervisorError>(SupervisorAction::SetPosition(final(self).progress))
                        &&& final(self).total_time == old(self).total_time
                        &&& final(self).frequencies@ == old(self).frequencies@
                        &&& final(self).failed == old(self).failed
                    }
                },
                JobProgress::Finished { id, progress, time, frequencies } => {
                    let updated = old(self).progresses@.update(id as int, progress);
                    if id >= old(self).progresses@.len() {
                        res == Err::<SupervisorAction, SupervisorError>(SupervisorError::UnknownJob) && *final(self) == *old(self)
                    } else if seq_sum(updated) > usize::MAX || old(self).total_time + time > usize::MAX
                        || !counts_fit(old(self).frequencies@, frequencies@) {
                        res == Err::<SupervisorAction, SupervisorError>(SupervisorError::Overflow) && *final(self) == *old(self)
                    } else {
                        &&& final(self).progresses@ == updated
                        &&& final(self).progress as nat == seq_sum(updated)
                        &&& res == Ok::<SupervisorAction, SupervisorError>(SupervisorAction::SetPosition(final(self).progress))
                        &&& final(self).total_time == old(self).total_time + time
                        &&& final(self).frequencies@ == sum_counts(old(self).frequencies@, frequencies@)
                        &&& final(self).failed == old(self).failed
                    }
                },
                JobProgress::Failed { id, progress, why, time } => {
                    if id >= old(self).progresses@.len() {
                        res == Err::<SupervisorAction, SupervisorError>(SupervisorError::UnknownJob) && *final(self) == *old(self)
                    } else if old(self).total_time + time > usize::MAX {
                        res == Err::<SupervisorAction, SupervisorError>(SupervisorError::Overflow) && *final(self) == *old(self)
                    } else {
                        &&& final(self).progresses@ == old(self).progresses@.update(id as int, progress)
                        &&& final(self).progress == old(self).progress
                        &&& final(self).total_time == old(self).total_time + time
                        &&& final(self).frequencies@ == old(self).frequencies@
                        &&& final(self).failed
                        &&& res matches Ok(action) && if old(self).failed {
                            action is CountStoppedJob
                        } else {
                            action == SupervisorAction::ShowFailure { time, why }
                        }
                    }
                },
            },
    {
        match event {
            JobProgress::Progress { id, progress } => {
                if id >= self.progresses.len() {
                    return Err(SupervisorError::UnknownJob);
                }
                let mut updated = self.progresses.clone();
                updated.set(id, progress);
                match checked_sum(&updated) {
                    None => Err(SupervisorError::Overflow),
                    Some(sum) => {
                        self.progresses = updated;
                        self.progress = sum;
                        Ok(SupervisorAction::SetPosition(sum))
                    },
                }
            },
            JobProgress::Finished { id, progress, time, frequencies } => {
                if id >= self.progresses.len() {
                    return Err(SupervisorError::UnknownJob);
                }
                let mut updated = self.progresses.clone();
                updated.set(id, progress);
                let sum = match checked_sum(&updated) {
                    None => return Err(SupervisorError::Overflow),
                    Some(sum) => sum,
                };
                if time > usize::MAX - self.total_time {
                    return Err(SupervisorError::Overflow);
                }
                if !counts_fit_exec(&self.frequencies, &frequencies) {
                    return Err(SupervisorError::Overflow);
                }
                self.progresses = updated;
                self.progress = sum;
                self.total_time = self.total_time + time;
                add_counts(&mut self.frequencies, &frequencies);
                Ok(SupervisorAction::SetPosition(sum))
            },
            JobProgress::Failed { id, progress, why, time } => {
                if id >= self.progresses.len() {
                    return Err(SupervisorError::UnknownJob);
                }
                if time > usize::MAX - self.total_time {
                    return Err(SupervisorError::Overflow);
                }
                self.progresses.set(id, progress);
                self.total_time = self.total_time + time;
                if self.failed {
                    Ok(SupervisorAction::CountStoppedJob)
                } else {
                    self.failed = true;
                    Ok(SupervisorAction::ShowFailure { time, why })
                }
            },
        }
    }

    /// How the program's runs ended: failed if any job failed, otherwise
    /// completed with the swap counts of all its jobs; with the time that
    /// the jobs took.
    pub fn finish(self) -> (res: SupervisorOutcome)
        ensures
            match res {
                SupervisorOutcome::Completed { total_time, frequencies } => {
                    !self.failed && total_time == self.total_time && frequencies@ == self.frequencies@
                },
                SupervisorOutcome::Failed { total_time } => self.failed && total_time == self.total_time,
            },
    {
        if self.failed {
            SupervisorOutcome::Failed { total_time: self.total_time }
        } else {
            SupervisorOutcome::Completed { total_time: self.total_time, frequencies: self.frequencies }
        }
    }
}

} // verus!
