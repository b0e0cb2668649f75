//! What a worker of the server does with each message of its child
//! process while the child runs a job: forward progress and results of the
//! job to the program's bookkeeping, and keep the extra progress bars that
//! the child asks for.
use vstd::prelude::*;
use crate::structs::{C2SMessage, JobResult, S2CMessage};
use crate::supervisor::JobProgress;

verus! {

/// A job as the server hands it to a worker.
#[derive(Debug)]
pub struct Job {
    pub name: String,
    pub program: String,
    pub iterations: usize,
    pub ports: usize,
    pub id: usize,
}

/// The message that gives a job to a child process: handle zero, the job's
/// runs, ports and program.
pub fn job_message(job: &Job) -> (msg: S2CMessage)
    ensures
        msg matches S2CMessage::Job { job_handle, iterations, ports, program } && job_handle == 0
            && iterations == job.iterations && ports == job.ports && program@ == job.program@,
{
    S2CMessage::Job {
        job_handle: 0,
        iterations: job.iterations,
        ports: job.ports,
        program: job.program.clone(),
    }
}

/// What the worker is to do with a message of its child.
#[derive(Debug)]
pub enum WorkerAction {
    /// Print the text above the progress bars.
    Print(String),
    /// Pass the report on to the program's bookkeeping.
    Report(JobProgress),
    /// Pass the report on; the job is over and the worker takes the next.
    ReportFinal(JobProgress),
    /// Move an extra bar.
    SetHandlePosition { handle: usize, position: usize },
    /// Clear an extra bar whose task succeeded.
    CompleteHandle { handle: usize },
    /// Mark an extra bar as failed.
    FailHandle { handle: usize, time: usize, why: String },
    /// Open an extra bar (a spinner where `max` is zero) and send `reply`.
    OpenHandle { handle: usize, task: String, max: usize, spinner: bool, reply: S2CMessage },
}

/// Why a message cannot be handled (where the server would abort).
#[derive(Debug, PartialEq, Eq)]
pub enum WorkerError {
    /// The message names an extra bar that was never opened.
    UnknownHandle(usize),
    /// No handle number is left for another bar.
    HandlesExhausted,
}

/// The next handle number after the worker has dealt with `msg`: one more
/// after a request for an extra bar (while numbers are left), the same
/// after anything else.
pub open spec fn next_handle_after(next: usize, msg: C2SMessage) -> usize {
    if (msg is RequestExtraJobHandle) && next < usize::MAX {
        (next + 1) as usize
    } else {
        next
    }
}

/// The next handle number of a worker that started afresh and dealt with
/// the messages `msgs`, in order, over all its jobs.
pub open spec fn next_handle_over(msgs: Seq<C2SMessage>) -> usize
    decreases msgs.len(),
{
    if msgs.len() == 0 {
        1
    } else {
        next_handle_after(next_handle_over(msgs.drop_last()), msgs.last())
    }
}

/// The number of requests for an extra bar among `msgs`.
pub open spec fn request_count(msgs: Seq<C2SMessage>) -> nat
    decreases msgs.len(),
{
    if msgs.len() == 0 {
        0
    } else {
        request_count(msgs.drop_last()) + if msgs.last() is RequestExtraJobHandle {
            1nat
        } else {
            0nat
        }
    }
}

/// Over a worker's life, with no reset between jobs, the handles run
/// 1, 2, 3, ...: after some messages the next handle is one more than the
/// number of requests among them, so the request at position `i` is
/// answered with one more than the number of requests before it.
pub proof fn lemma_handles_in_turn(msgs: Seq<C2SMessage>)
    requires
        request_count(msgs) < usize::MAX,
    ensures
        next_handle_over(msgs) == 1 + request_count(msgs),
        forall|i: int| 0 <= i < msgs.len() && (#[trigger] msgs[i] is RequestExtraJobHandle) ==> next_handle_over(msgs.take(i))
            == 1 + request_count(msgs.take(i)),
    decreases msgs.len(),
{
    if msgs.len() > 0 {
        lemma_request_count_prefix(msgs, msgs.len() - 1);
        assert(msgs.take(msgs.len() - 1) =~= msgs.drop_last());
        lemma_handles_in_turn(msgs.drop_last());
        assert forall|i: int| 0 <= i < msgs.len() && (#[trigger] msgs[i] is RequestExtraJobHandle) implies next_handle_over(
            msgs.take(i),
        ) == 1 + request_count(msgs.take(i)) by {
            if i < msgs.len() - 1 {
                assert(msgs.drop_last()[i] == msgs[i]);
                assert(msgs.drop_last().take(i) =~= msgs.take(i));
            }
        }
    }
}

/// A prefix holds no more requests than the whole.
proof fn lemma_request_count_prefix(msgs: Seq<C2SMessage>, i: int)
    requires
        0 <= i <= msgs.len(),
    ensures
        request_count(msgs.take(i)) <= request_count(msgs),
    decreases msgs.len() - i,
{
    if i < msgs.len() {
        lemma_request_count_prefix(msgs, i + 1);
        assert(msgs.take(i + 1).drop_last() =~= msgs.take(i));
    } else {
        assert(msgs.take(i) =~= msgs);
    }
}

/// A worker's record of the extra bars it opened: handles one up to
/// `next_handle`, not included.
#[derive(Debug, Clone, Copy, PartialEq, Eq)]
pub struct WorkerState {
    pub next_handle: usize,
}

impl WorkerState {
    /// A worker that has opened no extra bar.
    pub fn new() -> (res: WorkerState)
        ensures
            res.next_handle == 1,
    {
        WorkerState { next_handle: 1 }
    }

    /// Whether `handle` names an extra bar that was opened.
    pub open spec fn knows(&self, handle: usize) -> bool {
        1 <= handle < self.next_handle
    }

    /// Decides what to do with a message of the child while it runs `job`.
    /// Handle zero stands for the job itself: its progress and result go to
    /// the bookkeeping (a result with the job's full run count as progress,
    /// and ends the job); other handles stand for extra bars. A request
    /// opens the next bar and answers with its handle.
    pub fn handle_message(&mut self, job: &Job, msg: C2SMessage) -> (res: Result<WorkerAction, WorkerError>)
        ensures
            final(self).next_handle == next_handle_after(old(self).next_handle, msg),
            match msg {
                C2SMessage::Log(text) => res == Ok::<WorkerAction, WorkerError>(WorkerAction::Print(text))
                    && *final(self) == *old(self),
                C2SMessage::JobProgress { job_handle, iterations_completed } => {
                    &&& *final(self) == *old(self)
                    &&& if job_handle == 0 {
                        res == Ok::<WorkerAction, WorkerError>(WorkerAction::Report(
                            JobProgress::Progress { id: job.id, progress: iterations_completed },
                        ))
                    } else if old(self).knows(job_handle) {
                        res == Ok::<WorkerAction, WorkerError>(WorkerAction::SetHandlePosition {
                            handle: job_handle,
                            position: iterations_completed,
                        })
                    } else {
                        res == Err::<WorkerAction, WorkerError>(WorkerError::UnknownHandle(job_handle))
                    }
                },
                C2SMessage::JobResult { job_handle, result } => {
                    &&& *final(self) == *old(self)
                    &&& if job_handle == 0 {
                        match result {
                            JobResult::Succeeded { freq, time } => res matches Ok(WorkerAction::ReportFinal(
                                JobProgress::Finished { id, progress, time: t, frequencies },
                            )) && id == job.id && progress == job.iterations && t == time && frequencies@ == freq@,
                            JobResult::Failed { why, time } => res == Ok::<WorkerAction, WorkerError>(
                                WorkerAction::ReportFinal(
                                    JobProgress::Failed { id: job.id, progress: job.iterations, why, time },
                                ),
                            ),
                        }
                    } else if old(self).knows(job_handle) {
                        match result {
                            JobResult::Succeeded { .. } => res == Ok::<WorkerAction, WorkerError>(
                                WorkerAction::CompleteHandle { handle: job_handle },
                            ),
                            JobResult::Failed { why, time } => res == Ok::<WorkerAction, WorkerError>(
                                WorkerAction::FailHandle { handle: job_handle, time, why },
                            ),
                        }
                    } else {
                        res == Err::<WorkerAction, WorkerError>(WorkerError::UnknownHandle(job_handle))
                    }
                },
                C2SMessage::RequestExtraJobHandle { task, max } => {
                    if old(self).next_handle == usize::MAX {
                        res == Err::<WorkerAction, WorkerError>(WorkerError::HandlesExhausted)
                            && *final(self) == *old(self)
                    } else {
                        &&& final(self).next_handle == old(self).next_handle + 1
                        &&& res == Ok::<WorkerAction, WorkerError>(WorkerAction::OpenHandle {
                            handle: old(self).next_handle,
                            task,
                            max,
                            spinner: max == 0,
                            reply: S2CMessage::ExtraJobHandle { job_handle: old(self).next_handle },
                        })
                    }
                },
            },
    {
        match msg {
            C2SMessage::Log(text) => Ok(WorkerAction::Print(text)),
            C2SMessage::JobProgress { job_handle, iterations_completed } => {
                if job_handle == 0 {
                    Ok(WorkerAction::Report(JobProgress::Progress { id: job.id, progress: iterations_completed }))
                } else if job_handle < self.next_handle {
                    Ok(WorkerAction::SetHandlePosition { handle: job_handle, position: iterations_completed })
                } else {
                    Err(WorkerError::UnknownHandle(job_handle))
                }
            },
            C2SMessage::JobResult { job_handle, result } => {
                if job_handle == 0 {
                    match result {
                        JobResult::Succeeded { freq, time } => Ok(WorkerAction::ReportFinal(
                            JobProgress::Finished { id: job.id, progress: job.iterations, time, frequencies: freq },
                        )),
                        JobResult::Failed { why, time } => Ok(WorkerAction::ReportFinal(
                            JobProgress::Failed { id: job.id, progress: job.iterations, why, time },
                        )),
                    }
                } else if job_handle < self.next_handle {
                    match result {
                        JobResult::Succeeded { .. } => Ok(WorkerAction::CompleteHandle { handle: job_handle }),
                        JobResult::Failed { why, time } => Ok(WorkerAction::FailHandle { handle: job_handle, time, why }),
                    }
                } else {
                    Err(WorkerError::UnknownHandle(job_handle))
                }
            },
            C2SMessage::RequestExtraJobHandle { task, max } => {
                if self.next_handle == usize::MAX {
                    return Err(WorkerError::HandlesExhausted);
                }
                let handle = self.next_handle;
                self.next_handle = self.next_handle + 1;
                Ok(WorkerAction::OpenHandle {
                    handle,
                    task,
                    max,
                    spinner: max == 0,
                    reply: S2CMessage::ExtraJobHandle { job_handle: handle },
                })
            },
        }
    }
}

} // verus!
