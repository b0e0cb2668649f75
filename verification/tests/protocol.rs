use chrommydoggymommy::client::{child_dispatch, ChildCommand, ChildJob, PortBoard};
use chrommydoggymommy::planning::{jobs_for, plan_batches, remaining_iterations, Batch};
use chrommydoggymommy::structs::{C2SMessage, JobResult, S2CMessage};
use chrommydoggymommy::supervisor::{JobProgress, Supervisor, SupervisorAction, SupervisorError, SupervisorOutcome};
use chrommydoggymommy::worker::{job_message, Job, WorkerAction, WorkerError, WorkerState};
use std::collections::HashMap;

fn freq(pairs: &[(usize, usize)]) -> HashMap<usize, usize> {
    pairs.iter().cloned().collect()
}

#[test]
fn batches_cover_the_runs() {
    let plan = plan_batches(23, 5);
    assert_eq!(plan.len(), jobs_for(23, 5));
    assert_eq!(plan.iter().map(|b| b.iterations).sum::<usize>(), 23);
    assert_eq!(plan[4], Batch { id: 4, iterations: 3 });
    assert_eq!(plan_batches(20, 5).len(), 4);
    assert_eq!(plan_batches(0, 5), vec![]);
}

#[test]
fn remaining_runs() {
    assert_eq!(remaining_iterations(100, 40), Some(60));
    assert_eq!(remaining_iterations(100, 100), None);
    assert_eq!(remaining_iterations(100, 120), None);
}

#[test]
fn supervisor_sums_progress_and_counts() {
    let mut s = Supervisor::new(6, 2);
    assert!(matches!(s.handle(JobProgress::Progress { id: 0, progress: 2 }), Ok(SupervisorAction::SetPosition(2))));
    assert!(!s.is_done());
    let r = s.handle(JobProgress::Finished { id: 1, progress: 3, time: 40, frequencies: freq(&[(5, 3)]) });
    assert!(matches!(r, Ok(SupervisorAction::SetPosition(5))));
    let r = s.handle(JobProgress::Finished { id: 0, progress: 3, time: 2, frequencies: freq(&[(5, 1), (6, 2)]) });
    assert!(matches!(r, Ok(SupervisorAction::SetPosition(6))));
    assert!(s.is_done());
    match s.finish() {
        SupervisorOutcome::Completed { total_time, frequencies } => {
            assert_eq!(total_time, 42);
            assert_eq!(frequencies, freq(&[(5, 4), (6, 2)]));
        }
        other => panic!("unexpected {other:?}"),
    }
}

#[test]
fn supervisor_failure_keeps_shown_progress() {
    let mut s = Supervisor::new(4, 2);
    s.handle(JobProgress::Progress { id: 0, progress: 1 }).unwrap();
    let r = s.handle(JobProgress::Failed { id: 1, progress: 2, why: "boom".to_string(), time: 7 });
    match r {
        Ok(SupervisorAction::ShowFailure { time, why }) => {
            assert_eq!(time, 7);
            assert_eq!(why, "boom");
        }
        other => panic!("unexpected {other:?}"),
    }
    assert_eq!(s.progress, 1);
    assert_eq!(s.progresses, vec![1, 2]);
    let r = s.handle(JobProgress::Failed { id: 0, progress: 2, why: "again".to_string(), time: 1 });
    assert!(matches!(r, Ok(SupervisorAction::CountStoppedJob)));
    assert!(matches!(s.finish(), SupervisorOutcome::Failed { total_time: 8 }));
}

#[test]
fn supervisor_refuses_unknown_job() {
    let mut s = Supervisor::new(4, 2);
    assert!(matches!(s.handle(JobProgress::Progress { id: 2, progress: 1 }), Err(SupervisorError::UnknownJob)));
    assert_eq!(s.progresses, vec![0, 0]);
}

#[test]
fn supervisor_refuses_overflow() {
    let mut s = Supervisor::new(4, 2);
    s.handle(JobProgress::Progress { id: 0, progress: usize::MAX }).unwrap();
    assert!(matches!(s.handle(JobProgress::Progress { id: 1, progress: 1 }), Err(SupervisorError::Overflow)));
}

fn job() -> Job {
    Job { name: "p".to_string(), program: "code".to_string(), iterations: 4, ports: 17, id: 3 }
}

#[test]
fn job_message_carries_the_job() {
    match job_message(&job()) {
        S2CMessage::Job { job_handle, iterations, ports, program } => {
            assert_eq!((job_handle, iterations, ports, program.as_str()), (0, 4, 17, "code"));
        }
        other => panic!("unexpected {other:?}"),
    }
}

#[test]
fn worker_forwards_job_progress_and_result() {
    let mut w = WorkerState::new();
    let j = job();
    let r = w.handle_message(&j, C2SMessage::JobProgress { job_handle: 0, iterations_completed: 2 });
    assert!(matches!(r, Ok(WorkerAction::Report(JobProgress::Progress { id: 3, progress: 2 }))));
    let r = w.handle_message(
        &j,
        C2SMessage::JobResult { job_handle: 0, result: JobResult::Succeeded { freq: freq(&[(1, 4)]), time: 9 } },
    );
    match r {
        Ok(WorkerAction::ReportFinal(JobProgress::Finished { id, progress, time, frequencies })) => {
            assert_eq!((id, progress, time), (3, 4, 9));
            assert_eq!(frequencies, freq(&[(1, 4)]));
        }
        other => panic!("unexpected {other:?}"),
    }
    let r = w.handle_message(&j, C2SMessage::Log("hi".to_string()));
    assert!(matches!(r, Ok(WorkerAction::Print(ref t)) if t == "hi"));
}

#[test]
fn worker_opens_extra_handles_in_turn() {
    let mut w = WorkerState::new();
    let j = job();
    for expected in 1..=2usize {
        let r = w.handle_message(&j, C2SMessage::RequestExtraJobHandle { task: "t".to_string(), max: 0 });
        match r {
            Ok(WorkerAction::OpenHandle { handle, spinner, reply: S2CMessage::ExtraJobHandle { job_handle }, .. }) => {
                assert_eq!(handle, expected);
                assert_eq!(job_handle, expected);
                assert!(spinner);
            }
            other => panic!("unexpected {other:?}"),
        }
    }
    let r = w.handle_message(&j, C2SMessage::JobProgress { job_handle: 2, iterations_completed: 5 });
    assert!(matches!(r, Ok(WorkerAction::SetHandlePosition { handle: 2, position: 5 })));
    let r = w.handle_message(&j, C2SMessage::JobProgress { job_handle: 3, iterations_completed: 5 });
    assert_eq!(r.unwrap_err(), WorkerError::UnknownHandle(3));
    let r = w.handle_message(
        &j,
        C2SMessage::JobResult { job_handle: 1, result: JobResult::Failed { why: "x".to_string(), time: 2 } },
    );
    assert!(matches!(r, Ok(WorkerAction::FailHandle { handle: 1, time: 2, .. })));
}

#[test]
fn worker_handles_continue_across_jobs() {
    let mut w = WorkerState::new();
    let first = job();
    let second = Job { name: "q".to_string(), program: "other".to_string(), iterations: 2, ports: 5, id: 0 };
    let mut given = Vec::new();
    for j in [&first, &first, &second, &second] {
        match w.handle_message(j, C2SMessage::RequestExtraJobHandle { task: "t".to_string(), max: 3 }) {
            Ok(WorkerAction::OpenHandle { handle, spinner, .. }) => {
                assert!(!spinner);
                given.push(handle);
            }
            other => panic!("unexpected {other:?}"),
        }
        w.handle_message(j, C2SMessage::Log("between".to_string())).unwrap();
    }
    assert_eq!(given, vec![1, 2, 3, 4]);
}

#[test]
fn board_counts_misplaced_cables() {
    let mut b = PortBoard { order: vec![1, 0, 2, 4, 3], wrong: 4, swaps: 0 };
    assert_eq!(b.query(), 4);
    b.swap(0, 1);
    assert_eq!(b.query(), 2);
    assert_eq!(b.order, vec![0, 1, 2, 4, 3]);
    b.swap(2, 2);
    assert_eq!(b.query(), 2);
    b.swap(3, 4);
    assert_eq!(b.query(), 0);
    assert!(b.is_sorted());
    assert_eq!(b.swaps, 3);
}

#[test]
fn board_swap_out_of_place() {
    let mut b = PortBoard { order: vec![0, 1, 2], wrong: 0, swaps: 0 };
    b.swap(0, 2);
    assert_eq!(b.query(), 2);
    assert!(!b.is_sorted());
    b.swap(0, 2);
    assert_eq!(b.query(), 0);
}

#[test]
fn shuffled_board_holds_every_cable() {
    let b = PortBoard::new_shuffled(50);
    let mut seen = b.order.clone();
    seen.sort();
    assert_eq!(seen, (0..50).collect::<Vec<usize>>());
    let wrong = b.order.iter().enumerate().filter(|(i, c)| *i != **c).count();
    assert_eq!(b.query(), wrong);
    assert_eq!(b.swaps, 0);
    // fifty cables all left in place by chance would be a one in 50! event
    assert!(b.query() > 0);
    assert!(!b.is_sorted());
}

#[test]
fn child_job_counts_runs() {
    let mut j = ChildJob::new(0, 3);
    assert!(matches!(j.record_success(5), C2SMessage::JobProgress { job_handle: 0, iterations_completed: 1 }));
    assert!(matches!(j.record_success(7), C2SMessage::JobProgress { job_handle: 0, iterations_completed: 2 }));
    assert!(matches!(j.record_success(5), C2SMessage::JobProgress { iterations_completed: 3, .. }));
    assert!(j.is_done());
    match j.finish(30) {
        C2SMessage::JobResult { job_handle: 0, result: JobResult::Succeeded { freq: f, time: 30 } } => {
            assert_eq!(f, freq(&[(5, 2), (7, 1)]));
        }
        other => panic!("unexpected {other:?}"),
    }
}

#[test]
fn child_job_failure_is_its_only_result() {
    let mut j = ChildJob::new(4, 3);
    j.record_success(5);
    match j.record_failure("bad".to_string(), 12) {
        C2SMessage::JobResult { job_handle: 4, result: JobResult::Failed { why, time: 12 } } => {
            assert_eq!(why, "bad");
        }
        other => panic!("unexpected {other:?}"),
    }
}

#[test]
fn child_dispatch_of_messages() {
    assert!(matches!(child_dispatch(S2CMessage::Finish), ChildCommand::Exit));
    match child_dispatch(S2CMessage::Job { job_handle: 0, iterations: 2, ports: 9, program: "p".to_string() }) {
        ChildCommand::Run { job, program, ports } => {
            assert_eq!((job.iterations, job.completed, ports, program.as_str()), (2, 0, 9, "p"));
        }
        other => panic!("unexpected {other:?}"),
    }
    assert!(matches!(
        child_dispatch(S2CMessage::ExtraJobHandle { job_handle: 1 }),
        ChildCommand::Unexpected(S2CMessage::ExtraJobHandle { job_handle: 1 })
    ));
}
