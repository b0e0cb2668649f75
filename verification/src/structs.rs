//! The messages that travel between the server and its child processes.
use vstd::prelude::*;
use std::collections::HashMap;

verus! {

/// How a job ended in a child process.
#[derive(Debug)]
pub enum JobResult {
    Succeeded {
        freq: HashMap<usize, usize>,
        time: usize,
    },
    Failed {
        why: String,
        time: usize,
    },
}

/// A message from a child process to the server.
#[derive(Debug)]
pub enum C2SMessage {
    /// Log a message to the user's screen.
    Log(String),
    /// Report progress to the server.
    JobProgress {
        job_handle: usize,
        iterations_completed: usize,
    },
    /// Report the result of a job to the server.
    JobResult {
        job_handle: usize,
        result: JobResult,
    },
    /// Request an extra job handle so clients can give more fine-grained progress bars.
    RequestExtraJobHandle { task: String, max: usize },
}

/// A message from the server to a child process.
#[derive(Debug)]
pub enum S2CMessage {
    /// Send a job to the client.
    Job {
        job_handle: usize,
        iterations: usize,
        ports: usize,
        program: String,
    },
    /// Response to extra job handle request.
    ExtraJobHandle { job_handle: usize },
    /// Tell the client to exit.
    Finish,
}

} // verus!
