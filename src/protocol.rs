//! Messages exchanged between callers, the supervisor and the workers.
use vstd::prelude::*;

verus! {

/// Why a task did not produce a result.
#[derive(Debug)]
pub enum TaskError {
    /// The worker that held the task exited before answering.
    WorkerUnreachable,
    /// The work function reported a failure, or crashed; the text says why.
    TaskExecutionFailed(String),
}

/// A request sent to the supervisor over the control channel.
pub enum Request<T> {
    /// Stop every worker, then the supervisor.
    Stop,
    /// Stop the worker with this stable id.
    StopThread(u64),
    GetNumberThreads,
    GetNumberRunningThreads,
    /// Start one more worker; the hint says where it would prefer to run.
    AddThread(Option<usize>),
    /// Run the work function on this payload.
    AddTask(T),
}

/// An answer of the supervisor on the control channel.
pub enum Response<R> {
    Stopped,
    StoppedThread(u64),
    NumberThreads(usize),
    NumberRunningThreads(usize),
    /// A worker was started under this stable id.
    ThreadAdded(u64),
    TaskSuccess(R),
    TaskFailure(TaskError),
    Failed,
}

/// A command sent from the supervisor to one worker.
pub enum WorkerCommand<T> {
    RunTask(T),
    Stop,
}

/// An answer sent from a worker to the supervisor.
pub enum WorkerAnswer<R> {
    Started,
    TaskResult(R),
    Error(TaskError),
    Stopped,
}

} // verus!
