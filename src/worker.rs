//! The command loop that runs on each worker thread, as a state machine.
use vstd::prelude::*;
use crate::protocol::{TaskError, WorkerAnswer, WorkerCommand};

verus! {

/// The lifecycle of a worker: `Starting`, then `Ready` and `Running` in
/// turn, then `Stopping` before its thread exits.
#[derive(Debug, Clone, Copy, PartialEq, Eq, Structural)]
pub enum WorkerState {
    Starting,
    Ready,
    Running,
    Stopping,
}

/// What the worker thread does after reading a command.
pub enum WorkerStep<T> {
    /// Call the work function on the payload, then hand its outcome to
    /// `WorkerLoop::finish_task`.
    Execute(T),
    /// Post `Stopped` and leave the loop.
    Exit,
}

/// The decisions of one worker thread's loop.
pub struct WorkerLoop {
    state: WorkerState,
}

impl WorkerLoop {
    pub closed spec fn view(&self) -> WorkerState {
        self.state
    }

    /// A loop that has not posted `Started` yet.
    pub fn new() -> (w: Self)
        ensures
            w@ == WorkerState::Starting,
    {
        WorkerLoop { state: WorkerState::Starting }
    }

    /// The current state of the worker.
    pub fn state(&self) -> (r: WorkerState)
        ensures
            r == self@,
    {
        self.state
    }

    /// The thread is up: the answer to post is `Started`, and the worker
    /// waits for commands.
    pub fn start<R>(&mut self) -> (a: WorkerAnswer<R>)
        requires
            old(self)@ == WorkerState::Starting,
        ensures
            final(self)@ == WorkerState::Ready,
            a is Started,
    {
        self.state = WorkerState::Ready;
        WorkerAnswer::Started
    }

    /// Decides what to do with a command read while ready: a task moves the
    /// worker to `Running`, `Stop` to `Stopping`.
    pub fn command<T>(&mut self, cmd: WorkerCommand<T>) -> (s: WorkerStep<T>)
        requires
            old(self)@ == WorkerState::Ready,
        ensures
            match cmd {
                WorkerCommand::RunTask(p) => s == WorkerStep::Execute(p)
                    && final(self)@ == WorkerState::Running,
                WorkerCommand::Stop => s is Exit && final(self)@ == WorkerState::Stopping,
            },
    {
        match cmd {
            WorkerCommand::RunTask(p) => {
                self.state = WorkerState::Running;
                WorkerStep::Execute(p)
            },
            WorkerCommand::Stop => {
                self.state = WorkerState::Stopping;
                WorkerStep::Exit
            },
        }
    }

    /// The work function returned, or failed with the message `Err` holds:
    /// the answer to post is `TaskResult` or `Error`, and the worker is ready
    /// again.
    pub fn finish_task<R>(&mut self, outcome: Result<R, String>) -> (a: WorkerAnswer<R>)
        requires
            old(self)@ == WorkerState::Running,
        ensures
            final(self)@ == WorkerState::Ready,
            match outcome {
                Ok(r) => a == WorkerAnswer::<R>::TaskResult(r),
                Err(e) => a matches WorkerAnswer::Error(TaskError::TaskExecutionFailed(m))
                    && m@ == e@,
            },
    {
        self.state = WorkerState::Ready;
        match outcome {
            Ok(r) => WorkerAnswer::TaskResult(r),
            Err(e) => WorkerAnswer::Error(TaskError::TaskExecutionFailed(e)),
        }
    }

    /// An answer could not be posted: the supervisor is gone, and the
    /// worker leaves its loop.
    pub fn answer_lost(&mut self)
        ensures
            final(self)@ == WorkerState::Stopping,
    {
        self.state = WorkerState::Stopping;
    }
}

} // verus!
