use threadpool::protocol::{TaskError, WorkerAnswer, WorkerCommand};
use threadpool::worker::{WorkerLoop, WorkerState, WorkerStep};

#[test]
fn worker_loop_runs_a_task_then_stops() {
    let mut w = WorkerLoop::new();
    assert_eq!(w.state(), WorkerState::Starting);
    let started: WorkerAnswer<u32> = w.start();
    assert!(matches!(started, WorkerAnswer::Started));
    assert_eq!(w.state(), WorkerState::Ready);
    let step = w.command(WorkerCommand::RunTask(3u32));
    assert!(matches!(step, WorkerStep::Execute(3)));
    assert_eq!(w.state(), WorkerState::Running);
    let answer = w.finish_task(Ok(4u32));
    assert!(matches!(answer, WorkerAnswer::TaskResult(4)));
    assert_eq!(w.state(), WorkerState::Ready);
    let step = w.command(WorkerCommand::<u32>::Stop);
    assert!(matches!(step, WorkerStep::Exit));
    assert_eq!(w.state(), WorkerState::Stopping);
}

#[test]
fn worker_failure_becomes_an_error_answer() {
    let mut w = WorkerLoop::new();
    let _: WorkerAnswer<u32> = w.start();
    let _ = w.command(WorkerCommand::RunTask(1u32));
    let answer: WorkerAnswer<u32> = w.finish_task(Err(String::from("boom")));
    match answer {
        WorkerAnswer::Error(TaskError::TaskExecutionFailed(m)) => assert_eq!(m, "boom"),
        _ => panic!("expected an error answer"),
    }
    assert_eq!(w.state(), WorkerState::Ready);
}

#[test]
fn worker_leaves_when_an_answer_is_lost() {
    let mut w = WorkerLoop::new();
    let _: WorkerAnswer<u32> = w.start();
    w.answer_lost();
    assert_eq!(w.state(), WorkerState::Stopping);
}
