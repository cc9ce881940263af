use threadpool::protocol::{Request, Response, TaskError, WorkerAnswer, WorkerCommand};
use threadpool::queue::MessageQueue;
use threadpool::supervisor::{Action, Supervisor};
use threadpool::worker::{WorkerLoop, WorkerStep};

type Acts = Vec<Action<i64, i64>>;

fn dispatched(a: &Action<i64, i64>) -> Option<(u64, i64)> {
    match a {
        Action::Dispatch(id, p) => Some((*id, *p)),
        _ => None,
    }
}

fn success(a: &Action<i64, i64>) -> Option<(u64, i64)> {
    match a {
        Action::Settle(t, Response::TaskSuccess(r)) => Some((*t, *r)),
        _ => None,
    }
}

fn failed_ticket(a: &Action<i64, i64>) -> Option<u64> {
    match a {
        Action::Settle(t, Response::Failed) => Some(*t),
        _ => None,
    }
}

fn threads(sup: &mut Supervisor<i64>) -> usize {
    let a: Acts = sup.handle_request(Request::GetNumberThreads);
    assert_eq!(a.len(), 1);
    match a[0] {
        Action::Reply(Response::NumberThreads(n)) => n,
        _ => panic!("expected a thread count"),
    }
}

fn running(sup: &mut Supervisor<i64>) -> usize {
    let a: Acts = sup.handle_request(Request::GetNumberRunningThreads);
    assert_eq!(a.len(), 1);
    match a[0] {
        Action::Reply(Response::NumberRunningThreads(n)) => n,
        _ => panic!("expected a running count"),
    }
}

#[test]
fn new_supervisor_spawns_its_workers() {
    let (mut sup, a): (Supervisor<i64>, Acts) = Supervisor::new(3, 2);
    assert_eq!(a.len(), 3);
    for (k, act) in a.iter().enumerate() {
        assert!(matches!(act, Action::Spawn(id) if *id == k as u64));
    }
    assert_eq!(threads(&mut sup), 3);
    assert_eq!(running(&mut sup), 0);
}

/// Two workers, work function x + 1, two tasks back to back, run through
/// real command and answer queues and the workers' own loops.
#[test]
fn two_workers_increment_two_tasks_in_order() {
    let (mut sup, spawn): (Supervisor<i64>, Acts) = Supervisor::new(2, 4);
    assert_eq!(spawn.len(), 2);
    let mut cmds: Vec<MessageQueue<WorkerCommand<i64>>> = vec![MessageQueue::new(4), MessageQueue::new(4)];
    let mut loops = vec![WorkerLoop::new(), WorkerLoop::new()];
    let mut answers: MessageQueue<(u64, WorkerAnswer<i64>)> = MessageQueue::new(8);
    for (i, w) in loops.iter_mut().enumerate() {
        answers.send((i as u64, w.start())).unwrap();
    }
    let mut replies: Vec<(u64, i64)> = Vec::new();
    for p in [5i64, 7] {
        let a: Acts = sup.handle_request(Request::AddTask(p));
        assert_eq!(a.len(), 1);
        let (id, payload) = dispatched(&a[0]).unwrap();
        cmds[id as usize].send(WorkerCommand::RunTask(payload)).unwrap();
    }
    assert_eq!(running(&mut sup), 2);
    for (i, w) in loops.iter_mut().enumerate() {
        let (cmd, _) = cmds[i].read().unwrap();
        match w.command(cmd) {
            WorkerStep::Execute(x) => {
                let ans = w.finish_task(Ok(x + 1));
                answers.send((i as u64, ans)).unwrap();
            }
            WorkerStep::Exit => panic!("unexpected stop"),
        }
    }
    while answers.is_ready() {
        let ((id, ans), _) = answers.read().unwrap();
        let a: Acts = sup.handle_answer(id, ans);
        for act in a.iter() {
            if let Some(r) = success(act) {
                replies.push(r);
            }
        }
    }
    assert_eq!(replies, vec![(0, 6), (1, 8)]);
    assert_eq!(running(&mut sup), 0);
}

#[test]
fn one_worker_second_task_waits_in_backlog() {
    let (mut sup, _): (Supervisor<i64>, Acts) = Supervisor::new(1, 4);
    let a: Acts = sup.handle_request(Request::AddTask(1));
    assert_eq!(dispatched(&a[0]), Some((0, 1)));
    let a: Acts = sup.handle_request(Request::AddTask(2));
    assert!(a.is_empty());
    let a: Acts = sup.handle_answer(0, WorkerAnswer::TaskResult(2));
    assert_eq!(a.len(), 2);
    assert_eq!(success(&a[0]), Some((0, 2)));
    assert_eq!(dispatched(&a[1]), Some((0, 2)));
    let a: Acts = sup.handle_answer(0, WorkerAnswer::TaskResult(3));
    assert_eq!(a.len(), 1);
    assert_eq!(success(&a[0]), Some((1, 3)));
    assert_eq!(running(&mut sup), 0);
}

#[test]
fn full_backlog_rejects_the_next_task_and_drains_oldest_first() {
    let (mut sup, _): (Supervisor<i64>, Acts) = Supervisor::new(2, 2);
    let mut outcomes: Vec<Acts> = Vec::new();
    for p in [10i64, 11, 12, 13, 14] {
        outcomes.push(sup.handle_request(Request::AddTask(p)));
    }
    assert_eq!(dispatched(&outcomes[0][0]), Some((0, 10)));
    assert_eq!(dispatched(&outcomes[1][0]), Some((1, 11)));
    assert!(outcomes[2].is_empty());
    assert!(outcomes[3].is_empty());
    assert_eq!(outcomes[4].len(), 1);
    assert_eq!(failed_ticket(&outcomes[4][0]), Some(4));
    let a: Acts = sup.handle_answer(1, WorkerAnswer::TaskResult(111));
    assert_eq!(success(&a[0]), Some((1, 111)));
    assert_eq!(dispatched(&a[1]), Some((1, 12)));
    let a: Acts = sup.handle_answer(0, WorkerAnswer::TaskResult(110));
    assert_eq!(success(&a[0]), Some((0, 110)));
    assert_eq!(dispatched(&a[1]), Some((0, 13)));
}

#[test]
fn stopped_thread_is_not_counted_nor_given_tasks() {
    let (mut sup, _): (Supervisor<i64>, Acts) = Supervisor::new(3, 2);
    assert_eq!(threads(&mut sup), 3);
    let a: Acts = sup.handle_request(Request::StopThread(0));
    assert_eq!(a.len(), 1);
    assert!(matches!(a[0], Action::Halt(0)));
    assert_eq!(threads(&mut sup), 2);
    let a: Acts = sup.handle_request(Request::AddTask(1));
    assert_eq!(dispatched(&a[0]), Some((1, 1)));
    let a: Acts = sup.handle_answer(0, WorkerAnswer::Stopped);
    assert_eq!(a.len(), 2);
    assert!(matches!(a[0], Action::Release(0)));
    assert!(matches!(a[1], Action::Reply(Response::StoppedThread(0))));
    assert_eq!(threads(&mut sup), 2);
    let a: Acts = sup.handle_request(Request::AddTask(2));
    assert_eq!(dispatched(&a[0]), Some((2, 2)));
    let a: Acts = sup.handle_request(Request::StopThread(0));
    assert!(matches!(a[0], Action::Reply(Response::Failed)));
    let a: Acts = sup.handle_request(Request::StopThread(9));
    assert!(matches!(a[0], Action::Reply(Response::Failed)));
}

#[test]
fn busy_worker_finishes_its_task_before_it_stops() {
    let (mut sup, _): (Supervisor<i64>, Acts) = Supervisor::new(1, 2);
    let _: Acts = sup.handle_request(Request::AddTask(4));
    let _: Acts = sup.handle_request(Request::AddTask(5));
    let a: Acts = sup.handle_request(Request::StopThread(0));
    assert!(matches!(a[0], Action::Halt(0)));
    let a: Acts = sup.handle_answer(0, WorkerAnswer::TaskResult(40));
    assert_eq!(a.len(), 1);
    assert_eq!(success(&a[0]), Some((0, 40)));
    let a: Acts = sup.handle_answer(0, WorkerAnswer::Stopped);
    assert!(matches!(a[0], Action::Release(0)));
    assert!(matches!(a[1], Action::Reply(Response::StoppedThread(0))));
    assert_eq!(threads(&mut sup), 0);
}

#[test]
fn stop_drains_in_flight_tasks_before_answering_stopped() {
    let (mut sup, _): (Supervisor<i64>, Acts) = Supervisor::new(2, 2);
    let _: Acts = sup.handle_request(Request::AddTask(1));
    let _: Acts = sup.handle_request(Request::AddTask(2));
    let _: Acts = sup.handle_request(Request::AddTask(3));
    let a: Acts = sup.handle_request(Request::Stop);
    assert_eq!(a.len(), 3);
    assert!(matches!(a[0], Action::Halt(0)));
    assert!(matches!(a[1], Action::Halt(1)));
    assert_eq!(failed_ticket(&a[2]), Some(2));
    let a: Acts = sup.handle_request(Request::AddTask(4));
    assert_eq!(failed_ticket(&a[0]), Some(3));
    let a: Acts = sup.handle_request(Request::AddThread(None));
    assert!(matches!(a[0], Action::Reply(Response::Failed)));
    let a: Acts = sup.handle_answer(0, WorkerAnswer::TaskResult(10));
    assert_eq!(a.len(), 1);
    assert_eq!(success(&a[0]), Some((0, 10)));
    let a: Acts = sup.handle_answer(0, WorkerAnswer::Stopped);
    assert_eq!(a.len(), 1);
    assert!(matches!(a[0], Action::Release(0)));
    let a: Acts = sup.handle_answer(1, WorkerAnswer::Error(TaskError::TaskExecutionFailed(String::from("bad"))));
    assert!(matches!(&a[0], Action::Settle(1, Response::TaskFailure(TaskError::TaskExecutionFailed(m))) if m == "bad"));
    let a: Acts = sup.handle_answer(1, WorkerAnswer::Stopped);
    assert_eq!(a.len(), 3);
    assert!(matches!(a[0], Action::Release(1)));
    assert!(matches!(a[1], Action::Reply(Response::Stopped)));
    assert!(matches!(a[2], Action::Exit));
}

#[test]
fn stop_with_no_workers_answers_at_once() {
    let (mut sup, _): (Supervisor<i64>, Acts) = Supervisor::new(0, 1);
    let a: Acts = sup.handle_request(Request::Stop);
    assert_eq!(a.len(), 2);
    assert!(matches!(a[0], Action::Reply(Response::Stopped)));
    assert!(matches!(a[1], Action::Exit));
    let a: Acts = sup.handle_request(Request::Stop);
    assert!(matches!(a[0], Action::Reply(Response::Failed)));
}

#[test]
fn added_thread_gets_next_id_and_takes_the_backlog() {
    let (mut sup, _): (Supervisor<i64>, Acts) = Supervisor::new(1, 2);
    let _: Acts = sup.handle_request(Request::AddTask(1));
    let a: Acts = sup.handle_request(Request::AddTask(2));
    assert!(a.is_empty());
    let a: Acts = sup.handle_request(Request::AddThread(Some(0)));
    assert_eq!(a.len(), 3);
    assert!(matches!(a[0], Action::Spawn(1)));
    assert!(matches!(a[1], Action::Reply(Response::ThreadAdded(1))));
    assert_eq!(dispatched(&a[2]), Some((1, 2)));
    assert_eq!(running(&mut sup), 2);
    let a: Acts = sup.handle_request(Request::AddThread(None));
    assert_eq!(a.len(), 2);
    assert!(matches!(a[1], Action::Reply(Response::ThreadAdded(2))));
    assert_eq!(threads(&mut sup), 3);
}

#[test]
fn lost_worker_fails_its_task() {
    let (mut sup, _): (Supervisor<i64>, Acts) = Supervisor::new(1, 1);
    let _: Acts = sup.handle_request(Request::AddTask(1));
    let a: Acts = sup.handle_answer(0, WorkerAnswer::Stopped);
    assert_eq!(a.len(), 2);
    assert!(matches!(a[0], Action::Release(0)));
    assert!(matches!(a[1], Action::Settle(0, Response::TaskFailure(TaskError::WorkerUnreachable))));
    let a: Acts = sup.handle_answer(0, WorkerAnswer::TaskResult(5));
    assert!(a.is_empty());
}

#[test]
fn every_task_is_answered_exactly_once() {
    let (mut sup, _): (Supervisor<i64>, Acts) = Supervisor::new(2, 1);
    let mut answered: Vec<u64> = Vec::new();
    let mut record = |a: &Acts, answered: &mut Vec<u64>| {
        for act in a.iter() {
            if let Action::Settle(t, _) = act {
                answered.push(*t);
            }
        }
    };
    for p in 0..5i64 {
        let a: Acts = sup.handle_request(Request::AddTask(p));
        record(&a, &mut answered);
    }
    for id in [0u64, 1, 0, 1] {
        let a: Acts = sup.handle_answer(id, WorkerAnswer::TaskResult(0));
        record(&a, &mut answered);
    }
    let a: Acts = sup.handle_request(Request::Stop);
    record(&a, &mut answered);
    answered.sort();
    assert_eq!(answered, vec![0, 1, 2, 3, 4]);
}

#[test]
fn abort_fails_every_open_task_and_request() {
    let (mut sup, _): (Supervisor<i64>, Acts) = Supervisor::new(2, 2);
    let _: Acts = sup.handle_request(Request::AddTask(1));
    let _: Acts = sup.handle_request(Request::AddTask(2));
    let _: Acts = sup.handle_request(Request::AddTask(3));
    let _: Acts = sup.handle_request(Request::StopThread(1));
    let a: Acts = sup.abort();
    assert_eq!(a.len(), 8);
    assert!(matches!(a[0], Action::Halt(0)));
    assert_eq!(failed_ticket(&a[1]), Some(0));
    assert!(matches!(a[2], Action::Release(0)));
    assert_eq!(failed_ticket(&a[3]), Some(1));
    assert!(matches!(a[4], Action::Reply(Response::Failed)));
    assert!(matches!(a[5], Action::Release(1)));
    assert_eq!(failed_ticket(&a[6]), Some(2));
    assert!(matches!(a[7], Action::Exit));
    assert_eq!(threads(&mut sup), 0);
}
