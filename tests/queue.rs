use threadpool::queue::{MessageQueue, QueueError};

#[test]
fn fifo_order_and_readiness_follow_sends_and_reads() {
    let mut q: MessageQueue<u32> = MessageQueue::new(4);
    assert!(!q.is_ready());
    assert_eq!(q.send(10), Ok(true));
    assert!(q.is_ready());
    assert_eq!(q.send(20), Ok(false));
    assert_eq!(q.send(30), Ok(false));
    assert_eq!(q.read().unwrap(), (10, false));
    assert!(q.is_ready());
    assert_eq!(q.send(40), Ok(false));
    assert_eq!(q.read().unwrap(), (20, false));
    assert_eq!(q.read().unwrap(), (30, false));
    assert!(q.is_ready());
    assert_eq!(q.read().unwrap(), (40, true));
    assert!(!q.is_ready());
    assert_eq!(q.len(), 0);
}

#[test]
fn send_beyond_capacity_fails_with_queue_full() {
    let mut q: MessageQueue<&str> = MessageQueue::new(2);
    assert_eq!(q.send("a"), Ok(true));
    assert_eq!(q.send("b"), Ok(false));
    assert_eq!(q.send("c"), Err(QueueError::QueueFull));
    assert_eq!(q.send("d"), Err(QueueError::QueueFull));
    assert_eq!(q.len(), 2);
    assert_eq!(q.capacity(), 2);
    assert_eq!(q.read().unwrap().0, "a");
    assert_eq!(q.send("e"), Ok(false));
    assert_eq!(q.read().unwrap().0, "b");
    assert_eq!(q.read().unwrap().0, "e");
}

#[test]
fn read_on_empty_queue_fails_with_queue_empty() {
    let mut q: MessageQueue<u8> = MessageQueue::new(1);
    assert_eq!(q.read(), Err(QueueError::QueueEmpty));
    assert!(!q.is_ready());
    q.send(7).unwrap();
    assert_eq!(q.read(), Ok((7, true)));
    assert_eq!(q.read(), Err(QueueError::QueueEmpty));
}

#[test]
fn zero_capacity_queue_accepts_nothing() {
    let mut q: MessageQueue<u8> = MessageQueue::new(0);
    assert_eq!(q.send(1), Err(QueueError::QueueFull));
    assert!(!q.is_ready());
    assert_eq!(q.len(), 0);
}
