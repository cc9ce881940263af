//! A bounded FIFO queue whose readiness flag tracks "a message is pending".
use std::collections::VecDeque;
use vstd::prelude::*;

verus! {

/// Why a queue operation did not go through.
#[derive(Debug, Clone, Copy, PartialEq, Eq, Structural)]
pub enum QueueError {
    /// The queue already holds as many messages as its capacity allows.
    QueueFull,
    /// No message is pending.
    QueueEmpty,
}

/// A bounded first-in first-out queue of messages.
///
/// `ready` mirrors the readiness signal that a multiplexer observes: it is
/// set exactly when at least one message is pending.
pub struct MessageQueue<M> {
    items: VecDeque<M>,
    capacity: usize,
    ready: bool,
}

/// The pending messages after a send of `msg` to a queue holding `pending`.
pub open spec fn sent<M>(pending: Seq<M>, capacity: nat, msg: M) -> Seq<M> {
    if pending.len() < capacity {
        pending.push(msg)
    } else {
        pending
    }
}

/// One operation on a queue: a send of a message, or a read.
pub enum QueueOp<M> {
    Send(M),
    Read,
}

/// What a run of operations on a queue of the given capacity leaves behind:
/// the pending messages, the messages whose send succeeded, and the messages
/// that reads returned, each in order.
pub open spec fn replay<M>(capacity: nat, ops: Seq<QueueOp<M>>) -> (Seq<M>, Seq<M>, Seq<M>)
    decreases ops.len(),
{
    if ops.len() == 0 {
        (Seq::empty(), Seq::empty(), Seq::empty())
    } else {
        let (pending, accepted, delivered) = replay(capacity, ops.drop_last());
        match ops.last() {
            QueueOp::Send(m) => if pending.len() < capacity {
                (pending.push(m), accepted.push(m), delivered)
            } else {
                (pending, accepted, delivered)
            },
            QueueOp::Read => if pending.len() > 0 {
                (pending.drop_first(), accepted, delivered.push(pending[0]))
            } else {
                (pending, accepted, delivered)
            },
        }
    }
}

/// For every run of sends and reads on one queue, the reads return the
/// accepted messages in the order they were sent, what is still pending is
/// the rest of them in that order, and the number pending never exceeds the
/// capacity.
pub proof fn lemma_fifo_order<M>(capacity: nat, ops: Seq<QueueOp<M>>)
    ensures
        ({
            let (pending, accepted, delivered) = replay(capacity, ops);
            &&& accepted == delivered + pending
            &&& pending.len() <= capacity
        }),
    decreases ops.len(),
{
    if ops.len() > 0 {
        lemma_fifo_order(capacity, ops.drop_last());
        let (pending, accepted, delivered) = replay(capacity, ops.drop_last());
        match ops.last() {
            QueueOp::Send(m) => {
                if pending.len() < capacity {
                    assert(accepted.push(m) == delivered + pending.push(m));
                }
            },
            QueueOp::Read => {
                if pending.len() > 0 {
                    assert(accepted == delivered.push(pending[0]) + pending.drop_first());
                }
            },
        }
    }
}

impl<M> MessageQueue<M> {
    /// The pending messages, oldest first.
    pub closed spec fn view(&self) -> Seq<M> {
        self.items@
    }

    /// The fixed number of messages the queue can hold.
    pub closed spec fn cap(&self) -> nat {
        self.capacity as nat
    }

    /// The readiness signal.
    pub closed spec fn ready_flag(&self) -> bool {
        self.ready
    }

    pub closed spec fn wf(&self) -> bool {
        &&& self.items@.len() <= self.capacity
        &&& self.ready == (self.items@.len() > 0)
    }

    /// Creates an empty queue that holds at most `capacity` messages.
    pub fn new(capacity: usize) -> (q: Self)
        ensures
            q.wf(),
            q@ == Seq::<M>::empty(),
            q.cap() == capacity,
            !q.ready_flag(),
    {
        MessageQueue { items: VecDeque::new(), capacity, ready: false }
    }

    /// Appends `msg` at the tail.
    ///
    /// Fails with `QueueFull` when `capacity` messages are already pending.
    /// On success the result tells whether the queue went from empty to
    /// non-empty, that is whether the readiness signal was just raised.
    pub fn send(&mut self, msg: M) -> (r: Result<bool, QueueError>)
        requires
            old(self).wf(),
        ensures
            final(self).wf(),
            final(self).cap() == old(self).cap(),
            final(self)@ == sent(old(self)@, old(self).cap(), msg),
            old(self)@.len() < old(self).cap() <==> r is Ok,
            r is Err ==> r == Err::<bool, QueueError>(QueueError::QueueFull),
            r matches Ok(raised) ==> raised == (old(self)@.len() == 0),
            final(self).ready_flag() == (final(self)@.len() > 0),
    {
        if self.items.len() >= self.capacity {
            return Err(QueueError::QueueFull);
        }
        let raised = !self.ready;
        self.items.push_back(msg);
        self.ready = true;
        Ok(raised)
    }

    /// Takes the message at the head.
    ///
    /// Fails with `QueueEmpty` when nothing is pending. On success the
    /// second component tells whether the queue became empty, that is
    /// whether the readiness signal was just cleared.
    pub fn read(&mut self) -> (r: Result<(M, bool), QueueError>)
        requires
            old(self).wf(),
        ensures
            final(self).wf(),
            final(self).cap() == old(self).cap(),
            old(self)@.len() == 0 <==> r is Err,
            r is Err ==> r == Err::<(M, bool), QueueError>(QueueError::QueueEmpty)
                && final(self)@ == old(self)@,
            r matches Ok((m, cleared)) ==> {
                &&& m == old(self)@[0]
                &&& final(self)@ == old(self)@.drop_first()
                &&& cleared == (old(self)@.len() == 1)
            },
            final(self).ready_flag() == (final(self)@.len() > 0),
    {
        match self.items.pop_front() {
            None => Err(QueueError::QueueEmpty),
            Some(m) => {
                let cleared = self.items.len() == 0;
                if cleared {
                    self.ready = false;
                }
                Ok((m, cleared))
            },
        }
    }

    /// Whether at least one message is pending, read from the readiness signal.
    pub fn is_ready(&self) -> (r: bool)
        requires
            self.wf(),
        ensures
            r == self.ready_flag(),
            r == (self@.len() > 0),
    {
        self.ready
    }

    /// The number of pending messages.
    pub fn len(&self) -> (r: usize)
        ensures
            r == self@.len(),
    {
        self.items.len()
    }

    /// The fixed capacity the queue was created with.
    pub fn capacity(&self) -> (r: usize)
        ensures
            r == self.cap(),
    {
        self.capacity
    }
}

} // verus!
