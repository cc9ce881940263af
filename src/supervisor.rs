//! The supervisor's decisions: which worker gets a task, when the backlog
//! is used, and how workers are stopped and reclaimed.
//!
//! Each handler takes one event (a control request, or an answer of a
//! worker) and returns the actions the event loop performs in order.
use std::collections::VecDeque;
use vstd::multiset::Multiset;
use vstd::prelude::*;
use crate::protocol::{Request, Response, TaskError, WorkerAnswer};
use crate::worker::WorkerState;

verus! {

broadcast use vstd::seq_lib::group_to_multiset_ensures, vstd::multiset::group_multiset_axioms;

/// The supervisor's record of one worker.
#[derive(Debug, Clone, Copy)]
pub struct WorkerSlot {
    /// Stable identifier, never reused.
    pub id: u64,
    pub state: WorkerState,
    /// The ticket of the task the worker holds, if any.
    pub task: Option<u64>,
    /// Whether `StoppedThread` is owed once the worker acknowledges its stop.
    pub reply_on_stop: bool,
}

/// What the event loop does on the supervisor's behalf.
pub enum Action<T, R> {
    /// Start a worker under this id and register its answer queue.
    Spawn(u64),
    /// Send `RunTask` with the payload to the worker with this id.
    Dispatch(u64, T),
    /// Send `Stop` to the worker with this id.
    Halt(u64),
    /// Deregister, join and drop the worker with this id.
    Release(u64),
    /// Answer a control request.
    Reply(Response<R>),
    /// Answer the task with this ticket.
    Settle(u64, Response<R>),
    /// Leave the event loop.
    Exit,
}

/// The ticket a slot holds, as a multiset of zero or one element.
pub open spec fn held(t: Option<u64>) -> Multiset<u64> {
    match t {
        Some(k) => Multiset::singleton(k),
        None => Multiset::empty(),
    }
}

/// Whether a slot counts as a live worker: one not asked to stop.
pub open spec fn live(w: WorkerSlot) -> int {
    if w.state != WorkerState::Stopping { 1 } else { 0 }
}

/// Whether a slot counts as a running worker.
pub open spec fn running(w: WorkerSlot) -> int {
    if w.state == WorkerState::Running { 1 } else { 0 }
}

/// The tickets held by workers, the number of live workers and the number
/// of running ones.
pub open spec fn tally(s: Seq<WorkerSlot>) -> (Multiset<u64>, int, int)
    decreases s.len(),
{
    if s.len() == 0 {
        (Multiset::empty(), 0, 0)
    } else {
        let (t, l, r) = tally(s.drop_last());
        (t.add(held(s.last().task)), l + live(s.last()), r + running(s.last()))
    }
}

/// The tickets of the tasks that a run of actions answers.
pub open spec fn settled<T, R>(a: Seq<Action<T, R>>) -> Multiset<u64>
    decreases a.len(),
{
    if a.len() == 0 {
        Multiset::empty()
    } else {
        match a.last() {
            Action::Settle(t, _) => settled(a.drop_last()).insert(t),
            _ => settled(a.drop_last()),
        }
    }
}


/// The tickets of the tasks waiting in a backlog.
pub open spec fn backlog_tickets<T>(b: Seq<(u64, T)>) -> Multiset<u64> {
    b.map_values(|e: (u64, T)| e.0).to_multiset()
}

proof fn lemma_tally_nonneg(s: Seq<WorkerSlot>)
    ensures
        0 <= tally(s).2 <= tally(s).1 <= s.len(),
    decreases s.len(),
{
    if s.len() > 0 {
        lemma_tally_nonneg(s.drop_last());
    }
}

pub proof fn lemma_tally_update(s: Seq<WorkerSlot>, i: int, w: WorkerSlot)
    requires
        0 <= i < s.len(),
    ensures
        tally(s.update(i, w)).0.add(held(s[i].task)) == tally(s).0.add(held(w.task)),
        tally(s.update(i, w)).1 == tally(s).1 - live(s[i]) + live(w),
        tally(s.update(i, w)).2 == tally(s).2 - running(s[i]) + running(w),
    decreases s.len(),
{
    let u = s.update(i, w);
    if i == s.len() - 1 {
        assert(u.drop_last() == s.drop_last());
        assert(u.last() == w);
        assert(tally(u).0 == tally(s.drop_last()).0.add(held(w.task)));
        assert(tally(s).0 == tally(s.drop_last()).0.add(held(s[i].task)));
        assert(tally(u).0.add(held(s[i].task)) =~= tally(s).0.add(held(w.task)));
    } else {
        assert(u.drop_last() == s.drop_last().update(i, w));
        assert(u.last() == s.last());
        assert(s.drop_last()[i] == s[i]);
        lemma_tally_update(s.drop_last(), i, w);
        let (a, b) = (tally(u.drop_last()).0, tally(s.drop_last()).0);
        assert(a.add(held(s[i].task)) == b.add(held(w.task)));
        assert(tally(u).0 == a.add(held(s.last().task)));
        assert(tally(s).0 == b.add(held(s.last().task)));
        assert(a.add(held(s.last().task)).add(held(s[i].task)) =~= a.add(held(s[i].task)).add(
            held(s.last().task),
        ));
        assert(b.add(held(w.task)).add(held(s.last().task)) =~= b.add(held(s.last().task)).add(
            held(w.task),
        ));
    }
}

proof fn lemma_tally_remove(s: Seq<WorkerSlot>, i: int)
    requires
        0 <= i < s.len(),
    ensures
        tally(s.remove(i)).0.add(held(s[i].task)) == tally(s).0,
        tally(s.remove(i)).1 == tally(s).1 - live(s[i]),
        tally(s.remove(i)).2 == tally(s).2 - running(s[i]),
    decreases s.len(),
{
    let u = s.remove(i);
    if i == s.len() - 1 {
        assert(u == s.drop_last());
    } else {
        assert(u.drop_last() == s.drop_last().remove(i));
        assert(u.last() == s.last());
        lemma_tally_remove(s.drop_last(), i);
        assert(tally(u).0.add(held(s[i].task)) =~= tally(s).0);
    }
}

proof fn lemma_tally_push(s: Seq<WorkerSlot>, w: WorkerSlot)
    ensures
        tally(s.push(w)).0 == tally(s).0.add(held(w.task)),
        tally(s.push(w)).1 == tally(s).1 + live(w),
        tally(s.push(w)).2 == tally(s).2 + running(w),
{
    assert(s.push(w).drop_last() == s);
}

pub proof fn lemma_tally_empty(s: Seq<WorkerSlot>)
    requires
        s.len() == 0,
    ensures
        tally(s).0 == Multiset::<u64>::empty(),
{
}

proof fn lemma_tally_none(s: Seq<WorkerSlot>)
    requires
        forall|i: int| 0 <= i < s.len() ==> s[i].task is None,
    ensures
        tally(s).0 == Multiset::<u64>::empty(),
    decreases s.len(),
{
    if s.len() > 0 {
        lemma_tally_none(s.drop_last());
        assert(tally(s).0 =~= Multiset::<u64>::empty());
    }
}

proof fn lemma_settled_push<T, R>(a: Seq<Action<T, R>>, x: Action<T, R>)
    ensures
        settled(a.push(x)) == match x {
            Action::Settle(t, _) => settled(a).insert(t),
            _ => settled(a),
        },
{
    assert(a.push(x).drop_last() == a);
}

proof fn lemma_backlog_push<T>(b: Seq<(u64, T)>, e: (u64, T))
    ensures
        backlog_tickets(b.push(e)) == backlog_tickets(b).insert(e.0),
{
    assert(b.push(e).map_values(|e: (u64, T)| e.0) == b.map_values(|e: (u64, T)| e.0).push(e.0));
}

pub proof fn lemma_backlog_empty<T>(b: Seq<(u64, T)>)
    requires
        b.len() == 0,
    ensures
        backlog_tickets(b) == Multiset::<u64>::empty(),
{
    assert(b.map_values(|e: (u64, T)| e.0).len() == 0);
    assert(backlog_tickets(b) =~= Multiset::<u64>::empty());
}

proof fn lemma_backlog_pop<T>(b: Seq<(u64, T)>)
    requires
        b.len() > 0,
    ensures
        backlog_tickets(b.subrange(1, b.len() as int)).insert(b[0].0) == backlog_tickets(b),
{
    let m = b.map_values(|e: (u64, T)| e.0);
    assert(b.subrange(1, b.len() as int).map_values(|e: (u64, T)| e.0) == m.remove(0));
    assert(m.remove(0).to_multiset().insert(m[0]) =~= m.to_multiset());
}

/// A running worker holds a task; a starting or ready one holds none.
pub open spec fn consistent(w: WorkerSlot) -> bool {
    &&& w.state == WorkerState::Running ==> w.task is Some
    &&& (w.state == WorkerState::Ready || w.state == WorkerState::Starting) ==> w.task is None
}

proof fn lemma_shrunk(o: Multiset<u64>, n: Multiset<u64>, gone: Multiset<u64>, bound: u64)
    requires
        n.add(gone) == o,
        forall|t: u64| o.count(t) > 0 ==> t < bound,
    ensures
        forall|t: u64| n.count(t) > 0 ==> t < bound,
{
    assert forall|t: u64| n.count(t) > 0 implies t < bound by {
        assert(o.count(t) == n.count(t) + gone.count(t));
    }
}

/// Whether slot `i` is the first one that is ready.
pub open spec fn first_ready_at(s: Seq<WorkerSlot>, i: int) -> bool {
    &&& 0 <= i < s.len()
    &&& s[i].state == WorkerState::Ready
    &&& forall|j: int| 0 <= j < i ==> s[j].state != WorkerState::Ready
}

pub open spec fn some_ready(s: Seq<WorkerSlot>) -> bool {
    exists|i: int| 0 <= i < s.len() && s[i].state == WorkerState::Ready
}

/// Slot `w` after it was handed the task with ticket `t`.
pub open spec fn given(w: WorkerSlot, t: u64) -> WorkerSlot {
    WorkerSlot { id: w.id, state: WorkerState::Running, task: Some(t), reply_on_stop: w.reply_on_stop }
}

/// Slot `w` without a task, in state `st`.
pub open spec fn idle(w: WorkerSlot, st: WorkerState) -> WorkerSlot {
    WorkerSlot { id: w.id, state: st, task: None, reply_on_stop: w.reply_on_stop }
}

/// Slot `w` after it was asked to stop; it keeps its task.
pub open spec fn halted(w: WorkerSlot) -> WorkerSlot {
    WorkerSlot { id: w.id, state: WorkerState::Stopping, task: w.task, reply_on_stop: w.reply_on_stop }
}

/// A fresh worker with id `id`, ready for a task.
pub open spec fn fresh_slot(id: u64) -> WorkerSlot {
    WorkerSlot { id, state: WorkerState::Ready, task: None, reply_on_stop: false }
}

/// `Stop` sent to each worker of `s` not yet asked to stop, in order.
pub open spec fn halts<T, R>(s: Seq<WorkerSlot>) -> Seq<Action<T, R>>
    decreases s.len(),
{
    if s.len() == 0 {
        Seq::empty()
    } else if s.last().state != WorkerState::Stopping {
        halts(s.drop_last()).push(Action::Halt(s.last().id))
    } else {
        halts(s.drop_last())
    }
}

/// `Failed` answered to each task of a backlog, oldest first.
pub open spec fn failures<T, R>(b: Seq<(u64, T)>) -> Seq<Action<T, R>> {
    b.map_values(|e: (u64, T)| Action::<T, R>::Settle(e.0, Response::Failed))
}

proof fn lemma_halts_settle_nothing<T, R>(s: Seq<WorkerSlot>)
    ensures
        settled(halts::<T, R>(s)) == Multiset::<u64>::empty(),
    decreases s.len(),
{
    if s.len() > 0 {
        lemma_halts_settle_nothing::<T, R>(s.drop_last());
        if s.last().state != WorkerState::Stopping {
            lemma_settled_push(halts::<T, R>(s.drop_last()), Action::Halt(s.last().id));
        }
    }
}

/// The actions that give up the worker of slot `w`: `Stop` unless it was
/// asked already, `Failed` for the task it holds and for a `StopThread` that
/// waits on it, and its release.
pub open spec fn slot_abort<T, R>(w: WorkerSlot) -> Seq<Action<T, R>> {
    (if w.state != WorkerState::Stopping {
        seq![Action::<T, R>::Halt(w.id)]
    } else {
        Seq::<Action<T, R>>::empty()
    }) + match w.task {
        Some(t) => seq![Action::<T, R>::Settle(t, Response::Failed)],
        None => Seq::<Action<T, R>>::empty(),
    } + (if w.reply_on_stop {
        seq![Action::<T, R>::Reply(Response::Failed)]
    } else {
        Seq::<Action<T, R>>::empty()
    }) + seq![Action::<T, R>::Release(w.id)]
}

/// `slot_abort` for each slot of `s`, in order.
pub open spec fn aborts<T, R>(s: Seq<WorkerSlot>) -> Seq<Action<T, R>>
    decreases s.len(),
{
    if s.len() == 0 {
        Seq::empty()
    } else {
        aborts(s.drop_last()) + slot_abort(s.last())
    }
}

fn push_slot_abort<T, R>(a: &mut Vec<Action<T, R>>, w: WorkerSlot)
    ensures
        final(a)@ == old(a)@ + slot_abort::<T, R>(w),
        settled(final(a)@) == settled(old(a)@).add(held(w.task)),
{
    let ghost prev = a@;
    if w.state != WorkerState::Stopping {
        proof {
            lemma_settled_push(a@, Action::<T, R>::Halt(w.id));
        }
        a.push(Action::Halt(w.id));
    }
    match w.task {
        Some(t) => {
            proof {
                lemma_settled_push(a@, Action::<T, R>::Settle(t, Response::Failed));
            }
            a.push(Action::Settle(t, Response::Failed));
        },
        None => {},
    }
    proof {
        assert(settled(a@) =~= settled(prev).add(held(w.task)));
    }
    if w.reply_on_stop {
        proof {
            lemma_settled_push(a@, Action::<T, R>::Reply(Response::Failed));
        }
        a.push(Action::Reply(Response::Failed));
    }
    proof {
        lemma_settled_push(a@, Action::<T, R>::Release(w.id));
    }
    a.push(Action::Release(w.id));
    assert(a@ =~= prev + slot_abort::<T, R>(w));
}

/// The supervisor's state: the worker set keyed by stable id, and the
/// backlog of tasks that wait for a worker.
pub struct Supervisor<T> {
    workers: Vec<WorkerSlot>,
    backlog: VecDeque<(u64, T)>,
    backlog_limit: usize,
    next_id: u64,
    next_task: u64,
    shutting_down: bool,
}

impl<T> Supervisor<T> {
    /// The worker records, in increasing order of id.
    pub closed spec fn slots(&self) -> Seq<WorkerSlot> {
        self.workers@
    }

    /// The waiting tasks with their tickets, oldest first.
    pub closed spec fn waiting(&self) -> Seq<(u64, T)> {
        self.backlog@
    }

    pub closed spec fn limit(&self) -> nat {
        self.backlog_limit as nat
    }

    /// The id the next worker will get.
    pub closed spec fn fresh_id(&self) -> u64 {
        self.next_id
    }

    /// The ticket the next task will get.
    pub closed spec fn fresh_ticket(&self) -> u64 {
        self.next_task
    }

    /// Whether `Stop` was received.
    pub closed spec fn stopping(&self) -> bool {
        self.shutting_down
    }

    /// The tickets of the tasks that were accepted and not yet answered.
    pub open spec fn pending(&self) -> Multiset<u64> {
        tally(self.slots()).0.add(backlog_tickets(self.waiting()))
    }

    /// Ids increase along the worker set and stay below the next id; each
    /// slot's task agrees with its state; the backlog fits its limit and is
    /// used only while no worker is ready; every pending ticket was issued;
    /// once stopping, the backlog is empty and every worker is stopping.
    pub open spec fn wf(&self) -> bool {
        &&& forall|i: int, j: int|
            0 <= i < j < self.slots().len() ==> self.slots()[i].id < self.slots()[j].id
        &&& forall|i: int| 0 <= i < self.slots().len() ==> self.slots()[i].id < self.fresh_id()
        &&& forall|i: int| 0 <= i < self.slots().len() ==> consistent(#[trigger] self.slots()[i])
        &&& self.waiting().len() <= self.limit()
        &&& forall|t: u64| self.pending().count(t) > 0 ==> t < self.fresh_ticket()
        &&& self.waiting().len() > 0 ==> !some_ready(self.slots())
        &&& self.stopping() ==> {
            &&& self.waiting().len() == 0
            &&& forall|i: int|
                0 <= i < self.slots().len() ==> self.slots()[i].state == WorkerState::Stopping
        }
    }

    /// What `add_task` does with `p`, taking `o` to `n` with actions `a`.
    pub open spec fn add_task_post<R>(o: Self, n: Self, p: T, a: Seq<Action<T, R>>) -> bool {
        let t = o.fresh_ticket();
        if t == u64::MAX {
            a == seq![Action::<T, R>::Reply(Response::Failed)] && n == o
        } else {
            &&& n.fresh_ticket() == t + 1
            &&& n.fresh_id() == o.fresh_id()
            &&& n.stopping() == o.stopping()
            &&& n.limit() == o.limit()
            &&& if o.stopping() {
                &&& a == seq![Action::<T, R>::Settle(t, Response::Failed)]
                &&& n.slots() == o.slots()
                &&& n.waiting() == o.waiting()
            } else if some_ready(o.slots()) {
                exists|i: int|
                    {
                        &&& first_ready_at(o.slots(), i)
                        &&& a == seq![Action::<T, R>::Dispatch(o.slots()[i].id, p)]
                        &&& n.slots() == o.slots().update(i, given(o.slots()[i], t))
                        &&& n.waiting() == o.waiting()
                    }
            } else if o.waiting().len() < o.limit() {
                &&& a.len() == 0
                &&& n.slots() == o.slots()
                &&& n.waiting() == o.waiting().push((t, p))
            } else {
                &&& a == seq![Action::<T, R>::Settle(t, Response::Failed)]
                &&& n.slots() == o.slots()
                &&& n.waiting() == o.waiting()
            }
        }
    }

    fn first_ready(&self) -> (r: Option<usize>)
        ensures
            match r {
                Some(i) => first_ready_at(self.slots(), i as int),
                None => !some_ready(self.slots()),
            },
    {
        let mut i: usize = 0;
        while i < self.workers.len()
            invariant
                0 <= i <= self.slots().len(),
                forall|j: int| 0 <= j < i ==> self.slots()[j].state != WorkerState::Ready,
            decreases self.slots().len() - i,
        {
            if self.workers[i].state == WorkerState::Ready {
                return Some(i);
            }
            i = i + 1;
        }
        None
    }

    /// Accepts a task: it goes to the ready worker with the smallest id, or,
    /// when none is ready, to the tail of the backlog; when the backlog is
    /// full too, or the pool is stopping, the task is answered `Failed`.
    pub fn add_task<R>(&mut self, p: T) -> (a: Vec<Action<T, R>>)
        requires
            old(self).wf(),
        ensures
            final(self).wf(),
            Self::add_task_post(*old(self), *final(self), p, a@),
            old(self).fresh_ticket() < u64::MAX ==> final(self).pending().add(settled(a@))
                == old(self).pending().insert(old(self).fresh_ticket()),
            old(self).fresh_ticket() == u64::MAX ==> settled(a@) == Multiset::<u64>::empty(),
            forall|i: int, j: int|
                first_ready_at(old(self).slots(), i) && 0 <= j < old(self).slots().len()
                    && old(self).slots()[j].state == WorkerState::Ready
                    ==> old(self).slots()[i].id <= old(self).slots()[j].id,
    {
        let mut a: Vec<Action<T, R>> = Vec::new();
        if self.next_task == u64::MAX {
            a.push(Action::Reply(Response::Failed));
            proof {
                lemma_settled_push(Seq::<Action<T, R>>::empty(), Action::Reply(Response::Failed));
            }
            return a;
        }
        let t = self.next_task;
        self.next_task = t + 1;
        proof {
            assert(seq![Action::<T, R>::Settle(t, Response::Failed)] == Seq::<Action<T, R>>::empty().push(Action::Settle(t, Response::Failed)));
            lemma_settled_push(Seq::<Action<T, R>>::empty(), Action::<T, R>::Settle(t, Response::Failed));
        }
        if self.shutting_down {
            a.push(Action::Settle(t, Response::Failed));
            assert(self.pending().add(settled(a@)) =~= old(self).pending().insert(t));
            return a;
        }
        match self.first_ready() {
            Some(i) => {
                let w = self.workers[i];
                let id = w.id;
                proof {
                    assert(consistent(self.slots()[i as int]));
                    lemma_tally_update(self.slots(), i as int, given(w, t));
                    assert(tally(self.slots()).0.add(held(None)) =~= tally(self.slots()).0);
                }
                self.workers.set(i, WorkerSlot { id, state: WorkerState::Running, task: Some(t), reply_on_stop: w.reply_on_stop });
                a.push(Action::Dispatch(id, p));
                proof {
                    lemma_settled_push(Seq::<Action<T, R>>::empty(), Action::<T, R>::Dispatch(id, p));
                    assert(a@ == seq![Action::<T, R>::Dispatch(id, p)]);
                    assert(tally(self.slots()).0.add(held(None)) =~= tally(self.slots()).0);
                    assert(self.pending() =~= old(self).pending().insert(t));
                    assert(settled(a@) =~= Multiset::<u64>::empty());
                    assert(first_ready_at(old(self).slots(), i as int));
                }
            },
            None => {
                if self.backlog.len() < self.backlog_limit {
                    proof {
                        lemma_backlog_push(self.waiting(), (t, p));
                    }
                    self.backlog.push_back((t, p));
                    assert(self.pending() =~= old(self).pending().insert(t));
                } else {
                    a.push(Action::Settle(t, Response::Failed));
                    assert(self.pending().add(settled(a@)) =~= old(self).pending().insert(t));
                }
            },
        }
        a
    }

    /// Whether `n` keeps the counters and settings of `o`.
    pub open spec fn same_settings(o: Self, n: Self) -> bool {
        &&& n.fresh_ticket() == o.fresh_ticket()
        &&& n.fresh_id() == o.fresh_id()
        &&& n.stopping() == o.stopping()
        &&& n.limit() == o.limit()
    }

    /// What a finished task of slot `i` does, answered with `resp`.
    pub open spec fn finished_at<R>(o: Self, n: Self, i: int, resp: Response<R>, a: Seq<Action<T, R>>) -> bool {
        let w = o.slots()[i];
        match w.task {
            None => a.len() == 0 && n == o,
            Some(t) => {
                &&& Self::same_settings(o, n)
                &&& if w.state == WorkerState::Stopping {
                    &&& a == seq![Action::<T, R>::Settle(t, resp)]
                    &&& n.slots() == o.slots().update(i, idle(w, WorkerState::Stopping))
                    &&& n.waiting() == o.waiting()
                } else if o.waiting().len() > 0 {
                    &&& a == seq![Action::<T, R>::Settle(t, resp), Action::Dispatch(w.id, o.waiting()[0].1)]
                    &&& n.slots() == o.slots().update(i, given(w, o.waiting()[0].0))
                    &&& n.waiting() == o.waiting().drop_first()
                } else {
                    &&& a == seq![Action::<T, R>::Settle(t, resp)]
                    &&& n.slots() == o.slots().update(i, idle(w, WorkerState::Ready))
                    &&& n.waiting() == o.waiting()
                }
            },
        }
    }

    /// The actions that follow the stop of the worker in slot `i`: its
    /// release, the failure of a task it still held, the answer owed to
    /// `StopThread`, and, once the last worker of a pool that is stopping is
    /// gone, `Stopped` and the end of the loop.
    pub open spec fn stopped_actions<R>(o: Self, i: int) -> Seq<Action<T, R>> {
        let w = o.slots()[i];
        seq![Action::<T, R>::Release(w.id)] + match w.task {
            Some(t) => seq![Action::<T, R>::Settle(t, Response::TaskFailure(TaskError::WorkerUnreachable))],
            None => Seq::<Action<T, R>>::empty(),
        } + if w.reply_on_stop {
            seq![Action::<T, R>::Reply(Response::StoppedThread(w.id))]
        } else {
            Seq::<Action<T, R>>::empty()
        } + if o.stopping() && o.slots().len() == 1 {
            seq![Action::<T, R>::Reply(Response::Stopped), Action::Exit]
        } else {
            Seq::<Action<T, R>>::empty()
        }
    }

    /// What an answer `ans` of the worker in slot `i` does.
    pub open spec fn answer_at<R>(o: Self, n: Self, i: int, ans: WorkerAnswer<R>, a: Seq<Action<T, R>>) -> bool {
        match ans {
            WorkerAnswer::Started => a.len() == 0 && n == o,
            WorkerAnswer::TaskResult(r) => Self::finished_at(o, n, i, Response::TaskSuccess(r), a),
            WorkerAnswer::Error(e) => Self::finished_at(o, n, i, Response::TaskFailure(e), a),
            WorkerAnswer::Stopped => {
                &&& Self::same_settings(o, n)
                &&& n.slots() == o.slots().remove(i)
                &&& n.waiting() == o.waiting()
                &&& a == Self::stopped_actions::<R>(o, i)
            },
        }
    }

    /// What `handle_answer` does with answer `ans` of worker `id`.
    pub open spec fn answer_post<R>(o: Self, n: Self, id: u64, ans: WorkerAnswer<R>, a: Seq<Action<T, R>>) -> bool {
        &&& (forall|i: int| 0 <= i < o.slots().len() ==> o.slots()[i].id != id) ==> a.len() == 0 && n == o
        &&& forall|i: int|
            0 <= i < o.slots().len() && o.slots()[i].id == id ==> Self::answer_at(o, n, i, ans, a)
    }

    fn find(&self, id: u64) -> (r: Option<usize>)
        ensures
            match r {
                Some(i) => i < self.slots().len() && self.slots()[i as int].id == id,
                None => forall|i: int| 0 <= i < self.slots().len() ==> self.slots()[i].id != id,
            },
    {
        let mut i: usize = 0;
        while i < self.workers.len()
            invariant
                0 <= i <= self.slots().len(),
                forall|j: int| 0 <= j < i ==> self.slots()[j].id != id,
            decreases self.slots().len() - i,
        {
            if self.workers[i].id == id {
                return Some(i);
            }
            i = i + 1;
        }
        None
    }

    /// Drops the slot of a worker that stopped, and emits the actions of
    /// `stopped_actions`.
    fn release<R>(&mut self, i: usize, a: Vec<Action<T, R>>) -> (r: Vec<Action<T, R>>)
        requires
            old(self).wf(),
            i < old(self).slots().len(),
            a@.len() == 0,
        ensures
            final(self).wf(),
            Self::same_settings(*old(self), *final(self)),
            final(self).slots() == old(self).slots().remove(i as int),
            final(self).waiting() == old(self).waiting(),
            r@ == Self::stopped_actions::<R>(*old(self), i as int),
            final(self).pending().add(settled(r@)) == old(self).pending(),
    {
        let ghost o = *self;
        let mut a = a;
        let w = self.workers.remove(i);
        proof {
            lemma_tally_remove(o.slots(), i as int);
            assert(settled(a@) =~= Multiset::<u64>::empty());
            lemma_settled_push(a@, Action::<T, R>::Release(w.id));
        }
        a.push(Action::Release(w.id));
        match w.task {
            Some(t) => {
                proof {
                    lemma_settled_push(a@, Action::<T, R>::Settle(t, Response::TaskFailure(TaskError::WorkerUnreachable)));
                }
                a.push(Action::Settle(t, Response::TaskFailure(TaskError::WorkerUnreachable)));
            },
            None => {},
        }
        assert(settled(a@) =~= held(w.task));
        if w.reply_on_stop {
            proof {
                lemma_settled_push(a@, Action::<T, R>::Reply(Response::StoppedThread(w.id)));
            }
            a.push(Action::Reply(Response::StoppedThread(w.id)));
        }
        if self.shutting_down && self.workers.len() == 0 {
            proof {
                lemma_settled_push(a@, Action::<T, R>::Reply(Response::Stopped));
            }
            a.push(Action::Reply(Response::Stopped));
            proof {
                lemma_settled_push(a@, Action::<T, R>::Exit);
            }
            a.push(Action::Exit);
        }
        assert(a@ =~= Self::stopped_actions::<R>(o, i as int));
        assert(self.pending().add(settled(a@)) =~= o.pending());
        proof {
            lemma_shrunk(o.pending(), self.pending(), settled(a@), o.fresh_ticket());
            if self.waiting().len() > 0 {
                assert forall|x: int| 0 <= x < self.slots().len() implies self.slots()[x].state
                    != WorkerState::Ready by {
                    if x >= i {
                        assert(self.slots()[x] == o.slots()[x + 1]);
                    } else {
                        assert(self.slots()[x] == o.slots()[x]);
                    }
                }
            }
            assert forall|x: int, y: int|
                0 <= x < y < self.slots().len() implies self.slots()[x].id < self.slots()[y].id by {
                if x >= i {
                    assert(self.slots()[x] == o.slots()[x + 1]);
                } else if y >= i {
                    assert(self.slots()[y] == o.slots()[y + 1]);
                }
            }
            assert forall|x: int| 0 <= x < self.slots().len() implies consistent(
                #[trigger] self.slots()[x],
            ) by {
                if x >= i {
                    assert(self.slots()[x] == o.slots()[x + 1]);
                }
            }
        }
        a
    }

    /// Handles an answer of worker `id`. A finished task is answered to its
    /// submitter, and the worker takes the oldest task of the backlog unless
    /// it was asked to stop. A `Stopped` worker, or one whose thread exited,
    /// is released.
    pub fn handle_answer<R>(&mut self, id: u64, ans: WorkerAnswer<R>) -> (a: Vec<Action<T, R>>)
        requires
            old(self).wf(),
        ensures
            final(self).wf(),
            Self::answer_post(*old(self), *final(self), id, ans, a@),
            final(self).pending().add(settled(a@)) == old(self).pending(),
    {
        let ghost o = *self;
        let mut a: Vec<Action<T, R>> = Vec::new();
        let i = match self.find(id) {
            None => {
                assert(settled(a@) =~= Multiset::<u64>::empty());
                assert(self.pending().add(settled(a@)) =~= o.pending());
                return a;
            },
            Some(i) => i,
        };
        proof {
            assert forall|j: int| 0 <= j < o.slots().len() && o.slots()[j].id == id implies j == i by {
                if j < i {
                    assert(o.slots()[j].id < o.slots()[i as int].id);
                } else if j > i {
                    assert(o.slots()[i as int].id < o.slots()[j].id);
                }
            }
            assert(consistent(o.slots()[i as int]));
        }
        let w = self.workers[i];
        let resp = match ans {
            WorkerAnswer::Started => {
                assert(settled(a@) =~= Multiset::<u64>::empty());
                assert(self.pending().add(settled(a@)) =~= o.pending());
                return a;
            },
            WorkerAnswer::Stopped => {
                return self.release(i, a);
            },
            WorkerAnswer::TaskResult(r) => Response::TaskSuccess(r),
            WorkerAnswer::Error(e) => Response::TaskFailure(e),
        };
        let t = match w.task {
            None => {
                assert(settled(a@) =~= Multiset::<u64>::empty());
                assert(self.pending().add(settled(a@)) =~= o.pending());
                return a;
            },
            Some(t) => t,
        };
        proof {
            lemma_settled_push(a@, Action::<T, R>::Settle(t, resp));
        }
        a.push(Action::Settle(t, resp));
        proof {
            assert(settled(a@) =~= Multiset::<u64>::empty().insert(t));
            assert(tally(o.slots()).0.add(held(None)) =~= tally(o.slots()).0);
        }
        if w.state == WorkerState::Stopping {
            proof {
                lemma_tally_update(self.slots(), i as int, idle(w, WorkerState::Stopping));
            }
            self.workers.set(i, WorkerSlot { id, state: WorkerState::Stopping, task: None, reply_on_stop: w.reply_on_stop });
            assert(tally(self.slots()).0.add(held(None)) =~= tally(self.slots()).0);
            assert(self.pending().add(settled(a@)) =~= o.pending());
            assert(a@ =~= seq![Action::<T, R>::Settle(t, resp)]);
        } else {
            match self.backlog.pop_front() {
                Some(entry) => {
                    let (u, p) = entry;
                    proof {
                        lemma_backlog_pop(o.waiting());
                        lemma_tally_update(o.slots(), i as int, given(w, u));
                        lemma_settled_push(a@, Action::<T, R>::Dispatch(id, p));
                    }
                    self.workers.set(i, WorkerSlot { id, state: WorkerState::Running, task: Some(u), reply_on_stop: w.reply_on_stop });
                    a.push(Action::Dispatch(id, p));
                    assert(settled(a@) =~= Multiset::<u64>::empty().insert(t));
                    assert(self.waiting() == o.waiting().drop_first());
                    assert(o.waiting()[0] == (u, p));
                    let ghost tn = tally(self.slots()).0;
                    let ghost bn = backlog_tickets(self.waiting());
                    assert(tn.add(held(Some(t))) == tally(o.slots()).0.add(held(Some(u))));
                    assert(bn.insert(u) == backlog_tickets(o.waiting()));
                    assert forall|x: u64| #[trigger] self.pending().add(settled(a@)).count(x)
                        == o.pending().count(x) by {
                        assert(tn.add(held(Some(t))).count(x) == tally(o.slots()).0.add(
                            held(Some(u)),
                        ).count(x));
                        assert(bn.insert(u).count(x) == backlog_tickets(o.waiting()).count(x));
                    }
                    assert(self.pending().add(settled(a@)) =~= o.pending());
                    assert(a@ =~= seq![Action::<T, R>::Settle(t, resp), Action::Dispatch(id, p)]);
                },
                None => {
                    proof {
                        lemma_tally_update(self.slots(), i as int, idle(w, WorkerState::Ready));
                    }
                    self.workers.set(i, WorkerSlot { id, state: WorkerState::Ready, task: None, reply_on_stop: w.reply_on_stop });
                    assert(tally(self.slots()).0.add(held(None)) =~= tally(self.slots()).0);
                    assert(self.pending().add(settled(a@)) =~= o.pending());
                    assert(a@ =~= seq![Action::<T, R>::Settle(t, resp)]);
                },
            }
        }
        proof {
            lemma_shrunk(o.pending(), self.pending(), settled(a@), o.fresh_ticket());
            if self.waiting().len() > 0 {
                assert forall|x: int| 0 <= x < self.slots().len() implies self.slots()[x].state
                    != WorkerState::Ready by {
                    assert(o.slots()[x].state != WorkerState::Ready);
                }
            }
        }
        a
    }

    /// Creates a supervisor with `workers` ready workers, ids `0` to
    /// `workers - 1`, and a backlog of at most `backlog_limit` tasks. The
    /// actions start those workers.
    pub fn new<R>(workers: usize, backlog_limit: usize) -> (r: (Self, Vec<Action<T, R>>))
        requires
            workers < u64::MAX,
        ensures
            r.0.wf(),
            r.0.slots() == Seq::new(workers as nat, |i: int| fresh_slot(i as u64)),
            r.0.waiting().len() == 0,
            r.0.limit() == backlog_limit,
            r.0.fresh_id() == workers,
            r.0.fresh_ticket() == 0,
            r.0.pending() == Multiset::<u64>::empty(),
            !r.0.stopping(),
            r.1@ == Seq::new(workers as nat, |i: int| Action::<T, R>::Spawn(i as u64)),
    {
        let mut v: Vec<WorkerSlot> = Vec::new();
        let mut a: Vec<Action<T, R>> = Vec::new();
        let mut i: usize = 0;
        while i < workers
            invariant
                i <= workers < u64::MAX,
                v@ == Seq::new(i as nat, |k: int| fresh_slot(k as u64)),
                a@ == Seq::new(i as nat, |k: int| Action::<T, R>::Spawn(k as u64)),
            decreases workers - i,
        {
            v.push(WorkerSlot { id: i as u64, state: WorkerState::Ready, task: None, reply_on_stop: false });
            a.push(Action::Spawn(i as u64));
            i = i + 1;
            assert(v@ =~= Seq::new(i as nat, |k: int| fresh_slot(k as u64)));
            assert(a@ =~= Seq::new(i as nat, |k: int| Action::<T, R>::Spawn(k as u64)));
        }
        let sup = Supervisor {
            workers: v,
            backlog: VecDeque::new(),
            backlog_limit,
            next_id: workers as u64,
            next_task: 0,
            shutting_down: false,
        };
        proof {
            lemma_tally_none(sup.slots());
            assert(backlog_tickets(sup.waiting()) =~= Multiset::<u64>::empty());
            assert(sup.pending() =~= Multiset::<u64>::empty());
        }
        (sup, a)
    }

    /// The number of live workers: those not asked to stop.
    pub fn number_threads(&self) -> (n: usize)
        ensures
            n == tally(self.slots()).1,
    {
        self.count(false)
    }

    /// The number of workers running a task.
    pub fn number_running_threads(&self) -> (n: usize)
        ensures
            n == tally(self.slots()).2,
    {
        self.count(true)
    }

    fn count(&self, only_running: bool) -> (n: usize)
        ensures
            n == if only_running { tally(self.slots()).2 } else { tally(self.slots()).1 },
    {
        let mut n: usize = 0;
        let mut i: usize = 0;
        while i < self.workers.len()
            invariant
                i <= self.slots().len(),
                n == if only_running {
                    tally(self.slots().subrange(0, i as int)).2
                } else {
                    tally(self.slots().subrange(0, i as int)).1
                },
            decreases self.slots().len() - i,
        {
            proof {
                assert(self.slots().subrange(0, i + 1).drop_last() == self.slots().subrange(0, i as int));
                lemma_tally_nonneg(self.slots().subrange(0, i as int));
            }
            let st = self.workers[i].state;
            if only_running {
                if st == WorkerState::Running {
                    n = n + 1;
                }
            } else if st != WorkerState::Stopping {
                n = n + 1;
            }
            i = i + 1;
        }
        assert(self.slots().subrange(0, i as int) == self.slots());
        n
    }

    /// What `add_thread` does, taking `o` to `n` with actions `a`.
    pub open spec fn add_thread_post<R>(o: Self, n: Self, a: Seq<Action<T, R>>) -> bool {
        let id = o.fresh_id();
        if o.stopping() || id == u64::MAX {
            a == seq![Action::<T, R>::Reply(Response::Failed)] && n == o
        } else {
            &&& n.fresh_id() == id + 1
            &&& n.fresh_ticket() == o.fresh_ticket()
            &&& n.stopping() == o.stopping()
            &&& n.limit() == o.limit()
            &&& if o.waiting().len() > 0 {
                &&& a == seq![Action::<T, R>::Spawn(id), Action::Reply(Response::ThreadAdded(id)), Action::Dispatch(id, o.waiting()[0].1)]
                &&& n.slots() == o.slots().push(given(fresh_slot(id), o.waiting()[0].0))
                &&& n.waiting() == o.waiting().drop_first()
            } else {
                &&& a == seq![Action::<T, R>::Spawn(id), Action::Reply(Response::ThreadAdded(id))]
                &&& n.slots() == o.slots().push(fresh_slot(id))
                &&& n.waiting() == o.waiting()
            }
        }
    }

    /// Starts one more worker under the next unused id. It takes the oldest
    /// task of the backlog at once if there is one.
    pub fn add_thread<R>(&mut self) -> (a: Vec<Action<T, R>>)
        requires
            old(self).wf(),
        ensures
            final(self).wf(),
            Self::add_thread_post(*old(self), *final(self), a@),
            final(self).pending().add(settled(a@)) == old(self).pending(),
    {
        let ghost o = *self;
        let mut a: Vec<Action<T, R>> = Vec::new();
        if self.shutting_down || self.next_id == u64::MAX {
            a.push(Action::Reply(Response::Failed));
            proof {
                lemma_settled_push(Seq::<Action<T, R>>::empty(), Action::<T, R>::Reply(Response::Failed));
                assert(self.pending().add(settled(a@)) =~= o.pending());
            }
            return a;
        }
        let id = self.next_id;
        self.next_id = id + 1;
        a.push(Action::Spawn(id));
        a.push(Action::Reply(Response::ThreadAdded(id)));
        proof {
            lemma_settled_push(Seq::<Action<T, R>>::empty(), Action::<T, R>::Spawn(id));
            lemma_settled_push(seq![Action::<T, R>::Spawn(id)], Action::<T, R>::Reply(Response::ThreadAdded(id)));
            assert(seq![Action::<T, R>::Spawn(id)] == Seq::<Action<T, R>>::empty().push(Action::<T, R>::Spawn(id)));
            assert(a@ == seq![Action::<T, R>::Spawn(id)].push(Action::<T, R>::Reply(Response::ThreadAdded(id))));
        }
        match self.backlog.pop_front() {
            Some(entry) => {
                let (u, p) = entry;
                proof {
                    lemma_backlog_pop(o.waiting());
                    lemma_tally_push(o.slots(), given(fresh_slot(id), u));
                    lemma_settled_push(a@, Action::<T, R>::Dispatch(id, p));
                }
                self.workers.push(WorkerSlot { id, state: WorkerState::Running, task: Some(u), reply_on_stop: false });
                a.push(Action::Dispatch(id, p));
                proof {
                    assert(o.waiting()[0] == (u, p));
                    assert(self.waiting() == o.waiting().drop_first());
                    assert(a@ =~= seq![Action::<T, R>::Spawn(id), Action::Reply(Response::ThreadAdded(id)), Action::Dispatch(id, p)]);
                    let bn = backlog_tickets(self.waiting());
                    assert forall|x: u64| #[trigger] self.pending().add(settled(a@)).count(x)
                        == o.pending().count(x) by {
                        assert(bn.insert(u).count(x) == backlog_tickets(o.waiting()).count(x));
                    }
                    assert(self.pending().add(settled(a@)) =~= o.pending());
                    if self.waiting().len() > 0 {
                        assert forall|x: int| 0 <= x < self.slots().len() implies self.slots()[x].state
                            != WorkerState::Ready by {
                            if x < o.slots().len() {
                                assert(self.slots()[x] == o.slots()[x]);
                            }
                        }
                    }
                    lemma_shrunk(o.pending(), self.pending(), settled(a@), o.fresh_ticket());
                }
            },
            None => {
                proof {
                    lemma_tally_push(o.slots(), fresh_slot(id));
                }
                self.workers.push(WorkerSlot { id, state: WorkerState::Ready, task: None, reply_on_stop: false });
                proof {
                    assert(a@ =~= seq![Action::<T, R>::Spawn(id), Action::Reply(Response::ThreadAdded(id))]);
                    assert(self.pending().add(settled(a@)) =~= o.pending());
                    lemma_shrunk(o.pending(), self.pending(), settled(a@), o.fresh_ticket());
                }
            },
        }
        a
    }

    /// What `stop_thread(id)` does, taking `o` to `n` with actions `a`.
    pub open spec fn stop_thread_post<R>(o: Self, n: Self, id: u64, a: Seq<Action<T, R>>) -> bool {
        if o.stopping() || !(exists|i: int|
            0 <= i < o.slots().len() && o.slots()[i].id == id && o.slots()[i].state
                != WorkerState::Stopping) {
            a == seq![Action::<T, R>::Reply(Response::Failed)] && n == o
        } else {
            exists|i: int|
                {
                    &&& 0 <= i < o.slots().len()
                    &&& o.slots()[i].id == id
                    &&& a == seq![Action::<T, R>::Halt(id)]
                    &&& Self::same_settings(o, n)
                    &&& n.waiting() == o.waiting()
                    &&& n.slots() == o.slots().update(i, WorkerSlot {
                        id,
                        state: WorkerState::Stopping,
                        task: o.slots()[i].task,
                        reply_on_stop: true,
                    })
                }
        }
    }

    /// Asks the worker `id` to stop. It finishes its current task first;
    /// `StoppedThread(id)` is answered once it acknowledges. An unknown id,
    /// or a worker already stopping, is answered `Failed`.
    pub fn stop_thread<R>(&mut self, id: u64) -> (a: Vec<Action<T, R>>)
        requires
            old(self).wf(),
        ensures
            final(self).wf(),
            Self::stop_thread_post(*old(self), *final(self), id, a@),
            final(self).pending().add(settled(a@)) == old(self).pending(),
            a@ == seq![Action::<T, R>::Halt(id)] ==> tally(final(self).slots()).1 == tally(
                old(self).slots(),
            ).1 - 1,
    {
        let ghost o = *self;
        let mut a: Vec<Action<T, R>> = Vec::new();
        let found = if self.shutting_down {
            None
        } else {
            match self.find(id) {
                Some(i) => if self.workers[i].state != WorkerState::Stopping {
                    Some(i)
                } else {
                    None
                },
                None => None,
            }
        };
        if found.is_none() {
            a.push(Action::Reply(Response::Failed));
            proof {
                lemma_settled_push(Seq::<Action<T, R>>::empty(), Action::<T, R>::Reply(Response::Failed));
                assert(a@ =~= seq![Action::<T, R>::Reply(Response::Failed)]);
                assert(self.pending().add(settled(a@)) =~= o.pending());
                if !o.stopping() {
                    assert forall|j: int| 0 <= j < o.slots().len() && o.slots()[j].id == id
                        implies o.slots()[j].state == WorkerState::Stopping by {
                        let k = choose|k: int| 0 <= k < o.slots().len() && o.slots()[k].id == id;
                        if j < k {
                            assert(o.slots()[j].id < o.slots()[k].id);
                        } else if j > k {
                            assert(o.slots()[k].id < o.slots()[j].id);
                        }
                    }
                }
            }
            return a;
        }
        let i = found.unwrap();
        let w = self.workers[i];
        let nw = WorkerSlot { id, state: WorkerState::Stopping, task: w.task, reply_on_stop: true };
        proof {
            lemma_tally_update(o.slots(), i as int, nw);
            lemma_settled_push(Seq::<Action<T, R>>::empty(), Action::<T, R>::Halt(id));
        }
        self.workers.set(i, nw);
        a.push(Action::Halt(id));
        proof {
            assert(a@ =~= seq![Action::<T, R>::Halt(id)]);
            assert forall|x: u64| #[trigger] self.pending().add(settled(a@)).count(x)
                == o.pending().count(x) by {
                assert(tally(self.slots()).0.add(held(w.task)).count(x) == tally(o.slots()).0.add(
                    held(w.task),
                ).count(x));
            }
            assert(self.pending().add(settled(a@)) =~= o.pending());
            lemma_shrunk(o.pending(), self.pending(), settled(a@), o.fresh_ticket());
            assert(consistent(o.slots()[i as int]));
            if self.waiting().len() > 0 {
                assert forall|x: int| 0 <= x < self.slots().len() implies self.slots()[x].state
                    != WorkerState::Ready by {
                    assert(o.slots()[x].state != WorkerState::Ready);
                }
            }
        }
        a
    }

    /// Answers `Failed` to every task of the backlog, oldest first, and
    /// empties it.
    fn fail_backlog<R>(&mut self, a: &mut Vec<Action<T, R>>)
        ensures
            final(a)@ == old(a)@ + failures::<T, R>(old(self).waiting()),
            settled(final(a)@) == settled(old(a)@).add(backlog_tickets(old(self).waiting())),
            final(self).waiting().len() == 0,
            final(self).slots() == old(self).slots(),
            Self::same_settings(*old(self), *final(self)),
    {
        let ghost o = *self;
        let ghost h = a@;
        while self.backlog.len() > 0
            invariant
                self.waiting().len() <= o.waiting().len(),
                self.waiting() == o.waiting().subrange(
                    o.waiting().len() - self.waiting().len(),
                    o.waiting().len() as int,
                ),
                a@ == h + failures::<T, R>(
                    o.waiting().subrange(0, o.waiting().len() - self.waiting().len()),
                ),
                settled(a@).add(backlog_tickets(self.waiting())) == settled(h).add(
                    backlog_tickets(o.waiting()),
                ),
                self.slots() == o.slots(),
                Self::same_settings(o, *self),
            decreases self.waiting().len(),
        {
            let ghost k = o.waiting().len() - self.waiting().len();
            let ghost before = self.waiting();
            let ghost prev = a@;
            match self.backlog.pop_front() {
                Some(entry) => {
                    let t = entry.0;
                    proof {
                        lemma_backlog_pop(before);
                        lemma_settled_push(a@, Action::<T, R>::Settle(t, Response::Failed));
                        assert(before[0] == o.waiting()[k]);
                    }
                    a.push(Action::Settle(t, Response::Failed));
                    proof {
                        assert(self.waiting() =~= o.waiting().subrange(k + 1, o.waiting().len() as int));
                        assert(o.waiting().subrange(0, k + 1) == o.waiting().subrange(0, k).push(o.waiting()[k]));
                        assert(failures::<T, R>(o.waiting().subrange(0, k + 1)) =~= failures::<T, R>(
                            o.waiting().subrange(0, k),
                        ).push(Action::Settle(t, Response::Failed)));
                        assert(a@ =~= h + failures::<T, R>(o.waiting().subrange(0, k + 1)));
                        let bn = backlog_tickets(self.waiting());
                        assert forall|x: u64| #[trigger] settled(a@).add(bn).count(x)
                            == settled(h).add(backlog_tickets(o.waiting())).count(x) by {
                            assert(bn.insert(t).count(x) == backlog_tickets(before).count(x));
                            assert(settled(prev).add(backlog_tickets(before)).count(x) == settled(h).add(
                                backlog_tickets(o.waiting()),
                            ).count(x));
                        }
                        assert(settled(a@).add(bn) =~= settled(h).add(backlog_tickets(o.waiting())));
                    }
                },
                None => {},
            }
        }
        proof {
            assert(o.waiting().subrange(0, o.waiting().len() as int) == o.waiting());
            lemma_backlog_empty(self.waiting());
            assert(settled(a@).add(backlog_tickets(self.waiting())) =~= settled(a@));
        }
    }

    /// What `stop` does, taking `o` to `n` with actions `a`.
    pub open spec fn stop_post<R>(o: Self, n: Self, a: Seq<Action<T, R>>) -> bool {
        if o.stopping() {
            a == seq![Action::<T, R>::Reply(Response::Failed)] && n == o
        } else {
            &&& n.stopping()
            &&& n.fresh_id() == o.fresh_id()
            &&& n.fresh_ticket() == o.fresh_ticket()
            &&& n.limit() == o.limit()
            &&& n.waiting().len() == 0
            &&& n.slots() == o.slots().map_values(|w: WorkerSlot| halted(w))
            &&& a == halts::<T, R>(o.slots()) + failures::<T, R>(o.waiting()) + if o.slots().len() == 0 {
                seq![Action::<T, R>::Reply(Response::Stopped), Action::Exit]
            } else {
                Seq::<Action<T, R>>::empty()
            }
        }
    }

    /// Stops the pool: every worker is asked to stop and finishes the task
    /// it holds, the tasks of the backlog are answered `Failed`, and
    /// `Stopped` follows once the last worker is released.
    pub fn stop<R>(&mut self) -> (a: Vec<Action<T, R>>)
        requires
            old(self).wf(),
        ensures
            final(self).wf(),
            Self::stop_post(*old(self), *final(self), a@),
            final(self).pending().add(settled(a@)) == old(self).pending(),
    {
        let ghost o = *self;
        let mut a: Vec<Action<T, R>> = Vec::new();
        if self.shutting_down {
            a.push(Action::Reply(Response::Failed));
            proof {
                lemma_settled_push(Seq::<Action<T, R>>::empty(), Action::<T, R>::Reply(Response::Failed));
                assert(a@ =~= seq![Action::<T, R>::Reply(Response::Failed)]);
                assert(self.pending().add(settled(a@)) =~= o.pending());
                lemma_shrunk(o.pending(), self.pending(), settled(a@), o.fresh_ticket());
            }
            return a;
        }
        let mut i: usize = 0;
        while i < self.workers.len()
            invariant
                o.wf(),
                !o.stopping(),
                i <= self.slots().len() == o.slots().len(),
                self.waiting() == o.waiting(),
                Self::same_settings(o, *self),
                forall|j: int| 0 <= j < i ==> self.slots()[j] == halted(o.slots()[j]),
                forall|j: int| i <= j < self.slots().len() ==> self.slots()[j] == o.slots()[j],
                a@ == halts::<T, R>(o.slots().subrange(0, i as int)),
                tally(self.slots()).0 == tally(o.slots()).0,
            decreases self.slots().len() - i,
        {
            let w = self.workers[i];
            proof {
                assert(o.slots().subrange(0, i + 1).drop_last() == o.slots().subrange(0, i as int));
                assert(o.slots().subrange(0, i + 1).last() == w);
            }
            if w.state != WorkerState::Stopping {
                let nw = WorkerSlot { id: w.id, state: WorkerState::Stopping, task: w.task, reply_on_stop: w.reply_on_stop };
                proof {
                    let before = self.slots();
                    lemma_tally_update(before, i as int, nw);
                    assert forall|x: u64| #[trigger] tally(before.update(i as int, nw)).0.count(x)
                        == tally(before).0.count(x) by {
                        assert(tally(before.update(i as int, nw)).0.add(held(w.task)).count(x)
                            == tally(before).0.add(held(w.task)).count(x));
                    }
                    assert(tally(before.update(i as int, nw)).0 =~= tally(before).0);
                }
                self.workers.set(i, nw);
                a.push(Action::Halt(w.id));
            } else {
                assert(halted(w) == w);
            }
            i = i + 1;
        }
        proof {
            assert(o.slots().subrange(0, i as int) == o.slots());
            assert(self.slots() =~= o.slots().map_values(|w: WorkerSlot| halted(w)));
            lemma_halts_settle_nothing::<T, R>(o.slots());
        }
        self.shutting_down = true;
        self.fail_backlog(&mut a);
        if self.workers.len() == 0 {
            proof {
                lemma_settled_push(a@, Action::<T, R>::Reply(Response::Stopped));
            }
            a.push(Action::Reply(Response::Stopped));
            proof {
                lemma_settled_push(a@, Action::<T, R>::Exit);
            }
            a.push(Action::Exit);
        }
        proof {
            assert(a@ =~= halts::<T, R>(o.slots()) + failures::<T, R>(o.waiting()) + if o.slots().len() == 0 {
                seq![Action::<T, R>::Reply(Response::Stopped), Action::Exit]
            } else {
                Seq::<Action<T, R>>::empty()
            });
            assert(self.pending().add(settled(a@)) =~= o.pending());
            lemma_shrunk(o.pending(), self.pending(), settled(a@), o.fresh_ticket());
        }
        a
    }

    /// What `handle_request` does with `req`, taking `o` to `n` with actions `a`.
    pub open spec fn request_post<R>(o: Self, n: Self, req: Request<T>, a: Seq<Action<T, R>>) -> bool {
        match req {
            Request::Stop => Self::stop_post(o, n, a),
            Request::StopThread(id) => Self::stop_thread_post(o, n, id, a),
            Request::GetNumberThreads => n == o && a == seq![
                Action::<T, R>::Reply(Response::NumberThreads(tally(o.slots()).1 as usize)),
            ],
            Request::GetNumberRunningThreads => n == o && a == seq![
                Action::<T, R>::Reply(Response::NumberRunningThreads(tally(o.slots()).2 as usize)),
            ],
            Request::AddThread(_) => Self::add_thread_post(o, n, a),
            Request::AddTask(p) => Self::add_task_post(o, n, p, a),
        }
    }

    /// The ticket a request is given: one for a task accepted for handling.
    pub open spec fn issued(o: Self, req: Request<T>) -> Multiset<u64> {
        if req is AddTask && o.fresh_ticket() < u64::MAX {
            Multiset::singleton(o.fresh_ticket())
        } else {
            Multiset::empty()
        }
    }

    /// Handles a request of the control channel. The placement hint of
    /// `AddThread` is left to the event loop that starts the thread.
    pub fn handle_request<R>(&mut self, req: Request<T>) -> (a: Vec<Action<T, R>>)
        requires
            old(self).wf(),
        ensures
            final(self).wf(),
            Self::request_post(*old(self), *final(self), req, a@),
            final(self).pending().add(settled(a@)) == old(self).pending().add(
                Self::issued(*old(self), req),
            ),
    {
        let ghost o = *self;
        let a = match req {
            Request::Stop => self.stop(),
            Request::StopThread(id) => self.stop_thread(id),
            Request::GetNumberThreads => {
                let n = self.number_threads();
                let mut a: Vec<Action<T, R>> = Vec::new();
                a.push(Action::Reply(Response::NumberThreads(n)));
                proof {
                    lemma_settled_push(Seq::<Action<T, R>>::empty(), Action::<T, R>::Reply(Response::NumberThreads(n)));
                    assert(a@ =~= seq![Action::<T, R>::Reply(Response::NumberThreads(n))]);
                }
                a
            },
            Request::GetNumberRunningThreads => {
                let n = self.number_running_threads();
                let mut a: Vec<Action<T, R>> = Vec::new();
                a.push(Action::Reply(Response::NumberRunningThreads(n)));
                proof {
                    lemma_settled_push(Seq::<Action<T, R>>::empty(), Action::<T, R>::Reply(Response::NumberRunningThreads(n)));
                    assert(a@ =~= seq![Action::<T, R>::Reply(Response::NumberRunningThreads(n))]);
                }
                a
            },
            Request::AddThread(_) => self.add_thread(),
            Request::AddTask(p) => self.add_task(p),
        };
        proof {
            if o.fresh_ticket() == u64::MAX || !(req is AddTask) {
                assert(Self::issued(o, req) =~= Multiset::<u64>::empty());
                assert(o.pending().add(Self::issued(o, req)) =~= o.pending());
            }
            if req is GetNumberThreads || req is GetNumberRunningThreads {
                assert(self.pending().add(settled(a@)) =~= o.pending());
            }
        }
        a
    }

    /// What `abort` does, taking `o` to `n` with actions `a`.
    pub open spec fn abort_post<R>(o: Self, n: Self, a: Seq<Action<T, R>>) -> bool {
        &&& n.stopping()
        &&& n.slots().len() == 0
        &&& n.waiting().len() == 0
        &&& n.fresh_id() == o.fresh_id()
        &&& n.fresh_ticket() == o.fresh_ticket()
        &&& n.limit() == o.limit()
        &&& a == aborts::<T, R>(o.slots()) + failures::<T, R>(o.waiting()) + (if o.stopping() {
            seq![Action::<T, R>::Reply(Response::Failed)]
        } else {
            Seq::<Action<T, R>>::empty()
        }) + seq![Action::<T, R>::Exit]
    }

    /// Gives up after a fatal error of the event loop: every worker is told
    /// to stop and released, every unanswered task and every request still
    /// waiting for its answer is answered `Failed`, and the loop ends.
    pub fn abort<R>(&mut self) -> (a: Vec<Action<T, R>>)
        requires
            old(self).wf(),
        ensures
            final(self).wf(),
            Self::abort_post(*old(self), *final(self), a@),
            settled(a@) == old(self).pending(),
            final(self).pending() == Multiset::<u64>::empty(),
    {
        let ghost o = *self;
        let mut a: Vec<Action<T, R>> = Vec::new();
        let mut i: usize = 0;
        while i < self.workers.len()
            invariant
                self.slots() == o.slots(),
                self.waiting() == o.waiting(),
                Self::same_settings(o, *self),
                i <= self.slots().len(),
                a@ == aborts::<T, R>(o.slots().subrange(0, i as int)),
                settled(a@) == tally(o.slots().subrange(0, i as int)).0,
            decreases self.slots().len() - i,
        {
            let w = self.workers[i];
            proof {
                assert(o.slots().subrange(0, i + 1).drop_last() == o.slots().subrange(0, i as int));
                assert(o.slots().subrange(0, i + 1).last() == w);
            }
            push_slot_abort(&mut a, w);
            i = i + 1;
            proof {
                assert(settled(a@) =~= tally(o.slots().subrange(0, i as int)).0);
            }
        }
        proof {
            assert(o.slots().subrange(0, i as int) == o.slots());
        }
        self.workers = Vec::new();
        self.fail_backlog(&mut a);
        if self.shutting_down {
            proof {
                lemma_settled_push(a@, Action::<T, R>::Reply(Response::Failed));
            }
            a.push(Action::Reply(Response::Failed));
        }
        proof {
            lemma_settled_push(a@, Action::<T, R>::Exit);
        }
        a.push(Action::Exit);
        self.shutting_down = true;
        proof {
            assert(a@ =~= aborts::<T, R>(o.slots()) + failures::<T, R>(o.waiting()) + (if o.stopping() {
                seq![Action::<T, R>::Reply(Response::Failed)]
            } else {
                Seq::<Action<T, R>>::empty()
            }) + seq![Action::<T, R>::Exit]);
            assert(settled(a@) =~= o.pending());
            lemma_tally_empty(self.slots());
            lemma_backlog_empty(self.waiting());
            assert(self.pending() =~= Multiset::<u64>::empty());
        }
        a
    }
}

} // verus!
