//! Properties of the supervisor that span several events.
use vstd::multiset::Multiset;
use vstd::prelude::*;
use crate::protocol::{Response, WorkerAnswer};
use crate::supervisor::{tally, some_ready, settled, Action, Supervisor};
use crate::worker::WorkerState;

verus! {

broadcast use vstd::multiset::group_multiset_axioms;

/// The sum of a sequence of multisets.
pub open spec fn total(m: Seq<Multiset<u64>>) -> Multiset<u64>
    decreases m.len(),
{
    if m.len() == 0 {
        Multiset::empty()
    } else {
        total(m.drop_last()).add(m.last())
    }
}

/// No task is dropped. Over a run of events from a supervisor with nothing
/// pending, where each step keeps its tickets (what is pending after it,
/// with what it answered, is what was pending before it, with what it
/// accepted), the tickets still pending at the end together with all the
/// answered ones are exactly the accepted ones. Since each accepted task
/// gets a fresh ticket, each is answered exactly once, or is still pending.
pub proof fn lemma_every_task_answered_once(
    pending: Seq<Multiset<u64>>,
    accepted: Seq<Multiset<u64>>,
    answered: Seq<Multiset<u64>>,
)
    requires
        pending.len() == accepted.len() + 1,
        answered.len() == accepted.len(),
        pending[0] == Multiset::<u64>::empty(),
        forall|k: int|
            0 <= k < accepted.len() ==> #[trigger] pending[k + 1].add(answered[k]) == pending[k].add(
                accepted[k],
            ),
    ensures
        pending.last().add(total(answered)) == total(accepted),
    decreases accepted.len(),
{
    let n = accepted.len() as int;
    if n == 0 {
        assert(pending.last().add(total(answered)) =~= total(accepted));
    } else {
        let p = pending.drop_last();
        assert forall|k: int| 0 <= k < n - 1 implies #[trigger] p[k + 1].add(
            answered.drop_last()[k],
        ) == p[k].add(accepted.drop_last()[k]) by {
            assert(pending[k + 1].add(answered[k]) == pending[k].add(accepted[k]));
        }
        lemma_every_task_answered_once(p, accepted.drop_last(), answered.drop_last());
        assert(pending[n].add(answered[n - 1]) == pending[n - 1].add(accepted[n - 1]));
        assert(p.last() == pending[n - 1]);
        let ta = total(answered.drop_last());
        let tc = total(accepted.drop_last());
        assert(total(answered) == ta.add(answered[n - 1]));
        assert(total(accepted) == tc.add(accepted[n - 1]));
        assert forall|x: u64| #[trigger] pending.last().add(total(answered)).count(x) == total(
            accepted,
        ).count(x) by {
            assert(pending[n - 1].add(ta).count(x) == tc.count(x));
            assert(pending[n].add(answered[n - 1]).count(x) == pending[n - 1].add(
                accepted[n - 1],
            ).count(x));
        }
        assert(pending.last().add(total(answered)) =~= total(accepted));
    }
}

spec fn fill_pre<T, R>(states: Seq<Supervisor<T>>, payloads: Seq<T>, acts: Seq<Seq<Action<T, R>>>) -> bool {
    &&& states.len() == payloads.len() + 1
    &&& acts.len() == payloads.len()
    &&& payloads.len() == states[0].limit() + 1
    &&& !states[0].stopping()
    &&& !some_ready(states[0].slots())
    &&& states[0].waiting().len() == 0
    &&& states[0].fresh_ticket() + payloads.len() < u64::MAX
    &&& forall|k: int|
        0 <= k < payloads.len() ==> Supervisor::add_task_post(
            #[trigger] states[k],
            states[k + 1],
            payloads[k],
            acts[k],
        )
}

proof fn lemma_fill_prefix<T, R>(
    states: Seq<Supervisor<T>>,
    payloads: Seq<T>,
    acts: Seq<Seq<Action<T, R>>>,
    k: int,
)
    requires
        fill_pre(states, payloads, acts),
        0 <= k <= states[0].limit(),
    ensures
        states[k].slots() == states[0].slots(),
        states[k].waiting().len() == k,
        states[k].fresh_ticket() == states[0].fresh_ticket() + k,
        !states[k].stopping(),
        states[k].limit() == states[0].limit(),
        forall|j: int| 0 <= j < k ==> (#[trigger] acts[j]).len() == 0,
        forall|j: int|
            0 <= j < k ==> #[trigger] states[k].waiting()[j] == (
                (states[0].fresh_ticket() + j) as u64,
                payloads[j],
            ),
    decreases k,
{
    if k > 0 {
        lemma_fill_prefix(states, payloads, acts, k - 1);
        assert(Supervisor::add_task_post(states[k - 1], states[k], payloads[k - 1], acts[k - 1]));
    }
}

/// Backpressure of the backlog. Once no worker is ready and the backlog is
/// empty, a run of `limit + 1` submissions queues the first `limit` tasks,
/// oldest first with consecutive tickets, and answers the last one `Failed`
/// at once.
pub proof fn lemma_backlog_fills_then_fails<T, R>(
    states: Seq<Supervisor<T>>,
    payloads: Seq<T>,
    acts: Seq<Seq<Action<T, R>>>,
)
    requires
        states.len() == payloads.len() + 1,
        acts.len() == payloads.len(),
        payloads.len() == states[0].limit() + 1,
        !states[0].stopping(),
        !some_ready(states[0].slots()),
        states[0].waiting().len() == 0,
        states[0].fresh_ticket() + payloads.len() < u64::MAX,
        forall|k: int|
            0 <= k < payloads.len() ==> Supervisor::add_task_post(
                #[trigger] states[k],
                states[k + 1],
                payloads[k],
                acts[k],
            ),
    ensures
        forall|k: int| 0 <= k < states[0].limit() ==> (#[trigger] acts[k]).len() == 0,
        acts.last() == seq![
            Action::<T, R>::Settle(
                (states[0].fresh_ticket() + states[0].limit()) as u64,
                Response::Failed,
            ),
        ],
        states.last().waiting().len() == states[0].limit(),
        forall|j: int|
            0 <= j < states[0].limit() ==> #[trigger] states.last().waiting()[j] == (
                (states[0].fresh_ticket() + j) as u64,
                payloads[j],
            ),
        states.last().slots() == states[0].slots(),
{
    let b = states[0].limit() as int;
    lemma_fill_prefix(states, payloads, acts, b);
    assert(Supervisor::add_task_post(states[b], states[b + 1], payloads[b], acts[b]));
}

/// A worker asked to stop leaves the count of live workers at once, one
/// fewer than before, and no later task submission is routed to it.
pub proof fn lemma_stopped_thread_leaves<T, R>(
    o: Supervisor<T>,
    n: Supervisor<T>,
    id: u64,
    a: Seq<Action<T, R>>,
    p: T,
    n2: Supervisor<T>,
    a2: Seq<Action<T, R>>,
)
    requires
        o.wf(),
        Supervisor::stop_thread_post(o, n, id, a),
        a == seq![Action::<T, R>::Halt(id)],
        Supervisor::add_task_post(n, n2, p, a2),
    ensures
        tally(n.slots()).1 == tally(o.slots()).1 - 1,
        forall|k: int| 0 <= k < a2.len() ==> !((#[trigger] a2[k]) matches Action::Dispatch(d, _) && d == id),
{
    assert(a[0] == Action::<T, R>::Halt(id));
    assert(!(o.stopping() || !(exists|i: int|
        0 <= i < o.slots().len() && o.slots()[i].id == id && o.slots()[i].state
            != WorkerState::Stopping))) by {
        if o.stopping() || !(exists|i: int|
            0 <= i < o.slots().len() && o.slots()[i].id == id && o.slots()[i].state
                != WorkerState::Stopping) {
            assert(a == seq![Action::<T, R>::Reply(Response::Failed)]);
            assert(a[0] != Action::<T, R>::Halt(id));
        }
    }
    let i = choose|i: int|
        {
            &&& 0 <= i < o.slots().len()
            &&& o.slots()[i].id == id
            &&& a == seq![Action::<T, R>::Halt(id)]
            &&& Supervisor::same_settings(o, n)
            &&& n.waiting() == o.waiting()
            &&& n.slots() == o.slots().update(i, crate::supervisor::WorkerSlot {
                id,
                state: WorkerState::Stopping,
                task: o.slots()[i].task,
                reply_on_stop: true,
            })
        };
    let j = choose|j: int|
        0 <= j < o.slots().len() && o.slots()[j].id == id && o.slots()[j].state
            != WorkerState::Stopping;
    if j < i {
        assert(o.slots()[j].id < o.slots()[i].id);
    } else if j > i {
        assert(o.slots()[i].id < o.slots()[j].id);
    }
    crate::supervisor::lemma_tally_update(o.slots(), i, n.slots()[i]);
    if !n.stopping() && n.fresh_ticket() < u64::MAX && some_ready(n.slots()) {
        let r = choose|r: int|
            {
                &&& crate::supervisor::first_ready_at(n.slots(), r)
                &&& a2 == seq![Action::<T, R>::Dispatch(n.slots()[r].id, p)]
                &&& n2.slots() == n.slots().update(r, crate::supervisor::given(n.slots()[r], n.fresh_ticket()))
                &&& n2.waiting() == n.waiting()
            };
        assert(r != i);
        if r < i {
            assert(o.slots()[r].id < o.slots()[i].id);
        } else {
            assert(o.slots()[i].id < o.slots()[r].id);
        }
        assert(a2[0] == Action::<T, R>::Dispatch(n.slots()[r].id, p));
    }
}

/// `Stopped` is answered only after every accepted task was answered:
/// when the last worker of a stopping pool acknowledges its stop, no worker
/// is left and nothing is pending, and the answer ends the event loop.
pub proof fn lemma_stopped_after_drain<T, R>(
    o: Supervisor<T>,
    n: Supervisor<T>,
    id: u64,
    a: Seq<Action<T, R>>,
)
    requires
        o.wf(),
        n.wf(),
        o.stopping(),
        o.slots().len() == 1,
        o.slots()[0].id == id,
        Supervisor::answer_post(o, n, id, WorkerAnswer::<R>::Stopped, a),
    ensures
        n.slots().len() == 0,
        n.pending() == Multiset::<u64>::empty(),
        a.len() >= 3,
        a[a.len() - 2] == Action::<T, R>::Reply(Response::Stopped),
        a.last() == Action::<T, R>::Exit,
{
    assert(Supervisor::answer_at(o, n, 0, WorkerAnswer::<R>::Stopped, a));
    crate::supervisor::lemma_tally_empty(n.slots());
    crate::supervisor::lemma_backlog_empty(n.waiting());
    assert(n.pending() =~= Multiset::<u64>::empty());
}

} // verus!
