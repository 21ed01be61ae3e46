use vstd::prelude::*;

use crate::communication::{Message, Task};
use crate::worker::{dispatch_spec, outcome_spec, relays, stops, Action};

verus! {

/// One item of the shared queue as the pool model sees it: a unique identity
/// and the task, with the connection handle left abstract.
pub struct Entry {
    /// Distinct for every item ever enqueued.
    pub id: nat,
    pub task: Task<()>,
}

/// The state of a pool of workers around one shared queue.
pub struct PoolState {
    /// Number of workers the pool was started with.
    pub workers: nat,
    /// Workers still running their loop.
    pub alive: nat,
    /// Items in the queue, head first.
    pub queue: Seq<Entry>,
    /// Identity the next enqueued item gets.
    pub next_id: nat,
    /// Identities of the items dequeued so far, in order.
    pub observed: Seq<nat>,
    /// `ShouldQuit` outcomes yielded by units of work.
    pub triggers: nat,
    /// `ShouldQuit` control tasks dequeued.
    pub consumed: nat,
    /// Workers that stopped on a control task.
    pub retired: nat,
}

/// What can happen to the pool.
pub enum Event {
    /// The listener enqueues an accepted connection.
    Arrive,
    /// A running worker dequeues the head of the queue; if it is a connection,
    /// its unit of work yields the given outcome.
    Dequeue(Message),
}

/// A `ShouldQuit` control task.
pub open spec fn is_quit(t: Task<()>) -> bool {
    t == Task::<()>::Message(Message::ShouldQuit)
}

/// An accepted connection.
pub open spec fn is_socket(t: Task<()>) -> bool {
    t is Socket
}

/// Number of entries of `q` whose task satisfies `p`.
pub open spec fn count(q: Seq<Entry>, p: spec_fn(Task<()>) -> bool) -> nat
    decreases q.len(),
{
    if q.len() == 0 {
        0
    } else {
        count(q.drop_last(), p) + if p(q.last().task) { 1nat } else { 0nat }
    }
}

/// `ShouldQuit` control tasks waiting in the queue.
pub open spec fn controls(q: Seq<Entry>) -> nat {
    count(q, |t: Task<()>| is_quit(t))
}

/// Connections waiting in the queue.
pub open spec fn sockets(q: Seq<Entry>) -> nat {
    count(q, |t: Task<()>| is_socket(t))
}

/// A pool of `n` workers that has not started yet, around an empty queue.
pub open spec fn init(n: nat) -> PoolState {
    PoolState {
        workers: n,
        alive: n,
        queue: Seq::empty(),
        next_id: 0,
        observed: Seq::empty(),
        triggers: 0,
        consumed: 0,
        retired: 0,
    }
}

/// Some running worker can take the head of the queue.
pub open spec fn enabled(s: PoolState) -> bool {
    s.alive > 0 && s.queue.len() > 0
}

/// The action a worker ends up performing on a dequeued task, given the
/// outcome that a served connection yields.
pub open spec fn performed(t: Task<()>, outcome: Message) -> Action<()> {
    match dispatch_spec(Some(t)) {
        Action::Serve(_) => outcome_spec::<()>(outcome),
        a => a,
    }
}

/// The listener enqueues one accepted connection.
pub open spec fn arrive(s: PoolState) -> PoolState {
    PoolState {
        queue: s.queue.push(Entry { id: s.next_id, task: Task::Socket(()) }),
        next_id: s.next_id + 1,
        ..s
    }
}

/// One running worker dequeues the head of the queue and acts on it. Where no
/// worker can dequeue, every running worker stays blocked and nothing changes.
pub open spec fn step(s: PoolState, outcome: Message) -> PoolState {
    if !enabled(s) {
        s
    } else {
        let head = s.queue[0];
        let a = performed(head.task, outcome);
        let rest = s.queue.drop_first();
        PoolState {
            workers: s.workers,
            alive: if stops(a) { (s.alive - 1) as nat } else { s.alive },
            queue: if relays(a) {
                rest.push(Entry { id: s.next_id, task: Task::Message(Message::ShouldQuit) })
            } else {
                rest
            },
            next_id: if relays(a) { s.next_id + 1 } else { s.next_id },
            observed: s.observed.push(head.id),
            triggers: if is_socket(head.task) && relays(a) { s.triggers + 1 } else { s.triggers },
            consumed: if is_quit(head.task) { s.consumed + 1 } else { s.consumed },
            retired: if is_quit(head.task) && stops(a) { s.retired + 1 } else { s.retired },
        }
    }
}

/// The state after one event.
pub open spec fn apply(s: PoolState, e: Event) -> PoolState {
    match e {
        Event::Arrive => arrive(s),
        Event::Dequeue(m) => step(s, m),
    }
}

/// The state a pool of `n` workers reaches through `events`.
pub open spec fn run(n: nat, events: Seq<Event>) -> PoolState
    decreases events.len(),
{
    if events.len() == 0 {
        init(n)
    } else {
        apply(run(n, events.drop_last()), events.last())
    }
}

/// The state reached from `s` when, with no further connection arriving, the
/// workers dequeue once per outcome in `outcomes`.
pub open spec fn drain(s: PoolState, outcomes: Seq<Message>) -> PoolState
    decreases outcomes.len(),
{
    if outcomes.len() == 0 {
        s
    } else {
        step(drain(s, outcomes.drop_last()), outcomes.last())
    }
}

/// What holds of every reachable state.
pub open spec fn inv(s: PoolState) -> bool {
    &&& s.alive + s.retired == s.workers
    &&& s.consumed == s.retired
    &&& controls(s.queue) == s.triggers
    &&& forall|i: int| 0 <= i < s.queue.len() ==> is_quit(#[trigger] s.queue[i].task) || is_socket(s.queue[i].task)
    &&& forall|i: int| 0 <= i < s.queue.len() ==> #[trigger] s.queue[i].id < s.next_id
    &&& forall|i: int| 0 <= i < s.observed.len() ==> #[trigger] s.observed[i] < s.next_id
    &&& forall|i: int, j: int| 0 <= i < j < s.queue.len() ==> #[trigger] s.queue[i].id != #[trigger] s.queue[j].id
    &&& s.observed.no_duplicates()
    &&& forall|i: int, j: int| 0 <= i < s.queue.len() && 0 <= j < s.observed.len() ==> #[trigger] s.queue[i].id != #[trigger] s.observed[j]
}

proof fn lemma_count_push(q: Seq<Entry>, e: Entry, p: spec_fn(Task<()>) -> bool)
    ensures
        count(q.push(e), p) == count(q, p) + if p(e.task) { 1nat } else { 0nat },
{
    assert(q.push(e).drop_last() =~= q);
}

proof fn lemma_count_drop_first(q: Seq<Entry>, p: spec_fn(Task<()>) -> bool)
    requires
        q.len() > 0,
    ensures
        count(q, p) == count(q.drop_first(), p) + if p(q[0].task) { 1nat } else { 0nat },
    decreases q.len(),
{
    if q.len() > 1 {
        lemma_count_drop_first(q.drop_last(), p);
        assert(q.drop_last().drop_first() =~= q.drop_first().drop_last());
        assert(q.drop_first().last() == q.last());
        assert(q.drop_last()[0] == q[0]);
        assert(count(q.drop_first(), p) == count(q.drop_first().drop_last(), p) + if p(q.last().task) { 1nat } else { 0nat });
    } else {
        assert(count(q.drop_first(), p) == 0);
        assert(count(q.drop_last(), p) == 0);
    }
}

proof fn lemma_count_len(q: Seq<Entry>, p: spec_fn(Task<()>) -> bool)
    ensures
        count(q, p) <= q.len(),
    decreases q.len(),
{
    if q.len() > 0 {
        lemma_count_len(q.drop_last(), p);
    }
}

proof fn lemma_init(n: nat)
    ensures
        inv(init(n)),
{
    assert(init(n).observed.no_duplicates());
}

proof fn lemma_arrive(s: PoolState)
    requires
        inv(s),
    ensures
        inv(arrive(s)),
{
    let t = arrive(s);
    lemma_count_push(s.queue, Entry { id: s.next_id, task: Task::Socket(()) }, |t: Task<()>| is_quit(t));
    assert forall|i: int| 0 <= i < t.queue.len() implies is_quit(#[trigger] t.queue[i].task) || is_socket(t.queue[i].task) by {
        if i < s.queue.len() {
            assert(t.queue[i] == s.queue[i]);
        }
    }
    assert forall|i: int, j: int| 0 <= i < j < t.queue.len() implies #[trigger] t.queue[i].id != #[trigger] t.queue[j].id by {
        assert(t.queue[i] == s.queue[i]);
        if j < s.queue.len() {
            assert(t.queue[j] == s.queue[j]);
        }
    }
    assert forall|i: int, j: int| 0 <= i < t.queue.len() && 0 <= j < t.observed.len() implies #[trigger] t.queue[i].id != #[trigger] t.observed[j] by {
        if i < s.queue.len() {
            assert(t.queue[i] == s.queue[i]);
        }
    }
}

proof fn lemma_step(s: PoolState, outcome: Message)
    requires
        inv(s),
    ensures
        inv(step(s, outcome)),
{
    if enabled(s) {
        let t = step(s, outcome);
        let head = s.queue[0];
        let a = performed(head.task, outcome);
        let rest = s.queue.drop_first();
        let quit = |t: Task<()>| is_quit(t);
        lemma_count_drop_first(s.queue, quit);
        let fresh = Entry { id: s.next_id, task: Task::Message(Message::ShouldQuit) };
        lemma_count_push(rest, fresh, quit);
        assert(is_quit(head.task) || is_socket(head.task));
        assert forall|i: int| 0 <= i < t.queue.len() implies is_quit(#[trigger] t.queue[i].task) || is_socket(t.queue[i].task) by {
            if i < rest.len() {
                assert(t.queue[i] == s.queue[i + 1]);
            }
        }
        assert forall|i: int| 0 <= i < t.queue.len() implies #[trigger] t.queue[i].id < t.next_id by {
            if i < rest.len() {
                assert(t.queue[i] == s.queue[i + 1]);
            }
        }
        assert forall|i: int| 0 <= i < t.observed.len() implies #[trigger] t.observed[i] < t.next_id by {
            if i < s.observed.len() {
                assert(t.observed[i] == s.observed[i]);
            }
        }
        assert forall|i: int, j: int| 0 <= i < j < t.queue.len() implies #[trigger] t.queue[i].id != #[trigger] t.queue[j].id by {
            assert(t.queue[i] == s.queue[i + 1]);
            if j < rest.len() {
                assert(t.queue[j] == s.queue[j + 1]);
            }
        }
        assert forall|i: int, j: int| 0 <= i < t.observed.len() && 0 <= j < t.observed.len() && i != j implies t.observed[i] != t.observed[j] by {
            if i < s.observed.len() && j < s.observed.len() {
                assert(t.observed[i] == s.observed[i]);
                assert(t.observed[j] == s.observed[j]);
            } else if i < s.observed.len() {
                assert(t.observed[i] == s.observed[i]);
                assert(s.queue[0].id != s.observed[i]);
            } else {
                assert(t.observed[j] == s.observed[j]);
                assert(s.queue[0].id != s.observed[j]);
            }
        }
        assert forall|i: int, j: int| 0 <= i < t.queue.len() && 0 <= j < t.observed.len() implies #[trigger] t.queue[i].id != #[trigger] t.observed[j] by {
            if i < rest.len() {
                assert(t.queue[i] == s.queue[i + 1]);
                if j < s.observed.len() {
                    assert(t.observed[j] == s.observed[j]);
                } else {
                    assert(s.queue[i + 1].id != s.queue[0].id);
                }
            } else {
                if j < s.observed.len() {
                    assert(t.observed[j] == s.observed[j]);
                }
            }
        }
    }
}

proof fn lemma_run(n: nat, events: Seq<Event>)
    ensures
        inv(run(n, events)),
        run(n, events).workers == n,
    decreases events.len(),
{
    if events.len() == 0 {
        lemma_init(n);
    } else {
        lemma_run(n, events.drop_last());
        let s = run(n, events.drop_last());
        match events.last() {
            Event::Arrive => lemma_arrive(s),
            Event::Dequeue(m) => lemma_step(s, m),
        }
    }
}

/// Relay conservation: in every state that a pool of `n` workers can reach,
/// each `ShouldQuit` control task dequeued has stopped exactly one worker, and
/// the control tasks waiting in the queue are exactly as many as the
/// `ShouldQuit` outcomes yielded so far: relaying neither loses nor multiplies
/// the signal.
pub proof fn lemma_relay_conservation(n: nat, events: Seq<Event>)
    ensures
        run(n, events).consumed == run(n, events).retired,
        run(n, events).retired + run(n, events).alive == n,
        controls(run(n, events).queue) == run(n, events).triggers,
{
    lemma_run(n, events);
}

/// Exclusive dequeue: no item enqueued in the shared queue is ever dequeued by
/// two workers, nor twice by one.
pub proof fn lemma_dequeue_exclusive(n: nat, events: Seq<Event>)
    ensures
        run(n, events).observed.no_duplicates(),
{
    lemma_run(n, events);
}

/// Workers still running plus connections still waiting: each dequeue while a
/// worker runs takes one off.
pub open spec fn pending(s: PoolState) -> nat {
    s.alive + sockets(s.queue)
}

proof fn lemma_step_pending(s: PoolState, outcome: Message)
    requires
        inv(s),
        controls(s.queue) >= 1,
        s.alive > 0,
    ensures
        enabled(s),
        pending(step(s, outcome)) + 1 == pending(s),
        controls(step(s, outcome).queue) >= controls(s.queue),
{
    let quit = |t: Task<()>| is_quit(t);
    let sock = |t: Task<()>| is_socket(t);
    lemma_count_len(s.queue, quit);
    let head = s.queue[0];
    let rest = s.queue.drop_first();
    let fresh = Entry { id: s.next_id, task: Task::Message(Message::ShouldQuit) };
    lemma_count_drop_first(s.queue, quit);
    lemma_count_drop_first(s.queue, sock);
    lemma_count_push(rest, fresh, quit);
    lemma_count_push(rest, fresh, sock);
    assert(is_quit(head.task) || is_socket(head.task));
}

proof fn lemma_drain(s: PoolState, outcomes: Seq<Message>)
    requires
        inv(s),
        controls(s.queue) >= 1,
    ensures
        inv(drain(s, outcomes)),
        drain(s, outcomes).workers == s.workers,
        controls(drain(s, outcomes).queue) >= 1,
        drain(s, outcomes).alive == 0 || pending(drain(s, outcomes)) + outcomes.len() == pending(s),
    decreases outcomes.len(),
{
    if outcomes.len() > 0 {
        lemma_drain(s, outcomes.drop_last());
        let d = drain(s, outcomes.drop_last());
        lemma_step(d, outcomes.last());
        if d.alive > 0 {
            lemma_step_pending(d, outcomes.last());
        }
    }
}

/// Termination: once a `ShouldQuit` outcome has been yielded, every worker of
/// the pool stops within as many dequeues as there are running workers and
/// waiting connections, whatever the outcomes of the connections served
/// meanwhile; with no connection waiting that is one relay per running worker.
pub proof fn lemma_termination(n: nat, events: Seq<Event>, outcomes: Seq<Message>)
    requires
        run(n, events).triggers >= 1,
        outcomes.len() >= pending(run(n, events)),
    ensures
        drain(run(n, events), outcomes).alive == 0,
        drain(run(n, events), outcomes).retired == n,
{
    lemma_run(n, events);
    lemma_drain(run(n, events), outcomes);
}

/// No signal loss: a `ShouldQuit` outcome puts exactly one more control task
/// in the queue, and some worker that was running when it came stops later on.
pub proof fn lemma_no_signal_loss(n: nat, events: Seq<Event>, later: Seq<Message>)
    requires
        enabled(run(n, events)),
        is_socket(run(n, events).queue[0].task),
        later.len() >= pending(step(run(n, events), Message::ShouldQuit)),
    ensures
        controls(step(run(n, events), Message::ShouldQuit).queue) == controls(run(n, events).queue) + 1,
        drain(step(run(n, events), Message::ShouldQuit), later).retired > run(n, events).retired,
{
    let s = run(n, events);
    let t = step(s, Message::ShouldQuit);
    lemma_run(n, events);
    lemma_step(s, Message::ShouldQuit);
    let quit = |t: Task<()>| is_quit(t);
    lemma_count_drop_first(s.queue, quit);
    lemma_count_push(s.queue.drop_first(), Entry { id: s.next_id, task: Task::Message(Message::ShouldQuit) }, quit);
    lemma_drain(t, later);
}

/// Work isolation: a `Success` outcome enqueues nothing and stops no worker.
pub proof fn lemma_work_isolation(n: nat, events: Seq<Event>)
    requires
        enabled(run(n, events)),
        is_socket(run(n, events).queue[0].task),
    ensures
        step(run(n, events), Message::Success).queue == run(n, events).queue.drop_first(),
        step(run(n, events), Message::Success).alive == run(n, events).alive,
        step(run(n, events), Message::Success).retired == run(n, events).retired,
        step(run(n, events), Message::Success).triggers == run(n, events).triggers,
{
}

} // verus!
