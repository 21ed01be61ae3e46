use vstd::prelude::*;

use crate::options::Options;

verus! {

/// A listener to be bound at `path`, served by a pool of workers that each
/// drive their own copy of `provider`.
pub struct UnixDomainSocket<T> {
    path: String,
    options: Options,
    provider: T,
}

impl<T> UnixDomainSocket<T> {
    pub closed spec fn spec_path(&self) -> Seq<char> {
        self.path@
    }

    pub closed spec fn spec_options(&self) -> Options {
        self.options
    }

    pub closed spec fn spec_provider(&self) -> T {
        self.provider
    }

    /// Keeps the path and the provider; without options, one worker per
    /// available processing unit.
    pub fn new(path: String, options: Option<Options>, provider: T) -> (r: Self)
        ensures
            r.spec_path() == path@,
            r.spec_provider() == provider,
            options is Some ==> r.spec_options() == options.unwrap(),
            options is None ==> r.spec_options().workers >= 1,
    {
        let options = match options {
            Some(o) => o,
            None => Options::default(),
        };
        UnixDomainSocket { path, options, provider }
    }

    pub fn path(&self) -> (r: &String)
        ensures
            r@ == self.spec_path(),
    {
        &self.path
    }

    pub fn options(&self) -> (r: Options)
        ensures
            r == self.spec_options(),
    {
        self.options
    }

    pub fn provider(&self) -> (r: &T)
        ensures
            *r == self.spec_provider(),
    {
        &self.provider
    }
}

/// Where the binder stands in its lifecycle.
#[derive(Debug, Clone, Copy, PartialEq, Eq, Structural)]
pub enum Stage {
    /// Nothing done yet.
    Start,
    /// A stale entry at the path is being removed.
    Cleaning,
    /// The listening socket is being bound.
    Binding,
    /// Worker threads are being spawned.
    Spawning,
    /// The listener thread is being spawned.
    Listening,
    /// Worker threads are being joined.
    Joining,
    /// Every worker has returned.
    Done,
    /// A fatal step failed, or an event came out of order.
    Failed,
}

/// What the binder reports back after each piece of outside work.
#[derive(Debug, Clone, Copy, PartialEq, Eq, Structural)]
pub enum BindEvent {
    /// Whether an entry already exists at the path.
    Checked(bool),
    /// Whether the stale entry was removed.
    Removed(bool),
    /// Whether the socket was bound.
    Bound(bool),
    /// One more worker thread runs.
    WorkerSpawned,
    /// The listener thread runs.
    ListenerSpawned,
    /// One worker thread returned; `false` if it ended abnormally.
    WorkerJoined(bool),
}

/// The next piece of outside work the binder asks for.
#[derive(Debug, Clone, Copy, PartialEq, Eq, Structural)]
pub enum BindStep {
    RemoveEntry,
    BindSocket,
    SpawnWorker,
    SpawnListener,
    JoinWorker,
    /// Return success.
    Finish,
    /// Return the error of the failed step.
    Fail,
}

/// Lifecycle of a pool: clean the path, bind, spawn the workers and the
/// listener, then join every worker.
#[derive(Debug, Clone, Copy, PartialEq, Eq, Structural)]
pub struct Binder {
    pub stage: Stage,
    /// Worker threads to spawn and join.
    pub workers: usize,
    pub spawned: usize,
    pub joined: usize,
    /// Workers that ended abnormally; reported, never fatal.
    pub join_failures: usize,
}

/// A binder for `workers` threads before any work.
pub open spec fn fresh_binder(workers: usize) -> Binder {
    Binder { stage: Stage::Start, workers, spawned: 0, joined: 0, join_failures: 0 }
}

/// The binder after `e`, and the work it asks for next.
pub open spec fn next_spec(b: Binder, e: BindEvent) -> (Binder, BindStep) {
    match (b.stage, e) {
        (Stage::Start, BindEvent::Checked(true)) => (Binder { stage: Stage::Cleaning, ..b }, BindStep::RemoveEntry),
        (Stage::Start, BindEvent::Checked(false)) => (Binder { stage: Stage::Binding, ..b }, BindStep::BindSocket),
        (Stage::Cleaning, BindEvent::Removed(true)) => (Binder { stage: Stage::Binding, ..b }, BindStep::BindSocket),
        (Stage::Binding, BindEvent::Bound(true)) => if b.workers > 0 {
            (Binder { stage: Stage::Spawning, ..b }, BindStep::SpawnWorker)
        } else {
            (Binder { stage: Stage::Listening, ..b }, BindStep::SpawnListener)
        },
        (Stage::Spawning, BindEvent::WorkerSpawned) => if b.spawned + 1 < b.workers {
            (Binder { spawned: (b.spawned + 1) as usize, ..b }, BindStep::SpawnWorker)
        } else {
            (Binder { stage: Stage::Listening, spawned: (b.spawned + 1) as usize, ..b }, BindStep::SpawnListener)
        },
        (Stage::Listening, BindEvent::ListenerSpawned) => if b.workers > 0 {
            (Binder { stage: Stage::Joining, ..b }, BindStep::JoinWorker)
        } else {
            (Binder { stage: Stage::Done, ..b }, BindStep::Finish)
        },
        (Stage::Joining, BindEvent::WorkerJoined(ok)) => {
            let failures = if ok { b.join_failures } else { (b.join_failures + 1) as usize };
            if b.joined + 1 < b.workers {
                (Binder { joined: (b.joined + 1) as usize, join_failures: failures, ..b }, BindStep::JoinWorker)
            } else {
                (Binder { stage: Stage::Done, joined: (b.joined + 1) as usize, join_failures: failures, ..b }, BindStep::Finish)
            }
        },
        _ => (Binder { stage: Stage::Failed, ..b }, BindStep::Fail),
    }
}

impl Binder {
    /// Counters stay within the worker count, and each stage has the counts it
    /// implies.
    pub open spec fn wf(&self) -> bool {
        &&& self.spawned <= self.workers
        &&& self.joined <= self.spawned
        &&& self.join_failures <= self.joined
        &&& (self.stage is Start || self.stage is Cleaning || self.stage is Binding) ==> self.spawned == 0
        &&& self.stage is Spawning ==> self.spawned < self.workers && self.joined == 0
        &&& (self.stage is Listening || self.stage is Joining) ==> self.spawned == self.workers
        &&& self.stage is Joining ==> self.joined < self.workers
        &&& self.stage is Done ==> self.joined == self.workers && self.spawned == self.workers
        &&& (self.stage is Start || self.stage is Cleaning || self.stage is Binding || self.stage is Spawning
            || self.stage is Listening) ==> self.joined == 0
    }

    /// A binder for a pool of `workers` threads, before any work.
    pub fn new(workers: usize) -> (r: Binder)
        ensures
            r == fresh_binder(workers),
            r.wf(),
    {
        Binder { stage: Stage::Start, workers, spawned: 0, joined: 0, join_failures: 0 }
    }

    /// Takes in the result of the last piece of work and says what comes next.
    pub fn next(&mut self, e: BindEvent) -> (step: BindStep)
        requires
            old(self).wf(),
        ensures
            (*final(self), step) == next_spec(*old(self), e),
            final(self).wf(),
    {
        let b = *self;
        let (nb, step) = match (b.stage, e) {
            (Stage::Start, BindEvent::Checked(true)) => (Binder { stage: Stage::Cleaning, ..b }, BindStep::RemoveEntry),
            (Stage::Start, BindEvent::Checked(false)) => (Binder { stage: Stage::Binding, ..b }, BindStep::BindSocket),
            (Stage::Cleaning, BindEvent::Removed(true)) => (Binder { stage: Stage::Binding, ..b }, BindStep::BindSocket),
            (Stage::Binding, BindEvent::Bound(true)) => if b.workers > 0 {
                (Binder { stage: Stage::Spawning, ..b }, BindStep::SpawnWorker)
            } else {
                (Binder { stage: Stage::Listening, ..b }, BindStep::SpawnListener)
            },
            (Stage::Spawning, BindEvent::WorkerSpawned) => if b.spawned + 1 < b.workers {
                (Binder { spawned: b.spawned + 1, ..b }, BindStep::SpawnWorker)
            } else {
                (Binder { stage: Stage::Listening, spawned: b.spawned + 1, ..b }, BindStep::SpawnListener)
            },
            (Stage::Listening, BindEvent::ListenerSpawned) => if b.workers > 0 {
                (Binder { stage: Stage::Joining, ..b }, BindStep::JoinWorker)
            } else {
                (Binder { stage: Stage::Done, ..b }, BindStep::Finish)
            },
            (Stage::Joining, BindEvent::WorkerJoined(ok)) => {
                let failures = if ok { b.join_failures } else { b.join_failures + 1 };
                if b.joined + 1 < b.workers {
                    (Binder { joined: b.joined + 1, join_failures: failures, ..b }, BindStep::JoinWorker)
                } else {
                    (Binder { stage: Stage::Done, joined: b.joined + 1, join_failures: failures, ..b }, BindStep::Finish)
                }
            },
            _ => (Binder { stage: Stage::Failed, ..b }, BindStep::Fail),
        };
        *self = nb;
        step
    }
}

/// Idempotent cleanup: a path that holds a stale entry, once that entry is
/// removed, leaves the binder exactly where a path with no entry does.
pub proof fn lemma_cleanup_idempotent(workers: usize)
    ensures
        next_spec(next_spec(fresh_binder(workers), BindEvent::Checked(true)).0, BindEvent::Removed(true))
            == next_spec(fresh_binder(workers), BindEvent::Checked(false)),
{
}

/// The binder after taking in `events` in order.
pub open spec fn feed(b: Binder, events: Seq<BindEvent>) -> Binder
    decreases events.len(),
{
    if events.len() == 0 {
        b
    } else {
        next_spec(feed(b, events.drop_last()), events.last()).0
    }
}

/// `k` worker threads reported running.
pub open spec fn spawns(k: nat) -> Seq<BindEvent> {
    Seq::new(k, |_i: int| BindEvent::WorkerSpawned)
}

/// Worker threads reported returned, normally or not.
pub open spec fn joins(oks: Seq<bool>) -> Seq<BindEvent> {
    oks.map_values(|ok: bool| BindEvent::WorkerJoined(ok))
}

/// Number of `false` in `oks`.
pub open spec fn failures(oks: Seq<bool>) -> nat
    decreases oks.len(),
{
    if oks.len() == 0 {
        0
    } else {
        failures(oks.drop_last()) + if oks.last() { 0nat } else { 1nat }
    }
}

/// The events of a bind where every fatal step succeeds: the path check (and
/// the removal of a stale entry), the bind, the workers, the listener, and the
/// join of each worker.
pub open spec fn successful_run(exists: bool, workers: nat, oks: Seq<bool>) -> Seq<BindEvent> {
    let prefix = if exists {
        seq![BindEvent::Checked(true), BindEvent::Removed(true), BindEvent::Bound(true)]
    } else {
        seq![BindEvent::Checked(false), BindEvent::Bound(true)]
    };
    prefix + spawns(workers) + seq![BindEvent::ListenerSpawned] + joins(oks)
}

proof fn lemma_feed_append(b: Binder, a: Seq<BindEvent>, c: Seq<BindEvent>)
    ensures
        feed(b, a + c) == feed(feed(b, a), c),
    decreases c.len(),
{
    if c.len() == 0 {
        assert(a + c =~= a);
    } else {
        lemma_feed_append(b, a, c.drop_last());
        assert((a + c).drop_last() =~= a + c.drop_last());
        assert((a + c).last() == c.last());
    }
}

proof fn lemma_next_wf(b: Binder, e: BindEvent)
    requires
        b.wf(),
    ensures
        next_spec(b, e).0.wf(),
        next_spec(b, e).0.workers == b.workers,
{
}

proof fn lemma_spawn_phase(b: Binder, k: nat)
    requires
        b.wf(),
        b.stage is Spawning,
        b.spawned + k <= b.workers,
    ensures
        feed(b, spawns(k)).wf(),
        feed(b, spawns(k)).workers == b.workers,
        feed(b, spawns(k)).joined == 0,
        feed(b, spawns(k)).spawned == b.spawned + k,
        feed(b, spawns(k)).join_failures == b.join_failures,
        b.spawned + k < b.workers ==> feed(b, spawns(k)).stage is Spawning,
        b.spawned + k == b.workers && k > 0 ==> feed(b, spawns(k)).stage is Listening,
    decreases k,
{
    if k > 0 {
        lemma_spawn_phase(b, (k - 1) as nat);
        assert(spawns(k).drop_last() =~= spawns((k - 1) as nat));
        lemma_next_wf(feed(b, spawns((k - 1) as nat)), BindEvent::WorkerSpawned);
    } else {
        assert(spawns(0).len() == 0);
    }
}

proof fn lemma_join_phase(b: Binder, oks: Seq<bool>)
    requires
        b.wf(),
        b.stage is Joining,
        b.joined + oks.len() <= b.workers,
    ensures
        feed(b, joins(oks)).wf(),
        feed(b, joins(oks)).workers == b.workers,
        feed(b, joins(oks)).spawned == b.spawned,
        feed(b, joins(oks)).joined == b.joined + oks.len(),
        feed(b, joins(oks)).join_failures == b.join_failures + failures(oks),
        b.joined + oks.len() < b.workers ==> feed(b, joins(oks)).stage is Joining,
        b.joined + oks.len() == b.workers && oks.len() > 0 ==> feed(b, joins(oks)).stage is Done,
    decreases oks.len(),
{
    if oks.len() > 0 {
        lemma_join_phase(b, oks.drop_last());
        assert(joins(oks).drop_last() =~= joins(oks.drop_last()));
        assert(joins(oks).last() == BindEvent::WorkerJoined(oks.last()));
        lemma_next_wf(feed(b, joins(oks.drop_last())), BindEvent::WorkerJoined(oks.last()));
    } else {
        assert(joins(oks).len() == 0);
    }
}

/// Lifecycle: when the path check, the removal of a stale entry, and the bind
/// succeed, the binder spawns exactly `workers` worker threads, joins every one
/// of them, and ends done, however many of them ended abnormally; those are
/// counted, never fatal.
pub proof fn lemma_bind_lifecycle(exists: bool, workers: usize, oks: Seq<bool>)
    requires
        workers > 0,
        oks.len() == workers,
    ensures
        feed(fresh_binder(workers), successful_run(exists, workers as nat, oks)).stage == Stage::Done,
        feed(fresh_binder(workers), successful_run(exists, workers as nat, oks)).spawned == workers,
        feed(fresh_binder(workers), successful_run(exists, workers as nat, oks)).joined == workers,
        feed(fresh_binder(workers), successful_run(exists, workers as nat, oks)).join_failures == failures(oks),
{
    let b0 = fresh_binder(workers);
    let prefix = if exists {
        seq![BindEvent::Checked(true), BindEvent::Removed(true), BindEvent::Bound(true)]
    } else {
        seq![BindEvent::Checked(false), BindEvent::Bound(true)]
    };
    let sp = spawns(workers as nat);
    let ls = seq![BindEvent::ListenerSpawned];
    let js = joins(oks);
    lemma_feed_append(b0, prefix, sp);
    lemma_feed_append(b0, prefix + sp, ls);
    lemma_feed_append(b0, prefix + sp + ls, js);
    let b1 = feed(b0, prefix);
    if exists {
        let p1 = prefix.drop_last().drop_last();
        assert(p1.drop_last().len() == 0);
        assert(feed(b0, p1.drop_last()) == b0);
        assert(p1.last() == BindEvent::Checked(true));
        assert(prefix.drop_last().last() == BindEvent::Removed(true));
        assert(feed(b0, p1) == next_spec(b0, BindEvent::Checked(true)).0);
        assert(feed(b0, prefix.drop_last()) == next_spec(feed(b0, p1), BindEvent::Removed(true)).0);
        assert(b1 == next_spec(feed(b0, prefix.drop_last()), BindEvent::Bound(true)).0);
    } else {
        let p1 = prefix.drop_last();
        assert(p1.drop_last().len() == 0);
        assert(feed(b0, p1.drop_last()) == b0);
        assert(p1.last() == BindEvent::Checked(false));
        assert(feed(b0, p1) == next_spec(b0, BindEvent::Checked(false)).0);
        assert(b1 == next_spec(feed(b0, p1), BindEvent::Bound(true)).0);
    }
    assert(b1.stage is Spawning && b1.spawned == 0 && b1.joined == 0 && b1.join_failures == 0);
    lemma_spawn_phase(b1, workers as nat);
    let b2 = feed(b1, sp);
    assert(ls.drop_last().len() == 0);
    assert(feed(b2, ls.drop_last()) == b2);
    let b3 = feed(b2, ls);
    assert(b3 == next_spec(b2, BindEvent::ListenerSpawned).0);
    assert(b3.stage is Joining);
    lemma_join_phase(b3, oks);
}

} // verus!
