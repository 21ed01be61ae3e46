use vstd::prelude::*;

use crate::communication::{Message, Task};

verus! {

/// What a worker does next.
pub enum Action<S> {
    /// Hand the connection to a fresh copy of the task provider and drive it to
    /// completion.
    Serve(S),
    /// Enqueue one `ShouldQuit` control task and keep dequeuing.
    Relay,
    /// Enqueue one `ShouldQuit` control task, then stop for good.
    RelayAndStop,
    /// Nothing to do: dequeue the next task.
    Idle,
    /// Stop for good without enqueuing anything: the queue has no producer left.
    Stop,
}

/// The action a worker takes on what it dequeued; `None` stands for a queue
/// whose producers are all gone.
pub open spec fn dispatch_spec<S>(received: Option<Task<S>>) -> Action<S> {
    match received {
        None => Action::Stop,
        Some(Task::Socket(s)) => Action::Serve(s),
        Some(Task::Message(Message::ShouldQuit)) => Action::RelayAndStop,
        Some(Task::Message(Message::Success)) => Action::Idle,
    }
}

/// The action a worker takes on the outcome of a unit of work it served.
pub open spec fn outcome_spec<S>(m: Message) -> Action<S> {
    match m {
        Message::ShouldQuit => Action::Relay,
        Message::Success => Action::Idle,
    }
}

/// Whether the action enqueues a `ShouldQuit` control task.
pub open spec fn relays<S>(a: Action<S>) -> bool {
    a is Relay || a is RelayAndStop
}

/// Whether the worker ends its loop after the action.
pub open spec fn stops<S>(a: Action<S>) -> bool {
    a is RelayAndStop || a is Stop
}

/// Decides what a worker does with the result of a dequeue.
pub fn dispatch<S>(received: Option<Task<S>>) -> (a: Action<S>)
    ensures
        a == dispatch_spec(received),
{
    match received {
        None => Action::Stop,
        Some(Task::Socket(s)) => Action::Serve(s),
        Some(Task::Message(m)) => {
            if m == Message::ShouldQuit {
                Action::RelayAndStop
            } else {
                Action::Idle
            }
        },
    }
}

/// Decides what a worker does once a unit of work has yielded `m`.
pub fn on_outcome<S>(m: Message) -> (a: Action<S>)
    ensures
        a == outcome_spec::<S>(m),
{
    if m == Message::ShouldQuit {
        Action::Relay
    } else {
        Action::Idle
    }
}

} // verus!
