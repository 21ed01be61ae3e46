use vstd::prelude::*;

verus! {

/// Outcome of one unit of work, and the payload of a control task.
#[derive(Debug, Clone, Copy, PartialEq, Eq, Structural)]
pub enum Message {
    /// Stop taking further tasks; the pool winds down one worker at a time.
    ShouldQuit,
    /// The unit of work finished with no error.
    Success,
}

/// An item of the shared queue, generic over the connection handle `S`.
pub enum Task<S> {
    /// Communication between workers.
    Message(Message),
    /// A connection accepted by the listener.
    Socket(S),
}

} // verus!
