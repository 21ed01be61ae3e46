//! Dispatch core of a Unix-domain-socket server: the tasks that travel through
//! the shared queue, the decisions each worker takes on them, the relay protocol
//! that shuts the pool down, and the lifecycle of the binder.

pub mod communication;
pub mod options;
pub mod pool;
pub mod uds;
pub mod worker;

pub use communication::{Message, Task};
pub use options::Options;
pub use uds::{Binder, BindEvent, BindStep, Stage, UnixDomainSocket};
pub use worker::{dispatch, on_outcome, Action};
