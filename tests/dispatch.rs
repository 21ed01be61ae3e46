use std::collections::VecDeque;

use uds_pool::{dispatch, on_outcome, Action, Message, Options, Task, UnixDomainSocket};

#[test]
fn socket_task_is_served() {
    let a = dispatch(Some(Task::Socket(7u32)));
    assert!(matches!(a, Action::Serve(7)));
}

#[test]
fn control_task_relays_and_stops() {
    let a = dispatch::<u32>(Some(Task::Message(Message::ShouldQuit)));
    assert!(matches!(a, Action::RelayAndStop));
}

#[test]
fn success_message_in_queue_is_ignored() {
    let a = dispatch::<u32>(Some(Task::Message(Message::Success)));
    assert!(matches!(a, Action::Idle));
}

#[test]
fn closed_queue_stops_without_relay() {
    let a = dispatch::<u32>(None);
    assert!(matches!(a, Action::Stop));
}

#[test]
fn should_quit_outcome_relays_and_keeps_running() {
    let a = on_outcome::<u32>(Message::ShouldQuit);
    assert!(matches!(a, Action::Relay));
}

#[test]
fn success_outcome_is_discarded() {
    let a = on_outcome::<u32>(Message::Success);
    assert!(matches!(a, Action::Idle));
}

#[test]
fn default_options_have_a_worker() {
    assert!(Options::default().workers >= 1);
}

#[test]
fn new_keeps_given_options() {
    let uds = UnixDomainSocket::new(String::from("/tmp/pool.sock"), Some(Options { workers: 3 }), 5u8);
    assert_eq!(uds.options().workers, 3);
    assert_eq!(uds.path().as_str(), "/tmp/pool.sock");
    assert_eq!(*uds.provider(), 5u8);
}

#[test]
fn new_without_options_uses_processing_units() {
    let uds = UnixDomainSocket::new(String::from("s"), None, ());
    assert!(uds.options().workers >= 1);
}

/// Runs `workers` workers round robin over one queue. Each connection carries
/// the outcome its unit of work yields. Returns the order in which workers
/// stopped and what is left in the queue.
fn simulate(workers: usize, queue: Vec<Task<Message>>) -> (Vec<usize>, VecDeque<Task<Message>>) {
    let mut queue: VecDeque<Task<Message>> = queue.into_iter().collect();
    let mut alive = vec![true; workers];
    let mut stopped = Vec::new();
    let mut turn = 0;
    while alive.iter().any(|a| *a) {
        if !alive[turn] {
            turn = (turn + 1) % workers;
            continue;
        }
        let task = match queue.pop_front() {
            Some(t) => t,
            None => break,
        };
        let mut action = dispatch(Some(task));
        if let Action::Serve(outcome) = action {
            action = on_outcome(outcome);
        }
        match action {
            Action::Relay => queue.push_back(Task::Message(Message::ShouldQuit)),
            Action::RelayAndStop => {
                queue.push_back(Task::Message(Message::ShouldQuit));
                alive[turn] = false;
                stopped.push(turn);
            }
            Action::Stop => {
                alive[turn] = false;
                stopped.push(turn);
            }
            Action::Idle | Action::Serve(_) => (),
        }
        turn = (turn + 1) % workers;
    }
    (stopped, queue)
}

#[test]
fn three_workers_drain_on_one_should_quit() {
    let (stopped, left) = simulate(3, vec![Task::Socket(Message::ShouldQuit)]);
    let mut sorted = stopped.clone();
    sorted.sort();
    assert_eq!(sorted, vec![0, 1, 2]);
    assert_eq!(left.len(), 1);
    assert!(matches!(left[0], Task::Message(Message::ShouldQuit)));
}

#[test]
fn success_outcomes_stop_nobody() {
    let (stopped, left) = simulate(
        2,
        vec![Task::Socket(Message::Success), Task::Socket(Message::Success)],
    );
    assert!(stopped.is_empty());
    assert!(left.is_empty());
}

#[test]
fn connections_are_still_served_while_relaying() {
    let (stopped, left) = simulate(
        2,
        vec![
            Task::Socket(Message::ShouldQuit),
            Task::Socket(Message::Success),
            Task::Socket(Message::Success),
        ],
    );
    assert_eq!(stopped.len(), 2);
    assert_eq!(left.len(), 1);
}

#[test]
fn two_triggers_leave_two_trailing_signals() {
    let (stopped, left) = simulate(
        3,
        vec![Task::Socket(Message::ShouldQuit), Task::Socket(Message::ShouldQuit)],
    );
    assert_eq!(stopped.len(), 3);
    assert_eq!(left.len(), 2);
}

#[test]
fn single_worker_with_no_connection_never_stops() {
    let (stopped, left) = simulate(1, Vec::new());
    assert!(stopped.is_empty());
    assert!(left.is_empty());
}
