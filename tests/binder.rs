use uds_pool::{BindEvent, BindStep, Binder, Stage};

fn drive(workers: usize, exists: bool, joins: &[bool]) -> (Binder, Vec<BindStep>) {
    let mut b = Binder::new(workers);
    let mut steps = Vec::new();
    let mut step = b.next(BindEvent::Checked(exists));
    let mut j = 0;
    loop {
        steps.push(step);
        let event = match step {
            BindStep::RemoveEntry => BindEvent::Removed(true),
            BindStep::BindSocket => BindEvent::Bound(true),
            BindStep::SpawnWorker => BindEvent::WorkerSpawned,
            BindStep::SpawnListener => BindEvent::ListenerSpawned,
            BindStep::JoinWorker => {
                j += 1;
                BindEvent::WorkerJoined(joins[j - 1])
            }
            BindStep::Finish | BindStep::Fail => break,
        };
        step = b.next(event);
    }
    (b, steps)
}

#[test]
fn stale_entry_is_removed_before_binding() {
    let (b, steps) = drive(1, true, &[true]);
    assert_eq!(
        steps,
        vec![
            BindStep::RemoveEntry,
            BindStep::BindSocket,
            BindStep::SpawnWorker,
            BindStep::SpawnListener,
            BindStep::JoinWorker,
            BindStep::Finish,
        ]
    );
    assert_eq!(b.stage, Stage::Done);
}

#[test]
fn cleanup_is_idempotent() {
    let (with_entry, mut steps_with) = drive(2, true, &[true, true]);
    let (without_entry, steps_without) = drive(2, false, &[true, true]);
    assert_eq!(with_entry, without_entry);
    assert_eq!(steps_with.remove(0), BindStep::RemoveEntry);
    assert_eq!(steps_with, steps_without);
}

#[test]
fn spawns_and_joins_every_worker() {
    let (b, steps) = drive(3, false, &[true, true, true]);
    assert_eq!(steps.iter().filter(|s| **s == BindStep::SpawnWorker).count(), 3);
    assert_eq!(steps.iter().filter(|s| **s == BindStep::JoinWorker).count(), 3);
    assert_eq!(b.spawned, 3);
    assert_eq!(b.joined, 3);
    assert_eq!(*steps.last().unwrap(), BindStep::Finish);
}

#[test]
fn abnormal_worker_exit_is_counted_not_fatal() {
    let (b, steps) = drive(3, false, &[true, false, true]);
    assert_eq!(b.stage, Stage::Done);
    assert_eq!(b.join_failures, 1);
    assert_eq!(*steps.last().unwrap(), BindStep::Finish);
}

#[test]
fn removal_failure_is_fatal() {
    let mut b = Binder::new(2);
    assert_eq!(b.next(BindEvent::Checked(true)), BindStep::RemoveEntry);
    assert_eq!(b.next(BindEvent::Removed(false)), BindStep::Fail);
    assert_eq!(b.stage, Stage::Failed);
    assert_eq!(b.spawned, 0);
}

#[test]
fn bind_failure_is_fatal() {
    let mut b = Binder::new(2);
    assert_eq!(b.next(BindEvent::Checked(false)), BindStep::BindSocket);
    assert_eq!(b.next(BindEvent::Bound(false)), BindStep::Fail);
    assert_eq!(b.spawned, 0);
}

#[test]
fn out_of_order_event_fails() {
    let mut b = Binder::new(2);
    assert_eq!(b.next(BindEvent::WorkerSpawned), BindStep::Fail);
}

#[test]
fn one_worker_no_connection_waits_on_join() {
    let mut b = Binder::new(1);
    assert_eq!(b.next(BindEvent::Checked(false)), BindStep::BindSocket);
    assert_eq!(b.next(BindEvent::Bound(true)), BindStep::SpawnWorker);
    assert_eq!(b.next(BindEvent::WorkerSpawned), BindStep::SpawnListener);
    assert_eq!(b.next(BindEvent::ListenerSpawned), BindStep::JoinWorker);
    assert_eq!(b.stage, Stage::Joining);
}

#[test]
fn zero_workers_finish_after_listener() {
    let (b, steps) = drive(0, false, &[]);
    assert_eq!(steps, vec![BindStep::BindSocket, BindStep::SpawnListener, BindStep::Finish]);
    assert_eq!(b.stage, Stage::Done);
}
