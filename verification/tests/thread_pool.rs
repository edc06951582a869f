use rust_server::thread_pool::{valid_size, worker_step, WorkerEvent, WorkerState};

#[test]
fn a_worker_runs_what_it_receives() {
    assert_eq!(
        WorkerState::Running,
        worker_step(WorkerState::Waiting, WorkerEvent::Received)
    );
    assert_eq!(
        WorkerState::Waiting,
        worker_step(WorkerState::Running, WorkerEvent::Returned)
    );
}

#[test]
fn a_panic_returns_the_worker_to_its_wait() {
    let mut state = WorkerState::Waiting;
    state = worker_step(state, WorkerEvent::Received);
    state = worker_step(state, WorkerEvent::Panicked);
    assert_eq!(WorkerState::Waiting, state);
    state = worker_step(state, WorkerEvent::Received);
    assert_eq!(WorkerState::Running, state);
    state = worker_step(state, WorkerEvent::Returned);
    assert_eq!(WorkerState::Waiting, state);
}

#[test]
fn a_worker_exits_when_the_queue_is_closed() {
    assert_eq!(
        WorkerState::Exited,
        worker_step(WorkerState::Waiting, WorkerEvent::Closed)
    );
    for event in [
        WorkerEvent::Received,
        WorkerEvent::Closed,
        WorkerEvent::Returned,
        WorkerEvent::Panicked,
    ] {
        assert_eq!(WorkerState::Exited, worker_step(WorkerState::Exited, event));
    }
}

#[test]
fn events_out_of_turn_change_nothing() {
    assert_eq!(
        WorkerState::Waiting,
        worker_step(WorkerState::Waiting, WorkerEvent::Returned)
    );
    assert_eq!(
        WorkerState::Waiting,
        worker_step(WorkerState::Waiting, WorkerEvent::Panicked)
    );
    assert_eq!(
        WorkerState::Running,
        worker_step(WorkerState::Running, WorkerEvent::Received)
    );
    assert_eq!(
        WorkerState::Running,
        worker_step(WorkerState::Running, WorkerEvent::Closed)
    );
}

#[test]
fn a_pool_needs_a_worker() {
    assert!(!valid_size(0));
    assert!(valid_size(1));
    assert!(valid_size(4));
}
