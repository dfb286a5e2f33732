use task_scheduler::codec::{encode_notification, Notification};
use task_scheduler::config::ServerConfig;
use task_scheduler::executor::{
    listener_step, record_outcome, sleep_duration_micros, ExecutorState, IngressDecision,
    ListenerAction, QueueEvent, QueueStep,
};
use task_scheduler::store::{ClaimOutcome, TaskStore};
use task_scheduler::task::{Task, TaskStatus, TaskType};
use task_scheduler::time::Timestamp;

fn config() -> ServerConfig {
    ServerConfig {
        print_config_on_startup: false,
        listen_port: 3000,
        max_seconds_to_sleep: 60,
        look_for_new_tasks_interval: 300,
        max_concurrent_tasks_in_memory: 3,
        max_concurrent_executing_tasks: 2,
    }
}

fn at(second: u8) -> Timestamp {
    Timestamp { year: 2024, month: 11, day: 24, hour: 20, minute: 0, second, micro: 0 }
}

fn task(id: u128, second: u8) -> Task {
    Task { id, task_type: TaskType::Foo, execution_time: at(second) }
}

#[test]
fn ingress_submits_a_due_untracked_task() {
    let state = ExecutorState::new(config());
    let now = at(0).to_micros();
    assert_eq!(
        state.ingress_decision(&task(1, 30), now, 10),
        IngressDecision::Submit
    );
}

#[test]
fn ingress_suppresses_duplicates_while_tracked() {
    let mut state = ExecutorState::new(config());
    state.track_id(1);
    let now = at(0).to_micros();
    assert_eq!(
        state.ingress_decision(&task(1, 30), now, 10),
        IngressDecision::AlreadyQueued
    );
    // once the task finished locally, its id is presented again
    state.untrack_id(1);
    assert_eq!(
        state.ingress_decision(&task(1, 30), now, 10),
        IngressDecision::Submit
    );
}

#[test]
fn ingress_defers_tasks_beyond_the_horizon() {
    let state = ExecutorState::new(config());
    let now = at(0).to_micros();
    // due 61 seconds out, one past the 60 second horizon
    let far = Task { id: 2, task_type: TaskType::Bar, execution_time: at(61) };
    assert_eq!(
        state.ingress_decision(&far, now, 10),
        IngressDecision::BeyondHorizon
    );
    // exactly on the horizon is still submitted
    let edge = Task { id: 3, task_type: TaskType::Bar, execution_time: at(60) };
    assert_eq!(state.ingress_decision(&edge, now, 10), IngressDecision::Submit);
}

#[test]
fn ingress_backs_off_when_channel_is_nearly_full() {
    let state = ExecutorState::new(config());
    let now = at(0).to_micros();
    assert_eq!(
        state.ingress_decision(&task(1, 30), now, 9),
        IngressDecision::ChannelBusy
    );
}

#[test]
fn work_queue_spawns_only_with_a_free_sleep_permit() {
    let mut state = ExecutorState::new(config());
    let event = QueueEvent::Task(task(1, 30));
    assert_eq!(state.work_queue_step(&event), QueueStep::Spawn(task(1, 30)));
    state.acquire_sleep_permit();
    state.acquire_sleep_permit();
    state.acquire_sleep_permit();
    // all three sleep permits are out: the task is dropped, the sweeper retries
    assert_eq!(state.work_queue_step(&event), QueueStep::DropNoPermit(1));
    state.release_sleep_permit();
    assert_eq!(state.work_queue_step(&event), QueueStep::Spawn(task(1, 30)));
    assert_eq!(
        state.work_queue_step(&QueueEvent::Stop),
        QueueStep::StopLoop
    );
}

#[test]
fn listener_ignores_other_channels_and_malformed_payloads() {
    let state = ExecutorState::new(config());
    let now = at(0).to_micros();
    let payload = encode_notification(&Notification::NewTask(task(1, 30)));
    assert_eq!(
        listener_step(&state, false, &payload, now, 10),
        ListenerAction::Ignore
    );
    assert_eq!(
        listener_step(&state, true, "unknown_kind foo".as_bytes(), now, 10),
        ListenerAction::Ignore
    );
}

#[test]
fn listener_stops_on_stop_and_submits_new_tasks() {
    let state = ExecutorState::new(config());
    let now = at(0).to_micros();
    assert_eq!(
        listener_step(&state, true, "stop".as_bytes(), now, 10),
        ListenerAction::StopLoop
    );
    let payload = encode_notification(&Notification::NewTask(task(1, 30)));
    assert_eq!(
        listener_step(&state, true, &payload, now, 10),
        ListenerAction::Submit(task(1, 30))
    );
    // the same announcement once the id is tracked: dropped
    let mut seen = ExecutorState::new(config());
    seen.track_id(1);
    assert_eq!(
        listener_step(&seen, true, &payload, now, 10),
        ListenerAction::Ignore
    );
}

#[test]
fn sleep_duration_is_zero_once_past_due() {
    let t = task(1, 30);
    let due = at(30).to_micros();
    assert_eq!(sleep_duration_micros(&t, due), 0);
    assert_eq!(sleep_duration_micros(&t, due + 5), 0);
    assert_eq!(sleep_duration_micros(&t, due - 1_500_000), 1_500_000);
}

#[test]
fn record_outcome_writes_the_terminal_status() {
    let mut store = TaskStore::new();
    store.create_task(&task(1, 5), at(0)).unwrap();
    store.create_task(&task(2, 5), at(0)).unwrap();
    assert_eq!(store.acquire_exclusive_lock(1, at(5)), ClaimOutcome::Claimed);
    assert_eq!(store.acquire_exclusive_lock(2, at(5)), ClaimOutcome::Claimed);
    record_outcome(&mut store, 1, at(6), true).unwrap();
    record_outcome(&mut store, 2, at(6), false).unwrap();
    assert_eq!(store.get_task(1).unwrap().status, TaskStatus::Done);
    assert_eq!(store.get_task(2).unwrap().status, TaskStatus::Failed);
}

#[test]
fn exec_permits_track_concurrent_bodies() {
    let mut state = ExecutorState::new(config());
    state.acquire_exec_permit();
    state.acquire_exec_permit();
    state.release_exec_permit();
    state.acquire_exec_permit();
    state.release_exec_permit();
    state.release_exec_permit();
}
