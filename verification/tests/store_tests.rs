use task_scheduler::error::Error;
use task_scheduler::store::{ClaimOutcome, TaskStore};
use task_scheduler::task::{Task, TaskStatus, TaskType};
use task_scheduler::time::Timestamp;

fn at(second: u8) -> Timestamp {
    Timestamp { year: 2024, month: 11, day: 24, hour: 20, minute: 34, second, micro: 0 }
}

fn task(id: u128, second: u8) -> Task {
    Task { id, task_type: TaskType::Foo, execution_time: at(second) }
}

#[test]
fn insert_then_fetch_returns_same_task() {
    let mut store = TaskStore::new();
    let t = task(7, 30);
    store.create_task(&t, at(0)).unwrap();
    let row = store.get_task(7).unwrap();
    assert_eq!(row.id, 7);
    assert_eq!(row.task_type, TaskType::Foo);
    assert_eq!(row.execution_time, at(30));
    assert_eq!(row.status, TaskStatus::Submitted);
    assert_eq!(row.created_at, at(0));
    assert_eq!(row.started_executing_at, None);
    assert_eq!(row.completed_at, None);
    assert_eq!(row.failed_at, None);
}

#[test]
fn duplicate_insert_is_refused() {
    let mut store = TaskStore::new();
    store.create_task(&task(7, 30), at(0)).unwrap();
    assert_eq!(
        store.create_task(&task(7, 31), at(1)),
        Err(Error::TaskAlreadyExists(7))
    );
    // the first row is untouched
    assert_eq!(store.get_task(7).unwrap().execution_time, at(30));
}

#[test]
fn claim_succeeds_exactly_once() {
    let mut store = TaskStore::new();
    store.create_task(&task(7, 30), at(0)).unwrap();
    assert_eq!(store.acquire_exclusive_lock(7, at(31)), ClaimOutcome::Claimed);
    // a second worker loses the race
    assert_eq!(
        store.acquire_exclusive_lock(7, at(31)),
        ClaimOutcome::AlreadyHandled
    );
    let row = store.get_task(7).unwrap();
    assert_eq!(row.status, TaskStatus::StartedExecuting);
    assert_eq!(row.started_executing_at, Some(at(31)));
}

#[test]
fn claim_of_missing_task_reports_already_handled() {
    let mut store = TaskStore::new();
    assert_eq!(
        store.acquire_exclusive_lock(9, at(0)),
        ClaimOutcome::AlreadyHandled
    );
}

#[test]
fn mark_done_and_failed_set_terminal_status() {
    let mut store = TaskStore::new();
    store.create_task(&task(1, 10), at(0)).unwrap();
    store.create_task(&task(2, 10), at(0)).unwrap();
    assert_eq!(store.acquire_exclusive_lock(1, at(10)), ClaimOutcome::Claimed);
    assert_eq!(store.acquire_exclusive_lock(2, at(10)), ClaimOutcome::Claimed);
    store.mark_task_done(1, at(11)).unwrap();
    store.mark_task_failed(2, at(12)).unwrap();
    let done = store.get_task(1).unwrap();
    assert_eq!(done.status, TaskStatus::Done);
    assert_eq!(done.completed_at, Some(at(11)));
    let failed = store.get_task(2).unwrap();
    assert_eq!(failed.status, TaskStatus::Failed);
    assert_eq!(failed.failed_at, Some(at(12)));
}

#[test]
fn delete_before_claim_prevents_execution() {
    let mut store = TaskStore::new();
    store.create_task(&task(7, 30), at(0)).unwrap();
    store.mark_task_deleted(7, at(1)).unwrap();
    // no worker ever claims the deleted task
    assert_eq!(
        store.acquire_exclusive_lock(7, at(30)),
        ClaimOutcome::AlreadyHandled
    );
    // and reads no longer see it
    assert!(store.get_task(7).is_none());
}

#[test]
fn delete_is_refused_once_execution_started() {
    let mut store = TaskStore::new();
    store.create_task(&task(7, 30), at(0)).unwrap();
    assert_eq!(store.acquire_exclusive_lock(7, at(30)), ClaimOutcome::Claimed);
    assert_eq!(
        store.mark_task_deleted(7, at(31)),
        Err(Error::UnableToDeleteTask(7, TaskStatus::StartedExecuting))
    );
}

#[test]
fn delete_of_missing_task_is_not_found() {
    let mut store = TaskStore::new();
    assert_eq!(
        store.mark_task_deleted(9, at(0)),
        Err(Error::TaskNotFound(9))
    );
}

#[test]
fn fetch_returns_due_tasks_in_execution_time_order() {
    let mut store = TaskStore::new();
    store.create_task(&task(1, 50), at(0)).unwrap();
    store.create_task(&task(2, 10), at(0)).unwrap();
    store.create_task(&task(3, 30), at(0)).unwrap();
    let due = store.fetch_task_for_pg_searcher(10, at(0), 60);
    let ids: Vec<u128> = due.iter().map(|t| t.id).collect();
    assert_eq!(ids, vec![2, 3, 1]);
}

#[test]
fn fetch_respects_lookahead_and_limit() {
    let mut store = TaskStore::new();
    store.create_task(&task(1, 5), at(0)).unwrap();
    store.create_task(&task(2, 10), at(0)).unwrap();
    // due only two minutes from now: beyond a 30 second lookahead
    let far = Task {
        id: 3,
        task_type: TaskType::Baz,
        execution_time: Timestamp { year: 2024, month: 11, day: 24, hour: 20, minute: 36, second: 34, micro: 0 },
    };
    store.create_task(&far, at(0)).unwrap();
    let due = store.fetch_task_for_pg_searcher(10, at(0), 30);
    let ids: Vec<u128> = due.iter().map(|t| t.id).collect();
    assert_eq!(ids, vec![1, 2]);
    let limited = store.fetch_task_for_pg_searcher(1, at(0), 30);
    assert_eq!(limited.len(), 1);
    assert_eq!(limited[0].id, 1);
}

#[test]
fn fetch_skips_claimed_and_deleted_rows() {
    let mut store = TaskStore::new();
    store.create_task(&task(1, 5), at(0)).unwrap();
    store.create_task(&task(2, 6), at(0)).unwrap();
    store.create_task(&task(3, 7), at(0)).unwrap();
    assert_eq!(store.acquire_exclusive_lock(1, at(5)), ClaimOutcome::Claimed);
    store.mark_task_deleted(2, at(1)).unwrap();
    let due = store.fetch_task_for_pg_searcher(10, at(0), 60);
    let ids: Vec<u128> = due.iter().map(|t| t.id).collect();
    assert_eq!(ids, vec![3]);
}

#[test]
fn list_tasks_filters_by_status_and_kind() {
    let mut store = TaskStore::new();
    store.create_task(&task(1, 5), at(0)).unwrap();
    let bar = Task { id: 2, task_type: TaskType::Bar, execution_time: at(6) };
    store.create_task(&bar, at(0)).unwrap();
    store.create_task(&task(3, 7), at(0)).unwrap();
    assert_eq!(store.acquire_exclusive_lock(3, at(7)), ClaimOutcome::Claimed);
    store.mark_task_deleted(1, at(1)).unwrap();

    let all = store.list_tasks(None, None);
    let ids: Vec<u128> = all.iter().map(|r| r.id).collect();
    assert_eq!(ids, vec![2, 3]);

    let started = store.list_tasks(Some(TaskStatus::StartedExecuting), None);
    assert_eq!(started.len(), 1);
    assert_eq!(started[0].id, 3);

    let bars = store.list_tasks(None, Some(TaskType::Bar));
    assert_eq!(bars.len(), 1);
    assert_eq!(bars[0].id, 2);

    let none = store.list_tasks(Some(TaskStatus::Deleted), None);
    assert!(none.is_empty());
}
