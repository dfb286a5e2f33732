use task_scheduler::config::Environment;
use task_scheduler::error::Error;
use task_scheduler::task::{new_task, TaskStatus, TaskType};
use task_scheduler::time::Timestamp;

#[test]
fn epoch_is_zero_on_the_timeline() {
    let epoch = Timestamp { year: 1970, month: 1, day: 1, hour: 0, minute: 0, second: 0, micro: 0 };
    assert_eq!(epoch.to_micros(), 0);
    let next_day = Timestamp { year: 1970, month: 1, day: 2, hour: 0, minute: 0, second: 0, micro: 0 };
    assert_eq!(next_day.to_micros(), 86_400_000_000);
}

#[test]
fn known_instant_has_known_micros() {
    let t = Timestamp { year: 2024, month: 11, day: 24, hour: 20, minute: 34, second: 36, micro: 909592 };
    assert_eq!(t.to_micros(), 1_732_480_476_909_592);
}

#[test]
fn leap_years_are_respected() {
    assert_eq!(Timestamp::days_in_month_exec(2024, 2), 29);
    assert_eq!(Timestamp::days_in_month_exec(2023, 2), 28);
    assert_eq!(Timestamp::days_in_month_exec(2000, 2), 29);
    assert_eq!(Timestamp::days_in_month_exec(2100, 2), 28);
    let leap_day = Timestamp { year: 2024, month: 2, day: 29, hour: 0, minute: 0, second: 0, micro: 0 };
    assert_eq!(leap_day.to_micros(), 1_709_164_800_000_000);
}

#[test]
fn timeline_order_follows_calendar_order() {
    let earlier = Timestamp { year: 2024, month: 11, day: 24, hour: 20, minute: 34, second: 36, micro: 0 };
    let later = Timestamp { year: 2024, month: 11, day: 24, hour: 20, minute: 34, second: 37, micro: 0 };
    assert!(earlier.le(&later));
    assert!(!later.le(&earlier));
    assert!(earlier.le(&earlier));
}

#[test]
fn fresh_tasks_carry_the_requested_fields() {
    let when = Timestamp { year: 2025, month: 1, day: 1, hour: 12, minute: 0, second: 0, micro: 0 };
    let a = new_task(TaskType::Baz, when);
    let b = new_task(TaskType::Baz, when);
    assert_eq!(a.task_type, TaskType::Baz);
    assert_eq!(a.execution_time, when);
    // ids are drawn fresh for every submission
    assert_ne!(a.id, b.id);
}

#[test]
fn errors_map_to_the_documented_responses() {
    assert_eq!(Error::TaskNotFound(1).http_status(), 404);
    assert_eq!(Error::TaskNotFound(1).public_message(), "task not found");
    assert_eq!(
        Error::UnableToDeleteTask(1, TaskStatus::StartedExecuting).http_status(),
        400
    );
    assert_eq!(
        Error::UnableToDeleteTask(1, TaskStatus::StartedExecuting).public_message(),
        "Unable to delete the task, since it already started executing"
    );
    assert_eq!(
        Error::UnableToDeleteTask(1, TaskStatus::Done).public_message(),
        "Unable to delete the task, since it is already complete"
    );
    assert_eq!(
        Error::UnableToDeleteTask(1, TaskStatus::Failed).public_message(),
        "Unable to delete the task, since it failed"
    );
    assert_eq!(Error::Storage.http_status(), 500);
    assert_eq!(Error::Storage.public_message(), "database error");
    assert_eq!(Error::Http.public_message(), "http error");
    assert_eq!(Error::Codec.public_message(), "server error");
    assert_eq!(Error::TaskAlreadyExists(1).http_status(), 500);
}

#[test]
fn environment_names_round_trip() {
    assert_eq!(Environment::default(), Environment::Local);
    assert_eq!(Environment::Local.name(), "local");
    assert_eq!(Environment::Production.name(), "production");
    assert_eq!(Environment::parse("local"), Some(Environment::Local));
    assert_eq!(Environment::parse("production"), Some(Environment::Production));
    assert_eq!(Environment::parse("staging"), None);
}
