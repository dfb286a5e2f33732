use task_scheduler::codec::{decode_notification, encode_notification, notification_payload, Notification};
use task_scheduler::task::{Task, TaskType};
use task_scheduler::time::Timestamp;

fn sample_time() -> Timestamp {
    Timestamp { year: 2024, month: 11, day: 24, hour: 20, minute: 34, second: 36, micro: 909592 }
}

fn sample_task() -> Task {
    Task {
        id: 0x7658bfd8f57149258316_4a8fc75d930e,
        task_type: TaskType::Bar,
        execution_time: sample_time(),
    }
}

#[test]
fn test_notification_with_no_payload_is_parsed() {
    let notification_str = "stop";
    let expected_notification = Notification::Stop;
    assert_eq!(
        expected_notification,
        decode_notification(notification_str.as_bytes()).unwrap()
    )
}

#[test]
fn test_new_task_notification_is_parsed_correctly() {
    let notification_str = r#"new_task {"id":"7658bfd8-f571-4925-8316-4a8fc75d930e","task_type":"bar","execution_time":"2024-11-24T20:34:36.909592Z"}"#;
    let expected_notification = Notification::NewTask(sample_task());
    assert_eq!(
        expected_notification,
        decode_notification(notification_str.as_bytes()).unwrap()
    )
}

#[test]
fn encode_new_task_produces_canonical_payload() {
    let payload = encode_notification(&Notification::NewTask(sample_task()));
    assert_eq!(
        String::from_utf8(payload).unwrap(),
        r#"new_task {"id":"7658bfd8-f571-4925-8316-4a8fc75d930e","task_type":"bar","execution_time":"2024-11-24T20:34:36.909592Z"}"#
    );
}

#[test]
fn encode_stop_produces_stop() {
    let payload = encode_notification(&Notification::Stop);
    assert_eq!(String::from_utf8(payload).unwrap(), "stop");
}

#[test]
fn stop_round_trips() {
    let payload = encode_notification(&Notification::Stop);
    assert_eq!(decode_notification(&payload).unwrap(), Notification::Stop);
}

#[test]
fn new_task_round_trips_for_every_kind() {
    for task_type in [TaskType::Foo, TaskType::Bar, TaskType::Baz] {
        let task = Task { task_type, ..sample_task() };
        let payload = encode_notification(&Notification::NewTask(task));
        assert_eq!(
            decode_notification(&payload).unwrap(),
            Notification::NewTask(task)
        );
    }
}

#[test]
fn new_task_round_trips_with_extreme_fields() {
    let task = Task {
        id: u128::MAX,
        task_type: TaskType::Foo,
        execution_time: Timestamp { year: 9999, month: 12, day: 31, hour: 23, minute: 59, second: 59, micro: 999999 },
    };
    let payload = encode_notification(&Notification::NewTask(task));
    assert_eq!(
        decode_notification(&payload).unwrap(),
        Notification::NewTask(task)
    );
    let epoch_task = Task {
        id: 0,
        task_type: TaskType::Baz,
        execution_time: Timestamp { year: 1970, month: 1, day: 1, hour: 0, minute: 0, second: 0, micro: 0 },
    };
    let payload = encode_notification(&Notification::NewTask(epoch_task));
    assert_eq!(
        decode_notification(&payload).unwrap(),
        Notification::NewTask(epoch_task)
    );
}

#[test]
fn notification_payload_matches_encode() {
    let task = sample_task();
    assert_eq!(
        notification_payload(&task),
        encode_notification(&Notification::NewTask(task))
    );
}

#[test]
fn unknown_kind_is_rejected() {
    assert!(decode_notification("unknown_kind foo".as_bytes()).is_err());
}

#[test]
fn malformed_payloads_are_rejected() {
    assert!(decode_notification("".as_bytes()).is_err());
    assert!(decode_notification("stop ".as_bytes()).is_err());
    assert!(decode_notification("stop extra".as_bytes()).is_err());
    assert!(decode_notification("new_task".as_bytes()).is_err());
    assert!(decode_notification("new_task {}".as_bytes()).is_err());
    // uppercase hex in the id
    assert!(decode_notification(
        r#"new_task {"id":"7658BFD8-f571-4925-8316-4a8fc75d930e","task_type":"bar","execution_time":"2024-11-24T20:34:36.909592Z"}"#.as_bytes()
    ).is_err());
    // unknown task kind of the right length
    assert!(decode_notification(
        r#"new_task {"id":"7658bfd8-f571-4925-8316-4a8fc75d930e","task_type":"qux","execution_time":"2024-11-24T20:34:36.909592Z"}"#.as_bytes()
    ).is_err());
    // month 13 does not exist
    assert!(decode_notification(
        r#"new_task {"id":"7658bfd8-f571-4925-8316-4a8fc75d930e","task_type":"bar","execution_time":"2024-13-24T20:34:36.909592Z"}"#.as_bytes()
    ).is_err());
    // February 30 does not exist
    assert!(decode_notification(
        r#"new_task {"id":"7658bfd8-f571-4925-8316-4a8fc75d930e","task_type":"bar","execution_time":"2023-02-30T20:34:36.909592Z"}"#.as_bytes()
    ).is_err());
}
