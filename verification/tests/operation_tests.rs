use task_replica::clock::Timestamp;
use task_replica::errors::Error;
use task_replica::operation::Operation;
use task_replica::taskmap::TaskMap;

#[test]
fn create_reads_the_uuid() {
    let op = Operation::create("a1a2a3a4-b1b2-c1c2-d1d2-d3d4d5d6d7d8".to_string()).unwrap();
    match op {
        Operation::Create { uuid } => assert_eq!(uuid, 0xa1a2a3a4b1b2c1c2d1d2d3d4d5d6d7d8u128),
        _ => panic!("not a creation"),
    }
}

#[test]
fn create_accepts_the_simple_form() {
    let op = Operation::create("a1a2a3a4b1b2c1c2d1d2d3d4d5d6d7d8".to_string()).unwrap();
    assert_eq!(op.get_uuid(), Some(0xa1a2a3a4b1b2c1c2d1d2d3d4d5d6d7d8u128));
}

#[test]
fn create_refuses_a_malformed_uuid() {
    assert_eq!(Operation::create("not-a-uuid".to_string()).unwrap_err(), Error::MalformedValue);
    assert_eq!(Operation::create(String::new()).unwrap_err(), Error::MalformedValue);
}

#[test]
fn delete_carries_the_old_task() {
    let mut old_task = TaskMap::new();
    old_task.insert("description".to_string(), "water the plants".to_string());
    let op = Operation::delete("11111111-1111-1111-1111-111111111111".to_string(), old_task)
        .unwrap();
    match op {
        Operation::Delete { uuid, old_task } => {
            assert_eq!(uuid, 0x11111111111111111111111111111111u128);
            assert_eq!(old_task.len(), 1);
            assert_eq!(old_task.get("description"), Some(&"water the plants".to_string()));
        }
        _ => panic!("not a deletion"),
    }
}

#[test]
fn delete_refuses_a_malformed_uuid() {
    let r = Operation::delete("zz".to_string(), TaskMap::new());
    assert_eq!(r.unwrap_err(), Error::MalformedValue);
}

#[test]
fn update_reads_uuid_and_time() {
    let op = Operation::update(
        "11111111-1111-1111-1111-111111111111".to_string(),
        "description".to_string(),
        "1996-12-19T16:39:57-08:00".to_string(),
        None,
        Some("new".to_string()),
    )
    .unwrap();
    match op {
        Operation::Update { uuid, property, old_value, value, timestamp } => {
            assert_eq!(uuid, 0x11111111111111111111111111111111u128);
            assert_eq!(property, "description");
            assert_eq!(old_value, None);
            assert_eq!(value, Some("new".to_string()));
            assert_eq!(timestamp, Timestamp { secs: 851042397, nanos: 0 });
        }
        _ => panic!("not an update"),
    }
}

#[test]
fn update_keeps_the_nanoseconds() {
    let op = Operation::update(
        "11111111-1111-1111-1111-111111111111".to_string(),
        "p".to_string(),
        "1970-01-01T00:00:01.5Z".to_string(),
        Some("a".to_string()),
        None,
    )
    .unwrap();
    match op {
        Operation::Update { timestamp, old_value, value, .. } => {
            assert_eq!(timestamp, Timestamp { secs: 1, nanos: 500_000_000 });
            assert_eq!(old_value, Some("a".to_string()));
            assert_eq!(value, None);
        }
        _ => panic!("not an update"),
    }
}

#[test]
fn update_refuses_a_malformed_time() {
    let r = Operation::update(
        "11111111-1111-1111-1111-111111111111".to_string(),
        "p".to_string(),
        "yesterday".to_string(),
        None,
        None,
    );
    assert_eq!(r.unwrap_err(), Error::MalformedValue);
}

#[test]
fn update_refuses_a_malformed_uuid() {
    let r = Operation::update(
        "1111".to_string(),
        "p".to_string(),
        "2020-01-01T00:00:00Z".to_string(),
        None,
        None,
    );
    assert_eq!(r.unwrap_err(), Error::MalformedValue);
}

#[test]
fn only_the_mark_is_an_undo_point() {
    assert!(Operation::undo_point().is_undo_point());
    assert!(!Operation::Create { uuid: 1 }.is_undo_point());
    assert!(!Operation::Delete { uuid: 1, old_task: TaskMap::new() }.is_undo_point());
    let update = Operation::Update {
        uuid: 1,
        property: "p".to_string(),
        old_value: None,
        value: None,
        timestamp: Timestamp { secs: 0, nanos: 0 },
    };
    assert!(!update.is_undo_point());
    assert_eq!(Operation::undo_point().get_uuid(), None);
    assert_eq!(update.get_uuid(), Some(1));
}

#[test]
fn operations_compare_by_what_they_hold() {
    let a = Operation::Update {
        uuid: 7,
        property: "p".to_string(),
        old_value: None,
        value: Some("v".to_string()),
        timestamp: Timestamp { secs: 5, nanos: 0 },
    };
    let b = a.clone();
    assert!(a.same_as(&b));
    let c = Operation::Update {
        uuid: 7,
        property: "p".to_string(),
        old_value: None,
        value: Some("w".to_string()),
        timestamp: Timestamp { secs: 5, nanos: 0 },
    };
    assert!(!a.same_as(&c));
    let d = Operation::Update {
        uuid: 7,
        property: "p".to_string(),
        old_value: None,
        value: Some("v".to_string()),
        timestamp: Timestamp { secs: 6, nanos: 0 },
    };
    assert!(!a.same_as(&d));
    assert!(!a.same_as(&Operation::UndoPoint));
    assert!(Operation::UndoPoint.same_as(&Operation::UndoPoint));
    assert!(Operation::Create { uuid: 3 }.same_as(&Operation::Create { uuid: 3 }));
    assert!(!Operation::Create { uuid: 3 }.same_as(&Operation::Create { uuid: 4 }));
}

#[test]
fn deletions_compare_their_snapshots_as_mappings() {
    let mut s = TaskMap::new();
    s.insert("a".to_string(), "1".to_string());
    s.insert("b".to_string(), "2".to_string());
    let mut t = TaskMap::new();
    t.insert("b".to_string(), "2".to_string());
    t.insert("a".to_string(), "1".to_string());
    let x = Operation::Delete { uuid: 9, old_task: s };
    let y = Operation::Delete { uuid: 9, old_task: t };
    assert!(x.same_as(&y));
    let mut u = TaskMap::new();
    u.insert("a".to_string(), "1".to_string());
    let z = Operation::Delete { uuid: 9, old_task: u };
    assert!(!x.same_as(&z));
    assert!(!z.same_as(&x));
}

#[test]
fn error_messages() {
    assert_eq!(Error::Storage.message(), "storage failure");
    assert_eq!(Error::InvalidOperation.message(), "invalid operation");
    assert_eq!(Error::DuplicateUuid.message(), "duplicate uuid");
    assert_eq!(Error::TaskNotFound.message(), "task not found");
    assert_eq!(Error::MalformedValue.message(), "malformed value");
}
