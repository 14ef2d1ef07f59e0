use task_replica::clock::Timestamp;
use task_replica::errors::Error;
use task_replica::operation::Operation;
use task_replica::task::{known_key, split_uda, Annotation, Status, Tag, Task};
use task_replica::taskdata::TaskData;
use task_replica::taskmap::TaskMap;

fn fresh() -> Task {
    Task::new(TaskData::new(0x11111111111111111111111111111111u128, TaskMap::new()), false, false)
}

fn update_parts(op: &Operation) -> (u128, String, Option<String>, Option<String>) {
    match op {
        Operation::Update { uuid, property, old_value, value, .. } => {
            (*uuid, property.clone(), old_value.clone(), value.clone())
        }
        _ => panic!("not an update"),
    }
}

#[test]
fn a_fresh_task_has_defaults() {
    let task = fresh();
    assert_eq!(task.get_uuid(), "11111111-1111-1111-1111-111111111111");
    assert_eq!(task.get_status(), Status::Pending);
    assert_eq!(task.get_description(), "");
    assert_eq!(task.get_priority(), "");
    assert_eq!(task.get_entry(), None);
    assert_eq!(task.get_wait(), None);
    assert_eq!(task.get_modified(), None);
    assert_eq!(task.get_due(), None);
    assert!(!task.is_waiting());
    assert!(!task.is_active());
    assert!(!task.is_blocked());
    assert!(!task.is_blocking());
    assert!(task.get_tags().is_empty());
    assert!(task.get_annotations().is_empty());
    assert!(task.get_udas().is_empty());
    assert!(task.get_dependencies().is_empty());
    assert_eq!(task.get_value("anything".to_string()), None);
}

#[test]
fn flags_are_those_given() {
    let task = Task::new(TaskData::new(1, TaskMap::new()), true, false);
    assert!(task.is_blocked());
    assert!(!task.is_blocking());
    let task = Task::new(TaskData::new(1, TaskMap::new()), false, true);
    assert!(!task.is_blocked());
    assert!(task.is_blocking());
}

#[test]
fn set_status_makes_one_update() {
    let mut task = fresh();
    let op = task.set_status(Status::Completed);
    assert_eq!(
        update_parts(&op),
        (
            0x11111111111111111111111111111111u128,
            "status".to_string(),
            None,
            Some("completed".to_string())
        )
    );
    assert_eq!(task.get_status(), Status::Completed);
    let op = task.set_status(Status::Deleted);
    assert_eq!(update_parts(&op).2, Some("completed".to_string()));
    assert_eq!(update_parts(&op).3, Some("deleted".to_string()));
    assert_eq!(task.get_status(), Status::Deleted);
}

#[test]
fn every_status_reads_back() {
    let all = [
        (Status::Pending, "pending"),
        (Status::Completed, "completed"),
        (Status::Deleted, "deleted"),
        (Status::Recurring, "recurring"),
        (Status::Unknown, "unknown"),
    ];
    for (status, text) in all {
        let mut task = fresh();
        task.set_status(status);
        assert_eq!(task.get_status(), status);
        assert_eq!(task.get_value("status".to_string()), Some(text.to_string()));
    }
}

#[test]
fn an_unheard_of_status_is_unknown() {
    let mut task = fresh();
    task.set_value("status".to_string(), Some("paused".to_string()));
    assert_eq!(task.get_status(), Status::Unknown);
}

#[test]
fn description_and_priority() {
    let mut task = fresh();
    let op = task.set_description("buy milk".to_string());
    assert_eq!(update_parts(&op).1, "description");
    assert_eq!(update_parts(&op).3, Some("buy milk".to_string()));
    assert_eq!(task.get_description(), "buy milk");
    let op = task.set_priority("H".to_string());
    assert_eq!(update_parts(&op).1, "priority");
    assert_eq!(task.get_priority(), "H");
}

#[test]
fn set_due_stores_seconds_and_reads_back() {
    let mut task = fresh();
    let op = task.set_due(Some("2020-01-01T00:00:00Z".to_string())).unwrap();
    assert_eq!(
        update_parts(&op),
        (
            0x11111111111111111111111111111111u128,
            "due".to_string(),
            None,
            Some("1577836800".to_string())
        )
    );
    assert_eq!(task.get_value("due".to_string()), Some("1577836800".to_string()));
    assert_eq!(task.get_due(), Some("2020-01-01T00:00:00+00:00".to_string()));
    let op = task.set_due(None).unwrap();
    assert_eq!(update_parts(&op).2, Some("1577836800".to_string()));
    assert_eq!(update_parts(&op).3, None);
    assert_eq!(task.get_due(), None);
}

#[test]
fn times_are_stored_in_utc() {
    let mut task = fresh();
    task.set_entry(Some("1996-12-19T16:39:57-08:00".to_string())).unwrap();
    assert_eq!(task.get_value("entry".to_string()), Some("851042397".to_string()));
    assert_eq!(task.get_entry(), Some("1996-12-20T00:39:57+00:00".to_string()));
}

#[test]
fn times_before_1970_are_negative() {
    let mut task = fresh();
    task.set_wait(Some("1969-12-31T23:59:59Z".to_string())).unwrap();
    assert_eq!(task.get_value("wait".to_string()), Some("-1".to_string()));
    assert_eq!(task.get_wait(), Some("1969-12-31T23:59:59+00:00".to_string()));
}

#[test]
fn set_modified_sets_modified() {
    let mut task = fresh();
    let op = task.set_modified(Some("2020-01-01T00:00:00Z".to_string())).unwrap();
    assert_eq!(update_parts(&op).1, "modified");
    assert_eq!(task.get_modified(), Some("2020-01-01T00:00:00+00:00".to_string()));
    assert_eq!(task.get_wait(), None);
}

#[test]
fn a_malformed_time_is_refused() {
    let mut task = fresh();
    assert_eq!(task.set_due(Some("tomorrow".to_string())).unwrap_err(), Error::MalformedValue);
    assert_eq!(task.set_entry(Some("".to_string())).unwrap_err(), Error::MalformedValue);
    assert_eq!(task.set_wait(Some("2020-13-01T00:00:00Z".to_string())).unwrap_err(), Error::MalformedValue);
    assert_eq!(task.set_modified(Some("12".to_string())).unwrap_err(), Error::MalformedValue);
    assert_eq!(task.into_task_data().taskmap().len(), 0);
}

#[test]
fn a_time_that_is_no_number_reads_as_none() {
    let mut task = fresh();
    task.set_value("due".to_string(), Some("soon".to_string()));
    assert_eq!(task.get_due(), None);
}

#[test]
fn a_time_beyond_the_calendar_reads_as_none() {
    let mut task = fresh();
    task.set_value("due".to_string(), Some("9223372036854775807".to_string()));
    assert_eq!(task.get_due(), None);
}

#[test]
fn waiting_depends_on_the_time() {
    let mut task = fresh();
    task.set_wait(Some("2020-01-01T00:00:00Z".to_string())).unwrap();
    assert!(task.is_waiting_at(1577836799));
    assert!(!task.is_waiting_at(1577836800));
    assert!(!task.is_waiting_at(1577836801));
    assert!(!task.is_waiting());
    task.set_wait(Some("9999-01-01T00:00:00Z".to_string())).unwrap();
    assert!(task.is_waiting());
}

#[test]
fn start_and_stop() {
    let mut task = fresh();
    let op = task.start_at(Timestamp { secs: 1577836800, nanos: 7 });
    assert_eq!(update_parts(&op).1, "start");
    assert_eq!(update_parts(&op).3, Some("1577836800".to_string()));
    match op {
        Operation::Update { timestamp, .. } => {
            assert_eq!(timestamp, Timestamp { secs: 1577836800, nanos: 7 })
        }
        _ => panic!("not an update"),
    }
    assert!(task.is_active());
    let op = task.stop();
    assert_eq!(update_parts(&op).2, Some("1577836800".to_string()));
    assert_eq!(update_parts(&op).3, None);
    assert!(!task.is_active());
    let op = task.start();
    assert_eq!(update_parts(&op).1, "start");
    assert!(task.is_active());
}

#[test]
fn done_completes() {
    let mut task = fresh();
    let op = task.done();
    assert_eq!(update_parts(&op).1, "status");
    assert_eq!(update_parts(&op).3, Some("completed".to_string()));
    assert_eq!(task.get_status(), Status::Completed);
}

#[test]
fn tags() {
    let mut task = fresh();
    let next = Tag::new("next".to_string());
    let home = Tag::new("home".to_string());
    assert_eq!(next.name(), "next");
    assert!(!task.has_tag(&next));
    let op = task.add_tag(&next);
    assert_eq!(
        update_parts(&op),
        (
            0x11111111111111111111111111111111u128,
            "tag_next".to_string(),
            None,
            Some(String::new())
        )
    );
    task.set_description("d".to_string());
    task.add_tag(&home);
    assert!(task.has_tag(&next));
    assert!(task.has_tag(&home));
    let names: Vec<String> = task.get_tags().iter().map(|t| t.name()).collect();
    assert_eq!(names, vec!["next".to_string(), "home".to_string()]);
    let op = task.remove_tag(&next).unwrap();
    assert_eq!(update_parts(&op).1, "tag_next");
    assert_eq!(update_parts(&op).2, Some(String::new()));
    assert_eq!(update_parts(&op).3, None);
    assert!(!task.has_tag(&next));
    let names: Vec<String> = task.get_tags().iter().map(|t| t.name()).collect();
    assert_eq!(names, vec!["home".to_string()]);
}

#[test]
fn removing_an_absent_tag_makes_no_operation() {
    let mut task = fresh();
    task.set_description("d".to_string());
    assert!(task.remove_tag(&Tag::new("next".to_string())).is_none());
    assert_eq!(task.into_task_data().taskmap().len(), 1);
}

#[test]
fn annotations() {
    let mut task = fresh();
    let note = Annotation::new(1577836800, "called".to_string());
    assert_eq!(note.entry(), 1577836800);
    assert_eq!(note.description(), "called");
    let op = task.add_annotation(&note);
    assert_eq!(
        update_parts(&op),
        (
            0x11111111111111111111111111111111u128,
            "annotation_1577836800".to_string(),
            None,
            Some("called".to_string())
        )
    );
    task.add_annotation(&Annotation::new(-5, "early".to_string()));
    task.set_value("annotation_x".to_string(), Some("no time".to_string()));
    let notes: Vec<(i64, String)> =
        task.get_annotations().iter().map(|a| (a.entry(), a.description())).collect();
    assert_eq!(notes, vec![(1577836800, "called".to_string()), (-5, "early".to_string())]);
    let op = task.remove_annotation("2020-01-01T00:00:00Z".to_string()).unwrap();
    assert_eq!(update_parts(&op).1, "annotation_1577836800");
    assert_eq!(update_parts(&op).2, Some("called".to_string()));
    assert_eq!(update_parts(&op).3, None);
    assert_eq!(task.get_annotations().len(), 1);
    assert_eq!(
        task.remove_annotation("then".to_string()).unwrap_err(),
        Error::MalformedValue
    );
}

#[test]
fn removing_an_absent_annotation_still_makes_an_operation() {
    let mut task = fresh();
    let op = task.remove_annotation("2020-01-01T00:00:00Z".to_string()).unwrap();
    assert_eq!(update_parts(&op).2, None);
    assert_eq!(update_parts(&op).3, None);
}

#[test]
fn user_defined_attributes() {
    let mut task = fresh();
    let op = task.set_uda("github".to_string(), "issue".to_string(), "42".to_string());
    assert_eq!(update_parts(&op).1, "github.issue");
    assert_eq!(update_parts(&op).3, Some("42".to_string()));
    assert_eq!(task.get_uda("github", "issue"), Some("42".to_string()));
    assert_eq!(task.get_uda("github", "pr"), None);
    let op = task.set_legacy_uda("estimate".to_string(), "3".to_string());
    assert_eq!(update_parts(&op).1, "estimate");
    task.set_description("known".to_string());
    task.add_tag(&Tag::new("t".to_string()));
    task.set_legacy_uda("a.b.c".to_string(), "deep".to_string());
    let udas = task.get_udas();
    assert_eq!(
        udas,
        vec![
            (("github".to_string(), "issue".to_string()), "42".to_string()),
            ((String::new(), "estimate".to_string()), "3".to_string()),
            (("a".to_string(), "b.c".to_string()), "deep".to_string()),
        ]
    );
    let op = task.remove_uda("github".to_string(), "issue".to_string());
    assert_eq!(update_parts(&op).1, "github.issue");
    assert_eq!(update_parts(&op).2, Some("42".to_string()));
    assert_eq!(update_parts(&op).3, None);
    let op = task.remove_legacy_uda("estimate".to_string());
    assert_eq!(update_parts(&op).1, "estimate");
    assert_eq!(task.get_udas().len(), 1);
}

#[test]
fn known_keys_and_splitting() {
    for key in ["description", "due", "modified", "start", "status", "priority", "wait", "end", "entry", "tag_x", "annotation_1", "dep_1", "tag_", "dep_"] {
        assert!(known_key(key), "{}", key);
    }
    for key in ["", "descriptions", "ta", "x.y", "Due", "github.issue"] {
        assert!(!known_key(key), "{}", key);
    }
    assert_eq!(split_uda("a.b"), ("a".to_string(), "b".to_string()));
    assert_eq!(split_uda(".b"), (String::new(), "b".to_string()));
    assert_eq!(split_uda("a."), ("a".to_string(), String::new()));
    assert_eq!(split_uda("ab"), (String::new(), "ab".to_string()));
    assert_eq!(split_uda("a.b.c"), ("a".to_string(), "b.c".to_string()));
    assert_eq!(split_uda(""), (String::new(), String::new()));
}

#[test]
fn dependencies() {
    let mut task = fresh();
    let op = task.add_dependency("A1A2A3A4-B1B2-C1C2-D1D2-D3D4D5D6D7D8".to_string()).unwrap();
    assert_eq!(
        update_parts(&op),
        (
            0x11111111111111111111111111111111u128,
            "dep_a1a2a3a4-b1b2-c1c2-d1d2-d3d4d5d6d7d8".to_string(),
            None,
            Some(String::new())
        )
    );
    task.set_value("dep_nothing".to_string(), Some(String::new()));
    task.add_dependency("22222222-2222-2222-2222-222222222222".to_string()).unwrap();
    assert_eq!(
        task.get_dependencies(),
        vec![
            "a1a2a3a4-b1b2-c1c2-d1d2-d3d4d5d6d7d8".to_string(),
            "22222222-2222-2222-2222-222222222222".to_string()
        ]
    );
    let op = task
        .remove_dependency("a1a2a3a4b1b2c1c2d1d2d3d4d5d6d7d8".to_string())
        .unwrap()
        .unwrap();
    assert_eq!(update_parts(&op).1, "dep_a1a2a3a4-b1b2-c1c2-d1d2-d3d4d5d6d7d8");
    assert_eq!(update_parts(&op).3, None);
    assert_eq!(
        task.get_dependencies(),
        vec!["22222222-2222-2222-2222-222222222222".to_string()]
    );
}

#[test]
fn removing_an_absent_dependency_makes_no_operation() {
    let mut task = fresh();
    let r = task.remove_dependency("22222222-2222-2222-2222-222222222222".to_string()).unwrap();
    assert!(r.is_none());
    assert_eq!(task.into_task_data().taskmap().len(), 0);
}

#[test]
fn a_malformed_dependency_is_refused() {
    let mut task = fresh();
    assert_eq!(task.add_dependency("x".to_string()).unwrap_err(), Error::MalformedValue);
    assert_eq!(task.remove_dependency("x".to_string()).unwrap_err(), Error::MalformedValue);
}

#[test]
fn set_value_sets_and_clears() {
    let mut task = fresh();
    let t = Timestamp { secs: 1, nanos: 2 };
    let op = task.set_value_at("k".to_string(), Some("v".to_string()), t);
    let expected = Operation::Update {
        uuid: 0x11111111111111111111111111111111u128,
        property: "k".to_string(),
        old_value: None,
        value: Some("v".to_string()),
        timestamp: t,
    };
    assert!(op.same_as(&expected));
    assert_eq!(task.get_value("k".to_string()), Some("v".to_string()));
    let op = task.set_value("k".to_string(), None);
    assert_eq!(update_parts(&op).2, Some("v".to_string()));
    assert_eq!(task.get_value("k".to_string()), None);
}

#[test]
fn into_task_data_copies() {
    let mut task = fresh();
    task.set_description("d".to_string());
    let data = task.into_task_data();
    assert_eq!(data.uuid(), 0x11111111111111111111111111111111u128);
    assert_eq!(data.get("description".to_string()), Some("d".to_string()));
}
