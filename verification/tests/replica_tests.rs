use task_replica::clock::Timestamp;
use task_replica::depmap::DependencyMap;
use task_replica::errors::Error;
use task_replica::operation::Operation;
use task_replica::replica::Replica;
use task_replica::storage::InMemoryStorage;
use task_replica::task::Status;
use task_replica::taskmap::TaskMap;
use task_replica::working_set::WorkingSet;

const A: u128 = 0xaaaaaaaa_aaaa_aaaa_aaaa_aaaaaaaaaaaa;
const B: u128 = 0xbbbbbbbb_bbbb_bbbb_bbbb_bbbbbbbbbbbb;
const C: u128 = 0xcccccccc_cccc_cccc_cccc_cccccccccccc;
const TA: &str = "aaaaaaaa-aaaa-aaaa-aaaa-aaaaaaaaaaaa";
const TB: &str = "bbbbbbbb-bbbb-bbbb-bbbb-bbbbbbbbbbbb";
const TC: &str = "cccccccc-cccc-cccc-cccc-cccccccccccc";

fn set(uuid: u128, property: &str, old: Option<&str>, value: Option<&str>) -> Operation {
    Operation::Update {
        uuid,
        property: property.to_string(),
        old_value: old.map(|s| s.to_string()),
        value: value.map(|s| s.to_string()),
        timestamp: Timestamp { secs: 0, nanos: 0 },
    }
}

fn same_log(a: &Vec<Operation>, b: &Vec<Operation>) -> bool {
    a.len() == b.len() && a.iter().zip(b.iter()).all(|(x, y)| x.same_as(y))
}

fn value_of(replica: &Replica, uuid: &str, property: &str) -> Option<String> {
    replica.get_task_data(uuid.to_string()).unwrap().and_then(|d| d.get(property.to_string()))
}

#[test]
fn a_new_replica_is_empty() {
    let mut replica = Replica::new_inmemory();
    assert!(replica.all_task_uuids().is_empty());
    assert!(replica.all_tasks().is_empty());
    assert!(replica.all_task_data().is_empty());
    assert_eq!(replica.num_local_operations(), 0);
    assert_eq!(replica.num_undo_points(), 0);
    assert!(replica.get_undo_operations().is_empty());
    assert_eq!(replica.working_set().largest_index(), 0);
    assert!(replica.working_set().is_empty());
}

#[test]
fn create_task_twice_is_a_duplicate() {
    let mut replica = Replica::new_inmemory();
    let (task, op) = replica.create_task(TA.to_string()).unwrap();
    assert_eq!(task.get_uuid(), TA);
    assert!(op.same_as(&Operation::Create { uuid: A }));
    assert_eq!(replica.create_task(TA.to_string()).unwrap_err(), Error::DuplicateUuid);
    assert_eq!(replica.num_local_operations(), 1);
    assert_eq!(replica.all_task_uuids(), vec![TA.to_string()]);
}

#[test]
fn create_task_refuses_a_malformed_uuid() {
    let mut replica = Replica::new_inmemory();
    assert_eq!(replica.create_task("?".to_string()).unwrap_err(), Error::MalformedValue);
    assert_eq!(replica.num_local_operations(), 0);
}

#[test]
fn get_task_of_a_missing_uuid_is_none() {
    let mut replica = Replica::new_inmemory();
    assert!(replica.get_task(TA.to_string()).unwrap().is_none());
    assert!(replica.get_task_data(TA.to_string()).unwrap().is_none());
    assert_eq!(replica.get_task("x".to_string()).unwrap_err(), Error::MalformedValue);
    assert_eq!(replica.get_task_data("x".to_string()).unwrap_err(), Error::MalformedValue);
}

#[test]
fn commit_applies_a_batch() {
    let mut replica = Replica::new_inmemory();
    let ops = vec![
        Operation::Create { uuid: A },
        set(A, "description", None, Some("one")),
        Operation::Create { uuid: B },
        set(A, "description", Some("one"), Some("two")),
        set(B, "x", None, Some("y")),
        set(B, "x", Some("y"), None),
    ];
    replica.commit_operations(ops).unwrap();
    assert_eq!(replica.all_task_uuids(), vec![TA.to_string(), TB.to_string()]);
    assert_eq!(value_of(&replica, TA, "description"), Some("two".to_string()));
    assert_eq!(value_of(&replica, TB, "x"), None);
    assert_eq!(replica.num_local_operations(), 6);
    let data = replica.all_task_data();
    assert_eq!(data.len(), 2);
    assert_eq!(data[0].uuid(), A);
    assert_eq!(data[1].uuid(), B);
    assert_eq!(data[1].taskmap().len(), 0);
}

#[test]
fn a_failing_batch_changes_nothing() {
    let mut replica = Replica::new_inmemory();
    replica
        .commit_operations(vec![Operation::Create { uuid: A }, set(A, "k", None, Some("v"))])
        .unwrap();
    let before = replica.get_undo_operations();

    let double_create = vec![
        set(A, "k", Some("v"), Some("w")),
        Operation::Create { uuid: B },
        Operation::Create { uuid: A },
    ];
    assert_eq!(replica.commit_operations(double_create).unwrap_err(), Error::InvalidOperation);
    assert_eq!(replica.all_task_uuids(), vec![TA.to_string()]);
    assert_eq!(value_of(&replica, TA, "k"), Some("v".to_string()));
    assert!(same_log(&replica.get_undo_operations(), &before));

    let update_missing = vec![Operation::Create { uuid: B }, set(C, "k", None, Some("v"))];
    assert_eq!(replica.commit_operations(update_missing).unwrap_err(), Error::InvalidOperation);
    let delete_missing = vec![
        Operation::Delete { uuid: A, old_task: TaskMap::new() },
        Operation::Delete { uuid: A, old_task: TaskMap::new() },
    ];
    assert_eq!(replica.commit_operations(delete_missing).unwrap_err(), Error::InvalidOperation);
    assert_eq!(replica.all_task_uuids(), vec![TA.to_string()]);
    assert_eq!(replica.num_local_operations(), 2);
    assert!(same_log(&replica.get_undo_operations(), &before));
}

#[test]
fn a_task_can_come_again_after_its_deletion() {
    let mut replica = Replica::new_inmemory();
    let ops = vec![
        Operation::Create { uuid: A },
        set(A, "k", None, Some("v")),
        Operation::Delete { uuid: A, old_task: TaskMap::new() },
        Operation::Create { uuid: A },
    ];
    replica.commit_operations(ops).unwrap();
    assert_eq!(value_of(&replica, TA, "k"), None);
    assert_eq!(replica.all_task_uuids(), vec![TA.to_string()]);
}

#[test]
fn replay_gives_the_same_tasks_each_time() {
    let log = || {
        vec![
            Operation::Create { uuid: A },
            set(A, "description", None, Some("one")),
            Operation::UndoPoint,
            Operation::Create { uuid: B },
            set(B, "dep_x", None, Some("")),
            Operation::Delete { uuid: A, old_task: TaskMap::new() },
        ]
    };
    let mut first = Replica::new_inmemory();
    first.commit_operations(log()).unwrap();
    let mut second = Replica::new_inmemory();
    for op in log() {
        second.commit_operations(vec![op]).unwrap();
    }
    assert_eq!(first.all_task_uuids(), second.all_task_uuids());
    let a = first.all_task_data();
    let b = second.all_task_data();
    assert_eq!(a.len(), 1);
    assert_eq!(a.len(), b.len());
    assert!(a[0].taskmap().same_as(b[0].taskmap()));
    assert_eq!(a[0].get("dep_x".to_string()), Some(String::new()));
    assert_eq!(first.num_local_operations(), second.num_local_operations());
}

#[test]
fn undo_operations_begin_at_the_last_mark() {
    let mut replica = Replica::new_inmemory();
    replica
        .commit_operations(vec![
            Operation::Create { uuid: A },
            Operation::UndoPoint,
            set(A, "k", None, Some("v")),
            Operation::UndoPoint,
            set(A, "k", Some("v"), Some("w")),
            Operation::Create { uuid: B },
        ])
        .unwrap();
    assert_eq!(replica.num_undo_points(), 2);
    assert_eq!(replica.num_local_operations(), 6);
    let undo = replica.get_undo_operations();
    let expected =
        vec![Operation::UndoPoint, set(A, "k", Some("v"), Some("w")), Operation::Create { uuid: B }];
    assert!(same_log(&undo, &expected));

    assert_eq!(replica.commit_reversed_operations(undo), Ok(true));
    assert_eq!(replica.all_task_uuids(), vec![TA.to_string()]);
    assert_eq!(value_of(&replica, TA, "k"), Some("v".to_string()));
    assert_eq!(replica.num_local_operations(), 3);
    assert_eq!(replica.num_undo_points(), 1);

    let undo = replica.get_undo_operations();
    assert!(same_log(&undo, &vec![Operation::UndoPoint, set(A, "k", None, Some("v"))]));
    assert_eq!(replica.commit_reversed_operations(undo), Ok(true));
    assert_eq!(value_of(&replica, TA, "k"), None);

    let undo = replica.get_undo_operations();
    assert!(same_log(&undo, &vec![Operation::Create { uuid: A }]));
    assert_eq!(replica.commit_reversed_operations(undo), Ok(true));
    assert!(replica.all_task_uuids().is_empty());
    assert_eq!(replica.num_local_operations(), 0);
}

#[test]
fn undo_of_a_deletion_brings_the_task_back() {
    let mut replica = Replica::new_inmemory();
    let (mut task, _) = replica.create_task(TA.to_string()).unwrap();
    let op1 = task.set_description("keep me".to_string());
    let op2 = task.set_status(Status::Pending);
    replica.commit_operations(vec![op1, op2, Operation::UndoPoint]).unwrap();
    let mut data = replica.get_task_data(TA.to_string()).unwrap().unwrap();
    let delete = data.delete();
    replica.commit_operations(vec![delete]).unwrap();
    assert!(replica.get_task(TA.to_string()).unwrap().is_none());

    let undo = replica.get_undo_operations();
    assert_eq!(undo.len(), 2);
    assert_eq!(replica.commit_reversed_operations(undo), Ok(true));
    let task = replica.get_task(TA.to_string()).unwrap().unwrap();
    assert_eq!(task.get_description(), "keep me");
    assert_eq!(task.get_status(), Status::Pending);
    assert_eq!(replica.num_local_operations(), 3);
}

#[test]
fn nothing_to_undo_gives_false() {
    let mut replica = Replica::new_inmemory();
    assert_eq!(replica.commit_reversed_operations(vec![]), Ok(false));
    assert_eq!(replica.commit_reversed_operations(vec![Operation::Create { uuid: A }]), Ok(false));
    replica.commit_operations(vec![Operation::Create { uuid: A }]).unwrap();
    assert_eq!(replica.commit_reversed_operations(vec![]), Ok(false));
    assert_eq!(replica.num_local_operations(), 1);
}

#[test]
fn undo_out_of_order_is_refused() {
    let mut replica = Replica::new_inmemory();
    replica
        .commit_operations(vec![Operation::Create { uuid: A }, set(A, "k", None, Some("v"))])
        .unwrap();
    // not the end of the log
    assert_eq!(
        replica.commit_reversed_operations(vec![Operation::Create { uuid: A }]),
        Err(Error::InvalidOperation)
    );
    // longer than the log
    assert_eq!(
        replica.commit_reversed_operations(vec![
            Operation::UndoPoint,
            Operation::Create { uuid: A },
            set(A, "k", None, Some("v")),
        ]),
        Err(Error::InvalidOperation)
    );
    // like the end of the log, but with another value
    assert_eq!(
        replica.commit_reversed_operations(vec![set(A, "k", None, Some("w"))]),
        Err(Error::InvalidOperation)
    );
    assert_eq!(replica.num_local_operations(), 2);
    assert_eq!(value_of(&replica, TA, "k"), Some("v".to_string()));
}

#[test]
fn undo_is_refused_where_the_tasks_have_moved_on() {
    // the task of the last operations has been purged since
    let mut purge = Replica::new_inmemory();
    purge
        .commit_operations(vec![
            Operation::Create { uuid: A },
            set(A, "status", None, Some("deleted")),
            set(A, "modified", None, Some("0")),
        ])
        .unwrap();
    purge.expire_tasks_at(20_000_000);
    assert!(purge.all_task_uuids().is_empty());
    let undo = purge.get_undo_operations();
    assert_eq!(undo.len(), 3);
    assert_eq!(purge.commit_reversed_operations(undo), Ok(false));
    assert_eq!(purge.num_local_operations(), 3);
    assert!(purge.all_task_uuids().is_empty());
}

#[test]
fn undo_of_a_create_needs_the_task_empty() {
    // a store whose log ends with the creation of a task that holds a property
    let mut storage = InMemoryStorage::new();
    storage.begin();
    let mut map = TaskMap::new();
    map.insert("k".to_string(), "v".to_string());
    storage.set_task(A, map);
    storage.add_operation(Operation::Create { uuid: A });
    storage.commit();
    let mut replica = Replica::with_storage(storage).unwrap();
    assert_eq!(replica.commit_reversed_operations(vec![Operation::Create { uuid: A }]), Ok(false));
    assert_eq!(replica.all_task_uuids(), vec![TA.to_string()]);
    assert_eq!(replica.num_local_operations(), 1);

    let mut replica = Replica::new_inmemory();
    replica.commit_operations(vec![Operation::Create { uuid: A }]).unwrap();
    replica.commit_operations(vec![Operation::Create { uuid: B }]).unwrap();
    assert_eq!(replica.commit_reversed_operations(vec![Operation::Create { uuid: B }]), Ok(true));
    assert_eq!(replica.all_task_uuids(), vec![TA.to_string()]);
}

#[test]
fn round_trip_undo_restores_the_task() {
    let mut replica = Replica::new_inmemory();
    let (mut task, _) = replica.create_task(TA.to_string()).unwrap();
    let ops = vec![
        task.set_description("first".to_string()),
        task.set_priority("L".to_string()),
    ];
    replica.commit_operations(ops).unwrap();
    let before = replica.get_task_data(TA.to_string()).unwrap().unwrap();

    let mut task = replica.get_task(TA.to_string()).unwrap().unwrap();
    let op = task.set_description("second".to_string());
    replica.commit_operations(vec![op.clone()]).unwrap();
    assert_eq!(value_of(&replica, TA, "description"), Some("second".to_string()));
    assert_eq!(replica.commit_reversed_operations(vec![op]), Ok(true));
    let after = replica.get_task_data(TA.to_string()).unwrap().unwrap();
    assert!(after.taskmap().same_as(before.taskmap()));

    let mut task = replica.get_task(TA.to_string()).unwrap().unwrap();
    let op = task.set_value("priority".to_string(), None);
    replica.commit_operations(vec![op.clone()]).unwrap();
    assert_eq!(value_of(&replica, TA, "priority"), None);
    assert_eq!(replica.commit_reversed_operations(vec![op]), Ok(true));
    let after = replica.get_task_data(TA.to_string()).unwrap().unwrap();
    assert!(after.taskmap().same_as(before.taskmap()));
}

#[test]
fn delete_task_logs_the_snapshot() {
    let mut replica = Replica::new_inmemory();
    replica
        .commit_operations(vec![Operation::Create { uuid: A }, set(A, "k", None, Some("v"))])
        .unwrap();
    let op = replica.delete_task(TA.to_string()).unwrap();
    let mut snapshot = TaskMap::new();
    snapshot.insert("k".to_string(), "v".to_string());
    assert!(op.same_as(&Operation::Delete { uuid: A, old_task: snapshot }));
    assert!(replica.all_task_uuids().is_empty());
    assert_eq!(replica.num_local_operations(), 3);
    // and the deletion can be taken back
    assert_eq!(replica.commit_reversed_operations(vec![op]), Ok(true));
    assert_eq!(value_of(&replica, TA, "k"), Some("v".to_string()));
}

#[test]
fn delete_task_needs_the_task() {
    let mut replica = Replica::new_inmemory();
    assert_eq!(replica.delete_task(TA.to_string()).unwrap_err(), Error::TaskNotFound);
    assert_eq!(replica.delete_task("a".to_string()).unwrap_err(), Error::MalformedValue);
    assert_eq!(replica.num_local_operations(), 0);
}

#[test]
fn a_replica_over_a_storage() {
    let mut storage = InMemoryStorage::new();
    storage.begin();
    let mut map = TaskMap::new();
    map.insert("status".to_string(), "pending".to_string());
    storage.set_task(A, map);
    storage.set_working_set(vec![None, Some(A)]);
    storage.commit();
    let mut replica = Replica::with_storage(storage).unwrap();
    assert_eq!(replica.all_task_uuids(), vec![TA.to_string()]);
    assert_eq!(replica.get_task(TA.to_string()).unwrap().unwrap().get_status(), Status::Pending);
    assert_eq!(replica.working_set().by_index(1), Some(A));
}

#[test]
fn a_storage_that_is_not_sound_is_refused() {
    let mut storage = InMemoryStorage::new();
    storage.begin();
    assert!(matches!(Replica::with_storage(storage), Err(Error::Storage)));

    let mut storage = InMemoryStorage::new();
    storage.begin();
    storage.set_working_set(vec![None, Some(A), None, Some(A)]);
    storage.commit();
    assert!(matches!(Replica::with_storage(storage), Err(Error::Storage)));

    let mut storage = InMemoryStorage::new();
    storage.begin();
    storage.set_working_set(vec![None, Some(A), None, Some(B), None]);
    storage.commit();
    assert!(Replica::with_storage(storage).is_ok());
}

#[test]
fn acknowledged_operations_leave_the_log() {
    let mut replica = Replica::new_inmemory();
    assert_eq!(replica.base_version(), 0);
    replica
        .commit_operations(vec![
            Operation::Create { uuid: A },
            Operation::UndoPoint,
            set(A, "k", None, Some("v")),
        ])
        .unwrap();
    assert!(same_log(
        &replica.local_operations(),
        &vec![Operation::Create { uuid: A }, Operation::UndoPoint, set(A, "k", None, Some("v"))]
    ));
    assert_eq!(replica.accept_base_version(9, 4).unwrap_err(), Error::InvalidOperation);
    assert_eq!(replica.base_version(), 0);
    assert_eq!(replica.num_local_operations(), 3);
    replica.accept_base_version(9, 2).unwrap();
    assert_eq!(replica.base_version(), 9);
    assert!(same_log(&replica.local_operations(), &vec![set(A, "k", None, Some("v"))]));
    assert_eq!(replica.num_undo_points(), 0);
    assert_eq!(value_of(&replica, TA, "k"), Some("v".to_string()));
    replica.accept_base_version(10, 1).unwrap();
    assert_eq!(replica.num_local_operations(), 0);
    replica.accept_base_version(11, 0).unwrap();
    assert_eq!(replica.base_version(), 11);
}

#[test]
fn a_snapshot_does_not_follow_the_store() {
    let mut replica = Replica::new_inmemory();
    replica.commit_operations(vec![Operation::Create { uuid: A }]).unwrap();
    let uuids = replica.all_task_uuids();
    let tasks = replica.all_tasks();
    replica
        .commit_operations(vec![Operation::Create { uuid: B }, set(A, "k", None, Some("v"))])
        .unwrap();
    assert_eq!(uuids, vec![TA.to_string()]);
    assert_eq!(tasks.len(), 1);
    assert_eq!(tasks[0].1.get_value("k".to_string()), None);
}

#[test]
fn a_setter_gives_what_the_store_takes() {
    let mut replica = Replica::new_inmemory();
    let (mut task, _) = replica.create_task(TA.to_string()).unwrap();
    let ops = vec![
        task.set_description("d".to_string()),
        task.set_due(Some("2020-01-01T00:00:00Z".to_string())).unwrap(),
        task.set_description("e".to_string()),
        task.stop(),
    ];
    assert_eq!(ops.len(), 4);
    replica.commit_operations(ops).unwrap();
    let stored = replica.get_task(TA.to_string()).unwrap().unwrap();
    assert!(stored.into_task_data().taskmap().same_as(task.into_task_data().taskmap()));
    assert_eq!(stored.get_description(), "e");
    assert_eq!(stored.get_due(), Some("2020-01-01T00:00:00+00:00".to_string()));
}
