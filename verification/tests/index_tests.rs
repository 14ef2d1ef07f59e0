use task_replica::clock::Timestamp;
use task_replica::depmap::{dep_of_key, has_status, DependencyMap};
use task_replica::operation::Operation;
use task_replica::replica::Replica;
use task_replica::storage::InMemoryStorage;
use task_replica::table::TaskTable;
use task_replica::taskmap::TaskMap;
use task_replica::working_set::{belongs, WorkingSet};

const A: u128 = 0xaaaaaaaa_aaaa_aaaa_aaaa_aaaaaaaaaaaa;
const B: u128 = 0xbbbbbbbb_bbbb_bbbb_bbbb_bbbbbbbbbbbb;
const C: u128 = 0xcccccccc_cccc_cccc_cccc_cccccccccccc;
const D: u128 = 0xdddddddd_dddd_dddd_dddd_dddddddddddd;
const TA: &str = "aaaaaaaa-aaaa-aaaa-aaaa-aaaaaaaaaaaa";
const TB: &str = "bbbbbbbb-bbbb-bbbb-bbbb-bbbbbbbbbbbb";
const TC: &str = "cccccccc-cccc-cccc-cccc-cccccccccccc";
const TD: &str = "dddddddd-dddd-dddd-dddd-dddddddddddd";

fn put(uuid: u128, property: &str, value: Option<&str>) -> Operation {
    Operation::Update {
        uuid,
        property: property.to_string(),
        old_value: None,
        value: value.map(|s| s.to_string()),
        timestamp: Timestamp { secs: 0, nanos: 0 },
    }
}

fn with_status(replica: &mut Replica, uuid: u128, status: &str) {
    replica.commit_operations(vec![Operation::Create { uuid }, put(uuid, "status", Some(status))]).unwrap();
}

fn indices(replica: &Replica) -> Vec<Option<u128>> {
    let ws = replica.working_set();
    (0..=ws.largest_index()).map(|i| ws.by_index(i)).collect()
}

#[test]
fn rebuild_indexes_the_pending_tasks() {
    let mut replica = Replica::new_inmemory();
    with_status(&mut replica, A, "pending");
    with_status(&mut replica, B, "completed");
    with_status(&mut replica, C, "recurring");
    replica.commit_operations(vec![Operation::Create { uuid: D }]).unwrap();
    assert_eq!(indices(&replica), vec![None]);
    replica.rebuild_working_set(false);
    assert_eq!(indices(&replica), vec![None, Some(A), Some(C)]);
    let ws = replica.working_set();
    assert_eq!(ws.len(), 2);
    assert!(!ws.is_empty());
    assert_eq!(ws.largest_index(), 2);
    assert_eq!(ws.by_uuid(A), Some(1));
    assert_eq!(ws.by_uuid(C), Some(2));
    assert_eq!(ws.by_uuid(B), None);
    assert_eq!(ws.by_index(3), None);
    assert_eq!(ws.iter(), vec![(1, A), (2, C)]);
}

#[test]
fn rebuild_without_renumbering_keeps_indices() {
    let mut replica = Replica::new_inmemory();
    with_status(&mut replica, A, "pending");
    with_status(&mut replica, B, "pending");
    with_status(&mut replica, C, "pending");
    replica.rebuild_working_set(false);
    assert_eq!(indices(&replica), vec![None, Some(A), Some(B), Some(C)]);

    replica.commit_operations(vec![put(B, "status", Some("completed"))]).unwrap();
    with_status(&mut replica, D, "pending");
    replica.rebuild_working_set(false);
    assert_eq!(indices(&replica), vec![None, Some(A), None, Some(C), Some(D)]);
    assert_eq!(replica.working_set().len(), 3);

    // again, with nothing changed
    replica.rebuild_working_set(false);
    assert_eq!(indices(&replica), vec![None, Some(A), None, Some(C), Some(D)]);

    // a task that leaves the store leaves a hole too
    replica.commit_operations(vec![Operation::Delete { uuid: A, old_task: TaskMap::new() }]).unwrap();
    replica.rebuild_working_set(false);
    assert_eq!(indices(&replica), vec![None, None, None, Some(C), Some(D)]);

    // a task that is pending again comes last
    replica.commit_operations(vec![put(B, "status", Some("pending"))]).unwrap();
    replica.rebuild_working_set(false);
    assert_eq!(indices(&replica), vec![None, None, None, Some(C), Some(D), Some(B)]);
}

#[test]
fn rebuild_with_renumbering_closes_the_holes() {
    let mut replica = Replica::new_inmemory();
    with_status(&mut replica, A, "pending");
    with_status(&mut replica, B, "pending");
    with_status(&mut replica, C, "pending");
    replica.rebuild_working_set(false);
    replica.commit_operations(vec![put(A, "status", Some("deleted"))]).unwrap();
    with_status(&mut replica, D, "pending");
    replica.rebuild_working_set(true);
    assert_eq!(indices(&replica), vec![None, Some(B), Some(C), Some(D)]);
    replica.rebuild_working_set(true);
    assert_eq!(indices(&replica), vec![None, Some(B), Some(C), Some(D)]);
}

#[test]
fn rebuild_is_not_logged() {
    let mut replica = Replica::new_inmemory();
    with_status(&mut replica, A, "pending");
    replica.rebuild_working_set(true);
    assert_eq!(replica.num_local_operations(), 2);
}

#[test]
fn belongs_asks_for_pending_or_recurring() {
    let mut t = TaskMap::new();
    assert!(!belongs(&t));
    t.insert("status".to_string(), "pending".to_string());
    assert!(belongs(&t));
    t.insert("status".to_string(), "recurring".to_string());
    assert!(belongs(&t));
    t.insert("status".to_string(), "completed".to_string());
    assert!(!belongs(&t));
    t.insert("status".to_string(), "Pending".to_string());
    assert!(!belongs(&t));
    assert!(has_status(&t, "Pending"));
    assert!(!has_status(&t, "pending"));
}

#[test]
fn working_set_of_given_entries() {
    let ws = WorkingSet::new(vec![None, Some(7), None, Some(9)]);
    assert_eq!(ws.len(), 2);
    assert_eq!(ws.largest_index(), 3);
    assert_eq!(ws.by_index(0), None);
    assert_eq!(ws.by_index(1), Some(7));
    assert_eq!(ws.by_index(2), None);
    assert_eq!(ws.by_index(3), Some(9));
    assert_eq!(ws.by_index(4), None);
    assert_eq!(ws.by_uuid(9), Some(3));
    assert_eq!(ws.by_uuid(8), None);
    assert_eq!(ws.iter(), vec![(1, 7), (3, 9)]);
    let empty = WorkingSet::new(vec![None]);
    assert!(empty.is_empty());
    assert_eq!(empty.largest_index(), 0);
    assert_eq!(WorkingSet::new(vec![]).largest_index(), 0);
}

fn dep(of: u128, on: &str) -> Operation {
    put(of, &format!("dep_{}", on), Some(""))
}

fn sorted(mut v: Vec<u128>) -> Vec<u128> {
    v.sort();
    v
}

#[test]
fn the_dependency_map_is_symmetric() {
    let mut replica = Replica::new_inmemory();
    with_status(&mut replica, A, "pending");
    with_status(&mut replica, B, "pending");
    with_status(&mut replica, C, "pending");
    replica.commit_operations(vec![dep(A, TB), dep(A, TC), dep(B, TC)]).unwrap();
    let dm = replica.dependency_map(false);
    assert_eq!(sorted(dm.dependencies(A)), vec![B, C]);
    assert_eq!(sorted(dm.dependencies(B)), vec![C]);
    assert!(dm.dependencies(C).is_empty());
    assert!(dm.dependents(A).is_empty());
    assert_eq!(sorted(dm.dependents(B)), vec![A]);
    assert_eq!(sorted(dm.dependents(C)), vec![A, B]);
    for x in [A, B, C, D] {
        for y in [A, B, C, D] {
            assert_eq!(dm.dependencies(x).contains(&y), dm.dependents(y).contains(&x));
        }
    }
    assert!(dm.has_dependencies(A));
    assert!(!dm.has_dependencies(C));
    assert!(dm.has_dependents(C));
    assert!(!dm.has_dependents(A));
}

#[test]
fn blocked_and_blocking_follow_the_map() {
    let mut replica = Replica::new_inmemory();
    with_status(&mut replica, A, "pending");
    with_status(&mut replica, B, "pending");
    replica.commit_operations(vec![dep(A, TB)]).unwrap();
    let a = replica.get_task(TA.to_string()).unwrap().unwrap();
    let b = replica.get_task(TB.to_string()).unwrap().unwrap();
    assert!(a.is_blocked());
    assert!(!a.is_blocking());
    assert!(!b.is_blocked());
    assert!(b.is_blocking());
    let all = replica.all_tasks();
    assert_eq!(all.len(), 2);
    assert_eq!(all[0].0, TA);
    assert!(all[0].1.is_blocked());
    assert_eq!(all[1].0, TB);
    assert!(all[1].1.is_blocking());

    // once the dependency is completed, nothing is blocked
    replica.commit_operations(vec![put(B, "status", Some("completed"))]).unwrap();
    let a = replica.get_task(TA.to_string()).unwrap().unwrap();
    let b = replica.get_task(TB.to_string()).unwrap().unwrap();
    assert!(!a.is_blocked());
    assert!(!b.is_blocking());
    assert!(replica.dependency_map(true).dependencies(A).is_empty());
}

#[test]
fn deleted_tasks_are_not_in_the_map() {
    let mut replica = Replica::new_inmemory();
    with_status(&mut replica, A, "deleted");
    with_status(&mut replica, B, "pending");
    with_status(&mut replica, C, "deleted");
    replica.commit_operations(vec![dep(A, TB), dep(B, TC)]).unwrap();
    let dm = replica.dependency_map(false);
    for x in [A, B, C] {
        assert!(dm.dependencies(x).is_empty());
        assert!(dm.dependents(x).is_empty());
    }
}

#[test]
fn dependencies_that_do_not_count() {
    let mut replica = Replica::new_inmemory();
    with_status(&mut replica, A, "pending");
    // on itself, on a task that is not there, and on no uuid at all
    replica.commit_operations(vec![dep(A, TA), dep(A, TD), dep(A, "whatever")]).unwrap();
    let dm = replica.dependency_map(false);
    assert!(dm.dependencies(A).is_empty());
    assert!(!replica.get_task(TA.to_string()).unwrap().unwrap().is_blocked());
    // a task without status counts as one to wait for
    replica.commit_operations(vec![Operation::Create { uuid: D }]).unwrap();
    let dm = replica.dependency_map(false);
    assert_eq!(dm.dependencies(A), vec![D]);
    // a completed task still waits
    replica.commit_operations(vec![put(A, "status", Some("completed"))]).unwrap();
    assert_eq!(replica.dependency_map(false).dependencies(A), vec![D]);
}

#[test]
fn a_dependency_in_two_spellings_counts_once() {
    let mut replica = Replica::new_inmemory();
    with_status(&mut replica, A, "pending");
    with_status(&mut replica, B, "pending");
    replica
        .commit_operations(vec![dep(A, TB), dep(A, "BBBBBBBB-BBBB-BBBB-BBBB-BBBBBBBBBBBB")])
        .unwrap();
    assert_eq!(replica.dependency_map(false).dependencies(A), vec![B]);
    assert_eq!(replica.dependency_map(false).dependents(B), vec![A]);
}

#[test]
fn a_map_built_by_hand() {
    let mut dm = DependencyMap::new();
    assert!(dm.dependencies(1).is_empty());
    dm.add_dependency(1, 2);
    dm.add_dependency(1, 3);
    dm.add_dependency(1, 2);
    dm.add_dependency(4, 2);
    assert_eq!(dm.dependencies(1), vec![2, 3]);
    assert_eq!(dm.dependents(2), vec![1, 4]);
    assert_eq!(dm.dependents(3), vec![1]);
    let copy = dm.clone();
    assert_eq!(copy.dependencies(4), vec![2]);
    assert_eq!(dep_of_key("dep_aaaaaaaa-aaaa-aaaa-aaaa-aaaaaaaaaaaa"), Some(A));
    assert_eq!(dep_of_key("dep_"), None);
    assert_eq!(dep_of_key("tag_aaaaaaaa-aaaa-aaaa-aaaa-aaaaaaaaaaaa"), None);
}

#[test]
fn expiry_purges_what_was_deleted_long_ago() {
    let mut replica = Replica::new_inmemory();
    let day = 86_400i64;
    let now = 1_000 * day;
    let old = (now - 181 * day).to_string();
    let edge = (now - 180 * day).to_string();
    with_status(&mut replica, A, "deleted");
    with_status(&mut replica, B, "deleted");
    with_status(&mut replica, C, "pending");
    with_status(&mut replica, D, "deleted");
    replica
        .commit_operations(vec![
            put(A, "modified", Some(&old)),
            put(B, "modified", Some(&edge)),
            put(C, "modified", Some(&old)),
        ])
        .unwrap();
    let ops = replica.num_local_operations();
    replica.expire_tasks_at(now);
    assert_eq!(replica.all_task_uuids(), vec![TB.to_string(), TC.to_string(), TD.to_string()]);
    assert_eq!(replica.num_local_operations(), ops);
    replica.expire_tasks_at(now + 1);
    assert_eq!(replica.all_task_uuids(), vec![TC.to_string(), TD.to_string()]);
    replica.expire_tasks_at(i64::MAX);
    assert_eq!(replica.all_task_uuids(), vec![TC.to_string(), TD.to_string()]);
    replica.expire_tasks();
    assert_eq!(replica.all_task_uuids(), vec![TC.to_string(), TD.to_string()]);
}

#[test]
fn expiry_does_not_overflow() {
    let mut replica = Replica::new_inmemory();
    with_status(&mut replica, A, "deleted");
    replica.commit_operations(vec![put(A, "modified", Some("9223372036854775807"))]).unwrap();
    replica.expire_tasks_at(i64::MAX);
    assert_eq!(replica.all_task_uuids(), vec![TA.to_string()]);
    replica.commit_operations(vec![put(A, "modified", Some("-9223372036854775808"))]).unwrap();
    replica.expire_tasks_at(i64::MIN);
    assert_eq!(replica.all_task_uuids(), vec![TA.to_string()]);
    replica.expire_tasks_at(0);
    assert!(replica.all_task_uuids().is_empty());
}

#[test]
fn a_transaction_counts_once_committed() {
    let mut storage = InMemoryStorage::new();
    assert_eq!(storage.num_tasks(), 0);
    assert_eq!(storage.working_set_len(), 1);
    assert_eq!(storage.working_set_item(0), None);
    assert_eq!(storage.base_version(), 0);

    storage.begin();
    let mut map = TaskMap::new();
    map.insert("k".to_string(), "v".to_string());
    storage.set_task(A, map);
    storage.set_task(B, TaskMap::new());
    storage.add_operation(Operation::Create { uuid: A });
    storage.add_operation(Operation::UndoPoint);
    storage.set_working_set(vec![None, Some(A)]);
    storage.set_base_version(5);
    assert!(storage.has_task(A));
    storage.rollback();
    assert!(!storage.has_task(A));
    assert_eq!(storage.num_tasks(), 0);
    assert_eq!(storage.num_operations(), 0);
    assert_eq!(storage.working_set_len(), 1);
    assert_eq!(storage.base_version(), 0);

    storage.begin();
    let mut map = TaskMap::new();
    map.insert("k".to_string(), "v".to_string());
    storage.set_task(A, map);
    storage.set_task(B, TaskMap::new());
    storage.add_operation(Operation::Create { uuid: A });
    storage.add_operation(Operation::UndoPoint);
    storage.set_working_set(vec![None, Some(A)]);
    storage.set_base_version(5);
    storage.commit();
    assert_eq!(storage.num_tasks(), 2);
    assert_eq!(storage.task_uuid_at(0), A);
    assert_eq!(storage.task_uuid_at(1), B);
    assert_eq!(storage.task_at(0).get("k"), Some(&"v".to_string()));
    assert_eq!(storage.get_task(A).unwrap().len(), 1);
    assert!(storage.task(B).unwrap().is_empty());
    assert!(storage.get_task(C).is_none());
    assert_eq!(storage.num_operations(), 2);
    assert!(storage.operation_at(1).is_undo_point());
    assert_eq!(storage.working_set_item(1), Some(A));
    assert_eq!(storage.base_version(), 5);

    storage.begin();
    assert!(storage.delete_task(A));
    assert!(!storage.delete_task(A));
    storage.truncate_operations(1);
    storage.commit();
    assert_eq!(storage.num_tasks(), 1);
    assert_eq!(storage.task_uuid_at(0), B);
    assert_eq!(storage.num_operations(), 1);
    assert!(!storage.operation_at(0).is_undo_point());
}

#[test]
fn the_table_keeps_the_order_of_arrival() {
    let mut table = TaskTable::new();
    assert_eq!(table.len(), 0);
    table.insert(3, TaskMap::new());
    table.insert(1, TaskMap::new());
    let mut map = TaskMap::new();
    map.insert("k".to_string(), "v".to_string());
    table.insert(3, map);
    assert_eq!(table.len(), 2);
    assert_eq!(table.uuid_at(0), 3);
    assert_eq!(table.uuid_at(1), 1);
    assert_eq!(table.taskmap_at(0).len(), 1);
    assert_eq!(table.position(1), Some(1));
    assert_eq!(table.position(2), None);
    assert!(table.contains(1));
    assert!(table.get(3).is_some());
    assert!(table.get(2).is_none());
    let copy = table.clone();
    assert_eq!(table.remove(3).unwrap().len(), 1);
    assert!(table.remove(3).is_none());
    assert_eq!(table.len(), 1);
    assert_eq!(copy.len(), 2);
}
