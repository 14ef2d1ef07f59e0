use task_replica::operation::Operation;
use task_replica::replica::Replica;
use task_replica::task::Status;

const UUID1: &str = "11111111-1111-1111-1111-111111111111";

#[test]
fn completed_task_without_dependents_is_not_blocking() {
    let mut replica = Replica::new_inmemory();
    let (mut task, create) = replica.create_task(UUID1.to_string()).unwrap();
    assert!(matches!(create, Operation::Create { .. }));
    let op = task.set_status(Status::Completed);
    replica.commit_operations(vec![op]).unwrap();
    let task = replica.get_task(UUID1.to_string()).unwrap().unwrap();
    assert_eq!(task.get_status(), Status::Completed);
    assert!(!task.is_blocking());
    assert!(!task.is_blocked());
}

#[test]
fn one_create_gives_one_uuid() {
    let mut replica = Replica::new_inmemory();
    replica.create_task(UUID1.to_string()).unwrap();
    assert_eq!(replica.all_task_uuids(), vec![UUID1.to_string()]);
}

#[test]
fn undo_of_create_removes_the_task() {
    let mut replica = Replica::new_inmemory();
    replica.create_task(UUID1.to_string()).unwrap();
    let undo = replica.get_undo_operations();
    assert_eq!(undo.len(), 1);
    assert!(matches!(undo[0], Operation::Create { uuid } if uuid == 0x11111111_1111_1111_1111_111111111111));
    assert_eq!(replica.commit_reversed_operations(undo), Ok(true));
    assert!(replica.get_task(UUID1.to_string()).unwrap().is_none());
    assert_eq!(replica.num_local_operations(), 0);
}
