//! What holds of the log and of undo, for every log and every storage.

use crate::operation::{
    apply, apply_all, property_of, records, revert, revert_all, uuid_of, with_property, Op, Tasks,
};
use crate::replica::{ends_with, run, step, unrun, unstep};
use crate::task::sets;
use crate::storage::{db_wf, empty_db, Db};
use crate::taskmap::Props;
use vstd::prelude::*;

verus! {

/// The properties of a task, or nothing where the task is not there.
pub open spec fn task_at(tasks: Tasks, uuid: u128) -> Option<Props> {
    if tasks.contains_key(uuid) {
        Some(tasks[uuid])
    } else {
        None
    }
}

/// Whether each operation of a log records what it replaced in the tasks
/// that it was applied to, the log being applied to `tasks`.
pub open spec fn faithful(tasks: Tasks, ops: Seq<Op>) -> bool
    decreases ops.len(),
{
    if ops.len() == 0 {
        true
    } else {
        faithful(tasks, ops.drop_last()) && match apply_all(tasks, ops.drop_last()) {
            Some(before) => records(before, ops.last()),
            None => false,
        }
    }
}

/// Replay determinism: a log applied to the empty storage gives the same
/// tasks each time.
pub proof fn lemma_replay_deterministic(log: Seq<Op>, first: Option<Db>, second: Option<Db>)
    requires
        first == run(empty_db(), log),
        second == run(empty_db(), log),
    ensures
        first == second,
        first is Some ==> first.unwrap().tasks == second.unwrap().tasks,
{
}

/// A batch fails on a storage if and only if it breaks the order of the
/// log on its tasks. Where it succeeds, the tasks are those that the
/// operations give one after the other, the batch stands at the end of the
/// log, and the working set and the base version are as they were.
pub proof fn lemma_run_is_replay(db: Db, ops: Seq<Op>)
    ensures
        run(db, ops) is Some <==> apply_all(db.tasks, ops) is Some,
        run(db, ops) matches Some(after) ==> apply_all(db.tasks, ops) == Some(after.tasks)
            && after.operations == db.operations + ops && after.working_set == db.working_set
            && after.base_version == db.base_version,
    decreases ops.len(),
{
    if ops.len() == 0 {
        assert(db.operations + ops =~= db.operations);
    } else {
        lemma_run_is_replay(db, ops.drop_last());
        match run(db, ops.drop_last()) {
            Some(mid) => {
                match step(mid, ops.last()) {
                    Some(after) => {
                        assert(after.operations =~= db.operations + ops);
                    },
                    None => {},
                }
            },
            None => {},
        }
    }
}

/// A log applied in two batches gives what it gives applied at once.
pub proof fn lemma_run_append(db: Db, first: Seq<Op>, second: Seq<Op>)
    ensures
        run(db, first + second) == match run(db, first) {
            Some(mid) => run(mid, second),
            None => None,
        },
    decreases second.len(),
{
    if second.len() == 0 {
        assert(first + second =~= first);
    } else {
        assert((first + second).drop_last() =~= first + second.drop_last());
        assert((first + second).last() == second.last());
        lemma_run_append(db, first, second.drop_last());
    }
}

/// A storage that began empty and took the log `log` holds that log, and
/// its tasks are those that replaying the log gives.
pub proof fn lemma_log_replays(log: Seq<Op>, db: Db)
    requires
        run(empty_db(), log) == Some(db),
    ensures
        db.operations == log,
        apply_all(Tasks::empty(), log) == Some(db.tasks),
{
    lemma_run_is_replay(empty_db(), log);
    assert(empty_db().operations + log =~= log);
}

/// Taking a batch back fails on a storage if and only if it fails on its
/// tasks. Where it succeeds, the tasks are those that taking back the
/// operations gives, the last one first, and the working set and the base
/// version are as they were.
pub proof fn lemma_unrun_is_revert(db: Db, ops: Seq<Op>)
    ensures
        unrun(db, ops) is Some <==> revert_all(db.tasks, ops) is Some,
        unrun(db, ops) matches Some(back) ==> revert_all(db.tasks, ops) == Some(back.tasks)
            && back.working_set == db.working_set && back.base_version == db.base_version,
    decreases ops.len(),
{
    if ops.len() > 0 {
        match unstep(db, ops.last()) {
            Some(mid) => {
                lemma_unrun_is_revert(mid, ops.drop_last());
            },
            None => {},
        }
    }
}

/// Operations that are not about a task leave it as it was.
pub proof fn lemma_untouched(tasks: Tasks, ops: Seq<Op>, uuid: u128)
    requires
        forall|i: int| 0 <= i < ops.len() ==> uuid_of(#[trigger] ops[i]) != Some(uuid),
        apply_all(tasks, ops) is Some,
    ensures
        task_at(apply_all(tasks, ops).unwrap(), uuid) == task_at(tasks, uuid),
    decreases ops.len(),
{
    if ops.len() > 0 {
        let front = ops.drop_last();
        assert forall|i: int| 0 <= i < front.len() implies uuid_of(#[trigger] front[i]) != Some(
            uuid,
        ) by {
            assert(front[i] == ops[i]);
        }
        lemma_untouched(tasks, front, uuid);
        assert(ops.last() == ops[ops.len() - 1]);
    }
}

/// Setting a property and then setting it back to what it was gives the
/// properties that were there.
pub proof fn lemma_property_back(props: Props, property: Seq<char>, value: Option<Seq<char>>)
    ensures
        property_of(with_property(props, property, value), property) == value,
        with_property(
            with_property(props, property, value),
            property,
            property_of(props, property),
        ) == props,
{
    assert(with_property(
        with_property(props, property, value),
        property,
        property_of(props, property),
    ) =~= props);
}

/// Round-trip undo, for one operation: where an operation records what it
/// replaced, taking it back right after it was applied restores the tasks
/// and the log. The working set and the base version are as they were.
pub proof fn lemma_undo_round_trip(db: Db, op: Op)
    requires
        db_wf(db),
        records(db.tasks, op),
        step(db, op) is Some,
    ensures
        unstep(step(db, op).unwrap(), op) is Some,
        unstep(step(db, op).unwrap(), op).unwrap().tasks == db.tasks,
        unstep(step(db, op).unwrap(), op).unwrap().operations == db.operations,
        unstep(step(db, op).unwrap(), op).unwrap().working_set == db.working_set,
        unstep(step(db, op).unwrap(), op).unwrap().base_version == db.base_version,
{
    let after = step(db, op).unwrap();
    lemma_revert_apply(db.tasks, op);
    assert(after.operations.drop_last() =~= db.operations);
}

/// Where an operation records what it replaced, taking it back right after
/// it was applied restores the tasks.
pub proof fn lemma_revert_apply(tasks: Tasks, op: Op)
    requires
        records(tasks, op),
        apply(tasks, op) is Some,
    ensures
        revert(apply(tasks, op).unwrap(), op) == Some(tasks),
{
    let after = apply(tasks, op).unwrap();
    match op {
        Op::Create { uuid } => {
            assert(after.remove(uuid) =~= tasks);
        },
        Op::Delete { uuid, old_task } => {
            assert(after.insert(uuid, old_task) =~= tasks);
        },
        Op::Update { uuid, property, old_value, value, timestamp } => {
            lemma_property_back(tasks[uuid], property, value);
            assert(after.insert(uuid, with_property(after[uuid], property, old_value)) =~= tasks);
        },
        Op::UndoPoint => {},
    }
}

/// Round-trip undo, for a batch: where each operation of a batch records
/// what it replaced, taking the batch back after it was applied succeeds,
/// and restores the tasks and the log. It does so from every storage that
/// holds the tasks and the log that the batch left.
pub proof fn lemma_undo_batch(db: Db, ops: Seq<Op>, held: Db)
    requires
        faithful(db.tasks, ops),
        run(db, ops) is Some,
        held.tasks == run(db, ops).unwrap().tasks,
        held.operations == run(db, ops).unwrap().operations,
    ensures
        unrun(held, ops) is Some,
        unrun(held, ops).unwrap().tasks == db.tasks,
        unrun(held, ops).unwrap().operations == db.operations,
        unrun(held, ops).unwrap().working_set == held.working_set,
        unrun(held, ops).unwrap().base_version == held.base_version,
    decreases ops.len(),
{
    if ops.len() > 0 {
        let front = ops.drop_last();
        let mid = run(db, front).unwrap();
        lemma_run_is_replay(db, front);
        lemma_revert_apply(mid.tasks, ops.last());
        let back = unstep(held, ops.last()).unwrap();
        assert(back.operations =~= mid.operations);
        lemma_undo_batch(db, front, back);
    }
}

/// Round-trip undo, for what was committed last: a batch that was committed
/// stands at the end of the log, and where each of its operations records
/// what it replaced, it can be taken back, which restores the tasks and the
/// log.
pub proof fn lemma_committed_batch_can_be_undone(db: Db, ops: Seq<Op>)
    requires
        faithful(db.tasks, ops),
        run(db, ops) is Some,
    ensures
        ends_with(run(db, ops).unwrap().operations, ops),
        unrun(run(db, ops).unwrap(), ops) is Some,
        unrun(run(db, ops).unwrap(), ops).unwrap().tasks == db.tasks,
        unrun(run(db, ops).unwrap(), ops).unwrap().operations == db.operations,
        unrun(run(db, ops).unwrap(), ops).unwrap().working_set == db.working_set,
        unrun(run(db, ops).unwrap(), ops).unwrap().base_version == db.base_version,
{
    let after = run(db, ops).unwrap();
    lemma_run_is_replay(db, ops);
    assert(after.operations.skip(after.operations.len() - ops.len()) =~= ops);
    lemma_undo_batch(db, ops, after);
}

/// Round-trip undo, with later operations on other tasks: where an
/// operation on a task records what it replaced, and the operations after it
/// are about other tasks, taking it back restores that task as it was before
/// the operation, and leaves the other tasks as they are.
pub proof fn lemma_undo_restores_task(tasks: Tasks, op: Op, later: Seq<Op>)
    requires
        uuid_of(op) is Some,
        records(tasks, op),
        apply(tasks, op) is Some,
        apply_all(apply(tasks, op).unwrap(), later) is Some,
        forall|i: int| 0 <= i < later.len() ==> uuid_of(#[trigger] later[i]) != uuid_of(op),
    ensures
        revert(apply_all(apply(tasks, op).unwrap(), later).unwrap(), op) is Some,
        task_at(
            revert(apply_all(apply(tasks, op).unwrap(), later).unwrap(), op).unwrap(),
            uuid_of(op).unwrap(),
        ) == task_at(tasks, uuid_of(op).unwrap()),
        forall|other: u128|
            other != uuid_of(op).unwrap() ==> #[trigger] task_at(
                revert(apply_all(apply(tasks, op).unwrap(), later).unwrap(), op).unwrap(),
                other,
            ) == task_at(apply_all(apply(tasks, op).unwrap(), later).unwrap(), other),
{
    let uuid = uuid_of(op).unwrap();
    let mid = apply(tasks, op).unwrap();
    let after = apply_all(mid, later).unwrap();
    lemma_untouched(mid, later, uuid);
    match op {
        Op::Update { uuid, property, old_value, value, timestamp } => {
            lemma_property_back(tasks[uuid], property, value);
        },
        _ => {},
    }
}

/// A change of a property that is applied a second time changes nothing
/// more: the operation may be delivered more than once.
pub proof fn lemma_update_idempotent(tasks: Tasks, op: Op)
    requires
        op is Update,
        apply(tasks, op) is Some,
    ensures
        apply(apply(tasks, op).unwrap(), op) == apply(tasks, op),
{
    let once = apply(tasks, op).unwrap();
    let twice = apply(once, op).unwrap();
    assert(twice =~= once) by {
        match op {
            Op::Update { uuid, property, old_value, value, timestamp } => {
                assert(with_property(once[uuid], property, value) =~= once[uuid]);
            },
            _ => {},
        }
    }
}

/// The operation that a setter gives can be committed where the task is in
/// the store as the setter found it: it records what it replaced, and it
/// leaves the task in the store as the setter left the task in hand.
pub proof fn lemma_setter_commits(
    tasks: Tasks,
    op: Op,
    uuid: u128,
    before: Props,
    property: Seq<char>,
    value: Option<Seq<char>>,
)
    requires
        sets(op, uuid, before, property, value),
        tasks.contains_key(uuid),
        tasks[uuid] == before,
    ensures
        records(tasks, op),
        apply(tasks, op) == Some(tasks.insert(uuid, with_property(before, property, value))),
{
}

} // verus!
