//! The replica: one copy of the task database. It applies operations to the
//! storage, all of a batch or none, keeps the log from which they can be
//! taken back, and hands out the tasks.

use crate::assoc::lemma_push_contains;
use crate::clock::now;
use crate::codec::{decode, decode_db, encode};
use crate::decimal::parse_i64;
use crate::depmap::{
    among, blocked, blocking, depends_on, has_status, lemma_among_step, status_is, DependencyMap,
};
use crate::errors::Error;
use crate::ident::{format_uuid, parse_uuid, text_of_uuid, uuid_of_text};
use crate::operation::{apply, log_view, log_wf, revert, Op, Operation, Tasks};
use crate::storage::{db_wf, empty_db, Db, InMemoryStorage};
use crate::task::{time_of, Task};
use crate::taskdata::TaskData;
use crate::taskmap::{Props, TaskMap};
use crate::working_set::{
    arrivals, belongs, distinct_tasks, eligible, kept, lemma_kept_in_place,
    lemma_rebuild_keeps_indices, lemma_rebuilt, rebuilt, WorkingSet,
};
use std::collections::HashSet;
use vstd::prelude::*;

verus! {

broadcast use vstd::std_specs::hash::group_hash_axioms;

/// The order of the tasks after an operation: a created task comes last, a
/// deleted one leaves.
pub open spec fn order_after(order: Seq<u128>, op: Op) -> Seq<u128> {
    match op {
        Op::Create { uuid } => order.push(uuid),
        Op::Delete { uuid, .. } => order.remove(order.index_of(uuid)),
        _ => order,
    }
}

/// The order of the tasks after an operation is taken back: a created task
/// leaves, a deleted one comes last.
pub open spec fn order_before(order: Seq<u128>, op: Op) -> Seq<u128> {
    match op {
        Op::Create { uuid } => order.remove(order.index_of(uuid)),
        Op::Delete { uuid, .. } => order.push(uuid),
        _ => order,
    }
}

/// The storage after one operation is applied and logged, or nothing where
/// the operation breaks the order of the log.
pub open spec fn step(db: Db, op: Op) -> Option<Db> {
    match apply(db.tasks, op) {
        Some(tasks) => Some(
            Db {
                tasks,
                order: order_after(db.order, op),
                operations: db.operations.push(op),
                ..db
            },
        ),
        None => None,
    }
}

/// The storage after the operations of a batch, or nothing where one of them
/// breaks the order of the log.
pub open spec fn run(db: Db, ops: Seq<Op>) -> Option<Db>
    decreases ops.len(),
{
    if ops.len() == 0 {
        Some(db)
    } else {
        match run(db, ops.drop_last()) {
            Some(before) => step(before, ops.last()),
            None => None,
        }
    }
}

/// The storage after the last operation of the log is taken back and
/// dropped from the log, or nothing where the tasks are not as the operation
/// left them.
pub open spec fn unstep(db: Db, op: Op) -> Option<Db> {
    match revert(db.tasks, op) {
        Some(tasks) => Some(
            Db {
                tasks,
                order: order_before(db.order, op),
                operations: db.operations.drop_last(),
                ..db
            },
        ),
        None => None,
    }
}

/// The storage after the operations are taken back, the last one first, or
/// nothing where one of them cannot be.
pub open spec fn unrun(db: Db, ops: Seq<Op>) -> Option<Db>
    decreases ops.len(),
{
    if ops.len() == 0 {
        Some(db)
    } else {
        match unstep(db, ops.last()) {
            Some(before) => unrun(before, ops.drop_last()),
            None => None,
        }
    }
}

/// Whether `tail` is the end of `log`.
pub open spec fn ends_with(log: Seq<Op>, tail: Seq<Op>) -> bool {
    tail.len() <= log.len() && log.skip(log.len() - tail.len()) == tail
}

/// The place in the log at which the operations begin that are taken back
/// together: that of the last mark, or the beginning of the log where it
/// holds none.
pub open spec fn undo_start(log: Seq<Op>) -> int
    decreases log.len(),
{
    if log.len() == 0 {
        0
    } else if log.last() is UndoPoint {
        log.len() - 1
    } else {
        undo_start(log.drop_last())
    }
}

/// The number of marks in a log.
pub open spec fn count_undo_points(log: Seq<Op>) -> nat
    decreases log.len(),
{
    if log.len() == 0 {
        0
    } else if log.last() is UndoPoint {
        count_undo_points(log.drop_last()) + 1
    } else {
        count_undo_points(log.drop_last())
    }
}

/// A batch that fails after some of its operations fails as a whole.
pub proof fn lemma_run_fails(db: Db, ops: Seq<Op>, i: int)
    requires
        0 <= i <= ops.len(),
        run(db, ops.take(i)) is None,
    ensures
        run(db, ops) is None,
    decreases ops.len() - i,
{
    if i == ops.len() {
        assert(ops.take(i) =~= ops);
    } else {
        assert(ops.take(i + 1).drop_last() =~= ops.take(i));
        lemma_run_fails(db, ops, i + 1);
    }
}

/// Applies one operation to the storage and logs it.
fn apply_op(storage: &mut InMemoryStorage, op: &Operation) -> (r: bool)
    requires
        old(storage).wf(),
        old(storage).in_txn(),
        op.wf(),
    ensures
        final(storage).wf(),
        final(storage).in_txn(),
        final(storage).committed() == old(storage).committed(),
        r == step(old(storage).current(), op@) is Some,
        r ==> final(storage).current() == step(old(storage).current(), op@).unwrap(),
        !r ==> final(storage).current() == old(storage).current(),
{
    proof {
        storage.lemma_wf();
    }
    match op {
        Operation::Create { uuid } => {
            if storage.has_task(*uuid) {
                return false;
            }
            storage.set_task(*uuid, TaskMap::new());
        },
        Operation::Delete { uuid, old_task: _ } => {
            if !storage.delete_task(*uuid) {
                proof {
                    assert(storage.current().tasks =~= old(storage).current().tasks);
                    assert(storage.current() == old(storage).current());
                }
                return false;
            }
        },
        Operation::Update { uuid, property, old_value: _, value, timestamp: _ } => {
            let mut taskmap = match storage.get_task(*uuid) {
                Some(t) => t,
                None => {
                    return false;
                },
            };
            match value {
                Some(v) => {
                    taskmap.insert(property.clone(), v.clone());
                },
                None => {
                    taskmap.remove(property.as_str());
                },
            }
            storage.set_task(*uuid, taskmap);
        },
        Operation::UndoPoint => {},
    }
    storage.add_operation(op.clone());
    true
}

/// Takes one operation back in the storage and drops the last entry of the
/// log.
fn revert_op(storage: &mut InMemoryStorage, op: &Operation) -> (r: bool)
    requires
        old(storage).wf(),
        old(storage).in_txn(),
        op.wf(),
        old(storage).current().operations.len() > 0,
    ensures
        final(storage).wf(),
        final(storage).in_txn(),
        final(storage).committed() == old(storage).committed(),
        r == unstep(old(storage).current(), op@) is Some,
        r ==> final(storage).current() == unstep(old(storage).current(), op@).unwrap(),
        !r ==> final(storage).current() == old(storage).current(),
{
    proof {
        storage.lemma_wf();
    }
    match op {
        Operation::Create { uuid } => {
            let empty = match storage.get_task(*uuid) {
                Some(t) => t.is_empty(),
                None => false,
            };
            if !empty {
                return false;
            }
            storage.delete_task(*uuid);
        },
        Operation::Delete { uuid, old_task } => {
            if storage.has_task(*uuid) {
                return false;
            }
            storage.set_task(*uuid, old_task.clone());
        },
        Operation::Update { uuid, property, old_value, value, timestamp: _ } => {
            let mut taskmap = match storage.get_task(*uuid) {
                Some(t) => t,
                None => {
                    return false;
                },
            };
            let found = match taskmap.get(property.as_str()) {
                Some(s) => Some(s.clone()),
                None => None,
            };
            if !crate::operation::same_option(&found, value) {
                return false;
            }
            match old_value {
                Some(v) => {
                    taskmap.insert(property.clone(), v.clone());
                },
                None => {
                    taskmap.remove(property.as_str());
                },
            }
            storage.set_task(*uuid, taskmap);
        },
        Operation::UndoPoint => {},
    }
    let n = storage.num_operations();
    storage.truncate_operations(n - 1);
    true
}

/// One copy of the task database.
pub struct Replica {
    storage: InMemoryStorage,
    depmap: Option<DependencyMap>,
}

impl Replica {
    /// What the replica holds.
    pub closed spec fn db(&self) -> Db {
        self.storage.current()
    }

    /// The storage is well formed, no transaction is open, and no task
    /// stands at two indices of the working set.
    pub closed spec fn wf(&self) -> bool {
        &&& self.storage.wf()
        &&& !self.storage.in_txn()
        &&& distinct_tasks(self.storage.current().working_set)
        &&& match self.depmap {
            Some(dm) => dm.wf() && dm.describes(self.storage.current().tasks),
            None => true,
        }
    }

    /// What holds of every replica.
    pub proof fn lemma_wf(&self)
        requires
            self.wf(),
        ensures
            db_wf(self.db()),
            distinct_tasks(self.db().working_set),
    {
        self.storage.lemma_wf();
    }

    /// A replica without tasks, whose storage is kept in memory.
    pub fn new_inmemory() -> (r: Replica)
        ensures
            r.wf(),
            r.db() == empty_db(),
    {
        Replica { storage: InMemoryStorage::new(), depmap: None }
    }

    /// Applies a batch of operations and puts them at the end of the log:
    /// all of them, or none where one breaks the order of the log.
    pub fn commit_operations(&mut self, ops: Vec<Operation>) -> (r: Result<(), Error>)
        requires
            old(self).wf(),
            log_wf(ops@),
        ensures
            final(self).wf(),
            match r {
                Ok(()) => run(old(self).db(), log_view(ops@)) == Some(final(self).db()),
                Err(e) => e == Error::InvalidOperation && run(old(self).db(), log_view(ops@))
                    is None && final(self).db() == old(self).db(),
            },
    {
        let ghost all = log_view(ops@);
        let ghost before = self.db();
        self.depmap = None;
        self.storage.begin();
        let n = ops.len();
        let mut i: usize = 0;
        while i < n
            invariant
                n == ops@.len(),
                i <= n,
                log_wf(ops@),
                all == log_view(ops@),
                self.storage.wf(),
                self.storage.in_txn(),
                self.storage.committed() == before,
                before == old(self).db(),
                distinct_tasks(before.working_set),
                self.depmap is None,
                run(before, all.take(i as int)) == Some(self.storage.current()),
                self.storage.current().working_set == before.working_set,
            decreases n - i,
        {
            proof {
                assert(all.take(i + 1).drop_last() =~= all.take(i as int));
                assert(all.take(i + 1).last() == ops@[i as int]@);
            }
            if !apply_op(&mut self.storage, &ops[i]) {
                proof {
                    lemma_run_fails(before, all, i + 1);
                }
                self.storage.rollback();
                return Err(Error::InvalidOperation);
            }
            i = i + 1;
        }
        proof {
            assert(all.take(n as int) =~= all);
        }
        self.storage.commit();
        Ok(())
    }

    /// The number of operations in the log: those that no other replica has
    /// seen yet.
    pub fn num_local_operations(&self) -> (n: usize)
        ensures
            n == self.db().operations.len(),
    {
        self.storage.num_operations()
    }

    /// The number of marks in the log: how often operations can be taken
    /// back.
    pub fn num_undo_points(&self) -> (n: usize)
        requires
            self.wf(),
        ensures
            n == count_undo_points(self.db().operations),
    {
        let len = self.storage.num_operations();
        let ghost log = self.db().operations;
        let mut n: usize = 0;
        let mut i: usize = 0;
        while i < len
            invariant
                self.storage.wf(),
                log == self.storage.current().operations,
                len == log.len(),
                i <= len,
                n <= i,
                n == count_undo_points(log.take(i as int)),
            decreases len - i,
        {
            proof {
                assert(log.take(i + 1).drop_last() =~= log.take(i as int));
            }
            if self.storage.operation_at(i).is_undo_point() {
                n = n + 1;
            }
            i = i + 1;
        }
        proof {
            assert(log.take(len as int) =~= log);
        }
        n
    }

    /// The operations that are taken back together: those from the last mark
    /// of the log on, the mark included, or the whole log where it holds no
    /// mark; in the order in which they were applied.
    pub fn get_undo_operations(&self) -> (r: Vec<Operation>)
        requires
            self.wf(),
        ensures
            log_wf(r@),
            log_view(r@) == self.db().operations.skip(undo_start(self.db().operations)),
    {
        let len = self.storage.num_operations();
        let ghost log = self.db().operations;
        let mut start: usize = len;
        let mut found = false;
        proof {
            assert(log.take(len as int) =~= log);
        }
        while start > 0 && !found
            invariant
                self.storage.wf(),
                log == self.storage.current().operations,
                len == log.len(),
                start <= len,
                found ==> start < len && log[start as int] is UndoPoint && undo_start(log)
                    == start,
                !found ==> undo_start(log) == undo_start(log.take(start as int)),
            decreases start + (if found { 0int } else { 1int }),
        {
            proof {
                assert(log.take(start as int).drop_last() =~= log.take(start - 1));
                assert(log.take(start as int).last() == log[start - 1]);
                assert(log.take(len as int) =~= log);
            }
            if self.storage.operation_at(start - 1).is_undo_point() {
                found = true;
            }
            start = start - 1;
        }
        proof {
            assert(log.take(len as int) =~= log);
            assert(undo_start(log) == start);
        }
        let mut out: Vec<Operation> = Vec::new();
        let mut i: usize = start;
        while i < len
            invariant
                self.storage.wf(),
                log == self.storage.current().operations,
                len == log.len(),
                start <= i <= len,
                log_wf(out@),
                log_view(out@) == log.subrange(start as int, i as int),
            decreases len - i,
        {
            let ghost prev = out@;
            out.push(self.storage.operation_at(i).clone());
            proof {
                assert(log_view(out@) =~= log_view(prev).push(log[i as int]));
                assert(log.subrange(start as int, i + 1) =~= log.subrange(
                    start as int,
                    i as int,
                ).push(log[i as int]));
            }
            i = i + 1;
        }
        proof {
            assert(log.subrange(start as int, len as int) =~= log.skip(start as int));
        }
        out
    }

    /// Takes back the operations `ops`, the last one first, and drops them
    /// from the log. This is done, and `true` returned, where `ops` stands
    /// at the end of the log and the tasks are as these operations left
    /// them. Where the tasks are not, or where `ops` or the log is empty,
    /// `false` is returned. Operations that are not the last of the log
    /// cannot be taken back before those that follow them: they are refused.
    /// Except where `true` is returned, nothing changes.
    pub fn commit_reversed_operations(&mut self, ops: Vec<Operation>) -> (r: Result<bool, Error>)
        requires
            old(self).wf(),
            log_wf(ops@),
        ensures
            final(self).wf(),
            match r {
                Ok(undone) => {
                    &&& ops@.len() == 0 || old(self).db().operations.len() == 0 || ends_with(
                        old(self).db().operations,
                        log_view(ops@),
                    )
                    &&& undone == (ops@.len() > 0 && ends_with(
                        old(self).db().operations,
                        log_view(ops@),
                    ) && unrun(old(self).db(), log_view(ops@)) is Some)
                    &&& undone ==> final(self).db() == unrun(
                        old(self).db(),
                        log_view(ops@),
                    ).unwrap()
                    &&& !undone ==> final(self).db() == old(self).db()
                },
                Err(e) => e == Error::InvalidOperation && ops@.len() > 0 && old(self).db().operations.len() > 0 && !ends_with(
                    old(self).db().operations,
                    log_view(ops@),
                ) && final(self).db() == old(self).db(),
            },
    {
        let ghost all = log_view(ops@);
        let ghost before = self.db();
        let ghost log = before.operations;
        let n = ops.len();
        let len = self.storage.num_operations();
        if n == 0 || len == 0 {
            return Ok(false);
        }
        if n > len {
            return Err(Error::InvalidOperation);
        }
        let first = len - n;
        let mut i: usize = 0;
        while i < n
            invariant
                self.storage.wf(),
                log == self.storage.current().operations,
                len == log.len(),
                n == ops@.len(),
                n <= len,
                first == len - n,
                i <= n,
                log_wf(ops@),
                all == log_view(ops@),
                *self == *old(self),
                old(self).wf(),
                log == old(self).db().operations,
                forall|j: int| 0 <= j < i ==> log[first + j] == #[trigger] all[j],
            decreases n - i,
        {
            if !self.storage.operation_at(first + i).same_as(&ops[i]) {
                proof {
                    assert(log.skip(len - n)[i as int] == log[first + i]);
                    assert(all[i as int] == ops@[i as int]@);
                }
                return Err(Error::InvalidOperation);
            }
            proof {
                assert(all[i as int] == ops@[i as int]@);
            }
            i = i + 1;
        }
        proof {
            assert(log.skip(len - n) =~= all);
            assert(all.take(n as int) =~= all);
        }
        self.depmap = None;
        self.storage.begin();
        let mut j: usize = n;
        while j > 0
            invariant
                n == ops@.len(),
                j <= n,
                n <= len,
                log_wf(ops@),
                all == log_view(ops@),
                self.storage.wf(),
                self.storage.in_txn(),
                self.storage.committed() == before,
                before == old(self).db(),
                distinct_tasks(before.working_set),
                self.depmap is None,
                ends_with(before.operations, all),
                self.storage.current().operations.len() == len - (n - j),
                self.storage.current().working_set == before.working_set,
                unrun(before, all) == unrun(self.storage.current(), all.take(j as int)),
            decreases j,
        {
            proof {
                assert(all.take(j as int).drop_last() =~= all.take(j - 1));
                assert(all.take(j as int).last() == ops@[j - 1]@);
                assert(all.take(n as int) =~= all);
            }
            if !revert_op(&mut self.storage, &ops[j - 1]) {
                self.storage.rollback();
                return Ok(false);
            }
            j = j - 1;
        }
        proof {
            assert(all.take(n as int) =~= all);
        }
        self.storage.commit();
        Ok(true)
    }

    /// The identifiers of all tasks, as text, in the order in which the
    /// tasks came.
    pub fn all_task_uuids(&self) -> (r: Vec<String>)
        ensures
            r@.len() == self.db().order.len(),
            forall|i: int|
                0 <= i < r@.len() ==> (#[trigger] r@[i])@ == text_of_uuid(self.db().order[i]),
    {
        let n = self.storage.num_tasks();
        let mut out: Vec<String> = Vec::new();
        let mut i: usize = 0;
        while i < n
            invariant
                n == self.storage.current().order.len(),
                i <= n,
                out@.len() == i,
                forall|j: int|
                    0 <= j < i ==> (#[trigger] out@[j])@ == text_of_uuid(
                        self.storage.current().order[j],
                    ),
            decreases n - i,
        {
            out.push(format_uuid(self.storage.task_uuid_at(i)));
            i = i + 1;
        }
        out
    }

    /// All tasks in their raw form, in the order in which they came.
    pub fn all_task_data(&self) -> (r: Vec<TaskData>)
        requires
            self.wf(),
        ensures
            r@.len() == self.db().order.len(),
            forall|i: int|
                0 <= i < r@.len() ==> (#[trigger] r@[i]).wf() && r@[i].id() == self.db().order[i]
                    && r@[i]@ == self.db().tasks[self.db().order[i]],
    {
        let n = self.storage.num_tasks();
        let mut out: Vec<TaskData> = Vec::new();
        let mut i: usize = 0;
        while i < n
            invariant
                self.storage.wf(),
                n == self.storage.current().order.len(),
                i <= n,
                out@.len() == i,
                forall|j: int|
                    0 <= j < i ==> (#[trigger] out@[j]).wf() && out@[j].id()
                        == self.storage.current().order[j] && out@[j]@
                        == self.storage.current().tasks[self.storage.current().order[j]],
            decreases n - i,
        {
            let uuid = self.storage.task_uuid_at(i);
            let taskmap = self.storage.task_at(i).clone();
            out.push(TaskData::new(uuid, taskmap));
            i = i + 1;
        }
        out
    }

    /// The raw form of the task that `uuid` names, or nothing where no such
    /// task is there.
    pub fn get_task_data(&self, uuid: String) -> (r: Result<Option<TaskData>, Error>)
        requires
            self.wf(),
        ensures
            match r {
                Ok(Some(data)) => uuid_of_text(uuid@) == Some(data.id()) && data.wf()
                    && self.db().tasks.contains_key(data.id()) && data@
                    == self.db().tasks[data.id()],
                Ok(None) => uuid_of_text(uuid@) is Some && !self.db().tasks.contains_key(
                    uuid_of_text(uuid@).unwrap(),
                ),
                Err(e) => e == Error::MalformedValue && uuid_of_text(uuid@) is None,
            },
    {
        let u = match parse_uuid(uuid.as_str()) {
            Some(u) => u,
            None => {
                return Err(Error::MalformedValue);
            },
        };
        match self.storage.get_task(u) {
            Some(t) => Ok(Some(TaskData::new(u, t))),
            None => Ok(None),
        }
    }
}

impl Replica {
    /// Rebuilds the working set. A task that has an index and is still
    /// eligible keeps it. An index whose task is gone or no longer eligible
    /// becomes a hole, or, where `renumber` is set, is given up, so that the
    /// tasks that stay move down to the indices from 1 on, in their order.
    /// The eligible tasks that had no index follow, in the order in which
    /// the tasks came.
    pub fn rebuild_working_set(&mut self, renumber: bool)
        requires
            old(self).wf(),
        ensures
            final(self).wf(),
            final(self).db() == (Db {
                working_set: rebuilt(
                    old(self).db().tasks,
                    old(self).db().order,
                    old(self).db().working_set,
                    renumber,
                ),
                ..old(self).db()
            }),
            !renumber ==> final(self).db().working_set.len() >= old(self).db().working_set.len(),
            !renumber ==> forall|i: int|
                0 <= i < old(self).db().working_set.len() && (
                #[trigger] old(self).db().working_set[i]) is Some && eligible(
                    old(self).db().tasks,
                    old(self).db().working_set[i].unwrap(),
                ) ==> final(self).db().working_set[i] == old(self).db().working_set[i],
            forall|i: int|
                0 <= i < final(self).db().working_set.len() && (
                #[trigger] final(self).db().working_set[i]) is Some ==> eligible(
                    final(self).db().tasks,
                    final(self).db().working_set[i].unwrap(),
                ),
            forall|u: u128|
                eligible(final(self).db().tasks, u) ==> final(self).db().working_set.contains(
                    Some(u),
                ),
    {
        let ghost tasks = self.db().tasks;
        let ghost order = self.db().order;
        let ghost ws = self.db().working_set;
        proof {
            self.storage.lemma_wf();
            lemma_rebuilt(tasks, order, ws, renumber);
            let next = rebuilt(tasks, order, ws, renumber);
            if !renumber {
                lemma_kept_in_place(tasks, ws);
                assert forall|i: int|
                    0 <= i < ws.len() && (#[trigger] ws[i]) is Some && eligible(
                        tasks,
                        ws[i].unwrap(),
                    ) implies next[i] == ws[i] by {
                    lemma_rebuild_keeps_indices(tasks, order, ws, i);
                }
            }
            assert forall|u: u128| eligible(tasks, u) implies next.contains(Some(u)) by {
                assert(order.contains(u));
                let i = choose|i: int| 0 <= i < order.len() && order[i] == u;
                assert(eligible(tasks, order[i]));
            }
        }
        let n = self.storage.num_tasks();
        let mut pending: HashSet<u128> = HashSet::new();
        let mut t: usize = 0;
        while t < n
            invariant
                self.storage.wf(),
                tasks == self.storage.current().tasks,
                order == self.storage.current().order,
                db_wf(self.storage.current()),
                n == order.len(),
                t <= n,
                forall|u: u128|
                    #[trigger] pending@.contains(u) <==> among(order, t as int, u) && eligible(
                        tasks,
                        u,
                    ),
            decreases n - t,
        {
            let u = self.storage.task_uuid_at(t);
            let belongs_here = belongs(self.storage.task_at(t));
            if belongs_here {
                pending.insert(u);
            }
            proof {
                assert forall|v: u128| #[trigger]
                    pending@.contains(v) <==> among(order, t + 1, v) && eligible(tasks, v) by {
                    lemma_among_step(order, t as int, v);
                }
            }
            t = t + 1;
        }
        proof {
            assert forall|u: u128| #[trigger] pending@.contains(u) <==> eligible(tasks, u) by {
                if eligible(tasks, u) {
                    assert(order.contains(u));
                    let x = choose|x: int| 0 <= x < order.len() && order[x] == u;
                    assert(among(order, n as int, u));
                }
            }
        }
        let m = self.storage.working_set_len();
        let mut next: Vec<Option<u128>> = Vec::new();
        let mut indexed: HashSet<u128> = HashSet::new();
        let mut i: usize = 0;
        proof {
            assert(ws.take(0) =~= Seq::<Option<u128>>::empty());
        }
        while i < m
            invariant
                ws == self.storage.current().working_set,
                m == ws.len(),
                i <= m,
                forall|u: u128| #[trigger] pending@.contains(u) <==> eligible(tasks, u),
                forall|u: u128|
                    #[trigger] indexed@.contains(u) <==> ws.take(i as int).contains(Some(u)),
                next@ == kept(tasks, ws.take(i as int), renumber),
            decreases m - i,
        {
            proof {
                assert(ws.take(i + 1).drop_last() =~= ws.take(i as int));
                assert(ws.take(i + 1).last() == ws[i as int]);
                assert(ws.take(i + 1) =~= ws.take(i as int).push(ws[i as int]));
            }
            let item = self.storage.working_set_item(i);
            let stays = match item {
                Some(u) => {
                    indexed.insert(u);
                    pending.contains(&u)
                },
                None => false,
            };
            proof {
                assert forall|u: u128| #[trigger]
                    indexed@.contains(u) <==> ws.take(i + 1).contains(Some(u)) by {
                    lemma_push_contains(ws.take(i as int), ws[i as int], Some(u));
                }
            }
            if stays {
                next.push(item);
            } else if !(renumber && i > 0) {
                next.push(None);
            }
            i = i + 1;
        }
        proof {
            assert(ws.take(m as int) =~= ws);
        }
        let mut k: usize = 0;
        while k < n
            invariant
                self.storage.wf(),
                tasks == self.storage.current().tasks,
                order == self.storage.current().order,
                ws == self.storage.current().working_set,
                n == order.len(),
                k <= n,
                forall|u: u128| #[trigger] indexed@.contains(u) <==> ws.contains(Some(u)),
                next@ == kept(tasks, ws, renumber) + arrivals(tasks, order.take(k as int), ws),
            decreases n - k,
        {
            proof {
                assert(order.take(k + 1).drop_last() =~= order.take(k as int));
                assert(order.take(k + 1).last() == order[k as int]);
            }
            let u = self.storage.task_uuid_at(k);
            if belongs(self.storage.task_at(k)) && !indexed.contains(&u) {
                next.push(Some(u));
                proof {
                    assert(next@ =~= kept(tasks, ws, renumber) + arrivals(
                        tasks,
                        order.take(k + 1),
                        ws,
                    ));
                }
            }
            k = k + 1;
        }
        proof {
            assert(order.take(n as int) =~= order);
        }
        self.storage.begin();
        self.storage.set_working_set(next);
        self.storage.commit();
    }

    /// The working set as it stands.
    pub fn working_set(&self) -> (r: WorkingSet)
        ensures
            r@ == self.db().working_set,
    {
        let m = self.storage.working_set_len();
        let mut out: Vec<Option<u128>> = Vec::new();
        let mut i: usize = 0;
        while i < m
            invariant
                m == self.storage.current().working_set.len(),
                i <= m,
                out@ == self.storage.current().working_set.take(i as int),
            decreases m - i,
        {
            out.push(self.storage.working_set_item(i));
            proof {
                assert(self.storage.current().working_set.take(i + 1)
                    =~= self.storage.current().working_set.take(i as int).push(
                    self.storage.current().working_set[i as int],
                ));
            }
            i = i + 1;
        }
        proof {
            assert(self.storage.current().working_set.take(m as int)
                =~= self.storage.current().working_set);
        }
        WorkingSet::new(out)
    }
}

impl Replica {
    /// The dependency map of the tasks as they stand. The replica keeps the
    /// map until the tasks change; with `force` it is made anew.
    pub fn dependency_map(&mut self, force: bool) -> (dm: DependencyMap)
        requires
            old(self).wf(),
        ensures
            final(self).wf(),
            final(self).db() == old(self).db(),
            dm.wf(),
            dm.describes(final(self).db().tasks),
    {
        if !force {
            match &self.depmap {
                Some(dm) => {
                    return dm.clone();
                },
                None => {},
            }
        }
        let dm = DependencyMap::build(&self.storage);
        let copy = dm.clone();
        self.depmap = Some(dm);
        copy
    }

    /// The task `uuid` with the properties `taskmap`, and what the
    /// dependency map says of it.
    fn task_of(dm: &DependencyMap, uuid: u128, taskmap: TaskMap, Ghost(tasks): Ghost<
        crate::operation::Tasks,
    >) -> (task: Task)
        requires
            dm.wf(),
            dm.describes(tasks),
            taskmap.wf(),
        ensures
            task.wf(),
            task.id() == uuid,
            task@ == taskmap@,
            task.data().bag().pairs() == taskmap.pairs(),
            task.blocked() == blocked(tasks, uuid),
            task.blocking() == blocking(tasks, uuid),
    {
        let is_blocked = dm.has_dependencies(uuid);
        let is_blocking = dm.has_dependents(uuid);
        proof {
            if is_blocked {
                let b = choose|b: u128| dm.depends(uuid, b);
                assert(depends_on(tasks, uuid, b));
            }
            if blocked(tasks, uuid) {
                let b = choose|b: u128| depends_on(tasks, uuid, b);
                assert(dm.depends(uuid, b));
            }
            if is_blocking {
                let a = choose|a: u128| dm.depends(a, uuid);
                assert(depends_on(tasks, a, uuid));
            }
            if blocking(tasks, uuid) {
                let a = choose|a: u128| depends_on(tasks, a, uuid);
                assert(dm.depends(a, uuid));
            }
        }
        Task::new(TaskData::new(uuid, taskmap), is_blocked, is_blocking)
    }

    /// Creates the task that `uuid` names, without properties, and logs the
    /// creation. A text that is no identifier is refused, and so is the
    /// identifier of a task that is there; nothing changes then.
    pub fn create_task(&mut self, uuid: String) -> (r: Result<(Task, Operation), Error>)
        requires
            old(self).wf(),
        ensures
            final(self).wf(),
            match r {
                Ok((task, op)) => uuid_of_text(uuid@) == Some(task.id()) && op@ == (Op::Create {
                    uuid: task.id(),
                }) && step(old(self).db(), op@) == Some(final(self).db()) && task.wf() && task@
                    == Props::empty() && task.blocked() == blocked(
                    final(self).db().tasks,
                    task.id(),
                ) && task.blocking() == blocking(final(self).db().tasks, task.id()),
                Err(e) => final(self).db() == old(self).db() && match uuid_of_text(uuid@) {
                    Some(u) => e == Error::DuplicateUuid && old(self).db().tasks.contains_key(u),
                    None => e == Error::MalformedValue,
                },
            },
    {
        let u = match parse_uuid(uuid.as_str()) {
            Some(u) => u,
            None => {
                return Err(Error::MalformedValue);
            },
        };
        if self.storage.has_task(u) {
            return Err(Error::DuplicateUuid);
        }
        let op = Operation::Create { uuid: u };
        self.depmap = None;
        self.storage.begin();
        apply_op(&mut self.storage, &op);
        self.storage.commit();
        let dm = self.dependency_map(false);
        let task = Self::task_of(&dm, u, TaskMap::new(), Ghost(self.storage.current().tasks));
        Ok((task, op))
    }

    /// The task that `uuid` names, or nothing where no such task is there.
    /// A text that is no identifier is refused.
    pub fn get_task(&mut self, uuid: String) -> (r: Result<Option<Task>, Error>)
        requires
            old(self).wf(),
        ensures
            final(self).wf(),
            final(self).db() == old(self).db(),
            match r {
                Ok(Some(task)) => uuid_of_text(uuid@) == Some(task.id()) && task.wf()
                    && old(self).db().tasks.contains_key(task.id()) && task@
                    == old(self).db().tasks[task.id()] && task.blocked() == blocked(
                    old(self).db().tasks,
                    task.id(),
                ) && task.blocking() == blocking(old(self).db().tasks, task.id()),
                Ok(None) => uuid_of_text(uuid@) is Some && !old(self).db().tasks.contains_key(
                    uuid_of_text(uuid@).unwrap(),
                ),
                Err(e) => e == Error::MalformedValue && uuid_of_text(uuid@) is None,
            },
    {
        let u = match parse_uuid(uuid.as_str()) {
            Some(u) => u,
            None => {
                return Err(Error::MalformedValue);
            },
        };
        let taskmap = match self.storage.get_task(u) {
            Some(t) => t,
            None => {
                return Ok(None);
            },
        };
        let dm = self.dependency_map(false);
        Ok(Some(Self::task_of(&dm, u, taskmap, Ghost(self.storage.current().tasks))))
    }

    /// All tasks, each with its identifier as text, in the order in which
    /// they came.
    pub fn all_tasks(&mut self) -> (r: Vec<(String, Task)>)
        requires
            old(self).wf(),
        ensures
            final(self).wf(),
            final(self).db() == old(self).db(),
            r@.len() == old(self).db().order.len(),
            forall|i: int|
                0 <= i < r@.len() ==> {
                    let u = old(self).db().order[i];
                    let (text, task) = #[trigger] r@[i];
                    &&& text@ == text_of_uuid(u)
                    &&& task.wf()
                    &&& task.id() == u
                    &&& task@ == old(self).db().tasks[u]
                    &&& task.blocked() == blocked(old(self).db().tasks, u)
                    &&& task.blocking() == blocking(old(self).db().tasks, u)
                },
    {
        let dm = self.dependency_map(false);
        let n = self.storage.num_tasks();
        let mut out: Vec<(String, Task)> = Vec::new();
        let mut i: usize = 0;
        while i < n
            invariant
                self.wf(),
                self.db() == old(self).db(),
                dm.wf(),
                dm.describes(self.storage.current().tasks),
                n == self.storage.current().order.len(),
                i <= n,
                out@.len() == i,
                forall|j: int|
                    0 <= j < i ==> {
                        let u = self.storage.current().order[j];
                        let (text, task) = #[trigger] out@[j];
                        &&& text@ == text_of_uuid(u)
                        &&& task.wf()
                        &&& task.id() == u
                        &&& task@ == self.storage.current().tasks[u]
                        &&& task.blocked() == blocked(self.storage.current().tasks, u)
                        &&& task.blocking() == blocking(self.storage.current().tasks, u)
                    },
            decreases n - i,
        {
            let u = self.storage.task_uuid_at(i);
            let taskmap = self.storage.task_at(i).clone();
            let task = Self::task_of(&dm, u, taskmap, Ghost(self.storage.current().tasks));
            out.push((format_uuid(u), task));
            i = i + 1;
        }
        out
    }
}

/// For how long a task that is marked as deleted is kept: 180 days, in
/// seconds.
pub const RETENTION_SECS: i64 = 15_552_000;

/// Whether a task with these properties is given up at the time `now`: it is
/// marked as deleted, and its last change lies further back than the
/// retention allows.
pub open spec fn expired(props: Props, now: i64) -> bool {
    status_is(props, "deleted"@) && match time_of(props, "modified"@) {
        Some(modified) => modified + RETENTION_SECS < now,
        None => false,
    }
}

/// The tasks that are not given up at the time `now`.
pub open spec fn unexpired(tasks: Tasks, now: i64) -> Tasks {
    Map::new(|u: u128| tasks.contains_key(u) && !expired(tasks[u], now), |u: u128| tasks[u])
}

/// The tasks of `order` that are not given up at the time `now`, in that
/// order.
pub open spec fn survivors(tasks: Tasks, order: Seq<u128>, now: i64) -> Seq<u128>
    decreases order.len(),
{
    if order.len() == 0 {
        Seq::empty()
    } else {
        let before = survivors(tasks, order.drop_last(), now);
        if expired(tasks[order.last()], now) {
            before
        } else {
            before.push(order.last())
        }
    }
}

/// The storage after the tasks that are given up at the time `now` have
/// been purged. The log stays as it is.
pub open spec fn purged(db: Db, now: i64) -> Db {
    Db { tasks: unexpired(db.tasks, now), order: survivors(db.tasks, db.order, now), ..db }
}

/// Whether a task with these properties is given up at the time `now`.
fn is_expired(taskmap: &TaskMap, now: i64) -> (r: bool)
    requires
        taskmap.wf(),
    ensures
        r == expired(taskmap@, now),
{
    if !has_status(taskmap, "deleted") {
        return false;
    }
    let modified = match taskmap.get("modified") {
        Some(v) => parse_i64(v.as_str()),
        None => None,
    };
    match modified {
        Some(m) => (m as i128) + (RETENTION_SECS as i128) < (now as i128),
        None => false,
    }
}

impl Replica {
    /// Purges the tasks that are given up at the time `now`, given in
    /// seconds since 1970. What is purged cannot be brought back: the log
    /// records nothing of it.
    pub fn expire_tasks_at(&mut self, now: i64)
        requires
            old(self).wf(),
        ensures
            final(self).wf(),
            final(self).db() == purged(old(self).db(), now),
    {
        let ghost before = self.db();
        let ghost tasks0 = before.tasks;
        let ghost order0 = before.order;
        proof {
            self.storage.lemma_wf();
        }
        self.depmap = None;
        self.storage.begin();
        let n = self.storage.num_tasks();
        let mut i: usize = 0;
        let mut k: usize = 0;
        proof {
            assert(order0.take(0) =~= Seq::<u128>::empty());
            assert(order0.skip(0) =~= order0);
            assert(survivors(tasks0, order0.take(0), now) + order0.skip(0) =~= order0);
        }
        while k < n
            invariant
                self.storage.wf(),
                self.storage.in_txn(),
                self.storage.committed() == before,
                before == old(self).db(),
                distinct_tasks(before.working_set),
                self.depmap is None,
                tasks0 == before.tasks,
                order0 == before.order,
                db_wf(before),
                n == order0.len(),
                k <= n,
                i <= k,
                i == survivors(tasks0, order0.take(k as int), now).len(),
                self.storage.current().order == survivors(tasks0, order0.take(k as int), now)
                    + order0.skip(k as int),
                forall|u: u128|
                    #[trigger] self.storage.current().tasks.contains_key(u) <==> tasks0.contains_key(
                        u,
                    ) && !(among(order0, k as int, u) && expired(tasks0[u], now)),
                forall|u: u128|
                    #[trigger] self.storage.current().tasks.contains_key(u)
                        ==> self.storage.current().tasks[u] == tasks0[u],
                self.storage.current().operations == before.operations,
                self.storage.current().working_set == before.working_set,
                self.storage.current().base_version == before.base_version,
            decreases n - k,
        {
            let ghost cur = self.storage.current();
            let ghost kept_so_far = survivors(tasks0, order0.take(k as int), now);
            proof {
                self.storage.lemma_wf();
                assert(order0.take(k + 1).drop_last() =~= order0.take(k as int));
                assert(order0.take(k + 1).last() == order0[k as int]);
                assert(cur.order[i as int] == order0.skip(k as int)[0]);
                assert(cur.order[i as int] == order0[k as int]);
                assert(order0.contains(order0[k as int]));
                assert(cur.order.contains(cur.order[i as int]));
            }
            let u = self.storage.task_uuid_at(i);
            if is_expired(self.storage.task_at(i), now) {
                proof {
                    let j = cur.order.index_of(u);
                    assert(0 <= j < cur.order.len() && cur.order[j] == u);
                    assert(j == i);
                }
                self.storage.delete_task(u);
                proof {
                    assert(self.storage.current().order =~= kept_so_far + order0.skip(k + 1));
                    assert forall|v: u128|
                        #[trigger] self.storage.current().tasks.contains_key(v)
                            <==> tasks0.contains_key(v) && !(among(order0, k + 1, v) && expired(
                            tasks0[v],
                            now,
                        )) by {
                        lemma_among_step(order0, k as int, v);
                    }
                }
            } else {
                proof {
                    assert(self.storage.current().order =~= kept_so_far.push(u) + order0.skip(
                        k + 1,
                    ));
                    assert forall|v: u128|
                        #[trigger] self.storage.current().tasks.contains_key(v)
                            <==> tasks0.contains_key(v) && !(among(order0, k + 1, v) && expired(
                            tasks0[v],
                            now,
                        )) by {
                        lemma_among_step(order0, k as int, v);
                    }
                }
                i = i + 1;
            }
            k = k + 1;
        }
        proof {
            assert(order0.take(n as int) =~= order0);
            assert(order0.skip(n as int) =~= Seq::<u128>::empty());
            assert(self.storage.current().order =~= survivors(tasks0, order0, now));
            assert forall|u: u128| tasks0.contains_key(u) implies among(order0, n as int, u) by {
                assert(order0.contains(u));
                let j = choose|j: int| 0 <= j < order0.len() && order0[j] == u;
                assert(order0[j] == u);
            }
            assert(self.storage.current().tasks =~= unexpired(tasks0, now));
        }
        self.storage.commit();
    }

    /// Purges the tasks that are given up now.
    pub fn expire_tasks(&mut self)
        requires
            old(self).wf(),
        ensures
            final(self).wf(),
            exists|now: i64| final(self).db() == #[trigger] purged(old(self).db(), now),
    {
        let t = now();
        self.expire_tasks_at(t.secs);
    }
}

/// Whether no task stands at two indices of the working set of a storage.
fn has_distinct_tasks(storage: &InMemoryStorage) -> (r: bool)
    ensures
        r == distinct_tasks(storage.current().working_set),
{
    let ghost ws = storage.current().working_set;
    let m = storage.working_set_len();
    let mut i: usize = 0;
    while i < m
        invariant
            ws == storage.current().working_set,
            m == ws.len(),
            i <= m,
            forall|a: int, b: int|
                0 <= a < i && a < b < m && (#[trigger] ws[a]) is Some ==> ws[a] != #[trigger] ws[b],
        decreases m - i,
    {
        let item = storage.working_set_item(i);
        if item.is_some() {
            let mut j: usize = i + 1;
            while j < m
                invariant
                    ws == storage.current().working_set,
                    m == ws.len(),
                    i < j <= m,
                    item == ws[i as int],
                    item is Some,
                    forall|b: int| i < b < j ==> ws[i as int] != #[trigger] ws[b],
                decreases m - j,
            {
                if storage.working_set_item(j) == item {
                    proof {
                        assert(ws[i as int] is Some && ws[i as int] == ws[j as int]);
                    }
                    return false;
                }
                j = j + 1;
            }
        }
        i = i + 1;
    }
    true
}

impl Replica {
    /// A replica over a storage that holds tasks already. The storage is
    /// refused where a transaction is open in it, or where a task stands at
    /// two indices of its working set.
    pub fn with_storage(storage: InMemoryStorage) -> (r: Result<Replica, Error>)
        requires
            storage.wf(),
        ensures
            match r {
                Ok(replica) => replica.wf() && replica.db() == storage.current()
                    && !storage.in_txn() && distinct_tasks(storage.current().working_set),
                Err(e) => e == Error::Storage && (storage.in_txn() || !distinct_tasks(
                    storage.current().working_set,
                )),
            },
    {
        if storage.in_transaction() || !has_distinct_tasks(&storage) {
            return Err(Error::Storage);
        }
        Ok(Replica { storage, depmap: None })
    }

    /// Deletes the task that `uuid` names and logs the deletion with the
    /// properties that the task had. A text that is no identifier is
    /// refused, and so is the identifier of a task that is not there;
    /// nothing changes then.
    pub fn delete_task(&mut self, uuid: String) -> (r: Result<Operation, Error>)
        requires
            old(self).wf(),
        ensures
            final(self).wf(),
            match r {
                Ok(op) => uuid_of_text(uuid@) is Some && old(self).db().tasks.contains_key(
                    uuid_of_text(uuid@).unwrap(),
                ) && op.wf() && op@ == (Op::Delete {
                    uuid: uuid_of_text(uuid@).unwrap(),
                    old_task: old(self).db().tasks[uuid_of_text(uuid@).unwrap()],
                }) && step(old(self).db(), op@) == Some(final(self).db()),
                Err(e) => final(self).db() == old(self).db() && match uuid_of_text(uuid@) {
                    Some(u) => e == Error::TaskNotFound && !old(self).db().tasks.contains_key(u),
                    None => e == Error::MalformedValue,
                },
            },
    {
        let u = match parse_uuid(uuid.as_str()) {
            Some(u) => u,
            None => {
                return Err(Error::MalformedValue);
            },
        };
        let old_task = match self.storage.get_task(u) {
            Some(t) => t,
            None => {
                return Err(Error::TaskNotFound);
            },
        };
        let op = Operation::Delete { uuid: u, old_task };
        self.depmap = None;
        self.storage.begin();
        apply_op(&mut self.storage, &op);
        self.storage.commit();
        Ok(op)
    }
}

impl Replica {
    /// The log: the operations that no other replica has seen yet, oldest
    /// first.
    pub fn local_operations(&self) -> (r: Vec<Operation>)
        requires
            self.wf(),
        ensures
            log_wf(r@),
            log_view(r@) == self.db().operations,
    {
        let len = self.storage.num_operations();
        let ghost log = self.db().operations;
        let mut out: Vec<Operation> = Vec::new();
        let mut i: usize = 0;
        while i < len
            invariant
                self.storage.wf(),
                log == self.storage.current().operations,
                len == log.len(),
                i <= len,
                log_wf(out@),
                log_view(out@) == log.take(i as int),
            decreases len - i,
        {
            let ghost prev = out@;
            out.push(self.storage.operation_at(i).clone());
            proof {
                assert(log_view(out@) =~= log_view(prev).push(log[i as int]));
                assert(log.take(i + 1) =~= log.take(i as int).push(log[i as int]));
            }
            i = i + 1;
        }
        proof {
            assert(log.take(len as int) =~= log);
        }
        out
    }

    /// The version on which the log builds: the last state that is known to
    /// be shared with the other replicas.
    pub fn base_version(&self) -> (v: u128)
        ensures
            v == self.db().base_version,
    {
        self.storage.base_version()
    }

    /// Takes note that the other replicas have seen the first
    /// `acknowledged` operations of the log, and that the log now builds on
    /// `version`: these operations leave the log. More operations than the
    /// log holds are refused, and nothing changes.
    pub fn accept_base_version(&mut self, version: u128, acknowledged: usize) -> (r: Result<
        (),
        Error,
    >)
        requires
            old(self).wf(),
        ensures
            final(self).wf(),
            match r {
                Ok(()) => acknowledged <= old(self).db().operations.len() && final(self).db() == (
                Db {
                    operations: old(self).db().operations.skip(acknowledged as int),
                    base_version: version,
                    ..old(self).db()
                }),
                Err(e) => e == Error::InvalidOperation && acknowledged > old(self).db().operations.len() && final(self).db() == old(self).db(),
            },
    {
        if acknowledged > self.storage.num_operations() {
            return Err(Error::InvalidOperation);
        }
        self.storage.begin();
        self.storage.drop_operations(acknowledged);
        self.storage.set_base_version(version);
        self.storage.commit();
        Ok(())
    }
}

impl Replica {
    /// The written form of what the replica holds, to be kept in a file.
    pub fn snapshot(&self) -> (r: Vec<char>)
        requires
            self.wf(),
        ensures
            decode_db(r@) == Some(self.db()),
    {
        encode(&self.storage)
    }

    /// The replica that holds what a text says. The text is refused where
    /// it is not the written form of a storage, or where it puts a task at
    /// two indices of the working set.
    pub fn restore(text: &Vec<char>) -> (r: Result<Replica, Error>)
        ensures
            match r {
                Ok(replica) => replica.wf() && decode_db(text@) == Some(replica.db()),
                Err(e) => e == Error::Storage && match decode_db(text@) {
                    Some(db) => !distinct_tasks(db.working_set),
                    None => true,
                },
            },
    {
        match decode(text) {
            Some(storage) => Replica::with_storage(storage),
            None => Err(Error::Storage),
        }
    }
}

} // verus!
