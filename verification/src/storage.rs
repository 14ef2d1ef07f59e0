//! The storage of a replica, kept in memory: the tasks, the log of
//! operations that no other replica has seen yet, the working set, and the
//! version on which the log builds. Changes are made inside a transaction
//! and count once it is committed.

use crate::operation::{log_view, log_wf, Op, Operation, Tasks};
use crate::table::TaskTable;
use crate::taskmap::TaskMap;
use vstd::prelude::*;

verus! {

/// The spec-level form of what the storage holds.
pub ghost struct Db {
    /// The property bag of each task.
    pub tasks: Tasks,
    /// The tasks in the order in which they came.
    pub order: Seq<u128>,
    /// The log of operations, oldest first.
    pub operations: Seq<Op>,
    /// The working set: at each index a task or a hole. Index 0 is a hole.
    pub working_set: Seq<Option<u128>>,
    /// The version on which the log builds.
    pub base_version: u128,
}

/// The storage that a new replica starts with.
pub open spec fn empty_db() -> Db {
    Db {
        tasks: Tasks::empty(),
        order: Seq::empty(),
        operations: Seq::empty(),
        working_set: seq![None],
        base_version: 0,
    }
}

/// What holds of every storage: `order` lists the tasks, each once, and the
/// working set begins with a hole.
pub open spec fn db_wf(db: Db) -> bool {
    &&& db.order.no_duplicates()
    &&& forall|u: u128| db.order.contains(u) <==> db.tasks.contains_key(u)
    &&& db.working_set.len() >= 1
    &&& db.working_set[0] is None
}

/// One state of the storage: the one that is being changed, or the one
/// that is kept to go back to.
struct Frame {
    tasks: TaskTable,
    operations: Vec<Operation>,
    working_set: Vec<Option<u128>>,
    base_version: u128,
}

impl Frame {
    spec fn db(&self) -> Db {
        Db {
            tasks: self.tasks@,
            order: self.tasks.order(),
            operations: log_view(self.operations@),
            working_set: self.working_set@,
            base_version: self.base_version,
        }
    }

    spec fn wf(&self) -> bool {
        &&& self.tasks.wf()
        &&& log_wf(self.operations@)
        &&& self.working_set@.len() >= 1
        &&& self.working_set@[0] is None
    }

    fn copy(&self) -> (r: Frame)
        requires
            self.wf(),
        ensures
            r.wf(),
            r.db() == self.db(),
    {
        let mut operations: Vec<Operation> = Vec::new();
        let n = self.operations.len();
        let mut i: usize = 0;
        while i < n
            invariant
                n == self.operations@.len(),
                i <= n,
                operations@.len() == i,
                log_wf(self.operations@),
                forall|j: int|
                    0 <= j < i ==> (#[trigger] operations@[j])@ == self.operations@[j]@
                        && operations@[j].wf(),
            decreases n - i,
        {
            operations.push(self.operations[i].clone());
            i = i + 1;
        }
        let mut working_set: Vec<Option<u128>> = Vec::new();
        let m = self.working_set.len();
        let mut k: usize = 0;
        while k < m
            invariant
                m == self.working_set@.len(),
                k <= m,
                working_set@ == self.working_set@.take(k as int),
            decreases m - k,
        {
            working_set.push(self.working_set[k]);
            proof {
                assert(self.working_set@.take(k + 1) =~= self.working_set@.take(k as int).push(
                    self.working_set@[k as int],
                ));
            }
            k = k + 1;
        }
        proof {
            assert(self.working_set@.take(m as int) =~= self.working_set@);
            assert(log_view(operations@) =~= log_view(self.operations@));
        }
        Frame {
            tasks: self.tasks.clone(),
            operations,
            working_set,
            base_version: self.base_version,
        }
    }
}

/// The storage of a replica, kept in memory.
pub struct InMemoryStorage {
    data: Frame,
    saved: Option<Frame>,
}

impl InMemoryStorage {
    /// What the storage holds now, with the changes of an open transaction.
    pub closed spec fn current(&self) -> Db {
        self.data.db()
    }

    /// What the storage held when the last transaction was committed.
    pub closed spec fn committed(&self) -> Db {
        match self.saved {
            Some(f) => f.db(),
            None => self.data.db(),
        }
    }

    /// Whether a transaction is open.
    pub closed spec fn in_txn(&self) -> bool {
        self.saved is Some
    }

    /// The parts of the storage are well formed.
    pub closed spec fn wf(&self) -> bool {
        &&& self.data.wf()
        &&& match self.saved {
            Some(f) => f.wf(),
            None => true,
        }
    }

    /// What is well formed holds what `db_wf` asks for.
    pub proof fn lemma_wf(&self)
        requires
            self.wf(),
        ensures
            db_wf(self.current()),
            db_wf(self.committed()),
            !self.in_txn() ==> self.committed() == self.current(),
    {
        self.data.tasks.lemma_order();
        match self.saved {
            Some(f) => {
                f.tasks.lemma_order();
            },
            None => {},
        }
    }

    /// A storage without tasks, with an empty log and an empty working set.
    pub fn new() -> (r: InMemoryStorage)
        ensures
            r.wf(),
            !r.in_txn(),
            r.current() == empty_db(),
            r.committed() == empty_db(),
    {
        let mut working_set: Vec<Option<u128>> = Vec::new();
        working_set.push(None);
        let r = InMemoryStorage {
            data: Frame {
                tasks: TaskTable::new(),
                operations: Vec::new(),
                working_set,
                base_version: 0,
            },
            saved: None,
        };
        proof {
            assert(r.data.tasks.order() =~= Seq::<u128>::empty());
            assert(log_view(r.data.operations@) =~= Seq::<Op>::empty());
            assert(r.data.working_set@ =~= seq![None]);
        }
        r
    }

    /// Whether a transaction is open.
    pub fn in_transaction(&self) -> (r: bool)
        ensures
            r == self.in_txn(),
    {
        self.saved.is_some()
    }

    /// Opens a transaction.
    pub fn begin(&mut self)
        requires
            old(self).wf(),
            !old(self).in_txn(),
        ensures
            final(self).wf(),
            final(self).in_txn(),
            final(self).current() == old(self).current(),
            final(self).committed() == old(self).current(),
    {
        let copy = self.data.copy();
        self.saved = Some(copy);
    }

    /// Closes the transaction and keeps its changes.
    pub fn commit(&mut self)
        requires
            old(self).wf(),
            old(self).in_txn(),
        ensures
            final(self).wf(),
            !final(self).in_txn(),
            final(self).current() == old(self).current(),
            final(self).committed() == old(self).current(),
    {
        self.saved = None;
    }

    /// Closes the transaction and drops its changes.
    pub fn rollback(&mut self)
        requires
            old(self).wf(),
            old(self).in_txn(),
        ensures
            final(self).wf(),
            !final(self).in_txn(),
            final(self).current() == old(self).committed(),
            final(self).committed() == old(self).committed(),
    {
        let mut saved: Option<Frame> = None;
        std::mem::swap(&mut self.saved, &mut saved);
        match saved {
            Some(f) => {
                self.data = f;
            },
            None => {},
        }
    }

    /// The property bag of a task, where the task is there.
    pub fn get_task(&self, uuid: u128) -> (r: Option<TaskMap>)
        requires
            self.wf(),
        ensures
            match r {
                Some(t) => t.wf() && self.current().tasks.contains_key(uuid) && t@
                    == self.current().tasks[uuid],
                None => !self.current().tasks.contains_key(uuid),
            },
    {
        match self.data.tasks.get(uuid) {
            Some(t) => Some(t.clone()),
            None => None,
        }
    }

    /// The property bag of a task as the storage holds it, where the task is
    /// there.
    pub fn task(&self, uuid: u128) -> (r: Option<&TaskMap>)
        requires
            self.wf(),
        ensures
            match r {
                Some(t) => t.wf() && self.current().tasks.contains_key(uuid) && t@
                    == self.current().tasks[uuid],
                None => !self.current().tasks.contains_key(uuid),
            },
    {
        self.data.tasks.get(uuid)
    }

    /// Whether a task is there.
    pub fn has_task(&self, uuid: u128) -> (r: bool)
        requires
            self.wf(),
        ensures
            r == self.current().tasks.contains_key(uuid),
    {
        self.data.tasks.contains(uuid)
    }

    /// The number of tasks.
    pub fn num_tasks(&self) -> (n: usize)
        ensures
            n == self.current().order.len(),
    {
        self.data.tasks.len()
    }

    /// The identifier of the task at place `i` of the order.
    pub fn task_uuid_at(&self, i: usize) -> (u: u128)
        requires
            i < self.current().order.len(),
        ensures
            u == self.current().order[i as int],
    {
        self.data.tasks.uuid_at(i)
    }

    /// The property bag of the task at place `i` of the order.
    pub fn task_at(&self, i: usize) -> (t: &TaskMap)
        requires
            self.wf(),
            i < self.current().order.len(),
        ensures
            t.wf(),
            self.current().tasks.contains_key(self.current().order[i as int]),
            t@ == self.current().tasks[self.current().order[i as int]],
    {
        proof {
            self.data.tasks.lemma_order();
        }
        self.data.tasks.taskmap_at(i)
    }

    /// The number of operations in the log.
    pub fn num_operations(&self) -> (n: usize)
        ensures
            n == self.current().operations.len(),
    {
        self.data.operations.len()
    }

    /// The operation at place `i` of the log.
    pub fn operation_at(&self, i: usize) -> (op: &Operation)
        requires
            self.wf(),
            i < self.current().operations.len(),
        ensures
            op.wf(),
            op@ == self.current().operations[i as int],
    {
        &self.data.operations[i]
    }

    /// The length of the working set, the hole at index 0 counted.
    pub fn working_set_len(&self) -> (n: usize)
        ensures
            n == self.current().working_set.len(),
    {
        self.data.working_set.len()
    }

    /// The task at index `i` of the working set, or the hole.
    pub fn working_set_item(&self, i: usize) -> (r: Option<u128>)
        requires
            i < self.current().working_set.len(),
        ensures
            r == self.current().working_set[i as int],
    {
        self.data.working_set[i]
    }

    /// The version on which the log builds.
    pub fn base_version(&self) -> (v: u128)
        ensures
            v == self.current().base_version,
    {
        self.data.base_version
    }

    /// Gives a task its property bag; a task that was not there comes last
    /// in the order.
    pub fn set_task(&mut self, uuid: u128, taskmap: TaskMap)
        requires
            old(self).wf(),
            old(self).in_txn(),
            taskmap.wf(),
        ensures
            final(self).wf(),
            final(self).in_txn(),
            final(self).committed() == old(self).committed(),
            final(self).current() == (Db {
                tasks: old(self).current().tasks.insert(uuid, taskmap@),
                order: if old(self).current().tasks.contains_key(uuid) {
                    old(self).current().order
                } else {
                    old(self).current().order.push(uuid)
                },
                ..old(self).current()
            }),
    {
        self.data.tasks.insert(uuid, taskmap);
    }

    /// Takes a task out, and says whether it was there.
    pub fn delete_task(&mut self, uuid: u128) -> (r: bool)
        requires
            old(self).wf(),
            old(self).in_txn(),
        ensures
            final(self).wf(),
            final(self).in_txn(),
            final(self).committed() == old(self).committed(),
            r == old(self).current().tasks.contains_key(uuid),
            final(self).current() == (Db {
                tasks: old(self).current().tasks.remove(uuid),
                order: if r {
                    old(self).current().order.remove(old(self).current().order.index_of(uuid))
                } else {
                    old(self).current().order
                },
                ..old(self).current()
            }),
    {
        proof {
            self.data.tasks.lemma_order();
            if self.data.tasks@.contains_key(uuid) {
                let order = self.data.tasks.order();
                let i = crate::assoc::key_index(self.data.tasks.rows(), uuid);
                assert(order[i] == uuid);
                let j = order.index_of(uuid);
                assert(order.contains(uuid));
                assert(0 <= j < order.len() && order[j] == uuid);
            }
        }
        self.data.tasks.remove(uuid).is_some()
    }

    /// Puts an operation at the end of the log.
    pub fn add_operation(&mut self, op: Operation)
        requires
            old(self).wf(),
            old(self).in_txn(),
            op.wf(),
        ensures
            final(self).wf(),
            final(self).in_txn(),
            final(self).committed() == old(self).committed(),
            final(self).current() == (Db {
                operations: old(self).current().operations.push(op@),
                ..old(self).current()
            }),
    {
        self.data.operations.push(op);
        proof {
            assert(log_view(self.data.operations@) =~= log_view(old(self).data.operations@).push(
                op@,
            ));
        }
    }

    /// Cuts the log down to its first `len` operations.
    pub fn truncate_operations(&mut self, len: usize)
        requires
            old(self).wf(),
            old(self).in_txn(),
            len <= old(self).current().operations.len(),
        ensures
            final(self).wf(),
            final(self).in_txn(),
            final(self).committed() == old(self).committed(),
            final(self).current() == (Db {
                operations: old(self).current().operations.take(len as int),
                ..old(self).current()
            }),
    {
        self.data.operations.truncate(len);
        proof {
            assert(log_view(self.data.operations@) =~= log_view(old(self).data.operations@).take(
                len as int,
            ));
        }
    }

    /// Drops the first `count` operations from the log.
    pub fn drop_operations(&mut self, count: usize)
        requires
            old(self).wf(),
            old(self).in_txn(),
            count <= old(self).current().operations.len(),
        ensures
            final(self).wf(),
            final(self).in_txn(),
            final(self).committed() == old(self).committed(),
            final(self).current() == (Db {
                operations: old(self).current().operations.skip(count as int),
                ..old(self).current()
            }),
    {
        let ghost before = self.data.operations@;
        let mut k: usize = 0;
        while k < count
            invariant
                k <= count,
                count <= before.len(),
                self.data.operations@ == before.skip(k as int),
                self.data.tasks == old(self).data.tasks,
                self.data.working_set == old(self).data.working_set,
                self.data.base_version == old(self).data.base_version,
                self.saved == old(self).saved,
            decreases count - k,
        {
            self.data.operations.remove(0);
            proof {
                assert(self.data.operations@ =~= before.skip(k + 1));
            }
            k = k + 1;
        }
        proof {
            assert(log_view(self.data.operations@) =~= log_view(before).skip(count as int));
            assert forall|i: int| 0 <= i < self.data.operations@.len() implies (
            #[trigger] self.data.operations@[i]).wf() by {
                assert(self.data.operations@[i] == before[i + count]);
            }
        }
    }

    /// Replaces the working set.
    pub fn set_working_set(&mut self, working_set: Vec<Option<u128>>)
        requires
            old(self).wf(),
            old(self).in_txn(),
            working_set@.len() >= 1,
            working_set@[0] is None,
        ensures
            final(self).wf(),
            final(self).in_txn(),
            final(self).committed() == old(self).committed(),
            final(self).current() == (Db { working_set: working_set@, ..old(self).current() }),
    {
        self.data.working_set = working_set;
    }

    /// Sets the version on which the log builds.
    pub fn set_base_version(&mut self, version: u128)
        requires
            old(self).wf(),
            old(self).in_txn(),
        ensures
            final(self).wf(),
            final(self).in_txn(),
            final(self).committed() == old(self).committed(),
            final(self).current() == (Db { base_version: version, ..old(self).current() }),
    {
        self.data.base_version = version;
    }
}

} // verus!
