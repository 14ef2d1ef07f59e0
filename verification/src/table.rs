//! The rows of the store: one property bag for each task, kept in the order
//! in which the tasks came.

use crate::assoc::{
    distinct_keys, has_key, key_index, lemma_map_of_index, lemma_map_of_push, lemma_map_of_remove,
    lemma_map_of_update, map_of,
};
use crate::operation::Tasks;
use crate::taskmap::{Props, TaskMap};
use std::collections::HashMap;
use vstd::prelude::*;

verus! {

broadcast use vstd::std_specs::hash::group_hash_axioms;

/// The spec-level form of one row.
pub type Row = (u128, Props);

/// The identifiers of a list of rows, in its order.
pub open spec fn ids_of(rows: Seq<Row>) -> Seq<u128> {
    rows.map_values(|r: Row| r.0)
}

/// The rows of the store, with an index from each task to the place of its
/// row.
#[derive(Debug)]
pub struct TaskTable {
    rows: Vec<(u128, TaskMap)>,
    index: HashMap<u128, usize>,
}

impl View for TaskTable {
    type V = Tasks;

    open spec fn view(&self) -> Tasks {
        map_of(self.rows())
    }
}

impl TaskTable {
    /// The rows in the order in which the tasks came.
    pub closed spec fn rows(&self) -> Seq<Row> {
        Seq::new(self.rows@.len(), |i: int| (self.rows@[i].0, self.rows@[i].1@))
    }

    /// Every property bag is well formed.
    pub closed spec fn bags_wf(&self) -> bool {
        forall|i: int| 0 <= i < self.rows@.len() ==> (#[trigger] self.rows@[i]).1.wf()
    }

    /// The index holds the place of the row of each task, and of no other.
    pub closed spec fn indexed(&self) -> bool {
        &&& forall|u: u128| #[trigger]
            self.index@.contains_key(u) ==> self.index@[u] < self.rows@.len()
                && self.rows@[self.index@[u] as int].0 == u
        &&& forall|i: int|
            0 <= i < self.rows@.len() ==> self.index@.contains_key((#[trigger] self.rows@[i]).0)
    }

    /// No task occurs twice, every property bag is well formed, and the
    /// index is that of the rows.
    pub open spec fn wf(&self) -> bool {
        distinct_keys(self.rows()) && self.bags_wf() && self.indexed()
    }

    /// The identifiers of the tasks, in the order in which they came.
    pub open spec fn order(&self) -> Seq<u128> {
        ids_of(self.rows())
    }

    /// A table without rows.
    pub fn new() -> (r: TaskTable)
        ensures
            r.wf(),
            r.rows() == Seq::<Row>::empty(),
            r@ == Tasks::empty(),
    {
        let r = TaskTable { rows: Vec::new(), index: HashMap::new() };
        proof {
            assert(r.rows() =~= Seq::<Row>::empty());
            assert(r@ =~= Tasks::empty());
        }
        r
    }

    /// The number of tasks.
    pub fn len(&self) -> (n: usize)
        ensures
            n == self.rows().len(),
    {
        self.rows.len()
    }

    /// The identifier of the task at place `i`.
    pub fn uuid_at(&self, i: usize) -> (u: u128)
        requires
            i < self.rows().len(),
        ensures
            u == self.rows()[i as int].0,
    {
        self.rows[i].0
    }

    /// The property bag of the task at place `i`.
    pub fn taskmap_at(&self, i: usize) -> (t: &TaskMap)
        requires
            self.wf(),
            i < self.rows().len(),
        ensures
            t@ == self.rows()[i as int].1,
            t.wf(),
    {
        &self.rows[i].1
    }

    /// The place at which the task `uuid` stands.
    pub fn position(&self, uuid: u128) -> (r: Option<usize>)
        requires
            self.wf(),
        ensures
            match r {
                Some(i) => i < self.rows().len() && self.rows()[i as int].0 == uuid,
                None => !has_key(self.rows(), uuid),
            },
    {
        match self.index.get(&uuid) {
            Some(i) => Some(*i),
            None => {
                proof {
                    if has_key(self.rows(), uuid) {
                        let i = key_index(self.rows(), uuid);
                        assert(self.rows@[i].0 == uuid);
                    }
                }
                None
            },
        }
    }

    /// Whether the task `uuid` is there.
    pub fn contains(&self, uuid: u128) -> (r: bool)
        requires
            self.wf(),
        ensures
            r == self@.contains_key(uuid),
    {
        self.position(uuid).is_some()
    }

    /// The property bag of the task `uuid`, where it is there.
    pub fn get(&self, uuid: u128) -> (r: Option<&TaskMap>)
        requires
            self.wf(),
        ensures
            match r {
                Some(t) => self@.contains_key(uuid) && self@[uuid] == t@ && t.wf(),
                None => !self@.contains_key(uuid),
            },
    {
        match self.position(uuid) {
            Some(i) => {
                proof {
                    lemma_map_of_index(self.rows(), i as int);
                }
                Some(&self.rows[i].1)
            },
            None => None,
        }
    }

    /// Gives the task `uuid` the property bag `taskmap`; a task that was not
    /// there comes last.
    pub fn insert(&mut self, uuid: u128, taskmap: TaskMap)
        requires
            old(self).wf(),
            taskmap.wf(),
        ensures
            final(self).wf(),
            final(self)@ == old(self)@.insert(uuid, taskmap@),
            old(self)@.contains_key(uuid) ==> final(self).order() == old(self).order(),
            !old(self)@.contains_key(uuid) ==> final(self).order() == old(self).order().push(uuid),
    {
        let ghost before = self.rows();
        match self.position(uuid) {
            Some(i) => {
                proof {
                    lemma_map_of_index(before, i as int);
                    lemma_map_of_update(before, i as int, taskmap@);
                }
                let mut fresh = (uuid, taskmap);
                let slot = &mut self.rows[i];
                std::mem::swap(slot, &mut fresh);
                proof {
                    assert(self.rows() =~= before.update(i as int, (uuid, taskmap@)));
                    assert(self.order() =~= old(self).order());
                    assert forall|j: int| 0 <= j < self.rows@.len() implies (
                    #[trigger] self.rows@[j]).0 == old(self).rows@[j].0 && self.rows@[j].1.wf() by {
                        if j != i {
                            assert(self.rows@[j] == old(self).rows@[j]);
                            assert(old(self).rows@[j].1.wf());
                        }
                    }
                    assert forall|j: int| 0 <= j < self.rows@.len() implies self.index@.contains_key(
                        (#[trigger] self.rows@[j]).0,
                    ) by {
                        assert(self.index@.contains_key(old(self).rows@[j].0));
                    }
                }
            },
            None => {
                proof {
                    lemma_map_of_push(before, uuid, taskmap@);
                }
                let place = self.rows.len();
                self.rows.push((uuid, taskmap));
                self.index.insert(uuid, place);
                proof {
                    assert(self.rows() =~= before.push((uuid, taskmap@)));
                    assert(self.order() =~= old(self).order().push(uuid));
                    assert forall|j: int| 0 <= j < self.rows@.len() implies (
                    #[trigger] self.rows@[j]).1.wf() && self.index@.contains_key(
                        self.rows@[j].0,
                    ) by {
                        if j < place {
                            assert(self.rows@[j] == old(self).rows@[j]);
                            assert(old(self).rows@[j].1.wf());
                            assert(old(self).index@.contains_key(old(self).rows@[j].0));
                        }
                    }
                    assert forall|u: u128| #[trigger]
                        self.index@.contains_key(u) implies self.index@[u] < self.rows@.len()
                        && self.rows@[self.index@[u] as int].0 == u by {
                        if u != uuid {
                            assert(old(self).index@.contains_key(u));
                            assert(self.rows@[old(self).index@[u] as int] == old(self).rows@[old(self).index@[u] as int]);
                        }
                    }
                }
            },
        }
    }

    /// Takes the task `uuid` out and gives back its property bag.
    pub fn remove(&mut self, uuid: u128) -> (r: Option<TaskMap>)
        requires
            old(self).wf(),
        ensures
            final(self).wf(),
            final(self)@ == old(self)@.remove(uuid),
            match r {
                Some(t) => old(self)@.contains_key(uuid) && old(self)@[uuid] == t@ && t.wf()
                    && final(self).order() == old(self).order().remove(
                    key_index(old(self).rows(), uuid),
                ),
                None => !old(self)@.contains_key(uuid) && final(self).order() == old(self).order(),
            },
    {
        let ghost before = self.rows();
        match self.position(uuid) {
            Some(i) => {
                proof {
                    lemma_map_of_index(before, i as int);
                    lemma_map_of_remove(before, i as int);
                }
                let gone = self.rows.remove(i);
                self.index.remove(&uuid);
                proof {
                    assert(self.rows() =~= before.remove(i as int));
                    assert(self.order() =~= old(self).order().remove(i as int));
                    assert forall|j: int| 0 <= j < self.rows@.len() implies (
                    #[trigger] self.rows@[j]).1.wf() by {
                        let j0 = if j < i { j } else { j + 1 };
                        assert(self.rows@[j] == old(self).rows@[j0]);
                        assert(old(self).rows@[j0].1.wf());
                    }
                }
                let n = self.rows.len();
                let ghost rows = self.rows@;
                let mut j: usize = i;
                proof {
                    assert forall|q0: int| 0 <= q0 < old(self).rows@.len() implies old(self).index@[(#[trigger] old(self).rows@[q0]).0] == q0 by {
                        let u = old(self).rows@[q0].0;
                        assert(old(self).index@.contains_key(u));
                        let p = old(self).index@[u] as int;
                        assert(old(self).rows@[p].0 == u);
                        if p < q0 {
                            assert(old(self).rows()[p].0 != old(self).rows()[q0].0);
                        } else if q0 < p {
                            assert(old(self).rows()[q0].0 != old(self).rows()[p].0);
                        }
                    }
                    assert forall|q: int| 0 <= q < n implies self.index@[(#[trigger] rows[q]).0]
                        == (if q < i {
                        q
                    } else {
                        q + 1
                    }) by {
                        let q0 = if q < i { q } else { q + 1 };
                        assert(rows[q] == old(self).rows@[q0]);
                        assert(old(self).index@[old(self).rows@[q0].0] == q0);
                        if q0 < i {
                            assert(old(self).rows()[q0].0 != old(self).rows()[i as int].0);
                        } else {
                            assert(old(self).rows()[i as int].0 != old(self).rows()[q0].0);
                        }
                    }
                }
                while j < n
                    invariant
                        rows == self.rows@,
                        n == rows.len(),
                        i <= j <= n,
                        old(self).wf(),
                        i < old(self).rows@.len(),
                        old(self).rows@[i as int].0 == uuid,
                        rows == old(self).rows@.remove(i as int),
                        forall|u: u128| #[trigger]
                            self.index@.contains_key(u) <==> u != uuid && old(self).index@.contains_key(u),
                        forall|q: int|
                            0 <= q < j ==> self.index@[(#[trigger] rows[q]).0] == q,
                        forall|q: int|
                            j <= q < n ==> self.index@[(#[trigger] rows[q]).0] == q + 1,
                    decreases n - j,
                {
                    let ghost index_before = self.index@;
                    let u = self.rows[j].0;
                    self.index.insert(u, j);
                    proof {
                        assert(rows[j as int] == old(self).rows@[j + 1]);
                        assert(old(self).index@.contains_key(old(self).rows@[j + 1].0));
                        assert(old(self).rows()[j + 1].0 != old(self).rows()[i as int].0);
                        assert forall|q: int| 0 <= q < j + 1 implies self.index@[(
                        #[trigger] rows[q]).0] == q by {
                            if q < j {
                                let q0 = if q < i { q } else { q + 1 };
                                assert(rows[q] == old(self).rows@[q0]);
                                assert(old(self).rows()[q0].0 != old(self).rows()[j + 1].0);
                                assert(index_before[rows[q].0] == q);
                            }
                        }
                        assert forall|q: int| j + 1 <= q < n implies self.index@[(
                        #[trigger] rows[q]).0] == q + 1 by {
                            assert(rows[q] == old(self).rows@[q + 1]);
                            assert(old(self).rows()[j + 1].0 != old(self).rows()[q + 1].0);
                            assert(index_before[rows[q].0] == q + 1);
                        }
                    }
                    j = j + 1;
                }
                proof {
                    assert forall|q: int| 0 <= q < self.rows@.len() implies self.index@.contains_key(
                        (#[trigger] self.rows@[q]).0,
                    ) by {
                        let q0 = if q < i { q } else { q + 1 };
                        assert(self.rows@[q] == old(self).rows@[q0]);
                        assert(old(self).index@.contains_key(old(self).rows@[q0].0));
                        assert(old(self).rows()[q0].0 != old(self).rows()[i as int].0);
                    }
                    assert forall|u: u128| #[trigger]
                        self.index@.contains_key(u) implies self.index@[u] < self.rows@.len()
                        && self.rows@[self.index@[u] as int].0 == u by {
                        let p = old(self).index@[u];
                        assert(old(self).rows@[p as int].0 == u);
                        assert(p != i);
                        let q = if p < i { p as int } else { p - 1 };
                        assert(self.rows@[q] == old(self).rows@[p as int]);
                        assert(self.index@[self.rows@[q].0] == q);
                    }
                }
                Some(gone.1)
            },
            None => {
                proof {
                    assert(self@ =~= old(self)@.remove(uuid));
                }
                None
            },
        }
    }

    /// The order holds each task of the table once.
    pub proof fn lemma_order(&self)
        requires
            self.wf(),
        ensures
            self.order().no_duplicates(),
            self.order().len() == self.rows().len(),
            forall|u: u128| self.order().contains(u) <==> self@.contains_key(u),
            forall|i: int|
                0 <= i < self.order().len() ==> self@.contains_key(#[trigger] self.order()[i])
                    && self@[self.order()[i]] == self.rows()[i].1 && self.order()[i]
                    == self.rows()[i].0,
    {
        let rows = self.rows();
        let order = self.order();
        assert forall|i: int, j: int| 0 <= i < order.len() && 0 <= j < order.len() && i != j implies order[i] != order[j] by {
            if i < j {
                assert(rows[i].0 != rows[j].0);
            } else {
                assert(rows[j].0 != rows[i].0);
            }
        }
        assert forall|u: u128| order.contains(u) <==> self@.contains_key(u) by {
            if order.contains(u) {
                let i = choose|i: int| 0 <= i < order.len() && order[i] == u;
                assert(rows[i].0 == u);
            }
            if self@.contains_key(u) {
                let i = key_index(rows, u);
                assert(order[i] == u);
            }
        }
        assert forall|i: int| 0 <= i < order.len() implies self@.contains_key(#[trigger] order[i])
            && self@[order[i]] == rows[i].1 && order[i] == rows[i].0 by {
            lemma_map_of_index(rows, i);
        }
    }
}

impl Clone for TaskTable {
    fn clone(&self) -> (r: TaskTable)
        ensures
            r.rows() == self.rows(),
            r@ == self@,
            r.wf() == self.wf(),
    {
        let n = self.rows.len();
        let mut rows: Vec<(u128, TaskMap)> = Vec::new();
        let mut i: usize = 0;
        while i < n
            invariant
                n == self.rows@.len(),
                i <= n,
                rows@.len() == i,
                forall|j: int|
                    0 <= j < i ==> (#[trigger] rows@[j]).0 == self.rows@[j].0 && rows@[j].1@
                        == self.rows@[j].1@ && rows@[j].1.wf() == self.rows@[j].1.wf(),
            decreases n - i,
        {
            rows.push((self.rows[i].0, self.rows[i].1.clone()));
            i = i + 1;
        }
        let r = TaskTable { rows, index: self.index.clone() };
        proof {
            assert(r.rows() =~= self.rows());
            if self.indexed() {
                assert forall|u: u128| #[trigger] r.index@.contains_key(u) implies r.index@[u]
                    < r.rows@.len() && r.rows@[r.index@[u] as int].0 == u by {
                    assert(self.rows@[self.index@[u] as int].0 == u);
                }
                assert forall|j: int| 0 <= j < r.rows@.len() implies r.index@.contains_key(
                    (#[trigger] r.rows@[j]).0,
                ) by {
                    assert(self.index@.contains_key(self.rows@[j].0));
                }
            }
            if r.indexed() {
                assert forall|u: u128| #[trigger] self.index@.contains_key(u) implies self.index@[u]
                    < self.rows@.len() && self.rows@[self.index@[u] as int].0 == u by {
                    assert(r.rows@[r.index@[u] as int].0 == u);
                }
                assert forall|j: int| 0 <= j < self.rows@.len() implies self.index@.contains_key(
                    (#[trigger] self.rows@[j]).0,
                ) by {
                    assert(r.index@.contains_key(r.rows@[j].0));
                }
            }
            if self.bags_wf() {
                assert forall|j: int| 0 <= j < r.rows@.len() implies (#[trigger] r.rows@[j]).1.wf() by {
                    assert(self.rows@[j].1.wf());
                }
            }
            if r.bags_wf() {
                assert forall|j: int| 0 <= j < self.rows@.len() implies (
                #[trigger] self.rows@[j]).1.wf() by {
                    assert(r.rows@[j].1.wf());
                }
            }
        }
        r
    }
}

} // verus!
