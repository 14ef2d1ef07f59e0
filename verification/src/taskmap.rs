//! The property bag of one task: property names to values, kept in the order
//! in which the names were first set.

use crate::assoc::{
    distinct_keys, has_key, key_index, lemma_map_of_index, lemma_map_of_push, lemma_map_of_remove,
    lemma_map_of_update, map_of,
};
use crate::text::same_text;
use vstd::prelude::*;

verus! {

/// The spec-level form of one property with its value.
pub type Pair = (Seq<char>, Seq<char>);

/// The spec-level form of a property bag.
pub type Props = Map<Seq<char>, Seq<char>>;

/// The pairs after a property is set to a value, or cleared where there is
/// none: a property that was set keeps its place, a new one comes last, a
/// cleared one leaves.
pub open spec fn with_pair(pairs: Seq<Pair>, k: Seq<char>, v: Option<Seq<char>>) -> Seq<Pair> {
    match v {
        Some(v) => if has_key(pairs, k) {
            pairs.update(key_index(pairs, k), (k, v))
        } else {
            pairs.push((k, v))
        },
        None => if has_key(pairs, k) {
            pairs.remove(key_index(pairs, k))
        } else {
            pairs
        },
    }
}

/// The property bag of one task.
#[derive(Debug)]
pub struct TaskMap {
    entries: Vec<(String, String)>,
}

impl View for TaskMap {
    type V = Props;

    open spec fn view(&self) -> Props {
        map_of(self.pairs())
    }
}

impl TaskMap {
    /// The properties in the order in which their names were first set.
    pub closed spec fn pairs(&self) -> Seq<Pair> {
        Seq::new(self.entries@.len(), |i: int| (self.entries@[i].0@, self.entries@[i].1@))
    }

    /// No property name occurs twice.
    pub open spec fn wf(&self) -> bool {
        distinct_keys(self.pairs())
    }

    /// A bag without properties.
    pub fn new() -> (r: TaskMap)
        ensures
            r.wf(),
            r.pairs() == Seq::<Pair>::empty(),
            r@ == Props::empty(),
    {
        let r = TaskMap { entries: Vec::new() };
        proof {
            assert(r.pairs() =~= Seq::<Pair>::empty());
            assert(r@ =~= Props::empty());
        }
        r
    }

    /// The number of properties.
    pub fn len(&self) -> (n: usize)
        ensures
            n == self.pairs().len(),
    {
        self.entries.len()
    }

    /// Whether no property is set.
    pub fn is_empty(&self) -> (r: bool)
        ensures
            r == (self@ == Props::empty()),
            r == (self.pairs().len() == 0),
    {
        proof {
            let pairs = self.pairs();
            if pairs.len() > 0 {
                assert(pairs[0].0 == pairs[0].0);
                assert(has_key(pairs, pairs[0].0));
                assert(self@.contains_key(pairs[0].0));
            } else {
                assert(self@ =~= Props::empty());
            }
        }
        self.entries.len() == 0
    }

    /// The name of the property at place `i`.
    pub fn key_at(&self, i: usize) -> (k: &String)
        requires
            i < self.pairs().len(),
        ensures
            k@ == self.pairs()[i as int].0,
    {
        &self.entries[i].0
    }

    /// The value of the property at place `i`.
    pub fn value_at(&self, i: usize) -> (v: &String)
        requires
            i < self.pairs().len(),
        ensures
            v@ == self.pairs()[i as int].1,
    {
        &self.entries[i].1
    }

    /// The place at which the property `k` stands.
    pub fn position(&self, k: &str) -> (r: Option<usize>)
        ensures
            match r {
                Some(i) => i < self.pairs().len() && self.pairs()[i as int].0 == k@,
                None => !has_key(self.pairs(), k@),
            },
    {
        let n = self.entries.len();
        let mut i: usize = 0;
        while i < n
            invariant
                n == self.entries@.len(),
                i <= n,
                forall|j: int| 0 <= j < i ==> (#[trigger] self.pairs()[j]).0 != k@,
            decreases n - i,
        {
            if same_text(self.entries[i].0.as_str(), k) {
                return Some(i);
            }
            i = i + 1;
        }
        None
    }

    /// Whether the property `k` is set.
    pub fn contains_key(&self, k: &str) -> (r: bool)
        ensures
            r == self@.contains_key(k@),
    {
        self.position(k).is_some()
    }

    /// The value of the property `k`, where it is set.
    pub fn get(&self, k: &str) -> (r: Option<&String>)
        requires
            self.wf(),
        ensures
            match r {
                Some(v) => self@.contains_key(k@) && self@[k@] == v@,
                None => !self@.contains_key(k@),
            },
    {
        match self.position(k) {
            Some(i) => {
                proof {
                    lemma_map_of_index(self.pairs(), i as int);
                }
                Some(&self.entries[i].1)
            },
            None => None,
        }
    }

    /// Sets the property `k` to `v` and gives back the value it had.
    pub fn insert(&mut self, k: String, v: String) -> (r: Option<String>)
        requires
            old(self).wf(),
        ensures
            final(self).wf(),
            final(self)@ == old(self)@.insert(k@, v@),
            match r {
                Some(w) => old(self)@.contains_key(k@) && old(self)@[k@] == w@,
                None => !old(self)@.contains_key(k@),
            },
            final(self).pairs() == with_pair(old(self).pairs(), k@, Some(v@)),
    {
        let ghost before = self.pairs();
        match self.position(k.as_str()) {
            Some(i) => {
                proof {
                    lemma_map_of_index(before, i as int);
                    lemma_map_of_update(before, i as int, v@);
                }
                let mut fresh = (k, v);
                let slot = &mut self.entries[i];
                std::mem::swap(slot, &mut fresh);
                proof {
                    assert(self.pairs() =~= before.update(i as int, (k@, v@)));
                }
                Some(fresh.1)
            },
            None => {
                proof {
                    lemma_map_of_push(before, k@, v@);
                }
                self.entries.push((k, v));
                proof {
                    assert(self.pairs() =~= before.push((k@, v@)));
                }
                None
            },
        }
    }

    /// Clears the property `k` and gives back the value it had.
    pub fn remove(&mut self, k: &str) -> (r: Option<String>)
        requires
            old(self).wf(),
        ensures
            final(self).wf(),
            final(self)@ == old(self)@.remove(k@),
            match r {
                Some(w) => old(self)@.contains_key(k@) && old(self)@[k@] == w@,
                None => !old(self)@.contains_key(k@),
            },
            final(self).pairs() == with_pair(old(self).pairs(), k@, None),
    {
        let ghost before = self.pairs();
        match self.position(k) {
            Some(i) => {
                proof {
                    lemma_map_of_index(before, i as int);
                    lemma_map_of_remove(before, i as int);
                }
                let gone = self.entries.remove(i);
                proof {
                    assert(self.pairs() =~= before.remove(i as int));
                }
                Some(gone.1)
            },
            None => {
                proof {
                    assert(self@ =~= old(self)@.remove(k@));
                }
                None
            },
        }
    }
}

impl TaskMap {
    /// Whether every property of `self` is set to the same value in `other`.
    fn within(&self, other: &TaskMap) -> (r: bool)
        requires
            self.wf(),
            other.wf(),
        ensures
            r == (forall|k: Seq<char>| #[trigger]
                self@.contains_key(k) ==> other@.contains_key(k) && other@[k] == self@[k]),
    {
        let n = self.entries.len();
        let mut i: usize = 0;
        while i < n
            invariant
                self.wf(),
                other.wf(),
                n == self.pairs().len(),
                i <= n,
                forall|j: int|
                    0 <= j < i ==> other@.contains_key((#[trigger] self.pairs()[j]).0)
                        && other@[self.pairs()[j].0] == self.pairs()[j].1,
            decreases n - i,
        {
            proof {
                lemma_map_of_index(self.pairs(), i as int);
            }
            let found = match other.get(self.entries[i].0.as_str()) {
                Some(v) => same_text(v.as_str(), self.entries[i].1.as_str()),
                None => false,
            };
            if !found {
                proof {
                    let k = self.pairs()[i as int].0;
                    assert(self@.contains_key(k) && self@[k] == self.pairs()[i as int].1);
                    assert(!(other@.contains_key(k) && other@[k] == self@[k]));
                }
                return false;
            }
            i = i + 1;
        }
        proof {
            assert forall|k: Seq<char>| #[trigger] self@.contains_key(k) implies other@.contains_key(
                k,
            ) && other@[k] == self@[k] by {
                let j = key_index(self.pairs(), k);
                lemma_map_of_index(self.pairs(), j);
            }
        }
        true
    }

    /// Whether two bags hold the same properties with the same values.
    pub fn same_as(&self, other: &TaskMap) -> (r: bool)
        requires
            self.wf(),
            other.wf(),
        ensures
            r == (self@ == other@),
    {
        let r = self.within(other) && other.within(self);
        proof {
            if r {
                assert(self@ =~= other@);
            }
        }
        r
    }
}

impl Clone for TaskMap {
    fn clone(&self) -> (r: TaskMap)
        ensures
            r.pairs() == self.pairs(),
            r@ == self@,
            r.wf() == self.wf(),
    {
        let n = self.entries.len();
        let mut entries: Vec<(String, String)> = Vec::new();
        let mut i: usize = 0;
        while i < n
            invariant
                n == self.entries@.len(),
                i <= n,
                entries@.len() == i,
                forall|j: int|
                    0 <= j < i ==> (#[trigger] entries@[j]).0@ == self.entries@[j].0@
                        && entries@[j].1@ == self.entries@[j].1@,
            decreases n - i,
        {
            entries.push((self.entries[i].0.clone(), self.entries[i].1.clone()));
            i = i + 1;
        }
        let r = TaskMap { entries };
        proof {
            assert(r.pairs() =~= self.pairs());
        }
        r
    }
}

} // verus!
