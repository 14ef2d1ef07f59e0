//! The dependency map: which task waits for which. A task names the tasks
//! it depends on in properties `dep_<uuid>`; the map holds the pairs that
//! count.

use crate::assoc::{has_key, key_index, map_of};
use crate::ident::{parse_uuid, uuid_of_text};
use crate::operation::Tasks;
use crate::storage::InMemoryStorage;
use crate::taskmap::{Pair, Props, TaskMap};
use crate::text::{after, has_prefix, same_text, starts_with};
use vstd::prelude::*;

verus! {

/// Whether the status of a task with these properties is set to `status`.
pub open spec fn status_is(props: Props, status: Seq<char>) -> bool {
    props.contains_key("status"@) && props["status"@] == status
}

/// Whether the task `u` is there and not marked as deleted.
pub open spec fn live(tasks: Tasks, u: u128) -> bool {
    tasks.contains_key(u) && !status_is(tasks[u], "deleted"@)
}

/// Whether the task `u` is live and not completed.
pub open spec fn unfinished(tasks: Tasks, u: u128) -> bool {
    live(tasks, u) && !status_is(tasks[u], "completed"@)
}

/// The task that a property name declares a dependency on: the name is
/// `dep_` and then the text of an identifier.
pub open spec fn dep_target(key: Seq<char>) -> Option<u128> {
    if starts_with(key, "dep_"@) {
        uuid_of_text(key.skip(4))
    } else {
        None
    }
}

/// Whether a task with these properties declares a dependency on `b`.
pub open spec fn names_dependency(props: Props, b: u128) -> bool {
    exists|k: Seq<char>| #[trigger] props.contains_key(k) && dep_target(k) == Some(b)
}

/// Whether `a` waits for `b`: `a` is live and declares a dependency on
/// another task `b`, which is live and not completed.
pub open spec fn depends_on(tasks: Tasks, a: u128, b: u128) -> bool {
    a != b && live(tasks, a) && unfinished(tasks, b) && names_dependency(tasks[a], b)
}

/// Whether `a` waits for some task.
pub open spec fn blocked(tasks: Tasks, a: u128) -> bool {
    exists|b: u128| depends_on(tasks, a, b)
}

/// Whether some task waits for `b`.
pub open spec fn blocking(tasks: Tasks, b: u128) -> bool {
    exists|a: u128| depends_on(tasks, a, b)
}

/// Whether `x` is among the numbers of `v`.
pub fn holds(v: &Vec<u128>, x: u128) -> (r: bool)
    ensures
        r == v@.contains(x),
{
    let n = v.len();
    let mut i: usize = 0;
    while i < n
        invariant
            n == v@.len(),
            i <= n,
            forall|j: int| 0 <= j < i ==> v@[j] != x,
        decreases n - i,
    {
        if v[i] == x {
            return true;
        }
        i = i + 1;
    }
    false
}

/// A copy of a list of numbers.
pub fn copy_ids(v: &Vec<u128>) -> (r: Vec<u128>)
    ensures
        r@ == v@,
{
    let n = v.len();
    let mut out: Vec<u128> = Vec::new();
    let mut i: usize = 0;
    while i < n
        invariant
            n == v@.len(),
            i <= n,
            out@ == v@.take(i as int),
        decreases n - i,
    {
        out.push(v[i]);
        proof {
            assert(v@.take(i + 1) =~= v@.take(i as int).push(v@[i as int]));
        }
        i = i + 1;
    }
    proof {
        assert(v@.take(n as int) =~= v@);
    }
    out
}

/// Which task waits for which.
#[derive(Debug)]
pub struct DependencyMap {
    rows: Vec<(u128, Vec<u128>)>,
}

impl DependencyMap {
    /// Whether the map holds that `a` waits for `b`.
    pub closed spec fn depends(&self, a: u128, b: u128) -> bool {
        exists|i: int|
            0 <= i < self.rows@.len() && (#[trigger] self.rows@[i]).0 == a
                && self.rows@[i].1@.contains(b)
    }

    /// The map holds no pair twice.
    pub closed spec fn wf(&self) -> bool {
        &&& forall|i: int, j: int|
            0 <= i < j < self.rows@.len() ==> (#[trigger] self.rows@[i]).0 != (
            #[trigger] self.rows@[j]).0
        &&& forall|i: int| 0 <= i < self.rows@.len() ==> (#[trigger] self.rows@[i]).1@.no_duplicates()
    }

    /// The tasks that `a` waits for.
    pub open spec fn dependency_set(&self, a: u128) -> Set<u128> {
        Set::new(|b: u128| self.depends(a, b))
    }

    /// The tasks that wait for `b`.
    pub open spec fn dependent_set(&self, b: u128) -> Set<u128> {
        Set::new(|a: u128| self.depends(a, b))
    }

    /// Whether the map holds the pairs of `tasks` that count, and no others.
    pub open spec fn describes(&self, tasks: Tasks) -> bool {
        forall|a: u128, b: u128| #[trigger] self.depends(a, b) <==> depends_on(tasks, a, b)
    }

    /// Dependency symmetry: `b` is among the tasks that `a` waits for if and
    /// only if `a` is among the tasks that wait for `b`.
    pub proof fn lemma_symmetry(&self, a: u128, b: u128)
        ensures
            self.dependency_set(a).contains(b) <==> self.dependent_set(b).contains(a),
    {
    }

    /// A map without pairs.
    pub fn new() -> (r: DependencyMap)
        ensures
            r.wf(),
            forall|a: u128, b: u128| !r.depends(a, b),
    {
        DependencyMap { rows: Vec::new() }
    }

    /// The place of the row of `a`.
    fn row_of(&self, a: u128) -> (r: Option<usize>)
        ensures
            match r {
                Some(i) => i < self.rows@.len() && self.rows@[i as int].0 == a,
                None => forall|i: int| 0 <= i < self.rows@.len() ==> self.rows@[i].0 != a,
            },
    {
        let n = self.rows.len();
        let mut i: usize = 0;
        while i < n
            invariant
                n == self.rows@.len(),
                i <= n,
                forall|j: int| 0 <= j < i ==> self.rows@[j].0 != a,
            decreases n - i,
        {
            if self.rows[i].0 == a {
                return Some(i);
            }
            i = i + 1;
        }
        None
    }

    /// Records that `a` waits for `b`.
    pub fn add_dependency(&mut self, a: u128, b: u128)
        requires
            old(self).wf(),
        ensures
            final(self).wf(),
            forall|x: u128, y: u128|
                #[trigger] final(self).depends(x, y) <==> old(self).depends(x, y) || (x == a && y
                    == b),
    {
        let ghost before = self.rows@;
        match self.row_of(a) {
            Some(i) => {
                if holds(&self.rows[i].1, b) {
                    proof {
                        assert(self.depends(a, b));
                    }
                    return ;
                }
                let mut row: (u128, Vec<u128>) = (a, Vec::new());
                std::mem::swap(&mut self.rows[i], &mut row);
                let mut deps = row.1;
                deps.push(b);
                let mut fresh = (a, deps);
                std::mem::swap(&mut self.rows[i], &mut fresh);
                proof {
                    let after = self.rows@;
                    assert(after.len() == before.len());
                    assert(after[i as int].0 == a);
                    assert(after[i as int].1@ == before[i as int].1@.push(b));
                    assert forall|k: int| 0 <= k < after.len() && k != i implies after[k]
                        == before[k] by {}
                    assert forall|k: int| 0 <= k < after.len() implies (
                    #[trigger] after[k]).1@.no_duplicates() by {
                        if k != i {
                            assert(after[k] == before[k]);
                            assert(before[k].1@.no_duplicates());
                        } else {
                            assert(before[i as int].1@.no_duplicates());
                        }
                    }
                    assert forall|k: int, j: int| 0 <= k < j < after.len() implies (
                    #[trigger] after[k]).0 != (#[trigger] after[j]).0 by {
                        assert(after[k].0 == before[k].0);
                        assert(after[j].0 == before[j].0);
                    }
                    assert forall|x: u128, y: u128| #[trigger]
                        self.depends(x, y) <==> old(self).depends(x, y) || (x == a && y == b) by {
                        if self.depends(x, y) {
                            let k = choose|k: int|
                                0 <= k < after.len() && (#[trigger] after[k]).0 == x
                                    && after[k].1@.contains(y);
                            if k == i {
                                if y != b {
                                    let m = choose|m: int|
                                        0 <= m < after[k].1@.len() && after[k].1@[m] == y;
                                    assert(before[k].1@[m] == y);
                                    assert(before[k].0 == x && before[k].1@.contains(y));
                                }
                            } else {
                                assert(before[k].0 == x && before[k].1@.contains(y));
                            }
                        }
                        if old(self).depends(x, y) {
                            let k = choose|k: int|
                                0 <= k < before.len() && (#[trigger] before[k]).0 == x
                                    && before[k].1@.contains(y);
                            if k == i {
                                let m = choose|m: int|
                                    0 <= m < before[k].1@.len() && before[k].1@[m] == y;
                                assert(after[k].1@[m] == y);
                            }
                            assert(after[k].0 == x && after[k].1@.contains(y));
                        }
                        if x == a && y == b {
                            assert(after[i as int].1@[before[i as int].1@.len() as int] == b);
                            assert(after[i as int].0 == x && after[i as int].1@.contains(y));
                        }
                    }
                }
            },
            None => {
                let mut deps: Vec<u128> = Vec::new();
                deps.push(b);
                self.rows.push((a, deps));
                proof {
                    let after = self.rows@;
                    let last = before.len() as int;
                    assert(after[last].1@ =~= seq![b]);
                    assert forall|k: int| 0 <= k < before.len() implies after[k] == before[k] by {}
                    assert forall|k: int| 0 <= k < after.len() implies (
                    #[trigger] after[k]).1@.no_duplicates() by {
                        if k < last {
                            assert(after[k] == before[k]);
                            assert(before[k].1@.no_duplicates());
                        }
                    }
                    assert forall|k: int, j: int| 0 <= k < j < after.len() implies (
                    #[trigger] after[k]).0 != (#[trigger] after[j]).0 by {
                        assert(after[k] == before[k]);
                        if j < last {
                            assert(after[j] == before[j]);
                        }
                    }
                    assert forall|x: u128, y: u128| #[trigger]
                        self.depends(x, y) <==> old(self).depends(x, y) || (x == a && y == b) by {
                        if self.depends(x, y) {
                            let k = choose|k: int|
                                0 <= k < after.len() && (#[trigger] after[k]).0 == x
                                    && after[k].1@.contains(y);
                            if k < last {
                                assert(before[k].0 == x && before[k].1@.contains(y));
                            }
                        }
                        if old(self).depends(x, y) {
                            let k = choose|k: int|
                                0 <= k < before.len() && (#[trigger] before[k]).0 == x
                                    && before[k].1@.contains(y);
                            assert(after[k].0 == x && after[k].1@.contains(y));
                        }
                        if x == a && y == b {
                            assert(after[last].1@[0] == b);
                            assert(after[last].0 == x && after[last].1@.contains(y));
                        }
                    }
                }
            },
        }
    }

    /// The tasks that `a` waits for.
    pub fn dependencies(&self, a: u128) -> (r: Vec<u128>)
        requires
            self.wf(),
        ensures
            r@.no_duplicates(),
            r@.to_set() == self.dependency_set(a),
    {
        match self.row_of(a) {
            Some(i) => {
                let out = copy_ids(&self.rows[i].1);
                proof {
                    assert forall|b: u128| out@.contains(b) <==> self.depends(a, b) by {
                        if self.depends(a, b) {
                            let k = choose|k: int|
                                0 <= k < self.rows@.len() && (#[trigger] self.rows@[k]).0 == a
                                    && self.rows@[k].1@.contains(b);
                            if k < i {
                                assert(self.rows@[k].0 != self.rows@[i as int].0);
                            } else if k > i {
                                assert(self.rows@[i as int].0 != self.rows@[k].0);
                            }
                        }
                        if out@.contains(b) {
                            assert(self.rows@[i as int].0 == a && self.rows@[i as int].1@.contains(
                                b,
                            ));
                        }
                    }
                    assert(out@.to_set() =~= self.dependency_set(a));
                }
                out
            },
            None => {
                let out: Vec<u128> = Vec::new();
                proof {
                    assert forall|b: u128| !self.depends(a, b) by {
                        if self.depends(a, b) {
                            let k = choose|k: int|
                                0 <= k < self.rows@.len() && (#[trigger] self.rows@[k]).0 == a
                                    && self.rows@[k].1@.contains(b);
                            assert(self.rows@[k].0 != a);
                        }
                    }
                    assert(out@.to_set() =~= self.dependency_set(a));
                }
                out
            },
        }
    }

    /// The tasks that wait for `b`.
    pub fn dependents(&self, b: u128) -> (r: Vec<u128>)
        requires
            self.wf(),
        ensures
            r@.no_duplicates(),
            r@.to_set() == self.dependent_set(b),
    {
        let n = self.rows.len();
        let mut out: Vec<u128> = Vec::new();
        let mut i: usize = 0;
        while i < n
            invariant
                self.wf(),
                n == self.rows@.len(),
                i <= n,
                out@.no_duplicates(),
                forall|a: u128|
                    out@.contains(a) <==> exists|k: int|
                        0 <= k < i && (#[trigger] self.rows@[k]).0 == a
                            && self.rows@[k].1@.contains(b),
            decreases n - i,
        {
            let ghost prev = out@;
            if holds(&self.rows[i].1, b) {
                let a = self.rows[i].0;
                proof {
                    if prev.contains(a) {
                        let k = choose|k: int|
                            0 <= k < i && (#[trigger] self.rows@[k]).0 == a
                                && self.rows@[k].1@.contains(b);
                        assert(self.rows@[k].0 != self.rows@[i as int].0);
                    }
                }
                out.push(a);
                proof {
                    assert forall|x: u128|
                        out@.contains(x) <==> exists|k: int|
                            0 <= k < i + 1 && (#[trigger] self.rows@[k]).0 == x
                                && self.rows@[k].1@.contains(b) by {
                        if out@.contains(x) {
                            let m = choose|m: int| 0 <= m < out@.len() && out@[m] == x;
                            if m < prev.len() {
                                assert(prev[m] == x);
                                assert(prev.contains(x));
                                let k = choose|k: int|
                                    0 <= k < i && (#[trigger] self.rows@[k]).0 == x
                                        && self.rows@[k].1@.contains(b);
                                assert(0 <= k < i + 1 && self.rows@[k].0 == x);
                            } else {
                                assert(self.rows@[i as int].0 == x);
                            }
                        }
                        if exists|k: int|
                            0 <= k < i + 1 && (#[trigger] self.rows@[k]).0 == x
                                && self.rows@[k].1@.contains(b) {
                            let k = choose|k: int|
                                0 <= k < i + 1 && (#[trigger] self.rows@[k]).0 == x
                                    && self.rows@[k].1@.contains(b);
                            if k < i {
                                assert(prev.contains(x));
                                let m = choose|m: int| 0 <= m < prev.len() && prev[m] == x;
                                assert(out@[m] == x);
                            } else {
                                assert(out@[prev.len() as int] == x);
                            }
                        }
                    }
                }
            } else {
                proof {
                    assert forall|x: u128|
                        out@.contains(x) <==> exists|k: int|
                            0 <= k < i + 1 && (#[trigger] self.rows@[k]).0 == x
                                && self.rows@[k].1@.contains(b) by {
                        if out@.contains(x) {
                            let k = choose|k: int|
                                0 <= k < i && (#[trigger] self.rows@[k]).0 == x
                                    && self.rows@[k].1@.contains(b);
                            assert(0 <= k < i + 1 && self.rows@[k].0 == x);
                        }
                    }
                }
            }
            i = i + 1;
        }
        proof {
            assert(out@.to_set() =~= self.dependent_set(b));
        }
        out
    }

    /// Whether `a` waits for some task.
    pub fn has_dependencies(&self, a: u128) -> (r: bool)
        requires
            self.wf(),
        ensures
            r == exists|b: u128| self.depends(a, b),
    {
        let deps = self.dependencies(a);
        proof {
            if deps@.len() > 0 {
                assert(deps@.contains(deps@[0]));
                assert(deps@.to_set().contains(deps@[0]));
                assert(self.depends(a, deps@[0]));
            } else {
                assert forall|b: u128| !self.depends(a, b) by {
                    if self.depends(a, b) {
                        assert(self.dependency_set(a).contains(b));
                        assert(deps@.contains(b));
                    }
                }
            }
        }
        deps.len() > 0
    }

    /// Whether some task waits for `b`.
    pub fn has_dependents(&self, b: u128) -> (r: bool)
        requires
            self.wf(),
        ensures
            r == exists|a: u128| self.depends(a, b),
    {
        let deps = self.dependents(b);
        proof {
            if deps@.len() > 0 {
                assert(deps@.contains(deps@[0]));
                assert(deps@.to_set().contains(deps@[0]));
                assert(self.depends(deps@[0], b));
            } else {
                assert forall|a: u128| !self.depends(a, b) by {
                    if self.depends(a, b) {
                        assert(self.dependent_set(b).contains(a));
                        assert(deps@.contains(a));
                    }
                }
            }
        }
        deps.len() > 0
    }
}

/// Whether `x` is among the first `n` of `order`.
pub open spec fn among(order: Seq<u128>, n: int, x: u128) -> bool {
    exists|k: int| 0 <= k < n && #[trigger] order[k] == x
}

/// Whether one of the first `n` names of `pairs` declares a dependency on
/// `y`.
pub open spec fn key_names(pairs: Seq<Pair>, n: int, y: u128) -> bool {
    exists|j: int| 0 <= j < n && dep_target((#[trigger] pairs[j]).0) == Some(y)
}

/// A number is among the first `n + 1` where it is among the first `n` or
/// is the next.
pub proof fn lemma_among_step(order: Seq<u128>, n: int, x: u128)
    requires
        0 <= n < order.len(),
    ensures
        among(order, n + 1, x) <==> among(order, n, x) || order[n] == x,
{
    if among(order, n + 1, x) {
        let k = choose|k: int| 0 <= k < n + 1 && #[trigger] order[k] == x;
        if k < n {
            assert(among(order, n, x));
        }
    }
    if among(order, n, x) {
        let k = choose|k: int| 0 <= k < n && #[trigger] order[k] == x;
        assert(0 <= k < n + 1 && order[k] == x);
    }
    if order[n] == x {
        assert(0 <= n < n + 1 && order[n] == x);
    }
}

/// A name among the first `n + 1` declares a dependency where one of the
/// first `n` does, or the next.
pub proof fn lemma_key_names_step(pairs: Seq<Pair>, n: int, y: u128)
    requires
        0 <= n < pairs.len(),
    ensures
        key_names(pairs, n + 1, y) <==> key_names(pairs, n, y) || dep_target(pairs[n].0) == Some(
            y,
        ),
{
    if key_names(pairs, n + 1, y) {
        let j = choose|j: int| 0 <= j < n + 1 && dep_target((#[trigger] pairs[j]).0) == Some(y);
        if j < n {
            assert(key_names(pairs, n, y));
        }
    }
    if key_names(pairs, n, y) {
        let j = choose|j: int| 0 <= j < n && dep_target((#[trigger] pairs[j]).0) == Some(y);
        assert(0 <= j < n + 1 && dep_target(pairs[j].0) == Some(y));
    }
    if dep_target(pairs[n].0) == Some(y) {
        assert(0 <= n < n + 1 && dep_target(pairs[n].0) == Some(y));
    }
}

/// The names of all pairs declare the dependencies that the mapping
/// declares.
pub proof fn lemma_key_names_all(pairs: Seq<Pair>, y: u128)
    ensures
        key_names(pairs, pairs.len() as int, y) <==> names_dependency(map_of(pairs), y),
{
    let props = map_of(pairs);
    if key_names(pairs, pairs.len() as int, y) {
        let j = choose|j: int|
            0 <= j < pairs.len() && dep_target((#[trigger] pairs[j]).0) == Some(y);
        assert(has_key(pairs, pairs[j].0));
        assert(props.contains_key(pairs[j].0));
    }
    if names_dependency(props, y) {
        let k = choose|k: Seq<char>| #[trigger] props.contains_key(k) && dep_target(k) == Some(y);
        assert(has_key(pairs, k));
        let j = key_index(pairs, k);
        assert(0 <= j < pairs.len() && dep_target(pairs[j].0) == Some(y));
    }
}

/// Whether the status of a task with these properties is set to `status`.
pub fn has_status(taskmap: &TaskMap, status: &str) -> (r: bool)
    requires
        taskmap.wf(),
    ensures
        r == status_is(taskmap@, status@),
{
    match taskmap.get("status") {
        Some(v) => same_text(v.as_str(), status),
        None => false,
    }
}

/// The task that a property name declares a dependency on.
pub fn dep_of_key(key: &str) -> (r: Option<u128>)
    ensures
        r == dep_target(key@),
{
    proof {
        reveal_strlit("dep_");
    }
    if has_prefix(key, "dep_") {
        let rest = after(key, 4);
        parse_uuid(rest.as_str())
    } else {
        None
    }
}

/// Whether a task of the storage is live and not completed.
fn is_unfinished(storage: &InMemoryStorage, u: u128) -> (r: bool)
    requires
        storage.wf(),
    ensures
        r == unfinished(storage.current().tasks, u),
{
    match storage.task(u) {
        Some(t) => !has_status(t, "deleted") && !has_status(t, "completed"),
        None => false,
    }
}

impl DependencyMap {
    /// The map of the tasks that the storage holds.
    pub fn build(storage: &InMemoryStorage) -> (dm: DependencyMap)
        requires
            storage.wf(),
        ensures
            dm.wf(),
            dm.describes(storage.current().tasks),
    {
        let ghost tasks = storage.current().tasks;
        let ghost order = storage.current().order;
        proof {
            storage.lemma_wf();
        }
        let n = storage.num_tasks();
        let mut dm = DependencyMap::new();
        let mut i: usize = 0;
        while i < n
            invariant
                storage.wf(),
                tasks == storage.current().tasks,
                order == storage.current().order,
                n == order.len(),
                i <= n,
                dm.wf(),
                forall|x: u128, y: u128|
                    #[trigger] dm.depends(x, y) <==> among(order, i as int, x) && depends_on(
                        tasks,
                        x,
                        y,
                    ),
            decreases n - i,
        {
            let a = storage.task_uuid_at(i);
            let t = storage.task_at(i);
            if !has_status(t, "deleted") {
                let m = t.len();
                let mut j: usize = 0;
                while j < m
                    invariant
                        storage.wf(),
                        tasks == storage.current().tasks,
                        order == storage.current().order,
                        n == order.len(),
                        i < n,
                        a == order[i as int],
                        tasks.contains_key(a),
                        t@ == tasks[a],
                        live(tasks, a),
                        m == t.pairs().len(),
                        j <= m,
                        dm.wf(),
                        forall|x: u128, y: u128|
                            #[trigger] dm.depends(x, y) <==> (among(order, i as int, x)
                                && depends_on(tasks, x, y)) || (x == a && y != a && unfinished(
                                tasks,
                                y,
                            ) && key_names(t.pairs(), j as int, y)),
                    decreases m - j,
                {
                    let ghost before = dm;
                    let found = dep_of_key(t.key_at(j).as_str());
                    let mut added = false;
                    match found {
                        Some(b) => {
                            if b != a && is_unfinished(storage, b) {
                                dm.add_dependency(a, b);
                                added = true;
                            }
                        },
                        None => {},
                    }
                    proof {
                        assert forall|x: u128, y: u128|
                            #[trigger] dm.depends(x, y) <==> (among(order, i as int, x)
                                && depends_on(tasks, x, y)) || (x == a && y != a && unfinished(
                                tasks,
                                y,
                            ) && key_names(t.pairs(), j + 1, y)) by {
                            lemma_key_names_step(t.pairs(), j as int, y);
                            if added {
                                assert(dm.depends(x, y) <==> before.depends(x, y) || (x == a && y
                                    == found.unwrap()));
                            } else {
                                assert(dm.depends(x, y) == before.depends(x, y));
                            }
                        }
                    }
                    j = j + 1;
                }
                proof {
                    assert forall|x: u128, y: u128|
                        #[trigger] dm.depends(x, y) <==> among(order, i + 1, x) && depends_on(
                            tasks,
                            x,
                            y,
                        ) by {
                        lemma_among_step(order, i as int, x);
                        lemma_key_names_all(t.pairs(), y);
                    }
                }
            } else {
                proof {
                    assert forall|x: u128, y: u128|
                        #[trigger] dm.depends(x, y) <==> among(order, i + 1, x) && depends_on(
                            tasks,
                            x,
                            y,
                        ) by {
                        lemma_among_step(order, i as int, x);
                    }
                }
            }
            i = i + 1;
        }
        proof {
            assert forall|x: u128, y: u128| #[trigger] dm.depends(x, y) <==> depends_on(
                tasks,
                x,
                y,
            ) by {
                if depends_on(tasks, x, y) {
                    assert(order.contains(x));
                    let k = choose|k: int| 0 <= k < order.len() && order[k] == x;
                    assert(among(order, n as int, x));
                }
            }
        }
        dm
    }
}

impl Clone for DependencyMap {
    fn clone(&self) -> (r: DependencyMap)
        ensures
            r.wf() == self.wf(),
            forall|a: u128, b: u128| #[trigger] r.depends(a, b) == self.depends(a, b),
    {
        let n = self.rows.len();
        let mut rows: Vec<(u128, Vec<u128>)> = Vec::new();
        let mut i: usize = 0;
        while i < n
            invariant
                n == self.rows@.len(),
                i <= n,
                rows@.len() == i,
                forall|j: int|
                    0 <= j < i ==> (#[trigger] rows@[j]).0 == self.rows@[j].0 && rows@[j].1@
                        == self.rows@[j].1@,
            decreases n - i,
        {
            rows.push((self.rows[i].0, copy_ids(&self.rows[i].1)));
            i = i + 1;
        }
        let r = DependencyMap { rows };
        proof {
            assert forall|a: u128, b: u128| #[trigger] r.depends(a, b) == self.depends(a, b) by {
                if r.depends(a, b) {
                    let k = choose|k: int|
                        0 <= k < r.rows@.len() && (#[trigger] r.rows@[k]).0 == a
                            && r.rows@[k].1@.contains(b);
                    assert(self.rows@[k].0 == a && self.rows@[k].1@.contains(b));
                }
                if self.depends(a, b) {
                    let k = choose|k: int|
                        0 <= k < self.rows@.len() && (#[trigger] self.rows@[k]).0 == a
                            && self.rows@[k].1@.contains(b);
                    assert(r.rows@[k].0 == a && r.rows@[k].1@.contains(b));
                }
            }
            if self.wf() {
                assert forall|i: int, j: int| 0 <= i < j < r.rows@.len() implies (
                #[trigger] r.rows@[i]).0 != (#[trigger] r.rows@[j]).0 by {
                    assert(self.rows@[i].0 != self.rows@[j].0);
                }
                assert forall|i: int| 0 <= i < r.rows@.len() implies (
                #[trigger] r.rows@[i]).1@.no_duplicates() by {
                    assert(self.rows@[i].1@.no_duplicates());
                }
            }
            if r.wf() {
                assert forall|i: int, j: int| 0 <= i < j < self.rows@.len() implies (
                #[trigger] self.rows@[i]).0 != (#[trigger] self.rows@[j]).0 by {
                    assert(r.rows@[i].0 != r.rows@[j].0);
                }
                assert forall|i: int| 0 <= i < self.rows@.len() implies (
                #[trigger] self.rows@[i]).1@.no_duplicates() by {
                    assert(r.rows@[i].1@.no_duplicates());
                }
            }
        }
        r
    }
}

} // verus!
