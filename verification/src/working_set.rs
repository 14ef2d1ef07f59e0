//! The working set: small indices, from 1 on, for the tasks that are
//! pending. An index keeps its task for as long as the task is pending; an
//! index whose task has gone is a hole.

use crate::operation::Tasks;
use crate::taskmap::{Props, TaskMap};
use crate::text::same_text;
use vstd::prelude::*;

verus! {

/// Whether a task with these properties belongs in the working set: its
/// status is set, to `pending` or to `recurring`.
pub open spec fn in_working_set(props: Props) -> bool {
    props.contains_key("status"@) && (props["status"@] == "pending"@ || props["status"@]
        == "recurring"@)
}

/// Whether the task `u` is there and belongs in the working set.
pub open spec fn eligible(tasks: Tasks, u: u128) -> bool {
    tasks.contains_key(u) && in_working_set(tasks[u])
}

/// Whether a task with these properties belongs in the working set.
pub fn belongs(taskmap: &TaskMap) -> (r: bool)
    requires
        taskmap.wf(),
    ensures
        r == in_working_set(taskmap@),
{
    match taskmap.get("status") {
        Some(v) => same_text(v.as_str(), "pending") || same_text(v.as_str(), "recurring"),
        None => false,
    }
}

/// What stays of a working set: a task that is still eligible keeps its
/// place; another entry becomes a hole, or is dropped where the set is
/// renumbered. Index 0 stays a hole.
pub open spec fn kept(tasks: Tasks, ws: Seq<Option<u128>>, renumber: bool) -> Seq<Option<u128>>
    decreases ws.len(),
{
    if ws.len() == 0 {
        Seq::empty()
    } else {
        let before = kept(tasks, ws.drop_last(), renumber);
        if ws.last() is Some && eligible(tasks, ws.last().unwrap()) {
            before.push(ws.last())
        } else if renumber && ws.len() > 1 {
            before
        } else {
            before.push(None)
        }
    }
}

/// The tasks that come into a working set: those of `order` that are
/// eligible and have no index in `ws` yet, in that order.
pub open spec fn arrivals(tasks: Tasks, order: Seq<u128>, ws: Seq<Option<u128>>) -> Seq<
    Option<u128>,
>
    decreases order.len(),
{
    if order.len() == 0 {
        Seq::empty()
    } else {
        let before = arrivals(tasks, order.drop_last(), ws);
        if eligible(tasks, order.last()) && !ws.contains(Some(order.last())) {
            before.push(Some(order.last()))
        } else {
            before
        }
    }
}

/// The working set after it is rebuilt: what stays of it, then the tasks
/// that come in.
pub open spec fn rebuilt(
    tasks: Tasks,
    order: Seq<u128>,
    ws: Seq<Option<u128>>,
    renumber: bool,
) -> Seq<Option<u128>> {
    kept(tasks, ws, renumber) + arrivals(tasks, order, ws)
}

/// No task stands at two indices of the working set.
pub open spec fn distinct_tasks(ws: Seq<Option<u128>>) -> bool {
    forall|i: int, j: int|
        0 <= i < j < ws.len() && (#[trigger] ws[i]) is Some ==> ws[i] != #[trigger] ws[j]
}

/// The number of tasks in a working set.
pub open spec fn count_tasks(ws: Seq<Option<u128>>) -> nat
    decreases ws.len(),
{
    if ws.len() == 0 {
        0
    } else if ws.last() is Some {
        count_tasks(ws.drop_last()) + 1
    } else {
        count_tasks(ws.drop_last())
    }
}

/// The indices of a working set that hold a task, each with its task, in
/// rising order.
pub open spec fn index_pairs(ws: Seq<Option<u128>>) -> Seq<(usize, u128)>
    decreases ws.len(),
{
    if ws.len() == 0 {
        Seq::empty()
    } else {
        let before = index_pairs(ws.drop_last());
        match ws.last() {
            Some(u) => before.push(((ws.len() - 1) as usize, u)),
            None => before,
        }
    }
}

/// What stays of a working set that is not renumbered has its length, and
/// at each index the task that stood there, if that is still eligible, or a
/// hole.
pub proof fn lemma_kept_in_place(tasks: Tasks, ws: Seq<Option<u128>>)
    ensures
        kept(tasks, ws, false).len() == ws.len(),
        forall|i: int|
            0 <= i < ws.len() ==> #[trigger] kept(tasks, ws, false)[i] == (if ws[i] is Some
                && eligible(tasks, ws[i].unwrap()) {
                ws[i]
            } else {
                None
            }),
    decreases ws.len(),
{
    if ws.len() > 0 {
        lemma_kept_in_place(tasks, ws.drop_last());
        let before = kept(tasks, ws.drop_last(), false);
        assert forall|i: int| 0 <= i < ws.len() implies #[trigger] kept(tasks, ws, false)[i] == (
        if ws[i] is Some && eligible(tasks, ws[i].unwrap()) {
            ws[i]
        } else {
            None
        }) by {
            if i < ws.len() - 1 {
                assert(kept(tasks, ws, false)[i] == before[i]);
                assert(ws.drop_last()[i] == ws[i]);
            }
        }
    }
}

/// What stays of a working set holds only tasks that stood in it and are
/// eligible, none of them twice, and begins with a hole where the set did.
pub proof fn lemma_kept(tasks: Tasks, ws: Seq<Option<u128>>, renumber: bool)
    requires
        distinct_tasks(ws),
    ensures
        distinct_tasks(kept(tasks, ws, renumber)),
        forall|i: int|
            0 <= i < kept(tasks, ws, renumber).len() && (#[trigger] kept(
                tasks,
                ws,
                renumber,
            )[i]) is Some ==> ws.contains(kept(tasks, ws, renumber)[i]) && eligible(
                tasks,
                kept(tasks, ws, renumber)[i].unwrap(),
            ),
        forall|i: int|
            0 <= i < ws.len() && (#[trigger] ws[i]) is Some && eligible(tasks, ws[i].unwrap())
                ==> kept(tasks, ws, renumber).contains(ws[i]),
        ws.len() >= 1 ==> kept(tasks, ws, renumber).len() >= 1,
        ws.len() >= 1 && ws[0] is None ==> kept(tasks, ws, renumber)[0] is None,
    decreases ws.len(),
{
    let out = kept(tasks, ws, renumber);
    if ws.len() > 0 {
        let front = ws.drop_last();
        let before = kept(tasks, front, renumber);
        assert(distinct_tasks(front)) by {
            assert forall|i: int, j: int| 0 <= i < j < front.len() && (#[trigger] front[i])
                is Some implies front[i] != #[trigger] front[j] by {
                assert(ws[i] == front[i]);
                assert(ws[j] == front[j]);
            }
        }
        lemma_kept(tasks, front, renumber);
        assert forall|i: int| 0 <= i < out.len() && (#[trigger] out[i]) is Some implies ws.contains(
            out[i],
        ) && eligible(tasks, out[i].unwrap()) by {
            if i < before.len() {
                assert(out[i] == before[i]);
                assert(front.contains(before[i]));
                let k = choose|k: int| 0 <= k < front.len() && front[k] == before[i];
                assert(ws[k] == before[i]);
            } else {
                assert(out[i] == ws.last());
                assert(ws[ws.len() - 1] == ws.last());
            }
        }
        assert forall|i: int, j: int| 0 <= i < j < out.len() && (#[trigger] out[i])
            is Some implies out[i] != #[trigger] out[j] by {
            if j < before.len() {
                assert(out[i] == before[i]);
                assert(out[j] == before[j]);
            } else {
                assert(out[i] == before[i]);
                if out[j] is Some {
                    assert(out[j] == ws.last());
                    assert(front.contains(before[i]));
                    let k = choose|k: int| 0 <= k < front.len() && front[k] == before[i];
                    assert(ws[k] == front[k]);
                    assert(ws[k] != ws[ws.len() - 1]);
                }
            }
        }
        assert forall|i: int| 0 <= i < ws.len() && (#[trigger] ws[i]) is Some && eligible(
            tasks,
            ws[i].unwrap(),
        ) implies out.contains(ws[i]) by {
            if i < front.len() {
                assert(front[i] == ws[i]);
                assert(before.contains(front[i]));
                let k = choose|k: int| 0 <= k < before.len() && before[k] == front[i];
                assert(out[k] == before[k]);
            } else {
                assert(out[out.len() - 1] == ws[i]);
            }
        }
        if ws.len() >= 1 && ws[0] is None {
            if ws.len() > 1 {
                assert(front[0] == ws[0]);
                assert(out[0] == before[0]);
            }
        }
    }
}

/// The tasks that come into a working set are eligible, stand in `order`,
/// had no index yet, and none comes twice; every such task comes.
pub proof fn lemma_arrivals(tasks: Tasks, order: Seq<u128>, ws: Seq<Option<u128>>)
    requires
        order.no_duplicates(),
    ensures
        distinct_tasks(arrivals(tasks, order, ws)),
        forall|i: int|
            0 <= i < arrivals(tasks, order, ws).len() ==> (#[trigger] arrivals(
                tasks,
                order,
                ws,
            )[i]) is Some && order.contains(arrivals(tasks, order, ws)[i].unwrap()) && eligible(
                tasks,
                arrivals(tasks, order, ws)[i].unwrap(),
            ) && !ws.contains(arrivals(tasks, order, ws)[i]),
        forall|i: int|
            0 <= i < order.len() && eligible(tasks, #[trigger] order[i]) && !ws.contains(
                Some(order[i]),
            ) ==> arrivals(tasks, order, ws).contains(Some(order[i])),
    decreases order.len(),
{
    let out = arrivals(tasks, order, ws);
    if order.len() > 0 {
        let front = order.drop_last();
        let before = arrivals(tasks, front, ws);
        assert(front.no_duplicates()) by {
            assert forall|i: int, j: int|
                0 <= i < front.len() && 0 <= j < front.len() && i != j implies front[i]
                != front[j] by {
                assert(order[i] == front[i]);
                assert(order[j] == front[j]);
            }
        }
        lemma_arrivals(tasks, front, ws);
        assert forall|i: int| 0 <= i < out.len() implies (#[trigger] out[i]) is Some
            && order.contains(out[i].unwrap()) && eligible(tasks, out[i].unwrap())
            && !ws.contains(out[i]) by {
            if i < before.len() {
                assert(out[i] == before[i]);
                let k = choose|k: int| 0 <= k < front.len() && front[k] == before[i].unwrap();
                assert(order[k] == front[k]);
            } else {
                assert(out[i] == Some(order.last()));
                assert(order[order.len() - 1] == order.last());
            }
        }
        assert forall|i: int, j: int| 0 <= i < j < out.len() && (#[trigger] out[i])
            is Some implies out[i] != #[trigger] out[j] by {
            assert(out[i] == before[i]);
            if j < before.len() {
                assert(out[j] == before[j]);
            } else {
                assert(out[j] == Some(order.last()));
                let k = choose|k: int| 0 <= k < front.len() && front[k] == before[i].unwrap();
                assert(order[k] == front[k]);
                assert(order[k] != order[order.len() - 1]);
            }
        }
        assert forall|i: int|
            0 <= i < order.len() && eligible(tasks, #[trigger] order[i]) && !ws.contains(
                Some(order[i]),
            ) implies out.contains(Some(order[i])) by {
            if i < front.len() {
                assert(front[i] == order[i]);
                assert(before.contains(Some(front[i])));
                let k = choose|k: int| 0 <= k < before.len() && before[k] == Some(front[i]);
                assert(out[k] == before[k]);
            } else {
                assert(out[out.len() - 1] == Some(order[i]));
            }
        }
    }
}

/// A rebuilt working set begins with a hole, holds no task twice, holds only
/// eligible tasks, and holds every eligible task of `order`.
pub proof fn lemma_rebuilt(tasks: Tasks, order: Seq<u128>, ws: Seq<Option<u128>>, renumber: bool)
    requires
        order.no_duplicates(),
        distinct_tasks(ws),
        ws.len() >= 1,
        ws[0] is None,
    ensures
        rebuilt(tasks, order, ws, renumber).len() >= 1,
        rebuilt(tasks, order, ws, renumber)[0] is None,
        distinct_tasks(rebuilt(tasks, order, ws, renumber)),
        forall|i: int|
            0 <= i < rebuilt(tasks, order, ws, renumber).len() && (#[trigger] rebuilt(
                tasks,
                order,
                ws,
                renumber,
            )[i]) is Some ==> eligible(tasks, rebuilt(tasks, order, ws, renumber)[i].unwrap()),
        forall|i: int|
            0 <= i < order.len() && eligible(tasks, #[trigger] order[i]) ==> rebuilt(
                tasks,
                order,
                ws,
                renumber,
            ).contains(Some(order[i])),
{
    let a = kept(tasks, ws, renumber);
    let b = arrivals(tasks, order, ws);
    let out = rebuilt(tasks, order, ws, renumber);
    lemma_kept(tasks, ws, renumber);
    lemma_arrivals(tasks, order, ws);
    assert(out[0] == a[0]);
    assert forall|i: int, j: int| 0 <= i < j < out.len() && (#[trigger] out[i])
        is Some implies out[i] != #[trigger] out[j] by {
        if j < a.len() {
            assert(out[i] == a[i]);
            assert(out[j] == a[j]);
        } else if i < a.len() {
            assert(out[i] == a[i]);
            assert(out[j] == b[j - a.len()]);
            assert(ws.contains(a[i]));
        } else {
            assert(out[i] == b[i - a.len()]);
            assert(out[j] == b[j - a.len()]);
        }
    }
    assert forall|i: int| 0 <= i < out.len() && (#[trigger] out[i]) is Some implies eligible(
        tasks,
        out[i].unwrap(),
    ) by {
        if i < a.len() {
            assert(out[i] == a[i]);
        } else {
            assert(out[i] == b[i - a.len()]);
        }
    }
    assert forall|i: int| 0 <= i < order.len() && eligible(tasks, #[trigger] order[i]) implies out.contains(
        Some(order[i]),
    ) by {
        if ws.contains(Some(order[i])) {
            let k = choose|k: int| 0 <= k < ws.len() && ws[k] == Some(order[i]);
            assert(a.contains(ws[k]));
            let m = choose|m: int| 0 <= m < a.len() && a[m] == ws[k];
            assert(out[m] == a[m]);
        } else {
            assert(b.contains(Some(order[i])));
            let m = choose|m: int| 0 <= m < b.len() && b[m] == Some(order[i]);
            assert(out[a.len() + m] == b[m]);
        }
    }
}

/// Where the working set is rebuilt without renumbering, an index whose
/// task is still eligible keeps that task.
pub proof fn lemma_rebuild_keeps_indices(
    tasks: Tasks,
    order: Seq<u128>,
    ws: Seq<Option<u128>>,
    i: int,
)
    requires
        0 <= i < ws.len(),
        ws[i] is Some,
        eligible(tasks, ws[i].unwrap()),
    ensures
        i < rebuilt(tasks, order, ws, false).len(),
        rebuilt(tasks, order, ws, false)[i] == ws[i],
{
    lemma_kept_in_place(tasks, ws);
    assert(rebuilt(tasks, order, ws, false)[i] == kept(tasks, ws, false)[i]);
}

/// A working set as the replica hands it out.
#[derive(Debug)]
pub struct WorkingSet {
    by_index: Vec<Option<u128>>,
}

impl View for WorkingSet {
    type V = Seq<Option<u128>>;

    closed spec fn view(&self) -> Seq<Option<u128>> {
        self.by_index@
    }
}

impl WorkingSet {
    /// The working set with the given entries; index 0 is a hole.
    pub fn new(by_index: Vec<Option<u128>>) -> (r: WorkingSet)
        ensures
            r@ == by_index@,
    {
        WorkingSet { by_index }
    }

    /// The number of tasks in the working set.
    pub fn len(&self) -> (n: usize)
        ensures
            n == count_tasks(self@),
    {
        let m = self.by_index.len();
        let mut n: usize = 0;
        let mut i: usize = 0;
        while i < m
            invariant
                m == self.by_index@.len(),
                i <= m,
                n <= i,
                n == count_tasks(self.by_index@.take(i as int)),
            decreases m - i,
        {
            proof {
                assert(self.by_index@.take(i + 1).drop_last() =~= self.by_index@.take(i as int));
            }
            if self.by_index[i].is_some() {
                n = n + 1;
            }
            i = i + 1;
        }
        proof {
            assert(self.by_index@.take(m as int) =~= self.by_index@);
        }
        n
    }

    /// The largest index of the working set, 0 where it has none.
    pub fn largest_index(&self) -> (n: usize)
        ensures
            n == if self@.len() == 0 {
                0
            } else {
                self@.len() - 1
            },
    {
        let m = self.by_index.len();
        if m == 0 {
            0
        } else {
            m - 1
        }
    }

    /// Whether the working set holds no task.
    pub fn is_empty(&self) -> (r: bool)
        ensures
            r == (count_tasks(self@) == 0),
    {
        self.len() == 0
    }

    /// The task at an index, or nothing where the index is a hole or beyond
    /// the working set.
    pub fn by_index(&self, index: usize) -> (r: Option<u128>)
        ensures
            r == if index < self@.len() {
                self@[index as int]
            } else {
                None
            },
    {
        if index < self.by_index.len() {
            self.by_index[index]
        } else {
            None
        }
    }

    /// The first index at which a task stands, or nothing where it has none.
    pub fn by_uuid(&self, uuid: u128) -> (r: Option<usize>)
        ensures
            match r {
                Some(i) => i < self@.len() && self@[i as int] == Some(uuid) && forall|j: int|
                    0 <= j < i ==> self@[j] != Some(uuid),
                None => !self@.contains(Some(uuid)),
            },
    {
        let m = self.by_index.len();
        let mut i: usize = 0;
        while i < m
            invariant
                m == self.by_index@.len(),
                i <= m,
                forall|j: int| 0 <= j < i ==> self.by_index@[j] != Some(uuid),
            decreases m - i,
        {
            match self.by_index[i] {
                Some(u) => {
                    if u == uuid {
                        return Some(i);
                    }
                },
                None => {},
            }
            i = i + 1;
        }
        None
    }

    /// The indices that hold a task, each with its task, in rising order.
    pub fn iter(&self) -> (r: Vec<(usize, u128)>)
        ensures
            r@ == index_pairs(self@),
    {
        let m = self.by_index.len();
        let mut out: Vec<(usize, u128)> = Vec::new();
        let mut i: usize = 0;
        while i < m
            invariant
                m == self.by_index@.len(),
                i <= m,
                out@ == index_pairs(self.by_index@.take(i as int)),
            decreases m - i,
        {
            proof {
                assert(self.by_index@.take(i + 1).drop_last() =~= self.by_index@.take(i as int));
            }
            match self.by_index[i] {
                Some(u) => {
                    out.push((i, u));
                },
                None => {},
            }
            i = i + 1;
        }
        proof {
            assert(self.by_index@.take(m as int) =~= self.by_index@);
        }
        out
    }
}

} // verus!
