//! Operations: the changes that the log records, and what each does to the
//! set of tasks.

use crate::clock::{parse_rfc3339, rfc3339_time, Timestamp};
use crate::errors::Error;
use crate::ident::{parse_uuid, uuid_of_text};
use crate::taskmap::{Props, TaskMap};
use crate::text::same_text;
use vstd::prelude::*;

verus! {

/// The spec-level form of the set of tasks: identifier to property bag.
pub type Tasks = Map<u128, Props>;

/// The spec-level form of an operation.
pub ghost enum Op {
    Create { uuid: u128 },
    Delete { uuid: u128, old_task: Props },
    Update {
        uuid: u128,
        property: Seq<char>,
        old_value: Option<Seq<char>>,
        value: Option<Seq<char>>,
        timestamp: Timestamp,
    },
    UndoPoint,
}

/// The task that an operation is about, where it is about one.
pub open spec fn uuid_of(op: Op) -> Option<u128> {
    match op {
        Op::Create { uuid } => Some(uuid),
        Op::Delete { uuid, .. } => Some(uuid),
        Op::Update { uuid, .. } => Some(uuid),
        Op::UndoPoint => None,
    }
}

/// A bag with the property set to the value, or cleared where there is none.
pub open spec fn with_property(props: Props, property: Seq<char>, value: Option<Seq<char>>) -> Props {
    match value {
        Some(v) => props.insert(property, v),
        None => props.remove(property),
    }
}

/// The value of a property in a bag, where it is set.
pub open spec fn property_of(props: Props, property: Seq<char>) -> Option<Seq<char>> {
    if props.contains_key(property) {
        Some(props[property])
    } else {
        None
    }
}

/// The tasks after one operation, or nothing where the operation breaks the
/// order of the log: a creation of a task that is there, or a change to or a
/// deletion of one that is not.
pub open spec fn apply(tasks: Tasks, op: Op) -> Option<Tasks> {
    match op {
        Op::Create { uuid } => if tasks.contains_key(uuid) {
            None
        } else {
            Some(tasks.insert(uuid, Props::empty()))
        },
        Op::Delete { uuid, old_task } => if tasks.contains_key(uuid) {
            Some(tasks.remove(uuid))
        } else {
            None
        },
        Op::Update { uuid, property, old_value, value, timestamp } => if tasks.contains_key(uuid) {
            Some(tasks.insert(uuid, with_property(tasks[uuid], property, value)))
        } else {
            None
        },
        Op::UndoPoint => Some(tasks),
    }
}

/// The tasks after the operations of a log, one after the other, or nothing
/// where one of them breaks the order of the log.
pub open spec fn apply_all(tasks: Tasks, ops: Seq<Op>) -> Option<Tasks>
    decreases ops.len(),
{
    if ops.len() == 0 {
        Some(tasks)
    } else {
        match apply_all(tasks, ops.drop_last()) {
            Some(before) => apply(before, ops.last()),
            None => None,
        }
    }
}

/// Whether the operation records what it replaced in `tasks`: the value that
/// the property had, or the whole task that it deletes.
pub open spec fn records(tasks: Tasks, op: Op) -> bool {
    match op {
        Op::Create { uuid } => true,
        Op::Delete { uuid, old_task } => tasks.contains_key(uuid) && tasks[uuid] == old_task,
        Op::Update { uuid, property, old_value, value, timestamp } => tasks.contains_key(uuid)
            && property_of(tasks[uuid], property) == old_value,
        Op::UndoPoint => true,
    }
}

/// The tasks after an operation is taken back, or nothing where the tasks are
/// not as the operation left them: a created task must be there and empty, a
/// deleted one must be gone, a changed property must hold the value that the
/// operation gave it.
pub open spec fn revert(tasks: Tasks, op: Op) -> Option<Tasks> {
    match op {
        Op::Create { uuid } => if tasks.contains_key(uuid) && tasks[uuid] == Props::empty() {
            Some(tasks.remove(uuid))
        } else {
            None
        },
        Op::Delete { uuid, old_task } => if tasks.contains_key(uuid) {
            None
        } else {
            Some(tasks.insert(uuid, old_task))
        },
        Op::Update { uuid, property, old_value, value, timestamp } => if tasks.contains_key(uuid)
            && property_of(tasks[uuid], property) == value {
            Some(tasks.insert(uuid, with_property(tasks[uuid], property, old_value)))
        } else {
            None
        },
        Op::UndoPoint => Some(tasks),
    }
}

/// The tasks after the operations of a log are taken back, the last one
/// first, or nothing where one of them cannot be.
pub open spec fn revert_all(tasks: Tasks, ops: Seq<Op>) -> Option<Tasks>
    decreases ops.len(),
{
    if ops.len() == 0 {
        Some(tasks)
    } else {
        match revert(tasks, ops.last()) {
            Some(before) => revert_all(before, ops.drop_last()),
            None => None,
        }
    }
}

/// The spec-level form of an optional string.
pub open spec fn text_view(s: Option<String>) -> Option<Seq<char>> {
    match s {
        Some(t) => Some(t@),
        None => None,
    }
}

/// One change to the set of tasks.
#[derive(Debug)]
pub enum Operation {
    /// A task comes into being, without properties.
    Create { uuid: u128 },
    /// A task goes; `old_task` holds the properties it had.
    Delete { uuid: u128, old_task: TaskMap },
    /// One property of a task is set to `value`, or cleared where that is
    /// `None`; `old_value` holds what it was set to.
    Update {
        uuid: u128,
        property: String,
        old_value: Option<String>,
        value: Option<String>,
        timestamp: Timestamp,
    },
    /// A mark in the log: what stands behind it is taken back together.
    UndoPoint,
}

impl View for Operation {
    type V = Op;

    open spec fn view(&self) -> Op {
        match *self {
            Operation::Create { uuid } => Op::Create { uuid },
            Operation::Delete { uuid, old_task } => Op::Delete { uuid, old_task: old_task@ },
            Operation::Update { uuid, property, old_value, value, timestamp } => Op::Update {
                uuid,
                property: property@,
                old_value: text_view(old_value),
                value: text_view(value),
                timestamp,
            },
            Operation::UndoPoint => Op::UndoPoint,
        }
    }
}

/// The spec-level form of a log.
pub open spec fn log_view(ops: Seq<Operation>) -> Seq<Op> {
    ops.map_values(|op: Operation| op@)
}

/// Every operation of the log is well formed.
pub open spec fn log_wf(ops: Seq<Operation>) -> bool {
    forall|i: int| 0 <= i < ops.len() ==> (#[trigger] ops[i]).wf()
}

/// Whether two optional strings hold the same.
pub fn same_option(a: &Option<String>, b: &Option<String>) -> (r: bool)
    ensures
        r == (text_view(*a) == text_view(*b)),
{
    match (a, b) {
        (Some(x), Some(y)) => same_text(x.as_str(), y.as_str()),
        (None, None) => true,
        _ => false,
    }
}

/// A copy of an optional string.
pub fn copy_option(a: &Option<String>) -> (r: Option<String>)
    ensures
        text_view(r) == text_view(*a),
{
    match a {
        Some(x) => Some(x.clone()),
        None => None,
    }
}

impl Operation {
    /// The property bag that a deletion carries has no name twice.
    pub open spec fn wf(&self) -> bool {
        match *self {
            Operation::Delete { uuid, old_task } => old_task.wf(),
            _ => true,
        }
    }

    /// The creation of the task that `uuid` names.
    pub fn create(uuid: String) -> (r: Result<Operation, Error>)
        ensures
            match r {
                Ok(op) => uuid_of_text(uuid@) is Some && op@ == (Op::Create {
                    uuid: uuid_of_text(uuid@).unwrap(),
                }),
                Err(e) => uuid_of_text(uuid@) is None && e == Error::MalformedValue,
            },
    {
        match parse_uuid(uuid.as_str()) {
            Some(u) => Ok(Operation::Create { uuid: u }),
            None => Err(Error::MalformedValue),
        }
    }

    /// The deletion of the task that `uuid` names, which had the properties
    /// `old_task`.
    pub fn delete(uuid: String, old_task: TaskMap) -> (r: Result<Operation, Error>)
        requires
            old_task.wf(),
        ensures
            match r {
                Ok(op) => uuid_of_text(uuid@) is Some && op.wf() && op@ == (Op::Delete {
                    uuid: uuid_of_text(uuid@).unwrap(),
                    old_task: old_task@,
                }),
                Err(e) => uuid_of_text(uuid@) is None && e == Error::MalformedValue,
            },
    {
        match parse_uuid(uuid.as_str()) {
            Some(u) => Ok(Operation::Delete { uuid: u, old_task }),
            None => Err(Error::MalformedValue),
        }
    }

    /// The change of one property of the task that `uuid` names, made at the
    /// time that `timestamp` gives in the form of RFC 3339.
    pub fn update(
        uuid: String,
        property: String,
        timestamp: String,
        old_value: Option<String>,
        value: Option<String>,
    ) -> (r: Result<Operation, Error>)
        ensures
            match r {
                Ok(op) => uuid_of_text(uuid@) is Some && rfc3339_time(timestamp@) is Some && op@
                    == (Op::Update {
                    uuid: uuid_of_text(uuid@).unwrap(),
                    property: property@,
                    old_value: text_view(old_value),
                    value: text_view(value),
                    timestamp: Timestamp {
                        secs: rfc3339_time(timestamp@).unwrap().0,
                        nanos: rfc3339_time(timestamp@).unwrap().1,
                    },
                }),
                Err(e) => (uuid_of_text(uuid@) is None || rfc3339_time(timestamp@) is None) && e
                    == Error::MalformedValue,
            },
    {
        let u = match parse_uuid(uuid.as_str()) {
            Some(u) => u,
            None => {
                return Err(Error::MalformedValue);
            },
        };
        let t = match parse_rfc3339(timestamp.as_str()) {
            Some(t) => t,
            None => {
                return Err(Error::MalformedValue);
            },
        };
        Ok(Operation::Update { uuid: u, property, old_value, value, timestamp: t })
    }

    /// The mark behind which operations are taken back together.
    pub fn undo_point() -> (r: Operation)
        ensures
            r@ == Op::UndoPoint,
            r.wf(),
    {
        Operation::UndoPoint
    }

    /// Whether this is the mark and no change.
    pub fn is_undo_point(&self) -> (r: bool)
        ensures
            r == (self@ is UndoPoint),
    {
        match self {
            Operation::UndoPoint => true,
            _ => false,
        }
    }

    /// The task that the operation is about, where it is about one.
    pub fn get_uuid(&self) -> (r: Option<u128>)
        ensures
            r == uuid_of(self@),
    {
        match self {
            Operation::Create { uuid } => Some(*uuid),
            Operation::Delete { uuid, .. } => Some(*uuid),
            Operation::Update { uuid, .. } => Some(*uuid),
            Operation::UndoPoint => None,
        }
    }

    /// Whether two operations are the same change.
    pub fn same_as(&self, other: &Operation) -> (r: bool)
        requires
            self.wf(),
            other.wf(),
        ensures
            r == (self@ == other@),
    {
        match (self, other) {
            (Operation::Create { uuid: a }, Operation::Create { uuid: b }) => *a == *b,
            (
                Operation::Delete { uuid: a, old_task: s },
                Operation::Delete { uuid: b, old_task: t },
            ) => *a == *b && s.same_as(t),
            (
                Operation::Update { uuid: a, property: p, old_value: o, value: v, timestamp: s },
                Operation::Update { uuid: b, property: q, old_value: n, value: w, timestamp: t },
            ) => *a == *b && same_text(p.as_str(), q.as_str()) && same_option(o, n) && same_option(
                v,
                w,
            ) && *s == *t,
            (Operation::UndoPoint, Operation::UndoPoint) => true,
            _ => false,
        }
    }
}

impl Clone for Operation {
    fn clone(&self) -> (r: Operation)
        ensures
            r@ == self@,
            r.wf() == self.wf(),
    {
        match self {
            Operation::Create { uuid } => Operation::Create { uuid: *uuid },
            Operation::Delete { uuid, old_task } => Operation::Delete {
                uuid: *uuid,
                old_task: old_task.clone(),
            },
            Operation::Update { uuid, property, old_value, value, timestamp } => Operation::Update {
                uuid: *uuid,
                property: property.clone(),
                old_value: copy_option(old_value),
                value: copy_option(value),
                timestamp: *timestamp,
            },
            Operation::UndoPoint => Operation::UndoPoint,
        }
    }
}

} // verus!
