//! The raw form of one task: its identifier and its property bag, changed
//! one recorded operation at a time.

use crate::clock::{now, Timestamp};
use crate::errors::Error;
use crate::ident::{format_uuid, parse_uuid, text_of_uuid, uuid_of_text};
use crate::operation::{copy_option, property_of, text_view, with_property, Op, Operation};
use crate::taskmap::{with_pair, Props, TaskMap};
use vstd::prelude::*;

verus! {

/// One task as the store holds it.
#[derive(Debug)]
pub struct TaskData {
    uuid: u128,
    taskmap: TaskMap,
}

impl View for TaskData {
    type V = Props;

    open spec fn view(&self) -> Props {
        self.bag()@
    }
}

impl TaskData {
    /// The identifier of the task.
    pub closed spec fn id(&self) -> u128 {
        self.uuid
    }

    /// The property bag of the task.
    pub closed spec fn bag(&self) -> TaskMap {
        self.taskmap
    }

    /// No property name occurs twice.
    pub open spec fn wf(&self) -> bool {
        self.bag().wf()
    }

    /// The task `uuid` with the properties `taskmap`.
    pub fn new(uuid: u128, taskmap: TaskMap) -> (r: TaskData)
        requires
            taskmap.wf(),
        ensures
            r.wf(),
            r.id() == uuid,
            r.bag() == taskmap,
            r@ == taskmap@,
    {
        TaskData { uuid, taskmap }
    }

    /// A new task without properties, and the operation that creates it.
    pub fn create(uuid: String) -> (r: Result<(TaskData, Operation), Error>)
        ensures
            match r {
                Ok((data, op)) => uuid_of_text(uuid@) == Some(data.id()) && data.wf() && data@
                    == Props::empty() && op@ == (Op::Create { uuid: data.id() }),
                Err(e) => uuid_of_text(uuid@) is None && e == Error::MalformedValue,
            },
    {
        match parse_uuid(uuid.as_str()) {
            Some(u) => Ok((TaskData { uuid: u, taskmap: TaskMap::new() }, Operation::Create { uuid: u })),
            None => Err(Error::MalformedValue),
        }
    }

    /// The identifier of the task.
    pub fn uuid(&self) -> (r: u128)
        ensures
            r == self.id(),
    {
        self.uuid
    }

    /// The identifier of the task, as text.
    pub fn get_uuid(&self) -> (r: String)
        ensures
            r@ == text_of_uuid(self.id()),
            uuid_of_text(r@) == Some(self.id()),
    {
        format_uuid(self.uuid)
    }

    /// The property bag of the task.
    pub fn taskmap(&self) -> (r: &TaskMap)
        ensures
            *r == self.bag(),
    {
        &self.taskmap
    }

    /// The property bag of the task, without the task.
    pub fn into_taskmap(self) -> (r: TaskMap)
        ensures
            r == self.bag(),
    {
        self.taskmap
    }

    /// The value of a property, where it is set.
    pub fn get(&self, value: String) -> (r: Option<String>)
        requires
            self.wf(),
        ensures
            text_view(r) == property_of(self@, value@),
    {
        match self.taskmap.get(value.as_str()) {
            Some(v) => Some(v.clone()),
            None => None,
        }
    }

    /// Whether a property is set.
    pub fn has(&self, value: String) -> (r: bool)
        ensures
            r == self@.contains_key(value@),
    {
        self.taskmap.contains_key(value.as_str())
    }

    /// Sets a property, or clears it where `value` is `None`, and gives the
    /// operation that records the change as made at `timestamp`.
    pub fn update_at(&mut self, property: String, value: Option<String>, timestamp: Timestamp) -> (op:
        Operation)
        requires
            old(self).wf(),
        ensures
            final(self).wf(),
            final(self).id() == old(self).id(),
            final(self)@ == with_property(old(self)@, property@, text_view(value)),
            final(self).bag().pairs() == with_pair(
                old(self).bag().pairs(),
                property@,
                text_view(value),
            ),
            op.wf(),
            op@ == (Op::Update {
                uuid: old(self).id(),
                property: property@,
                old_value: property_of(old(self)@, property@),
                value: text_view(value),
                timestamp,
            }),
    {
        let kept = copy_option(&value);
        let name = property.clone();
        let old_value = match value {
            Some(v) => self.taskmap.insert(property, v),
            None => self.taskmap.remove(property.as_str()),
        };
        Operation::Update { uuid: self.uuid, property: name, old_value, value: kept, timestamp }
    }

    /// Sets a property, or clears it where `value` is `None`, and gives the
    /// operation that records the change as made now.
    pub fn update(&mut self, property: String, value: Option<String>) -> (op: Operation)
        requires
            old(self).wf(),
        ensures
            final(self).wf(),
            final(self).id() == old(self).id(),
            final(self)@ == with_property(old(self)@, property@, text_view(value)),
            final(self).bag().pairs() == with_pair(
                old(self).bag().pairs(),
                property@,
                text_view(value),
            ),
            op.wf(),
            op@ matches Op::Update { uuid, property: p, old_value, value: v, timestamp }
                && uuid == old(self).id() && p == property@ && old_value == property_of(
                old(self)@,
                property@,
            ) && v == text_view(value),
    {
        let t = now();
        self.update_at(property, value, t)
    }

    /// The operation that deletes the task from the store. The task in hand
    /// stays as it is.
    pub fn delete(&mut self) -> (op: Operation)
        requires
            old(self).wf(),
        ensures
            *final(self) == *old(self),
            op.wf(),
            op@ == (Op::Delete { uuid: old(self).id(), old_task: old(self)@ }),
    {
        Operation::Delete { uuid: self.uuid, old_task: self.taskmap.clone() }
    }
}

impl Clone for TaskData {
    fn clone(&self) -> (r: TaskData)
        ensures
            r@ == self@,
            r.id() == self.id(),
            r.wf() == self.wf(),
            r.bag().pairs() == self.bag().pairs(),
    {
        TaskData { uuid: self.uuid, taskmap: self.taskmap.clone() }
    }
}

} // verus!
