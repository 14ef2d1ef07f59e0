//! The task as its user sees it: typed getters over the property bag, and
//! setters that each make one recorded change.

use crate::decimal::{format_i64, i64_of_text, parse_i64, text_of_i64};
use crate::clock::{format_rfc3339, now, parse_rfc3339, rfc3339_text, rfc3339_time, Timestamp};
use crate::assoc::{
    distinct_keys, has_key, lemma_distinct_front, lemma_has_key_last, lemma_push_contains, map_of,
};
use crate::depmap::{dep_of_key, dep_target, key_names, lemma_key_names_all, names_dependency};
use crate::errors::Error;
use crate::ident::{format_uuid, parse_uuid, text_of_uuid, uuid_of_text};
use crate::operation::{property_of, text_view, with_property, Op, Operation};
use crate::taskdata::TaskData;
use crate::taskmap::{with_pair, Pair, Props};
use crate::text::{after, has_prefix, join, same_text, starts_with};
use vstd::prelude::*;
use vstd::string::*;

verus! {

/// The state of a task in its life.
#[derive(Debug, Clone, Copy, PartialEq, Eq, Structural)]
pub enum Status {
    Pending,
    Completed,
    Deleted,
    Recurring,
    /// A status that this library does not know.
    Unknown,
}

/// The text that stands for a status in the property bag.
pub open spec fn status_text(status: Status) -> Seq<char> {
    match status {
        Status::Pending => "pending"@,
        Status::Completed => "completed"@,
        Status::Deleted => "deleted"@,
        Status::Recurring => "recurring"@,
        Status::Unknown => "unknown"@,
    }
}

/// The status that a text of the property bag stands for.
pub open spec fn status_of_text(text: Seq<char>) -> Status {
    if text == "pending"@ {
        Status::Pending
    } else if text == "completed"@ {
        Status::Completed
    } else if text == "deleted"@ {
        Status::Deleted
    } else if text == "recurring"@ {
        Status::Recurring
    } else {
        Status::Unknown
    }
}

/// The status of a task with these properties: what `status` is set to, and
/// pending where it is not set.
pub open spec fn status_of(props: Props) -> Status {
    match property_of(props, "status"@) {
        Some(text) => status_of_text(text),
        None => Status::Pending,
    }
}

/// A status is read back from its text.
pub proof fn lemma_status_text(status: Status)
    ensures
        status_of_text(status_text(status)) == status,
{
    reveal_strlit("pending");
    reveal_strlit("completed");
    reveal_strlit("deleted");
    reveal_strlit("recurring");
    reveal_strlit("unknown");
    assert("pending"@[0] == 'p');
    assert("completed"@[0] == 'c');
    assert("deleted"@[0] == 'd');
    assert("recurring"@[0] == 'r');
    assert("unknown"@[0] == 'u');
}

/// The value of a property, or the empty text where it is not set.
pub open spec fn text_or_empty(props: Props, property: Seq<char>) -> Seq<char> {
    match property_of(props, property) {
        Some(v) => v,
        None => Seq::empty(),
    }
}

/// The time that a property holds, in seconds since 1970: its value read as
/// a decimal number, where it is set and is one.
pub open spec fn time_of(props: Props, property: Seq<char>) -> Option<i64> {
    match property_of(props, property) {
        Some(v) => i64_of_text(v),
        None => None,
    }
}

/// The time that a property holds, written in the form of RFC 3339.
pub open spec fn time_text_of(props: Props, property: Seq<char>) -> Option<Seq<char>> {
    match time_of(props, property) {
        Some(secs) => rfc3339_text(secs),
        None => None,
    }
}

/// Whether `op` is the change of one property of the task `uuid` to
/// `value`, and records the value that the property had in `before`.
pub open spec fn sets(
    op: Op,
    uuid: u128,
    before: Props,
    property: Seq<char>,
    value: Option<Seq<char>>,
) -> bool {
    op matches Op::Update { uuid: u, property: p, old_value: o, value: v, timestamp: _ } && u
        == uuid && p == property && o == property_of(before, property) && v == value
}

/// The value that a setter of a time stores: the seconds of the time that
/// the text denotes, as a decimal number; nothing where there is no text.
pub open spec fn stored_time(text: Option<String>) -> Option<Seq<char>> {
    match text {
        Some(t) => match rfc3339_time(t@) {
            Some(time) => Some(text_of_i64(time.0)),
            None => None,
        },
        None => None,
    }
}

/// Whether a text given to a setter of a time can be read.
pub open spec fn readable_time(text: Option<String>) -> bool {
    match text {
        Some(t) => rfc3339_time(t@) is Some,
        None => true,
    }
}

/// One task.
#[derive(Debug)]
pub struct Task {
    data: TaskData,
    blocked: bool,
    blocking: bool,
}

impl View for Task {
    type V = Props;

    open spec fn view(&self) -> Props {
        self.data()@
    }
}

impl Task {
    /// The raw form of the task.
    pub closed spec fn data(&self) -> TaskData {
        self.data
    }

    /// Whether the task waited for another when the replica handed it out.
    pub closed spec fn blocked(&self) -> bool {
        self.blocked
    }

    /// Whether another task waited for this one when the replica handed it
    /// out.
    pub closed spec fn blocking(&self) -> bool {
        self.blocking
    }

    /// The identifier of the task.
    pub open spec fn id(&self) -> u128 {
        self.data().id()
    }

    /// No property name occurs twice.
    pub open spec fn wf(&self) -> bool {
        self.data().wf()
    }

    /// Whether `self` is what `before` has become by the one change `op`:
    /// the property is set to `value`, or cleared where that is `None`, and
    /// nothing else has changed. A property that was set keeps its place
    /// among the others; a new one comes last.
    pub open spec fn changed(
        &self,
        before: Task,
        op: Op,
        property: Seq<char>,
        value: Option<Seq<char>>,
    ) -> bool {
        &&& self.wf()
        &&& self.id() == before.id()
        &&& self.blocked() == before.blocked()
        &&& self.blocking() == before.blocking()
        &&& self@ == with_property(before@, property, value)
        &&& self.data().bag().pairs() == with_pair(before.data().bag().pairs(), property, value)
        &&& sets(op, before.id(), before@, property, value)
    }

    /// The task with the given raw form, of which the dependency map says
    /// whether it is blocked and blocking.
    pub fn new(data: TaskData, blocked: bool, blocking: bool) -> (r: Task)
        ensures
            r.data() == data,
            r.blocked() == blocked,
            r.blocking() == blocking,
    {
        Task { data, blocked, blocking }
    }

    /// A copy of the raw form of the task.
    pub fn into_task_data(&self) -> (r: TaskData)
        ensures
            r@ == self@,
            r.id() == self.id(),
            r.wf() == self.wf(),
    {
        self.data.clone()
    }

    /// The identifier of the task, as text.
    pub fn get_uuid(&self) -> (r: String)
        ensures
            r@ == text_of_uuid(self.id()),
            uuid_of_text(r@) == Some(self.id()),
    {
        self.data.get_uuid()
    }

    /// The status of the task.
    pub fn get_status(&self) -> (r: Status)
        requires
            self.wf(),
        ensures
            r == status_of(self@),
    {
        match self.data.taskmap().get("status") {
            Some(v) => {
                let v = v.as_str();
                if same_text(v, "pending") {
                    Status::Pending
                } else if same_text(v, "completed") {
                    Status::Completed
                } else if same_text(v, "deleted") {
                    Status::Deleted
                } else if same_text(v, "recurring") {
                    Status::Recurring
                } else {
                    Status::Unknown
                }
            },
            None => Status::Pending,
        }
    }

    /// The value of a property, or the empty text where it is not set.
    fn text_of(&self, property: &str) -> (r: String)
        requires
            self.wf(),
        ensures
            r@ == text_or_empty(self@, property@),
    {
        match self.data.taskmap().get(property) {
            Some(v) => v.clone(),
            None => String::new(),
        }
    }

    /// The time that a property holds, in seconds since 1970.
    fn secs_of(&self, property: &str) -> (r: Option<i64>)
        requires
            self.wf(),
        ensures
            r == time_of(self@, property@),
    {
        match self.data.taskmap().get(property) {
            Some(v) => parse_i64(v.as_str()),
            None => None,
        }
    }

    /// The time that a property holds, in the form of RFC 3339.
    fn time_text(&self, property: &str) -> (r: Option<String>)
        requires
            self.wf(),
        ensures
            text_view(r) == time_text_of(self@, property@),
    {
        match self.secs_of(property) {
            Some(secs) => format_rfc3339(secs),
            None => None,
        }
    }

    /// The description of the task, empty where it has none.
    pub fn get_description(&self) -> (r: String)
        requires
            self.wf(),
        ensures
            r@ == text_or_empty(self@, "description"@),
    {
        self.text_of("description")
    }

    /// The priority of the task, empty where it has none.
    pub fn get_priority(&self) -> (r: String)
        requires
            self.wf(),
        ensures
            r@ == text_or_empty(self@, "priority"@),
    {
        self.text_of("priority")
    }

    /// The time at which the task was entered, in the form of RFC 3339.
    pub fn get_entry(&self) -> (r: Option<String>)
        requires
            self.wf(),
        ensures
            text_view(r) == time_text_of(self@, "entry"@),
    {
        self.time_text("entry")
    }

    /// The time until which the task waits, in the form of RFC 3339.
    pub fn get_wait(&self) -> (r: Option<String>)
        requires
            self.wf(),
        ensures
            text_view(r) == time_text_of(self@, "wait"@),
    {
        self.time_text("wait")
    }

    /// The time at which the task was last changed, in the form of RFC 3339.
    pub fn get_modified(&self) -> (r: Option<String>)
        requires
            self.wf(),
        ensures
            text_view(r) == time_text_of(self@, "modified"@),
    {
        self.time_text("modified")
    }

    /// The time at which the task is due, in the form of RFC 3339.
    pub fn get_due(&self) -> (r: Option<String>)
        requires
            self.wf(),
        ensures
            text_view(r) == time_text_of(self@, "due"@),
    {
        self.time_text("due")
    }

    /// Whether the task waits at the time `now`, given in seconds since
    /// 1970: it waits until a later time.
    pub fn is_waiting_at(&self, now: i64) -> (r: bool)
        requires
            self.wf(),
        ensures
            r == (time_of(self@, "wait"@) matches Some(until) && until > now),
    {
        match self.secs_of("wait") {
            Some(until) => until > now,
            None => false,
        }
    }

    /// Whether the task waits now. Where it waits until no time, it does
    /// not.
    pub fn is_waiting(&self) -> (r: bool)
        requires
            self.wf(),
        ensures
            r ==> time_of(self@, "wait"@) is Some,
    {
        let t = now();
        self.is_waiting_at(t.secs)
    }

    /// Whether the task is being worked on: `start` is set.
    pub fn is_active(&self) -> (r: bool)
        ensures
            r == self@.contains_key("start"@),
    {
        self.data.taskmap().contains_key("start")
    }

    /// Whether the task waited for another when the replica handed it out.
    pub fn is_blocked(&self) -> (r: bool)
        ensures
            r == self.blocked(),
    {
        self.blocked
    }

    /// Whether another task waited for this one when the replica handed it
    /// out.
    pub fn is_blocking(&self) -> (r: bool)
        ensures
            r == self.blocking(),
    {
        self.blocking
    }

    /// The value of a property, where it is set.
    pub fn get_value(&self, property: String) -> (r: Option<String>)
        requires
            self.wf(),
        ensures
            text_view(r) == property_of(self@, property@),
    {
        self.data.get(property)
    }

    /// Sets a property, or clears it where `value` is `None`, and gives the
    /// operation that records the change as made at `timestamp`.
    pub fn set_value_at(&mut self, property: String, value: Option<String>, timestamp: Timestamp) -> (op:
        Operation)
        requires
            old(self).wf(),
        ensures
            op.wf(),
            final(self).changed(*old(self), op@, property@, text_view(value)),
            op@->Update_timestamp == timestamp,
    {
        self.data.update_at(property, value, timestamp)
    }

    /// Sets a property, or clears it where `value` is `None`, and gives the
    /// operation that records the change.
    pub fn set_value(&mut self, property: String, value: Option<String>) -> (op: Operation)
        requires
            old(self).wf(),
        ensures
            op.wf(),
            final(self).changed(*old(self), op@, property@, text_view(value)),
    {
        self.data.update(property, value)
    }

    /// Sets the status of the task.
    pub fn set_status(&mut self, status: Status) -> (op: Operation)
        requires
            old(self).wf(),
        ensures
            op.wf(),
            final(self).changed(*old(self), op@, "status"@, Some(status_text(status))),
            status_of(final(self)@) == status,
    {
        let text = match status {
            Status::Pending => "pending",
            Status::Completed => "completed",
            Status::Deleted => "deleted",
            Status::Recurring => "recurring",
            Status::Unknown => "unknown",
        };
        proof {
            lemma_status_text(status);
        }
        self.set_value(String::from_str("status"), Some(String::from_str(text)))
    }

    /// Sets the description of the task.
    pub fn set_description(&mut self, description: String) -> (op: Operation)
        requires
            old(self).wf(),
        ensures
            op.wf(),
            final(self).changed(*old(self), op@, "description"@, Some(description@)),
    {
        self.set_value(String::from_str("description"), Some(description))
    }

    /// Sets the priority of the task.
    pub fn set_priority(&mut self, priority: String) -> (op: Operation)
        requires
            old(self).wf(),
        ensures
            op.wf(),
            final(self).changed(*old(self), op@, "priority"@, Some(priority@)),
    {
        self.set_value(String::from_str("priority"), Some(priority))
    }

    /// Sets a property to a time given in the form of RFC 3339, or clears it
    /// where there is none. A text that is no such time is refused and
    /// nothing changes.
    fn set_time(&mut self, property: &str, time: Option<String>) -> (r: Result<Operation, Error>)
        requires
            old(self).wf(),
        ensures
            match r {
                Ok(op) => readable_time(time) && op.wf() && final(self).changed(
                    *old(self),
                    op@,
                    property@,
                    stored_time(time),
                ),
                Err(e) => !readable_time(time) && e == Error::MalformedValue && *final(self)
                    == *old(self),
            },
    {
        let value = match time {
            Some(t) => match parse_rfc3339(t.as_str()) {
                Some(time) => Some(format_i64(time.secs)),
                None => {
                    return Err(Error::MalformedValue);
                },
            },
            None => None,
        };
        Ok(self.set_value(String::from_str(property), value))
    }

    /// Sets the time at which the task was entered, or clears it.
    pub fn set_entry(&mut self, entry: Option<String>) -> (r: Result<Operation, Error>)
        requires
            old(self).wf(),
        ensures
            match r {
                Ok(op) => readable_time(entry) && op.wf() && final(self).changed(
                    *old(self),
                    op@,
                    "entry"@,
                    stored_time(entry),
                ),
                Err(e) => !readable_time(entry) && e == Error::MalformedValue && *final(self)
                    == *old(self),
            },
    {
        self.set_time("entry", entry)
    }

    /// Sets the time until which the task waits, or clears it.
    pub fn set_wait(&mut self, wait: Option<String>) -> (r: Result<Operation, Error>)
        requires
            old(self).wf(),
        ensures
            match r {
                Ok(op) => readable_time(wait) && op.wf() && final(self).changed(
                    *old(self),
                    op@,
                    "wait"@,
                    stored_time(wait),
                ),
                Err(e) => !readable_time(wait) && e == Error::MalformedValue && *final(self)
                    == *old(self),
            },
    {
        self.set_time("wait", wait)
    }

    /// Sets the time at which the task was last changed, or clears it.
    pub fn set_modified(&mut self, modified: Option<String>) -> (r: Result<Operation, Error>)
        requires
            old(self).wf(),
        ensures
            match r {
                Ok(op) => readable_time(modified) && op.wf() && final(self).changed(
                    *old(self),
                    op@,
                    "modified"@,
                    stored_time(modified),
                ),
                Err(e) => !readable_time(modified) && e == Error::MalformedValue && *final(self)
                    == *old(self),
            },
    {
        self.set_time("modified", modified)
    }

    /// Sets the time at which the task is due, or clears it.
    pub fn set_due(&mut self, due: Option<String>) -> (r: Result<Operation, Error>)
        requires
            old(self).wf(),
        ensures
            match r {
                Ok(op) => readable_time(due) && op.wf() && final(self).changed(
                    *old(self),
                    op@,
                    "due"@,
                    stored_time(due),
                ),
                Err(e) => !readable_time(due) && e == Error::MalformedValue && *final(self)
                    == *old(self),
            },
    {
        self.set_time("due", due)
    }

    /// Marks the task as being worked on since the time `now`.
    pub fn start_at(&mut self, now: Timestamp) -> (op: Operation)
        requires
            old(self).wf(),
        ensures
            op.wf(),
            final(self).changed(*old(self), op@, "start"@, Some(text_of_i64(now.secs))),
            op@->Update_timestamp == now,
    {
        self.set_value_at(String::from_str("start"), Some(format_i64(now.secs)), now)
    }

    /// Marks the task as being worked on since now.
    pub fn start(&mut self) -> (op: Operation)
        requires
            old(self).wf(),
        ensures
            op.wf(),
            exists|secs: i64|
                final(self).changed(*old(self), op@, "start"@, Some(#[trigger] text_of_i64(secs))),
    {
        let t = now();
        self.start_at(t)
    }

    /// Marks the task as no longer being worked on.
    pub fn stop(&mut self) -> (op: Operation)
        requires
            old(self).wf(),
        ensures
            op.wf(),
            final(self).changed(*old(self), op@, "start"@, None),
    {
        self.set_value(String::from_str("start"), None)
    }

    /// Marks the task as completed.
    pub fn done(&mut self) -> (op: Operation)
        requires
            old(self).wf(),
        ensures
            op.wf(),
            final(self).changed(*old(self), op@, "status"@, Some(status_text(Status::Completed))),
            status_of(final(self)@) == Status::Completed,
    {
        self.set_status(Status::Completed)
    }
}

/// A tag of a task.
#[derive(Debug)]
pub struct Tag {
    name: String,
}

impl View for Tag {
    type V = Seq<char>;

    closed spec fn view(&self) -> Seq<char> {
        self.name@
    }
}

impl Tag {
    /// The tag with the given name.
    pub fn new(name: String) -> (r: Tag)
        ensures
            r@ == name@,
    {
        Tag { name }
    }

    /// The name of the tag.
    pub fn name(&self) -> (r: String)
        ensures
            r@ == self@,
    {
        self.name.clone()
    }
}

/// A note on a task, with the time at which it was made.
#[derive(Debug)]
pub struct Annotation {
    entry: i64,
    description: String,
}

impl View for Annotation {
    type V = (i64, Seq<char>);

    closed spec fn view(&self) -> (i64, Seq<char>) {
        (self.entry, self.description@)
    }
}

impl Annotation {
    /// The note made at `entry`, given in seconds since 1970.
    pub fn new(entry: i64, description: String) -> (r: Annotation)
        ensures
            r@ == (entry, description@),
    {
        Annotation { entry, description }
    }

    /// The time at which the note was made, in seconds since 1970.
    pub fn entry(&self) -> (r: i64)
        ensures
            r == self@.0,
    {
        self.entry
    }

    /// The text of the note.
    pub fn description(&self) -> (r: String)
        ensures
            r@ == self@.1,
    {
        self.description.clone()
    }
}

/// The name of the property that holds a tag.
pub open spec fn tag_key(name: Seq<char>) -> Seq<char> {
    "tag_"@ + name
}

/// The tag that a property name holds: the name is `tag_` and then the tag.
pub open spec fn tag_of_key(key: Seq<char>) -> Option<Seq<char>> {
    if starts_with(key, "tag_"@) {
        Some(key.skip(4))
    } else {
        None
    }
}

/// The tags among the properties, in their order.
pub open spec fn tags_in(pairs: Seq<Pair>) -> Seq<Seq<char>>
    decreases pairs.len(),
{
    if pairs.len() == 0 {
        Seq::empty()
    } else {
        let before = tags_in(pairs.drop_last());
        match tag_of_key(pairs.last().0) {
            Some(name) => before.push(name),
            None => before,
        }
    }
}

/// The names of a list of tags.
pub open spec fn names_of(tags: Seq<Tag>) -> Seq<Seq<char>> {
    tags.map_values(|t: Tag| t@)
}

/// The name of the property that holds the note made at `entry`.
pub open spec fn annotation_key(entry: i64) -> Seq<char> {
    "annotation_"@ + text_of_i64(entry)
}

/// The time of the note that a property name holds: the name is
/// `annotation_` and then a decimal number.
pub open spec fn annotation_time(key: Seq<char>) -> Option<i64> {
    if starts_with(key, "annotation_"@) {
        i64_of_text(key.skip(11))
    } else {
        None
    }
}

/// The notes among the properties, in their order.
pub open spec fn annotations_in(pairs: Seq<Pair>) -> Seq<(i64, Seq<char>)>
    decreases pairs.len(),
{
    if pairs.len() == 0 {
        Seq::empty()
    } else {
        let before = annotations_in(pairs.drop_last());
        match annotation_time(pairs.last().0) {
            Some(entry) => before.push((entry, pairs.last().1)),
            None => before,
        }
    }
}

/// The spec-level form of a list of notes.
pub open spec fn notes_of(notes: Seq<Annotation>) -> Seq<(i64, Seq<char>)> {
    notes.map_values(|a: Annotation| a@)
}

/// The name of the property that holds the dependency on `uuid`.
pub open spec fn dep_key(uuid: u128) -> Seq<char> {
    "dep_"@ + text_of_uuid(uuid)
}

/// The tasks that the properties declare a dependency on, in their order.
pub open spec fn deps_in(pairs: Seq<Pair>) -> Seq<u128>
    decreases pairs.len(),
{
    if pairs.len() == 0 {
        Seq::empty()
    } else {
        let before = deps_in(pairs.drop_last());
        match dep_target(pairs.last().0) {
            Some(uuid) => before.push(uuid),
            None => before,
        }
    }
}

/// The texts of a list of strings.
pub open spec fn texts_of(strings: Seq<String>) -> Seq<Seq<char>> {
    strings.map_values(|s: String| s@)
}

/// The texts of a list of identifiers.
pub open spec fn uuid_texts(uuids: Seq<u128>) -> Seq<Seq<char>> {
    uuids.map_values(|u: u128| text_of_uuid(u))
}

/// The name of the property that holds a user-defined attribute.
pub open spec fn uda_key(namespace: Seq<char>, key: Seq<char>) -> Seq<char> {
    namespace + "."@ + key
}

/// Whether a property name is one that this library gives a meaning to.
pub open spec fn is_known_key(key: Seq<char>) -> bool {
    ||| key == "description"@
    ||| key == "due"@
    ||| key == "modified"@
    ||| key == "start"@
    ||| key == "status"@
    ||| key == "priority"@
    ||| key == "wait"@
    ||| key == "end"@
    ||| key == "entry"@
    ||| starts_with(key, "tag_"@)
    ||| starts_with(key, "annotation_"@)
    ||| starts_with(key, "dep_"@)
}

/// Whether the first dot of `s` stands at `i`.
pub open spec fn is_first_dot(s: Seq<char>, i: int) -> bool {
    0 <= i < s.len() && s[i] == '.' && forall|j: int| 0 <= j < i ==> s[j] != '.'
}

/// The namespace and the key of a user-defined attribute: what stands
/// before and behind the first dot of the property name. A name without a
/// dot is a key in the empty namespace.
pub open spec fn uda_name(key: Seq<char>) -> (Seq<char>, Seq<char>) {
    if exists|i: int| is_first_dot(key, i) {
        let i = choose|i: int| is_first_dot(key, i);
        (key.take(i), key.skip(i + 1))
    } else {
        (Seq::empty(), key)
    }
}

/// The user-defined attributes among the properties, in their order: each
/// with its namespace, its key and its value.
pub open spec fn udas_in(pairs: Seq<Pair>) -> Seq<((Seq<char>, Seq<char>), Seq<char>)>
    decreases pairs.len(),
{
    if pairs.len() == 0 {
        Seq::empty()
    } else {
        let before = udas_in(pairs.drop_last());
        if is_known_key(pairs.last().0) {
            before
        } else {
            before.push((uda_name(pairs.last().0), pairs.last().1))
        }
    }
}

/// The spec-level form of a list of user-defined attributes.
pub open spec fn udas_of(udas: Seq<((String, String), String)>) -> Seq<
    ((Seq<char>, Seq<char>), Seq<char>),
> {
    udas.map_values(|u: ((String, String), String)| ((u.0.0@, u.0.1@), u.1@))
}

/// Whether a task with these properties has a note made at `entry` with the
/// text `description`.
pub open spec fn has_annotation(props: Props, entry: i64, description: Seq<char>) -> bool {
    exists|k: Seq<char>|
        #[trigger] props.contains_key(k) && annotation_time(k) == Some(entry) && props[k]
            == description
}

/// Whether a task with these properties has the user-defined attribute
/// `key` of `namespace` with the value `value`.
pub open spec fn has_uda(
    props: Props,
    namespace: Seq<char>,
    key: Seq<char>,
    value: Seq<char>,
) -> bool {
    exists|k: Seq<char>|
        #[trigger] props.contains_key(k) && !is_known_key(k) && uda_name(k) == (namespace, key)
            && props[k] == value
}

/// A property name holds a tag if and only if it is the name of the
/// property of that tag.
pub proof fn lemma_tag_key(key: Seq<char>, name: Seq<char>)
    ensures
        tag_of_key(key) == Some(name) <==> key == tag_key(name),
{
    reveal_strlit("tag_");
    if key == tag_key(name) {
        assert(key.subrange(0, 4) =~= "tag_"@);
        assert(key.skip(4) =~= name);
    }
    if tag_of_key(key) == Some(name) {
        assert(key =~= key.subrange(0, 4) + key.skip(4));
    }
}

/// The tags among the properties are those whose property is set.
pub proof fn lemma_tags_content(pairs: Seq<Pair>, name: Seq<char>)
    ensures
        tags_in(pairs).contains(name) <==> map_of(pairs).contains_key(tag_key(name)),
    decreases pairs.len(),
{
    if pairs.len() > 0 {
        let front = pairs.drop_last();
        lemma_tags_content(front, name);
        lemma_tag_key(pairs.last().0, name);
        lemma_has_key_last(pairs, tag_key(name));
        match tag_of_key(pairs.last().0) {
            Some(found) => {
                lemma_push_contains(tags_in(front), found, name);
            },
            None => {},
        }
    }
}

/// The dependencies among the properties are those that the mapping
/// declares.
pub proof fn lemma_deps_content(pairs: Seq<Pair>, uuid: u128)
    ensures
        deps_in(pairs).contains(uuid) <==> names_dependency(map_of(pairs), uuid),
{
    lemma_deps_names(pairs, uuid);
    lemma_key_names_all(pairs, uuid);
}

proof fn lemma_deps_names(pairs: Seq<Pair>, uuid: u128)
    ensures
        deps_in(pairs).contains(uuid) <==> key_names(pairs, pairs.len() as int, uuid),
    decreases pairs.len(),
{
    if pairs.len() > 0 {
        let front = pairs.drop_last();
        let n = front.len() as int;
        lemma_deps_names(front, uuid);
        match dep_target(pairs.last().0) {
            Some(found) => {
                lemma_push_contains(deps_in(front), found, uuid);
            },
            None => {},
        }
        if key_names(pairs, n + 1, uuid) {
            let j = choose|j: int|
                0 <= j < n + 1 && dep_target((#[trigger] pairs[j]).0) == Some(uuid);
            if j < n {
                assert(front[j] == pairs[j]);
                assert(key_names(front, n, uuid));
            }
        }
        if key_names(front, n, uuid) {
            let j = choose|j: int| 0 <= j < n && dep_target((#[trigger] front[j]).0) == Some(uuid);
            assert(pairs[j] == front[j]);
            assert(key_names(pairs, n + 1, uuid));
        }
        if dep_target(pairs.last().0) == Some(uuid) {
            assert(pairs[n] == pairs.last());
            assert(key_names(pairs, n + 1, uuid));
        }
    }
}

/// The notes among the properties are those that the mapping holds.
pub proof fn lemma_annotations_content(pairs: Seq<Pair>, entry: i64, description: Seq<char>)
    requires
        distinct_keys(pairs),
    ensures
        annotations_in(pairs).contains((entry, description)) <==> has_annotation(
            map_of(pairs),
            entry,
            description,
        ),
    decreases pairs.len(),
{
    let props = map_of(pairs);
    if pairs.len() == 0 {
        if has_annotation(props, entry, description) {
            let k = choose|k: Seq<char>|
                #[trigger] props.contains_key(k) && annotation_time(k) == Some(entry) && props[k]
                    == description;
            assert(has_key(pairs, k));
        }
    } else {
        let front = pairs.drop_last();
        let last = pairs.last();
        lemma_distinct_front(pairs);
        lemma_annotations_content(front, entry, description);
        let before = map_of(front);
        match annotation_time(last.0) {
            Some(found) => {
                lemma_push_contains(annotations_in(front), (found, last.1), (entry, description));
            },
            None => {},
        }
        if has_annotation(props, entry, description) {
            let k = choose|k: Seq<char>|
                #[trigger] props.contains_key(k) && annotation_time(k) == Some(entry) && props[k]
                    == description;
            if k != last.0 {
                assert(before.contains_key(k) && before[k] == description);
            }
        }
        if has_annotation(before, entry, description) {
            let k = choose|k: Seq<char>|
                #[trigger] before.contains_key(k) && annotation_time(k) == Some(entry)
                    && before[k] == description;
            assert(has_key(front, k));
            assert(props.contains_key(k) && props[k] == description);
        }
        if annotation_time(last.0) == Some(entry) && last.1 == description {
            assert(props.contains_key(last.0) && props[last.0] == description);
        }
    }
}

/// The user-defined attributes among the properties are those that the
/// mapping holds.
pub proof fn lemma_udas_content(
    pairs: Seq<Pair>,
    namespace: Seq<char>,
    key: Seq<char>,
    value: Seq<char>,
)
    requires
        distinct_keys(pairs),
    ensures
        udas_in(pairs).contains(((namespace, key), value)) <==> has_uda(
            map_of(pairs),
            namespace,
            key,
            value,
        ),
    decreases pairs.len(),
{
    let props = map_of(pairs);
    if pairs.len() == 0 {
        if has_uda(props, namespace, key, value) {
            let k = choose|k: Seq<char>|
                #[trigger] props.contains_key(k) && !is_known_key(k) && uda_name(k) == (
                    namespace,
                    key,
                ) && props[k] == value;
            assert(has_key(pairs, k));
        }
    } else {
        let front = pairs.drop_last();
        let last = pairs.last();
        lemma_distinct_front(pairs);
        lemma_udas_content(front, namespace, key, value);
        let before = map_of(front);
        if !is_known_key(last.0) {
            lemma_push_contains(
                udas_in(front),
                (uda_name(last.0), last.1),
                ((namespace, key), value),
            );
        }
        if has_uda(props, namespace, key, value) {
            let k = choose|k: Seq<char>|
                #[trigger] props.contains_key(k) && !is_known_key(k) && uda_name(k) == (
                    namespace,
                    key,
                ) && props[k] == value;
            if k != last.0 {
                assert(before.contains_key(k) && before[k] == value);
            }
        }
        if has_uda(before, namespace, key, value) {
            let k = choose|k: Seq<char>|
                #[trigger] before.contains_key(k) && !is_known_key(k) && uda_name(k) == (
                    namespace,
                    key,
                ) && before[k] == value;
            assert(has_key(front, k));
            assert(props.contains_key(k) && props[k] == value);
        }
        if !is_known_key(last.0) && uda_name(last.0) == (namespace, key) && last.1 == value {
            assert(props.contains_key(last.0) && props[last.0] == value);
        }
    }
}

/// Whether a property name is one that this library gives a meaning to.
pub fn known_key(key: &str) -> (r: bool)
    ensures
        r == is_known_key(key@),
{
    same_text(key, "description") || same_text(key, "due") || same_text(key, "modified")
        || same_text(key, "start") || same_text(key, "status") || same_text(key, "priority")
        || same_text(key, "wait") || same_text(key, "end") || same_text(key, "entry")
        || has_prefix(key, "tag_") || has_prefix(key, "annotation_") || has_prefix(key, "dep_")
}

/// The namespace and the key of a user-defined attribute.
pub fn split_uda(key: &str) -> (r: (String, String))
    ensures
        (r.0@, r.1@) == uda_name(key@),
{
    let n = key.unicode_len();
    let mut i: usize = 0;
    while i < n
        invariant
            n == key@.len(),
            i <= n,
            forall|j: int| 0 <= j < i ==> key@[j] != '.',
        decreases n - i,
    {
        if key.get_char(i) == '.' {
            proof {
                assert(is_first_dot(key@, i as int));
                let c = choose|c: int| is_first_dot(key@, c);
                assert(c == i) by {
                    if c < i {
                        assert(key@[c] != '.');
                    } else if i < c {
                        assert(key@[i as int] != '.');
                    }
                }
                assert(key@.subrange(0, i as int) =~= key@.take(i as int));
                assert(key@.subrange(i + 1, n as int) =~= key@.skip(i + 1));
            }
            let namespace = key.substring_char(0, i).to_owned();
            let rest = key.substring_char(i + 1, n).to_owned();
            return (namespace, rest);
        }
        i = i + 1;
    }
    proof {
        assert forall|c: int| !is_first_dot(key@, c) by {
            if is_first_dot(key@, c) {
                assert(key@[c] != '.');
            }
        }
    }
    (String::new(), key.to_owned())
}

impl Task {
    /// The properties of the task in the order in which their names were
    /// first set.
    pub open spec fn pairs(&self) -> Seq<Pair> {
        self.data().bag().pairs()
    }

    /// Whether the task has a tag.
    pub fn has_tag(&self, tag: &Tag) -> (r: bool)
        ensures
            r == self@.contains_key(tag_key(tag@)),
    {
        let key = join("tag_", tag.name.as_str());
        self.data.taskmap().contains_key(key.as_str())
    }

    /// The tags of the task, in the order in which they were first set.
    pub fn get_tags(&self) -> (r: Vec<Tag>)
        ensures
            names_of(r@) == tags_in(self.pairs()),
            forall|name: Seq<char>|
                names_of(r@).contains(name) <==> self@.contains_key(#[trigger] tag_key(name)),
    {
        let t = self.data.taskmap();
        let ghost pairs = t.pairs();
        let n = t.len();
        let mut out: Vec<Tag> = Vec::new();
        let mut i: usize = 0;
        proof {
            reveal_strlit("tag_");
            assert(names_of(out@) =~= tags_in(pairs.take(0)));
        }
        while i < n
            invariant
                pairs == t.pairs(),
                n == pairs.len(),
                i <= n,
                "tag_"@.len() == 4,
                names_of(out@) == tags_in(pairs.take(i as int)),
            decreases n - i,
        {
            proof {
                assert(pairs.take(i + 1).drop_last() =~= pairs.take(i as int));
                assert(pairs.take(i + 1).last() == pairs[i as int]);
            }
            let key = t.key_at(i);
            if has_prefix(key.as_str(), "tag_") {
                let ghost prev = out@;
                let tag = Tag::new(after(key.as_str(), 4));
                out.push(tag);
                proof {
                    assert(names_of(out@) =~= names_of(prev).push(tag@));
                }
            }
            i = i + 1;
        }
        proof {
            assert(pairs.take(n as int) =~= pairs);
            assert forall|name: Seq<char>|
                names_of(out@).contains(name) <==> self@.contains_key(
                    #[trigger] tag_key(name),
                ) by {
                lemma_tags_content(pairs, name);
            }
        }
        out
    }

    /// The notes on the task, in the order in which they were first set.
    pub fn get_annotations(&self) -> (r: Vec<Annotation>)
        requires
            self.wf(),
        ensures
            notes_of(r@) == annotations_in(self.pairs()),
            forall|entry: i64, description: Seq<char>|
                notes_of(r@).contains((entry, description)) <==> #[trigger] has_annotation(
                    self@,
                    entry,
                    description,
                ),
    {
        let t = self.data.taskmap();
        let ghost pairs = t.pairs();
        let n = t.len();
        let mut out: Vec<Annotation> = Vec::new();
        let mut i: usize = 0;
        proof {
            reveal_strlit("annotation_");
            assert(notes_of(out@) =~= annotations_in(pairs.take(0)));
        }
        while i < n
            invariant
                pairs == t.pairs(),
                n == pairs.len(),
                i <= n,
                "annotation_"@.len() == 11,
                notes_of(out@) == annotations_in(pairs.take(i as int)),
            decreases n - i,
        {
            proof {
                assert(pairs.take(i + 1).drop_last() =~= pairs.take(i as int));
                assert(pairs.take(i + 1).last() == pairs[i as int]);
            }
            let key = t.key_at(i);
            if has_prefix(key.as_str(), "annotation_") {
                let rest = after(key.as_str(), 11);
                match parse_i64(rest.as_str()) {
                    Some(entry) => {
                        let ghost prev = out@;
                        let note = Annotation::new(entry, t.value_at(i).clone());
                        out.push(note);
                        proof {
                            assert(notes_of(out@) =~= notes_of(prev).push(note@));
                        }
                    },
                    None => {},
                }
            }
            i = i + 1;
        }
        proof {
            assert(pairs.take(n as int) =~= pairs);
            assert forall|entry: i64, description: Seq<char>|
                notes_of(out@).contains((entry, description)) <==> #[trigger] has_annotation(
                    self@,
                    entry,
                    description,
                ) by {
                lemma_annotations_content(pairs, entry, description);
            }
        }
        out
    }

    /// The value of a user-defined attribute, where it is set.
    pub fn get_uda(&self, namespace: &str, key: &str) -> (r: Option<String>)
        requires
            self.wf(),
        ensures
            text_view(r) == property_of(self@, uda_key(namespace@, key@)),
    {
        let name = join(join(namespace, ".").as_str(), key);
        self.data.get(name)
    }

    /// The user-defined attributes of the task, in the order in which they
    /// were first set: each with its namespace, its key and its value.
    pub fn get_udas(&self) -> (r: Vec<((String, String), String)>)
        requires
            self.wf(),
        ensures
            udas_of(r@) == udas_in(self.pairs()),
            forall|namespace: Seq<char>, key: Seq<char>, value: Seq<char>|
                udas_of(r@).contains(((namespace, key), value)) <==> #[trigger] has_uda(
                    self@,
                    namespace,
                    key,
                    value,
                ),
    {
        let t = self.data.taskmap();
        let ghost pairs = t.pairs();
        let n = t.len();
        let mut out: Vec<((String, String), String)> = Vec::new();
        let mut i: usize = 0;
        proof {
            assert(udas_of(out@) =~= udas_in(pairs.take(0)));
        }
        while i < n
            invariant
                pairs == t.pairs(),
                n == pairs.len(),
                i <= n,
                udas_of(out@) == udas_in(pairs.take(i as int)),
            decreases n - i,
        {
            proof {
                assert(pairs.take(i + 1).drop_last() =~= pairs.take(i as int));
                assert(pairs.take(i + 1).last() == pairs[i as int]);
            }
            let key = t.key_at(i);
            if !known_key(key.as_str()) {
                let ghost prev = out@;
                let name = split_uda(key.as_str());
                let entry = (name, t.value_at(i).clone());
                let ghost added = ((entry.0.0@, entry.0.1@), entry.1@);
                out.push(entry);
                proof {
                    assert(udas_of(out@) =~= udas_of(prev).push(added));
                }
            }
            i = i + 1;
        }
        proof {
            assert(pairs.take(n as int) =~= pairs);
            assert forall|namespace: Seq<char>, key: Seq<char>, value: Seq<char>|
                udas_of(out@).contains(((namespace, key), value)) <==> #[trigger] has_uda(
                    self@,
                    namespace,
                    key,
                    value,
                ) by {
                lemma_udas_content(pairs, namespace, key, value);
            }
        }
        out
    }

    /// The tasks that the task declares a dependency on, as text, in the
    /// order in which they were first set.
    pub fn get_dependencies(&self) -> (r: Vec<String>)
        ensures
            texts_of(r@) == uuid_texts(deps_in(self.pairs())),
            forall|uuid: u128|
                deps_in(self.pairs()).contains(uuid) <==> #[trigger] names_dependency(self@, uuid),
    {
        let t = self.data.taskmap();
        let ghost pairs = t.pairs();
        let n = t.len();
        let mut out: Vec<String> = Vec::new();
        let mut i: usize = 0;
        proof {
            assert(texts_of(out@) =~= uuid_texts(deps_in(pairs.take(0))));
        }
        while i < n
            invariant
                pairs == t.pairs(),
                n == pairs.len(),
                i <= n,
                texts_of(out@) == uuid_texts(deps_in(pairs.take(i as int))),
            decreases n - i,
        {
            proof {
                assert(pairs.take(i + 1).drop_last() =~= pairs.take(i as int));
                assert(pairs.take(i + 1).last() == pairs[i as int]);
            }
            match dep_of_key(t.key_at(i).as_str()) {
                Some(uuid) => {
                    let ghost prev = out@;
                    let text = format_uuid(uuid);
                    out.push(text);
                    proof {
                        assert(texts_of(out@) =~= texts_of(prev).push(text_of_uuid(uuid)));
                        assert(uuid_texts(deps_in(pairs.take(i as int)).push(uuid)) =~= uuid_texts(
                            deps_in(pairs.take(i as int)),
                        ).push(text_of_uuid(uuid)));
                    }
                },
                None => {},
            }
            i = i + 1;
        }
        proof {
            assert(pairs.take(n as int) =~= pairs);
            assert forall|uuid: u128|
                deps_in(pairs).contains(uuid) <==> #[trigger] names_dependency(self@, uuid) by {
                lemma_deps_content(pairs, uuid);
            }
        }
        out
    }

    /// Gives the task a tag.
    pub fn add_tag(&mut self, tag: &Tag) -> (op: Operation)
        requires
            old(self).wf(),
        ensures
            op.wf(),
            final(self).changed(*old(self), op@, tag_key(tag@), Some(Seq::empty())),
    {
        let key = join("tag_", tag.name.as_str());
        self.set_value(key, Some(String::new()))
    }

    /// Takes a tag from the task. Where the task does not have the tag,
    /// nothing changes and there is no operation.
    pub fn remove_tag(&mut self, tag: &Tag) -> (r: Option<Operation>)
        requires
            old(self).wf(),
        ensures
            match r {
                Some(op) => old(self)@.contains_key(tag_key(tag@)) && op.wf() && final(self).changed(*old(self), op@, tag_key(tag@), None),
                None => !old(self)@.contains_key(tag_key(tag@)) && *final(self) == *old(self),
            },
    {
        let key = join("tag_", tag.name.as_str());
        if !self.data.taskmap().contains_key(key.as_str()) {
            return None;
        }
        Some(self.set_value(key, None))
    }

    /// Puts a note on the task.
    pub fn add_annotation(&mut self, ann: &Annotation) -> (op: Operation)
        requires
            old(self).wf(),
        ensures
            op.wf(),
            final(self).changed(*old(self), op@, annotation_key(ann@.0), Some(ann@.1)),
    {
        let key = join("annotation_", format_i64(ann.entry).as_str());
        self.set_value(key, Some(ann.description.clone()))
    }

    /// Takes from the task the note made at the time that `timestamp` gives
    /// in the form of RFC 3339. A text that is no such time is refused and
    /// nothing changes.
    pub fn remove_annotation(&mut self, timestamp: String) -> (r: Result<Operation, Error>)
        requires
            old(self).wf(),
        ensures
            match r {
                Ok(op) => rfc3339_time(timestamp@) is Some && op.wf() && final(self).changed(
                    *old(self),
                    op@,
                    annotation_key(rfc3339_time(timestamp@).unwrap().0),
                    None,
                ),
                Err(e) => rfc3339_time(timestamp@) is None && e == Error::MalformedValue && *final(self) == *old(self),
            },
    {
        let time = match parse_rfc3339(timestamp.as_str()) {
            Some(t) => t,
            None => {
                return Err(Error::MalformedValue);
            },
        };
        let key = join("annotation_", format_i64(time.secs).as_str());
        Ok(self.set_value(key, None))
    }

    /// Sets a user-defined attribute.
    pub fn set_uda(&mut self, namespace: String, key: String, value: String) -> (op: Operation)
        requires
            old(self).wf(),
        ensures
            op.wf(),
            final(self).changed(*old(self), op@, uda_key(namespace@, key@), Some(value@)),
    {
        let name = join(join(namespace.as_str(), ".").as_str(), key.as_str());
        self.set_value(name, Some(value))
    }

    /// Clears a user-defined attribute.
    pub fn remove_uda(&mut self, namespace: String, key: String) -> (op: Operation)
        requires
            old(self).wf(),
        ensures
            op.wf(),
            final(self).changed(*old(self), op@, uda_key(namespace@, key@), None),
    {
        let name = join(join(namespace.as_str(), ".").as_str(), key.as_str());
        self.set_value(name, None)
    }

    /// Sets a user-defined attribute that has no namespace.
    pub fn set_legacy_uda(&mut self, key: String, value: String) -> (op: Operation)
        requires
            old(self).wf(),
        ensures
            op.wf(),
            final(self).changed(*old(self), op@, key@, Some(value@)),
    {
        self.set_value(key, Some(value))
    }

    /// Clears a user-defined attribute that has no namespace.
    pub fn remove_legacy_uda(&mut self, key: String) -> (op: Operation)
        requires
            old(self).wf(),
        ensures
            op.wf(),
            final(self).changed(*old(self), op@, key@, None),
    {
        self.set_value(key, None)
    }

    /// Declares that the task depends on the task that `dep` names. A text
    /// that is no identifier is refused and nothing changes.
    pub fn add_dependency(&mut self, dep: String) -> (r: Result<Operation, Error>)
        requires
            old(self).wf(),
        ensures
            match r {
                Ok(op) => uuid_of_text(dep@) is Some && op.wf() && final(self).changed(
                    *old(self),
                    op@,
                    dep_key(uuid_of_text(dep@).unwrap()),
                    Some(Seq::empty()),
                ),
                Err(e) => uuid_of_text(dep@) is None && e == Error::MalformedValue && *final(self)
                    == *old(self),
            },
    {
        let uuid = match parse_uuid(dep.as_str()) {
            Some(u) => u,
            None => {
                return Err(Error::MalformedValue);
            },
        };
        let key = join("dep_", format_uuid(uuid).as_str());
        Ok(self.set_value(key, Some(String::new())))
    }

    /// Takes back the declaration that the task depends on the task that
    /// `dep` names. Where there is no such declaration, nothing changes and
    /// there is no operation. A text that is no identifier is refused.
    pub fn remove_dependency(&mut self, dep: String) -> (r: Result<Option<Operation>, Error>)
        requires
            old(self).wf(),
        ensures
            match r {
                Ok(Some(op)) => uuid_of_text(dep@) is Some && old(self)@.contains_key(
                    dep_key(uuid_of_text(dep@).unwrap()),
                ) && op.wf() && final(self).changed(
                    *old(self),
                    op@,
                    dep_key(uuid_of_text(dep@).unwrap()),
                    None,
                ),
                Ok(None) => uuid_of_text(dep@) is Some && !old(self)@.contains_key(
                    dep_key(uuid_of_text(dep@).unwrap()),
                ) && *final(self) == *old(self),
                Err(e) => uuid_of_text(dep@) is None && e == Error::MalformedValue && *final(self)
                    == *old(self),
            },
    {
        let uuid = match parse_uuid(dep.as_str()) {
            Some(u) => u,
            None => {
                return Err(Error::MalformedValue);
            },
        };
        let key = join("dep_", format_uuid(uuid).as_str());
        if !self.data.taskmap().contains_key(key.as_str()) {
            return Ok(None);
        }
        Ok(Some(self.set_value(key, None)))
    }
}

} // verus!
