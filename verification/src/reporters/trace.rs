//! A reporter that collects the events of tasks as lines of text, one event
//! to a line.

use crate::chars::{push_char, push_text};
use crate::data::{Data, DataEntryView};
use crate::task_internal::{full_name_of, TaskInternal, TaskStatus};
use crate::time::Timestamp;
use vstd::prelude::*;

verus! {

/// Whether an event tells of the start of a task or of its end.
#[derive(Debug, Clone, Copy, PartialEq, Eq, Structural)]
pub enum EventType {
    Start,
    End,
}

/// An event of a task, as it is written to a trace.
#[derive(Debug)]
pub struct Event {
    /// The full name of the task.
    pub name: String,
    pub id: u64,
    pub event_type: EventType,
    /// The data of the task: its own, overlaid with its transitive data.
    pub data: Data,
    /// The instant of the event, where it is known.
    pub unix_ts_millis: Option<u64>,
}

/// What an [`Event`] holds.
pub struct EventView {
    pub name: Seq<char>,
    pub id: u64,
    pub event_type: EventType,
    pub data: Map<Seq<char>, DataEntryView>,
    pub unix_ts_millis: Option<u64>,
}

impl View for Event {
    type V = EventView;

    open spec fn view(&self) -> EventView {
        EventView {
            name: self.name@,
            id: self.id,
            event_type: self.event_type,
            data: self.data@,
            unix_ts_millis: self.unix_ts_millis,
        }
    }
}

/// The milliseconds from the Unix epoch to an instant.
pub fn unix_ts(ts: Timestamp) -> (millis: u64)
    ensures
        millis == ts.unix_millis,
{
    ts.unix_millis
}

/// Collects lines of text.
pub struct TraceReporter {
    string: String,
}

impl View for TraceReporter {
    type V = Seq<char>;

    /// The text collected so far.
    closed spec fn view(&self) -> Seq<char> {
        self.string@
    }
}

impl TraceReporter {
    /// A reporter that has collected nothing.
    pub fn new() -> (r: TraceReporter)
        ensures
            r@ == Seq::<char>::empty(),
    {
        Self { string: String::new() }
    }

    /// Adds a line to the text.
    pub fn write(&mut self, json_line: &str)
        ensures
            final(self)@ == old(self)@ + json_line@ + seq!['\n'],
    {
        push_text(&mut self.string, json_line);
        push_char(&mut self.string, '\n');
        assert(self@ =~= old(self)@ + json_line@ + seq!['\n']);
    }

    /// Hands out the text collected so far and starts anew.
    pub fn take(&mut self) -> (text: String)
        ensures
            text@ == old(self)@,
            final(self)@ == Seq::<char>::empty(),
    {
        let text = self.string.clone();
        self.string = String::new();
        text
    }

    /// The event that tells of the start of a task.
    pub fn task_start(&self, task: &TaskInternal) -> (event: Event)
        requires
            task.wf(),
        ensures
            event@ == (EventView {
                name: full_name_of(task@),
                id: task@.id,
                event_type: EventType::Start,
                data: task@.data.union_prefer_right(task@.data_transitive),
                unix_ts_millis: Some(task.started_at.unix_millis),
            }),
            event.data.wf(),
    {
        let mut data = task.data.clone_data();
        data.merge(&task.data_transitive);
        Event {
            name: task.full_name(),
            id: task.id.as_u64(),
            event_type: EventType::Start,
            data,
            unix_ts_millis: Some(unix_ts(task.started_at)),
        }
    }

    /// The event that tells of the end of a task. It carries the instant at
    /// which the task finished, and none where the task still runs.
    pub fn task_end(&self, task: &TaskInternal) -> (event: Event)
        requires
            task.wf(),
        ensures
            event@ == (EventView {
                name: full_name_of(task@),
                id: task@.id,
                event_type: EventType::End,
                data: task@.data.union_prefer_right(task@.data_transitive),
                unix_ts_millis: match task.status {
                    TaskStatus::Finished(_, at) => Some(at.unix_millis),
                    TaskStatus::Running => None,
                },
            }),
            event.data.wf(),
    {
        let unix_ts_millis = match &task.status {
            TaskStatus::Finished(_, at) => Some(unix_ts(*at)),
            TaskStatus::Running => None,
        };
        let mut data = task.data.clone_data();
        data.merge(&task.data_transitive);
        Event {
            name: task.full_name(),
            id: task.id.as_u64(),
            event_type: EventType::End,
            data,
            unix_ts_millis,
        }
    }
}

} // verus!
