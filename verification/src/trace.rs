//! Traces: a subtree of tasks laid out flat, for export.

use crate::chars::{push_char, push_decimal};
use crate::data::{Data, DataEntryView};
use crate::ordered::{key_listing, lemma_keys_listed, lemma_lists_len, ordered};
use crate::time::Timestamp;
use std::collections::BTreeMap;
use std::collections::BTreeSet;
use vstd::prelude::*;

verus! {

/// One task of a trace.
#[derive(Debug)]
pub struct TaskTrace {
    /// The full name of the task.
    pub name: String,
    /// The data of the task: its own, overlaid with its transitive data.
    pub data: Data,
    pub children: BTreeSet<u64>,
    pub start: Timestamp,
    /// When the task finished, where it has.
    pub finished_at: Option<Timestamp>,
}

/// What a [`TaskTrace`] holds.
pub struct TaskTraceView {
    pub name: Seq<char>,
    pub data: Map<Seq<char>, DataEntryView>,
    /// The children of the task, in the order of their identifiers.
    pub children: Seq<u64>,
    pub start: Timestamp,
    pub finished_at: Option<Timestamp>,
}

impl View for TaskTrace {
    type V = TaskTraceView;

    open spec fn view(&self) -> TaskTraceView {
        TaskTraceView {
            name: self.name@,
            data: self.data@,
            children: ordered(self.children@),
            start: self.start,
            finished_at: self.finished_at,
        }
    }
}

/// The tasks of a subtree, by their identifiers.
#[derive(Debug)]
pub struct Trace {
    pub root_id: u64,
    pub tasks: BTreeMap<u64, TaskTrace>,
}

/// What a trace says of each of its tasks.
pub open spec fn trace_views(tasks: Map<u64, TaskTrace>) -> Map<u64, TaskTraceView> {
    tasks.map_values(|t: TaskTrace| t@)
}

/// Whether an event opens or closes the span of a task.
#[derive(Debug, Clone, Copy, PartialEq, Eq, Structural)]
pub enum Phase {
    Begin,
    End,
}

/// An event of a trace in the form that trace viewers read: a task gives a
/// beginning event and, once it has finished, an end event.
#[derive(Debug)]
pub struct ChromeTraceEvent {
    /// The task's full name, a hyphen and its identifier.
    pub name: String,
    pub ph: Phase,
    pub pid: u64,
    /// The instant of the event, in seconds since the Unix epoch.
    pub ts: u64,
    /// The place of the task among the tasks of the trace in the order of
    /// their identifiers, counted from one.
    pub tid: u64,
    pub args: Data,
}

/// What a [`ChromeTraceEvent`] holds.
pub struct ChromeTraceEventView {
    pub name: Seq<char>,
    pub ph: Phase,
    pub pid: u64,
    pub ts: u64,
    pub tid: u64,
    pub args: Map<Seq<char>, DataEntryView>,
}

impl View for ChromeTraceEvent {
    type V = ChromeTraceEventView;

    open spec fn view(&self) -> ChromeTraceEventView {
        ChromeTraceEventView {
            name: self.name@,
            ph: self.ph,
            pid: self.pid,
            ts: self.ts,
            tid: self.tid,
            args: self.args@,
        }
    }
}

/// The views of a list of events.
pub open spec fn event_views(events: Seq<ChromeTraceEvent>) -> Seq<ChromeTraceEventView> {
    events.map_values(|e: ChromeTraceEvent| e@)
}

/// The name of the events of the task `id`.
pub open spec fn event_name(id: u64, t: TaskTraceView) -> Seq<char> {
    t.name + seq!['-'] + crate::chars::decimal(id as nat)
}

/// The events of the task `id`, which stands at place `tid` of a trace.
pub open spec fn events_of_task(id: u64, t: TaskTraceView, tid: u64) -> Seq<ChromeTraceEventView> {
    let begin = ChromeTraceEventView {
        name: event_name(id, t),
        ph: Phase::Begin,
        pid: 1,
        ts: t.start.unix_millis / 1000,
        tid,
        args: t.data,
    };
    match t.finished_at {
        Some(at) => seq![
            begin,
            ChromeTraceEventView {
                name: event_name(id, t),
                ph: Phase::End,
                pid: 1,
                ts: at.unix_millis / 1000,
                tid,
                args: t.data,
            },
        ],
        None => seq![begin],
    }
}

/// The events of the tasks `ids` of a trace, task by task.
pub open spec fn events_of(trace: Map<u64, TaskTraceView>, ids: Seq<u64>) -> Seq<
    ChromeTraceEventView,
>
    decreases ids.len(),
{
    if ids.len() == 0 {
        Seq::<ChromeTraceEventView>::empty()
    } else {
        events_of(trace, ids.drop_last()) + events_of_task(
            ids.last(),
            trace[ids.last()],
            ids.len() as u64,
        )
    }
}

/// The events of a trace: those of its tasks, task by task in the order of
/// their identifiers.
pub open spec fn chrome_events(trace: Map<u64, TaskTraceView>) -> Seq<ChromeTraceEventView> {
    events_of(trace, ordered(trace.dom()))
}

impl Trace {
    /// The events of the trace: for each task, in the order of the
    /// identifiers, a beginning event and, where the task has finished, an
    /// end event. The events of a task carry its place in the trace as
    /// `tid`.
    pub fn to_chrome_trace(&self) -> (events: Vec<ChromeTraceEvent>)
        requires
            self.tasks@.len() < u64::MAX,
        ensures
            event_views(events@) == chrome_events(trace_views(self.tasks@)),
    {
        let ghost views = trace_views(self.tasks@);
        let ids = key_listing(&self.tasks);
        proof {
            lemma_keys_listed(&self.tasks);
            lemma_lists_len(ids@, self.tasks@.dom());
            assert(views.dom() =~= self.tasks@.dom());
        }
        let mut vec: Vec<ChromeTraceEvent> = Vec::new();
        let mut tid: u64 = 0;
        let mut i: usize = 0;
        assert(ids@.take(0) =~= Seq::<u64>::empty());
        assert(event_views(vec@) =~= Seq::<ChromeTraceEventView>::empty());
        while i < ids.len()
            invariant
                i <= ids.len(),
                ids.len() < u64::MAX,
                tid == i,
                views == trace_views(self.tasks@),
                forall|k: int| 0 <= k < ids.len() ==> self.tasks@.contains_key(#[trigger] ids@[k]),
                event_views(vec@) == events_of(views, ids@.take(i as int)),
            decreases ids.len() - i,
        {
            let id = ids[i];
            let task = self.tasks.get(&id).unwrap();
            tid += 1;
            let mut label = task.name.clone();
            push_char(&mut label, '-');
            push_decimal(&mut label, id);
            assert(label@ =~= event_name(id, task@));
            let ghost before = event_views(vec@);
            let beginning_event = ChromeTraceEvent {
                name: label.clone(),
                ph: Phase::Begin,
                pid: 1,
                ts: task.start.unix_millis / 1000,
                tid,
                args: task.data.clone_data(),
            };
            vec.push(beginning_event);
            if let Some(finished_at) = task.finished_at {
                let end_event = ChromeTraceEvent {
                    name: label,
                    ph: Phase::End,
                    pid: 1,
                    ts: finished_at.unix_millis / 1000,
                    tid,
                    args: task.data.clone_data(),
                };
                vec.push(end_event);
            }
            i += 1;
            proof {
                assert(ids@.take(i as int).drop_last() =~= ids@.take(i - 1));
                assert(ids@.take(i as int).last() == id);
                assert(views[id] == task@);
                assert(event_views(vec@) =~= before + events_of_task(id, task@, tid));
            }
        }
        assert(ids@.take(i as int) =~= ids@);
        vec
    }
}

} // verus!
