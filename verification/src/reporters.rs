//! Consumers of task events: text lines, traces, and the live status of the
//! terminal.

pub mod colors;
pub mod layout;
pub mod level;
pub mod term_status;
pub mod text;
pub mod trace;
pub mod utils;

pub use level::Level;
pub use term_status::TermStatus;
pub use text::StdioReporter;
pub use text::StringReporter;

use crate::task_internal::{TaskInternal, TaskView};
use crate::tree_view::task_views;
use vstd::prelude::*;

verus! {

/// The tag that keeps a task, or an entry of its data, out of the text.
pub const DONTPRINT_TAG: &'static str = "dontprint";

/// What an event tells of a task.
#[derive(Clone, Copy, PartialEq, Eq, Debug, Structural)]
pub enum EventKind {
    Start,
    End,
    Progress,
}

/// An event as a reporter receives it: what it tells, and the record of the
/// task as it stood when the event was taken from the queue.
pub struct Delivery {
    pub kind: EventKind,
    pub task: TaskView,
}

/// A consumer of the events of tasks.
///
/// A reporter may keep account of the events that it receives. Of one that
/// does, each method adds the event that it is handed to the account, and
/// nothing else.
pub trait Reporter: Send + Sync {
    /// Whether the reporter keeps account of the events that it receives.
    open spec fn keeps_account(&self) -> bool {
        false
    }

    /// The events that the reporter has received, in order, where it keeps
    /// account of them.
    open spec fn received(&self) -> Seq<Delivery> {
        Seq::empty()
    }

    /// Receives the start of a task.
    fn task_start(&mut self, task: &TaskInternal)
        requires
            task.wf(),
        ensures
            final(self).keeps_account() == old(self).keeps_account(),
            old(self).keeps_account() ==> final(self).received() == old(self).received().push(
                (Delivery { kind: EventKind::Start, task: task@ }),
            ),
    ;

    /// Receives the end of a task.
    fn task_end(&mut self, task: &TaskInternal)
        requires
            task.wf(),
        ensures
            final(self).keeps_account() == old(self).keeps_account(),
            old(self).keeps_account() ==> final(self).received() == old(self).received().push(
                (Delivery { kind: EventKind::End, task: task@ }),
            ),
    ;

    /// Receives the progress of a task.
    fn task_progress(&mut self, task: &TaskInternal)
        requires
            task.wf(),
        ensures
            final(self).keeps_account() == old(self).keeps_account(),
            old(self).keeps_account() ==> final(self).received() == old(self).received().push(
                (Delivery { kind: EventKind::Progress, task: task@ }),
            ),
    ;
}

/// The events of one kind that tell of the given tasks, in order.
pub open spec fn deliveries(kind: EventKind, tasks: Seq<TaskView>) -> Seq<Delivery> {
    tasks.map_values(|t: TaskView| Delivery { kind, task: t })
}

/// Hands a batch of events to a reporter: the starts, then the ends, each
/// in the order in which they were queued.
pub fn deliver_to<R: Reporter + ?Sized>(
    reporter: &mut R,
    start_tasks: &Vec<TaskInternal>,
    end_tasks: &Vec<TaskInternal>,
)
    requires
        forall|i: int| 0 <= i < start_tasks.len() ==> (#[trigger] start_tasks[i]).wf(),
        forall|i: int| 0 <= i < end_tasks.len() ==> (#[trigger] end_tasks[i]).wf(),
    ensures
        final(reporter).keeps_account() == old(reporter).keeps_account(),
        old(reporter).keeps_account() ==> final(reporter).received() == old(reporter).received()
            + deliveries(EventKind::Start, task_views(start_tasks@)) + deliveries(
            EventKind::End,
            task_views(end_tasks@),
        ),
{
    let ghost before = reporter.received();
    let ghost account = reporter.keeps_account();
    let ghost starts = deliveries(EventKind::Start, task_views(start_tasks@));
    let ghost ends = deliveries(EventKind::End, task_views(end_tasks@));
    let mut i: usize = 0;
    assert(before =~= before + starts.take(0));
    while i < start_tasks.len()
        invariant
            i <= start_tasks.len(),
            starts == deliveries(EventKind::Start, task_views(start_tasks@)),
            forall|k: int| 0 <= k < start_tasks.len() ==> (#[trigger] start_tasks[k]).wf(),
            reporter.keeps_account() == account,
            account ==> reporter.received() == before + starts.take(i as int),
        decreases start_tasks.len() - i,
    {
        reporter.task_start(&start_tasks[i]);
        i += 1;
        assert(account ==> reporter.received() =~= before + starts.take(i as int)) by {
            assert(starts.take(i as int) =~= starts.take(i - 1).push(starts[i - 1]));
        }
    }
    assert(starts.take(i as int) =~= starts);
    let mut j: usize = 0;
    assert(before + starts =~= before + starts + ends.take(0));
    while j < end_tasks.len()
        invariant
            j <= end_tasks.len(),
            ends == deliveries(EventKind::End, task_views(end_tasks@)),
            forall|k: int| 0 <= k < end_tasks.len() ==> (#[trigger] end_tasks[k]).wf(),
            reporter.keeps_account() == account,
            account ==> reporter.received() == before + starts + ends.take(j as int),
        decreases end_tasks.len() - j,
    {
        reporter.task_end(&end_tasks[j]);
        j += 1;
        assert(account ==> reporter.received() =~= before + starts + ends.take(j as int)) by {
            assert(ends.take(j as int) =~= ends.take(j - 1).push(ends[j - 1]));
        }
    }
    assert(ends.take(j as int) =~= ends);
}

/// Hands a batch of events to every reporter: to each the starts, then the
/// ends, each in the order in which they were queued.
pub fn deliver(
    reporters: &mut Vec<Box<dyn Reporter>>,
    start_tasks: &Vec<TaskInternal>,
    end_tasks: &Vec<TaskInternal>,
)
    requires
        forall|i: int| 0 <= i < start_tasks.len() ==> (#[trigger] start_tasks[i]).wf(),
        forall|i: int| 0 <= i < end_tasks.len() ==> (#[trigger] end_tasks[i]).wf(),
    ensures
        final(reporters).len() == old(reporters).len(),
        forall|r: int|
            0 <= r < old(reporters).len() ==> (#[trigger] final(reporters)[r]).keeps_account()
                == old(reporters)[r].keeps_account() && (old(reporters)[r].keeps_account()
                ==> final(reporters)[r].received() == old(reporters)[r].received() + deliveries(
                EventKind::Start,
                task_views(start_tasks@),
            ) + deliveries(EventKind::End, task_views(end_tasks@))),
{
    let mut r: usize = 0;
    while r < reporters.len()
        invariant
            r <= reporters.len(),
            reporters.len() == old(reporters).len(),
            forall|i: int| 0 <= i < start_tasks.len() ==> (#[trigger] start_tasks[i]).wf(),
            forall|i: int| 0 <= i < end_tasks.len() ==> (#[trigger] end_tasks[i]).wf(),
            forall|k: int|
                0 <= k < r ==> (#[trigger] reporters[k]).keeps_account() == old(reporters)[k].keeps_account() && (old(reporters)[k].keeps_account()
                    ==> reporters[k].received() == old(reporters)[k].received() + deliveries(
                    EventKind::Start,
                    task_views(start_tasks@),
                ) + deliveries(EventKind::End, task_views(end_tasks@))),
            forall|k: int| r <= k < reporters.len() ==> (#[trigger] reporters[k]) == old(reporters)[k],
        decreases reporters.len() - r,
    {
        deliver_to(&mut *reporters[r], start_tasks, end_tasks);
        r += 1;
    }
}

/// The reporters of a tree, in the order in which they were added.
pub struct Reporters {
    pub list: Vec<Box<dyn Reporter>>,
}

impl Reporters {
    /// No reporter.
    pub fn new() -> (r: Reporters)
        ensures
            r.list@.len() == 0,
    {
        Reporters { list: Vec::new() }
    }

    /// Adds a reporter, after those that are there.
    pub fn add_reporter(&mut self, reporter: Box<dyn Reporter>)
        ensures
            final(self).list@ == old(self).list@.push(reporter),
    {
        self.list.push(reporter);
    }

    /// Hands a batch of events to every reporter: see [`deliver`].
    pub fn report(&mut self, start_tasks: &Vec<TaskInternal>, end_tasks: &Vec<TaskInternal>)
        requires
            forall|i: int| 0 <= i < start_tasks.len() ==> (#[trigger] start_tasks[i]).wf(),
            forall|i: int| 0 <= i < end_tasks.len() ==> (#[trigger] end_tasks[i]).wf(),
        ensures
            final(self).list.len() == old(self).list.len(),
            forall|r: int|
                0 <= r < old(self).list.len() ==> (#[trigger] final(self).list[r]).keeps_account()
                    == old(self).list[r].keeps_account() && (old(self).list[r].keeps_account()
                    ==> final(self).list[r].received() == old(self).list[r].received()
                    + deliveries(EventKind::Start, task_views(start_tasks@)) + deliveries(
                    EventKind::End,
                    task_views(end_tasks@),
                )),
    {
        deliver(&mut self.list, start_tasks, end_tasks);
    }
}

} // verus!
