//! Handles of tasks: what the code that does the work of a task holds.

use crate::data::{DataEntryView, DataValue};
use crate::marking::done;
use crate::task_internal::{opt_text, TaskInternal, TaskView};
use crate::task_tree::{Spawned, TaskTree};
use crate::time::Timestamp;
use crate::tree_view::{created, is_flush_of, maybe_flushed, updated};
use crate::uniq_id::UniqID;
use crate::utils::{clean_name, tags_of};
use vstd::prelude::*;

verus! {

/// Whether a task ends when its handle is let go.
pub type MarkDoneOnDrop = bool;

/// The handle of a task: the identifier of the task, and whether the task
/// ends when the handle is let go. The handle of a task whose work is
/// wrapped does not end it: the wrapper does, with the result of the work.
#[derive(Debug)]
pub struct Task {
    id: UniqID,
    mark_done_on_drop: MarkDoneOnDrop,
}

impl Task {
    /// The identifier of the task.
    pub closed spec fn id(&self) -> UniqID {
        self.id
    }

    /// Whether the task ends when the handle is let go.
    pub closed spec fn ends_on_drop(&self) -> bool {
        self.mark_done_on_drop
    }

    /// The identifier of the task.
    pub fn uniq_id(&self) -> (id: UniqID)
        ensures
            id == self.id(),
    {
        self.id
    }

    /// Whether the task ends when the handle is let go.
    pub fn mark_done_on_drop(&self) -> (b: bool)
        ensures
            b == self.ends_on_drop(),
    {
        self.mark_done_on_drop
    }

    /// Creates a root task at `now`. The task ends when the handle is let
    /// go.
    pub fn create_new(tree: &mut TaskTree, name: &str, now: Timestamp) -> (task: Task)
        requires
            old(tree).wf(),
            old(tree)@.next_id < u64::MAX,
        ensures
            final(tree).wf(),
            final(tree).force_flush() == old(tree).force_flush(),
            final(tree).error_formatter() == old(tree).error_formatter(),
            task.id().0 == old(tree)@.next_id,
            task.ends_on_drop(),
            final(tree)@ == created(old(tree)@, name@, None, now),
    {
        let id = tree.create_task_internal(name, None, now);
        Task { id, mark_done_on_drop: true }
    }

    /// Creates a task under the task of the handle at `now`. The new task ends when its
    /// handle is let go.
    pub fn create(&self, tree: &mut TaskTree, name: &str, now: Timestamp) -> (task: Task)
        requires
            old(tree).wf(),
            old(tree)@.next_id < u64::MAX,
        ensures
            final(tree).wf(),
            final(tree).force_flush() == old(tree).force_flush(),
            final(tree).error_formatter() == old(tree).error_formatter(),
            task.id().0 == old(tree)@.next_id,
            task.ends_on_drop(),
            final(tree)@ == created(old(tree)@, name@, Some(self.id().0), now),
    {
        let id = tree.create_task_internal(name, Some(self.id), now);
        Task { id, mark_done_on_drop: true }
    }

    /// Begins wrapped work under the task at `now`: creates the task of the
    /// work, whose handle does not end it, and hands back the queued events
    /// where synchronous delivery is on. The work in flight ends the task:
    /// see [`Spawned`].
    pub fn pre_spawn(&self, tree: &mut TaskTree, name: &str, now: Timestamp) -> (r: (
        Task,
        Spawned,
        Option<(Vec<TaskInternal>, Vec<TaskInternal>)>,
    ))
        requires
            old(tree).wf(),
            old(tree)@.next_id < u64::MAX,
        ensures
            final(tree).wf(),
            final(tree).force_flush() == old(tree).force_flush(),
            final(tree).error_formatter() == old(tree).error_formatter(),
            r.0.id().0 == old(tree)@.next_id,
            r.1.id() == r.0.id(),
            !r.0.ends_on_drop(),
            final(tree)@ == maybe_flushed(
                created(old(tree)@, name@, Some(self.id().0), now),
                old(tree).force_flush(),
            ),
            is_flush_of(
                created(old(tree)@, name@, Some(self.id().0), now),
                old(tree).force_flush(),
                r.2,
            ),
    {
        let (spawned, batch) = tree.pre_spawn(name, Some(self.id), now);
        (Task::of_spawned(&spawned), spawned, batch)
    }

    /// The handle of the task of wrapped work in flight. It does not end the
    /// task: the work does.
    pub fn of_spawned(spawned: &Spawned) -> (task: Task)
        ensures
            task.id() == spawned.id(),
            !task.ends_on_drop(),
    {
        Task { id: spawned.uniq_id(), mark_done_on_drop: false }
    }

    /// Attaches a value to the task.
    pub fn data(&self, tree: &mut TaskTree, name: &str, data: DataValue)
        requires
            old(tree).wf(),
        ensures
            final(tree).wf(),
            final(tree).force_flush() == old(tree).force_flush(),
            final(tree).error_formatter() == old(tree).error_formatter(),
            final(tree)@ == updated(
                old(tree)@,
                self.id().0,
                |t: TaskView|
                    TaskView {
                        data: t.data.insert(
                            clean_name(name@),
                            (DataEntryView { value: data@, tags: tags_of(name@) }),
                        ),
                        ..t
                    },
            ),
    {
        tree.add_data(self.id, name, data);
    }

    /// Attaches a value to the task and to every task created under it from
    /// now on.
    pub fn data_transitive(&self, tree: &mut TaskTree, name: &str, data: DataValue)
        requires
            old(tree).wf(),
        ensures
            final(tree).wf(),
            final(tree).force_flush() == old(tree).force_flush(),
            final(tree).error_formatter() == old(tree).error_formatter(),
            final(tree)@ == updated(
                old(tree)@,
                self.id().0,
                |t: TaskView|
                    TaskView {
                        data_transitive: t.data_transitive.insert(
                            clean_name(name@),
                            (DataEntryView { value: data@, tags: tags_of(name@) }),
                        ),
                        ..t
                    },
            ),
    {
        tree.add_data_transitive_for_task(self.id, name, data);
    }

    /// Records how far the task has come: `done` items of `total`.
    pub fn progress(&self, tree: &mut TaskTree, done: i64, total: i64)
        requires
            old(tree).wf(),
        ensures
            final(tree).wf(),
            final(tree).force_flush() == old(tree).force_flush(),
            final(tree).error_formatter() == old(tree).error_formatter(),
            final(tree)@ == updated(
                old(tree)@,
                self.id().0,
                |t: TaskView| TaskView { progress: Some((done, total)), ..t },
            ),
    {
        tree.task_progress(self.id, done, total);
    }

    /// Sets the message that reporters show in place of the errors of the
    /// task, or takes it away.
    pub fn hide_error_msg(&self, tree: &mut TaskTree, msg: Option<String>)
        requires
            old(tree).wf(),
        ensures
            final(tree).wf(),
            final(tree).force_flush() == old(tree).force_flush(),
            final(tree).error_formatter() == old(tree).error_formatter(),
            final(tree)@ == updated(
                old(tree)@,
                self.id().0,
                |t: TaskView| TaskView { hide_errors: opt_text(msg), ..t },
            ),
    {
        tree.hide_error_msg_for_task(self.id, msg);
    }

    /// Says whether the errors of the task carry its transitive data.
    pub fn attach_transitive_data_to_errors(&self, tree: &mut TaskTree, val: bool)
        requires
            old(tree).wf(),
        ensures
            final(tree).wf(),
            final(tree).force_flush() == old(tree).force_flush(),
            final(tree).error_formatter() == old(tree).error_formatter(),
            final(tree)@ == updated(
                old(tree)@,
                self.id().0,
                |t: TaskView| TaskView { attach_transitive_data_to_errors: val, ..t },
            ),
    {
        tree.attach_transitive_data_to_errors_for_task(self.id, val);
    }

    /// Lets the handle go at `now`: the task ends with success where the
    /// handle ends its task, and nothing changes where it does not.
    pub fn release(self, tree: &mut TaskTree, now: Timestamp)
        requires
            old(tree).wf(),
        ensures
            final(tree).wf(),
            final(tree).force_flush() == old(tree).force_flush(),
            final(tree).error_formatter() == old(tree).error_formatter(),
            final(tree)@ == if self.ends_on_drop() {
                done(old(tree)@, self.id().0, None, now)
            } else {
                old(tree)@
            },
    {
        if self.mark_done_on_drop {
            tree.mark_done(self.id, None, now);
        }
    }
}

} // verus!
