//! The task tree: the forest of running and finished tasks, the queues of
//! events that wait for delivery, and the marks of the garbage collector.

use crate::data::{Data, DataEntryView, DataValue};
use crate::errors::{ErrorFormatter, is_failure_text, wrap_failure};
use crate::ids::{increasing, kept, lemma_kept_all};
use crate::ordered::{
    has_none, key_listing, lemma_keys_listed, lemma_ordered_empty, lemma_ordered_insert,
    lemma_ordered_remove, lemma_set_listed, listing, ordered,
};
use crate::marking::{
    done, is_held, lemma_done_invariant, lemma_marked_with_step, lemma_marked_with_subtree,
    lemma_unknown_marks_nothing, marked_for_gc, marked_upward, marked_with, subtree_finished,
};
use crate::sweep::{
    can_go, collectible_set, gone_after, lemma_sweep_step, lemma_without_invariant,
    lemma_without_one_more, removable, swept, without,
};
use crate::task_internal::{
    clone_strings, error_context_of, is_finished, opt_text, TaskInternal, TaskStatus, TaskView,
};
use crate::time::Timestamp;
use crate::trace::{TaskTrace, Trace, trace_views};
use crate::tree_view::{
    created, empty_tree, finished_at, flushed, in_subtree, is_flush_of, is_trace_of, kids,
    known_parent, lemma_child_facts, lemma_created_invariant, lemma_with_task_invariant,
    maybe_flushed, new_task, snapshots, task_views, trace_of_task, tree_invariant, TreeView,
    updated, with_task,
};
use crate::types::texts;
use crate::uniq_id::{UniqID, UniqIDs};
use crate::walk::{
    gathered, gathered_part, lemma_gathered, lemma_walk_begins, lemma_walk_ends, lemma_walk_goes_on,
};
use crate::utils::{clean_name, extract_tags, tags_of};
use std::collections::BTreeMap;
use std::collections::BTreeSet;
use std::collections::HashMap;
use std::sync::Arc;
use vstd::prelude::*;

verus! {

/// How often, in milliseconds, a worker hands the queued events to the
/// reporters.
pub const REPORT_EVERY_MS: u64 = 10;

/// How often, in milliseconds, a worker sweeps the tree.
pub const SWEEP_EVERY_MS: u64 = 500;

/// The state of a tree.
pub struct TaskTreeInternal {
    tasks_internal: BTreeMap<u64, TaskInternal>,
    parent_to_children: BTreeMap<u64, BTreeSet<u64>>,
    child_to_parent: BTreeMap<u64, u64>,
    root_tasks: BTreeSet<u64>,
    tasks_marked_for_deletion: HashMap<u64, Timestamp>,
    report_start: Vec<u64>,
    report_end: Vec<u64>,
    data_transitive: Data,
    remove_task_after_done_ms: u64,
    hide_errors_default_msg: Option<String>,
    attach_transitive_data_to_errors_default: bool,
    ids: UniqIDs,
}

impl View for TaskTreeInternal {
    type V = TreeView;

    closed spec fn view(&self) -> TreeView {
        TreeView {
            tasks: self.tasks_internal@.map_values(|t: TaskInternal| t@),
            children: self.parent_to_children@.map_values(|s: BTreeSet<u64>| ordered(s@)),
            parent: self.child_to_parent@,
            roots: ordered(self.root_tasks@),
            pending_start: self.report_start@,
            pending_end: self.report_end@,
            marked: self.tasks_marked_for_deletion@,
            data_transitive: self.data_transitive@,
            remove_task_after_done_ms: self.remove_task_after_done_ms,
            hide_errors_default_msg: opt_text(self.hide_errors_default_msg),
            attach_transitive_data_to_errors_default: self.attach_transitive_data_to_errors_default,
            next_id: self.ids.following(),
        }
    }
}

impl TaskTreeInternal {
    /// The state is well formed: the invariant of the tree holds of it, and
    /// every record in it is well formed.
    pub closed spec fn wf(&self) -> bool {
        &&& tree_invariant(self@)
        &&& forall|id: u64| #[trigger]
            self.tasks_internal@.contains_key(id) ==> self.tasks_internal@[id].wf()
        &&& self.data_transitive.wf()
    }

    /// The invariant holds of every well-formed tree.
    pub proof fn lemma_invariant(&self)
        requires
            self.wf(),
        ensures
            tree_invariant(self@),
    {
    }

    /// Putting a changed record back in place of a task's record keeps the
    /// state well formed.
    proof fn lemma_task_replaced(before: &TaskTreeInternal, after: &TaskTreeInternal, id: u64)
        requires
            before.wf(),
            before.tasks_internal@.contains_key(id),
            after.tasks_internal@ == before.tasks_internal@.insert(id, after.tasks_internal@[id]),
            after.tasks_internal@[id].wf(),
            after.tasks_internal@[id]@.id == id,
            before@.marked.contains_key(id) ==> is_finished(after.tasks_internal@[id]@.status),
            after.parent_to_children == before.parent_to_children,
            after.child_to_parent == before.child_to_parent,
            after.root_tasks == before.root_tasks,
            after.tasks_marked_for_deletion == before.tasks_marked_for_deletion,
            after.report_start == before.report_start,
            after.report_end == before.report_end,
            after.data_transitive == before.data_transitive,
            after.remove_task_after_done_ms == before.remove_task_after_done_ms,
            after.hide_errors_default_msg == before.hide_errors_default_msg,
            after.attach_transitive_data_to_errors_default
                == before.attach_transitive_data_to_errors_default,
            after.ids == before.ids,
        ensures
            after.wf(),
            after@ == with_task(before@, id, after.tasks_internal@[id]@),
    {
        let t = after.tasks_internal@[id]@;
        assert(after@.tasks =~= before@.tasks.insert(id, t));
        assert(after@ == with_task(before@, id, t));
        lemma_with_task_invariant(before@, id, t);
        assert forall|x: u64| #[trigger]
            after.tasks_internal@.contains_key(x) implies after.tasks_internal@[x].wf() by {
            if x != id {
                assert(before.tasks_internal@.contains_key(x));
            }
        }
    }

    /// Whether the task or one of its ancestors holds its subtree.
    fn held(&self, id: u64) -> (b: bool)
        requires
            self.wf(),
        ensures
            b == is_held(self@, id),
    {
        let mut cur: u64 = id;
        loop
            invariant
                self.wf(),
                is_held(self@, id) == is_held(self@, cur),
            decreases cur,
        {
            match self.tasks_internal.get(&cur) {
                Some(task) => {
                    if task.keep_subtree_until_finished && !task.status.finished() {
                        return true;
                    }
                },
                None => {},
            }
            match self.child_to_parent.get(&cur) {
                Some(p) => {
                    cur = *p;
                },
                None => {
                    return false;
                },
            }
        }
    }

    /// Adds the tasks of the subtree of `id` to `out`.
    fn collect_subtree(&self, id: u64, out: &mut Vec<u64>)
        requires
            self.wf(),
            self@.tasks.contains_key(id),
        ensures
            gathered(self@, old(out)@, final(out)@, id),
        decreases u64::MAX - id,
    {
        let ghost v = self@;
        let ghost before = out@;
        out.push(id);
        match self.parent_to_children.get(&id) {
            Some(set) => {
                let children = listing(set);
                assert(v.children.contains_key(id) && v.children[id] == children@);
                proof {
                    lemma_walk_begins(v, before, id, children@);
                }
                let mut k: usize = 0;
                while k < children.len()
                    invariant
                        k <= children.len(),
                        self.wf(),
                        v == self@,
                        children@ == kids(v, id),
                        v.children.contains_key(id),
                        gathered_part(v, before, out@, id, children@, k as int),
                    decreases children.len() - k,
                {
                    let c = children[k];
                    let ghost mid = out@;
                    proof {
                        assert(v.children[id].contains(c));
                        lemma_child_facts(v, id, c);
                    }
                    self.collect_subtree(c, out);
                    proof {
                        lemma_walk_goes_on(v, before, mid, out@, id, children@, k as int);
                    }
                    k += 1;
                }
            },
            None => {
                assert(!v.children.contains_key(id));
                proof {
                    lemma_walk_begins(v, before, id, kids(v, id));
                }
            },
        }
        proof {
            lemma_walk_ends(v, before, out@, id);
        }
    }

    proof fn lemma_marks_changed(before: &TaskTreeInternal, after: &TaskTreeInternal)
        requires
            before.wf(),
            *after == (TaskTreeInternal {
                tasks_marked_for_deletion: after.tasks_marked_for_deletion,
                ..*before
            }),
            forall|d: u64| #[trigger]
                after.tasks_marked_for_deletion@.contains_key(d) ==> before@.tasks.contains_key(d)
                    && is_finished(before@.tasks[d].status),
        ensures
            after.wf(),
            after@ == (TreeView { marked: after.tasks_marked_for_deletion@, ..before@ }),
    {
        assert(after@ == (TreeView { marked: after.tasks_marked_for_deletion@, ..before@ }));
    }

    /// Marks the tasks `ids`, which have finished, at `now`: each gets the
    /// mark where it has none.
    fn mark_all(&mut self, ids: &Vec<u64>, now: Timestamp)
        requires
            old(self).wf(),
            forall|k: int|
                0 <= k < ids.len() ==> old(self)@.tasks.contains_key(#[trigger] ids@[k])
                    && is_finished(old(self)@.tasks[ids@[k]].status),
        ensures
            final(self).wf(),
            final(self)@ == (TreeView {
                marked: marked_with(old(self)@.marked, ids@, now),
                ..old(self)@
            }),
    {
        let ghost before = *self;
        let ghost marked = self.tasks_marked_for_deletion@;
        let mut i: usize = 0;
        proof {
            assert(ids@.take(0) =~= Seq::<u64>::empty());
            assert(marked_with(marked, ids@.take(0), now) =~= marked);
        }
        while i < ids.len()
            invariant
                i <= ids.len(),
                *self == (TaskTreeInternal {
                    tasks_marked_for_deletion: self.tasks_marked_for_deletion,
                    ..before
                }),
                self.tasks_marked_for_deletion@ == marked_with(marked, ids@.take(i as int), now),
            decreases ids.len() - i,
        {
            let d = ids[i];
            proof {
                lemma_marked_with_step(marked, ids@, i as int, now);
            }
            if !self.tasks_marked_for_deletion.contains_key(&d) {
                self.tasks_marked_for_deletion.insert(d, now);
            }
            i += 1;
        }
        proof {
            assert(ids@.take(i as int) =~= ids@);
            assert forall|d: u64| #[trigger]
                self.tasks_marked_for_deletion@.contains_key(d) implies before@.tasks.contains_key(
                d,
            ) && is_finished(before@.tasks[d].status) by {
                if !marked.contains_key(d) {
                    let k = choose|k: int| 0 <= k < ids@.len() && ids@[k] == d;
                    assert(before@.tasks.contains_key(ids@[k]));
                }
            }
            TaskTreeInternal::lemma_marks_changed(&before, &*self);
        }
    }

    /// Marks the subtree of `id` where all of it has finished, and goes on
    /// at the parent.
    fn mark_upward(&mut self, id: u64, now: Timestamp)
        requires
            old(self).wf(),
            old(self)@.tasks.contains_key(id),
        ensures
            final(self).wf(),
            final(self)@ == (TreeView { marked: marked_upward(old(self)@, id, now), ..old(self)@ }),
        decreases id,
    {
        let ghost v = self@;
        let mut ids: Vec<u64> = Vec::new();
        self.collect_subtree(id, &mut ids);
        assert forall|d: u64| ids@.contains(d) <==> (v.tasks.contains_key(d) && in_subtree(
            v.parent,
            id,
            d,
        )) by {
            lemma_gathered(v, Seq::<u64>::empty(), ids@, id);
            assert(!Seq::<u64>::empty().contains(d));
        }
        let mut all_finished = true;
        let mut i: usize = 0;
        while i < ids.len()
            invariant
                i <= ids.len(),
                self.wf(),
                v == self@,
                forall|d: u64|
                    ids@.contains(d) <==> (v.tasks.contains_key(d) && in_subtree(v.parent, id, d)),
                all_finished == (forall|j: int|
                    0 <= j < i ==> is_finished(v.tasks[#[trigger] ids@[j]].status)),
            decreases ids.len() - i,
        {
            assert(ids@.contains(ids@[i as int]));
            let task = self.tasks_internal.get(&ids[i]).unwrap();
            if !task.status.finished() {
                all_finished = false;
            }
            i += 1;
        }
        proof {
            if all_finished {
                assert forall|d: u64| #[trigger]
                    v.tasks.contains_key(d) && in_subtree(v.parent, id, d) implies is_finished(
                    v.tasks[d].status,
                ) by {
                    assert(ids@.contains(d));
                    let j = choose|j: int| 0 <= j < ids@.len() && ids@[j] == d;
                    assert(is_finished(v.tasks[ids@[j]].status));
                }
            } else {
                let j = choose|j: int| 0 <= j < i && !is_finished(v.tasks[#[trigger] ids@[j]].status);
                assert(ids@.contains(ids@[j]));
            }
            assert(all_finished == subtree_finished(v, id));
        }
        if all_finished {
            proof {
                assert forall|k: int| 0 <= k < ids.len() implies v.tasks.contains_key(
                    #[trigger] ids@[k],
                ) && is_finished(v.tasks[ids@[k]].status) by {
                    assert(ids@.contains(ids@[k]));
                }
                lemma_marked_with_subtree(v, id, ids@, now);
            }
            self.mark_all(&ids, now);
            let parent = match self.child_to_parent.get(&id) {
                Some(p) => Some(*p),
                None => None,
            };
            match parent {
                Some(p) => {
                    self.mark_upward(p, now);
                },
                None => {},
            }
        }
    }

    /// Offers the task `id` for removal at `now`.
    ///
    /// Nothing is marked while the task or one of its ancestors holds its
    /// subtree. Else the subtree is marked where all of it has finished, and
    /// after it, going up, every ancestor whose whole subtree has finished.
    /// A task that the tree does not know marks nothing.
    pub fn mark_for_gc(&mut self, id: u64, now: Timestamp)
        requires
            old(self).wf(),
        ensures
            final(self).wf(),
            final(self)@ == (TreeView { marked: marked_for_gc(old(self)@, id, now), ..old(self)@ }),
    {
        if !self.tasks_internal.contains_key(&id) {
            proof {
                lemma_unknown_marks_nothing(self@, id, now);
            }
            return ;
        }
        if self.held(id) {
            assert(self@.marked =~= marked_for_gc(self@, id, now));
            return ;
        }
        self.mark_upward(id, now);
    }

    /// Whether `d` is in the subtree of `root`.
    fn is_below(&self, root: u64, d: u64) -> (b: bool)
        requires
            self.wf(),
        ensures
            b == in_subtree(self@.parent, root, d),
    {
        let mut cur: u64 = d;
        loop
            invariant
                self.wf(),
                in_subtree(self@.parent, root, d) == in_subtree(self@.parent, root, cur),
            decreases cur,
        {
            if cur == root {
                return true;
            }
            match self.child_to_parent.get(&cur) {
                Some(p) => {
                    cur = *p;
                },
                None => {
                    return false;
                },
            }
        }
    }

    /// Copies of the records of those of the tasks `ids` that the tree still
    /// holds, in the order of `ids`.
    fn snapshot(&self, ids: &Vec<u64>) -> (tasks: Vec<TaskInternal>)
        requires
            self.wf(),
        ensures
            task_views(tasks@) == snapshots(self@, ids@),
            forall|i: int| 0 <= i < tasks.len() ==> (#[trigger] tasks[i]).wf(),
    {
        let mut tasks: Vec<TaskInternal> = Vec::new();
        let mut i: usize = 0;
        assert(ids@.take(0) =~= Seq::<u64>::empty());
        assert(task_views(tasks@) =~= snapshots(self@, ids@.take(0)));
        while i < ids.len()
            invariant
                i <= ids.len(),
                self.wf(),
                task_views(tasks@) == snapshots(self@, ids@.take(i as int)),
                forall|k: int| 0 <= k < tasks.len() ==> (#[trigger] tasks[k]).wf(),
            decreases ids.len() - i,
        {
            let ghost before = task_views(tasks@);
            proof {
                assert(ids@.take(i + 1).drop_last() =~= ids@.take(i as int));
                assert(ids@.take(i + 1).last() == ids@[i as int]);
            }
            match self.tasks_internal.get(&ids[i]) {
                Some(task_internal) => {
                    tasks.push(task_internal.clone_task());
                    assert(task_views(tasks@) =~= before.push(self@.tasks[ids@[i as int]]));
                },
                None => {},
            }
            i += 1;
        }
        assert(ids@.take(i as int) =~= ids@);
        tasks
    }

    /// Takes the queued events out of the tree: the records of the tasks
    /// whose start waits for delivery and of those whose end does, each list
    /// in the order in which the events were queued. The events of tasks
    /// that are gone from the tree are dropped.
    pub fn take_pending(&mut self) -> (batch: (Vec<TaskInternal>, Vec<TaskInternal>))
        requires
            old(self).wf(),
        ensures
            final(self).wf(),
            final(self)@ == (TreeView {
                pending_start: Seq::<u64>::empty(),
                pending_end: Seq::<u64>::empty(),
                ..old(self)@
            }),
            task_views(batch.0@) == snapshots(old(self)@, old(self)@.pending_start),
            task_views(batch.1@) == snapshots(old(self)@, old(self)@.pending_end),
            forall|i: int| 0 <= i < batch.0.len() ==> (#[trigger] batch.0[i]).wf(),
            forall|i: int| 0 <= i < batch.1.len() ==> (#[trigger] batch.1[i]).wf(),
    {
        let start_tasks = self.snapshot(&self.report_start);
        let end_tasks = self.snapshot(&self.report_end);
        self.report_start = Vec::new();
        self.report_end = Vec::new();
        (start_tasks, end_tasks)
    }

    /// What a trace says of the task `d`.
    fn trace_task(&self, d: u64) -> (t: TaskTrace)
        requires
            self.wf(),
            self@.tasks.contains_key(d),
        ensures
            t@ == trace_of_task(self@, d),
            t.data.wf(),
    {
        let children = match self.parent_to_children.get(&d) {
            Some(c) => c.clone(),
            None => BTreeSet::new(),
        };
        proof {
            lemma_ordered_empty();
        }
        let task = self.tasks_internal.get(&d).unwrap();
        let mut data = task.data.clone_data();
        data.merge(&task.data_transitive);
        TaskTrace {
            name: task.full_name(),
            start: task.started_at,
            finished_at: match &task.status {
                TaskStatus::Finished(_, at) => Some(*at),
                TaskStatus::Running => None,
            },
            data,
            children,
        }
    }

    /// The trace of the subtree of `id`: see [`is_trace_of`]. The trace of a
    /// task that the tree does not know is empty.
    pub fn dump_trace(&self, id: UniqID) -> (trace: Trace)
        requires
            self.wf(),
        ensures
            trace.root_id == id.0,
            is_trace_of(self@, id.0, trace_views(trace.tasks@)),
            forall|d: u64| #[trigger]
                trace.tasks@.contains_key(d) ==> trace.tasks@[d].data.wf(),
    {
        let ghost v = self@;
        let all = key_listing(&self.tasks_internal);
        let ghost ids = all@;
        proof {
            lemma_keys_listed(&self.tasks_internal);
        }
        let mut tasks: BTreeMap<u64, TaskTrace> = BTreeMap::new();
        let mut i: usize = 0;
        while i < all.len()
            invariant
                i <= all.len(),
                self.wf(),
                v == self@,
                ids == all@,
                forall|d: u64| ids.contains(d) ==> self.tasks_internal@.contains_key(d),
                forall|d: u64| #[trigger]
                    tasks@.contains_key(d) <==> ids.take(i as int).contains(d) && in_subtree(
                        v.parent,
                        id.0,
                        d,
                    ),
                forall|d: u64| #[trigger]
                    tasks@.contains_key(d) ==> tasks@[d]@ == trace_of_task(v, d)
                        && tasks@[d].data.wf(),
            decreases all.len() - i,
        {
            let d = all[i];
            assert(ids.contains(d));
            proof {
                assert forall|x: u64|
                    ids.take(i + 1).contains(x) <==> (ids.take(i as int).contains(x) || x == d) by {
                    let t0 = ids.take(i as int);
                    let t1 = ids.take(i + 1);
                    if t0.contains(x) {
                        let j = choose|j: int| 0 <= j < t0.len() && t0[j] == x;
                        assert(t1[j] == x);
                    }
                    if x == d {
                        assert(t1[i as int] == x);
                    }
                    if t1.contains(x) {
                        let j = choose|j: int| 0 <= j < t1.len() && t1[j] == x;
                        if j < i {
                            assert(t0[j] == x);
                        }
                    }
                }
            }
            if self.is_below(id.0, d) {
                let task_trace = self.trace_task(d);
                tasks.insert(d, task_trace);
            }
            i += 1;
        }
        let trace = Trace { root_id: id.0, tasks };
        proof {
            let views = trace_views(trace.tasks@);
            assert(ids.take(i as int) =~= ids);
            assert forall|d: u64| #[trigger]
                views.contains_key(d) <==> v.tasks.contains_key(d) && in_subtree(
                    v.parent,
                    id.0,
                    d,
                ) by {
                assert(views.contains_key(d) <==> trace.tasks@.contains_key(d));
                assert(ids.contains(d) <==> self.tasks_internal@.contains_key(d));
            }
            assert forall|d: u64| #[trigger] views.contains_key(d) implies views[d]
                == trace_of_task(v, d) by {
                assert(trace.tasks@.contains_key(d));
            }
        }
        trace
    }

    proof fn lemma_task_removed(before: &TaskTreeInternal, after: &TaskTreeInternal, id0: u64)
        requires
            before.wf(),
            kids(before@, id0).len() == 0,
            after.tasks_internal@ == before.tasks_internal@.remove(id0),
            after.child_to_parent@ == before.child_to_parent@.remove(id0),
            after.tasks_marked_for_deletion@ == before.tasks_marked_for_deletion@.remove(id0),
            after@.roots == kept(before@.roots, set![id0]),
            forall|q: u64|
                after@.children.contains_key(q) <==> (#[trigger] before@.children.contains_key(q)
                    && q != id0),
            forall|q: u64|
                before@.children.contains_key(q) && q != id0 ==> (#[trigger] after@.children[q])
                    == (if before@.parent.contains_key(id0) && before@.parent[id0] == q {
                    kept(before@.children[q], set![id0])
                } else {
                    before@.children[q]
                }),
            after.report_start == before.report_start,
            after.report_end == before.report_end,
            after.data_transitive == before.data_transitive,
            after.remove_task_after_done_ms == before.remove_task_after_done_ms,
            after.hide_errors_default_msg == before.hide_errors_default_msg,
            after.attach_transitive_data_to_errors_default
                == before.attach_transitive_data_to_errors_default,
            after.ids == before.ids,
        ensures
            after.wf(),
            after@ == without(before@, set![id0]),
    {
        let v = before@;
        let gone = set![id0];
        let w = without(v, gone);
        assert(after@.tasks =~= w.tasks);
        assert(after@.parent =~= w.parent);
        assert(after@.marked =~= w.marked);
        assert forall|q: u64| w.children.contains_key(q) implies after@.children.contains_key(q)
            && #[trigger] after@.children[q] == w.children[q] by {
            if !(v.parent.contains_key(id0) && v.parent[id0] == q) {
                assert forall|k: int| 0 <= k < v.children[q].len() implies !gone.contains(
                    #[trigger] v.children[q][k],
                ) by {
                    if v.children[q][k] == id0 {
                        assert(v.children[q].contains(id0));
                    }
                }
                lemma_kept_all(v.children[q], gone);
            }
        }
        assert(after@.children =~= w.children);
        assert(after@ == w);
        assert(can_go(v, gone)) by {
            assert forall|c: u64| #[trigger]
                v.parent.contains_key(c) && gone.contains(v.parent[c]) implies gone.contains(c) by {
                assert(v.children[v.parent[c]].contains(c));
            }
        }
        lemma_without_invariant(v, gone);
        assert forall|x: u64| #[trigger]
            after.tasks_internal@.contains_key(x) implies after.tasks_internal@[x].wf() by {
            assert(before.tasks_internal@.contains_key(x));
        }
    }

    /// Takes the task `id0` out of the tree: a task without children.
    fn remove_task(&mut self, id0: u64)
        requires
            old(self).wf(),
            kids(old(self)@, id0).len() == 0,
        ensures
            final(self).wf(),
            final(self)@ == without(old(self)@, set![id0]),
    {
        let ghost v = self@;
        let ghost before = *self;
        let ghost gone = set![id0];
        self.tasks_internal.remove(&id0);
        self.parent_to_children.remove(&id0);
        let ghost children1 = self.parent_to_children@;
        proof {
            lemma_set_listed(&self.root_tasks);
            lemma_ordered_remove(self.root_tasks@, id0);
        }
        self.root_tasks.remove(&id0);
        match self.child_to_parent.remove(&id0) {
            Some(p) => {
                assert(v.parent.contains_key(id0) && v.parent[id0] == p);
                assert(p != id0);
                match self.parent_to_children.remove(&p) {
                    Some(mut set) => {
                        assert(v.children.contains_key(p) && v.children[p] == ordered(set@));
                        proof {
                            lemma_set_listed(&set);
                            lemma_ordered_remove(set@, id0);
                        }
                        set.remove(&id0);
                        self.parent_to_children.insert(p, set);
                        assert(self.parent_to_children@ =~= children1.insert(p, set));
                    },
                    None => {
                        assert(self.parent_to_children@ =~= children1);
                    },
                }
            },
            None => {},
        }
        self.tasks_marked_for_deletion.remove(&id0);
        proof {
            TaskTreeInternal::lemma_task_removed(&before, &*self, id0);
        }
    }

    /// Sweeps the tree at `now`: removes every task whose whole subtree is
    /// removable, which is to say marked for longer than the grace period
    /// and not held. The queues stay as they are: an event that waits for
    /// delivery does not keep its task.
    pub fn garbage_collect(&mut self, now: Timestamp)
        requires
            old(self).wf(),
        ensures
            final(self).wf(),
            final(self)@ == swept(old(self)@, now),
    {
        let ghost v = self@;
        let all = key_listing(&self.tasks_internal);
        let ghost ids = all@;
        let mut i: usize = all.len();
        proof {
            lemma_keys_listed(&self.tasks_internal);
            assert(ids.take(i as int) =~= ids);
            assert(gone_after(v, ids, i as int, now) =~= Set::<u64>::empty());
            let w = without(v, Set::<u64>::empty());
            assert(w.tasks =~= v.tasks);
            assert(w.parent =~= v.parent);
            assert(w.marked =~= v.marked);
            lemma_kept_all(v.roots, Set::<u64>::empty());
            assert forall|p: u64| w.children.contains_key(p) implies #[trigger] w.children[p]
                == v.children[p] by {
                lemma_kept_all(v.children[p], Set::<u64>::empty());
            }
            assert(w.children =~= v.children);
            assert(w == v);
        }
        while i > 0
            invariant
                i <= all.len(),
                ids == all@,
                self.wf(),
                tree_invariant(v),
                increasing(ids),
                forall|id: u64| ids.contains(id) <==> #[trigger] v.tasks.contains_key(id),
                self@ == without(v, gone_after(v, ids, i as int, now)),
            decreases i,
        {
            let id0 = all[i - 1];
            proof {
                lemma_sweep_step(v, ids, i as int, now);
                lemma_without_one_more(v, gone_after(v, ids, i as int, now), id0);
            }
            let is_expired = match self.tasks_marked_for_deletion.get(&id0) {
                Some(marked_at) => match now.duration_since(*marked_at) {
                    Some(elapsed) => elapsed > self.remove_task_after_done_ms,
                    None => false,
                },
                None => false,
            };
            let childless = match self.parent_to_children.get(&id0) {
                Some(children) => has_none(children),
                None => true,
            };
            let held = self.held(id0);
            assert(childless == (kids(self@, id0).len() == 0));
            assert((is_expired && !held) == removable(self@, id0, now));
            if is_expired && !held && childless {
                self.remove_task(id0);
            }
            i -= 1;
        }
        proof {
            assert(ids.take(0) =~= Seq::<u64>::empty());
            assert(gone_after(v, ids, 0, now) =~= collectible_set(v, now));
        }
    }

    /// The record of the task `id` as the tree keeps it; of no meaning where
    /// the tree does not hold the task.
    pub closed spec fn record(&self, id: u64) -> TaskInternal {
        self.tasks_internal@[id]
    }

    /// The context that the error of the task `id` is wrapped in: see
    /// [`error_context_of`]; it is `[Task]` where the tree does not hold the
    /// task.
    pub open spec fn context_of(&self, id: u64) -> Seq<char> {
        if self@.tasks.contains_key(id) {
            error_context_of(&self.record(id))
        } else {
            "[Task]"@
        }
    }

    /// The context that the error of the task `id` is wrapped in.
    pub fn spawn_context(&self, id: UniqID) -> (s: String)
        requires
            self.wf(),
        ensures
            s@ == self.context_of(id.0),
    {
        match self.tasks_internal.get(&id.0) {
            Some(task_internal) => task_internal.error_context(),
            None => "[Task]".to_owned(),
        }
    }

    /// The record of a task.
    pub fn get_task(&self, id: UniqID) -> (t: Option<&TaskInternal>)
        requires
            self.wf(),
        ensures
            match t {
                Some(task) => self@.tasks.contains_key(id.0) && task@ == self@.tasks[id.0]
                    && task.wf() && *task == self.record(id.0),
                None => !self@.tasks.contains_key(id.0),
            },
    {
        self.tasks_internal.get(&id.0)
    }

    /// The tasks without a parent.
    pub fn root_tasks(&self) -> (r: &BTreeSet<u64>)
        ensures
            ordered(r@) == self@.roots,
    {
        &self.root_tasks
    }

    /// The parent of each task that has one.
    pub fn child_to_parent(&self) -> (r: &BTreeMap<u64, u64>)
        ensures
            r@ == self@.parent,
    {
        &self.child_to_parent
    }

    /// The children of each task that ever had one.
    pub fn parent_to_children(&self) -> (r: &BTreeMap<u64, BTreeSet<u64>>)
        ensures
            r@.map_values(|s: BTreeSet<u64>| ordered(s@)) == self@.children,
    {
        &self.parent_to_children
    }
}

/// Trusted: the clone of an optional `Arc` is another handle of the same
/// formatter, or none where there is none.
#[verifier::external_body]
fn share(formatter: &Option<Arc<dyn ErrorFormatter>>) -> (r: Option<Arc<dyn ErrorFormatter>>)
    ensures
        r == *formatter,
{
    formatter.clone()
}

/// A tree of tasks.
pub struct TaskTree {
    tree_internal: TaskTreeInternal,
    /// Whether every call that queues an event also hands the queued events
    /// to the reporters before it returns.
    force_flush: bool,
    error_formatter: Option<Arc<dyn ErrorFormatter>>,
}

impl View for TaskTree {
    type V = TreeView;

    closed spec fn view(&self) -> TreeView {
        self.tree_internal@
    }
}

/// The number of an optional identifier.
pub open spec fn id_number(id: Option<UniqID>) -> Option<u64> {
    match id {
        Some(i) => Some(i.0),
        None => None,
    }
}

impl TaskTree {
    /// The tree is well formed: see [`TaskTreeInternal::wf`].
    pub closed spec fn wf(&self) -> bool {
        self.tree_internal.wf()
    }

    /// Whether synchronous delivery is switched on.
    pub closed spec fn force_flush(&self) -> bool {
        self.force_flush
    }

    /// The formatter that turns the errors of tasks into text, where the
    /// tree has one.
    pub closed spec fn error_formatter(&self) -> Option<Arc<dyn ErrorFormatter>> {
        self.error_formatter
    }

    /// The formatter of the tree, borrowed.
    pub open spec fn formatter(&self) -> Option<&dyn ErrorFormatter> {
        match self.error_formatter() {
            Some(f) => Some(&*f),
            None => None,
        }
    }

    /// The formatter of the tree, shared: a caller that holds the tree
    /// behind a lock takes it and calls it when the lock is free again.
    pub fn shared_formatter(&self) -> (f: Option<Arc<dyn ErrorFormatter>>)
        ensures
            f == self.error_formatter(),
    {
        share(&self.error_formatter)
    }

    /// The formatter of the tree, borrowed.
    pub fn borrow_formatter(&self) -> (f: Option<&dyn ErrorFormatter>)
        ensures
            f == self.formatter(),
    {
        match &self.error_formatter {
            Some(f) => Some(&**f),
            None => None,
        }
    }

    /// The invariant holds of every well-formed tree.
    pub proof fn lemma_invariant(&self)
        requires
            self.wf(),
        ensures
            tree_invariant(self@),
    {
    }

    /// An empty tree: no task, no data, no grace period; errors carry the
    /// transitive data of their task.
    pub fn new() -> (t: TaskTree)
        ensures
            t.wf(),
            !t.force_flush(),
            t.error_formatter() is None,
            t@ == empty_tree(),
    {
        let t = TaskTree {
            tree_internal: TaskTreeInternal {
                tasks_internal: BTreeMap::new(),
                parent_to_children: BTreeMap::new(),
                child_to_parent: BTreeMap::new(),
                root_tasks: BTreeSet::new(),
                tasks_marked_for_deletion: HashMap::new(),
                report_start: Vec::new(),
                report_end: Vec::new(),
                data_transitive: Data::empty(),
                remove_task_after_done_ms: 0,
                hide_errors_default_msg: None,
                attach_transitive_data_to_errors_default: true,
                ids: UniqIDs::new(),
            },
            force_flush: false,
            error_formatter: None,
        };
        proof {
            lemma_ordered_empty();
            assert(t@.tasks =~= Map::<u64, TaskView>::empty());
            assert(t@.children =~= Map::<u64, Seq<u64>>::empty());
        }
        t
    }

    /// The state of the tree.
    pub closed spec fn state(&self) -> TaskTreeInternal {
        self.tree_internal
    }

    /// The context that the error of the task `id` is wrapped in: see
    /// [`TaskTreeInternal::context_of`].
    pub open spec fn context_of(&self, id: u64) -> Seq<char> {
        self.state().context_of(id)
    }

    /// The state of the tree.
    pub fn internal(&self) -> (r: &TaskTreeInternal)
        ensures
            *r == self.state(),
            r@ == self@,
            r.wf() == self.wf(),
    {
        &self.tree_internal
    }

    /// Switches synchronous delivery on or off.
    pub fn set_force_flush(&mut self, enabled: bool)
        ensures
            final(self).force_flush() == enabled,
            final(self).error_formatter() == old(self).error_formatter(),
            final(self)@ == old(self)@,
            final(self).wf() == old(self).wf(),
    {
        self.force_flush = enabled;
    }

    /// Whether synchronous delivery is switched on.
    pub fn force_flush_enabled(&self) -> (b: bool)
        ensures
            b == self.force_flush(),
    {
        self.force_flush
    }

    /// Whether the tree can still hand out an identifier.
    pub fn has_free_id(&self) -> (b: bool)
        ensures
            b == (self@.next_id < u64::MAX),
    {
        self.tree_internal.ids.has_next()
    }

    /// Creates a task at `now`, under `parent` where the tree knows that
    /// task and as a root where it does not, and queues its start.
    ///
    /// The task takes its ancestors' names from its parent and, as its
    /// transitive data, the data of the tree overlaid with that of its
    /// parent, as both stand at this moment.
    pub fn create_task_internal(&mut self, name: &str, parent: Option<UniqID>, now: Timestamp) -> (id:
        UniqID)
        requires
            old(self).wf(),
            old(self)@.next_id < u64::MAX,
        ensures
            final(self).wf(),
            final(self).force_flush() == old(self).force_flush(),
            final(self).error_formatter() == old(self).error_formatter(),
            id.0 == old(self)@.next_id,
            final(self)@ == created(old(self)@, name@, id_number(parent), now),
    {
        let ghost v = self@;
        let tree = &mut self.tree_internal;
        let id: u64 = tree.ids.next_id().0;
        let ghost raw = name@;
        let (name, tags) = extract_tags(name.to_owned());
        let mut parent_names: Vec<String> = Vec::new();
        let mut data_transitive = tree.data_transitive.clone_data();
        let mut known: Option<u64> = None;
        if let Some(pid) = parent {
            if let Some(parent_task) = tree.tasks_internal.get(&pid.0) {
                parent_names = clone_strings(&parent_task.parent_names);
                let ghost before = texts(parent_names@);
                parent_names.push(parent_task.name.clone());
                assert(texts(parent_names@) =~= before.push(parent_task.name@));
                data_transitive.merge(&parent_task.data_transitive);
                known = Some(pid.0);
            }
        }
        assert(known == known_parent(v, id_number(parent)));
        assert(texts(parent_names@) =~= new_task(v, raw, id_number(parent), now).parent_names) by {
            if known is None {
                assert(texts(parent_names@) =~= Seq::<Seq<char>>::empty());
            }
        }
        let hide_errors = match &tree.hide_errors_default_msg {
            Some(msg) => Some(msg.clone()),
            None => None,
        };
        let task_internal = TaskInternal {
            status: TaskStatus::Running,
            name,
            parent_names,
            id: UniqID(id),
            started_at: now,
            data: Data::empty(),
            data_transitive,
            tags,
            progress: None,
            hide_errors,
            attach_transitive_data_to_errors: tree.attach_transitive_data_to_errors_default,
            keep_subtree_until_finished: false,
        };
        proof {
            lemma_created_invariant(v, raw, id_number(parent), now);
        }
        assert(task_internal@ == new_task(v, raw, id_number(parent), now));
        let ghost old_tasks = tree.tasks_internal@;
        let ghost old_children = tree.parent_to_children@;
        match known {
            Some(p) => {
                let mut children = match tree.parent_to_children.remove(&p) {
                    Some(c) => c,
                    None => BTreeSet::new(),
                };
                proof {
                    lemma_ordered_empty();
                    lemma_set_listed(&children);
                    assert(ordered(children@) =~= kids(v, p));
                    assert forall|y: u64| children@.contains(y) implies y < id by {
                        assert(v.children[p].contains(y));
                        lemma_child_facts(v, p, y);
                    }
                    lemma_ordered_insert(children@, id);
                }
                children.insert(id);
                tree.parent_to_children.insert(p, children);
                tree.child_to_parent.insert(id, p);
                assert(tree.parent_to_children@ =~= old_children.insert(p, children));
            },
            None => {
                proof {
                    lemma_set_listed(&tree.root_tasks);
                    assert forall|y: u64| tree.root_tasks@.contains(y) implies y < id by {
                        assert(v.roots.contains(y));
                    }
                    lemma_ordered_insert(tree.root_tasks@, id);
                }
                tree.root_tasks.insert(id);
            },
        }
        tree.tasks_internal.insert(id, task_internal);
        tree.report_start.push(id);
        proof {
            let w = created(v, raw, id_number(parent), now);
            assert(tree@.tasks =~= w.tasks);
            assert(tree@.children =~= w.children);
            assert(tree@ == w);
        }
        UniqID(id)
    }

    /// Attaches a value to a task, under a key that may carry tags. Nothing
    /// changes where the tree does not know the task.
    pub fn add_data(&mut self, id: UniqID, key: &str, value: DataValue)
        requires
            old(self).wf(),
        ensures
            final(self).wf(),
            final(self).force_flush() == old(self).force_flush(),
            final(self).error_formatter() == old(self).error_formatter(),
            final(self)@ == updated(
                old(self)@,
                id.0,
                |t: TaskView|
                    TaskView {
                        data: t.data.insert(
                            clean_name(key@),
                            (DataEntryView { value: value@, tags: tags_of(key@) }),
                        ),
                        ..t
                    },
            ),
    {
        let ghost before = self.tree_internal;
        match self.tree_internal.tasks_internal.remove(&id.0) {
            Some(mut task_internal) => {
                task_internal.data.add(key, value);
                self.tree_internal.tasks_internal.insert(id.0, task_internal);
                proof {
                    assert(self.tree_internal.tasks_internal@ =~= before.tasks_internal@.insert(
                        id.0,
                        self.tree_internal.tasks_internal@[id.0],
                    ));
                    TaskTreeInternal::lemma_task_replaced(&before, &self.tree_internal, id.0);
                }
            },
            None => {
                assert(self.tree_internal.tasks_internal@ =~= before.tasks_internal@);
            },
        }
    }

    /// Attaches a value to a task for the task itself and for every task
    /// created under it from now on. Nothing changes where the tree does not
    /// know the task.
    pub fn add_data_transitive_for_task(&mut self, id: UniqID, key: &str, value: DataValue)
        requires
            old(self).wf(),
        ensures
            final(self).wf(),
            final(self).force_flush() == old(self).force_flush(),
            final(self).error_formatter() == old(self).error_formatter(),
            final(self)@ == updated(
                old(self)@,
                id.0,
                |t: TaskView|
                    TaskView {
                        data_transitive: t.data_transitive.insert(
                            clean_name(key@),
                            (DataEntryView { value: value@, tags: tags_of(key@) }),
                        ),
                        ..t
                    },
            ),
    {
        let ghost before = self.tree_internal;
        match self.tree_internal.tasks_internal.remove(&id.0) {
            Some(mut task_internal) => {
                task_internal.data_transitive.add(key, value);
                self.tree_internal.tasks_internal.insert(id.0, task_internal);
                proof {
                    assert(self.tree_internal.tasks_internal@ =~= before.tasks_internal@.insert(
                        id.0,
                        self.tree_internal.tasks_internal@[id.0],
                    ));
                    TaskTreeInternal::lemma_task_replaced(&before, &self.tree_internal, id.0);
                }
            },
            None => {
                assert(self.tree_internal.tasks_internal@ =~= before.tasks_internal@);
            },
        }
    }

    /// Sets the message that reporters show in place of the errors of a
    /// task, or takes it away. Nothing changes where the tree does not know
    /// the task.
    pub fn hide_error_msg_for_task(&mut self, id: UniqID, msg: Option<String>)
        requires
            old(self).wf(),
        ensures
            final(self).wf(),
            final(self).force_flush() == old(self).force_flush(),
            final(self).error_formatter() == old(self).error_formatter(),
            final(self)@ == updated(
                old(self)@,
                id.0,
                |t: TaskView| TaskView { hide_errors: opt_text(msg), ..t },
            ),
    {
        let ghost before = self.tree_internal;
        match self.tree_internal.tasks_internal.remove(&id.0) {
            Some(mut task_internal) => {
                task_internal.hide_errors = msg;
                self.tree_internal.tasks_internal.insert(id.0, task_internal);
                proof {
                    assert(self.tree_internal.tasks_internal@ =~= before.tasks_internal@.insert(
                        id.0,
                        self.tree_internal.tasks_internal@[id.0],
                    ));
                    TaskTreeInternal::lemma_task_replaced(&before, &self.tree_internal, id.0);
                }
            },
            None => {
                assert(self.tree_internal.tasks_internal@ =~= before.tasks_internal@);
            },
        }
    }

    /// Says whether the errors of a task carry its transitive data. Nothing
    /// changes where the tree does not know the task.
    pub fn attach_transitive_data_to_errors_for_task(&mut self, id: UniqID, val: bool)
        requires
            old(self).wf(),
        ensures
            final(self).wf(),
            final(self).force_flush() == old(self).force_flush(),
            final(self).error_formatter() == old(self).error_formatter(),
            final(self)@ == updated(
                old(self)@,
                id.0,
                |t: TaskView| TaskView { attach_transitive_data_to_errors: val, ..t },
            ),
    {
        let ghost before = self.tree_internal;
        match self.tree_internal.tasks_internal.remove(&id.0) {
            Some(mut task_internal) => {
                task_internal.attach_transitive_data_to_errors = val;
                self.tree_internal.tasks_internal.insert(id.0, task_internal);
                proof {
                    assert(self.tree_internal.tasks_internal@ =~= before.tasks_internal@.insert(
                        id.0,
                        self.tree_internal.tasks_internal@[id.0],
                    ));
                    TaskTreeInternal::lemma_task_replaced(&before, &self.tree_internal, id.0);
                }
            },
            None => {
                assert(self.tree_internal.tasks_internal@ =~= before.tasks_internal@);
            },
        }
    }

    /// Records how far a task has come: `done` items of `total`. Nothing
    /// changes where the tree does not know the task.
    pub fn task_progress(&mut self, id: UniqID, done: i64, total: i64)
        requires
            old(self).wf(),
        ensures
            final(self).wf(),
            final(self).force_flush() == old(self).force_flush(),
            final(self).error_formatter() == old(self).error_formatter(),
            final(self)@ == updated(
                old(self)@,
                id.0,
                |t: TaskView| TaskView { progress: Some((done, total)), ..t },
            ),
    {
        let ghost before = self.tree_internal;
        match self.tree_internal.tasks_internal.remove(&id.0) {
            Some(mut task_internal) => {
                task_internal.progress = Some((done, total));
                self.tree_internal.tasks_internal.insert(id.0, task_internal);
                proof {
                    assert(self.tree_internal.tasks_internal@ =~= before.tasks_internal@.insert(
                        id.0,
                        self.tree_internal.tasks_internal@[id.0],
                    ));
                    TaskTreeInternal::lemma_task_replaced(&before, &self.tree_internal, id.0);
                }
            },
            None => {
                assert(self.tree_internal.tasks_internal@ =~= before.tasks_internal@);
            },
        }
    }

    /// Starts a trace at a task: while the task runs, nothing of its subtree
    /// is marked for removal. Nothing changes where the tree does not know
    /// the task.
    pub fn start_trace(&mut self, id: UniqID)
        requires
            old(self).wf(),
        ensures
            final(self).wf(),
            final(self).force_flush() == old(self).force_flush(),
            final(self).error_formatter() == old(self).error_formatter(),
            final(self)@ == updated(
                old(self)@,
                id.0,
                |t: TaskView| TaskView { keep_subtree_until_finished: true, ..t },
            ),
    {
        let ghost before = self.tree_internal;
        match self.tree_internal.tasks_internal.remove(&id.0) {
            Some(mut task_internal) => {
                task_internal.keep_subtree_until_finished = true;
                self.tree_internal.tasks_internal.insert(id.0, task_internal);
                proof {
                    assert(self.tree_internal.tasks_internal@ =~= before.tasks_internal@.insert(
                        id.0,
                        self.tree_internal.tasks_internal@[id.0],
                    ));
                    TaskTreeInternal::lemma_task_replaced(&before, &self.tree_internal, id.0);
                }
            },
            None => {
                assert(self.tree_internal.tasks_internal@ =~= before.tasks_internal@);
            },
        }
    }

    /// Sets the message that new tasks get to show in place of their errors,
    /// or takes it away.
    pub fn hide_errors_default_msg(&mut self, msg: Option<String>)
        requires
            old(self).wf(),
        ensures
            final(self).wf(),
            final(self).force_flush() == old(self).force_flush(),
            final(self).error_formatter() == old(self).error_formatter(),
            final(self)@ == (TreeView { hide_errors_default_msg: opt_text(msg), ..old(self)@ }),
    {
        self.tree_internal.hide_errors_default_msg = msg;
    }

    /// Says whether the errors of new tasks carry their transitive data.
    pub fn attach_transitive_data_to_errors_default(&mut self, val: bool)
        requires
            old(self).wf(),
        ensures
            final(self).wf(),
            final(self).force_flush() == old(self).force_flush(),
            final(self).error_formatter() == old(self).error_formatter(),
            final(self)@ == (TreeView {
                attach_transitive_data_to_errors_default: val,
                ..old(self)@
            }),
    {
        self.tree_internal.attach_transitive_data_to_errors_default = val;
    }

    /// Sets how long a marked task stays in the tree before a sweep removes
    /// it.
    pub fn set_remove_task_after_done_ms(&mut self, ms: u64)
        requires
            old(self).wf(),
        ensures
            final(self).wf(),
            final(self).force_flush() == old(self).force_flush(),
            final(self).error_formatter() == old(self).error_formatter(),
            final(self)@ == (TreeView { remove_task_after_done_ms: ms, ..old(self)@ }),
    {
        self.tree_internal.remove_task_after_done_ms = ms;
    }

    /// Adds a value to the data that every task created from now on
    /// inherits.
    pub fn add_data_transitive(&mut self, key: &str, value: DataValue)
        requires
            old(self).wf(),
        ensures
            final(self).wf(),
            final(self).force_flush() == old(self).force_flush(),
            final(self).error_formatter() == old(self).error_formatter(),
            final(self)@ == (TreeView {
                data_transitive: old(self)@.data_transitive.insert(
                    clean_name(key@),
                    (DataEntryView { value: value@, tags: tags_of(key@) }),
                ),
                ..old(self)@
            }),
    {
        self.tree_internal.data_transitive.add(key, value);
    }

    /// The value that a task holds under a clean key: among its transitive
    /// data where the key is there, else among its own.
    pub fn get_data(&self, id: UniqID, key: &str) -> (value: Option<DataValue>)
        requires
            self.wf(),
        ensures
            match value {
                Some(v) => self@.tasks.contains_key(id.0) && ({
                    let t = self@.tasks[id.0];
                    if t.data_transitive.contains_key(key@) {
                        v@ == t.data_transitive[key@].value
                    } else {
                        t.data.contains_key(key@) && v@ == t.data[key@].value
                    }
                }),
                None => !self@.tasks.contains_key(id.0) || ({
                    let t = self@.tasks[id.0];
                    !t.data_transitive.contains_key(key@) && !t.data.contains_key(key@)
                }),
            },
    {
        match self.tree_internal.tasks_internal.get(&id.0) {
            Some(task_internal) => {
                match task_internal.data_transitive.get(key) {
                    Some(entry) => Some(entry.0.clone_value()),
                    None => match task_internal.data.get(key) {
                        Some(entry) => Some(entry.0.clone_value()),
                        None => None,
                    },
                }
            },
            None => None,
        }
    }

    /// Ends a task at `now`: with a failure where there is an error message,
    /// with success where there is none. The task is offered for removal and
    /// its end is queued. Nothing changes where the task has finished already
    /// or the tree does not know it.
    pub fn mark_done(&mut self, id: UniqID, error_message: Option<String>, now: Timestamp)
        requires
            old(self).wf(),
        ensures
            final(self).wf(),
            final(self).force_flush() == old(self).force_flush(),
            final(self).error_formatter() == old(self).error_formatter(),
            final(self)@ == done(old(self)@, id.0, opt_text(error_message), now),
    {
        let ghost before = self.tree_internal;
        let ghost v = self@;
        let running = match self.tree_internal.tasks_internal.get(&id.0) {
            Some(task_internal) => !task_internal.status.finished(),
            None => false,
        };
        if !running {
            return ;
        }
        match self.tree_internal.tasks_internal.remove(&id.0) {
            Some(mut task_internal) => {
                task_internal.mark_done(error_message, now);
                self.tree_internal.tasks_internal.insert(id.0, task_internal);
                proof {
                    assert(self.tree_internal.tasks_internal@ =~= before.tasks_internal@.insert(
                        id.0,
                        self.tree_internal.tasks_internal@[id.0],
                    ));
                    TaskTreeInternal::lemma_task_replaced(&before, &self.tree_internal, id.0);
                }
                self.tree_internal.mark_for_gc(id.0, now);
                let ghost mid = self.tree_internal;
                self.tree_internal.report_end.push(id.0);
                proof {
                    lemma_done_invariant(v, id.0, opt_text(error_message), now);
                    assert(self@ == done(v, id.0, opt_text(error_message), now));
                    assert(self.tree_internal.tasks_internal == mid.tasks_internal);
                }
            },
            None => {},
        }
    }

    /// Sets the formatter that turns the errors of tasks into the text that
    /// is stored with them, or takes it away.
    pub fn set_error_formatter(&mut self, error_formatter: Option<Arc<dyn ErrorFormatter>>)
        ensures
            final(self).error_formatter() == error_formatter,
            final(self)@ == old(self)@,
            final(self).wf() == old(self).wf(),
            final(self).force_flush() == old(self).force_flush(),
    {
        self.error_formatter = error_formatter;
    }

    /// Takes the queued events out of the tree, for delivery to every
    /// reporter: first the starts, then the ends, each in the order in which
    /// they were queued. The events of tasks that a sweep has removed in the
    /// meantime are dropped.
    pub fn report_all(&mut self) -> (batch: (Vec<TaskInternal>, Vec<TaskInternal>))
        requires
            old(self).wf(),
        ensures
            final(self).wf(),
            final(self).force_flush() == old(self).force_flush(),
            final(self).error_formatter() == old(self).error_formatter(),
            final(self)@ == flushed(old(self)@),
            is_flush_of(old(self)@, true, Some(batch)),
    {
        self.tree_internal.take_pending()
    }

    /// Takes the queued events out of the tree where synchronous delivery is
    /// on, and leaves them where it is off.
    pub fn maybe_force_flush(&mut self) -> (batch: Option<(Vec<TaskInternal>, Vec<TaskInternal>)>)
        requires
            old(self).wf(),
        ensures
            final(self).wf(),
            final(self).force_flush() == old(self).force_flush(),
            final(self).error_formatter() == old(self).error_formatter(),
            final(self)@ == maybe_flushed(old(self)@, old(self).force_flush()),
            is_flush_of(old(self)@, old(self).force_flush(), batch),
    {
        if self.force_flush {
            Some(self.report_all())
        } else {
            None
        }
    }

    /// Sweeps the tree at `now`: see [`TaskTreeInternal::garbage_collect`].
    pub fn garbage_collect(&mut self, now: Timestamp)
        requires
            old(self).wf(),
        ensures
            final(self).wf(),
            final(self).force_flush() == old(self).force_flush(),
            final(self).error_formatter() == old(self).error_formatter(),
            final(self)@ == swept(old(self)@, now),
    {
        self.tree_internal.garbage_collect(now);
    }

    /// The trace of the subtree of `id`: see [`TaskTreeInternal::dump_trace`].
    pub fn dump_trace(&self, id: UniqID) -> (trace: Trace)
        requires
            self.wf(),
        ensures
            trace.root_id == id.0,
            is_trace_of(self@, id.0, trace_views(trace.tasks@)),
            forall|d: u64| #[trigger]
                trace.tasks@.contains_key(d) ==> trace.tasks@[d].data.wf(),
    {
        self.tree_internal.dump_trace(id)
    }

    /// Creates a root task at `now` and queues its start.
    pub fn create_task(&mut self, name: &str, now: Timestamp) -> (id: UniqID)
        requires
            old(self).wf(),
            old(self)@.next_id < u64::MAX,
        ensures
            final(self).wf(),
            final(self).force_flush() == old(self).force_flush(),
            final(self).error_formatter() == old(self).error_formatter(),
            id.0 == old(self)@.next_id,
            final(self)@ == created(old(self)@, name@, None, now),
    {
        self.create_task_internal(name, None, now)
    }

    /// Begins the work of a task: creates the task at `now` under `parent`
    /// and, where synchronous delivery is on, hands back all queued events,
    /// the start of the new task among them. The work in flight ends the
    /// task: see [`Spawned`].
    pub fn pre_spawn(&mut self, name: &str, parent: Option<UniqID>, now: Timestamp) -> (r: (
        Spawned,
        Option<(Vec<TaskInternal>, Vec<TaskInternal>)>,
    ))
        requires
            old(self).wf(),
            old(self)@.next_id < u64::MAX,
        ensures
            final(self).wf(),
            final(self).force_flush() == old(self).force_flush(),
            final(self).error_formatter() == old(self).error_formatter(),
            r.0.id().0 == old(self)@.next_id,
            final(self)@ == maybe_flushed(
                created(old(self)@, name@, id_number(parent), now),
                old(self).force_flush(),
            ),
            is_flush_of(
                created(old(self)@, name@, id_number(parent), now),
                old(self).force_flush(),
                r.1,
            ),
    {
        let id = self.create_task_internal(name, parent, now);
        let batch = self.maybe_force_flush();
        (Spawned { id }, batch)
    }

    /// Ends the work of a task at `now` with the text of its error, or with
    /// none where it succeeded, and, where synchronous delivery is on, hands
    /// back all queued events, the end of the task among them.
    pub fn finish_spawn(&mut self, id: UniqID, error_msg: Option<String>, now: Timestamp) -> (batch:
        Option<(Vec<TaskInternal>, Vec<TaskInternal>)>)
        requires
            old(self).wf(),
        ensures
            final(self).wf(),
            final(self).force_flush() == old(self).force_flush(),
            final(self).error_formatter() == old(self).error_formatter(),
            final(self)@ == maybe_flushed(
                done(old(self)@, id.0, opt_text(error_msg), now),
                old(self).force_flush(),
            ),
            is_flush_of(
                done(old(self)@, id.0, opt_text(error_msg), now),
                old(self).force_flush(),
                batch,
            ),
    {
        self.mark_done(id, error_msg, now);
        self.maybe_force_flush()
    }

    /// Ends the work of a task at `now` with the result of the work.
    ///
    /// A success ends the task with success and is handed back as it is. An
    /// error is wrapped in the context of the task, see
    /// [`TaskTreeInternal::spawn_context`]; the wrapped error is turned into
    /// text by the formatter of the tree, or by `anyhow` where the tree has
    /// none, see [`wrap_failure`]; the task ends with that text as its
    /// failure, and the wrapped error is handed back. The tree then stands as
    /// [`TaskTree::finish_spawn`] leaves it.
    pub fn post_spawn<T>(&mut self, id: UniqID, result: Result<T, anyhow::Error>, now: Timestamp) -> (r:
        (Result<T, anyhow::Error>, Option<(Vec<TaskInternal>, Vec<TaskInternal>)>))
        requires
            old(self).wf(),
        ensures
            final(self).wf(),
            final(self).force_flush() == old(self).force_flush(),
            final(self).error_formatter() == old(self).error_formatter(),
            match result {
                Ok(value) => r.0 == Ok::<T, anyhow::Error>(value) && final(self)@ == maybe_flushed(
                    done(old(self)@, id.0, None, now),
                    old(self).force_flush(),
                ) && is_flush_of(
                    done(old(self)@, id.0, None, now),
                    old(self).force_flush(),
                    r.1,
                ),
                Err(_) => r.0 is Err && exists|msg: Seq<char>|
                    final(self)@ == maybe_flushed(
                        #[trigger] done(old(self)@, id.0, Some(msg), now),
                        old(self).force_flush(),
                    ) && is_flush_of(
                        done(old(self)@, id.0, Some(msg), now),
                        old(self).force_flush(),
                        r.1,
                    ) && is_failure_text(old(self).formatter(), old(self).context_of(id.0), msg),
            },
    {
        match result {
            Ok(value) => {
                let batch = self.finish_spawn(id, None, now);
                (Ok(value), batch)
            },
            Err(err) => {
                let desc = self.tree_internal.spawn_context(id);
                let (err, error_msg) = wrap_failure(err, desc, self.borrow_formatter());
                let ghost msg = error_msg@;
                let batch = self.finish_spawn(id, Some(error_msg), now);
                assert(self@ == maybe_flushed(
                    done(old(self)@, id.0, Some(msg), now),
                    old(self).force_flush(),
                ));
                (Err(err), batch)
            },
        }
    }
}

/// Wrapped work in flight. It ends its task once: with the result of the
/// work where the work comes to an end, with success where the work is
/// given up before that, so that no task is left running.
#[derive(Debug)]
pub struct Spawned {
    id: UniqID,
}

impl Spawned {
    /// The identifier of the task of the work.
    pub closed spec fn id(&self) -> UniqID {
        self.id
    }

    /// The identifier of the task of the work.
    pub fn uniq_id(&self) -> (id: UniqID)
        ensures
            id == self.id(),
    {
        self.id
    }

    /// The work has come to an end at `now` with `result`: see
    /// [`TaskTree::post_spawn`].
    pub fn finish<T>(self, tree: &mut TaskTree, result: Result<T, anyhow::Error>, now: Timestamp) -> (r:
        (Result<T, anyhow::Error>, Option<(Vec<TaskInternal>, Vec<TaskInternal>)>))
        requires
            old(tree).wf(),
        ensures
            final(tree).wf(),
            final(tree).force_flush() == old(tree).force_flush(),
            final(tree).error_formatter() == old(tree).error_formatter(),
            match result {
                Ok(value) => r.0 == Ok::<T, anyhow::Error>(value) && final(tree)@ == maybe_flushed(
                    done(old(tree)@, self.id().0, None, now),
                    old(tree).force_flush(),
                ) && is_flush_of(
                    done(old(tree)@, self.id().0, None, now),
                    old(tree).force_flush(),
                    r.1,
                ),
                Err(_) => r.0 is Err && exists|msg: Seq<char>|
                    final(tree)@ == maybe_flushed(
                        #[trigger] done(old(tree)@, self.id().0, Some(msg), now),
                        old(tree).force_flush(),
                    ) && is_flush_of(
                        done(old(tree)@, self.id().0, Some(msg), now),
                        old(tree).force_flush(),
                        r.1,
                    ) && is_failure_text(
                        old(tree).formatter(),
                        old(tree).context_of(self.id().0),
                        msg,
                    ),
            },
    {
        tree.post_spawn(self.id, result, now)
    }

    /// The work has come to an end at `now`, with the text of its error or
    /// with none where it succeeded: see [`TaskTree::finish_spawn`].
    pub fn finish_as(self, tree: &mut TaskTree, error_msg: Option<String>, now: Timestamp) -> (batch:
        Option<(Vec<TaskInternal>, Vec<TaskInternal>)>)
        requires
            old(tree).wf(),
        ensures
            final(tree).wf(),
            final(tree).force_flush() == old(tree).force_flush(),
            final(tree).error_formatter() == old(tree).error_formatter(),
            final(tree)@ == maybe_flushed(
                done(old(tree)@, self.id().0, opt_text(error_msg), now),
                old(tree).force_flush(),
            ),
            is_flush_of(
                done(old(tree)@, self.id().0, opt_text(error_msg), now),
                old(tree).force_flush(),
                batch,
            ),
    {
        tree.finish_spawn(self.id, error_msg, now)
    }

    /// The work was given up at `now` before it came to an end: its task
    /// ends with success.
    pub fn abandon(self, tree: &mut TaskTree, now: Timestamp) -> (batch: Option<
        (Vec<TaskInternal>, Vec<TaskInternal>),
    >)
        requires
            old(tree).wf(),
        ensures
            final(tree).wf(),
            final(tree).force_flush() == old(tree).force_flush(),
            final(tree).error_formatter() == old(tree).error_formatter(),
            final(tree)@ == maybe_flushed(
                done(old(tree)@, self.id().0, None, now),
                old(tree).force_flush(),
            ),
            is_flush_of(done(old(tree)@, self.id().0, None, now), old(tree).force_flush(), batch),
    {
        tree.finish_spawn(self.id, None, now)
    }
}

} // verus!
