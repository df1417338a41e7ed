//! What a tree holds, what holds of it at every instant, and what creating
//! a task, changing a record and emptying the queues do to it.

use crate::data::DataEntryView;
use crate::ids::increasing;
use crate::task_internal::{full_name_of, is_finished, TaskInternal, TaskStatusView, TaskView};
use crate::time::Timestamp;
use crate::trace::TaskTraceView;
use crate::utils::{clean_name, tags_of};
use vstd::prelude::*;

verus! {

/// What a tree holds.
pub struct TreeView {
    /// The tasks, by identifier.
    pub tasks: Map<u64, TaskView>,
    /// The children of each task that ever had one, in the order of their
    /// identifiers.
    pub children: Map<u64, Seq<u64>>,
    /// The parent of each task that has one.
    pub parent: Map<u64, u64>,
    /// The tasks without a parent, in the order of their identifiers.
    pub roots: Seq<u64>,
    /// The tasks whose start has not been handed to the reporters yet.
    pub pending_start: Seq<u64>,
    /// The tasks whose end has not been handed to the reporters yet.
    pub pending_end: Seq<u64>,
    /// The tasks marked for removal, each with the instant of its mark.
    pub marked: Map<u64, Timestamp>,
    /// The data that every new task inherits.
    pub data_transitive: Map<Seq<char>, DataEntryView>,
    /// How long a marked task stays before the sweep removes it.
    pub remove_task_after_done_ms: u64,
    pub hide_errors_default_msg: Option<Seq<char>>,
    pub attach_transitive_data_to_errors_default: bool,
    /// The identifier that the next task gets.
    pub next_id: u64,
}

/// The children of a task, none where it never had one.
pub open spec fn kids(v: TreeView, id: u64) -> Seq<u64> {
    if v.children.contains_key(id) {
        v.children[id]
    } else {
        Seq::<u64>::empty()
    }
}

/// What holds of a tree at every instant.
pub open spec fn tree_invariant(v: TreeView) -> bool {
    // Identifiers are below the next one to be handed out, so none is handed
    // out twice, and each task is filed under its own.
    &&& forall|id: u64| #[trigger]
        v.tasks.contains_key(id) ==> id < v.next_id && v.tasks[id].id == id
    // Every task is a root or has a parent, never both.
    &&& forall|id: u64| #[trigger]
        v.tasks.contains_key(id) ==> (v.roots.contains(id) <==> !v.parent.contains_key(id))
    &&& forall|i: int| 0 <= i < v.roots.len() ==> v.tasks.contains_key(#[trigger] v.roots[i])
    &&& increasing(v.roots)
    // A parent is a task of the tree that was created before its child.
    &&& forall|c: u64| #[trigger]
        v.parent.contains_key(c) ==> v.tasks.contains_key(c) && v.tasks.contains_key(v.parent[c])
            && v.parent[c] < c
    // The two indices say the same: `c` is listed under `p` exactly if `p`
    // is the parent of `c`.
    &&& forall|c: u64| #[trigger]
        v.parent.contains_key(c) ==> v.children.contains_key(v.parent[c])
            && v.children[v.parent[c]].contains(c)
    &&& forall|p: u64, c: u64|
        v.children.contains_key(p) && #[trigger] v.children[p].contains(c)
            ==> v.parent.contains_key(c) && v.parent[c] == p
    &&& forall|p: u64| #[trigger]
        v.children.contains_key(p) ==> v.tasks.contains_key(p) && increasing(v.children[p])
    // The queues speak of identifiers that were handed out. A queued task may
    // be gone from the tree: the sweep does not wait for the delivery.
    &&& forall|i: int| 0 <= i < v.pending_start.len() ==> #[trigger] v.pending_start[i] < v.next_id
    &&& forall|i: int| 0 <= i < v.pending_end.len() ==> #[trigger] v.pending_end[i] < v.next_id
    // Only finished tasks of the tree are marked.
    &&& forall|id: u64| #[trigger]
        v.marked.contains_key(id) ==> v.tasks.contains_key(id) && is_finished(v.tasks[id].status)
}

/// The tree without any task: no data, no grace period, and errors that
/// carry the transitive data of their task.
pub open spec fn empty_tree() -> TreeView {
    TreeView {
        tasks: Map::<u64, TaskView>::empty(),
        children: Map::<u64, Seq<u64>>::empty(),
        parent: Map::<u64, u64>::empty(),
        roots: Seq::<u64>::empty(),
        pending_start: Seq::<u64>::empty(),
        pending_end: Seq::<u64>::empty(),
        marked: Map::<u64, Timestamp>::empty(),
        data_transitive: Map::<Seq<char>, DataEntryView>::empty(),
        remove_task_after_done_ms: 0,
        hide_errors_default_msg: None,
        attach_transitive_data_to_errors_default: true,
        next_id: 0,
    }
}

/// The tree with the record of one task replaced.
pub open spec fn with_task(v: TreeView, id: u64, t: TaskView) -> TreeView {
    TreeView { tasks: v.tasks.insert(id, t), ..v }
}

/// Replacing the record of a task by one with the same identifier keeps the
/// invariant, where a marked task stays finished.
pub proof fn lemma_with_task_invariant(v: TreeView, id: u64, t: TaskView)
    requires
        tree_invariant(v),
        v.tasks.contains_key(id),
        t.id == id,
        v.marked.contains_key(id) ==> is_finished(t.status),
    ensures
        tree_invariant(with_task(v, id, t)),
{
    let w = with_task(v, id, t);
    assert forall|x: u64| #[trigger] w.tasks.contains_key(x) implies x < w.next_id && w.tasks[x].id
        == x by {
        assert(v.tasks.contains_key(x));
    }
    assert forall|x: u64| #[trigger] w.tasks.contains_key(x) implies (w.roots.contains(x)
        <==> !w.parent.contains_key(x)) by {
        assert(v.tasks.contains_key(x));
    }
    assert forall|i: int| 0 <= i < w.roots.len() implies w.tasks.contains_key(
        #[trigger] w.roots[i],
    ) by {
        assert(v.tasks.contains_key(v.roots[i]));
    }
    assert forall|x: u64| #[trigger] w.marked.contains_key(x) implies w.tasks.contains_key(x)
        && is_finished(w.tasks[x].status) by {
        assert(v.marked.contains_key(x));
    }
}

/// The tree after something was done to the record of the task `id`, where
/// the tree has that task; the same tree where it has not.
pub open spec fn updated(v: TreeView, id: u64, f: spec_fn(TaskView) -> TaskView) -> TreeView {
    if v.tasks.contains_key(id) {
        with_task(v, id, f(v.tasks[id]))
    } else {
        v
    }
}

/// The parent that a new task gets: the one asked for, where the tree knows
/// it.
pub open spec fn known_parent(v: TreeView, parent: Option<u64>) -> Option<u64> {
    match parent {
        Some(p) => if v.tasks.contains_key(p) {
            Some(p)
        } else {
            None
        },
        None => None,
    }
}

/// The record of a task created at `now` under `parent`.
pub open spec fn new_task(v: TreeView, name: Seq<char>, parent: Option<u64>, now: Timestamp) -> TaskView {
    TaskView {
        id: v.next_id,
        name: clean_name(name),
        parent_names: match known_parent(v, parent) {
            Some(p) => v.tasks[p].parent_names.push(v.tasks[p].name),
            None => Seq::<Seq<char>>::empty(),
        },
        started_at: now,
        status: TaskStatusView::Running,
        data: Map::<Seq<char>, DataEntryView>::empty(),
        data_transitive: match known_parent(v, parent) {
            Some(p) => v.data_transitive.union_prefer_right(v.tasks[p].data_transitive),
            None => v.data_transitive,
        },
        tags: tags_of(name),
        progress: None,
        hide_errors: v.hide_errors_default_msg,
        attach_transitive_data_to_errors: v.attach_transitive_data_to_errors_default,
        keep_subtree_until_finished: false,
    }
}

/// The tree after a task was created at `now` under `parent`: the task has
/// the next identifier, is filed under its parent or among the roots, and
/// its start waits for delivery.
pub open spec fn created(v: TreeView, name: Seq<char>, parent: Option<u64>, now: Timestamp) -> TreeView {
    let id = v.next_id;
    let t = new_task(v, name, parent, now);
    match known_parent(v, parent) {
        Some(p) => TreeView {
            tasks: v.tasks.insert(id, t),
            children: v.children.insert(p, kids(v, p).push(id)),
            parent: v.parent.insert(id, p),
            pending_start: v.pending_start.push(id),
            next_id: (id + 1) as u64,
            ..v
        },
        None => TreeView {
            tasks: v.tasks.insert(id, t),
            roots: v.roots.push(id),
            pending_start: v.pending_start.push(id),
            next_id: (id + 1) as u64,
            ..v
        },
    }
}

/// Creating a task keeps the invariant.
pub proof fn lemma_created_invariant(v: TreeView, name: Seq<char>, parent: Option<u64>, now: Timestamp)
    requires
        tree_invariant(v),
        v.next_id < u64::MAX,
    ensures
        tree_invariant(created(v, name, parent, now)),
{
    let w = created(v, name, parent, now);
    let id = v.next_id;
    assert(!v.tasks.contains_key(id));
    assert(!v.parent.contains_key(id));
    assert(!v.roots.contains(id)) by {
        if v.roots.contains(id) {
            let i = choose|i: int| 0 <= i < v.roots.len() && v.roots[i] == id;
            assert(v.tasks.contains_key(v.roots[i]));
        }
    }
    match known_parent(v, parent) {
        Some(p) => {
            let old_kids = kids(v, p);
            let new_kids = old_kids.push(id);
            assert(increasing(new_kids)) by {
                assert forall|i: int, j: int| 0 <= i < j < new_kids.len() implies new_kids[i]
                    < new_kids[j] by {
                    if j == new_kids.len() - 1 {
                        assert(old_kids.contains(old_kids[i]));
                        assert(v.parent.contains_key(old_kids[i]));
                    }
                }
            }
            assert forall|c: u64| #[trigger] w.parent.contains_key(c) implies w.children.contains_key(
                w.parent[c],
            ) && w.children[w.parent[c]].contains(c) by {
                if c == id {
                    assert(new_kids[new_kids.len() - 1] == id);
                } else {
                    assert(v.parent.contains_key(c));
                    if v.parent[c] == p {
                        let i = choose|i: int| 0 <= i < old_kids.len() && old_kids[i] == c;
                        assert(new_kids[i] == c);
                    }
                }
            }
            assert forall|q: u64, c: u64|
                w.children.contains_key(q) && #[trigger] w.children[q].contains(
                    c,
                ) implies w.parent.contains_key(c) && w.parent[c] == q by {
                if q == p {
                    let i = choose|i: int| 0 <= i < new_kids.len() && new_kids[i] == c;
                    if i < old_kids.len() {
                        assert(old_kids.contains(c));
                    }
                }
            }
            assert forall|x: u64| #[trigger] w.tasks.contains_key(x) implies (w.roots.contains(x)
                <==> !w.parent.contains_key(x)) by {
                if x != id {
                    assert(v.tasks.contains_key(x));
                }
            }
        },
        None => {
            assert(increasing(w.roots)) by {
                assert forall|i: int, j: int| 0 <= i < j < w.roots.len() implies w.roots[i]
                    < w.roots[j] by {
                    if j == w.roots.len() - 1 {
                        assert(v.tasks.contains_key(v.roots[i]));
                    }
                }
            }
            assert forall|x: u64| #[trigger] w.tasks.contains_key(x) implies (w.roots.contains(x)
                <==> !w.parent.contains_key(x)) by {
                if x == id {
                    assert(w.roots[w.roots.len() - 1] == id);
                } else {
                    assert(v.tasks.contains_key(x));
                    if v.roots.contains(x) {
                        let i = choose|i: int| 0 <= i < v.roots.len() && v.roots[i] == x;
                        assert(w.roots[i] == x);
                    }
                    if w.roots.contains(x) {
                        let i = choose|i: int| 0 <= i < w.roots.len() && w.roots[i] == x;
                        assert(v.roots[i] == x);
                    }
                }
            }
            assert forall|i: int| 0 <= i < w.roots.len() implies w.tasks.contains_key(
                #[trigger] w.roots[i],
            ) by {
                if i < v.roots.len() {
                    assert(v.tasks.contains_key(v.roots[i]));
                }
            }
        },
    }
    assert forall|i: int| 0 <= i < w.pending_start.len() implies #[trigger] w.pending_start[i]
        < w.next_id by {
        if i < v.pending_start.len() {
            assert(v.pending_start[i] < v.next_id);
        }
    }
    assert forall|i: int| 0 <= i < w.pending_end.len() implies #[trigger] w.pending_end[i]
        < w.next_id by {
        assert(v.pending_end[i] < v.next_id);
    }
    assert forall|x: u64| #[trigger] w.marked.contains_key(x) implies w.tasks.contains_key(x)
        && is_finished(w.tasks[x].status) by {
        assert(v.marked.contains_key(x));
    }
}

/// The start of a task is queued when the task is created, once and at the
/// end of the queue; nothing else is queued then, and the new task runs.
pub proof fn lemma_created_queues_start(v: TreeView, name: Seq<char>, parent: Option<u64>, now: Timestamp)
    ensures
        created(v, name, parent, now).pending_start == v.pending_start.push(v.next_id),
        created(v, name, parent, now).pending_end == v.pending_end,
        created(v, name, parent, now).tasks.contains_key(v.next_id),
        created(v, name, parent, now).tasks[v.next_id].status == TaskStatusView::Running,
{
}

/// Where a new task stands: it is new; it stands under its parent, where
/// the tree knows the parent, and among the roots where it does not; and no
/// other task changes its place.
pub proof fn lemma_created_places_task(
    v: TreeView,
    name: Seq<char>,
    parent: Option<u64>,
    now: Timestamp,
    other: u64,
)
    requires
        tree_invariant(v),
        v.next_id < u64::MAX,
        other != v.next_id,
    ensures
        ({
            let w = created(v, name, parent, now);
            let id = v.next_id;
            &&& !v.tasks.contains_key(id)
            &&& w.tasks.contains_key(id)
            &&& match known_parent(v, parent) {
                Some(p) => w.parent.contains_key(id) && w.parent[id] == p
                    && w.children.contains_key(p) && w.children[p].contains(id)
                    && !w.roots.contains(id),
                None => w.roots.contains(id) && !w.parent.contains_key(id),
            }
            &&& w.tasks.contains_key(other) == v.tasks.contains_key(other)
            &&& w.roots.contains(other) == v.roots.contains(other)
            &&& w.parent.contains_key(other) == v.parent.contains_key(other)
            &&& v.parent.contains_key(other) ==> w.parent[other] == v.parent[other]
            &&& v.tasks.contains_key(other) ==> w.tasks[other] == v.tasks[other]
        }),
{
    let w = created(v, name, parent, now);
    let id = v.next_id;
    lemma_created_invariant(v, name, parent, now);
    assert(!v.tasks.contains_key(id));
    assert(w.tasks.contains_key(id));
    match known_parent(v, parent) {
        Some(p) => {
            assert(w.parent.contains_key(id));
            assert(w.children[w.parent[id]].contains(id));
        },
        None => {
            assert(w.roots[w.roots.len() - 1] == id);
            if v.roots.contains(other) {
                let i = choose|i: int| 0 <= i < v.roots.len() && v.roots[i] == other;
                assert(w.roots[i] == other);
            }
            if w.roots.contains(other) {
                let i = choose|i: int| 0 <= i < w.roots.len() && w.roots[i] == other;
                assert(v.roots[i] == other);
            }
        },
    }
}

/// What a new task takes over: its transitive data is that of the tree
/// overlaid with that of its parent, as both stand at the creation. Every
/// key of the parent is there with the parent's entry, every other key of
/// the tree with the tree's entry, and no other key. The task has no data
/// of its own, and the record of the parent stays as it is.
pub proof fn lemma_child_takes_over(
    v: TreeView,
    name: Seq<char>,
    parent: u64,
    now: Timestamp,
    key: Seq<char>,
)
    requires
        tree_invariant(v),
        v.tasks.contains_key(parent),
    ensures
        ({
            let w = created(v, name, Some(parent), now);
            let child = w.tasks[v.next_id];
            let from_parent = v.tasks[parent].data_transitive;
            &&& w.tasks.contains_key(v.next_id)
            &&& from_parent.contains_key(key) ==> child.data_transitive.contains_key(key)
                && child.data_transitive[key] == from_parent[key]
            &&& !from_parent.contains_key(key) && v.data_transitive.contains_key(key)
                ==> child.data_transitive.contains_key(key) && child.data_transitive[key]
                == v.data_transitive[key]
            &&& !from_parent.contains_key(key) && !v.data_transitive.contains_key(key)
                ==> !child.data_transitive.contains_key(key)
            &&& child.data == Map::<Seq<char>, DataEntryView>::empty()
            &&& w.tasks.contains_key(parent)
            &&& w.tasks[parent] == v.tasks[parent]
        }),
{
}

/// With synchronous delivery on, the events that a call hands back when a
/// task was created hold the start of that task, as the last of the starts,
/// and the queues are empty afterwards.
pub proof fn lemma_flush_hands_over_start(
    v: TreeView,
    name: Seq<char>,
    parent: Option<u64>,
    now: Timestamp,
)
    requires
        tree_invariant(v),
        v.next_id < u64::MAX,
    ensures
        ({
            let w = created(v, name, parent, now);
            &&& snapshots(w, w.pending_start).len() > 0
            &&& snapshots(w, w.pending_start).last() == new_task(v, name, parent, now)
            &&& maybe_flushed(w, true).pending_start.len() == 0
            &&& maybe_flushed(w, true).pending_end.len() == 0
        }),
{
    let w = created(v, name, parent, now);
    assert(w.pending_start.last() == v.next_id);
    assert(w.tasks.contains_key(v.next_id));
}


/// What is attached to the parent after the creation does not reach the
/// child.
pub proof fn lemma_later_data_stays(v: TreeView, parent: u64, child: u64, f: spec_fn(TaskView) -> TaskView)
    requires
        v.tasks.contains_key(child),
        parent != child,
    ensures
        updated(v, parent, f).tasks[child] == v.tasks[child],
{
}

/// The tree with its queues emptied.
pub open spec fn flushed(v: TreeView) -> TreeView {
    TreeView { pending_start: Seq::<u64>::empty(), pending_end: Seq::<u64>::empty(), ..v }
}

/// The tree after a call that leaves `v` and flushes where synchronous
/// delivery is on.
pub open spec fn maybe_flushed(v: TreeView, flush: bool) -> TreeView {
    if flush {
        flushed(v)
    } else {
        v
    }
}

/// Emptying the queues keeps the invariant.
pub proof fn lemma_flushed_invariant(v: TreeView)
    requires
        tree_invariant(v),
    ensures
        tree_invariant(flushed(v)),
{
}

/// Changing the settings of the tree keeps the invariant.
pub proof fn lemma_settings_invariant(v: TreeView, w: TreeView)
    requires
        tree_invariant(v),
        w == (TreeView {
            data_transitive: w.data_transitive,
            remove_task_after_done_ms: w.remove_task_after_done_ms,
            hide_errors_default_msg: w.hide_errors_default_msg,
            attach_transitive_data_to_errors_default: w.attach_transitive_data_to_errors_default,
            ..v
        }),
    ensures
        tree_invariant(w),
{
}

/// The views of a list of task records.
pub open spec fn task_views(tasks: Seq<TaskInternal>) -> Seq<TaskView> {
    tasks.map_values(|t: TaskInternal| t@)
}

/// The records, as the tree holds them, of those of the tasks `ids` that the
/// tree still holds, in the order of `ids`.
pub open spec fn snapshots(v: TreeView, ids: Seq<u64>) -> Seq<TaskView>
    decreases ids.len(),
{
    if ids.len() == 0 {
        Seq::<TaskView>::empty()
    } else if v.tasks.contains_key(ids.last()) {
        snapshots(v, ids.drop_last()).push(v.tasks[ids.last()])
    } else {
        snapshots(v, ids.drop_last())
    }
}

/// The events that a call hands back for delivery: all that are queued in
/// `v` of tasks that `v` still holds, where synchronous delivery is on, and
/// none where it is off.
pub open spec fn is_flush_of(
    v: TreeView,
    flush: bool,
    batch: Option<(Vec<TaskInternal>, Vec<TaskInternal>)>,
) -> bool {
    match batch {
        Some(b) => flush && task_views(b.0@) == snapshots(v, v.pending_start) && task_views(b.1@)
            == snapshots(v, v.pending_end) && (forall|i: int|
            0 <= i < b.0.len() ==> (#[trigger] b.0[i]).wf()) && (forall|i: int|
            0 <= i < b.1.len() ==> (#[trigger] b.1[i]).wf()),
        None => !flush,
    }
}

/// Whether `d` is in the subtree of `root`: it is `root` or a task below it.
pub open spec fn in_subtree(parent: Map<u64, u64>, root: u64, d: u64) -> bool
    decreases d,
{
    d == root || (parent.contains_key(d) && parent[d] < d && in_subtree(parent, root, parent[d]))
}

/// Whether `d` is in the subtree of one of `roots`.
pub open spec fn in_forest(parent: Map<u64, u64>, roots: Seq<u64>, d: u64) -> bool {
    exists|j: int| 0 <= j < roots.len() && in_subtree(parent, #[trigger] roots[j], d)
}

/// What the invariant says of a task listed among the children of another.
pub proof fn lemma_child_facts(v: TreeView, id: u64, c: u64)
    requires
        tree_invariant(v),
        v.children.contains_key(id),
        v.children[id].contains(c),
    ensures
        v.parent.contains_key(c),
        v.parent[c] == id,
        v.tasks.contains_key(c),
        id < c,
{
}

/// A task is in the subtree of one of the first `k + 1` of `s` where it is
/// in that of one of the first `k` or in that of the next.
pub proof fn lemma_forest_step(parent: Map<u64, u64>, s: Seq<u64>, k: int, d: u64)
    requires
        0 <= k < s.len(),
    ensures
        in_forest(parent, s.take(k + 1), d) <==> (in_forest(parent, s.take(k), d) || in_subtree(
            parent,
            s[k],
            d,
        )),
{
    let t0 = s.take(k);
    let t1 = s.take(k + 1);
    if in_forest(parent, t0, d) {
        let j = choose|j: int| 0 <= j < t0.len() && in_subtree(parent, #[trigger] t0[j], d);
        assert(t1[j] == t0[j]);
    }
    if in_subtree(parent, s[k], d) {
        assert(t1[k] == s[k]);
    }
    if in_forest(parent, t1, d) {
        let j = choose|j: int| 0 <= j < t1.len() && in_subtree(parent, #[trigger] t1[j], d);
        if j < k {
            assert(t0[j] == t1[j]);
        }
    }
}

/// A task of the subtree of a child is in the subtree of the parent.
pub proof fn lemma_subtree_down(v: TreeView, id: u64, c: u64, d: u64)
    requires
        tree_invariant(v),
        v.parent.contains_key(c),
        v.parent[c] == id,
        in_subtree(v.parent, c, d),
    ensures
        in_subtree(v.parent, id, d),
    decreases d,
{
    if d != c {
        lemma_subtree_down(v, id, c, v.parent[d]);
    } else {
        assert(in_subtree(v.parent, id, id));
        assert(v.parent[c] < c);
    }
}

/// A task of the subtree of `id`, other than `id`, is in the subtree of one
/// of the children of `id`.
pub proof fn lemma_subtree_child(v: TreeView, id: u64, d: u64) -> (c: u64)
    requires
        tree_invariant(v),
        in_subtree(v.parent, id, d),
        d != id,
    ensures
        v.parent.contains_key(c),
        v.parent[c] == id,
        in_subtree(v.parent, c, d),
        id < c <= d,
    decreases d,
{
    let p = v.parent[d];
    if p == id {
        d
    } else {
        lemma_subtree_child(v, id, p)
    }
}

/// The subtree of a task holds tasks of the tree only where the task is one
/// itself.
pub proof fn lemma_subtree_of_known(v: TreeView, id: u64, d: u64)
    requires
        tree_invariant(v),
        v.tasks.contains_key(d),
        in_subtree(v.parent, id, d),
    ensures
        v.tasks.contains_key(id),
    decreases d,
{
    if d != id {
        lemma_subtree_of_known(v, id, v.parent[d]);
    }
}

/// When a task finished, where it has.
pub open spec fn finished_at(status: TaskStatusView) -> Option<Timestamp> {
    match status {
        TaskStatusView::Finished(_, at) => Some(at),
        TaskStatusView::Running => None,
    }
}

/// What a trace says of the task `id`.
pub open spec fn trace_of_task(v: TreeView, id: u64) -> TaskTraceView {
    let t = v.tasks[id];
    TaskTraceView {
        name: crate::task_internal::full_name_of(t),
        data: t.data.union_prefer_right(t.data_transitive),
        children: kids(v, id),
        start: t.started_at,
        finished_at: finished_at(t.status),
    }
}

/// Whether `trace` is the trace of the subtree of `root`: it holds the tasks
/// of that subtree and no others, and says of each what the tree holds of
/// it.
pub open spec fn is_trace_of(v: TreeView, root: u64, trace: Map<u64, TaskTraceView>) -> bool {
    &&& forall|d: u64| #[trigger]
        trace.contains_key(d) <==> v.tasks.contains_key(d) && in_subtree(v.parent, root, d)
    &&& forall|d: u64| #[trigger] trace.contains_key(d) ==> trace[d] == trace_of_task(v, d)
}

} // verus!
