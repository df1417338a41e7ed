//! Ending a task, and the marks that finished subtrees get.

use crate::task_internal::{done_status, is_finished, TaskView};
use crate::time::Timestamp;
use crate::trace::TaskTraceView;
use crate::tree_view::{
    finished_at, in_subtree, is_trace_of, kids, lemma_subtree_child, lemma_subtree_of_known,
    lemma_with_task_invariant, maybe_flushed, snapshots, trace_of_task, tree_invariant, TreeView,
    with_task,
};
use vstd::prelude::*;

verus! {

/// Whether a task holds its subtree: it keeps it until it has finished, and
/// it still runs.
pub open spec fn holds(t: TaskView) -> bool {
    t.keep_subtree_until_finished && !is_finished(t.status)
}

/// Whether a task is held: it or one of its ancestors holds its subtree.
pub open spec fn is_held(v: TreeView, id: u64) -> bool
    decreases id,
{
    (v.tasks.contains_key(id) && holds(v.tasks[id])) || (v.parent.contains_key(id) && v.parent[id]
        < id && is_held(v, v.parent[id]))
}

/// Whether every task in the subtree of `id` has finished.
pub open spec fn subtree_finished(v: TreeView, id: u64) -> bool {
    forall|d: u64| #[trigger]
        v.tasks.contains_key(d) && in_subtree(v.parent, id, d) ==> is_finished(v.tasks[d].status)
}

/// The marks after the tasks `ids` were marked at `now`: a task that had a
/// mark keeps it.
pub open spec fn marked_with(marked: Map<u64, Timestamp>, ids: Seq<u64>, now: Timestamp) -> Map<
    u64,
    Timestamp,
> {
    Map::new(
        |d: u64| marked.contains_key(d) || ids.contains(d),
        |d: u64|
            if marked.contains_key(d) {
                marked[d]
            } else {
                now
            },
    )
}

/// Marking one task more: the task gets the mark where it had none.
pub proof fn lemma_marked_with_step(marked: Map<u64, Timestamp>, ids: Seq<u64>, i: int, now: Timestamp)
    requires
        0 <= i < ids.len(),
    ensures
        marked_with(marked, ids.take(i + 1), now) == if marked_with(
            marked,
            ids.take(i),
            now,
        ).contains_key(ids[i]) {
            marked_with(marked, ids.take(i), now)
        } else {
            marked_with(marked, ids.take(i), now).insert(ids[i], now)
        },
{
    let t0 = ids.take(i);
    let t1 = ids.take(i + 1);
    assert forall|x: u64| t1.contains(x) <==> (t0.contains(x) || x == ids[i]) by {
        if t1.contains(x) {
            let j = choose|j: int| 0 <= j < t1.len() && t1[j] == x;
            if j < i {
                assert(t0[j] == x);
            }
        }
        if t0.contains(x) {
            let j = choose|j: int| 0 <= j < t0.len() && t0[j] == x;
            assert(t1[j] == x);
        }
        if x == ids[i] {
            assert(t1[i] == x);
        }
    }
    let m0 = marked_with(marked, t0, now);
    let m1 = marked_with(marked, t1, now);
    if m0.contains_key(ids[i]) {
        assert(m1 =~= m0);
    } else {
        assert(m1 =~= m0.insert(ids[i], now));
    }
}

/// Marking the tasks of a subtree is marking the subtree.
pub proof fn lemma_marked_with_subtree(v: TreeView, id: u64, ids: Seq<u64>, now: Timestamp)
    requires
        forall|d: u64|
            ids.contains(d) <==> (v.tasks.contains_key(d) && in_subtree(v.parent, id, d)),
    ensures
        marked_with(v.marked, ids, now) == marked_subtree(v, id, now),
{
    assert(marked_with(v.marked, ids, now) =~= marked_subtree(v, id, now));
}

/// The marks after the subtree of `id` was marked at `now`: a task that had
/// a mark keeps it.
pub open spec fn marked_subtree(v: TreeView, id: u64, now: Timestamp) -> Map<u64, Timestamp> {
    Map::new(
        |d: u64| v.marked.contains_key(d) || (v.tasks.contains_key(d) && in_subtree(v.parent, id, d)),
        |d: u64|
            if v.marked.contains_key(d) {
                v.marked[d]
            } else {
                now
            },
    )
}

/// The marks after marking went up from `id`: where the whole subtree of
/// `id` has finished it is marked, and marking goes on at the parent, which
/// this subtree may have been the last to keep from being marked.
pub open spec fn marked_upward(v: TreeView, id: u64, now: Timestamp) -> Map<u64, Timestamp>
    decreases id,
{
    if subtree_finished(v, id) {
        let m = marked_subtree(v, id, now);
        if v.parent.contains_key(id) && v.parent[id] < id {
            marked_upward(TreeView { marked: m, ..v }, v.parent[id], now)
        } else {
            m
        }
    } else {
        v.marked
    }
}

/// The marks after `id` was offered for removal at `now`: nothing is marked
/// while the task is held.
pub open spec fn marked_for_gc(v: TreeView, id: u64, now: Timestamp) -> Map<u64, Timestamp> {
    if is_held(v, id) {
        v.marked
    } else {
        marked_upward(v, id, now)
    }
}

/// The tree after the task `id` was ended at `now`. A running task becomes
/// finished, is offered for removal, and its end waits for delivery. A task
/// that has finished already, or that the tree does not know, changes
/// nothing.
pub open spec fn done(v: TreeView, id: u64, error_message: Option<Seq<char>>, now: Timestamp) -> TreeView {
    if v.tasks.contains_key(id) && !is_finished(v.tasks[id].status) {
        let v1 = with_task(
            v,
            id,
            TaskView { status: done_status(error_message, now), ..v.tasks[id] },
        );
        TreeView { marked: marked_for_gc(v1, id, now), pending_end: v.pending_end.push(id), ..v1 }
    } else {
        v
    }
}

/// Ending a task a second time changes nothing: the first end stands.
pub proof fn lemma_done_twice(
    v: TreeView,
    id: u64,
    first: Option<Seq<char>>,
    at: Timestamp,
    second: Option<Seq<char>>,
    later: Timestamp,
)
    ensures
        done(done(v, id, first, at), id, second, later) == done(v, id, first, at),
{
}

/// The end of a task is queued when a running task is ended, once, and
/// never without the task having been created before.
pub proof fn lemma_done_queues_end(v: TreeView, id: u64, error_message: Option<Seq<char>>, now: Timestamp)
    ensures
        done(v, id, error_message, now).pending_start == v.pending_start,
        done(v, id, error_message, now).pending_end == if v.tasks.contains_key(id) && !is_finished(
            v.tasks[id].status,
        ) {
            v.pending_end.push(id)
        } else {
            v.pending_end
        },
{
}

/// Offering a task that the tree does not know marks nothing.
pub proof fn lemma_unknown_marks_nothing(v: TreeView, id: u64, now: Timestamp)
    requires
        tree_invariant(v),
        !v.tasks.contains_key(id),
    ensures
        marked_for_gc(v, id, now) == v.marked,
{
    if !is_held(v, id) && subtree_finished(v, id) {
        assert forall|d: u64| v.tasks.contains_key(d) implies !in_subtree(v.parent, id, d) by {
            if in_subtree(v.parent, id, d) {
                lemma_subtree_of_known(v, id, d);
            }
        }
        assert(marked_subtree(v, id, now) =~= v.marked);
    }
}

/// Marking a subtree of finished tasks keeps the invariant.
pub proof fn lemma_marked_subtree_invariant(v: TreeView, id: u64, now: Timestamp)
    requires
        tree_invariant(v),
        subtree_finished(v, id),
    ensures
        tree_invariant(TreeView { marked: marked_subtree(v, id, now), ..v }),
{
}

/// Marking upward keeps the invariant.
pub proof fn lemma_marked_upward_invariant(v: TreeView, id: u64, now: Timestamp)
    requires
        tree_invariant(v),
    ensures
        tree_invariant(TreeView { marked: marked_upward(v, id, now), ..v }),
    decreases id,
{
    if subtree_finished(v, id) {
        lemma_marked_subtree_invariant(v, id, now);
        let v1 = TreeView { marked: marked_subtree(v, id, now), ..v };
        if v.parent.contains_key(id) && v.parent[id] < id {
            lemma_marked_upward_invariant(v1, v.parent[id], now);
        }
    }
}

/// Ending a task keeps the invariant.
pub proof fn lemma_done_invariant(v: TreeView, id: u64, error_message: Option<Seq<char>>, now: Timestamp)
    requires
        tree_invariant(v),
    ensures
        tree_invariant(done(v, id, error_message, now)),
{
    if v.tasks.contains_key(id) && !is_finished(v.tasks[id].status) {
        let t = TaskView { status: done_status(error_message, now), ..v.tasks[id] };
        lemma_with_task_invariant(v, id, t);
        let v1 = with_task(v, id, t);
        lemma_marked_upward_invariant(v1, id, now);
        let v2 = TreeView { marked: marked_for_gc(v1, id, now), ..v1 };
        if is_held(v1, id) {
            assert(v2 == v1);
        }
        assert(tree_invariant(v2));
        let w = done(v, id, error_message, now);
        assert forall|x: u64| #[trigger] w.marked.contains_key(x) implies w.tasks.contains_key(x)
            && is_finished(w.tasks[x].status) by {
            assert(v2.marked.contains_key(x));
        }
        assert forall|i: int| 0 <= i < w.pending_end.len() implies #[trigger] w.pending_end[i]
            < w.next_id by {
            if i < v.pending_end.len() {
                assert(v2.pending_end[i] < v2.next_id);
            }
        }
    }
}

/// A task that ends while another task of its subtree still runs is not
/// marked for removal.
pub proof fn lemma_not_marked_while_descendant_runs(
    v: TreeView,
    id: u64,
    error_message: Option<Seq<char>>,
    now: Timestamp,
    d: u64,
)
    requires
        tree_invariant(v),
        v.tasks.contains_key(id),
        !is_finished(v.tasks[id].status),
        v.tasks.contains_key(d),
        d != id,
        in_subtree(v.parent, id, d),
        !is_finished(v.tasks[d].status),
    ensures
        !done(v, id, error_message, now).marked.contains_key(id),
{
    let t = TaskView { status: done_status(error_message, now), ..v.tasks[id] };
    let v1 = with_task(v, id, t);
    assert(v1.tasks.contains_key(d) && in_subtree(v1.parent, id, d));
    assert(!subtree_finished(v1, id));
}

/// Once a task is ended, the trace of each of its ancestors, and its own,
/// shows when it finished.
pub proof fn lemma_done_seen_in_trace(
    v: TreeView,
    id: u64,
    error_message: Option<Seq<char>>,
    now: Timestamp,
    ancestor: u64,
    trace: Map<u64, TaskTraceView>,
)
    requires
        v.tasks.contains_key(id),
        in_subtree(v.parent, ancestor, id),
        is_trace_of(done(v, id, error_message, now), ancestor, trace),
    ensures
        trace.contains_key(id),
        trace[id].finished_at is Some,
{
    let w = done(v, id, error_message, now);
    assert(w.tasks.contains_key(id) && in_subtree(w.parent, ancestor, id));
    assert(trace.contains_key(id));
    assert(trace[id] == trace_of_task(w, id));
    assert(is_finished(w.tasks[id].status));
}

/// Ending a task does not make it held: a task that ends holds nothing.
proof fn lemma_held_same(v: TreeView, v1: TreeView, ended: u64, id: u64)
    requires
        v1.parent == v.parent,
        v.tasks.contains_key(ended),
        v1.tasks == v.tasks.insert(ended, v1.tasks[ended]),
        is_finished(v1.tasks[ended].status),
    ensures
        is_held(v1, id) ==> is_held(v, id),
    decreases id,
{
    if v.parent.contains_key(id) && v.parent[id] < id {
        lemma_held_same(v, v1, ended, v.parent[id]);
    }
}

/// Marking upward keeps the marks that are there.
pub(crate) proof fn lemma_marked_upward_keeps(v: TreeView, id: u64, now: Timestamp, d: u64)
    requires
        v.marked.contains_key(d),
    ensures
        marked_upward(v, id, now).contains_key(d),
        marked_upward(v, id, now)[d] == v.marked[d],
    decreases id,
{
    if subtree_finished(v, id) {
        let m = marked_subtree(v, id, now);
        if v.parent.contains_key(id) && v.parent[id] < id {
            lemma_marked_upward_keeps(TreeView { marked: m, ..v }, v.parent[id], now, d);
        }
    }
}

/// A running task without children that is not held is marked when it ends,
/// with the instant of its end.
pub proof fn lemma_childless_task_marked(v: TreeView, id: u64, error_message: Option<Seq<char>>, now: Timestamp)
    requires
        tree_invariant(v),
        v.tasks.contains_key(id),
        !is_finished(v.tasks[id].status),
        kids(v, id).len() == 0,
        !is_held(v, id),
    ensures
        done(v, id, error_message, now).marked.contains_key(id),
        done(v, id, error_message, now).marked[id] == now,
{
    let t = TaskView { status: done_status(error_message, now), ..v.tasks[id] };
    let v1 = with_task(v, id, t);
    lemma_with_task_invariant(v, id, t);
    lemma_held_same(v, v1, id, id);
    assert(!is_held(v1, id));
    assert forall|d: u64| #[trigger]
        v1.tasks.contains_key(d) && in_subtree(v1.parent, id, d) implies is_finished(
        v1.tasks[d].status,
    ) by {
        if d != id {
            let c = lemma_subtree_child(v1, id, d);
            assert(v1.children.contains_key(v1.parent[c]));
            assert(v1.children[id].contains(c));
        }
    }
    assert(subtree_finished(v1, id));
    assert(in_subtree(v1.parent, id, id));
    let m = marked_subtree(v1, id, now);
    assert(m.contains_key(id) && m[id] == now);
    if v1.parent.contains_key(id) && v1.parent[id] < id {
        lemma_marked_upward_keeps(TreeView { marked: m, ..v1 }, v1.parent[id], now, id);
    }
}

/// A task below an unheld task whose whole subtree has finished is not held
/// either.
proof fn lemma_not_held_below(v: TreeView, a: u64, d: u64)
    requires
        subtree_finished(v, a),
        in_subtree(v.parent, a, d),
        !is_held(v, a),
    ensures
        !is_held(v, d),
    decreases d,
{
    if d != a {
        lemma_not_held_below(v, a, v.parent[d]);
        if v.tasks.contains_key(d) {
            assert(is_finished(v.tasks[d].status));
        }
    }
}

proof fn lemma_held_ignores_marks(v: TreeView, w: TreeView, id: u64)
    requires
        w.tasks == v.tasks,
        w.parent == v.parent,
    ensures
        is_held(w, id) == is_held(v, id),
    decreases id,
{
    if v.parent.contains_key(id) && v.parent[id] < id {
        lemma_held_ignores_marks(v, w, v.parent[id]);
    }
}

proof fn lemma_marked_upward_new(v: TreeView, id: u64, now: Timestamp, d: u64)
    requires
        !is_held(v, id),
        marked_upward(v, id, now).contains_key(d),
        !v.marked.contains_key(d),
    ensures
        v.tasks.contains_key(d),
        marked_upward(v, id, now)[d] == now,
        !is_held(v, d),
        exists|a: u64| #[trigger] in_subtree(v.parent, a, d) && subtree_finished(v, a),
    decreases id,
{
    if subtree_finished(v, id) {
        let m = marked_subtree(v, id, now);
        let v1 = TreeView { marked: m, ..v };
        if m.contains_key(d) {
            assert(in_subtree(v.parent, id, d));
            lemma_not_held_below(v, id, d);
            if v.parent.contains_key(id) && v.parent[id] < id {
                lemma_marked_upward_keeps(v1, v.parent[id], now, d);
            }
        } else {
            assert(is_held(v1, v.parent[id]) == is_held(v, v.parent[id])) by {
                lemma_held_ignores_marks(v, v1, v.parent[id]);
            }
            assert(subtree_finished(v1, id) == subtree_finished(v, id));
            lemma_marked_upward_new(v1, v.parent[id], now, d);
            lemma_held_ignores_marks(v, v1, d);
            let a = choose|a: u64| #[trigger]
                in_subtree(v1.parent, a, d) && subtree_finished(v1, a);
            assert(in_subtree(v.parent, a, d) && subtree_finished(v, a));
        }
    }
}

/// A task gets a mark only when it is not held and stands in a subtree all
/// of whose tasks have finished, and the mark is the instant of the marking.
pub proof fn lemma_marked_only_when_finished(v: TreeView, id: u64, now: Timestamp, d: u64)
    requires
        marked_for_gc(v, id, now).contains_key(d),
        !v.marked.contains_key(d),
    ensures
        v.tasks.contains_key(d),
        marked_for_gc(v, id, now)[d] == now,
        !is_held(v, d),
        exists|a: u64| #[trigger] in_subtree(v.parent, a, d) && subtree_finished(v, a),
{
    lemma_marked_upward_new(v, id, now, d);
}

/// With synchronous delivery on, the events that a call hands back when a
/// running task was ended hold the end of that task, as the last of the
/// ends and with the task finished, and the queues are empty afterwards.
pub proof fn lemma_flush_hands_over_end(
    v: TreeView,
    id: u64,
    error_message: Option<Seq<char>>,
    now: Timestamp,
)
    requires
        v.tasks.contains_key(id),
        !is_finished(v.tasks[id].status),
    ensures
        ({
            let w = done(v, id, error_message, now);
            &&& snapshots(w, w.pending_end).len() > 0
            &&& snapshots(w, w.pending_end).last() == w.tasks[id]
            &&& w.tasks[id].status == done_status(error_message, now)
            &&& maybe_flushed(w, true).pending_start.len() == 0
            &&& maybe_flushed(w, true).pending_end.len() == 0
        }),
{
    let w = done(v, id, error_message, now);
    assert(w.pending_end.last() == id);
    assert(w.tasks.contains_key(id));
}

} // verus!
