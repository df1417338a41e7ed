//! The sweep: which tasks it removes, and what is left of the tree.

use crate::ids::{increasing, kept, lemma_kept_contains, lemma_kept_increasing, lemma_kept_twice};
use crate::marking::is_held;
use crate::task_internal::is_finished;
use crate::time::Timestamp;
use crate::tree_view::{
    in_subtree, kids, lemma_child_facts, lemma_subtree_child, lemma_subtree_down, tree_invariant,
    TreeView,
};
use vstd::prelude::*;

verus! {

/// Whether a mark made at `marked_at` has outlived the grace period at
/// `now`. It has not where the clock went back in between.
pub open spec fn expired(marked_at: Timestamp, now: Timestamp, grace_ms: u64) -> bool {
    match now.since(marked_at) {
        Some(d) => d > grace_ms,
        None => false,
    }
}

/// Whether nothing of its own keeps a task in the tree at `now`: it is
/// marked, its mark has outlived the grace period, and neither the task nor
/// an ancestor of it holds its subtree.
pub open spec fn removable(v: TreeView, d: u64, now: Timestamp) -> bool {
    &&& v.marked.contains_key(d)
    &&& expired(v.marked[d], now, v.remove_task_after_done_ms)
    &&& !is_held(v, d)
}

/// Whether a sweep at `now` removes the task `id`: every task of its
/// subtree, itself included, is removable.
pub open spec fn collectible(v: TreeView, id: u64, now: Timestamp) -> bool {
    &&& v.tasks.contains_key(id)
    &&& forall|d: u64|
        v.tasks.contains_key(d) && #[trigger] in_subtree(v.parent, id, d) ==> removable(v, d, now)
}

/// The tasks that a sweep at `now` removes.
pub open spec fn collectible_set(v: TreeView, now: Timestamp) -> Set<u64> {
    Set::new(|id: u64| collectible(v, id, now))
}

/// The tree without the tasks in `gone`: their records, their marks and
/// their places in both indices and among the roots are erased.
pub open spec fn without(v: TreeView, gone: Set<u64>) -> TreeView {
    TreeView {
        tasks: v.tasks.remove_keys(gone),
        children: Map::new(
            |p: u64| v.children.contains_key(p) && !gone.contains(p),
            |p: u64| kept(v.children[p], gone),
        ),
        parent: v.parent.remove_keys(gone),
        roots: kept(v.roots, gone),
        marked: v.marked.remove_keys(gone),
        ..v
    }
}

/// The tree after a sweep at `now`.
pub open spec fn swept(v: TreeView, now: Timestamp) -> TreeView {
    without(v, collectible_set(v, now))
}

/// The children of a task that a sweep removes are removed with it.
pub proof fn lemma_collectible_down(v: TreeView, p: u64, c: u64, now: Timestamp)
    requires
        tree_invariant(v),
        v.parent.contains_key(c),
        v.parent[c] == p,
        collectible(v, p, now),
    ensures
        collectible(v, c, now),
{
    assert forall|d: u64|
        v.tasks.contains_key(d) && #[trigger] in_subtree(v.parent, c, d) implies removable(
        v,
        d,
        now,
    ) by {
        lemma_subtree_down(v, p, c, d);
    }
}

/// A sweep removes a task exactly if the task is removable and the sweep
/// removes all its children.
pub proof fn lemma_collectible_unfold(v: TreeView, id: u64, now: Timestamp)
    requires
        tree_invariant(v),
        v.tasks.contains_key(id),
    ensures
        collectible(v, id, now) <==> (removable(v, id, now) && forall|i: int|
            0 <= i < kids(v, id).len() ==> collectible(v, #[trigger] kids(v, id)[i], now)),
{
    let ks = kids(v, id);
    if collectible(v, id, now) {
        assert(in_subtree(v.parent, id, id));
        assert forall|i: int| 0 <= i < ks.len() implies collectible(v, #[trigger] ks[i], now) by {
            assert(v.children[id].contains(ks[i]));
            lemma_child_facts(v, id, ks[i]);
            lemma_collectible_down(v, id, ks[i], now);
        }
    }
    if removable(v, id, now) && forall|i: int|
        0 <= i < ks.len() ==> collectible(v, #[trigger] ks[i], now) {
        assert forall|d: u64|
            v.tasks.contains_key(d) && #[trigger] in_subtree(v.parent, id, d) implies removable(
            v,
            d,
            now,
        ) by {
            if d != id {
                let c = lemma_subtree_child(v, id, d);
                assert(v.children.contains_key(v.parent[c]));
                assert(v.children[id].contains(c));
                let i = choose|i: int| 0 <= i < ks.len() && ks[i] == c;
                assert(collectible(v, ks[i], now));
                assert(in_subtree(v.parent, c, d));
            }
        }
    }
}

/// Whether `gone` can be taken out of the tree and leave it whole: with a
/// task go its children.
pub open spec fn can_go(v: TreeView, gone: Set<u64>) -> bool {
    forall|c: u64| #[trigger]
        v.parent.contains_key(c) && gone.contains(v.parent[c]) ==> gone.contains(c)
}

/// Taking such tasks out keeps the invariant.
pub proof fn lemma_without_invariant(v: TreeView, gone: Set<u64>)
    requires
        tree_invariant(v),
        can_go(v, gone),
    ensures
        tree_invariant(without(v, gone)),
{
    let w = without(v, gone);
    assert forall|id: u64| #[trigger] w.tasks.contains_key(id) implies id < w.next_id
        && w.tasks[id].id == id by {
        assert(v.tasks.contains_key(id));
    }
    assert forall|id: u64| #[trigger] w.tasks.contains_key(id) implies (w.roots.contains(id)
        <==> !w.parent.contains_key(id)) by {
        assert(v.tasks.contains_key(id));
        lemma_kept_contains(v.roots, gone, id);
    }
    assert forall|i: int| 0 <= i < w.roots.len() implies w.tasks.contains_key(
        #[trigger] w.roots[i],
    ) by {
        assert(w.roots.contains(w.roots[i]));
        lemma_kept_contains(v.roots, gone, w.roots[i]);
        let j = choose|j: int| 0 <= j < v.roots.len() && v.roots[j] == w.roots[i];
        assert(v.tasks.contains_key(v.roots[j]));
    }
    lemma_kept_increasing(v.roots, gone);
    assert forall|c: u64| #[trigger] w.parent.contains_key(c) implies w.tasks.contains_key(c)
        && w.tasks.contains_key(w.parent[c]) && w.parent[c] < c && w.children.contains_key(
        w.parent[c],
    ) && w.children[w.parent[c]].contains(c) by {
        assert(v.parent.contains_key(c));
        lemma_kept_contains(v.children[v.parent[c]], gone, c);
    }
    assert forall|p: u64, c: u64|
        w.children.contains_key(p) && #[trigger] w.children[p].contains(
            c,
        ) implies w.parent.contains_key(c) && w.parent[c] == p by {
        lemma_kept_contains(v.children[p], gone, c);
        assert(v.children[p].contains(c));
    }
    assert forall|p: u64| #[trigger] w.children.contains_key(p) implies w.tasks.contains_key(p)
        && increasing(w.children[p]) by {
        assert(v.children.contains_key(p));
        lemma_kept_increasing(v.children[p], gone);
    }
    assert forall|i: int| 0 <= i < w.pending_start.len() implies #[trigger] w.pending_start[i]
        < w.next_id by {
        assert(v.pending_start[i] < v.next_id);
    }
    assert forall|i: int| 0 <= i < w.pending_end.len() implies #[trigger] w.pending_end[i]
        < w.next_id by {
        assert(v.pending_end[i] < v.next_id);
    }
    assert forall|id: u64| #[trigger] w.marked.contains_key(id) implies w.tasks.contains_key(id)
        && is_finished(w.tasks[id].status) by {
        assert(v.marked.contains_key(id));
    }
}

/// A sweep keeps the invariant.
pub proof fn lemma_swept_invariant(v: TreeView, now: Timestamp)
    requires
        tree_invariant(v),
    ensures
        tree_invariant(swept(v, now)),
{
    let gone = collectible_set(v, now);
    assert forall|c: u64| #[trigger]
        v.parent.contains_key(c) && gone.contains(v.parent[c]) implies gone.contains(c) by {
        lemma_collectible_down(v, v.parent[c], c, now);
    }
    lemma_without_invariant(v, gone);
}

/// A sweep removes a task without children that is marked for longer than
/// the grace period and has no event waiting for delivery.
pub proof fn lemma_childless_task_swept(v: TreeView, id: u64, now: Timestamp)
    requires
        tree_invariant(v),
        v.tasks.contains_key(id),
        kids(v, id).len() == 0,
        removable(v, id, now),
    ensures
        !swept(v, now).tasks.contains_key(id),
{
    lemma_collectible_unfold(v, id, now);
    assert(collectible_set(v, now).contains(id));
}

/// A sweep removes no task of whose subtree a task still runs, and leaves
/// the records that stay as they are.
pub proof fn lemma_sweep_keeps_unfinished(v: TreeView, id: u64, d: u64, now: Timestamp)
    requires
        tree_invariant(v),
        v.tasks.contains_key(id),
        v.tasks.contains_key(d),
        in_subtree(v.parent, id, d),
        !is_finished(v.tasks[d].status),
    ensures
        swept(v, now).tasks.contains_key(id),
        swept(v, now).tasks[id] == v.tasks[id],
{
    if collectible(v, id, now) {
        assert(removable(v, d, now));
    }
}

/// Taking one more task out of a tree from which `g` is gone gives the tree
/// from which `g` and that task are gone.
pub proof fn lemma_without_one_more(v0: TreeView, g: Set<u64>, id0: u64)
    ensures
        without(without(v0, g), set![id0]) == without(v0, g.insert(id0)),
{
    let cur = without(v0, g);
    let a = without(cur, set![id0]);
    let b = without(v0, g.insert(id0));
    assert(g.union(set![id0]) =~= g.insert(id0));
    assert(a.tasks =~= b.tasks);
    assert(a.parent =~= b.parent);
    assert(a.marked =~= b.marked);
    lemma_kept_twice(v0.roots, g, set![id0]);
    assert(a.roots == b.roots);
    assert forall|p: u64| a.children.contains_key(p) implies #[trigger] a.children[p]
        == b.children[p] by {
        lemma_kept_twice(v0.children[p], g, set![id0]);
    }
    assert(a.children =~= b.children);
}

/// Whether a task is held does not depend on tasks that were created
/// after it.
pub proof fn lemma_held_without(v: TreeView, gone: Set<u64>, id: u64)
    requires
        forall|x: u64| gone.contains(x) ==> x > id,
    ensures
        is_held(without(v, gone), id) == is_held(v, id),
    decreases id,
{
    let w = without(v, gone);
    assert(w.tasks.contains_key(id) == v.tasks.contains_key(id));
    assert(w.parent.contains_key(id) == v.parent.contains_key(id));
    if v.parent.contains_key(id) && v.parent[id] < id {
        lemma_held_without(v, gone, v.parent[id]);
    }
}

/// A sweep removes no task that is held.
pub proof fn lemma_sweep_keeps_held(v: TreeView, id: u64, now: Timestamp)
    requires
        v.tasks.contains_key(id),
        is_held(v, id),
    ensures
        swept(v, now).tasks.contains_key(id),
        swept(v, now).tasks[id] == v.tasks[id],
{
    if collectible(v, id, now) {
        assert(in_subtree(v.parent, id, id));
    }
}

/// The tasks that a sweep has removed when it has looked at all of `ids`
/// but the first `i`.
pub open spec fn gone_after(v: TreeView, ids: Seq<u64>, i: int, now: Timestamp) -> Set<u64> {
    Set::new(|id: u64| collectible(v, id, now) && !ids.take(i).contains(id))
}

proof fn lemma_gone_step(v: TreeView, ids: Seq<u64>, i: int, now: Timestamp)
    requires
        increasing(ids),
        0 < i <= ids.len(),
    ensures
        !gone_after(v, ids, i, now).contains(ids[i - 1]),
        collectible(v, ids[i - 1], now) ==> gone_after(v, ids, i - 1, now) == gone_after(
            v,
            ids,
            i,
            now,
        ).insert(ids[i - 1]),
        !collectible(v, ids[i - 1], now) ==> gone_after(v, ids, i - 1, now) == gone_after(
            v,
            ids,
            i,
            now,
        ),
        forall|c: u64| c > ids[i - 1] ==> !ids.take(i).contains(c),
{
    let id0 = ids[i - 1];
    let g = gone_after(v, ids, i, now);
    let g1 = gone_after(v, ids, i - 1, now);
    let t1 = ids.take(i);
    let t0 = ids.take(i - 1);
    assert(t1[i - 1] == id0);
    assert(t1.contains(id0));
    assert(!t0.contains(id0)) by {
        if t0.contains(id0) {
            let j = choose|j: int| 0 <= j < t0.len() && t0[j] == id0;
            assert(ids[j] < ids[i - 1]);
        }
    }
    assert forall|x: u64| x != id0 implies (t1.contains(x) <==> t0.contains(x)) by {
        if t1.contains(x) {
            let j = choose|j: int| 0 <= j < t1.len() && t1[j] == x;
            assert(t0[j] == x);
        }
        if t0.contains(x) {
            let j = choose|j: int| 0 <= j < t0.len() && t0[j] == x;
            assert(t1[j] == x);
        }
    }
    if collectible(v, id0, now) {
        assert(g1 =~= g.insert(id0));
    } else {
        assert(g1 =~= g);
    }
    assert forall|c: u64| c > id0 implies !t1.contains(c) by {
        if t1.contains(c) {
            let j = choose|j: int| 0 <= j < t1.len() && t1[j] == c;
            if j < i - 1 {
                assert(ids[j] < ids[i - 1]);
            }
        }
    }
}

proof fn lemma_no_kids_left(v: TreeView, id0: u64, g: Set<u64>, now: Timestamp)
    requires
        tree_invariant(v),
        v.tasks.contains_key(id0),
        forall|c: u64| c > id0 ==> (g.contains(c) <==> collectible(v, c, now)),
    ensures
        (kept(kids(v, id0), g).len() == 0) <==> (forall|k: int|
            0 <= k < kids(v, id0).len() ==> collectible(v, #[trigger] kids(v, id0)[k], now)),
{
    let ks = kids(v, id0);
    assert forall|k: int| 0 <= k < ks.len() implies (g.contains(#[trigger] ks[k]) <==> collectible(
        v,
        ks[k],
        now,
    )) by {
        assert(v.children[id0].contains(ks[k]));
        lemma_child_facts(v, id0, ks[k]);
    }
    if kept(ks, g).len() == 0 {
        assert forall|k: int| 0 <= k < ks.len() implies collectible(v, #[trigger] ks[k], now) by {
            lemma_kept_contains(ks, g, ks[k]);
            assert(ks.contains(ks[k]));
            if !g.contains(ks[k]) {
                let j = choose|j: int| 0 <= j < kept(ks, g).len() && kept(ks, g)[j] == ks[k];
            }
        }
    } else {
        let x = kept(ks, g)[0];
        assert(kept(ks, g).contains(x));
        lemma_kept_contains(ks, g, x);
        let k = choose|k: int| 0 <= k < ks.len() && ks[k] == x;
        assert(!collectible(v, ks[k], now));
    }
}

pub(crate) proof fn lemma_sweep_step(v: TreeView, ids: Seq<u64>, i: int, now: Timestamp)
    requires
        tree_invariant(v),
        increasing(ids),
        forall|id: u64| ids.contains(id) <==> #[trigger] v.tasks.contains_key(id),
        0 < i <= ids.len(),
    ensures
        ({
            let id0 = ids[i - 1];
            let cur = without(v, gone_after(v, ids, i, now));
            &&& cur.tasks.contains_key(id0)
            &&& (removable(cur, id0, now) && kids(cur, id0).len() == 0) <==> collectible(
                v,
                id0,
                now,
            )
            &&& collectible(v, id0, now) ==> gone_after(v, ids, i - 1, now) == gone_after(
                v,
                ids,
                i,
                now,
            ).insert(id0)
            &&& !collectible(v, id0, now) ==> gone_after(v, ids, i - 1, now) == gone_after(
                v,
                ids,
                i,
                now,
            )
        }),
{
    let id0 = ids[i - 1];
    let g = gone_after(v, ids, i, now);
    let cur = without(v, g);
    lemma_gone_step(v, ids, i, now);
    assert(ids.contains(id0)) by {
        assert(ids[i - 1] == id0);
    }
    assert(v.tasks.contains_key(id0));
    lemma_collectible_unfold(v, id0, now);
    lemma_no_kids_left(v, id0, g, now);
    if v.children.contains_key(id0) {
        assert(kids(cur, id0) == kept(kids(v, id0), g));
    } else {
        assert(kids(cur, id0) =~= Seq::<u64>::empty());
        assert(kept(kids(v, id0), g) =~= Seq::<u64>::empty());
    }
    assert forall|x: u64| g.contains(x) implies x > id0 by {
        assert(v.tasks.contains_key(x));
        assert(ids.contains(x));
        let j = choose|j: int| 0 <= j < ids.len() && ids[j] == x;
        if j < i {
            assert(ids.take(i)[j] == x);
        } else {
            assert(ids[i - 1] < ids[j]);
        }
    }
    lemma_held_without(v, g, id0);
    assert(removable(cur, id0, now) == removable(v, id0, now));
}

/// A sweep leaves the queues, the settings and the next identifier as they
/// are, and every record that stays.
pub proof fn lemma_sweep_leaves(v: TreeView, now: Timestamp, id: u64)
    ensures
        swept(v, now).pending_start == v.pending_start,
        swept(v, now).pending_end == v.pending_end,
        swept(v, now).next_id == v.next_id,
        swept(v, now).data_transitive == v.data_transitive,
        swept(v, now).remove_task_after_done_ms == v.remove_task_after_done_ms,
        swept(v, now).tasks.contains_key(id) ==> v.tasks.contains_key(id) && swept(
            v,
            now,
        ).tasks[id] == v.tasks[id],
        swept(v, now).marked.contains_key(id) ==> v.marked.contains_key(id) && swept(
            v,
            now,
        ).marked[id] == v.marked[id],
{
}

/// A sweep removes only tasks that have finished, are marked for longer
/// than the grace period and are not held: a task that runs or has no mark
/// stays, and so does a task whose mark is younger.
pub proof fn lemma_sweep_removes_only(v: TreeView, now: Timestamp, id: u64)
    requires
        tree_invariant(v),
        v.tasks.contains_key(id),
        !swept(v, now).tasks.contains_key(id),
    ensures
        v.marked.contains_key(id),
        expired(v.marked[id], now, v.remove_task_after_done_ms),
        is_finished(v.tasks[id].status),
        !is_held(v, id),
        !swept(v, now).marked.contains_key(id),
{
    assert(collectible(v, id, now));
    assert(in_subtree(v.parent, id, id));
}

/// What a sweep does to a marked root without children: where the mark has
/// outlived the grace period the root is gone from the tasks, from the
/// roots, from the marks and from the index of children; where it has not,
/// the root stays in all of them.
pub proof fn lemma_childless_root_swept(v: TreeView, r: u64, now: Timestamp)
    requires
        tree_invariant(v),
        v.roots.contains(r),
        kids(v, r).len() == 0,
        v.marked.contains_key(r),
    ensures
        expired(v.marked[r], now, v.remove_task_after_done_ms) ==> !swept(
            v,
            now,
        ).tasks.contains_key(r) && !swept(v, now).roots.contains(r) && !swept(
            v,
            now,
        ).marked.contains_key(r) && !swept(v, now).children.contains_key(r),
        !expired(v.marked[r], now, v.remove_task_after_done_ms) ==> swept(
            v,
            now,
        ).tasks.contains_key(r) && swept(v, now).roots.contains(r) && swept(
            v,
            now,
        ).marked.contains_key(r) && swept(v, now).marked[r] == v.marked[r],
{
    let i = choose|i: int| 0 <= i < v.roots.len() && v.roots[i] == r;
    assert(v.tasks.contains_key(v.roots[i]));
    assert(!v.parent.contains_key(r));
    assert(is_finished(v.tasks[r].status));
    assert(!is_held(v, r));
    lemma_kept_contains(v.roots, collectible_set(v, now), r);
    if expired(v.marked[r], now, v.remove_task_after_done_ms) {
        lemma_childless_task_swept(v, r, now);
    } else {
        if collectible(v, r, now) {
            assert(in_subtree(v.parent, r, r));
        }
    }
}

} // verus!
