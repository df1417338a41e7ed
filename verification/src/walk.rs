//! What a walk over a subtree has gathered, step by step.
//!
//! The walk visits a task and then, one after the other, the subtrees of
//! its children. The two predicates say what the list of visited tasks
//! holds at the end and in between, and the lemmas lead from one step to
//! the next, so that the walk itself needs no quantifier.

use crate::tree_view::{
    in_forest, in_subtree, kids, lemma_forest_step, lemma_subtree_child, lemma_subtree_down,
    tree_invariant, TreeView,
};
use vstd::prelude::*;

verus! {

/// `after` holds what `before` holds and the tasks of the subtree of `id`.
#[verifier::opaque]
pub open spec fn gathered(v: TreeView, before: Seq<u64>, after: Seq<u64>, id: u64) -> bool {
    forall|d: u64|
        after.contains(d) <==> (before.contains(d) || (v.tasks.contains_key(d) && in_subtree(
            v.parent,
            id,
            d,
        )))
}

/// `after` holds what `before` holds, `id` itself, and the tasks of the
/// subtrees of the first `k` of `nodes`.
#[verifier::opaque]
pub open spec fn gathered_part(
    v: TreeView,
    before: Seq<u64>,
    after: Seq<u64>,
    id: u64,
    nodes: Seq<u64>,
    k: int,
) -> bool {
    forall|d: u64|
        after.contains(d) <==> (before.contains(d) || d == id || (v.tasks.contains_key(d)
            && in_forest(v.parent, nodes.take(k), d)))
}

/// What a finished walk says of each task.
pub proof fn lemma_gathered(v: TreeView, before: Seq<u64>, after: Seq<u64>, id: u64)
    requires
        gathered(v, before, after, id),
    ensures
        forall|d: u64|
            after.contains(d) <==> (before.contains(d) || (v.tasks.contains_key(d) && in_subtree(
                v.parent,
                id,
                d,
            ))),
{
    reveal(gathered);
}

/// The walk begins with the task itself.
pub proof fn lemma_walk_begins(v: TreeView, before: Seq<u64>, id: u64, nodes: Seq<u64>)
    ensures
        gathered_part(v, before, before.push(id), id, nodes, 0),
{
    reveal(gathered_part);
    let after = before.push(id);
    assert forall|d: u64|
        after.contains(d) <==> (before.contains(d) || d == id || (v.tasks.contains_key(d)
            && in_forest(v.parent, nodes.take(0), d))) by {
        assert(nodes.take(0).len() == 0);
        if before.contains(d) {
            let i = choose|i: int| 0 <= i < before.len() && before[i] == d;
            assert(after[i] == d);
        }
        if d == id {
            assert(after[before.len() as int] == d);
        }
        if after.contains(d) {
            let i = choose|i: int| 0 <= i < after.len() && after[i] == d;
            if i < before.len() {
                assert(before[i] == d);
            }
        }
    }
}

/// The walk goes on with the subtree of the next of `nodes`.
pub proof fn lemma_walk_goes_on(
    v: TreeView,
    before: Seq<u64>,
    mid: Seq<u64>,
    after: Seq<u64>,
    id: u64,
    nodes: Seq<u64>,
    k: int,
)
    requires
        0 <= k < nodes.len(),
        gathered_part(v, before, mid, id, nodes, k),
        gathered(v, mid, after, nodes[k]),
    ensures
        gathered_part(v, before, after, id, nodes, k + 1),
{
    reveal(gathered);
    reveal(gathered_part);
    assert forall|d: u64|
        after.contains(d) <==> (before.contains(d) || d == id || (v.tasks.contains_key(d)
            && in_forest(v.parent, nodes.take(k + 1), d))) by {
        lemma_forest_step(v.parent, nodes, k, d);
        assert(mid.contains(d) <==> (before.contains(d) || d == id || (v.tasks.contains_key(d)
            && in_forest(v.parent, nodes.take(k), d))));
    }
}

/// The walk ends when the subtrees of all the children of the task have
/// been visited.
pub proof fn lemma_walk_ends(v: TreeView, before: Seq<u64>, after: Seq<u64>, id: u64)
    requires
        tree_invariant(v),
        v.tasks.contains_key(id),
        gathered_part(v, before, after, id, kids(v, id), kids(v, id).len() as int),
    ensures
        gathered(v, before, after, id),
{
    reveal(gathered);
    reveal(gathered_part);
    let nodes = kids(v, id);
    assert(nodes.take(nodes.len() as int) =~= nodes);
    assert forall|d: u64|
        after.contains(d) <==> (before.contains(d) || (v.tasks.contains_key(d) && in_subtree(
            v.parent,
            id,
            d,
        ))) by {
        assert(after.contains(d) <==> (before.contains(d) || d == id || (v.tasks.contains_key(d)
            && in_forest(v.parent, nodes, d))));
        if v.tasks.contains_key(d) && in_subtree(v.parent, id, d) && d != id {
            let c = lemma_subtree_child(v, id, d);
            assert(v.children.contains_key(v.parent[c]));
            assert(v.children[id].contains(c));
            let j = choose|j: int| 0 <= j < nodes.len() && nodes[j] == c;
            assert(in_subtree(v.parent, nodes[j], d));
        }
        if in_forest(v.parent, nodes, d) {
            let j = choose|j: int|
                0 <= j < nodes.len() && in_subtree(v.parent, #[trigger] nodes[j], d);
            assert(v.children.contains_key(id));
            assert(v.children[id].contains(nodes[j]));
            lemma_subtree_down(v, id, nodes[j], d);
        }
        assert(in_subtree(v.parent, id, id));
    }
}

} // verus!
