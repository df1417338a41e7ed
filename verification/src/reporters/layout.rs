//! What the layout of the status holds: a row for every task that is
//! shown, for no task two, and each row indented by the shown ancestors of
//! its task.

use crate::reporters::level::Level;
use crate::reporters::term_status::{
    child_depth, last_shown, layout, rows_of, rows_of_children, rows_of_roots, shows, RowPlace,
};
use crate::tree_view::{
    in_forest, in_subtree, kids, lemma_child_facts, lemma_forest_step, lemma_subtree_child,
    lemma_subtree_down, tree_invariant, TreeView,
};
use vstd::prelude::*;

verus! {

/// The indentation of the row of a task: a mark for each ancestor of the
/// task that is shown, from the top down. The mark of an ancestor is set
/// where, among the children of that ancestor, the child on the way to the
/// task is followed by a shown one. An ancestor that is not shown gives no
/// mark.
pub open spec fn depth_of(v: TreeView, id: u64, max_log_level: Level) -> Seq<bool>
    decreases id,
{
    if v.parent.contains_key(id) && v.parent[id] < id {
        let p = v.parent[id];
        child_depth(
            depth_of(v, p, max_log_level),
            shows(v, p, max_log_level),
            id,
            last_shown(v, kids(v, p), max_log_level),
        )
    } else {
        Seq::<bool>::empty()
    }
}

/// Whether `rows` lists the shown tasks among `scope`: every row is the row
/// of a shown task of `scope`, indented as [`depth_of`] says; every shown
/// task of `scope` has a row; and no task has two.
pub open spec fn is_listing(
    v: TreeView,
    max_log_level: Level,
    rows: Seq<RowPlace>,
    scope: Set<u64>,
) -> bool {
    &&& forall|k: int|
        0 <= k < rows.len() ==> scope.contains((#[trigger] rows[k]).id) && shows(
            v,
            rows[k].id,
            max_log_level,
        ) && rows[k].depth == depth_of(v, rows[k].id, max_log_level)
    &&& forall|d: u64|
        #[trigger] scope.contains(d) && shows(v, d, max_log_level) ==> exists|k: int|
            0 <= k < rows.len() && (#[trigger] rows[k]).id == d
    &&& forall|i: int, j: int|
        0 <= i < j < rows.len() ==> (#[trigger] rows[i]).id != (#[trigger] rows[j]).id
}

/// The tasks of the subtree of `id`.
pub open spec fn subtree_scope(v: TreeView, id: u64) -> Set<u64> {
    Set::new(|d: u64| v.tasks.contains_key(d) && in_subtree(v.parent, id, d))
}

/// The tasks of the subtrees of `roots`.
pub open spec fn forest_scope(v: TreeView, roots: Seq<u64>) -> Set<u64> {
    Set::new(|d: u64| v.tasks.contains_key(d) && in_forest(v.parent, roots, d))
}

proof fn lemma_listing_add(
    v: TreeView,
    max_log_level: Level,
    a: Seq<RowPlace>,
    sa: Set<u64>,
    b: Seq<RowPlace>,
    sb: Set<u64>,
)
    requires
        is_listing(v, max_log_level, a, sa),
        is_listing(v, max_log_level, b, sb),
        sa.disjoint(sb),
    ensures
        is_listing(v, max_log_level, a + b, sa.union(sb)),
{
    let c = a + b;
    let sc = sa.union(sb);
    assert forall|k: int| 0 <= k < c.len() implies sc.contains((#[trigger] c[k]).id) && shows(
        v,
        c[k].id,
        max_log_level,
    ) && c[k].depth == depth_of(v, c[k].id, max_log_level) by {
        if k < a.len() {
            assert(c[k] == a[k]);
        } else {
            assert(c[k] == b[k - a.len()]);
        }
    }
    assert forall|d: u64| #[trigger] sc.contains(d) && shows(v, d, max_log_level) implies exists|
        k: int,
    |
        0 <= k < c.len() && (#[trigger] c[k]).id == d by {
        if sa.contains(d) {
            let k = choose|k: int| 0 <= k < a.len() && (#[trigger] a[k]).id == d;
            assert(c[k].id == d);
        } else {
            assert(sb.contains(d));
            let k = choose|k: int| 0 <= k < b.len() && (#[trigger] b[k]).id == d;
            assert(c[a.len() + k].id == d);
        }
    }
    assert forall|i: int, j: int| 0 <= i < j < c.len() implies (#[trigger] c[i]).id != (
    #[trigger] c[j]).id by {
        if j < a.len() {
            assert(c[i] == a[i] && c[j] == a[j]);
        } else if i >= a.len() {
            assert(c[i] == b[i - a.len()] && c[j] == b[j - a.len()]);
        } else {
            assert(c[i] == a[i] && c[j] == b[j - a.len()]);
            assert(sa.contains(a[i].id));
            assert(sb.contains(b[j - a.len()].id));
        }
    }
}

/// A task of a subtree was not created before the top of the subtree.
pub proof fn lemma_subtree_order(parent: Map<u64, u64>, a: u64, d: u64)
    requires
        in_subtree(parent, a, d),
    ensures
        a <= d,
    decreases d,
{
    if d != a {
        lemma_subtree_order(parent, a, parent[d]);
    }
}

/// The subtrees of two children of one task have no task in common.
pub proof fn lemma_siblings_apart(v: TreeView, c1: u64, c2: u64, d: u64)
    requires
        tree_invariant(v),
        v.parent.contains_key(c1),
        v.parent.contains_key(c2),
        v.parent[c1] == v.parent[c2],
        c1 != c2,
        in_subtree(v.parent, c1, d),
    ensures
        !in_subtree(v.parent, c2, d),
    decreases d,
{
    if in_subtree(v.parent, c2, d) {
        if d == c1 {
            lemma_subtree_order(v.parent, c2, v.parent[c1]);
        } else if d == c2 {
            lemma_subtree_order(v.parent, c1, v.parent[c2]);
        } else {
            lemma_siblings_apart(v, c1, c2, v.parent[d]);
        }
    }
}

/// The subtrees of two roots have no task in common.
pub proof fn lemma_roots_apart(v: TreeView, r1: u64, r2: u64, d: u64)
    requires
        !v.parent.contains_key(r1),
        !v.parent.contains_key(r2),
        r1 != r2,
        in_subtree(v.parent, r1, d),
    ensures
        !in_subtree(v.parent, r2, d),
    decreases d,
{
    if in_subtree(v.parent, r2, d) {
        if d != r1 && d != r2 {
            lemma_roots_apart(v, r1, r2, v.parent[d]);
        }
    }
}

/// Every task of the tree is in the subtree of a root.
pub proof fn lemma_root_of(v: TreeView, d: u64) -> (r: u64)
    requires
        tree_invariant(v),
        v.tasks.contains_key(d),
    ensures
        v.roots.contains(r),
        in_subtree(v.parent, r, d),
    decreases d,
{
    if v.parent.contains_key(d) {
        let r = lemma_root_of(v, v.parent[d]);
        r
    } else {
        assert(in_subtree(v.parent, d, d));
        d
    }
}

proof fn lemma_rows_listing(v: TreeView, id: u64, max_log_level: Level)
    requires
        tree_invariant(v),
        v.tasks.contains_key(id),
    ensures
        is_listing(
            v,
            max_log_level,
            rows_of(v, id, depth_of(v, id, max_log_level), max_log_level),
            subtree_scope(v, id),
        ),
    decreases u64::MAX - id, 1int, 0int,
{
    let depth = depth_of(v, id, max_log_level);
    let ks = kids(v, id);
    lemma_children_listing(v, id, max_log_level, ks.len() as int);
    assert(ks.take(ks.len() as int) =~= ks);
    let own = if shows(v, id, max_log_level) {
        seq![RowPlace { id, depth }]
    } else {
        Seq::<RowPlace>::empty()
    };
    let below = rows_of_children(v, ks, id, depth, max_log_level, ks.len() as int);
    let own_scope = set![id];
    let below_scope = forest_scope(v, ks);
    assert(is_listing(v, max_log_level, own, own_scope)) by {
        if shows(v, id, max_log_level) {
            assert(own[0].id == id);
        }
    }
    assert(own_scope.disjoint(below_scope)) by {
        if in_forest(v.parent, ks, id) {
            let j = choose|j: int| 0 <= j < ks.len() && in_subtree(v.parent, #[trigger] ks[j], id);
            assert(v.children[id].contains(ks[j]));
            lemma_child_facts(v, id, ks[j]);
            lemma_subtree_order(v.parent, ks[j], id);
        }
    }
    lemma_listing_add(v, max_log_level, own, own_scope, below, below_scope);
    assert(own_scope.union(below_scope) =~= subtree_scope(v, id)) by {
        assert forall|d: u64| own_scope.union(below_scope).contains(d) <==> subtree_scope(
            v,
            id,
        ).contains(d) by {
            assert(in_subtree(v.parent, id, id));
            if v.tasks.contains_key(d) && in_forest(v.parent, ks, d) {
                let j = choose|j: int|
                    0 <= j < ks.len() && in_subtree(v.parent, #[trigger] ks[j], d);
                assert(v.children[id].contains(ks[j]));
                lemma_child_facts(v, id, ks[j]);
                lemma_subtree_down(v, id, ks[j], d);
            }
            if v.tasks.contains_key(d) && in_subtree(v.parent, id, d) && d != id {
                let c = lemma_subtree_child(v, id, d);
                assert(v.children.contains_key(v.parent[c]));
                assert(v.children[id].contains(c));
                let j = choose|j: int| 0 <= j < ks.len() && ks[j] == c;
                assert(in_subtree(v.parent, ks[j], d));
            }
        }
    }
}

proof fn lemma_children_listing(v: TreeView, parent: u64, max_log_level: Level, n: int)
    requires
        tree_invariant(v),
        v.tasks.contains_key(parent),
        0 <= n <= kids(v, parent).len(),
    ensures
        is_listing(
            v,
            max_log_level,
            rows_of_children(
                v,
                kids(v, parent),
                parent,
                depth_of(v, parent, max_log_level),
                max_log_level,
                n,
            ),
            forest_scope(v, kids(v, parent).take(n)),
        ),
    decreases u64::MAX - parent, 0int, n,
{
    let ks = kids(v, parent);
    let depth = depth_of(v, parent, max_log_level);
    if n == 0 {
        assert forall|d: u64| !forest_scope(v, ks.take(0)).contains(d) by {
            assert(ks.take(0).len() == 0);
        }
    } else {
        let c = ks[n - 1];
        assert(v.children[parent].contains(c));
        lemma_child_facts(v, parent, c);
        lemma_children_listing(v, parent, max_log_level, n - 1);
        lemma_rows_listing(v, c, max_log_level);
        let d_c = child_depth(
            depth,
            shows(v, parent, max_log_level),
            c,
            last_shown(v, ks, max_log_level),
        );
        assert(d_c == depth_of(v, c, max_log_level));
        let before = rows_of_children(v, ks, parent, depth, max_log_level, n - 1);
        let last = rows_of(v, c, d_c, max_log_level);
        let before_scope = forest_scope(v, ks.take(n - 1));
        let last_scope = subtree_scope(v, c);
        assert(before_scope.disjoint(last_scope)) by {
            assert forall|d: u64| before_scope.contains(d) implies !last_scope.contains(d) by {
                let t = ks.take(n - 1);
                let j = choose|j: int| 0 <= j < t.len() && in_subtree(v.parent, #[trigger] t[j], d);
                assert(t[j] == ks[j]);
                assert(v.children[parent].contains(ks[j]));
                lemma_child_facts(v, parent, ks[j]);
                assert(ks[j] < ks[n - 1]);
                lemma_siblings_apart(v, ks[j], c, d);
            }
        }
        lemma_listing_add(v, max_log_level, before, before_scope, last, last_scope);
        assert(before_scope.union(last_scope) =~= forest_scope(v, ks.take(n))) by {
            assert forall|d: u64| before_scope.union(last_scope).contains(d) <==> forest_scope(
                v,
                ks.take(n),
            ).contains(d) by {
                lemma_forest_step(v.parent, ks, n - 1, d);
            }
        }
    }
}

proof fn lemma_roots_listing(v: TreeView, max_log_level: Level, n: int)
    requires
        tree_invariant(v),
        0 <= n <= v.roots.len(),
    ensures
        is_listing(
            v,
            max_log_level,
            rows_of_roots(v, max_log_level, n),
            forest_scope(v, v.roots.skip(v.roots.len() - n)),
        ),
    decreases n,
{
    let len = v.roots.len() as int;
    if n == 0 {
        assert forall|d: u64| !forest_scope(v, v.roots.skip(len)).contains(d) by {
            assert(v.roots.skip(len).len() == 0);
        }
    } else {
        let r = v.roots[len - n];
        assert(v.tasks.contains_key(r));
        assert(v.roots.contains(r));
        assert(!v.parent.contains_key(r));
        lemma_roots_listing(v, max_log_level, n - 1);
        lemma_rows_listing(v, r, max_log_level);
        assert(depth_of(v, r, max_log_level) == Seq::<bool>::empty());
        let before = rows_of_roots(v, max_log_level, n - 1);
        let last = rows_of(v, r, Seq::<bool>::empty(), max_log_level);
        let later = v.roots.skip(len - n + 1);
        let from = v.roots.skip(len - n);
        let before_scope = forest_scope(v, later);
        let last_scope = subtree_scope(v, r);
        assert(before_scope.disjoint(last_scope)) by {
            assert forall|d: u64| before_scope.contains(d) implies !last_scope.contains(d) by {
                let j = choose|j: int|
                    0 <= j < later.len() && in_subtree(v.parent, #[trigger] later[j], d);
                let other = v.roots[len - n + 1 + j];
                assert(later[j] == other);
                assert(v.tasks.contains_key(other));
                assert(v.roots.contains(other));
                assert(other != r) by {
                    assert(v.roots[len - n] < v.roots[len - n + 1 + j]);
                }
                lemma_roots_apart(v, other, r, d);
            }
        }
        lemma_listing_add(v, max_log_level, before, before_scope, last, last_scope);
        assert(before_scope.union(last_scope) =~= forest_scope(v, from)) by {
            assert forall|d: u64| before_scope.union(last_scope).contains(d) <==> forest_scope(
                v,
                from,
            ).contains(d) by {
                if in_forest(v.parent, later, d) {
                    let j = choose|j: int|
                        0 <= j < later.len() && in_subtree(v.parent, #[trigger] later[j], d);
                    assert(from[j + 1] == later[j]);
                }
                if in_subtree(v.parent, r, d) {
                    assert(from[0] == r);
                }
                if in_forest(v.parent, from, d) {
                    let j = choose|j: int|
                        0 <= j < from.len() && in_subtree(v.parent, #[trigger] from[j], d);
                    if j > 0 {
                        assert(later[j - 1] == from[j]);
                    }
                }
            }
        }
    }
}

/// The layout lists the shown tasks of the tree: every row is the row of a
/// shown task, indented as [`depth_of`] says; every shown task of the tree
/// has a row; and no task has two. So the layout has as many rows as the
/// tree has shown tasks.
pub proof fn lemma_layout_lists_shown(v: TreeView, max_log_level: Level)
    requires
        tree_invariant(v),
    ensures
        is_listing(
            v,
            max_log_level,
            layout(v, max_log_level),
            Set::new(|d: u64| v.tasks.contains_key(d)),
        ),
{
    lemma_roots_listing(v, max_log_level, v.roots.len() as int);
    assert(v.roots.skip(0) =~= v.roots);
    assert(forest_scope(v, v.roots) =~= Set::new(|d: u64| v.tasks.contains_key(d))) by {
        assert forall|d: u64| v.tasks.contains_key(d) implies in_forest(v.parent, v.roots, d) by {
            let r = lemma_root_of(v, d);
            let j = choose|j: int| 0 <= j < v.roots.len() && v.roots[j] == r;
            assert(in_subtree(v.parent, v.roots[j], d));
        }
    }
}

} // verus!
