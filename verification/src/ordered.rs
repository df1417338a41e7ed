//! Sets of task identifiers, and the order in which they are walked: a
//! `BTreeSet` gives its elements in increasing order, and a `BTreeMap` its
//! keys.

use crate::ids::{increasing, kept, lemma_kept_contains, lemma_kept_increasing};
use std::collections::BTreeMap;
use std::collections::BTreeSet;
use vstd::prelude::*;
use vstd::std_specs::btree::*;
use vstd::std_specs::cmp::OrdSpec;
use vstd::std_specs::iter::IteratorSpec;

verus! {

broadcast use {vstd::std_specs::btree::group_btree_axioms, vstd::laws_cmp::group_laws_cmp};

/// Whether `q` lists the elements of `s` in increasing order.
pub open spec fn lists(q: Seq<u64>, s: Set<u64>) -> bool {
    increasing(q) && forall|x: u64| q.contains(x) <==> s.contains(x)
}

/// The elements of a set in increasing order.
pub open spec fn ordered(s: Set<u64>) -> Seq<u64> {
    choose|q: Seq<u64>| lists(q, s)
}

/// A set has one list of its elements in increasing order at most.
pub proof fn lemma_lists_once(p: Seq<u64>, q: Seq<u64>, s: Set<u64>)
    requires
        lists(p, s),
        lists(q, s),
    ensures
        p == q,
    decreases p.len(),
{
    if p.len() == 0 {
        if q.len() > 0 {
            assert(q.contains(q[0]));
            assert(p.contains(q[0]));
        }
        assert(p =~= q);
    } else {
        let x = p.last();
        assert(p.contains(x));
        assert(q.contains(x));
        let j = choose|j: int| 0 <= j < q.len() && q[j] == x;
        if j < q.len() - 1 {
            let y = q.last();
            assert(q.contains(y));
            assert(p.contains(y));
            let i = choose|i: int| 0 <= i < p.len() && p[i] == y;
            assert(x < y);
            assert(i < p.len() - 1 ==> p[i] < x);
        }
        assert(q.last() == x);
        let rest = s.remove(x);
        let p0 = p.drop_last();
        let q0 = q.drop_last();
        assert forall|z: u64| p0.contains(z) <==> rest.contains(z) by {
            if p0.contains(z) {
                let i = choose|i: int| 0 <= i < p0.len() && p0[i] == z;
                assert(p[i] == z);
                assert(p.contains(z));
                assert(p[i] < p[p.len() - 1]);
            }
            if rest.contains(z) {
                assert(p.contains(z));
                let i = choose|i: int| 0 <= i < p.len() && p[i] == z;
                assert(p0[i] == z);
            }
        }
        assert forall|z: u64| q0.contains(z) <==> rest.contains(z) by {
            if q0.contains(z) {
                let i = choose|i: int| 0 <= i < q0.len() && q0[i] == z;
                assert(q[i] == z);
                assert(q.contains(z));
                assert(q[i] < q[q.len() - 1]);
            }
            if rest.contains(z) {
                assert(q.contains(z));
                let i = choose|i: int| 0 <= i < q.len() && q[i] == z;
                assert(q0[i] == z);
            }
        }
        lemma_lists_once(p0, q0, rest);
        assert(p =~= p0.push(x));
        assert(q =~= q0.push(x));
    }
}

/// A list in increasing order is the list of its set.
pub proof fn lemma_ordered(q: Seq<u64>, s: Set<u64>)
    requires
        lists(q, s),
    ensures
        ordered(s) == q,
{
    lemma_lists_once(ordered(s), q, s);
}

/// A set in a `BTreeSet` has its list: the one that the set is walked in.
pub proof fn lemma_set_listed(b: &BTreeSet<u64>)
    ensures
        lists(ordered(b@), b@),
{
    let rem = spec_btree_keys_iter(b).remaining();
    axiom_spec_btree_keys_iter(b);
    axiom_increasing_seq_meaning::<&u64>(rem);
    let q = rem.unref();
    assert forall|i: int, j: int| 0 <= i < j < q.len() implies q[i] < q[j] by {
        assert(OrdSpec::cmp_spec(&rem[i], &rem[j]) is Less);
    }
    assert forall|x: u64| q.contains(x) <==> b@.contains(x) by {
        assert(q.to_set().contains(x) <==> q.contains(x));
    }
    assert(lists(q, b@));
}

/// The keys of a `BTreeMap` have their list: the one that the map is
/// walked in.
pub proof fn lemma_keys_listed<V>(m: &BTreeMap<u64, V>)
    ensures
        lists(ordered(m@.dom()), m@.dom()),
{
    let rem = spec_keys_iter(m).remaining();
    axiom_spec_keys_iter(m);
    axiom_increasing_seq_meaning::<&u64>(rem);
    let q = rem.unref();
    assert forall|i: int, j: int| 0 <= i < j < q.len() implies q[i] < q[j] by {
        assert(OrdSpec::cmp_spec(&rem[i], &rem[j]) is Less);
    }
    assert forall|x: u64| q.contains(x) <==> m@.dom().contains(x) by {
        assert(q.to_set().contains(x) <==> q.contains(x));
    }
    assert(lists(q, m@.dom()));
}

/// A list has as many elements as its set.
pub proof fn lemma_lists_len(q: Seq<u64>, s: Set<u64>)
    requires
        lists(q, s),
    ensures
        s.finite(),
        s.len() == q.len(),
{
    assert(q.no_duplicates());
    q.unique_seq_to_set();
    vstd::seq_lib::seq_to_set_is_finite(q);
    assert(q.to_set() =~= s) by {
        assert forall|x: u64| q.to_set().contains(x) <==> s.contains(x) by {
            assert(q.to_set().contains(x) <==> q.contains(x));
        }
    }
}

/// The empty set has the empty list.
pub proof fn lemma_ordered_empty()
    ensures
        ordered(Set::<u64>::empty()) == Seq::<u64>::empty(),
{
    let q = Seq::<u64>::empty();
    assert(lists(q, Set::<u64>::empty()));
    lemma_ordered(q, Set::<u64>::empty());
}

/// An element above all the others comes last.
pub proof fn lemma_ordered_insert(s: Set<u64>, x: u64)
    requires
        lists(ordered(s), s),
        forall|y: u64| s.contains(y) ==> y < x,
    ensures
        ordered(s.insert(x)) == ordered(s).push(x),
{
    let p = ordered(s);
    let q = p.push(x);
    assert forall|i: int, j: int| 0 <= i < j < q.len() implies q[i] < q[j] by {
        assert(p.contains(p[i]));
    }
    assert forall|y: u64| q.contains(y) <==> s.insert(x).contains(y) by {
        if q.contains(y) {
            let i = choose|i: int| 0 <= i < q.len() && q[i] == y;
            if i < p.len() {
                assert(p.contains(p[i]));
            }
        }
        if s.contains(y) {
            assert(p.contains(y));
            let i = choose|i: int| 0 <= i < p.len() && p[i] == y;
            assert(q[i] == y);
        }
        if y == x {
            assert(q[p.len() as int] == y);
        }
    }
    lemma_ordered(q, s.insert(x));
}

/// Without an element the others stay in their order.
pub proof fn lemma_ordered_remove(s: Set<u64>, x: u64)
    requires
        lists(ordered(s), s),
    ensures
        ordered(s.remove(x)) == kept(ordered(s), set![x]),
{
    let p = ordered(s);
    let q = kept(p, set![x]);
    lemma_kept_increasing(p, set![x]);
    assert forall|y: u64| q.contains(y) <==> s.remove(x).contains(y) by {
        lemma_kept_contains(p, set![x], y);
    }
    lemma_ordered(q, s.remove(x));
}

/// Whether the set has no element.
pub fn has_none(b: &BTreeSet<u64>) -> (r: bool)
    ensures
        r == (ordered(b@).len() == 0),
{
    proof {
        lemma_set_listed(b);
        lemma_ordered_empty();
        let q = ordered(b@);
        if q.len() > 0 {
            assert(q.contains(q[0]));
        }
        if q.len() == 0 {
            assert(b@ =~= Set::<u64>::empty());
        }
    }
    b.is_empty()
}

/// The elements of a set in increasing order.
pub fn listing(b: &BTreeSet<u64>) -> (r: Vec<u64>)
    ensures
        r@ == ordered(b@),
{
    let mut out: Vec<u64> = Vec::new();
    let it = b.iter();
    let ghost rem = it.remaining();
    proof {
        axiom_spec_btree_keys_iter(b);
        axiom_increasing_seq_meaning::<&u64>(rem);
    }
    for x in iter: it
        invariant
            iter.seq() == rem,
            out.len() == iter.index(),
            forall|i: int| 0 <= i < out.len() ==> out@[i] == *iter.seq()[i],
    {
        out.push(*x);
    }
    proof {
        assert(out@ =~= rem.unref());
        assert forall|i: int, j: int| 0 <= i < j < out.len() implies out[i] < out[j] by {
            assert(OrdSpec::cmp_spec(&rem[i], &rem[j]) is Less);
        }
        assert forall|x: u64| out@.contains(x) <==> b@.contains(x) by {
            assert(out@.to_set().contains(x) <==> out@.contains(x));
        }
        lemma_ordered(out@, b@);
    }
    out
}

/// The keys of a map in increasing order.
pub fn key_listing<V>(m: &BTreeMap<u64, V>) -> (r: Vec<u64>)
    ensures
        r@ == ordered(m@.dom()),
{
    let mut out: Vec<u64> = Vec::new();
    let it = m.keys();
    let ghost rem = it.remaining();
    proof {
        axiom_spec_keys_iter(m);
        axiom_increasing_seq_meaning::<&u64>(rem);
    }
    for x in iter: it
        invariant
            iter.seq() == rem,
            out.len() == iter.index(),
            forall|i: int| 0 <= i < out.len() ==> out@[i] == *iter.seq()[i],
    {
        out.push(*x);
    }
    proof {
        assert(out@ =~= rem.unref());
        assert forall|i: int, j: int| 0 <= i < j < out.len() implies out[i] < out[j] by {
            assert(OrdSpec::cmp_spec(&rem[i], &rem[j]) is Less);
        }
        assert forall|x: u64| out@.contains(x) <==> m@.dom().contains(x) by {
            assert(out@.to_set().contains(x) <==> out@.contains(x));
        }
        lemma_ordered(out@, m@.dom());
    }
    out
}

} // verus!
