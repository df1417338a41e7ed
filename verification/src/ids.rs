//! Lists of task identifiers in increasing order.

use vstd::prelude::*;

verus! {

/// Each element is smaller than every later one.
pub open spec fn increasing(s: Seq<u64>) -> bool {
    forall|i: int, j: int| 0 <= i < j < s.len() ==> s[i] < s[j]
}

/// The list without the identifiers in `gone`, the others in their order.
pub open spec fn kept(s: Seq<u64>, gone: Set<u64>) -> Seq<u64>
    decreases s.len(),
{
    if s.len() == 0 {
        s
    } else if gone.contains(s.last()) {
        kept(s.drop_last(), gone)
    } else {
        kept(s.drop_last(), gone).push(s.last())
    }
}

/// What is kept is what was there and is not gone.
pub proof fn lemma_kept_contains(s: Seq<u64>, gone: Set<u64>, x: u64)
    ensures
        kept(s, gone).contains(x) <==> (s.contains(x) && !gone.contains(x)),
    decreases s.len(),
{
    if s.len() > 0 {
        let init = s.drop_last();
        lemma_kept_contains(init, gone, x);
        let k0 = kept(init, gone);
        let k = kept(s, gone);
        if init.contains(x) {
            let i = choose|i: int| 0 <= i < init.len() && init[i] == x;
            assert(s[i] == x);
        }
        if s.contains(x) {
            let i = choose|i: int| 0 <= i < s.len() && s[i] == x;
            if i < init.len() {
                assert(init[i] == x);
            }
        }
        if !gone.contains(s.last()) {
            assert(k == k0.push(s.last()));
            if k.contains(x) {
                let i = choose|i: int| 0 <= i < k.len() && k[i] == x;
                if i < k0.len() {
                    assert(k0[i] == x);
                }
            }
            if k0.contains(x) {
                let i = choose|i: int| 0 <= i < k0.len() && k0[i] == x;
                assert(k[i] == x);
            }
            if x == s.last() {
                assert(k[k0.len() as int] == x);
                assert(s[s.len() - 1] == x);
            }
        }
    }
}

/// What is kept of an increasing list is increasing.
pub proof fn lemma_kept_increasing(s: Seq<u64>, gone: Set<u64>)
    requires
        increasing(s),
    ensures
        increasing(kept(s, gone)),
    decreases s.len(),
{
    if s.len() > 0 {
        let init = s.drop_last();
        assert(increasing(init)) by {
            assert forall|i: int, j: int| 0 <= i < j < init.len() implies init[i] < init[j] by {
                assert(s[i] < s[j]);
            }
        }
        lemma_kept_increasing(init, gone);
        let k0 = kept(init, gone);
        let k = kept(s, gone);
        if !gone.contains(s.last()) {
            assert forall|i: int, j: int| 0 <= i < j < k.len() implies k[i] < k[j] by {
                if j == k0.len() {
                    assert(k0.contains(k0[i]));
                    lemma_kept_contains(init, gone, k0[i]);
                    let a = choose|a: int| 0 <= a < init.len() && init[a] == k0[i];
                    assert(s[a] < s[s.len() - 1]);
                } else {
                    assert(k0[i] < k0[j]);
                }
            }
        }
    }
}

/// Nothing goes where nothing of the list is gone.
pub proof fn lemma_kept_all(s: Seq<u64>, gone: Set<u64>)
    requires
        forall|i: int| 0 <= i < s.len() ==> !gone.contains(#[trigger] s[i]),
    ensures
        kept(s, gone) == s,
    decreases s.len(),
{
    if s.len() > 0 {
        let init = s.drop_last();
        assert forall|i: int| 0 <= i < init.len() implies !gone.contains(#[trigger] init[i]) by {
            assert(init[i] == s[i]);
        }
        lemma_kept_all(init, gone);
        assert(!gone.contains(s[s.len() - 1]));
        assert(init.push(s.last()) =~= s);
    }
}

/// Taking out in two steps is taking out both sets at once.
pub proof fn lemma_kept_twice(s: Seq<u64>, g: Set<u64>, h: Set<u64>)
    ensures
        kept(kept(s, g), h) == kept(s, g.union(h)),
    decreases s.len(),
{
    if s.len() > 0 {
        let init = s.drop_last();
        lemma_kept_twice(init, g, h);
        if !g.contains(s.last()) {
            let k0 = kept(init, g);
            let k = k0.push(s.last());
            assert(k.drop_last() =~= k0);
            assert(k.last() == s.last());
        }
    }
}

} // verus!
