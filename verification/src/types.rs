//! Tag sets.

use crate::chars::{
    lemma_lex_irreflexive, lemma_lex_total, lemma_lex_transitive, lex_less, str_less,
};
use vstd::prelude::*;

verus! {

/// The character sequences of a sequence of strings.
pub open spec fn texts(v: Seq<String>) -> Seq<Seq<char>> {
    v.map_values(|s: String| s@)
}

/// Each element comes strictly before every later one.
pub open spec fn strictly_ordered(s: Seq<Seq<char>>) -> bool {
    forall|i: int, j: int| 0 <= i < j < s.len() ==> lex_less(#[trigger] s[i], #[trigger] s[j])
}

/// The map that a listing of keys and a listing of values stand for: each
/// key is bound to the value at its own place.
pub open spec fn map_of<V>(keys: Seq<Seq<char>>, vals: Seq<V>) -> Map<Seq<char>, V> {
    Map::new(|k: Seq<char>| keys.contains(k), |k: Seq<char>| vals[place_of(keys, k)])
}

/// A place at which `k` stands in the listing.
pub open spec fn place_of(keys: Seq<Seq<char>>, k: Seq<char>) -> int {
    choose|i: int| 0 <= i < keys.len() && keys[i] == k
}

/// In a strictly ordered listing a key stands at one place only.
pub proof fn lemma_ordered_distinct(keys: Seq<Seq<char>>, i: int, j: int)
    requires
        strictly_ordered(keys),
        0 <= i < keys.len(),
        0 <= j < keys.len(),
        keys[i] == keys[j],
    ensures
        i == j,
{
    lemma_lex_irreflexive(keys[i]);
    if i < j {
        assert(lex_less(keys[i], keys[j]));
    } else if j < i {
        assert(lex_less(keys[j], keys[i]));
    }
}

/// What the map of an ordered listing holds at each place.
pub proof fn lemma_map_of_at<V>(keys: Seq<Seq<char>>, vals: Seq<V>, i: int)
    requires
        strictly_ordered(keys),
        keys.len() == vals.len(),
        0 <= i < keys.len(),
    ensures
        map_of(keys, vals).contains_key(keys[i]),
        map_of(keys, vals)[keys[i]] == vals[i],
{
    assert(keys.contains(keys[i]));
    let j = place_of(keys, keys[i]);
    assert(0 <= j < keys.len() && keys[j] == keys[i]);
    lemma_ordered_distinct(keys, i, j);
}

/// Whether `k` can be put at place `pos` of an ordered listing and leave
/// it ordered: what stands before is smaller, what stands there is greater.
pub open spec fn is_slot(keys: Seq<Seq<char>>, pos: int, k: Seq<char>) -> bool {
    &&& 0 <= pos <= keys.len()
    &&& forall|i: int| 0 <= i < pos ==> lex_less(#[trigger] keys[i], k)
    &&& (pos == keys.len() || lex_less(k, keys[pos]))
}

/// A key that has a slot is not in the listing.
pub proof fn lemma_slot_absent(keys: Seq<Seq<char>>, pos: int, k: Seq<char>)
    requires
        strictly_ordered(keys),
        is_slot(keys, pos, k),
    ensures
        !keys.contains(k),
{
    if keys.contains(k) {
        let j = place_of(keys, k);
        assert(0 <= j < keys.len() && keys[j] == k);
        lemma_lex_irreflexive(k);
        if j > pos {
            lemma_lex_transitive(k, keys[pos], keys[j]);
        }
    }
}

/// Putting a new key in its slot keeps the listing ordered and binds the key
/// in the map.
pub proof fn lemma_map_of_insert<V>(
    keys: Seq<Seq<char>>,
    vals: Seq<V>,
    pos: int,
    k: Seq<char>,
    v: V,
)
    requires
        strictly_ordered(keys),
        keys.len() == vals.len(),
        is_slot(keys, pos, k),
    ensures
        strictly_ordered(keys.insert(pos, k)),
        map_of(keys.insert(pos, k), vals.insert(pos, v)) == map_of(keys, vals).insert(k, v),
{
    let keys2 = keys.insert(pos, k);
    let vals2 = vals.insert(pos, v);
    assert forall|i: int, j: int| 0 <= i < j < keys2.len() implies lex_less(
        #[trigger] keys2[i],
        #[trigger] keys2[j],
    ) by {
        if i < pos && j == pos {
            assert(keys2[i] == keys[i]);
        } else if i < pos && j > pos {
            assert(keys2[i] == keys[i] && keys2[j] == keys[j - 1]);
        } else if i == pos {
            assert(keys2[j] == keys[j - 1]);
            if j - 1 > pos {
                lemma_lex_transitive(k, keys[pos], keys[j - 1]);
            }
        } else if i > pos {
            assert(keys2[i] == keys[i - 1] && keys2[j] == keys[j - 1]);
        } else {
            assert(keys2[i] == keys[i] && keys2[j] == keys[j]);
        }
    }
    assert(strictly_ordered(keys2));
    assert(keys2.len() == vals2.len());
    let m = map_of(keys, vals).insert(k, v);
    let m2 = map_of(keys2, vals2);
    assert forall|x: Seq<char>| #[trigger] m2.dom().contains(x) implies m.dom().contains(x) && m[x] == m2[x] by {
        assert(keys2.contains(x));
        let j = place_of(keys2, x);
        assert(0 <= j < keys2.len() && keys2[j] == x);
        lemma_map_of_at(keys2, vals2, j);
        lemma_slot_absent(keys, pos, k);
        if j < pos {
            assert(keys[j] == x && vals2[j] == vals[j]);
            lemma_map_of_at(keys, vals, j);
        } else if j > pos {
            assert(keys[j - 1] == x && vals2[j] == vals[j - 1]);
            lemma_map_of_at(keys, vals, j - 1);
            lemma_slot_absent(keys, pos, k);
        } else {
            assert(x == k && vals2[j] == v);
        }
    }
    assert forall|x: Seq<char>| #[trigger] m.dom().contains(x) implies m2.dom().contains(x) by {
        if x == k {
            assert(keys2[pos] == k);
        } else {
            assert(keys.contains(x));
            let j = place_of(keys, x);
            assert(0 <= j < keys.len() && keys[j] == x);
            if j < pos {
                assert(keys2[j] == x);
            } else {
                assert(keys2[j + 1] == x);
            }
        }
    }
    assert(m2 =~= m);
}

/// Replacing the value at a place rebinds the key that stands there.
pub proof fn lemma_map_of_update<V>(keys: Seq<Seq<char>>, vals: Seq<V>, pos: int, v: V)
    requires
        strictly_ordered(keys),
        keys.len() == vals.len(),
        0 <= pos < keys.len(),
    ensures
        map_of(keys, vals.update(pos, v)) == map_of(keys, vals).insert(keys[pos], v),
{
    let vals2 = vals.update(pos, v);
    let m = map_of(keys, vals).insert(keys[pos], v);
    let m2 = map_of(keys, vals2);
    assert forall|x: Seq<char>| #[trigger] m2.dom().contains(x) implies m.dom().contains(x) && m[x] == m2[x] by {
        assert(keys.contains(x));
        let j = place_of(keys, x);
        assert(0 <= j < keys.len() && keys[j] == x);
        lemma_map_of_at(keys, vals2, j);
        lemma_map_of_at(keys, vals, j);
        if j != pos {
            if keys[j] == keys[pos] {
                lemma_ordered_distinct(keys, j, pos);
            }
        }
    }
    assert forall|x: Seq<char>| #[trigger] m.dom().contains(x) implies m2.dom().contains(x) by {
        if x == keys[pos] {
            assert(keys.contains(x));
        }
    }
    assert(m2 =~= m);
}

/// Taking a place out keeps the listing ordered and unbinds the key that
/// stood there.
pub proof fn lemma_map_of_remove<V>(keys: Seq<Seq<char>>, vals: Seq<V>, pos: int)
    requires
        strictly_ordered(keys),
        keys.len() == vals.len(),
        0 <= pos < keys.len(),
    ensures
        strictly_ordered(keys.remove(pos)),
        map_of(keys.remove(pos), vals.remove(pos)) == map_of(keys, vals).remove(keys[pos]),
{
    let keys2 = keys.remove(pos);
    let vals2 = vals.remove(pos);
    assert forall|i: int, j: int| 0 <= i < j < keys2.len() implies lex_less(
        #[trigger] keys2[i],
        #[trigger] keys2[j],
    ) by {
        let i0 = if i < pos { i } else { i + 1 };
        let j0 = if j < pos { j } else { j + 1 };
        assert(keys2[i] == keys[i0] && keys2[j] == keys[j0]);
    }
    assert(strictly_ordered(keys2));
    assert(keys2.len() == vals2.len());
    let m = map_of(keys, vals).remove(keys[pos]);
    let m2 = map_of(keys2, vals2);
    assert forall|x: Seq<char>| #[trigger] m2.dom().contains(x) implies m.dom().contains(x) && m[x] == m2[x] by {
        assert(keys2.contains(x));
        let j = place_of(keys2, x);
        assert(0 <= j < keys2.len() && keys2[j] == x);
        lemma_map_of_at(keys2, vals2, j);
        let j0 = if j < pos { j } else { j + 1 };
        assert(keys[j0] == x);
        lemma_map_of_at(keys, vals, j0);
        if x == keys[pos] {
            lemma_ordered_distinct(keys, j0, pos);
        }
    }
    assert forall|x: Seq<char>| #[trigger] m.dom().contains(x) implies m2.dom().contains(x) by {
        assert(keys.contains(x));
        let j = place_of(keys, x);
        assert(0 <= j < keys.len() && keys[j] == x);
        if j < pos {
            assert(keys2[j] == x);
        } else {
            assert(j != pos);
            assert(keys2[j - 1] == x);
        }
    }
    assert(m2 =~= m);
}

/// A set of tags, kept in lexicographic order.
#[derive(Debug)]
pub struct Tags {
    items: Vec<String>,
}

impl View for Tags {
    type V = Set<Seq<char>>;

    /// The tags, as a set.
    closed spec fn view(&self) -> Set<Seq<char>> {
        self.ordered().to_set()
    }
}

impl Tags {
    /// The listing is in strictly increasing order, so that each tag stands
    /// in it once.
    pub closed spec fn wf(&self) -> bool {
        strictly_ordered(texts(self.items@))
    }

    /// The tags in the order in which they are listed: increasing, each
    /// once.
    pub closed spec fn ordered(&self) -> Seq<Seq<char>> {
        texts(self.items@)
    }

    /// The empty tag set.
    pub fn new() -> (t: Tags)
        ensures
            t.wf(),
            t@ == Set::<Seq<char>>::empty(),
            t.ordered() == Seq::<Seq<char>>::empty(),
    {
        let t = Tags { items: Vec::new() };
        assert(t.ordered() =~= Seq::<Seq<char>>::empty());
        assert(t@ =~= Set::<Seq<char>>::empty());
        t
    }

    /// The number of tags.
    pub fn len(&self) -> (n: usize)
        ensures
            n == self.ordered().len(),
    {
        self.items.len()
    }

    /// The listing holds exactly the tags of the set, in increasing order.
    pub proof fn lemma_ordered(&self)
        requires
            self.wf(),
        ensures
            self@ == self.ordered().to_set(),
            strictly_ordered(self.ordered()),
    {
    }

    /// The tag at place `i` of the listing.
    pub fn get(&self, i: usize) -> (t: &String)
        requires
            i < self.ordered().len(),
        ensures
            t@ == self.ordered()[i as int],
    {
        &self.items[i]
    }

    /// The first place whose tag does not come before `tag`.
    fn locate(&self, tag: &str) -> (r: (usize, bool))
        ensures
            r.0 <= self.items.len(),
            forall|k: int| 0 <= k < r.0 ==> lex_less(#[trigger] self.ordered()[k], tag@),
            r.1 ==> r.0 < self.items.len() && self.ordered()[r.0 as int] == tag@,
            !r.1 ==> (r.0 == self.items.len() || lex_less(tag@, self.ordered()[r.0 as int])),
    {
        let mut i: usize = 0;
        while i < self.items.len()
            invariant
                i <= self.items.len(),
                forall|k: int| 0 <= k < i ==> lex_less(#[trigger] self.ordered()[k], tag@),
            decreases self.items.len() - i,
        {
            if !str_less(self.items[i].as_str(), tag) {
                let after = str_less(tag, self.items[i].as_str());
                proof {
                    lemma_lex_total(self.ordered()[i as int], tag@);
                }
                return (i, !after);
            }
            i += 1;
        }
        (i, false)
    }

    /// Whether `tag` is in the set.
    pub fn contains(&self, tag: &str) -> (b: bool)
        requires
            self.wf(),
        ensures
            b == self@.contains(tag@),
    {
        let (pos, found) = self.locate(tag);
        proof {
            let s = self.ordered();
            if found {
                assert(s[pos as int] == tag@);
                assert(s.contains(tag@));
            } else {
                if s.contains(tag@) {
                    let k = choose|k: int| 0 <= k < s.len() && s[k] == tag@;
                    lemma_lex_irreflexive(tag@);
                    if k >= pos {
                        if k > pos {
                            lemma_lex_transitive(tag@, s[pos as int], s[k]);
                        }
                    }
                }
            }
        }
        found
    }

    /// Adds `tag` to the set.
    pub fn insert(&mut self, tag: String)
        requires
            old(self).wf(),
        ensures
            final(self).wf(),
            final(self)@ == old(self)@.insert(tag@),
    {
        let (pos, found) = self.locate(tag.as_str());
        if !found {
            let ghost before = self.ordered();
            let ghost t = tag@;
            self.items.insert(pos, tag);
            proof {
                let after = texts(self.items@);
                assert(after =~= before.insert(pos as int, t));
                assert forall|i: int, j: int| 0 <= i < j < after.len() implies lex_less(
                    #[trigger] after[i],
                    #[trigger] after[j],
                ) by {
                    if i < pos && j == pos {
                        assert(after[i] == before[i]);
                    } else if i < pos && j > pos {
                        assert(after[i] == before[i] && after[j] == before[j - 1]);
                    } else if i == pos {
                        assert(after[j] == before[j - 1]);
                        if j - 1 > pos {
                            lemma_lex_transitive(t, before[pos as int], before[j - 1]);
                        }
                    } else if i > pos {
                        assert(after[i] == before[i - 1] && after[j] == before[j - 1]);
                    } else {
                        assert(after[i] == before[i] && after[j] == before[j]);
                    }
                }
                assert(after.to_set() =~= before.to_set().insert(t)) by {
                    assert forall|x: Seq<char>| after.to_set().contains(x) implies before.to_set().insert(
                        t,
                    ).contains(x) by {
                        let k = choose|k: int| 0 <= k < after.len() && after[k] == x;
                        if k < pos {
                            assert(before[k] == x);
                        } else if k > pos {
                            assert(before[k - 1] == x);
                        }
                    }
                    assert forall|x: Seq<char>| before.to_set().insert(t).contains(
                        x,
                    ) implies after.to_set().contains(x) by {
                        if x == t {
                            assert(after[pos as int] == x);
                        } else {
                            let k = choose|k: int| 0 <= k < before.len() && before[k] == x;
                            if k < pos {
                                assert(after[k] == x);
                            } else {
                                assert(after[k + 1] == x);
                            }
                        }
                    }
                }
            }
        } else {
            proof {
                assert(self.ordered().contains(tag@));
                assert(self@ =~= self@.insert(tag@));
            }
        }
    }

    /// The tags as strings, in the order of the listing.
    pub fn to_vec(&self) -> (v: Vec<String>)
        ensures
            texts(v@) == self.ordered(),
    {
        let t = self.clone_tags();
        t.items
    }

    /// A copy of the set.
    pub fn clone_tags(&self) -> (t: Tags)
        ensures
            t.wf() == self.wf(),
            t@ == self@,
            t.ordered() == self.ordered(),
    {
        let mut items: Vec<String> = Vec::new();
        let mut i: usize = 0;
        while i < self.items.len()
            invariant
                i <= self.items.len(),
                texts(items@) == texts(self.items@).take(i as int),
            decreases self.items.len() - i,
        {
            let ghost before = texts(items@);
            let item: String = self.items[i].clone();
            items.push(item);
            i += 1;
            assert(texts(items@) =~= before.push(self.items@[i - 1]@));
            assert(texts(items@) =~= texts(self.items@).take(i as int));
        }
        assert(texts(items@) =~= texts(self.items@));
        Tags { items }
    }
}

} // verus!
