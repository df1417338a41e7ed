//! Names with tags: `"work #l2 #dontprint"` is the name `work` with the
//! tags `l2` and `dontprint`.

use crate::chars::{from_chars, is_space, is_whitespace, to_chars};
use crate::level::Level;
use crate::types::{Tags, texts};
use vstd::prelude::*;

verus! {

/// The pieces of `s` between occurrences of `sep`: one more than there are
/// separators, empty pieces included.
pub open spec fn split_on(s: Seq<char>, sep: char) -> Seq<Seq<char>>
    decreases s.len(),
{
    if s.len() == 0 {
        seq![Seq::<char>::empty()]
    } else {
        let before = split_on(s.drop_last(), sep);
        if s.last() == sep {
            before.push(Seq::<char>::empty())
        } else {
            before.drop_last().push(before.last().push(s.last()))
        }
    }
}

/// `s` without the white space at its start.
pub open spec fn trim_start(s: Seq<char>) -> Seq<char>
    decreases s.len(),
{
    if s.len() > 0 && is_space(s[0]) {
        trim_start(s.drop_first())
    } else {
        s
    }
}

/// `s` without the white space at its end.
pub open spec fn trim_end(s: Seq<char>) -> Seq<char>
    decreases s.len(),
{
    if s.len() > 0 && is_space(s.last()) {
        trim_end(s.drop_last())
    } else {
        s
    }
}

/// `s` without the white space at either end.
pub open spec fn trim(s: Seq<char>) -> Seq<char> {
    trim_end(trim_start(s))
}

/// The pieces trimmed, those that trim to nothing left out.
pub open spec fn trimmed_nonempty(pieces: Seq<Seq<char>>) -> Seq<Seq<char>>
    decreases pieces.len(),
{
    if pieces.len() == 0 {
        Seq::<Seq<char>>::empty()
    } else {
        let before = trimmed_nonempty(pieces.drop_last());
        let t = trim(pieces.last());
        if t.len() > 0 {
            before.push(t)
        } else {
            before
        }
    }
}

/// The fragments of a tagged name: the pieces between `#` signs, trimmed,
/// without the empty ones.
pub open spec fn fragments(s: Seq<char>) -> Seq<Seq<char>> {
    trimmed_nonempty(split_on(s, '#'))
}

/// The clean name in a tagged name: the first fragment where there are two
/// fragments or more, else the whole text as it was given.
pub open spec fn clean_name(s: Seq<char>) -> Seq<char> {
    let f = fragments(s);
    if f.len() < 2 {
        s
    } else {
        f[0]
    }
}

/// The tags in a tagged name: the fragments after the first.
pub open spec fn tags_of(s: Seq<char>) -> Set<Seq<char>> {
    let f = fragments(s);
    if f.len() < 2 {
        Set::<Seq<char>>::empty()
    } else {
        f.skip(1).to_set()
    }
}

/// The bounds of `v[from..to]` trimmed.
fn trim_bounds(v: &Vec<char>, from: usize, to: usize) -> (r: (usize, usize))
    requires
        from <= to <= v.len(),
    ensures
        from <= r.0 <= r.1 <= to,
        v@.subrange(r.0 as int, r.1 as int) == trim(v@.subrange(from as int, to as int)),
{
    let mut a: usize = from;
    while a < to && is_whitespace(v[a])
        invariant
            from <= a <= to <= v.len(),
            trim_start(v@.subrange(from as int, to as int)) == trim_start(
                v@.subrange(a as int, to as int),
            ),
        decreases to - a,
    {
        proof {
            let s = v@.subrange(a as int, to as int);
            assert(s[0] == v@[a as int]);
            assert(s.drop_first() =~= v@.subrange(a + 1, to as int));
        }
        a += 1;
    }
    proof {
        let s = v@.subrange(a as int, to as int);
        if a < to {
            assert(s[0] == v@[a as int]);
        }
        assert(trim_start(s) == s);
    }
    let mut b: usize = to;
    while a < b && is_whitespace(v[b - 1])
        invariant
            a <= b <= to <= v.len(),
            trim_end(v@.subrange(a as int, to as int)) == trim_end(v@.subrange(a as int, b as int)),
        decreases b - a,
    {
        proof {
            let s = v@.subrange(a as int, b as int);
            assert(s.last() == v@[b - 1]);
            assert(s.drop_last() =~= v@.subrange(a as int, b - 1));
        }
        b -= 1;
    }
    proof {
        let s = v@.subrange(a as int, b as int);
        if a < b {
            assert(s.last() == v@[b - 1]);
        }
        assert(trim_end(s) == s);
    }
    (a, b)
}

/// Splits a tagged name into its clean name and its tags.
///
/// The text is cut at every `#`, each piece is trimmed, and empty pieces are
/// dropped. With two pieces or more, the first is the name and the others are
/// the tags. With fewer there are no tags, and the name is the text as given.
pub fn extract_tags(string_with_tags: String) -> (r: (String, Tags))
    ensures
        r.0@ == clean_name(string_with_tags@),
        r.1@ == tags_of(string_with_tags@),
        r.1.wf(),
{
    let v = to_chars(string_with_tags.as_str());
    let mut parts: Vec<String> = Vec::new();
    let ghost mut pieces: Seq<Seq<char>> = Seq::empty();
    let mut start: usize = 0;
    let mut i: usize = 0;
    assert(v@.take(0) =~= Seq::<char>::empty());
    assert(v@.subrange(0, 0) =~= Seq::<char>::empty());
    assert(pieces.push(v@.subrange(0, 0)) =~= seq![Seq::<char>::empty()]);
    while i < v.len()
        invariant
            start <= i <= v.len(),
            split_on(v@.take(i as int), '#') == pieces.push(v@.subrange(start as int, i as int)),
            texts(parts@) == trimmed_nonempty(pieces),
        decreases v.len() - i,
    {
        proof {
            let t = v@.take(i + 1);
            assert(t.drop_last() =~= v@.take(i as int));
            assert(t.last() == v@[i as int]);
        }
        if v[i] == '#' {
            let (a, b) = trim_bounds(&v, start, i);
            let ghost piece = v@.subrange(start as int, i as int);
            proof {
                assert(pieces.push(piece).drop_last() =~= pieces);
            }
            if a < b {
                let part = from_chars(&v, a, b);
                let ghost old_parts = texts(parts@);
                parts.push(part);
                assert(texts(parts@) =~= old_parts.push(trim(piece)));
            }
            proof {
                pieces = pieces.push(piece);
                assert(v@.subrange(i + 1, i + 1) =~= Seq::<char>::empty());
            }
            start = i + 1;
        } else {
            proof {
                let before = pieces.push(v@.subrange(start as int, i as int));
                assert(before.drop_last() =~= pieces);
                assert(before.last().push(v@[i as int]) =~= v@.subrange(start as int, i + 1));
            }
        }
        i += 1;
    }
    let (a, b) = trim_bounds(&v, start, i);
    let ghost piece = v@.subrange(start as int, i as int);
    proof {
        assert(v@.take(i as int) =~= v@);
        assert(pieces.push(piece).drop_last() =~= pieces);
    }
    if a < b {
        let part = from_chars(&v, a, b);
        let ghost old_parts = texts(parts@);
        parts.push(part);
        assert(texts(parts@) =~= old_parts.push(trim(piece)));
    }
    assert(texts(parts@) == fragments(string_with_tags@));
    if parts.len() < 2 {
        return (string_with_tags, Tags::new());
    }
    let mut tags = Tags::new();
    let mut k: usize = parts.len();
    let ghost all = texts(parts@);
    proof {
        assert(all.skip(k as int) =~= Seq::<Seq<char>>::empty());
        assert(all.take(k as int) =~= all);
    }
    while k > 1
        invariant
            1 <= k == parts.len() <= all.len(),
            all == fragments(string_with_tags@),
            texts(parts@) == all.take(k as int),
            tags.wf(),
            tags@ == all.skip(k as int).to_set(),
        decreases k,
    {
        let ghost before = texts(parts@);
        let tag = parts.pop().unwrap();
        k -= 1;
        proof {
            assert(tag@ == before[k as int]);
            assert(texts(parts@) =~= all.take(k as int));
        }
        tags.insert(tag);
        proof {
            assert(all.skip(k as int).to_set() =~= all.skip(k + 1).to_set().insert(all[k as int]))
                by {
                let from_k = all.skip(k as int);
                let after_k = all.skip(k + 1);
                assert forall|x: Seq<char>| from_k.to_set().contains(x) implies after_k.to_set().insert(
                    all[k as int],
                ).contains(x) by {
                    let j = choose|j: int| 0 <= j < from_k.len() && from_k[j] == x;
                    if j > 0 {
                        assert(after_k[j - 1] == x);
                    }
                }
                assert forall|x: Seq<char>| after_k.to_set().insert(all[k as int]).contains(
                    x,
                ) implies from_k.to_set().contains(x) by {
                    if x == all[k as int] {
                        assert(from_k[0] == x);
                    } else {
                        let j = choose|j: int| 0 <= j < after_k.len() && after_k[j] == x;
                        assert(from_k[j + 1] == x);
                    }
                }
            }
        }
    }
    let ghost before = texts(parts@);
    let name = parts.pop().unwrap();
    proof {
        assert(name@ == before[0]);
    }
    (name, tags)
}

/// A name followed by its tags, each written as a space, a `#` and the tag.
pub open spec fn with_tags(name: Seq<char>, tags: Seq<Seq<char>>) -> Seq<char>
    decreases tags.len(),
{
    if tags.len() == 0 {
        name
    } else {
        with_tags(name, tags.drop_last()) + seq![' ', '#'] + tags.last()
    }
}

/// A text that can stand as a name or as a tag and be read back as it is:
/// not empty, without `#`, and without white space at either end.
pub open spec fn is_token(t: Seq<char>) -> bool {
    &&& t.len() > 0
    &&& !t.contains('#')
    &&& !is_space(t[0])
    &&& !is_space(t.last())
}

proof fn lemma_split_append(a: Seq<char>, t: Seq<char>, sep: char)
    requires
        !t.contains(sep),
    ensures
        split_on(a + t, sep) == split_on(a, sep).drop_last().push(split_on(a, sep).last() + t),
        split_on(a, sep).len() > 0,
    decreases t.len(),
{
    lemma_split_nonempty(a, sep);
    let sa = split_on(a, sep);
    if t.len() == 0 {
        assert(a + t =~= a);
        assert(sa.last() + t =~= sa.last());
        assert(sa.drop_last().push(sa.last()) =~= sa);
    } else {
        let t0 = t.drop_last();
        assert(t[t.len() - 1] != sep);
        assert forall|i: int| 0 <= i < t0.len() implies t0[i] != sep by {
            assert(t[i] != sep);
        }
        lemma_split_append(a, t0, sep);
        assert((a + t).drop_last() =~= a + t0);
        assert((a + t).last() == t.last());
        let before = split_on(a + t0, sep);
        assert(before.drop_last() =~= sa.drop_last());
        assert(before.last().push(t.last()) =~= sa.last() + t);
    }
}

proof fn lemma_split_nonempty(a: Seq<char>, sep: char)
    ensures
        split_on(a, sep).len() > 0,
    decreases a.len(),
{
    if a.len() > 0 {
        lemma_split_nonempty(a.drop_last(), sep);
    }
}

proof fn lemma_trim_token(x: Seq<char>)
    requires
        is_token(x),
    ensures
        trim(x) == x,
        trim(x + seq![' ']) == x,
{
    let y = x + seq![' '];
    assert(y[0] == x[0]);
    assert(trim_start(y) == y);
    assert(y.last() == ' ');
    assert(is_space(' '));
    assert(y.drop_last() =~= x);
    assert(trim_end(y) == trim_end(x));
}

proof fn lemma_split_with_tags(name: Seq<char>, tags: Seq<Seq<char>>)
    requires
        is_token(name),
        forall|i: int| 0 <= i < tags.len() ==> is_token(#[trigger] tags[i]),
    ensures
        ({
            let sp = split_on(with_tags(name, tags), '#');
            let all = seq![name] + tags;
            &&& sp.len() > 0
            &&& trimmed_nonempty(sp.drop_last()) == all.drop_last()
            &&& sp.last() == all.last()
        }),
    decreases tags.len(),
{
    let all = seq![name] + tags;
    if tags.len() == 0 {
        let e = Seq::<char>::empty();
        assert(e + name =~= name);
        lemma_split_append(e, name, '#');
        assert(split_on(e, '#') =~= seq![e]);
        let sp = split_on(name, '#');
        assert(sp =~= seq![name]);
        assert(sp.drop_last() =~= Seq::<Seq<char>>::empty());
        assert(all.drop_last() =~= Seq::<Seq<char>>::empty());
    } else {
        let init = tags.drop_last();
        let t = tags.last();
        assert(is_token(tags[tags.len() - 1]));
        assert forall|i: int| 0 <= i < init.len() implies is_token(#[trigger] init[i]) by {
            assert(is_token(tags[i]));
        }
        lemma_split_with_tags(name, init);
        let w = with_tags(name, init);
        let sp = split_on(w, '#');
        let all0 = seq![name] + init;
        let space = seq![' '];
        assert(!space.contains('#'));
        lemma_split_append(w, space, '#');
        let with_space = split_on(w + space, '#');
        let hash = w + space + seq!['#'];
        assert(hash.drop_last() =~= w + space);
        assert(hash.last() == '#');
        let with_hash = split_on(hash, '#');
        assert(with_hash == with_space.push(Seq::<char>::empty()));
        lemma_split_append(hash, t, '#');
        let with_tag = split_on(hash + t, '#');
        assert(hash + t =~= with_tags(name, tags));
        assert(with_hash.drop_last() =~= with_space);
        assert(Seq::<char>::empty() + t =~= t);
        assert(with_tag == with_space.push(t));
        assert(with_tag.drop_last() =~= with_space);
        assert(with_space.drop_last() =~= sp.drop_last());
        assert(with_space.last() == sp.last() + space);
        assert(is_token(all0.last())) by {
            if init.len() == 0 {
                assert(all0.last() == name);
            } else {
                assert(all0.last() == init.last());
                assert(is_token(init[init.len() - 1]));
            }
        }
        lemma_trim_token(all0.last());
        assert(trimmed_nonempty(with_space) == trimmed_nonempty(sp.drop_last()).push(all0.last()));
        assert(all0.drop_last().push(all0.last()) =~= all0);
        assert(all.drop_last() =~= all0);
    }
}

/// Reading back a name written with its tags gives the name and the tags:
/// for a name and tags that are not empty, hold no `#` and have no white
/// space at either end.
pub proof fn lemma_extract_tags_round_trip(name: Seq<char>, tags: Seq<Seq<char>>)
    requires
        is_token(name),
        forall|i: int| 0 <= i < tags.len() ==> is_token(#[trigger] tags[i]),
    ensures
        clean_name(with_tags(name, tags)) == name,
        tags_of(with_tags(name, tags)) == tags.to_set(),
{
    lemma_split_with_tags(name, tags);
    let s = with_tags(name, tags);
    let sp = split_on(s, '#');
    let all = seq![name] + tags;
    assert(is_token(all.last())) by {
        if tags.len() == 0 {
            assert(all.last() == name);
        } else {
            assert(all.last() == tags[tags.len() - 1]);
        }
    }
    lemma_trim_token(all.last());
    assert(trimmed_nonempty(sp) == all.drop_last().push(all.last()));
    assert(all.drop_last().push(all.last()) =~= all);
    assert(fragments(s) == all);
    if tags.len() == 0 {
        assert(tags.to_set() =~= Set::<Seq<char>>::empty());
    } else {
        assert(all.skip(1) =~= tags);
    }
}

/// The level that the tags `info`, `debug` and `trace` give: the most
/// important of those present, or none where none is present.
pub open spec fn level_of_tags(tags: Set<Seq<char>>) -> Option<Level> {
    if tags.contains("info"@) {
        Some(Level::Info)
    } else if tags.contains("debug"@) {
        Some(Level::Debug)
    } else if tags.contains("trace"@) {
        Some(Level::Trace)
    } else {
        None
    }
}

/// The level named by a set of tags, if any of them names one.
pub fn extract_log_level_from_tags(tags: &Tags) -> (level: Option<Level>)
    requires
        tags.wf(),
    ensures
        level == level_of_tags(tags@),
{
    if tags.contains("info") {
        Some(Level::Info)
    } else if tags.contains("debug") {
        Some(Level::Debug)
    } else if tags.contains("trace") {
        Some(Level::Trace)
    } else {
        None
    }
}

} // verus!
