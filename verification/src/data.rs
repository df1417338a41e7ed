//! Key/value data attached to tasks. Keys may carry tags, and the entries
//! of a store are kept in the order of their keys.

use crate::chars::{push_signed_decimal, push_text, str_less};
use crate::level::Level;
use crate::types::{
    is_slot, lemma_map_of_at, lemma_map_of_insert, lemma_map_of_remove, lemma_map_of_update,
    lemma_slot_absent, map_of, strictly_ordered, Tags,
};
use crate::utils::{clean_name, extract_log_level_from_tags, extract_tags, level_of_tags, tags_of};
use vstd::prelude::*;

verus! {

/// A value attached to a task.
#[derive(Debug)]
pub enum DataValue {
    String(String),
    Int(i64),
    /// A number with a fraction, in the decimal notation in which it is
    /// shown.
    Float(String),
    /// No value.
    Nothing,
}

/// What a [`DataValue`] holds.
pub enum DataValueView {
    Text(Seq<char>),
    Int(i64),
    Float(Seq<char>),
    Nothing,
}

impl View for DataValue {
    type V = DataValueView;

    open spec fn view(&self) -> DataValueView {
        match self {
            DataValue::String(s) => DataValueView::Text(s@),
            DataValue::Int(i) => DataValueView::Int(*i),
            DataValue::Float(s) => DataValueView::Float(s@),
            DataValue::Nothing => DataValueView::Nothing,
        }
    }
}

/// The text that a value is shown as: a string as it is, an integer in
/// decimal notation, a number with a fraction in its own notation, and
/// nothing for no value.
pub open spec fn value_text(v: DataValueView) -> Seq<char> {
    match v {
        DataValueView::Text(s) => s,
        DataValueView::Int(i) => crate::chars::signed_decimal(i as int),
        DataValueView::Float(s) => s,
        DataValueView::Nothing => Seq::<char>::empty(),
    }
}

impl DataValue {
    /// The value of a truth value: the text `true` or `false`.
    pub fn from_bool(b: bool) -> (v: DataValue)
        ensures
            v@ == DataValueView::Text(if b { "true"@ } else { "false"@ }),
    {
        if b {
            DataValue::String("true".to_owned())
        } else {
            DataValue::String("false".to_owned())
        }
    }

    /// The value of an optional text: no value where there is none.
    pub fn from_option(maybe_value: Option<String>) -> (v: DataValue)
        ensures
            v@ == match maybe_value {
                Some(s) => DataValueView::Text(s@),
                None => DataValueView::Nothing,
            },
    {
        match maybe_value {
            Some(s) => DataValue::String(s),
            None => DataValue::Nothing,
        }
    }

    /// The text that the value is shown as.
    pub fn text(&self) -> (s: String)
        ensures
            s@ == value_text(self@),
    {
        match self {
            DataValue::String(string) => string.clone(),
            DataValue::Int(i) => {
                let mut s = String::new();
                push_signed_decimal(&mut s, *i);
                assert(s@ =~= crate::chars::signed_decimal(*i as int));
                s
            },
            DataValue::Float(f) => f.clone(),
            DataValue::Nothing => String::new(),
        }
    }

    /// A copy of the value.
    pub fn clone_value(&self) -> (v: DataValue)
        ensures
            v@ == self@,
    {
        match self {
            DataValue::String(s) => DataValue::String(s.clone()),
            DataValue::Int(i) => DataValue::Int(*i),
            DataValue::Float(f) => DataValue::Float(f.clone()),
            DataValue::Nothing => DataValue::Nothing,
        }
    }
}

/// Values of the host program as values of tasks: strings as they are,
/// integers as integers. A number that does not fit wraps around, as a
/// cast does.
impl From<String> for DataValue {
    fn from(v: String) -> (r: DataValue) {
        DataValue::String(v)
    }
}

impl vstd::std_specs::convert::FromSpecImpl<String> for DataValue {
    open spec fn obeys_from_spec() -> bool {
        true
    }

    open spec fn from_spec(v: String) -> DataValue {
        DataValue::String(v)
    }
}

impl<'a> From<&'a String> for DataValue {
    fn from(v: &'a String) -> (r: DataValue) {
        DataValue::String(v.clone())
    }
}

impl<'a> vstd::std_specs::convert::FromSpecImpl<&'a String> for DataValue {
    open spec fn obeys_from_spec() -> bool {
        true
    }

    open spec fn from_spec(v: &'a String) -> DataValue {
        DataValue::String(*v)
    }
}

impl From<Option<String>> for DataValue {
    fn from(maybe_value: Option<String>) -> (r: DataValue) {
        match maybe_value {
            Some(v) => DataValue::String(v),
            None => DataValue::Nothing,
        }
    }
}

impl vstd::std_specs::convert::FromSpecImpl<Option<String>> for DataValue {
    open spec fn obeys_from_spec() -> bool {
        true
    }

    open spec fn from_spec(maybe_value: Option<String>) -> DataValue {
        match maybe_value {
            Some(v) => DataValue::String(v),
            None => DataValue::Nothing,
        }
    }
}

impl From<i8> for DataValue {
    fn from(value: i8) -> (r: DataValue) {
        DataValue::Int(value as i64)
    }
}

impl vstd::std_specs::convert::FromSpecImpl<i8> for DataValue {
    open spec fn obeys_from_spec() -> bool {
        true
    }

    open spec fn from_spec(value: i8) -> DataValue {
        DataValue::Int(value as i64)
    }
}

impl From<i16> for DataValue {
    fn from(value: i16) -> (r: DataValue) {
        DataValue::Int(value as i64)
    }
}

impl vstd::std_specs::convert::FromSpecImpl<i16> for DataValue {
    open spec fn obeys_from_spec() -> bool {
        true
    }

    open spec fn from_spec(value: i16) -> DataValue {
        DataValue::Int(value as i64)
    }
}

impl From<i32> for DataValue {
    fn from(value: i32) -> (r: DataValue) {
        DataValue::Int(value as i64)
    }
}

impl vstd::std_specs::convert::FromSpecImpl<i32> for DataValue {
    open spec fn obeys_from_spec() -> bool {
        true
    }

    open spec fn from_spec(value: i32) -> DataValue {
        DataValue::Int(value as i64)
    }
}

impl From<isize> for DataValue {
    fn from(value: isize) -> (r: DataValue) {
        DataValue::Int(value as i64)
    }
}

impl vstd::std_specs::convert::FromSpecImpl<isize> for DataValue {
    open spec fn obeys_from_spec() -> bool {
        true
    }

    open spec fn from_spec(value: isize) -> DataValue {
        DataValue::Int(value as i64)
    }
}

impl From<u8> for DataValue {
    fn from(value: u8) -> (r: DataValue) {
        DataValue::Int(value as i64)
    }
}

impl vstd::std_specs::convert::FromSpecImpl<u8> for DataValue {
    open spec fn obeys_from_spec() -> bool {
        true
    }

    open spec fn from_spec(value: u8) -> DataValue {
        DataValue::Int(value as i64)
    }
}

impl From<u16> for DataValue {
    fn from(value: u16) -> (r: DataValue) {
        DataValue::Int(value as i64)
    }
}

impl vstd::std_specs::convert::FromSpecImpl<u16> for DataValue {
    open spec fn obeys_from_spec() -> bool {
        true
    }

    open spec fn from_spec(value: u16) -> DataValue {
        DataValue::Int(value as i64)
    }
}

impl From<u32> for DataValue {
    fn from(value: u32) -> (r: DataValue) {
        DataValue::Int(value as i64)
    }
}

impl vstd::std_specs::convert::FromSpecImpl<u32> for DataValue {
    open spec fn obeys_from_spec() -> bool {
        true
    }

    open spec fn from_spec(value: u32) -> DataValue {
        DataValue::Int(value as i64)
    }
}

impl From<i64> for DataValue {
    fn from(value: i64) -> (r: DataValue) {
        DataValue::Int(value)
    }
}

impl vstd::std_specs::convert::FromSpecImpl<i64> for DataValue {
    open spec fn obeys_from_spec() -> bool {
        true
    }

    open spec fn from_spec(value: i64) -> DataValue {
        DataValue::Int(value)
    }
}

impl From<u64> for DataValue {
    fn from(value: u64) -> (r: DataValue) {
        if value <= 9223372036854775807 {
            DataValue::Int(value as i64)
        } else {
            DataValue::Int(((value - 9223372036854775808) as i64) + i64::MIN)
        }
    }
}

impl vstd::std_specs::convert::FromSpecImpl<u64> for DataValue {
    open spec fn obeys_from_spec() -> bool {
        true
    }

    open spec fn from_spec(value: u64) -> DataValue {
        if value <= 9223372036854775807 {
            DataValue::Int(value as i64)
        } else {
            DataValue::Int((value - 18446744073709551616) as i64)
        }
    }
}

impl From<usize> for DataValue {
    fn from(value: usize) -> (r: DataValue) {
        let wide: u64 = value as u64;
        if wide <= 9223372036854775807 {
            DataValue::Int(wide as i64)
        } else {
            DataValue::Int(((wide - 9223372036854775808) as i64) + i64::MIN)
        }
    }
}

impl vstd::std_specs::convert::FromSpecImpl<usize> for DataValue {
    open spec fn obeys_from_spec() -> bool {
        true
    }

    open spec fn from_spec(value: usize) -> DataValue {
        if (value as int) <= 9223372036854775807 {
            DataValue::Int(value as i64)
        } else {
            DataValue::Int((value - 18446744073709551616) as i64)
        }
    }
}

/// A value with the tags that its key carried.
#[derive(Debug)]
pub struct DataEntry(pub DataValue, pub Tags);

/// What a [`DataEntry`] holds.
pub struct DataEntryView {
    pub value: DataValueView,
    pub tags: Set<Seq<char>>,
}

impl View for DataEntry {
    type V = DataEntryView;

    open spec fn view(&self) -> DataEntryView {
        DataEntryView { value: self.0@, tags: self.1@ }
    }
}

impl DataEntry {
    /// A copy of the entry.
    pub fn clone_entry(&self) -> (e: DataEntry)
        ensures
            e@ == self@,
            e.1.wf() == self.1.wf(),
    {
        DataEntry(self.0.clone_value(), self.1.clone_tags())
    }
}

/// Whether an entry is kept for a reader set to `level`: it names no level,
/// or one that is `level` or comes before it.
pub open spec fn kept_at(entry: DataEntryView, level: Level) -> bool {
    match level_of_tags(entry.tags) {
        Some(l) => l.rank() <= level.rank(),
        None => true,
    }
}

/// The text of a listing of entries: for each entry, in order, two blanks,
/// the key, a colon and a blank, the value, and a line break.
pub open spec fn listing_text(keys: Seq<Seq<char>>, entries: Seq<DataEntryView>) -> Seq<char>
    decreases keys.len(),
{
    if keys.len() == 0 || entries.len() != keys.len() {
        Seq::<char>::empty()
    } else {
        listing_text(keys.drop_last(), entries.drop_last()) + "  "@ + keys.last() + ": "@
            + value_text(entries.last().value) + "\n"@
    }
}

/// Merging an empty store changes nothing.
pub proof fn lemma_merge_empty(a: Map<Seq<char>, DataEntryView>)
    ensures
        a.union_prefer_right(Map::<Seq<char>, DataEntryView>::empty()) == a,
{
    assert(a.union_prefer_right(Map::<Seq<char>, DataEntryView>::empty()) =~= a);
}

/// Merging is associative: merging `b` and then `c` is merging what `b`
/// becomes when `c` is merged into it.
pub proof fn lemma_merge_associative(
    a: Map<Seq<char>, DataEntryView>,
    b: Map<Seq<char>, DataEntryView>,
    c: Map<Seq<char>, DataEntryView>,
)
    ensures
        a.union_prefer_right(b).union_prefer_right(c) == a.union_prefer_right(
            b.union_prefer_right(c),
        ),
{
    assert(a.union_prefer_right(b).union_prefer_right(c) =~= a.union_prefer_right(
        b.union_prefer_right(c),
    ));
}

#[derive(Debug)]
struct DataItem {
    key: String,
    entry: DataEntry,
}

/// The data of a task: clean keys bound to values and their tags.
#[derive(Debug)]
pub struct Data {
    items: Vec<DataItem>,
}

impl View for Data {
    type V = Map<Seq<char>, DataEntryView>;

    /// The entries, by clean key.
    closed spec fn view(&self) -> Map<Seq<char>, DataEntryView> {
        map_of(self.keys(), self.entries())
    }
}

impl Data {
    /// The keys in the order in which the entries are listed.
    pub closed spec fn keys(&self) -> Seq<Seq<char>> {
        self.items@.map_values(|it: DataItem| it.key@)
    }

    /// The entries in the order of their keys.
    pub closed spec fn entries(&self) -> Seq<DataEntryView> {
        self.items@.map_values(|it: DataItem| it.entry@)
    }

    /// The keys are listed in strictly increasing order, and the tags of
    /// every entry are well formed.
    pub closed spec fn wf(&self) -> bool {
        &&& strictly_ordered(self.keys())
        &&& forall|i: int| 0 <= i < self.items.len() ==> (#[trigger] self.items[i]).entry.1.wf()
    }

    /// The listing holds the entries of the map, each once, by increasing
    /// key.
    pub proof fn lemma_listing(&self)
        requires
            self.wf(),
        ensures
            self.keys().len() == self.entries().len(),
            strictly_ordered(self.keys()),
            self@.dom() == self.keys().to_set(),
            forall|i: int|
                0 <= i < self.keys().len() ==> self@[#[trigger] self.keys()[i]]
                    == self.entries()[i],
    {
        assert(self@.dom() =~= self.keys().to_set());
        assert forall|i: int| 0 <= i < self.keys().len() implies self@[#[trigger] self.keys()[i]]
            == self.entries()[i] by {
            lemma_map_of_at(self.keys(), self.entries(), i);
        }
    }

    /// A store without entries.
    pub fn empty() -> (d: Data)
        ensures
            d.wf(),
            d@ == Map::<Seq<char>, DataEntryView>::empty(),
            d.keys() == Seq::<Seq<char>>::empty(),
            d.entries() == Seq::<DataEntryView>::empty(),
    {
        let d = Data { items: Vec::new() };
        assert(d.keys() =~= Seq::<Seq<char>>::empty());
        assert(d.entries() =~= Seq::<DataEntryView>::empty());
        assert(d@ =~= Map::<Seq<char>, DataEntryView>::empty());
        d
    }

    /// The number of entries.
    pub fn len(&self) -> (n: usize)
        ensures
            n == self.keys().len(),
            n == self.entries().len(),
    {
        self.items.len()
    }

    /// Whether the store has no entry.
    pub fn is_empty(&self) -> (b: bool)
        ensures
            b == (self.keys().len() == 0),
            self.wf() ==> b == (self@ == Map::<Seq<char>, DataEntryView>::empty()),
    {
        proof {
            if self.wf() {
                if self.items.len() == 0 {
                    assert(self@ =~= Map::<Seq<char>, DataEntryView>::empty());
                } else {
                    lemma_map_of_at(self.keys(), self.entries(), 0);
                }
            }
        }
        self.items.len() == 0
    }

    /// The key at place `i` of the listing.
    pub fn key_at(&self, i: usize) -> (k: &String)
        requires
            i < self.keys().len(),
        ensures
            k@ == self.keys()[i as int],
    {
        &self.items[i].key
    }

    /// The entry at place `i` of the listing.
    pub fn entry_at(&self, i: usize) -> (e: &DataEntry)
        requires
            i < self.keys().len(),
        ensures
            e@ == self.entries()[i as int],
            self.wf() ==> e.1.wf(),
    {
        &self.items[i].entry
    }

    /// The first place whose key does not come before `key`, and whether
    /// `key` stands there.
    fn locate(&self, key: &str) -> (r: (usize, bool))
        ensures
            r.0 <= self.items.len(),
            r.1 ==> r.0 < self.items.len() && self.keys()[r.0 as int] == key@,
            !r.1 ==> is_slot(self.keys(), r.0 as int, key@),
            forall|k: int| 0 <= k < r.0 ==> crate::chars::lex_less(#[trigger] self.keys()[k], key@),
    {
        let mut i: usize = 0;
        while i < self.items.len()
            invariant
                i <= self.items.len(),
                forall|k: int|
                    0 <= k < i ==> crate::chars::lex_less(#[trigger] self.keys()[k], key@),
            decreases self.items.len() - i,
        {
            if !str_less(self.items[i].key.as_str(), key) {
                let after = str_less(key, self.items[i].key.as_str());
                proof {
                    crate::chars::lemma_lex_total(self.keys()[i as int], key@);
                }
                return (i, !after);
            }
            i += 1;
        }
        (i, false)
    }

    /// The entry bound to the clean key `key`, if there is one.
    pub fn get(&self, key: &str) -> (e: Option<&DataEntry>)
        requires
            self.wf(),
        ensures
            match e {
                Some(entry) => self@.contains_key(key@) && entry@ == self@[key@] && entry.1.wf(),
                None => !self@.contains_key(key@),
            },
    {
        let (pos, found) = self.locate(key);
        if found {
            proof {
                lemma_map_of_at(self.keys(), self.entries(), pos as int);
            }
            Some(&self.items[pos].entry)
        } else {
            proof {
                lemma_slot_absent(self.keys(), pos as int, key@);
            }
            None
        }
    }

    /// Binds the clean key `key` to `entry`, in place of what it was bound
    /// to before.
    pub fn insert(&mut self, key: String, entry: DataEntry)
        requires
            old(self).wf(),
            entry.1.wf(),
        ensures
            final(self).wf(),
            final(self)@ == old(self)@.insert(key@, entry@),
    {
        let (pos, found) = self.locate(key.as_str());
        let ghost keys = self.keys();
        let ghost entries = self.entries();
        let ghost k = key@;
        let ghost e = entry@;
        if found {
            self.items[pos] = DataItem { key, entry };
            proof {
                assert(self.keys() =~= keys);
                assert(self.entries() =~= entries.update(pos as int, e));
                lemma_map_of_update(keys, entries, pos as int, e);
            }
        } else {
            self.items.insert(pos, DataItem { key, entry });
            proof {
                assert(self.keys() =~= keys.insert(pos as int, k));
                assert(self.entries() =~= entries.insert(pos as int, e));
                lemma_map_of_insert(keys, entries, pos as int, k, e);
            }
        }
    }

    /// Adds a value under a key that may carry tags: `add("k #info", v)`
    /// binds the clean key `k` to `v` with the tag `info`.
    pub fn add(&mut self, key: &str, value: DataValue)
        requires
            old(self).wf(),
        ensures
            final(self).wf(),
            final(self)@ == old(self)@.insert(
                clean_name(key@),
                (DataEntryView { value: value@, tags: tags_of(key@) }),
            ),
    {
        let (key, tags) = extract_tags(key.to_owned());
        let data_entry = DataEntry(value, tags);
        self.insert(key, data_entry);
    }

    /// Takes over every entry of `other`; where both hold a key, the entry of
    /// `other` stays.
    pub fn merge(&mut self, other: &Data)
        requires
            old(self).wf(),
            other.wf(),
        ensures
            final(self).wf(),
            final(self)@ == old(self)@.union_prefer_right(other@),
    {
        let mut i: usize = 0;
        let ghost ok = other.keys();
        let ghost oe = other.entries();
        while i < other.items.len()
            invariant
                i <= other.items.len(),
                other.wf(),
                self.wf(),
                ok == other.keys(),
                oe == other.entries(),
                self@ == old(self)@.union_prefer_right(map_of(ok.take(i as int), oe.take(i as int))),
            decreases other.items.len() - i,
        {
            let k = other.items[i].key.clone();
            let e = other.items[i].entry.clone_entry();
            let ghost before = self@;
            self.insert(k, e);
            proof {
                let m0 = map_of(ok.take(i as int), oe.take(i as int));
                let m1 = map_of(ok.take(i + 1), oe.take(i + 1));
                assert(ok.take(i + 1) =~= ok.take(i as int).push(ok[i as int]));
                assert(oe.take(i + 1) =~= oe.take(i as int).push(oe[i as int]));
                assert(strictly_ordered(ok.take(i as int)));
                assert(is_slot(ok.take(i as int), i as int, ok[i as int]));
                assert(ok.take(i as int).insert(i as int, ok[i as int]) =~= ok.take(i + 1));
                assert(oe.take(i as int).insert(i as int, oe[i as int]) =~= oe.take(i + 1));
                lemma_map_of_insert(ok.take(i as int), oe.take(i as int), i as int, ok[i as int], oe[i as int]);
                assert(m1 == m0.insert(ok[i as int], oe[i as int]));
                assert(before.insert(ok[i as int], oe[i as int]) =~= old(self)@.union_prefer_right(
                    m1,
                ));
            }
            i += 1;
        }
        proof {
            assert(ok.take(i as int) =~= ok);
            assert(oe.take(i as int) =~= oe);
        }
    }

    /// Drops the entries that are not for a reader set to `level`: those
    /// whose tags name a level that comes after it.
    pub fn filter_for_level(&mut self, level: Level)
        requires
            old(self).wf(),
        ensures
            final(self).wf(),
            final(self)@ == old(self)@.restrict(
                Set::new(|k: Seq<char>| old(self)@.contains_key(k) && kept_at(old(self)@[k], level)),
            ),
    {
        let ghost keys0 = self.keys();
        let ghost m0 = self@;
        let mut i: usize = self.items.len();
        proof {
            assert(m0.restrict(
                Set::new(
                    |k: Seq<char>|
                        m0.contains_key(k) && (keys0.take(i as int).contains(k) || kept_at(
                            m0[k],
                            level,
                        )),
                ),
            ) =~= m0) by {
                assert(keys0.take(i as int) =~= keys0);
            }
        }
        while i > 0
            invariant
                i <= self.items.len(),
                i <= keys0.len(),
                self.wf(),
                old(self).wf(),
                keys0 == old(self).keys(),
                m0 == old(self)@,
                self.keys().take(i as int) == keys0.take(i as int),
                self@ == m0.restrict(
                    Set::new(
                        |k: Seq<char>|
                            m0.contains_key(k) && (keys0.take(i as int).contains(k) || kept_at(
                                m0[k],
                                level,
                            )),
                    ),
                ),
            decreases i,
        {
            i -= 1;
            let ghost cur_keys = self.keys();
            let ghost cur_entries = self.entries();
            let ghost cur = self@;
            let ghost k = cur_keys[i as int];
            proof {
                assert(k == self.keys().take(i + 1)[i as int]);
                assert(k == keys0[i as int]);
                assert(keys0.take(i + 1) =~= keys0.take(i as int).push(k));
                lemma_map_of_at(cur_keys, cur_entries, i as int);
                assert(keys0.take(i + 1).contains(k)) by {
                    assert(keys0.take(i + 1)[i as int] == k);
                }
                old(self).lemma_listing();
                assert(m0.contains_key(k)) by {
                    assert(keys0.to_set().contains(k));
                }
                assert(cur[k] == m0[k]);
                assert(!keys0.take(i as int).contains(k)) by {
                    let t0 = keys0.take(i as int);
                    if t0.contains(k) {
                        let j = choose|j: int| 0 <= j < t0.len() && t0[j] == k;
                        crate::types::lemma_ordered_distinct(keys0, j, i as int);
                    }
                }
            }
            let entry_log_level = extract_log_level_from_tags(&self.items[i].entry.1);
            let keep = match entry_log_level {
                Some(l) => l.at_most(level),
                None => true,
            };
            assert(keep == kept_at(m0[k], level));
            if !keep {
                self.items.remove(i);
                proof {
                    assert(self.keys() =~= cur_keys.remove(i as int));
                    assert(self.entries() =~= cur_entries.remove(i as int));
                    lemma_map_of_remove(cur_keys, cur_entries, i as int);
                    assert(self.keys().take(i as int) =~= keys0.take(i as int));
                }
            } else {
                proof {
                    assert(self.keys().take(i as int) =~= self.keys().take(i + 1).take(i as int));
                    assert(keys0.take(i as int) =~= keys0.take(i + 1).take(i as int));
                }
            }
            proof {
                let kept_before = Set::new(
                    |x: Seq<char>|
                        m0.contains_key(x) && (keys0.take(i + 1).contains(x) || kept_at(
                            m0[x],
                            level,
                        )),
                );
                let kept_now = Set::new(
                    |x: Seq<char>|
                        m0.contains_key(x) && (keys0.take(i as int).contains(x) || kept_at(
                            m0[x],
                            level,
                        )),
                );
                let t1 = keys0.take(i + 1);
                let t0 = keys0.take(i as int);
                assert forall|x: Seq<char>| x != k implies (t1.contains(x) == t0.contains(x)) by {
                    if t1.contains(x) {
                        let j = choose|j: int| 0 <= j < t1.len() && t1[j] == x;
                        assert(t0[j] == x);
                    }
                    if t0.contains(x) {
                        let j = choose|j: int| 0 <= j < t0.len() && t0[j] == x;
                        assert(t1[j] == x);
                    }
                }
                if keep {
                    assert(kept_before =~= kept_now);
                } else {
                    assert(kept_now =~= kept_before.remove(k));
                    assert(m0.restrict(kept_before).remove(k) =~= m0.restrict(kept_now));
                }
            }
        }
        proof {
            assert(keys0.take(0) =~= Seq::<Seq<char>>::empty());
            assert(Set::new(
                |k: Seq<char>|
                    m0.contains_key(k) && (keys0.take(0).contains(k) || kept_at(m0[k], level)),
            ) =~= Set::new(|k: Seq<char>| m0.contains_key(k) && kept_at(m0[k], level)));
        }
    }

    /// The store as text: a line for each entry, in the order of the keys.
    pub fn text(&self) -> (s: String)
        ensures
            s@ == listing_text(self.keys(), self.entries()),
    {
        let mut result = String::new();
        let ghost keys = self.keys();
        let ghost entries = self.entries();
        let mut i: usize = 0;
        assert(keys.take(0) =~= Seq::<Seq<char>>::empty());
        assert(result@ =~= listing_text(keys.take(0), entries.take(0)));
        while i < self.items.len()
            invariant
                i <= self.items.len(),
                keys == self.keys(),
                entries == self.entries(),
                keys.len() == self.items.len(),
                entries.len() == self.items.len(),
                result@ == listing_text(keys.take(i as int), entries.take(i as int)),
            decreases self.items.len() - i,
        {
            let ghost before = result@;
            push_text(&mut result, "  ");
            push_text(&mut result, self.items[i].key.as_str());
            push_text(&mut result, ": ");
            let value = self.items[i].entry.0.text();
            push_text(&mut result, value.as_str());
            push_text(&mut result, "\n");
            i += 1;
            proof {
                assert(keys.take(i as int).drop_last() =~= keys.take(i - 1));
                assert(entries.take(i as int).drop_last() =~= entries.take(i - 1));
                assert(keys.take(i as int).last() == keys[i - 1]);
                assert(entries.take(i as int).last() == entries[i - 1]);
                assert(result@ =~= before + "  "@ + keys[i - 1] + ": "@ + value_text(
                    entries[i - 1].value,
                ) + "\n"@);
            }
        }
        assert(keys.take(i as int) =~= keys);
        assert(entries.take(i as int) =~= entries);
        result
    }

    /// A copy of the store.
    pub fn clone_data(&self) -> (d: Data)
        ensures
            d@ == self@,
            d.keys() == self.keys(),
            d.entries() == self.entries(),
            d.wf() == self.wf(),
    {
        let mut items: Vec<DataItem> = Vec::new();
        let mut i: usize = 0;
        while i < self.items.len()
            invariant
                i <= self.items.len(),
                items.len() == i,
                forall|j: int|
                    0 <= j < i ==> (#[trigger] items[j]).key@ == self.items[j].key@ && items[j].entry@
                        == self.items[j].entry@ && items[j].entry.1.wf()
                        == self.items[j].entry.1.wf(),
            decreases self.items.len() - i,
        {
            let key = self.items[i].key.clone();
            let entry = self.items[i].entry.clone_entry();
            items.push(DataItem { key, entry });
            i += 1;
        }
        let d = Data { items };
        proof {
            assert(d.keys() =~= self.keys());
            assert(d.entries() =~= self.entries());
            if self.wf() {
                assert(d.wf());
            }
            if d.wf() {
                assert forall|j: int| 0 <= j < self.items.len() implies (
                #[trigger] self.items[j]).entry.1.wf() by {
                    assert(d.items[j].entry.1.wf());
                }
            }
        }
        d
    }
}

} // verus!
