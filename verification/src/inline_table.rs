use vstd::prelude::*;
use vstd::std_specs::iter::IteratorSpec;

use crate::entry::{InlineEntry, InlineOccupiedEntry, InlineVacantEntry};
use crate::key::{lemma_with_decor_text, Key};
use crate::pairs::{
    pairs_clear, pairs_contents, pairs_entry_or_insert, pairs_get, pairs_get_mut, pairs_insert,
    pairs_into_vec, pairs_iter, pairs_iter_mut, pairs_new, pairs_remove, KeyValuePairs,
};
use crate::repr::Decor;
use crate::sort::{sort_key_value_pairs, sorted_entries};
use crate::table::{
    entries_copy, has_key, item_copy, key_pos, lemma_entries_copy_within, lemma_key_pos,
    lemma_value_positions, lookup, lookup_value, value_pairs, value_positions, Entries,
    TableKeyValue, TableLike,
};
use crate::value::{Item, Value, DEFAULT_TRAILING_VALUE_DECOR, DEFAULT_VALUE_DECOR};
use crate::wf::{
    entries_within, entries_wf, item_within, lemma_entries_depth, lemma_item_within_mono,
    lemma_push_value_wf, lemma_table_depth, lemma_update_item_wf, lemma_update_value_wf,
    lemma_value_at_wf, lemma_value_depth, lemma_within_drop_last, lemma_within_mono,
    lemma_within_push, lemma_within_rearranged, lemma_within_remove, value_wf,
};

verus! {

/// The whitespace given to each key of an inline table: `{ key1 = value1, ... }`.
pub(crate) const DEFAULT_INLINE_KEY_DECOR: (&'static str, &'static str) = (" ", " ");

/// A TOML inline table, the payload of `Value::InlineTable`.
#[derive(Debug)]
pub struct InlineTable {
    // whitespace inside an empty table
    pub(crate) preamble: String,
    // the text before `{` and after `}`
    pub(crate) decor: Decor,
    // whether the table stands for dotted keys
    pub(crate) dotted: bool,
    pub(crate) items: KeyValuePairs,
}

impl View for InlineTable {
    type V = Entries;

    /// The entries, in order.
    closed spec fn view(&self) -> Entries {
        pairs_contents(self.items)
    }
}

/// The entries of `es` after `key` is inserted with `v`: a former entry with
/// that key leaves its place, and the new entry stands last.
pub open spec fn inserted(es: Entries, key: Key, v: Value) -> Entries {
    let kv = TableKeyValue { key, value: Item::Value(v) };
    if has_key(es, key@) {
        es.remove(key_pos(es, key@)).push((key@, kv))
    } else {
        es.push((key@, kv))
    }
}

/// The entries of `es` without the one with the key `k`.
pub open spec fn removed(es: Entries, k: Seq<char>) -> Entries {
    if has_key(es, k) {
        es.remove(key_pos(es, k))
    } else {
        es
    }
}

impl InlineTable {
    /// The text before `{` and after `}`.
    pub closed spec fn spec_decor(&self) -> Decor {
        self.decor
    }

    /// Whether the table stands for dotted keys.
    pub closed spec fn spec_dotted(&self) -> bool {
        self.dotted
    }

    /// The whitespace inside the table when it is empty.
    pub closed spec fn spec_preamble(&self) -> Seq<char> {
        self.preamble@
    }

    /// The same table with other text around its braces.
    pub closed spec fn spec_with_decor(self, decor: Decor) -> InlineTable {
        InlineTable { decor, ..self }
    }

    /// Other text around a table keeps its entries, its dotted flag and its
    /// preamble, and is the text given.
    pub broadcast proof fn lemma_with_decor(self, decor: Decor)
        ensures
            (#[trigger] self.spec_with_decor(decor))@ == self@,
            self.spec_with_decor(decor).spec_dotted() == self.spec_dotted(),
            self.spec_with_decor(decor).spec_preamble() == self.spec_preamble(),
            self.spec_with_decor(decor).spec_decor() == decor,
    {
    }

    /// The two tables agree in everything but their entries.
    pub open spec fn same_frame(&self, other: InlineTable) -> bool {
        &&& self.spec_decor() == other.spec_decor()
        &&& self.spec_dotted() == other.spec_dotted()
        &&& self.spec_preamble() == other.spec_preamble()
    }

    /// The table is well formed (see `entries_within`).
    pub open spec fn wf(&self) -> bool {
        entries_wf(self@)
    }

    /// The text before `{` and after `}`.
    pub(crate) fn table_decor(&self) -> (r: &Decor)
        ensures
            *r == self.spec_decor(),
    {
        &self.decor
    }

    /// Mutable access to the text before `{` and after `}`.
    pub(crate) fn table_decor_mut(&mut self) -> (r: &mut Decor)
        ensures
            *r == old(self).spec_decor(),
            *final(self) == old(self).spec_with_decor(*final(r)),
            final(self).spec_decor() == *final(r),
    {
        &mut self.decor
    }
}

impl InlineTable {
    /// Creates an empty table.
    pub fn new() -> (r: InlineTable)
        ensures
            r@ == Seq::<(Seq<char>, TableKeyValue)>::empty(),
            r.wf(),
            !r.spec_dotted(),
            r.spec_preamble() == Seq::<char>::empty(),
            r.spec_decor()@ == (Seq::<char>::empty(), Seq::<char>::empty()),
    {
        InlineTable::default()
    }

    /// The key/value pairs that hold a value, in order.
    pub fn iter(&self) -> (r: Vec<(&str, &Value)>)
        ensures
            r@.len() == value_pairs(self@).len(),
            forall|i: int|
                0 <= i < r@.len() ==> r@[i].0@ == value_pairs(self@)[i].0 && *r@[i].1
                    == value_pairs(self@)[i].1,
    {
        let pairs = pairs_iter(&self.items);
        let mut r: Vec<(&str, &Value)> = Vec::new();
        let mut i: usize = 0;
        while i < pairs.len()
            invariant
                i <= pairs@.len(),
                pairs@.len() == self@.len(),
                forall|j: int|
                    0 <= j < pairs@.len() ==> pairs@[j].0@ == self@[j].0 && *pairs@[j].1
                        == self@[j].1,
                r@.len() == value_pairs(self@.take(i as int)).len(),
                forall|j: int|
                    0 <= j < r@.len() ==> r@[j].0@ == value_pairs(self@.take(i as int))[j].0
                        && *r@[j].1 == value_pairs(self@.take(i as int))[j].1,
            decreases pairs@.len() - i,
        {
            let (k, kv) = pairs[i];
            assert(self@.take(i + 1).drop_last() =~= self@.take(i as int));
            match &kv.value {
                Item::Value(v) => {
                    r.push((k, v));
                },
                Item::Empty => {},
            }
            i = i + 1;
        }
        assert(self@.take(i as int) =~= self@);
        r
    }

    /// The number of key/value pairs that hold a value.
    pub fn len(&self) -> (r: usize)
        ensures
            r == value_pairs(self@).len(),
    {
        self.iter().len()
    }

    /// Whether no key holds a value.
    pub fn is_empty(&self) -> (r: bool)
        ensures
            r == (value_pairs(self@).len() == 0),
    {
        self.len() == 0
    }

    /// Removes every key/value pair.
    pub fn clear(&mut self)
        ensures
            final(self)@ == Seq::<(Seq<char>, TableKeyValue)>::empty(),
            final(self).wf(),
            final(self).same_frame(*old(self)),
    {
        pairs_clear(&mut self.items);
        assert(entries_within(self@, 0));
    }

    /// The value stored under `key`, if any.
    pub fn get(&self, key: &str) -> (r: Option<&Value>)
        requires
            self.wf(),
        ensures
            match r {
                Some(v) => lookup_value(self@, key@) == Some(*v) && value_wf(*v),
                None => lookup_value(self@, key@) is None,
            },
    {
        let ghost d = lemma_table_depth(*self);
        match pairs_get(&self.items, key) {
            Some(kv) => {
                let ghost i = choose|i: int|
                    0 <= i < self@.len() && self@[i].0 == key@ && *kv == self@[i].1;
                proof {
                    lemma_key_pos(self@, key@, i);
                    if kv.value is Value {
                        lemma_value_at_wf(self@, i);
                    }
                }
                kv.value.as_value()
            },
            None => None,
        }
    }

    /// Mutable access to the value stored under `key`, if any.
    pub fn get_mut(&mut self, key: &str) -> (r: Option<&mut Value>)
        requires
            old(self).wf(),
        ensures
            final(self).same_frame(*old(self)),
            match r {
                Some(v) => {
                    &&& lookup_value(old(self)@, key@) == Some(*v)
                    &&& value_wf(*v)
                    &&& final(self)@ == old(self)@.update(
                        key_pos(old(self)@, key@),
                        (
                            key@,
                            TableKeyValue {
                                key: lookup(old(self)@, key@)->0.key,
                                value: Item::Value(*final(v)),
                            },
                        ),
                    )
                    &&& value_wf(*final(v)) ==> final(self).wf()
                },
                None => {
                    &&& lookup_value(old(self)@, key@) is None
                    &&& final(self)@ == old(self)@
                    &&& final(self).wf()
                },
            },
    {
        let ghost d = lemma_table_depth(*self);
        let ghost es = self@;
        match pairs_get_mut(&mut self.items, key) {
            Some(kv) => {
                let ghost i = choose|i: int|
                    0 <= i < es.len() && es[i].0 == key@ && *kv == es[i].1;
                proof {
                    lemma_key_pos(es, key@, i);
                    lemma_update_value_wf(es, i, d);
                    if kv.value is Value {
                        lemma_value_at_wf(es, i);
                    }
                }
                kv.value.as_value_mut()
            },
            None => None,
        }
    }
}

impl InlineTable {
    /// Whether some key holds something other than `Item::Empty`.
    pub fn contains_key(&self, key: &str) -> (r: bool)
        requires
            self.wf(),
        ensures
            r == (has_key(self@, key@) && !(lookup(self@, key@)->0.value is Empty)),
    {
        if let Some(kv) = pairs_get(&self.items, key) {
            let ghost i = choose|i: int|
                0 <= i < self@.len() && self@[i].0 == key@ && *kv == self@[i].1;
            proof {
                let d = lemma_table_depth(*self);
                lemma_key_pos(self@, key@, i);
            }
            !kv.value.is_none()
        } else {
            false
        }
    }

    /// Stores `value` under the key `key` (its text and its whitespace), as
    /// the last entry; returns the value formerly stored under that key.
    pub fn insert_formatted(&mut self, key: &Key, value: Value) -> (r: Option<Value>)
        requires
            old(self).wf(),
            value_wf(value),
        ensures
            final(self)@ == inserted(old(self)@, *key, value),
            r == lookup_value(old(self)@, key@),
            final(self).wf(),
            final(self).same_frame(*old(self)),
    {
        match self.insert_pair(key.clone(), value) {
            Some(prev_kv) => match prev_kv.value.into_value() {
                Ok(v) => Some(v),
                Err(_) => None,
            },
            None => None,
        }
    }

    /// Stores `value` under `key` as the last entry; returns the key and item
    /// formerly stored under that key.
    fn insert_pair(&mut self, key: Key, value: Value) -> (r: Option<TableKeyValue>)
        requires
            old(self).wf(),
            value_wf(value),
        ensures
            final(self)@ == inserted(old(self)@, key, value),
            r == lookup(old(self)@, key@),
            final(self).wf(),
            final(self).same_frame(*old(self)),
    {
        let ghost es = self@;
        let ghost d = lemma_table_depth(*self);
        let owned = key.get().to_owned();
        let kv = TableKeyValue::new(key, Item::Value(value));
        let prev = pairs_insert(&mut self.items, owned, kv);
        proof {
            let dv = lemma_value_depth(value);
            let dd = if d < dv { dv } else { d };
            lemma_within_mono(es, d, dd);
            lemma_item_within_mono(Item::Value(value), dv, dd);
            if has_key(es, key@) {
                let i = choose|i: int| 0 <= i < es.len() && es[i].0 == key@;
                lemma_key_pos(es, key@, i);
                lemma_within_remove(es, i, dd);
                let rest = es.remove(i);
                assert(!has_key(rest, key@)) by {
                    assert forall|j: int| 0 <= j < rest.len() implies rest[j].0 != key@ by {
                        if j < i {
                            assert(rest[j] == es[j]);
                        } else {
                            assert(rest[j] == es[j + 1]);
                        }
                    }
                }
                lemma_within_push(rest, kv, dd);
            } else {
                lemma_within_push(es, kv, dd);
            }
            assert(entries_within(self@, dd));
            if prev is Some {
                let i = choose|i: int|
                    0 <= i < es.len() && es[i].0 == key@ && prev->0 == es[i].1;
                lemma_key_pos(es, key@, i);
            }
        }
        prev
    }

    /// Takes out the entry with the key `key`; returns its value, if it held one.
    pub fn remove(&mut self, key: &str) -> (r: Option<Value>)
        requires
            old(self).wf(),
        ensures
            final(self)@ == removed(old(self)@, key@),
            r == lookup_value(old(self)@, key@),
            final(self).wf(),
            final(self).same_frame(*old(self)),
    {
        let ghost es = self@;
        let ghost d = lemma_table_depth(*self);
        match pairs_remove(&mut self.items, key) {
            Some(kv) => {
                proof {
                    let i = choose|i: int| 0 <= i < es.len() && es[i].0 == key@ && kv == es[i].1;
                    lemma_key_pos(es, key@, i);
                    lemma_within_remove(es, i, d);
                }
                match kv.value.into_value() {
                    Ok(v) => Some(v),
                    Err(_) => None,
                }
            },
            None => None,
        }
    }

    /// Takes out the entry with the key `key`; returns its key and its value,
    /// if it held one.
    pub fn remove_entry(&mut self, key: &str) -> (r: Option<(Key, Value)>)
        requires
            old(self).wf(),
        ensures
            final(self)@ == removed(old(self)@, key@),
            r == (match lookup(old(self)@, key@) {
                Some(kv) => match kv.value {
                    Item::Value(v) => Some((kv.key, v)),
                    Item::Empty => None,
                },
                None => None,
            }),
            final(self).wf(),
            final(self).same_frame(*old(self)),
    {
        let ghost es = self@;
        let ghost d = lemma_table_depth(*self);
        match pairs_remove(&mut self.items, key) {
            Some(kv) => {
                proof {
                    let i = choose|i: int| 0 <= i < es.len() && es[i].0 == key@ && kv == es[i].1;
                    lemma_key_pos(es, key@, i);
                    lemma_within_remove(es, i, d);
                }
                let k = kv.key;
                match kv.value.into_value() {
                    Ok(v) => Some((k, v)),
                    Err(_) => None,
                }
            },
            None => None,
        }
    }

    /// Whether the table stands for dotted keys rather than `{ ... }`.
    #[verifier::allow_in_spec]
    pub fn is_dotted(&self) -> bool
        returns
            self.spec_dotted(),
    {
        self.dotted
    }

    /// Sets whether the table stands for dotted keys.
    pub fn set_dotted(&mut self, yes: bool)
        ensures
            final(self)@ == old(self)@,
            final(self).spec_dotted() == yes,
            final(self).spec_decor() == old(self).spec_decor(),
            final(self).spec_preamble() == old(self).spec_preamble(),
    {
        self.dotted = yes;
    }

    /// The whitespace around the key `key`, if the table has it.
    pub fn decor(&self, key: &str) -> (r: Option<&Decor>)
        requires
            self.wf(),
        ensures
            match lookup(self@, key@) {
                Some(kv) => r == Some(&kv.key.spec_decor()),
                None => r is None,
            },
    {
        match pairs_get(&self.items, key) {
            Some(kv) => {
                proof {
                    let d = lemma_table_depth(*self);
                    let i = choose|i: int|
                        0 <= i < self@.len() && self@[i].0 == key@ && *kv == self@[i].1;
                    lemma_key_pos(self@, key@, i);
                }
                Some(kv.key.decor())
            },
            None => None,
        }
    }

    /// Mutable access to the value under `key`; where the table has no
    /// such key, `value` is first stored under it, as the last entry, with
    /// a key that has no whitespace around it.
    pub fn get_or_insert(&mut self, key: &str, value: Value) -> (r: &mut Value)
        requires
            old(self).wf(),
            value_wf(value),
            has_key(old(self)@, key@) ==> lookup(old(self)@, key@)->0.value is Value,
        ensures
            final(self).same_frame(*old(self)),
            value_wf(*final(r)) ==> final(self).wf(),
            value_wf(*r),
            has_key(old(self)@, key@) ==> {
                &&& lookup_value(old(self)@, key@) == Some(*r)
                &&& final(self)@ == old(self)@.update(
                    key_pos(old(self)@, key@),
                    (
                        key@,
                        TableKeyValue {
                            key: lookup(old(self)@, key@)->0.key,
                            value: Item::Value(*final(r)),
                        },
                    ),
                )
            },
            !has_key(old(self)@, key@) ==> {
                &&& *r == value
                &&& final(self)@.len() == old(self)@.len() + 1
                &&& final(self)@.drop_last() == old(self)@
                &&& final(self)@.last().0 == key@
                &&& final(self)@.last().1.key@ == key@
                &&& final(self)@.last().1.key.spec_decor()@ == (
                    Seq::<char>::empty(),
                    Seq::<char>::empty(),
                )
                &&& final(self)@.last().1.value == Item::Value(*final(r))
            },
    {
        let ghost es = self@;
        let ghost d = lemma_table_depth(*self);
        let k = Key::with_key(key);
        let owned = k.get().to_owned();
        let kv = pairs_entry_or_insert(&mut self.items, owned, TableKeyValue::new(k, Item::Value(value)));
        proof {
            if has_key(es, key@) {
                let i = choose|i: int| 0 <= i < es.len() && es[i].0 == key@;
                lemma_key_pos(es, key@, i);
                lemma_update_value_wf(es, i, d);
                lemma_value_at_wf(es, i);
            } else {
                lemma_push_value_wf(es, d, k);
            }
        }
        kv.value.as_value_mut().expect("non-value type in inline table")
    }
}

/// The key/value pairs that stand visually under a table whose entries are
/// `es`, reached by the key path `parent`: a value under its path, where the
/// value is an inline table of dotted keys its own pairs in its place instead,
/// down to `fuel` tables deep.
pub open spec fn dotted_values(es: Entries, parent: Seq<Key>, fuel: nat) -> Seq<(Seq<Key>, Value)>
    decreases fuel, es.len(),
{
    if es.len() == 0 {
        Seq::empty()
    } else {
        let prev = dotted_values(es.drop_last(), parent, fuel);
        let kv = es.last().1;
        let path = parent.push(kv.key);
        match kv.value {
            Item::Value(v) => match v {
                Value::InlineTable(t) => if t.spec_dotted() {
                    if fuel > 0 {
                        prev + dotted_values(t@, path, (fuel - 1) as nat)
                    } else {
                        prev
                    }
                } else {
                    prev.push((path, v))
                },
                _ => prev.push((path, v)),
            },
            Item::Empty => prev,
        }
    }
}

/// A path of key references and a value reference, as keys and a value.
pub open spec fn path_value_view(c: (Vec<&Key>, &Value)) -> (Seq<Key>, Value) {
    (c.0@.map_values(|k: &Key| *k), *c.1)
}

/// A sequence of paths and values, as keys and values.
pub open spec fn paths_view(cs: Seq<(Vec<&Key>, &Value)>) -> Seq<(Seq<Key>, Value)> {
    cs.map_values(|c: (Vec<&Key>, &Value)| path_value_view(c))
}

impl InlineTable {
    /// Appends to `children` the key/value pairs that stand visually under
    /// this table: each value with its key path, where a value is an inline
    /// table of dotted keys, its own pairs in its place.
    pub fn get_values<'s, 'c>(&'s self, children: &'c mut Vec<(Vec<&'s Key>, &'s Value)>)
        requires
            self.wf(),
        ensures
            forall|d: nat|
                entries_within(self@, d) ==> paths_view(final(children)@) == paths_view(
                    old(children)@,
                ) + dotted_values(self@, Seq::empty(), d),
    {
        let ghost d = lemma_table_depth(*self);
        let root: Vec<&Key> = Vec::new();
        self.get_values_internal(&root, children, Ghost(d));
        proof {
            assert(root@.map_values(|k: &Key| *k) =~= Seq::<Key>::empty());
            assert forall|d2: nat| entries_within(self@, d2) implies paths_view(final(children)@)
                == paths_view(old(children)@) + dotted_values(self@, Seq::empty(), d2) by {
                lemma_dotted_values_fuel(self@, Seq::empty(), d, d2);
            }
        }
    }

    fn get_values_internal<'s, 'c>(
        &'s self,
        parent: &Vec<&'s Key>,
        children: &'c mut Vec<(Vec<&'s Key>, &'s Value)>,
        Ghost(fuel): Ghost<nat>,
    )
        requires
            entries_within(self@, fuel),
        ensures
            paths_view(final(children)@) == paths_view(old(children)@) + dotted_values(
                self@,
                parent@.map_values(|k: &Key| *k),
                fuel,
            ),
        decreases fuel,
    {
        let ghost parent_view = parent@.map_values(|k: &Key| *k);
        let ghost start = paths_view(children@);
        let pairs = pairs_iter(&self.items);
        let mut i: usize = 0;
        while i < pairs.len()
            invariant
                i <= pairs@.len(),
                pairs@.len() == self@.len(),
                forall|j: int|
                    0 <= j < pairs@.len() ==> pairs@[j].0@ == self@[j].0 && *pairs@[j].1
                        == self@[j].1,
                entries_within(self@, fuel),
                parent_view == parent@.map_values(|k: &Key| *k),
                paths_view(children@) == start + dotted_values(
                    self@.take(i as int),
                    parent_view,
                    fuel,
                ),
            decreases pairs@.len() - i,
        {
            let kv = pairs[i].1;
            let ghost before = paths_view(children@);
            let mut path: Vec<&Key> = parent.clone();
            path.push(&kv.key);
            let ghost path_view = parent_view.push(kv.key);
            assert(path@.map_values(|k: &Key| *k) =~= path_view);
            assert(self@.take(i + 1).drop_last() =~= self@.take(i as int));
            assert(self@.take(i + 1).last() == self@[i as int]);
            assert(item_within(self@[i as int].1.value, fuel));
            match &kv.value {
                Item::Value(value) => {
                    match value {
                        Value::InlineTable(table) => {
                            if table.is_dotted() {
                                table.get_values_internal(&path, children, Ghost((fuel - 1) as nat));
                            } else {
                                children.push((path, value));
                                assert(paths_view(children@) =~= before.push((path_view, *value)));
                            }
                        },
                        _ => {
                            children.push((path, value));
                            assert(paths_view(children@) =~= before.push((path_view, *value)));
                        },
                    }
                },
                Item::Empty => {},
            }
            i = i + 1;
        }
        assert(self@.take(i as int) =~= self@);
    }
}

/// Where a table is well formed to two depth bounds, the pairs under it are
/// the same for both.
proof fn lemma_dotted_values_fuel(es: Entries, parent: Seq<Key>, d1: nat, d2: nat)
    requires
        entries_within(es, d1),
        entries_within(es, d2),
    ensures
        dotted_values(es, parent, d1) == dotted_values(es, parent, d2),
    decreases d1, es.len(),
{
    if es.len() > 0 {
        lemma_within_drop_last(es, d1);
        lemma_within_drop_last(es, d2);
        lemma_dotted_values_fuel(es.drop_last(), parent, d1, d2);
        let kv = es.last().1;
        assert(es.last() == es[es.len() - 1]);
        match kv.value {
            Item::Value(Value::InlineTable(t)) => {
                if t.spec_dotted() {
                    lemma_dotted_values_fuel(t@, parent.push(kv.key), (d1 - 1) as nat, (d2 - 1) as nat);
                }
            },
            _ => {},
        }
    }
}

/// No entry after position `i` holds a value.
pub open spec fn no_value_after(es: Entries, i: int) -> bool {
    forall|j: int| i < j < es.len() ==> es[j].1.value is Empty
}

/// `e2` is the entry `e` as `fmt` leaves it: where it holds a value, one
/// space on each side of the key, and one space before the value and, where
/// the value is the `last`, one after it; otherwise unchanged.
pub open spec fn formatted_entry(
    e: (Seq<char>, TableKeyValue),
    e2: (Seq<char>, TableKeyValue),
    last: bool,
) -> bool {
    &&& e2.0 == e.0
    &&& match e.1.value {
        Item::Empty => e2.1 == e.1,
        Item::Value(v) => {
            &&& e2.1.key == e.1.key.spec_with_decor(e2.1.key.spec_decor())
            &&& e2.1.key.spec_decor()@ == (" "@, " "@)
            &&& e2.1.value is Value
            &&& e2.1.value->Value_0 == v.spec_with_decor(e2.1.value->Value_0.spec_decor())
            &&& e2.1.value->Value_0.spec_decor()@ == (if last {
                (" "@, " "@)
            } else {
                (" "@, ""@)
            })
        },
    }
}

/// `es2` are the entries `es` as `fmt` leaves them.
pub open spec fn formatted(es: Entries, es2: Entries) -> bool {
    &&& es2.len() == es.len()
    &&& forall|i: int|
        0 <= i < es.len() ==> formatted_entry(#[trigger] es[i], es2[i], no_value_after(es, i))
}

impl InlineTable {
    /// Gives every key one space on each side, and every value one space
    /// before it, and the last value one after it too.
    pub fn fmt(&mut self)
        requires
            old(self).wf(),
        ensures
            formatted(old(self)@, final(self)@),
            final(self).wf(),
            final(self).same_frame(*old(self)),
    {
        decorate_inline_table(self);
    }
}

fn decorate_inline_table(table: &mut InlineTable)
    requires
        old(table).wf(),
    ensures
        formatted(old(table)@, final(table)@),
        final(table).wf(),
        final(table).same_frame(*old(table)),
{
    let ghost es = table@;
    let ghost d = lemma_table_depth(*table);
    let n = table.len();
    let pairs = pairs_iter_mut(&mut table.items);
    let ghost all = pairs@;
    let mut i: usize = 0;
    for pair in it: pairs
        invariant
            all == it.seq(),
            all.len() == es.len(),
            forall|j: int| 0 <= j < all.len() ==> all[j].0@ == es[j].0 && *all[j].1 == es[j].1,
            n == value_pairs(es).len(),
            i == value_pairs(es.take(it.index() as int)).len(),
            forall|j: int|
                0 <= j < it.index() ==> formatted_entry(
                    es[j],
                    (es[j].0, *final(#[trigger] all[j].1)),
                    no_value_after(es, j),
                ),
    {
        let ghost j = it.index() as int;
        proof {
            assert(es.take(j + 1).drop_last() =~= es.take(j));
            assert(es.take(j + 1).last() == es[j]);
        }
        let (_, kv) = pair;
        if kv.value.is_value() {
            proof {
                lemma_value_count_prefix(es, j + 1);
                assert(no_value_after(es, j) == (i == n - 1));
            }
            *kv.key.decor_mut() = Decor::new(DEFAULT_INLINE_KEY_DECOR.0, DEFAULT_INLINE_KEY_DECOR.1);
            match &mut kv.value {
                Item::Value(value) => {
                    if i == n - 1 {
                        value.decorate(DEFAULT_TRAILING_VALUE_DECOR.0, DEFAULT_TRAILING_VALUE_DECOR.1);
                    } else {
                        value.decorate(DEFAULT_VALUE_DECOR.0, DEFAULT_VALUE_DECOR.1);
                    }
                },
                Item::Empty => {},
            }
            i = i + 1;
        }
    }
    proof {
        assert(formatted(es, table@));
        lemma_formatted_entries_within(es, table@, d);
    }
}

/// The number of values among the first `k` entries is at most their number
/// among all entries, and the same exactly where no value stands after them.
proof fn lemma_value_count_prefix(es: Entries, k: int)
    requires
        0 <= k <= es.len(),
    ensures
        value_pairs(es.take(k)).len() <= value_pairs(es).len(),
        value_pairs(es.take(k)).len() == value_pairs(es).len() <==> forall|q: int|
            k <= q < es.len() ==> es[q].1.value is Empty,
    decreases es.len(),
{
    if k == es.len() {
        assert(es.take(k) =~= es);
    } else {
        let rest = es.drop_last();
        lemma_value_count_prefix(rest, k);
        assert(es.take(k) =~= rest.take(k));
        assert(es.last() == es[es.len() - 1]);
        assert forall|q: int| k <= q < rest.len() implies rest[q] == es[q] by {}
    }
}

/// Formatted entries of well-formed entries are well formed.
proof fn lemma_formatted_entries_within(es: Entries, es2: Entries, d: nat)
    requires
        entries_within(es, d),
        formatted(es, es2),
    ensures
        entries_within(es2, d),
{
    assert forall|i: int| 0 <= i < es2.len() implies (#[trigger] es2[i]).1.key@ == es2[i].0
        && item_within(es2[i].1.value, d) && es2[i].0 == es[i].0 by {
        assert(formatted_entry(es[i], es2[i], no_value_after(es, i)));
        if es[i].1.value is Value {
            lemma_with_decor_text(es[i].1.key, es2[i].1.key.spec_decor());
            lemma_formatted_within(es[i].1, es2[i].1, d);
        }
    }
    assert forall|a: int, b: int|
        0 <= a < es2.len() && 0 <= b < es2.len() && a != b implies es2[a].0 != es2[b].0 by {
        assert(es2[a].0 == es[a].0 && es2[b].0 == es[b].0);
    }
}

/// Changing the whitespace around a key and its value keeps an item well
/// formed.
proof fn lemma_formatted_within(kv: TableKeyValue, kv2: TableKeyValue, d: nat)
    requires
        item_within(kv.value, d),
        kv.value is Value,
        kv2.value is Value,
        kv2.value->Value_0 == kv.value->Value_0.spec_with_decor(kv2.value->Value_0.spec_decor()),
    ensures
        item_within(kv2.value, d),
{
}

impl InlineTable {
    /// Sorts the key/value pairs by key: the entries that hold no value keep
    /// their order in front, and the entries that hold a value follow, in
    /// the order of their keys' bytes.
    pub fn sort(&mut self)
        requires
            old(self).wf(),
        ensures
            sorted_entries(old(self)@, final(self)@),
            final(self).wf(),
            final(self).same_frame(*old(self)),
    {
        let ghost d = lemma_table_depth(*self);
        let ghost es = self@;
        sort_key_value_pairs(&mut self.items);
        proof {
            lemma_within_rearranged(es, self@, d);
        }
    }
}

/// The entries of `es` after each pair of `pairs` is inserted in turn.
pub open spec fn extended(es: Entries, pairs: Seq<(Key, Value)>) -> Entries
    decreases pairs.len(),
{
    if pairs.len() == 0 {
        es
    } else {
        inserted(extended(es, pairs.drop_last()), pairs.last().0, pairs.last().1)
    }
}

impl InlineTable {
    /// Inserts each key/value pair in turn, as `insert_formatted` does.
    pub fn extend(&mut self, pairs: Vec<(Key, Value)>)
        requires
            old(self).wf(),
            forall|i: int| 0 <= i < pairs@.len() ==> value_wf(#[trigger] pairs@[i].1),
        ensures
            final(self)@ == extended(old(self)@, pairs@),
            final(self).wf(),
            final(self).same_frame(*old(self)),
    {
        let ghost start = self@;
        let ghost all = pairs@;
        for pair in it: pairs
            invariant
                forall|i: int| 0 <= i < all.len() ==> value_wf(#[trigger] all[i].1),
                all == it.seq(),
                self.wf(),
                self.same_frame(*old(self)),
                self@ == extended(start, all.take(it.index() as int)),
        {
            let (key, value) = pair;
            assert(all.take(it.index() + 1).drop_last() =~= all.take(it.index() as int));
            self.insert_pair(key, value);
        }
        assert(all.take(all.len() as int) =~= all);
    }

    /// A table made of the key/value pairs, each inserted in turn.
    pub fn from_iter(pairs: Vec<(Key, Value)>) -> (r: InlineTable)
        requires
            forall|i: int| 0 <= i < pairs@.len() ==> value_wf(#[trigger] pairs@[i].1),
        ensures
            r@ == extended(Seq::empty(), pairs@),
            r.wf(),
            !r.spec_dotted(),
            r.spec_preamble() == Seq::<char>::empty(),
            r.spec_decor()@ == (Seq::<char>::empty(), Seq::<char>::empty()),
    {
        let mut table = InlineTable::new();
        table.extend(pairs);
        table
    }
}

impl InlineTable {
    /// The key/value pairs that hold a value, in order, taken out of the table.
    pub fn into_pairs(self) -> (r: Vec<(String, Value)>)
        ensures
            r@.len() == value_pairs(self@).len(),
            forall|i: int|
                0 <= i < r@.len() ==> r@[i].0@ == value_pairs(self@)[i].0 && r@[i].1
                    == value_pairs(self@)[i].1,
    {
        let ghost es = self@;
        let pairs = pairs_into_vec(self.items);
        let ghost all = pairs@;
        let mut r: Vec<(String, Value)> = Vec::new();
        for pair in it: pairs
            invariant
                all == it.seq(),
                all.len() == es.len(),
                forall|j: int| 0 <= j < all.len() ==> all[j].0@ == es[j].0 && all[j].1 == es[j].1,
                r@.len() == value_pairs(es.take(it.index() as int)).len(),
                forall|j: int|
                    0 <= j < r@.len() ==> r@[j].0@ == value_pairs(es.take(it.index() as int))[j].0
                        && r@[j].1 == value_pairs(es.take(it.index() as int))[j].1,
        {
            let ghost i = it.index();
            assert(es.take(i + 1).drop_last() =~= es.take(i as int));
            assert(es.take(i + 1).last() == es[i as int]);
            let (k, kv) = pair;
            match kv.value.into_value() {
                Ok(v) => {
                    r.push((k, v));
                },
                Err(_) => {},
            }
        }
        assert(es.take(es.len() as int) =~= es);
        r
    }
}

impl TableLike for InlineTable {
    open spec fn entries(&self) -> Entries {
        self@
    }

    open spec fn table_wf(&self) -> bool {
        self.wf()
    }

    open spec fn same_frame_as(&self, other: &Self) -> bool {
        self.same_frame(*other)
    }

    fn iter(&self) -> (r: Vec<(&str, &Item)>) {
        let pairs = pairs_iter(&self.items);
        let mut r: Vec<(&str, &Item)> = Vec::new();
        let mut i: usize = 0;
        while i < pairs.len()
            invariant
                i <= pairs@.len(),
                pairs@.len() == self@.len(),
                forall|j: int|
                    0 <= j < pairs@.len() ==> pairs@[j].0@ == self@[j].0 && *pairs@[j].1
                        == self@[j].1,
                r@.len() == i,
                forall|j: int| 0 <= j < i ==> r@[j].0@ == self@[j].0 && *r@[j].1 == self@[j].1.value,
            decreases pairs@.len() - i,
        {
            let (k, kv) = pairs[i];
            r.push((k, &kv.value));
            i = i + 1;
        }
        r
    }

    fn get<'s>(&'s self, key: &str) -> (r: Option<&'s Item>) {
        match pairs_get(&self.items, key) {
            Some(kv) => {
                proof {
                    let d = lemma_table_depth(*self);
                    let i = choose|i: int|
                        0 <= i < self@.len() && self@[i].0 == key@ && *kv == self@[i].1;
                    lemma_key_pos(self@, key@, i);
                }
                Some(&kv.value)
            },
            None => None,
        }
    }

    fn get_mut<'s>(&'s mut self, key: &str) -> (r: Option<&'s mut Item>) {
        let ghost d = lemma_table_depth(*self);
        let ghost es = self@;
        match pairs_get_mut(&mut self.items, key) {
            Some(kv) => {
                proof {
                    let i = choose|i: int|
                        0 <= i < es.len() && es[i].0 == key@ && *kv == es[i].1;
                    lemma_key_pos(es, key@, i);
                    lemma_update_item_wf(es, i, d);
                }
                Some(&mut kv.value)
            },
            None => None,
        }
    }
}

/// The entries `es` with the values of the entries that hold one replaced,
/// in order, by `vs`.
pub open spec fn with_values(es: Entries, vs: Seq<Value>) -> Entries
    decreases es.len(),
{
    if es.len() == 0 {
        es
    } else {
        let last = es.last();
        match last.1.value {
            Item::Value(_) => with_values(es.drop_last(), vs.drop_last()).push(
                (last.0, TableKeyValue { key: last.1.key, value: Item::Value(vs.last()) }),
            ),
            Item::Empty => with_values(es.drop_last(), vs).push(last),
        }
    }
}

impl InlineTable {
    /// Mutable access to the key/value pairs that hold a value, in order.
    pub fn iter_mut(&mut self) -> (r: Vec<(&str, &mut Value)>)
        ensures
            r@.len() == value_pairs(old(self)@).len(),
            forall|i: int|
                0 <= i < r@.len() ==> r@[i].0@ == value_pairs(old(self)@)[i].0 && *r@[i].1
                    == value_pairs(old(self)@)[i].1,
            final(self)@ == with_values(
                old(self)@,
                r@.map_values(|p: (&str, &mut Value)| *final(p.1)),
            ),
            final(self).same_frame(*old(self)),
            old(self).wf() && (forall|x: int| 0 <= x < r@.len() ==> value_wf(*final(#[trigger] r@[x].1)))
                ==> final(self).wf(),
    {
        let ghost es = self@;
        let pairs = pairs_iter_mut(&mut self.items);
        let ghost all = pairs@;
        assert(all.len() == es.len());
        assert(forall|j: int| 0 <= j < all.len() ==> all[j].0@ == es[j].0);
        assert(forall|j: int| 0 <= j < all.len() ==> *all[j].1 == es[j].1);
        let mut r: Vec<(&str, &mut Value)> = Vec::new();
        for pair in it: pairs
            invariant
                all == it.seq(),
                all.len() == es.len(),
                forall|j: int| 0 <= j < all.len() ==> all[j].0@ == es[j].0 && *all[j].1 == es[j].1,
                r@.len() == value_pairs(es.take(it.index() as int)).len(),
                forall|j: int|
                    0 <= j < r@.len() ==> r@[j].0@ == value_pairs(es.take(it.index() as int))[j].0
                        && *r@[j].1 == value_pairs(es.take(it.index() as int))[j].1,
                forall|j: int|
                    0 <= j < it.index() ==> *final((#[trigger] all[j]).1) == with_values(
                        es.take(it.index() as int),
                        r@.map_values(|p: (&str, &mut Value)| *final(p.1)),
                    )[j].1,
        {
            let ghost i = it.index();
            assert(es.take(i + 1).drop_last() =~= es.take(i as int));
            assert(es.take(i + 1).last() == es[i as int]);
            let ghost r_before = r@;
            let (k, kv) = pair;
            match &mut kv.value {
                Item::Value(v) => {
                    r.push((k, v));
                    proof {
                        let fv = *final(r@.last().1);
                        assert(*final(all[i as int].1) == TableKeyValue {
                            key: es[i as int].1.key,
                            value: Item::Value(fv),
                        });
                        let rv_before = r_before.map_values(|p: (&str, &mut Value)| *final(p.1));
                        assert(r@.map_values(|p: (&str, &mut Value)| *final(p.1)) =~= rv_before.push(fv));
                        lemma_with_values_push(es.take(i as int), rv_before, es[i as int], fv);
                        assert(es.take(i + 1) =~= es.take(i as int).push(es[i as int]));
                        lemma_with_values_len(es.take(i as int), rv_before);
                        let rv = r@.map_values(|p: (&str, &mut Value)| *final(p.1));
                        assert forall|j: int| 0 <= j < i + 1 implies *final((#[trigger] all[j]).1)
                            == with_values(es.take(i + 1), rv)[j].1 by {
                            if j < i {
                                assert(with_values(es.take(i + 1), rv)[j] == with_values(
                                    es.take(i as int),
                                    rv_before,
                                )[j]);
                            }
                        }
                    }
                },
                Item::Empty => {
                    proof {
                        assert(*final(all[i as int].1) == es[i as int].1);
                        let rv_before = r_before.map_values(|p: (&str, &mut Value)| *final(p.1));
                        lemma_with_values_push(es.take(i as int), rv_before, es[i as int], arbitrary());
                        assert(es.take(i + 1) =~= es.take(i as int).push(es[i as int]));
                        lemma_with_values_len(es.take(i as int), rv_before);
                        assert forall|j: int| 0 <= j < i + 1 implies *final((#[trigger] all[j]).1)
                            == with_values(es.take(i + 1), rv_before)[j].1 by {
                            if j < i {
                                assert(with_values(es.take(i + 1), rv_before)[j] == with_values(
                                    es.take(i as int),
                                    rv_before,
                                )[j]);
                            }
                        }
                    }
                },
            }
        }
        proof {
            assert(es.take(es.len() as int) =~= es);
            let rv = r@.map_values(|p: (&str, &mut Value)| *final(p.1));
            lemma_with_values_len(es, rv);
            lemma_handed_out_values_wf(es, r@);
            lemma_with_values_at(es, rv);
            lemma_value_positions(es);
        }
        r
    }
}

/// Values handed out by mutable reference, each left well formed, leave
/// well-formed entries well formed, whatever else is kept.
proof fn lemma_handed_out_values_wf(es: Entries, r: Seq<(&str, &mut Value)>)
    requires
        r.len() == value_pairs(es).len(),
    ensures
        forall|fs: Entries|
            {
            &&& entries_wf(es)
            &&& forall|x: int| 0 <= x < r.len() ==> value_wf(*final(#[trigger] r[x].1))
            &&& fs.len() == es.len()
            &&& forall|j: int| 0 <= j < es.len() && (#[trigger] es[j]).1.value is Empty ==> fs[j] == es[j]
            &&& forall|x: int|
                0 <= x < r.len() ==> fs[#[trigger] value_positions(es)[x]] == (
                    es[value_positions(es)[x]].0,
                    TableKeyValue {
                        key: es[value_positions(es)[x]].1.key,
                        value: Item::Value(*final(r[x].1)),
                    },
                )
        } ==> #[trigger] entries_wf(fs),
{
    let rv = r.map_values(|p: (&str, &mut Value)| *final(p.1));
    lemma_with_values_wf(es, rv);
    lemma_with_values_at(es, rv);
    lemma_value_positions(es);
    let vp = value_positions(es);
    assert forall|fs: Entries| {
            &&& entries_wf(es)
            &&& forall|x: int| 0 <= x < r.len() ==> value_wf(*final(#[trigger] r[x].1))
            &&& fs.len() == es.len()
            &&& forall|j: int| 0 <= j < es.len() && (#[trigger] es[j]).1.value is Empty ==> fs[j] == es[j]
            &&& forall|x: int|
                0 <= x < r.len() ==> fs[#[trigger] value_positions(es)[x]] == (
                    es[value_positions(es)[x]].0,
                    TableKeyValue {
                        key: es[value_positions(es)[x]].1.key,
                        value: Item::Value(*final(r[x].1)),
                    },
                )
        } implies #[trigger] entries_wf(fs) by {
        assert forall|i: int| 0 <= i < rv.len() implies value_wf(#[trigger] rv[i]) by {
            assert(value_wf(*final(r[i].1)));
        }
        assert forall|j: int| 0 <= j < es.len() implies fs[j] == with_values(es, rv)[j] by {
            if es[j].1.value is Value {
                let x = choose|x: int| 0 <= x < vp.len() && vp[x] == j;
                assert(fs[vp[x]] == with_values(es, rv)[vp[x]]);
            }
        }
        assert(fs =~= with_values(es, rv));
    }
}

/// Where each value stands after its values are replaced.
proof fn lemma_with_values_at(es: Entries, vs: Seq<Value>)
    requires
        vs.len() == value_pairs(es).len(),
    ensures
        with_values(es, vs).len() == es.len(),
        forall|j: int|
            0 <= j < es.len() && (#[trigger] es[j]).1.value is Empty ==> with_values(es, vs)[j] == es[j],
        forall|x: int|
            0 <= x < vs.len() ==> with_values(es, vs)[#[trigger] value_positions(es)[x]] == (
                es[value_positions(es)[x]].0,
                TableKeyValue { key: es[value_positions(es)[x]].1.key, value: Item::Value(vs[x]) },
            ),
    decreases es.len(),
{
    lemma_value_positions(es);
    if es.len() > 0 {
        let rest = es.drop_last();
        let last = es.last();
        assert(last == es[es.len() - 1]);
        assert forall|j: int| 0 <= j < rest.len() implies rest[j] == es[j] by {}
        lemma_value_positions(rest);
        match last.1.value {
            Item::Value(_) => {
                let vr = vs.drop_last();
                lemma_with_values_at(rest, vr);
                assert forall|x: int|
                    0 <= x < vs.len() implies with_values(es, vs)[#[trigger] value_positions(
                        es,
                    )[x]] == (
                    es[value_positions(es)[x]].0,
                    TableKeyValue { key: es[value_positions(es)[x]].1.key, value: Item::Value(vs[x]) },
                ) by {
                    if x < vr.len() {
                        assert(value_positions(es)[x] == value_positions(rest)[x]);
                        assert(vr[x] == vs[x]);
                    }
                }
            },
            Item::Empty => {
                lemma_with_values_at(rest, vs);
                assert forall|x: int|
                    0 <= x < vs.len() implies with_values(es, vs)[#[trigger] value_positions(
                        es,
                    )[x]] == (
                    es[value_positions(es)[x]].0,
                    TableKeyValue { key: es[value_positions(es)[x]].1.key, value: Item::Value(vs[x]) },
                ) by {
                    assert(value_positions(es)[x] == value_positions(rest)[x]);
                }
            },
        }
    }
}

/// Replacing each value of well-formed entries by a well-formed value keeps
/// them well formed.
proof fn lemma_with_values_wf(es: Entries, vs: Seq<Value>)
    requires
        vs.len() == value_pairs(es).len(),
    ensures
        entries_wf(es) && (forall|i: int| 0 <= i < vs.len() ==> value_wf(#[trigger] vs[i]))
            ==> entries_wf(with_values(es, vs)),
    decreases es.len(),
{
    if entries_wf(es) && (forall|i: int| 0 <= i < vs.len() ==> value_wf(#[trigger] vs[i])) {
        let d = choose|d: nat| entries_within(es, d);
        if es.len() == 0 {
            assert(entries_within(with_values(es, vs), d));
        } else {
            let rest = es.drop_last();
            let last = es.last();
            lemma_within_drop_last(es, d);
            assert(last == es[es.len() - 1]);
            assert(!has_key(rest, last.0)) by {
                assert forall|j: int| 0 <= j < rest.len() implies rest[j].0 != last.0 by {
                    assert(rest[j] == es[j]);
                }
            }
            match last.1.value {
                Item::Value(_) => {
                    let vr = vs.drop_last();
                    assert forall|i: int| 0 <= i < vr.len() implies value_wf(#[trigger] vr[i]) by {
                        assert(vr[i] == vs[i]);
                    }
                    lemma_with_values_wf(rest, vr);
                    let w = with_values(rest, vr);
                    let d1 = choose|d1: nat| entries_within(w, d1);
                    assert(value_wf(vs[vs.len() - 1]));
                    let dv = lemma_value_depth(vs.last());
                    let dd = if d1 < dv { dv } else { d1 };
                    lemma_within_mono(w, d1, dd);
                    lemma_item_within_mono(Item::Value(vs.last()), dv, dd);
                    lemma_with_values_len(rest, vr);
                    let kv = TableKeyValue { key: last.1.key, value: Item::Value(vs.last()) };
                    assert(!has_key(w, kv.key@)) by {
                        assert forall|j: int| 0 <= j < w.len() implies w[j].0 != kv.key@ by {
                            assert(w[j].0 == rest[j].0);
                        }
                    }
                    lemma_within_push(w, kv, dd);
                    assert(entries_within(with_values(es, vs), dd));
                },
                Item::Empty => {
                    lemma_with_values_wf(rest, vs);
                    let w = with_values(rest, vs);
                    let d1 = choose|d1: nat| entries_within(w, d1);
                    lemma_with_values_len(rest, vs);
                    assert(!has_key(w, last.1.key@)) by {
                        assert forall|j: int| 0 <= j < w.len() implies w[j].0 != last.1.key@ by {
                            assert(w[j].0 == rest[j].0);
                        }
                    }
                    lemma_within_push(w, last.1, d1);
                    assert(entries_within(with_values(es, vs), d1));
                },
            }
        }
    }
}

/// Replacing values keeps the keys and the number of entries.
proof fn lemma_with_values_len(es: Entries, vs: Seq<Value>)
    ensures
        with_values(es, vs).len() == es.len(),
        forall|j: int| 0 <= j < es.len() ==> (#[trigger] with_values(es, vs)[j]).0 == es[j].0,
    decreases es.len(),
{
    if es.len() > 0 {
        let rest = es.drop_last();
        match es.last().1.value {
            Item::Value(_) => lemma_with_values_len(rest, vs.drop_last()),
            Item::Empty => lemma_with_values_len(rest, vs),
        }
        assert forall|j: int| 0 <= j < es.len() implies (#[trigger] with_values(es, vs)[j]).0 == es[j].0 by {
            if j < rest.len() {
                assert(rest[j] == es[j]);
            }
        }
    }
}

/// One more entry, with one more value where it holds a value.
proof fn lemma_with_values_push(es: Entries, vs: Seq<Value>, e: (Seq<char>, TableKeyValue), v: Value)
    ensures
        e.1.value is Value ==> with_values(es.push(e), vs.push(v)) == with_values(es, vs).push(
            (e.0, TableKeyValue { key: e.1.key, value: Item::Value(v) }),
        ),
        e.1.value is Empty ==> with_values(es.push(e), vs) == with_values(es, vs).push(e),
{
    assert(es.push(e).drop_last() =~= es);
    assert(vs.push(v).drop_last() =~= vs);
}

/// `cur` are the entries `es` as `entry` leaves them for the key `k`: where
/// the key holds nothing, it holds an empty inline table instead, with no
/// whitespace and no preamble, not dotted.
pub open spec fn entry_normalized(es: Entries, cur: Entries, k: Seq<char>) -> bool {
    let i = key_pos(es, k);
    &&& cur.len() == es.len()
    &&& forall|j: int| 0 <= j < es.len() && j != i ==> cur[j] == es[j]
    &&& cur[i].0 == es[i].0
    &&& cur[i].1.key == es[i].1.key
    &&& es[i].1.value is Value ==> cur[i].1.value == es[i].1.value
    &&& es[i].1.value is Empty ==> (cur[i].1.value matches Item::Value(Value::InlineTable(t))
        && t@.len() == 0 && !t.spec_dotted() && t.spec_preamble() == Seq::<char>::empty()
        && t.spec_decor()@ == (Seq::<char>::empty(), Seq::<char>::empty()))
}

impl InlineTable {
    /// The entry for the key `key`, for changing it in place.
    pub fn entry<'a>(&'a mut self, key: &str) -> (r: InlineEntry<'a>)
        requires
            old(self).wf(),
        ensures
            final(self).same_frame(*old(self)),
            match r {
                InlineEntry::Occupied(e) => {
                    &&& e.spec_key() == key@
                    &&& has_key(old(self)@, key@)
                    &&& entry_normalized(old(self)@, e.current(), key@)
                    &&& e.valid()
                    &&& pairs_contents(*final(e.pairs())) == final(self)@
                },
                InlineEntry::Vacant(e) => {
                    &&& e.spec_key() == key@
                    &&& !has_key(old(self)@, key@)
                    &&& e.spec_formatted() is None
                    &&& e.current() == old(self)@
                    &&& e.valid()
                    &&& pairs_contents(*final(e.pairs())) == final(self)@
                },
            },
    {
        self.entry_for(key, None)
    }

    /// The entry for the key `key` (its text and its whitespace), for
    /// changing it in place.
    pub fn entry_format<'a>(&'a mut self, key: &'a Key) -> (r: InlineEntry<'a>)
        requires
            old(self).wf(),
        ensures
            final(self).same_frame(*old(self)),
            match r {
                InlineEntry::Occupied(e) => {
                    &&& e.spec_key() == key@
                    &&& has_key(old(self)@, key@)
                    &&& entry_normalized(old(self)@, e.current(), key@)
                    &&& e.valid()
                    &&& pairs_contents(*final(e.pairs())) == final(self)@
                },
                InlineEntry::Vacant(e) => {
                    &&& e.spec_key() == key@
                    &&& !has_key(old(self)@, key@)
                    &&& e.spec_formatted() == Some(key)
                    &&& e.current() == old(self)@
                    &&& e.valid()
                    &&& pairs_contents(*final(e.pairs())) == final(self)@
                },
            },
    {
        self.entry_for(key.get(), Some(key))
    }

    fn entry_for<'a>(&'a mut self, key: &str, formatted: Option<&'a Key>) -> (r: InlineEntry<'a>)
        requires
            old(self).wf(),
            formatted matches Some(k) ==> k@ == key@,
        ensures
            final(self).same_frame(*old(self)),
            match r {
                InlineEntry::Occupied(e) => {
                    &&& e.spec_key() == key@
                    &&& has_key(old(self)@, key@)
                    &&& entry_normalized(old(self)@, e.current(), key@)
                    &&& e.valid()
                    &&& pairs_contents(*final(e.pairs())) == final(self)@
                },
                InlineEntry::Vacant(e) => {
                    &&& e.spec_key() == key@
                    &&& !has_key(old(self)@, key@)
                    &&& e.spec_formatted() == formatted
                    &&& e.current() == old(self)@
                    &&& e.valid()
                    &&& pairs_contents(*final(e.pairs())) == final(self)@
                },
            },
    {
        let ghost es = self@;
        let ghost d = lemma_table_depth(*self);
        let owned = key.to_owned();
        let ghost mut stored: TableKeyValue = arbitrary();
        let found = match pairs_get_mut(&mut self.items, key) {
            Some(kv) => {
                proof {
                    let i = choose|i: int| 0 <= i < es.len() && es[i].0 == key@ && *kv == es[i].1;
                    lemma_key_pos(es, key@, i);
                    lemma_update_value_wf(es, i, d);
                }
                if kv.value.is_none() {
                    // an entry that holds nothing is handed out as an empty inline table
                    let fresh = InlineTable::new();
                    kv.value = Item::Value(Value::InlineTable(fresh));
                }
                proof {
                    let i = key_pos(es, key@);
                    assert(item_within(es[i].1.value, d));
                    if es[i].1.value is Value {
                        if let Value::InlineTable(t) = es[i].1.value->Value_0 {
                            assert(entries_within(t@, (d - 1) as nat));
                        }
                    }
                    assert(value_wf(kv.value->Value_0));
                    stored = *kv;
                }
                true
            },
            None => false,
        };
        proof {
            if found {
                let i = key_pos(es, key@);
                let cur = self@;
                assert(cur == es.update(i, (key@, stored)));
                assert(value_wf(stored.value->Value_0));
                assert(entries_wf(cur));
                let dc = lemma_entries_depth(cur);
                lemma_key_pos(cur, key@, i);
            }
        }
        if found {
            InlineEntry::Occupied(InlineOccupiedEntry::new(&mut self.items, owned))
        } else {
            InlineEntry::Vacant(InlineVacantEntry::new(&mut self.items, owned, formatted))
        }
    }
}

impl IntoIterator for InlineTable {
    type Item = (String, Value);
    type IntoIter = std::vec::IntoIter<(String, Value)>;

    /// The key/value pairs that hold a value, in order, taken out of the table.
    fn into_iter(self) -> (r: std::vec::IntoIter<(String, Value)>)
        ensures
            r.remaining().len() == value_pairs(self@).len(),
            forall|i: int|
                0 <= i < r.remaining().len() ==> r.remaining()[i].0@ == value_pairs(self@)[i].0
                    && r.remaining()[i].1 == value_pairs(self@)[i].1,
    {
        let pairs = self.into_pairs();
        proof {
            broadcast use vstd::std_specs::vec::axiom_spec_into_iter;
        }
        pairs.into_iter()
    }
}

impl<'s> IntoIterator for &'s InlineTable {
    type Item = (&'s str, &'s Value);
    type IntoIter = std::vec::IntoIter<(&'s str, &'s Value)>;

    /// The key/value pairs that hold a value, in order.
    fn into_iter(self) -> (r: std::vec::IntoIter<(&'s str, &'s Value)>)
        ensures
            r.remaining().len() == value_pairs(self@).len(),
            forall|i: int|
                0 <= i < r.remaining().len() ==> r.remaining()[i].0@ == value_pairs(self@)[i].0
                    && *r.remaining()[i].1 == value_pairs(self@)[i].1,
    {
        let pairs = self.iter();
        proof {
            broadcast use vstd::std_specs::vec::axiom_spec_into_iter;
        }
        pairs.into_iter()
    }
}

impl Default for InlineTable {
    /// An empty table.
    fn default() -> (r: InlineTable)
        ensures
            r@ == Seq::<(Seq<char>, TableKeyValue)>::empty(),
            r.wf(),
            !r.spec_dotted(),
            r.spec_preamble() == Seq::<char>::empty(),
            r.spec_decor()@ == (Seq::<char>::empty(), Seq::<char>::empty()),
    {
        let r = InlineTable {
            preamble: String::new(),
            decor: Decor::default(),
            dotted: false,
            items: pairs_new(),
        };
        assert(entries_within(r@, 0));
        r
    }
}

impl Clone for InlineTable {
    /// A copy of the table: the same text around it and dotted flag, the
    /// same keys (with their whitespace) in the same order, each with a copy
    /// of its item; a copy of a well-formed table is well formed.
    fn clone(&self) -> (r: InlineTable)
        ensures
            r.same_frame(*self),
            r@.len() == self@.len(),
            forall|i: int| 0 <= i < r@.len() ==> r@[i].0 == self@[i].0,
            forall|d: nat| entries_within(self@, d) ==> entries_copy(self@, r@, d),
            self.wf() ==> r.wf(),
    {
        let r = InlineTable {
            preamble: self.preamble.clone(),
            decor: self.decor.clone(),
            dotted: self.dotted,
            items: self.items.clone(),
        };
        proof {
            assert forall|d: nat| entries_within(self@, d) implies entries_copy(self@, r@, d) by {
                assert forall|i: int| 0 <= i < self@.len() implies item_copy(
                    self@[i].1.value,
                    r@[i].1.value,
                    d,
                ) by {
                    assert(r@[i].0 == self@[i].0);
                    assert(item_within(self@[i].1.value, d));
                }
            }
            if self.wf() {
                let d = choose|d: nat| entries_within(self@, d);
                lemma_entries_copy_within(self@, r@, d);
            }
        }
        r
    }
}

} // verus!
