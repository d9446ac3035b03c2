use vstd::prelude::*;

use crate::key::Key;
use crate::pairs::{
    pairs_contents, pairs_entry_or_insert, pairs_get, pairs_get_mut, pairs_remove, KeyValuePairs,
};
use crate::table::{has_key, key_pos, keys_unique, lemma_key_pos, Entries, TableKeyValue};
use crate::value::{Item, Value};
use crate::wf::{
    entries_wf, lemma_entries_depth, lemma_push_value_wf, lemma_update_value_wf,
    lemma_value_at_wf, lemma_within_remove, value_wf,
};

verus! {

/// A view into a single location of an inline table, which may be vacant or
/// occupied.
pub enum InlineEntry<'a> {
    /// An occupied entry.
    Occupied(InlineOccupiedEntry<'a>),
    /// A vacant entry.
    Vacant(InlineVacantEntry<'a>),
}

/// A view into a location of an inline table that holds a value.
///
/// Once the entry is no longer used, its table holds the entry's pairs as
/// they last were; `InlineOccupiedEntry::lemma_resolved` (brought in by
/// `broadcast use`) lets a caller conclude this after `get_mut` or `insert`.
pub struct InlineOccupiedEntry<'a> {
    items: &'a mut KeyValuePairs,
    key: String,
}

/// A view into a location of an inline table that holds nothing.
pub struct InlineVacantEntry<'a> {
    items: &'a mut KeyValuePairs,
    key: String,
    formatted: Option<&'a Key>,
}

impl<'a> InlineEntry<'a> {
    /// The entry is valid, and a value to store in it well formed.
    pub open spec fn valid(&self) -> bool {
        match self {
            InlineEntry::Occupied(e) => e.valid(),
            InlineEntry::Vacant(e) => e.valid(),
        }
    }

    /// The entry's key.
    pub fn key(&self) -> (r: &str)
        ensures
            r@ == match self {
                InlineEntry::Occupied(e) => e.spec_key(),
                InlineEntry::Vacant(e) => e.spec_key(),
            },
    {
        match self {
            InlineEntry::Occupied(e) => e.key(),
            InlineEntry::Vacant(e) => e.key(),
        }
    }

    /// The value in the entry, where it is occupied; else `default`, stored
    /// under the entry's key as the last pair.
    pub fn or_insert(self, default: Value) -> (r: &'a mut Value)
        requires
            self.valid(),
            value_wf(default),
        ensures
            match self {
                InlineEntry::Occupied(e) => {
                    &&& Item::Value(*r) == e.kv().value
                    &&& value_wf(*r)
                    &&& pairs_contents(*final(e.pairs())) == e.current().update(
                        e.pos(),
                        (e.spec_key(), TableKeyValue { key: e.kv().key, value: Item::Value(*final(r)) }),
                    )
                    &&& value_wf(*final(r)) ==> entries_wf(pairs_contents(*final(e.pairs())))
                },
                InlineEntry::Vacant(e) => {
                    &&& *r == default
                    &&& pairs_contents(*final(e.pairs())).len() == e.current().len() + 1
                    &&& pairs_contents(*final(e.pairs())).drop_last() == e.current()
                    &&& pairs_contents(*final(e.pairs())).last().0 == e.spec_key()
                    &&& pairs_contents(*final(e.pairs())).last().1.value == Item::Value(*final(r))
                    &&& match e.spec_formatted() {
                        Some(k) => pairs_contents(*final(e.pairs())).last().1.key == *k,
                        None => {
                            &&& pairs_contents(*final(e.pairs())).last().1.key@ == e.spec_key()
                            &&& pairs_contents(*final(e.pairs())).last().1.key.spec_decor()@ == (
                                Seq::<char>::empty(),
                                Seq::<char>::empty(),
                            )
                        },
                    }
                    &&& value_wf(*final(r)) ==> entries_wf(pairs_contents(*final(e.pairs())))
                },
            },
    {
        match self {
            InlineEntry::Occupied(entry) => entry.into_mut(),
            InlineEntry::Vacant(entry) => entry.insert(default),
        }
    }

    /// The value in the entry, where it is occupied; else the value that
    /// `default` makes, stored under the entry's key as the last pair.
    pub fn or_insert_with<F: FnOnce() -> Value>(self, default: F) -> (r: &'a mut Value)
        requires
            self.valid(),
            self is Vacant ==> default.requires(()),
            forall|v: Value| default.ensures((), v) ==> value_wf(v),
        ensures
            match self {
                InlineEntry::Occupied(e) => {
                    &&& Item::Value(*r) == e.kv().value
                    &&& value_wf(*r)
                    &&& pairs_contents(*final(e.pairs())) == e.current().update(
                        e.pos(),
                        (e.spec_key(), TableKeyValue { key: e.kv().key, value: Item::Value(*final(r)) }),
                    )
                    &&& value_wf(*final(r)) ==> entries_wf(pairs_contents(*final(e.pairs())))
                },
                InlineEntry::Vacant(e) => {
                    &&& default.ensures((), *r)
                    &&& pairs_contents(*final(e.pairs())).len() == e.current().len() + 1
                    &&& pairs_contents(*final(e.pairs())).drop_last() == e.current()
                    &&& pairs_contents(*final(e.pairs())).last().0 == e.spec_key()
                    &&& pairs_contents(*final(e.pairs())).last().1.value == Item::Value(*final(r))
                    &&& match e.spec_formatted() {
                        Some(k) => pairs_contents(*final(e.pairs())).last().1.key == *k,
                        None => {
                            &&& pairs_contents(*final(e.pairs())).last().1.key@ == e.spec_key()
                            &&& pairs_contents(*final(e.pairs())).last().1.key.spec_decor()@ == (
                                Seq::<char>::empty(),
                                Seq::<char>::empty(),
                            )
                        },
                    }
                    &&& value_wf(*final(r)) ==> entries_wf(pairs_contents(*final(e.pairs())))
                },
            },
    {
        match self {
            InlineEntry::Occupied(entry) => entry.into_mut(),
            InlineEntry::Vacant(entry) => entry.insert(default()),
        }
    }
}

impl<'a> InlineOccupiedEntry<'a> {
    /// The pairs of the table that the entry refers to.
    pub closed spec fn pairs(&self) -> &'a mut KeyValuePairs {
        self.items
    }

    /// The text of the entry's key.
    pub closed spec fn spec_key(&self) -> Seq<char> {
        self.key@
    }

    /// The pairs of the table, as they are now.
    pub open spec fn current(&self) -> Entries {
        pairs_contents(*self.pairs())
    }

    /// Once an entry is no longer changed, its table holds the entry's
    /// pairs as they are.
    pub broadcast proof fn lemma_resolved(self)
        ensures
            #[trigger] has_resolved(self) ==> *final(self.pairs()) == *self.pairs(),
    {
    }

    /// An occupied entry for the key `key` of the pairs `items`.
    pub(crate) fn new(items: &'a mut KeyValuePairs, key: String) -> (r: Self)
        ensures
            *r.pairs() == *old(items),
            *final(r.pairs()) == *final(items),
            r.spec_key() == key@,
    {
        InlineOccupiedEntry { items, key }
    }

    /// The position of the entry among the pairs.
    pub open spec fn pos(&self) -> int {
        key_pos(self.current(), self.spec_key())
    }

    /// The key and item of the entry, as they are now.
    pub open spec fn kv(&self) -> TableKeyValue {
        self.current()[self.pos()].1
    }

    /// The pairs are well formed and the entry's key holds a value.
    pub open spec fn valid(&self) -> bool {
        &&& entries_wf(self.current())
        &&& has_key(self.current(), self.spec_key())
        &&& self.kv().value is Value
    }

    /// The entry's key.
    pub fn key(&self) -> (r: &str)
        ensures
            r@ == self.spec_key(),
    {
        self.key.as_str()
    }

    /// The value in the entry.
    pub fn get(&self) -> (r: &Value)
        requires
            self.valid(),
        ensures
            Item::Value(*r) == self.kv().value,
            value_wf(*r),
    {
        proof {
            let d = lemma_entries_depth(self.current());
            lemma_key_pos(self.current(), self.key@, self.pos());
        }
        let kv = pairs_get(self.items, self.key.as_str()).unwrap();
        proof {
            let i = choose|i: int|
                0 <= i < self.current().len() && self.current()[i].0 == self.key@ && *kv
                    == self.current()[i].1;
            lemma_key_pos(self.current(), self.key@, i);
            lemma_value_at_wf(self.current(), i);
        }
        kv.value.as_value().unwrap()
    }

    /// Mutable access to the value in the entry.
    pub fn get_mut(&mut self) -> (r: &mut Value)
        requires
            old(self).valid(),
        ensures
            Item::Value(*r) == old(self).kv().value,
            value_wf(*r),
            final(self).spec_key() == old(self).spec_key(),
            *final(final(self).pairs()) == *final(old(self).pairs()),
            final(self).current() == old(self).current().update(
                old(self).pos(),
                (old(self).spec_key(), TableKeyValue { key: old(self).kv().key, value: Item::Value(*final(r)) }),
            ),
            value_wf(*final(r)) ==> final(self).valid(),
    {
        let ghost es = self.current();
        let ghost d = lemma_entries_depth(es);
        proof {
            lemma_key_pos(es, self.key@, key_pos(es, self.key@));
        }
        let kv = pairs_get_mut(self.items, self.key.as_str()).unwrap();
        proof {
            let i = choose|i: int| 0 <= i < es.len() && es[i].0 == self.key@ && *kv == es[i].1;
            lemma_key_pos(es, self.key@, i);
            lemma_occupied_update(es, i, es[i].1.key);
            lemma_value_at_wf(es, i);
        }
        kv.value.as_value_mut().unwrap()
    }

    /// The value in the entry, by a mutable reference that lasts as long as
    /// the table's borrow.
    pub fn into_mut(self) -> (r: &'a mut Value)
        requires
            self.valid(),
        ensures
            Item::Value(*r) == self.kv().value,
            value_wf(*r),
            pairs_contents(*final(self.pairs())) == self.current().update(
                self.pos(),
                (self.spec_key(), TableKeyValue { key: self.kv().key, value: Item::Value(*final(r)) }),
            ),
            value_wf(*final(r)) ==> entries_wf(pairs_contents(*final(self.pairs()))),
    {
        let ghost es = self.current();
        let ghost d = lemma_entries_depth(es);
        proof {
            lemma_key_pos(es, self.key@, key_pos(es, self.key@));
        }
        let kv = pairs_get_mut(self.items, self.key.as_str()).unwrap();
        proof {
            let i = choose|i: int| 0 <= i < es.len() && es[i].0 == self.key@ && *kv == es[i].1;
            lemma_key_pos(es, self.key@, i);
            lemma_update_value_wf(es, i, d);
            lemma_value_at_wf(es, i);
        }
        kv.value.as_value_mut().unwrap()
    }

    /// Puts `value` in the entry, in its place, and returns the value it held.
    pub fn insert(&mut self, value: Value) -> (r: Value)
        requires
            old(self).valid(),
            value_wf(value),
        ensures
            Item::Value(r) == old(self).kv().value,
            final(self).spec_key() == old(self).spec_key(),
            *final(final(self).pairs()) == *final(old(self).pairs()),
            final(self).current() == old(self).current().update(
                old(self).pos(),
                (old(self).spec_key(), TableKeyValue { key: old(self).kv().key, value: Item::Value(value) }),
            ),
            final(self).valid(),
    {
        let ghost es = self.current();
        let ghost d = lemma_entries_depth(es);
        proof {
            lemma_key_pos(es, self.key@, key_pos(es, self.key@));
        }
        let kv = pairs_get_mut(self.items, self.key.as_str()).unwrap();
        proof {
            let i = choose|i: int| 0 <= i < es.len() && es[i].0 == self.key@ && *kv == es[i].1;
            lemma_key_pos(es, self.key@, i);
            lemma_occupied_update(es, i, es[i].1.key);
        }
        let mut value = Item::Value(value);
        std::mem::swap(&mut value, &mut kv.value);
        value.into_value().unwrap()
    }

    /// Takes the entry out of the table, and returns its value.
    pub fn remove(self) -> (r: Value)
        requires
            self.valid(),
        ensures
            Item::Value(r) == self.kv().value,
            pairs_contents(*final(self.pairs())) == self.current().remove(self.pos()),
            entries_wf(pairs_contents(*final(self.pairs()))),
    {
        let ghost es = self.current();
        let ghost d = lemma_entries_depth(es);
        let kv = pairs_remove(self.items, self.key.as_str()).unwrap();
        proof {
            let i = choose|i: int| 0 <= i < es.len() && es[i].0 == self.key@ && kv == es[i].1;
            lemma_key_pos(es, self.key@, i);
            lemma_within_remove(es, i, d);
        }
        kv.value.into_value().unwrap()
    }
}

impl<'a> InlineVacantEntry<'a> {
    /// The pairs of the table that the entry refers to.
    pub closed spec fn pairs(&self) -> &'a mut KeyValuePairs {
        self.items
    }

    /// The text of the entry's key.
    pub closed spec fn spec_key(&self) -> Seq<char> {
        self.key@
    }

    /// The key, with its whitespace, where the entry was asked for by one.
    pub closed spec fn spec_formatted(&self) -> Option<&'a Key> {
        self.formatted
    }

    /// The pairs of the table, as they are now.
    pub open spec fn current(&self) -> Entries {
        pairs_contents(*self.pairs())
    }

    /// A vacant entry for the key `key` of the pairs `items`.
    pub(crate) fn new(items: &'a mut KeyValuePairs, key: String, formatted: Option<&'a Key>) -> (r: Self)
        ensures
            *r.pairs() == *old(items),
            *final(r.pairs()) == *final(items),
            r.spec_key() == key@,
            r.spec_formatted() == formatted,
    {
        InlineVacantEntry { items, key, formatted }
    }

    /// The pairs are well formed, the entry's key is not among them, and a
    /// formatted key has the entry's key text.
    pub open spec fn valid(&self) -> bool {
        &&& entries_wf(self.current())
        &&& !has_key(self.current(), self.spec_key())
        &&& self.spec_formatted() matches Some(k) ==> k@ == self.spec_key()
    }

    /// The entry's key.
    pub fn key(&self) -> (r: &str)
        ensures
            r@ == self.spec_key(),
    {
        self.key.as_str()
    }

    /// Stores `value` under the entry's key, as the last pair, and returns a
    /// mutable reference to it; the key is the formatted one where the entry
    /// has one, else one with no whitespace around it.
    pub fn insert(self, value: Value) -> (r: &'a mut Value)
        requires
            self.valid(),
            value_wf(value),
        ensures
            *r == value,
            pairs_contents(*final(self.pairs())).len() == self.current().len() + 1,
            pairs_contents(*final(self.pairs())).drop_last() == self.current(),
            pairs_contents(*final(self.pairs())).last().0 == self.spec_key(),
            pairs_contents(*final(self.pairs())).last().1.value == Item::Value(*final(r)),
            match self.spec_formatted() {
                Some(k) => pairs_contents(*final(self.pairs())).last().1.key == *k,
                None => {
                    &&& pairs_contents(*final(self.pairs())).last().1.key@ == self.spec_key()
                    &&& pairs_contents(*final(self.pairs())).last().1.key.spec_decor()@ == (
                        Seq::<char>::empty(),
                        Seq::<char>::empty(),
                    )
                },
            },
            value_wf(*final(r)) ==> entries_wf(pairs_contents(*final(self.pairs()))),
    {
        let ghost es = self.current();
        let ghost d = lemma_entries_depth(es);
        let key = match self.formatted {
            Some(k) => k.clone(),
            None => Key::with_key(self.key.as_str()),
        };
        proof {
            lemma_push_value_wf(es, d, key);
        }
        let kv = pairs_entry_or_insert(self.items, self.key, TableKeyValue::new(key, Item::Value(value)));
        kv.value.as_value_mut().unwrap()
    }
}

/// Storing any well-formed value at the position of a key keeps the entries
/// well formed and the key at its position.
proof fn lemma_occupied_update(es: Entries, i: int, key: Key)
    requires
        entries_wf(es),
        keys_unique(es),
        0 <= i < es.len(),
        key == es[i].1.key,
    ensures
        forall|v: Value|
            value_wf(v) ==> {
                &&& entries_wf(
                    #[trigger] es.update(i, (es[i].0, TableKeyValue { key, value: Item::Value(v) })),
                )
                &&& has_key(es.update(i, (es[i].0, TableKeyValue { key, value: Item::Value(v) })), es[i].0)
                &&& key_pos(
                    es.update(i, (es[i].0, TableKeyValue { key, value: Item::Value(v) })),
                    es[i].0,
                ) == i
            },
{
    let d = lemma_entries_depth(es);
    assert forall|v: Value| value_wf(v) implies {
        &&& entries_wf(
            #[trigger] es.update(i, (es[i].0, TableKeyValue { key, value: Item::Value(v) })),
        )
        &&& has_key(es.update(i, (es[i].0, TableKeyValue { key, value: Item::Value(v) })), es[i].0)
        &&& key_pos(
            es.update(i, (es[i].0, TableKeyValue { key, value: Item::Value(v) })),
            es[i].0,
        ) == i
    } by {
        let es2 = es.update(i, (es[i].0, TableKeyValue { key, value: Item::Value(v) }));
        assert(keys_unique(es2)) by {
            assert forall|a: int, b: int|
                0 <= a < es2.len() && 0 <= b < es2.len() && a != b implies es2[a].0 != es2[b].0 by {
                assert(es2[a].0 == es[a].0 && es2[b].0 == es[b].0);
            }
        }
        lemma_key_pos(es2, es[i].0, i);
        lemma_update_value_wf(es, i, d);
    }
}

} // verus!
