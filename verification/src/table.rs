use vstd::prelude::*;

use crate::key::Key;
use crate::pairs::{pairs_contents, pairs_iter, KeyValuePairs};
use crate::value::{Item, Value};
use crate::wf::{entries_within, item_wf, item_within};

verus! {

/// A key together with what the table holds under it.
#[derive(Debug)]
pub struct TableKeyValue {
    /// The key, with the whitespace around it.
    pub key: Key,
    /// What the table holds under the key.
    pub value: Item,
}

impl TableKeyValue {
    /// Pairs a key with an item.
    pub fn new(key: Key, value: Item) -> (r: TableKeyValue)
        ensures
            r == (TableKeyValue { key, value }),
    {
        TableKeyValue { key, value }
    }
}

impl Clone for TableKeyValue {
    /// A copy: the same key, and a copy of the item.
    fn clone(&self) -> (r: TableKeyValue)
        ensures
            r.key == self.key,
            forall|d: nat| item_within(self.value, d) ==> item_copy(self.value, r.value, d),
    {
        TableKeyValue { key: self.key.clone(), value: self.value.clone() }
    }
}

/// The entries of a table in their order: the text of each key, and the
/// key and item stored under it.
pub type Entries = Seq<(Seq<char>, TableKeyValue)>;

/// `b` are copies of the entries `a`: the same key texts and keys (with
/// their whitespace) in the same order, each with a copy of its item, down
/// to `d` tables deep.
pub open spec fn entries_copy(a: Entries, b: Entries, d: nat) -> bool
    decreases d, 1nat,
{
    &&& b.len() == a.len()
    &&& forall|i: int|
        0 <= i < a.len() ==> (#[trigger] b[i]).0 == a[i].0 && b[i].1.key == a[i].1.key
            && item_copy(a[i].1.value, b[i].1.value, d)
}

/// `b` is a copy of the item `a`: nothing, or the same scalar with the same
/// whitespace, or, where `a` is an inline table, a table with the same text
/// around it, the same dotted flag and copies of its entries, down to `d`
/// tables deep.
pub open spec fn item_copy(a: Item, b: Item, d: nat) -> bool
    decreases d, 0nat,
{
    match a {
        Item::Value(Value::InlineTable(t)) => d > 0 && (b matches Item::Value(
            Value::InlineTable(u),
        ) && u.same_frame(t) && entries_copy(t@, u@, (d - 1) as nat)),
        _ => b == a,
    }
}

/// Well-formed entries are copies of themselves.
pub proof fn lemma_entries_copy_refl(es: Entries, d: nat)
    requires
        entries_within(es, d),
    ensures
        entries_copy(es, es, d),
    decreases d, 1nat,
{
    assert forall|i: int| 0 <= i < es.len() implies item_copy(es[i].1.value, es[i].1.value, d) by {
        lemma_item_copy_refl(es[i].1.value, d);
    }
}

/// A well-formed item is a copy of itself.
pub proof fn lemma_item_copy_refl(x: Item, d: nat)
    requires
        item_within(x, d),
    ensures
        item_copy(x, x, d),
    decreases d, 0nat,
{
    if let Item::Value(Value::InlineTable(t)) = x {
        lemma_entries_copy_refl(t@, (d - 1) as nat);
    }
}

/// Copies of well-formed entries are well formed.
pub proof fn lemma_entries_copy_within(a: Entries, b: Entries, d: nat)
    requires
        entries_within(a, d),
        entries_copy(a, b, d),
    ensures
        entries_within(b, d),
    decreases d, 1nat,
{
    assert forall|i: int| 0 <= i < b.len() implies (#[trigger] b[i]).1.key@ == b[i].0
        && item_within(b[i].1.value, d) by {
        lemma_item_copy_within(a[i].1.value, b[i].1.value, d);
    }
    assert forall|x: int, y: int|
        0 <= x < b.len() && 0 <= y < b.len() && x != y implies b[x].0 != b[y].0 by {
        assert(b[x].0 == a[x].0 && b[y].0 == a[y].0);
    }
}

/// A copy of a well-formed item is well formed.
pub proof fn lemma_item_copy_within(a: Item, b: Item, d: nat)
    requires
        item_within(a, d),
        item_copy(a, b, d),
    ensures
        item_within(b, d),
    decreases d, 0nat,
{
    if let Item::Value(Value::InlineTable(t)) = a {
        if let Item::Value(Value::InlineTable(u)) = b {
            lemma_entries_copy_within(t@, u@, (d - 1) as nat);
        }
    }
}

/// Whether some entry has the key `k`.
pub open spec fn has_key(es: Entries, k: Seq<char>) -> bool {
    exists|i: int| 0 <= i < es.len() && es[i].0 == k
}

/// No two entries share a key.
pub open spec fn keys_unique(es: Entries) -> bool {
    forall|i: int, j: int| 0 <= i < es.len() && 0 <= j < es.len() && i != j ==> es[i].0 != es[j].0
}

/// The position of the entry with the key `k` (meaningful when `has_key(es, k)`).
pub open spec fn key_pos(es: Entries, k: Seq<char>) -> int {
    choose|i: int| 0 <= i < es.len() && es[i].0 == k
}

/// The key and item stored under the key `k`, if any.
pub open spec fn lookup(es: Entries, k: Seq<char>) -> Option<TableKeyValue> {
    if has_key(es, k) {
        Some(es[key_pos(es, k)].1)
    } else {
        None
    }
}

/// The value stored under the key `k`, if any.
pub open spec fn lookup_value(es: Entries, k: Seq<char>) -> Option<Value> {
    match lookup(es, k) {
        Some(kv) => crate::value::value_of(kv.value),
        None => None,
    }
}

/// The entries that hold a value, as key text and value, in order.
pub open spec fn value_pairs(es: Entries) -> Seq<(Seq<char>, Value)>
    decreases es.len(),
{
    if es.len() == 0 {
        Seq::empty()
    } else {
        let rest = value_pairs(es.drop_last());
        match es.last().1.value {
            Item::Value(v) => rest.push((es.last().0, v)),
            Item::Empty => rest,
        }
    }
}

/// The entries that hold a value, in order.
pub open spec fn value_entries(es: Entries) -> Entries
    decreases es.len(),
{
    if es.len() == 0 {
        Seq::empty()
    } else {
        let rest = value_entries(es.drop_last());
        if es.last().1.value is Value {
            rest.push(es.last())
        } else {
            rest
        }
    }
}

/// The entries that hold no value, in order.
pub open spec fn empty_entries(es: Entries) -> Entries
    decreases es.len(),
{
    if es.len() == 0 {
        Seq::empty()
    } else {
        let rest = empty_entries(es.drop_last());
        if es.last().1.value is Empty {
            rest.push(es.last())
        } else {
            rest
        }
    }
}

/// The positions of the entries that hold a value, in order.
pub open spec fn value_positions(es: Entries) -> Seq<int>
    decreases es.len(),
{
    if es.len() == 0 {
        Seq::empty()
    } else {
        let rest = value_positions(es.drop_last());
        if es.last().1.value is Value {
            rest.push(es.len() - 1)
        } else {
            rest
        }
    }
}

/// The positions of the entries that hold a value are, in increasing order,
/// exactly the positions of such entries; they give `value_entries` and
/// `value_pairs`.
pub proof fn lemma_value_positions(es: Entries)
    ensures
        value_positions(es).len() == value_entries(es).len(),
        value_positions(es).len() == value_pairs(es).len(),
        forall|j: int|
            0 <= j < value_positions(es).len() ==> 0 <= #[trigger] value_positions(es)[j]
                < es.len() && es[value_positions(es)[j]].1.value is Value && value_entries(es)[j]
                == es[value_positions(es)[j]] && value_pairs(es)[j] == (
                es[value_positions(es)[j]].0,
                es[value_positions(es)[j]].1.value->Value_0,
            ),
        forall|a: int, b: int|
            0 <= a < b < value_positions(es).len() ==> value_positions(es)[a]
                < value_positions(es)[b],
        forall|i: int|
            0 <= i < es.len() && (#[trigger] es[i]).1.value is Value ==> exists|j: int|
                0 <= j < value_positions(es).len() && value_positions(es)[j] == i,
    decreases es.len(),
{
    if es.len() > 0 {
        let rest = es.drop_last();
        lemma_value_positions(rest);
        assert forall|i: int| 0 <= i < rest.len() implies rest[i] == es[i] by {}
        let vp = value_positions(es);
        let vr = value_positions(rest);
        if es.last().1.value is Value {
            assert(vp == vr.push(es.len() - 1));
            assert forall|i: int|
                0 <= i < es.len() && (#[trigger] es[i]).1.value is Value implies exists|j: int|
                    0 <= j < vp.len() && vp[j] == i by {
                if i == es.len() - 1 {
                    assert(vp[vr.len() as int] == i);
                } else {
                    assert(rest[i] == es[i]);
                    let j = choose|j: int| 0 <= j < vr.len() && vr[j] == i;
                    assert(vp[j] == i);
                }
            }
        } else {
            assert forall|i: int|
                0 <= i < es.len() && (#[trigger] es[i]).1.value is Value implies exists|j: int|
                    0 <= j < vp.len() && vp[j] == i by {
                assert(i != es.len() - 1);
                assert(rest[i] == es[i]);
            }
        }
    }
}

/// The texts of the keys whose entries hold a value, in order.
pub(crate) fn value_keys(m: &KeyValuePairs) -> (r: Vec<String>)
    ensures
        r@.len() == value_positions(pairs_contents(*m)).len(),
        forall|j: int|
            0 <= j < r@.len() ==> (#[trigger] r@[j])@ == pairs_contents(
                *m,
            )[value_positions(pairs_contents(*m))[j]].0,
{
    let ghost es = pairs_contents(*m);
    let pairs = pairs_iter(m);
    let mut r: Vec<String> = Vec::new();
    let mut i: usize = 0;
    proof {
        lemma_value_positions(es);
    }
    while i < pairs.len()
        invariant
            i <= pairs@.len(),
            es == pairs_contents(*m),
            pairs@.len() == es.len(),
            forall|j: int|
                0 <= j < pairs@.len() ==> pairs@[j].0@ == es[j].0 && *pairs@[j].1 == es[j].1,
            r@.len() == value_positions(es.take(i as int)).len(),
            forall|j: int|
                0 <= j < r@.len() ==> (#[trigger] r@[j])@ == es[value_positions(
                    es.take(i as int),
                )[j]].0,
        decreases pairs@.len() - i,
    {
        let (k, kv) = pairs[i];
        let ghost prefix = es.take(i as int);
        let ghost next = es.take(i + 1);
        proof {
            assert(next.drop_last() =~= prefix);
            lemma_value_positions(prefix);
            assert forall|j: int| 0 <= j < prefix.len() implies prefix[j] == es[j] by {}
        }
        if kv.value.is_value() {
            r.push(k.to_owned());
        }
        i = i + 1;
    }
    assert(es.take(i as int) =~= es);
    r
}

/// Where some entry has the key `k` at `i`, and keys are unique, `k` is
/// found at `i`.
pub(crate) proof fn lemma_key_pos(es: Entries, k: Seq<char>, i: int)
    requires
        keys_unique(es),
        0 <= i < es.len(),
        es[i].0 == k,
    ensures
        has_key(es, k),
        key_pos(es, k) == i,
        lookup(es, k) == Some(es[i].1),
{
    assert(es[i].0 == k);
}

/// A table whose keys and items can be read and changed one by one.
pub trait TableLike {
    /// The entries, in order.
    spec fn entries(&self) -> Entries;

    /// The table is well formed.
    spec fn table_wf(&self) -> bool;

    /// The two tables agree in everything but their entries.
    spec fn same_frame_as(&self, other: &Self) -> bool;

    /// What the table holds under it, for each key (possibly
    /// `Item::Empty`), in order.
    fn iter(&self) -> (r: Vec<(&str, &Item)>)
        ensures
            r@.len() == self.entries().len(),
            forall|i: int|
                0 <= i < r@.len() ==> r@[i].0@ == self.entries()[i].0 && *r@[i].1
                    == self.entries()[i].1.value,
    ;

    /// What the table holds under `key`, if it has the key.
    fn get<'s>(&'s self, key: &str) -> (r: Option<&'s Item>)
        requires
            self.table_wf(),
        ensures
            match r {
                Some(item) => lookup(self.entries(), key@) matches Some(kv) && *item == kv.value,
                None => !has_key(self.entries(), key@),
            },
    ;

    /// Mutable access to what the table holds under `key`, if it has the key.
    fn get_mut<'s>(&'s mut self, key: &str) -> (r: Option<&'s mut Item>)
        requires
            old(self).table_wf(),
        ensures
            final(self).same_frame_as(&*old(self)),
            match r {
                Some(item) => {
                    &&& lookup(old(self).entries(), key@) matches Some(kv)
                    &&& *item == kv.value
                    &&& final(self).entries() == old(self).entries().update(
                        key_pos(old(self).entries(), key@),
                        (key@, TableKeyValue { key: kv.key, value: *final(item) }),
                    )
                    &&& item_wf(*final(item)) ==> final(self).table_wf()
                },
                None => !has_key(old(self).entries(), key@) && final(self).entries() == old(
                    self,
                ).entries() && final(self).table_wf(),
            },
    ;
}

} // verus!
