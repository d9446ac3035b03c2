use vstd::prelude::*;

use crate::inline_table::InlineTable;
use crate::key::Key;
use crate::table::{has_key, keys_unique, Entries, TableKeyValue};
use crate::value::{Item, Value};

verus! {

/// Each entry's key text is the text of the key stored in it, no two entries
/// share a key, and every inline table held as a value is well formed in the
/// same way, its tables nested at most `d` deep.
pub open spec fn entries_within(es: Entries, d: nat) -> bool
    decreases d, 1nat,
{
    &&& keys_unique(es)
    &&& forall|i: int|
        0 <= i < es.len() ==> (#[trigger] es[i]).1.key@ == es[i].0 && item_within(
            es[i].1.value,
            d,
        )
}

/// An item that is an inline table is well formed, nested at most `d` deep.
pub open spec fn item_within(item: Item, d: nat) -> bool
    decreases d, 0nat,
{
    match item {
        Item::Value(Value::InlineTable(t)) => d > 0 && entries_within(t@, (d - 1) as nat),
        _ => true,
    }
}

/// The entries are well formed, nested to some finite depth.
pub open spec fn entries_wf(es: Entries) -> bool {
    exists|d: nat| entries_within(es, d)
}

/// An item whose value is an inline table holds a well-formed one.
pub open spec fn item_wf(item: Item) -> bool {
    match item {
        Item::Value(v) => value_wf(v),
        Item::Empty => true,
    }
}

/// A value that is an inline table is well formed.
pub open spec fn value_wf(v: Value) -> bool {
    match v {
        Value::InlineTable(t) => t.wf(),
        _ => true,
    }
}

/// Dropping the last entry keeps the entries well formed.
pub(crate) proof fn lemma_within_drop_last(es: Entries, d: nat)
    requires
        entries_within(es, d),
        es.len() > 0,
    ensures
        entries_within(es.drop_last(), d),
{
    let r = es.drop_last();
    assert forall|j: int| 0 <= j < r.len() implies r[j] == es[j] by {}
    assert forall|a: int, b: int| 0 <= a < r.len() && 0 <= b < r.len() && a != b implies r[a].0
        != r[b].0 by {
        assert(r[a] == es[a] && r[b] == es[b]);
    }
}

/// Entries with distinct keys, each an entry of well-formed entries, are
/// well formed.
pub(crate) proof fn lemma_within_rearranged(es: Entries, es2: Entries, d: nat)
    requires
        entries_within(es, d),
        keys_unique(es2),
        forall|t: int| 0 <= t < es2.len() ==> exists|m: int| 0 <= m < es.len() && #[trigger] es2[t] == es[m],
    ensures
        entries_within(es2, d),
{
    assert forall|t: int| 0 <= t < es2.len() implies (#[trigger] es2[t]).1.key@ == es2[t].0
        && item_within(es2[t].1.value, d) by {
        let m = choose|m: int| 0 <= m < es.len() && es2[t] == es[m];
        assert(es[m].1.key@ == es[m].0);
    }
}

/// Storing any well-formed item in an entry keeps the entries well formed.
pub(crate) proof fn lemma_update_item_wf(es: Entries, i: int, d: nat)
    requires
        entries_within(es, d),
        0 <= i < es.len(),
    ensures
        forall|item: Item|
            item_wf(item) ==> #[trigger] entries_wf(
                es.update(i, (es[i].0, TableKeyValue { key: es[i].1.key, value: item })),
            ),
{
    assert forall|item: Item| item_wf(item) implies #[trigger] entries_wf(
        es.update(i, (es[i].0, TableKeyValue { key: es[i].1.key, value: item })),
    ) by {
        match item {
            Item::Value(v) => {
                lemma_update_value_wf(es, i, d);
                assert(entries_wf(
                    es.update(i, (es[i].0, TableKeyValue { key: es[i].1.key, value: Item::Value(v) })),
                ));
            },
            Item::Empty => {
                lemma_within_update(es, i, TableKeyValue { key: es[i].1.key, value: item }, d);
            },
        }
    }
}

/// Storing any well-formed value in an entry keeps the entries well formed.
pub(crate) proof fn lemma_update_value_wf(es: Entries, i: int, d: nat)
    requires
        entries_within(es, d),
        0 <= i < es.len(),
    ensures
        forall|v: Value|
            value_wf(v) ==> #[trigger] entries_wf(
                es.update(i, (es[i].0, TableKeyValue { key: es[i].1.key, value: Item::Value(v) })),
            ),
{
    assert forall|v: Value| value_wf(v) implies #[trigger] entries_wf(
        es.update(i, (es[i].0, TableKeyValue { key: es[i].1.key, value: Item::Value(v) })),
    ) by {
        let dv = lemma_value_depth(v);
        let dd = if d < dv { dv } else { d };
        lemma_within_mono(es, d, dd);
        lemma_item_within_mono(Item::Value(v), dv, dd);
        lemma_within_update(es, i, TableKeyValue { key: es[i].1.key, value: Item::Value(v) }, dd);
    }
}

/// Adding a new key with any well-formed value keeps the entries well formed.
pub(crate) proof fn lemma_push_value_wf(es: Entries, d: nat, key: Key)
    requires
        entries_within(es, d),
        !has_key(es, key@),
    ensures
        forall|v: Value|
            value_wf(v) ==> #[trigger] entries_wf(
                es.push((key@, TableKeyValue { key: key, value: Item::Value(v) })),
            ),
{
    assert forall|v: Value| value_wf(v) implies #[trigger] entries_wf(
        es.push((key@, TableKeyValue { key: key, value: Item::Value(v) })),
    ) by {
        let dv = lemma_value_depth(v);
        let dd = if d < dv { dv } else { d };
        lemma_within_mono(es, d, dd);
        lemma_item_within_mono(Item::Value(v), dv, dd);
        lemma_within_push(es, TableKeyValue { key: key, value: Item::Value(v) }, dd);
    }
}

/// A bound on the nesting depth stays a bound when it grows.
pub(crate) proof fn lemma_within_mono(es: Entries, d: nat, d2: nat)
    requires
        entries_within(es, d),
        d <= d2,
    ensures
        entries_within(es, d2),
    decreases d, 1nat,
{
    assert forall|i: int| 0 <= i < es.len() implies (#[trigger] es[i]).1.key@ == es[i].0
        && item_within(es[i].1.value, d2) by {
        lemma_item_within_mono(es[i].1.value, d, d2);
    }
}

/// A bound on the nesting depth of an item stays a bound when it grows.
pub(crate) proof fn lemma_item_within_mono(item: Item, d: nat, d2: nat)
    requires
        item_within(item, d),
        d <= d2,
    ensures
        item_within(item, d2),
    decreases d, 0nat,
{
    match item {
        Item::Value(Value::InlineTable(t)) => {
            lemma_within_mono(t@, (d - 1) as nat, (d2 - 1) as nat);
        },
        _ => {},
    }
}

/// A value held by well-formed entries is well formed.
pub(crate) proof fn lemma_value_at_wf(es: Entries, i: int)
    requires
        entries_wf(es),
        0 <= i < es.len(),
        es[i].1.value is Value,
    ensures
        value_wf(es[i].1.value->Value_0),
{
    let d = lemma_entries_depth(es);
    assert(item_within(es[i].1.value, d));
    if let Value::InlineTable(t) = es[i].1.value->Value_0 {
        assert(entries_within(t@, (d - 1) as nat));
    }
}

/// Well-formed entries have some bound on their nesting depth.
pub(crate) proof fn lemma_entries_depth(es: Entries) -> (d: nat)
    requires
        entries_wf(es),
    ensures
        entries_within(es, d),
{
    choose|d: nat| entries_within(es, d)
}

/// A well-formed table's entries have some bound on their nesting depth.
pub(crate) proof fn lemma_table_depth(t: InlineTable) -> (d: nat)
    requires
        t.wf(),
    ensures
        entries_within(t@, d),
{
    choose|d: nat| entries_within(t@, d)
}

/// A well-formed value, held as an item, has some bound on its nesting depth.
pub(crate) proof fn lemma_value_depth(v: Value) -> (d: nat)
    requires
        value_wf(v),
    ensures
        item_within(Item::Value(v), d),
{
    match v {
        Value::InlineTable(t) => {
            let d0 = lemma_table_depth(t);
            d0 + 1
        },
        _ => 0,
    }
}

/// Taking an entry out keeps the entries well formed.
pub(crate) proof fn lemma_within_remove(es: Entries, i: int, d: nat)
    requires
        entries_within(es, d),
        0 <= i < es.len(),
    ensures
        entries_within(es.remove(i), d),
{
    let r = es.remove(i);
    assert forall|j: int| 0 <= j < r.len() implies r[j] == (if j < i { es[j] } else { es[j + 1] }) by {}
    assert forall|a: int, b: int|
        0 <= a < r.len() && 0 <= b < r.len() && a != b implies r[a].0 != r[b].0 by {
        let ia = if a < i { a } else { a + 1 };
        let ib = if b < i { b } else { b + 1 };
        assert(r[a] == es[ia]);
        assert(r[b] == es[ib]);
    }
    assert forall|j: int| 0 <= j < r.len() implies (#[trigger] r[j]).1.key@ == r[j].0
        && item_within(r[j].1.value, d) by {
        let ij = if j < i { j } else { j + 1 };
        assert(r[j] == es[ij]);
    }
}

/// Adding an entry with a new key keeps the entries well formed.
pub(crate) proof fn lemma_within_push(es: Entries, kv: TableKeyValue, d: nat)
    requires
        entries_within(es, d),
        !has_key(es, kv.key@),
        item_within(kv.value, d),
    ensures
        entries_within(es.push((kv.key@, kv)), d),
{
    let r = es.push((kv.key@, kv));
    assert forall|a: int, b: int| 0 <= a < r.len() && 0 <= b < r.len() && a != b implies r[a].0
        != r[b].0 by {
        if a < es.len() && b < es.len() {
            assert(r[a] == es[a] && r[b] == es[b]);
        } else if a < es.len() {
            assert(r[a] == es[a]);
        } else {
            assert(r[b] == es[b]);
        }
    }
    assert forall|j: int| 0 <= j < r.len() implies (#[trigger] r[j]).1.key@ == r[j].0
        && item_within(r[j].1.value, d) by {
        if j < es.len() {
            assert(r[j] == es[j]);
        }
    }
}

/// Changing the item of an entry keeps the entries well formed.
pub(crate) proof fn lemma_within_update(es: Entries, i: int, kv: TableKeyValue, d: nat)
    requires
        entries_within(es, d),
        0 <= i < es.len(),
        kv.key@ == es[i].0,
        item_within(kv.value, d),
    ensures
        entries_within(es.update(i, (es[i].0, kv)), d),
{
    let r = es.update(i, (es[i].0, kv));
    assert forall|a: int, b: int| 0 <= a < r.len() && 0 <= b < r.len() && a != b implies r[a].0
        != r[b].0 by {
        assert(r[a].0 == es[a].0 && r[b].0 == es[b].0);
    }
}

} // verus!
