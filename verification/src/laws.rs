use vstd::prelude::*;

use crate::inline_table::{
    dotted_values, extended, formatted, formatted_entry, inserted, no_value_after, removed,
    InlineTable,
};
use crate::key::Key;
use crate::order::{bytes_lt, key_lt, keys_sorted, lemma_key_lt_order};
use crate::sort::{entry_keys, lemma_split_len, sorted_entries};
use crate::table::{
    empty_entries, has_key, key_pos, keys_unique, lemma_key_pos, lookup, lookup_value,
    value_entries, value_pairs, Entries, TableKeyValue,
};
use crate::value::{Item, Value};
use crate::wf::{entries_within, item_within, lemma_within_drop_last};
use vstd::utf8::encode_utf8;

verus! {

/// The keys of a well-formed table are distinct.
proof fn lemma_wf_keys_unique(t: InlineTable)
    requires
        t.wf(),
    ensures
        keys_unique(t@),
{
    let d = choose|d: nat| entries_within(t@, d);
}

/// After a value is stored under a key, that key gives back the value.
pub proof fn law_get_after_insert(t: InlineTable, key: Key, v: Value)
    requires
        t.wf(),
    ensures
        lookup_value(inserted(t@, key, v), key@) == Some(v),
        inserted(t@, key, v).last() == (key@, TableKeyValue { key, value: Item::Value(v) }),
{
    lemma_wf_keys_unique(t);
    let es = t@;
    let es2 = inserted(es, key, v);
    let rest = if has_key(es, key@) { es.remove(key_pos(es, key@)) } else { es };
    assert(es2 == rest.push((key@, TableKeyValue { key, value: Item::Value(v) })));
    assert(keys_unique(es2)) by {
        assert forall|a: int, b: int|
            0 <= a < es2.len() && 0 <= b < es2.len() && a != b implies es2[a].0 != es2[b].0 by {
            lemma_insert_keys(es, key, v, a, b);
        }
    }
    lemma_key_pos(es2, key@, es2.len() - 1);
}

/// Storing a value under a key leaves every other key as it was.
pub proof fn law_insert_keeps_other_keys(t: InlineTable, key: Key, v: Value, k: Seq<char>)
    requires
        t.wf(),
        k != key@,
    ensures
        lookup(inserted(t@, key, v), k) == lookup(t@, k),
{
    lemma_wf_keys_unique(t);
    let es = t@;
    let es2 = inserted(es, key, v);
    assert(keys_unique(es2)) by {
        assert forall|a: int, b: int|
            0 <= a < es2.len() && 0 <= b < es2.len() && a != b implies es2[a].0 != es2[b].0 by {
            lemma_insert_keys(es, key, v, a, b);
        }
    }
    if has_key(es, k) {
        let i = key_pos(es, k);
        lemma_key_pos(es, k, i);
        let j = lemma_insert_position(es, key, v, i);
        lemma_key_pos(es2, k, j);
    } else {
        assert forall|j: int| 0 <= j < es2.len() implies es2[j].0 != k by {
            if j < es2.len() - 1 {
                let i = lemma_insert_source(es, key, v, j);
            }
        }
    }
}

/// Where each entry of the table ends up after an insertion.
proof fn lemma_insert_position(es: Entries, key: Key, v: Value, i: int) -> (j: int)
    requires
        keys_unique(es),
        0 <= i < es.len(),
        es[i].0 != key@,
    ensures
        0 <= j < inserted(es, key, v).len(),
        inserted(es, key, v)[j] == es[i],
{
    if has_key(es, key@) {
        let p = key_pos(es, key@);
        lemma_key_pos(es, key@, p);
        assert(p != i);
        if i < p {
            i
        } else {
            i - 1
        }
    } else {
        i
    }
}

/// Where each entry before the last after an insertion comes from.
proof fn lemma_insert_source(es: Entries, key: Key, v: Value, j: int) -> (i: int)
    requires
        keys_unique(es),
        0 <= j < inserted(es, key, v).len() - 1,
    ensures
        0 <= i < es.len(),
        inserted(es, key, v)[j] == es[i],
        es[i].0 != key@,
{
    if has_key(es, key@) {
        let p = key_pos(es, key@);
        lemma_key_pos(es, key@, p);
        let i = if j < p { j } else { j + 1 };
        assert(es[i].0 != key@) by {
            if es[i].0 == key@ {
                assert(i != p);
            }
        }
        i
    } else {
        assert(es[j].0 != key@);
        j
    }
}

/// The keys after an insertion stay distinct.
proof fn lemma_insert_keys(es: Entries, key: Key, v: Value, a: int, b: int)
    requires
        keys_unique(es),
        0 <= a < inserted(es, key, v).len(),
        0 <= b < inserted(es, key, v).len(),
        a != b,
    ensures
        inserted(es, key, v)[a].0 != inserted(es, key, v)[b].0,
{
    let es2 = inserted(es, key, v);
    let n = es2.len() - 1;
    if a < n && b < n {
        let ia = lemma_insert_source(es, key, v, a);
        let ib = lemma_insert_source(es, key, v, b);
        if has_key(es, key@) {
            let p = key_pos(es, key@);
            lemma_key_pos(es, key@, p);
        }
    } else if a < n {
        let ia = lemma_insert_source(es, key, v, a);
    } else {
        let ib = lemma_insert_source(es, key, v, b);
    }
}

/// After the entry with a key is taken out, that key gives nothing, and
/// every other key gives what it gave before.
pub proof fn law_remove(t: InlineTable, k: Seq<char>, other: Seq<char>)
    requires
        t.wf(),
        other != k,
    ensures
        lookup(removed(t@, k), k) is None,
        lookup(removed(t@, other), k) == lookup(t@, k),
{
    lemma_wf_keys_unique(t);
    let es = t@;
    lemma_remove_lookup(es, k, k);
    lemma_remove_lookup(es, other, k);
}

/// What a key gives after the entry with the key `r` is taken out.
proof fn lemma_remove_lookup(es: Entries, r: Seq<char>, k: Seq<char>)
    requires
        keys_unique(es),
    ensures
        lookup(removed(es, r), k) == (if k == r { None } else { lookup(es, k) }),
{
    if has_key(es, r) {
        let p = key_pos(es, r);
        lemma_key_pos(es, r, p);
        let es2 = es.remove(p);
        assert forall|j: int| 0 <= j < es2.len() implies es2[j] == es[if j < p { j } else { j + 1 }] by {}
        assert(keys_unique(es2)) by {
            assert forall|a: int, b: int|
                0 <= a < es2.len() && 0 <= b < es2.len() && a != b implies es2[a].0 != es2[b].0 by {
                assert(es2[a] == es[if a < p { a } else { a + 1 }]);
                assert(es2[b] == es[if b < p { b } else { b + 1 }]);
            }
        }
        if k == r {
            assert forall|j: int| 0 <= j < es2.len() implies es2[j].0 != k by {
                assert(es2[j] == es[if j < p { j } else { j + 1 }]);
            }
        } else if has_key(es, k) {
            let i = key_pos(es, k);
            lemma_key_pos(es, k, i);
            let j = if i < p { i } else { i - 1 };
            assert(es2[j] == es[i]);
            lemma_key_pos(es2, k, j);
        } else {
            assert forall|j: int| 0 <= j < es2.len() implies es2[j].0 != k by {
                assert(es2[j] == es[if j < p { j } else { j + 1 }]);
            }
        }
    }
}

/// Storing a value under a key that held none adds one key/value pair;
/// storing it where one was keeps their number.
pub proof fn law_len_after_insert(t: InlineTable, key: Key, v: Value)
    requires
        t.wf(),
    ensures
        value_pairs(inserted(t@, key, v)).len() == value_pairs(t@).len() + (if lookup_value(
            t@,
            key@,
        ) is Some {
            0int
        } else {
            1int
        }),
{
    lemma_wf_keys_unique(t);
    let es = t@;
    let kv = TableKeyValue { key, value: Item::Value(v) };
    if has_key(es, key@) {
        let p = key_pos(es, key@);
        lemma_key_pos(es, key@, p);
        lemma_value_count_remove(es, p);
        assert(es.remove(p).push((key@, kv)).drop_last() =~= es.remove(p));
    } else {
        assert(es.push((key@, kv)).drop_last() =~= es);
    }
}

/// Taking out a key that held a value removes one key/value pair.
pub proof fn law_len_after_remove(t: InlineTable, k: Seq<char>)
    requires
        t.wf(),
    ensures
        value_pairs(removed(t@, k)).len() + (if lookup_value(t@, k) is Some {
            1int
        } else {
            0int
        }) == value_pairs(t@).len(),
{
    lemma_wf_keys_unique(t);
    let es = t@;
    if has_key(es, k) {
        let p = key_pos(es, k);
        lemma_key_pos(es, k, p);
        lemma_value_count_remove(es, p);
    }
}

/// Taking out the entry at `i` removes one key/value pair where it held a value.
proof fn lemma_value_count_remove(es: Entries, i: int)
    requires
        0 <= i < es.len(),
    ensures
        value_pairs(es.remove(i)).len() + (if es[i].1.value is Value {
            1int
        } else {
            0int
        }) == value_pairs(es).len(),
    decreases es.len(),
{
    let rest = es.drop_last();
    if i == es.len() - 1 {
        assert(es.remove(i) =~= rest);
    } else {
        lemma_value_count_remove(rest, i);
        assert(es.remove(i).drop_last() =~= rest.remove(i));
        assert(es.remove(i).last() == es.last());
        assert(rest[i] == es[i]);
    }
}

/// A key holds a value exactly where the table contains the key.
pub proof fn law_contains_key_iff_value(t: InlineTable, k: Seq<char>)
    requires
        t.wf(),
    ensures
        (has_key(t@, k) && !(lookup(t@, k)->0.value is Empty)) <==> lookup_value(t@, k) is Some,
{
}

/// The value that the last of `pairs` with the key `k` carries, if any.
pub open spec fn last_value_for(pairs: Seq<(Key, Value)>, k: Seq<char>) -> Option<Value>
    decreases pairs.len(),
{
    if pairs.len() == 0 {
        None
    } else if pairs.last().0@ == k {
        Some(pairs.last().1)
    } else {
        last_value_for(pairs.drop_last(), k)
    }
}

/// After pairs are inserted in turn, each key gives the value of the last
/// pair with that key, or, where none has it, what it gave before.
pub proof fn law_extend_last_wins(es: Entries, pairs: Seq<(Key, Value)>, k: Seq<char>)
    requires
        keys_unique(es),
    ensures
        keys_unique(extended(es, pairs)),
        lookup_value(extended(es, pairs), k) == (match last_value_for(pairs, k) {
            Some(v) => Some(v),
            None => lookup_value(es, k),
        }),
    decreases pairs.len(),
{
    if pairs.len() > 0 {
        let prev = pairs.drop_last();
        law_extend_last_wins(es, prev, k);
        let e1 = extended(es, prev);
        let (key, v) = pairs.last();
        let e2 = inserted(e1, key, v);
        assert(keys_unique(e2)) by {
            assert forall|a: int, b: int|
                0 <= a < e2.len() && 0 <= b < e2.len() && a != b implies e2[a].0 != e2[b].0 by {
                lemma_insert_keys(e1, key, v, a, b);
            }
        }
        if key@ == k {
            let rest = if has_key(e1, key@) { e1.remove(key_pos(e1, key@)) } else { e1 };
            assert(e2 == rest.push((key@, TableKeyValue { key, value: Item::Value(v) })));
            lemma_key_pos(e2, k, e2.len() - 1);
        } else {
            if has_key(e1, k) {
                let i = key_pos(e1, k);
                lemma_key_pos(e1, k, i);
                let j = lemma_insert_position(e1, key, v, i);
                lemma_key_pos(e2, k, j);
            } else {
                assert forall|j: int| 0 <= j < e2.len() implies e2[j].0 != k by {
                    if j < e2.len() - 1 {
                        let i = lemma_insert_source(e1, key, v, j);
                    }
                }
            }
        }
    }
}

/// Sorting keeps what each key gives.
pub proof fn law_sort_keeps_lookup(t: InlineTable, sorted: InlineTable, k: Seq<char>)
    requires
        t.wf(),
        sorted.wf(),
        sorted_entries(t@, sorted@),
    ensures
        lookup(sorted@, k) == lookup(t@, k),
{
    broadcast use vstd::seq_lib::group_to_multiset_ensures;

    lemma_wf_keys_unique(t);
    lemma_wf_keys_unique(sorted);
    let es = t@;
    let es2 = sorted@;
    let n = empty_entries(es).len() as int;
    lemma_split_len(es);
    lemma_parts_from(es);
    if has_key(es, k) {
        let i = key_pos(es, k);
        lemma_key_pos(es, k, i);
        if es[i].1.value is Empty {
            let q = choose|q: int| 0 <= q < n && empty_entries(es)[q] == es[i];
            assert(es2[q] == es2.take(n)[q]);
            lemma_key_pos(es2, k, q);
        } else {
            let ve = value_entries(es);
            let q = choose|q: int| 0 <= q < ve.len() && ve[q] == es[i];
            assert(ve.contains(es[i]));
            ve.to_multiset_ensures();
            es2.skip(n).to_multiset_ensures();
            assert(ve.to_multiset().count(es[i]) > 0);
            assert(es2.skip(n).to_multiset().count(es[i]) > 0);
            assert(es2.skip(n).contains(es[i]));
            let q2 = choose|q2: int| 0 <= q2 < es2.skip(n).len() && es2.skip(n)[q2] == es[i];
            assert(es2[n + q2] == es[i]);
            lemma_key_pos(es2, k, n + q2);
        }
    } else if has_key(es2, k) {
        let j = key_pos(es2, k);
        lemma_key_pos(es2, k, j);
        if j < n {
            assert(es2[j] == empty_entries(es)[j]);
        } else {
            let ve = value_entries(es);
            assert(es2.skip(n)[j - n] == es2[j]);
            es2.skip(n).to_multiset_ensures();
            ve.to_multiset_ensures();
            assert(es2.skip(n).contains(es2[j]));
            assert(es2.skip(n).to_multiset().count(es2[j]) > 0);
            assert(ve.to_multiset().count(es2[j]) > 0);
            assert(ve.contains(es2[j]));
        }
    }
}

/// Each entry of `es` is among the entries that hold no value or among
/// those that hold one, and each of those is an entry of `es`.
proof fn lemma_parts_from(es: Entries)
    ensures
        forall|i: int|
            0 <= i < es.len() && (#[trigger] es[i]).1.value is Empty ==> exists|q: int|
                0 <= q < empty_entries(es).len() && empty_entries(es)[q] == es[i],
        forall|i: int|
            0 <= i < es.len() && (#[trigger] es[i]).1.value is Value ==> exists|q: int|
                0 <= q < value_entries(es).len() && value_entries(es)[q] == es[i],
        forall|q: int|
            0 <= q < empty_entries(es).len() ==> exists|i: int|
                0 <= i < es.len() && #[trigger] empty_entries(es)[q] == es[i],
        forall|q: int|
            0 <= q < value_entries(es).len() ==> exists|i: int|
                0 <= i < es.len() && #[trigger] value_entries(es)[q] == es[i],
    decreases es.len(),
{
    if es.len() > 0 {
        let rest = es.drop_last();
        lemma_parts_from(rest);
        assert forall|i: int| 0 <= i < rest.len() implies rest[i] == es[i] by {}
        let last = es.last();
        assert(last == es[es.len() - 1]);
        let ee = empty_entries(es);
        let ve = value_entries(es);
        let er = empty_entries(rest);
        let vr = value_entries(rest);
        assert forall|i: int|
            0 <= i < es.len() && (#[trigger] es[i]).1.value is Empty implies exists|q: int|
                0 <= q < ee.len() && ee[q] == es[i] by {
            if i == es.len() - 1 {
                assert(ee[er.len() as int] == es[i]);
            } else {
                assert(rest[i] == es[i]);
                let q = choose|q: int| 0 <= q < er.len() && er[q] == rest[i];
                assert(ee[q] == er[q]);
            }
        }
        assert forall|i: int|
            0 <= i < es.len() && (#[trigger] es[i]).1.value is Value implies exists|q: int|
                0 <= q < ve.len() && ve[q] == es[i] by {
            if i == es.len() - 1 {
                assert(ve[vr.len() as int] == es[i]);
            } else {
                assert(rest[i] == es[i]);
                let q = choose|q: int| 0 <= q < vr.len() && vr[q] == rest[i];
                assert(ve[q] == vr[q]);
            }
        }
        assert forall|q: int| 0 <= q < ee.len() implies exists|i: int|
            0 <= i < es.len() && #[trigger] ee[q] == es[i] by {
            if q < er.len() {
                let i = choose|i: int| 0 <= i < rest.len() && er[q] == rest[i];
                assert(ee[q] == er[q]);
                assert(ee[q] == es[i]);
            } else {
                assert(ee[q] == es[es.len() - 1]);
            }
        }
        assert forall|q: int| 0 <= q < ve.len() implies exists|i: int|
            0 <= i < es.len() && #[trigger] ve[q] == es[i] by {
            if q < vr.len() {
                let i = choose|i: int| 0 <= i < rest.len() && vr[q] == rest[i];
                assert(ve[q] == vr[q]);
                assert(ve[q] == es[i]);
            } else {
                assert(ve[q] == es[es.len() - 1]);
            }
        }
    }
}

/// Taking out a key just stored leaves the table as taking the key out of
/// it before would have.
pub proof fn law_remove_undoes_insert(t: InlineTable, key: Key, v: Value)
    requires
        t.wf(),
    ensures
        removed(inserted(t@, key, v), key@) == removed(t@, key@),
{
    lemma_wf_keys_unique(t);
    let es = t@;
    let es2 = inserted(es, key, v);
    let rest = removed(es, key@);
    assert(es2 == rest.push((key@, TableKeyValue { key, value: Item::Value(v) })));
    assert(keys_unique(es2)) by {
        assert forall|a: int, b: int|
            0 <= a < es2.len() && 0 <= b < es2.len() && a != b implies es2[a].0 != es2[b].0 by {
            lemma_insert_keys(es, key, v, a, b);
        }
    }
    lemma_key_pos(es2, key@, es2.len() - 1);
    assert(es2.remove(es2.len() - 1) =~= rest);
}

/// The entry `e2` is `e` with at most the whitespace around its key and
/// value changed.
pub open spec fn same_but_decor(e: (Seq<char>, TableKeyValue), e2: (Seq<char>, TableKeyValue)) -> bool {
    &&& e2.0 == e.0
    &&& e.1.value is Empty ==> e2.1 == e.1
    &&& e.1.value is Value ==> e2.1.value is Value && e2.1.value->Value_0
        == e.1.value->Value_0.spec_with_decor(e2.1.value->Value_0.spec_decor())
}

/// Formatting keeps every key/value pair, in order, but for whitespace.
pub proof fn law_fmt_keeps_pairs(t: InlineTable, f: InlineTable)
    requires
        formatted(t@, f@),
    ensures
        value_pairs(f@).len() == value_pairs(t@).len(),
        forall|i: int|
            0 <= i < value_pairs(t@).len() ==> (#[trigger] value_pairs(f@)[i]).0 == value_pairs(
                t@,
            )[i].0 && value_pairs(f@)[i].1 == value_pairs(t@)[i].1.spec_with_decor(
                value_pairs(f@)[i].1.spec_decor(),
            ),
{
    assert forall|i: int| 0 <= i < t@.len() implies same_but_decor(#[trigger] t@[i], f@[i]) by {
        assert(formatted_entry(t@[i], f@[i], no_value_after(t@, i)));
    }
    lemma_decor_only_pairs(t@, f@);
}

/// Entries that differ at most in whitespace give the same key/value pairs
/// but for whitespace.
proof fn lemma_decor_only_pairs(es: Entries, es2: Entries)
    requires
        es2.len() == es.len(),
        forall|i: int| 0 <= i < es.len() ==> same_but_decor(#[trigger] es[i], es2[i]),
    ensures
        value_pairs(es2).len() == value_pairs(es).len(),
        forall|i: int|
            0 <= i < value_pairs(es).len() ==> (#[trigger] value_pairs(es2)[i]).0 == value_pairs(
                es,
            )[i].0 && value_pairs(es2)[i].1 == value_pairs(es)[i].1.spec_with_decor(
                value_pairs(es2)[i].1.spec_decor(),
            ),
    decreases es.len(),
{
    if es.len() > 0 {
        let r1 = es.drop_last();
        let r2 = es2.drop_last();
        assert forall|i: int| 0 <= i < r1.len() implies same_but_decor(#[trigger] r1[i], r2[i]) by {
            assert(r1[i] == es[i] && r2[i] == es2[i]);
        }
        lemma_decor_only_pairs(r1, r2);
        assert(same_but_decor(es[es.len() - 1], es2[es.len() - 1]));
        assert(es.last() == es[es.len() - 1]);
        assert(es2.last() == es2[es.len() - 1]);
    }
}

/// Sorting a sorted table changes nothing.
pub proof fn law_sort_idempotent(t: InlineTable, once: InlineTable, twice: InlineTable)
    requires
        sorted_entries(t@, once@),
        sorted_entries(once@, twice@),
    ensures
        twice@ == once@,
{
    let es2 = once@;
    let es3 = twice@;
    let n = lemma_sorted_parts(t@, es2);
    let e = es2.take(n);
    let v = es2.skip(n);
    assert(es2 =~= e + v);
    lemma_split_of_concat(e, v);
    assert(empty_entries(es2).len() == n);
    assert(es3.take(n) == e);
    lemma_sorted_unique(es3.skip(n), v);
    assert(es3 =~= es3.take(n) + es3.skip(n));
}

/// Sorted entries are the ones that hold no value, then the ones that hold one.
proof fn lemma_sorted_parts(es: Entries, es2: Entries) -> (n: int)
    requires
        sorted_entries(es, es2),
    ensures
        n == empty_entries(es).len(),
        0 <= n <= es2.len(),
        forall|i: int| 0 <= i < n ==> (#[trigger] es2.take(n)[i]).1.value is Empty,
        forall|i: int| 0 <= i < es2.len() - n ==> (#[trigger] es2.skip(n)[i]).1.value is Value,
{
    broadcast use vstd::seq_lib::group_to_multiset_ensures;

    let n = empty_entries(es).len() as int;
    lemma_split_len(es);
    let e = es2.take(n);
    let v = es2.skip(n);
    lemma_empty_entries_empty(es);
    lemma_value_entries_values(es);
    assert forall|i: int| 0 <= i < n implies (#[trigger] e[i]).1.value is Empty by {
        assert(e[i] == empty_entries(es)[i]);
    }
    assert forall|i: int| 0 <= i < es2.len() - n implies (#[trigger] v[i]).1.value is Value by {
        v.to_multiset_ensures();
        value_entries(es).to_multiset_ensures();
        assert(v.contains(v[i]));
        assert(v.to_multiset().count(v[i]) > 0);
        assert(value_entries(es).contains(v[i]));
    }
    n
}

/// Each entry that holds no value in `empty_entries` holds none.
proof fn lemma_empty_entries_empty(es: Entries)
    ensures
        forall|i: int|
            0 <= i < empty_entries(es).len() ==> (#[trigger] empty_entries(es)[i]).1.value is Empty,
    decreases es.len(),
{
    if es.len() > 0 {
        lemma_empty_entries_empty(es.drop_last());
    }
}

/// Each entry in `value_entries` holds a value.
proof fn lemma_value_entries_values(es: Entries)
    ensures
        forall|i: int|
            0 <= i < value_entries(es).len() ==> (#[trigger] value_entries(es)[i]).1.value is Value,
    decreases es.len(),
{
    if es.len() > 0 {
        lemma_value_entries_values(es.drop_last());
    }
}

/// Entries that hold no value followed by entries that hold one split back
/// into the two.
proof fn lemma_split_of_concat(e: Entries, v: Entries)
    requires
        forall|i: int| 0 <= i < e.len() ==> (#[trigger] e[i]).1.value is Empty,
        forall|i: int| 0 <= i < v.len() ==> (#[trigger] v[i]).1.value is Value,
    ensures
        empty_entries(e + v) == e,
        value_entries(e + v) == v,
    decreases e.len() + v.len(),
{
    if v.len() > 0 {
        let vr = v.drop_last();
        assert forall|i: int| 0 <= i < vr.len() implies (#[trigger] vr[i]).1.value is Value by {
            assert(vr[i] == v[i]);
        }
        lemma_split_of_concat(e, vr);
        assert((e + v).drop_last() =~= e + vr);
        assert((e + v).last() == v.last());
        assert(v.last() == v[v.len() - 1]);
        assert(vr.push(v.last()) =~= v);
    } else if e.len() > 0 {
        let er = e.drop_last();
        assert forall|i: int| 0 <= i < er.len() implies (#[trigger] er[i]).1.value is Empty by {
            assert(er[i] == e[i]);
        }
        lemma_split_of_concat(er, v);
        assert(e + v =~= e);
        assert(er + v =~= er);
        assert(e.last() == e[e.len() - 1]);
        assert(er.push(e.last()) =~= e);
    } else {
        assert(e + v =~= Seq::<(Seq<char>, TableKeyValue)>::empty());
    }
}

/// Two sequences of entries with the same elements, each sorted strictly
/// by key, are equal.
proof fn lemma_sorted_unique(s: Entries, t: Entries)
    requires
        keys_sorted(entry_keys(s)),
        keys_sorted(entry_keys(t)),
        s.to_multiset() == t.to_multiset(),
    ensures
        s == t,
    decreases s.len(),
{
    broadcast use vstd::seq_lib::group_to_multiset_ensures;
    broadcast use vstd::multiset::group_multiset_axioms;

    s.to_multiset_ensures();
    t.to_multiset_ensures();
    lemma_key_lt_order();
    if s.len() == 0 {
        assert(t.len() == 0);
        assert(s =~= t);
    } else {
        let n = s.len() - 1;
        assert(t.len() == s.len());
        let x = s[n];
        let y = t[n];
        assert(s.to_multiset().count(x) > 0);
        assert(t.contains(x));
        let j = choose|j: int| 0 <= j < t.len() && t[j] == x;
        assert(t.to_multiset().count(y) > 0);
        assert(s.contains(y));
        let k = choose|k: int| 0 <= k < s.len() && s[k] == y;
        if j != n {
            assert(key_lt(entry_keys(t)[j], entry_keys(t)[n]));
            if k != n {
                assert(key_lt(entry_keys(s)[k], entry_keys(s)[n]));
            }
            assert(key_lt(x.0, x.0));
        }
        assert(x == y);
        let s2 = s.drop_last();
        let t2 = t.drop_last();
        assert(s2 =~= s.remove(n));
        assert(t2 =~= t.remove(n));
        assert(s2.to_multiset() =~= t2.to_multiset());
        assert(entry_keys(s2) =~= entry_keys(s).drop_last());
        assert(entry_keys(t2) =~= entry_keys(t).drop_last());
        lemma_sorted_unique(s2, t2);
        assert(s =~= s2.push(x));
        assert(t =~= t2.push(y));
    }
}

/// The entry holds an inline table of dotted keys.
pub open spec fn holds_dotted_table(e: (Seq<char>, TableKeyValue)) -> bool {
    e.1.value matches Item::Value(Value::InlineTable(t)) && t.spec_dotted()
}

/// Under a table that holds no table of dotted keys stand its own key/value
/// pairs, in order, each under its parent's path and its own key.
pub proof fn law_get_values_of_flat_table(t: InlineTable, parent: Seq<Key>, d: nat)
    requires
        entries_within(t@, d),
        forall|i: int| 0 <= i < t@.len() ==> !holds_dotted_table(#[trigger] t@[i]),
    ensures
        dotted_values(t@, parent, d).len() == value_pairs(t@).len(),
        forall|i: int|
            0 <= i < value_pairs(t@).len() ==> {
                let (path, v) = #[trigger] dotted_values(t@, parent, d)[i];
                &&& v == value_pairs(t@)[i].1
                &&& path.len() == parent.len() + 1
                &&& path.drop_last() == parent
                &&& path.last()@ == value_pairs(t@)[i].0
            },
{
    lemma_flat_values(t@, parent, d);
}

proof fn lemma_flat_values(es: Entries, parent: Seq<Key>, d: nat)
    requires
        forall|i: int| 0 <= i < es.len() ==> (#[trigger] es[i]).1.key@ == es[i].0,
        forall|i: int| 0 <= i < es.len() ==> !holds_dotted_table(#[trigger] es[i]),
    ensures
        dotted_values(es, parent, d).len() == value_pairs(es).len(),
        forall|i: int|
            0 <= i < value_pairs(es).len() ==> {
                let (path, v) = #[trigger] dotted_values(es, parent, d)[i];
                &&& v == value_pairs(es)[i].1
                &&& path.len() == parent.len() + 1
                &&& path.drop_last() == parent
                &&& path.last()@ == value_pairs(es)[i].0
            },
    decreases es.len(),
{
    if es.len() > 0 {
        let rest = es.drop_last();
        assert forall|i: int| 0 <= i < rest.len() implies rest[i] == es[i] by {}
        lemma_flat_values(rest, parent, d);
        let last = es.last();
        assert(last == es[es.len() - 1]);
        assert(!holds_dotted_table(last));
        assert(parent.push(last.1.key).drop_last() =~= parent);
    }
}

/// The entry `e2` reads as `e`: the same key text, key, item and
/// whitespace, the whitespace held in values with the same text.
pub open spec fn same_text(e: (Seq<char>, TableKeyValue), e2: (Seq<char>, TableKeyValue)) -> bool {
    &&& e2.0 == e.0
    &&& e.1.value is Empty ==> e2.1 == e.1
    &&& e.1.value is Value ==> {
        &&& e2.1.key == e.1.key.spec_with_decor(e2.1.key.spec_decor())
        &&& e2.1.key.spec_decor()@ == e.1.key.spec_decor()@
        &&& e2.1.value is Value
        &&& e2.1.value->Value_0 == e.1.value->Value_0.spec_with_decor(
            e2.1.value->Value_0.spec_decor(),
        )
        &&& e2.1.value->Value_0.spec_decor()@ == e.1.value->Value_0.spec_decor()@
    }
}

/// Formatting a formatted table changes nothing: every entry reads as
/// before, with the same whitespace.
pub proof fn law_fmt_idempotent(t: InlineTable, once: InlineTable, twice: InlineTable)
    requires
        formatted(t@, once@),
        formatted(once@, twice@),
    ensures
        twice@.len() == once@.len(),
        forall|i: int| 0 <= i < once@.len() ==> same_text(#[trigger] once@[i], twice@[i]),
{
    let es = t@;
    let e1 = once@;
    let e2 = twice@;
    assert forall|j: int| 0 <= j < es.len() implies ((#[trigger] e1[j]).1.value is Empty
        <==> es[j].1.value is Empty) by {
        assert(formatted_entry(es[j], e1[j], no_value_after(es, j)));
    }
    assert forall|i: int| 0 <= i < e1.len() implies same_text(#[trigger] e1[i], e2[i]) by {
        assert(formatted_entry(es[i], e1[i], no_value_after(es, i)));
        assert(formatted_entry(e1[i], e2[i], no_value_after(e1, i)));
        assert(no_value_after(e1, i) == no_value_after(es, i)) by {
            if no_value_after(es, i) {
                assert forall|q: int| i < q < e1.len() implies e1[q].1.value is Empty by {
                    assert(es[q].1.value is Empty);
                }
            } else {
                let q = choose|q: int| i < q < es.len() && !(es[q].1.value is Empty);
                assert(!(e1[q].1.value is Empty));
            }
        }
    }
}

/// Every operation that keeps a table's frame (all but `set_dotted`) keeps
/// its dotted flag, the text around it and its preamble: after any sequence
/// of such operations the table has the frame it started with, so
/// `is_dotted` gives what the last `set_dotted`, or `new`, left.
pub proof fn law_frame_kept(ts: Seq<InlineTable>)
    requires
        forall|i: int| 0 < i < ts.len() ==> (#[trigger] ts[i]).same_frame(ts[i - 1]),
    ensures
        forall|i: int| 0 <= i < ts.len() ==> (#[trigger] ts[i]).same_frame(ts[0]),
        forall|i: int| 0 <= i < ts.len() ==> (#[trigger] ts[i]).is_dotted() == ts[0].is_dotted(),
    decreases ts.len(),
{
    if ts.len() > 1 {
        let rest = ts.drop_last();
        assert forall|i: int| 0 < i < rest.len() implies (#[trigger] rest[i]).same_frame(rest[i - 1]) by {
            assert(rest[i] == ts[i] && rest[i - 1] == ts[i - 1]);
        }
        law_frame_kept(rest);
        assert forall|i: int| 0 <= i < ts.len() implies (#[trigger] ts[i]).same_frame(ts[0]) by {
            if i < rest.len() {
                assert(rest[i] == ts[i]);
                assert(rest[i].same_frame(rest[0]));
            } else {
                assert(ts[i].same_frame(ts[i - 1]));
                assert(rest[i - 1].same_frame(rest[0]));
            }
        }
    }
}

/// Byte strings are ordered lexicographically: after a common prefix `p`,
/// the string that ends there, or whose next byte is smaller, comes first.
pub proof fn law_bytes_lt_lexicographic(p: Seq<u8>, x: Seq<u8>, y: Seq<u8>)
    requires
        y.len() > 0,
        x.len() == 0 || x[0] < y[0],
    ensures
        bytes_lt(p + x, p + y),
        !bytes_lt(p + y, p + x),
    decreases p.len(),
{
    if p.len() == 0 {
        assert(p + x =~= x);
        assert(p + y =~= y);
    } else {
        assert((p + x).drop_first() =~= p.drop_first() + x);
        assert((p + y).drop_first() =~= p.drop_first() + y);
        assert((p + x)[0] == p[0] && (p + y)[0] == p[0]);
        law_bytes_lt_lexicographic(p.drop_first(), x, y);
    }
}

/// Keys are ordered by their UTF-8 bytes, lexicographically: after a common
/// prefix of bytes, the key that ends there, or whose next byte is smaller,
/// comes first.
pub proof fn law_key_lt_lexicographic(a: Seq<char>, b: Seq<char>, p: Seq<u8>, x: Seq<u8>, y: Seq<u8>)
    requires
        encode_utf8(a) == p + x,
        encode_utf8(b) == p + y,
        y.len() > 0,
        x.len() == 0 || x[0] < y[0],
    ensures
        key_lt(a, b),
        !key_lt(b, a),
{
    law_bytes_lt_lexicographic(p, x, y);
}

/// After `sort`, of two keys that hold values, the later one is neither a
/// proper prefix (in UTF-8 bytes) of the earlier one nor smaller at a byte
/// after a common prefix: the keys stand in lexicographic byte order.
pub proof fn law_sort_byte_order(
    t: InlineTable,
    s: InlineTable,
    i: int,
    j: int,
    p: Seq<u8>,
    x: Seq<u8>,
    y: Seq<u8>,
)
    requires
        sorted_entries(t@, s@),
        empty_entries(t@).len() <= i < j < s@.len(),
        encode_utf8(s@[i].0) == p + x,
        encode_utf8(s@[j].0) == p + y,
    ensures
        !(x.len() > 0 && (y.len() == 0 || y[0] < x[0])),
{
    let n = empty_entries(t@).len() as int;
    let v = s@.skip(n);
    assert(entry_keys(v)[i - n] == s@[i].0);
    assert(entry_keys(v)[j - n] == s@[j].0);
    assert(key_lt(s@[i].0, s@[j].0));
    if x.len() > 0 && (y.len() == 0 || y[0] < x[0]) {
        law_key_lt_lexicographic(s@[j].0, s@[i].0, p, y, x);
    }
}

/// What `get_values` gives for entries under the path `parent`: every pair's
/// path starts with `parent` and goes at least one key further, and no
/// value given is an inline table of dotted keys: such tables, at any
/// depth, are replaced by the pairs under them.
pub proof fn law_get_values_flattens(es: Entries, parent: Seq<Key>, d: nat)
    requires
        entries_within(es, d),
    ensures
        forall|i: int|
            0 <= i < dotted_values(es, parent, d).len() ==> {
                &&& !(#[trigger] dotted_values(es, parent, d)[i]).1.is_dotted_table()
                &&& dotted_values(es, parent, d)[i].0.len() > parent.len()
                &&& dotted_values(es, parent, d)[i].0.take(parent.len() as int) == parent
            },
    decreases d, es.len(),
{
    if es.len() > 0 {
        lemma_within_drop_last(es, d);
        law_get_values_flattens(es.drop_last(), parent, d);
        let prev = dotted_values(es.drop_last(), parent, d);
        let kv = es.last().1;
        let path = parent.push(kv.key);
        assert(es.last() == es[es.len() - 1]);
        assert(item_within(kv.value, d));
        assert(path.take(parent.len() as int) =~= parent);
        let all = dotted_values(es, parent, d);
        match kv.value {
            Item::Value(Value::InlineTable(tb)) => {
                if tb.spec_dotted() {
                    law_get_values_flattens(tb@, path, (d - 1) as nat);
                    let sub = dotted_values(tb@, path, (d - 1) as nat);
                    assert(all == prev + sub);
                    assert forall|i: int| 0 <= i < all.len() implies {
                        &&& !(#[trigger] all[i]).1.is_dotted_table()
                        &&& all[i].0.len() > parent.len()
                        &&& all[i].0.take(parent.len() as int) == parent
                    } by {
                        if i >= prev.len() {
                            let q = i - prev.len();
                            assert(all[i] == sub[q]);
                            assert(sub[q].0.take(path.len() as int) == path);
                            assert(sub[q].0.take(parent.len() as int) =~= sub[q].0.take(
                                path.len() as int,
                            ).take(parent.len() as int));
                        } else {
                            assert(all[i] == prev[i]);
                        }
                    }
                } else {
                    assert(all == prev.push((path, Value::InlineTable(tb))));
                    assert forall|i: int| 0 <= i < all.len() implies {
                        &&& !(#[trigger] all[i]).1.is_dotted_table()
                        &&& all[i].0.len() > parent.len()
                        &&& all[i].0.take(parent.len() as int) == parent
                    } by {
                        if i < prev.len() {
                            assert(all[i] == prev[i]);
                        }
                    }
                }
            },
            Item::Value(v) => {
                assert(all == prev.push((path, v)));
                assert forall|i: int| 0 <= i < all.len() implies {
                    &&& !(#[trigger] all[i]).1.is_dotted_table()
                    &&& all[i].0.len() > parent.len()
                    &&& all[i].0.take(parent.len() as int) == parent
                } by {
                    if i < prev.len() {
                        assert(all[i] == prev[i]);
                    }
                }
            },
            Item::Empty => {
                assert(all == prev);
            },
        }
    }
}

/// Nothing is lost by `get_values`: each value under the table that is not
/// an inline table of dotted keys is given with the path of its key, and the
/// pairs under an inline table of dotted keys are all given too.
pub proof fn law_get_values_complete(es: Entries, parent: Seq<Key>, d: nat, i: int)
    requires
        entries_within(es, d),
        0 <= i < es.len(),
        es[i].1.value is Value,
    ensures
        !es[i].1.value->Value_0.is_dotted_table() ==> dotted_values(es, parent, d).contains(
            (parent.push(es[i].1.key), es[i].1.value->Value_0),
        ),
        es[i].1.value->Value_0.is_dotted_table() ==> d > 0 && forall|c: (Seq<Key>, Value)|
            dotted_values(
                es[i].1.value->Value_0->InlineTable_0@,
                parent.push(es[i].1.key),
                (d - 1) as nat,
            ).contains(c) ==> #[trigger] dotted_values(es, parent, d).contains(c),
    decreases es.len(),
{
    let rest = es.drop_last();
    let prev = dotted_values(rest, parent, d);
    let all = dotted_values(es, parent, d);
    let kv = es.last().1;
    let path = parent.push(kv.key);
    assert(es.last() == es[es.len() - 1]);
    assert(item_within(es[i].1.value, d));
    let tail: Seq<(Seq<Key>, Value)> = match kv.value {
        Item::Value(Value::InlineTable(tb)) => if tb.spec_dotted() {
            dotted_values(tb@, path, (d - 1) as nat)
        } else {
            seq![(path, Value::InlineTable(tb))]
        },
        Item::Value(v) => seq![(path, v)],
        Item::Empty => Seq::empty(),
    };
    assert(all =~= prev + tail);
    if i < es.len() - 1 {
        lemma_within_drop_last(es, d);
        assert(rest[i] == es[i]);
        law_get_values_complete(rest, parent, d, i);
        assert forall|c: (Seq<Key>, Value)| prev.contains(c) implies #[trigger] all.contains(c) by {
            let q = choose|q: int| 0 <= q < prev.len() && prev[q] == c;
            assert(all[q] == c);
        }
    } else {
        assert forall|c: (Seq<Key>, Value)| tail.contains(c) implies #[trigger] all.contains(c) by {
            let q = choose|q: int| 0 <= q < tail.len() && tail[q] == c;
            assert(all[prev.len() + q] == c);
        }
        if !es[i].1.value->Value_0.is_dotted_table() {
            assert(tail[0] == (path, es[i].1.value->Value_0));
            assert(tail.contains((path, es[i].1.value->Value_0)));
        }
    }
}

/// Storing a value under a key keeps every other entry in its order: the
/// entries before the new last one are the old ones, less the one that had
/// the key, if any.
pub proof fn law_insert_keeps_order(t: InlineTable, key: Key, v: Value)
    requires
        t.wf(),
    ensures
        inserted(t@, key, v).len() > 0,
        !has_key(t@, key@) ==> inserted(t@, key, v).drop_last() == t@,
        has_key(t@, key@) ==> exists|p: int|
            0 <= p < t@.len() && t@[p].0 == key@ && inserted(t@, key, v).drop_last() == t@.remove(p),
{
    lemma_wf_keys_unique(t);
    let es = t@;
    let kv = TableKeyValue { key, value: Item::Value(v) };
    if has_key(es, key@) {
        let p = key_pos(es, key@);
        lemma_key_pos(es, key@, p);
        assert(es.remove(p).push((key@, kv)).drop_last() =~= es.remove(p));
    } else {
        assert(es.push((key@, kv)).drop_last() =~= es);
    }
}

/// `pos` lists, in increasing order, exactly the positions of the entries of
/// `es` that hold a value, and `value_pairs(es)` holds those entries' key
/// texts and values in the same order.
pub open spec fn lists_value_positions(es: Entries, pos: Seq<int>) -> bool {
    &&& pos.len() == value_pairs(es).len()
    &&& forall|x: int|
        0 <= x < pos.len() ==> 0 <= #[trigger] pos[x] < es.len() && es[pos[x]].1.value is Value
            && value_pairs(es)[x] == (es[pos[x]].0, es[pos[x]].1.value->Value_0)
    &&& forall|a: int, b: int| 0 <= a < b < pos.len() ==> pos[a] < pos[b]
    &&& forall|i: int|
        0 <= i < es.len() && (#[trigger] es[i]).1.value is Value ==> exists|x: int|
            0 <= x < pos.len() && pos[x] == i
}

/// `iter` gives the entries that hold a value, each with its key's text, in
/// the order of the table, and no others.
pub proof fn law_value_pairs_in_order(es: Entries)
    ensures
        exists|pos: Seq<int>| #[trigger] lists_value_positions(es, pos),
{
    crate::table::lemma_value_positions(es);
    let pos = crate::table::value_positions(es);
    assert(lists_value_positions(es, pos));
}

/// What `fmt` does to each entry: an entry that holds no value stays as it
/// was; a key with a value gets one space on each side; its value gets one
/// space before it, and one after it exactly when no later entry holds a
/// value (`{ key1 = value1, key2 = value2 }`).
pub proof fn law_fmt_decor(t: InlineTable, f: InlineTable, i: int)
    requires
        formatted(t@, f@),
        0 <= i < t@.len(),
    ensures
        f@.len() == t@.len(),
        f@[i].0 == t@[i].0,
        t@[i].1.value is Empty ==> f@[i] == t@[i],
        t@[i].1.value is Value ==> {
            &&& f@[i].1.key == t@[i].1.key.spec_with_decor(f@[i].1.key.spec_decor())
            &&& f@[i].1.key@ == t@[i].1.key@
            &&& f@[i].1.key.spec_decor()@ == (" "@, " "@)
            &&& f@[i].1.value is Value
            &&& f@[i].1.value->Value_0 == t@[i].1.value->Value_0.spec_with_decor(
                f@[i].1.value->Value_0.spec_decor(),
            )
            &&& (exists|q: int| i < q < t@.len() && t@[q].1.value is Value)
                ==> f@[i].1.value->Value_0.spec_decor()@ == (" "@, ""@)
            &&& (forall|q: int| i < q < t@.len() ==> t@[q].1.value is Empty)
                ==> f@[i].1.value->Value_0.spec_decor()@ == (" "@, " "@)
        },
{
    assert(formatted_entry(t@[i], f@[i], no_value_after(t@, i)));
    if t@[i].1.value is Value {
        crate::key::lemma_with_decor_text(t@[i].1.key, f@[i].1.key.spec_decor());
    }
}

/// The entry that storing `p` adds: the key's text, the key and the value.
pub open spec fn new_entry(p: (Key, Value)) -> (Seq<char>, TableKeyValue) {
    (p.0@, TableKeyValue { key: p.0, value: Item::Value(p.1) })
}

/// Extending by a pair whose key is new appends its entry after all the
/// others, which keep their order.
pub proof fn law_extend_new_key_last(es: Entries, pairs: Seq<(Key, Value)>)
    requires
        pairs.len() > 0,
        !has_key(extended(es, pairs.drop_last()), pairs.last().0@),
    ensures
        extended(es, pairs) == extended(es, pairs.drop_last()).push(new_entry(pairs.last())),
{
}

/// Extending by pairs with distinct keys, none already present, appends
/// their entries in order: `from_iter` of such pairs gives them in order.
pub proof fn law_extend_appends(es: Entries, pairs: Seq<(Key, Value)>)
    requires
        forall|i: int| 0 <= i < pairs.len() ==> !has_key(es, (#[trigger] pairs[i]).0@),
        forall|i: int, j: int| 0 <= i < j < pairs.len() ==> pairs[i].0@ != pairs[j].0@,
    ensures
        extended(es, pairs) == es + pairs.map_values(|p: (Key, Value)| new_entry(p)),
    decreases pairs.len(),
{
    if pairs.len() > 0 {
        let prev = pairs.drop_last();
        assert forall|i: int| 0 <= i < prev.len() implies !has_key(es, (#[trigger] prev[i]).0@) by {
            assert(prev[i] == pairs[i]);
        }
        assert forall|i: int, j: int| 0 <= i < j < prev.len() implies prev[i].0@ != prev[j].0@ by {
            assert(prev[i] == pairs[i] && prev[j] == pairs[j]);
        }
        law_extend_appends(es, prev);
        let e1 = extended(es, prev);
        let k = pairs.last().0@;
        assert(pairs.last() == pairs[pairs.len() - 1]);
        assert(!has_key(e1, k)) by {
            assert forall|m: int| 0 <= m < e1.len() implies e1[m].0 != k by {
                if m < es.len() {
                    assert(e1[m] == es[m]);
                } else {
                    assert(e1[m] == new_entry(prev[m - es.len()]));
                    assert(prev[m - es.len()] == pairs[m - es.len()]);
                }
            }
        }
        assert(pairs.map_values(|p: (Key, Value)| new_entry(p)) =~= prev.map_values(
            |p: (Key, Value)| new_entry(p),
        ).push(new_entry(pairs.last())));
        assert(extended(es, pairs) =~= es + pairs.map_values(|p: (Key, Value)| new_entry(p)));
    }
}

/// What changing whitespace keeps: a key's text, a scalar, a table's
/// entries, dotted flag and preamble.
pub broadcast group group_with_decor {
    crate::key::lemma_with_decor_text,
    crate::value::Formatted::lemma_with_decor,
    crate::value::Value::lemma_with_decor,
    crate::inline_table::InlineTable::lemma_with_decor,
}

} // verus!
