use vstd::prelude::*;

use linked_hash_map::LinkedHashMap;

use crate::table::{has_key, item_copy, TableKeyValue};
use crate::wf::item_within;

verus! {

/// The key/value pairs of a table, kept in the order in which their keys
/// were last inserted or refreshed (a `linked_hash_map::LinkedHashMap`).
#[verifier::external_body]
#[derive(Debug)]
pub struct KeyValuePairs {
    map: LinkedHashMap<String, TableKeyValue>,
}

/// What a `KeyValuePairs` holds, in its iteration order: each key's text
/// with the value stored under it.
pub uninterp spec fn pairs_contents(m: KeyValuePairs) -> Seq<(Seq<char>, TableKeyValue)>;

impl Clone for KeyValuePairs {
    /// `LinkedHashMap::clone`: a new map into which each pair is inserted in
    /// order, its key string cloned and its value cloned by
    /// `TableKeyValue::clone`. So the clone has the same key texts in the
    /// same order, and each value is what `TableKeyValue::clone` returns for
    /// the value in the same place: the clauses on the values are that
    /// function's own (verified) `ensures`.
    #[verifier::external_body]
    fn clone(&self) -> (r: KeyValuePairs)
        ensures
            pairs_contents(r).len() == pairs_contents(*self).len(),
            forall|i: int|
                #![trigger pairs_contents(r)[i]]
                0 <= i < pairs_contents(r).len() ==> {
                    &&& pairs_contents(r)[i].0 == pairs_contents(*self)[i].0
                    &&& pairs_contents(r)[i].1.key == pairs_contents(*self)[i].1.key
                    &&& forall|d: nat|
                        item_within(pairs_contents(*self)[i].1.value, d) ==> item_copy(
                            pairs_contents(*self)[i].1.value,
                            pairs_contents(r)[i].1.value,
                            d,
                        )
                },
    {
        KeyValuePairs { map: self.map.clone() }
    }
}

/// `LinkedHashMap::new`: the map is empty.
#[verifier::external_body]
pub(crate) fn pairs_new() -> (r: KeyValuePairs)
    ensures
        pairs_contents(r) == Seq::<(Seq<char>, TableKeyValue)>::empty(),
{
    KeyValuePairs { map: LinkedHashMap::new() }
}

/// `LinkedHashMap::clear`: the map is empty afterwards.
#[verifier::external_body]
pub(crate) fn pairs_clear(m: &mut KeyValuePairs)
    ensures
        pairs_contents(*final(m)) == Seq::<(Seq<char>, TableKeyValue)>::empty(),
{
    m.map.clear()
}

/// `LinkedHashMap::iter`: every pair, in insertion order, as a key and a
/// reference to its value.
#[verifier::external_body]
pub(crate) fn pairs_iter<'a>(m: &'a KeyValuePairs) -> (r: Vec<(&'a str, &'a TableKeyValue)>)
    ensures
        r@.len() == pairs_contents(*m).len(),
        forall|i: int|
            0 <= i < r@.len() ==> r@[i].0@ == pairs_contents(*m)[i].0 && *r@[i].1
                == pairs_contents(*m)[i].1,
{
    m.map.iter().map(|(k, v)| (k.as_str(), v)).collect()
}

/// `LinkedHashMap::iter_mut`: every pair, in insertion order, as a key and
/// a mutable reference to its value; the order of the pairs stays.
#[verifier::external_body]
pub(crate) fn pairs_iter_mut<'a>(m: &'a mut KeyValuePairs) -> (r: Vec<(&'a str, &'a mut TableKeyValue)>)
    ensures
        r@.len() == pairs_contents(*old(m)).len(),
        pairs_contents(*final(m)).len() == pairs_contents(*old(m)).len(),
        forall|i: int|
            #![trigger r@[i]]
            0 <= i < r@.len() ==> r@[i].0@ == pairs_contents(*old(m))[i].0 && *r@[i].1
                == pairs_contents(*old(m))[i].1 && pairs_contents(*final(m))[i] == (
                pairs_contents(*old(m))[i].0,
                *final(r@[i].1),
            ),
{
    m.map.iter_mut().map(|(k, v)| (k.as_str(), v)).collect()
}

/// `LinkedHashMap::into_iter`: every pair, in insertion order, by value.
#[verifier::external_body]
pub(crate) fn pairs_into_vec(m: KeyValuePairs) -> (r: Vec<(String, TableKeyValue)>)
    ensures
        r@.len() == pairs_contents(m).len(),
        forall|i: int|
            0 <= i < r@.len() ==> r@[i].0@ == pairs_contents(m)[i].0 && r@[i].1
                == pairs_contents(m)[i].1,
{
    m.map.into_iter().collect()
}

/// `LinkedHashMap::get`: the value stored under `k`, if any.
#[verifier::external_body]
pub(crate) fn pairs_get<'a>(m: &'a KeyValuePairs, k: &str) -> (r: Option<&'a TableKeyValue>)
    ensures
        match r {
            None => !has_key(pairs_contents(*m), k@),
            Some(v) => exists|i: int|
                0 <= i < pairs_contents(*m).len() && pairs_contents(*m)[i].0 == k@ && *v
                    == pairs_contents(*m)[i].1,
        },
{
    m.map.get(k)
}

/// `LinkedHashMap::get_mut`: the value stored under `k`, if any, to be
/// changed in place; the order of the pairs stays.
#[verifier::external_body]
pub(crate) fn pairs_get_mut<'a>(m: &'a mut KeyValuePairs, k: &str) -> (r: Option<
    &'a mut TableKeyValue,
>)
    ensures
        match r {
            None => !has_key(pairs_contents(*old(m)), k@) && pairs_contents(*final(m))
                == pairs_contents(*old(m)),
            Some(v) => exists|i: int|
                0 <= i < pairs_contents(*old(m)).len() && pairs_contents(*old(m))[i].0 == k@
                    && *v == pairs_contents(*old(m))[i].1 && pairs_contents(*final(m))
                    == pairs_contents(*old(m)).update(i, (k@, *final(v))),
        },
{
    m.map.get_mut(k)
}

/// `LinkedHashMap::get_refresh`: like `get_mut`, and the pair moves to the end.
#[verifier::external_body]
pub(crate) fn pairs_get_refresh<'a>(m: &'a mut KeyValuePairs, k: &str) -> (r: Option<
    &'a mut TableKeyValue,
>)
    ensures
        match r {
            None => !has_key(pairs_contents(*old(m)), k@) && pairs_contents(*final(m))
                == pairs_contents(*old(m)),
            Some(v) => exists|i: int|
                0 <= i < pairs_contents(*old(m)).len() && pairs_contents(*old(m))[i].0 == k@
                    && *v == pairs_contents(*old(m))[i].1 && pairs_contents(*final(m))
                    == pairs_contents(*old(m)).remove(i).push((k@, *final(v))),
        },
{
    m.map.get_refresh(k)
}

/// `LinkedHashMap::insert`: stores `v` under `k` at the end; a pair that
/// had the key is taken out and its value returned.
#[verifier::external_body]
pub(crate) fn pairs_insert(m: &mut KeyValuePairs, k: String, v: TableKeyValue) -> (r: Option<
    TableKeyValue,
>)
    ensures
        match r {
            None => !has_key(pairs_contents(*old(m)), k@) && pairs_contents(*final(m))
                == pairs_contents(*old(m)).push((k@, v)),
            Some(prev) => exists|i: int|
                0 <= i < pairs_contents(*old(m)).len() && pairs_contents(*old(m))[i].0 == k@
                    && prev == pairs_contents(*old(m))[i].1 && pairs_contents(*final(m))
                    == pairs_contents(*old(m)).remove(i).push((k@, v)),
        },
{
    m.map.insert(k, v)
}

/// `LinkedHashMap::remove`: takes out the pair with the key `k`, if any.
#[verifier::external_body]
pub(crate) fn pairs_remove(m: &mut KeyValuePairs, k: &str) -> (r: Option<TableKeyValue>)
    ensures
        match r {
            None => !has_key(pairs_contents(*old(m)), k@) && pairs_contents(*final(m))
                == pairs_contents(*old(m)),
            Some(prev) => exists|i: int|
                0 <= i < pairs_contents(*old(m)).len() && pairs_contents(*old(m))[i].0 == k@
                    && prev == pairs_contents(*old(m))[i].1 && pairs_contents(*final(m))
                    == pairs_contents(*old(m)).remove(i),
        },
{
    m.map.remove(k)
}

/// `LinkedHashMap::entry` followed by `Entry::or_insert`: the value under
/// `k`, where a pair had the key (its place stays), else `v`, stored at the end.
#[verifier::external_body]
pub(crate) fn pairs_entry_or_insert<'a>(
    m: &'a mut KeyValuePairs,
    k: String,
    v: TableKeyValue,
) -> (r: &'a mut TableKeyValue)
    ensures
        has_key(pairs_contents(*old(m)), k@) ==> exists|i: int|
            0 <= i < pairs_contents(*old(m)).len() && pairs_contents(*old(m))[i].0 == k@ && *r
                == pairs_contents(*old(m))[i].1 && pairs_contents(*final(m))
                == pairs_contents(*old(m)).update(i, (k@, *final(r))),
        !has_key(pairs_contents(*old(m)), k@) ==> *r == v && pairs_contents(*final(m))
            == pairs_contents(*old(m)).push((k@, *final(r))),
{
    m.map.entry(k).or_insert(v)
}

} // verus!
