use vstd::prelude::*;

use crate::order::{key_lt, keys_sorted, lemma_key_lt_order, sort_keys, texts};
use crate::pairs::{pairs_contents, pairs_get_refresh, KeyValuePairs};
use crate::table::{
    empty_entries, has_key, key_pos, keys_unique, lemma_key_pos, lemma_value_positions, lookup,
    value_entries, value_keys, value_positions, Entries, TableKeyValue,
};

verus! {

/// The entries of `es` whose key is not in `ks`, in order.
pub open spec fn without_keys(es: Entries, ks: Set<Seq<char>>) -> Entries
    decreases es.len(),
{
    if es.len() == 0 {
        Seq::empty()
    } else {
        let rest = without_keys(es.drop_last(), ks);
        if ks.contains(es.last().0) {
            rest
        } else {
            rest.push(es.last())
        }
    }
}

/// The key texts of the entries, in order.
pub open spec fn entry_keys(es: Entries) -> Seq<Seq<char>> {
    es.map_values(|e: (Seq<char>, TableKeyValue)| e.0)
}

/// `es2` are the entries `es` sorted as `sort` leaves them: first the
/// entries that hold no value, in their order, then the entries that hold a
/// value, ordered by key.
pub open spec fn sorted_entries(es: Entries, es2: Entries) -> bool {
    let n = empty_entries(es).len() as int;
    &&& es2.len() == es.len()
    &&& es2.take(n) == empty_entries(es)
    &&& es2.skip(n).to_multiset() == value_entries(es).to_multiset()
    &&& keys_sorted(entry_keys(es2.skip(n)))
}

/// Taking out the entries whose key is in `ks` leaves entries of `es` with
/// distinct keys not in `ks`.
proof fn lemma_without_keys(es: Entries, ks: Set<Seq<char>>)
    requires
        keys_unique(es),
    ensures
        keys_unique(without_keys(es, ks)),
        forall|t: int|
            0 <= t < without_keys(es, ks).len() ==> !ks.contains(
                (#[trigger] without_keys(es, ks)[t]).0,
            ) && exists|m: int| 0 <= m < es.len() && without_keys(es, ks)[t] == es[m],
    decreases es.len(),
{
    if es.len() > 0 {
        let rest = es.drop_last();
        assert forall|a: int, b: int|
            0 <= a < rest.len() && 0 <= b < rest.len() && a != b implies rest[a].0 != rest[b].0 by {
            assert(rest[a] == es[a] && rest[b] == es[b]);
        }
        lemma_without_keys(rest, ks);
        let wr = without_keys(rest, ks);
        let w = without_keys(es, ks);
        assert forall|t: int| 0 <= t < wr.len() implies exists|m: int|
            0 <= m < es.len() && #[trigger] wr[t] == es[m] by {
            let m = choose|m: int| 0 <= m < rest.len() && wr[t] == rest[m];
            assert(rest[m] == es[m]);
        }
        if !ks.contains(es.last().0) {
            assert(w == wr.push(es.last()));
            assert forall|t: int| 0 <= t < wr.len() implies wr[t].0 != es.last().0 by {
                let m = choose|m: int| 0 <= m < es.len() && wr[t] == es[m];
                if m == es.len() - 1 {
                    assert(wr[t] == rest[t]);
                }
                let m2 = choose|m2: int| 0 <= m2 < rest.len() && wr[t] == rest[m2];
                assert(rest[m2] == es[m2]);
            }
            assert forall|t: int| 0 <= t < w.len() implies !ks.contains((#[trigger] w[t]).0)
                && exists|m: int| 0 <= m < es.len() && w[t] == es[m] by {
                if t == wr.len() {
                    assert(w[t] == es[es.len() - 1]);
                } else {
                    assert(w[t] == wr[t]);
                }
            }
            assert forall|a: int, b: int|
                0 <= a < w.len() && 0 <= b < w.len() && a != b implies w[a].0 != w[b].0 by {
                if a < wr.len() && b < wr.len() {
                    assert(w[a] == wr[a] && w[b] == wr[b]);
                } else if a < wr.len() {
                    assert(w[a] == wr[a]);
                } else {
                    assert(w[b] == wr[b]);
                }
            }
        }
    }
}

/// Where `k` is not among the taken-out keys, the entry with the key `k`
/// stands among the ones left, and taking it out too leaves what taking out
/// `k` with the others would.
proof fn lemma_without_keys_step(es: Entries, ks: Set<Seq<char>>, k: Seq<char>) -> (q: int)
    requires
        keys_unique(es),
        !ks.contains(k),
        has_key(es, k),
    ensures
        0 <= q < without_keys(es, ks).len(),
        without_keys(es, ks)[q] == es[key_pos(es, k)],
        without_keys(es, ks).remove(q) == without_keys(es, ks.insert(k)),
    decreases es.len(),
{
    let rest = es.drop_last();
    let last = es.last();
    assert forall|a: int, b: int|
        0 <= a < rest.len() && 0 <= b < rest.len() && a != b implies rest[a].0 != rest[b].0 by {
        assert(rest[a] == es[a] && rest[b] == es[b]);
    }
    let i = key_pos(es, k);
    let w = without_keys(es, ks);
    let wr = without_keys(rest, ks);
    if last.0 == k {
        assert(i == es.len() - 1) by {
            assert(es[es.len() - 1].0 == k);
        }
        assert(!has_key(rest, k)) by {
            assert forall|j: int| 0 <= j < rest.len() implies rest[j].0 != k by {
                assert(rest[j] == es[j]);
            }
        }
        lemma_without_keys_absent(rest, ks, k);
        assert(w == wr.push(last));
        assert(w.remove(wr.len() as int) =~= wr);
        wr.len() as int
    } else {
        assert(i < es.len() - 1);
        assert(rest[i] == es[i]);
        assert(has_key(rest, k));
        assert(key_pos(rest, k) == i) by {
            let j = key_pos(rest, k);
            assert(rest[j] == es[j]);
        }
        let q = lemma_without_keys_step(rest, ks, k);
        if ks.contains(last.0) {
            q
        } else {
            assert(w == wr.push(last));
            assert(w.remove(q) =~= wr.remove(q).push(last));
            q
        }
    }
}

/// Taking out a key that no entry has changes nothing.
proof fn lemma_without_keys_absent(es: Entries, ks: Set<Seq<char>>, k: Seq<char>)
    requires
        !has_key(es, k),
    ensures
        without_keys(es, ks.insert(k)) == without_keys(es, ks),
    decreases es.len(),
{
    if es.len() > 0 {
        let rest = es.drop_last();
        assert(!has_key(rest, k)) by {
            assert forall|j: int| 0 <= j < rest.len() implies rest[j].0 != k by {
                assert(rest[j] == es[j]);
            }
        }
        lemma_without_keys_absent(rest, ks, k);
        assert(es.last() == es[es.len() - 1]);
    }
}

/// Every entry either holds a value or holds none.
pub proof fn lemma_split_len(es: Entries)
    ensures
        empty_entries(es).len() + value_entries(es).len() == es.len(),
    decreases es.len(),
{
    if es.len() > 0 {
        lemma_split_len(es.drop_last());
    }
}

/// Taking out no key changes nothing.
proof fn lemma_without_no_keys(es: Entries)
    ensures
        without_keys(es, Set::empty()) == es,
    decreases es.len(),
{
    if es.len() > 0 {
        lemma_without_no_keys(es.drop_last());
        assert(es.drop_last().push(es.last()) =~= es);
    }
}

/// Taking out exactly the keys of the entries that hold a value leaves the
/// entries that hold none.
proof fn lemma_without_value_keys(es: Entries, ks: Set<Seq<char>>)
    requires
        forall|i: int| 0 <= i < es.len() ==> (ks.contains((#[trigger] es[i]).0) <==> es[i].1.value is Value),
    ensures
        without_keys(es, ks) == empty_entries(es),
    decreases es.len(),
{
    if es.len() > 0 {
        let rest = es.drop_last();
        assert forall|i: int| 0 <= i < rest.len() implies (ks.contains((#[trigger] rest[i]).0)
            <==> rest[i].1.value is Value) by {
            assert(rest[i] == es[i]);
        }
        lemma_without_value_keys(rest, ks);
        assert(es.last() == es[es.len() - 1]);
    }
}

/// Sequences with the same elements keep them when each element is mapped.
proof fn lemma_map_to_multiset<A, B>(s1: Seq<A>, s2: Seq<A>, f: spec_fn(A) -> B)
    requires
        s1.to_multiset() == s2.to_multiset(),
    ensures
        s1.map_values(f).to_multiset() == s2.map_values(f).to_multiset(),
    decreases s1.len(),
{
    broadcast use vstd::seq_lib::group_to_multiset_ensures;
    broadcast use vstd::multiset::group_multiset_axioms;

    s1.to_multiset_ensures();
    s2.to_multiset_ensures();
    if s1.len() == 0 {
        assert(s2.len() == 0);
        assert(s1.map_values(f) =~= s2.map_values(f));
    } else {
        let x = s1.last();
        let r1 = s1.drop_last();
        assert(s1 =~= r1.push(x));
        r1.to_multiset_ensures();
        assert(s2.to_multiset().count(x) > 0);
        assert(s2.contains(x));
        let i = choose|i: int| 0 <= i < s2.len() && s2[i] == x;
        let r2 = s2.remove(i);
        assert(r1.to_multiset() =~= r2.to_multiset());
        lemma_map_to_multiset(r1, r2, f);
        let m1 = s1.map_values(f);
        let m2 = s2.map_values(f);
        assert(m1 =~= r1.map_values(f).push(f(x)));
        assert(r2.map_values(f) =~= m2.remove(i));
        r1.map_values(f).to_multiset_ensures();
        m2.to_multiset_ensures();
        assert(m2[i] == f(x));
        assert(m2.to_multiset() =~= m2.remove(i).to_multiset().insert(f(x)));
    }
}

/// Sorts the entries that hold a value by key, after the entries that hold
/// none, which keep their order; each entry moves to the end by
/// `LinkedHashMap::get_refresh`, in the order of the sorted keys.
pub(crate) fn sort_key_value_pairs(items: &mut KeyValuePairs)
    requires
        keys_unique(pairs_contents(*old(items))),
    ensures
        sorted_entries(pairs_contents(*old(items)), pairs_contents(*final(items))),
        keys_unique(pairs_contents(*final(items))),
        forall|t: int|
            0 <= t < pairs_contents(*final(items)).len() ==> exists|m: int|
                0 <= m < pairs_contents(*old(items)).len() && #[trigger] pairs_contents(
                    *final(items),
                )[t] == pairs_contents(*old(items))[m],
{
    let ghost es = pairs_contents(*items);
    let ghost vp = value_positions(es);
    let ghost g = |k: Seq<char>| (k, lookup(es, k)->0);
    proof {
        lemma_value_positions(es);
        lemma_key_lt_order();
    }
    let keys = value_keys(items);
    let ghost vk = texts(keys@);
    proof {
        assert forall|a: int, b: int| 0 <= a < vk.len() && 0 <= b < vk.len() && a != b implies vk[a] != vk[b] by {
            assert(vk[a] == es[vp[a]].0 && vk[b] == es[vp[b]].0);
            if a < b {
                assert(vp[a] < vp[b]);
            } else {
                assert(vp[b] < vp[a]);
            }
        }
    }
    let keys = sort_keys(keys);
    let ghost sk = texts(keys@);
    proof {
        assert forall|a: int, b: int| 0 <= a < sk.len() && 0 <= b < sk.len() && a != b implies sk[a] != sk[b] by {
            if a < b {
                assert(key_lt(sk[a], sk[b]));
            } else {
                assert(key_lt(sk[b], sk[a]));
            }
        }
        vk.to_multiset_ensures();
        sk.to_multiset_ensures();
        assert forall|x: int| 0 <= x < sk.len() implies has_key(es, #[trigger] sk[x]) by {
            assert(sk.to_multiset().count(sk[x]) > 0);
            assert(vk.contains(sk[x]));
            let y = choose|y: int| 0 <= y < vk.len() && vk[y] == sk[x];
            assert(es[vp[y]].0 == sk[x]);
        }
        lemma_without_no_keys(es);
        assert(sk.take(0).to_set() =~= Set::<Seq<char>>::empty());
        assert(pairs_contents(*items) =~= without_keys(es, sk.take(0).to_set()) + sk.take(0).map_values(g));
    }
    let mut j: usize = 0;
    while j < keys.len()
        invariant
            j <= keys@.len(),
            sk == texts(keys@),
            keys_unique(es),
            forall|a: int, b: int| 0 <= a < sk.len() && 0 <= b < sk.len() && a != b ==> sk[a] != sk[b],
            forall|x: int| 0 <= x < sk.len() ==> has_key(es, #[trigger] sk[x]),
            g == (|k: Seq<char>| (k, lookup(es, k)->0)),
            pairs_contents(*items) == without_keys(es, sk.take(j as int).to_set()) + sk.take(
                j as int,
            ).map_values(g),
            keys_unique(pairs_contents(*items)),
            forall|t: int|
                0 <= t < pairs_contents(*items).len() ==> exists|m: int|
                    0 <= m < es.len() && #[trigger] pairs_contents(*items)[t] == es[m],
        decreases keys@.len() - j,
    {
        let ghost cur = pairs_contents(*items);
        let ghost k = sk[j as int];
        let ghost ks = sk.take(j as int).to_set();
        let ghost w = without_keys(es, ks);
        let ghost tail = sk.take(j as int).map_values(g);
        proof {
            assert(!ks.contains(k)) by {
                if ks.contains(k) {
                    let y = choose|y: int| 0 <= y < j && sk.take(j as int)[y] == k;
                    assert(sk[y] == k);
                }
            }
        }
        let ghost q = lemma_without_keys_step(es, ks, k);
        proof {
            lemma_without_keys(es, ks);
            assert(cur[q] == w[q]);
            let i0 = key_pos(es, k);
            assert(es[i0].0 == k);
        }
        let _ = pairs_get_refresh(items, keys[j].as_str());
        proof {
            let i = choose|i: int| 0 <= i < cur.len() && cur[i].0 == k;
            assert(i == q) by {
                if i != q {
                    assert(cur[i].0 == cur[q].0);
                }
            }
            let next = pairs_contents(*items);
            assert(sk.take(j + 1) =~= sk.take(j as int).push(k));
            sk.take(j as int).lemma_push_to_set_commute(k);
            assert(sk.take(j + 1).to_set() =~= ks.insert(k));
            assert(sk.take(j + 1).map_values(g) =~= tail.push(g(k)));
            assert(g(k) == cur[q]) by {
                lemma_key_pos(es, k, key_pos(es, k));
            }
            assert(cur.remove(q) =~= w.remove(q) + tail);
            assert(next =~= without_keys(es, ks.insert(k)) + sk.take(j + 1).map_values(g));
            assert forall|a: int, b: int|
                0 <= a < next.len() && 0 <= b < next.len() && a != b implies next[a].0 != next[b].0 by {
                let ia = if a == next.len() - 1 { q } else if a < q { a } else { a + 1 };
                let ib = if b == next.len() - 1 { q } else if b < q { b } else { b + 1 };
                assert(next[a] == cur[ia] && next[b] == cur[ib]);
            }
            assert forall|t: int| 0 <= t < next.len() implies exists|m: int|
                0 <= m < es.len() && #[trigger] next[t] == es[m] by {
                let it = if t == next.len() - 1 { q } else if t < q { t } else { t + 1 };
                assert(next[t] == cur[it]);
            }
        }
        j = j + 1;
    }
    proof {
        let fin = pairs_contents(*items);
        assert(sk.take(j as int) =~= sk);
        let n = empty_entries(es).len() as int;
        assert forall|i: int| 0 <= i < es.len() implies (sk.to_set().contains((#[trigger] es[i]).0)
            <==> es[i].1.value is Value) by {
            if es[i].1.value is Value {
                let x = choose|x: int| 0 <= x < vp.len() && vp[x] == i;
                assert(vk[x] == es[i].0);
                assert(vk.contains(es[i].0));
                assert(vk.to_multiset().count(es[i].0) > 0);
                assert(sk.contains(es[i].0));
            }
            if sk.to_set().contains(es[i].0) {
                assert(sk.contains(es[i].0));
                assert(sk.to_multiset().count(es[i].0) > 0);
                assert(vk.contains(es[i].0));
                let y = choose|y: int| 0 <= y < vk.len() && vk[y] == es[i].0;
                assert(es[vp[y]].0 == es[i].0);
            }
        }
        lemma_without_value_keys(es, sk.to_set());
        assert(fin.take(n) =~= empty_entries(es));
        assert(fin.skip(n) =~= sk.map_values(g));
        assert(value_entries(es) =~= vk.map_values(g)) by {
            assert forall|x: int| 0 <= x < vk.len() implies value_entries(es)[x] == g(vk[x]) by {
                lemma_key_pos(es, es[vp[x]].0, vp[x]);
            }
        }
        lemma_map_to_multiset(sk, vk, g);
        assert(entry_keys(sk.map_values(g)) =~= sk);
        lemma_split_len(es);
        assert(sk.len() == vk.len());
    }
}


} // verus!
