use vstd::prelude::*;

use vstd::seq_lib::lemma_multiset_commutative;
use vstd::utf8::{encode_utf8, encode_utf8_decode_utf8};

verus! {

/// Byte strings in lexicographic order: `a` comes strictly before `b`.
pub open spec fn bytes_lt(a: Seq<u8>, b: Seq<u8>) -> bool
    decreases a.len(),
{
    if a.len() == 0 {
        b.len() > 0
    } else if b.len() == 0 {
        false
    } else if a[0] != b[0] {
        a[0] < b[0]
    } else {
        bytes_lt(a.drop_first(), b.drop_first())
    }
}

/// Key texts in the order of `String`'s `Ord`: by their UTF-8 bytes.
pub open spec fn key_lt(a: Seq<char>, b: Seq<char>) -> bool {
    bytes_lt(encode_utf8(a), encode_utf8(b))
}

/// Each key text comes strictly before the ones after it.
pub open spec fn keys_sorted(ks: Seq<Seq<char>>) -> bool {
    forall|i: int, j: int| 0 <= i < j < ks.len() ==> key_lt(ks[i], ks[j])
}

/// The texts of a sequence of strings.
pub open spec fn texts(ks: Seq<String>) -> Seq<Seq<char>> {
    ks.map_values(|k: String| k@)
}

/// No byte string comes before itself.
pub proof fn lemma_bytes_lt_irreflexive(a: Seq<u8>)
    ensures
        !bytes_lt(a, a),
    decreases a.len(),
{
    if a.len() > 0 {
        lemma_bytes_lt_irreflexive(a.drop_first());
    }
}

/// The byte order is transitive.
pub proof fn lemma_bytes_lt_transitive(a: Seq<u8>, b: Seq<u8>, c: Seq<u8>)
    requires
        bytes_lt(a, b),
        bytes_lt(b, c),
    ensures
        bytes_lt(a, c),
    decreases a.len(),
{
    if a.len() > 0 && b.len() > 0 && c.len() > 0 && a[0] == b[0] && b[0] == c[0] {
        lemma_bytes_lt_transitive(a.drop_first(), b.drop_first(), c.drop_first());
    }
}

/// Of two different byte strings, one comes before the other.
pub proof fn lemma_bytes_lt_total(a: Seq<u8>, b: Seq<u8>)
    requires
        a != b,
    ensures
        bytes_lt(a, b) || bytes_lt(b, a),
    decreases a.len(),
{
    if a.len() > 0 && b.len() > 0 && a[0] == b[0] {
        if a.drop_first() == b.drop_first() {
            assert(a =~= seq![a[0]] + a.drop_first());
            assert(b =~= seq![b[0]] + b.drop_first());
        }
        lemma_bytes_lt_total(a.drop_first(), b.drop_first());
    } else if a.len() == 0 && b.len() == 0 {
        assert(a =~= b);
    }
}

/// The key order is a strict total order.
pub proof fn lemma_key_lt_order()
    ensures
        forall|a: Seq<char>| !#[trigger] key_lt(a, a),
        forall|a: Seq<char>, b: Seq<char>, c: Seq<char>|
            #[trigger] key_lt(a, b) && #[trigger] key_lt(b, c) ==> key_lt(a, c),
        forall|a: Seq<char>, b: Seq<char>| a != b ==> #[trigger] key_lt(a, b) || #[trigger] key_lt(b, a),
{
    assert forall|a: Seq<char>| !#[trigger] key_lt(a, a) by {
        lemma_bytes_lt_irreflexive(encode_utf8(a));
    }
    assert forall|a: Seq<char>, b: Seq<char>, c: Seq<char>|
        #[trigger] key_lt(a, b) && #[trigger] key_lt(b, c) implies key_lt(a, c) by {
        lemma_bytes_lt_transitive(encode_utf8(a), encode_utf8(b), encode_utf8(c));
    }
    assert forall|a: Seq<char>, b: Seq<char>| a != b implies #[trigger] key_lt(a, b)
        || #[trigger] key_lt(b, a) by {
        encode_utf8_decode_utf8(a);
        encode_utf8_decode_utf8(b);
        lemma_bytes_lt_total(encode_utf8(a), encode_utf8(b));
    }
}

/// Whether `a` comes strictly before `b` in lexicographic byte order.
fn bytes_less(a: &[u8], b: &[u8]) -> (r: bool)
    ensures
        r == bytes_lt(a@, b@),
{
    let mut i: usize = 0;
    assert(a@.skip(0) =~= a@);
    assert(b@.skip(0) =~= b@);
    while i < a.len() && i < b.len()
        invariant
            i <= a@.len(),
            i <= b@.len(),
            bytes_lt(a@, b@) == bytes_lt(a@.skip(i as int), b@.skip(i as int)),
        decreases a@.len() - i,
    {
        assert(a@.skip(i as int)[0] == a@[i as int]);
        assert(b@.skip(i as int)[0] == b@[i as int]);
        if a[i] != b[i] {
            return a[i] < b[i];
        }
        assert(a@.skip(i as int).drop_first() =~= a@.skip(i + 1));
        assert(b@.skip(i as int).drop_first() =~= b@.skip(i + 1));
        i = i + 1;
    }
    i == a.len() && i < b.len()
}

/// Whether the key `a` comes strictly before the key `b`, as `String`s order.
pub fn key_less(a: &str, b: &str) -> (r: bool)
    ensures
        r == key_lt(a@, b@),
{
    bytes_less(a.as_bytes(), b.as_bytes())
}


/// Inserting into a sequence adds one occurrence to its multiset.
proof fn lemma_insert_to_multiset<A>(s: Seq<A>, p: int, x: A)
    requires
        0 <= p <= s.len(),
    ensures
        s.insert(p, x).to_multiset() =~= s.to_multiset().insert(x),
{
    broadcast use vstd::seq_lib::group_to_multiset_ensures;
    broadcast use vstd::multiset::group_multiset_axioms;

    let front = s.subrange(0, p);
    let back = s.subrange(p, s.len() as int);
    assert(s =~= front + back);
    lemma_multiset_commutative(front, back);
    lemma_multiset_commutative(front.push(x), back);
    assert(front.push(x).to_multiset() =~= front.to_multiset().insert(x));
}

/// Sorts keys that are all different into the order of `String`'s `Ord`.
pub(crate) fn sort_keys(keys: Vec<String>) -> (r: Vec<String>)
    requires
        texts(keys@).no_duplicates(),
    ensures
        texts(r@).to_multiset() == texts(keys@).to_multiset(),
        keys_sorted(texts(r@)),
{
    broadcast use vstd::seq_lib::group_to_multiset_ensures;
    broadcast use vstd::multiset::group_multiset_axioms;

    let ghost all = texts(keys@);
    let mut input = keys;
    let mut out: Vec<String> = Vec::new();
    proof {
        all.lemma_multiset_has_no_duplicates();
        assert(texts(out@) =~= Seq::<Seq<char>>::empty());
        assert(texts(out@).to_multiset().add(texts(input@).to_multiset()) =~= all.to_multiset());
    }
    while input.len() > 0
        invariant
            texts(out@).to_multiset().add(texts(input@).to_multiset()) == all.to_multiset(),
            keys_sorted(texts(out@)),
            forall|x: Seq<char>|
                all.to_multiset().contains(x) ==> all.to_multiset().count(x) == 1,
        decreases input@.len(),
    {
        proof {
            lemma_key_lt_order();
        }
        let ghost before = input@;
        let ghost out_before = texts(out@);
        let k = input.pop().unwrap();
        proof {
            assert(texts(before) =~= texts(input@).push(k@));
            let tb = texts(before);
            assert(before.len() > 0);
            assert(k == before[before.len() - 1]);
            assert(tb[tb.len() - 1] == k@);
            assert(tb.contains(k@));
            tb.to_multiset_ensures();
            texts(out@).to_multiset_ensures();
            assert(tb.to_multiset().count(k@) > 0);
            assert(all.to_multiset().count(k@) == texts(out@).to_multiset().count(k@)
                + tb.to_multiset().count(k@));
            assert(all.to_multiset().contains(k@));
            assert(texts(out@).to_multiset().count(k@) == 0);
            assert(!texts(out@).contains(k@));
        }
        let mut p: usize = 0;
        while p < out.len() && !key_less(k.as_str(), out[p].as_str())
            invariant
                p <= out@.len(),
                !texts(out@).contains(k@),
                forall|q: int| 0 <= q < p ==> key_lt(out@[q]@, k@),
                forall|a: Seq<char>, b: Seq<char>|
                    a != b ==> #[trigger] key_lt(a, b) || #[trigger] key_lt(b, a),
            decreases out@.len() - p,
        {
            assert(texts(out@)[p as int] == out@[p as int]@);
            p = p + 1;
        }
        let ghost old_out = texts(out@);
        assert(old_out == out_before);
        out.insert(p, k);
        proof {
            assert(texts(out@) =~= old_out.insert(p as int, k@));
            lemma_insert_to_multiset(old_out, p as int, k@);
            texts(input@).to_multiset_ensures();
            assert(texts(before).to_multiset() =~= texts(input@).to_multiset().insert(k@));
            assert(texts(out@).to_multiset().add(texts(input@).to_multiset()) =~= all.to_multiset());
            let t = texts(out@);
            assert forall|a: int, b: int| 0 <= a < b < t.len() implies key_lt(t[a], t[b]) by {
                if b < p {
                    assert(t[a] == old_out[a] && t[b] == old_out[b]);
                } else if b == p {
                    assert(t[a] == old_out[a]);
                } else if a == p {
                    assert(t[b] == old_out[b - 1]);
                    assert(key_lt(k@, old_out[p as int])) by {
                        assert(old_out[p as int] == out@[p as int + 1]@);
                    }
                    if b - 1 > p {
                        assert(key_lt(old_out[p as int], old_out[b - 1]));
                    }
                } else if a < p {
                    assert(t[a] == old_out[a] && t[b] == old_out[b - 1]);
                } else {
                    assert(t[a] == old_out[a - 1] && t[b] == old_out[b - 1]);
                }
            }
        }
    }
    assert(texts(input@) =~= Seq::<Seq<char>>::empty());
    out
}

} // verus!
