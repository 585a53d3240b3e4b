//! Ordered string-keyed collections: the order of `String` (byte-wise
//! lexicographic over UTF-8), and a vector kept sorted by key with unique keys,
//! which behaves as a `BTreeMap<String, _>` (or, with `()` values, a
//! `BTreeSet<String>`).
use vstd::prelude::*;

use vstd::utf8::encode_utf8;

verus! {

/// Byte-wise lexicographic order: a proper prefix comes first.
pub open spec fn bytes_lt(a: Seq<u8>, b: Seq<u8>) -> bool
    decreases a.len(),
{
    if a.len() == 0 {
        b.len() > 0
    } else if b.len() == 0 {
        false
    } else if a[0] != b[0] {
        a[0] < b[0]
    } else {
        bytes_lt(a.drop_first(), b.drop_first())
    }
}

/// The order of `String`: compare the UTF-8 bytes.
pub open spec fn key_lt(a: Seq<char>, b: Seq<char>) -> bool {
    bytes_lt(encode_utf8(a), encode_utf8(b))
}

proof fn lemma_bytes_lt_irrefl(a: Seq<u8>)
    ensures
        !bytes_lt(a, a),
    decreases a.len(),
{
    if a.len() > 0 {
        lemma_bytes_lt_irrefl(a.drop_first());
    }
}

proof fn lemma_bytes_lt_total(a: Seq<u8>, b: Seq<u8>)
    ensures
        a == b || bytes_lt(a, b) || bytes_lt(b, a),
    decreases a.len(),
{
    if a.len() > 0 && b.len() > 0 && a[0] == b[0] {
        lemma_bytes_lt_total(a.drop_first(), b.drop_first());
        if a.drop_first() == b.drop_first() {
            assert(a =~= seq![a[0]] + a.drop_first());
            assert(b =~= seq![b[0]] + b.drop_first());
        }
    } else if a.len() == 0 && b.len() == 0 {
        assert(a =~= b);
    }
}

proof fn lemma_bytes_lt_trans(a: Seq<u8>, b: Seq<u8>, c: Seq<u8>)
    requires
        bytes_lt(a, b),
        bytes_lt(b, c),
    ensures
        bytes_lt(a, c),
    decreases a.len(),
{
    if a.len() > 0 && b.len() > 0 && c.len() > 0 && a[0] == b[0] && b[0] == c[0] {
        lemma_bytes_lt_trans(a.drop_first(), b.drop_first(), c.drop_first());
    }
}

proof fn lemma_bytes_lt_asym(a: Seq<u8>, b: Seq<u8>)
    requires
        bytes_lt(a, b),
    ensures
        !bytes_lt(b, a),
        a != b,
{
    if bytes_lt(b, a) {
        lemma_bytes_lt_trans(a, b, a);
        lemma_bytes_lt_irrefl(a);
    }
    if a == b {
        lemma_bytes_lt_irrefl(a);
    }
}

/// `key_lt` is a strict total order on texts.
pub proof fn lemma_key_order(a: Seq<char>, b: Seq<char>, c: Seq<char>)
    ensures
        !key_lt(a, a),
        a == b || key_lt(a, b) || key_lt(b, a),
        key_lt(a, b) ==> !key_lt(b, a) && a != b,
        key_lt(a, b) && key_lt(b, c) ==> key_lt(a, c),
{
    lemma_bytes_lt_irrefl(encode_utf8(a));
    lemma_bytes_lt_total(encode_utf8(a), encode_utf8(b));
    if encode_utf8(a) == encode_utf8(b) {
        vstd::utf8::encode_utf8_decode_utf8(a);
        vstd::utf8::encode_utf8_decode_utf8(b);
    }
    if key_lt(a, b) {
        lemma_bytes_lt_asym(encode_utf8(a), encode_utf8(b));
    }
    if key_lt(a, b) && key_lt(b, c) {
        lemma_bytes_lt_trans(encode_utf8(a), encode_utf8(b), encode_utf8(c));
    }
}

/// Whether `a` sorts before `b` as `String`s do.
pub fn str_lt(a: &str, b: &str) -> (r: bool)
    ensures
        r == key_lt(a@, b@),
{
    let x = a.as_bytes();
    let y = b.as_bytes();
    let mut i: usize = 0;
    assert(x@.skip(0) =~= x@);
    assert(y@.skip(0) =~= y@);
    while i < x.len() && i < y.len() && x[i] == y[i]
        invariant
            i <= x.len(),
            i <= y.len(),
            bytes_lt(x@, y@) == bytes_lt(x@.skip(i as int), y@.skip(i as int)),
        decreases x.len() - i,
    {
        assert(x@.skip(i as int).drop_first() =~= x@.skip(i + 1));
        assert(y@.skip(i as int).drop_first() =~= y@.skip(i + 1));
        i = i + 1;
    }
    if i == x.len() {
        i < y.len()
    } else if i == y.len() {
        false
    } else {
        x[i] < y[i]
    }
}

/// The key texts of a keyed vector.
pub open spec fn keys_of<V>(m: Seq<(String, V)>) -> Seq<Seq<char>> {
    m.map_values(|e: (String, V)| e.0@)
}

/// Keys strictly increase: sorted, and no key twice.
pub open spec fn keys_sorted(ks: Seq<Seq<char>>) -> bool {
    forall|i: int, j: int| 0 <= i < j < ks.len() ==> key_lt(#[trigger] ks[i], #[trigger] ks[j])
}

/// A keyed vector read as a map from key text to value.
pub open spec fn as_map<V>(m: Seq<(String, V)>) -> Map<Seq<char>, V> {
    Map::new(
        |k: Seq<char>| exists|i: int| 0 <= i < m.len() && m[i].0@ == k,
        |k: Seq<char>| m[choose|i: int| 0 <= i < m.len() && m[i].0@ == k].1,
    )
}

pub proof fn lemma_sorted_unique<V>(m: Seq<(String, V)>, i: int, j: int)
    requires
        keys_sorted(keys_of(m)),
        0 <= i < m.len(),
        0 <= j < m.len(),
        m[i].0@ == m[j].0@,
    ensures
        i == j,
{
    if i < j {
        assert(key_lt(keys_of(m)[i], keys_of(m)[j]));
        lemma_key_order(m[i].0@, m[j].0@, m[j].0@);
    } else if j < i {
        assert(key_lt(keys_of(m)[j], keys_of(m)[i]));
        lemma_key_order(m[j].0@, m[i].0@, m[i].0@);
    }
}

/// In a sorted keyed vector, the map has each entry's value at its key.
pub proof fn lemma_as_map_at<V>(m: Seq<(String, V)>, i: int)
    requires
        keys_sorted(keys_of(m)),
        0 <= i < m.len(),
    ensures
        as_map(m).contains_key(m[i].0@),
        as_map(m)[m[i].0@] == m[i].1,
{
    assert forall|key: Seq<char>| #[trigger] as_map(m).contains_key(key) && key == m[i].0@ implies as_map(m)[key] == m[i].1 by {
        let j = choose|j: int| 0 <= j < m.len() && m[j].0@ == key;
        lemma_sorted_unique(m, j, i);
    }
    assert(m[i].0@ == m[i].0@);
    assert(as_map(m).contains_key(m[i].0@));
}

/// Insert into a vector kept sorted by key (unique keys), as `BTreeMap::insert`
/// does: an entry with the same key has its value replaced, otherwise the
/// entry goes in its sorted place.
pub fn sorted_insert<V>(m: &mut Vec<(String, V)>, k: String, v: V)
    requires
        keys_sorted(keys_of(old(m)@)),
    ensures
        keys_sorted(keys_of(final(m)@)),
        as_map(final(m)@) == as_map(old(m)@).insert(k@, v),
{
    let mut i: usize = 0;
    while i < m.len() && str_lt(m[i].0.as_str(), k.as_str())
        invariant
            i <= m.len(),
            m@ == old(m)@,
            keys_sorted(keys_of(m@)),
            forall|j: int| 0 <= j < i ==> key_lt(#[trigger] m@[j].0@, k@),
        decreases m.len() - i,
    {
        i = i + 1;
    }
    let ghost om = m@;
    if i < m.len() && m[i].0 == k {
        m.set(i, (k, v));
        proof {
            assert(keys_of(m@) =~= keys_of(om));
            assert forall|key: Seq<char>| #[trigger] as_map(m@).contains_key(key) == as_map(om).insert(k@, v).contains_key(key) by {
                if key == k@ {
                    assert(m@[i as int].0@ == key);
                } else if as_map(om).contains_key(key) {
                    let j = choose|j: int| 0 <= j < om.len() && om[j].0@ == key;
                    assert(m@[j].0@ == key);
                } else if as_map(m@).contains_key(key) {
                    let j = choose|j: int| 0 <= j < m@.len() && m@[j].0@ == key;
                    assert(om[j].0@ == key);
                }
            }
            assert forall|key: Seq<char>| #[trigger] as_map(m@).contains_key(key) implies as_map(m@)[key] == as_map(om).insert(k@, v)[key] by {
                let j = choose|j: int| 0 <= j < m@.len() && m@[j].0@ == key;
                if key != k@ {
                    let j2 = choose|j2: int| 0 <= j2 < om.len() && om[j2].0@ == key;
                    assert(m@[j2].0@ == key);
                    lemma_sorted_unique(m@, j, j2);
                } else {
                    lemma_sorted_unique(m@, j, i as int);
                }
            }
            assert(as_map(m@) =~= as_map(om).insert(k@, v));
        }
    } else {
        proof {
            if i < om.len() {
                lemma_key_order(om[i as int].0@, k@, k@);
            }
        }
        m.insert(i, (k, v));
        proof {
            let nm = m@;
            assert forall|a: int, b: int| 0 <= a < b < nm.len() implies key_lt(#[trigger] keys_of(nm)[a], #[trigger] keys_of(nm)[b]) by {
                if b < i {
                    assert(keys_of(om)[a] == keys_of(nm)[a] && keys_of(om)[b] == keys_of(nm)[b]);
                } else if b == i {
                    assert(nm[b].0@ == k@);
                    assert(nm[a] == om[a]);
                } else if a > i {
                    assert(nm[a] == om[a - 1] && nm[b] == om[b - 1]);
                    assert(key_lt(keys_of(om)[a - 1], keys_of(om)[b - 1]));
                } else if a == i {
                    assert(nm[b] == om[b - 1]);
                    if b - 1 > i {
                        assert(key_lt(keys_of(om)[i as int], keys_of(om)[b - 1]));
                        lemma_key_order(k@, om[i as int].0@, om[b - 1].0@);
                    }
                } else {
                    assert(nm[a] == om[a] && nm[b] == om[b - 1]);
                    assert(key_lt(om[a].0@, k@));
                    if b - 1 > i {
                        assert(key_lt(keys_of(om)[i as int], keys_of(om)[b - 1]));
                        lemma_key_order(k@, om[i as int].0@, om[b - 1].0@);
                    }
                    lemma_key_order(om[a].0@, k@, om[b - 1].0@);
                }
            }
            assert forall|key: Seq<char>| #[trigger] as_map(nm).contains_key(key) == as_map(om).insert(k@, v).contains_key(key) by {
                if key == k@ {
                    assert(nm[i as int].0@ == key);
                } else if as_map(om).contains_key(key) {
                    let j = choose|j: int| 0 <= j < om.len() && om[j].0@ == key;
                    if j < i {
                        assert(nm[j].0@ == key);
                    } else {
                        assert(nm[j + 1].0@ == key);
                    }
                } else if as_map(nm).contains_key(key) {
                    let j = choose|j: int| 0 <= j < nm.len() && nm[j].0@ == key;
                    if j < i {
                        assert(om[j].0@ == key);
                    } else if j > i {
                        assert(om[j - 1].0@ == key);
                    }
                }
            }
            assert forall|key: Seq<char>| #[trigger] as_map(nm).contains_key(key) implies as_map(nm)[key] == as_map(om).insert(k@, v)[key] by {
                let j = choose|j: int| 0 <= j < nm.len() && nm[j].0@ == key;
                if key == k@ {
                    lemma_sorted_unique(nm, j, i as int);
                } else {
                    let j2 = choose|j2: int| 0 <= j2 < om.len() && om[j2].0@ == key;
                    let j3 = if j2 < i {
                        j2
                    } else {
                        j2 + 1
                    };
                    assert(nm[j3] == om[j2]);
                    lemma_sorted_unique(nm, j, j3);
                }
            }
            assert(as_map(nm) =~= as_map(om).insert(k@, v));
        }
    }
}

} // verus!
