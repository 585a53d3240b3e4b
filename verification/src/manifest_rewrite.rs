//! manifest_rewrite: what a manifest reads back as after one ref hash swap.
use vstd::prelude::*;

use crate::confseq::{fields_spec, WireVal};
use crate::manifest::{
    lemma_replace_scan_len, lemma_scan_windows, manifest_decode_spec, manifest_fold, parse_pairs,
    parse_ref_hash, ref_hash_fold, replace_scan, rewrite_spec, HashParse, ManifestView,
    RewriteOutcome,
};
use crate::spans::{fields_in, in_a_value, lemma_fields_substitute, lemma_spans_shape, spans_from};
use crate::text::{hex_char, hex_lower, lemma_hex_lower_shape};
use vstd::utf8::encode_utf8;

verus! {

/// A ref hash text after the swap of `old` for `new`.
pub open spec fn swapped(h: Seq<char>, old: Seq<u8>, new: Seq<u8>) -> Seq<char> {
    if h == hex_lower(old) {
        hex_lower(new)
    } else {
        h
    }
}

/// `12 14` and then the 20 bytes `old` start at `w` in `raw`.
pub open spec fn hash_window(raw: Seq<u8>, w: int, old: Seq<u8>) -> bool {
    &&& 0 <= w
    &&& w + 22 <= raw.len()
    &&& raw[w] == 0x12
    &&& raw[w + 1] == 0x14
    &&& raw.subrange(w + 2, w + 22) == old
}

proof fn lemma_hex_char_injective(a: u8, b: u8)
    requires
        a < 16,
        b < 16,
        hex_char(a) == hex_char(b),
    ensures
        a == b,
{
}

/// Different bytes have different hex texts.
proof fn lemma_hex_lower_injective(a: Seq<u8>, b: Seq<u8>)
    requires
        hex_lower(a) == hex_lower(b),
    ensures
        a == b,
    decreases a.len(),
{
    lemma_hex_lower_shape(a);
    lemma_hex_lower_shape(b);
    if a.len() > 0 {
        let ha = hex_lower(a.drop_last());
        let hb = hex_lower(b.drop_last());
        lemma_hex_lower_shape(a.drop_last());
        lemma_hex_lower_shape(b.drop_last());
        let x = a.last();
        let y = b.last();
        assert(hex_lower(a) == ha + seq![hex_char(x / 16), hex_char(x % 16)]);
        assert(hex_lower(b) == hb + seq![hex_char(y / 16), hex_char(y % 16)]);
        assert(hex_lower(a)[ha.len() as int] == hex_char(x / 16));
        assert(hex_lower(b)[ha.len() as int] == hex_char(y / 16));
        assert(hex_lower(a)[ha.len() as int + 1] == hex_char(x % 16));
        assert(hex_lower(b)[ha.len() as int + 1] == hex_char(y % 16));
        lemma_hex_char_injective(x / 16, y / 16);
        lemma_hex_char_injective(x % 16, y % 16);
        assert(ha =~= hex_lower(a).subrange(0, ha.len() as int));
        assert(hb =~= hex_lower(b).subrange(0, ha.len() as int));
        lemma_hex_lower_injective(a.drop_last(), b.drop_last());
        assert(a =~= a.drop_last().push(x));
        assert(b =~= b.drop_last().push(y));
    }
}

/// A scan that reaches a window with no earlier window overlapping it swaps
/// that window.
proof fn lemma_scan_hits(o: Seq<u8>, i: int, old: Seq<u8>, new: Seq<u8>, w: int)
    requires
        0 <= i <= w,
        new.len() == 20,
        hash_window(o, w, old),
        forall|p: int| i <= p < w && #[trigger] hash_window(o, p, old) ==> p + 22 <= w,
    ensures
        replace_scan(o, i, old, new).subrange(w + 2, w + 22) == new,
    decreases w - i,
{
    if o[i] == 0x12 && o[i + 1] == 0x14 && o.subrange(i + 2, i + 22) == old {
        let o2 = o.subrange(0, i + 2) + new + o.subrange(i + 22, o.len() as int);
        assert(o2.len() == o.len());
        if i == w {
            lemma_replace_scan_len(o2, i + 22, old, new);
            assert forall|j: int| w + 2 <= j < w + 22 implies #[trigger] replace_scan(o2, i + 22, old, new)[j] == new[j - w - 2] by {
                if replace_scan(o2, i + 22, old, new)[j] != o2[j] {
                    lemma_scan_windows(o2, i + 22, old, new, j);
                }
            }
            assert(replace_scan(o2, i + 22, old, new).subrange(w + 2, w + 22) =~= new);
        } else {
            assert(hash_window(o, i, old));
            assert forall|q: int| i + 22 <= q < o.len() implies o2[q] == o[q] by {}
            assert(o2.subrange(w + 2, w + 22) =~= o.subrange(w + 2, w + 22));
            assert forall|p: int| i + 22 <= p < w && #[trigger] hash_window(o2, p, old) implies p + 22 <= w by {
                assert(o2.subrange(p + 2, p + 22) =~= o.subrange(p + 2, p + 22));
                assert(hash_window(o, p, old));
            }
            lemma_scan_hits(o2, i + 22, old, new, w);
        }
    } else {
        lemma_scan_hits(o, i + 1, old, new, w);
    }
}

/// The index of the field a ref's hash is read from: its last
/// length-delimited field 2 (-1 when it has none).
pub open spec fn last_hash_index(rfs: Seq<(u32, WireVal)>) -> int
    decreases rfs.len(),
{
    if rfs.len() == 0 {
        -1
    } else {
        let r = last_hash_index(rfs.drop_first());
        if r >= 0 {
            r + 1
        } else if rfs[0].0 == 2 && rfs[0].1 is Len {
            0
        } else {
            -1
        }
    }
}

/// A ref's hash text is the hex of its last field 2, or what the reading
/// started from when it has none.
proof fn lemma_last_hash(rfs: Seq<(u32, WireVal)>, acc: Seq<char>)
    ensures
        last_hash_index(rfs) < rfs.len(),
        last_hash_index(rfs) >= 0 ==> rfs[last_hash_index(rfs)].0 == 2 && rfs[last_hash_index(rfs)].1 is Len,
        ref_hash_fold(rfs, acc) == (if last_hash_index(rfs) >= 0 {
            hex_lower(rfs[last_hash_index(rfs)].1->Len_0)
        } else {
            acc
        }),
    decreases rfs.len(),
{
    if rfs.len() > 0 {
        let nacc = if rfs[0].0 == 2 && rfs[0].1 is Len { hex_lower(rfs[0].1->Len_0) } else { acc };
        lemma_last_hash(rfs.drop_first(), nacc);
        let r = last_hash_index(rfs.drop_first());
        if r >= 0 {
            assert(rfs.drop_first()[r] == rfs[r + 1]);
        }
    }
}

/// Field lists with the same field numbers and kinds read their hash from the
/// same index.
proof fn lemma_last_hash_same(rfs: Seq<(u32, WireVal)>, rfs2: Seq<(u32, WireVal)>)
    requires
        rfs2.len() == rfs.len(),
        forall|u: int|
            0 <= u < rfs.len() ==> (#[trigger] rfs2[u]).0 == rfs[u].0 && (rfs[u].1 is Len <==> rfs2[u].1 is Len),
    ensures
        last_hash_index(rfs2) == last_hash_index(rfs),
    decreases rfs.len(),
{
    if rfs.len() > 0 {
        assert forall|u: int| 0 <= u < rfs.len() - 1 implies (#[trigger] rfs2.drop_first()[u]).0 == rfs.drop_first()[u].0
            && (rfs.drop_first()[u].1 is Len <==> rfs2.drop_first()[u].1 is Len) by {
            assert(rfs2.drop_first()[u] == rfs2[u + 1]);
            assert(rfs.drop_first()[u] == rfs[u + 1]);
        }
        assert(rfs2[0].0 == rfs[0].0);
        lemma_last_hash_same(rfs.drop_first(), rfs2.drop_first());
    }
}

/// Two manifests' reads agree but for refs, which are swapped.
pub open spec fn swapped_manifest(m: ManifestView, m2: ManifestView, old: Seq<u8>, new: Seq<u8>) -> bool {
    &&& m2.version == m.version
    &&& m2.name == m.name
    &&& m2.carrier_id == m.carrier_id
    &&& m2.refs == m.refs.map_values(|h: Seq<char>| swapped(h, old, new))
}

/// Two top-level fields read alike but for the ref hashes, which are swapped.
pub open spec fn fields_related(f: (u32, WireVal), f2: (u32, WireVal), old: Seq<u8>, new: Seq<u8>) -> bool {
    &&& f2.0 == f.0
    &&& (f.1 is Var ==> f2.1 == f.1)
    &&& (f.1 is Len ==> f2.1 is Len)
    &&& ((f.0 == 1 || f.0 == 2) && f.1 is Len) ==> f2.1 == f.1
    &&& (f.0 == 5 && f.1 is Len && fields_spec(f.1->Len_0) is Ok) ==> (fields_spec(f2.1->Len_0) matches Ok(
        rfs2,
    ) && ref_hash_fold(rfs2, Seq::empty()) == swapped(
        ref_hash_fold(fields_spec(f.1->Len_0)->Ok_0, Seq::empty()),
        old,
        new,
    ))
}

proof fn lemma_manifest_fold(
    fs: Seq<(u32, WireVal)>,
    fs2: Seq<(u32, WireVal)>,
    acc: ManifestView,
    acc2: ManifestView,
    old: Seq<u8>,
    new: Seq<u8>,
)
    requires
        fs2.len() == fs.len(),
        forall|t: int| 0 <= t < fs.len() ==> fields_related(#[trigger] fs[t], fs2[t], old, new),
        swapped_manifest(acc, acc2, old, new),
    ensures
        manifest_fold(fs, acc) matches Ok(m) ==> (manifest_fold(fs2, acc2) matches Ok(m2)
            && swapped_manifest(m, m2, old, new)),
    decreases fs.len(),
{
    if fs.len() > 0 {
        assert forall|t: int| 0 <= t < fs.len() - 1 implies fields_related(
            #[trigger] fs.drop_first()[t],
            fs2.drop_first()[t],
            old,
            new,
        ) by {
            assert(fs.drop_first()[t] == fs[t + 1]);
            assert(fs2.drop_first()[t] == fs2[t + 1]);
        }
        let f = fs[0];
        let f2 = fs2[0];
        assert(fields_related(f, f2, old, new));
        if f.0 == 1 && f.1 is Len {
            lemma_manifest_fold(
                fs.drop_first(),
                fs2.drop_first(),
                ManifestView { version: crate::confseq::lossy_text(f.1->Len_0), ..acc },
                ManifestView { version: crate::confseq::lossy_text(f2.1->Len_0), ..acc2 },
                old,
                new,
            );
        } else if f.0 == 2 && f.1 is Len {
            lemma_manifest_fold(
                fs.drop_first(),
                fs2.drop_first(),
                ManifestView { name: crate::confseq::lossy_text(f.1->Len_0), ..acc },
                ManifestView { name: crate::confseq::lossy_text(f2.1->Len_0), ..acc2 },
                old,
                new,
            );
        } else if f.0 == 3 && f.1 is Var {
            lemma_manifest_fold(
                fs.drop_first(),
                fs2.drop_first(),
                ManifestView { carrier_id: f.1->Var_0 as u32, ..acc },
                ManifestView { carrier_id: f2.1->Var_0 as u32, ..acc2 },
                old,
                new,
            );
        } else if f.0 == 5 && f.1 is Len {
            if let Ok(rfs) = fields_spec(f.1->Len_0) {
                let rfs2 = fields_spec(f2.1->Len_0)->Ok_0;
                let h = ref_hash_fold(rfs, Seq::empty());
                let a1 = ManifestView { refs: acc.refs.push(h), ..acc };
                let a2 = ManifestView { refs: acc2.refs.push(ref_hash_fold(rfs2, Seq::empty())), ..acc2 };
                assert(a2.refs =~= a1.refs.map_values(|h: Seq<char>| swapped(h, old, new)));
                lemma_manifest_fold(fs.drop_first(), fs2.drop_first(), a1, a2, old, new);
            }
        } else {
            lemma_manifest_fold(fs.drop_first(), fs2.drop_first(), acc, acc2, old, new);
        }
    }
}


/// The value of the `t`-th top-level field of the manifest `raw` (for a
/// length-delimited field).
pub open spec fn payload(raw: Seq<u8>, t: int) -> Seq<u8> {
    fields_spec(raw)->Ok_0[t].1->Len_0
}

/// `w` is where a ref's hash field lies in the manifest `raw`: the `t`-th
/// top-level field is a length-delimited field 5 (a ref), its `u`-th field is
/// a length-delimited field 2, and that field's tag starts at `w`.
pub open spec fn ref_hash_field(raw: Seq<u8>, t: int, u: int, w: int) -> bool {
    &&& fields_spec(raw) matches Ok(fs)
    &&& 0 <= t < fs.len()
    &&& fs[t].0 == 5
    &&& fs[t].1 is Len
    &&& fields_spec(payload(raw, t)) matches Ok(rfs)
    &&& 0 <= u < rfs.len()
    &&& rfs[u].0 == 2
    &&& rfs[u].1 is Len
    &&& w == spans_from(raw, 0)[t].1 + spans_from(payload(raw, t), 0)[u].0
}

/// The bytes that ref hash field holds.
pub open spec fn hash_value(raw: Seq<u8>, t: int, u: int) -> Seq<u8> {
    fields_spec(payload(raw, t))->Ok_0[u].1->Len_0
}

/// That ref hash field is written in the short form: a one-byte tag and a
/// one-byte length, then 20 bytes.
pub open spec fn short_hash_field(raw: Seq<u8>, t: int, u: int, w: int) -> bool {
    let r = spans_from(payload(raw, t), 0)[u];
    &&& ref_hash_field(raw, t, u, w)
    &&& r.1 == r.0 + 2
    &&& r.2 == r.0 + 22
}

/// Where a ref hash field and its value lie in the manifest.
proof fn lemma_field_extent(raw: Seq<u8>, t: int, u: int, w: int)
    requires
        ref_hash_field(raw, t, u, w),
    ensures
        ({
            let sp = spans_from(raw, 0);
            let r = spans_from(payload(raw, t), 0)[u];
            &&& 0 <= sp[t].1 <= sp[t].2 <= raw.len()
            &&& payload(raw, t) == raw.subrange(sp[t].1, sp[t].2)
            &&& 0 <= r.0 < r.1 <= r.2 <= payload(raw, t).len()
            &&& w == sp[t].1 + r.0
            &&& hash_value(raw, t, u) == raw.subrange(sp[t].1 + r.1, sp[t].1 + r.2)
        }),
{
    let sp = spans_from(raw, 0);
    let p = payload(raw, t);
    lemma_spans_shape(raw, 0);
    lemma_spans_shape(p, 0);
    let fs = fields_spec(raw)->Ok_0;
    assert(fs[t].1 matches WireVal::Len(v) ==> v == raw.subrange(sp[t].1, sp[t].2));
    let rfs = fields_spec(p)->Ok_0;
    let r = spans_from(p, 0)[u];
    assert(rfs[u].1 matches WireVal::Len(v) ==> v == p.subrange(r.1, r.2));
    assert(hash_value(raw, t, u) =~= raw.subrange(sp[t].1 + r.1, sp[t].1 + r.2));
}

/// Two different top-level fields' values do not share a byte.
proof fn lemma_top_values_apart(raw: Seq<u8>, t: int, t2: int, j: int)
    requires
        0 <= t < spans_from(raw, 0).len(),
        0 <= t2 < spans_from(raw, 0).len(),
        spans_from(raw, 0)[t].1 <= j < spans_from(raw, 0)[t].2,
        spans_from(raw, 0)[t2].1 <= j < spans_from(raw, 0)[t2].2,
    ensures
        t == t2,
{
    lemma_spans_shape(raw, 0);
    let sp = spans_from(raw, 0);
    if t < t2 {
        assert(sp[t].2 <= sp[t2].0);
    } else if t2 < t {
        assert(sp[t2].2 <= sp[t].0);
    }
}

/// Two different ref hash fields lie apart, tag to end of value.
proof fn lemma_fields_apart(raw: Seq<u8>, t: int, u: int, w: int, t2: int, u2: int, w2: int)
    requires
        ref_hash_field(raw, t, u, w),
        ref_hash_field(raw, t2, u2, w2),
        t != t2 || u != u2,
    ensures
        spans_from(raw, 0)[t].1 + spans_from(payload(raw, t), 0)[u].2 <= w2 || spans_from(raw, 0)[t2].1
            + spans_from(payload(raw, t2), 0)[u2].2 <= w,
{
    lemma_field_extent(raw, t, u, w);
    lemma_field_extent(raw, t2, u2, w2);
    lemma_spans_shape(raw, 0);
    let sp = spans_from(raw, 0);
    if t == t2 {
        lemma_spans_shape(payload(raw, t), 0);
        let rs = spans_from(payload(raw, t), 0);
        if u < u2 {
            assert(rs[u].2 <= rs[u2].0);
        } else {
            assert(rs[u2].2 <= rs[u].0);
        }
    } else if t < t2 {
        assert(sp[t].2 <= sp[t2].0);
    } else {
        assert(sp[t2].2 <= sp[t].0);
    }
}


/// Every `12 14 <old>` window of `raw` is a ref's hash field in the short
/// form, holding those 20 bytes.
pub open spec fn windows_are_ref_hashes(raw: Seq<u8>, old: Seq<u8>) -> bool {
    forall|w: int|
        #[trigger] hash_window(raw, w, old) ==> exists|t: int, u: int| #[trigger] short_hash_field(raw, t, u, w)
}

/// That ref hash field is the one decoding reads the ref's hash from: the
/// last field 2 of the ref.
pub open spec fn read_hash_field(raw: Seq<u8>, t: int, u: int, w: int) -> bool {
    &&& ref_hash_field(raw, t, u, w)
    &&& u == last_hash_index(fields_spec(payload(raw, t))->Ok_0)
}

/// Every ref hash field that decoding reads and that holds `old` is written
/// `12 14 <old>`.
pub open spec fn old_refs_in_short_form(raw: Seq<u8>, old: Seq<u8>) -> bool {
    forall|t: int, u: int, w: int|
        #[trigger] read_hash_field(raw, t, u, w) && hash_value(raw, t, u) == old ==> short_hash_field(
            raw,
            t,
            u,
            w,
        ) && raw[w] == 0x12 && raw[w + 1] == 0x14
}

/// A byte the swap changes lies in the value of a short-form ref hash field
/// that held `old`.
proof fn lemma_changed_in_field(raw: Seq<u8>, old: Seq<u8>, new: Seq<u8>, j: int) -> (tuw: (int, int, int))
    requires
        windows_are_ref_hashes(raw, old),
        0 <= j < raw.len(),
        replace_scan(raw, 0, old, new)[j] != raw[j],
    ensures
        short_hash_field(raw, tuw.0, tuw.1, tuw.2),
        hash_window(raw, tuw.2, old),
        tuw.2 + 2 <= j < tuw.2 + 22,
{
    lemma_scan_windows(raw, 0, old, new, j);
    let w = choose|w: int|
        #![trigger raw.subrange(w + 2, w + 22)]
        0 <= w && w + 22 <= raw.len() && raw[w] == 0x12 && raw[w + 1] == 0x14 && raw.subrange(
            w + 2,
            w + 22,
        ) == old && w + 2 <= j < w + 22;
    assert(hash_window(raw, w, old));
    let (t, u) = choose|t: int, u: int| short_hash_field(raw, t, u, w);
    (t, u, w)
}

/// The hash a ref hash field holds after the swap: `new` where it held `old`,
/// else what it held.
proof fn lemma_hash_swapped(raw: Seq<u8>, old: Seq<u8>, new: Seq<u8>, t: int, u: int, w: int)
    requires
        old.len() == 20,
        new.len() == 20,
        windows_are_ref_hashes(raw, old),
        old_refs_in_short_form(raw, old),
        read_hash_field(raw, t, u, w),
    ensures
        ({
            let sp = spans_from(raw, 0);
            let r = spans_from(payload(raw, t), 0)[u];
            let out = replace_scan(raw, 0, old, new);
            hex_lower(out.subrange(sp[t].1 + r.1, sp[t].1 + r.2)) == swapped(
                hex_lower(hash_value(raw, t, u)),
                old,
                new,
            )
        }),
{
    let sp = spans_from(raw, 0);
    let r = spans_from(payload(raw, t), 0)[u];
    let out = replace_scan(raw, 0, old, new);
    lemma_replace_scan_len(raw, 0, old, new);
    lemma_field_extent(raw, t, u, w);
    let v = hash_value(raw, t, u);
    let v2 = out.subrange(sp[t].1 + r.1, sp[t].1 + r.2);
    if v == old {
        assert(short_hash_field(raw, t, u, w));
        assert(raw.subrange(w + 2, w + 22) =~= v);
        assert(hash_window(raw, w, old));
        assert forall|q: int| 0 <= q < w && #[trigger] hash_window(raw, q, old) implies q + 22 <= w by {
            let (t2, u2) = choose|t2: int, u2: int| short_hash_field(raw, t2, u2, q);
            lemma_fields_apart(raw, t, u, w, t2, u2, q);
        }
        lemma_scan_hits(raw, 0, old, new, w);
        assert(v2 =~= out.subrange(w + 2, w + 22));
    } else {
        assert forall|j: int| sp[t].1 + r.1 <= j < sp[t].1 + r.2 implies out[j] == raw[j] by {
            if out[j] != raw[j] {
                let (t2, u2, w2) = lemma_changed_in_field(raw, old, new, j);
                if t2 != t || u2 != u {
                    lemma_fields_apart(raw, t, u, w, t2, u2, w2);
                } else {
                    assert(raw.subrange(w + 2, w + 22) =~= v);
                }
            }
        }
        assert(v2 =~= v);
        if hex_lower(v) == hex_lower(old) {
            lemma_hex_lower_injective(v, old);
        }
    }
}


/// Each top-level field of the manifest reads alike after the swap, but for
/// the ref hashes, which are swapped.
proof fn lemma_field_related(raw: Seq<u8>, old: Seq<u8>, new: Seq<u8>, t: int)
    requires
        old.len() == 20,
        new.len() == 20,
        windows_are_ref_hashes(raw, old),
        old_refs_in_short_form(raw, old),
        fields_spec(raw) matches Ok(fs) && 0 <= t < fs.len(),
    ensures
        fields_related(
            fields_spec(raw)->Ok_0[t],
            fields_in(fields_spec(raw)->Ok_0, spans_from(raw, 0), replace_scan(raw, 0, old, new))[t],
            old,
            new,
        ),
{
    let out = replace_scan(raw, 0, old, new);
    let fs = fields_spec(raw)->Ok_0;
    let sp = spans_from(raw, 0);
    let fs2 = fields_in(fs, sp, out);
    lemma_replace_scan_len(raw, 0, old, new);
    lemma_spans_shape(raw, 0);
    let f = fs[t];
    let f2 = fs2[t];
    if f.1 is Len {
        let v = f.1->Len_0;
        assert(v == raw.subrange(sp[t].1, sp[t].2));
        let v2 = out.subrange(sp[t].1, sp[t].2);
        assert(f2.1 == WireVal::Len(v2));
        if f.0 == 1 || f.0 == 2 {
            assert forall|j: int| sp[t].1 <= j < sp[t].2 implies out[j] == raw[j] by {
                if out[j] != raw[j] {
                    let (t2, u2, w2) = lemma_changed_in_field(raw, old, new, j);
                    lemma_field_extent(raw, t2, u2, w2);
                    lemma_top_values_apart(raw, t, t2, j);
                }
            }
            assert(v2 =~= v);
        } else if f.0 == 5 && fields_spec(v) is Ok {
            let rfs = fields_spec(v)->Ok_0;
            let rsp = spans_from(v, 0);
            lemma_spans_shape(v, 0);
            assert(payload(raw, t) == v);
            assert forall|q: int| 0 <= q < v.len() && v[q] != v2[q] implies in_a_value(rsp, q) by {
                let j = sp[t].1 + q;
                assert(out[j] != raw[j]);
                let (t2, u2, w2) = lemma_changed_in_field(raw, old, new, j);
                lemma_field_extent(raw, t2, u2, w2);
                lemma_top_values_apart(raw, t, t2, j);
                assert(rsp[u2].1 <= q < rsp[u2].2);
            }
            lemma_fields_substitute(v, v2, 0);
            let rfs2 = fields_in(rfs, rsp, v2);
            assert forall|u: int| 0 <= u < rfs.len() implies (#[trigger] rfs2[u]).0 == rfs[u].0 && (
            rfs[u].1 is Len <==> rfs2[u].1 is Len) by {}
            lemma_last_hash_same(rfs, rfs2);
            lemma_last_hash(rfs, Seq::empty());
            lemma_last_hash(rfs2, Seq::empty());
            let u = last_hash_index(rfs);
            if u >= 0 {
                let w = sp[t].1 + rsp[u].0;
                assert(read_hash_field(raw, t, u, w));
                lemma_field_extent(raw, t, u, w);
                lemma_hash_swapped(raw, old, new, t, u, w);
                assert(rfs2[u].1->Len_0 =~= out.subrange(sp[t].1 + rsp[u].1, sp[t].1 + rsp[u].2));
            } else {
                lemma_hex_lower_shape(old);
                assert(swapped(Seq::empty(), old, new) == Seq::<char>::empty());
            }
        }
    }
}

/// Swapping one ref hash in a manifest's bytes swaps it in the manifest read
/// back, and nothing else. Take a manifest that decodes, where every `12 14
/// <old>` window is a ref's hash field holding those 20 bytes, and every ref
/// hash field that decoding reads (a ref's last field 2) and that holds `old`
/// is written that way. One swap pass of `old` for
/// `new` gives bytes that decode to the same version, name and carrier id, and
/// to the same refs, each ref whose hash was `old` now `new`.
pub proof fn law_swap_rewrites_only_old_refs(raw: Seq<u8>, old: Seq<u8>, new: Seq<u8>)
    requires
        manifest_decode_spec(raw) is Ok,
        old.len() == 20,
        new.len() == 20,
        windows_are_ref_hashes(raw, old),
        old_refs_in_short_form(raw, old),
    ensures
        manifest_decode_spec(replace_scan(raw, 0, old, new)) matches Ok(after) && swapped_manifest(
            manifest_decode_spec(raw)->Ok_0,
            after,
            old,
            new,
        ),
{
    let out = replace_scan(raw, 0, old, new);
    lemma_replace_scan_len(raw, 0, old, new);
    let fs = fields_spec(raw)->Ok_0;
    let sp = spans_from(raw, 0);
    lemma_spans_shape(raw, 0);
    assert forall|j: int| 0 <= j < raw.len() && raw[j] != out[j] implies in_a_value(sp, j) by {
        let (t, u, w) = lemma_changed_in_field(raw, old, new, j);
        lemma_field_extent(raw, t, u, w);
        assert(sp[t].1 <= j < sp[t].2);
    }
    lemma_fields_substitute(raw, out, 0);
    let fs2 = fields_in(fs, sp, out);
    assert forall|t: int| 0 <= t < fs.len() implies fields_related(#[trigger] fs[t], fs2[t], old, new) by {
        lemma_field_related(raw, old, new, t);
    }
    let e = crate::manifest::empty_manifest();
    assert(e.refs.map_values(|h: Seq<char>| swapped(h, old, new)) =~= e.refs);
    lemma_manifest_fold(fs, fs2, e, e, old, new);
}


proof fn lemma_parse_pairs_len(b: Seq<u8>, k: int, acc: Seq<u8>)
    requires
        0 <= k <= 20,
    ensures
        parse_pairs(b, k, acc) matches HashParse::Bytes(r) ==> r.len() == acc.len() + 20 - k,
    decreases 20 - k,
{
    if k < 20 {
        if let Some(v) = crate::manifest::pair_value(b[2 * k], b[2 * k + 1]) {
            lemma_parse_pairs_len(b, k + 1, acc.push(v));
        }
    }
}

/// Rewriting a manifest with the one remap entry `o -> n` reads back as the
/// swap. Take a manifest that decodes and two hash texts that parse, where
/// every `12 14 <o's bytes>` window is a ref's hash field holding those bytes
/// and every ref hash field that decoding reads and that holds them is
/// written that way: the rewrite
/// succeeds, and its bytes decode to the same version, name and carrier id,
/// and to the same refs, each ref whose hash was `o`'s bytes now `n`'s.
pub proof fn law_one_entry_rewrite_reads_back(raw: Seq<u8>, o: Seq<char>, n: Seq<char>)
    requires
        manifest_decode_spec(raw) is Ok,
        parse_ref_hash(encode_utf8(o)) is Bytes,
        parse_ref_hash(encode_utf8(n)) is Bytes,
        windows_are_ref_hashes(raw, parse_ref_hash(encode_utf8(o))->Bytes_0),
        old_refs_in_short_form(raw, parse_ref_hash(encode_utf8(o))->Bytes_0),
    ensures
        ({
            let ob = parse_ref_hash(encode_utf8(o))->Bytes_0;
            let nb = parse_ref_hash(encode_utf8(n))->Bytes_0;
            rewrite_spec(raw, seq![(o, n)]) matches RewriteOutcome::Done(out) && manifest_decode_spec(
                out,
            ) matches Ok(after) && swapped_manifest(manifest_decode_spec(raw)->Ok_0, after, ob, nb)
        }),
{
    let ob = parse_ref_hash(encode_utf8(o))->Bytes_0;
    let nb = parse_ref_hash(encode_utf8(n))->Bytes_0;
    lemma_parse_pairs_len(encode_utf8(o), 0, Seq::empty());
    lemma_parse_pairs_len(encode_utf8(n), 0, Seq::empty());
    law_swap_rewrites_only_old_refs(raw, ob, nb);
    let r = seq![(o, n)];
    assert(rewrite_spec(raw, r) == crate::manifest::rewrite_from(replace_scan(raw, 0, ob, nb), r, 1));
}

} // verus!
