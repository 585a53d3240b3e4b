//! Manifest protobuf: read-only decode, and a byte-faithful rewrite of the
//! confseq hashes that its refs carry.
//!
//! A manifest is never re-encoded: it carries optional and opaque fields that a
//! typed model would drop. Editing swaps the fixed-length 20-byte ref hash in
//! the original bytes and leaves every other byte as it was.
use vstd::prelude::*;

use crate::confseq::{fields, fields_spec, lossy_text, view_fields, Val, WireVal};
use crate::error::{ConfseqError, Error, ProjectError, ProjectErrorView};
use crate::text::{hex_char, hex_lower, lemma_hex_lower_shape, to_hex};
use vstd::utf8::{encode_utf8, is_ascii_chars, is_ascii_chars_encode_utf8};
use vstd::string::StringSliceAdditionalSpecFns;

verus! {

/// A manifest reference to one confseq, by its 40-hex content hash.
pub struct Ref {
    pub hash: String,
}

/// A decoded manifest.
pub struct Manifest {
    pub version: String,
    pub name: String,
    /// Carrier id, or 0 when the manifest omits field 3 (the wildcard carrier).
    pub carrier_id: u32,
    pub refs: Vec<Ref>,
}

/// The content of a [`Manifest`]; each ref is its hash text.
pub struct ManifestView {
    pub version: Seq<char>,
    pub name: Seq<char>,
    pub carrier_id: u32,
    pub refs: Seq<Seq<char>>,
}

/// The hash texts of a list of refs.
pub open spec fn refs_view(refs: Seq<Ref>) -> Seq<Seq<char>> {
    refs.map_values(|r: Ref| r.hash@)
}

impl View for Manifest {
    type V = ManifestView;

    open spec fn view(&self) -> ManifestView {
        ManifestView {
            version: self.version@,
            name: self.name@,
            carrier_id: self.carrier_id,
            refs: refs_view(self.refs@),
        }
    }
}

/// The hash of one field-5 ref: the hex of its last field-2 bytes (empty when
/// it has none); its opaque flag fields are skipped.
pub open spec fn ref_hash_fold(fs: Seq<(u32, WireVal)>, acc: Seq<char>) -> Seq<char>
    decreases fs.len(),
{
    if fs.len() == 0 {
        acc
    } else if fs[0].0 == 2 && fs[0].1 is Len {
        ref_hash_fold(fs.drop_first(), hex_lower(fs[0].1->Len_0))
    } else {
        ref_hash_fold(fs.drop_first(), acc)
    }
}

/// Fold the top-level manifest fields: 1 version, 2 name, 3 carrier id (last
/// one wins), each 5 one ref.
pub open spec fn manifest_fold(fs: Seq<(u32, WireVal)>, acc: ManifestView) -> Result<
    ManifestView,
    ConfseqError,
>
    decreases fs.len(),
{
    if fs.len() == 0 {
        Ok(acc)
    } else if fs[0].0 == 1 && fs[0].1 is Len {
        manifest_fold(fs.drop_first(), ManifestView { version: lossy_text(fs[0].1->Len_0), ..acc })
    } else if fs[0].0 == 2 && fs[0].1 is Len {
        manifest_fold(fs.drop_first(), ManifestView { name: lossy_text(fs[0].1->Len_0), ..acc })
    } else if fs[0].0 == 3 && fs[0].1 is Var {
        manifest_fold(fs.drop_first(), ManifestView { carrier_id: fs[0].1->Var_0 as u32, ..acc })
    } else if fs[0].0 == 5 && fs[0].1 is Len {
        match fields_spec(fs[0].1->Len_0) {
            Err(e) => Err(e),
            Ok(rfs) => manifest_fold(
                fs.drop_first(),
                ManifestView { refs: acc.refs.push(ref_hash_fold(rfs, Seq::empty())), ..acc },
            ),
        }
    } else {
        manifest_fold(fs.drop_first(), acc)
    }
}

/// The manifest the fold starts from.
pub open spec fn empty_manifest() -> ManifestView {
    ManifestView { version: Seq::empty(), name: Seq::empty(), carrier_id: 0, refs: Seq::empty() }
}

/// Decode a manifest.
pub open spec fn manifest_decode_spec(b: Seq<u8>) -> Result<ManifestView, ConfseqError> {
    match fields_spec(b) {
        Err(e) => Err(e),
        Ok(fs) => manifest_fold(fs, empty_manifest()),
    }
}

fn decode_ref(r: &[u8]) -> (res: Result<String, Error>)
    ensures
        match fields_spec(r@) {
            Ok(rfs) => res matches Ok(h) && h@ == ref_hash_fold(rfs, Seq::empty()),
            Err(e) => res matches Err(x) && x == Error::Confseq(e),
        },
{
    let rfs = match fields(r) {
        Ok(v) => v,
        Err(e) => return Err(e),
    };
    let ghost all = view_fields(rfs@);
    let mut hash = String::new();
    let mut k: usize = 0;
    assert(all.skip(0) =~= all);
    while k < rfs.len()
        invariant
            k <= rfs.len(),
            all == view_fields(rfs@),
            ref_hash_fold(all, Seq::empty()) == ref_hash_fold(all.skip(k as int), hash@),
        decreases rfs.len() - k,
    {
        assert(all.skip(k as int).drop_first() =~= all.skip(k + 1));
        let (f, fv) = &rfs[k];
        assert(all.skip(k as int)[0] == (*f, fv@));
        match fv {
            Val::Len(b) => {
                if *f == 2 {
                    hash = to_hex(b);
                }
            },
            Val::Var(_) => {},
        }
        k = k + 1;
    }
    Ok(hash)
}

impl Manifest {
    /// Parse a manifest, collecting each ref's confseq hash (field 2 of each
    /// field-5 ref). Opaque ref flag fields are skipped.
    pub fn decode(buf: &[u8]) -> (r: Result<Manifest, Error>)
        ensures
            match manifest_decode_spec(buf@) {
                Ok(m) => r matches Ok(x) && x@ == m,
                Err(e) => r matches Err(x) && x == Error::Confseq(e),
            },
    {
        let fs = match fields(buf) {
            Ok(v) => v,
            Err(e) => return Err(e),
        };
        let ghost all = view_fields(fs@);
        let mut version = String::new();
        let mut name = String::new();
        let mut carrier_id: u32 = 0;
        let mut refs: Vec<Ref> = Vec::new();
        let mut k: usize = 0;
        assert(all.skip(0) =~= all);
        assert(refs_view(refs@) =~= Seq::<Seq<char>>::empty());
        while k < fs.len()
            invariant
                k <= fs.len(),
                all == view_fields(fs@),
                fields_spec(buf@) matches Ok(x) && x == all,
                manifest_fold(all, empty_manifest()) == manifest_fold(
                    all.skip(k as int),
                    ManifestView {
                        version: version@,
                        name: name@,
                        carrier_id,
                        refs: refs_view(refs@),
                    },
                ),
            decreases fs.len() - k,
        {
            assert(all.skip(k as int).drop_first() =~= all.skip(k + 1));
            let (f, fv) = &fs[k];
            assert(all.skip(k as int)[0] == (*f, fv@));
            match fv {
                Val::Var(x) => {
                    if *f == 3 {
                        #[verifier::truncate]
                        let c = *x as u32;
                        carrier_id = c;
                    }
                },
                Val::Len(s) => {
                    if *f == 1 {
                        version = crate::confseq::utf8_lossy_string(s);
                    } else if *f == 2 {
                        name = crate::confseq::utf8_lossy_string(s);
                    } else if *f == 5 {
                        let hash = match decode_ref(s) {
                            Ok(h) => h,
                            Err(e) => {
                                assert(fields_spec(s@) is Err);
                                return Err(e);
                            },
                        };
                        let ghost prev = refs_view(refs@);
                        refs.push(Ref { hash });
                        assert(refs_view(refs@) =~= prev.push(hash@));
                    }
                },
            }
            k = k + 1;
        }
        Ok(Manifest { version, name, carrier_id, refs })
    }
}


/// The value of an ASCII hex digit (either case), as `u8::from_str_radix`
/// reads it.
pub open spec fn hex_digit_value(c: u8) -> Option<u8> {
    if 48 <= c <= 57 {
        Some((c - 48) as u8)
    } else if 97 <= c <= 102 {
        Some((c - 87) as u8)
    } else if 65 <= c <= 70 {
        Some((c - 55) as u8)
    } else {
        None
    }
}

/// The byte a pair of hex digits (either case) stands for; anything else is
/// not hex.
pub open spec fn pair_value(b0: u8, b1: u8) -> Option<u8> {
    match (hex_digit_value(b0), hex_digit_value(b1)) {
        (Some(h), Some(l)) => Some((h * 16 + l) as u8),
        _ => None,
    }
}

/// How a ref hash text parses into bytes.
pub enum HashParse {
    /// The 20 bytes.
    Bytes(Seq<u8>),
    /// The text is not 40 bytes long.
    WrongLength,
    /// Some byte of the text is not an ASCII hex digit.
    NotHex,
}

/// Parse pairs `k..20` of a 40-byte text, in order, stopping at the first one
/// that is not two hex digits.
pub open spec fn parse_pairs(b: Seq<u8>, k: int, acc: Seq<u8>) -> HashParse
    decreases 20 - k,
{
    if k >= 20 || k < 0 {
        HashParse::Bytes(acc)
    } else {
        match pair_value(b[2 * k], b[2 * k + 1]) {
            None => HashParse::NotHex,
            Some(v) => parse_pairs(b, k + 1, acc.push(v)),
        }
    }
}

/// Parse the UTF-8 bytes of a 40-character hex ref hash into its 20 bytes:
/// a text that is not 40 bytes long has the wrong length, and one with a
/// byte that is not an ASCII hex digit is not hex.
pub open spec fn parse_ref_hash(b: Seq<u8>) -> HashParse {
    if b.len() != 40 {
        HashParse::WrongLength
    } else {
        parse_pairs(b, 0, Seq::empty())
    }
}

fn hex_digit_of(c: u8) -> (r: Option<u8>)
    ensures
        r == hex_digit_value(c),
{
    if 48 <= c && c <= 57 {
        Some(c - 48)
    } else if 97 <= c && c <= 102 {
        Some(c - 87)
    } else if 65 <= c && c <= 70 {
        Some(c - 55)
    } else {
        None
    }
}

/// Convert a 40-character hex text to its 20 raw bytes.
fn hash_to_bytes(h: &String) -> (r: Result<Vec<u8>, Error>)
    ensures
        match parse_ref_hash(vstd::utf8::encode_utf8(h@)) {
            HashParse::Bytes(v) => r matches Ok(x) && x@ == v && v.len() == 20,
            HashParse::WrongLength => r matches Err(Error::Project(ProjectError::RefHashLength(t)))
                && t@ == h@,
            HashParse::NotHex => r matches Err(Error::Project(ProjectError::RefHashNotHex(t))) && t@
                == h@,
        },
{
    let b = h.as_str().as_bytes();
    if b.len() != 40 {
        return Err(Error::Project(ProjectError::RefHashLength(h.clone())));
    }
    let mut out: Vec<u8> = Vec::new();
    let mut k: usize = 0;
    while k < 20
        invariant
            k <= 20,
            b@ == vstd::utf8::encode_utf8(h@),
            b@.len() == 40,
            out@.len() == k,
            parse_ref_hash(b@) == parse_pairs(b@, k as int, out@),
        decreases 20 - k,
    {
        let b0 = b[2 * k];
        let b1 = b[2 * k + 1];
        let v = match (hex_digit_of(b0), hex_digit_of(b1)) {
            (Some(hi), Some(lo)) => Some(hi * 16 + lo),
            _ => None,
        };
        assert(v == pair_value(b0, b1));
        match v {
            Some(x) => {
                out.push(x);
            },
            None => {
                return Err(Error::Project(ProjectError::RefHashNotHex(h.clone())));
            },
        }
        k = k + 1;
    }
    Ok(out)
}

/// One pass of the scan: from `i` on, every `12 14` marker followed by the 20
/// bytes `old` has those bytes replaced by the 20 bytes `new`, and the scan
/// resumes after the replaced window; otherwise it moves on by one byte.
pub open spec fn replace_scan(out: Seq<u8>, i: int, old: Seq<u8>, new: Seq<u8>) -> Seq<u8>
    decreases out.len() - i,
{
    if i < 0 || i + 22 > out.len() {
        out
    } else if out[i] == 0x12 && out[i + 1] == 0x14 && out.subrange(i + 2, i + 22) == old
        && new.len() == 20 {
        replace_scan(out.subrange(0, i + 2) + new + out.subrange(i + 22, out.len() as int), i + 22, old, new)
    } else {
        replace_scan(out, i + 1, old, new)
    }
}

/// How a whole rewrite ends.
pub enum RewriteOutcome {
    Done(Seq<u8>),
    Failed(ProjectErrorView),
}

/// The remap entries as texts.
pub open spec fn remap_view(remap: Seq<(String, String)>) -> Seq<(Seq<char>, Seq<char>)> {
    remap.map_values(|p: (String, String)| (p.0@, p.1@))
}

/// The error for a ref hash text that does not parse.
pub open spec fn hash_failure(t: Seq<char>) -> RewriteOutcome {
    if parse_ref_hash(vstd::utf8::encode_utf8(t)) is WrongLength {
        RewriteOutcome::Failed(ProjectErrorView::RefHashLength(t))
    } else {
        RewriteOutcome::Failed(ProjectErrorView::RefHashNotHex(t))
    }
}

/// Apply the remap entries `k..` in order to `out`: each entry's old and new
/// hash texts are parsed (old first), then one scan swaps every window that
/// holds the old bytes.
pub open spec fn rewrite_from(out: Seq<u8>, remap: Seq<(Seq<char>, Seq<char>)>, k: int) -> RewriteOutcome
    decreases remap.len() - k,
{
    if k < 0 || k >= remap.len() {
        RewriteOutcome::Done(out)
    } else {
        let o = parse_ref_hash(vstd::utf8::encode_utf8(remap[k].0));
        let n = parse_ref_hash(vstd::utf8::encode_utf8(remap[k].1));
        if !(o is Bytes) {
            hash_failure(remap[k].0)
        } else if !(n is Bytes) {
            hash_failure(remap[k].1)
        } else {
            rewrite_from(replace_scan(out, 0, o->Bytes_0, n->Bytes_0), remap, k + 1)
        }
    }
}

/// The outcome of rewriting a manifest with a remap.
pub open spec fn rewrite_spec(bytes: Seq<u8>, remap: Seq<(Seq<char>, Seq<char>)>) -> RewriteOutcome {
    rewrite_from(bytes, remap, 0)
}

/// Rewrite confseq ref hashes in a manifest's raw bytes, preserving every other
/// byte. Entries apply in the order given (callers pass them sorted by old
/// hash, as a `BTreeMap` iterates). Each ref hash is stored as a `12 14 <20 bytes>` field, so an
/// equal-length swap is byte-safe; every occurrence is replaced. A hash absent
/// from the manifest is simply not found; an empty remap returns the input.
pub fn rewrite_ref_hashes(bytes: &[u8], remap: &[(String, String)]) -> (r: Result<Vec<u8>, Error>)
    ensures
        match rewrite_spec(bytes@, remap_view(remap@)) {
            RewriteOutcome::Done(o) => r matches Ok(v) && v@ == o,
            RewriteOutcome::Failed(e) => r matches Err(Error::Project(pe)) && pe@ == e,
        },
{
    let ghost rv = remap_view(remap@);
    let mut out: Vec<u8> = vstd::slice::slice_to_vec(bytes);
    let mut k: usize = 0;
    while k < remap.len()
        invariant
            k <= remap.len(),
            rv == remap_view(remap@),
            rewrite_spec(bytes@, rv) == rewrite_from(out@, rv, k as int),
        decreases remap.len() - k,
    {
        let (old, new) = &remap[k];
        assert(rv[k as int] == (old@, new@));
        let old_b = match hash_to_bytes(old) {
            Ok(x) => x,
            Err(e) => return Err(e),
        };
        let new_b = match hash_to_bytes(new) {
            Ok(x) => x,
            Err(e) => return Err(e),
        };
        let ghost start = out@;
        let mut i: usize = 0;
        while i <= out.len() && out.len() - i >= 22
            invariant
                out@.len() == start.len(),
                old_b@.len() == 20,
                new_b@.len() == 20,
                replace_scan(start, 0, old_b@, new_b@) == replace_scan(out@, i as int, old_b@, new_b@),
            decreases out.len() - i,
        {
            let mut same = out[i] == 0x12 && out[i + 1] == 0x14;
            let mut t: usize = 0;
            while same && t < 20
                invariant
                    t <= 20,
                    i + 22 <= out@.len(),
                    i + 22 <= out.len(),
                    old_b@.len() == 20,
                    same ==> (out@[i as int] == 0x12 && out@[i + 1] == 0x14 && out@.subrange(
                        i + 2,
                        i + 2 + t,
                    ) == old_b@.subrange(0, t as int)),
                    !same ==> !(out@[i as int] == 0x12 && out@[i + 1] == 0x14 && out@.subrange(
                        i + 2,
                        i + 22,
                    ) == old_b@),
                decreases (20 - t) * 2 + (if same {
                    1int
                } else {
                    0int
                }),
            {
                if out[i + 2 + t] != old_b[t] {
                    same = false;
                    assert(out@.subrange(i + 2, i + 22)[t as int] == out@[i + 2 + t]);
                } else {
                    assert(out@.subrange(i + 2, i + 2 + t + 1) =~= out@.subrange(i + 2, i + 2 + t).push(
                        out@[i + 2 + t],
                    ));
                    assert(old_b@.subrange(0, t + 1) =~= old_b@.subrange(0, t as int).push(
                        old_b@[t as int],
                    ));
                    t = t + 1;
                }
            }
            if same {
                assert(old_b@.subrange(0, 20) =~= old_b@);
                let ghost before = out@;
                let mut t: usize = 0;
                while t < 20
                    invariant
                        t <= 20,
                        i + 22 <= before.len(),
                        before.len() == out.len(),
                        new_b@.len() == 20,
                        out@ == before.subrange(0, i + 2) + new_b@.subrange(0, t as int)
                            + before.subrange(i + 2 + t, before.len() as int),
                    decreases 20 - t,
                {
                    out.set(i + 2 + t, new_b[t]);
                    assert(out@ =~= before.subrange(0, i + 2) + new_b@.subrange(0, t + 1)
                        + before.subrange(i + 2 + t + 1, before.len() as int));
                    t = t + 1;
                }
                assert(new_b@.subrange(0, 20) =~= new_b@);
                i = i + 22;
            } else {
                i = i + 1;
            }
        }
        k = k + 1;
    }
    Ok(out)
}


pub(crate) proof fn lemma_replace_scan_len(out: Seq<u8>, i: int, old: Seq<u8>, new: Seq<u8>)
    ensures
        replace_scan(out, i, old, new).len() == out.len(),
    decreases out.len() - i,
{
    if !(i < 0 || i + 22 > out.len()) {
        if out[i] == 0x12 && out[i + 1] == 0x14 && out.subrange(i + 2, i + 22) == old && new.len()
            == 20 {
            let o2 = out.subrange(0, i + 2) + new + out.subrange(i + 22, out.len() as int);
            lemma_replace_scan_len(o2, i + 22, old, new);
        } else {
            lemma_replace_scan_len(out, i + 1, old, new);
        }
    }
}

proof fn lemma_rewrite_from_len(out: Seq<u8>, remap: Seq<(Seq<char>, Seq<char>)>, k: int)
    ensures
        rewrite_from(out, remap, k) matches RewriteOutcome::Done(o) ==> o.len() == out.len(),
    decreases remap.len() - k,
{
    if 0 <= k < remap.len() {
        let o = parse_ref_hash(vstd::utf8::encode_utf8(remap[k].0));
        let n = parse_ref_hash(vstd::utf8::encode_utf8(remap[k].1));
        if o is Bytes && n is Bytes {
            lemma_replace_scan_len(out, 0, o->Bytes_0, n->Bytes_0);
            lemma_rewrite_from_len(replace_scan(out, 0, o->Bytes_0, n->Bytes_0), remap, k + 1);
        }
    }
}

/// A rewrite never changes a manifest's length, and an empty remap leaves it
/// as it is.
pub proof fn law_rewrite_preserves_length(bytes: Seq<u8>, remap: Seq<(Seq<char>, Seq<char>)>)
    ensures
        rewrite_spec(bytes, remap) matches RewriteOutcome::Done(o) ==> o.len() == bytes.len(),
        remap.len() == 0 ==> rewrite_spec(bytes, remap) == RewriteOutcome::Done(bytes),
{
    lemma_rewrite_from_len(bytes, remap, 0);
}

pub(crate) proof fn lemma_scan_windows(out: Seq<u8>, i: int, old: Seq<u8>, new: Seq<u8>, j: int)
    requires
        0 <= i,
        0 <= j < out.len(),
        replace_scan(out, i, old, new)[j] != out[j],
    ensures
        exists|w: int|
            #![trigger out.subrange(w + 2, w + 22)]
            i <= w && w + 22 <= out.len() && out[w] == 0x12 && out[w + 1] == 0x14 && out.subrange(
                w + 2,
                w + 22,
            ) == old && w + 2 <= j < w + 22,
    decreases out.len() - i,
{
    if !(i + 22 > out.len()) {
        if out[i] == 0x12 && out[i + 1] == 0x14 && out.subrange(i + 2, i + 22) == old && new.len()
            == 20 {
            let o2 = out.subrange(0, i + 2) + new + out.subrange(i + 22, out.len() as int);
            assert(o2.len() == out.len());
            if i + 2 <= j < i + 22 {
                assert(out.subrange(i + 2, i + 22) == old);
            } else {
                assert(o2[j] == out[j]);
                lemma_scan_windows(o2, i + 22, old, new, j);
                let w = choose|w: int|
                    #![trigger o2.subrange(w + 2, w + 22)]
                    i + 22 <= w && w + 22 <= o2.len() && o2[w] == 0x12 && o2[w + 1] == 0x14
                        && o2.subrange(w + 2, w + 22) == old && w + 2 <= j < w + 22;
                assert(o2.subrange(w + 2, w + 22) =~= out.subrange(w + 2, w + 22));
                assert(o2[w] == out[w] && o2[w + 1] == out[w + 1]);
            }
        } else {
            lemma_scan_windows(out, i + 1, old, new, j);
        }
    }
}

/// One swap pass changes only bytes inside the hash window of a `12 14` ref
/// field that held the old hash: every other byte (unmodeled fields, the
/// optional carrier id, flag ordering) is preserved.
pub proof fn law_swap_touches_only_old_hash_windows(out: Seq<u8>, old: Seq<u8>, new: Seq<u8>, j: int)
    requires
        0 <= j < out.len(),
        replace_scan(out, 0, old, new)[j] != out[j],
    ensures
        exists|w: int|
            #![trigger out.subrange(w + 2, w + 22)]
            0 <= w && w + 22 <= out.len() && out[w] == 0x12 && out[w + 1] == 0x14 && out.subrange(
                w + 2,
                w + 22,
            ) == old && w + 2 <= j < w + 22,
{
    lemma_scan_windows(out, 0, old, new, j);
}

/// A hash that no ref field holds is not found: the pass leaves the bytes as
/// they are.
pub proof fn law_absent_hash_is_noop(out: Seq<u8>, old: Seq<u8>, new: Seq<u8>)
    requires
        forall|w: int|
            #![trigger out.subrange(w + 2, w + 22)]
            0 <= w && w + 22 <= out.len() && out[w] == 0x12 && out[w + 1] == 0x14 ==> out.subrange(
                w + 2,
                w + 22,
            ) != old,
    ensures
        replace_scan(out, 0, old, new) == out,
{
    lemma_replace_scan_len(out, 0, old, new);
    assert forall|j: int| 0 <= j < out.len() implies replace_scan(out, 0, old, new)[j] == out[j] by {
        if replace_scan(out, 0, old, new)[j] != out[j] {
            lemma_scan_windows(out, 0, old, new, j);
        }
    }
    assert(replace_scan(out, 0, old, new) =~= out);
}



/// The hex digits of byte `k` sit at `2k` and `2k + 1`.
proof fn lemma_hex_lower_index(b: Seq<u8>)
    ensures
        hex_lower(b).len() == 2 * b.len(),
        forall|k: int|
            0 <= k < b.len() ==> hex_lower(b)[2 * k] == hex_char(#[trigger] b[k] / 16) && hex_lower(b)[2 * k + 1]
                == hex_char(b[k] % 16),
    decreases b.len(),
{
    lemma_hex_lower_shape(b);
    if b.len() > 0 {
        let b0 = b.drop_last();
        lemma_hex_lower_index(b0);
        lemma_hex_lower_shape(b0);
        assert forall|k: int| 0 <= k < b.len() implies hex_lower(b)[2 * k] == hex_char(#[trigger] b[k] / 16)
            && hex_lower(b)[2 * k + 1] == hex_char(b[k] % 16) by {
            if k < b0.len() {
                assert(b[k] == b0[k]);
            }
        }
    }
}

/// The lowercase hex digit of a nibble reads back as the nibble.
proof fn lemma_hex_digit_roundtrip(n: u8)
    requires
        n < 16,
    ensures
        hex_digit_value(hex_char(n) as u8) == Some(n),
{
}

proof fn lemma_parse_hex_pairs(b: Seq<u8>, t: Seq<u8>, k: int)
    requires
        b.len() == 20,
        t.len() == 40,
        0 <= k <= 20,
        forall|i: int| 0 <= i < 20 ==> pair_value(t[2 * i], t[2 * i + 1]) == Some(#[trigger] b[i]),
    ensures
        parse_pairs(t, k, b.take(k)) == HashParse::Bytes(b),
    decreases 20 - k,
{
    if k < 20 {
        assert(pair_value(t[2 * k], t[2 * k + 1]) == Some(b[k]));
        assert(b.take(k).push(b[k]) =~= b.take(k + 1));
        lemma_parse_hex_pairs(b, t, k + 1);
    } else {
        assert(b.take(20) =~= b);
    }
}

/// The lowercase hex text of any 20 bytes parses back to those bytes: a hash
/// written by `to_hex` reads back as itself.
pub proof fn law_hex_hash_roundtrip(b: Seq<u8>)
    requires
        b.len() == 20,
    ensures
        parse_ref_hash(encode_utf8(hex_lower(b))) == HashParse::Bytes(b),
{
    let h = hex_lower(b);
    lemma_hex_lower_index(b);
    lemma_hex_lower_shape(b);
    assert(is_ascii_chars(h));
    is_ascii_chars_encode_utf8(h);
    let t = encode_utf8(h);
    assert forall|i: int| 0 <= i < 20 implies pair_value(t[2 * i], t[2 * i + 1]) == Some(#[trigger] b[i]) by {
        let x = b[i];
        lemma_hex_digit_roundtrip(x / 16);
        lemma_hex_digit_roundtrip(x % 16);
        assert(t[2 * i] == h[2 * i] as u8);
        assert(t[2 * i + 1] == h[2 * i + 1] as u8);
        assert((x / 16) * 16 + x % 16 == x);
    }
    assert(b.take(0) =~= Seq::<u8>::empty());
    lemma_parse_hex_pairs(b, t, 0);
}


/// What rewriting `out` with one more entry `e` gives after a rewrite
/// outcome: a failure stays, a result is rewritten with `e`.
pub open spec fn then_rewrite(r: RewriteOutcome, e: (Seq<char>, Seq<char>)) -> RewriteOutcome {
    match r {
        RewriteOutcome::Done(o) => rewrite_spec(o, seq![e]),
        RewriteOutcome::Failed(x) => RewriteOutcome::Failed(x),
    }
}

proof fn lemma_rewrite_from_push(out: Seq<u8>, r: Seq<(Seq<char>, Seq<char>)>, e: (Seq<char>, Seq<char>), k: int)
    requires
        0 <= k <= r.len(),
    ensures
        rewrite_from(out, r.push(e), k) == then_rewrite(rewrite_from(out, r, k), e),
    decreases r.len() - k,
{
    let r2 = r.push(e);
    if k == r.len() {
        let o = parse_ref_hash(vstd::utf8::encode_utf8(e.0));
        let n = parse_ref_hash(vstd::utf8::encode_utf8(e.1));
        assert(r2[k] == e);
        assert(seq![e][0] == e);
        if o is Bytes && n is Bytes {
            let o2 = replace_scan(out, 0, o->Bytes_0, n->Bytes_0);
            assert(rewrite_from(o2, r2, k + 1) == RewriteOutcome::Done(o2));
            assert(rewrite_from(o2, seq![e], 1) == RewriteOutcome::Done(o2));
        }
    } else {
        assert(r2[k] == r[k]);
        let o = parse_ref_hash(vstd::utf8::encode_utf8(r[k].0));
        let n = parse_ref_hash(vstd::utf8::encode_utf8(r[k].1));
        if o is Bytes && n is Bytes {
            lemma_rewrite_from_push(replace_scan(out, 0, o->Bytes_0, n->Bytes_0), r, e, k + 1);
        }
    }
}

/// Rewriting with several entries composes: each entry rewrites what the
/// entries before it made, so rewriting with `r` and then `e` is rewriting
/// with `r` followed by `e` (a failure of `r` stops there).
pub proof fn law_rewrite_composes(bytes: Seq<u8>, r: Seq<(Seq<char>, Seq<char>)>, e: (Seq<char>, Seq<char>))
    ensures
        rewrite_spec(bytes, r.push(e)) == then_rewrite(rewrite_spec(bytes, r), e),
{
    lemma_rewrite_from_push(bytes, r, e, 0);
}

/// One entry `old -> new` whose texts parse rewrites by one swap pass of its
/// bytes over the manifest.
pub proof fn law_one_entry_rewrite_is_one_pass(bytes: Seq<u8>, e: (Seq<char>, Seq<char>))
    requires
        parse_ref_hash(vstd::utf8::encode_utf8(e.0)) is Bytes,
        parse_ref_hash(vstd::utf8::encode_utf8(e.1)) is Bytes,
    ensures
        rewrite_spec(bytes, seq![e]) == RewriteOutcome::Done(
            replace_scan(
                bytes,
                0,
                parse_ref_hash(vstd::utf8::encode_utf8(e.0))->Bytes_0,
                parse_ref_hash(vstd::utf8::encode_utf8(e.1))->Bytes_0,
            ),
        ),
{
    assert(seq![e][0] == e);
    let o2 = replace_scan(
        bytes,
        0,
        parse_ref_hash(vstd::utf8::encode_utf8(e.0))->Bytes_0,
        parse_ref_hash(vstd::utf8::encode_utf8(e.1))->Bytes_0,
    );
    assert(rewrite_from(o2, seq![e], 1) == RewriteOutcome::Done(o2));
    assert(rewrite_spec(bytes, seq![e]) == rewrite_from(bytes, seq![e], 0));
}

} // verus!
