//! confseq protobuf codec (hand-rolled varint) and content hash.
use sha2::Digest;
use vstd::prelude::*;

use crate::clz4::{decompress, decompress_spec, is_clz4, is_clz4_spec};
use crate::error::{ConfseqError, Error, ErrorView};
use crate::text::{hex_lower, is_lower_hex_char, lemma_hex_lower_shape, to_hex};
use vstd::utf8::{decode_utf8, encode_utf8, valid_utf8};

verus! {

/// What `sha2::Sha256::digest` returns for some bytes.
pub uninterp spec fn sha256(data: Seq<u8>) -> Seq<u8>;

/// Calls `sha2::Sha256::digest`. Trusted: the digest is the named `sha256` of
/// the input and, as for every SHA-256 digest, 32 bytes long.
#[verifier::external_body]
fn sha256_digest(data: &[u8]) -> (r: Vec<u8>)
    ensures
        r@ == sha256(data@),
        r@.len() == 32,
{
    sha2::Sha256::digest(data).to_vec()
}

/// The content hash of a confseq: the first 20 bytes of its SHA-256, in
/// lowercase hex.
pub open spec fn content_hash_spec(bytes: Seq<u8>) -> Seq<char> {
    hex_lower(sha256(bytes).take(20))
}

/// `sha256(bytes)[..20]` as 40 lowercase hex characters: the confseq file name,
/// the key in `confman_<hash>` tables and the manifest ref hash.
pub fn content_hash(bytes: &[u8]) -> (h: String)
    ensures
        h@ == content_hash_spec(bytes@),
        h@.len() == 40,
        forall|i: int| 0 <= i < 40 ==> is_lower_hex_char(#[trigger] h@[i]),
{
    let d = sha256_digest(bytes);
    let head = &d.as_slice()[0..20];
    assert(head@ =~= sha256(bytes@).take(20));
    proof {
        lemma_hex_lower_shape(head@);
    }
    to_hex(head)
}

/// The varint whose first byte is at `i`, read as the walker reads it: each byte
/// adds its low seven bits at the current shift, the shift grows by seven
/// (wrapping as a `u32`) and is taken modulo 64 by the machine shift. Yields the
/// value and the index just past the varint, or `None` if the input ends first.
pub open spec fn varint_from(b: Seq<u8>, i: int, shift: u32, acc: u64) -> Option<(u64, int)>
    decreases b.len() - i,
{
    if i < 0 || i >= b.len() {
        None
    } else {
        let byte = b[i];
        let acc2 = acc | (((byte & 0x7f) as u64) << ((shift % 64) as u64));
        if byte & 0x80 == 0 {
            Some((acc2, i + 1))
        } else {
            varint_from(b, i + 1, vstd::wrapping::u32_specs::wrapping_add(shift, 7), acc2)
        }
    }
}

/// The varint that starts at index `i` of `b`.
pub open spec fn varint_at(b: Seq<u8>, i: int) -> Option<(u64, int)> {
    varint_from(b, i, 0, 0)
}

/// Read one varint at `*i`, advancing `*i` past it.
pub fn read_varint(b: &[u8], i: &mut usize) -> (r: Result<u64, Error>)
    ensures
        match varint_at(b@, *old(i) as int) {
            Some((v, j)) => r == Ok::<u64, Error>(v) && *final(i) == j,
            None => r == Err::<u64, Error>(Error::Confseq(ConfseqError::VarintEof)),
        },
{
    if *i >= b.len() {
        return Err(Error::Confseq(ConfseqError::VarintEof));
    }
    let mut shift: u32 = 0;
    let mut out: u64 = 0;
    loop
        invariant
            varint_at(b@, *old(i) as int) == varint_from(b@, *i as int, shift, out),
            *i <= b.len(),
        decreases b.len() - *i,
    {
        if *i >= b.len() {
            return Err(Error::Confseq(ConfseqError::VarintEof));
        }
        let byte = b[*i];
        *i = *i + 1;
        out = out | (((byte & 0x7f) as u64) << (shift % 64));
        if byte & 0x80 == 0 {
            return Ok(out);
        }
        shift = shift.wrapping_add(7);
    }
}


/// Where a varint read from `i` ends: strictly after `i`, within the input.
pub proof fn lemma_varint_from_bounds(b: Seq<u8>, i: int, shift: u32, acc: u64)
    ensures
        varint_from(b, i, shift, acc) matches Some((_, j)) ==> i < j <= b.len(),
    decreases b.len() - i,
{
    if 0 <= i < b.len() {
        let byte = b[i];
        let acc2 = acc | (((byte & 0x7f) as u64) << ((shift % 64) as u64));
        if byte & 0x80 != 0 {
            lemma_varint_from_bounds(b, i + 1, vstd::wrapping::u32_specs::wrapping_add(shift, 7), acc2);
        }
    }
}

/// The varint encoding of `v`: seven bits per byte, least significant group
/// first, the high bit set on every byte but the last.
pub open spec fn varint_bytes(v: u64) -> Seq<u8>
    decreases v,
    via varint_bytes_decreases
{
    if v >> 7 == 0 {
        seq![(v & 0x7f) as u8]
    } else {
        seq![((v & 0x7f) | 0x80) as u8] + varint_bytes(v >> 7)
    }
}

#[via_fn]
proof fn varint_bytes_decreases(v: u64) {
    assert(v >> 7 != 0 ==> v >> 7 < v) by (bit_vector);
}

/// Append the varint encoding of `v`.
pub fn write_varint(out: &mut Vec<u8>, v: u64)
    ensures
        final(out)@ == old(out)@ + varint_bytes(v),
{
    let mut w = v;
    loop
        invariant
            old(out)@ + varint_bytes(v) == out@ + varint_bytes(w),
        decreases w,
    {
        #[verifier::truncate]
        let b = (w & 0x7f) as u8;
        let ghost ww = w;
        let ghost prev = out@;
        assert(ww >> 7 != 0 ==> ww >> 7 < ww) by (bit_vector);
        w = w >> 7;
        if w != 0 {
            assert((((ww & 0x7f) as u8) | 0x80) as u8 == ((ww & 0x7f) | 0x80) as u8) by (bit_vector);
            out.push(b | 0x80);
            assert(out@ + varint_bytes(w) =~= prev + varint_bytes(ww));
        } else {
            out.push(b);
            assert(out@ =~= prev + varint_bytes(ww));
            return;
        }
    }
}

/// A protobuf field tag.
pub open spec fn tag_spec(field: u32, wire: u32) -> u64 {
    ((field as u64) << 3) | (wire as u64)
}

/// Build a protobuf field tag from a field number and a wire type.
pub fn tag(field: u32, wire: u32) -> (t: u64)
    ensures
        t == tag_spec(field, wire),
{
    ((field as u64) << 3) | wire as u64
}

/// A length-delimited field: tag (wire 2), payload length, payload.
pub open spec fn len_delim_bytes(field: u32, payload: Seq<u8>) -> Seq<u8> {
    varint_bytes(tag_spec(field, 2)) + varint_bytes(payload.len() as u64) + payload
}

/// Append a length-delimited field.
pub fn write_len_delim(out: &mut Vec<u8>, field: u32, payload: &[u8])
    ensures
        final(out)@ == old(out)@ + len_delim_bytes(field, payload@),
{
    write_varint(out, tag(field, 2));
    write_varint(out, payload.len() as u64);
    let ghost mid = out@;
    let mut k: usize = 0;
    while k < payload.len()
        invariant
            k <= payload.len(),
            out@ == mid + payload@.subrange(0, k as int),
        decreases payload.len() - k,
    {
        out.push(payload[k]);
        k = k + 1;
        assert(out@ =~= mid + payload@.subrange(0, k as int));
    }
    assert(payload@.subrange(0, payload.len() as int) =~= payload@);
    assert(final(out)@ =~= old(out)@ + len_delim_bytes(field, payload@));
}


/// One field value as the walker yields it: a varint, or a length-delimited
/// slice of the input.
pub enum Val<'a> {
    Var(u64),
    Len(&'a [u8]),
}

/// The mathematical content of a [`Val`].
pub enum WireVal {
    Var(u64),
    Len(Seq<u8>),
}

impl<'a> View for Val<'a> {
    type V = WireVal;

    open spec fn view(&self) -> WireVal {
        match self {
            Val::Var(v) => WireVal::Var(*v),
            Val::Len(s) => WireVal::Len(s@),
        }
    }
}

/// `pre` in front of the fields of `r`, or the error of `r`.
pub open spec fn prepend_fields(
    pre: Seq<(u32, WireVal)>,
    r: Result<Seq<(u32, WireVal)>, ConfseqError>,
) -> Result<Seq<(u32, WireVal)>, ConfseqError> {
    match r {
        Ok(rest) => Ok(pre + rest),
        Err(e) => Err(e),
    }
}

/// The fields of the message `b` from index `i` on, in wire order, walked one
/// tag at a time: wire types 0 and 2 are yielded, fixed 32- and
/// 64-bit fields are skipped, any other wire type is an error.
pub open spec fn fields_from(b: Seq<u8>, i: int) -> Result<Seq<(u32, WireVal)>, ConfseqError>
    decreases b.len() - i,
    via fields_from_decreases
{
    if i < 0 || i >= b.len() {
        Ok(Seq::empty())
    } else {
        match varint_at(b, i) {
            None => Err(ConfseqError::VarintEof),
            Some((t, j)) => {
                let field = (t >> 3) as u32;
                let wire = (t & 7) as u32;
                if wire == 0 {
                    match varint_at(b, j) {
                        None => Err(ConfseqError::VarintEof),
                        Some((v, k)) => prepend_fields(
                            seq![(field, WireVal::Var(v))],
                            fields_from(b, k),
                        ),
                    }
                } else if wire == 2 {
                    match varint_at(b, j) {
                        None => Err(ConfseqError::VarintEof),
                        Some((n, k)) => {
                            let n = n as usize;
                            if k + n > b.len() {
                                Err(ConfseqError::LenEof)
                            } else {
                                prepend_fields(
                                    seq![(field, WireVal::Len(b.subrange(k, k + n)))],
                                    fields_from(b, k + n),
                                )
                            }
                        },
                    }
                } else if wire == 5 {
                    if j + 4 >= b.len() {
                        Ok(Seq::empty())
                    } else {
                        fields_from(b, j + 4)
                    }
                } else if wire == 1 {
                    if j + 8 >= b.len() {
                        Ok(Seq::empty())
                    } else {
                        fields_from(b, j + 8)
                    }
                } else {
                    Err(ConfseqError::Wire(wire))
                }
            },
        }
    }
}

#[via_fn]
proof fn fields_from_decreases(b: Seq<u8>, i: int) {
    lemma_varint_from_bounds(b, i, 0, 0);
    if let Some((t, j)) = varint_at(b, i) {
        lemma_varint_from_bounds(b, j, 0, 0);
    }
}

proof fn lemma_prepend_assoc(
    a: Seq<(u32, WireVal)>,
    b: Seq<(u32, WireVal)>,
    r: Result<Seq<(u32, WireVal)>, ConfseqError>,
)
    ensures
        prepend_fields(a, prepend_fields(b, r)) == prepend_fields(a + b, r),
{
    if let Ok(rest) = r {
        assert((a + b) + rest =~= a + (b + rest));
    }
}

/// All fields of the message `b`.
pub open spec fn fields_spec(b: Seq<u8>) -> Result<Seq<(u32, WireVal)>, ConfseqError> {
    fields_from(b, 0)
}

/// The views of a run of walked fields.
pub open spec fn view_fields<'a>(v: Seq<(u32, Val<'a>)>) -> Seq<(u32, WireVal)> {
    v.map_values(|p: (u32, Val<'a>)| (p.0, p.1@))
}

/// Walk a single message, yielding `(field, value)` pairs in wire order.
pub fn fields<'a>(b: &'a [u8]) -> (r: Result<Vec<(u32, Val<'a>)>, Error>)
    ensures
        match fields_spec(b@) {
            Ok(fs) => r matches Ok(v) && view_fields(v@) == fs,
            Err(e) => r matches Err(err) && err == Error::Confseq(e),
        },
{
    let mut i: usize = 0;
    let mut v: Vec<(u32, Val<'a>)> = Vec::new();
    while i < b.len()
        invariant
            i <= b.len(),
            fields_spec(b@) == prepend_fields(view_fields(v@), fields_from(b@, i as int)),
        decreases b.len() - i,
    {
        let ghost i0 = i as int;
        proof {
            lemma_varint_from_bounds(b@, i0, 0, 0);
        }
        let t = match read_varint(b, &mut i) {
            Ok(t) => t,
            Err(e) => return Err(e),
        };
        #[verifier::truncate]
        let field = (t >> 3) as u32;
        #[verifier::truncate]
        let wire = (t & 7) as u32;
        let ghost j = i as int;
        let ghost prev = v@;
        proof {
            lemma_varint_from_bounds(b@, j, 0, 0);
        }
        if wire == 0 {
            let x = match read_varint(b, &mut i) {
                Ok(x) => x,
                Err(e) => return Err(e),
            };
            v.push((field, Val::Var(x)));
            assert(view_fields(v@) =~= view_fields(prev) + seq![(field, WireVal::Var(x))]);
            proof {
                lemma_prepend_assoc(view_fields(prev), seq![(field, WireVal::Var(x))], fields_from(b@, i as int));
            }
        } else if wire == 2 {
            let n = match read_varint(b, &mut i) {
                Ok(n) => n,
                Err(e) => return Err(e),
            };
            #[verifier::truncate]
            let n = n as usize;
            if n > b.len() - i {
                return Err(Error::Confseq(ConfseqError::LenEof));
            }
            let s = &b[i..i + n];
            i = i + n;
            v.push((field, Val::Len(s)));
            assert(view_fields(v@) =~= view_fields(prev) + seq![(field, WireVal::Len(s@))]);
            proof {
                lemma_prepend_assoc(view_fields(prev), seq![(field, WireVal::Len(s@))], fields_from(b@, i as int));
            }
        } else if wire == 5 {
            if b.len() - i <= 4 {
                i = b.len();
            } else {
                i = i + 4;
            }
        } else if wire == 1 {
            if b.len() - i <= 8 {
                i = b.len();
            } else {
                i = i + 8;
            }
        } else {
            return Err(Error::Confseq(ConfseqError::Wire(wire)));
        }
    }
    assert(view_fields(v@) + Seq::<(u32, WireVal)>::empty() =~= view_fields(v@));
    Ok(v)
}


/// One NV item: its id and its values, grouped exactly as the wire encodes
/// them (one inner list per `Val` submessage; an empty inner list is an empty
/// `Val`, `12 00`).
pub struct NvItem {
    pub id: u32,
    pub vals: Vec<Vec<i64>>,
}

/// A decoded confseq: revision, module name and NV items in wire order.
pub struct ConfSeq {
    pub revision: String,
    pub name: String,
    pub items: Vec<NvItem>,
}

/// The content of an [`NvItem`].
pub struct NvItemView {
    pub id: u32,
    pub vals: Seq<Seq<i64>>,
}

/// The content of a [`ConfSeq`].
pub struct ConfSeqView {
    pub revision: Seq<char>,
    pub name: Seq<char>,
    pub items: Seq<NvItemView>,
}

impl View for NvItem {
    type V = NvItemView;

    open spec fn view(&self) -> NvItemView {
        NvItemView { id: self.id, vals: groups_view(self.vals@) }
    }
}

/// The contents of a list of value groups.
pub open spec fn groups_view(v: Seq<Vec<i64>>) -> Seq<Seq<i64>> {
    v.map_values(|g: Vec<i64>| g@)
}

/// The contents of a list of NV items.
pub open spec fn items_view(items: Seq<NvItem>) -> Seq<NvItemView> {
    items.map_values(|it: NvItem| it@)
}

impl View for ConfSeq {
    type V = ConfSeqView;

    open spec fn view(&self) -> ConfSeqView {
        ConfSeqView { revision: self.revision@, name: self.name@, items: items_view(self.items@) }
    }
}

/// What `String::from_utf8_lossy` makes of a byte string.
pub uninterp spec fn utf8_lossy(b: Seq<u8>) -> Seq<char>;

/// The text a field's bytes stand for: valid UTF-8 decoded as it stands,
/// anything else as `String::from_utf8_lossy` repairs it.
pub open spec fn lossy_text(b: Seq<u8>) -> Seq<char> {
    if valid_utf8(b) {
        decode_utf8(b)
    } else {
        utf8_lossy(b)
    }
}

/// Calls `String::from_utf8_lossy`. Trusted: valid UTF-8 is decoded as it
/// stands (the documented behaviour: only invalid sequences are replaced), and
/// for invalid input the result is the named `utf8_lossy` of the bytes.
#[verifier::external_body]
pub(crate) fn utf8_lossy_string(b: &[u8]) -> (s: String)
    ensures
        s@ == (if valid_utf8(b@) {
            decode_utf8(b@)
        } else {
            utf8_lossy(b@)
        }),
{
    String::from_utf8_lossy(b).into_owned()
}

/// The values of one `Val` submessage: its field-3 varints, in order, each
/// reinterpreted as `i64`; every other field is ignored.
pub open spec fn group_values(fs: Seq<(u32, WireVal)>) -> Seq<i64>
    decreases fs.len(),
{
    if fs.len() == 0 {
        Seq::empty()
    } else {
        let rest = group_values(fs.drop_first());
        if fs[0].0 == 3 && fs[0].1 is Var {
            seq![fs[0].1->Var_0 as i64] + rest
        } else {
            rest
        }
    }
}

/// Fold the fields of one NvItem message: field 1 (varint) sets the id (the
/// last one wins), each field 2 (length-delimited) adds one value group.
pub open spec fn item_fold(fs: Seq<(u32, WireVal)>, id: u32, vals: Seq<Seq<i64>>) -> Result<
    NvItemView,
    ConfseqError,
>
    decreases fs.len(),
{
    if fs.len() == 0 {
        Ok(NvItemView { id, vals })
    } else if fs[0].0 == 1 && fs[0].1 is Var {
        item_fold(fs.drop_first(), fs[0].1->Var_0 as u32, vals)
    } else if fs[0].0 == 2 && fs[0].1 is Len {
        match fields_spec(fs[0].1->Len_0) {
            Err(e) => Err(e),
            Ok(gfs) => item_fold(fs.drop_first(), id, vals.push(group_values(gfs))),
        }
    } else {
        item_fold(fs.drop_first(), id, vals)
    }
}

/// Decode one NvItem message.
pub open spec fn item_spec(b: Seq<u8>) -> Result<NvItemView, ConfseqError> {
    match fields_spec(b) {
        Err(e) => Err(e),
        Ok(fs) => item_fold(fs, 0, Seq::empty()),
    }
}

/// Fold the top-level fields of a confseq: field 1 is the revision, field 2 the
/// name (last one wins, decoded leniently as UTF-8), each field 4 one NV item.
pub open spec fn confseq_fold(fs: Seq<(u32, WireVal)>, acc: ConfSeqView) -> Result<
    ConfSeqView,
    ConfseqError,
>
    decreases fs.len(),
{
    if fs.len() == 0 {
        Ok(acc)
    } else if fs[0].0 == 1 && fs[0].1 is Len {
        confseq_fold(fs.drop_first(), ConfSeqView { revision: lossy_text(fs[0].1->Len_0), ..acc })
    } else if fs[0].0 == 2 && fs[0].1 is Len {
        confseq_fold(fs.drop_first(), ConfSeqView { name: lossy_text(fs[0].1->Len_0), ..acc })
    } else if fs[0].0 == 4 && fs[0].1 is Len {
        match item_spec(fs[0].1->Len_0) {
            Err(e) => Err(e),
            Ok(it) => confseq_fold(fs.drop_first(), ConfSeqView { items: acc.items.push(it), ..acc }),
        }
    } else {
        confseq_fold(fs.drop_first(), acc)
    }
}

/// The empty confseq the fold starts from.
pub open spec fn empty_confseq() -> ConfSeqView {
    ConfSeqView { revision: Seq::empty(), name: Seq::empty(), items: Seq::empty() }
}

/// Decode an uncompressed confseq message.
pub open spec fn decode_plain_spec(b: Seq<u8>) -> Result<ConfSeqView, ConfseqError> {
    match fields_spec(b) {
        Err(e) => Err(e),
        Ok(fs) => confseq_fold(fs, empty_confseq()),
    }
}

/// Decode a confseq file: a CLZ4 container is unpacked first.
pub open spec fn decode_spec(b: Seq<u8>) -> Result<ConfSeqView, ErrorView> {
    if is_clz4_spec(b) {
        match decompress_spec(b) {
            Err(e) => Err(ErrorView::Clz4(e)),
            Ok(p) => match decode_plain_spec(p) {
                Ok(c) => Ok(c),
                Err(e) => Err(ErrorView::Confseq(e)),
            },
        }
    } else {
        match decode_plain_spec(b) {
            Ok(c) => Ok(c),
            Err(e) => Err(ErrorView::Confseq(e)),
        }
    }
}

fn decode_group(item: &[u8]) -> (r: Result<Vec<i64>, Error>)
    ensures
        match fields_spec(item@) {
            Ok(gfs) => r matches Ok(g) && g@ == group_values(gfs),
            Err(e) => r matches Err(x) && x == Error::Confseq(e),
        },
{
    let gfs = match fields(item) {
        Ok(v) => v,
        Err(e) => return Err(e),
    };
    let ghost all = view_fields(gfs@);
    let mut group: Vec<i64> = Vec::new();
    let mut k: usize = 0;
    assert(all.skip(0) =~= all);
    while k < gfs.len()
        invariant
            k <= gfs.len(),
            all == view_fields(gfs@),
            group_values(all) == group@ + group_values(all.skip(k as int)),
        decreases gfs.len() - k,
    {
        assert(all.skip(k as int).drop_first() =~= all.skip(k + 1));
        let ghost prev = group@;
        let (g, gv) = &gfs[k];
        match gv {
            Val::Var(v) => {
                if *g == 3 {
                    #[verifier::truncate]
                    let x = *v as i64;
                    group.push(x);
                    assert(group@ + group_values(all.skip(k + 1)) =~= prev + (seq![x]
                        + group_values(all.skip(k + 1))));
                }
            },
            Val::Len(_) => {},
        }
        k = k + 1;
    }
    assert(all.skip(k as int).len() == 0);
    assert(group@ + Seq::<i64>::empty() =~= group@);
    Ok(group)
}

fn decode_item(s: &[u8]) -> (r: Result<NvItem, Error>)
    ensures
        match item_spec(s@) {
            Ok(it) => r matches Ok(x) && x@ == it,
            Err(e) => r matches Err(x) && x == Error::Confseq(e),
        },
{
    let ifs = match fields(s) {
        Ok(v) => v,
        Err(e) => return Err(e),
    };
    let ghost all = view_fields(ifs@);
    let mut id: u32 = 0;
    let mut vals: Vec<Vec<i64>> = Vec::new();
    let mut k: usize = 0;
    assert(all.skip(0) =~= all);
    assert(groups_view(vals@) =~= Seq::<Seq<i64>>::empty());
    while k < ifs.len()
        invariant
            k <= ifs.len(),
            all == view_fields(ifs@),
            fields_spec(s@) matches Ok(fs) && fs == all,
            item_fold(all, 0, Seq::empty()) == item_fold(all.skip(k as int), id, groups_view(vals@)),
        decreases ifs.len() - k,
    {
        assert(all.skip(k as int).drop_first() =~= all.skip(k + 1));
        let (f, fv) = &ifs[k];
        assert(all.skip(k as int)[0] == (*f, fv@));
        match fv {
            Val::Var(v) => {
                if *f == 1 {
                    #[verifier::truncate]
                    let x = *v as u32;
                    id = x;
                }
            },
            Val::Len(item) => {
                if *f == 2 {
                    let group = match decode_group(item) {
                        Ok(g) => g,
                        Err(e) => {
                            assert(fields_spec(item@) is Err);
                            assert(item_fold(all.skip(k as int), id, groups_view(vals@)) matches Err(
                                ee,
                            ) && e == Error::Confseq(ee));
                            return Err(e);
                        },
                    };
                    let ghost prev = groups_view(vals@);
                    vals.push(group);
                    assert(groups_view(vals@) =~= prev.push(group@));
                }
            },
        }
        k = k + 1;
    }
    Ok(NvItem { id, vals })
}

fn decode_plain(plain: &[u8]) -> (r: Result<ConfSeq, Error>)
    ensures
        match decode_plain_spec(plain@) {
            Ok(c) => r matches Ok(x) && x@ == c,
            Err(e) => r matches Err(x) && x == Error::Confseq(e),
        },
{
    let fs = match fields(plain) {
        Ok(v) => v,
        Err(e) => return Err(e),
    };
    let ghost all = view_fields(fs@);
    let mut revision = String::new();
    let mut name = String::new();
    let mut items: Vec<NvItem> = Vec::new();
    let mut k: usize = 0;
    assert(all.skip(0) =~= all);
    assert(items_view(items@) =~= Seq::<NvItemView>::empty());
    assert(revision@ == Seq::<char>::empty());
    while k < fs.len()
        invariant
            k <= fs.len(),
            all == view_fields(fs@),
            fields_spec(plain@) matches Ok(x) && x == all,
            confseq_fold(all, empty_confseq()) == confseq_fold(
                all.skip(k as int),
                ConfSeqView { revision: revision@, name: name@, items: items_view(items@) },
            ),
        decreases fs.len() - k,
    {
        assert(all.skip(k as int).drop_first() =~= all.skip(k + 1));
        let (f, fv) = &fs[k];
        assert(all.skip(k as int)[0] == (*f, fv@));
        match fv {
            Val::Var(_) => {},
            Val::Len(s) => {
                if *f == 1 {
                    revision = utf8_lossy_string(s);
                } else if *f == 2 {
                    name = utf8_lossy_string(s);
                } else if *f == 4 {
                    let it = match decode_item(s) {
                        Ok(it) => it,
                        Err(e) => {
                            assert(item_spec(s@) is Err);
                            return Err(e);
                        },
                    };
                    let ghost prev = items_view(items@);
                    items.push(it);
                    assert(items_view(items@) =~= prev.push(it@));
                }
            },
        }
        k = k + 1;
    }
    Ok(ConfSeq { revision, name, items })
}

impl ConfSeq {
    /// Decode a confseq file, unpacking a CLZ4 container first.
    pub fn decode(buf: &[u8]) -> (r: Result<ConfSeq, Error>)
        ensures
            match decode_spec(buf@) {
                Ok(c) => r matches Ok(x) && x@ == c,
                Err(e) => r matches Err(x) && x@ == e,
            },
    {
        if is_clz4(buf) {
            match decompress(buf) {
                Ok(p) => decode_plain(p.as_slice()),
                Err(e) => Err(e),
            }
        } else {
            decode_plain(buf)
        }
    }
}


/// Reading a varint at an index behind a prefix `p` reads it from `s` alone,
/// with the end index moved by the prefix length.
pub proof fn lemma_varint_shift(p: Seq<u8>, s: Seq<u8>, i: int, sh: u32, acc: u64)
    requires
        0 <= i,
    ensures
        varint_from(p + s, p.len() + i, sh, acc) == (match varint_from(s, i, sh, acc) {
            Some((v, j)) => Some((v, j + p.len())),
            None => None,
        }),
    decreases s.len() - i,
{
    if i < s.len() {
        assert((p + s)[p.len() + i] == s[i]);
        let byte = s[i];
        let acc2 = acc | (((byte & 0x7f) as u64) << ((sh % 64) as u64));
        if byte & 0x80 != 0 {
            lemma_varint_shift(p, s, i + 1, vstd::wrapping::u32_specs::wrapping_add(sh, 7), acc2);
        }
    }
}

/// A varint that ends inside `x` reads the same when more bytes follow.
pub proof fn lemma_varint_prefix(x: Seq<u8>, r: Seq<u8>, i: int, sh: u32, acc: u64)
    requires
        0 <= i,
        varint_from(x, i, sh, acc) is Some,
    ensures
        varint_from(x + r, i, sh, acc) == varint_from(x, i, sh, acc),
    decreases x.len() - i,
{
    if i < x.len() {
        assert((x + r)[i] == x[i]);
        let byte = x[i];
        let acc2 = acc | (((byte & 0x7f) as u64) << ((sh % 64) as u64));
        if byte & 0x80 != 0 {
            lemma_varint_prefix(x, r, i + 1, vstd::wrapping::u32_specs::wrapping_add(sh, 7), acc2);
        }
    }
}

/// Reading back the encoding of `w` at shift `sh` over bits `acc` below it.
pub proof fn lemma_varint_encoding(w: u64, sh: u32, acc: u64)
    requires
        sh <= 63,
        acc >> (sh as u64) == 0,
        sh == 0 || w >> ((64 - sh) as u64) == 0,
    ensures
        varint_from(varint_bytes(w), 0, sh, acc) == Some(
            (acc | (w << (sh as u64)), varint_bytes(w).len() as int),
        ),
    decreases w,
{
    let s = sh as u64;
    assert(sh % 64 == sh);
    if w >> 7 == 0 {
        let byte = (w & 0x7f) as u8;
        assert(byte & 0x80 == 0 && ((byte & 0x7f) as u64) == w) by (bit_vector)
            requires
                byte == (w & 0x7f) as u8,
                w >> 7 == 0,
        ;
    } else {
        let byte = ((w & 0x7f) | 0x80) as u8;
        let acc2 = acc | (((byte & 0x7f) as u64) << s);
        assert(byte & 0x80 != 0 && ((byte & 0x7f) as u64) == w & 0x7f) by (bit_vector)
            requires
                byte == ((w & 0x7f) | 0x80) as u8,
        ;
        assert(s <= 56) by (bit_vector)
            requires
                s <= 63,
                s == 0 || w >> ((64 - s) as u64) == 0,
                w >> 7 != 0,
        ;
        let s7 = (s + 7) as u64;
        assert(acc2 >> s7 == 0 && (w >> 7) >> ((64 - s7) as u64) == 0 && (acc2 | ((w >> 7) << s7))
            == (acc | (w << s))) by (bit_vector)
            requires
                s <= 56,
                s7 == s + 7,
                acc >> s == 0,
                s == 0 || w >> ((64 - s) as u64) == 0,
                acc2 == acc | ((w & 0x7f) << s),
        ;
        assert(w >> 7 < w) by (bit_vector)
            requires
                w >> 7 != 0,
        ;
        let rest = varint_bytes(w >> 7);
        assert(varint_bytes(w) == seq![byte] + rest);
        let sh2 = vstd::wrapping::u32_specs::wrapping_add(sh, 7);
        assert(sh2 == sh + 7);
        lemma_varint_encoding(w >> 7, sh2, acc2);
        lemma_varint_shift(seq![byte], rest, 0, sh2, acc2);
        assert((seq![byte] + rest)[0] == byte);
    }
}

/// Reading the encoding of `v` from its start gives `v` and its length.
pub proof fn lemma_varint_roundtrip(v: u64)
    ensures
        varint_at(varint_bytes(v), 0) == Some((v, varint_bytes(v).len() as int)),
{
    assert((0u64 >> 0u64) == 0) by (bit_vector);
    lemma_varint_encoding(v, 0, 0);
    assert((0u64 | (v << 0u64)) == v) by (bit_vector);
}

/// Reading the encoding of `v` at the start of `x + r`.
pub proof fn lemma_varint_read_front(v: u64, r: Seq<u8>)
    ensures
        varint_at(varint_bytes(v) + r, 0) == Some((v, varint_bytes(v).len() as int)),
{
    lemma_varint_roundtrip(v);
    lemma_varint_prefix(varint_bytes(v), r, 0, 0, 0);
}

/// Reading the encoding of `v` behind a prefix `p`, with more bytes after it.
pub proof fn lemma_varint_read_at(p: Seq<u8>, v: u64, r: Seq<u8>)
    ensures
        varint_at(p + (varint_bytes(v) + r), p.len() as int) == Some(
            (v, p.len() + varint_bytes(v).len() as int),
        ),
{
    lemma_varint_read_front(v, r);
    lemma_varint_shift(p, varint_bytes(v) + r, 0, 0, 0);
}

/// Walking fields behind a prefix `p` walks them in `s` alone.
pub proof fn lemma_fields_shift(p: Seq<u8>, s: Seq<u8>, i: int)
    requires
        0 <= i,
    ensures
        fields_from(p + s, p.len() + i) == fields_from(s, i),
    decreases s.len() - i,
{
    if i < s.len() {
        let b = p + s;
        let q = p.len() as int;
        lemma_varint_shift(p, s, i, 0, 0);
        lemma_varint_from_bounds(s, i, 0, 0);
        if let Some((t, j)) = varint_at(s, i) {
            let wire = (t & 7) as u32;
            lemma_varint_shift(p, s, j, 0, 0);
            lemma_varint_from_bounds(s, j, 0, 0);
            if wire == 0 {
                if let Some((v, k)) = varint_at(s, j) {
                    lemma_fields_shift(p, s, k);
                }
            } else if wire == 2 {
                if let Some((n, k)) = varint_at(s, j) {
                    let n = n as usize;
                    if k + n <= s.len() {
                        assert(b.subrange(q + k, q + k + n) =~= s.subrange(k, k + n));
                        lemma_fields_shift(p, s, k + n);
                    }
                }
            } else if wire == 5 {
                if j + 4 < s.len() {
                    lemma_fields_shift(p, s, j + 4);
                }
            } else if wire == 1 {
                if j + 8 < s.len() {
                    lemma_fields_shift(p, s, j + 8);
                }
            }
        }
    }
}

/// The encoding of one field, as the encoder writes it.
pub open spec fn field_bytes(f: (u32, WireVal)) -> Seq<u8> {
    match f.1 {
        WireVal::Var(v) => varint_bytes(tag_spec(f.0, 0)) + varint_bytes(v),
        WireVal::Len(p) => len_delim_bytes(f.0, p),
    }
}

/// The encoding of a run of fields.
pub open spec fn fields_bytes(fs: Seq<(u32, WireVal)>) -> Seq<u8>
    decreases fs.len(),
{
    if fs.len() == 0 {
        Seq::empty()
    } else {
        fields_bytes(fs.drop_last()) + field_bytes(fs.last())
    }
}

/// `fields_bytes` peels from the front as well.
pub proof fn lemma_fields_bytes_front(fs: Seq<(u32, WireVal)>)
    requires
        fs.len() > 0,
    ensures
        fields_bytes(fs) == field_bytes(fs[0]) + fields_bytes(fs.drop_first()),
    decreases fs.len(),
{
    if fs.len() == 1 {
        assert(fs.drop_last() =~= Seq::<(u32, WireVal)>::empty());
        assert(fs.drop_first() =~= Seq::<(u32, WireVal)>::empty());
        assert(fields_bytes(fs) =~= field_bytes(fs[0]) + fields_bytes(fs.drop_first()));
    } else {
        lemma_fields_bytes_front(fs.drop_last());
        assert(fs.drop_last().drop_first() =~= fs.drop_first().drop_last());
        assert(fs.drop_first().last() == fs.last());
        assert(fs.drop_last()[0] == fs[0]);
        assert(fields_bytes(fs) =~= field_bytes(fs[0]) + fields_bytes(fs.drop_first()));
    }
}

/// Walking a message that starts with one encoded field yields that field
/// first, then the fields of the rest.
pub proof fn lemma_fields_first(f: (u32, WireVal), rest: Seq<u8>)
    requires
        (field_bytes(f) + rest).len() <= usize::MAX,
    ensures
        fields_from(field_bytes(f) + rest, 0) == prepend_fields(seq![f], fields_from(rest, 0)),
{
    let b = field_bytes(f) + rest;
    match f.1 {
        WireVal::Var(v) => {
            let t = tag_spec(f.0, 0);
            let tb = varint_bytes(t);
            let vb = varint_bytes(v);
            assert(b =~= tb + (vb + rest));
            lemma_varint_read_front(t, vb + rest);
            let fnum: u32 = f.0;
            assert(((t >> 3) as u32) == fnum && ((t & 7) as u32) == 0) by (bit_vector)
                requires
                    t == ((fnum as u64) << 3) | (0u32 as u64),
            ;
            lemma_varint_read_at(tb, v, rest);
            assert(b =~= (tb + vb) + rest);
            lemma_fields_shift(tb + vb, rest, 0);
        },
        WireVal::Len(pl) => {
            let t = tag_spec(f.0, 2);
            let tb = varint_bytes(t);
            let n = pl.len() as u64;
            let nb = varint_bytes(n);
            assert(b =~= tb + (nb + (pl + rest)));
            lemma_varint_read_front(t, nb + (pl + rest));
            let fnum: u32 = f.0;
            assert(((t >> 3) as u32) == fnum && ((t & 7) as u32) == 2) by (bit_vector)
                requires
                    t == ((fnum as u64) << 3) | (2u32 as u64),
            ;
            lemma_varint_read_at(tb, n, pl + rest);
            let k: int = tb.len() as int + nb.len() as int;
            assert(b =~= (tb + nb) + (pl + rest));
            assert((n as usize) as int == pl.len());
            assert(b.subrange(k, k + pl.len() as int) =~= pl);
            assert(b =~= ((tb + nb) + pl) + rest);
            lemma_fields_shift((tb + nb) + pl, rest, 0);
        },
    }
}

/// Walking the encoding of a run of fields (followed by more bytes) yields
/// that run, then the fields of what follows.
pub proof fn lemma_fields_bytes_walk(fs: Seq<(u32, WireVal)>, rest: Seq<u8>)
    requires
        (fields_bytes(fs) + rest).len() <= usize::MAX,
    ensures
        fields_from(fields_bytes(fs) + rest, 0) == prepend_fields(fs, fields_from(rest, 0)),
    decreases fs.len(),
{
    if fs.len() == 0 {
        assert(fields_bytes(fs) + rest =~= rest);
        if let Ok(r) = fields_from(rest, 0) {
            assert(fs + r =~= r);
        }
    } else {
        lemma_fields_bytes_front(fs);
        let tail = fields_bytes(fs.drop_first()) + rest;
        assert(fields_bytes(fs) + rest =~= field_bytes(fs[0]) + tail);
        lemma_fields_first(fs[0], tail);
        lemma_fields_bytes_walk(fs.drop_first(), rest);
        lemma_prepend_assoc(seq![fs[0]], fs.drop_first(), fields_from(rest, 0));
        assert(seq![fs[0]] + fs.drop_first() =~= fs);
    }
}

/// Walking the encoding of a run of fields yields exactly that run.
pub proof fn lemma_fields_bytes_roundtrip(fs: Seq<(u32, WireVal)>)
    requires
        fields_bytes(fs).len() <= usize::MAX,
    ensures
        fields_spec(fields_bytes(fs)) == Ok::<Seq<(u32, WireVal)>, ConfseqError>(fs),
{
    lemma_fields_bytes_walk(fs, Seq::empty());
    assert(fields_bytes(fs) + Seq::<u8>::empty() =~= fields_bytes(fs));
    assert(fs + Seq::<(u32, WireVal)>::empty() =~= fs);
}


/// The fields of one `Val` group: each value as a field-3 varint.
pub open spec fn group_fields(g: Seq<i64>) -> Seq<(u32, WireVal)> {
    g.map_values(|v: i64| (3u32, WireVal::Var(v as u64)))
}

/// The fields of one NV item: its id, then one `Val` submessage per group.
pub open spec fn item_fields(it: NvItemView) -> Seq<(u32, WireVal)> {
    seq![(1u32, WireVal::Var(it.id as u64))] + it.vals.map_values(
        |g: Seq<i64>| (2u32, WireVal::Len(fields_bytes(group_fields(g)))),
    )
}

/// The top-level fields of a confseq: revision, name, then one item each.
pub open spec fn confseq_fields(c: ConfSeqView) -> Seq<(u32, WireVal)> {
    seq![(1u32, WireVal::Len(encode_utf8(c.revision))), (2u32, WireVal::Len(encode_utf8(c.name)))]
        + c.items.map_values(|it: NvItemView| (4u32, WireVal::Len(fields_bytes(item_fields(it)))))
}

/// The bytes `encode` writes for a confseq.
pub open spec fn encode_spec(c: ConfSeqView) -> Seq<u8> {
    fields_bytes(confseq_fields(c))
}

proof fn lemma_fields_bytes_take(fs: Seq<(u32, WireVal)>, n: int)
    requires
        0 <= n < fs.len(),
    ensures
        fields_bytes(fs.take(n + 1)) == fields_bytes(fs.take(n)) + field_bytes(fs[n]),
{
    assert(fs.take(n + 1).drop_last() =~= fs.take(n));
    assert(fs.take(n + 1).last() == fs[n]);
}

/// One field's encoding is no longer than the encoding of a run holding it.
proof fn lemma_fields_bytes_len(fs: Seq<(u32, WireVal)>, i: int)
    requires
        0 <= i < fs.len(),
    ensures
        field_bytes(fs[i]).len() <= fields_bytes(fs).len(),
    decreases fs.len(),
{
    if i < fs.len() - 1 {
        lemma_fields_bytes_len(fs.drop_last(), i);
    }
}

/// A payload is no longer than its field's encoding.
proof fn lemma_payload_len(f: u32, p: Seq<u8>)
    ensures
        p.len() <= field_bytes((f, WireVal::Len(p))).len(),
{
}

proof fn lemma_group_roundtrip(g: Seq<i64>)
    ensures
        group_values(group_fields(g)) == g,
    decreases g.len(),
{
    if g.len() > 0 {
        assert(group_fields(g).drop_first() =~= group_fields(g.drop_first()));
        lemma_group_roundtrip(g.drop_first());
        let v = g[0];
        assert(((v as u64) as i64) == v) by (bit_vector);
        assert(seq![g[0]] + g.drop_first() =~= g);
    }
}

/// The `Val` submessages of an item, as `item_fields` lists them.
pub open spec fn vals_fields(gs: Seq<Seq<i64>>) -> Seq<(u32, WireVal)> {
    gs.map_values(|g: Seq<i64>| (2u32, WireVal::Len(fields_bytes(group_fields(g)))))
}

proof fn lemma_vals_fold(gs: Seq<Seq<i64>>, id: u32, acc: Seq<Seq<i64>>)
    requires
        forall|i: int| 0 <= i < gs.len() ==> #[trigger] fields_bytes(group_fields(gs[i])).len() <= usize::MAX,
    ensures
        item_fold(vals_fields(gs), id, acc) == Ok::<NvItemView, ConfseqError>(
            NvItemView { id, vals: acc + gs },
        ),
    decreases gs.len(),
{
    if gs.len() == 0 {
        assert(acc + gs =~= acc);
    } else {
        let fs = vals_fields(gs);
        assert(fields_bytes(group_fields(gs[0])).len() <= usize::MAX);
        lemma_fields_bytes_roundtrip(group_fields(gs[0]));
        lemma_group_roundtrip(gs[0]);
        assert(fs.drop_first() =~= vals_fields(gs.drop_first()));
        assert forall|i: int| 0 <= i < gs.drop_first().len() implies #[trigger] fields_bytes(
            group_fields(gs.drop_first()[i]),
        ).len() <= usize::MAX by {
            assert(gs.drop_first()[i] == gs[i + 1]);
        }
        lemma_vals_fold(gs.drop_first(), id, acc.push(gs[0]));
        assert(acc.push(gs[0]) + gs.drop_first() =~= acc + gs);
    }
}

/// Decoding the encoding of an NV item gives the item back.
proof fn lemma_item_roundtrip(it: NvItemView)
    requires
        fields_bytes(item_fields(it)).len() <= usize::MAX,
    ensures
        item_spec(fields_bytes(item_fields(it))) == Ok::<NvItemView, ConfseqError>(it),
{
    let fs = item_fields(it);
    lemma_fields_bytes_roundtrip(fs);
    let id = it.id;
    assert(((id as u64) as u32) == id) by (bit_vector);
    assert(fs.drop_first() =~= vals_fields(it.vals));
    assert forall|i: int| 0 <= i < it.vals.len() implies #[trigger] fields_bytes(
        group_fields(it.vals[i]),
    ).len() <= usize::MAX by {
        lemma_fields_bytes_len(fs, i + 1);
        assert(fs[i + 1] == (2u32, WireVal::Len(fields_bytes(group_fields(it.vals[i])))));
        lemma_payload_len(2, fields_bytes(group_fields(it.vals[i])));
    }
    lemma_vals_fold(it.vals, id, Seq::empty());
    assert(Seq::<Seq<i64>>::empty() + it.vals =~= it.vals);
}

/// The item entries of a confseq, as `confseq_fields` lists them.
pub open spec fn items_fields(items: Seq<NvItemView>) -> Seq<(u32, WireVal)> {
    items.map_values(|it: NvItemView| (4u32, WireVal::Len(fields_bytes(item_fields(it)))))
}

proof fn lemma_items_fold(items: Seq<NvItemView>, acc: ConfSeqView)
    requires
        forall|i: int| 0 <= i < items.len() ==> #[trigger] fields_bytes(item_fields(items[i])).len() <= usize::MAX,
    ensures
        confseq_fold(items_fields(items), acc) == Ok::<ConfSeqView, ConfseqError>(
            ConfSeqView { items: acc.items + items, ..acc },
        ),
    decreases items.len(),
{
    if items.len() == 0 {
        assert(acc.items + items =~= acc.items);
    } else {
        let fs = items_fields(items);
        assert(fields_bytes(item_fields(items[0])).len() <= usize::MAX);
        lemma_item_roundtrip(items[0]);
        assert(fs.drop_first() =~= items_fields(items.drop_first()));
        assert forall|i: int| 0 <= i < items.drop_first().len() implies #[trigger] fields_bytes(
            item_fields(items.drop_first()[i]),
        ).len() <= usize::MAX by {
            assert(items.drop_first()[i] == items[i + 1]);
        }
        let acc2 = ConfSeqView { items: acc.items.push(items[0]), ..acc };
        lemma_items_fold(items.drop_first(), acc2);
        assert(acc.items.push(items[0]) + items.drop_first() =~= acc.items + items);
    }
}

pub proof fn lemma_encode_not_clz4(c: ConfSeqView)
    ensures
        !is_clz4_spec(encode_spec(c)),
{
    let fs = confseq_fields(c);
    let b = encode_spec(c);
    lemma_fields_bytes_front(fs);
    assert(varint_bytes(tag_spec(1, 2)) == seq![10u8]) by {
        assert(tag_spec(1, 2) == 10) by (bit_vector);
        assert((10u64 >> 7) == 0) by (bit_vector);
        assert(((10u64 & 0x7f) as u8) == 10u8) by (bit_vector);
    }
    assert(b[0] == 10u8);
    assert(b.len() >= 16 ==> b.subrange(0, 4)[0] == 10u8);
}

proof fn lemma_text_roundtrip(s: Seq<char>)
    ensures
        lossy_text(encode_utf8(s)) == s,
{
    vstd::utf8::encode_utf8_valid_utf8(s);
    vstd::utf8::encode_utf8_decode_utf8(s);
}

proof fn lemma_item_lengths(c: ConfSeqView)
    requires
        encode_spec(c).len() <= usize::MAX,
    ensures
        forall|i: int| 0 <= i < c.items.len() ==> #[trigger] fields_bytes(item_fields(c.items[i])).len() <= usize::MAX,
{
    let fs = confseq_fields(c);
    assert forall|i: int| 0 <= i < c.items.len() implies #[trigger] fields_bytes(
        item_fields(c.items[i]),
    ).len() <= usize::MAX by {
        lemma_fields_bytes_len(fs, i + 2);
        assert(fs[i + 2] == (4u32, WireVal::Len(fields_bytes(item_fields(c.items[i])))));
        lemma_payload_len(4, fields_bytes(item_fields(c.items[i])));
    }
}

proof fn lemma_decode_plain_encode(c: ConfSeqView)
    requires
        encode_spec(c).len() <= usize::MAX,
    ensures
        decode_plain_spec(encode_spec(c)) == Ok::<ConfSeqView, ConfseqError>(c),
{
    let fs = confseq_fields(c);
    lemma_fields_bytes_roundtrip(fs);
    let rest = fs.drop_first().drop_first();
    assert(rest =~= items_fields(c.items));
    lemma_item_lengths(c);
    let acc = ConfSeqView { revision: c.revision, name: c.name, items: Seq::empty() };
    lemma_items_fold(c.items, acc);
    assert(fs.drop_first()[0] == fs[1]);
    lemma_text_roundtrip(c.revision);
    lemma_text_roundtrip(c.name);
    let acc1 = ConfSeqView { revision: c.revision, ..empty_confseq() };
    assert(confseq_fold(fs, empty_confseq()) == confseq_fold(fs.drop_first(), acc1));
    assert(confseq_fold(fs.drop_first(), acc1) == confseq_fold(rest, acc));
    assert(Seq::<NvItemView>::empty() + c.items =~= c.items);
}

/// The codec round trip: decoding what `encode` writes gives the same
/// confseq back (revision, name, and every item with its exact value grouping).
pub proof fn law_encode_decode_roundtrip(c: ConfSeqView)
    requires
        encode_spec(c).len() <= usize::MAX,
    ensures
        decode_spec(encode_spec(c)) == Ok::<ConfSeqView, ErrorView>(c),
{
    lemma_encode_not_clz4(c);
    lemma_decode_plain_encode(c);
}

/// The wire fields of an NV item message: the id as field 1, then one
/// field-2 `Val` submessage per group, holding its values as field-3 varints.
pub open spec fn nv_item_wire(it: NvItemView) -> Seq<(u32, WireVal)> {
    seq![(1u32, WireVal::Var(it.id as u64))] + it.vals.map_values(
        |g: Seq<i64>|
            (2u32, WireVal::Len(fields_bytes(g.map_values(|v: i64| (3u32, WireVal::Var(v as u64)))))),
    )
}

/// The wire fields of a confseq message with these revision and name bytes:
/// revision as field 1, name as field 2, then each item as a field-4 message.
pub open spec fn confseq_wire(rev: Seq<u8>, name: Seq<u8>, items: Seq<NvItemView>) -> Seq<(u32, WireVal)> {
    seq![(1u32, WireVal::Len(rev)), (2u32, WireVal::Len(name))] + items.map_values(
        |it: NvItemView| (4u32, WireVal::Len(fields_bytes(nv_item_wire(it)))),
    )
}

proof fn lemma_wire_is_encoding(rev: Seq<u8>, name: Seq<u8>, items: Seq<NvItemView>)
    ensures
        confseq_wire(rev, name, items) == seq![(1u32, WireVal::Len(rev)), (2u32, WireVal::Len(name))]
            + items_fields(items),
{
    assert forall|it: NvItemView| nv_item_wire(it) == item_fields(it) by {
        assert forall|g: Seq<i64>| g.map_values(|v: i64| (3u32, WireVal::Var(v as u64))) == group_fields(g) by {
            assert(g.map_values(|v: i64| (3u32, WireVal::Var(v as u64))) =~= group_fields(g));
        }
        assert(nv_item_wire(it) =~= item_fields(it));
    }
    assert(items_fields(items) =~= items.map_values(
        |it: NvItemView| (4u32, WireVal::Len(fields_bytes(nv_item_wire(it)))),
    ));
    assert(confseq_wire(rev, name, items) =~= seq![(1u32, WireVal::Len(rev)), (2u32, WireVal::Len(name))]
        + items_fields(items));
}

/// Encoding writes the revision as field 1, the name as field 2 and each NV
/// item as a field-4 message (tag `0x22`) of its id and value groups.
pub proof fn law_encode_wire_format(c: ConfSeqView)
    requires
        encode_spec(c).len() <= usize::MAX,
    ensures
        fields_spec(encode_spec(c)) == Ok::<Seq<(u32, WireVal)>, ConfseqError>(
            confseq_wire(encode_utf8(c.revision), encode_utf8(c.name), c.items),
        ),
{
    lemma_wire_is_encoding(encode_utf8(c.revision), encode_utf8(c.name), c.items);
    assert(confseq_fields(c) =~= confseq_wire(encode_utf8(c.revision), encode_utf8(c.name), c.items));
    lemma_fields_bytes_roundtrip(confseq_fields(c));
}

/// A message whose first field is a field-1 length-delimited field starts
/// with the byte `0x0a`, so it is no CLZ4 container.
proof fn lemma_field_one_not_clz4(fs: Seq<(u32, WireVal)>, rev: Seq<u8>)
    requires
        fs.len() > 0,
        fs[0] == (1u32, WireVal::Len(rev)),
    ensures
        !is_clz4_spec(fields_bytes(fs)),
{
    let b = fields_bytes(fs);
    lemma_fields_bytes_front(fs);
    assert(varint_bytes(tag_spec(1, 2)) == seq![10u8]) by {
        assert(tag_spec(1, 2) == 10) by (bit_vector);
        assert((10u64 >> 7) == 0) by (bit_vector);
        assert(((10u64 & 0x7f) as u8) == 10u8) by (bit_vector);
    }
    assert(b[0] == 10u8);
    assert(b.len() >= 16 ==> b.subrange(0, 4)[0] == 10u8);
}

#[verifier::rlimit(40)]
proof fn lemma_decode_plain_wire(rev: Seq<u8>, name: Seq<u8>, items: Seq<NvItemView>)
    requires
        fields_bytes(confseq_wire(rev, name, items)).len() <= usize::MAX,
    ensures
        decode_plain_spec(fields_bytes(confseq_wire(rev, name, items))) == Ok::<ConfSeqView, ConfseqError>(
            ConfSeqView { revision: lossy_text(rev), name: lossy_text(name), items },
        ),
{
    let fs = confseq_wire(rev, name, items);
    lemma_wire_is_encoding(rev, name, items);
    lemma_fields_bytes_roundtrip(fs);
    assert forall|i: int| 0 <= i < items.len() implies #[trigger] fields_bytes(item_fields(items[i])).len()
        <= usize::MAX by {
        lemma_fields_bytes_len(fs, i + 2);
        assert(fs[i + 2] == (4u32, WireVal::Len(fields_bytes(item_fields(items[i])))));
        lemma_payload_len(4, fields_bytes(item_fields(items[i])));
    }
    let rest = fs.drop_first().drop_first();
    assert(rest =~= items_fields(items));
    let acc = ConfSeqView { revision: lossy_text(rev), name: lossy_text(name), items: Seq::empty() };
    lemma_items_fold(items, acc);
    assert(fs.drop_first()[0] == fs[1]);
    let acc1 = ConfSeqView { revision: lossy_text(rev), ..empty_confseq() };
    assert(confseq_fold(fs, empty_confseq()) == confseq_fold(fs.drop_first(), acc1));
    assert(confseq_fold(fs.drop_first(), acc1) == confseq_fold(rest, acc));
    assert(Seq::<NvItemView>::empty() + items =~= items);
}

/// A confseq message on the wire, made of a field-1 revision, a field-2 name
/// and field-4 NV item messages (an id in field 1, one field-2 `Val` per
/// group holding field-3 values), decodes to that revision, name and those
/// items, in order.
pub proof fn law_decode_wire_format(rev: Seq<u8>, name: Seq<u8>, items: Seq<NvItemView>)
    requires
        fields_bytes(confseq_wire(rev, name, items)).len() <= usize::MAX,
    ensures
        decode_spec(fields_bytes(confseq_wire(rev, name, items))) == Ok::<ConfSeqView, ErrorView>(
            ConfSeqView { revision: lossy_text(rev), name: lossy_text(name), items },
        ),
{
    lemma_decode_plain_wire(rev, name, items);
    lemma_field_one_not_clz4(confseq_wire(rev, name, items), rev);
}

impl ConfSeq {
    /// Encode as a plain (uncompressed) confseq message: revision, name, then one
    /// field-4 item per NV item, each value group as its own `Val` submessage.
    /// Decoding the result gives this confseq back.
    pub fn encode(&self) -> (out: Vec<u8>)
        ensures
            out@ == encode_spec(self@),
            decode_spec(out@) == Ok::<ConfSeqView, ErrorView>(self@),
    {
        let ghost all = confseq_fields(self@);
        let mut out: Vec<u8> = Vec::new();
        write_len_delim(&mut out, 1, self.revision.as_str().as_bytes());
        proof {
            lemma_fields_bytes_take(all, 0);
            assert(all.take(0) =~= Seq::<(u32, WireVal)>::empty());
        }
        write_len_delim(&mut out, 2, self.name.as_str().as_bytes());
        proof {
            lemma_fields_bytes_take(all, 1);
        }
        let mut k: usize = 0;
        while k < self.items.len()
            invariant
                k <= self.items.len(),
                all == confseq_fields(self@),
                all.len() == self.items.len() + 2,
                out@ == fields_bytes(all.take(k + 2)),
            decreases self.items.len() - k,
        {
            let it = &self.items[k];
            let ghost ifs = item_fields(it@);
            let mut item: Vec<u8> = Vec::new();
            write_varint(&mut item, tag(1, 0));
            write_varint(&mut item, it.id as u64);
            proof {
                lemma_fields_bytes_take(ifs, 0);
                assert(ifs.take(0) =~= Seq::<(u32, WireVal)>::empty());
                assert(item@ =~= fields_bytes(ifs.take(1)));
            }
            let mut g: usize = 0;
            while g < it.vals.len()
                invariant
                    g <= it.vals.len(),
                    ifs == item_fields(it@),
                    ifs.len() == it.vals.len() + 1,
                    item@ == fields_bytes(ifs.take(g + 1)),
                decreases it.vals.len() - g,
            {
                let group = &it.vals[g];
                let ghost gfs = group_fields(group@);
                let mut val: Vec<u8> = Vec::new();
                let mut j: usize = 0;
                assert(gfs.take(0) =~= Seq::<(u32, WireVal)>::empty());
                while j < group.len()
                    invariant
                        j <= group.len(),
                        gfs == group_fields(group@),
                        val@ == fields_bytes(gfs.take(j as int)),
                    decreases group.len() - j,
                {
                    write_varint(&mut val, tag(3, 0));
                    #[verifier::truncate]
                    let bits = group[j] as u64;
                    write_varint(&mut val, bits);
                    proof {
                        lemma_fields_bytes_take(gfs, j as int);
                    }
                    j = j + 1;
                }
                assert(gfs.take(group.len() as int) =~= gfs);
                write_len_delim(&mut item, 2, val.as_slice());
                proof {
                    lemma_fields_bytes_take(ifs, g + 1);
                    assert(ifs[g + 1] == (2u32, WireVal::Len(fields_bytes(group_fields(it.vals@[g as int]@)))));
                }
                g = g + 1;
            }
            assert(ifs.take(it.vals.len() + 1) =~= ifs);
            write_len_delim(&mut out, 4, item.as_slice());
            proof {
                lemma_fields_bytes_take(all, k + 2);
                assert(all[k + 2] == (4u32, WireVal::Len(fields_bytes(item_fields(self.items@[k as int]@)))));
            }
            k = k + 1;
        }
        assert(all.take(self.items.len() + 2) =~= all);
        assert(out@.len() == out.len());
        proof {
            law_encode_decode_roundtrip(self@);
        }
        out
    }
}

} // verus!
