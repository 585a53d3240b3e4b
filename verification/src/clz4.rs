//! CLZ4 container: a 16-byte header (`CLZ4` magic, uncompressed size,
//! compressed size, zeroed checksum) followed by one LZ4 block.
use vstd::prelude::*;

use crate::error::{Clz4Error, Clz4ErrorView, Error, ErrorView};

verus! {

/// What `lz4_flex::block::decompress` returns for a block and an output size:
/// the decompressed bytes, or the decoder's error message.
pub uninterp spec fn lz4_block_decompress(block: Seq<u8>, size: usize) -> Result<Seq<u8>, Seq<char>>;

/// An LZ4 extended length read from index `i` on, as the decoder's
/// `read_integer` reads it: a `0xFF` byte adds 255 and the reading goes on,
/// any other byte adds itself and ends it. Gives the sum of the bytes read
/// (from `acc`), the index after them, and whether a closing byte came before
/// the block ended.
pub open spec fn ext_length(b: Seq<u8>, i: int, acc: int) -> (int, int, bool)
    decreases b.len() - i,
{
    if i < 0 || i >= b.len() {
        (acc, i, false)
    } else if b[i] == 0xFF {
        ext_length(b, i + 1, acc + 255)
    } else {
        (acc + b[i], i + 1, true)
    }
}

/// An extended length reading never goes back, only adds, and moves on when
/// it closes.
pub proof fn lemma_ext_length(b: Seq<u8>, i: int, acc: int)
    requires
        0 <= i,
    ensures
        ext_length(b, i, acc).1 >= i,
        i <= b.len() ==> ext_length(b, i, acc).1 <= b.len(),
        ext_length(b, i, acc).0 >= acc,
        ext_length(b, i, acc).2 ==> ext_length(b, i, acc).1 > i,
    decreases b.len() - i,
{
    if i < b.len() && b[i] == 0xFF {
        lemma_ext_length(b, i + 1, acc + 255);
    }
}

/// Reading a block from the token at `i` on, every length the decoder sums
/// fits: each extended length fits the `u32` it is summed in, a literal
/// length (15 plus that sum) fits a `usize`, and a match length (19 plus that
/// sum) added to an output position of at most `size` does too. The reading
/// follows the decoder's tokens: a token, an extended literal length when its
/// high nibble is 15, the literals, then, unless the block ends there, a
/// two-byte offset and an extended match length when the token's low nibble
/// is 15. Where the decoder stops with an error (a length or the literals
/// running past the end), nothing more is read.
pub open spec fn lengths_fit_from(b: Seq<u8>, i: int, size: int) -> bool
    decreases b.len() - i,
{
    if i < 0 || i >= b.len() {
        true
    } else {
        let token = b[i];
        let lit = token / 16;
        let e1 = ext_length(b, i + 1, 0);
        let n1: int = if lit == 15 { e1.0 } else { 0 };
        let j: int = if lit == 15 { e1.1 } else { i + 1 };
        let closed1 = lit != 15 || e1.2;
        if n1 > u32::MAX || 15 + n1 > usize::MAX {
            false
        } else if !closed1 {
            true
        } else {
            let litlen: int = if lit == 15 { 15 + n1 } else { lit as int };
            if litlen > b.len() - j || j + litlen >= b.len() || j + litlen + 2 > b.len() {
                true
            } else if token % 16 == 15 {
                let e2 = ext_length(b, j + litlen + 2, 0);
                if e2.0 > u32::MAX || size + 19 + e2.0 > usize::MAX {
                    false
                } else if !e2.2 {
                    true
                } else {
                    proof {
                        lemma_ext_length(b, i + 1, 0);
                        lemma_ext_length(b, j + litlen + 2, 0);
                    }
                    lengths_fit_from(b, e2.1, size)
                }
            } else {
                proof {
                    lemma_ext_length(b, i + 1, 0);
                }
                lengths_fit_from(b, j + litlen + 2, size)
            }
        }
    }
}

/// The lengths a block encodes fit the decoder's counters (see
/// [`lengths_fit_from`]), and the output size fits the `isize` the decoder's
/// buffer allocation needs.
#[verifier::opaque]
pub open spec fn lz4_lengths_fit(block: Seq<u8>, size: usize) -> bool {
    &&& size <= isize::MAX
    &&& lengths_fit_from(block, 0, size as int)
}

/// Calls `lz4_flex::block::decompress`. Trusted: the result is the named
/// `lz4_block_decompress` of the arguments (the error turned into its message),
/// and a decoded block is never longer than the size asked for (the crate
/// allocates `size` bytes and truncates to what it wrote). With the crate's
/// default `checked-decode` feature, output that would not fit in `size`
/// bytes is reported as an error. The `requires` leaves out the blocks whose
/// length sums would overflow (`read_integer` adds the length bytes into a
/// `u32`, and the sum is then added to `usize` positions; an overflow panics
/// in a build that checks it) and sizes the allocation refuses.
#[verifier::external_body]
fn lz4_decompress_block(block: &[u8], size: usize) -> (r: Result<Vec<u8>, String>)
    requires
        lz4_lengths_fit(block@, size),
    ensures
        r matches Ok(v) ==> lz4_block_decompress(block@, size) matches Ok(w) && w == v@ && v@.len()
            <= size,
        r matches Err(m) ==> lz4_block_decompress(block@, size) matches Err(w) && w == m@,
{
    lz4_flex::block::decompress(block, size).map_err(|e| e.to_string())
}

/// Reads the extended length at `i`: its sum, the index after it and whether
/// it closed, as [`ext_length`] gives them; a sum past `u32::MAX` is reported
/// as such, the reading stopping there.
fn read_ext_length(b: &[u8], i: usize) -> (r: (u64, usize, bool))
    requires
        i <= b@.len(),
    ensures
        (r.0 > u32::MAX) == (ext_length(b@, i as int, 0).0 > u32::MAX),
        r.0 <= u32::MAX ==> r == (ext_length(b@, i as int, 0).0 as u64, ext_length(b@, i as int, 0).1 as usize, ext_length(b@, i as int, 0).2),
{
    let mut acc: u64 = 0;
    let mut pos: usize = i;
    while pos < b.len()
        invariant
            i <= pos <= b@.len(),
            acc <= u32::MAX,
            ext_length(b@, i as int, 0) == ext_length(b@, pos as int, acc as int),
        decreases b.len() - pos,
    {
        let x = b[pos];
        if x == 0xFF {
            let next = acc + 255;
            if next > 0xFFFF_FFFF {
                proof {
                    lemma_ext_length(b@, pos + 1, next as int);
                }
                return (next, pos + 1, false);
            }
            acc = next;
            pos = pos + 1;
        } else {
            return (acc + x as u64, pos + 1, true);
        }
    }
    (acc, pos, false)
}

/// Whether the lengths a block encodes fit the decoder (see
/// [`lz4_lengths_fit`]): the tokens are walked as the decoder walks them.
fn lengths_fit(block: &[u8], size: usize) -> (r: bool)
    ensures
        r == lz4_lengths_fit(block@, size),
{
    reveal(lz4_lengths_fit);
    if size > isize::MAX as usize {
        return false;
    }
    let b = block;
    let mut i: usize = 0;
    while i < b.len()
        invariant
            i <= b@.len(),
            b@ == block@,
            size <= isize::MAX,
            lengths_fit_from(b@, 0, size as int) == lengths_fit_from(b@, i as int, size as int),
        decreases b.len() - i,
    {
        let token = b[i];
        let lit = token / 16;
        proof {
            reveal(lz4_lengths_fit);
            lemma_ext_length(b@, i + 1, 0);
        }
        let mut j: usize = i + 1;
        let mut litlen: usize = lit as usize;
        if lit == 15 {
            let (n1, j1, closed1) = read_ext_length(b, i + 1);
            if n1 > 0xFFFF_FFFF {
                return false;
            }
            let n1u = n1 as usize;
            if n1u > usize::MAX - 15 {
                return false;
            }
            if !closed1 {
                return true;
            }
            j = j1;
            litlen = 15 + n1u;
        }
        if litlen > b.len() - j {
            return true;
        }
        if j + litlen >= b.len() || b.len() - (j + litlen) < 2 {
            return true;
        }
        let k = j + litlen + 2;
        if token % 16 == 15 {
            proof {
                lemma_ext_length(b@, k as int, 0);
            }
            let (n2, k2, closed2) = read_ext_length(b, k);
            if n2 > 0xFFFF_FFFF {
                return false;
            }
            let n2u = n2 as usize;
            if n2u > usize::MAX - 19 || size > usize::MAX - 19 - n2u {
                return false;
            }
            if !closed2 {
                return true;
            }
            i = k2;
        } else {
            i = k;
        }
    }
    true
}

/// Decompressing `block` with the length of `plain` as the size gives `plain`.
pub open spec fn decompresses_to(block: Seq<u8>, plain: Seq<u8>) -> bool {
    lz4_block_decompress(block, plain.len() as usize) matches Ok(w) && w == plain
}

/// The inputs `lz4_flex::block::compress` takes: the size of its output
/// buffer, `input_len * 110`, must fit a `usize` (else it panics).
pub open spec fn compress_input_ok(n: nat) -> bool {
    n * 110 <= usize::MAX
}

/// Inputs small enough that every length a compressed block holds fits the
/// decoder: the compressor writes no length longer than its input.
pub open spec fn lengths_bounded(n: nat) -> bool {
    n <= u32::MAX && 2 * n + 19 <= usize::MAX && n <= isize::MAX
}

/// What holds of every block `lz4_flex::block::compress` can make of `plain`
/// (which bytes it makes depends on the machine: its hash table reads words in
/// native order and width): it is no longer than the buffer the crate
/// allocates; it decompresses to `plain` whenever its lengths fit the
/// decoder; and they do fit when `plain` is short enough.
pub open spec fn lz4_block_of(plain: Seq<u8>, block: Seq<u8>) -> bool {
    &&& block.len() <= 20 + plain.len() * 110 / 100
    &&& lz4_lengths_fit(block, plain.len() as usize) ==> decompresses_to(block, plain)
    &&& lengths_bounded(plain.len()) ==> lz4_lengths_fit(block, plain.len() as usize)
}

/// Calls `lz4_flex::block::compress`. Trusted: the block is no longer than
/// the crate's `get_maximum_output_size(len) = 20 + len * 110 / 100`; it
/// decompresses to the input when its lengths fit the decoder (the crate's
/// round trip; `read_integer` overflows otherwise); and the compressor writes
/// no literal or match length longer than the input, so for an input of at
/// most `u32::MAX` bytes (with room in a `usize` for twice the input) every
/// extended length fits. The bytes of the block are not stated: they depend
/// on the machine. The `requires` leaves out inputs for which
/// `input_len * 110` overflows (the crate then panics).
#[verifier::external_body]
fn lz4_compress_block(plain: &[u8]) -> (r: Vec<u8>)
    requires
        compress_input_ok(plain@.len()),
    ensures
        lz4_block_of(plain@, r@),
{
    lz4_flex::block::compress(plain)
}

/// The four magic bytes `CLZ4`.
pub open spec fn clz4_magic() -> Seq<u8> {
    seq![0x43u8, 0x4cu8, 0x5au8, 0x34u8]
}

/// A buffer is a CLZ4 container when it holds at least the 16-byte header and
/// starts with the magic.
pub open spec fn is_clz4_spec(b: Seq<u8>) -> bool {
    b.len() >= 16 && b.subrange(0, 4) == clz4_magic()
}

/// Whether `buf` is a CLZ4 container.
pub fn is_clz4(buf: &[u8]) -> (r: bool)
    ensures
        r == is_clz4_spec(buf@),
{
    let r = buf.len() >= 16 && buf[0] == 0x43 && buf[1] == 0x4c && buf[2] == 0x5a && buf[3] == 0x34;
    proof {
        if buf@.len() >= 16 {
            if r {
                assert(buf@.subrange(0, 4) =~= clz4_magic());
            } else {
                if buf@.subrange(0, 4) == clz4_magic() {
                    assert(buf@.subrange(0, 4)[0] == 0x43);
                    assert(buf@.subrange(0, 4)[1] == 0x4c);
                    assert(buf@.subrange(0, 4)[2] == 0x5a);
                    assert(buf@.subrange(0, 4)[3] == 0x34);
                }
            }
        }
    }
    r
}

/// The little-endian `u32` in the four bytes at `off`.
pub open spec fn le32_at(b: Seq<u8>, off: int) -> int {
    b[off] + 256 * b[off + 1] + 65536 * b[off + 2] + 16777216 * b[off + 3]
}

/// The four little-endian bytes of `v`.
pub open spec fn le32_bytes(v: u32) -> Seq<u8> {
    seq![(v % 256) as u8, ((v / 256) % 256) as u8, ((v / 65536) % 256) as u8, (v / 16777216) as u8]
}

fn read_le32(b: &[u8], off: usize) -> (r: u32)
    requires
        off + 4 <= b@.len(),
    ensures
        r == le32_at(b@, off as int),
{
    b[off] as u32 + (b[off + 1] as u32) * 256 + (b[off + 2] as u32) * 65536 + (b[off + 3] as u32)
        * 16777216
}

fn push_le32(out: &mut Vec<u8>, v: u32)
    ensures
        final(out)@ == old(out)@ + le32_bytes(v),
{
    out.push((v % 256) as u8);
    out.push(((v / 256) % 256) as u8);
    out.push(((v / 65536) % 256) as u8);
    out.push((v / 16777216) as u8);
    assert(final(out)@ =~= old(out)@ + le32_bytes(v));
}

/// What unpacking `b` gives: the decompressed block, or why it failed.
pub open spec fn decompress_spec(b: Seq<u8>) -> Result<Seq<u8>, Clz4ErrorView> {
    if !is_clz4_spec(b) {
        Err(Clz4ErrorView::BadMagicOrTooShort)
    } else if 16 + le32_at(b, 8) > b.len() {
        Err(Clz4ErrorView::TruncatedPayload)
    } else if !lz4_lengths_fit(b.subrange(16, 16 + le32_at(b, 8)), le32_at(b, 4) as usize) {
        Err(Clz4ErrorView::LengthOverflow)
    } else {
        match lz4_block_decompress(b.subrange(16, 16 + le32_at(b, 8)), le32_at(b, 4) as usize) {
            Ok(p) => Ok(p),
            Err(m) => Err(Clz4ErrorView::Lz4(m)),
        }
    }
}

/// Unpack a CLZ4 container.
pub fn decompress(buf: &[u8]) -> (r: Result<Vec<u8>, Error>)
    ensures
        match decompress_spec(buf@) {
            Ok(p) => r matches Ok(v) && v@ == p,
            Err(e) => r matches Err(x) && x@ == ErrorView::Clz4(e),
        },
{
    if !is_clz4(buf) {
        return Err(Error::Clz4(Clz4Error::BadMagicOrTooShort));
    }
    let uncompressed = read_le32(buf, 4) as usize;
    let compressed = read_le32(buf, 8) as usize;
    if compressed > buf.len() - 16 {
        return Err(Error::Clz4(Clz4Error::TruncatedPayload));
    }
    let payload = &buf[16..16 + compressed];
    if !lengths_fit(payload, uncompressed) {
        return Err(Error::Clz4(Clz4Error::LengthOverflow));
    }
    match lz4_decompress_block(payload, uncompressed) {
        Ok(v) => Ok(v),
        Err(m) => Err(Error::Clz4(Clz4Error::Lz4(m))),
    }
}

/// The container built around a block for an input of `n` bytes: the magic,
/// the input size, the block size, a zero checksum, then the block.
pub open spec fn clz4_container(n: nat, block: Seq<u8>) -> Seq<u8> {
    clz4_magic() + le32_bytes(n as u32) + le32_bytes(block.len() as u32) + le32_bytes(0) + block
}

/// `c` is a container [`compress`] can build for `plain`: the container of a
/// block that `lz4_flex` can make of it.
pub open spec fn clz4_of(plain: Seq<u8>, c: Seq<u8>) -> bool {
    &&& c.len() >= 16
    &&& c == clz4_container(plain.len(), c.subrange(16, c.len() as int))
    &&& lz4_block_of(plain, c.subrange(16, c.len() as int))
}

/// Compress `plain` into a CLZ4 container: the magic, the input size, the
/// block size, a zero checksum, then the block. Sizes are stored as `u32`; a
/// length beyond `u32::MAX` is stored truncated. Whenever both sizes fit and
/// the block's lengths fit the decoder, the result unpacks to `plain` again;
/// for an input of at most `u32::MAX` bytes they fit (given room in a
/// `usize`), and the block size fits whenever `20 + len * 110 / 100` does.
pub fn compress(plain: &[u8]) -> (r: Vec<u8>)
    requires
        compress_input_ok(plain@.len()),
    ensures
        clz4_of(plain@, r@),
        is_clz4_spec(r@),
        r@.len() <= 36 + plain@.len() * 110 / 100,
        le32_at(r@, 12) == 0,
        plain@.len() <= u32::MAX ==> le32_at(r@, 4) == plain@.len(),
        r@.len() - 16 <= u32::MAX ==> le32_at(r@, 8) == r@.len() - 16,
        20 + plain@.len() * 110 / 100 <= u32::MAX ==> r@.len() - 16 <= u32::MAX,
        plain@.len() <= u32::MAX && r@.len() - 16 <= u32::MAX && lz4_lengths_fit(
            r@.subrange(16, r@.len() as int),
            plain@.len() as usize,
        ) ==> decompress_spec(r@) == Ok::<Seq<u8>, Clz4ErrorView>(plain@),
        lengths_bounded(plain@.len()) && r@.len() - 16 <= u32::MAX ==> decompress_spec(r@) == Ok::<
            Seq<u8>,
            Clz4ErrorView,
        >(plain@),
{
    let block = lz4_compress_block(plain);
    let mut out: Vec<u8> = Vec::new();
    out.push(0x43);
    out.push(0x4c);
    out.push(0x5a);
    out.push(0x34);
    #[verifier::truncate]
    let plain_len = plain.len() as u32;
    #[verifier::truncate]
    let block_len = block.len() as u32;
    push_le32(&mut out, plain_len);
    push_le32(&mut out, block_len);
    push_le32(&mut out, 0);
    let ghost mid = out@;
    let mut k: usize = 0;
    while k < block.len()
        invariant
            k <= block.len(),
            out@ == mid + block@.subrange(0, k as int),
        decreases block.len() - k,
    {
        out.push(block[k]);
        k = k + 1;
        assert(out@ =~= mid + block@.subrange(0, k as int));
    }
    assert(block@.subrange(0, block.len() as int) =~= block@);
    assert(out@ =~= clz4_container(plain@.len(), block@));
    proof {
        assert(out@.subrange(16, out@.len() as int) =~= block@);
        assert(out@.subrange(0, 4) =~= clz4_magic());
        assert(out@.subrange(4, 8) =~= le32_bytes(plain_len));
        assert(out@.subrange(8, 12) =~= le32_bytes(block_len));
        assert(out@.subrange(12, 16) =~= le32_bytes(0));
        lemma_le32(out@, 4, plain_len);
        lemma_le32(out@, 8, block_len);
        lemma_le32(out@, 12, 0);
        if lengths_bounded(plain@.len()) {
            assert(lz4_lengths_fit(block@, plain@.len() as usize));
        }
        if plain@.len() <= u32::MAX && block@.len() <= u32::MAX && lz4_lengths_fit(block@, plain@.len() as usize) {
            lemma_clz4_roundtrip(plain@, block@);
        }
    }
    out
}

/// A little-endian `u32` written at `off` reads back as itself.
proof fn lemma_le32(c: Seq<u8>, off: int, n: u32)
    requires
        0 <= off,
        off + 4 <= c.len(),
        c.subrange(off, off + 4) == le32_bytes(n),
    ensures
        le32_at(c, off) == n as int,
{
    assert(c[off] == c.subrange(off, off + 4)[0]);
    assert(c[off + 1] == c.subrange(off, off + 4)[1]);
    assert(c[off + 2] == c.subrange(off, off + 4)[2]);
    assert(c[off + 3] == c.subrange(off, off + 4)[3]);
}

/// Unpacking the container of a block gives the input back, whenever both
/// sizes fit the header's `u32` fields, the block's lengths fit the decoder
/// and the block decompresses to the input.
#[verifier::rlimit(30)]
proof fn lemma_clz4_roundtrip(plain: Seq<u8>, block: Seq<u8>)
    requires
        plain.len() <= u32::MAX,
        block.len() <= u32::MAX,
        lz4_lengths_fit(block, plain.len() as usize),
        decompresses_to(block, plain),
    ensures
        is_clz4_spec(clz4_container(plain.len(), block)),
        decompress_spec(clz4_container(plain.len(), block)) == Ok::<Seq<u8>, Clz4ErrorView>(plain),
{
    let c = clz4_container(plain.len(), block);
    let n = plain.len() as u32;
    let m = block.len() as u32;
    assert(c.subrange(0, 4) =~= clz4_magic());
    assert(c.subrange(4, 8) =~= le32_bytes(n));
    assert(c.subrange(8, 12) =~= le32_bytes(m));
    lemma_le32(c, 4, n);
    lemma_le32(c, 8, m);
    assert(c.subrange(16, 16 + le32_at(c, 8)) =~= block);
}

} // verus!
