//! Small text helpers: lowercase hex, decimal numbers, and string building.
use vstd::prelude::*;
use vstd::string::StrSliceExecFns;
use vstd::string::StringExecFns;

verus! {

/// Calls `String::push`. Trusted: the character is appended.
#[verifier::external_body]
pub(crate) fn string_push(s: &mut String, c: char)
    ensures
        final(s)@ == old(s)@.push(c),
{
    s.push(c);
}

/// Append `t` to `s`.
pub(crate) fn string_push_str(s: &mut String, t: &str)
    ensures
        final(s)@ == old(s)@ + t@,
{
    s.append(t);
}

/// The lowercase hex digit for a nibble.
pub open spec fn hex_char(n: u8) -> char {
    if n < 10 {
        (48 + n) as char
    } else {
        (87 + n) as char
    }
}

/// Two lowercase hex digits per byte, most significant nibble first (what
/// `format!("{b:02x}")` writes for each byte).
pub open spec fn hex_lower(b: Seq<u8>) -> Seq<char>
    decreases b.len(),
{
    if b.len() == 0 {
        Seq::empty()
    } else {
        hex_lower(b.drop_last()) + seq![hex_char(b.last() / 16), hex_char(b.last() % 16)]
    }
}

/// A lowercase hex digit.
pub open spec fn is_lower_hex_char(c: char) -> bool {
    ('0' <= c && c <= '9') || ('a' <= c && c <= 'f')
}

fn hex_digit(n: u8) -> (c: char)
    requires
        n < 16,
    ensures
        c == hex_char(n),
        is_lower_hex_char(c),
{
    if n < 10 {
        (48 + n) as char
    } else {
        (87 + n) as char
    }
}

/// Append the lowercase hex of `b` to `s`.
pub fn push_hex(s: &mut String, b: &[u8])
    ensures
        final(s)@ == old(s)@ + hex_lower(b@),
{
    let mut k: usize = 0;
    while k < b.len()
        invariant
            k <= b.len(),
            s@ == old(s)@ + hex_lower(b@.take(k as int)),
        decreases b.len() - k,
    {
        let x = b[k];
        string_push(s, hex_digit(x / 16));
        string_push(s, hex_digit(x % 16));
        assert(b@.take(k + 1).drop_last() =~= b@.take(k as int));
        assert(s@ =~= old(s)@ + hex_lower(b@.take(k + 1)));
        k = k + 1;
    }
    assert(b@.take(b.len() as int) =~= b@);
}

/// Lowercase hex of `b`.
pub fn to_hex(b: &[u8]) -> (s: String)
    ensures
        s@ == hex_lower(b@),
{
    let mut s = String::new();
    push_hex(&mut s, b);
    assert(Seq::<char>::empty() + hex_lower(b@) =~= hex_lower(b@));
    s
}

/// The hex of `b` has two characters per byte, all lowercase hex digits.
pub proof fn lemma_hex_lower_shape(b: Seq<u8>)
    ensures
        hex_lower(b).len() == 2 * b.len(),
        forall|i: int| 0 <= i < hex_lower(b).len() ==> is_lower_hex_char(#[trigger] hex_lower(b)[i]),
    decreases b.len(),
{
    if b.len() > 0 {
        lemma_hex_lower_shape(b.drop_last());
        let x = b.last();
        assert(x / 16 < 16 && x % 16 < 16);
    }
}


/// The ASCII digit for `d < 10`.
pub open spec fn digit_char(d: nat) -> char {
    (48 + d) as char
}

/// The decimal digits of `n`, most significant first, without leading zeros.
pub open spec fn dec_digits(n: nat) -> Seq<char>
    decreases n,
{
    if n < 10 {
        seq![digit_char(n)]
    } else {
        dec_digits(n / 10).push(digit_char(n % 10))
    }
}

/// What `to_string` writes for an `i64`: a minus sign for negative values,
/// then the decimal digits of the magnitude.
pub open spec fn dec_i64(v: i64) -> Seq<char> {
    if v < 0 {
        seq!['-'] + dec_digits((-v) as nat)
    } else {
        dec_digits(v as nat)
    }
}

/// Append the decimal digits of `n`.
pub fn push_decimal(s: &mut String, n: u64)
    ensures
        final(s)@ == old(s)@ + dec_digits(n as nat),
    decreases n,
{
    if n >= 10 {
        push_decimal(s, n / 10);
    }
    string_push(s, ((n % 10) as u8 + 48) as char);
    assert(final(s)@ =~= old(s)@ + dec_digits(n as nat));
}

/// Append `v` in decimal, with a minus sign when negative.
pub fn push_i64(s: &mut String, v: i64)
    ensures
        final(s)@ == old(s)@ + dec_i64(v),
{
    if v < 0 {
        string_push(s, '-');
        let m = (-(v + 1)) as u64 + 1;
        push_decimal(s, m);
        assert(final(s)@ =~= old(s)@ + dec_i64(v));
    } else {
        push_decimal(s, v as u64);
    }
}

/// An ASCII decimal digit.
pub open spec fn is_digit_char(c: char) -> bool {
    '0' <= c && c <= '9'
}

/// The number a run of decimal digits spells.
pub open spec fn digits_value(s: Seq<char>) -> nat
    decreases s.len(),
{
    if s.len() == 0 {
        0
    } else {
        digits_value(s.drop_last()) * 10 + ((s.last() as nat) - 48) as nat
    }
}

/// Whether every character is a decimal digit.
pub open spec fn all_digits(s: Seq<char>) -> bool {
    forall|i: int| 0 <= i < s.len() ==> is_digit_char(#[trigger] s[i])
}

/// One or more decimal digits spelling a number no larger than `limit`.
pub open spec fn digits_upto(d: Seq<char>, limit: nat) -> Option<nat> {
    if d.len() > 0 && all_digits(d) && digits_value(d) <= limit {
        Some(digits_value(d))
    } else {
        None
    }
}

/// The characters after an optional leading `+`.
pub open spec fn after_plus(s: Seq<char>) -> Seq<char> {
    if s.len() > 0 && s[0] == '+' {
        s.drop_first()
    } else {
        s
    }
}

/// What `str::parse::<u32>` accepts: an optional `+`, then one or more decimal
/// digits spelling a number that fits a `u32`.
pub open spec fn parse_u32_spec(s: Seq<char>) -> Option<u32> {
    match digits_upto(after_plus(s), u32::MAX as nat) {
        Some(v) => Some(v as u32),
        None => None,
    }
}

/// What `str::parse::<i64>` accepts: an optional sign, then one or more
/// decimal digits spelling a number in the `i64` range.
pub open spec fn parse_i64_spec(s: Seq<char>) -> Option<i64> {
    if s.len() > 0 && s[0] == '-' {
        match digits_upto(s.drop_first(), 0x8000_0000_0000_0000) {
            Some(v) => Some((-v) as i64),
            None => None,
        }
    } else {
        match digits_upto(after_plus(s), i64::MAX as nat) {
            Some(v) => Some(v as i64),
            None => None,
        }
    }
}

proof fn lemma_digits_value_grows(s: Seq<char>, k: int)
    requires
        0 <= k <= s.len(),
        all_digits(s),
    ensures
        digits_value(s.take(k)) <= digits_value(s),
    decreases s.len() - k,
{
    if k < s.len() {
        lemma_digits_value_grows(s, k + 1);
        assert(s.take(k + 1).drop_last() =~= s.take(k));
        assert(is_digit_char(s[k]));
    } else {
        assert(s.take(k) =~= s);
    }
}

/// Read the characters `from..` of `s` as one or more decimal digits spelling
/// a number no larger than `limit`.
fn digits_from(s: &str, from: usize, limit: u64) -> (r: Option<u64>)
    requires
        from <= s@.len(),
    ensures
        match digits_upto(s@.skip(from as int), limit as nat) {
            Some(v) => r == Some(v as u64),
            None => r is None,
        },
{
    let ghost d = s@.skip(from as int);
    let n = s.unicode_len();
    if from >= n {
        return None;
    }
    let mut i = from;
    let mut acc: u128 = 0;
    while i < n
        invariant
            from <= i <= n,
            n == s@.len(),
            d =~= s@.skip(from as int),
            acc as nat == digits_value(d.take(i - from)),
            all_digits(d.take(i - from)),
            acc <= limit,
            d.len() > 0,
        decreases n - i,
    {
        let c = s.get_char(i);
        if !('0' <= c && c <= '9') {
            assert(d[i - from] == c);
            return None;
        }
        let ghost k = i - from;
        assert(d.take(k + 1).drop_last() =~= d.take(k));
        assert(d.take(k + 1).last() == c);
        acc = acc * 10 + (c as u128 - 48);
        i = i + 1;
        assert(all_digits(d.take(i - from))) by {
            assert forall|j: int| 0 <= j < d.take(i - from).len() implies is_digit_char(
                #[trigger] d.take(i - from)[j],
            ) by {
                if j < k {
                    assert(d.take(i - from)[j] == d.take(k)[j]);
                }
            }
        }
        if acc > limit as u128 {
            proof {
                if all_digits(d) {
                    lemma_digits_value_grows(d, i - from);
                }
            }
            return None;
        }
    }
    assert(d.take(i - from) =~= d);
    Some(acc as u64)
}

/// Parse the characters `from..` of `s` as a `u32`, as `str::parse` does.
pub fn parse_u32_from(s: &str, from: usize) -> (r: Option<u32>)
    requires
        from <= s@.len(),
    ensures
        r == parse_u32_spec(s@.skip(from as int)),
{
    let ghost t = s@.skip(from as int);
    let n = s.unicode_len();
    let mut i = from;
    if i < n && s.get_char(i) == '+' {
        i = i + 1;
    }
    assert(after_plus(t) =~= s@.skip(i as int));
    match digits_from(s, i, 0xffff_ffff) {
        Some(v) => Some(v as u32),
        None => None,
    }
}

/// Parse `s` as an `i64`, as `str::parse` does.
pub fn parse_i64(s: &str) -> (r: Option<i64>)
    ensures
        r == parse_i64_spec(s@),
{
    let n = s.unicode_len();
    if n > 0 && s.get_char(0) == '-' {
        assert(s@.drop_first() =~= s@.skip(1));
        match digits_from(s, 1, 0x8000_0000_0000_0000) {
            Some(v) => {
                if v == 0x8000_0000_0000_0000 {
                    Some(i64::MIN)
                } else {
                    Some(-(v as i64))
                }
            },
            None => None,
        }
    } else {
        let mut i: usize = 0;
        if n > 0 && s.get_char(0) == '+' {
            i = 1;
        }
        assert(after_plus(s@) =~= s@.skip(i as int));
        match digits_from(s, i, 0x7fff_ffff_ffff_ffff) {
            Some(v) => Some(v as i64),
            None => None,
        }
    }
}

/// The decimal digits of `n` parse back to `n`.
pub proof fn lemma_dec_digits_parse(n: nat)
    ensures
        all_digits(dec_digits(n)),
        digits_value(dec_digits(n)) == n,
        dec_digits(n).len() > 0,
        dec_digits(n)[0] != '+',
    decreases n,
{
    if n >= 10 {
        lemma_dec_digits_parse(n / 10);
        let d = dec_digits(n);
        assert(d.drop_last() =~= dec_digits(n / 10));
        let x = n % 10;
        assert(((48 + x) as char) as nat == 48 + x);
        assert(n == (n / 10) * 10 + x);
        assert(d.last() == digit_char(x));
        assert(digits_value(d) == digits_value(d.drop_last()) * 10 + x);
        assert(d[0] == dec_digits(n / 10)[0]);
        assert forall|i: int| 0 <= i < d.len() implies is_digit_char(#[trigger] d[i]) by {
            if i < d.len() - 1 {
                assert(d[i] == dec_digits(n / 10)[i]);
            }
        }
    } else {
        let d = dec_digits(n);
        assert(((48 + n) as char) as nat == 48 + n);
        assert(d.drop_last() =~= Seq::<char>::empty());
        assert(digits_value(d) == digits_value(d.drop_last()) * 10 + n);
    }
}

} // verus!
