//! spans: where the fields of a protobuf message lie in its bytes, and what a
//! change of bytes inside length-delimited values does to the fields read.
use vstd::prelude::*;

use crate::confseq::{fields_from, lemma_varint_from_bounds, varint_at, varint_from, WireVal};

verus! {

/// Where each field of `fields_from(b, i)` lies in `b`: the start of its tag,
/// the start of its value and the end of its value (a varint field's value is
/// taken as the empty span just after it).
pub open spec fn spans_from(b: Seq<u8>, i: int) -> Seq<(int, int, int)>
    decreases b.len() - i,
    via spans_from_decreases
{
    if i < 0 || i >= b.len() {
        Seq::empty()
    } else {
        match varint_at(b, i) {
            None => Seq::empty(),
            Some((t, j)) => {
                let wire = (t & 7) as u32;
                if wire == 0 {
                    match varint_at(b, j) {
                        None => Seq::empty(),
                        Some((v, k)) => seq![(i, k, k)] + spans_from(b, k),
                    }
                } else if wire == 2 {
                    match varint_at(b, j) {
                        None => Seq::empty(),
                        Some((n, k)) => {
                            let n = n as usize;
                            if k + n > b.len() {
                                Seq::empty()
                            } else {
                                seq![(i, k, k + n)] + spans_from(b, k + n)
                            }
                        },
                    }
                } else if wire == 5 {
                    if j + 4 >= b.len() {
                        Seq::empty()
                    } else {
                        spans_from(b, j + 4)
                    }
                } else if wire == 1 {
                    if j + 8 >= b.len() {
                        Seq::empty()
                    } else {
                        spans_from(b, j + 8)
                    }
                } else {
                    Seq::empty()
                }
            },
        }
    }
}

#[via_fn]
proof fn spans_from_decreases(b: Seq<u8>, i: int) {
    lemma_varint_from_bounds(b, i, 0, 0);
    if let Some((t, j)) = varint_at(b, i) {
        lemma_varint_from_bounds(b, j, 0, 0);
    }
}

/// The spans lie in order in `b`, each after `i`, apart from one another, and
/// match the fields read: a length-delimited value is the bytes of its span.
pub proof fn lemma_spans_shape(b: Seq<u8>, i: int)
    requires
        0 <= i,
    ensures
        forall|t: int|
            0 <= t < spans_from(b, i).len() ==> i <= (#[trigger] spans_from(b, i)[t]).0 < spans_from(
                b,
                i,
            )[t].1 <= spans_from(b, i)[t].2 <= b.len(),
        forall|t: int, u: int|
            0 <= t < u < spans_from(b, i).len() ==> (#[trigger] spans_from(b, i)[t]).2 <= (
            #[trigger] spans_from(b, i)[u]).0,
        fields_from(b, i) matches Ok(fs) ==> {
            &&& fs.len() == spans_from(b, i).len()
            &&& forall|t: int|
                0 <= t < fs.len() ==> (#[trigger] fs[t].1 matches WireVal::Len(v) ==> v == b.subrange(
                    spans_from(b, i)[t].1,
                    spans_from(b, i)[t].2,
                ))
        },
    decreases b.len() - i,
{
    let sp = spans_from(b, i);
    if i < b.len() {
        lemma_varint_from_bounds(b, i, 0, 0);
        if let Some((t, j)) = varint_at(b, i) {
            lemma_varint_from_bounds(b, j, 0, 0);
            let wire = (t & 7) as u32;
            if wire == 0 {
                if let Some((v, k)) = varint_at(b, j) {
                    lemma_spans_shape(b, k);
                    let rest = spans_from(b, k);
                    assert(sp == seq![(i, k, k)] + rest);
                    assert forall|x: int| 0 <= x < sp.len() implies i <= (#[trigger] sp[x]).0 < sp[x].1
                        <= sp[x].2 <= b.len() by {
                        if x > 0 {
                            assert(sp[x] == rest[x - 1]);
                        }
                    }
                    assert forall|x: int, y: int| 0 <= x < y < sp.len() implies (#[trigger] sp[x]).2 <= (
                    #[trigger] sp[y]).0 by {
                        assert(sp[y] == rest[y - 1]);
                        if x > 0 {
                            assert(sp[x] == rest[x - 1]);
                        }
                    }
                    if let Ok(fs) = fields_from(b, i) {
                        let rf = fields_from(b, k)->Ok_0;
                        assert(fs == seq![((t >> 3) as u32, WireVal::Var(v))] + rf);
                        assert forall|x: int| 0 <= x < fs.len() implies (#[trigger] fs[x].1 matches WireVal::Len(w)
                            ==> w == b.subrange(sp[x].1, sp[x].2)) by {
                            if x > 0 {
                                assert(fs[x] == rf[x - 1]);
                                assert(sp[x] == rest[x - 1]);
                            }
                        }
                    }
                }
            } else if wire == 2 {
                if let Some((n0, k)) = varint_at(b, j) {
                    let n = n0 as usize;
                    if k + n <= b.len() {
                        lemma_spans_shape(b, k + n);
                        let rest = spans_from(b, k + n);
                        assert(sp == seq![(i, k, k + n)] + rest);
                        assert forall|x: int| 0 <= x < sp.len() implies i <= (#[trigger] sp[x]).0 < sp[x].1
                            <= sp[x].2 <= b.len() by {
                            if x > 0 {
                                assert(sp[x] == rest[x - 1]);
                            }
                        }
                        assert forall|x: int, y: int| 0 <= x < y < sp.len() implies (#[trigger] sp[x]).2 <= (
                        #[trigger] sp[y]).0 by {
                            assert(sp[y] == rest[y - 1]);
                            if x > 0 {
                                assert(sp[x] == rest[x - 1]);
                            }
                        }
                        if let Ok(fs) = fields_from(b, i) {
                            let rf = fields_from(b, k + n)->Ok_0;
                            assert(fs == seq![((t >> 3) as u32, WireVal::Len(b.subrange(k, k + n)))] + rf);
                            assert forall|x: int| 0 <= x < fs.len() implies (#[trigger] fs[x].1 matches WireVal::Len(w)
                                ==> w == b.subrange(sp[x].1, sp[x].2)) by {
                                if x > 0 {
                                    assert(fs[x] == rf[x - 1]);
                                    assert(sp[x] == rest[x - 1]);
                                }
                            }
                        }
                    }
                }
            } else if wire == 5 {
                if j + 4 < b.len() {
                    lemma_spans_shape(b, j + 4);
                    assert(sp == spans_from(b, j + 4));
                }
            } else if wire == 1 {
                if j + 8 < b.len() {
                    lemma_spans_shape(b, j + 8);
                    assert(sp == spans_from(b, j + 8));
                }
            }
        }
    }
}


/// A varint reads the same from bytes that agree with `b` where it lies.
proof fn lemma_varint_local(b: Seq<u8>, c: Seq<u8>, i: int, shift: u32, acc: u64)
    requires
        b.len() == c.len(),
        varint_from(b, i, shift, acc) matches Some((v, j)) && forall|q: int| i <= q < j ==> b[q] == c[q],
    ensures
        varint_from(c, i, shift, acc) == varint_from(b, i, shift, acc),
    decreases b.len() - i,
{
    lemma_varint_from_bounds(b, i, shift, acc);
    let byte = b[i];
    assert(c[i] == byte);
    let acc2 = acc | (((byte & 0x7f) as u64) << ((shift % 64) as u64));
    if byte & 0x80 != 0 {
        lemma_varint_local(b, c, i + 1, vstd::wrapping::u32_specs::wrapping_add(shift, 7), acc2);
    }
}

/// The fields read from `fs` once each length-delimited value is taken from
/// `c` at its span instead.
pub open spec fn fields_in(fs: Seq<(u32, WireVal)>, sp: Seq<(int, int, int)>, c: Seq<u8>) -> Seq<
    (u32, WireVal),
> {
    Seq::new(
        fs.len(),
        |t: int|
            (
                fs[t].0,
                match fs[t].1 {
                    WireVal::Var(v) => WireVal::Var(v),
                    WireVal::Len(_) => WireVal::Len(c.subrange(sp[t].1, sp[t].2)),
                },
            ),
    )
}

/// `q` lies inside the value of one of the spans.
pub open spec fn in_a_value(sp: Seq<(int, int, int)>, q: int) -> bool {
    exists|t: int| 0 <= t < sp.len() && (#[trigger] sp[t]).1 <= q < sp[t].2
}

/// Changing bytes only inside the values of a message's fields keeps its
/// fields where they were: the same fields are read, each length-delimited
/// value now the new bytes of its span.
pub proof fn lemma_fields_substitute(b: Seq<u8>, c: Seq<u8>, i: int)
    requires
        0 <= i,
        b.len() == c.len(),
        fields_from(b, i) is Ok,
        forall|q: int| i <= q < b.len() && b[q] != c[q] ==> in_a_value(spans_from(b, i), q),
    ensures
        spans_from(c, i) == spans_from(b, i),
        fields_from(c, i) == Ok::<Seq<(u32, WireVal)>, crate::error::ConfseqError>(
            fields_in(fields_from(b, i)->Ok_0, spans_from(b, i), c),
        ),
    decreases b.len() - i,
{
    let sp = spans_from(b, i);
    let fs = fields_from(b, i)->Ok_0;
    lemma_spans_shape(b, i);
    if i >= b.len() {
        assert(fields_in(fs, sp, c) =~= fs);
    } else {
        lemma_varint_from_bounds(b, i, 0, 0);
        let (t, j) = varint_at(b, i)->Some_0;
        lemma_varint_from_bounds(b, j, 0, 0);
        let wire = (t & 7) as u32;
        if wire == 0 {
            let (v, k) = varint_at(b, j)->Some_0;
            let rest = spans_from(b, k);
            lemma_spans_shape(b, k);
            assert(sp == seq![(i, k, k)] + rest);
            assert forall|q: int| i <= q < k implies b[q] == c[q] by {
                if b[q] != c[q] {
                    let x = choose|x: int| 0 <= x < sp.len() && (#[trigger] sp[x]).1 <= q < sp[x].2;
                    if x > 0 {
                        assert(sp[x] == rest[x - 1]);
                    }
                }
            }
            lemma_varint_local(b, c, i, 0, 0);
            lemma_varint_local(b, c, j, 0, 0);
            assert forall|q: int| k <= q < b.len() && b[q] != c[q] implies in_a_value(rest, q) by {
                let x = choose|x: int| 0 <= x < sp.len() && (#[trigger] sp[x]).1 <= q < sp[x].2;
                assert(sp[x] == rest[x - 1]);
            }
            lemma_fields_substitute(b, c, k);
            let rf = fields_from(b, k)->Ok_0;
            assert(fs == seq![((t >> 3) as u32, WireVal::Var(v))] + rf);
            assert(fields_in(fs, sp, c) =~= seq![((t >> 3) as u32, WireVal::Var(v))] + fields_in(rf, rest, c));
        } else if wire == 2 {
            let (n0, k) = varint_at(b, j)->Some_0;
            let n = n0 as usize;
            let rest = spans_from(b, k + n);
            lemma_spans_shape(b, k + n);
            assert(sp == seq![(i, k, k + n)] + rest);
            assert forall|q: int| i <= q < k implies b[q] == c[q] by {
                if b[q] != c[q] {
                    let x = choose|x: int| 0 <= x < sp.len() && (#[trigger] sp[x]).1 <= q < sp[x].2;
                    if x > 0 {
                        assert(sp[x] == rest[x - 1]);
                    }
                }
            }
            lemma_varint_local(b, c, i, 0, 0);
            lemma_varint_local(b, c, j, 0, 0);
            assert forall|q: int| k + n <= q < b.len() && b[q] != c[q] implies in_a_value(rest, q) by {
                let x = choose|x: int| 0 <= x < sp.len() && (#[trigger] sp[x]).1 <= q < sp[x].2;
                assert(sp[x] == rest[x - 1]);
            }
            lemma_fields_substitute(b, c, k + n);
            let rf = fields_from(b, k + n)->Ok_0;
            assert(fs == seq![((t >> 3) as u32, WireVal::Len(b.subrange(k, k + n)))] + rf);
            assert(fields_in(fs, sp, c) =~= seq![((t >> 3) as u32, WireVal::Len(c.subrange(k, k + n)))]
                + fields_in(rf, rest, c));
        } else {
            if wire == 5 && j + 4 < b.len() {
                assert(sp == spans_from(b, j + 4));
                lemma_spans_shape(b, j + 4);
            } else if wire == 1 && j + 8 < b.len() {
                assert(sp == spans_from(b, j + 8));
                lemma_spans_shape(b, j + 8);
            } else {
                assert(sp.len() == 0);
            }
            assert forall|q: int| i <= q < j implies b[q] == c[q] by {
                if b[q] != c[q] {
                    let x = choose|x: int| 0 <= x < sp.len() && (#[trigger] sp[x]).1 <= q < sp[x].2;
                }
            }
            lemma_varint_local(b, c, i, 0, 0);
            if wire == 5 && j + 4 < b.len() {
                assert(sp == spans_from(b, j + 4));
                lemma_fields_substitute(b, c, j + 4);
            } else if wire == 1 && j + 8 < b.len() {
                assert(sp == spans_from(b, j + 8));
                lemma_fields_substitute(b, c, j + 8);
            } else {
                assert(fields_in(fs, sp, c) =~= fs);
            }
        }
    }
}

} // verus!
