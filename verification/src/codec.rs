//! Entry framing: how one `(index, payload)` record looks on disk.
//!
//! Binary records are `[8-byte big-endian index][8-byte big-endian payload
//! length][payload]`.  JSON records are one object per line,
//! `{"index":N,"data":[b0,b1,...]}`, with a `\n` separator written before
//! every record but the first of a file; the decoder accepts a record with or
//! without its leading separator.
//!
//! `rec_parse` is the one decoder both formats share at the specification
//! level: everything the engine proves about files is phrased over it.

use crate::digits::{all_digits, dec_seq, dec_val, is_digit, parse_digits_val, push_bytes, push_dec};
use crate::primitives::{Entry, LogFormat};
use vstd::prelude::*;

verus! {

/// Result of decoding one record at a position: a record with its payload and
/// the position just past it, clean end of input, or corruption.
pub enum RecStep {
    Rec { index: u64, data: Seq<u8>, end: int },
    End,
    Bad,
}

// ---------------------------------------------------------------------------
// Big-endian u64
// ---------------------------------------------------------------------------

/// The eight big-endian bytes of `x`.
pub open spec fn u64_be(x: u64) -> Seq<u8> {
    seq![
        (x >> 56) as u8,
        (x >> 48) as u8,
        (x >> 40) as u8,
        (x >> 32) as u8,
        (x >> 24) as u8,
        (x >> 16) as u8,
        (x >> 8) as u8,
        x as u8,
    ]
}

/// The u64 read back from eight big-endian bytes.
pub open spec fn be_val(s: Seq<u8>) -> u64 {
    ((s[0] as u64) << 56 | (s[1] as u64) << 48 | (s[2] as u64) << 40 | (s[3] as u64) << 32 | (
    s[4] as u64) << 24 | (s[5] as u64) << 16 | (s[6] as u64) << 8 | (s[7] as u64))
}

pub proof fn lemma_be_roundtrip(x: u64)
    ensures
        be_val(u64_be(x)) == x,
{
    assert(((x >> 56) as u8 as u64) << 56 | ((x >> 48) as u8 as u64) << 48 | ((x >> 40) as u8
        as u64) << 40 | ((x >> 32) as u8 as u64) << 32 | ((x >> 24) as u8 as u64) << 24 | ((x >> 16)
        as u8 as u64) << 16 | ((x >> 8) as u8 as u64) << 8 | (x as u8 as u64) == x) by (bit_vector);
}

// ---------------------------------------------------------------------------
// Binary framing
// ---------------------------------------------------------------------------

/// One binary record.
pub open spec fn bin_rec(index: u64, data: Seq<u8>) -> Seq<u8> {
    u64_be(index) + u64_be(data.len() as u64) + data
}

pub open spec fn rec_parse_bin(b: Seq<u8>, pos: int) -> RecStep {
    if pos == b.len() {
        RecStep::End
    } else if pos + 16 > b.len() {
        RecStep::Bad
    } else {
        let sz = be_val(b.subrange(pos + 8, pos + 16));
        if pos + 16 + sz > b.len() {
            RecStep::Bad
        } else {
            RecStep::Rec {
                index: be_val(b.subrange(pos, pos + 8)),
                data: b.subrange(pos + 16, pos + 16 + sz),
                end: pos + 16 + sz,
            }
        }
    }
}

// ---------------------------------------------------------------------------
// JSON framing
// ---------------------------------------------------------------------------

/// The bytes of `{"index":`.
pub open spec fn lit_obj() -> Seq<u8> {
    seq![123u8, 34u8, 105u8, 110u8, 100u8, 101u8, 120u8, 34u8, 58u8]
}

/// The bytes of `,"data":[`.
pub open spec fn lit_data() -> Seq<u8> {
    seq![44u8, 34u8, 100u8, 97u8, 116u8, 97u8, 34u8, 58u8, 91u8]
}

/// First position at or after `p` holding a newline, or the end of `b`.
pub open spec fn scan_nl(b: Seq<u8>, p: int) -> int
    decreases b.len() - p,
{
    if p < 0 {
        p
    } else if p >= b.len() {
        b.len() as int
    } else if b[p] == 10 {
        p
    } else {
        scan_nl(b, p + 1)
    }
}

/// First position at or after `p` holding a non-digit, or the end of `b`.
pub open spec fn scan_digits(b: Seq<u8>, p: int) -> int
    decreases b.len() - p,
{
    if p < 0 {
        p
    } else if p >= b.len() {
        b.len() as int
    } else if !is_digit(b[p]) {
        p
    } else {
        scan_digits(b, p + 1)
    }
}

/// Parse a non-empty comma-separated list of byte values followed by `]`,
/// starting at `p`; yields the bytes and the position just past the `]`.
pub open spec fn parse_list(b: Seq<u8>, p: int) -> Option<(Seq<u8>, int)>
    decreases b.len() - p,
{
    if !(0 <= p < b.len()) {
        None
    } else {
        let r = scan_digits(b, p);
        if !(p < r && r < b.len()) {
            None
        } else {
            let v = dec_val(b.subrange(p, r));
            if v > 255 {
                None
            } else if b[r] == 93 {
                Some((seq![v as u8], r + 1))
            } else if b[r] == 44 {
                match parse_list(b, r + 1) {
                    None => None,
                    Some((rest, e)) => Some((seq![v as u8] + rest, e)),
                }
            } else {
                None
            }
        }
    }
}

/// The list part of a JSON record: the decimal byte values joined by commas.
pub open spec fn json_list(d: Seq<u8>) -> Seq<u8>
    decreases d.len(),
{
    if d.len() == 0 {
        Seq::empty()
    } else if d.len() == 1 {
        dec_seq(d[0] as nat)
    } else {
        dec_seq(d[0] as nat) + seq![44u8] + json_list(d.drop_first())
    }
}

/// One JSON record, without its separator.
pub open spec fn json_rec(index: u64, data: Seq<u8>) -> Seq<u8> {
    lit_obj() + dec_seq(index as nat) + lit_data() + json_list(data) + seq![93u8, 125u8]
}

pub open spec fn rec_parse_json(b: Seq<u8>, pos: int) -> RecStep {
    if pos == b.len() {
        RecStep::End
    } else if !(0 <= pos < b.len()) {
        RecStep::Bad
    } else {
        let p1 = if b[pos] == 10 {
            pos + 1
        } else {
            pos
        };
        if p1 >= b.len() {
            RecStep::Bad
        } else {
            let e = scan_nl(b, p1);
            if p1 + 9 > b.len() || b.subrange(p1, p1 + 9) != lit_obj() {
                RecStep::Bad
            } else {
                let d1 = scan_digits(b, p1 + 9);
                if d1 == p1 + 9 || dec_val(b.subrange(p1 + 9, d1)) > u64::MAX {
                    RecStep::Bad
                } else {
                    let index = dec_val(b.subrange(p1 + 9, d1)) as u64;
                    if d1 + 9 > b.len() || b.subrange(d1, d1 + 9) != lit_data() {
                        RecStep::Bad
                    } else {
                        let q0 = d1 + 9;
                        if q0 < b.len() && b[q0] == 93 {
                            if q0 + 2 == e && b[q0 + 1] == 125 {
                                RecStep::Rec { index, data: Seq::empty(), end: e }
                            } else {
                                RecStep::Bad
                            }
                        } else {
                            match parse_list(b, q0) {
                                None => RecStep::Bad,
                                Some((data, q1)) => {
                                    if q1 + 1 == e && q1 < b.len() && b[q1] == 125 {
                                        RecStep::Rec { index, data, end: e }
                                    } else {
                                        RecStep::Bad
                                    }
                                },
                            }
                        }
                    }
                }
            }
        }
    }
}

// ---------------------------------------------------------------------------
// The shared decoder and encoder
// ---------------------------------------------------------------------------

/// Decode one record of `b` at `pos` under the given framing.
pub open spec fn rec_parse(fmt: LogFormat, b: Seq<u8>, pos: int) -> RecStep {
    match fmt {
        LogFormat::Binary => rec_parse_bin(b, pos),
        LogFormat::JSON => rec_parse_json(b, pos),
    }
}

/// The bytes one appended record adds to a file: `sep` says whether the file
/// already holds bytes (JSON then gets its `\n` separator).
pub open spec fn framed(fmt: LogFormat, sep: bool, index: u64, data: Seq<u8>) -> Seq<u8> {
    match fmt {
        LogFormat::Binary => bin_rec(index, data),
        LogFormat::JSON => if sep {
            seq![10u8] + json_rec(index, data)
        } else {
            json_rec(index, data)
        },
    }
}

/// Upper bound on the bytes one record may add to a file.
pub open spec fn rec_bound(fmt: LogFormat, index: u64, data: Seq<u8>) -> int {
    framed(fmt, true, index, data).len() as int
}

// ---------------------------------------------------------------------------
// Scan characterizations
// ---------------------------------------------------------------------------

pub proof fn lemma_scan_nl_props(b: Seq<u8>, p: int)
    requires
        0 <= p <= b.len(),
    ensures
        p <= scan_nl(b, p) <= b.len(),
        forall|j: int| p <= j < scan_nl(b, p) ==> b[j] != 10,
        scan_nl(b, p) == b.len() || b[scan_nl(b, p)] == 10,
    decreases b.len() - p,
{
    if p < b.len() && b[p] != 10 {
        lemma_scan_nl_props(b, p + 1);
    }
}

pub proof fn lemma_scan_nl_char(b: Seq<u8>, p: int, q: int)
    requires
        0 <= p <= q <= b.len(),
        forall|j: int| p <= j < q ==> b[j] != 10,
        q == b.len() || b[q] == 10,
    ensures
        scan_nl(b, p) == q,
    decreases q - p,
{
    if p < q {
        lemma_scan_nl_char(b, p + 1, q);
    }
}

pub proof fn lemma_scan_digits_props(b: Seq<u8>, p: int)
    requires
        0 <= p <= b.len(),
    ensures
        p <= scan_digits(b, p) <= b.len(),
        forall|j: int| p <= j < scan_digits(b, p) ==> is_digit(b[j]),
        scan_digits(b, p) == b.len() || !is_digit(b[scan_digits(b, p)]),
    decreases b.len() - p,
{
    if p < b.len() && is_digit(b[p]) {
        lemma_scan_digits_props(b, p + 1);
    }
}

pub proof fn lemma_scan_digits_char(b: Seq<u8>, p: int, q: int)
    requires
        0 <= p <= q <= b.len(),
        forall|j: int| p <= j < q ==> is_digit(b[j]),
        q == b.len() || !is_digit(b[q]),
    ensures
        scan_digits(b, p) == q,
    decreases q - p,
{
    if p < q {
        lemma_scan_digits_char(b, p + 1, q);
    }
}

// ---------------------------------------------------------------------------
// Shape of parsed records
// ---------------------------------------------------------------------------

/// A parsed record sits strictly between its start and the end of the input,
/// and a JSON record's end is a line end.
pub proof fn lemma_rec_wf(fmt: LogFormat, b: Seq<u8>, pos: int)
    requires
        0 <= pos <= b.len(),
    ensures
        rec_parse(fmt, b, pos) is End <==> pos == b.len(),
        rec_parse(fmt, b, pos) matches RecStep::Rec { end, .. } ==> pos < end <= b.len() && (
        fmt is JSON ==> (end == b.len() || b[end] == 10)),
{
    match fmt {
        LogFormat::Binary => {},
        LogFormat::JSON => {
            if pos < b.len() {
                let p1 = if b[pos] == 10 { pos + 1 } else { pos };
                if p1 < b.len() {
                    lemma_scan_nl_props(b, p1);
                }
            }
        },
    }
}

/// No byte of a JSON record is a newline.
pub proof fn lemma_json_list_digits_commas(d: Seq<u8>)
    ensures
        forall|j: int| 0 <= j < json_list(d).len() ==> (is_digit(#[trigger] json_list(d)[j])
            || json_list(d)[j] == 44),
    decreases d.len(),
{
    if d.len() == 1 {
        crate::digits::lemma_dec_seq_digits(d[0] as nat);
    } else if d.len() > 1 {
        crate::digits::lemma_dec_seq_digits(d[0] as nat);
        lemma_json_list_digits_commas(d.drop_first());
        let l = json_list(d);
        let h = dec_seq(d[0] as nat);
        assert forall|j: int| 0 <= j < l.len() implies (is_digit(l[j]) || l[j] == 44) by {
            if j < h.len() {
                assert(l[j] == h[j]);
            } else if j == h.len() {
                assert(l[j] == 44);
            } else {
                assert(l[j] == json_list(d.drop_first())[j - h.len() - 1]);
            }
        }
    }
}

pub proof fn lemma_json_rec_no_nl(index: u64, data: Seq<u8>)
    ensures
        forall|j: int| 0 <= j < json_rec(index, data).len() ==> #[trigger] json_rec(
            index,
            data,
        )[j] != 10,
        json_rec(index, data).len() >= 20,
{
    crate::digits::lemma_dec_seq_digits(index as nat);
    lemma_json_list_digits_commas(data);
    let r = json_rec(index, data);
    let ds = dec_seq(index as nat);
    let jl = json_list(data);
    assert forall|j: int| 0 <= j < r.len() implies r[j] != 10 by {
        if j < 9 {
            assert(r[j] == lit_obj()[j]);
        } else if j < 9 + ds.len() {
            assert(r[j] == ds[j - 9]);
        } else if j < 18 + ds.len() {
            assert(r[j] == lit_data()[j - 9 - ds.len()]);
        } else if j < 18 + ds.len() + jl.len() {
            assert(r[j] == jl[j - 18 - ds.len()]);
        } else {
            assert(r[j] == seq![93u8, 125u8][j - 18 - ds.len() - jl.len()]);
        }
    }
}

// ---------------------------------------------------------------------------
// Parsing an encoded record
// ---------------------------------------------------------------------------

/// Parsing a freshly encoded list gives back exactly its bytes.
pub proof fn lemma_parse_list_encode(b: Seq<u8>, q: int, d: Seq<u8>)
    requires
        d.len() >= 1,
        0 <= q,
        q + json_list(d).len() + 1 <= b.len(),
        b.subrange(q, q + json_list(d).len() + 1) == json_list(d) + seq![93u8],
        forall|v: u8| d.contains(v) ==> v <= 255,
    ensures
        parse_list(b, q) == Some((d, q + json_list(d).len() + 1)),
    decreases d.len(),
{
    let jl = json_list(d);
    let h = dec_seq(d[0] as nat);
    crate::digits::lemma_dec_seq_digits(d[0] as nat);
    crate::digits::lemma_dec_roundtrip(d[0] as nat);
    assert forall|j: int| q <= j < q + h.len() implies is_digit(b[j]) by {
        assert(b[j] == (json_list(d) + seq![93u8])[j - q]);
        if d.len() == 1 {
            assert(b[j] == h[j - q]);
        } else {
            assert(jl[j - q] == h[j - q]);
        }
    }
    let r = q + h.len();
    assert(b[r] == (jl + seq![93u8])[r - q]);
    if d.len() == 1 {
        assert(b[r] == 93);
    } else {
        assert(b[r] == 44);
    }
    assert(!is_digit(b[r]));
    lemma_scan_digits_char(b, q, r);
    assert(b.subrange(q, r) =~= h);
    assert(dec_val(b.subrange(q, r)) == d[0] as nat);
    if d.len() == 1 {
        assert(parse_list(b, q) == Some((seq![d[0]], r + 1)));
        assert(seq![d[0]] =~= d);
    } else {
        let d2 = d.drop_first();
        let jl2 = json_list(d2);
        assert(jl =~= h + seq![44u8] + jl2);
        assert(b.subrange(r + 1, r + 1 + jl2.len() + 1) =~= jl2 + seq![93u8]) by {
            assert forall|j: int| 0 <= j < jl2.len() + 1 implies b.subrange(
                r + 1,
                r + 1 + jl2.len() + 1,
            )[j] == (jl2 + seq![93u8])[j] by {
                assert(b[r + 1 + j] == (jl + seq![93u8])[r + 1 + j - q]);
            }
        }
        assert(forall|v: u8| d2.contains(v) ==> d.contains(v));
        lemma_parse_list_encode(b, r + 1, d2);
        assert(seq![d[0]] + d2 =~= d);
    }
}

/// Parsing at the start of a freshly appended record yields that record.
#[verifier::rlimit(100)]
pub proof fn lemma_framed_parse(fmt: LogFormat, b: Seq<u8>, pos: int, sep: bool, index: u64, data: Seq<u8>)
    requires
        0 <= pos,
        data.len() <= u64::MAX,
        pos + framed(fmt, sep, index, data).len() <= b.len(),
        b.subrange(pos, pos + framed(fmt, sep, index, data).len()) == framed(fmt, sep, index, data),
        fmt is JSON ==> (pos + framed(fmt, sep, index, data).len() == b.len() || b[pos + framed(
            fmt,
            sep,
            index,
            data,
        ).len()] == 10),
        fmt is JSON && !sep ==> (pos == b.len() || b[pos] != 10) || true,
    ensures
        rec_parse(fmt, b, pos) == (RecStep::Rec {
            index,
            data,
            end: pos + framed(fmt, sep, index, data).len() as int,
        }),
{
    let f = framed(fmt, sep, index, data);
    assert forall|k: int| 0 <= k < f.len() implies b[pos + k] == #[trigger] f[k] by {
        assert(b.subrange(pos, pos + f.len() as int)[k] == f[k]);
    }
    match fmt {
        LogFormat::Binary => {
            let br = bin_rec(index, data);
            assert(b.subrange(pos, pos + 8) =~= u64_be(index)) by {
                assert forall|k: int| 0 <= k < 8 implies b.subrange(pos, pos + 8)[k] == u64_be(
                    index,
                )[k] by {
                    assert(b[pos + k] == f[k]);
                }
            }
            assert(b.subrange(pos + 8, pos + 16) =~= u64_be(data.len() as u64)) by {
                assert forall|k: int| 0 <= k < 8 implies #[trigger] b.subrange(
                    pos + 8,
                    pos + 16,
                )[k] == u64_be(data.len() as u64)[k] by {
                    assert(b[pos + 8 + k] == f[8 + k]);
                    assert(f[8 + k] == u64_be(data.len() as u64)[k]);
                }
            }
            lemma_be_roundtrip(index);
            lemma_be_roundtrip(data.len() as u64);
            assert(data.len() as u64 as int == data.len() as int);
            assert(pos < b.len());
            assert(pos + 16 <= b.len());
            assert(be_val(b.subrange(pos + 8, pos + 16)) == data.len() as u64);
            assert(be_val(b.subrange(pos, pos + 8)) == index);
            assert(pos + 16 + data.len() <= b.len());
            assert(b.subrange(pos + 16, pos + 16 + data.len()) =~= data) by {
                assert forall|k: int| 0 <= k < data.len() implies b.subrange(
                    pos + 16,
                    pos + 16 + data.len(),
                )[k] == data[k] by {
                    assert(b[pos + 16 + k] == f[16 + k]);
                    assert(f[16 + k] == data[k]);
                }
            }
            let sz = be_val(b.subrange(pos + 8, pos + 16));
            assert(sz == data.len() as u64);
            assert(pos + 16 + sz <= b.len());
            assert(pos + 16 + sz == pos + 16 + data.len());
            assert(b.subrange(pos + 16, pos + 16 + sz) == b.subrange(pos + 16, pos + 16 + data.len()));
            assert(b.subrange(pos + 16, pos + 16 + sz) == data);
            assert(pos + 16 + sz == pos + f.len());
            assert(rec_parse_bin(b, pos) == (RecStep::Rec {
                index,
                data: b.subrange(pos + 16, pos + 16 + sz),
                end: pos + 16 + sz,
            }));
            assert(rec_parse(fmt, b, pos) == rec_parse_bin(b, pos));
            assert(rec_parse(fmt, b, pos) == (RecStep::Rec {
                index,
                data,
                end: pos + f.len() as int,
            }));
        },
        LogFormat::JSON => {
            let jr = json_rec(index, data);
            let off = if sep { 1int } else { 0int };
            let p1 = pos + off;
            // every byte of the record in place
            assert forall|j: int| 0 <= j < jr.len() implies b[p1 + j] == #[trigger] jr[j] by {
                assert(b[pos + (off + j)] == f[off + j]);
                if sep {
                    assert(f[off + j] == (seq![10u8] + jr)[1 + j]);
                }
            }
            lemma_json_rec_no_nl(index, data);
            if sep {
                assert(b[pos] == f[0]);
            }
            // the skip-separator position
            if sep {
                assert(b[pos] == 10);
            } else {
                assert(b[pos] == jr[0]);
            }
            let ds = dec_seq(index as nat);
            let jl = json_list(data);
            crate::digits::lemma_dec_seq_digits(index as nat);
            crate::digits::lemma_dec_roundtrip(index as nat);
            crate::digits::lemma_u64_max_below_pow10_20();
            let e = p1 + jr.len();
            assert(e == pos + f.len());
            assert forall|j: int| p1 <= j < e implies b[j] != 10 by {
                assert(b[p1 + (j - p1)] == jr[j - p1]);
            }
            // line end
            lemma_scan_nl_char(b, p1, e);
            assert(b.subrange(p1, p1 + 9) =~= lit_obj()) by {
                assert forall|j: int| 0 <= j < 9 implies b.subrange(p1, p1 + 9)[j] == lit_obj()[j] by {
                    assert(b[p1 + j] == jr[j]);
                    assert(jr[j] == lit_obj()[j]);
                }
            }
            // digits of the index
            assert forall|j: int| p1 + 9 <= j < p1 + 9 + ds.len() implies is_digit(b[j]) by {
                assert(b[j] == jr[j - p1]);
                assert(jr[j - p1] == ds[j - p1 - 9]);
            }
            let d1 = p1 + 9 + ds.len();
            assert(b[d1] == jr[9 + ds.len() as int]);
            assert(jr[9 + ds.len() as int] == lit_data()[0]);
            assert(!is_digit(b[d1]));
            lemma_scan_digits_char(b, p1 + 9, d1);
            assert(b.subrange(p1 + 9, d1) =~= ds) by {
                assert forall|j: int| 0 <= j < ds.len() implies #[trigger] b.subrange(
                    p1 + 9,
                    d1,
                )[j] == ds[j] by {
                    assert(b[p1 + (9 + j)] == jr[9 + j]);
                    assert(jr[9 + j] == ds[j]);
                }
            }
            assert(dec_val(b.subrange(p1 + 9, d1)) == index as nat);
            assert(b.subrange(d1, d1 + 9) =~= lit_data()) by {
                assert forall|j: int| 0 <= j < 9 implies b.subrange(d1, d1 + 9)[j] == lit_data()[j] by {
                    assert(b[d1 + j] == jr[d1 + j - p1]);
                    assert(jr[9 + ds.len() as int + j] == lit_data()[j]);
                }
            }
            let q0 = d1 + 9;
            if data.len() == 0 {
                assert(b[q0] == jr[18 + ds.len() as int]);
                assert(jr[18 + ds.len() as int] == seq![93u8, 125u8][0]);
                assert(b[q0 + 1] == jr[18 + ds.len() as int + 1]);
                assert(jr[18 + ds.len() as int + 1] == seq![93u8, 125u8][1]);
                assert(b[q0] == 93);
                assert(b[q0 + 1] == 125);
                assert(q0 + 2 == e);
                assert(data =~= Seq::<u8>::empty());
                assert(rec_parse_json(b, pos) == (RecStep::Rec { index, data, end: e }));
            } else {
                assert(jl.len() >= 1) by {
                    if data.len() == 1 {
                        crate::digits::lemma_dec_seq_digits(data[0] as nat);
                    } else {
                        crate::digits::lemma_dec_seq_digits(data[0] as nat);
                    }
                }
                assert(b[q0] == jr[18 + ds.len() as int]);
                assert(jr[18 + ds.len() as int] == jl[0]);
                lemma_json_list_digits_commas(data);
                assert(is_digit(jl[0]) || jl[0] == 44) by {
                    assert(jl[0] == json_list(data)[0]);
                }
                assert(jl[0] != 93) by {
                    assert(is_digit(jl[0]) || jl[0] == 44);
                }
                assert(b.subrange(q0, q0 + jl.len() + 1) =~= jl + seq![93u8]) by {
                    assert forall|j: int| 0 <= j < jl.len() + 1 implies b.subrange(
                        q0,
                        q0 + jl.len() + 1,
                    )[j] == (jl + seq![93u8])[j] by {
                        assert(b[q0 + j] == jr[18 + ds.len() as int + j]);
                        if j < jl.len() {
                            assert(jr[18 + ds.len() as int + j] == jl[j]);
                        } else {
                            assert(jr[18 + ds.len() as int + j] == seq![93u8, 125u8][0]);
                        }
                    }
                }
                lemma_parse_list_encode(b, q0, data);
                let q1 = q0 + jl.len() + 1;
                assert(b[q1] == jr[18 + ds.len() as int + jl.len() as int + 1]);
                assert(jr[18 + ds.len() as int + jl.len() as int + 1] == seq![93u8, 125u8][1]);
                assert(b[q1] == 125);
                assert(q1 + 1 == e);
                assert(rec_parse_json(b, pos) == (RecStep::Rec { index, data, end: e }));
            }
            assert(rec_parse(fmt, b, pos) == (RecStep::Rec {
                index,
                data,
                end: pos + f.len() as int,
            }));
        },
    }
}

// ---------------------------------------------------------------------------
// Transfer lemmas: a parsed record survives appending bytes after it, cutting
// the input after it, and dropping bytes before it.
// ---------------------------------------------------------------------------

/// A successful list parse ends strictly past where it started, within the
/// input.
pub proof fn lemma_parse_list_props(b: Seq<u8>, p: int, d: Seq<u8>, e2: int)
    requires
        parse_list(b, p) == Some((d, e2)),
    ensures
        p < e2 <= b.len(),
        d.len() >= 1,
    decreases b.len() - p,
{
    let r = scan_digits(b, p);
    lemma_scan_digits_props(b, p);
    if b[r] == 44 {
        let inner = parse_list(b, r + 1);
        lemma_parse_list_props(b, r + 1, inner->Some_0.0, inner->Some_0.1);
    }
}

/// A successfully parsed list is unaffected by bytes appended at the end.
pub proof fn lemma_parse_list_ext(b: Seq<u8>, ext: Seq<u8>, p: int, d: Seq<u8>, e2: int)
    requires
        parse_list(b, p) == Some((d, e2)),
    ensures
        parse_list(b + ext, p) == Some((d, e2)),
    decreases b.len() - p,
{
    let b2 = b + ext;
    let r = scan_digits(b, p);
    lemma_scan_digits_props(b, p);
    assert(b[r] == 93 || b[r] == 44);
    lemma_scan_digits_char(b2, p, r);
    assert(b2.subrange(p, r) =~= b.subrange(p, r));
    if b[r] == 44 {
        let inner = parse_list(b, r + 1);
        lemma_parse_list_ext(b, ext, r + 1, inner->Some_0.0, inner->Some_0.1);
    }
}

/// A successfully parsed list is unaffected by cutting the input anywhere at
/// or past its end.
pub proof fn lemma_parse_list_cut(b: Seq<u8>, cut: int, p: int, d: Seq<u8>, e2: int)
    requires
        parse_list(b, p) == Some((d, e2)),
        e2 <= cut <= b.len(),
    ensures
        parse_list(b.subrange(0, cut), p) == Some((d, e2)),
    decreases b.len() - p,
{
    let b2 = b.subrange(0, cut);
    let r = scan_digits(b, p);
    lemma_scan_digits_props(b, p);
    assert(b[r] == 93 || b[r] == 44);
    if b[r] == 44 {
        let inner0 = parse_list(b, r + 1);
        lemma_parse_list_props(b, r + 1, inner0->Some_0.0, inner0->Some_0.1);
    }
    assert(r < e2);
    lemma_scan_digits_char(b2, p, r);
    assert(b2.subrange(p, r) =~= b.subrange(p, r));
    if b[r] == 44 {
        let inner = parse_list(b, r + 1);
        lemma_parse_list_cut(b, cut, r + 1, inner->Some_0.0, inner->Some_0.1);
    }
}

/// A successfully parsed list shifts with its input.
pub proof fn lemma_parse_list_shift(b: Seq<u8>, q: int, p: int, d: Seq<u8>, e2: int)
    requires
        parse_list(b, p) == Some((d, e2)),
        0 <= q <= p,
    ensures
        parse_list(b.subrange(q, b.len() as int), p - q) == Some((d, e2 - q)),
    decreases b.len() - p,
{
    let b2 = b.subrange(q, b.len() as int);
    let r = scan_digits(b, p);
    lemma_scan_digits_props(b, p);
    assert(b[r] == 93 || b[r] == 44);
    lemma_scan_digits_char(b2, p - q, r - q);
    assert(b2.subrange(p - q, r - q) =~= b.subrange(p, r));
    if b[r] == 44 {
        let inner = parse_list(b, r + 1);
        lemma_parse_list_shift(b, q, r + 1, inner->Some_0.0, inner->Some_0.1);
    }
}

/// A parsed record is unaffected by bytes appended after it, as long as (for
/// JSON) the appended bytes begin with the separator when the record ran to
/// the old end of input.
#[verifier::rlimit(100)]
pub proof fn lemma_rec_ext(fmt: LogFormat, b: Seq<u8>, ext: Seq<u8>, pos: int, i: u64, d: Seq<u8>, end: int)
    requires
        0 <= pos <= b.len(),
        rec_parse(fmt, b, pos) == (RecStep::Rec { index: i, data: d, end }),
        fmt is JSON && ext.len() > 0 ==> (end < b.len() || ext[0] == 10),
    ensures
        rec_parse(fmt, b + ext, pos) == (RecStep::Rec { index: i, data: d, end }),
{
    let b2 = b + ext;
    lemma_rec_wf(fmt, b, pos);
    if ext.len() == 0 {
        assert(b2 =~= b);
    } else {
        match fmt {
            LogFormat::Binary => {
                assert(b2.subrange(pos, pos + 8) =~= b.subrange(pos, pos + 8));
                assert(b2.subrange(pos + 8, pos + 16) =~= b.subrange(pos + 8, pos + 16));
                let sz = be_val(b.subrange(pos + 8, pos + 16));
                assert(b2.subrange(pos + 16, pos + 16 + sz) =~= b.subrange(pos + 16, pos + 16 + sz));
            },
            LogFormat::JSON => {
                let p1 = if b[pos] == 10 { pos + 1 } else { pos };
                assert(b2[pos] == b[pos]);
                let e = scan_nl(b, p1);
                lemma_scan_nl_props(b, p1);
                assert(e == end);
                if end < b.len() {
                    lemma_scan_nl_char(b2, p1, e);
                } else {
                    assert(b2[end] == ext[0]);
                    lemma_scan_nl_char(b2, p1, e);
                }
                assert(b2.subrange(p1, p1 + 9) =~= b.subrange(p1, p1 + 9));
                let d1 = scan_digits(b, p1 + 9);
                lemma_scan_digits_props(b, p1 + 9);
                assert(b.subrange(d1, d1 + 9) == lit_data());
                assert(b[d1] == lit_data()[0]) by {
                    assert(b.subrange(d1, d1 + 9)[0] == b[d1]);
                }
                assert(!is_digit(b[d1]));
                lemma_scan_digits_char(b2, p1 + 9, d1);
                assert(b2.subrange(p1 + 9, d1) =~= b.subrange(p1 + 9, d1));
                assert(b2.subrange(d1, d1 + 9) =~= b.subrange(d1, d1 + 9));
                let q0 = d1 + 9;
                if q0 < b.len() && b[q0] == 93 {
                    assert(b2[q0] == b[q0]);
                    assert(b2[q0 + 1] == b[q0 + 1]);
                } else {
                    let pl = parse_list(b, q0);
                    lemma_parse_list_ext(b, ext, q0, pl->Some_0.0, pl->Some_0.1);
                    let q1 = pl->Some_0.1;
                    assert(b2[q1] == b[q1]);
                    if q0 < b2.len() && b2[q0] == 93 {
                        assert(b[q0] == 93);
                        assert(false);
                    }
                }
            },
        }
    }
}

/// A parsed record is unaffected by cutting the input at or past its end.
#[verifier::rlimit(100)]
pub proof fn lemma_rec_cut(fmt: LogFormat, b: Seq<u8>, cut: int, pos: int, i: u64, d: Seq<u8>, end: int)
    requires
        0 <= pos <= b.len(),
        rec_parse(fmt, b, pos) == (RecStep::Rec { index: i, data: d, end }),
        end <= cut <= b.len(),
    ensures
        rec_parse(fmt, b.subrange(0, cut), pos) == (RecStep::Rec { index: i, data: d, end }),
{
    let b2 = b.subrange(0, cut);
    lemma_rec_wf(fmt, b, pos);
    match fmt {
        LogFormat::Binary => {
            assert(b2.subrange(pos, pos + 8) =~= b.subrange(pos, pos + 8));
            assert(b2.subrange(pos + 8, pos + 16) =~= b.subrange(pos + 8, pos + 16));
            let sz = be_val(b.subrange(pos + 8, pos + 16));
            assert(b2.subrange(pos + 16, pos + 16 + sz) =~= b.subrange(pos + 16, pos + 16 + sz));
        },
        LogFormat::JSON => {
            let p1 = if b[pos] == 10 { pos + 1 } else { pos };
            assert(b2[pos] == b[pos]);
            let e = scan_nl(b, p1);
            lemma_scan_nl_props(b, p1);
            assert(e == end);
            if end < cut {
                assert(b2[end] == b[end]);
                lemma_scan_nl_char(b2, p1, e);
            } else {
                lemma_scan_nl_char(b2, p1, e);
            }
            assert(b2.subrange(p1, p1 + 9) =~= b.subrange(p1, p1 + 9));
            let d1 = scan_digits(b, p1 + 9);
            lemma_scan_digits_props(b, p1 + 9);
            assert(b[d1] == lit_data()[0]) by {
                assert(b.subrange(d1, d1 + 9)[0] == b[d1]);
            }
            assert(!is_digit(b[d1]));
            assert(d1 < end);
            lemma_scan_digits_char(b2, p1 + 9, d1);
            assert(b2.subrange(p1 + 9, d1) =~= b.subrange(p1 + 9, d1));
            assert(b2.subrange(d1, d1 + 9) =~= b.subrange(d1, d1 + 9));
            let q0 = d1 + 9;
            if q0 < b.len() && b[q0] == 93 {
                assert(b2[q0] == b[q0]);
                assert(b2[q0 + 1] == b[q0 + 1]);
            } else {
                let pl = parse_list(b, q0);
                lemma_parse_list_cut(b, cut, q0, pl->Some_0.0, pl->Some_0.1);
                let q1 = pl->Some_0.1;
                assert(b2[q1] == b[q1]);
                if q0 < b2.len() && b2[q0] == 93 {
                    assert(b[q0] == 93);
                    assert(false);
                }
            }
        },
    }
}

/// A parsed record shifts with its input when bytes before it are dropped.
#[verifier::rlimit(100)]
pub proof fn lemma_rec_shift(fmt: LogFormat, b: Seq<u8>, q: int, pos: int, i: u64, d: Seq<u8>, end: int)
    requires
        0 <= q <= pos <= b.len(),
        rec_parse(fmt, b, pos) == (RecStep::Rec { index: i, data: d, end }),
    ensures
        rec_parse(fmt, b.subrange(q, b.len() as int), pos - q) == (RecStep::Rec {
            index: i,
            data: d,
            end: end - q,
        }),
{
    let b2 = b.subrange(q, b.len() as int);
    lemma_rec_wf(fmt, b, pos);
    match fmt {
        LogFormat::Binary => {
            assert(b2.subrange(pos - q, pos - q + 8) =~= b.subrange(pos, pos + 8));
            assert(b2.subrange(pos - q + 8, pos - q + 16) =~= b.subrange(pos + 8, pos + 16));
            let sz = be_val(b.subrange(pos + 8, pos + 16));
            assert(b2.subrange(pos - q + 16, pos - q + 16 + sz) =~= b.subrange(
                pos + 16,
                pos + 16 + sz,
            ));
        },
        LogFormat::JSON => {
            let p1 = if b[pos] == 10 { pos + 1 } else { pos };
            assert(b2[pos - q] == b[pos]);
            let e = scan_nl(b, p1);
            lemma_scan_nl_props(b, p1);
            assert(e == end);
            lemma_scan_nl_char(b2, p1 - q, e - q);
            assert(b2.subrange(p1 - q, p1 - q + 9) =~= b.subrange(p1, p1 + 9));
            let d1 = scan_digits(b, p1 + 9);
            lemma_scan_digits_props(b, p1 + 9);
            assert(b[d1] == lit_data()[0]) by {
                assert(b.subrange(d1, d1 + 9)[0] == b[d1]);
            }
            assert(!is_digit(b[d1]));
            lemma_scan_digits_char(b2, p1 + 9 - q, d1 - q);
            assert(b2.subrange(p1 + 9 - q, d1 - q) =~= b.subrange(p1 + 9, d1));
            assert(b2.subrange(d1 - q, d1 - q + 9) =~= b.subrange(d1, d1 + 9));
            let q0 = d1 + 9;
            if q0 < b.len() && b[q0] == 93 {
                assert(b2[q0 - q] == b[q0]);
                assert(b2[q0 - q + 1] == b[q0 + 1]);
            } else {
                let pl = parse_list(b, q0);
                lemma_parse_list_shift(b, q, q0, pl->Some_0.0, pl->Some_0.1);
                let q1 = pl->Some_0.1;
                assert(b2[q1 - q] == b[q1]);
                if q0 - q < b2.len() && b2[q0 - q] == 93 {
                    assert(b[q0] == 93);
                    assert(false);
                }
            }
        },
    }
}

// ---------------------------------------------------------------------------
// Executable encoder
// ---------------------------------------------------------------------------

/// The list bytes emitted for the first `j` payload bytes, with a trailing
/// comma whenever more follow.
pub open spec fn json_list_pre(d: Seq<u8>, j: int) -> Seq<u8>
    decreases j,
{
    if j <= 0 {
        Seq::empty()
    } else {
        json_list_pre(d, j - 1) + dec_seq(d[j - 1] as nat) + (if j < d.len() {
            seq![44u8]
        } else {
            Seq::empty()
        })
    }
}

pub proof fn lemma_json_list_pre(d: Seq<u8>, j: int)
    requires
        0 <= j <= d.len(),
    ensures
        json_list(d) == json_list_pre(d, j) + json_list(d.skip(j)),
    decreases j,
{
    if j == 0 {
        assert(d.skip(0) =~= d);
        assert(json_list_pre(d, 0) + json_list(d) =~= json_list(d));
    } else {
        lemma_json_list_pre(d, j - 1);
        let t = d.skip(j - 1);
        assert(t.len() == d.len() - j + 1);
        assert(t[0] == d[j - 1]);
        if t.len() == 1 {
            assert(j == d.len());
            assert(json_list(t) == dec_seq(d[j - 1] as nat));
            assert(d.skip(j) =~= Seq::<u8>::empty());
            assert(json_list_pre(d, j) =~= json_list_pre(d, j - 1) + dec_seq(d[j - 1] as nat));
            assert(json_list_pre(d, j) + json_list(d.skip(j)) =~= json_list_pre(d, j - 1)
                + json_list(t));
        } else {
            assert(t.drop_first() =~= d.skip(j));
            assert(json_list(t) == dec_seq(d[j - 1] as nat) + seq![44u8] + json_list(d.skip(j)));
            assert(json_list_pre(d, j) =~= json_list_pre(d, j - 1) + dec_seq(d[j - 1] as nat)
                + seq![44u8]);
            assert(json_list_pre(d, j) + json_list(d.skip(j)) =~= json_list_pre(d, j - 1)
                + json_list(t));
        }
    }
}

/// Append one framed record to `out`.
#[verifier::rlimit(100)]
pub fn append_rec(out: &mut Vec<u8>, fmt: LogFormat, sep: bool, index: u64, data: &[u8])
    ensures
        final(out)@ == old(out)@ + framed(fmt, sep, index, data@),
{
    match fmt {
        LogFormat::Binary => {
            out.push((index >> 56) as u8);
            out.push((index >> 48) as u8);
            out.push((index >> 40) as u8);
            out.push((index >> 32) as u8);
            out.push((index >> 24) as u8);
            out.push((index >> 16) as u8);
            out.push((index >> 8) as u8);
            out.push(index as u8);
            let n = data.len() as u64;
            out.push((n >> 56) as u8);
            out.push((n >> 48) as u8);
            out.push((n >> 40) as u8);
            out.push((n >> 32) as u8);
            out.push((n >> 24) as u8);
            out.push((n >> 16) as u8);
            out.push((n >> 8) as u8);
            out.push(n as u8);
            proof {
                assert(out@ =~= old(out)@ + u64_be(index) + u64_be(data@.len() as u64));
            }
            push_bytes(out, data);
            proof {
                assert(out@ =~= old(out)@ + framed(fmt, sep, index, data@));
            }
        },
        LogFormat::JSON => {
            let ghost base = out@;
            if sep {
                out.push(10);
            }
            out.push(123);
            out.push(34);
            out.push(105);
            out.push(110);
            out.push(100);
            out.push(101);
            out.push(120);
            out.push(34);
            out.push(58);
            proof {
                if sep {
                    assert(out@ =~= base + seq![10u8] + lit_obj());
                } else {
                    assert(out@ =~= base + lit_obj());
                }
            }
            push_dec(out, index);
            out.push(44);
            out.push(34);
            out.push(100);
            out.push(97);
            out.push(116);
            out.push(97);
            out.push(34);
            out.push(58);
            out.push(91);
            let ghost sep_seq: Seq<u8> = if sep { seq![10u8] } else { Seq::empty() };
            proof {
                assert(out@ =~= base + sep_seq + lit_obj() + dec_seq(index as nat) + lit_data());
            }
            let ghost head = out@;
            let mut j: usize = 0;
            proof {
                assert(out@ =~= head + json_list_pre(data@, 0));
            }
            while j < data.len()
                invariant
                    j <= data@.len(),
                    out@ == head + json_list_pre(data@, j as int),
                decreases data@.len() - j,
            {
                let ghost before = out@;
                push_dec(out, data[j] as u64);
                if j + 1 < data.len() {
                    out.push(44);
                    proof {
                        assert(out@ =~= before + dec_seq(data@[j as int] as nat) + seq![44u8]);
                        assert(out@ =~= head + json_list_pre(data@, j + 1));
                    }
                } else {
                    proof {
                        assert(out@ =~= before + dec_seq(data@[j as int] as nat));
                        assert(out@ =~= head + json_list_pre(data@, j + 1));
                    }
                }
                j = j + 1;
            }
            out.push(93);
            out.push(125);
            proof {
                lemma_json_list_pre(data@, data@.len() as int);
                assert(data@.skip(data@.len() as int) =~= Seq::<u8>::empty());
                assert(json_list(Seq::<u8>::empty()) == Seq::<u8>::empty());
                assert(json_list(data@) == json_list_pre(data@, data@.len() as int) + Seq::<
                    u8,
                >::empty());
                assert(json_list(data@) =~= json_list_pre(data@, data@.len() as int));
                assert(out@ =~= base + sep_seq + json_rec(index, data@));
                assert(out@ =~= base + framed(fmt, sep, index, data@));
            }
        },
    }
}

// ---------------------------------------------------------------------------
// Executable decoder
// ---------------------------------------------------------------------------

/// Result of decoding one record of a file: the entry with the position just
/// past it, clean end of file, or corruption.
pub enum DecStep {
    Rec(Entry, usize),
    End,
    Bad,
}

fn scan_nl_exec(b: &Vec<u8>, p: usize) -> (r: usize)
    requires
        p <= b@.len(),
    ensures
        r as int == scan_nl(b@, p as int),
        p <= r <= b@.len(),
{
    let mut j = p;
    while j < b.len()
        invariant
            p <= j <= b@.len(),
            forall|x: int| p <= x < j ==> b@[x] != 10,
        decreases b@.len() - j,
    {
        if b[j] == 10 {
            proof {
                lemma_scan_nl_char(b@, p as int, j as int);
            }
            return j;
        }
        j = j + 1;
    }
    proof {
        lemma_scan_nl_char(b@, p as int, b@.len() as int);
    }
    j
}

fn scan_digits_exec(b: &Vec<u8>, p: usize) -> (r: usize)
    requires
        p <= b@.len(),
    ensures
        r as int == scan_digits(b@, p as int),
        p <= r <= b@.len(),
        all_digits(b@.subrange(p as int, r as int)),
{
    let mut j = p;
    while j < b.len()
        invariant
            p <= j <= b@.len(),
            forall|x: int| p <= x < j ==> is_digit(b@[x]),
        decreases b@.len() - j,
    {
        let c = b[j];
        if c < 48 || c > 57 {
            proof {
                lemma_scan_digits_char(b@, p as int, j as int);
                assert(all_digits(b@.subrange(p as int, j as int)));
            }
            return j;
        }
        j = j + 1;
    }
    proof {
        lemma_scan_digits_char(b@, p as int, b@.len() as int);
        assert(all_digits(b@.subrange(p as int, b@.len() as int)));
    }
    j
}

/// Copy `b[from..to)` into a fresh vector.
pub fn copy_range(b: &Vec<u8>, from: usize, to: usize) -> (r: Vec<u8>)
    requires
        from <= to <= b@.len(),
    ensures
        r@ == b@.subrange(from as int, to as int),
{
    let mut out: Vec<u8> = Vec::new();
    let mut j = from;
    while j < to
        invariant
            from <= j <= to <= b@.len(),
            out@ == b@.subrange(from as int, j as int),
        decreases to - j,
    {
        out.push(b[j]);
        j = j + 1;
        proof {
            assert(out@ =~= b@.subrange(from as int, j as int));
        }
    }
    out
}

fn read_be_exec(b: &Vec<u8>, p: usize) -> (r: u64)
    requires
        p + 8 <= b@.len(),
    ensures
        r == be_val(b@.subrange(p as int, p + 8)),
{
    let nlen = b.len();
    proof {
        assert(p + 8 <= nlen);
    }
    let r = (b[p] as u64) << 56 | (b[p + 1] as u64) << 48 | (b[p + 2] as u64) << 40 | (b[p + 3]
        as u64) << 32 | (b[p + 4] as u64) << 24 | (b[p + 5] as u64) << 16 | (b[p + 6] as u64)
        << 8 | (b[p + 7] as u64);
    proof {
        let s = b@.subrange(p as int, p + 8);
        assert(s[0] == b@[p as int]);
        assert(s[1] == b@[p + 1]);
        assert(s[2] == b@[p + 2]);
        assert(s[3] == b@[p + 3]);
        assert(s[4] == b@[p + 4]);
        assert(s[5] == b@[p + 5]);
        assert(s[6] == b@[p + 6]);
        assert(s[7] == b@[p + 7]);
    }
    r
}

fn decode_bin(b: &Vec<u8>, pos: usize) -> (r: DecStep)
    requires
        pos <= b@.len(),
    ensures
        decode_matches(LogFormat::Binary, b@, pos as int, r),
{
    if pos == b.len() {
        return DecStep::End;
    }
    if b.len() - pos < 16 {
        return DecStep::Bad;
    }
    let index = read_be_exec(b, pos);
    let sz = read_be_exec(b, pos + 8);
    let room = (b.len() - pos - 16) as u64;
    if sz > room {
        return DecStep::Bad;
    }
    let szu = sz as usize;
    let data = copy_range(b, pos + 16, pos + 16 + szu);
    DecStep::Rec(Entry { index, data }, pos + 16 + szu)
}

/// What the decoder must hand back: the mirror of `rec_parse`.
pub open spec fn decode_matches(fmt: LogFormat, b: Seq<u8>, pos: int, r: DecStep) -> bool {
    match rec_parse(fmt, b, pos) {
        RecStep::Rec { index, data, end } => r matches DecStep::Rec(ent, p2) && ent.index == index
            && ent.data@ == data && p2 as int == end,
        RecStep::End => r is End,
        RecStep::Bad => r is Bad,
    }
}

#[verifier::rlimit(100)]
fn decode_json(b: &Vec<u8>, pos: usize) -> (r: DecStep)
    requires
        pos <= b@.len(),
    ensures
        decode_matches(LogFormat::JSON, b@, pos as int, r),
{
    if pos == b.len() {
        return DecStep::End;
    }
    let p1 = if b[pos] == 10 {
        pos + 1
    } else {
        pos
    };
    if p1 >= b.len() {
        return DecStep::Bad;
    }
    let e = scan_nl_exec(b, p1);
    if b.len() - p1 < 9 {
        return DecStep::Bad;
    }
    if !(b[p1] == 123 && b[p1 + 1] == 34 && b[p1 + 2] == 105 && b[p1 + 3] == 110 && b[p1 + 4]
        == 100 && b[p1 + 5] == 101 && b[p1 + 6] == 120 && b[p1 + 7] == 34 && b[p1 + 8] == 58) {
        proof {
            let sub = b@.subrange(p1 as int, p1 + 9);
            assert(sub[0] == b@[p1 as int] && sub[1] == b@[p1 + 1] && sub[2] == b@[p1 + 2] && sub[3]
                == b@[p1 + 3] && sub[4] == b@[p1 + 4] && sub[5] == b@[p1 + 5] && sub[6] == b@[p1 + 6]
                && sub[7] == b@[p1 + 7] && sub[8] == b@[p1 + 8]);
            assert(sub != lit_obj());
        }
        return DecStep::Bad;
    }
    proof {
        assert(b@.subrange(p1 as int, p1 + 9) =~= lit_obj());
    }
    let d1 = scan_digits_exec(b, p1 + 9);
    if d1 == p1 + 9 {
        return DecStep::Bad;
    }
    let index = match parse_digits_val(b, p1 + 9, d1) {
        None => {
            return DecStep::Bad;
        },
        Some(v) => v,
    };
    if b.len() - d1 < 9 {
        return DecStep::Bad;
    }
    if !(b[d1] == 44 && b[d1 + 1] == 34 && b[d1 + 2] == 100 && b[d1 + 3] == 97 && b[d1 + 4] == 116
        && b[d1 + 5] == 97 && b[d1 + 6] == 34 && b[d1 + 7] == 58 && b[d1 + 8] == 91) {
        proof {
            let sub = b@.subrange(d1 as int, d1 + 9);
            assert(sub[0] == b@[d1 as int] && sub[1] == b@[d1 + 1] && sub[2] == b@[d1 + 2] && sub[3]
                == b@[d1 + 3] && sub[4] == b@[d1 + 4] && sub[5] == b@[d1 + 5] && sub[6] == b@[d1 + 6]
                && sub[7] == b@[d1 + 7] && sub[8] == b@[d1 + 8]);
            assert(sub != lit_data());
        }
        return DecStep::Bad;
    }
    proof {
        assert(b@.subrange(d1 as int, d1 + 9) =~= lit_data());
    }
    let q0 = d1 + 9;
    if q0 < b.len() && b[q0] == 93 {
        if e >= 2 && q0 == e - 2 && b[q0 + 1] == 125 {
            proof {
                assert(q0 + 2 == e);
            }
            let data: Vec<u8> = Vec::new();
            return DecStep::Rec(Entry { index, data }, e);
        } else {
            return DecStep::Bad;
        }
    }
    // non-empty list
    let mut acc: Vec<u8> = Vec::new();
    let mut p = q0;
    loop
        invariant
            q0 <= p <= b@.len(),
            p1 < b@.len(),
            pos <= b@.len(),
            rec_parse_json(b@, pos as int) == ({
                let pl0 = parse_list(b@, q0 as int);
                let full = match pl0 {
                    None => RecStep::Bad,
                    Some((data, q1)) => {
                        if q1 + 1 == e && q1 < b@.len() && b@[q1 as int] == 125 {
                            RecStep::Rec { index, data, end: e as int }
                        } else {
                            RecStep::Bad
                        }
                    },
                };
                full
            }),
            match parse_list(b@, p as int) {
                None => parse_list(b@, q0 as int) is None,
                Some((rest, e2)) => parse_list(b@, q0 as int) == Some((acc@ + rest, e2)),
            },
            e as int == scan_nl(b@, p1 as int),
            e <= b@.len(),
        decreases b@.len() - p,
    {
        if p >= b.len() {
            return DecStep::Bad;
        }
        let r = scan_digits_exec(b, p);
        if !(p < r && r < b.len()) {
            return DecStep::Bad;
        }
        let v = match parse_digits_val(b, p, r) {
            None => {
                return DecStep::Bad;
            },
            Some(v) => v,
        };
        if v > 255 {
            return DecStep::Bad;
        }
        if b[r] == 93 {
            acc.push(v as u8);
            proof {
                let rest0 = seq![(v as u8)];
                assert(parse_list(b@, p as int) == Some((rest0, r + 1)));
                assert(acc@.drop_last() + rest0 =~= acc@);
            }
            let q1 = r + 1;
            if q1 < b.len() && b[q1] == 125 && e >= 1 && q1 == e - 1 {
                proof {
                    assert(q1 + 1 == e);
                    assert(parse_list(b@, q0 as int) == Some((acc@, q1 as int)));
                    assert(rec_parse_json(b@, pos as int) == (RecStep::Rec {
                        index,
                        data: acc@,
                        end: e as int,
                    }));
                }
                return DecStep::Rec(Entry { index, data: acc }, e);
            } else {
                return DecStep::Bad;
            }
        } else if b[r] == 44 {
            acc.push(v as u8);
            proof {
                match parse_list(b@, r + 1) {
                    None => {
                        assert(parse_list(b@, p as int) is None);
                    },
                    Some((rest2, e2)) => {
                        assert(parse_list(b@, p as int) == Some((seq![(v as u8)] + rest2, e2)));
                        assert(acc@.drop_last() + (seq![(v as u8)] + rest2) =~= acc@ + rest2);
                    },
                }
            }
            p = r + 1;
        } else {
            return DecStep::Bad;
        }
    }
}

/// Decode one record of `b` at `pos`.
pub fn decode_at(fmt: LogFormat, b: &Vec<u8>, pos: usize) -> (r: DecStep)
    requires
        pos <= b@.len(),
    ensures
        decode_matches(fmt, b@, pos as int, r),
{
    match fmt {
        LogFormat::Binary => decode_bin(b, pos),
        LogFormat::JSON => decode_json(b, pos),
    }
}

} // verus!
