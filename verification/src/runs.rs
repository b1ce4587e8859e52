//! Runs of records: a segment file is a run of consecutively indexed records.
//! The engine's invariants say of every file that `run_parse` yields its
//! payloads; the lemmas here move that fact across appends, cuts at a record
//! boundary, and drops of a leading prefix.

use crate::codec::{framed, lemma_framed_parse, lemma_rec_cut, lemma_rec_ext, lemma_rec_shift,
    lemma_rec_wf, rec_parse, RecStep};
use crate::primitives::LogFormat;
use vstd::prelude::*;

verus! {

/// All records of `b` from `pos` to the end, provided they parse cleanly and
/// their indices are exactly `e, e+1, e+2, ...`; `None` otherwise.
pub open spec fn run_parse(fmt: LogFormat, b: Seq<u8>, pos: int, e: int) -> Option<Seq<Seq<u8>>>
    decreases b.len() - pos,
{
    if !(0 <= pos <= b.len()) {
        None
    } else {
        match rec_parse(fmt, b, pos) {
            RecStep::End => Some(Seq::empty()),
            RecStep::Bad => None,
            RecStep::Rec { index, data, end } => {
                if index as int == e && pos < end <= b.len() {
                    match run_parse(fmt, b, end, e + 1) {
                        None => None,
                        Some(rest) => Some(seq![data] + rest),
                    }
                } else {
                    None
                }
            },
        }
    }
}

/// Position just past the first `k` records.
pub open spec fn run_pos(fmt: LogFormat, b: Seq<u8>, pos: int, k: int) -> int
    decreases k,
{
    if k <= 0 {
        pos
    } else {
        match rec_parse(fmt, b, run_pos(fmt, b, pos, k - 1)) {
            RecStep::Rec { end, .. } => end,
            _ => run_pos(fmt, b, pos, k - 1),
        }
    }
}

pub proof fn lemma_run_pos_step(fmt: LogFormat, b: Seq<u8>, pos: int, end1: int, k: int)
    requires
        k >= 1,
        rec_parse(fmt, b, pos) matches RecStep::Rec { end, .. } && end == end1,
    ensures
        run_pos(fmt, b, pos, k) == run_pos(fmt, b, end1, k - 1),
    decreases k,
{
    if k == 1 {
        assert(run_pos(fmt, b, pos, 0) == pos);
        assert(run_pos(fmt, b, end1, 0) == end1);
    } else {
        lemma_run_pos_step(fmt, b, pos, end1, k - 1);
        assert(run_pos(fmt, b, pos, k - 1) == run_pos(fmt, b, end1, k - 2));
    }
}

/// Dropping the first `k` records of a run leaves the run of the rest,
/// starting at the position just past them.
pub proof fn lemma_run_skip(fmt: LogFormat, b: Seq<u8>, pos: int, e: int, ps: Seq<Seq<u8>>, k: int)
    requires
        run_parse(fmt, b, pos, e) == Some(ps),
        0 <= k <= ps.len(),
    ensures
        pos <= run_pos(fmt, b, pos, k) <= b.len(),
        run_parse(fmt, b, run_pos(fmt, b, pos, k), e + k) == Some(ps.skip(k)),
    decreases k,
{
    if k == 0 {
        assert(ps.skip(0) =~= ps);
    } else {
        lemma_run_skip(fmt, b, pos, e, ps, k - 1);
        let p1 = run_pos(fmt, b, pos, k - 1);
        let tail = ps.skip(k - 1);
        assert(tail.len() > 0);
        let step = rec_parse(fmt, b, p1);
        match step {
            RecStep::Rec { index, data, end } => {
                assert(run_pos(fmt, b, pos, k) == end);
                let rest = run_parse(fmt, b, end, e + k)->Some_0;
                assert(seq![data] + rest == tail);
                assert(rest =~= tail.drop_first());
                assert(tail.drop_first() =~= ps.skip(k));
            },
            _ => {
                assert(false);
            },
        }
    }
}

/// Appending one more framed record to the input extends its run by that
/// record's payload.  For JSON the appended bytes carry their separator
/// exactly when the input is nonempty.
pub proof fn lemma_run_push(
    fmt: LogFormat,
    b: Seq<u8>,
    pos: int,
    e: int,
    ps: Seq<Seq<u8>>,
    i2: u64,
    d2: Seq<u8>,
    sep: bool,
)
    requires
        run_parse(fmt, b, pos, e) == Some(ps),
        i2 as int == e + ps.len(),
        d2.len() <= u64::MAX,
        fmt is JSON ==> (sep || b.len() == 0),
    ensures
        run_parse(fmt, b + framed(fmt, sep, i2, d2), pos, e) == Some(ps.push(d2)),
    decreases b.len() - pos,
{
    let ext = framed(fmt, sep, i2, d2);
    let b2 = b + ext;
    lemma_rec_wf(fmt, b, pos);
    match rec_parse(fmt, b, pos) {
        RecStep::End => {
            assert(pos == b.len());
            assert(b2.subrange(pos, pos + ext.len() as int) =~= ext);
            lemma_framed_parse(fmt, b2, pos, sep, i2, d2);
            assert(rec_parse(fmt, b2, pos) == (RecStep::Rec {
                index: i2,
                data: d2,
                end: pos + ext.len() as int,
            }));
            lemma_rec_wf(fmt, b2, pos + ext.len() as int);
            assert(run_parse(fmt, b2, pos + ext.len() as int, e + 1) == Some(Seq::<Seq<u8>>::empty()));
            assert(ps =~= Seq::<Seq<u8>>::empty());
            assert(seq![d2] + Seq::<Seq<u8>>::empty() =~= ps.push(d2));
        },
        RecStep::Rec { index, data, end } => {
            lemma_rec_ext(fmt, b, ext, pos, index, data, end);
            let rest = run_parse(fmt, b, end, e + 1)->Some_0;
            assert(seq![data] + rest == ps);
            assert(rest =~= ps.drop_first());
            lemma_run_push(fmt, b, end, e + 1, ps.drop_first(), i2, d2, sep);
            let rest2 = run_parse(fmt, b2, end, e + 1)->Some_0;
            assert(rest2 == ps.drop_first().push(d2));
            assert(seq![data] + ps.drop_first().push(d2) =~= ps.push(d2)) by {
                assert(ps[0] == data) by {
                    let rest = run_parse(fmt, b, end, e + 1)->Some_0;
                    assert((seq![data] + rest)[0] == data);
                }
            }
        },
        RecStep::Bad => {
            assert(false);
        },
    }
}

/// Cutting the input just past the first `k` records leaves exactly the run
/// of those `k` records.
#[verifier::rlimit(100)]
pub proof fn lemma_run_cut(fmt: LogFormat, b: Seq<u8>, pos: int, e: int, ps: Seq<Seq<u8>>, k: int)
    requires
        run_parse(fmt, b, pos, e) == Some(ps),
        0 <= k <= ps.len(),
    ensures
        run_parse(fmt, b.subrange(0, run_pos(fmt, b, pos, k)), pos, e) == Some(ps.take(k)),
    decreases k,
{
    let cut = run_pos(fmt, b, pos, k);
    lemma_run_skip(fmt, b, pos, e, ps, k);
    let b2 = b.subrange(0, cut);
    lemma_rec_wf(fmt, b, pos);
    if k == 0 {
        assert(cut == pos);
        lemma_rec_wf(fmt, b2, pos);
        assert(ps.take(0) =~= Seq::<Seq<u8>>::empty());
    } else {
        match rec_parse(fmt, b, pos) {
            RecStep::Rec { index, data, end } => {
                lemma_run_pos_step(fmt, b, pos, end, k);
                let rest = run_parse(fmt, b, end, e + 1)->Some_0;
                assert(seq![data] + rest == ps);
                assert(rest =~= ps.drop_first());
                lemma_run_skip(fmt, b, end, e + 1, rest, k - 1);
                assert(end <= run_pos(fmt, b, end, k - 1));
                lemma_rec_cut(fmt, b, cut, pos, index, data, end);
                lemma_run_cut(fmt, b, end, e + 1, rest, k - 1);
                assert(run_parse(fmt, b2, end, e + 1) == Some(rest.take(k - 1)));
                assert(seq![data] + rest.take(k - 1) =~= ps.take(k)) by {
                    assert(ps[0] == data) by {
                        assert((seq![data] + rest)[0] == data);
                    }
                }
            },
            _ => {
                assert(false);
            },
        }
    }
}

/// Dropping all bytes before a run shifts the run in place.
pub proof fn lemma_run_shift(fmt: LogFormat, b: Seq<u8>, q: int, pos: int, e: int, ps: Seq<Seq<u8>>)
    requires
        run_parse(fmt, b, pos, e) == Some(ps),
        0 <= q <= pos,
    ensures
        run_parse(fmt, b.subrange(q, b.len() as int), pos - q, e) == Some(ps),
    decreases b.len() - pos,
{
    let b2 = b.subrange(q, b.len() as int);
    lemma_rec_wf(fmt, b, pos);
    match rec_parse(fmt, b, pos) {
        RecStep::End => {
            lemma_rec_wf(fmt, b2, pos - q);
        },
        RecStep::Rec { index, data, end } => {
            lemma_rec_shift(fmt, b, q, pos, index, data, end);
            let rest = run_parse(fmt, b, end, e + 1)->Some_0;
            assert(run_parse(fmt, b, end, e + 1) == Some(rest));
            lemma_run_shift(fmt, b, q, end, e + 1, rest);
        },
        RecStep::Bad => {
            assert(false);
        },
    }
}

/// An empty input is an empty run.
pub proof fn lemma_run_empty(fmt: LogFormat, b: Seq<u8>, e: int)
    requires
        b.len() == 0,
    ensures
        run_parse(fmt, b, 0, e) == Some(Seq::<Seq<u8>>::empty()),
{
    lemma_rec_wf(fmt, b, 0);
}

} // verus!
