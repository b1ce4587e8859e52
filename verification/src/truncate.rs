//! Head and tail truncation: scan the owning segment to the cut boundary,
//! copy the kept byte range, and rebuild the catalog around it.

use crate::codec::{decode_at, lemma_rec_wf, rec_parse, DecStep, RecStep};
use crate::error::Error;
use crate::log::{lemma_log_owner_ext, lemma_owner_from_props, lemma_owner_is, Log};

use crate::primitives::Segment;
use crate::runs::{lemma_run_cut, lemma_run_shift, run_parse, run_pos};
use vstd::prelude::*;

verus! {

impl Log {
    /// Drop every cached reader.
    pub(crate) fn drop_all_readers(&mut self)
        requires
            old(self).inv(),
            !old(self).closed,
        ensures
            final(self).inv(),
            final(self).readers@.len() == 0,
            *final(self) == (Log { readers: final(self).readers, ..*old(self) }),
            forall|k: int| 0 <= k < old(self).nseg() ==> #[trigger] final(self).seg_run(k) == old(
                self,
            ).seg_run(k),
            forall|i: int| #[trigger] final(self).entry_at(i) == old(self).entry_at(i),
            old(self).consistent() ==> final(self).consistent(),
    {
        self.readers.clear();
        proof {
            crate::truncate::lemma_no_readers(*old(self), *self);
        }
    }

    /// Walk segment `k` from its start to the boundary just before `target`,
    /// returning that byte offset.  The buffer must be flushed so the
    /// segment's logical content is its file bytes.
    #[verifier::loop_isolation(false)]
    #[verifier::rlimit(100)]
    fn scan_to(&self, k: usize, target: u64) -> (r: Result<usize, Error>)
        requires
            self.inv(),
            self.buffer@.len() == 0,
            (k as int) < self.nseg(),
            self.base(k as int) <= target as int <= self.hi(k as int) + 1,
        ensures
            r matches Err(e) ==> e is Corrupt,
            (k as int == self.nseg() - 1 || self.consistent()) ==> r is Ok,
            r matches Ok(pos) ==> pos as int <= self.segments@[k as int].data@.len()
                && (self.seg_run(k as int) matches Some(ps) ==> (target as int - self.base(k as int)
                <= ps.len() && run_parse(
                self.fmt(),
                self.seg_content(k as int),
                pos as int,
                target as int,
            ) == Some(ps.skip(target as int - self.base(k as int))) && pos as int == run_pos(
                self.fmt(),
                self.seg_content(k as int),
                0,
                target as int - self.base(k as int),
            ))),
    {
        let ghost fmt = self.fmt();
        let ghost content = self.seg_content(k as int);
        let ghost ps = self.seg_run(k as int)->Some_0;
        proof {
            assert(content == self.segments@[k as int].data@) by {
                if k as int == self.nseg() - 1 {
                    assert(self.active_content() =~= self.segments@[k as int].data@);
                }
            }
            if self.seg_run(k as int) is Some {
                assert(ps.skip(0) =~= ps);
            }
            if k as int == self.nseg() - 1 {
                assert(self.hi(k as int) + 1 - self.base(k as int) == ps.len());
            }
            if self.consistent() && (k as int) < self.nseg() - 1 {
                assert(self.seg_run(k as int) is Some);
                assert(self.hi(k as int) + 1 - self.base(k as int) == ps.len());
            }
        }
        let mut pos: usize = 0;
        let mut expect: u64 = self.segments[k].index;
        while expect < target
            invariant
                self.base(k as int) <= expect as int <= target as int,
                pos as int <= self.segments@[k as int].data@.len(),
                self.seg_run(k as int) matches Some(q) ==> (expect as int - self.base(k as int)
                    <= q.len() && run_parse(fmt, content, pos as int, expect as int) == Some(
                    q.skip(expect as int - self.base(k as int)),
                ) && pos as int == run_pos(
                    fmt,
                    content,
                    0,
                    expect as int - self.base(k as int),
                )),
            decreases self.segments@[k as int].data@.len() - pos,
        {
            let step = decode_at(self.opts.log_format, &self.segments[k].data, pos);
            match step {
                DecStep::Rec(ent, p2) => {
                    proof {
                        lemma_rec_wf(fmt, content, pos as int);
                    }
                    if ent.index != expect {
                        proof {
                            if self.seg_run(k as int) is Some {
                                let j = expect as int - self.base(k as int);
                                assert(run_parse(fmt, content, pos as int, expect as int) == Some(
                                    ps.skip(j),
                                ));
                                assert(false);
                            }
                        }
                        return Err(Error::Corrupt);
                    }
                    proof {
                        if self.seg_run(k as int) is Some {
                            lemma_step_advance(
                                fmt,
                                content,
                                pos as int,
                                p2 as int,
                                expect,
                                ent.data@,
                                ps,
                                self.base(k as int),
                            );
                        }
                    }
                    pos = p2;
                    expect = expect + 1;
                },
                DecStep::End => {
                    proof {
                        if self.seg_run(k as int) is Some && expect as int - self.base(k as int)
                            < ps.len() {
                            let j = expect as int - self.base(k as int);
                            assert(ps.skip(j).len() > 0);
                            lemma_rec_wf(fmt, content, pos as int);
                            assert(false);
                        }
                    }
                    return Err(Error::Corrupt);
                },
                DecStep::Bad => {
                    proof {
                        if self.seg_run(k as int) is Some {
                            assert(run_parse(fmt, content, pos as int, expect as int) is Some);
                        }
                    }
                    return Err(Error::Corrupt);
                },
            }
        }
        Ok(pos)
    }

    /// Replace the catalog prefix ending at slot `k0` by one segment starting
    /// at `index` that holds `rem`, and make `index` the first index.
    #[verifier::rlimit(100)]
    fn rebuild_front(&mut self, k0: usize, index: u64, rem: Vec<u8>)
        requires
            old(self).inv(),
            !old(self).closed,
            old(self).buffer@.len() == 0,
            old(self).readers@.len() == 0,
            (k0 as int) < old(self).nseg(),
            old(self).base(k0 as int) <= index as int <= old(self).hi(k0 as int),
            old(self).seg_run(k0 as int) matches Some(ps) ==> (index as int - old(self).base(
                k0 as int,
            ) <= ps.len() && run_parse(old(self).fmt(), rem@, 0, index as int) == Some(
                ps.skip(index as int - old(self).base(k0 as int)),
            )),
            k0 as int == old(self).nseg() - 1 ==> rem@.len() <= usize::MAX,
        ensures
            final(self).inv(),
            !final(self).closed,
            final(self).first_index == index,
            final(self).last_index == old(self).last_index,
            final(self).opts == old(self).opts,
            final(self).path == old(self).path,
            final(self).buffer@.len() == 0,
            final(self).readers@.len() == 0,
            old(self).consistent() ==> final(self).consistent(),
            old(self).consistent() ==> forall|i: int|
                index as int <= i <= old(self).last_index
                    ==> final(self).entry_at(i) == old(self).entry_at(i),
    {
        let ghost l0 = *old(self);
        let ghost fmt = l0.fmt();
        let nsegs = self.segments.len();
        let was_single = k0 == nsegs - 1;
        let new_size = rem.len();
        let mut t: usize = 0;
        while t < k0 + 1
            invariant
                t <= k0 + 1,
                k0 < nsegs,
                nsegs as int == l0.nseg(),
                (k0 as int) < l0.nseg(),
                self.segments@ == l0.segments@.skip(t as int),
                *self == (Log { segments: self.segments, ..l0 }),
            decreases k0 + 1 - t,
        {
            proof {
                assert(l0.segments@.skip(t as int).remove(0) =~= l0.segments@.skip(t as int + 1));
            }
            self.segments.remove(0);
            t = t + 1;
        }
        self.segments.insert(0, Segment { index, data: rem });
        self.first_index = index;
        if was_single {
            self.file_size = new_size;
        }
        proof {
            let l1 = *self;
            let n0 = l0.nseg();
            let n1 = l1.nseg();
            assert(n1 == n0 - k0);
            assert(l1.segments@[0].index == index && l1.segments@[0].data@ == rem@);
            assert forall|m: int| 1 <= m < n1 implies l1.segments@[m] == l0.segments@[m
                + k0] by {
                assert(l1.segments@[m] == l0.segments@.skip(k0 as int + 1)[m - 1]);
            }
            lemma_owner_from_props(l0, index as int, n0 - 1);
            assert((k0 as int) < n0 - 1 ==> (index as int) < l0.base(k0 as int + 1));
            // sortedness of the rebuilt catalog
            assert(l1.seg_sorted()) by {
                assert forall|a: int, b: int| 0 <= a < b < n1 implies #[trigger] l1.base(a)
                    < #[trigger] l1.base(b) by {
                    if a == 0 {
                        assert(l1.base(b) == l0.base(b + k0));
                        assert(l0.base(k0 as int + 1) <= l0.base(b + k0));
                    } else {
                        assert(l1.base(a) == l0.base(a + k0));
                        assert(l1.base(b) == l0.base(b + k0));
                    }
                }
                assert forall|a: int| 0 <= a < n1 implies 1 <= #[trigger] l1.base(a) by {
                    if a > 0 {
                        assert(l1.base(a) == l0.base(a + k0));
                    }
                }
            }
            // contents of the kept segments are untouched
            assert forall|m: int| 1 <= m < n1 implies #[trigger] l1.seg_content(m)
                == l0.seg_content(m + k0) by {
                if m == n1 - 1 {
                    assert(l1.active_content() =~= l1.segments@[m].data@ + l0.buffer@);
                    assert(l0.active_content() =~= l0.segments@[m + k0].data@ + l0.buffer@);
                } else {
                    assert(l1.segments@[m] == l0.segments@[m + k0]);
                }
            }
            assert forall|m: int| 1 <= m < n1 implies #[trigger] l1.seg_run(m) == l0.seg_run(
                m + k0,
            ) by {}
            if was_single {
                assert(l1.seg_content(0) =~= rem@);
            } else {
                assert(l1.seg_content(0) == rem@);
            }
            // the new head parses to the kept tail of the old owner
            if l0.seg_run(k0 as int) is Some {
                let ps = l0.seg_run(k0 as int)->Some_0;
                let j = index as int - l0.base(k0 as int);
                assert(l1.seg_run(0) == Some(ps.skip(j)));
            }
            // active segment accounting
            assert(l1.active_ok()) by {
                if was_single {
                    let ps = l0.seg_run(k0 as int)->Some_0;
                    let j = index as int - l0.base(k0 as int);
                    assert(l0.last_index as int == l0.base(k0 as int) - 1 + ps.len());
                    assert(ps.skip(j).len() == ps.len() - j);
                } else {
                    assert(l1.seg_run(n1 - 1) == l0.seg_run(n0 - 1));
                }
            }
            assert(l1.file_size as int == l1.active_content().len()) by {
                if was_single {
                    assert(l1.active_content() =~= rem@);
                } else {
                    assert(l1.active_content() == l0.active_content());
                }
            }
            assert(l1.inv());
            if l0.consistent() {
                let ps = l0.seg_run(k0 as int)->Some_0;
                let j = index as int - l0.base(k0 as int);
                assert(ps.len() == l0.hi(k0 as int) + 1 - l0.base(k0 as int));
                assert forall|m: int| 0 <= m < n1 - 1 implies (#[trigger] l1.seg_run(m) matches Some(
                    q,
                ) && q.len() == l1.base(m + 1) - l1.base(m)) by {
                    if m == 0 {
                        assert(l1.seg_run(0) == Some(ps.skip(j)));
                        assert(l1.base(1) == l0.base(k0 as int + 1));
                    } else {
                        assert(l1.seg_run(m) == l0.seg_run(m + k0));
                    }
                }
                assert(l1.consistent());
                assert forall|i: int| index as int <= i <= l0.last_index implies l1.entry_at(i)
                    == l0.entry_at(i) by {
                    lemma_owner_from_props(l0, i, n0 - 1);
                    let m = l0.owner(i);
                    if m == k0 as int {
                        lemma_owner_is(l1, i, 0);
                        assert(l1.entry_at(i) == ps.skip(j)[i - index]);
                        assert(ps.skip(j)[i - index] == ps[i - l0.base(k0 as int)]);
                        lemma_owner_is(l0, i, k0 as int);
                    } else {
                        assert(m > k0 as int) by {
                            if m < k0 as int {
                                assert(i < l0.base(k0 as int));
                            }
                        }
                        lemma_owner_is(l1, i, m - k0 as int);
                        assert(l1.seg_run(m - k0 as int) == l0.seg_run(m));
                        assert(l1.base(m - k0 as int) == l0.base(m));
                    }
                }
            }
        }
    }

    /// Truncate the catalog to slot `k0`, cut the owning segment's bytes to
    /// `prefix`, and make `last_keep` the last index.
    #[verifier::rlimit(100)]
    fn rebuild_back(&mut self, k0: usize, last_keep: u64, prefix: Vec<u8>)
        requires
            old(self).inv(),
            !old(self).closed,
            old(self).buffer@.len() == 0,
            old(self).readers@.len() == 0,
            (k0 as int) < old(self).nseg(),
            old(self).base(k0 as int) <= last_keep as int <= old(self).hi(k0 as int),
            run_parse(old(self).fmt(), prefix@, 0, old(self).base(k0 as int)) matches Some(qs)
                && qs.len() == last_keep as int + 1 - old(self).base(k0 as int),
            old(self).consistent() ==> run_parse(
                old(self).fmt(),
                prefix@,
                0,
                old(self).base(k0 as int),
            ) == Some(old(self).seg_run(k0 as int)->Some_0.take(
                last_keep as int + 1 - old(self).base(k0 as int),
            )),
        ensures
            final(self).inv(),
            !final(self).closed,
            final(self).first_index == old(self).first_index,
            final(self).last_index == last_keep,
            final(self).opts == old(self).opts,
            final(self).path == old(self).path,
            final(self).buffer@.len() == 0,
            final(self).readers@.len() == 0,
            old(self).consistent() ==> final(self).consistent(),
            old(self).consistent() ==> forall|i: int|
                old(self).first_index as int <= i <= last_keep as int
                    ==> final(self).entry_at(i) == old(self).entry_at(i),
    {
        let ghost l0 = *old(self);
        let ghost fmt = l0.fmt();
        let new_size = prefix.len();
        let nsegs = self.segments.len();
        proof {
            assert(k0 < nsegs);
        }
        self.segments.truncate(k0 + 1);
        let mut seg = self.segments.pop().unwrap();
        seg.data = prefix;
        self.segments.push(seg);
        self.file_size = new_size;
        self.last_index = last_keep;
        proof {
            let l1 = *self;
            let n1 = l1.nseg();
            assert(n1 == k0 + 1);
            assert forall|m: int| 0 <= m < n1 - 1 implies l1.segments@[m] == l0.segments@[m] by {}
            assert(l1.segments@[k0 as int].index == l0.segments@[k0 as int].index);
            let qs = run_parse(l0.fmt(), prefix@, 0, l0.base(k0 as int))->Some_0;
            let cnt = last_keep as int + 1 - l0.base(k0 as int);
            assert(l1.seg_sorted()) by {
                assert forall|a: int, b: int| 0 <= a < b < n1 implies #[trigger] l1.base(a)
                    < #[trigger] l1.base(b) by {
                    assert(l1.base(a) == l0.base(a));
                    assert(l1.base(b) == l0.base(b));
                }
                assert forall|a: int| 0 <= a < n1 implies 1 <= #[trigger] l1.base(a) by {
                    assert(l1.base(a) == l0.base(a));
                }
            }
            assert forall|m: int| 0 <= m < n1 - 1 implies #[trigger] l1.seg_content(m)
                == l0.seg_content(m) by {
                assert(l1.segments@[m] == l0.segments@[m]);
            }
            assert forall|m: int| 0 <= m < n1 - 1 implies #[trigger] l1.seg_run(m) == l0.seg_run(
                m,
            ) by {}
            assert(l1.active_content() =~= seg.data@);
            assert(l1.seg_run(n1 - 1) == Some(qs));
            assert(l1.active_ok());
            assert(l1.file_size as int == l1.active_content().len());
            assert(l1.inv());
            if l0.consistent() {
                assert forall|m: int| 0 <= m < n1 - 1 implies (#[trigger] l1.seg_run(m) matches Some(
                    q,
                ) && q.len() == l1.base(m + 1) - l1.base(m)) by {
                    assert(l1.seg_run(m) == l0.seg_run(m));
                    assert(l1.base(m + 1) == l0.base(m + 1));
                }
                assert(l1.consistent());
                let ps = l0.seg_run(k0 as int)->Some_0;
                assert(l1.seg_run(n1 - 1) == Some(ps.take(cnt)));
                assert(ps.len() == l0.hi(k0 as int) + 1 - l0.base(k0 as int));
                assert forall|i: int| l0.first_index as int <= i <= last_keep as int implies
                    l1.entry_at(i) == l0.entry_at(i) by {
                    lemma_owner_from_props(l0, i, l0.nseg() - 1);
                    let m = l0.owner(i);
                    assert(m <= k0 as int) by {
                        if m > k0 as int {
                            assert(l0.base(m) <= i);
                            assert(l0.base(k0 as int + 1) <= l0.base(m) || m == k0 as int + 1);
                        }
                    }
                    lemma_owner_is(l0, i, m);
                    lemma_owner_is(l1, i, m);
                    if m == k0 as int {
                        assert(l1.seg_run(m) == Some(ps.take(cnt)));
                        assert(ps.take(cnt)[i - l0.base(m)] == ps[i - l0.base(m)]);
                    } else {
                        assert(l1.seg_run(m) == l0.seg_run(m));
                    }
                }
            }
        }
    }
}

/// A log with no cached readers satisfies the reader clauses vacuously; all
/// contents are untouched.
pub proof fn lemma_no_readers(lf: Log, lr: Log)
    requires
        lf.inv(),
        !lf.closed,
        lr.segments == lf.segments,
        lr.buffer == lf.buffer,
        lr.first_index == lf.first_index,
        lr.last_index == lf.last_index,
        lr.closed == lf.closed,
        lr.opts == lf.opts,
        lr.file_size == lf.file_size,
        lr.readers@.len() == 0,
    ensures
        lr.inv(),
        forall|k: int| 0 <= k < lf.nseg() ==> #[trigger] lr.seg_run(k) == lf.seg_run(k),
        forall|i: int| #[trigger] lr.entry_at(i) == lf.entry_at(i),
        lf.consistent() ==> lr.consistent(),
{
    assert forall|k: int| 0 <= k < lf.nseg() implies #[trigger] lr.seg_content(k) == lf.seg_content(
        k,
    ) by {}
    assert forall|k: int| 0 <= k < lf.nseg() implies #[trigger] lr.base(k) == lf.base(k) by {}
    lemma_log_owner_ext(lf, lr);
    assert(lr.seg_sorted());
    assert(lr.seg_run(lr.nseg() - 1) == lf.seg_run(lf.nseg() - 1));
    assert(lr.active_ok());
    assert(lr.active_content() == lf.active_content());
    assert(lr.inv());
    if lf.consistent() {
        assert forall|k: int| 0 <= k < lr.nseg() - 1 implies (#[trigger] lr.seg_run(k) matches Some(
            q,
        ) && q.len() == lr.base(k + 1) - lr.base(k)) by {
            assert(lr.seg_run(k) == lf.seg_run(k));
        }
    }
}

/// Stepping the scan across one matching record: both the remaining-run fact
/// and the boundary position advance.
proof fn lemma_step_advance(
    fmt: crate::primitives::LogFormat,
    content: Seq<u8>,
    pos: int,
    p2: int,
    expect: u64,
    d: Seq<u8>,
    ps: Seq<Seq<u8>>,
    base: int,
)
    requires
        base <= expect as int,
        expect as int - base <= ps.len(),
        run_parse(fmt, content, pos, expect as int) == Some(ps.skip(expect as int - base)),
        rec_parse(fmt, content, pos) == (RecStep::Rec { index: expect, data: d, end: p2 }),
        pos == run_pos(fmt, content, 0, expect as int - base),
    ensures
        expect as int - base < ps.len(),
        run_parse(fmt, content, p2, expect as int + 1) == Some(ps.skip(expect as int + 1 - base)),
        p2 == run_pos(fmt, content, 0, expect as int + 1 - base),
        d == ps[expect as int - base],
{
    let j = expect as int - base;
    let q = ps.skip(j);
    assert(q.len() > 0) by {
        if q.len() == 0 {
            assert(run_parse(fmt, content, pos, expect as int) == Some(q));
        }
    }
    assert(match run_parse(fmt, content, p2, expect as int + 1) {
        Option::None => false,
        Option::Some(rest) => q == seq![d] + rest,
    });
    let rest = run_parse(fmt, content, p2, expect as int + 1)->Some_0;
    assert(rest =~= q.drop_first());
    assert(q.drop_first() =~= ps.skip(j + 1));
    assert(q[0] == d) by {
        assert((seq![d] + rest)[0] == d);
    }
    assert(ps.skip(j)[0] == ps[j]);
    assert(run_pos(fmt, content, 0, j + 1) == p2);
}

impl Log {
    /// Decode `b` from start to end, checking one gap-free run starting at
    /// `e0`; yields the number of records.
    #[verifier::loop_isolation(false)]
    #[verifier::rlimit(100)]
    pub(crate) fn check_run(lf: crate::primitives::LogFormat, b: &Vec<u8>, e0: u64) -> (r: Option<
        u64,
    >)
        ensures
            r matches Some(cnt) ==> (run_parse(lf, b@, 0, e0 as int) matches Some(qs) && qs.len()
                == cnt && e0 + cnt <= u64::MAX + 1),
            run_parse(lf, b@, 0, e0 as int) is Some ==> r is Some,
    {
        let ghost fmt = lf;
        let blen = b.len();
        let mut pos: usize = 0;
        let mut ecur: u64 = e0;
        let ghost acc: Seq<Seq<u8>> = Seq::empty();
        let mut acc_len: u64 = 0;
        proof {
            assert(forall|t: Seq<Seq<u8>>| run_parse(fmt, b@, 0, e0 as int) == Some(t)
                ==> run_parse(fmt, b@, 0, e0 as int) == Some(Seq::empty() + t)) by {
                assert(forall|t: Seq<Seq<u8>>| Seq::empty() + t =~= t);
            }
            if run_parse(fmt, b@, 0, e0 as int) is Some {
                let full = run_parse(fmt, b@, 0, e0 as int)->Some_0;
                assert(full.skip(0) =~= full);
            }
        }
        let mut acc_ghost: Ghost<Seq<Seq<u8>>> = Ghost(acc);
        loop
            invariant
                pos as int <= b@.len(),
                blen == b@.len(),
                acc_len as int <= pos as int,
                acc_ghost@.len() == acc_len,
                ecur as int == e0 + acc_len,
                forall|t: Seq<Seq<u8>>| run_parse(fmt, b@, pos as int, ecur as int) == Some(t)
                    ==> run_parse(fmt, b@, 0, e0 as int) == Some(acc_ghost@ + t),
                run_parse(fmt, b@, 0, e0 as int) matches Some(full) ==> (acc_len <= full.len()
                    && run_parse(fmt, b@, pos as int, ecur as int) == Some(
                    full.skip(acc_len as int),
                )),
            decreases b@.len() - pos,
        {
            let step = decode_at(lf, b, pos);
            match step {
                DecStep::Rec(ent, p2) => {
                    proof {
                        lemma_rec_wf(fmt, b@, pos as int);
                    }
                    if ent.index != ecur {
                        proof {
                            if run_parse(fmt, b@, 0, e0 as int) is Some {
                                let full = run_parse(fmt, b@, 0, e0 as int)->Some_0;
                                assert(run_parse(fmt, b@, pos as int, ecur as int) == Some(
                                    full.skip(acc_len as int),
                                ));
                                assert(false);
                            }
                        }
                        return None;
                    }
                    proof {
                        let accv = acc_ghost@;
                        if run_parse(fmt, b@, 0, e0 as int) is Some {
                            let full = run_parse(fmt, b@, 0, e0 as int)->Some_0;
                            let sk = full.skip(acc_len as int);
                            assert(run_parse(fmt, b@, pos as int, ecur as int) == Some(sk));
                            assert(sk.len() > 0) by {
                                if sk.len() == 0 {
                                    assert(run_parse(fmt, b@, pos as int, ecur as int) == Some(sk));
                                }
                            }
                            let rest0 = run_parse(fmt, b@, p2 as int, ecur as int + 1)->Some_0;
                            assert(sk == seq![ent.data@] + rest0);
                            assert(rest0 =~= sk.drop_first());
                            assert(sk.drop_first() =~= full.skip(acc_len as int + 1));
                        }
                        assert forall|t: Seq<Seq<u8>>| run_parse(
                            fmt,
                            b@,
                            p2 as int,
                            ecur as int + 1,
                        ) == Some(t) implies run_parse(fmt, b@, 0, e0 as int) == Some(
                            accv.push(ent.data@) + t,
                        ) by {
                            assert(run_parse(fmt, b@, pos as int, ecur as int) == Some(
                                seq![ent.data@] + t,
                            ));
                            assert(accv + (seq![ent.data@] + t) =~= accv.push(ent.data@) + t);
                        }
                    }
                    if ecur == u64::MAX {
                        if p2 == b.len() {
                            proof {
                                lemma_rec_wf(fmt, b@, p2 as int);
                                assert(run_parse(fmt, b@, p2 as int, ecur as int + 1) == Some(
                                    Seq::<Seq<u8>>::empty(),
                                ));
                                assert(acc_ghost@.push(ent.data@) + Seq::<Seq<u8>>::empty()
                                    =~= acc_ghost@.push(ent.data@));
                            }
                            return Some(acc_len + 1);
                        }
                        proof {
                            if run_parse(fmt, b@, 0, e0 as int) is Some {
                                let full = run_parse(fmt, b@, 0, e0 as int)->Some_0;
                                let rest0 = run_parse(
                                    fmt,
                                    b@,
                                    p2 as int,
                                    ecur as int + 1,
                                )->Some_0;
                                assert(run_parse(fmt, b@, p2 as int, ecur as int + 1) is Some);
                                lemma_rec_wf(fmt, b@, p2 as int);
                                assert(false);
                            }
                        }
                        return None;
                    }
                    proof {
                        acc_ghost@ = acc_ghost@.push(ent.data@);
                    }
                    pos = p2;
                    ecur = ecur + 1;
                    acc_len = acc_len + 1;
                },
                DecStep::End => {
                    proof {
                        lemma_rec_wf(fmt, b@, pos as int);
                        assert(run_parse(fmt, b@, pos as int, ecur as int) == Some(Seq::<
                            Seq<u8>,
                        >::empty()));
                        assert(acc_ghost@ + Seq::<Seq<u8>>::empty() =~= acc_ghost@);
                    }
                    return Some(acc_len);
                },
                DecStep::Bad => {
                    proof {
                        if run_parse(fmt, b@, 0, e0 as int) is Some {
                            let full = run_parse(fmt, b@, 0, e0 as int)->Some_0;
                            assert(run_parse(fmt, b@, pos as int, ecur as int) == Some(
                                full.skip(acc_len as int),
                            ));
                            assert(false);
                        }
                    }
                    return None;
                },
            }
        }
    }

    /// Drop every entry before `index`: afterwards the log begins at `index`.
    #[verifier::rlimit(100)]
    pub fn truncate_front(&mut self, index: u64) -> (r: Result<(), Error>)
        requires
            old(self).inv(),
        ensures
            final(self).inv(),
            old(self).closed ==> (r matches Err(e) && e is Closed && *final(self) == *old(self)),
            !old(self).closed && (index == 0 || old(self).last_index == 0 || index > old(
                self,
            ).last_index || index < old(self).first_index) ==> (r matches Err(e) && e is OutOfRange
                && *final(self) == *old(self)),
            !old(self).closed && !(index == 0 || old(self).last_index == 0 || index > old(
                self,
            ).last_index || index < old(self).first_index) ==> {
                &&& !final(self).closed
                &&& final(self).last_index == old(self).last_index
                &&& final(self).opts == old(self).opts
                &&& final(self).readers@.len() == 0
                &&& (r is Ok ==> final(self).first_index == index)
                &&& (r is Err ==> (r matches Err(e) && e is Corrupt && final(self).first_index
                    == old(self).first_index))
                &&& (old(self).consistent() ==> r is Ok && final(self).consistent())
                &&& (old(self).consistent() ==> forall|i: int|
                    index as int <= i <= old(self).last_index
                        ==> final(self).entry_at(i) == old(self).entry_at(i))
                &&& (index == old(self).first_index ==> (r is Ok && final(self).first_index
                    == old(self).first_index && forall|i: int|
                    final(self).entry_at(i) == old(self).entry_at(i)))
            },
    {
        if self.closed {
            return Err(Error::Closed);
        }
        if index == 0 || self.last_index == 0 || index > self.last_index || index
            < self.first_index {
            return Err(Error::OutOfRange);
        }
        self.flush();
        self.drop_all_readers();
        if index == self.first_index {
            return Ok(());
        }
        let ghost lf = *self;
        let k0 = self.find_segment(index);
        proof {
            lemma_owner_from_props(lf, index as int, lf.nseg() - 1);
            assert(index as int <= lf.hi(k0 as int)) by {
                if (k0 as int) < lf.nseg() - 1 {
                    assert((index as int) < lf.base(k0 as int + 1));
                }
            }
        }
        let pos = match self.scan_to(k0, index) {
            Err(e) => {
                return Err(e);
            },
            Ok(p) => p,
        };
        let dlen = self.segments[k0].data.len();
        let rem = crate::codec::copy_range(&self.segments[k0].data, pos, dlen);
        proof {
            if lf.seg_run(k0 as int) is Some {
                let ps = lf.seg_run(k0 as int)->Some_0;
                let j = index as int - lf.base(k0 as int);
                lemma_run_shift(
                    lf.fmt(),
                    lf.seg_content(k0 as int),
                    pos as int,
                    pos as int,
                    index as int,
                    ps.skip(j),
                );
                assert(lf.seg_content(k0 as int).subrange(
                    pos as int,
                    lf.seg_content(k0 as int).len() as int,
                ) =~= rem@);
            }
        }
        self.rebuild_front(k0, index, rem);
        Ok(())
    }

    /// Drop every entry after `last_keep`: afterwards the log ends at
    /// `last_keep`.
    #[verifier::rlimit(100)]
    pub fn truncate_back(&mut self, last_index: u64) -> (r: Result<(), Error>)
        requires
            old(self).inv(),
        ensures
            final(self).inv(),
            old(self).closed ==> (r matches Err(e) && e is Closed && *final(self) == *old(self)),
            !old(self).closed && (last_index == 0 || old(self).last_index == 0 || last_index > old(
                self,
            ).last_index || last_index < old(self).first_index) ==> (r matches Err(e)
                && e is OutOfRange && *final(self) == *old(self)),
            !old(self).closed && !(last_index == 0 || old(self).last_index == 0 || last_index
                > old(self).last_index || last_index < old(self).first_index) ==> {
                &&& !final(self).closed
                &&& final(self).first_index == old(self).first_index
                &&& final(self).opts == old(self).opts
                &&& final(self).readers@.len() == 0
                &&& (r is Ok ==> final(self).last_index == last_index)
                &&& (r is Err ==> (r matches Err(e) && e is Corrupt && final(self).last_index
                    == old(self).last_index))
                &&& (old(self).consistent() ==> r is Ok && final(self).consistent())
                &&& (old(self).consistent() ==> forall|i: int|
                    old(self).first_index as int <= i <= last_index as int
                        ==> final(self).entry_at(i) == old(self).entry_at(i))
                &&& (last_index == old(self).last_index ==> (r is Ok && forall|i: int|
                    final(self).entry_at(i) == old(self).entry_at(i)))
            },
    {
        if self.closed {
            return Err(Error::Closed);
        }
        if last_index == 0 || self.last_index == 0 || last_index > self.last_index || last_index
            < self.first_index {
            return Err(Error::OutOfRange);
        }
        self.flush();
        self.drop_all_readers();
        if last_index == self.last_index {
            return Ok(());
        }
        let ghost lf = *self;
        let k0 = self.find_segment(last_index);
        proof {
            lemma_owner_from_props(lf, last_index as int, lf.nseg() - 1);
            assert(last_index as int <= lf.hi(k0 as int)) by {
                if (k0 as int) < lf.nseg() - 1 {
                    assert((last_index as int) < lf.base(k0 as int + 1));
                }
            }
        }
        let pos = match self.scan_to(k0, last_index + 1) {
            Err(e) => {
                return Err(e);
            },
            Ok(p) => p,
        };
        let prefix = crate::codec::copy_range(&self.segments[k0].data, 0, pos);
        // the kept bytes must themselves be the exact run of the kept entries
        let base = self.segments[k0].index;
        let cnt = match Log::check_run(self.opts.log_format, &prefix, base) {
            None => {
                proof {
                    if lf.consistent() {
                        let ps = lf.seg_run(k0 as int)->Some_0;
                        let c = last_index as int + 1 - lf.base(k0 as int);
                        lemma_run_cut(
                            lf.fmt(),
                            lf.seg_content(k0 as int),
                            0,
                            lf.base(k0 as int),
                            ps,
                            c,
                        );
                        assert(lf.seg_content(k0 as int).subrange(0, pos as int) =~= prefix@);
                    }
                }
                return Err(Error::Corrupt);
            },
            Some(c) => c,
        };
        let expected = last_index - base + 1;
        if cnt != expected {
            proof {
                if lf.consistent() {
                    let ps = lf.seg_run(k0 as int)->Some_0;
                    let c = last_index as int + 1 - lf.base(k0 as int);
                    lemma_run_cut(
                        lf.fmt(),
                        lf.seg_content(k0 as int),
                        0,
                        lf.base(k0 as int),
                        ps,
                        c,
                    );
                    assert(lf.seg_content(k0 as int).subrange(0, pos as int) =~= prefix@);
                }
            }
            return Err(Error::Corrupt);
        }
        proof {
            if lf.seg_run(k0 as int) is Some {
                let ps = lf.seg_run(k0 as int)->Some_0;
                let c = last_index as int + 1 - lf.base(k0 as int);
                assert(c <= ps.len()) by {
                    assert(last_index as int <= lf.hi(k0 as int));
                    if k0 as int == lf.nseg() - 1 {
                        assert(lf.hi(k0 as int) + 1 - lf.base(k0 as int) == ps.len());
                    } else {
                        if lf.consistent() {
                            assert(ps.len() == lf.base(k0 as int + 1) - lf.base(k0 as int));
                        }
                    }
                }
            }
            if lf.consistent() || k0 as int == lf.nseg() - 1 {
                let ps = lf.seg_run(k0 as int)->Some_0;
                let c = last_index as int + 1 - lf.base(k0 as int);
                lemma_run_cut(lf.fmt(), lf.seg_content(k0 as int), 0, lf.base(k0 as int), ps, c);
                assert(lf.seg_content(k0 as int).subrange(0, pos as int) =~= prefix@);
                assert(run_parse(lf.fmt(), prefix@, 0, lf.base(k0 as int)) == Some(ps.take(c)));
            }
        }
        self.rebuild_back(k0, last_index, prefix);
        Ok(())
    }
}

} // verus!
