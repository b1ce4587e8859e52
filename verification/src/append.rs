//! The append path: encoding an entry into the write buffer, cycling to a
//! fresh segment when the active one is full, and the public `write` and
//! `write_batch` operations.

use crate::batch::{payloads_of, sum_sizes, Batch};
use crate::codec::{framed, rec_bound};
use crate::error::Error;
use crate::log::{lemma_log_owner_ext, lemma_owner_from_props, lemma_owner_is, Log};
use crate::primitives::{Durability, LogFormat, Segment};
use crate::runs::{lemma_run_empty, lemma_run_push, run_parse};
use vstd::prelude::*;

verus! {

/// Upper bound on the bytes a run of consecutive entries starting at index
/// `e` adds to a file.
pub open spec fn run_bound(fmt: LogFormat, e: int, ps: Seq<Seq<u8>>) -> int
    decreases ps.len(),
{
    if ps.len() == 0 {
        0
    } else {
        rec_bound(fmt, e as u64, ps[0]) + run_bound(fmt, e + 1, ps.drop_first())
    }
}

/// Whether `write` rotates to a fresh segment before encoding.
pub open spec fn cycles(l: Log) -> bool {
    l.file_size >= l.opts.segment_size && l.last_index as int >= l.base(l.nseg() - 1)
}

/// Bytes a run of consecutive entries adds to a file whose emptiness at the
/// start is `sep0`.
pub open spec fn batch_growth(fmt: LogFormat, sep0: bool, e: int, ps: Seq<Seq<u8>>) -> int
    decreases ps.len(),
{
    if ps.len() == 0 {
        0
    } else {
        framed(fmt, sep0, e as u64, ps[0]).len() + batch_growth(fmt, true, e + 1, ps.drop_first())
    }
}

/// Segmentation keeps files bounded: whatever `write` leaves in the active
/// file is less than the configured segment size plus the one record just
/// appended — a full segment is rotated away, never grown further.
pub proof fn lemma_write_bounds_segment(pre: Log, post_size: int, index: u64, d: Seq<u8>)
    requires
        pre.inv(),
        pre.opts.segment_size > 0,
        post_size == (if cycles(pre) {
            framed(pre.fmt(), false, index, d).len() as int
        } else {
            pre.file_size + framed(pre.fmt(), pre.file_size > 0, index, d).len()
        }),
    ensures
        post_size < pre.opts.segment_size + framed(pre.fmt(), pre.file_size > 0, index, d).len(),
{
    if !cycles(pre) && pre.file_size >= pre.opts.segment_size {
        // the active segment can only be both full and uncycled when it holds
        // no entry at all, which makes it empty
        let n = pre.nseg();
        let ps = pre.seg_run(n - 1)->Some_0;
        assert((pre.last_index as int) < pre.base(n - 1));
        assert(ps.len() == 0);
        crate::codec::lemma_rec_wf(pre.fmt(), pre.active_content(), 0);
        assert(pre.active_content().len() == 0);
        assert(false);
    }
    if cycles(pre) {
        lemma_framed_min(pre.fmt(), pre.file_size > 0, index, d);
        assert(framed(pre.fmt(), false, index, d).len() <= framed(
            pre.fmt(),
            pre.file_size > 0,
            index,
            d,
        ).len() + 1) by {
            match pre.fmt() {
                LogFormat::Binary => {},
                LogFormat::JSON => {},
            }
        }
    }
}

/// Every framed record occupies at least one byte.
pub proof fn lemma_framed_min(fmt: LogFormat, sep: bool, index: u64, data: Seq<u8>)
    ensures
        framed(fmt, sep, index, data).len() >= 1,
{
    match fmt {
        LogFormat::Binary => {},
        LogFormat::JSON => {
            crate::codec::lemma_json_rec_no_nl(index, data);
        },
    }
}

impl Log {
    /// Encode one entry into the write buffer, account for its bytes, and
    /// advance `last_index` to it.  Advancing the index here — rather than
    /// leaving it to the caller — is deliberate: it keeps the invariant tying
    /// `last_index` to the active segment's run true after every single
    /// append, which `write_batch`'s loop relies on.
    #[verifier::rlimit(100)]
    pub(crate) fn append_entry(&mut self, index: u64, data: &[u8])
        requires
            old(self).inv(),
            !old(self).closed,
            index as int == old(self).last_index + 1,
            old(self).file_size + rec_bound(old(self).fmt(), index, data@) <= usize::MAX,
        ensures
            final(self).inv(),
            !final(self).closed,
            final(self).last_index == index,
            final(self).first_index == old(self).first_index,
            final(self).opts == old(self).opts,
            final(self).path == old(self).path,
            final(self).segments@.len() == old(self).segments@.len(),
            forall|k: int| 0 <= k < old(self).nseg() ==> final(self).base(k) == old(self).base(k),
            final(self).readers == old(self).readers,
            final(self).file_size as int == old(self).file_size + framed(
                old(self).fmt(),
                old(self).file_size > 0,
                index,
                data@,
            ).len(),
            final(self).buffer@ == old(self).buffer@ + framed(
                old(self).fmt(),
                old(self).file_size > 0,
                index,
                data@,
            ),
            final(self).entry_at(index as int) == data@,
            forall|i: int| old(self).in_range(i) ==> final(self).entry_at(i) == old(self).entry_at(
                i,
            ),
            old(self).consistent() ==> final(self).consistent(),
    {
        let ghost l0 = *old(self);
        let sep = self.file_size > 0;
        let len0 = self.buffer.len();
        crate::codec::append_rec(&mut self.buffer, self.opts.log_format, sep, index, data);
        let added = self.buffer.len() - len0;
        proof {
            vstd::slice::axiom_spec_len(data);
            assert(usize::MAX as int <= u64::MAX as int);
        }
        self.file_size = self.file_size + added;
        self.last_index = index;
        proof {
            let l1 = *self;
            let fmt = l0.fmt();
            let n = l0.nseg();
            let ext = framed(fmt, sep, index, data@);
            assert(l1.active_content() =~= l0.active_content() + ext);
            assert(l0.active_content().len() == l0.file_size);
            let ps = l0.seg_run(n - 1)->Some_0;
            assert(sep <==> l0.active_content().len() > 0);
            assert forall|k: int| 0 <= k < l1.nseg() implies #[trigger] l1.base(k) == l0.base(
                k,
            ) by {}
            assert(l1.seg_sorted());
            lemma_run_push(fmt, l0.active_content(), 0, l0.base(n - 1), ps, index, data@, sep);
            assert(l1.seg_run(n - 1) == Some(ps.push(data@)));
            // untouched segments
            assert forall|k: int| 0 <= k < n - 1 implies l1.seg_content(k) == l0.seg_content(k) by {
                assert(l1.segments@[k] == l0.segments@[k]);
            }
            // the new entry is readable at its index
            lemma_owner_is(l1, index as int, n - 1);
            assert(l1.entry_at(index as int) == ps.push(data@)[ps.len() as int]);
            // frame over the old range
            assert forall|i: int| l0.in_range(i) implies l1.entry_at(i) == l0.entry_at(i) by {
                lemma_owner_from_props(l0, i, n - 1);
                let k = l0.owner(i);
                crate::log::lemma_owner_from_ext(l0, l1, i, n - 1);
                if k == n - 1 {
                    assert(0 <= i - l0.base(k) < ps.len());
                    assert(ps.push(data@)[i - l0.base(k)] == ps[i - l0.base(k)]);
                } else {
                    assert(l1.seg_run(k) == l0.seg_run(k));
                }
            }
            // buffer separator discipline
            assert(l1.buffer_sep_ok()) by {
                if l1.fmt() is JSON && l1.buffer@.len() > 0 && l1.segments@[l1.nseg()
                    - 1].data@.len() > 0 {
                    if l0.buffer@.len() > 0 {
                        assert(l1.buffer@[0] == l0.buffer@[0]);
                    } else {
                        assert(l1.buffer@ =~= ext);
                        assert(sep);
                    }
                }
            }
            // readers stay at boundaries
            assert forall|j: int| 0 <= j < l1.readers@.len() implies l1.reader_ok(
                #[trigger] l1.readers@[j],
            ) by {
                let r = l1.readers@[j];
                assert(l0.reader_ok(r));
                let k = r.sindex as int;
                if k < n - 1 {
                    assert(l1.seg_content(k) == l0.seg_content(k));
                    assert(l1.seg_run(k) == l0.seg_run(k));
                    assert(l1.hi(k) == l0.hi(k));
                } else {
                    assert(l1.hi(k) == index as int);
                    if l0.seg_run(k) is Some {
                        let jdx = r.nindex as int - l0.base(k);
                        lemma_run_push(
                            fmt,
                            l0.active_content(),
                            r.pos as int,
                            r.nindex as int,
                            ps.skip(jdx),
                            index,
                            data@,
                            sep,
                        );
                        assert(ps.skip(jdx).push(data@) =~= ps.push(data@).skip(jdx));
                    }
                }
            }
            assert(l1.inv());
            // consistency of earlier segments is untouched
            if l0.consistent() {
                assert forall|k: int| 0 <= k < l1.nseg() - 1 implies (#[trigger] l1.seg_run(
                    k,
                ) matches Some(q) && q.len() == l1.base(k + 1) - l1.base(k)) by {
                    assert(l1.seg_run(k) == l0.seg_run(k));
                }
            }
        }
    }

    /// Close the active segment and start a fresh one at `last_index + 1`.
    #[verifier::rlimit(100)]
    pub(crate) fn cycle(&mut self)
        requires
            old(self).inv(),
            !old(self).closed,
            old(self).last_index < u64::MAX,
            old(self).last_index as int >= old(self).base(old(self).nseg() - 1),
        ensures
            final(self).inv(),
            !final(self).closed,
            final(self).segments@.len() == old(self).segments@.len() + 1,
            final(self).last_index == old(self).last_index,
            final(self).first_index == old(self).first_index,
            final(self).opts == old(self).opts,
            final(self).path == old(self).path,
            final(self).file_size == 0,
            final(self).buffer@.len() == 0,
            final(self).readers == old(self).readers,
            forall|k: int| 0 <= k < old(self).nseg() ==> final(self).base(k) == old(self).base(k)
                && final(self).seg_content(k) == old(self).seg_content(k),
            forall|i: int| old(self).in_range(i) ==> final(self).entry_at(i) == old(self).entry_at(
                i,
            ),
            old(self).consistent() ==> final(self).consistent(),
    {
        self.flush();
        let ghost lf = *self;
        let idx = self.last_index + 1;
        let data: Vec<u8> = Vec::new();
        self.segments.push(Segment { index: idx, data });
        self.file_size = 0;
        proof {
            let l0 = *old(self);
            let l1 = *self;
            let n = lf.nseg();
            let fmt = l0.fmt();
            assert(l1.nseg() == n + 1);
            assert(l1.active_content() =~= Seq::<u8>::empty());
            lemma_run_empty(fmt, l1.active_content(), idx as int);
            assert(l1.seg_run(n) == Some(Seq::<Seq<u8>>::empty()));
            assert forall|k: int| 0 <= k < n implies l1.seg_content(k) == lf.seg_content(k)
                && l1.base(k) == lf.base(k) by {
                assert(l1.segments@[k] == lf.segments@[k]);
                if k == n - 1 {
                    assert(lf.buffer@.len() == 0);
                    assert(lf.seg_content(k) =~= lf.segments@[k].data@ + lf.buffer@);
                    assert(l1.seg_content(k) == l1.segments@[k].data@);
                }
            }
            assert forall|k: int| 0 <= k < n implies #[trigger] l1.seg_run(k) == lf.seg_run(k) by {}
            // the old active segment now accounts exactly for its range
            assert(l1.seg_sorted()) by {
                assert forall|k: int, j: int| 0 <= k < j < l1.nseg() implies #[trigger] l1.base(k)
                    < #[trigger] l1.base(j) by {
                    if j == n {
                        assert(l1.base(k) == lf.base(k));
                        assert(lf.base(k) <= lf.base(n - 1));
                        assert(lf.base(n - 1) <= lf.last_index + 1);
                    }
                }
            }
            assert forall|i: int| l0.in_range(i) implies l1.entry_at(i) == l0.entry_at(i) by {
                lemma_owner_from_props(lf, i, n - 1);
                let k = lf.owner(i);
                assert(lf.base(k) <= i);
                assert(k < n - 1 ==> i < lf.base(k + 1));
                assert(i < l1.base(n));
                lemma_owner_is(l1, i, k);
                assert(lf.entry_at(i) == l0.entry_at(i)) by {
                    lemma_log_owner_ext(l0, lf);
                }
                assert(l1.seg_run(k) == lf.seg_run(k));
                assert(lf.owner(i) == k);
            }
            assert forall|j: int| 0 <= j < l1.readers@.len() implies l1.reader_ok(
                #[trigger] l1.readers@[j],
            ) by {
                let r = l1.readers@[j];
                assert(lf.reader_ok(r));
                let k = r.sindex as int;
                assert(l1.seg_content(k) == lf.seg_content(k));
                assert(l1.seg_run(k) == lf.seg_run(k));
                assert(l1.hi(k) == lf.hi(k)) by {
                    if k == n - 1 {
                        assert(l1.base(n) == lf.last_index + 1);
                    }
                }
            }
            if l0.consistent() {
                assert(lf.consistent()) by {
                    lemma_log_owner_ext(l0, lf);
                    assert forall|k: int| 0 <= k < lf.nseg() - 1 implies (#[trigger] lf.seg_run(
                        k,
                    ) matches Some(q) && q.len() == lf.base(k + 1) - lf.base(k)) by {
                        assert(lf.seg_run(k) == l0.seg_run(k));
                    }
                }
                assert forall|k: int| 0 <= k < l1.nseg() - 1 implies (#[trigger] l1.seg_run(
                    k,
                ) matches Some(q) && q.len() == l1.base(k + 1) - l1.base(k)) by {
                    assert(l1.seg_run(k) == lf.seg_run(k));
                    if k == n - 1 {
                        assert(lf.seg_run(k) is Some);
                        assert(lf.seg_run(k)->Some_0.len() == lf.last_index + 1 - lf.base(k));
                    }
                }
            }
        }
    }

    /// Append one entry.  The index must be exactly one past the last.
    pub fn write(&mut self, index: u64, data: &[u8]) -> (r: Result<(), Error>)
        requires
            old(self).inv(),
            old(self).file_size + rec_bound(old(self).fmt(), index, data@) <= usize::MAX,
        ensures
            final(self).inv(),
            old(self).closed ==> (r matches Err(e) && e is Closed && *final(self) == *old(self)),
            !old(self).closed && index as int != old(self).last_index + 1 ==> (r matches Err(e)
                && e is OutofOrder && *final(self) == *old(self)),
            !old(self).closed && index as int == old(self).last_index + 1 ==> {
                &&& r is Ok
                &&& !final(self).closed
                &&& final(self).last_index == index
                &&& final(self).first_index == old(self).first_index
                &&& final(self).entry_at(index as int) == data@
                &&& forall|i: int|
                    old(self).in_range(i) ==> final(self).entry_at(i) == old(self).entry_at(i)
                &&& (old(self).consistent() ==> final(self).consistent())
                &&& (old(self).file_size >= old(self).opts.segment_size && old(self).last_index
                    as int >= old(self).base(old(self).nseg() - 1) ==> final(self).segments@.len()
                    == old(self).segments@.len() + 1)
                &&& (!(old(self).file_size >= old(self).opts.segment_size && old(self).last_index
                    as int >= old(self).base(old(self).nseg() - 1))
                    ==> final(self).segments@.len() == old(self).segments@.len())
                &&& final(self).opts == old(self).opts
                &&& final(self).path == old(self).path
                &&& (cycles(*old(self)) ==> final(self).base(final(self).nseg() - 1)
                    == index as int)
                &&& (old(self).opts.durability is Medium || old(self).opts.durability is High
                    ==> final(self).buffer@.len() == 0)
                &&& final(self).buffer@.len() <= crate::MAX_BUFFER_SIZE
                &&& (old(self).opts.durability is Low ==> final(self).buffer@.len() as int == ({
                    let grown: int = if cycles(*old(self)) {
                        framed(old(self).fmt(), false, index, data@).len() as int
                    } else {
                        old(self).buffer@.len() as int + framed(
                            old(self).fmt(),
                            old(self).file_size > 0,
                            index,
                            data@,
                        ).len() as int
                    };
                    if grown > crate::MAX_BUFFER_SIZE as int {
                        0
                    } else {
                        grown
                    }
                }))
                &&& final(self).file_size as int == (if cycles(*old(self)) {
                    framed(old(self).fmt(), false, index, data@).len() as int
                } else {
                    old(self).file_size + framed(
                        old(self).fmt(),
                        old(self).file_size > 0,
                        index,
                        data@,
                    ).len()
                })
            },
    {
        if self.closed {
            return Err(Error::Closed);
        }
        if self.last_index == u64::MAX || index != self.last_index + 1 {
            return Err(Error::OutofOrder);
        }
        let nact = self.segments.len() - 1;
        if self.file_size >= self.opts.segment_size && self.last_index >= self.segments[nact].index {
            self.cycle();
        }
        self.append_entry(index, data);
        let do_flush = match self.opts.durability {
            Durability::Low => self.buffer.len() > crate::MAX_BUFFER_SIZE,
            _ => true,
        };
        if do_flush {
            self.flush();
        }
        Ok(())
    }
}

pub proof fn lemma_run_bound_nonneg(fmt: LogFormat, e: int, ps: Seq<Seq<u8>>)
    ensures
        run_bound(fmt, e, ps) >= 0,
    decreases ps.len(),
{
    if ps.len() > 0 {
        lemma_run_bound_nonneg(fmt, e + 1, ps.drop_first());
    }
}

impl Log {
    /// Whether a batch's size list accounts for exactly its staged bytes.
    fn batch_sizes_ok(batch: &Batch) -> (r: bool)
        ensures
            r == batch.wf(),
    {
        let ghost sizes = batch.data_sizes@;
        let ghost datas = batch.datas@;
        let mut acc: usize = 0;
        let mut v: usize = 0;
        proof {
            assert(sizes.take(0) =~= Seq::<usize>::empty());
        }
        while v < batch.data_sizes.len()
            invariant
                v <= sizes.len(),
                sizes == batch.data_sizes@,
                datas == batch.datas@,
                acc == sum_sizes(sizes.take(v as int)),
                acc <= datas.len(),
            decreases sizes.len() - v,
        {
            let sz = batch.data_sizes[v];
            proof {
                crate::batch::lemma_sum_sizes_take_succ(sizes, v as int);
            }
            if sz > batch.datas.len() - acc {
                proof {
                    crate::batch::lemma_sum_sizes_take_le(sizes, v as int + 1);
                }
                return false;
            }
            acc = acc + sz;
            v = v + 1;
        }
        proof {
            assert(sizes.take(sizes.len() as int) =~= sizes);
        }
        acc == batch.datas.len()
    }

    /// Append every staged payload of a well-formed batch, one entry at a
    /// time, at the next indices.
    #[verifier::rlimit(100)]
    fn append_all(&mut self, batch: &Batch) -> (g: Ghost<Seq<Seq<u8>>>)
        requires
            old(self).inv(),
            !old(self).closed,
            batch.wf(),
            old(self).last_index + batch.data_sizes@.len() <= u64::MAX,
            old(self).file_size + run_bound(
                old(self).fmt(),
                old(self).last_index + 1,
                batch.payloads(),
            ) <= usize::MAX,
            old(self).first_index as int <= old(self).last_index + 1,
        ensures
            final(self).inv(),
            !final(self).closed,
            g@ == batch.payloads(),
            final(self).last_index as int == old(self).last_index + batch.payloads().len(),
            final(self).first_index == old(self).first_index,
            final(self).opts == old(self).opts,
            final(self).path == old(self).path,
            forall|jj: int| 0 <= jj < batch.payloads().len() ==> final(self).entry_at(
                old(self).last_index + 1 + jj,
            ) == batch.payloads()[jj],
            forall|i: int| old(self).in_range(i) ==> final(self).entry_at(i) == old(self).entry_at(
                i,
            ),
            old(self).consistent() ==> final(self).consistent(),
            final(self).file_size as int == old(self).file_size + batch_growth(
                old(self).fmt(),
                old(self).file_size > 0,
                old(self).last_index + 1,
                batch.payloads(),
            ),
            final(self).buffer@.len() as int == old(self).buffer@.len() + batch_growth(
                old(self).fmt(),
                old(self).file_size > 0,
                old(self).last_index + 1,
                batch.payloads(),
            ),
    {
        let ghost sizes = batch.data_sizes@;
        let ghost datas = batch.datas@;
        proof {
            crate::batch::lemma_payloads_len(sizes, datas);
        }
        let ghost l1 = *old(self);
        let ghost ps = batch.payloads();
        proof {
            assert(ps.skip(0) =~= ps);
            assert(l1.first_index as int <= l1.last_index + 1);
        }
        let n_entries = batch.data_sizes.len();
        let dlen = batch.datas.len();
        proof {
            assert(datas.len() <= usize::MAX);
        }
        let mut skip: usize = 0;
        let mut j: usize = 0;
        while j < n_entries
            invariant
                self.inv(),
                !self.closed,
                n_entries == sizes.len(),
                sizes == batch.data_sizes@,
                datas == batch.datas@,
                sum_sizes(sizes) == datas.len(),
                datas.len() <= usize::MAX,
                ps == payloads_of(sizes, datas),
                ps.len() == sizes.len(),
                j <= n_entries,
                skip == sum_sizes(sizes.take(j as int)),
                skip <= datas.len(),
                self.last_index as int == l1.last_index + j,
                l1.last_index + n_entries <= u64::MAX,
                self.first_index == l1.first_index,
                self.opts == l1.opts,
                self.path == l1.path,
                self.buffer@.len() - l1.buffer@.len() == self.file_size - l1.file_size,
                l1.inv(),
                l1.first_index as int <= l1.last_index + 1,
                self.file_size + run_bound(
                    l1.fmt(),
                    self.last_index + 1,
                    ps.skip(j as int),
                ) <= usize::MAX,
                l1.file_size + batch_growth(
                    l1.fmt(),
                    l1.file_size > 0,
                    l1.last_index + 1,
                    ps,
                ) == self.file_size + batch_growth(
                    l1.fmt(),
                    self.file_size > 0,
                    self.last_index + 1,
                    ps.skip(j as int),
                ),
                forall|i: int| l1.in_range(i) ==> self.entry_at(i) == l1.entry_at(i),
                forall|jj: int|
                    0 <= jj < j ==> self.entry_at(l1.last_index + 1 + jj) == ps[jj],
                l1.consistent() ==> self.consistent(),
            decreases n_entries - j,
        {
            let ghost pre = *self;
            let sz = batch.data_sizes[j];
            proof {
                crate::batch::lemma_payloads_index(sizes, datas, j as int);
                crate::batch::lemma_sum_sizes_take_succ(sizes, j as int);
                crate::batch::lemma_sum_sizes_take_le(sizes, j as int + 1);
                assert(ps.skip(j as int)[0] == ps[j as int]);
                assert(ps.skip(j as int).drop_first() =~= ps.skip(j as int + 1));
                lemma_run_bound_nonneg(l1.fmt(), self.last_index + 2, ps.skip(j as int + 1));
                assert(framed(l1.fmt(), self.file_size > 0, (self.last_index + 1) as u64, ps[j as int]).len()
                    <= rec_bound(l1.fmt(), (self.last_index + 1) as u64, ps[j as int]));
            }
            let chunk = &batch.datas[skip..skip + sz];
            proof {
                assert(chunk@ == datas.subrange(skip as int, skip + sz));
                assert(chunk@ == ps[j as int]);
            }
            let idx = self.last_index + 1;
            proof {
                lemma_framed_min(l1.fmt(), self.file_size > 0, idx, ps[j as int]);
            }
            self.append_entry(idx, chunk);
            proof {
                lemma_framed_min(l1.fmt(), pre.file_size > 0, idx, ps[j as int]);
                assert(self.file_size > 0);
                assert forall|jj: int| 0 <= jj < j + 1 implies self.entry_at(
                    l1.last_index + 1 + jj,
                ) == ps[jj] by {
                    if jj < j {
                        assert(pre.in_range(l1.last_index + 1 + jj));
                        assert(self.entry_at(l1.last_index + 1 + jj) == pre.entry_at(
                            l1.last_index + 1 + jj,
                        ));
                    }
                }
                assert forall|i: int| l1.in_range(i) implies self.entry_at(i) == l1.entry_at(
                    i,
                ) by {
                    assert(pre.in_range(i));
                }
            }
            skip = skip + sz;
            j = j + 1;
        }
        proof {
            assert(ps.skip(ps.len() as int) =~= Seq::<Seq<u8>>::empty());
        }
        Ghost(ps)
    }

    /// Append all staged payloads of a batch as one run, assigning them the
    /// next indices; clears the batch on success.  A batch whose byte count
    /// disagrees with its size list is rejected whole.  A full active segment
    /// is rotated only when the batch stages at least one payload: rotating
    /// for an empty batch would leave behind an empty segment that nothing
    /// is appended to.
    pub fn write_batch(&mut self, batch: &mut Batch) -> (r: Result<(), Error>)
        requires
            old(self).inv(),
            old(self).last_index + old(batch).data_sizes@.len() <= u64::MAX,
            old(self).file_size + run_bound(
                old(self).fmt(),
                old(self).last_index + 1,
                old(batch).payloads(),
            ) <= usize::MAX,
        ensures
            final(self).inv(),
            *final(batch) == *old(batch) || final(batch).payloads() == Seq::<Seq<u8>>::empty(),
            old(self).closed ==> (r matches Err(e) && e is Closed && *final(self) == *old(self)
                && *final(batch) == *old(batch)),
            !old(self).closed && !old(batch).wf() ==> (r matches Err(e) && e is OutofOrder
                && *final(self) == *old(self) && *final(batch) == *old(batch)),
            !old(self).closed && old(batch).wf() ==> {
                &&& r is Ok
                &&& !final(self).closed
                &&& final(self).last_index as int == old(self).last_index + old(
                    batch,
                ).payloads().len()
                &&& final(self).first_index == old(self).first_index
                &&& final(batch).wf()
                &&& final(batch).payloads() == Seq::<Seq<u8>>::empty()
                &&& forall|j: int|
                    0 <= j < old(batch).payloads().len() ==> final(self).entry_at(
                        old(self).last_index + 1 + j,
                    ) == old(batch).payloads()[j]
                &&& forall|i: int|
                    old(self).in_range(i) ==> final(self).entry_at(i) == old(self).entry_at(i)
                &&& (old(self).consistent() ==> final(self).consistent())
                &&& final(self).opts == old(self).opts
                &&& final(self).path == old(self).path
                &&& (old(self).opts.durability is Medium || old(self).opts.durability is High
                    ==> final(self).buffer@.len() == 0)
                &&& final(self).buffer@.len() <= crate::MAX_BUFFER_SIZE
                &&& final(self).file_size as int == ({
                    let start: int = if old(self).file_size >= old(self).opts.segment_size && old(
                        batch,
                    ).data_sizes@.len() > 0 && old(self).last_index as int >= old(self).base(
                        old(self).nseg() - 1,
                    ) {
                        0
                    } else {
                        old(self).file_size as int
                    };
                    start + batch_growth(
                        old(self).fmt(),
                        start > 0,
                        old(self).last_index + 1,
                        old(batch).payloads(),
                    )
                })
                &&& (old(self).opts.durability is Low ==> final(self).buffer@.len() as int == ({
                    let start: int = if old(self).file_size >= old(self).opts.segment_size && old(
                        batch,
                    ).data_sizes@.len() > 0 && old(self).last_index as int >= old(self).base(
                        old(self).nseg() - 1,
                    ) {
                        0
                    } else {
                        old(self).file_size as int
                    };
                    let start_buf: int = if old(self).file_size >= old(self).opts.segment_size
                        && old(batch).data_sizes@.len() > 0 && old(self).last_index as int >= old(
                        self,
                    ).base(old(self).nseg() - 1) {
                        0
                    } else {
                        old(self).buffer@.len() as int
                    };
                    let grown: int = start_buf + batch_growth(
                        old(self).fmt(),
                        start > 0,
                        old(self).last_index + 1,
                        old(batch).payloads(),
                    );
                    if grown >= crate::MAX_BUFFER_SIZE as int {
                        0
                    } else {
                        grown
                    }
                }))
            },
    {
        if self.closed {
            return Err(Error::Closed);
        }
        let ghost sizes = batch.data_sizes@;
        let ghost datas = batch.datas@;
        // validate that the size list accounts for exactly the staged bytes
        if !Log::batch_sizes_ok(batch) {
            return Err(Error::OutofOrder);
        }
        assert(batch.wf());
        proof {
            crate::batch::lemma_payloads_len(sizes, datas);
        }
        let nact = self.segments.len() - 1;
        if self.file_size >= self.opts.segment_size && batch.data_sizes.len() > 0
            && self.last_index >= self.segments[nact].index {
            self.cycle();
        }
        let ghost l1 = *self;
        let Ghost(ps) = self.append_all(batch);
        batch.clear();
        let do_flush = match self.opts.durability {
            Durability::Low => self.buffer.len() >= crate::MAX_BUFFER_SIZE,
            _ => true,
        };
        if do_flush {
            self.flush();
        }
        proof {
            assert(old(self).consistent() ==> l1.consistent());
            assert forall|i: int| old(self).in_range(i) implies self.entry_at(i) == old(
                self,
            ).entry_at(i) by {
                assert(l1.in_range(i));
            }
        }
        Ok(())
    }
}

} // verus!
