//! The read path: binary search for the owning segment, sequential scans
//! through a segment, and the bounded cache of open readers.

use crate::codec::{decode_at, lemma_rec_wf, rec_parse, DecStep, RecStep};
use crate::error::Error;
use crate::log::{lemma_entry_lookup, lemma_log_owner_ext, lemma_owner_from_props, lemma_owner_is,
    Log};
use crate::primitives::Reader;
use crate::runs::run_parse;
use vstd::prelude::*;

verus! {

/// Stepping a run once: if the record at a boundary is known, the boundary
/// just past it carries the rest of the run.
proof fn lemma_reader_boundary(
    fmt: crate::primitives::LogFormat,
    content: Seq<u8>,
    pos: int,
    p2: int,
    i: u64,
    d: Seq<u8>,
    ps: Seq<Seq<u8>>,
    base: int,
)
    requires
        base <= i as int,
        i as int - base <= ps.len(),
        run_parse(fmt, content, pos, i as int) == Some(ps.skip(i as int - base)),
        rec_parse(fmt, content, pos) == (RecStep::Rec { index: i, data: d, end: p2 }),
    ensures
        i as int - base < ps.len(),
        run_parse(fmt, content, p2, i as int + 1) == Some(ps.skip(i as int + 1 - base)),
        d == ps[i as int - base],
{
    let j = i as int - base;
    let q = ps.skip(j);
    assert(q.len() > 0) by {
        if q.len() == 0 {
            assert(run_parse(fmt, content, pos, i as int) == Some(q));
        }
    }
    assert(j < ps.len());
    assert(match run_parse(fmt, content, p2, i as int + 1) {
        Option::None => false,
        Option::Some(rest) => q == seq![d] + rest,
    });
    let rest = run_parse(fmt, content, p2, i as int + 1)->Some_0;
    assert(rest =~= q.drop_first());
    assert(q.drop_first() =~= ps.skip(j + 1));
    assert(q[0] == d) by {
        assert((seq![d] + rest)[0] == d);
    }
    assert(ps.skip(j)[0] == ps[j]);
}

/// Putting one more well-placed reader at the front of the cache (and maybe
/// evicting the last) preserves the invariant and the log's contents.
proof fn lemma_cache_insert(lf: Log, lr: Log, rdr: Reader)
    requires
        lf.inv(),
        lf.reader_ok(rdr),
        lr.segments == lf.segments,
        lr.buffer == lf.buffer,
        lr.first_index == lf.first_index,
        lr.last_index == lf.last_index,
        lr.closed == lf.closed,
        lr.opts == lf.opts,
        lr.file_size == lf.file_size,
        !lf.closed,
        lr.readers@.len() <= 8,
        forall|j: int| 0 <= j < lr.readers@.len() ==> (lr.readers@[j] == rdr || lf.readers@.contains(
            #[trigger] lr.readers@[j],
        )),
    ensures
        lr.inv(),
        forall|k: int| 0 <= k < lf.nseg() ==> #[trigger] lr.seg_run(k) == lf.seg_run(k),
        forall|i: int| #[trigger] lr.owner(i) == lf.owner(i),
        forall|i: int| #[trigger] lr.entry_at(i) == lf.entry_at(i),
        lf.consistent() ==> lr.consistent(),
{
    assert forall|k: int| 0 <= k < lf.nseg() implies #[trigger] lr.seg_content(k) == lf.seg_content(
        k,
    ) by {}
    assert forall|k: int| 0 <= k < lf.nseg() implies #[trigger] lr.base(k) == lf.base(k) by {}
    lemma_log_owner_ext(lf, lr);
    assert forall|j: int| 0 <= j < lr.readers@.len() implies lr.reader_ok(
        #[trigger] lr.readers@[j],
    ) by {
        let rr = lr.readers@[j];
        assert(lf.reader_ok(rr)) by {
            if rr != rdr {
                let j0 = choose|j0: int| 0 <= j0 < lf.readers@.len() && lf.readers@[j0] == rr;
                assert(lf.reader_ok(lf.readers@[j0]));
            }
        }
        assert(lr.seg_content(rr.sindex as int) == lf.seg_content(rr.sindex as int));
        assert(lr.seg_run(rr.sindex as int) == lf.seg_run(rr.sindex as int));
    }
    assert(lr.seg_sorted());
    assert(lr.seg_run(lr.nseg() - 1) == lf.seg_run(lf.nseg() - 1));
    assert(lr.active_ok());
    assert(lr.active_content() == lf.active_content());
    assert(lr.buffer_sep_ok());
    assert(lr.inv());
    if lf.consistent() {
        assert forall|k: int| 0 <= k < lr.nseg() - 1 implies (#[trigger] lr.seg_run(k) matches Some(
            q,
        ) && q.len() == lr.base(k + 1) - lr.base(k)) by {
            assert(lr.seg_run(k) == lf.seg_run(k));
        }
    }
}

/// Dropping readers from the cache preserves the invariant and the log's
/// contents.
proof fn lemma_cache_remove(lf: Log, lr: Log)
    requires
        lf.inv(),
        lr.segments == lf.segments,
        lr.buffer == lf.buffer,
        lr.first_index == lf.first_index,
        lr.last_index == lf.last_index,
        lr.closed == lf.closed,
        lr.opts == lf.opts,
        lr.file_size == lf.file_size,
        !lf.closed,
        lr.readers@.len() <= 8,
        forall|j: int| 0 <= j < lr.readers@.len() ==> lf.readers@.contains(
            #[trigger] lr.readers@[j],
        ),
    ensures
        lr.inv(),
        forall|k: int| 0 <= k < lf.nseg() ==> #[trigger] lr.seg_run(k) == lf.seg_run(k),
        forall|i: int| #[trigger] lr.owner(i) == lf.owner(i),
        forall|i: int| #[trigger] lr.entry_at(i) == lf.entry_at(i),
        lf.consistent() ==> lr.consistent(),
{
    assert forall|k: int| 0 <= k < lf.nseg() implies #[trigger] lr.seg_content(k) == lf.seg_content(
        k,
    ) by {}
    assert forall|k: int| 0 <= k < lf.nseg() implies #[trigger] lr.base(k) == lf.base(k) by {}
    lemma_log_owner_ext(lf, lr);
    assert forall|j: int| 0 <= j < lr.readers@.len() implies lr.reader_ok(
        #[trigger] lr.readers@[j],
    ) by {
        let rr = lr.readers@[j];
        let j0 = choose|j0: int| 0 <= j0 < lf.readers@.len() && lf.readers@[j0] == rr;
        assert(lf.reader_ok(lf.readers@[j0]));
        assert(lr.seg_content(rr.sindex as int) == lf.seg_content(rr.sindex as int));
        assert(lr.seg_run(rr.sindex as int) == lf.seg_run(rr.sindex as int));
    }
    assert(lr.seg_sorted());
    assert(lr.seg_run(lr.nseg() - 1) == lf.seg_run(lf.nseg() - 1));
    assert(lr.active_ok());
    assert(lr.active_content() == lf.active_content());
    assert(lr.inv());
    if lf.consistent() {
        assert forall|k: int| 0 <= k < lr.nseg() - 1 implies (#[trigger] lr.seg_run(k) matches Some(
            q,
        ) && q.len() == lr.base(k + 1) - lr.base(k)) by {
            assert(lr.seg_run(k) == lf.seg_run(k));
        }
    }
}

impl Log {
    /// Put a fresh reader at the front of the cache, evicting from the back
    /// past the reader bound.
    fn cache_reader(&mut self, rdr: Reader)
        requires
            old(self).inv(),
            !old(self).closed,
            old(self).reader_ok(rdr),
        ensures
            final(self).inv(),
            final(self).readers@.len() >= 1,
            final(self).readers@[0] == rdr,
            *final(self) == (Log { readers: final(self).readers, ..*old(self) }),
            forall|k: int| 0 <= k < old(self).nseg() ==> #[trigger] final(self).seg_run(k) == old(
                self,
            ).seg_run(k),
            forall|i: int| #[trigger] final(self).entry_at(i) == old(self).entry_at(i),
            old(self).consistent() ==> final(self).consistent(),
    {
        let ghost lmid = *old(self);
        self.readers.insert(0, rdr);
        if self.readers.len() > crate::MAX_READERS {
            self.readers.pop();
        }
        proof {
            let lr = *self;
            assert forall|jj: int| 0 <= jj < lr.readers@.len() implies (lr.readers@[jj] == rdr
                || lmid.readers@.contains(#[trigger] lr.readers@[jj])) by {
                if jj > 0 {
                    assert(lr.readers@[jj] == lmid.readers@[jj - 1]);
                }
            }
            lemma_cache_insert(lmid, lr, rdr);
            assert(lr.readers@[0] == rdr);
        }
    }

    /// Slot of the segment whose start index is the greatest not exceeding
    /// `index`.
    pub(crate) fn find_segment(&self, index: u64) -> (r: usize)
        requires
            self.inv(),
            self.base(0) <= index as int,
        ensures
            (r as int) < self.nseg(),
            r as int == self.owner(index as int),
    {
        let mut i: usize = 0;
        let mut j: usize = self.segments.len();
        while i < j
            invariant
                0 <= i <= j <= self.nseg(),
                self.inv(),
                self.base(0) <= index as int,
                i == 0 || self.base(i - 1) <= index as int,
                j == self.nseg() || (index as int) < self.base(j as int),
            decreases j - i,
        {
            let h = i + (j - i) / 2;
            if index >= self.segments[h].index {
                i = h + 1;
            } else {
                j = h;
            }
        }
        proof {
            assert(i >= 1) by {
                if i == 0 {
                    assert((index as int) < self.base(0));
                }
            }
            lemma_owner_is(*self, index as int, i - 1);
        }
        i - 1
    }

    /// Slot of a cached reader already positioned at `index`, if any.
    fn find_cached(&self, index: u64) -> (r: Option<usize>)
        ensures
            r matches Some(h) ==> (h < self.readers@.len() && self.readers@[h as int].nindex
                == index),
    {
        let mut ri: usize = 0;
        while ri < self.readers.len()
            decreases self.readers@.len() - ri,
        {
            if self.readers[ri].nindex == index {
                return Some(ri);
            }
            ri = ri + 1;
        }
        None
    }

    /// Retire the reader in slot `hit`.
    fn drop_reader(&mut self, hit: usize)
        requires
            old(self).inv(),
            !old(self).closed,
            hit < old(self).readers@.len(),
        ensures
            final(self).inv(),
            *final(self) == (Log { readers: final(self).readers, ..*old(self) }),
            final(self).readers@ == old(self).readers@.remove(hit as int),
            forall|k: int| 0 <= k < old(self).nseg() ==> #[trigger] final(self).seg_run(k) == old(
                self,
            ).seg_run(k),
            forall|i: int| #[trigger] final(self).entry_at(i) == old(self).entry_at(i),
            old(self).consistent() ==> final(self).consistent(),
    {
        self.readers.remove(hit);
        proof {
            let lf = *old(self);
            let lr = *self;
            assert forall|jj: int| 0 <= jj < lr.readers@.len() implies lf.readers@.contains(
                #[trigger] lr.readers@[jj],
            ) by {
                if jj < hit {
                    assert(lr.readers@[jj] == lf.readers@[jj]);
                } else {
                    assert(lr.readers@[jj] == lf.readers@[jj + 1]);
                }
            }
            lemma_cache_remove(lf, lr);
        }
    }

    /// Serve a payload whose record was just decoded at the reader's
    /// boundary: retire or advance the reader and hand the bytes out.
    fn serve_hit(
        &mut self,
        hit: usize,
        index: u64,
        ent: crate::primitives::Entry,
        p2: usize,
    ) -> (r: Vec<u8>)
        requires
            old(self).inv(),
            !old(self).closed,
            old(self).in_range(index as int),
            hit < old(self).readers@.len(),
            old(self).readers@[hit as int].nindex == index,
            index as int <= old(self).hi(old(self).readers@[hit as int].sindex as int),
            ent.index == index,
            p2 as int <= old(self).segments@[old(self).readers@[hit as int].sindex
                as int].data@.len(),
            old(self).seg_content(old(self).readers@[hit as int].sindex as int) == old(
                self,
            ).segments@[old(self).readers@[hit as int].sindex as int].data@,
            rec_parse(
                old(self).fmt(),
                old(self).seg_content(old(self).readers@[hit as int].sindex as int),
                old(self).readers@[hit as int].pos as int,
            ) == (RecStep::Rec { index, data: ent.data@, end: p2 as int }),
        ensures
            final(self).inv(),
            !final(self).closed,
            final(self).first_index == old(self).first_index,
            final(self).last_index == old(self).last_index,
            final(self).opts == old(self).opts,
            forall|i: int| final(self).entry_at(i) == old(self).entry_at(i),
            old(self).consistent() ==> final(self).consistent(),
            r == ent.data,
            old(self).consistent() ==> r@ == old(self).entry_at(index as int),
            index < u64::MAX && (index as int) < old(self).last_index
                ==> (hit < final(self).readers@.len()
                && final(self).readers@[hit as int].nindex == index + 1
                && final(self).readers@[hit as int].sindex == old(self).readers@[hit
                as int].sindex),
    {
        let ghost lf = *old(self);
        let rdr = self.readers[hit];
        let k = rdr.sindex;
        let ghost fmt = lf.fmt();
        proof {
            assert(lf.reader_ok(lf.readers@[hit as int]));
        }
        self.drop_reader(hit);
        // a reader that has just read the last entry is retired, not advanced
        if index < u64::MAX && index < self.last_index {
            let rdr2 = Reader { sindex: k, nindex: index + 1, pos: p2 };
            let ghost lmid = *self;
            proof {
                if lf.seg_run(k as int) is Some {
                    let ps = lf.seg_run(k as int)->Some_0;
                    let base = lf.base(k as int);
                    lemma_reader_boundary(
                        fmt,
                        lf.seg_content(k as int),
                        rdr.pos as int,
                        p2 as int,
                        index,
                        ent.data@,
                        ps,
                        base,
                    );
                }
                assert(lmid.segments == lf.segments);
                assert(lmid.buffer == lf.buffer);
                assert(lmid.seg_content(k as int) == lf.seg_content(k as int));
                assert(lmid.seg_run(k as int) == lf.seg_run(k as int));
                assert(lmid.reader_ok(rdr2));
            }
            self.readers.insert(hit, rdr2);
            proof {
                let lr = *self;
                assert forall|jj: int| 0 <= jj < lr.readers@.len() implies (lr.readers@[jj] == rdr2
                    || lmid.readers@.contains(#[trigger] lr.readers@[jj])) by {
                    if jj < hit {
                        assert(lr.readers@[jj] == lmid.readers@[jj]);
                    } else if jj > hit {
                        assert(lr.readers@[jj] == lmid.readers@[jj - 1]);
                    }
                }
                lemma_cache_insert(lmid, lr, rdr2);
            }
        }
        proof {
            if lf.consistent() {
                lemma_entry_lookup(lf, index as int);
                let ps = lf.seg_run(k as int)->Some_0;
                let base = lf.base(k as int);
                lemma_reader_boundary(
                    fmt,
                    lf.seg_content(k as int),
                    rdr.pos as int,
                    p2 as int,
                    index,
                    ent.data@,
                    ps,
                    base,
                );
                assert(ent.data@ == ps[index as int - base]);
                lemma_owner_is(lf, index as int, k as int);
                assert(lf.entry_at(index as int) == ps[index as int - base]);
            }
        }
        ent.data
    }

    /// Decode the record at the reader's boundary and serve it.  The reader
    /// must still have entries of its own segment left.
    fn serve_core(&mut self, hit: usize, index: u64) -> (r: Result<Vec<u8>, Error>)
        requires
            old(self).inv(),
            !old(self).closed,
            old(self).in_range(index as int),
            hit < old(self).readers@.len(),
            old(self).readers@[hit as int].nindex == index,
            index as int <= old(self).hi(old(self).readers@[hit as int].sindex as int),
        ensures
            final(self).inv(),
            !final(self).closed,
            final(self).first_index == old(self).first_index,
            final(self).last_index == old(self).last_index,
            final(self).opts == old(self).opts,
            forall|i: int| final(self).entry_at(i) == old(self).entry_at(i),
            old(self).consistent() ==> final(self).consistent(),
            old(self).consistent() ==> (r matches Ok(d) && d@ == old(self).entry_at(index as int)),
            r is Err ==> (r matches Err(e) && e is Corrupt),
            old(self).consistent() && index < u64::MAX && (index as int) < old(self).last_index
                ==> (hit < final(self).readers@.len() && final(self).readers@[hit as int].nindex
                == index + 1 && final(self).readers@[hit as int].sindex == old(self).readers@[hit
                as int].sindex),
    {
        let ghost l0 = *old(self);
        let rdr = self.readers[hit];
        let k = rdr.sindex;
        if k == self.segments.len() - 1 && self.buffer.len() > 0 {
            self.flush();
        }
        let ghost lf = *self;
        proof {
            if l0.buffer@.len() > 0 && k as int == l0.nseg() - 1 {
                lemma_log_owner_ext(l0, lf);
            }
            assert(lf.reader_ok(rdr));
            assert(lf.seg_content(k as int) == lf.segments@[k as int].data@) by {
                if k as int == lf.nseg() - 1 {
                    assert(lf.buffer@.len() == 0);
                    assert(lf.active_content() =~= lf.segments@[k as int].data@);
                }
            }
            assert(forall|i: int| #[trigger] lf.entry_at(i) == l0.entry_at(i));
        }
        let step = decode_at(self.opts.log_format, &self.segments[k].data, rdr.pos);
        let ghost content = lf.seg_content(k as int);
        let ghost fmt = lf.fmt();
        match step {
            DecStep::Rec(ent, p2) => {
                proof {
                    lemma_rec_wf(fmt, content, rdr.pos as int);
                }
                if ent.index == index {
                    return Ok(self.serve_hit(hit, index, ent, p2));
                }
                // contiguity violation: the reader's boundary holds a record
                // of another index
                self.drop_reader(hit);
                proof {
                    if lf.consistent() {
                        let ps = lf.seg_run(k as int)->Some_0;
                        lemma_reader_boundary(
                            fmt,
                            content,
                            rdr.pos as int,
                            p2 as int,
                            ent.index,
                            ent.data@,
                            ps,
                            lf.base(k as int),
                        );
                        assert(false);
                    }
                }
                Err(Error::Corrupt)
            },
            DecStep::End => {
                self.drop_reader(hit);
                proof {
                    if lf.consistent() {
                        let ps = lf.seg_run(k as int)->Some_0;
                        let j = index as int - lf.base(k as int);
                        assert(j < ps.len()) by {
                            if (k as int) < lf.nseg() - 1 {
                                assert(index as int <= lf.hi(k as int));
                            }
                        }
                        assert(ps.skip(j).len() > 0);
                        assert(run_parse(fmt, content, rdr.pos as int, index as int) == Some(
                            ps.skip(j),
                        ));
                        lemma_rec_wf(fmt, content, rdr.pos as int);
                        assert(false);
                    }
                }
                Err(Error::Corrupt)
            },
            DecStep::Bad => {
                self.drop_reader(hit);
                proof {
                    if lf.consistent() {
                        let ps = lf.seg_run(k as int)->Some_0;
                        let j = index as int - lf.base(k as int);
                        assert(run_parse(fmt, content, rdr.pos as int, index as int) == Some(
                            ps.skip(j),
                        ));
                        assert(false);
                    }
                }
                Err(Error::Corrupt)
            },
        }
    }

    /// Open a fresh reader on the owning segment, scan it forward to `index`,
    /// cache the reader, and serve the payload from it.
    #[verifier::loop_isolation(false)]
    pub(crate) fn open_reader(&mut self, index: u64) -> (r: Result<Vec<u8>, Error>)
        requires
            old(self).inv(),
            !old(self).closed,
            old(self).in_range(index as int),
        ensures
            final(self).inv(),
            !final(self).closed,
            final(self).first_index == old(self).first_index,
            final(self).last_index == old(self).last_index,
            final(self).opts == old(self).opts,
            forall|i: int| final(self).entry_at(i) == old(self).entry_at(i),
            old(self).consistent() ==> final(self).consistent(),
            old(self).consistent() ==> (r matches Ok(d) && d@ == old(self).entry_at(index as int)),
            r is Err ==> (r matches Err(e) && e is Corrupt),
            old(self).consistent() && index < u64::MAX && (index as int) < old(self).last_index
                ==> (final(self).readers@.len() >= 1 && final(self).readers@[0].nindex == index + 1
                && final(self).readers@[0].sindex as int == old(self).owner(index as int)),
    {
        let ghost l0 = *old(self);
        let k = self.find_segment(index);
        if k == self.segments.len() - 1 && self.buffer.len() > 0 {
            self.flush();
        }
        let ghost lf = *self;
        proof {
            if l0.buffer@.len() > 0 && k as int == l0.nseg() - 1 {
                lemma_log_owner_ext(l0, lf);
            }
            assert(k as int == lf.owner(index as int)) by {
                crate::log::lemma_owner_from_ext(l0, lf, index as int, l0.nseg() - 1);
            }
            assert(lf.seg_content(k as int) == lf.segments@[k as int].data@) by {
                if k as int == lf.nseg() - 1 {
                    assert(lf.buffer@.len() == 0);
                    assert(lf.active_content() =~= lf.segments@[k as int].data@);
                }
            }
            lemma_owner_from_props(lf, index as int, lf.nseg() - 1);
            if l0.consistent() {
                lemma_entry_lookup(lf, index as int);
            }
        }
        let ghost ps = lf.seg_run(k as int)->Some_0;
        let ghost fmt = lf.fmt();
        let ghost content = lf.seg_content(k as int);
        let mut pos: usize = 0;
        let mut expect: u64 = self.segments[k].index;
        proof {
            if lf.seg_run(k as int) is Some {
                assert(ps.skip(0) =~= ps);
            }
        }
        while expect < index
            invariant
                *self == lf,
                lf.base(k as int) <= expect as int <= index as int,
                pos as int <= lf.segments@[k as int].data@.len(),
                lf.seg_run(k as int) matches Some(q) ==> (expect as int - lf.base(k as int)
                    <= q.len() && run_parse(fmt, content, pos as int, expect as int) == Some(
                    q.skip(expect as int - lf.base(k as int)),
                )),
            decreases lf.segments@[k as int].data@.len() - pos,
        {
            let step = decode_at(self.opts.log_format, &self.segments[k].data, pos);
            match step {
                DecStep::Rec(ent, p2) => {
                    proof {
                        lemma_rec_wf(fmt, content, pos as int);
                    }
                    if ent.index != expect {
                        proof {
                            if lf.consistent() {
                                let j = expect as int - lf.base(k as int);
                                assert(j < ps.len());
                                lemma_reader_boundary(
                                    fmt,
                                    content,
                                    pos as int,
                                    p2 as int,
                                    ent.index,
                                    ent.data@,
                                    ps,
                                    lf.base(k as int),
                                );
                                assert(false);
                            }
                        }
                        return Err(Error::Corrupt);
                    }
                    proof {
                        if lf.seg_run(k as int) is Some {
                            lemma_reader_boundary(
                                fmt,
                                content,
                                pos as int,
                                p2 as int,
                                expect,
                                ent.data@,
                                ps,
                                lf.base(k as int),
                            );
                        }
                    }
                    pos = p2;
                    expect = expect + 1;
                },
                DecStep::End => {
                    proof {
                        if lf.consistent() {
                            let j = expect as int - lf.base(k as int);
                            assert(j < ps.len());
                            assert(ps.skip(j).len() > 0);
                            lemma_rec_wf(fmt, content, pos as int);
                            assert(false);
                        }
                    }
                    return Err(Error::Corrupt);
                },
                DecStep::Bad => {
                    proof {
                        if lf.consistent() {
                            assert(run_parse(fmt, content, pos as int, expect as int) is Some);
                        }
                    }
                    return Err(Error::Corrupt);
                },
            }
        }
        // a fresh reader positioned exactly at the requested index
        let rdr = Reader { sindex: k, nindex: index, pos };
        proof {
            assert(index as int <= lf.hi(k as int)) by {
                if (k as int) < lf.nseg() - 1 {
                    assert((index as int) < lf.base(k as int + 1));
                }
            }
            assert(lf.reader_ok(rdr));
        }
        self.cache_reader(rdr);
        proof {
            if l0.consistent() {
                assert(self.consistent());
            }
        }
        self.serve_core(0, index)
    }

    /// Read the payload stored at `index`.
    pub fn read(&mut self, index: u64) -> (r: Result<Vec<u8>, Error>)
        requires
            old(self).inv(),
        ensures
            final(self).inv(),
            old(self).closed ==> (r matches Err(e) && e is Closed && *final(self) == *old(self)),
            !old(self).closed && !old(self).in_range(index as int) ==> (r matches Err(e)
                && e is NotFound && *final(self) == *old(self)),
            !old(self).closed && old(self).in_range(index as int) ==> {
                &&& final(self).first_index == old(self).first_index
                &&& final(self).last_index == old(self).last_index
                &&& final(self).opts == old(self).opts
                &&& !final(self).closed
                &&& forall|i: int| final(self).entry_at(i) == old(self).entry_at(i)
                &&& (old(self).consistent() ==> final(self).consistent())
                &&& (old(self).consistent() ==> (r matches Ok(d) && d@ == old(self).entry_at(
                    index as int,
                )))
                &&& (r is Err ==> (r matches Err(e) && e is Corrupt))
            },
    {
        if self.closed {
            return Err(Error::Closed);
        }
        if index == 0 || index < self.first_index || index > self.last_index {
            return Err(Error::NotFound);
        }
        match self.find_cached(index) {
            None => self.open_reader(index),
            Some(hit) => {
                // a reader that has exhausted its own segment is retired and
                // the read restarts on the owning segment
                let k = self.readers[hit].sindex;
                proof {
                    assert(self.reader_ok(self.readers@[hit as int]));
                }
                if k < self.segments.len() - 1 && index >= self.segments[k + 1].index {
                    self.drop_reader(hit);
                    self.open_reader(index)
                } else {
                    proof {
                        let rdr = self.readers@[hit as int];
                        assert(self.reader_ok(rdr));
                        assert(index as int <= self.hi(k as int)) by {
                            if (k as int) < self.nseg() - 1 {
                                assert((index as int) < self.base(k as int + 1));
                            }
                        }
                    }
                    self.serve_core(hit, index)
                }
            },
        }
    }
}

} // verus!
