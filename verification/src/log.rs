//! The log engine's state and its invariant.
//!
//! A `Log` owns the image of its directory: every segment carries the bytes
//! of its file as flushed, and the active (last) segment additionally has the
//! write buffer still in memory.  The invariant ties `first_index` and
//! `last_index` to what the files actually decode to.

use crate::digits::pad20;
use crate::error::Error;
use crate::primitives::{LogFormat, Options, Reader, SegFile, Segment};
use crate::runs::run_parse;
use vstd::prelude::*;

verus! {

/// A segmented write-ahead log over an in-memory directory image.
#[derive(Debug)]
pub struct Log {
    pub path: String,
    pub opts: Options,
    pub closed: bool,
    pub segments: Vec<Segment>,
    pub first_index: u64,
    pub last_index: u64,
    pub buffer: Vec<u8>,
    pub file_size: usize,
    pub readers: Vec<Reader>,
}

impl Log {
    pub open spec fn fmt(self) -> LogFormat {
        self.opts.log_format
    }

    pub open spec fn nseg(self) -> int {
        self.segments@.len() as int
    }

    /// First index of segment `k`.
    pub open spec fn base(self, k: int) -> int {
        self.segments@[k].index as int
    }

    /// The bytes of the active segment, buffered tail included.
    pub open spec fn active_content(self) -> Seq<u8> {
        self.segments@[self.nseg() - 1].data@ + self.buffer@
    }

    /// The full logical content of segment `k`.
    pub open spec fn seg_content(self, k: int) -> Seq<u8> {
        if k == self.nseg() - 1 {
            self.active_content()
        } else {
            self.segments@[k].data@
        }
    }

    /// The payloads segment `k` decodes to, if it decodes cleanly.
    pub open spec fn seg_run(self, k: int) -> Option<Seq<Seq<u8>>> {
        run_parse(self.fmt(), self.seg_content(k), 0, self.base(k))
    }

    /// Highest index segment `k` is responsible for.
    pub open spec fn hi(self, k: int) -> int {
        if k < self.nseg() - 1 {
            self.base(k + 1) - 1
        } else {
            self.last_index as int
        }
    }

    pub open spec fn seg_sorted(self) -> bool {
        &&& forall|k: int| 0 <= k < self.nseg() ==> 1 <= #[trigger] self.base(k)
        &&& forall|k: int, j: int| 0 <= k < j < self.nseg() ==> #[trigger] self.base(k)
            < #[trigger] self.base(j)
    }

    /// The active segment decodes cleanly and accounts for `last_index`.
    pub open spec fn active_ok(self) -> bool {
        &&& self.seg_run(self.nseg() - 1) is Some
        &&& self.last_index as int == self.base(self.nseg() - 1) - 1 + self.seg_run(
            self.nseg() - 1,
        )->Some_0.len()
    }

    /// Under JSON framing a nonempty buffer behind nonempty flushed bytes
    /// begins with the record separator.
    pub open spec fn buffer_sep_ok(self) -> bool {
        self.fmt() is JSON ==> ((self.buffer@.len() > 0 && self.segments@[self.nseg()
            - 1].data@.len() > 0) ==> self.buffer@[0] == 10)
    }

    /// A cached reader points at a record boundary of its segment: what is
    /// left of the segment from its offset is the run of the entries from its
    /// next index on.
    pub open spec fn reader_ok(self, r: Reader) -> bool {
        &&& (r.sindex as int) < self.nseg()
        &&& self.base(r.sindex as int) <= r.nindex as int <= self.hi(r.sindex as int) + 1
        &&& r.pos as int <= self.segments@[r.sindex as int].data@.len()
        &&& (self.seg_run(r.sindex as int) matches Some(ps) ==> (r.nindex as int - self.base(
            r.sindex as int,
        ) <= ps.len() && run_parse(
            self.fmt(),
            self.seg_content(r.sindex as int),
            r.pos as int,
            r.nindex as int,
        ) == Some(ps.skip(r.nindex as int - self.base(r.sindex as int)))))
    }

    /// The representation invariant.
    pub open spec fn inv(self) -> bool {
        &&& self.nseg() >= 1
        &&& self.seg_sorted()
        &&& self.first_index as int == self.base(0)
        &&& self.active_ok()
        &&& (self.nseg() == 1 ==> (self.last_index as int >= self.base(0) || self.base(0) == 1))
        &&& (self.nseg() > 1 ==> self.last_index as int >= self.base(self.nseg() - 1) - 1)
        &&& self.file_size as int == self.active_content().len()
        &&& self.buffer_sep_ok()
        &&& self.readers@.len() <= 8
        &&& (forall|j: int| 0 <= j < self.readers@.len() ==> self.reader_ok(
            #[trigger] self.readers@[j],
        ))
        &&& (self.closed ==> self.buffer@.len() == 0 && self.readers@.len() == 0)
    }

    /// All segments, not only the active one, decode cleanly and meet at
    /// their boundaries.
    pub open spec fn consistent(self) -> bool {
        &&& self.inv()
        &&& forall|k: int| 0 <= k < self.nseg() - 1 ==> (#[trigger] self.seg_run(k) matches Some(
            ps,
        ) && ps.len() == self.base(k + 1) - self.base(k))
    }

    /// Slot of the segment owning index `i`, scanning down from slot `k`.
    pub open spec fn owner_from(self, i: int, k: int) -> int
        decreases k,
    {
        if k <= 0 {
            0
        } else if self.base(k) <= i {
            k
        } else {
            self.owner_from(i, k - 1)
        }
    }

    /// Slot of the segment owning index `i`.
    pub open spec fn owner(self, i: int) -> int {
        self.owner_from(i, self.nseg() - 1)
    }

    /// The payload stored for index `i`.
    pub open spec fn entry_at(self, i: int) -> Seq<u8> {
        self.seg_run(self.owner(i))->Some_0[i - self.base(self.owner(i))]
    }

    /// Indices the log currently holds.
    pub open spec fn in_range(self, i: int) -> bool {
        self.first_index as int <= i <= self.last_index as int
    }

    /// The log holds no entries.
    pub open spec fn is_empty(self) -> bool {
        self.last_index == 0
    }

    /// The directory image this log stands for: one file per segment, named
    /// by its zero-padded start index, holding its flushed bytes.
    pub open spec fn dir_matches(self, files: Seq<SegFile>) -> bool {
        &&& files.len() == self.nseg()
        &&& forall|k: int| 0 <= k < self.nseg() ==> (#[trigger] files[k]).name@ == pad20(
            self.segments@[k].index,
        ) && files[k].data@ == self.segments@[k].data@
    }
}

/// Index ordering: a log that holds entries has its first index at or below
/// its last; `firstindex` and `lastindex` both report 0 exactly when the log
/// is empty.
pub proof fn lemma_index_order(l: Log)
    requires
        l.inv(),
    ensures
        l.last_index > 0 ==> l.first_index <= l.last_index,
        l.last_index > 0 ==> l.first_index >= 1,
{
    if l.last_index > 0 {
        let n = l.nseg();
        assert(l.base(0) <= l.base(n - 1)) by {
            if n > 1 {
                assert(l.base(0) < l.base(n - 1));
            }
        }
        if n == 1 {
            if l.base(0) == 1 {
                assert(l.first_index == 1);
            }
        }
    }
}

// ---------------------------------------------------------------------------
// Owner lookup
// ---------------------------------------------------------------------------

pub proof fn lemma_owner_from_props(l: Log, i: int, k: int)
    requires
        l.seg_sorted(),
        0 <= k < l.nseg(),
        l.base(0) <= i,
    ensures
        0 <= l.owner_from(i, k) <= k,
        l.base(l.owner_from(i, k)) <= i,
        forall|j: int| l.owner_from(i, k) < j <= k ==> i < #[trigger] l.base(j),
    decreases k,
{
    if k > 0 && l.base(k) > i {
        lemma_owner_from_props(l, i, k - 1);
    }
}

/// A slot that satisfies the owner conditions is the owner.
pub proof fn lemma_owner_is(l: Log, i: int, k: int)
    requires
        l.seg_sorted(),
        0 <= k < l.nseg(),
        l.base(k) <= i,
        k < l.nseg() - 1 ==> i < l.base(k + 1),
    ensures
        l.owner(i) == k,
{
    lemma_owner_from_is(l, i, k, l.nseg() - 1);
}

proof fn lemma_owner_from_is(l: Log, i: int, k: int, m: int)
    requires
        l.seg_sorted(),
        0 <= k <= m < l.nseg(),
        l.base(k) <= i,
        k < l.nseg() - 1 ==> i < l.base(k + 1),
    ensures
        l.owner_from(i, m) == k,
    decreases m,
{
    if m > k {
        assert(l.base(k + 1) <= l.base(m));
        lemma_owner_from_is(l, i, k, m - 1);
    }
}

/// Where an in-range index lives: its owner's run is parsed and holds its
/// payload at the expected offset.
pub proof fn lemma_entry_lookup(l: Log, i: int)
    requires
        l.consistent(),
        l.in_range(i),
    ensures
        0 <= l.owner(i) < l.nseg(),
        l.seg_run(l.owner(i)) is Some,
        l.base(l.owner(i)) <= i,
        i - l.base(l.owner(i)) < l.seg_run(l.owner(i))->Some_0.len(),
        i <= l.hi(l.owner(i)),
{
    lemma_owner_from_props(l, i, l.nseg() - 1);
    let k = l.owner(i);
    if k < l.nseg() - 1 {
        assert(i < l.base(k + 1));
    }
}

// ---------------------------------------------------------------------------
// Simple operations
// ---------------------------------------------------------------------------

impl Log {
    /// Index of the first entry, 0 when the log is empty.
    pub fn firstindex(&self) -> (r: Result<u64, Error>)
        ensures
            self.closed ==> (r matches Err(e) && e is Closed),
            !self.closed && self.last_index == 0 ==> r == Ok::<u64, Error>(0),
            !self.closed && self.last_index != 0 ==> r == Ok::<u64, Error>(self.first_index),
    {
        if self.closed {
            return Err(Error::Closed);
        }
        if self.last_index == 0 {
            return Ok(0);
        }
        Ok(self.first_index)
    }

    /// Index of the last entry, 0 when the log is empty.
    pub fn lastindex(&self) -> (r: Result<u64, Error>)
        ensures
            self.closed ==> (r matches Err(e) && e is Closed),
            !self.closed ==> r == Ok::<u64, Error>(self.last_index),
    {
        if self.closed {
            return Err(Error::Closed);
        }
        Ok(self.last_index)
    }

    /// Move the buffered bytes into the active segment's file image.
    pub(crate) fn flush(&mut self)
        requires
            old(self).inv(),
        ensures
            final(self).inv(),
            final(self).buffer@.len() == 0,
            final(self).segments@.len() == old(self).segments@.len(),
            forall|k: int| 0 <= k < old(self).nseg() ==> final(self).seg_content(k) == old(
                self,
            ).seg_content(k) && final(self).base(k) == old(self).base(k),
            final(self).segments@[final(self).nseg() - 1].data@ == old(self).active_content(),
            final(self).first_index == old(self).first_index,
            final(self).last_index == old(self).last_index,
            final(self).closed == old(self).closed,
            final(self).opts == old(self).opts,
            final(self).path == old(self).path,
            final(self).file_size == old(self).file_size,
            final(self).readers == old(self).readers,
            forall|i: int| final(self).entry_at(i) == old(self).entry_at(i),
            forall|k: int| 0 <= k < old(self).nseg() ==> final(self).seg_run(k) == old(
                self,
            ).seg_run(k),
            forall|i: int| final(self).owner(i) == old(self).owner(i),
            old(self).consistent() ==> final(self).consistent(),
    {
        if self.buffer.len() == 0 {
            proof {
                assert(self.segments@[self.nseg() - 1].data@ + self.buffer@ =~= self.segments@[
                    self.nseg() - 1].data@);
                assert(final(self).active_content() =~= old(self).active_content());
                lemma_log_owner_ext(*old(self), *self);
            }
            return;
        }
        let mut buf: Vec<u8> = Vec::new();
        core::mem::swap(&mut self.buffer, &mut buf);
        let mut seg = self.segments.pop().unwrap();
        crate::digits::push_bytes(&mut seg.data, buf.as_slice());
        self.segments.push(seg);
        proof {
            let l0 = *old(self);
            let l1 = *self;
            assert(l1.segments@[l1.nseg() - 1].data@ == l0.segments@[l0.nseg() - 1].data@
                + l0.buffer@);
            assert forall|k: int| 0 <= k < l0.nseg() implies l1.seg_content(k) == l0.seg_content(k)
                && l1.base(k) == l0.base(k) by {
                if k == l0.nseg() - 1 {
                    assert(l1.active_content() =~= l0.active_content());
                } else {
                    assert(l1.segments@[k] == l0.segments@[k]);
                }
            }
            lemma_log_owner_ext(l0, l1);
            assert forall|j: int| 0 <= j < l1.readers@.len() implies l1.reader_ok(
                #[trigger] l1.readers@[j],
            ) by {
                let r = l1.readers@[j];
                assert(l0.reader_ok(r));
                assert(l1.seg_content(r.sindex as int) == l0.seg_content(r.sindex as int));
                assert(r.pos as int <= l1.segments@[r.sindex as int].data@.len()) by {
                    if r.sindex as int == l1.nseg() - 1 {
                        assert(l1.segments@[r.sindex as int].data@.len() == l0.active_content().len());
                    }
                }
            }
        }
    }

    /// Flush and (in a disk-backed deployment) force an fsync regardless of
    /// the durability tier.
    pub fn sync(&mut self)
        requires
            old(self).inv(),
        ensures
            final(self).inv(),
            final(self).buffer@.len() == 0,
            final(self).first_index == old(self).first_index,
            final(self).last_index == old(self).last_index,
            final(self).closed == old(self).closed,
            final(self).opts == old(self).opts,
            final(self).path == old(self).path,
            forall|i: int| final(self).entry_at(i) == old(self).entry_at(i),
            old(self).consistent() ==> final(self).consistent(),
    {
        self.flush();
    }

    /// Flush and mark the log closed; everything after this fails `Closed`.
    pub fn close(&mut self) -> (r: Result<(), Error>)
        requires
            old(self).inv(),
        ensures
            final(self).inv(),
            old(self).closed ==> (r matches Err(e) && e is Closed && *final(self) == *old(self)),
            !old(self).closed ==> {
                &&& r is Ok
                &&& final(self).closed
                &&& final(self).buffer@.len() == 0
                &&& final(self).first_index == old(self).first_index
                &&& final(self).last_index == old(self).last_index
                &&& forall|i: int| final(self).entry_at(i) == old(self).entry_at(i)
                &&& (old(self).consistent() ==> final(self).consistent())
                &&& final(self).opts == old(self).opts
                &&& final(self).path == old(self).path
                &&& final(self).segments@.len() == old(self).segments@.len()
                &&& forall|k: int|
                    0 <= k < old(self).nseg() ==> final(self).seg_content(k) == old(
                        self,
                    ).seg_content(k) && final(self).base(k) == old(self).base(k)
            },
    {
        if self.closed {
            return Err(Error::Closed);
        }
        self.flush();
        self.closed = true;
        self.readers.clear();
        proof {
            let l0 = *old(self);
            let l1 = *self;
            assert forall|k: int| 0 <= k < l0.nseg() implies l1.seg_content(k) == l0.seg_content(k)
                && l1.base(k) == l0.base(k) by {}
            lemma_log_owner_ext(l0, l1);
        }
        Ok(())
    }

    /// The directory image of this log as flushed: what a disk-backed
    /// deployment persists.
    pub fn snapshot(&self) -> (r: Vec<SegFile>)
        ensures
            self.dir_matches(r@),
    {
        let mut out: Vec<SegFile> = Vec::new();
        let mut k: usize = 0;
        while k < self.segments.len()
            invariant
                k <= self.segments@.len(),
                out@.len() == k,
                forall|j: int| 0 <= j < k ==> (#[trigger] out@[j]).name@ == pad20(
                    self.segments@[j].index,
                ) && out@[j].data@ == self.segments@[j].data@,
            decreases self.segments@.len() - k,
        {
            let name = crate::digits::pad20_bytes(self.segments[k].index);
            let data = crate::codec::copy_range(
                &self.segments[k].data,
                0,
                self.segments[k].data.len(),
            );
            proof {
                assert(self.segments@[k as int].data@.subrange(
                    0,
                    self.segments@[k as int].data@.len() as int,
                ) =~= self.segments@[k as int].data@);
            }
            out.push(SegFile { name, data });
            k = k + 1;
        }
        out
    }
}

/// Two logs with the same catalog bases and segment contents agree on owners,
/// runs, and entries.
pub proof fn lemma_log_owner_ext(a: Log, b: Log)
    requires
        a.nseg() == b.nseg(),
        a.nseg() >= 1,
        a.fmt() == b.fmt(),
        forall|k: int| 0 <= k < a.nseg() ==> #[trigger] b.seg_content(k) == a.seg_content(k),
        forall|k: int| 0 <= k < a.nseg() ==> #[trigger] b.base(k) == a.base(k),
    ensures
        forall|k: int| 0 <= k < a.nseg() ==> #[trigger] b.seg_run(k) == a.seg_run(k),
        forall|i: int| #[trigger] b.owner(i) == a.owner(i),
        forall|i: int| #[trigger] b.entry_at(i) == a.entry_at(i),
{
    assert forall|i: int| #[trigger] b.owner(i) == a.owner(i) by {
        lemma_owner_from_ext(a, b, i, a.nseg() - 1);
    }
    assert forall|i: int| #[trigger] b.entry_at(i) == a.entry_at(i) by {
        lemma_owner_from_ext(a, b, i, a.nseg() - 1);
        let k = a.owner(i);
        lemma_owner_from_range(a, i, a.nseg() - 1);
        assert(0 <= k < a.nseg());
        assert(b.seg_run(k) == a.seg_run(k));
    }
}

pub proof fn lemma_owner_from_range(l: Log, i: int, k: int)
    ensures
        0 <= l.owner_from(i, k),
        l.owner_from(i, k) <= k || l.owner_from(i, k) == 0,
    decreases k,
{
    if k > 0 && l.base(k) > i {
        lemma_owner_from_range(l, i, k - 1);
    }
}

pub proof fn lemma_owner_from_ext(a: Log, b: Log, i: int, k: int)
    requires
        a.nseg() == b.nseg(),
        forall|j: int| 0 <= j < a.nseg() ==> #[trigger] b.base(j) == a.base(j),
        k < a.nseg(),
    ensures
        b.owner_from(i, k) == a.owner_from(i, k),
    decreases k,
{
    if k > 0 {
        lemma_owner_from_ext(a, b, i, k - 1);
    }
}

} // verus!
