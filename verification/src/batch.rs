//! In-memory staging of a run of payloads appended as one unit.

use vstd::prelude::*;

verus! {

/// Sum of a size list.
pub open spec fn sum_sizes(s: Seq<usize>) -> int
    decreases s.len(),
{
    if s.len() == 0 {
        0
    } else {
        sum_sizes(s.drop_last()) + s.last()
    }
}

/// The payload list a batch stands for: `datas` cut into runs of the recorded
/// sizes.
pub open spec fn payloads_of(sizes: Seq<usize>, datas: Seq<u8>) -> Seq<Seq<u8>>
    decreases sizes.len(),
{
    if sizes.len() == 0 {
        Seq::empty()
    } else if sizes[0] <= datas.len() {
        seq![datas.take(sizes[0] as int)] + payloads_of(
            sizes.drop_first(),
            datas.skip(sizes[0] as int),
        )
    } else {
        seq![datas]
    }
}

/// Staged payloads for one `write_batch` call.  The log assigns indices when
/// the batch is written.
#[derive(Debug, Clone)]
pub struct Batch {
    pub data_sizes: Vec<usize>,
    pub datas: Vec<u8>,
}

impl Batch {
    /// The size list accounts for exactly the staged bytes.
    pub open spec fn wf(self) -> bool {
        sum_sizes(self.data_sizes@) == self.datas@.len()
    }

    /// The staged payloads, in order.
    pub open spec fn payloads(self) -> Seq<Seq<u8>> {
        payloads_of(self.data_sizes@, self.datas@)
    }

    pub fn new() -> (r: Batch)
        ensures
            r.wf(),
            r.payloads() == Seq::<Seq<u8>>::empty(),
            r.data_sizes@.len() == 0,
            r.datas@.len() == 0,
    {
        Batch { data_sizes: Vec::new(), datas: Vec::new() }
    }

    /// Stage one more payload.
    pub fn write(&mut self, data: &[u8])
        ensures
            final(self).data_sizes@ == old(self).data_sizes@.push(data@.len() as usize),
            final(self).datas@ == old(self).datas@ + data@,
            old(self).wf() ==> final(self).wf(),
            old(self).wf() ==> final(self).payloads() == old(self).payloads().push(data@),
    {
        self.data_sizes.push(data.len());
        crate::digits::push_bytes(&mut self.datas, data);
        proof {
            if old(self).wf() {
                lemma_sum_sizes_push(old(self).data_sizes@, data@.len() as usize);
                lemma_payloads_push(old(self).data_sizes@, old(self).datas@, data@);
            }
        }
    }

    /// Drop all staged payloads.
    pub fn clear(&mut self)
        ensures
            final(self).wf(),
            final(self).payloads() == Seq::<Seq<u8>>::empty(),
            final(self).data_sizes@.len() == 0,
            final(self).datas@.len() == 0,
    {
        self.datas.clear();
        self.data_sizes.clear();
    }
}

pub proof fn lemma_sum_sizes_push(s: Seq<usize>, n: usize)
    ensures
        sum_sizes(s.push(n)) == sum_sizes(s) + n,
{
    assert(s.push(n).drop_last() =~= s);
}

/// Sums of size lists are nonnegative.
pub proof fn lemma_sum_sizes_nonneg(s: Seq<usize>)
    ensures
        sum_sizes(s) >= 0,
    decreases s.len(),
{
    if s.len() > 0 {
        lemma_sum_sizes_nonneg(s.drop_last());
    }
}

pub proof fn lemma_sum_sizes_drop_first(s: Seq<usize>)
    requires
        s.len() > 0,
    ensures
        sum_sizes(s) == s[0] + sum_sizes(s.drop_first()),
    decreases s.len(),
{
    if s.len() == 1 {
        assert(s.drop_last() =~= Seq::<usize>::empty());
        assert(s.drop_first() =~= Seq::<usize>::empty());
    } else {
        lemma_sum_sizes_drop_first(s.drop_last());
        assert(s.drop_last().drop_first() =~= s.drop_first().drop_last());
        assert(s.drop_first().last() == s.last());
    }
}

/// Staging one more payload appends one more run.
pub proof fn lemma_payloads_push(sizes: Seq<usize>, datas: Seq<u8>, d: Seq<u8>)
    requires
        sum_sizes(sizes) == datas.len(),
        d.len() <= usize::MAX,
    ensures
        payloads_of(sizes.push(d.len() as usize), datas + d) == payloads_of(sizes, datas).push(d),
    decreases sizes.len(),
{
    if sizes.len() == 0 {
        assert(datas =~= Seq::<u8>::empty());
        assert((datas + d).take(d.len() as int) =~= d);
        assert(sizes.push(d.len() as usize).drop_first() =~= Seq::<usize>::empty());
        assert((datas + d).skip(d.len() as int) =~= Seq::<u8>::empty());
        assert(payloads_of(Seq::<usize>::empty(), Seq::<u8>::empty()) == Seq::<Seq<u8>>::empty());
        assert(payloads_of(sizes.push(d.len() as usize), datas + d) =~= payloads_of(
            sizes,
            datas,
        ).push(d));
    } else {
        lemma_sum_sizes_drop_first(sizes);
        lemma_sum_sizes_nonneg(sizes.drop_first());
        let n0 = sizes[0];
        assert((datas + d).take(n0 as int) =~= datas.take(n0 as int));
        assert((datas + d).skip(n0 as int) =~= datas.skip(n0 as int) + d);
        assert(sizes.push(d.len() as usize).drop_first() =~= sizes.drop_first().push(
            d.len() as usize,
        ));
        lemma_payloads_push(sizes.drop_first(), datas.skip(n0 as int), d);
        assert(payloads_of(sizes.push(d.len() as usize), datas + d) =~= payloads_of(
            sizes,
            datas,
        ).push(d));
    }
}

pub proof fn lemma_sum_sizes_take_succ(s: Seq<usize>, j: int)
    requires
        0 <= j < s.len(),
    ensures
        sum_sizes(s.take(j + 1)) == sum_sizes(s.take(j)) + s[j],
{
    assert(s.take(j + 1).drop_last() =~= s.take(j));
    assert(s.take(j + 1).last() == s[j]);
}

/// Prefix sums never exceed the total.
pub proof fn lemma_sum_sizes_take_le(s: Seq<usize>, j: int)
    requires
        0 <= j <= s.len(),
    ensures
        sum_sizes(s.take(j)) <= sum_sizes(s),
        sum_sizes(s.take(j)) >= 0,
    decreases s.len() - j,
{
    lemma_sum_sizes_nonneg(s.take(j));
    if j < s.len() {
        lemma_sum_sizes_take_succ(s, j);
        lemma_sum_sizes_take_le(s, j + 1);
    } else {
        assert(s.take(j) =~= s);
    }
}

/// A well-formed batch stages one payload per recorded size.
pub proof fn lemma_payloads_len(sizes: Seq<usize>, datas: Seq<u8>)
    requires
        sum_sizes(sizes) == datas.len(),
    ensures
        payloads_of(sizes, datas).len() == sizes.len(),
    decreases sizes.len(),
{
    if sizes.len() > 0 {
        lemma_sum_sizes_drop_first(sizes);
        lemma_sum_sizes_nonneg(sizes.drop_first());
        lemma_payloads_len(sizes.drop_first(), datas.skip(sizes[0] as int));
    }
}

/// The `j`-th staged payload is the bytes at its offset: the sum of the sizes
/// before it.
pub proof fn lemma_payloads_index(sizes: Seq<usize>, datas: Seq<u8>, j: int)
    requires
        sum_sizes(sizes) == datas.len(),
        0 <= j < sizes.len(),
    ensures
        payloads_of(sizes, datas)[j] == datas.subrange(
            sum_sizes(sizes.take(j)),
            sum_sizes(sizes.take(j)) + sizes[j],
        ),
        sum_sizes(sizes.take(j)) >= 0,
        sum_sizes(sizes.take(j)) + sizes[j] <= datas.len(),
    decreases j,
{
    lemma_sum_sizes_take_le(sizes, j);
    lemma_sum_sizes_take_succ(sizes, j);
    lemma_sum_sizes_take_le(sizes, j + 1);
    lemma_sum_sizes_drop_first(sizes);
    lemma_sum_sizes_nonneg(sizes.drop_first());
    if j == 0 {
        assert(sizes.take(0) =~= Seq::<usize>::empty());
        assert(datas.take(sizes[0] as int) =~= datas.subrange(0, sizes[0] as int));
    } else {
        let s2 = sizes.drop_first();
        let d2 = datas.skip(sizes[0] as int);
        lemma_payloads_index(s2, d2, j - 1);
        assert(sizes[0] <= datas.len());
        assert(payloads_of(sizes, datas) == seq![datas.take(sizes[0] as int)] + payloads_of(
            s2,
            d2,
        ));
        let cat = seq![datas.take(sizes[0] as int)] + payloads_of(s2, d2);
        lemma_payloads_len(s2, d2);
        assert(payloads_of(sizes, datas)[j] == cat[j]);
        vstd::seq::axiom_seq_add_index2(
            seq![datas.take(sizes[0] as int)],
            payloads_of(s2, d2),
            j,
        );
        assert(payloads_of(sizes, datas)[j] == payloads_of(s2, d2)[j - 1]);
        assert(s2.take(j - 1) =~= sizes.take(j).drop_first());
        lemma_sum_sizes_drop_first(sizes.take(j));
        assert(sizes.take(j)[0] == sizes[0]);
        assert(sum_sizes(s2.take(j - 1)) == sum_sizes(sizes.take(j)) - sizes[0]);
        assert(s2[j - 1] == sizes[j]);
        assert(d2.subrange(
            sum_sizes(s2.take(j - 1)),
            sum_sizes(s2.take(j - 1)) + s2[j - 1],
        ) =~= datas.subrange(sum_sizes(sizes.take(j)), sum_sizes(sizes.take(j)) + sizes[j]));
    }
}

} // verus!
