//! What each worker computes, and the table through which workers learn where
//! to write.
//!
//! Worker `t` keeps the records whose key lies in `[p[t], p[t + 1])`, sorts them,
//! publishes how many it kept, and once every worker has published, writes them
//! at the header length plus four bytes for each record kept by workers before it.
use vstd::prelude::*;
use crate::error::SortError;
use crate::order::{key_of, order_key, sort_records, sort_records_in_place};
use crate::pivot::{valid_pivots, PivotVector};
use crate::record::RecordStore;

verus! {

/// Record `b` belongs to bucket `t` of the pivots `p`.
pub open spec fn in_bucket(b: u32, p: Seq<u64>, t: int) -> bool {
    p[t] <= order_key(b) && order_key(b) < p[t + 1]
}

/// The test that decides membership of bucket `t`.
pub open spec fn bucket_pred(p: Seq<u64>, t: int) -> spec_fn(u32) -> bool {
    |b: u32| in_bucket(b, p, t)
}

/// The records of bucket `t`, in input order.
pub open spec fn bucket(s: Seq<u32>, p: Seq<u64>, t: int) -> Seq<u32> {
    s.filter(bucket_pred(p, t))
}

/// The records of bucket `t`, sorted: what worker `t` writes.
pub open spec fn sorted_bucket(s: Seq<u32>, p: Seq<u64>, t: int) -> Seq<u32> {
    sort_records(bucket(s, p, t))
}

/// Scans every record of the store, keeps those of bucket `tid`, and sorts them.
pub fn worker_bucket(store: &RecordStore, pivots: &PivotVector, tid: usize) -> (r: Vec<u32>)
    requires
        store.wf(),
        pivots.wf(),
        tid < pivots@.len() - 1,
    ensures
        r@ == sorted_bucket(store@, pivots@, tid as int),
{
    proof {
        pivots.lemma_valid();
    }
    let lo = pivots.bound(tid);
    let hi = pivots.bound(tid + 1);
    let size = store.size();
    let ghost pred = bucket_pred(pivots@, tid as int);
    let mut data: Vec<u32> = Vec::new();
    let mut i: u64 = 0;
    while i < size
        invariant
            store.wf(),
            tid < pivots@.len() - 1,
            i <= size,
            size == store@.len(),
            lo == pivots@[tid as int],
            hi == pivots@[tid + 1],
            pred == bucket_pred(pivots@, tid as int),
            data@ == store@.subrange(0, i as int).filter(pred),
        decreases size - i,
    {
        let item = store.item(i);
        let k = key_of(item) as u64;
        proof {
            assert(store@.subrange(0, i + 1) =~= store@.subrange(0, i as int).push(item));
            store@.subrange(0, i as int).lemma_filter_push(item, pred);
        }
        if lo <= k && k < hi {
            data.push(item);
        }
        i = i + 1;
    }
    assert(store@.subrange(0, size as int) =~= store@);
    sort_records_in_place(&mut data);
    data
}

/// The sum of the published counts among the first `n` slots.
pub open spec fn count_sum(slots: Seq<Option<u64>>, n: int) -> int
    decreases n,
{
    if n <= 0 {
        0
    } else {
        count_sum(slots, n - 1) + match slots[n - 1] {
            Some(c) => c as int,
            None => 0,
        }
    }
}

/// Every slot holds a published count.
pub open spec fn all_published(slots: Seq<Option<u64>>) -> bool {
    forall|i: int| 0 <= i < slots.len() ==> (#[trigger] slots[i]) is Some
}

/// The shared table of per-worker counts: slot `t` is `None` until worker `t`
/// publishes how many records it kept.
pub struct SizeTable {
    slots: Vec<Option<u64>>,
}

impl View for SizeTable {
    type V = Seq<Option<u64>>;

    closed spec fn view(&self) -> Seq<Option<u64>> {
        self.slots@
    }
}

impl SizeTable {
    /// A table for `threads` workers, none of which has published.
    pub fn new(threads: usize) -> (r: SizeTable)
        ensures
            r@ == Seq::new(threads as nat, |i: int| None::<u64>),
    {
        let mut slots: Vec<Option<u64>> = Vec::new();
        let mut i: usize = 0;
        while i < threads
            invariant
                i <= threads,
                slots@ == Seq::new(i as nat, |j: int| None::<u64>),
            decreases threads - i,
        {
            slots.push(None);
            i += 1;
            assert(slots@ =~= Seq::new(i as nat, |j: int| None::<u64>));
        }
        SizeTable { slots }
    }

    /// Records the count of worker `tid`. Each slot is written once: a second
    /// write, or a worker index past the table, is refused.
    pub fn publish(&mut self, tid: usize, count: u64) -> (r: Result<(), SortError>)
        ensures
            tid >= old(self)@.len() || old(self)@[tid as int] is Some ==> r == Err::<(), SortError>(
                SortError::InvalidInput,
            ) && final(self)@ == old(self)@,
            tid < old(self)@.len() && old(self)@[tid as int] is None ==> r == Ok::<(), SortError>(())
                && final(self)@ == old(self)@.update(tid as int, Some(count)),
    {
        if tid >= self.slots.len() {
            return Err(SortError::InvalidInput);
        }
        if self.slots[tid].is_some() {
            return Err(SortError::InvalidInput);
        }
        self.slots.set(tid, Some(count));
        Ok(())
    }

    /// Whether every worker has published.
    pub fn is_complete(&self) -> (r: bool)
        ensures
            r == all_published(self@),
    {
        let mut i: usize = 0;
        while i < self.slots.len()
            invariant
                i <= self.slots@.len(),
                forall|j: int| 0 <= j < i ==> (#[trigger] self.slots@[j]) is Some,
            decreases self.slots@.len() - i,
        {
            if self.slots[i].is_none() {
                return false;
            }
            i += 1;
        }
        true
    }

    /// The byte offset at which worker `tid` writes: the header length plus four
    /// bytes per record kept by the workers before it. Read only once every
    /// worker has published.
    pub fn write_offset(&self, tid: usize) -> (r: Result<u64, SortError>)
        ensures
            tid >= self@.len() || !all_published(self@) ==> r == Err::<u64, SortError>(
                SortError::InvalidInput,
            ),
            tid < self@.len() && all_published(self@) && 8 + 4 * count_sum(self@, tid as int)
                > u64::MAX ==> r == Err::<u64, SortError>(SortError::OutOfRange),
            tid < self@.len() && all_published(self@) && 8 + 4 * count_sum(self@, tid as int)
                <= u64::MAX ==> r == Ok::<u64, SortError>(
                (8 + 4 * count_sum(self@, tid as int)) as u64,
            ),
    {
        if tid >= self.slots.len() || !self.is_complete() {
            return Err(SortError::InvalidInput);
        }
        let mut start: u64 = 8;
        let mut i: usize = 0;
        while i < tid
            invariant
                tid < self.slots@.len(),
                all_published(self.slots@),
                i <= tid,
                start == 8 + 4 * count_sum(self.slots@, i as int),
            decreases tid - i,
        {
            let c = match self.slots[i] {
                Some(c) => c,
                None => 0,
            };
            assert(self.slots@[i as int] is Some);
            if c > (u64::MAX - start) / 4 {
                proof {
                    lemma_count_sum_grows(self.slots@, i as int + 1, tid as int);
                }
                return Err(SortError::OutOfRange);
            }
            start = start + 4 * c;
            i += 1;
        }
        Ok(start)
    }
}

/// Counts only add up.
pub proof fn lemma_count_sum_grows(slots: Seq<Option<u64>>, m: int, n: int)
    requires
        0 <= m <= n,
    ensures
        count_sum(slots, m) <= count_sum(slots, n),
    decreases n - m,
{
    if m < n {
        lemma_count_sum_grows(slots, m, n - 1);
    }
}

} // verus!
