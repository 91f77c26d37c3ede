//! Sampling and pivot selection.
//!
//! Pivots are bounds in order-key space. The first is 0 and the last is
//! `KEY_LIMIT`, above every key, so the buckets `[p[t], p[t + 1])` cover every
//! record, infinities included.
use vstd::prelude::*;
use rand::Rng;
use crate::error::SortError;
use crate::order::{has_nan, is_nan, key_leq, key_of, lemma_sort_records, order_key, record_is_nan, sort_records, sort_records_in_place, KEY_LIMIT};
use crate::record::RecordStore;

verus! {

#[verifier::external_type_specification]
#[verifier::external_body]
pub struct ExThreadRng(rand::rngs::ThreadRng);

/// Relies on `rand::thread_rng`, which hands out the generator of the calling
/// thread; nothing is promised of it.
pub assume_specification[ rand::thread_rng ]() -> rand::rngs::ThreadRng;

/// Relies on `rand::Rng::gen_range(0, size)`: a value in `[0, size)` (it panics
/// on an empty range, hence the `requires`).
#[verifier::external_body]
fn draw_index(rng: &mut rand::rngs::ThreadRng, size: u64) -> (r: u64)
    requires
        size > 0,
    ensures
        r < size,
{
    rng.gen_range(0, size)
}

/// Pivot bounds: a first bound of 0, a last bound of `KEY_LIMIT`, non-decreasing.
pub open spec fn valid_pivots(p: Seq<u64>) -> bool {
    &&& p.len() >= 2
    &&& p[0] == 0
    &&& p[p.len() - 1] == KEY_LIMIT
    &&& forall|i: int, j: int| 0 <= i <= j < p.len() ==> #[trigger] p[i] <= #[trigger] p[j]
}

/// The number of samples drawn for `threads` workers.
pub open spec fn sample_count(threads: int) -> int {
    3 * (threads - 1)
}

/// The pivots that a sample gives for `threads` workers: inner bound `i` is the
/// key of element `3 * (i - 1)` of the sorted sample.
pub open spec fn pivots_of(sample: Seq<u32>, threads: nat) -> Seq<u64> {
    Seq::new(
        threads + 1,
        |i: int|
            if i == 0 {
                0u64
            } else if i == threads {
                KEY_LIMIT
            } else {
                order_key(sort_records(sample)[3 * (i - 1)]) as u64
            },
    )
}

/// The pivot vector of a run.
pub struct PivotVector {
    bounds: Vec<u64>,
}

impl View for PivotVector {
    type V = Seq<u64>;

    closed spec fn view(&self) -> Seq<u64> {
        self.bounds@
    }
}

impl PivotVector {
    /// The pivot vector's invariant.
    pub closed spec fn wf(&self) -> bool {
        valid_pivots(self.bounds@) && self.bounds@.len() <= usize::MAX
    }

    /// Its bounds are valid pivots.
    pub proof fn lemma_valid(&self)
        requires
            self.wf(),
        ensures
            valid_pivots(self@),
            self@.len() <= usize::MAX,
    {
    }

    /// The number of workers, one per bucket.
    pub fn threads(&self) -> (r: usize)
        requires
            self.wf(),
        ensures
            r == self@.len() - 1,
    {
        self.bounds.len() - 1
    }

    /// Bound `i`.
    pub fn bound(&self, i: usize) -> (r: u64)
        requires
            i < self@.len(),
        ensures
            r == self@[i as int],
    {
        self.bounds[i]
    }
}

/// Draws `count` records of the store, each one uniformly at random, with
/// replacement, in draw order.
pub fn sample(store: &RecordStore, count: usize) -> (r: Vec<u32>)
    requires
        store.wf(),
    ensures
        r@.len() == count,
        forall|i: int| 0 <= i < count ==> store@.contains(#[trigger] r@[i]),
{
    let size = store.size();
    let mut rng = rand::thread_rng();
    let mut ys: Vec<u32> = Vec::new();
    let mut index: usize = 0;
    while index < count
        invariant
            index <= count,
            ys@.len() == index,
            store.wf(),
            size == store@.len(),
            size > 0,
            forall|i: int| 0 <= i < index ==> store@.contains(#[trigger] ys@[i]),
        decreases count - index,
    {
        let j = draw_index(&mut rng, size);
        let y = store.item(j);
        assert(store@[j as int] == y);
        ys.push(y);
        index += 1;
    }
    ys
}

/// Builds the pivots for `threads` workers from a sample of
/// `3 * (threads - 1)` records.
pub fn pivots_from_sample(sample: &Vec<u32>, threads: usize) -> (r: Result<PivotVector, SortError>)
    ensures
        threads == 0 ==> r == Err::<PivotVector, SortError>(SortError::InvalidInput),
        threads > 0 && sample@.len() != sample_count(threads as int) ==> r == Err::<
            PivotVector,
            SortError,
        >(SortError::InvalidInput),
        threads > 0 && sample@.len() == sample_count(threads as int) && has_nan(sample@) ==> r
            == Err::<PivotVector, SortError>(SortError::NumericOrder),
        threads > 0 && sample@.len() == sample_count(threads as int) && !has_nan(sample@) ==> r
            is Ok && r.unwrap().wf() && r.unwrap()@ == pivots_of(sample@, threads as nat),
{
    if threads == 0 {
        return Err(SortError::InvalidInput);
    }
    if (threads - 1) > sample.len() / 3 || sample.len() != 3 * (threads - 1) {
        return Err(SortError::InvalidInput);
    }
    let count: usize = sample.len();
    let mut k: usize = 0;
    while k < count
        invariant
            count == sample@.len(),
            count == 3 * (threads - 1),
            threads > 0,
            k <= count,
            forall|j: int| 0 <= j < k ==> !is_nan(#[trigger] sample@[j]),
        decreases count - k,
    {
        if record_is_nan(sample[k]) {
            return Err(SortError::NumericOrder);
        }
        k += 1;
    }
    let mut sorted = sample.clone();
    assert(sorted@ == sample@);
    sort_records_in_place(&mut sorted);
    proof {
        lemma_sort_records(sample@);
    }
    let ghost want = pivots_of(sample@, threads as nat);
    let mut bounds: Vec<u64> = Vec::new();
    bounds.push(0);
    let mut i: usize = 0;
    while i < count
        invariant
            count == sample@.len() == sorted@.len(),
            count == 3 * (threads - 1),
            threads > 0,
            i % 3 == 0,
            i <= count,
            sorted@ == sort_records(sample@),
            want == pivots_of(sample@, threads as nat),
            bounds@.len() == i / 3 + 1,
            forall|j: int| 0 <= j < bounds@.len() ==> bounds@[j] == want[j],
        decreases count - i,
    {
        let b = key_of(sorted[i]) as u64;
        bounds.push(b);
        assert(bounds@[bounds@.len() - 1] == want[i / 3 + 1]);
        i += 3;
    }
    bounds.push(KEY_LIMIT);
    assert(bounds@ =~= want);
    proof {
        lemma_pivots_valid(sample@, threads as nat);
    }
    Ok(PivotVector { bounds })
}

/// The pivots that a sample gives are valid.
pub proof fn lemma_pivots_valid(sample: Seq<u32>, threads: nat)
    requires
        threads > 0,
        sample.len() == sample_count(threads as int),
    ensures
        valid_pivots(pivots_of(sample, threads)),
{
    let p = pivots_of(sample, threads);
    let s = sort_records(sample);
    let leq = |a: u32, b: u32| key_leq(a, b);
    lemma_sort_records(sample);
    assert forall|i: int, j: int| 0 <= i <= j < p.len() implies #[trigger] p[i] <= #[trigger] p[j] by {
        if 0 < i && i < j && j < threads {
            assert(leq(s[3 * (i - 1)], s[3 * (j - 1)]));
        }
    }
}

/// Samples the store and builds the pivots for `threads` workers.
pub fn find_pivots(store: &RecordStore, threads: usize) -> (r: Result<PivotVector, SortError>)
    requires
        store.wf(),
    ensures
        threads == 0 || sample_count(threads as int) > usize::MAX <==> r == Err::<
            PivotVector,
            SortError,
        >(SortError::InvalidInput),
        r is Ok ==> r.unwrap().wf() && exists|s: Seq<u32>|
            #![trigger pivots_of(s, threads as nat)]
            s.len() == sample_count(threads as int) && (forall|i: int|
                0 <= i < s.len() ==> store@.contains(#[trigger] s[i])) && r.unwrap()@
                == pivots_of(s, threads as nat),
        r is Err ==> r == Err::<PivotVector, SortError>(SortError::InvalidInput),
{
    if threads == 0 || threads - 1 > usize::MAX / 3 {
        return Err(SortError::InvalidInput);
    }
    let count: usize = 3 * (threads - 1);
    let ys = sample(store, count);
    proof {
        store.lemma_no_nan();
        assert(!has_nan(ys@)) by {
            assert forall|i: int| 0 <= i < ys@.len() implies !is_nan(#[trigger] ys@[i]) by {
                assert(store@.contains(ys@[i]));
            }
        }
    }
    pivots_from_sample(&ys, threads)
}

} // verus!
