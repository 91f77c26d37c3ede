//! What holds of a whole run, for every input and every choice of pivots.
use vstd::prelude::*;
use vstd::relations::sorted_by;
use crate::order::{key_leq, lemma_sort_records, lemma_sorted_is_sort_records, order_key, sort_records, KEY_LIMIT};
use crate::pivot::{pivots_of, sample_count, valid_pivots};
use crate::worker::{bucket, bucket_pred, count_sum, in_bucket, sorted_bucket};

verus! {

broadcast use vstd::seq_lib::group_to_multiset_ensures, vstd::multiset::group_multiset_axioms;

/// The test for a key below `bound`.
pub open spec fn below_pred(bound: int) -> spec_fn(u32) -> bool {
    |b: u32| order_key(b) < bound
}

/// What workers `0 .. n` write, one after the other.
pub open spec fn assembled(s: Seq<u32>, p: Seq<u64>, n: int) -> Seq<u32>
    decreases n,
{
    if n <= 0 {
        Seq::empty()
    } else {
        assembled(s, p, n - 1) + sorted_bucket(s, p, n - 1)
    }
}

/// How many records the workers before `t` keep.
pub open spec fn prefix_count(s: Seq<u32>, p: Seq<u64>, t: int) -> int
    decreases t,
{
    if t <= 0 {
        0
    } else {
        prefix_count(s, p, t - 1) + bucket(s, p, t - 1).len()
    }
}

/// The first byte that worker `t` writes in the output.
pub open spec fn write_start(s: Seq<u32>, p: Seq<u64>, t: int) -> int {
    8 + 4 * prefix_count(s, p, t)
}

/// One past the last byte that worker `t` writes in the output.
pub open spec fn write_end(s: Seq<u32>, p: Seq<u64>, t: int) -> int {
    write_start(s, p, t) + 4 * bucket(s, p, t).len()
}

/// Filtering by a test that is the disjoint union of two others keeps, as a
/// multiset, what the two filters keep together.
proof fn lemma_filter_split(
    s: Seq<u32>,
    q: spec_fn(u32) -> bool,
    q1: spec_fn(u32) -> bool,
    q2: spec_fn(u32) -> bool,
)
    requires
        forall|x: u32| #[trigger] q(x) == (q1(x) || q2(x)),
        forall|x: u32| !(#[trigger] q1(x) && q2(x)),
    ensures
        s.filter(q).to_multiset() =~= s.filter(q1).to_multiset().add(s.filter(q2).to_multiset()),
    decreases s.len(),
{
    if s.len() == 0 {
        reveal(Seq::filter);
    } else {
        let t = s.drop_last();
        let x = s.last();
        assert(s =~= t.push(x));
        lemma_filter_split(t, q, q1, q2);
        t.lemma_filter_push(x, q);
        t.lemma_filter_push(x, q1);
        t.lemma_filter_push(x, q2);
    }
}

/// Filtering by a test that every record passes keeps everything.
proof fn lemma_filter_all(s: Seq<u32>, q: spec_fn(u32) -> bool)
    requires
        forall|x: u32| #[trigger] q(x),
    ensures
        s.filter(q) == s,
    decreases s.len(),
{
    if s.len() == 0 {
        reveal(Seq::filter);
    } else {
        let t = s.drop_last();
        assert(s =~= t.push(s.last()));
        lemma_filter_all(t, q);
        t.lemma_filter_push(s.last(), q);
    }
}

/// Each record of the sorted filter passes the filter's test.
proof fn lemma_sorted_filter_pred(s: Seq<u32>, q: spec_fn(u32) -> bool, i: int)
    requires
        0 <= i < sort_records(s.filter(q)).len(),
    ensures
        q(sort_records(s.filter(q))[i]),
{
    let f = s.filter(q);
    let x = sort_records(f)[i];
    lemma_sort_records(f);
    assert(sort_records(f).contains(x));
    assert(f.to_multiset().count(x) > 0);
    assert(f.contains(x));
    let j = choose|j: int| 0 <= j < f.len() && f[j] == x;
    s.lemma_filter_pred(q, j);
}

/// The first `k` workers write, in order, the sorted records with a key below
/// pivot `k`.
proof fn lemma_assembled_prefix(s: Seq<u32>, p: Seq<u64>, k: int)
    requires
        valid_pivots(p),
        0 <= k < p.len(),
    ensures
        assembled(s, p, k) == sort_records(s.filter(below_pred(p[k] as int))),
        assembled(s, p, k).len() == prefix_count(s, p, k),
    decreases k,
{
    let f = s.filter(below_pred(p[k] as int));
    lemma_sort_records(f);
    if k == 0 {
        assert(f.len() == 0) by {
            if f.len() > 0 {
                s.lemma_filter_pred(below_pred(p[k] as int), 0);
            }
        }
        assert(sort_records(f) =~= Seq::<u32>::empty());
    } else {
        lemma_assembled_prefix(s, p, k - 1);
        let g = s.filter(below_pred(p[k - 1] as int));
        let h = bucket(s, p, k - 1);
        let a = sort_records(g);
        let b = sort_records(h);
        lemma_sort_records(g);
        lemma_sort_records(h);
        assert(p[k - 1] <= p[k]);
        lemma_filter_split(s, below_pred(p[k] as int), below_pred(p[k - 1] as int), bucket_pred(p, k - 1));
        vstd::seq_lib::lemma_multiset_commutative(a, b);
        let leq = |x: u32, y: u32| key_leq(x, y);
        assert forall|i: int, j: int| 0 <= i < j < (a + b).len() implies #[trigger] leq(
            (a + b)[i],
            (a + b)[j],
        ) by {
            if j < a.len() {
                assert(leq(a[i], a[j]));
            } else if i >= a.len() {
                assert(leq(b[i - a.len()], b[j - a.len()]));
            } else {
                lemma_sorted_filter_pred(s, below_pred(p[k - 1] as int), i);
                lemma_sorted_filter_pred(s, bucket_pred(p, k - 1), j - a.len());
            }
        }
        assert(sorted_by(a + b, leq));
        lemma_sorted_is_sort_records(a + b, f);
    }
}

/// Round trip: whatever valid pivots the sampler led to, the workers' sorted
/// buckets, written one after the other in worker order, are the input sorted.
pub proof fn lemma_round_trip(s: Seq<u32>, p: Seq<u64>)
    requires
        valid_pivots(p),
    ensures
        assembled(s, p, p.len() - 1) == sort_records(s),
        prefix_count(s, p, p.len() - 1) == s.len(),
{
    let n = p.len() - 1;
    lemma_assembled_prefix(s, p, n);
    assert(forall|x: u32| #[trigger] below_pred(p[n] as int)(x)) by {
        assert(p[n] == KEY_LIMIT);
    }
    lemma_filter_all(s, below_pred(p[n] as int));
    lemma_sort_records(s);
}

/// Some worker's bucket holds record `b`.
pub open spec fn has_bucket(b: u32, p: Seq<u64>) -> bool {
    exists|t: int| 0 <= t < p.len() - 1 && #[trigger] in_bucket(b, p, t)
}

/// Some bucket at or after `t` holds a key that is at least pivot `t`.
proof fn lemma_find_bucket(b: u32, p: Seq<u64>, t: int) -> (u: int)
    requires
        valid_pivots(p),
        0 <= t < p.len() - 1,
        p[t] <= order_key(b),
    ensures
        t <= u < p.len() - 1,
        in_bucket(b, p, u),
    decreases p.len() - t,
{
    if order_key(b) < p[t + 1] {
        t
    } else {
        lemma_find_bucket(b, p, t + 1)
    }
}

/// Bucket completeness: every record belongs to exactly one bucket, and so is
/// kept by exactly one worker; together the workers keep as many records as
/// the input holds.
pub proof fn lemma_bucket_completeness(s: Seq<u32>, p: Seq<u64>)
    requires
        valid_pivots(p),
    ensures
        forall|j: int| 0 <= j < s.len() ==> #[trigger] has_bucket(s[j], p),
        forall|b: u32, t1: int, t2: int|
            0 <= t1 < p.len() - 1 && 0 <= t2 < p.len() - 1 && #[trigger] in_bucket(b, p, t1)
                && #[trigger] in_bucket(b, p, t2) ==> t1 == t2,
        forall|j: int, t: int|
            0 <= j < s.len() && 0 <= t < p.len() - 1 ==> (#[trigger] bucket(s, p, t).contains(
                s[j],
            ) <==> in_bucket(s[j], p, t)),
        prefix_count(s, p, p.len() - 1) == s.len(),
{
    assert forall|j: int| 0 <= j < s.len() implies #[trigger] has_bucket(s[j], p) by {
        let u = lemma_find_bucket(s[j], p, 0);
        assert(0 <= u < p.len() - 1 && in_bucket(s[j], p, u));
    }
    assert forall|b: u32, t1: int, t2: int|
        0 <= t1 < p.len() - 1 && 0 <= t2 < p.len() - 1 && #[trigger] in_bucket(b, p, t1)
            && #[trigger] in_bucket(b, p, t2) implies t1 == t2 by {
        if t1 < t2 {
            assert(p[t1 + 1] <= p[t2]);
        } else if t2 < t1 {
            assert(p[t2 + 1] <= p[t1]);
        }
    }
    assert forall|j: int, t: int| 0 <= j < s.len() && 0 <= t < p.len() - 1 implies (
    #[trigger] bucket(s, p, t).contains(s[j]) <==> in_bucket(s[j], p, t)) by {
        let q = bucket_pred(p, t);
        if in_bucket(s[j], p, t) {
            s.lemma_filter_contains(q, j);
        }
        if bucket(s, p, t).contains(s[j]) {
            let i = choose|i: int| 0 <= i < bucket(s, p, t).len() && bucket(s, p, t)[i] == s[j];
            s.lemma_filter_pred(q, i);
        }
    }
    lemma_round_trip(s, p);
}

/// Prefix counts only grow.
proof fn lemma_prefix_grows(s: Seq<u32>, p: Seq<u64>, m: int, n: int)
    requires
        0 <= m <= n,
    ensures
        prefix_count(s, p, m) <= prefix_count(s, p, n),
    decreases n - m,
{
    if m < n {
        lemma_prefix_grows(s, p, m, n - 1);
    }
}

/// Disjoint writes: the byte ranges of two workers never overlap, and together
/// they cover exactly the record area `[8, 8 + 4 * N)` of the output: the first
/// starts at 8, each one ends where the next starts, and the last ends at
/// `8 + 4 * N`.
pub proof fn lemma_disjoint_writes(s: Seq<u32>, p: Seq<u64>)
    requires
        valid_pivots(p),
    ensures
        write_start(s, p, 0) == 8,
        write_end(s, p, p.len() - 2) == 8 + 4 * s.len(),
        forall|i: int, j: int|
            0 <= i < j < p.len() - 1 ==> #[trigger] write_end(s, p, i) <= #[trigger] write_start(
                s,
                p,
                j,
            ),
        forall|t: int|
            0 <= t < p.len() - 1 ==> 8 <= #[trigger] write_start(s, p, t) <= write_end(s, p, t)
                <= 8 + 4 * s.len(),
        forall|t: int|
            0 <= t < p.len() - 2 ==> #[trigger] write_end(s, p, t) == write_start(s, p, t + 1),
{
    let n = p.len() - 1;
    lemma_round_trip(s, p);
    assert(write_end(s, p, n - 1) == write_start(s, p, n));
    assert forall|i: int, j: int| 0 <= i < j < p.len() - 1 implies #[trigger] write_end(s, p, i)
        <= #[trigger] write_start(s, p, j) by {
        lemma_prefix_grows(s, p, i + 1, j);
    }
    assert forall|t: int| 0 <= t < p.len() - 1 implies 8 <= #[trigger] write_start(s, p, t)
        <= write_end(s, p, t) <= 8 + 4 * s.len() by {
        lemma_prefix_grows(s, p, 0, t);
        lemma_prefix_grows(s, p, t + 1, n);
    }
}

/// Once every worker has published the size of its bucket, the table's sums
/// are the prefix counts, so each worker writes where its range starts.
pub proof fn lemma_published_offsets(slots: Seq<Option<u64>>, s: Seq<u32>, p: Seq<u64>)
    requires
        valid_pivots(p),
        slots.len() == p.len() - 1,
        forall|u: int|
            0 <= u < slots.len() ==> (#[trigger] slots[u]) is Some && slots[u].unwrap()
                == bucket(s, p, u).len(),
    ensures
        forall|t: int|
            0 <= t < p.len() ==> 8 + 4 * #[trigger] count_sum(slots, t) == write_start(s, p, t),
{
    assert forall|t: int| 0 <= t < p.len() implies 8 + 4 * #[trigger] count_sum(slots, t)
        == write_start(s, p, t) by {
        lemma_sums_agree(slots, s, p, t);
    }
}

proof fn lemma_sums_agree(slots: Seq<Option<u64>>, s: Seq<u32>, p: Seq<u64>, t: int)
    requires
        0 <= t <= slots.len(),
        forall|u: int|
            0 <= u < slots.len() ==> (#[trigger] slots[u]) is Some && slots[u].unwrap()
                == bucket(s, p, u).len(),
    ensures
        count_sum(slots, t) == prefix_count(s, p, t),
    decreases t,
{
    if t > 0 {
        lemma_sums_agree(slots, s, p, t - 1);
        assert(slots[t - 1] is Some);
    }
}

/// A single worker: any sample gives the pivots `[0, KEY_LIMIT]`, whose one
/// bucket holds every record, so the output is the plain sort of the input.
pub proof fn lemma_single_worker(s: Seq<u32>, sample: Seq<u32>)
    requires
        sample.len() == sample_count(1),
    ensures
        pivots_of(sample, 1) == seq![0u64, KEY_LIMIT],
        sorted_bucket(s, pivots_of(sample, 1), 0) == sort_records(s),
        assembled(s, pivots_of(sample, 1), 1) == sort_records(s),
{
    let p = pivots_of(sample, 1);
    assert(p =~= seq![0u64, KEY_LIMIT]);
    assert(forall|x: u32| #[trigger] bucket_pred(p, 0)(x));
    lemma_filter_all(s, bucket_pred(p, 0));
    assert(assembled(s, p, 1) =~= assembled(s, p, 0) + sorted_bucket(s, p, 0));
    assert(assembled(s, p, 0) =~= Seq::<u32>::empty());
    assert(assembled(s, p, 1) =~= sort_records(s));
}

} // verus!
