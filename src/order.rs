//! The order records are sorted by.
//!
//! A record is the bit pattern of an IEEE-754 single. Mapping it to its
//! order key (negative patterns flipped whole, non-negative ones with the sign
//! bit set) turns the numeric order of non-NaN values into the order of
//! unsigned integers, with -0.0 placed just before +0.0.
use vstd::prelude::*;
use vstd::relations::{sorted_by, total_ordering};

verus! {

/// The sign bit of a record.
pub const SIGN_BIT: u32 = 0x8000_0000;

/// The bit pattern of positive infinity, the largest non-NaN magnitude.
pub const INFINITY_BITS: u32 = 0x7f80_0000;

/// One more than the largest order key: an upper bound above every record.
pub const KEY_LIMIT: u64 = 0x1_0000_0000;

/// Whether the bit pattern is a NaN: all exponent bits set, some mantissa bit set.
pub open spec fn is_nan(b: u32) -> bool {
    b % 0x8000_0000 > 0x7f80_0000
}

/// The order key of a record.
pub open spec fn order_key(b: u32) -> u32 {
    if b >= 0x8000_0000 {
        (0xffff_ffff - b) as u32
    } else {
        (b + 0x8000_0000) as u32
    }
}

/// `a` sorts no later than `b`.
pub open spec fn key_leq(a: u32, b: u32) -> bool {
    order_key(a) <= order_key(b)
}

/// The records of `s`, ascending by order key.
pub open spec fn sort_records(s: Seq<u32>) -> Seq<u32> {
    s.sort_by(|a: u32, b: u32| key_leq(a, b))
}

/// Whether some record of `s` is NaN.
pub open spec fn has_nan(s: Seq<u32>) -> bool {
    exists|i: int| 0 <= i < s.len() && is_nan(#[trigger] s[i])
}

/// Computes the order key of a record.
pub fn key_of(b: u32) -> (r: u32)
    ensures
        r == order_key(b),
{
    if b >= SIGN_BIT {
        0xffff_ffff - b
    } else {
        b + SIGN_BIT
    }
}

/// Tells whether a record is NaN.
pub fn record_is_nan(b: u32) -> (r: bool)
    ensures
        r == is_nan(b),
{
    b % SIGN_BIT > INFINITY_BITS
}

/// The order key tells records apart.
pub proof fn lemma_order_key_injective(a: u32, b: u32)
    ensures
        order_key(a) == order_key(b) <==> a == b,
{
}

/// Sorting by order key is a total order on records.
pub proof fn lemma_key_leq_total()
    ensures
        total_ordering(|a: u32, b: u32| key_leq(a, b)),
{
    let leq = |a: u32, b: u32| key_leq(a, b);
    assert forall|x: u32, y: u32| #[trigger] leq(x, y) && #[trigger] leq(y, x) implies x == y by {
        lemma_order_key_injective(x, y);
    }
}

/// What `sort_records` gives: the same records, in ascending key order.
pub proof fn lemma_sort_records(s: Seq<u32>)
    ensures
        sort_records(s).to_multiset() == s.to_multiset(),
        sorted_by(sort_records(s), |a: u32, b: u32| key_leq(a, b)),
        sort_records(s).len() == s.len(),
{
    lemma_key_leq_total();
    s.lemma_sort_by_ensures(|a: u32, b: u32| key_leq(a, b));
    broadcast use vstd::seq_lib::group_to_multiset_ensures;

    assert(sort_records(s).len() == sort_records(s).to_multiset().len());
}

/// A sequence of records in ascending key order that holds the records of `s`
/// is `sort_records(s)`.
pub proof fn lemma_sorted_is_sort_records(t: Seq<u32>, s: Seq<u32>)
    requires
        sorted_by(t, |a: u32, b: u32| key_leq(a, b)),
        t.to_multiset() == s.to_multiset(),
    ensures
        t == sort_records(s),
{
    lemma_key_leq_total();
    lemma_sort_records(s);
    vstd::seq_lib::lemma_sorted_unique(t, sort_records(s), |a: u32, b: u32| key_leq(a, b));
}

/// Relies on `slice::sort_unstable_by_key`: afterwards the vector holds the same
/// records, ascending by the key that the closure computes.
#[verifier::external_body]
fn sort_by_order_key(v: &mut Vec<u32>)
    ensures
        final(v)@.to_multiset() == old(v)@.to_multiset(),
        sorted_by(final(v)@, |a: u32, b: u32| key_leq(a, b)),
{
    v.sort_unstable_by_key(|b| key_of(*b))
}

/// Sorts records ascending by order key.
pub fn sort_records_in_place(v: &mut Vec<u32>)
    ensures
        final(v)@ == sort_records(old(v)@),
{
    sort_by_order_key(v);
    proof {
        lemma_sorted_is_sort_records(v@, old(v)@);
    }
}

} // verus!
