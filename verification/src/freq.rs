//! Byte frequencies and cumulative counts: the statistical model that
//! the interval table is built from.

use vstd::prelude::*;

verus! {

/// How many times byte `b` occurs in `s`.
pub open spec fn occ(s: Seq<u8>, b: u8) -> nat
    decreases s.len(),
{
    if s.len() == 0 {
        0
    } else {
        occ(s.drop_last(), b) + (if s.last() == b { 1nat } else { 0nat })
    }
}

/// How many bytes of `s` have a value below `b`: the cumulative count
/// that the interval table accumulates in ascending byte order.
pub open spec fn cum(s: Seq<u8>, b: int) -> nat
    decreases b,
{
    if b <= 0 {
        0
    } else {
        cum(s, b - 1) + occ(s, (b - 1) as u8)
    }
}

/// Dropping the last byte of `s` lowers `cum(s, b)` by one exactly when
/// that byte's value is below `b`.
pub proof fn lemma_cum_drop_last(s: Seq<u8>, b: int)
    requires
        s.len() > 0,
        b <= 256,
    ensures
        cum(s, b) == cum(s.drop_last(), b) + (if (s.last() as int) < b { 1int } else { 0int }),
    decreases b,
{
    if b > 0 {
        lemma_cum_drop_last(s, b - 1);
    }
}

/// All byte values lie below 256, so `cum(s, 256)` counts every byte.
pub proof fn lemma_cum_total(s: Seq<u8>)
    ensures
        cum(s, 256) == s.len(),
    decreases s.len(),
{
    if s.len() == 0 {
        assert(s =~= Seq::<u8>::empty());
        lemma_cum_empty(256);
    } else {
        lemma_cum_total(s.drop_last());
        lemma_cum_drop_last(s, 256);
    }
}

/// The cumulative count of an empty sequence is zero at every bound.
pub proof fn lemma_cum_empty(b: int)
    ensures
        cum(Seq::<u8>::empty(), b) == 0,
    decreases b,
{
    if b > 0 {
        lemma_cum_empty(b - 1);
        assert(occ(Seq::<u8>::empty(), (b - 1) as u8) == 0);
    }
}

/// Cumulative counts never decrease as the bound grows.
pub proof fn lemma_cum_monotonic(s: Seq<u8>, b1: int, b2: int)
    requires
        b1 <= b2,
    ensures
        cum(s, b1) <= cum(s, b2),
    decreases b2 - b1,
{
    if b1 < b2 {
        lemma_cum_monotonic(s, b1, b2 - 1);
    }
}

/// No cumulative count exceeds the length of the sequence.
pub proof fn lemma_cum_le_len(s: Seq<u8>, b: int)
    requires
        b <= 256,
    ensures
        cum(s, b) <= s.len(),
{
    lemma_cum_monotonic(s, b, 256);
    lemma_cum_total(s);
}

/// A byte cannot occur more often than the sequence is long.
pub proof fn lemma_occ_le_len(s: Seq<u8>, b: u8)
    ensures
        occ(s, b) <= s.len(),
    decreases s.len(),
{
    if s.len() > 0 {
        lemma_occ_le_len(s.drop_last(), b);
    }
}

/// Appending one byte leaves the occurrence counts of all other bytes
/// unchanged and raises the appended byte's count by one.
pub proof fn lemma_occ_push(s: Seq<u8>, x: u8, b: u8)
    ensures
        occ(s.push(x), b) == occ(s, b) + (if x == b { 1int } else { 0int }),
{
    assert(s.push(x).drop_last() =~= s);
}

} // verus!
