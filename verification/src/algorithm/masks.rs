//! Counting musicians through conflict masks.
//!
//! A valid assignment keeps the masks of the bands sharing a span
//! pairwise disjoint; these lemmas state the counting consequence: the OR
//! of such masks carries exactly as many bits as the masks do together,
//! so no musician is counted twice in any span.

use vstd::prelude::*;

verus! {

/// How many bits of `x` are set.
pub open spec fn pop_count(x: u64) -> nat
    decreases x,
{
    if x == 0 {
        0
    } else {
        (x % 2) as nat + pop_count(x / 2)
    }
}

/// The OR of all masks of a list.
pub open spec fn or_all(hs: Seq<u64>) -> u64
    decreases hs.len(),
{
    if hs.len() == 0 {
        0u64
    } else {
        or_all(hs.drop_last()) | hs.last()
    }
}

/// The bit counts of a list of masks, added up.
pub open spec fn sum_pop(hs: Seq<u64>) -> nat
    decreases hs.len(),
{
    if hs.len() == 0 {
        0
    } else {
        sum_pop(hs.drop_last()) + pop_count(hs.last())
    }
}

/// Disjoint masks OR together without losing a bit.
pub proof fn lemma_pop_count_disjoint(a: u64, b: u64)
    requires
        a & b == 0,
    ensures
        pop_count(a | b) == pop_count(a) + pop_count(b),
    decreases a + b,
{
    if a == 0 {
        assert(a | b == b) by (bit_vector)
            requires
                a == 0,
        ;
    } else if b == 0 {
        assert(a | b == a) by (bit_vector)
            requires
                b == 0,
        ;
    } else {
        assert((a / 2) & (b / 2) == 0) by (bit_vector)
            requires
                a & b == 0,
        ;
        assert((a | b) / 2 == (a / 2) | (b / 2)) by (bit_vector);
        assert((a | b) % 2 == a % 2 + b % 2) by (bit_vector)
            requires
                a & b == 0,
        ;
        assert(a | b != 0) by (bit_vector)
            requires
                a != 0,
        ;
        lemma_pop_count_disjoint(a / 2, b / 2);
        assert(a / 2 + b / 2 < a + b);
    }
}

/// A mask disjoint from each of a list is disjoint from their OR.
pub proof fn lemma_or_all_disjoint(hs: Seq<u64>, x: u64)
    requires
        forall|i: int| 0 <= i < hs.len() ==> x & (#[trigger] hs[i]) == 0,
    ensures
        x & or_all(hs) == 0,
    decreases hs.len(),
{
    if hs.len() == 0 {
        assert(x & 0 == 0) by (bit_vector);
    } else {
        lemma_or_all_disjoint(hs.drop_last(), x);
        let a = or_all(hs.drop_last());
        let b = hs.last();
        assert(x & (a | b) == 0) by (bit_vector)
            requires
                x & a == 0,
                x & b == 0,
        ;
    }
}

/// Pairwise disjoint masks OR into a mask carrying the sum of their bit
/// counts: every musician of a span is counted exactly once.
pub proof fn lemma_no_overlap_popcount(hs: Seq<u64>)
    requires
        forall|i: int, j: int|
            0 <= i < j < hs.len() ==> (#[trigger] hs[i]) & (#[trigger] hs[j]) == 0,
    ensures
        pop_count(or_all(hs)) == sum_pop(hs),
    decreases hs.len(),
{
    if hs.len() > 0 {
        let rest = hs.drop_last();
        let last = hs.last();
        lemma_no_overlap_popcount(rest);
        assert forall|i: int| 0 <= i < rest.len() implies last & (#[trigger] rest[i]) == 0 by {
            assert(hs[i] & hs[hs.len() - 1] == 0);
            let a = hs[i];
            let b = last;
            assert(b & a == 0) by (bit_vector)
                requires
                    a & b == 0,
            ;
        }
        lemma_or_all_disjoint(rest, last);
        let a = or_all(rest);
        let b = last;
        assert(a & b == 0) by (bit_vector)
            requires
                b & a == 0,
        ;
        lemma_pop_count_disjoint(a, b);
    }
}

} // verus!
