//! The arg-max decision rule over IEEE 754 binary64 bit patterns.
//!
//! Values are compared in the total order of IEEE 754 (`totalOrder`):
//! negative NaNs lie below negative infinity, negative zero lies below
//! positive zero, and positive NaNs lie above positive infinity. Two
//! values are tied only when their bit patterns are identical, and a
//! tie is resolved in favour of the earlier position.

use vstd::prelude::*;

verus! {

/// Returned when the maximum of an empty vector is asked for.
#[derive(Debug, Clone, Copy, PartialEq, Eq)]
pub struct EmptyInputError;

/// The smallest bit pattern whose sign bit is set.
pub const SIGN_BIT: u64 = 0x8000_0000_0000_0000;

/// The bits of a pattern below its sign bit.
pub const MAGNITUDE_BITS: u64 = 0x7fff_ffff_ffff_ffff;

/// The rank of a binary64 bit pattern in the IEEE 754 total order.
///
/// Patterns with a clear sign bit rank by their magnitude; patterns with
/// the sign bit set rank below all of them, the larger magnitude lower.
pub open spec fn rank(bits: u64) -> int {
    if bits < SIGN_BIT {
        bits as int
    } else {
        SIGN_BIT - 1 - bits
    }
}

/// Computes the rank of a bit pattern.
pub fn total_order_key(bits: u64) -> (key: i64)
    ensures
        key == rank(bits),
{
    if bits < SIGN_BIT {
        bits as i64
    } else {
        let magnitude: u64 = bits - SIGN_BIT;
        -1i64 - (magnitude as i64)
    }
}

/// `i` is a position of `values` whose rank no other position exceeds and
/// no earlier position reaches.
pub open spec fn is_first_max(values: Seq<u64>, i: int) -> bool {
    &&& 0 <= i < values.len()
    &&& forall|j: int| 0 <= j < values.len() ==> rank(#[trigger] values[j]) <= rank(values[i])
    &&& forall|j: int| 0 <= j < i ==> rank(#[trigger] values[j]) < rank(values[i])
}

/// The position that `argmax` selects in a non-empty sequence.
pub open spec fn first_max(values: Seq<u64>) -> int {
    choose|i: int| is_first_max(values, i)
}

/// Distinct bit patterns have distinct ranks, so only identical values tie.
pub proof fn lemma_rank_injective(a: u64, b: u64)
    ensures
        rank(a) == rank(b) <==> a == b,
{
}

/// Ranks respect the sign: every pattern with the sign bit set ranks below
/// every pattern without it, magnitudes order the non-negative patterns and
/// reverse-order the negative ones.
pub proof fn lemma_rank_order(a: u64, b: u64)
    ensures
        a < SIGN_BIT <= b ==> rank(b) < rank(a),
        a < SIGN_BIT && b < SIGN_BIT ==> (rank(a) < rank(b) <==> a < b),
        a >= SIGN_BIT && b >= SIGN_BIT ==> (rank(a) < rank(b) <==> b < a),
{
}

/// Read as a sign bit over a 63-bit magnitude, a pattern ranks at its
/// magnitude when the sign is clear and at minus one less its magnitude when
/// the sign is set: the order is that of sign-magnitude numbers, with the two
/// zeros told apart.
pub proof fn lemma_rank_by_sign_and_magnitude(bits: u64)
    ensures
        bits >> 63 == 0 || bits >> 63 == 1,
        bits >> 63 == 0 ==> rank(bits) == bits & MAGNITUDE_BITS,
        bits >> 63 == 1 ==> rank(bits) == -1 - (bits & MAGNITUDE_BITS),
{
    assert(bits >> 63 == 0 || bits >> 63 == 1) by (bit_vector);
    assert(bits >> 63 == 0 ==> bits < 0x8000_0000_0000_0000 && bits & 0x7fff_ffff_ffff_ffff == bits)
        by (bit_vector);
    assert(bits >> 63 == 1 ==> bits >= 0x8000_0000_0000_0000 && bits & 0x7fff_ffff_ffff_ffff
        == bits - 0x8000_0000_0000_0000) by (bit_vector);
}

/// At most one position of a sequence is its first maximum.
pub proof fn lemma_first_max_unique(values: Seq<u64>, i: int, j: int)
    requires
        is_first_max(values, i),
        is_first_max(values, j),
    ensures
        i == j,
{
    if i < j {
        assert(rank(values[i]) < rank(values[j]));
        assert(rank(values[j]) <= rank(values[i]));
    } else if j < i {
        assert(rank(values[j]) < rank(values[i]));
        assert(rank(values[i]) <= rank(values[j]));
    }
}

/// Returns the index of the largest element of `arr` in the IEEE 754 total
/// order, the first such index when the maximum occurs more than once.
pub fn argmax(arr: &[u64]) -> (r: Result<usize, EmptyInputError>)
    ensures
        arr@.len() == 0 ==> r == Err::<usize, EmptyInputError>(EmptyInputError),
        arr@.len() > 0 ==> r is Ok && r->Ok_0 == first_max(arr@) && is_first_max(
            arr@,
            r->Ok_0 as int,
        ),
{
    if arr.len() == 0 {
        return Err(EmptyInputError);
    }
    let mut best: usize = 0;
    let mut best_key: i64 = total_order_key(arr[0]);
    let mut i: usize = 1;
    while i < arr.len()
        invariant
            1 <= i <= arr.len(),
            best < i,
            best_key == rank(arr@[best as int]),
            is_first_max(arr@.take(i as int), best as int),
        decreases arr.len() - i,
    {
        let key: i64 = total_order_key(arr[i]);
        if key > best_key {
            best = i;
            best_key = key;
        }
        i += 1;
    }
    proof {
        assert(arr@.take(i as int) =~= arr@);
        lemma_first_max_unique(arr@, best as int, first_max(arr@));
    }
    Ok(best)
}

} // verus!
