//! Candidate sets: a set of digits `1..=9` packed into the bits of a `u16`.
//!
//! Bit `d` of a mask is set exactly when digit `d` belongs to the set. Bit 0
//! and the bits above 9 are never set.

use vstd::prelude::*;
use vstd::std_specs::bits::axiom_u16_trailing_zeros;

verus! {

/// The set holding every digit `1..=9`.
pub const ALL: u16 = 0x03FE;

/// Digit `d` is a member of `mask`.
pub open spec fn member(mask: u16, d: u16) -> bool {
    (mask >> d) & 1 == 1
}

/// `mask` sets no bit outside `1..=9`.
pub open spec fn is_mask(mask: u16) -> bool {
    mask & !ALL == 0
}

/// Number of digits in `1..=n` that are members of `mask`.
pub open spec fn count_upto(mask: u16, n: u16) -> nat
    decreases n,
{
    if n == 0 {
        0
    } else {
        count_upto(mask, (n - 1) as u16) + if member(mask, n) { 1nat } else { 0nat }
    }
}

/// Number of members of `mask`.
pub open spec fn count(mask: u16) -> nat {
    count_upto(mask, 9)
}

/// A mask is zero exactly when it has no member.
pub proof fn lemma_empty(mask: u16)
    requires
        is_mask(mask),
    ensures
        mask == 0 <==> (forall|d: u16| 1 <= d <= 9 ==> !member(mask, d)),
{
    if mask == 0 {
        lemma_none();
    }
    if forall|d: u16| 1 <= d <= 9 ==> !member(mask, d) {
        assert(!member(mask, 1) && !member(mask, 2) && !member(mask, 3) && !member(mask, 4) && !member(mask, 5)
            && !member(mask, 6) && !member(mask, 7) && !member(mask, 8) && !member(mask, 9));
        assert(mask & !0x03FEu16 == 0 && (mask >> 1) & 1 != 1 && (mask >> 2) & 1 != 1 && (mask >> 3)
            & 1 != 1 && (mask >> 4) & 1 != 1 && (mask >> 5) & 1 != 1 && (mask >> 6) & 1 != 1 && (
        mask >> 7) & 1 != 1 && (mask >> 8) & 1 != 1 && (mask >> 9) & 1 != 1 ==> mask == 0)
            by (bit_vector);
    }
}

/// The zero mask is the empty set.
pub proof fn lemma_none()
    ensures
        is_mask(0),
        forall|d: u16| !member(0, d),
{
    assert(0u16 & !0x03FEu16 == 0) by (bit_vector);
    assert forall|d: u16| !member(0, d) by {
        assert((0u16 >> d) & 1 == 0) by (bit_vector);
    }
}

/// The full set holds every digit and nothing else.
pub proof fn lemma_all()
    ensures
        is_mask(ALL),
        forall|d: u16| 1 <= d <= 9 ==> member(ALL, d),
{
    assert(0x03FEu16 & !0x03FEu16 == 0) by (bit_vector);
    assert forall|d: u16| 1 <= d <= 9 implies member(ALL, d) by {
        assert(1 <= d <= 9 ==> (0x03FEu16 >> d) & 1 == 1) by (bit_vector);
    }
}

/// Tests whether digit `d` is a member of `mask`.
pub fn contains(mask: u16, d: u16) -> (r: bool)
    requires
        d < 16,
    ensures
        r == member(mask, d),
{
    (mask >> d) & 1 == 1
}

/// The set holding digit `d` alone.
pub fn single(d: u16) -> (r: u16)
    requires
        1 <= d <= 9,
    ensures
        is_mask(r),
        forall|e: u16| e < 16 ==> (member(r, e) <==> e == d),
{
    let r: u16 = 1u16 << d;
    proof {
        assert(1 <= d <= 9 ==> (1u16 << d) & !0x03FEu16 == 0) by (bit_vector);
        assert forall|e: u16| e < 16 implies (member(r, e) <==> e == d) by {
            assert(d <= 9 && e < 16 ==> ((((1u16 << d) >> e) & 1 == 1) <==> e == d))
                by (bit_vector);
        }
    }
    r
}

/// Union of two sets.
pub fn union(a: u16, b: u16) -> (r: u16)
    requires
        is_mask(a),
        is_mask(b),
    ensures
        is_mask(r),
        forall|e: u16| e < 16 ==> (member(r, e) <==> member(a, e) || member(b, e)),
{
    let r: u16 = a | b;
    proof {
        assert(a & !0x03FEu16 == 0 && b & !0x03FEu16 == 0 ==> (a | b) & !0x03FEu16 == 0)
            by (bit_vector);
        assert forall|e: u16| e < 16 implies (member(r, e) <==> member(a, e) || member(b, e)) by {
            assert(e < 16 ==> ((((a | b) >> e) & 1 == 1) <==> ((a >> e) & 1 == 1) || ((b >> e) & 1
                == 1))) by (bit_vector);
        }
    }
    r
}

/// The members of `a` that are not members of `b`.
pub fn minus(a: u16, b: u16) -> (r: u16)
    requires
        is_mask(a),
    ensures
        is_mask(r),
        forall|e: u16| e < 16 ==> (member(r, e) <==> member(a, e) && !member(b, e)),
{
    let r: u16 = a ^ (a & b);
    proof {
        assert(a & !0x03FEu16 == 0 ==> (a ^ (a & b)) & !0x03FEu16 == 0) by (bit_vector);
        assert forall|e: u16| e < 16 implies (member(r, e) <==> member(a, e) && !member(b, e)) by {
            assert(e < 16 ==> ((((a ^ (a & b)) >> e) & 1 == 1) <==> ((a >> e) & 1 == 1) && !((b
                >> e) & 1 == 1))) by (bit_vector);
        }
    }
    r
}

/// Number of members of `mask`.
pub fn size(mask: u16) -> (n: u16)
    ensures
        n == count(mask),
        n <= 9,
{
    let mut n: u16 = 0;
    let mut d: u16 = 0;
    while d < 9
        invariant
            d <= 9,
            n <= d,
            n == count_upto(mask, d),
        decreases 9 - d,
    {
        d = d + 1;
        if (mask >> d) & 1 == 1 {
            n = n + 1;
        }
    }
    n
}

/// The least member of a non-empty set.
pub fn lowest(mask: u16) -> (d: u16)
    requires
        is_mask(mask),
        mask != 0,
    ensures
        1 <= d <= 9,
        member(mask, d),
        forall|e: u16| e < d ==> !member(mask, e),
{
    let t: u32 = mask.trailing_zeros();
    proof {
        axiom_u16_trailing_zeros(mask);
        let s: u16 = t as u16;
        assert((mask >> s) & 1 == 1);
        assert(mask & !0x03FEu16 == 0 && s < 16 && (mask >> s) & 1 == 1 ==> 1 <= s <= 9)
            by (bit_vector);
    }
    t as u16
}

} // verus!
