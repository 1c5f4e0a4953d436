//! Scalars as IEEE 754 binary32 bit patterns.
//!
//! The network's scalars are single-precision values, handled here only
//! through their bit patterns.  A pattern whose exponent field is all ones
//! encodes an infinity or a NaN; every parameter tensor must stay free of
//! such patterns.  This module also defines the order key used to pick the
//! highest-scoring class from a prediction: a bit-level transform that is
//! strictly monotone in the encoded value over non-NaN patterns, so that
//! unsigned comparison of keys agrees with comparison of the scores.

use vstd::prelude::*;

verus! {

/// Mask of the 8-bit exponent field of a binary32 pattern.
pub const EXPONENT_MASK: u32 = 0x7f80_0000;

/// Mask of the sign bit of a binary32 pattern.
pub const SIGN_MASK: u32 = 0x8000_0000;

/// The bit pattern of positive zero; both bias vectors start as all zeros.
pub const ZERO_BITS: u32 = 0;

/// A pattern encodes a finite value exactly when its exponent field is not
/// all ones.
pub open spec fn spec_is_finite(bits: u32) -> bool {
    bits & 0x7f80_0000u32 != 0x7f80_0000u32
}

/// Every element of the sequence encodes a finite value.
pub open spec fn all_finite(s: Seq<u32>) -> bool {
    forall|i: int| 0 <= i < s.len() ==> spec_is_finite(#[trigger] s[i])
}

/// The order key of a pattern: negative values (sign bit set) are mapped by
/// bitwise complement, non-negative ones by setting the sign bit.
pub open spec fn spec_order_key(bits: u32) -> u32 {
    if bits & 0x8000_0000u32 != 0u32 {
        !bits
    } else {
        bits ^ 0x8000_0000u32
    }
}

/// Decides whether one pattern encodes a finite value.
pub fn is_finite_bits(bits: u32) -> (r: bool)
    ensures
        r == spec_is_finite(bits),
{
    bits & EXPONENT_MASK != EXPONENT_MASK
}

/// Decides whether every pattern in the vector encodes a finite value.
pub fn check_all_finite(v: &Vec<u32>) -> (r: bool)
    ensures
        r == all_finite(v@),
{
    let mut i: usize = 0;
    while i < v.len()
        invariant
            i <= v@.len(),
            forall|j: int| 0 <= j < i ==> spec_is_finite(#[trigger] v@[j]),
        decreases v@.len() - i,
    {
        if !is_finite_bits(v[i]) {
            return false;
        }
        i += 1;
    }
    true
}

/// Computes the order key of a pattern.
pub fn order_key(bits: u32) -> (r: u32)
    ensures
        r == spec_order_key(bits),
{
    if bits & SIGN_MASK != 0 {
        !bits
    } else {
        bits ^ SIGN_MASK
    }
}

/// Index of the largest key; among equal maxima the last one wins, as the
/// inference caller's maximum-by-comparison search did.
pub fn argmax_keys(keys: &Vec<u32>) -> (r: usize)
    requires
        keys@.len() > 0,
    ensures
        r < keys@.len(),
        forall|j: int| 0 <= j < keys@.len() ==> keys@[j] <= keys@[r as int],
        forall|j: int| r < j < keys@.len() ==> keys@[j] < keys@[r as int],
{
    let mut best: usize = 0;
    let mut i: usize = 1;
    while i < keys.len()
        invariant
            best < i <= keys@.len(),
            forall|j: int| 0 <= j < i ==> keys@[j] <= keys@[best as int],
            forall|j: int| best < j < i ==> keys@[j] < keys@[best as int],
        decreases keys@.len() - i,
    {
        if keys[i] >= keys[best] {
            best = i;
        }
        i += 1;
    }
    best
}

} // verus!
