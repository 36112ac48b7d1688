//! A total order on IEEE-754 double bit patterns.
//!
//! A finite double is a sign bit followed by a 63-bit magnitude, and two
//! non-NaN doubles compare as the signed magnitudes of their bit patterns do
//! (with +0 and -0 equal). `order_key` maps a bit pattern to an unsigned key
//! that orders exactly as the signed magnitude, so that sorted axes of a
//! table can be searched with integers.
use vstd::prelude::*;

verus! {

/// The weight of the sign bit of a 64-bit pattern.
pub open spec fn sign_weight() -> int {
    0x8000_0000_0000_0000
}

/// The signed magnitude that a 64-bit sign-magnitude pattern stands for.
pub open spec fn signed_magnitude(bits: u64) -> int {
    if bits < sign_weight() {
        bits as int
    } else {
        -(bits - sign_weight())
    }
}

/// The order key of a bit pattern: its signed magnitude shifted by the
/// weight of the sign bit, which is never negative and fits in 64 bits.
pub open spec fn key_of(bits: u64) -> int {
    sign_weight() + signed_magnitude(bits)
}

/// Maps a sign-magnitude bit pattern to its order key.
pub fn order_key(bits: u64) -> (key: u64)
    ensures
        key as int == key_of(bits),
{
    if bits < 0x8000_0000_0000_0000u64 {
        bits + 0x8000_0000_0000_0000u64
    } else {
        0x8000_0000_0000_0000u64 - (bits - 0x8000_0000_0000_0000u64)
    }
}

/// Keys order as the signed magnitudes do: one is below another exactly when
/// its value is, and two keys are equal exactly when the values are (so the
/// two patterns of zero share one key).
pub proof fn order_key_is_monotone(a: u64, b: u64)
    ensures
        (key_of(a) < key_of(b)) <==> (signed_magnitude(a) < signed_magnitude(b)),
        (key_of(a) == key_of(b)) <==> (signed_magnitude(a) == signed_magnitude(b)),
        1 <= key_of(a) <= u64::MAX,
{
}

} // verus!
