//! Order keys for IEEE-754 single-precision bit patterns.
//!
//! Vectors, distances and scores are carried as `u32` bit patterns. The key
//! of a pattern is an unsigned integer whose order is the IEEE-754 total
//! order of the values it encodes: negative values (sign bit set) rank below
//! non-negative ones, larger magnitudes rank lower among negatives and higher
//! among non-negatives. NaNs get a fixed place at either end, so comparing
//! keys never fails.
use vstd::prelude::*;

verus! {

/// The sign bit of a pattern.
pub open spec fn negative(bits: u32) -> bool {
    bits & 0x8000_0000u32 != 0
}

/// The magnitude bits of a pattern (all but the sign).
pub open spec fn magnitude(bits: u32) -> u32 {
    bits & 0x7fff_ffffu32
}

/// The key of a pattern.
pub open spec fn key_of(bits: u32) -> u32 {
    if negative(bits) {
        !bits
    } else {
        bits | 0x8000_0000u32
    }
}

/// The order key of a single-precision bit pattern.
pub fn order_key(bits: u32) -> (k: u32)
    ensures
        k == key_of(bits),
        negative(bits) ==> k < 0x8000_0000u32 && k == 0x7fff_ffffu32 - magnitude(bits),
        !negative(bits) ==> k >= 0x8000_0000u32 && k == 0x8000_0000u32 + magnitude(bits),
{
    proof {
        assert(bits & 0x8000_0000u32 != 0 ==> !bits < 0x8000_0000u32 && !bits == 0x7fff_ffffu32 - (bits
            & 0x7fff_ffffu32)) by (bit_vector);
        assert(bits & 0x8000_0000u32 == 0 ==> (bits | 0x8000_0000u32) >= 0x8000_0000u32 && (bits
            | 0x8000_0000u32) == 0x8000_0000u32 + (bits & 0x7fff_ffffu32)) by (bit_vector);
    }
    if bits & 0x8000_0000u32 != 0 {
        !bits
    } else {
        bits | 0x8000_0000u32
    }
}

/// The bit pattern whose order key is `key`.
pub fn key_bits(key: u32) -> (bits: u32)
    ensures
        key_of(bits) == key,
{
    proof {
        assert(key & 0x8000_0000u32 != 0 ==> (key & 0x7fff_ffffu32) & 0x8000_0000u32 == 0 && ((key
            & 0x7fff_ffffu32) | 0x8000_0000u32) == key) by (bit_vector);
        assert(key & 0x8000_0000u32 == 0 ==> !key & 0x8000_0000u32 != 0 && !!key == key) by (bit_vector);
    }
    if key & 0x8000_0000u32 != 0 {
        key & 0x7fff_ffffu32
    } else {
        !key
    }
}

/// Distinct patterns have distinct keys, so `key_bits` inverts `order_key`.
pub proof fn lemma_key_injective(a: u32, b: u32)
    ensures
        key_of(a) == key_of(b) ==> a == b,
{
    assert((if a & 0x8000_0000u32 != 0 { !a } else { a | 0x8000_0000u32 }) == (if b & 0x8000_0000u32
        != 0 { !b } else { b | 0x8000_0000u32 }) ==> a == b) by (bit_vector);
}

/// Keys follow the sign-magnitude order: any negative pattern ranks below
/// any non-negative one; among non-negatives a larger magnitude ranks
/// higher, among negatives lower.
pub proof fn lemma_key_order(a: u32, b: u32)
    ensures
        negative(a) && !negative(b) ==> key_of(a) < key_of(b),
        !negative(a) && !negative(b) ==> (key_of(a) < key_of(b) <==> magnitude(a) < magnitude(b)),
        negative(a) && negative(b) ==> (key_of(a) < key_of(b) <==> magnitude(a) > magnitude(b)),
{
    assert(a & 0x8000_0000u32 != 0 ==> !a == 0x7fff_ffffu32 - (a & 0x7fff_ffffu32)) by (bit_vector);
    assert(b & 0x8000_0000u32 != 0 ==> !b == 0x7fff_ffffu32 - (b & 0x7fff_ffffu32)) by (bit_vector);
    assert(a & 0x8000_0000u32 == 0 ==> (a | 0x8000_0000u32) == 0x8000_0000u32 + (a & 0x7fff_ffffu32)) by (bit_vector);
    assert(b & 0x8000_0000u32 == 0 ==> (b | 0x8000_0000u32) == 0x8000_0000u32 + (b & 0x7fff_ffffu32)) by (bit_vector);
    assert(a & 0x7fff_ffffu32 <= 0x7fff_ffffu32) by (bit_vector);
    assert(b & 0x7fff_ffffu32 <= 0x7fff_ffffu32) by (bit_vector);
}

} // verus!
