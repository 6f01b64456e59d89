use vstd::prelude::*;

verus! {

/// The sign bit of an IEEE-754 double.
pub const SIGN_BIT: u64 = 0x8000_0000_0000_0000;

pub open spec fn spec_key_from_bits(bits: u64) -> u64 {
    if bits & SIGN_BIT != 0 {
        !bits
    } else {
        bits | SIGN_BIT
    }
}

pub open spec fn spec_bits_from_key(key: u64) -> u64 {
    if key & SIGN_BIT != 0 {
        key & !SIGN_BIT
    } else {
        !key
    }
}

/// The order key of a double given by its bit pattern (`f64::to_bits`):
/// negative values have all bits flipped, others get the sign bit set, so
/// that unsigned order on keys is the order of `f64::total_cmp`.
pub fn key_from_bits(bits: u64) -> (r: u64)
    ensures
        r == spec_key_from_bits(bits),
        spec_bits_from_key(r) == bits,
{
    assert(bits & SIGN_BIT != 0 ==> (!bits) & SIGN_BIT == 0 && !(!bits) == bits)
        by (bit_vector);
    assert(bits & SIGN_BIT == 0 ==> (bits | SIGN_BIT) & SIGN_BIT != 0 && (bits | SIGN_BIT)
        & !SIGN_BIT == bits) by (bit_vector);
    if bits & SIGN_BIT != 0 {
        !bits
    } else {
        bits | SIGN_BIT
    }
}

/// The bit pattern (for `f64::from_bits`) of the double with order key `key`.
pub fn bits_from_key(key: u64) -> (r: u64)
    ensures
        r == spec_bits_from_key(key),
        spec_key_from_bits(r) == key,
{
    assert(key & SIGN_BIT != 0 ==> (key & !SIGN_BIT) & SIGN_BIT == 0 && (key & !SIGN_BIT)
        | SIGN_BIT == key) by (bit_vector);
    assert(key & SIGN_BIT == 0 ==> (!key) & SIGN_BIT != 0 && !(!key) == key) by (bit_vector);
    if key & SIGN_BIT != 0 {
        key & !SIGN_BIT
    } else {
        !key
    }
}

/// Among non-negative doubles, and among negative ones, keys keep or reverse
/// the order of bit patterns as `f64::total_cmp` does; every negative double
/// comes before every non-negative one.
pub proof fn lemma_key_order(a: u64, b: u64)
    ensures
        a & SIGN_BIT == 0 && b & SIGN_BIT == 0 ==> (spec_key_from_bits(a) <= spec_key_from_bits(b)
            <==> a <= b),
        a & SIGN_BIT != 0 && b & SIGN_BIT != 0 ==> (spec_key_from_bits(a) <= spec_key_from_bits(b)
            <==> a >= b),
        a & SIGN_BIT != 0 && b & SIGN_BIT == 0 ==> spec_key_from_bits(a) < spec_key_from_bits(b),
{
    assert(a & SIGN_BIT == 0 && b & SIGN_BIT == 0 ==> ((a | SIGN_BIT) <= (b | SIGN_BIT) <==> a
        <= b)) by (bit_vector);
    assert(a & SIGN_BIT != 0 && b & SIGN_BIT != 0 ==> (!a <= !b <==> a >= b)) by (bit_vector);
    assert(a & SIGN_BIT != 0 && b & SIGN_BIT == 0 ==> !a < (b | SIGN_BIT)) by (bit_vector);
}

} // verus!
