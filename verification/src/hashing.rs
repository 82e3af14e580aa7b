//! The hash that spreads values over the buckets of the table.
//!
//! It is a polynomial hash of the canonical key modulo the Mersenne prime
//! `2^61 - 1`: a function of the value alone, the same in every run.

use vstd::prelude::*;
use crate::value::{canonical_key, key_ints, ComplexParts, ComplexValue};

verus! {

/// The modulus of the hash, `2^61 - 1`.
pub const HASH_MODULUS: u64 = 2305843009213693951;

/// The multiplier of the hash.
pub const HASH_MULTIPLIER: u64 = 1000003;

/// One step of the hash: the state `h` after taking in one part of the key.
pub open spec fn mix(h: int, part: int) -> int {
    (h * HASH_MULTIPLIER + (part - i64::MIN)) % (HASH_MODULUS as int)
}

/// The hash of the four parts of one component, continued from the state `h`.
pub open spec fn mix_component(h: int, c: (int, int, int, int)) -> int {
    mix(mix(mix(mix(h, c.0), c.1), c.2), c.3)
}

/// The hash of a key.
#[verifier::opaque]
pub open spec fn key_hash(key: ((int, int, int, int), (int, int, int, int))) -> int {
    mix_component(mix_component(0, key.0), key.1)
}

/// The bucket that a value falls into, in a table of `buckets` buckets.
pub open spec fn bucket_of(x: ComplexParts, buckets: int) -> int {
    key_hash(canonical_key(x)) % buckets
}

/// The buckets of the values `0`, `1` and `1/√2` in a table of eight buckets.
pub proof fn lemma_first_buckets()
    ensures
        bucket_of(ComplexParts::zero(), 8) == 0,
        bucket_of(ComplexParts::one(), 8) == 3,
        bucket_of(ComplexParts::inv_sqrt2(), 8) == 5,
{
    reveal(key_hash);
    assert(mix(0, 0) == 4);
    assert(mix(4, 1) == 4000017);
    assert(mix(4000017, 0) == 4000029000055);
    assert(mix(4000029000055, 0) == 1694197990928306218);
    assert(mix(1694197990928306218, 0) == 1063403581868279065);
    assert(mix(1063403581868279065, 1) == 398932862507208971);
    assert(mix(398932862507208971, 0) == 160281735302164407);
    assert(mix(160281735302164407, 0) == 762733917233265264);
    assert(key_hash(canonical_key(ComplexParts::zero())) == 762733917233265264);
    assert(mix(0, 1) == 5);
    assert(mix(5, 1) == 5000020);
    assert(mix(5000020, 0) == 5000035000064);
    assert(mix(5000035000064, 0) == 388363981741612294);
    assert(mix(388363981741612294, 0) == 1232163731901445760);
    assert(mix(1232163731901445760, 1) == 1017088147468823268);
    assert(mix(1017088147468823268, 0) == 2294113178982235316);
    assert(mix(2294113178982235316, 0) == 2263809929945446787);
    assert(key_hash(canonical_key(ComplexParts::one())) == 2263809929945446787);
    assert(mix(4, 2) == 4000018);
    assert(mix(4000018, 1) == 4000030000059);
    assert(mix(4000030000059, 2) == 1694198990935306232);
    assert(mix(1694198990935306232, 0) == 2063413581903279107);
    assert(mix(2063413581903279107, 1) == 1567704012579375711);
    assert(mix(1567704012579375711, 0) == 641372161137251502);
    assert(mix(641372161137251502, 0) == 1546397936727589909);
    assert(key_hash(canonical_key(ComplexParts::inv_sqrt2())) == 1546397936727589909);
}

fn mix_step(h: u64, part: i64) -> (r: u64)
    requires
        h < HASH_MODULUS,
    ensures
        r == mix(h as int, part as int),
        r < HASH_MODULUS,
{
    let shifted: u128 = (part as i128 - i64::MIN as i128) as u128;
    assert(h * HASH_MULTIPLIER <= 0x2000_0000_0000_0000 * 1000003) by (nonlinear_arith)
        requires
            h < 0x2000_0000_0000_0000,
            HASH_MULTIPLIER == 1000003,
    ;
    let wide: u128 = h as u128 * HASH_MULTIPLIER as u128 + shifted;
    (wide % HASH_MODULUS as u128) as u64
}

fn mix_four(h: u64, c: (i64, i64, i64, i64)) -> (r: u64)
    requires
        h < HASH_MODULUS,
    ensures
        r == mix_component(h as int, (c.0 as int, c.1 as int, c.2 as int, c.3 as int)),
        r < HASH_MODULUS,
{
    mix_step(mix_step(mix_step(mix_step(h, c.0), c.1), c.2), c.3)
}

/// Hashes a canonical key.
pub fn hash_key(key: ((i64, i64, i64, i64), (i64, i64, i64, i64))) -> (h: u64)
    ensures
        h == key_hash(key_ints(key)),
        h < HASH_MODULUS,
{
    reveal(key_hash);
    mix_four(mix_four(0, key.0), key.1)
}

/// The bucket that `value` falls into, in a table of `buckets` buckets.
pub fn bucket_index(value: &ComplexValue, buckets: usize) -> (b: usize)
    requires
        buckets > 0,
    ensures
        b == bucket_of(value@, buckets as int),
        b < buckets,
{
    let h = hash_key(value.to_canonical_key());
    (h % buckets as u64) as usize
}

} // verus!
