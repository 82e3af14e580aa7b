//! Integers of any size, for the comparisons that squares of 128-bit numbers
//! take part in. The arithmetic is that of `num::BigInt`; a number is kept as
//! the bytes of its two's complement, least significant byte first.

use vstd::prelude::*;

verus! {

/// The number that bytes denote when read without a sign, least significant
/// byte first.
pub open spec fn unsigned_value(s: Seq<u8>) -> int
    decreases s.len(),
{
    if s.len() == 0 {
        0
    } else {
        s[0] as int + 256 * unsigned_value(s.drop_first())
    }
}

/// `256` to the power of `n`.
pub open spec fn power_of_256(n: nat) -> int
    decreases n,
{
    if n == 0 {
        1
    } else {
        256 * power_of_256((n - 1) as nat)
    }
}

/// The number that bytes denote in two's complement, least significant byte
/// first: the top bit of the last byte is the sign.
pub open spec fn signed_value(s: Seq<u8>) -> int {
    if s.len() > 0 && s.last() >= 128 {
        unsigned_value(s) - power_of_256(s.len())
    } else {
        unsigned_value(s)
    }
}

/// An integer of any size.
pub struct Wide {
    bytes: Vec<u8>,
}

impl View for Wide {
    type V = int;

    closed spec fn view(&self) -> int {
        signed_value(self.bytes@)
    }
}

/// The integer `n`, made with `num::BigInt::from` and written out with
/// `BigInt::to_signed_bytes_le`, which gives the two's complement of the number,
/// least significant byte first.
#[verifier::external_body]
pub(crate) fn wide_from(n: i64) -> (w: Wide)
    ensures
        w@ == n,
{
    Wide { bytes: num::BigInt::from(n).to_signed_bytes_le() }
}

/// The sum of two integers: both are read with `BigInt::from_signed_bytes_le`,
/// added with the `Add` of `num::BigInt`, which does not overflow, and the sum
/// is written out with `BigInt::to_signed_bytes_le`.
#[verifier::external_body]
pub(crate) fn wide_add(a: &Wide, b: &Wide) -> (w: Wide)
    ensures
        w@ == a@ + b@,
{
    let x = num::BigInt::from_signed_bytes_le(&a.bytes);
    let y = num::BigInt::from_signed_bytes_le(&b.bytes);
    Wide { bytes: (x + y).to_signed_bytes_le() }
}

/// The difference of two integers, with the `Sub` of `num::BigInt`; read and
/// written as in `wide_add`.
#[verifier::external_body]
pub(crate) fn wide_sub(a: &Wide, b: &Wide) -> (w: Wide)
    ensures
        w@ == a@ - b@,
{
    let x = num::BigInt::from_signed_bytes_le(&a.bytes);
    let y = num::BigInt::from_signed_bytes_le(&b.bytes);
    Wide { bytes: (x - y).to_signed_bytes_le() }
}

/// The product of two integers, with the `Mul` of `num::BigInt`; read and
/// written as in `wide_add`.
#[verifier::external_body]
pub(crate) fn wide_mul(a: &Wide, b: &Wide) -> (w: Wide)
    ensures
        w@ == a@ * b@,
{
    let x = num::BigInt::from_signed_bytes_le(&a.bytes);
    let y = num::BigInt::from_signed_bytes_le(&b.bytes);
    Wide { bytes: (x * y).to_signed_bytes_le() }
}

/// Whether the first integer is less than the second, by the `PartialOrd` of
/// `num::BigInt`, which is the order of the integers; both are read with
/// `BigInt::from_signed_bytes_le`.
#[verifier::external_body]
pub(crate) fn wide_less(a: &Wide, b: &Wide) -> (r: bool)
    ensures
        r == (a@ < b@),
{
    num::BigInt::from_signed_bytes_le(&a.bytes) < num::BigInt::from_signed_bytes_le(&b.bytes)
}

} // verus!
