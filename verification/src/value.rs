//! Exact complex numbers whose real and imaginary parts are quadratic surds.

use vstd::prelude::*;
use crate::arithmetic::{
    can_add,
    can_multiply,
    checked_difference,
    checked_product,
    checked_sum,
    is_approximation,
    is_difference,
    is_product,
    is_sum,
    rational_approximation,
    surd_difference,
    surd_product,
    surd_rational,
    surd_sum,
};
use crate::error::Error;
use crate::identities::{
    law_difference_with_zero,
    law_product_with_one,
    law_product_with_zero,
    law_sum_with_zero,
};
use crate::surd::{
    lemma_integer_surd,
    lemma_integer_wf,
    lemma_surd_view_injective,
    QuadraticSurd,
    SurdParts,
};

verus! {

/// The mathematical content of a complex value: the parts of its two surds.
pub struct ComplexParts {
    pub re: SurdParts,
    pub im: SurdParts,
}

impl ComplexParts {
    /// Both components are canonical.
    pub open spec fn wf(self) -> bool {
        self.re.wf() && self.im.wf()
    }

    /// The parts of the complex number `re + im·i` with integer components.
    pub open spec fn integers(re: int, im: int) -> ComplexParts {
        ComplexParts { re: SurdParts::integer(re), im: SurdParts::integer(im) }
    }

    /// The parts of `0`.
    pub open spec fn zero() -> ComplexParts {
        ComplexParts::integers(0, 0)
    }

    /// The parts of `1`.
    pub open spec fn one() -> ComplexParts {
        ComplexParts::integers(1, 0)
    }

    /// The parts of `1/√2`.
    pub open spec fn inv_sqrt2() -> ComplexParts {
        ComplexParts { re: SurdParts::inv_sqrt2(), im: SurdParts::integer(0) }
    }
}

/// The key of a value: for the real part and then for the imaginary part, the
/// numerator, the denominator, the multiplier of the root and the radicand.
pub open spec fn canonical_key(x: ComplexParts) -> ((int, int, int, int), (int, int, int, int)) {
    (
        (x.re.numer, x.re.denom, x.re.coeff, x.re.radicand),
        (x.im.numer, x.im.denom, x.im.coeff, x.im.radicand),
    )
}

/// The componentwise sum of two values, where it can be stored.
pub open spec fn complex_sum(x: ComplexParts, y: ComplexParts) -> Option<ComplexParts> {
    match (checked_sum(x.re, y.re), checked_sum(x.im, y.im)) {
        (Some(re), Some(im)) => Some(ComplexParts { re, im }),
        _ => None,
    }
}

/// The complex product `(x.re·y.re − x.im·y.im) + (x.re·y.im + x.im·y.re)·i`,
/// where each of the four surd products, their difference and their sum can be
/// stored.
pub open spec fn complex_product(x: ComplexParts, y: ComplexParts) -> Option<ComplexParts> {
    match (
        checked_product(x.re, y.re),
        checked_product(x.im, y.im),
        checked_product(x.re, y.im),
        checked_product(x.im, y.re),
    ) {
        (Some(rr), Some(ii), Some(ri), Some(ir)) => match (
            checked_difference(rr, ii),
            checked_sum(ri, ir),
        ) {
            (Some(re), Some(im)) => Some(ComplexParts { re, im }),
            _ => None,
        },
        _ => None,
    }
}

/// `x·y + z`, where the product and then the sum can be stored.
pub open spec fn complex_product_sum(x: ComplexParts, y: ComplexParts, z: ComplexParts) -> Option<
    ComplexParts,
> {
    match complex_product(x, y) {
        Some(p) => complex_sum(p, z),
        None => None,
    }
}

/// The sums of the components of `x` and `y` that `num_irrational` gives are
/// the reduced forms of the exact sums, wherever the components can be added.
pub open spec fn sums_are_exact(x: ComplexParts, y: ComplexParts) -> bool {
    &&& can_add(x.re, y.re) ==> is_sum(x.re, y.re, surd_sum(x.re, y.re))
    &&& can_add(x.im, y.im) ==> is_sum(x.im, y.im, surd_sum(x.im, y.im))
}

/// The four surd products of the complex product of `x` and `y` are the
/// reduced forms of the exact products, wherever the components can be
/// multiplied; and where all four are stored, so are their difference and
/// their sum, wherever those have a single root.
pub open spec fn products_are_exact(x: ComplexParts, y: ComplexParts) -> bool {
    let rr = surd_product(x.re, y.re);
    let ii = surd_product(x.im, y.im);
    let ri = surd_product(x.re, y.im);
    let ir = surd_product(x.im, y.re);
    let stored = checked_product(x.re, y.re) is Some && checked_product(x.im, y.im) is Some
        && checked_product(x.re, y.im) is Some && checked_product(x.im, y.re) is Some;
    &&& can_multiply(x.re, y.re) ==> is_product(x.re, y.re, rr)
    &&& can_multiply(x.im, y.im) ==> is_product(x.im, y.im, ii)
    &&& can_multiply(x.re, y.im) ==> is_product(x.re, y.im, ri)
    &&& can_multiply(x.im, y.re) ==> is_product(x.im, y.re, ir)
    &&& stored && can_add(rr, ii) ==> is_difference(rr, ii, surd_difference(rr, ii))
    &&& stored && can_add(ri, ir) ==> is_sum(ri, ir, surd_sum(ri, ir))
}

/// Adding zero gives the value back, on either side.
pub proof fn law_add_zero(x: ComplexParts)
    requires
        x.wf(),
        sums_are_exact(x, ComplexParts::zero()),
        sums_are_exact(ComplexParts::zero(), x),
    ensures
        complex_sum(x, ComplexParts::zero()) == Some(x),
        complex_sum(ComplexParts::zero(), x) == Some(x),
{
    let zero = SurdParts::integer(0);
    law_sum_with_zero(x.re, surd_sum(x.re, zero));
    law_sum_with_zero(x.im, surd_sum(x.im, zero));
    law_sum_with_zero(x.re, surd_sum(zero, x.re));
    law_sum_with_zero(x.im, surd_sum(zero, x.im));
}

/// Multiplying by one gives the value back, on either side.
pub proof fn law_multiply_by_one(x: ComplexParts)
    requires
        x.wf(),
        products_are_exact(x, ComplexParts::one()),
        products_are_exact(ComplexParts::one(), x),
    ensures
        complex_product(x, ComplexParts::one()) == Some(x),
        complex_product(ComplexParts::one(), x) == Some(x),
{
    let zero = SurdParts::integer(0);
    let one = SurdParts::integer(1);
    lemma_integer_wf(0);
    lemma_integer_wf(1);
    law_product_with_one(x.re, surd_product(x.re, one));
    law_product_with_zero(x.im, surd_product(x.im, zero));
    law_product_with_zero(x.re, surd_product(x.re, zero));
    law_product_with_one(x.im, surd_product(x.im, one));
    law_difference_with_zero(x.re, surd_difference(x.re, zero));
    law_sum_with_zero(x.im, surd_sum(zero, x.im));
    law_product_with_one(x.re, surd_product(one, x.re));
    law_product_with_zero(x.im, surd_product(zero, x.im));
    law_product_with_one(x.im, surd_product(one, x.im));
    law_product_with_zero(x.re, surd_product(zero, x.re));
    law_sum_with_zero(x.im, surd_sum(x.im, zero));
}

/// Multiplying by zero gives zero, on either side.
pub proof fn law_multiply_by_zero(x: ComplexParts)
    requires
        x.wf(),
        products_are_exact(x, ComplexParts::zero()),
        products_are_exact(ComplexParts::zero(), x),
    ensures
        complex_product(x, ComplexParts::zero()) == Some(ComplexParts::zero()),
        complex_product(ComplexParts::zero(), x) == Some(ComplexParts::zero()),
{
    let zero = SurdParts::integer(0);
    lemma_integer_wf(0);
    law_product_with_zero(x.re, surd_product(x.re, zero));
    law_product_with_zero(x.im, surd_product(x.im, zero));
    law_product_with_zero(x.re, surd_product(zero, x.re));
    law_product_with_zero(x.im, surd_product(zero, x.im));
    law_difference_with_zero(zero, surd_difference(zero, zero));
    law_sum_with_zero(zero, surd_sum(zero, zero));
}

/// An exact complex number: a real and an imaginary quadratic surd.
#[derive(Clone, Copy, Debug, PartialEq, Eq, Structural, Hash)]
pub struct ComplexValue {
    r: QuadraticSurd,
    i: QuadraticSurd,
}

impl View for ComplexValue {
    type V = ComplexParts;

    closed spec fn view(&self) -> ComplexParts {
        ComplexParts { re: self.r@, im: self.i@ }
    }
}

/// Two values with the same parts are the same value.
pub proof fn lemma_value_view_injective(a: ComplexValue, b: ComplexValue)
    ensures
        a@ == b@ <==> a == b,
{
    lemma_surd_view_injective(a.r, b.r);
    lemma_surd_view_injective(a.i, b.i);
}

impl ComplexValue {
    /// The value `re + im·i` with integer components.
    pub closed spec fn gaussian(re: i64, im: i64) -> ComplexValue {
        ComplexValue { r: QuadraticSurd::integer(re), i: QuadraticSurd::integer(im) }
    }
}

/// The parts of a value with integer components.
pub proof fn lemma_gaussian(re: i64, im: i64)
    ensures
        ComplexValue::gaussian(re, im)@ == ComplexParts::integers(re as int, im as int),
        ComplexValue::gaussian(re, im).wf(),
{
    lemma_integer_surd(re);
    lemma_integer_surd(im);
    lemma_integer_wf(re as int);
    lemma_integer_wf(im as int);
}

impl From<i64> for ComplexValue {
    /// The real integer `n`.
    fn from(n: i64) -> (v: ComplexValue) {
        let v = ComplexValue::from_integer(n);
        proof {
            lemma_gaussian(n, 0);
            lemma_value_view_injective(v, ComplexValue::gaussian(n, 0));
        }
        v
    }
}

impl vstd::std_specs::convert::FromSpecImpl<i64> for ComplexValue {
    open spec fn obeys_from_spec() -> bool {
        true
    }

    open spec fn from_spec(n: i64) -> ComplexValue {
        ComplexValue::gaussian(n, 0)
    }
}

impl From<(i64, i64)> for ComplexValue {
    /// The complex integer `pair.0 + pair.1·i`.
    fn from(pair: (i64, i64)) -> (v: ComplexValue) {
        let v = ComplexValue::from_pair(pair);
        proof {
            lemma_gaussian(pair.0, pair.1);
            lemma_value_view_injective(v, ComplexValue::gaussian(pair.0, pair.1));
        }
        v
    }
}

impl vstd::std_specs::convert::FromSpecImpl<(i64, i64)> for ComplexValue {
    open spec fn obeys_from_spec() -> bool {
        true
    }

    open spec fn from_spec(pair: (i64, i64)) -> ComplexValue {
        ComplexValue::gaussian(pair.0, pair.1)
    }
}

/// What an arithmetic operation hands back for an optional outcome: the value,
/// or `UnrepresentableRadicand` where there is none.
pub open spec fn arithmetic_result(r: Result<ComplexValue, Error>, outcome: Option<ComplexParts>) -> bool {
    match r {
        Ok(v) => v.wf() && outcome == Some(v@),
        Err(e) => e == Error::UnrepresentableRadicand && outcome is None,
    }
}

impl ComplexValue {
    /// Both components are canonical.
    pub open spec fn wf(&self) -> bool {
        self@.wf()
    }

    /// The value with the given real and imaginary part.
    pub fn new(r: QuadraticSurd, i: QuadraticSurd) -> (v: ComplexValue)
        ensures
            v@ == (ComplexParts { re: r@, im: i@ }),
    {
        ComplexValue { r, i }
    }

    /// Whether both components are in canonical form.
    pub fn is_canonical(&self) -> (b: bool)
        ensures
            b == self.wf(),
    {
        self.r.is_canonical() && self.i.is_canonical()
    }

    /// The real part.
    pub fn real_part(&self) -> (s: QuadraticSurd)
        ensures
            s@ == self@.re,
    {
        self.r
    }

    /// The imaginary part.
    pub fn imaginary_part(&self) -> (s: QuadraticSurd)
        ensures
            s@ == self@.im,
    {
        self.i
    }

    /// The additive identity.
    pub fn zero() -> (v: ComplexValue)
        ensures
            v.wf(),
            v@ == ComplexParts::zero(),
    {
        ComplexValue { r: QuadraticSurd::zero(), i: QuadraticSurd::zero() }
    }

    /// The multiplicative identity.
    pub fn one() -> (v: ComplexValue)
        ensures
            v.wf(),
            v@ == ComplexParts::one(),
    {
        ComplexValue { r: QuadraticSurd::one(), i: QuadraticSurd::zero() }
    }

    /// The amplitude `1/√2`.
    pub fn inv_sqrt2() -> (v: ComplexValue)
        ensures
            v.wf(),
            v@ == ComplexParts::inv_sqrt2(),
    {
        ComplexValue { r: QuadraticSurd::inv_sqrt2(), i: QuadraticSurd::zero() }
    }

    /// The real integer `n`.
    pub fn from_integer(n: i64) -> (v: ComplexValue)
        ensures
            v.wf(),
            v@ == ComplexParts::integers(n as int, 0),
    {
        ComplexValue { r: QuadraticSurd::from_integer(n), i: QuadraticSurd::zero() }
    }

    /// The complex integer `pair.0 + pair.1·i`.
    pub fn from_pair(pair: (i64, i64)) -> (v: ComplexValue)
        ensures
            v.wf(),
            v@ == ComplexParts::integers(pair.0 as int, pair.1 as int),
    {
        ComplexValue { r: QuadraticSurd::from_integer(pair.0), i: QuadraticSurd::from_integer(pair.1) }
    }

    /// Exact equality: both components have the same parts.
    pub fn equals(&self, other: &ComplexValue) -> (b: bool)
        ensures
            b == (self@ == other@),
            b == (*self == *other),
    {
        proof {
            lemma_value_view_injective(*self, *other);
        }
        self.r.equals(&other.r) && self.i.equals(&other.i)
    }

    /// Whether the value is exactly `0`.
    pub fn is_zero(&self) -> (b: bool)
        ensures
            b == (self@ == ComplexParts::zero()),
    {
        self.equals(&ComplexValue::zero())
    }

    /// Whether the value is exactly `1`.
    pub fn is_one(&self) -> (b: bool)
        ensures
            b == (self@ == ComplexParts::one()),
    {
        self.equals(&ComplexValue::one())
    }

    /// The key that hashing starts from. Equal values have equal keys, whatever
    /// arithmetic produced them, and different values have different keys.
    pub fn to_canonical_key(&self) -> (key: ((i64, i64, i64, i64), (i64, i64, i64, i64)))
        ensures
            key_ints(key) == canonical_key(self@),
    {
        (
            (self.r.numer(), self.r.denom(), self.r.coeff(), self.r.radicand()),
            (self.i.numer(), self.i.denom(), self.i.coeff(), self.i.radicand()),
        )
    }

    /// The componentwise sum, or `UnrepresentableRadicand` where a component of
    /// the sum has two different roots or a part that is no 64-bit integer.
    /// Each component of the sum is the reduced form of the exact sum.
    pub fn add(&self, other: &ComplexValue) -> (r: Result<ComplexValue, Error>)
        requires
            self.wf(),
            other.wf(),
        ensures
            arithmetic_result(r, complex_sum(self@, other@)),
            sums_are_exact(self@, other@),
    {
        let re = self.r.checked_add(&other.r);
        let im = self.i.checked_add(&other.i);
        match (re, im) {
            (Some(r), Some(i)) => Ok(ComplexValue { r, i }),
            _ => Err(Error::UnrepresentableRadicand),
        }
    }

    /// The complex product, or `UnrepresentableRadicand` where one of its surd
    /// products, their difference or their sum has two different roots or a
    /// part that is no 64-bit integer. Each of them is the reduced form of the
    /// exact product, difference or sum.
    pub fn multiply(&self, other: &ComplexValue) -> (r: Result<ComplexValue, Error>)
        requires
            self.wf(),
            other.wf(),
        ensures
            arithmetic_result(r, complex_product(self@, other@)),
            products_are_exact(self@, other@),
    {
        let rr = self.r.checked_mul(&other.r);
        let ii = self.i.checked_mul(&other.i);
        let ri = self.r.checked_mul(&other.i);
        let ir = self.i.checked_mul(&other.r);
        match (rr, ii, ri, ir) {
            (Some(rr), Some(ii), Some(ri), Some(ir)) => {
                let re = rr.checked_sub(&ii);
                let im = ri.checked_add(&ir);
                match (re, im) {
                    (Some(r), Some(i)) => Ok(ComplexValue { r, i }),
                    _ => Err(Error::UnrepresentableRadicand),
                }
            },
            _ => Err(Error::UnrepresentableRadicand),
        }
    }

    /// The fused product and sum `self·a + b`, or `UnrepresentableRadicand` where
    /// the product or the sum cannot be stored.
    pub fn mul_add(&self, a: &ComplexValue, b: &ComplexValue) -> (r: Result<ComplexValue, Error>)
        requires
            self.wf(),
            a.wf(),
            b.wf(),
        ensures
            arithmetic_result(r, complex_product_sum(self@, a@, b@)),
            products_are_exact(self@, a@),
            complex_product(self@, a@) matches Some(p) ==> sums_are_exact(p, b@),
    {
        match self.multiply(a) {
            Ok(p) => p.add(b),
            Err(e) => Err(e),
        }
    }

    /// The numerator and denominator of the rational approximation that
    /// `num_irrational` gives of the real part, if both are 64-bit integers. For
    /// a real part without a root this is the real part itself, in lowest terms.
    /// For one with a root, the whole part of the root of `coeff²·radicand` is
    /// added to the numerator, whatever the sign of `coeff`: with a negative
    /// multiplier the result is not a number near the real part.
    pub fn get_lowest_fraction(&self) -> (t: Option<(i64, i64)>)
        requires
            self.wf(),
        ensures
            t == rational_approximation(self@.re),
            is_approximation(self@.re, surd_rational(self@.re)),
            self@.re.is_rational() ==> t == Some((self@.re.numer as i64, self@.re.denom as i64)),
    {
        self.r.to_rational()
    }
}

/// The integers held by a key.
pub open spec fn key_ints(key: ((i64, i64, i64, i64), (i64, i64, i64, i64))) -> (
    (int, int, int, int),
    (int, int, int, int),
) {
    (
        (key.0.0 as int, key.0.1 as int, key.0.2 as int, key.0.3 as int),
        (key.1.0 as int, key.1.1 as int, key.1.2 as int, key.1.3 as int),
    )
}

/// Values are equal exactly when their keys are: the key forgets nothing.
pub proof fn lemma_canonical_key_injective(x: ComplexParts, y: ComplexParts)
    ensures
        canonical_key(x) == canonical_key(y) <==> x == y,
{
}

} // verus!
