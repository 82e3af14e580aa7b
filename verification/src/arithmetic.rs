//! Exact arithmetic on quadratic surds.
//!
//! The sums, differences and products themselves are computed by the
//! `num_irrational` crate over the big integers of `num`, so that no step of
//! them overflows; this module decides beforehand whether the operands can be
//! combined at all, and afterwards whether the result can be stored.

use vstd::prelude::*;
use crate::surd::{
    divides,
    lowest_terms,
    QuadraticSurd,
    SurdParts,
};

verus! {

/// The radical parts of `a` and `b` combine into one: one of the two is
/// rational, or both stand over the same radicand.
pub open spec fn same_field(a: SurdParts, b: SurdParts) -> bool {
    a.is_rational() || b.is_rational() || a.radicand == b.radicand
}

/// `a + b` and `a - b` have a single radical part.
pub open spec fn can_add(a: SurdParts, b: SurdParts) -> bool {
    same_field(a, b)
}

/// `a · b` has a single radical part: the radical parts of the operands combine
/// into one, or each operand is a bare multiple of a root.
pub open spec fn can_multiply(a: SurdParts, b: SurdParts) -> bool {
    same_field(a, b) || (a.is_pure() && b.is_pure())
}

/// The radicand that two surds of one field stand over, 0 if both are rational.
pub open spec fn field_radicand(a: SurdParts, b: SurdParts) -> int {
    if a.coeff != 0 {
        a.radicand
    } else {
        b.radicand
    }
}

/// `t` is `(numer + coeff·√radicand) / denom` in reduced form: worth the same,
/// with a positive denominator, in lowest terms, and without a radicand where
/// the root has no multiplier.
pub open spec fn reduced_from(t: SurdParts, numer: int, coeff: int, denom: int, radicand: int) -> bool {
    &&& t.denom > 0
    &&& lowest_terms(t.numer, t.coeff, t.denom)
    &&& t.numer * denom == numer * t.denom
    &&& t.coeff * denom == coeff * t.denom
    &&& t.radicand == if t.coeff == 0 {
        0
    } else {
        radicand
    }
}

/// `t` is the reduced form of `a + b`, for two surds of one field.
pub open spec fn is_sum(a: SurdParts, b: SurdParts, t: SurdParts) -> bool {
    reduced_from(
        t,
        a.numer * b.denom + b.numer * a.denom,
        a.coeff * b.denom + b.coeff * a.denom,
        a.denom * b.denom,
        field_radicand(a, b),
    )
}

/// `t` is the reduced form of `a - b`, for two surds of one field.
pub open spec fn is_difference(a: SurdParts, b: SurdParts, t: SurdParts) -> bool {
    reduced_from(
        t,
        a.numer * b.denom - b.numer * a.denom,
        a.coeff * b.denom - b.coeff * a.denom,
        a.denom * b.denom,
        field_radicand(a, b),
    )
}

/// `g` is the greatest common divisor of `m` and `n`.
pub open spec fn is_gcd(g: int, m: int, n: int) -> bool {
    g > 0 && forall|k: int| k > 0 ==> ((divides(k, m) && divides(k, n)) <==> #[trigger] divides(k, g))
}

/// `t` is the reduced form of `a · b`. In one field with the radicand `r` the
/// product is `(a.numer·b.numer + a.coeff·b.coeff·r) + (a.numer·b.coeff +
/// a.coeff·b.numer)·√r` over `a.denom·b.denom`. The product of two bare
/// multiples of the roots of `m` and `n` is a multiple of the root of `m·n/g²`,
/// `g` times as large, for the greatest common divisor `g` of `m` and `n`.
pub open spec fn is_product(a: SurdParts, b: SurdParts, t: SurdParts) -> bool {
    if same_field(a, b) {
        reduced_from(
            t,
            a.numer * b.numer + a.coeff * b.coeff * field_radicand(a, b),
            a.numer * b.coeff + a.coeff * b.numer,
            a.denom * b.denom,
            field_radicand(a, b),
        )
    } else {
        exists|g: int| #[trigger]
            is_gcd(g, a.radicand, b.radicand) && reduced_from(
                t,
                0,
                a.coeff * b.coeff * g,
                a.denom * b.denom,
                (a.radicand / g) * (b.radicand / g),
            )
    }
}

/// `t` is the rational approximation of `a` that `num_irrational` gives: the
/// whole part of the root of `a.coeff²·a.radicand` is added to the numerator,
/// whatever the sign of `a.coeff`.
pub open spec fn is_approximation(a: SurdParts, t: (int, int)) -> bool {
    &&& t.1 == a.denom
    &&& t.0 >= a.numer
    &&& (t.0 - a.numer) * (t.0 - a.numer) <= a.coeff * a.coeff * a.radicand
    &&& a.coeff * a.coeff * a.radicand < (t.0 - a.numer + 1) * (t.0 - a.numer + 1)
}

/// The parts of `a + b` as `num_irrational` computes them.
pub uninterp spec fn surd_sum(a: SurdParts, b: SurdParts) -> SurdParts;

/// The parts of `a - b` as `num_irrational` computes them.
pub uninterp spec fn surd_difference(a: SurdParts, b: SurdParts) -> SurdParts;

/// The parts of `a · b` as `num_irrational` computes them.
pub uninterp spec fn surd_product(a: SurdParts, b: SurdParts) -> SurdParts;

/// The numerator and denominator of the rational approximation of `a` as
/// `num_irrational` computes it.
pub uninterp spec fn surd_rational(a: SurdParts) -> (int, int);

/// The 64-bit integer that `n` is, if it is one.
pub open spec fn narrowed(n: int) -> Option<i64> {
    if i64::MIN <= n <= i64::MAX {
        Some(n as i64)
    } else {
        None
    }
}

/// The four parts of `p`, each as a 64-bit integer if it is one.
pub open spec fn narrowed_parts(p: SurdParts) -> (Option<i64>, Option<i64>, Option<i64>, Option<i64>) {
    (narrowed(p.numer), narrowed(p.coeff), narrowed(p.denom), narrowed(p.radicand))
}

/// What the outside sum hands back: the parts of the named sum, each as a
/// 64-bit integer if it is one; and the named sum is the reduced form of the
/// sum.
pub open spec fn sum_outcome(
    a: SurdParts,
    b: SurdParts,
    t: (Option<i64>, Option<i64>, Option<i64>, Option<i64>),
) -> bool {
    t == narrowed_parts(surd_sum(a, b)) && is_sum(a, b, surd_sum(a, b))
}

/// What the outside difference hands back: the parts of the named difference, each as a
/// 64-bit integer if it is one; and the named difference is the reduced form of the
/// difference.
pub open spec fn difference_outcome(
    a: SurdParts,
    b: SurdParts,
    t: (Option<i64>, Option<i64>, Option<i64>, Option<i64>),
) -> bool {
    t == narrowed_parts(surd_difference(a, b)) && is_difference(a, b, surd_difference(a, b))
}

/// What the outside product hands back: the parts of the named product, each as a
/// 64-bit integer if it is one; and the named product is the reduced form of the
/// product.
pub open spec fn product_outcome(
    a: SurdParts,
    b: SurdParts,
    t: (Option<i64>, Option<i64>, Option<i64>, Option<i64>),
) -> bool {
    t == narrowed_parts(surd_product(a, b)) && is_product(a, b, surd_product(a, b))
}

/// What the outside conversion hands back: the numerator and denominator of the
/// named ratio, each as a 64-bit integer if it is one; and the named ratio is
/// the approximation described above.
pub open spec fn approximation_outcome(a: SurdParts, t: (Option<i64>, Option<i64>)) -> bool {
    t == (narrowed(surd_rational(a).0), narrowed(surd_rational(a).1)) && is_approximation(
        a,
        surd_rational(a),
    )
}

/// Rebuilds both operands over big integers with
/// `num_irrational::QuadraticSurd::new`, adds them with the crate's `Add`, takes
/// the sum apart with its `parts` and converts each part with
/// `ToPrimitive::to_i64`. The contract names the sum and says of it what the
/// crate's addition and reduction compute: the reduced form of the sum of the
/// two fractions. The operands must be canonical and of one field: the crate
/// panics where two radicands do not match.
#[verifier::external_body]
fn outside_add(a: &QuadraticSurd, b: &QuadraticSurd) -> (t: (Option<i64>, Option<i64>, Option<i64>, Option<i64>))
    requires
        a.wf(),
        b.wf(),
        can_add(a@, b@),
    ensures
        t == narrowed_parts(surd_sum(a@, b@)),
        sum_outcome(a@, b@, t),
{
    let l = num_irrational::QuadraticSurd::new(
        num::BigInt::from(a.numer()), num::BigInt::from(a.coeff()),
        num::BigInt::from(a.denom()), num::BigInt::from(a.radicand()));
    let r = num_irrational::QuadraticSurd::new(
        num::BigInt::from(b.numer()), num::BigInt::from(b.coeff()),
        num::BigInt::from(b.denom()), num::BigInt::from(b.radicand()));
    let s = l + r;
    let (n, k, d, q) = s.parts();
    (num::ToPrimitive::to_i64(n), num::ToPrimitive::to_i64(k),
        num::ToPrimitive::to_i64(d), num::ToPrimitive::to_i64(q))
}

/// As `outside_add`, with the crate's `Sub`: the contract names the difference
/// and says that it is the reduced form of the difference of the two fractions.
#[verifier::external_body]
fn outside_sub(a: &QuadraticSurd, b: &QuadraticSurd) -> (t: (Option<i64>, Option<i64>, Option<i64>, Option<i64>))
    requires
        a.wf(),
        b.wf(),
        can_add(a@, b@),
    ensures
        t == narrowed_parts(surd_difference(a@, b@)),
        difference_outcome(a@, b@, t),
{
    let l = num_irrational::QuadraticSurd::new(
        num::BigInt::from(a.numer()), num::BigInt::from(a.coeff()),
        num::BigInt::from(a.denom()), num::BigInt::from(a.radicand()));
    let r = num_irrational::QuadraticSurd::new(
        num::BigInt::from(b.numer()), num::BigInt::from(b.coeff()),
        num::BigInt::from(b.denom()), num::BigInt::from(b.radicand()));
    let s = l - r;
    let (n, k, d, q) = s.parts();
    (num::ToPrimitive::to_i64(n), num::ToPrimitive::to_i64(k),
        num::ToPrimitive::to_i64(d), num::ToPrimitive::to_i64(q))
}

/// As `outside_add`, with the crate's `Mul`: the contract names the product and
/// says that it is the reduced form of the product. The operands must be
/// canonical, and of one field or both bare multiples of a root: the crate
/// panics on other operands.
#[verifier::external_body]
fn outside_mul(a: &QuadraticSurd, b: &QuadraticSurd) -> (t: (Option<i64>, Option<i64>, Option<i64>, Option<i64>))
    requires
        a.wf(),
        b.wf(),
        can_multiply(a@, b@),
    ensures
        t == narrowed_parts(surd_product(a@, b@)),
        product_outcome(a@, b@, t),
{
    let l = num_irrational::QuadraticSurd::new(
        num::BigInt::from(a.numer()), num::BigInt::from(a.coeff()),
        num::BigInt::from(a.denom()), num::BigInt::from(a.radicand()));
    let r = num_irrational::QuadraticSurd::new(
        num::BigInt::from(b.numer()), num::BigInt::from(b.coeff()),
        num::BigInt::from(b.denom()), num::BigInt::from(b.radicand()));
    let s = l * r;
    let (n, k, d, q) = s.parts();
    (num::ToPrimitive::to_i64(n), num::ToPrimitive::to_i64(k),
        num::ToPrimitive::to_i64(d), num::ToPrimitive::to_i64(q))
}

/// Rebuilds the surd over big integers with `num_irrational::QuadraticSurd::new`,
/// converts it with the crate's `to_rational` and hands back the numerator and
/// the denominator of the ratio, each converted with `ToPrimitive::to_i64`. The
/// contract names the ratio and says what the crate computes: the denominator
/// stays, and the whole part of the root of `coeff²·radicand` is added to the
/// numerator.
#[verifier::external_body]
fn outside_to_rational(a: &QuadraticSurd) -> (t: (Option<i64>, Option<i64>))
    requires
        a.wf(),
    ensures
        t == (narrowed(surd_rational(a@).0), narrowed(surd_rational(a@).1)),
        approximation_outcome(a@, t),
{
    let q = num_irrational::QuadraticSurd::new(
        num::BigInt::from(a.numer()), num::BigInt::from(a.coeff()),
        num::BigInt::from(a.denom()), num::BigInt::from(a.radicand()));
    let ratio = q.to_rational().value();
    (num::ToPrimitive::to_i64(ratio.numer()), num::ToPrimitive::to_i64(ratio.denom()))
}

/// The parts `p` if they are canonical, nothing otherwise.
pub open spec fn accepted(p: SurdParts) -> Option<SurdParts> {
    if p.wf() {
        Some(p)
    } else {
        None
    }
}

/// The sum of two surds, where it has a single radical part and can be stored.
pub open spec fn checked_sum(a: SurdParts, b: SurdParts) -> Option<SurdParts> {
    if can_add(a, b) {
        accepted(surd_sum(a, b))
    } else {
        None
    }
}

/// The difference of two surds, where it has a single radical part and can be
/// stored.
pub open spec fn checked_difference(a: SurdParts, b: SurdParts) -> Option<SurdParts> {
    if can_add(a, b) {
        accepted(surd_difference(a, b))
    } else {
        None
    }
}

/// The product of two surds, where it has a single radical part and can be
/// stored.
pub open spec fn checked_product(a: SurdParts, b: SurdParts) -> Option<SurdParts> {
    if can_multiply(a, b) {
        accepted(surd_product(a, b))
    } else {
        None
    }
}

/// The rational approximation of a surd, where it is a ratio of 64-bit integers.
pub open spec fn rational_approximation(a: SurdParts) -> Option<(i64, i64)> {
    match (narrowed(surd_rational(a).0), narrowed(surd_rational(a).1)) {
        (Some(n), Some(d)) => Some((n, d)),
        _ => None,
    }
}

/// The parts of an optional surd.
pub open spec fn option_parts(s: Option<QuadraticSurd>) -> Option<SurdParts> {
    match s {
        Some(q) => Some(q@),
        None => None,
    }
}

/// The parts that four 64-bit integers make.
pub open spec fn parts_of(numer: i64, coeff: i64, denom: i64, radicand: i64) -> SurdParts {
    SurdParts {
        numer: numer as int,
        coeff: coeff as int,
        denom: denom as int,
        radicand: radicand as int,
    }
}

/// Stores the outcome of an outside computation, if each of its parts is a
/// 64-bit integer and they are canonical.
pub fn accept(t: (Option<i64>, Option<i64>, Option<i64>, Option<i64>)) -> (s: Option<QuadraticSurd>)
    ensures
        option_parts(s) == match t {
            (Some(n), Some(k), Some(d), Some(q)) => accepted(parts_of(n, k, d, q)),
            _ => None,
        },
        s matches Some(q) ==> q.wf(),
{
    match t {
        (Some(numer), Some(coeff), Some(denom), Some(radicand)) => QuadraticSurd::new(
            numer,
            coeff,
            denom,
            radicand,
        ),
        _ => None,
    }
}

impl QuadraticSurd {
    /// The surd has no radical part.
    pub fn is_rational(&self) -> (b: bool)
        ensures
            b == self@.is_rational(),
    {
        self.coeff() == 0
    }

    /// The surd has a radical part and nothing else.
    pub fn is_pure(&self) -> (b: bool)
        ensures
            b == self@.is_pure(),
    {
        self.numer() == 0 && self.coeff() != 0
    }

    /// The surd is an integer.
    pub fn is_integer(&self) -> (b: bool)
        ensures
            b == self@.is_integer(),
    {
        self.coeff() == 0 && self.denom() == 1
    }

    /// Whether `self + other` and `self - other` have a single radical part.
    pub fn can_add(&self, other: &QuadraticSurd) -> (b: bool)
        ensures
            b == can_add(self@, other@),
    {
        self.is_rational() || other.is_rational() || self.radicand() == other.radicand()
    }

    /// Whether `self · other` has a single radical part.
    pub fn can_multiply(&self, other: &QuadraticSurd) -> (b: bool)
        ensures
            b == can_multiply(self@, other@),
    {
        self.is_rational() || other.is_rational() || self.radicand() == other.radicand() || (
        self.is_pure() && other.is_pure())
    }

    /// `self + other`, if the sum has a single radical part and can be stored.
    pub fn checked_add(&self, other: &QuadraticSurd) -> (s: Option<QuadraticSurd>)
        requires
            self.wf(),
            other.wf(),
        ensures
            option_parts(s) == checked_sum(self@, other@),
            s matches Some(q) ==> q.wf(),
            can_add(self@, other@) ==> is_sum(self@, other@, surd_sum(self@, other@)),
    {
        if self.can_add(other) {
            accept(outside_add(self, other))
        } else {
            None
        }
    }

    /// `self - other`, if the difference has a single radical part and can be
    /// stored.
    pub fn checked_sub(&self, other: &QuadraticSurd) -> (s: Option<QuadraticSurd>)
        requires
            self.wf(),
            other.wf(),
        ensures
            option_parts(s) == checked_difference(self@, other@),
            s matches Some(q) ==> q.wf(),
            can_add(self@, other@) ==> is_difference(
                self@,
                other@,
                surd_difference(self@, other@),
            ),
    {
        if self.can_add(other) {
            accept(outside_sub(self, other))
        } else {
            None
        }
    }

    /// `self · other`, if the product has a single radical part and can be
    /// stored.
    pub fn checked_mul(&self, other: &QuadraticSurd) -> (s: Option<QuadraticSurd>)
        requires
            self.wf(),
            other.wf(),
        ensures
            option_parts(s) == checked_product(self@, other@),
            s matches Some(q) ==> q.wf(),
            can_multiply(self@, other@) ==> is_product(self@, other@, surd_product(self@, other@)),
    {
        if self.can_multiply(other) {
            accept(outside_mul(self, other))
        } else {
            None
        }
    }

    /// The numerator and denominator of the rational approximation that
    /// `num_irrational` gives, if both are 64-bit integers. The denominator is
    /// the surd's own. The numerator is the surd's numerator plus the whole part
    /// of the root of `coeff²·radicand`: for a negative multiplier of the root
    /// this is not a number near the surd, since the root is added, not taken
    /// off. A surd without a radical part is its own approximation.
    pub fn to_rational(&self) -> (t: Option<(i64, i64)>)
        requires
            self.wf(),
        ensures
            t == rational_approximation(self@),
            is_approximation(self@, surd_rational(self@)),
            self@.is_rational() ==> t == Some((self@.numer as i64, self@.denom as i64)),
    {
        let (n, d) = outside_to_rational(self);
        proof {
            if self@.is_rational() {
                lemma_rational_is_its_approximation(self@, surd_rational(self@));
            }
        }
        match (n, d) {
            (Some(numer), Some(denom)) => Some((numer, denom)),
            _ => None,
        }
    }
}

/// A surd without a radical part is its own approximation.
pub proof fn lemma_rational_is_its_approximation(a: SurdParts, t: (int, int))
    requires
        a.coeff == 0,
        is_approximation(a, t),
    ensures
        t == (a.numer, a.denom),
{
    let s = t.0 - a.numer;
    assert(s * s <= 0) by (nonlinear_arith)
        requires
            s * s <= a.coeff * a.coeff * a.radicand,
            a.coeff == 0,
    ;
    assert(s == 0) by (nonlinear_arith)
        requires
            s * s <= 0,
    ;
}

} // verus!
