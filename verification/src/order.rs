//! The order of surds and of complex values by size.
//!
//! A surd comes before another when their difference, as real numbers, is
//! negative. The sign of the difference is found exactly, in integers: the
//! sign of `p + q·√r` follows from the signs of `p` and `q` and from the
//! comparison of `p²` with `q²·r`, and a sum with two different roots is
//! brought to that form by squaring once. Values are ordered by their real
//! part, and by their imaginary part where the real parts are equal.

use std::cmp::Ordering;
use vstd::prelude::*;
use vstd::arithmetic::div_mod::{lemma_fundamental_div_mod, lemma_mod_self_0};
use crate::surd::{
    lemma_bezout,
    lemma_lowest_terms_are_unique,
    square_divides,
    square_free,
    QuadraticSurd,
    SurdParts,
};
use crate::value::{ComplexParts, ComplexValue};
use crate::wide::{wide_add, wide_from, wide_less, wide_mul, wide_sub, Wide};

verus! {

/// `p + q·√r` is positive, for a radicand `r` that is not negative.
///
/// Without a root the sign is that of `p`. With a positive `q` the root term is
/// positive, so the sum is positive unless `p` is negative and outweighs it,
/// `p² ≥ q²·r`. With a negative `q` the sum is positive only if `p` is positive
/// and outweighs the root term, `p² > q²·r`.
pub open spec fn root_sum_positive(p: int, q: int, r: int) -> bool {
    if q == 0 || r == 0 {
        p > 0
    } else if q > 0 {
        p >= 0 || p * p < q * q * r
    } else {
        p > 0 && p * p > q * q * r
    }
}

/// `p + u·√r + v·√s` is positive, for radicands that are not negative.
///
/// With `l = p + u·√r` the question is whether `l > -v·√s`. Where the right side
/// is not negative, that holds exactly if `l` is positive and `l² > v²·s`; where
/// it is negative, exactly if `l` is not negative or `l² < v²·s`. And
/// `l² - v²·s = (p² + u²·r - v²·s) + 2·p·u·√r` has a single root.
pub open spec fn two_roots_positive(p: int, u: int, r: int, v: int, s: int) -> bool {
    let rest = p * p + u * u * r - v * v * s;
    let cross = 2 * p * u;
    if v <= 0 || s == 0 {
        root_sum_positive(p, u, r) && (v == 0 || s == 0 || root_sum_positive(rest, cross, r))
    } else {
        !root_sum_positive(-p, -u, r) || root_sum_positive(-rest, -cross, r)
    }
}

/// `a` is less than `b`: the difference `b - a`, multiplied by the two positive
/// denominators, is positive. With `p = b.numer·a.denom - a.numer·b.denom` that
/// difference is `p + b.coeff·a.denom·√b.radicand - a.coeff·b.denom·√a.radicand`,
/// which has a single root where the two surds are of one field.
pub open spec fn surd_before(a: SurdParts, b: SurdParts) -> bool {
    let p = b.numer * a.denom - a.numer * b.denom;
    let u = b.coeff * a.denom;
    let v = -(a.coeff * b.denom);
    if a.coeff == 0 {
        root_sum_positive(p, u, b.radicand)
    } else if b.coeff == 0 || a.radicand == b.radicand {
        root_sum_positive(p, u + v, a.radicand)
    } else {
        two_roots_positive(p, u, b.radicand, v, a.radicand)
    }
}

/// `x` is less than `y`: by the real part, and by the imaginary part where the
/// real parts are equal.
pub open spec fn complex_before(x: ComplexParts, y: ComplexParts) -> bool {
    if x.re == y.re {
        surd_before(x.im, y.im)
    } else {
        surd_before(x.re, y.re)
    }
}

/// How `x` stands to `y` in the order of size.
pub open spec fn complex_order(x: ComplexParts, y: ComplexParts) -> Ordering {
    if x == y {
        Ordering::Equal
    } else if complex_before(x, y) {
        Ordering::Less
    } else {
        Ordering::Greater
    }
}

/// Decides whether `p + q·√r` is positive.
fn sign_with_root(p: &Wide, q: &Wide, r: &Wide) -> (positive: bool)
    ensures
        positive == root_sum_positive(p@, q@, r@),
{
    let zero = wide_from(0);
    let no_root = !wide_less(&zero, r) && !wide_less(r, &zero);
    let no_multiplier = !wide_less(&zero, q) && !wide_less(q, &zero);
    if no_root || no_multiplier {
        return wide_less(&zero, p);
    }
    let rational_square = wide_mul(p, p);
    let root_square = wide_mul(&wide_mul(q, q), r);
    if wide_less(&zero, q) {
        !wide_less(p, &zero) || wide_less(&rational_square, &root_square)
    } else {
        wide_less(&zero, p) && wide_less(&root_square, &rational_square)
    }
}

/// Decides whether `p + u·√r + v·√s` is positive.
fn sign_with_two_roots(p: &Wide, u: &Wide, r: &Wide, v: &Wide, s: &Wide) -> (positive: bool)
    ensures
        positive == two_roots_positive(p@, u@, r@, v@, s@),
{
    let zero = wide_from(0);
    let squares = wide_add(&wide_mul(p, p), &wide_mul(&wide_mul(u, u), r));
    let rest = wide_sub(&squares, &wide_mul(&wide_mul(v, v), s));
    let cross = wide_mul(&wide_mul(&wide_from(2), p), u);
    let no_second_root = !wide_less(&zero, s) && !wide_less(s, &zero);
    if !wide_less(&zero, v) || no_second_root {
        let no_multiplier = !wide_less(v, &zero);
        sign_with_root(p, u, r) && (no_multiplier || no_second_root || sign_with_root(
            &rest,
            &cross,
            r,
        ))
    } else {
        let minus_p = wide_sub(&zero, p);
        let minus_u = wide_sub(&zero, u);
        let minus_rest = wide_sub(&zero, &rest);
        let minus_cross = wide_sub(&zero, &cross);
        !sign_with_root(&minus_p, &minus_u, r) || sign_with_root(&minus_rest, &minus_cross, r)
    }
}

/// Decides whether `a` is less than `b`.
pub fn surd_less(a: &QuadraticSurd, b: &QuadraticSurd) -> (r: bool)
    ensures
        r == surd_before(a@, b@),
{
    let p = wide_sub(
        &wide_mul(&wide_from(b.numer()), &wide_from(a.denom())),
        &wide_mul(&wide_from(a.numer()), &wide_from(b.denom())),
    );
    let u = wide_mul(&wide_from(b.coeff()), &wide_from(a.denom()));
    let v = wide_sub(&wide_from(0), &wide_mul(&wide_from(a.coeff()), &wide_from(b.denom())));
    if a.coeff() == 0 {
        sign_with_root(&p, &u, &wide_from(b.radicand()))
    } else if b.coeff() == 0 || a.radicand() == b.radicand() {
        sign_with_root(&p, &wide_add(&u, &v), &wide_from(a.radicand()))
    } else {
        sign_with_two_roots(&p, &u, &wide_from(b.radicand()), &v, &wide_from(a.radicand()))
    }
}

/// Decides whether `x` is less than `y`.
pub fn value_less(x: &ComplexValue, y: &ComplexValue) -> (r: bool)
    ensures
        r == complex_before(x@, y@),
{
    let xr = x.real_part();
    let yr = y.real_part();
    if xr.equals(&yr) {
        surd_less(&x.imaginary_part(), &y.imaginary_part())
    } else {
        surd_less(&xr, &yr)
    }
}

impl ComplexValue {
    /// How `self` stands to `other` in the order of size: by the real parts, and
    /// by the imaginary parts where the real parts are equal.
    pub fn compare(&self, other: &ComplexValue) -> (o: Ordering)
        ensures
            o == complex_order(self@, other@),
    {
        if self.equals(other) {
            Ordering::Equal
        } else if value_less(self, other) {
            Ordering::Less
        } else {
            Ordering::Greater
        }
    }
}

impl PartialOrd for ComplexValue {
    /// How `self` stands to `other`: the order of `compare`, in which any two
    /// values can be compared.
    fn partial_cmp(&self, other: &ComplexValue) -> (o: Option<Ordering>) {
        Some(self.compare(other))
    }
}

impl vstd::std_specs::cmp::PartialOrdSpecImpl for ComplexValue {
    open spec fn obeys_partial_cmp_spec() -> bool {
        true
    }

    open spec fn partial_cmp_spec(&self, other: &ComplexValue) -> Option<Ordering> {
        Some(complex_order(self@, other@))
    }
}

/// Values compare as equal exactly when they are equal.
pub proof fn law_order_equal(x: ComplexParts, y: ComplexParts)
    ensures
        complex_order(x, y) == Ordering::Equal <==> x == y,
{
}

/// The sum `p + q·√r` is never positive together with its negative.
pub proof fn law_sign_is_one_sided(p: int, q: int, r: int)
    ensures
        !(root_sum_positive(p, q, r) && root_sum_positive(-p, -q, r)),
{
    assert((-p) * (-p) == p * p) by (nonlinear_arith);
    assert((-q) * (-q) * r == q * q * r) by (nonlinear_arith);
}

/// Of two surds of one field, with positive denominators, at most one is less
/// than the other.
pub proof fn law_surd_order_one_sided(a: SurdParts, b: SurdParts)
    requires
        a.coeff == 0 || b.coeff == 0 || a.radicand == b.radicand,
        a.coeff == 0 <==> a.radicand == 0,
        b.coeff == 0 <==> b.radicand == 0,
    ensures
        !(surd_before(a, b) && surd_before(b, a)),
{
    let p = b.numer * a.denom - a.numer * b.denom;
    let q = b.coeff * a.denom - a.coeff * b.denom;
    let r = if a.coeff == 0 {
        b.radicand
    } else {
        a.radicand
    };
    law_sign_is_one_sided(p, q, r);
}

/// The root of a square-free number of at least 2 is no fraction: `p²` is never
/// `q²·r` unless `q` is zero.
pub proof fn lemma_root_is_irrational(p: int, q: int, r: int)
    requires
        q != 0,
        r >= 2,
        square_free(r),
    ensures
        p * p != q * q * r,
{
    if p * p == q * q * r {
        let x = if p < 0 {
            -p
        } else {
            p
        };
        let y = if q < 0 {
            -q
        } else {
            q
        };
        assert(x * x == p * p) by (nonlinear_arith)
            requires
                x == p || x == -p,
        ;
        assert(y * y == q * q) by (nonlinear_arith)
            requires
                y == q || y == -q,
        ;
        lemma_no_square_root(x, y, r);
    }
}

/// There are no `x ≥ 0` and `y > 0` with `x² = y²·r` for a square-free `r ≥ 2`.
proof fn lemma_no_square_root(x: int, y: int, r: int)
    requires
        x >= 0,
        y > 0,
        r >= 2,
        square_free(r),
    ensures
        x * x != y * y * r,
{
    if x * x == y * y * r {
        // Take the common divisor out of `x` and `y`.
        let (u, v, g) = lemma_bezout(x, y);
        lemma_fundamental_div_mod(x, g);
        lemma_fundamental_div_mod(y, g);
        let a = x / g;
        let b = y / g;
        assert(x == g * a && y == g * b);
        assert(b > 0) by (nonlinear_arith)
            requires
                y == g * b,
                y > 0,
                g > 0,
        ;
        assert(a >= 0) by (nonlinear_arith)
            requires
                x == g * a,
                x >= 0,
                g > 0,
        ;
        assert(u * a + v * b == 1) by (nonlinear_arith)
            requires
                u * x + v * y == g,
                x == g * a,
                y == g * b,
                g > 0,
        ;
        assert(a * a == b * b * r) by {
            assert(x * x == (g * g) * (a * a)) by (nonlinear_arith)
                requires
                    x == g * a,
            ;
            assert(y * y * r == (g * g) * (b * b * r)) by (nonlinear_arith)
                requires
                    y == g * b,
            ;
            assert(g * g > 0) by (nonlinear_arith)
                requires
                    g > 0,
            ;
            assert(a * a == b * b * r) by (nonlinear_arith)
                requires
                    (g * g) * (a * a) == (g * g) * (b * b * r),
                    g * g > 0,
            ;
        }
        // `b` divides `a·a` and shares no divisor with `a`, so it divides `a`.
        let m = u * (b * r) + v * a;
        assert(a == b * m) by {
            assert(a * (u * a + v * b) == u * (a * a) + v * (a * b)) by (nonlinear_arith);
            assert(u * (b * b * r) == b * (u * (b * r))) by (nonlinear_arith);
            assert(v * (a * b) == b * (v * a)) by (nonlinear_arith);
            assert(b * (u * (b * r)) + b * (v * a) == b * (u * (b * r) + v * a)) by (nonlinear_arith);
            assert(a * (u * a + v * b) == a) by (nonlinear_arith)
                requires
                    u * a + v * b == 1,
            ;
        }
        // Then `b` divides 1.
        assert(b * (u * m + v) == 1) by {
            assert(u * (b * m) + v * b == b * (u * m + v)) by (nonlinear_arith);
        }
        assert(b == 1) by (nonlinear_arith)
            requires
                b * (u * m + v) == 1,
                b > 0,
        ;
        // So `r` is the square of `a`, which is at least 2.
        assert(a * a == r) by (nonlinear_arith)
            requires
                a * a == b * b * r,
                b == 1,
        ;
        assert(a >= 2) by (nonlinear_arith)
            requires
                a * a == r,
                r >= 2,
                a >= 0,
        ;
        lemma_mod_self_0(a * a);
        assert(square_divides(a, r));
    }
}

/// A sum `p + q·√r` that is not zero is positive or negative: where `q` is not
/// zero the radicand is square-free and at least 2, and otherwise `p` is not zero.
pub proof fn law_sign_is_decided(p: int, q: int, r: int)
    requires
        q != 0 ==> r >= 2 && square_free(r),
        q == 0 ==> p != 0,
    ensures
        root_sum_positive(p, q, r) || root_sum_positive(-p, -q, r),
{
    if q != 0 {
        lemma_root_is_irrational(p, q, r);
        assert((-p) * (-p) == p * p) by (nonlinear_arith);
        assert((-q) * (-q) * r == q * q * r) by (nonlinear_arith);
    }
}

/// Of two different canonical surds of one field, exactly one is less than the
/// other.
pub proof fn law_surd_order_total(a: SurdParts, b: SurdParts)
    requires
        a.wf(),
        b.wf(),
        a.coeff == 0 || b.coeff == 0 || a.radicand == b.radicand,
        a != b,
    ensures
        surd_before(a, b) != surd_before(b, a),
{
    law_surd_order_one_sided(a, b);
    let p = b.numer * a.denom - a.numer * b.denom;
    let q = b.coeff * a.denom - a.coeff * b.denom;
    let r = if a.coeff == 0 {
        b.radicand
    } else {
        a.radicand
    };
    if p == 0 && q == 0 {
        lemma_lowest_terms_are_unique(a.numer, a.coeff, a.denom, b.numer, b.coeff, b.denom);
    }
    if q != 0 {
        assert(a.coeff != 0 || b.coeff != 0) by (nonlinear_arith)
            requires
                q == b.coeff * a.denom - a.coeff * b.denom,
                q != 0,
        ;
    }
    law_sign_is_decided(p, q, r);
    assert(a.coeff == 0 ==> a.coeff * b.denom == 0) by (nonlinear_arith);
    assert(b.coeff == 0 ==> b.coeff * a.denom == 0) by (nonlinear_arith);
    assert(surd_before(a, b) == root_sum_positive(p, q, r));
    assert(surd_before(b, a) == root_sum_positive(-p, -q, r));
}

/// On values whose components are of one field, the order is total and agrees
/// with equality: of two different values exactly one is less than the other.
pub proof fn law_order_total(x: ComplexParts, y: ComplexParts)
    requires
        x.wf(),
        y.wf(),
        x.re.coeff == 0 || y.re.coeff == 0 || x.re.radicand == y.re.radicand,
        x.im.coeff == 0 || y.im.coeff == 0 || x.im.radicand == y.im.radicand,
    ensures
        complex_order(x, y) == Ordering::Equal <==> x == y,
        complex_order(x, y) == Ordering::Less <==> complex_order(y, x) == Ordering::Greater,
        complex_order(x, y) == Ordering::Greater <==> complex_order(y, x) == Ordering::Less,
{
    if x != y {
        if x.re == y.re {
            law_surd_order_total(x.im, y.im);
        } else {
            law_surd_order_total(x.re, y.re);
        }
    }
}

/// Where `x1 ≤ y1·√r` and `x2 ≤ y2·√r`, all of them not negative, the products
/// compare alike: `x1·x2 ≤ y1·y2·r`.
proof fn lemma_cross_term_below(x1: int, y1: int, x2: int, y2: int, r: int)
    requires
        x1 >= 0,
        y1 >= 0,
        x2 >= 0,
        y2 >= 0,
        r >= 0,
        x1 * x1 <= y1 * y1 * r,
        x2 * x2 <= y2 * y2 * r,
    ensures
        x1 * x2 <= y1 * y2 * r,
{
    let a = x1 * x1;
    let b = y1 * y1 * r;
    let c = x2 * x2;
    let d = y2 * y2 * r;
    let left = x1 * x2;
    let right = y1 * y2 * r;
    assert(a >= 0 && c >= 0) by (nonlinear_arith)
        requires
            a == x1 * x1,
            c == x2 * x2,
    ;
    assert(a * c <= b * d) by (nonlinear_arith)
        requires
            0 <= a <= b,
            0 <= c <= d,
    ;
    assert(left * left == a * c) by (nonlinear_arith)
        requires
            left == x1 * x2,
            a == x1 * x1,
            c == x2 * x2,
    ;
    assert(right * right == b * d) by (nonlinear_arith)
        requires
            right == y1 * y2 * r,
            b == y1 * y1 * r,
            d == y2 * y2 * r,
    ;
    assert(right >= 0) by (nonlinear_arith)
        requires
            right == y1 * y2 * r,
            y1 >= 0,
            y2 >= 0,
            r >= 0,
    ;
    assert(left <= right) by (nonlinear_arith)
        requires
            left * left <= right * right,
            right >= 0,
    ;
}

/// Where `x1 ≥ y1·√r` and `x2 ≥ y2·√r`, all of them not negative, the products
/// compare alike: `x1·x2 ≥ y1·y2·r`.
proof fn lemma_cross_term_above(x1: int, y1: int, x2: int, y2: int, r: int)
    requires
        x1 >= 0,
        y1 >= 0,
        x2 >= 0,
        y2 >= 0,
        r >= 0,
        x1 * x1 >= y1 * y1 * r,
        x2 * x2 >= y2 * y2 * r,
    ensures
        x1 * x2 >= y1 * y2 * r,
{
    let a = x1 * x1;
    let b = y1 * y1 * r;
    let c = x2 * x2;
    let d = y2 * y2 * r;
    let left = x1 * x2;
    let right = y1 * y2 * r;
    assert(b >= 0 && d >= 0) by (nonlinear_arith)
        requires
            b == y1 * y1 * r,
            d == y2 * y2 * r,
            r >= 0,
    ;
    assert(a * c >= b * d) by (nonlinear_arith)
        requires
            0 <= b <= a,
            0 <= d <= c,
    ;
    assert(left * left == a * c) by (nonlinear_arith)
        requires
            left == x1 * x2,
            a == x1 * x1,
            c == x2 * x2,
    ;
    assert(right * right == b * d) by (nonlinear_arith)
        requires
            right == y1 * y2 * r,
            b == y1 * y1 * r,
            d == y2 * y2 * r,
    ;
    assert(left >= 0) by (nonlinear_arith)
        requires
            left == x1 * x2,
            x1 >= 0,
            x2 >= 0,
    ;
    assert(left >= right) by (nonlinear_arith)
        requires
            left * left >= right * right,
            left >= 0,
    ;
}

/// The square of a sum, and of a sum times a root.
proof fn lemma_squares_of_sums(x1: int, y1: int, x2: int, y2: int, r: int)
    ensures
        (x1 + x2) * (x1 + x2) == x1 * x1 + 2 * (x1 * x2) + x2 * x2,
        (y1 + y2) * (y1 + y2) * r == y1 * y1 * r + 2 * (y1 * y2 * r) + y2 * y2 * r,
{
    assert((x1 + x2) * (x1 + x2) == x1 * x1 + 2 * (x1 * x2) + x2 * x2) by (nonlinear_arith);
    assert((y1 + y2) * (y1 + y2) == y1 * y1 + 2 * (y1 * y2) + y2 * y2) by (nonlinear_arith);
    let s = (y1 + y2) * (y1 + y2);
    assert(s * r == (y1 * y1) * r + (2 * (y1 * y2)) * r + (y2 * y2) * r) by (nonlinear_arith)
        requires
            s == y1 * y1 + 2 * (y1 * y2) + y2 * y2,
    ;
    assert((2 * (y1 * y2)) * r == 2 * (y1 * y2 * r)) by (nonlinear_arith);
}

/// Sums keep the side of the root: where `x1 ≤ y1·√r` and `x2 ≤ y2·√r`, there
/// `x1 + x2 ≤ (y1 + y2)·√r`, and strictly so if one of the two is strict.
proof fn lemma_sum_below(x1: int, y1: int, x2: int, y2: int, r: int)
    requires
        x1 >= 0,
        y1 >= 0,
        x2 >= 0,
        y2 >= 0,
        r >= 0,
        x1 * x1 <= y1 * y1 * r,
        x2 * x2 <= y2 * y2 * r,
    ensures
        (x1 + x2) * (x1 + x2) <= (y1 + y2) * (y1 + y2) * r,
        x1 * x1 < y1 * y1 * r || x2 * x2 < y2 * y2 * r ==> (x1 + x2) * (x1 + x2) < (y1 + y2) * (y1
            + y2) * r,
{
    lemma_cross_term_below(x1, y1, x2, y2, r);
    lemma_squares_of_sums(x1, y1, x2, y2, r);
}

/// Where `x1 ≥ y1·√r` and `x2 ≥ y2·√r`, there `x1 + x2 ≥ (y1 + y2)·√r`, and
/// strictly so if one of the two is strict.
proof fn lemma_sum_above(x1: int, y1: int, x2: int, y2: int, r: int)
    requires
        x1 >= 0,
        y1 >= 0,
        x2 >= 0,
        y2 >= 0,
        r >= 0,
        x1 * x1 >= y1 * y1 * r,
        x2 * x2 >= y2 * y2 * r,
    ensures
        (x1 + x2) * (x1 + x2) >= (y1 + y2) * (y1 + y2) * r,
        x1 * x1 > y1 * y1 * r || x2 * x2 > y2 * y2 * r ==> (x1 + x2) * (x1 + x2) > (y1 + y2) * (y1
            + y2) * r,
{
    lemma_cross_term_above(x1, y1, x2, y2, r);
    lemma_squares_of_sums(x1, y1, x2, y2, r);
}

/// The square of a number is the square of its negative.
proof fn lemma_square_of_negative(x: int)
    ensures
        (-x) * (-x) == x * x,
{
    assert((-x) * (-x) == x * x) by (nonlinear_arith);
}

/// The sum of two positive numbers of one field is positive.
pub proof fn law_sum_of_positives(p1: int, q1: int, p2: int, q2: int, r: int)
    requires
        r >= 0,
        root_sum_positive(p1, q1, r),
        root_sum_positive(p2, q2, r),
    ensures
        root_sum_positive(p1 + p2, q1 + q2, r),
{
    let p = p1 + p2;
    let q = q1 + q2;
    if r == 0 {
    } else if q1 == 0 && q2 == 0 {
    } else if q1 == 0 {
        lemma_mixed_sum(p2, q2, p1, r);
    } else if q2 == 0 {
        lemma_mixed_sum(p1, q1, p2, r);
    } else {
        lemma_sum_of_two_with_roots(p1, q1, p2, q2, r);
    }
}

/// Adding a positive integer to a positive number keeps it positive.
proof fn lemma_mixed_sum(p1: int, q1: int, p2: int, r: int)
    requires
        r > 0,
        q1 != 0,
        root_sum_positive(p1, q1, r),
        p2 > 0,
    ensures
        root_sum_positive(p1 + p2, q1, r),
{
    let p = p1 + p2;
    if q1 > 0 {
        if p < 0 {
            // |p| < |p1|, so p² < p1² < q1²·r.
            assert(p * p < p1 * p1) by (nonlinear_arith)
                requires
                    p1 < p,
                    p < 0,
            ;
        }
    } else {
        assert(p * p > p1 * p1) by (nonlinear_arith)
            requires
                p > p1,
                p1 > 0,
        ;
    }
}

/// The case of `law_sum_of_positives` in which both numbers have a root.
proof fn lemma_sum_of_two_with_roots(p1: int, q1: int, p2: int, q2: int, r: int)
    requires
        r > 0,
        q1 != 0,
        q2 != 0,
        root_sum_positive(p1, q1, r),
        root_sum_positive(p2, q2, r),
    ensures
        root_sum_positive(p1 + p2, q1 + q2, r),
{
    if q1 > 0 && q2 > 0 {
        lemma_both_roots_positive(p1, q1, p2, q2, r);
    } else if q1 < 0 && q2 < 0 {
        lemma_both_roots_negative(p1, q1, p2, q2, r);
    } else if q1 > 0 {
        lemma_roots_of_two_signs(p1, q1, p2, q2, r);
    } else {
        lemma_roots_of_two_signs(p2, q2, p1, q1, r);
    }
}

/// Two positive numbers whose roots have positive multipliers.
proof fn lemma_both_roots_positive(p1: int, q1: int, p2: int, q2: int, r: int)
    requires
        r > 0,
        q1 > 0,
        q2 > 0,
        root_sum_positive(p1, q1, r),
        root_sum_positive(p2, q2, r),
    ensures
        root_sum_positive(p1 + p2, q1 + q2, r),
{
    let p = p1 + p2;
    if p < 0 {
        // With x_i the amount by which p_i is below zero, x_i ≤ q_i·√r, and
        // strictly so where p_i is negative; and -p ≤ x1 + x2.
        let x1 = if p1 < 0 {
            -p1
        } else {
            0
        };
        let x2 = if p2 < 0 {
            -p2
        } else {
            0
        };
        lemma_square_of_negative(p1);
        lemma_square_of_negative(p2);
        assert(q1 * q1 * r > 0 && q2 * q2 * r > 0) by (nonlinear_arith)
            requires
                q1 > 0,
                q2 > 0,
                r > 0,
        ;
        lemma_sum_below(x1, q1, x2, q2, r);
        assert(p * p <= (x1 + x2) * (x1 + x2)) by (nonlinear_arith)
            requires
                0 < -p <= x1 + x2,
        ;
    }
}

/// Two positive numbers whose roots have negative multipliers.
proof fn lemma_both_roots_negative(p1: int, q1: int, p2: int, q2: int, r: int)
    requires
        r > 0,
        q1 < 0,
        q2 < 0,
        root_sum_positive(p1, q1, r),
        root_sum_positive(p2, q2, r),
    ensures
        root_sum_positive(p1 + p2, q1 + q2, r),
{
    lemma_square_of_negative(q1);
    lemma_square_of_negative(q2);
    lemma_square_of_negative(q1 + q2);
    assert((-q1) * (-q1) * r == q1 * q1 * r);
    assert((-q2) * (-q2) * r == q2 * q2 * r);
    lemma_sum_above(p1, -q1, p2, -q2, r);
    assert((-q1 + -q2) == -(q1 + q2));
}

/// Two positive numbers, the first with a positive and the second with a
/// negative multiplier of the root.
proof fn lemma_roots_of_two_signs(p1: int, q1: int, p2: int, q2: int, r: int)
    requires
        r > 0,
        q1 > 0,
        q2 < 0,
        root_sum_positive(p1, q1, r),
        root_sum_positive(p2, q2, r),
    ensures
        root_sum_positive(p1 + p2, q1 + q2, r),
{
    let p = p1 + p2;
    let q = q1 + q2;
    let d = -q2;
    lemma_square_of_negative(q2);
    assert(d * d * r == q2 * q2 * r);
    // p2 > d·√r, and p1 ≥ 0 or -p1 < q1·√r.
    if p1 >= 0 {
        // p ≥ p2 > d·√r ≥ -q·√r where q is negative.
        if q <= 0 {
            assert(p * p >= p2 * p2) by (nonlinear_arith)
                requires
                    p >= p2,
                    p2 > 0,
            ;
            if q < 0 {
                lemma_square_of_negative(q);
                assert((-q) * (-q) <= d * d) by (nonlinear_arith)
                    requires
                        0 < -q <= d,
                ;
                assert((-q) * (-q) * r <= d * d * r) by (nonlinear_arith)
                    requires
                        (-q) * (-q) <= d * d,
                        r > 0,
                ;
            }
        }
    } else {
        let a = -p1;
        lemma_square_of_negative(p1);
        // a < q1·√r and p2 > d·√r.
        if q > 0 {
            if p < 0 {
                // -p = a - p2 and q = q1 - d. Were -p ≥ q·√r, adding p2 > d·√r
                // would give a > q1·√r.
                lemma_square_of_negative(p);
                if (-p) * (-p) >= q * q * r {
                    lemma_sum_above(-p, q, p2, d, r);
                    assert(-p + p2 == a && q + d == q1);
                }
            }
        } else if q < 0 {
            // p = p2 - a and -q = d - q1. Were p ≤ -q·√r, adding a < q1·√r
            // would give p2 < d·√r.
            lemma_square_of_negative(q);
            if p <= 0 || p * p <= q * q * r {
                if p >= 0 {
                    assert(q1 * q1 * r > 0) by (nonlinear_arith)
                        requires
                            q1 > 0,
                            r > 0,
                    ;
                    assert((-q) * (-q) * r == q * q * r);
                    assert(q * q * r >= 0) by (nonlinear_arith)
                        requires
                            r > 0,
                    ;
                    assert(p == 0 ==> p * p == 0);
                    lemma_sum_below(p, -q, a, q1, r);
                    assert(p + a == p2 && -q + q1 == d);
                } else {
                    // p2 < a and d > q1: p2² < a² < q1²·r < d²·r.
                    assert(p2 * p2 < a * a) by (nonlinear_arith)
                        requires
                            0 < p2 < a,
                    ;
                    assert(q1 * q1 * r < d * d * r) by (nonlinear_arith)
                        requires
                            0 < q1 < d,
                            r > 0,
                    ;
                }
            }
        } else {
            // q1 = d: a² < q1²·r = d²·r < p2², so a < p2.
            assert(q1 * q1 * r == d * d * r);
            if p <= 0 {
                assert(p2 * p2 <= a * a) by (nonlinear_arith)
                    requires
                        0 < p2 <= a,
                ;
            }
        }
    }
}

/// A positive number stays positive when it is multiplied by a positive
/// integer, and a number whose positive multiple is positive is positive.
pub proof fn law_positive_multiple(p: int, q: int, r: int, m: int)
    requires
        m > 0,
        r >= 0,
    ensures
        root_sum_positive(p, q, r) <==> root_sum_positive(m * p, m * q, r),
{
    assert((m * p) * (m * p) == (m * m) * (p * p)) by (nonlinear_arith);
    assert((m * q) * (m * q) * r == (m * m) * (q * q * r)) by (nonlinear_arith);
    assert(m * m > 0) by (nonlinear_arith)
        requires
            m > 0,
    ;
    let k = m * m;
    let a = p * p;
    let b = q * q * r;
    assert(a < b <==> k * a < k * b) by (nonlinear_arith)
        requires
            k > 0,
    ;
    assert(a > b <==> k * a > k * b) by (nonlinear_arith)
        requires
            k > 0,
    ;
    assert(m * p > 0 <==> p > 0) by (nonlinear_arith)
        requires
            m > 0,
    ;
    assert(m * p >= 0 <==> p >= 0) by (nonlinear_arith)
        requires
            m > 0,
    ;
    assert(m * q > 0 <==> q > 0) by (nonlinear_arith)
        requires
            m > 0,
    ;
    assert(m * q == 0 <==> q == 0) by (nonlinear_arith)
        requires
            m > 0,
    ;
}

/// `a` is a surd of the field of `√r`: it has no root, or its radicand is `r`.
pub open spec fn in_field(a: SurdParts, r: int) -> bool {
    &&& a.denom > 0
    &&& (a.coeff == 0 <==> a.radicand == 0)
    &&& (a.coeff != 0 ==> a.radicand == r)
}

/// Between two surds of one field, `surd_before` is the sign of one sum with a
/// root: of the difference of the two, multiplied by both denominators.
pub proof fn lemma_before_is_a_sign(a: SurdParts, b: SurdParts, r: int)
    requires
        in_field(a, r),
        in_field(b, r),
    ensures
        surd_before(a, b) == root_sum_positive(
            b.numer * a.denom - a.numer * b.denom,
            b.coeff * a.denom - a.coeff * b.denom,
            r,
        ),
{
    assert(a.coeff == 0 ==> a.coeff * b.denom == 0) by (nonlinear_arith);
    assert(b.coeff == 0 ==> b.coeff * a.denom == 0) by (nonlinear_arith);
    assert(b.coeff != 0 ==> b.coeff * a.denom != 0) by (nonlinear_arith)
        requires
            a.denom > 0,
    ;
}

/// The order of the surds of one field is transitive.
pub proof fn law_surd_order_transitive(a: SurdParts, b: SurdParts, c: SurdParts, r: int)
    requires
        r >= 0,
        in_field(a, r),
        in_field(b, r),
        in_field(c, r),
        surd_before(a, b),
        surd_before(b, c),
    ensures
        surd_before(a, c),
{
    lemma_before_is_a_sign(a, b, r);
    lemma_before_is_a_sign(b, c, r);
    lemma_before_is_a_sign(a, c, r);
    let p_ab = b.numer * a.denom - a.numer * b.denom;
    let q_ab = b.coeff * a.denom - a.coeff * b.denom;
    let p_bc = c.numer * b.denom - b.numer * c.denom;
    let q_bc = c.coeff * b.denom - b.coeff * c.denom;
    let p_ac = c.numer * a.denom - a.numer * c.denom;
    let q_ac = c.coeff * a.denom - a.coeff * c.denom;
    law_positive_multiple(p_ab, q_ab, r, c.denom);
    law_positive_multiple(p_bc, q_bc, r, a.denom);
    law_sum_of_positives(c.denom * p_ab, c.denom * q_ab, a.denom * p_bc, a.denom * q_bc, r);
    lemma_telescope(a.numer, a.denom, b.numer, b.denom, c.numer, c.denom);
    lemma_telescope(a.coeff, a.denom, b.coeff, b.denom, c.coeff, c.denom);
    law_positive_multiple(p_ac, q_ac, r, b.denom);
}

/// The differences of three fractions add up: with the cross products
/// `ab = bn·ad - an·bd` and so on, `cd·ab + ad·bc = bd·ac`.
proof fn lemma_telescope(an: int, ad: int, bn: int, bd: int, cn: int, cd: int)
    ensures
        cd * (bn * ad - an * bd) + ad * (cn * bd - bn * cd) == bd * (cn * ad - an * cd),
{
    assert(cd * (bn * ad - an * bd) == cd * (bn * ad) - cd * (an * bd)) by (nonlinear_arith);
    assert(ad * (cn * bd - bn * cd) == ad * (cn * bd) - ad * (bn * cd)) by (nonlinear_arith);
    assert(bd * (cn * ad - an * cd) == bd * (cn * ad) - bd * (an * cd)) by (nonlinear_arith);
    assert(cd * (bn * ad) == ad * (bn * cd)) by (nonlinear_arith);
    assert(cd * (an * bd) == bd * (an * cd)) by (nonlinear_arith);
    assert(ad * (cn * bd) == bd * (cn * ad)) by (nonlinear_arith);
}

/// On values whose real parts are of one field and whose imaginary parts are
/// of one field, the order is transitive.
pub proof fn law_order_transitive(
    x: ComplexParts,
    y: ComplexParts,
    z: ComplexParts,
    r: int,
    s: int,
)
    requires
        r >= 0,
        s >= 0,
        in_field(x.re, r) && in_field(y.re, r) && in_field(z.re, r),
        in_field(x.im, s) && in_field(y.im, s) && in_field(z.im, s),
        complex_order(x, y) == Ordering::Less,
        complex_order(y, z) == Ordering::Less,
    ensures
        complex_order(x, z) == Ordering::Less,
{
    lemma_before_is_a_sign(x.re, x.re, r);
    lemma_before_is_a_sign(x.im, x.im, s);
    if x.re == y.re && y.re == z.re {
        law_surd_order_transitive(x.im, y.im, z.im, s);
    } else if x.re == y.re {
    } else if y.re == z.re {
    } else {
        law_surd_order_transitive(x.re, y.re, z.re, r);
    }
}

/// On rational surds the order is the order of the fractions.
pub proof fn law_rational_order(a: SurdParts, b: SurdParts)
    requires
        a.is_rational(),
        b.is_rational(),
    ensures
        surd_before(a, b) <==> a.numer * b.denom < b.numer * a.denom,
{
}

/// `1/2` is less than `1/√2`, which is less than `1`; and `1` is less than `√2`.
pub proof fn law_inv_sqrt2_lies_between_one_half_and_one()
    ensures
        surd_before(
            SurdParts { numer: 1, coeff: 0, denom: 2, radicand: 0 },
            SurdParts::inv_sqrt2(),
        ),
        !surd_before(
            SurdParts::inv_sqrt2(),
            SurdParts { numer: 1, coeff: 0, denom: 2, radicand: 0 },
        ),
        surd_before(SurdParts::inv_sqrt2(), SurdParts::integer(1)),
        !surd_before(SurdParts::integer(1), SurdParts::inv_sqrt2()),
        surd_before(SurdParts::integer(1), SurdParts { numer: 0, coeff: 1, denom: 1, radicand: 2 }),
{
    let half = SurdParts { numer: 1, coeff: 0, denom: 2, radicand: 0 };
    let root = SurdParts::inv_sqrt2();
    assert(surd_before(half, root) == root_sum_positive(-2, 2, 2));
    assert(surd_before(root, half) == root_sum_positive(2, -2, 2));
    assert(root_sum_positive(-2, 2, 2));
    assert(!root_sum_positive(2, -2, 2));
}

} // verus!
