//! Laws of the exact sums and products of surds.
//!
//! A sum, a difference or a product is the reduced form of a fraction with a
//! root, and a fraction has one reduced form only. So the outcome of an
//! operation is determined, zero and one are neutral, and sums and products
//! are associative.

use vstd::prelude::*;
use vstd::arithmetic::div_mod::lemma_small_mod;
use crate::arithmetic::{
    field_radicand,
    is_difference,
    is_product,
    is_sum,
    reduced_from,
    same_field,
};
use crate::surd::{common_divisor, lemma_integer_wf, lemma_lowest_terms_are_unique, SurdParts};

verus! {

/// A fraction with a root has one reduced form.
pub proof fn lemma_reduced_form_is_unique(
    t1: SurdParts,
    t2: SurdParts,
    numer: int,
    coeff: int,
    denom: int,
    radicand: int,
)
    requires
        denom > 0,
        reduced_from(t1, numer, coeff, denom, radicand),
        reduced_from(t2, numer, coeff, denom, radicand),
    ensures
        t1 == t2,
{
    assert(t1.numer * t2.denom == t2.numer * t1.denom) by {
        lemma_cross(t1.numer, t1.denom, t2.numer, t2.denom, numer, denom);
    }
    assert(t1.coeff * t2.denom == t2.coeff * t1.denom) by {
        lemma_cross(t1.coeff, t1.denom, t2.coeff, t2.denom, coeff, denom);
    }
    lemma_lowest_terms_are_unique(t1.numer, t1.coeff, t1.denom, t2.numer, t2.coeff, t2.denom);
}

/// Two fractions that are worth `n/d` are worth the same.
proof fn lemma_cross(n1: int, d1: int, n2: int, d2: int, n: int, d: int)
    requires
        d > 0,
        n1 * d == n * d1,
        n2 * d == n * d2,
    ensures
        n1 * d2 == n2 * d1,
{
    assert((n1 * d2) * d == (n1 * d) * d2) by (nonlinear_arith);
    assert((n * d1) * d2 == (n * d2) * d1) by (nonlinear_arith);
    assert((n2 * d) * d1 == (n2 * d1) * d) by (nonlinear_arith);
    assert(n1 * d2 == n2 * d1) by (nonlinear_arith)
        requires
            (n1 * d2) * d == (n2 * d1) * d,
            d > 0,
    ;
}

/// The sum of two surds is one surd: the outcome of an addition is determined.
pub proof fn law_sum_is_unique(a: SurdParts, b: SurdParts, t1: SurdParts, t2: SurdParts)
    requires
        a.denom > 0,
        b.denom > 0,
        is_sum(a, b, t1),
        is_sum(a, b, t2),
    ensures
        t1 == t2,
{
    assert(a.denom * b.denom > 0) by (nonlinear_arith)
        requires
            a.denom > 0,
            b.denom > 0,
    ;
    lemma_reduced_form_is_unique(
        t1,
        t2,
        a.numer * b.denom + b.numer * a.denom,
        a.coeff * b.denom + b.coeff * a.denom,
        a.denom * b.denom,
        field_radicand(a, b),
    );
}

/// The product of two surds of one field is one surd.
pub proof fn law_product_is_unique(a: SurdParts, b: SurdParts, t1: SurdParts, t2: SurdParts)
    requires
        a.denom > 0,
        b.denom > 0,
        same_field(a, b),
        is_product(a, b, t1),
        is_product(a, b, t2),
    ensures
        t1 == t2,
{
    assert(a.denom * b.denom > 0) by (nonlinear_arith)
        requires
            a.denom > 0,
            b.denom > 0,
    ;
    lemma_reduced_form_is_unique(
        t1,
        t2,
        a.numer * b.numer + a.coeff * b.coeff * field_radicand(a, b),
        a.numer * b.coeff + a.coeff * b.numer,
        a.denom * b.denom,
        field_radicand(a, b),
    );
}

/// Adding zero changes nothing: the sum of a canonical surd and `0`, and of `0`
/// and the surd, is the surd.
pub proof fn law_sum_with_zero(a: SurdParts, t: SurdParts)
    requires
        a.wf(),
        is_sum(a, SurdParts::integer(0), t) || is_sum(SurdParts::integer(0), a, t),
    ensures
        t == a,
{
    let zero = SurdParts::integer(0);
    assert(a.numer * (a.denom * 1) == (a.numer * 1 + 0 * a.denom) * a.denom) by (nonlinear_arith);
    assert(a.coeff * (a.denom * 1) == (a.coeff * 1 + 0 * a.denom) * a.denom) by (nonlinear_arith);
    assert(a.numer * (1 * a.denom) == (0 * a.denom + a.numer * 1) * a.denom) by (nonlinear_arith);
    assert(a.coeff * (1 * a.denom) == (0 * a.denom + a.coeff * 1) * a.denom) by (nonlinear_arith);
    if is_sum(a, zero, t) {
        assert(is_sum(a, zero, a));
        law_sum_is_unique(a, zero, t, a);
    } else {
        assert(is_sum(zero, a, a));
        law_sum_is_unique(zero, a, t, a);
    }
}

/// Taking zero off changes nothing.
pub proof fn law_difference_with_zero(a: SurdParts, t: SurdParts)
    requires
        a.wf(),
        is_difference(a, SurdParts::integer(0), t),
    ensures
        t == a,
{
    assert(a.numer * (a.denom * 1) == (a.numer * 1 - 0 * a.denom) * a.denom) by (nonlinear_arith);
    assert(a.coeff * (a.denom * 1) == (a.coeff * 1 - 0 * a.denom) * a.denom) by (nonlinear_arith);
    assert(is_difference(a, SurdParts::integer(0), a));
    assert(a.denom * 1 > 0);
    lemma_reduced_form_is_unique(
        t,
        a,
        a.numer * 1 - 0 * a.denom,
        a.coeff * 1 - 0 * a.denom,
        a.denom * 1,
        field_radicand(a, SurdParts::integer(0)),
    );
}

/// Multiplying by one changes nothing: the product of a canonical surd and `1`,
/// and of `1` and the surd, is the surd.
pub proof fn law_product_with_one(a: SurdParts, t: SurdParts)
    requires
        a.wf(),
        is_product(a, SurdParts::integer(1), t) || is_product(SurdParts::integer(1), a, t),
    ensures
        t == a,
{
    let one = SurdParts::integer(1);
    let r = a.radicand;
    assert(a.numer * (a.denom * 1) == (a.numer * 1 + a.coeff * 0 * r) * a.denom)
        by (nonlinear_arith);
    assert(a.coeff * (a.denom * 1) == (a.numer * 0 + a.coeff * 1) * a.denom) by (nonlinear_arith);
    assert(a.numer * (1 * a.denom) == (1 * a.numer + 0 * a.coeff * r) * a.denom)
        by (nonlinear_arith);
    assert(a.coeff * (1 * a.denom) == (1 * a.coeff + 0 * a.numer) * a.denom) by (nonlinear_arith);
    if is_product(a, one, t) {
        assert(is_product(a, one, a));
        law_product_is_unique(a, one, t, a);
    } else {
        assert(is_product(one, a, a));
        law_product_is_unique(one, a, t, a);
    }
}

/// Multiplying by zero gives zero.
pub proof fn law_product_with_zero(a: SurdParts, t: SurdParts)
    requires
        a.wf(),
        is_product(a, SurdParts::integer(0), t) || is_product(SurdParts::integer(0), a, t),
    ensures
        t == SurdParts::integer(0),
{
    let zero = SurdParts::integer(0);
    let r = a.radicand;
    lemma_integer_wf(0);
    assert(0 * (a.denom * 1) == (a.numer * 0 + a.coeff * 0 * r) * 1) by (nonlinear_arith);
    assert(0 * (a.denom * 1) == (a.numer * 0 + a.coeff * 0) * 1) by (nonlinear_arith);
    assert(0 * (1 * a.denom) == (0 * a.numer + 0 * a.coeff * r) * 1) by (nonlinear_arith);
    assert(0 * (1 * a.denom) == (0 * a.coeff + 0 * a.numer) * 1) by (nonlinear_arith);
    if is_product(a, zero, t) {
        assert(is_product(a, zero, zero));
        law_product_is_unique(a, zero, t, zero);
    } else {
        assert(is_product(zero, a, zero));
        law_product_is_unique(zero, a, t, zero);
    }
}

/// Sums and products do not depend on the order of the operands.
pub proof fn law_sum_and_product_commute(a: SurdParts, b: SurdParts, t: SurdParts)
    requires
        a.wf(),
        b.wf(),
        same_field(a, b),
    ensures
        is_sum(a, b, t) <==> is_sum(b, a, t),
        is_product(a, b, t) <==> is_product(b, a, t),
{
    let r = field_radicand(a, b);
    assert(field_radicand(b, a) == r);
    assert(a.denom * b.denom == b.denom * a.denom) by (nonlinear_arith);
    assert(a.numer * b.numer + a.coeff * b.coeff * r == b.numer * a.numer + b.coeff * a.coeff * r)
        by (nonlinear_arith);
    assert(a.numer * b.coeff + a.coeff * b.numer == b.numer * a.coeff + b.coeff * a.numer)
        by (nonlinear_arith);
}

/// Where `sn/sd` is worth `n1/d1`, the sum of `sn/sd` and `cn/cd` is worth the
/// sum of `n1/d1` and `cn/cd`.
proof fn lemma_nested_sum(tn: int, td: int, sn: int, sd: int, n1: int, d1: int, cn: int, cd: int)
    requires
        sd > 0,
        sn * d1 == n1 * sd,
        tn * (sd * cd) == (sn * cd + cn * sd) * td,
    ensures
        tn * (d1 * cd) == (n1 * cd + cn * d1) * td,
{
    let x = tn * cd;
    let u = cd * td;
    let v = cn * td;
    // The given equation, sorted by the factor `sd`.
    assert(tn * (sd * cd) == x * sd) by (nonlinear_arith)
        requires
            x == tn * cd,
    ;
    let w = sn * cd;
    let z = cn * sd;
    assert((w + z) * td == w * td + z * td) by (nonlinear_arith);
    assert(w * td == sn * u) by (nonlinear_arith)
        requires
            w == sn * cd,
            u == cd * td,
    ;
    assert(z * td == v * sd) by (nonlinear_arith)
        requires
            z == cn * sd,
            v == cn * td,
    ;
    assert(x * sd == sn * u + v * sd);
    // Multiplied by `d1`, with `sn·d1` exchanged for `n1·sd`.
    let g = sn * u;
    let h = v * sd;
    assert((g + h) * d1 == g * d1 + h * d1) by (nonlinear_arith);
    assert(g * d1 == (sn * d1) * u) by (nonlinear_arith)
        requires
            g == sn * u,
    ;
    assert((n1 * sd) * u == (n1 * u) * sd) by (nonlinear_arith);
    assert(h * d1 == (v * d1) * sd) by (nonlinear_arith)
        requires
            h == v * sd,
    ;
    assert((x * sd) * d1 == (x * d1) * sd) by (nonlinear_arith);
    let m = n1 * u;
    let e = v * d1;
    assert(m * sd + e * sd == (m + e) * sd) by (nonlinear_arith);
    assert((x * d1) * sd == (m + e) * sd);
    assert(x * d1 == m + e) by (nonlinear_arith)
        requires
            (x * d1) * sd == (m + e) * sd,
            sd > 0,
    ;
    assert(x * d1 == tn * (d1 * cd)) by (nonlinear_arith)
        requires
            x == tn * cd,
    ;
    let f = n1 * cd;
    let j = cn * d1;
    assert((f + j) * td == f * td + j * td) by (nonlinear_arith);
    assert(f * td == m) by (nonlinear_arith)
        requires
            f == n1 * cd,
            m == n1 * u,
            u == cd * td,
    ;
    assert(j * td == e) by (nonlinear_arith)
        requires
            j == cn * d1,
            e == v * d1,
            v == cn * td,
    ;
}

/// Sums are associative: `(a + b) + c` and `a + (b + c)` are the same surd, for
/// surds of one field with the radicand `r`.
pub proof fn law_sum_is_associative(
    a: SurdParts,
    b: SurdParts,
    c: SurdParts,
    r: int,
    ab: SurdParts,
    bc: SurdParts,
    left: SurdParts,
    right: SurdParts,
)
    requires
        a.denom > 0 && (a.coeff != 0 ==> a.radicand == r),
        b.denom > 0 && (b.coeff != 0 ==> b.radicand == r),
        c.denom > 0 && (c.coeff != 0 ==> c.radicand == r),
        is_sum(a, b, ab),
        is_sum(ab, c, left),
        is_sum(b, c, bc),
        is_sum(a, bc, right),
    ensures
        left == right,
{
    let d = a.denom * b.denom * c.denom;
    let n = a.numer * b.denom * c.denom + b.numer * a.denom * c.denom + c.numer * a.denom
        * b.denom;
    let k = a.coeff * b.denom * c.denom + b.coeff * a.denom * c.denom + c.coeff * a.denom
        * b.denom;
    let dab = a.denom * b.denom;
    let dbc = b.denom * c.denom;
    assert(dab > 0 && dbc > 0 && d > 0) by (nonlinear_arith)
        requires
            dab == a.denom * b.denom,
            dbc == b.denom * c.denom,
            d == a.denom * b.denom * c.denom,
            a.denom > 0,
            b.denom > 0,
            c.denom > 0,
    ;
    // The left sum is worth n/d and k/d.
    lemma_nested_sum(
        left.numer,
        left.denom,
        ab.numer,
        ab.denom,
        a.numer * b.denom + b.numer * a.denom,
        dab,
        c.numer,
        c.denom,
    );
    lemma_nested_sum(
        left.coeff,
        left.denom,
        ab.coeff,
        ab.denom,
        a.coeff * b.denom + b.coeff * a.denom,
        dab,
        c.coeff,
        c.denom,
    );
    assert(dab * c.denom == d);
    assert((a.numer * b.denom + b.numer * a.denom) * c.denom + c.numer * dab == n)
        by (nonlinear_arith)
        requires
            dab == a.denom * b.denom,
            n == a.numer * b.denom * c.denom + b.numer * a.denom * c.denom + c.numer * a.denom
                * b.denom,
    ;
    assert((a.coeff * b.denom + b.coeff * a.denom) * c.denom + c.coeff * dab == k)
        by (nonlinear_arith)
        requires
            dab == a.denom * b.denom,
            k == a.coeff * b.denom * c.denom + b.coeff * a.denom * c.denom + c.coeff * a.denom
                * b.denom,
    ;
    // So is the right sum.
    assert(right.numer * (bc.denom * a.denom) == (bc.numer * a.denom + a.numer * bc.denom)
        * right.denom) by (nonlinear_arith)
        requires
            right.numer * (a.denom * bc.denom) == (a.numer * bc.denom + bc.numer * a.denom)
                * right.denom,
    ;
    assert(right.coeff * (bc.denom * a.denom) == (bc.coeff * a.denom + a.coeff * bc.denom)
        * right.denom) by (nonlinear_arith)
        requires
            right.coeff * (a.denom * bc.denom) == (a.coeff * bc.denom + bc.coeff * a.denom)
                * right.denom,
    ;
    lemma_nested_sum(
        right.numer,
        right.denom,
        bc.numer,
        bc.denom,
        b.numer * c.denom + c.numer * b.denom,
        dbc,
        a.numer,
        a.denom,
    );
    lemma_nested_sum(
        right.coeff,
        right.denom,
        bc.coeff,
        bc.denom,
        b.coeff * c.denom + c.coeff * b.denom,
        dbc,
        a.coeff,
        a.denom,
    );
    assert(dbc * a.denom == d) by (nonlinear_arith)
        requires
            dbc == b.denom * c.denom,
            d == a.denom * b.denom * c.denom,
    ;
    assert((b.numer * c.denom + c.numer * b.denom) * a.denom + a.numer * dbc == n)
        by (nonlinear_arith)
        requires
            dbc == b.denom * c.denom,
            n == a.numer * b.denom * c.denom + b.numer * a.denom * c.denom + c.numer * a.denom
                * b.denom,
    ;
    assert((b.coeff * c.denom + c.coeff * b.denom) * a.denom + a.coeff * dbc == k)
        by (nonlinear_arith)
        requires
            dbc == b.denom * c.denom,
            k == a.coeff * b.denom * c.denom + b.coeff * a.denom * c.denom + c.coeff * a.denom
                * b.denom,
    ;
    // A sum has a root only if one of the operands has one, and then it is the
    // root of `r`.
    lemma_root_of_a_sum(a, b, r, ab);
    lemma_root_of_a_sum(b, c, r, bc);
    lemma_root_of_a_sum(ab, c, r, left);
    lemma_root_of_a_sum(a, bc, r, right);
    lemma_cross(left.numer, left.denom, right.numer, right.denom, n, d);
    lemma_cross(left.coeff, left.denom, right.coeff, right.denom, k, d);
    lemma_lowest_terms_are_unique(
        left.numer,
        left.coeff,
        left.denom,
        right.numer,
        right.coeff,
        right.denom,
    );
}

/// The sum of two surds of the field of `√r` is a surd of that field.
proof fn lemma_root_of_a_sum(a: SurdParts, b: SurdParts, r: int, t: SurdParts)
    requires
        a.denom > 0 && (a.coeff != 0 ==> a.radicand == r),
        b.denom > 0 && (b.coeff != 0 ==> b.radicand == r),
        is_sum(a, b, t),
    ensures
        t.denom > 0,
        t.coeff != 0 ==> t.radicand == r,
        t.coeff == 0 ==> t.radicand == 0,
{
    if a.coeff == 0 && b.coeff == 0 {
        let d = a.denom * b.denom;
        assert(d > 0) by (nonlinear_arith)
            requires
                d == a.denom * b.denom,
                a.denom > 0,
                b.denom > 0,
        ;
        assert(a.coeff * b.denom + b.coeff * a.denom == 0) by (nonlinear_arith)
            requires
                a.coeff == 0,
                b.coeff == 0,
        ;
        assert(t.coeff == 0) by (nonlinear_arith)
            requires
                t.coeff * d == 0 * t.denom,
                d > 0,
        ;
    }
}

/// Where `s1/sd` is worth `n1/d1` and `s2/sd` is worth `n2/d1`, a fraction worth
/// `(s1·c1 + s2·c2) / (sd·cd)` is worth `(n1·c1 + n2·c2) / (d1·cd)`.
proof fn lemma_nested(
    tn: int,
    td: int,
    s1: int,
    s2: int,
    sd: int,
    n1: int,
    n2: int,
    d1: int,
    c1: int,
    c2: int,
    cd: int,
)
    requires
        sd > 0,
        s1 * d1 == n1 * sd,
        s2 * d1 == n2 * sd,
        tn * (sd * cd) == (s1 * c1 + s2 * c2) * td,
    ensures
        tn * (d1 * cd) == (n1 * c1 + n2 * c2) * td,
{
    let x = tn * cd;
    let u1 = c1 * td;
    let u2 = c2 * td;
    assert(tn * (sd * cd) == x * sd) by (nonlinear_arith)
        requires
            x == tn * cd,
    ;
    let w = s1 * c1;
    let z = s2 * c2;
    assert((w + z) * td == w * td + z * td) by (nonlinear_arith);
    assert(w * td == s1 * u1) by (nonlinear_arith)
        requires
            w == s1 * c1,
            u1 == c1 * td,
    ;
    assert(z * td == s2 * u2) by (nonlinear_arith)
        requires
            z == s2 * c2,
            u2 == c2 * td,
    ;
    let g = s1 * u1;
    let h = s2 * u2;
    assert(x * sd == g + h);
    assert((g + h) * d1 == g * d1 + h * d1) by (nonlinear_arith);
    assert(g * d1 == (s1 * d1) * u1) by (nonlinear_arith)
        requires
            g == s1 * u1,
    ;
    assert(h * d1 == (s2 * d1) * u2) by (nonlinear_arith)
        requires
            h == s2 * u2,
    ;
    assert((n1 * sd) * u1 == (n1 * u1) * sd) by (nonlinear_arith);
    assert((n2 * sd) * u2 == (n2 * u2) * sd) by (nonlinear_arith);
    assert((x * sd) * d1 == (x * d1) * sd) by (nonlinear_arith);
    let m = n1 * u1;
    let e = n2 * u2;
    assert(m * sd + e * sd == (m + e) * sd) by (nonlinear_arith);
    assert((x * d1) * sd == (m + e) * sd);
    assert(x * d1 == m + e) by (nonlinear_arith)
        requires
            (x * d1) * sd == (m + e) * sd,
            sd > 0,
    ;
    assert(x * d1 == tn * (d1 * cd)) by (nonlinear_arith)
        requires
            x == tn * cd,
    ;
    let f = n1 * c1;
    let j = n2 * c2;
    assert((f + j) * td == f * td + j * td) by (nonlinear_arith);
    assert(f * td == m) by (nonlinear_arith)
        requires
            f == n1 * c1,
            m == n1 * u1,
            u1 == c1 * td,
    ;
    assert(j * td == e) by (nonlinear_arith)
        requires
            j == n2 * c2,
            e == n2 * u2,
            u2 == c2 * td,
    ;
}

/// The product of two surds of the field of `√r` is a surd of that field.
proof fn lemma_root_of_a_product(a: SurdParts, b: SurdParts, r: int, t: SurdParts)
    requires
        a.denom > 0 && (a.coeff != 0 ==> a.radicand == r),
        b.denom > 0 && (b.coeff != 0 ==> b.radicand == r),
        a.coeff == 0 <==> a.radicand == 0,
        b.coeff == 0 <==> b.radicand == 0,
        is_product(a, b, t),
    ensures
        same_field(a, b),
        t.denom > 0,
        t.coeff != 0 ==> t.radicand == r,
        t.coeff == 0 <==> t.radicand == 0,
        a.coeff != 0 || b.coeff != 0 ==> field_radicand(a, b) == r,
{
    if a.coeff == 0 && b.coeff == 0 {
        let d = a.denom * b.denom;
        assert(d > 0) by (nonlinear_arith)
            requires
                d == a.denom * b.denom,
                a.denom > 0,
                b.denom > 0,
        ;
        assert(a.numer * b.coeff + a.coeff * b.numer == 0) by (nonlinear_arith)
            requires
                a.coeff == 0,
                b.coeff == 0,
        ;
        assert(t.coeff == 0) by (nonlinear_arith)
            requires
                t.coeff * d == 0 * t.denom,
                d > 0,
        ;
    }
}

/// Products are associative: `(a · b) · c` and `a · (b · c)` are the same surd,
/// for canonical surds of one field with the radicand `r`.
pub proof fn law_product_is_associative(
    a: SurdParts,
    b: SurdParts,
    c: SurdParts,
    r: int,
    ab: SurdParts,
    bc: SurdParts,
    left: SurdParts,
    right: SurdParts,
)
    requires
        a.denom > 0 && (a.coeff != 0 ==> a.radicand == r) && (a.coeff == 0 <==> a.radicand == 0),
        b.denom > 0 && (b.coeff != 0 ==> b.radicand == r) && (b.coeff == 0 <==> b.radicand == 0),
        c.denom > 0 && (c.coeff != 0 ==> c.radicand == r) && (c.coeff == 0 <==> c.radicand == 0),
        is_product(a, b, ab),
        is_product(ab, c, left),
        is_product(b, c, bc),
        is_product(a, bc, right),
    ensures
        left == right,
{
    lemma_root_of_a_product(a, b, r, ab);
    lemma_root_of_a_product(b, c, r, bc);
    lemma_root_of_a_product(ab, c, r, left);
    lemma_root_of_a_product(a, bc, r, right);
    let dab = a.denom * b.denom;
    let dbc = b.denom * c.denom;
    let d = a.denom * b.denom * c.denom;
    assert(dab > 0 && dbc > 0 && d > 0) by (nonlinear_arith)
        requires
            dab == a.denom * b.denom,
            dbc == b.denom * c.denom,
            d == a.denom * b.denom * c.denom,
            a.denom > 0,
            b.denom > 0,
            c.denom > 0,
    ;
    // The parts of a·b and of b·c, before they are reduced.
    let nab = a.numer * b.numer + a.coeff * b.coeff * r;
    let kab = a.numer * b.coeff + a.coeff * b.numer;
    let nbc = b.numer * c.numer + b.coeff * c.coeff * r;
    let kbc = b.numer * c.coeff + b.coeff * c.numer;
    lemma_product_parts(a, b, r);
    lemma_product_parts(b, c, r);
    lemma_product_parts(ab, c, r);
    lemma_product_parts(a, bc, r);
    // The left product is worth (nab·c.numer + kab·(c.coeff·r)) / d, and its root
    // has the multiplier (nab·c.coeff + kab·c.numer) / d.
    assert(ab.coeff * c.coeff * r == ab.coeff * (c.coeff * r)) by (nonlinear_arith);
    lemma_nested(
        left.numer,
        left.denom,
        ab.numer,
        ab.coeff,
        ab.denom,
        nab,
        kab,
        dab,
        c.numer,
        c.coeff * r,
        c.denom,
    );
    lemma_nested(
        left.coeff,
        left.denom,
        ab.numer,
        ab.coeff,
        ab.denom,
        nab,
        kab,
        dab,
        c.coeff,
        c.numer,
        c.denom,
    );
    // The right product likewise, with a in the place of c.
    assert(a.numer * bc.numer + a.coeff * bc.coeff * r == bc.numer * a.numer + bc.coeff * (a.coeff
        * r)) by (nonlinear_arith);
    assert(a.numer * bc.coeff + a.coeff * bc.numer == bc.numer * a.coeff + bc.coeff * a.numer)
        by (nonlinear_arith);
    assert(a.denom * bc.denom == bc.denom * a.denom) by (nonlinear_arith);
    lemma_nested(
        right.numer,
        right.denom,
        bc.numer,
        bc.coeff,
        bc.denom,
        nbc,
        kbc,
        dbc,
        a.numer,
        a.coeff * r,
        a.denom,
    );
    lemma_nested(
        right.coeff,
        right.denom,
        bc.numer,
        bc.coeff,
        bc.denom,
        nbc,
        kbc,
        dbc,
        a.coeff,
        a.numer,
        a.denom,
    );
    // Both are fractions over d with the same numerators.
    assert(dab * c.denom == d);
    assert(dbc * a.denom == d) by (nonlinear_arith)
        requires
            dbc == b.denom * c.denom,
            d == a.denom * b.denom * c.denom,
    ;
    lemma_triple_product(a.numer, a.coeff, b.numer, b.coeff, c.numer, c.coeff, r);
    lemma_cross(
        left.numer,
        left.denom,
        right.numer,
        right.denom,
        nab * c.numer + kab * (c.coeff * r),
        d,
    );
    lemma_cross(
        left.coeff,
        left.denom,
        right.coeff,
        right.denom,
        nab * c.coeff + kab * c.numer,
        d,
    );
    lemma_lowest_terms_are_unique(
        left.numer,
        left.coeff,
        left.denom,
        right.numer,
        right.coeff,
        right.denom,
    );
}

/// What `is_product` says of two surds of the field of `√r`.
proof fn lemma_product_parts(a: SurdParts, b: SurdParts, r: int)
    requires
        a.coeff != 0 ==> a.radicand == r,
        b.coeff != 0 ==> b.radicand == r,
        a.coeff == 0 <==> a.radicand == 0,
        b.coeff == 0 <==> b.radicand == 0,
    ensures
        same_field(a, b),
        a.coeff * b.coeff * field_radicand(a, b) == a.coeff * b.coeff * r,
{
    if a.coeff == 0 || b.coeff == 0 {
        assert(a.coeff * b.coeff == 0) by (nonlinear_arith)
            requires
                a.coeff == 0 || b.coeff == 0,
        ;
        assert(0 * field_radicand(a, b) == 0 * r);
    }
}

/// The product of three numbers with a root does not depend on where the
/// brackets stand.
proof fn lemma_triple_product(an: int, ak: int, bn: int, bk: int, cn: int, ck: int, r: int)
    ensures
        (an * bn + ak * bk * r) * cn + (an * bk + ak * bn) * (ck * r) == (bn * cn + bk * ck * r)
            * an + (bn * ck + bk * cn) * (ak * r),
        (an * bn + ak * bk * r) * ck + (an * bk + ak * bn) * cn == (bn * cn + bk * ck * r) * ak
            + (bn * ck + bk * cn) * an,
{
    let cr = ck * r;
    let ar = ak * r;
    // The eight products of one part of each of the three numbers.
    let nnn = an * bn * cn;
    let nnk = an * bn * ck;
    let nkn = an * bk * cn;
    let knn = ak * bn * cn;
    let nkk = an * bk * cr;
    let knk = ak * bn * cr;
    let kkn = ak * bk * r * cn;
    let kkk = ak * bk * r * ck;
    // (a·b)·c
    lemma_two_by_one(an * bn, ak * bk * r, cn);
    lemma_two_by_one(an * bk, ak * bn, cr);
    lemma_two_by_one(an * bn, ak * bk * r, ck);
    lemma_two_by_one(an * bk, ak * bn, cn);
    // a·(b·c)
    lemma_two_by_one(bn * cn, bk * ck * r, an);
    lemma_two_by_one(bn * ck, bk * cn, ar);
    lemma_two_by_one(bn * cn, bk * ck * r, ak);
    lemma_two_by_one(bn * ck, bk * cn, an);
    lemma_swap(bn, cn, an);
    assert((bk * ck * r) * an == nkk) by {
        lemma_swap(bk, cr, an);
        assert(bk * ck * r == bk * cr) by (nonlinear_arith)
            requires
                cr == ck * r,
        ;
    }
    assert((bn * ck) * ar == knk) by {
        assert((bn * ck) * ar == (ak * bn) * cr) by (nonlinear_arith)
            requires
                ar == ak * r,
                cr == ck * r,
        ;
    }
    assert((bk * cn) * ar == kkn) by {
        assert((bk * cn) * ar == ((ak * bk) * r) * cn) by (nonlinear_arith)
            requires
                ar == ak * r,
        ;
    }
    lemma_swap(bn, cn, ak);
    assert((bk * ck * r) * ak == kkk) by {
        assert((bk * ck * r) * ak == ((ak * bk) * r) * ck) by (nonlinear_arith);
    }
    lemma_swap(bn, ck, an);
    lemma_swap(bk, cn, an);
}

/// `(x + y)·z` written out.
proof fn lemma_two_by_one(x: int, y: int, z: int)
    ensures
        (x + y) * z == x * z + y * z,
{
    assert((x + y) * z == x * z + y * z) by (nonlinear_arith);
}

/// `(x·y)·z` with the last factor brought to the front.
proof fn lemma_swap(x: int, y: int, z: int)
    ensures
        (x * y) * z == (z * x) * y,
{
    assert((x * y) * z == (z * x) * y) by (nonlinear_arith);
}

/// A sum, a difference or a product of two canonical surds of one field is
/// stored whenever its parts are 64-bit integers: nothing else is asked of it.
pub proof fn law_outcome_is_stored_if_it_fits(a: SurdParts, b: SurdParts, t: SurdParts)
    requires
        a.wf(),
        b.wf(),
        same_field(a, b),
        is_sum(a, b, t) || is_difference(a, b, t) || is_product(a, b, t),
        t.representable(),
    ensures
        t.wf(),
{
    if a.coeff == 0 && b.coeff == 0 {
        // Without a root in the operands there is none in the outcome.
        let d = a.denom * b.denom;
        assert(d > 0) by (nonlinear_arith)
            requires
                d == a.denom * b.denom,
                a.denom > 0,
                b.denom > 0,
        ;
        assert(a.coeff * b.denom + b.coeff * a.denom == 0) by (nonlinear_arith)
            requires
                a.coeff == 0,
                b.coeff == 0,
        ;
        assert(a.coeff * b.denom - b.coeff * a.denom == 0) by (nonlinear_arith)
            requires
                a.coeff == 0,
                b.coeff == 0,
        ;
        assert(a.numer * b.coeff + a.coeff * b.numer == 0) by (nonlinear_arith)
            requires
                a.coeff == 0,
                b.coeff == 0,
        ;
        assert(t.coeff * d == 0 * t.denom);
        assert(t.coeff == 0) by (nonlinear_arith)
            requires
                t.coeff * d == 0,
                d > 0,
        ;
    }
}

/// Exactness: `1/√2` multiplied by itself is `1/2`, the product multiplied by
/// `1/√2` is `√2/4`, and that multiplied by `1/√2` is `1/4`, without a root.
pub proof fn law_inv_sqrt2_to_the_fourth(square: SurdParts, cube: SurdParts, fourth: SurdParts)
    requires
        is_product(SurdParts::inv_sqrt2(), SurdParts::inv_sqrt2(), square),
        is_product(square, SurdParts::inv_sqrt2(), cube),
        is_product(cube, SurdParts::inv_sqrt2(), fourth),
    ensures
        square == (SurdParts { numer: 1, coeff: 0, denom: 2, radicand: 0 }),
        cube == (SurdParts { numer: 0, coeff: 1, denom: 4, radicand: 2 }),
        fourth == (SurdParts { numer: 1, coeff: 0, denom: 4, radicand: 0 }),
        fourth.coeff == 0 && fourth.radicand == 0,
{
    let root = SurdParts::inv_sqrt2();
    let half = SurdParts { numer: 1, coeff: 0, denom: 2, radicand: 0 };
    let quarter_root = SurdParts { numer: 0, coeff: 1, denom: 4, radicand: 2 };
    let quarter = SurdParts { numer: 1, coeff: 0, denom: 4, radicand: 0 };
    assert forall|k: int| k >= 2 implies !#[trigger] common_divisor(k, 1, 0, 2) by {
        lemma_small_mod(1, k as nat);
    }
    assert forall|k: int| k >= 2 implies !#[trigger] common_divisor(k, 0, 1, 4) by {
        lemma_small_mod(1, k as nat);
    }
    assert forall|k: int| k >= 2 implies !#[trigger] common_divisor(k, 1, 0, 4) by {
        lemma_small_mod(1, k as nat);
    }
    assert(is_product(root, root, half));
    law_product_is_unique(root, root, square, half);
    assert(is_product(half, root, quarter_root));
    law_product_is_unique(half, root, cube, quarter_root);
    assert(is_product(quarter_root, root, quarter));
    law_product_is_unique(quarter_root, root, fourth, quarter);
}

} // verus!
