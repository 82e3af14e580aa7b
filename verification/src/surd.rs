//! Quadratic surds: exact numbers of the form `(numer + coeff·√radicand) / denom`.
//!
//! A surd is stored in canonical form, so that two surds denote the same number
//! exactly when their four parts agree.

use vstd::prelude::*;
use vstd::arithmetic::div_mod::{
    lemma_add_mod_noop,
    lemma_fundamental_div_mod,
    lemma_mod_multiples_basic,
    lemma_mod_bound,
    lemma_mod_self_0,
    lemma_mul_mod_noop,
    lemma_small_mod,
    lemma_sub_mod_noop,
};

verus! {

/// Largest radicand of a stored surd.
pub const RADICAND_LIMIT: i64 = 32768;

/// `k` divides `n`.
pub open spec fn divides(k: int, n: int) -> bool {
    n % k == 0
}

/// The square of `k` divides `r`.
pub open spec fn square_divides(k: int, r: int) -> bool {
    r % (k * k) == 0
}

/// No square other than 1 divides `r`.
pub open spec fn square_free(r: int) -> bool {
    forall|k: int| k >= 2 ==> !#[trigger] square_divides(k, r)
}

/// `k` divides each of the three numbers.
pub open spec fn common_divisor(k: int, n: int, b: int, d: int) -> bool {
    divides(k, n) && divides(k, b) && divides(k, d)
}

/// The three numbers have no common divisor other than 1.
pub open spec fn lowest_terms(n: int, b: int, d: int) -> bool {
    forall|k: int| k >= 2 ==> !#[trigger] common_divisor(k, n, b, d)
}

/// The mathematical content of a surd: four integers standing for
/// `(numer + coeff·√radicand) / denom`.
pub struct SurdParts {
    pub numer: int,
    pub coeff: int,
    pub denom: int,
    pub radicand: int,
}

impl SurdParts {
    /// Every part is a 64-bit integer.
    pub open spec fn representable(self) -> bool {
        &&& i64::MIN <= self.numer <= i64::MAX
        &&& i64::MIN <= self.coeff <= i64::MAX
        &&& i64::MIN <= self.denom <= i64::MAX
        &&& i64::MIN <= self.radicand <= i64::MAX
    }

    /// The canonical form: a positive denominator, a radical part that is either
    /// absent (`coeff == 0`, `radicand == 0`) or has a square-free radicand between
    /// 2 and `RADICAND_LIMIT`, and the three coefficients in lowest terms.
    pub open spec fn wf(self) -> bool {
        &&& self.representable()
        &&& self.denom > 0
        &&& (self.coeff == 0 <==> self.radicand == 0)
        &&& (self.radicand == 0 || (2 <= self.radicand <= RADICAND_LIMIT && square_free(
            self.radicand,
        )))
        &&& lowest_terms(self.numer, self.coeff, self.denom)
    }

    /// The surd has no radical part.
    pub open spec fn is_rational(self) -> bool {
        self.coeff == 0
    }

    /// The surd has a radical part and nothing else.
    pub open spec fn is_pure(self) -> bool {
        self.numer == 0 && self.coeff != 0
    }

    /// The surd is an integer.
    pub open spec fn is_integer(self) -> bool {
        self.coeff == 0 && self.denom == 1
    }

    /// The parts of the integer `n`.
    pub open spec fn integer(n: int) -> SurdParts {
        SurdParts { numer: n, coeff: 0, denom: 1, radicand: 0 }
    }

    /// The parts of `1/√2`, written `(0 + 1·√2) / 2`.
    pub open spec fn inv_sqrt2() -> SurdParts {
        SurdParts { numer: 0, coeff: 1, denom: 2, radicand: 2 }
    }
}

/// An exact number `(numer + coeff·√radicand) / denom` in canonical form.
#[derive(Clone, Copy, Debug, PartialEq, Eq, Structural, Hash)]
pub struct QuadraticSurd {
    numer: i64,
    coeff: i64,
    denom: i64,
    radicand: i64,
}

impl View for QuadraticSurd {
    type V = SurdParts;

    closed spec fn view(&self) -> SurdParts {
        SurdParts {
            numer: self.numer as int,
            coeff: self.coeff as int,
            denom: self.denom as int,
            radicand: self.radicand as int,
        }
    }
}

/// Multiples of `k` are closed under taking the remainder by one another.
proof fn lemma_divides_remainder(k: int, x: int, y: int)
    requires
        k > 0,
        y > 0,
    ensures
        (divides(k, x) && divides(k, y)) <==> (divides(k, y) && divides(k, x % y)),
{
    lemma_fundamental_div_mod(x, y);
    let q = x / y;
    let r = x % y;
    if divides(k, y) {
        lemma_mul_mod_noop(y, q, k);
        assert((y * q) % k == 0) by {
            assert(((y % k) * (q % k)) % k == 0) by (nonlinear_arith)
                requires
                    y % k == 0,
                    k > 0,
            ;
        }
        if divides(k, x) {
            lemma_sub_mod_noop(x, y * q, k);
        }
        if divides(k, r) {
            lemma_add_mod_noop(y * q, r, k);
        }
    }
}

/// The greatest common divisor of two numbers, by Euclid's algorithm: its
/// divisors are exactly the common divisors of `a` and `b`.
fn gcd(a: u64, b: u64) -> (g: u64)
    ensures
        a > 0 || b > 0 ==> g > 0,
        forall|k: int|
            k > 0 ==> ((divides(k, a as int) && divides(k, b as int)) <==> #[trigger] divides(
                k,
                g as int,
            )),
{
    let mut x: u64 = a;
    let mut y: u64 = b;
    while y != 0
        invariant
            a > 0 || b > 0 ==> x > 0 || y > 0,
            forall|k: int|
                k > 0 ==> ((divides(k, a as int) && divides(k, b as int)) <==> (#[trigger] divides(
                    k,
                    x as int,
                ) && divides(k, y as int))),
        decreases y,
    {
        let r: u64 = x % y;
        proof {
            assert forall|k: int| k > 0 implies ((divides(k, a as int) && divides(k, b as int))
                <==> (#[trigger] divides(k, y as int) && divides(k, r as int))) by {
                lemma_divides_remainder(k, x as int, y as int);
                assert((divides(k, a as int) && divides(k, b as int)) <==> (divides(k, x as int)
                    && divides(k, y as int)));
            }
        }
        x = y;
        y = r;
    }
    x
}

/// The absolute value of a part.
fn magnitude(n: i64) -> (m: u64)
    ensures
        m == n || m == -n,
        forall|k: int| k > 0 ==> (#[trigger] divides(k, m as int) <==> divides(k, n as int)),
{
    if n < 0 {
        proof {
            assert forall|k: int| k > 0 implies (#[trigger] divides(k, -n as int) <==> divides(
                k,
                n as int,
            )) by {
                lemma_sub_mod_noop(0, n as int, k);
                lemma_sub_mod_noop(0, -n as int, k);
                lemma_small_mod(0, k as nat);
            }
        }
        (-(n as i128)) as u64
    } else {
        n as u64
    }
}

/// Decides whether three parts, the last one positive, are in lowest terms.
fn in_lowest_terms(n: i64, b: i64, d: i64) -> (ok: bool)
    requires
        0 < d,
    ensures
        ok == lowest_terms(n as int, b as int, d as int),
{
    let g1 = gcd(magnitude(n), magnitude(b));
    let g = gcd(g1, d as u64);
    proof {
        assert forall|k: int| k > 0 implies (common_divisor(k, n as int, b as int, d as int)
            <==> #[trigger] divides(k, g as int)) by {}
        if g == 1 {
            assert forall|k: int| k >= 2 implies !#[trigger] common_divisor(
                k,
                n as int,
                b as int,
                d as int,
            ) by {
                lemma_small_mod(1, k as nat);
                assert(!divides(k, g as int));
            }
        } else {
            lemma_mod_self_0(g as int);
            assert(divides(g as int, g as int));
        }
    }
    g == 1
}

/// Decides whether a radicand within range is square-free.
fn is_square_free(r: i64) -> (ok: bool)
    requires
        2 <= r <= RADICAND_LIMIT,
    ensures
        ok == square_free(r as int),
{
    let mut k: i64 = 2;
    let mut sq: i64 = 4;
    while sq <= r
        invariant
            2 <= k <= 182,
            sq == k * k,
            sq >= 4,
            2 <= r <= RADICAND_LIMIT,
            forall|j: int| 2 <= j < k ==> !#[trigger] square_divides(j, r as int),
        decreases 182 - k,
    {
        if r % sq == 0 {
            assert(square_divides(k as int, r as int));
            return false;
        }
        assert(k < 182) by (nonlinear_arith)
            requires
                sq == k * k,
                sq <= r,
                r <= 32768,
                k <= 182,
        ;
        assert((k + 1) * (k + 1) == k * k + 2 * k + 1) by (nonlinear_arith);
        sq = sq + 2 * k + 1;
        k = k + 1;
    }
    proof {
        assert forall|j: int| j >= 2 implies !#[trigger] square_divides(j, r as int) by {
            if j >= k {
                assert(j * j > r) by (nonlinear_arith)
                    requires
                        j >= k,
                        k * k > r,
                        k >= 2,
                ;
                lemma_small_mod(r as nat, (j * j) as nat);
            }
        }
    }
    true
}

impl QuadraticSurd {
    /// The surd is in canonical form.
    pub open spec fn wf(&self) -> bool {
        self@.wf()
    }

    /// The surd with the given parts, if they are in canonical form.
    pub fn new(numer: i64, coeff: i64, denom: i64, radicand: i64) -> (s: Option<QuadraticSurd>)
        ensures
            s is Some <==> (SurdParts {
                numer: numer as int,
                coeff: coeff as int,
                denom: denom as int,
                radicand: radicand as int,
            }).wf(),
            s matches Some(q) ==> q@ == (SurdParts {
                numer: numer as int,
                coeff: coeff as int,
                denom: denom as int,
                radicand: radicand as int,
            }),
    {
        if denom <= 0 || radicand < 0 || radicand > RADICAND_LIMIT {
            return None;
        }
        if (coeff == 0) != (radicand == 0) {
            return None;
        }
        if radicand != 0 {
            if radicand < 2 || !is_square_free(radicand) {
                return None;
            }
        }
        if !in_lowest_terms(numer, coeff, denom) {
            return None;
        }
        Some(QuadraticSurd { numer, coeff, denom, radicand })
    }

    /// The surd that stands for the integer `n`.
    pub closed spec fn integer(n: i64) -> QuadraticSurd {
        QuadraticSurd { numer: n, coeff: 0, denom: 1, radicand: 0 }
    }

    /// The surd standing for the integer `n`.
    pub fn from_integer(n: i64) -> (s: QuadraticSurd)
        ensures
            s.wf(),
            s@ == SurdParts::integer(n as int),
    {
        proof {
            lemma_integer_wf(n as int);
        }
        QuadraticSurd { numer: n, coeff: 0, denom: 1, radicand: 0 }
    }

    /// The surd `0`.
    pub fn zero() -> (s: QuadraticSurd)
        ensures
            s.wf(),
            s@ == SurdParts::integer(0),
    {
        proof {
            lemma_integer_wf(0);
        }
        QuadraticSurd { numer: 0, coeff: 0, denom: 1, radicand: 0 }
    }

    /// The surd `1`.
    pub fn one() -> (s: QuadraticSurd)
        ensures
            s.wf(),
            s@ == SurdParts::integer(1),
    {
        proof {
            lemma_integer_wf(1);
        }
        QuadraticSurd { numer: 1, coeff: 0, denom: 1, radicand: 0 }
    }

    /// The surd `1/√2`.
    pub fn inv_sqrt2() -> (s: QuadraticSurd)
        ensures
            s.wf(),
            s@ == SurdParts::inv_sqrt2(),
    {
        proof {
            lemma_inv_sqrt2_wf();
        }
        QuadraticSurd { numer: 0, coeff: 1, denom: 2, radicand: 2 }
    }

    /// Whether the surd is in canonical form. Every surd that this module hands
    /// out is; a caller that cannot know it may ask.
    pub fn is_canonical(&self) -> (b: bool)
        ensures
            b == self.wf(),
    {
        QuadraticSurd::new(self.numer, self.coeff, self.denom, self.radicand).is_some()
    }

    /// The rational part of the numerator.
    pub fn numer(&self) -> (n: i64)
        ensures
            n == self@.numer,
    {
        self.numer
    }

    /// The multiplier of the radical.
    pub fn coeff(&self) -> (n: i64)
        ensures
            n == self@.coeff,
    {
        self.coeff
    }

    /// The denominator.
    pub fn denom(&self) -> (n: i64)
        ensures
            n == self@.denom,
    {
        self.denom
    }

    /// The number under the radical.
    pub fn radicand(&self) -> (n: i64)
        ensures
            n == self@.radicand,
    {
        self.radicand
    }

    /// Exact equality: the two surds have the same parts.
    pub fn equals(&self, other: &QuadraticSurd) -> (b: bool)
        ensures
            b == (self@ == other@),
            b == (*self == *other),
    {
        self.numer == other.numer && self.coeff == other.coeff && self.denom == other.denom
            && self.radicand == other.radicand
    }
}

/// The parts of the surd that stands for an integer.
pub proof fn lemma_integer_surd(n: i64)
    ensures
        QuadraticSurd::integer(n)@ == SurdParts::integer(n as int),
{
}

/// Two surds with the same parts are the same surd.
pub proof fn lemma_surd_view_injective(a: QuadraticSurd, b: QuadraticSurd)
    ensures
        a@ == b@ <==> a == b,
{
}

/// A positive divisor of a positive number is not larger than it.
proof fn lemma_divisor_bound(k: int, n: int)
    requires
        k > 0,
        n > 0,
        divides(k, n),
    ensures
        k <= n,
{
    if k > n {
        lemma_small_mod(n as nat, k as nat);
    }
}

/// A divisor of a divisor of `c` divides `c`.
proof fn lemma_divides_transitive(a: int, b: int, c: int)
    requires
        a > 0,
        b > 0,
        divides(a, b),
        divides(b, c),
    ensures
        divides(a, c),
{
    lemma_fundamental_div_mod(b, a);
    lemma_fundamental_div_mod(c, b);
    let m = b / a;
    let l = c / b;
    assert(c == a * (m * l)) by (nonlinear_arith)
        requires
            b == a * m,
            c == b * l,
    ;
    lemma_mod_multiples_basic(m * l, a);
    assert((m * l) * a == a * (m * l)) by (nonlinear_arith);
}

/// Bézout's identity: a combination of `x` and `y` is worth a common divisor
/// of the two. The result holds the two multipliers and the divisor.
pub proof fn lemma_bezout(x: int, y: int) -> (r: (int, int, int))
    requires
        y > 0,
    ensures
        r.0 * x + r.1 * y == r.2,
        r.2 > 0,
        divides(r.2, x),
        divides(r.2, y),
    decreases y,
{
    let rem = x % y;
    lemma_fundamental_div_mod(x, y);
    lemma_mod_bound(x, y);
    if rem == 0 {
        lemma_mod_self_0(y);
        (0, 1, y)
    } else {
        let (u, v, g) = lemma_bezout(y, rem);
        lemma_divides_remainder(g, x, y);
        let quotient = x / y;
        assert(v * x + (u - v * quotient) * y == g) by (nonlinear_arith)
            requires
                u * y + v * rem == g,
                x == y * quotient + rem,
        ;
        (v, u - v * quotient, g)
    }
}

/// Three numbers in lowest terms have a combination worth 1.
proof fn lemma_bezout_of_three(n: int, k: int, d: int) -> (r: (int, int, int))
    requires
        d > 0,
        lowest_terms(n, k, d),
    ensures
        r.0 * n + r.1 * k + r.2 * d == 1,
{
    let (u1, v1, g1) = lemma_bezout(n, d);
    let (u2, v2, g2) = lemma_bezout(k, g1);
    lemma_divides_transitive(g2, g1, d);
    if n != 0 {
        if n > 0 {
            lemma_divides_transitive(g2, g1, n);
        } else {
            assert(divides(g2, n)) by {
                lemma_fundamental_div_mod(g1, g2);
                lemma_fundamental_div_mod(n, g1);
                let m = g1 / g2;
                let l = n / g1;
                assert(n == g2 * (m * l)) by (nonlinear_arith)
                    requires
                        g1 == g2 * m,
                        n == g1 * l,
                ;
                lemma_mod_multiples_basic(m * l, g2);
                assert((m * l) * g2 == g2 * (m * l)) by (nonlinear_arith);
            }
        }
    } else {
        lemma_small_mod(0, g2 as nat);
    }
    if g2 >= 2 {
        assert(common_divisor(g2, n, k, d));
    }
    assert(g2 == 1);
    assert((v2 * u1) * n + u2 * k + (v2 * v1) * d == 1) by (nonlinear_arith)
        requires
            u1 * n + v1 * d == g1,
            u2 * k + v2 * g1 == 1,
    ;
    (v2 * u1, u2, v2 * v1)
}

/// Where a combination of `n1`, `k1`, `d1` is worth 1 and the fractions over
/// `d1` and `d2` are worth the same, `d2` is a multiple of `d1`.
proof fn lemma_combination(
    u: int,
    v: int,
    w: int,
    n1: int,
    k1: int,
    d1: int,
    n2: int,
    k2: int,
    d2: int,
)
    requires
        u * n1 + v * k1 + w * d1 == 1,
        n1 * d2 == n2 * d1,
        k1 * d2 == k2 * d1,
    ensures
        d2 == (u * n2 + v * k2 + w * d2) * d1,
{
    let (a, b, c) = (u * n1, v * k1, w * d1);
    assert(d2 * (a + b + c) == d2 * a + d2 * b + d2 * c) by (nonlinear_arith);
    assert(d2 * (u * n1) == u * (n1 * d2)) by (nonlinear_arith);
    assert(d2 * (v * k1) == v * (k1 * d2)) by (nonlinear_arith);
    assert(d2 * (w * d1) == (w * d2) * d1) by (nonlinear_arith);
    assert(u * (n2 * d1) == (u * n2) * d1) by (nonlinear_arith);
    assert(v * (k2 * d1) == (v * k2) * d1) by (nonlinear_arith);
    let (x, y, z) = (u * n2, v * k2, w * d2);
    assert(x * d1 + y * d1 + z * d1 == (x + y + z) * d1) by (nonlinear_arith);
    assert(d2 * (a + b + c) == d2) by (nonlinear_arith)
        requires
            a + b + c == 1,
    ;
    assert(d2 * a == x * d1);
    assert(d2 * b == y * d1);
    assert(d2 * c == z * d1);
}

/// Two fractions with a root, both in lowest terms with positive denominators,
/// that are worth the same have the same parts: where `n1/d1 == n2/d2` and
/// `k1/d1 == k2/d2`, the three parts agree.
pub proof fn lemma_lowest_terms_are_unique(n1: int, k1: int, d1: int, n2: int, k2: int, d2: int)
    requires
        d1 > 0,
        d2 > 0,
        lowest_terms(n1, k1, d1),
        lowest_terms(n2, k2, d2),
        n1 * d2 == n2 * d1,
        k1 * d2 == k2 * d1,
    ensures
        n1 == n2,
        k1 == k2,
        d1 == d2,
{
    let (u, v, w) = lemma_bezout_of_three(n1, k1, d1);
    lemma_combination(u, v, w, n1, k1, d1, n2, k2, d2);
    lemma_mod_multiples_basic(u * n2 + v * k2 + w * d2, d1);
    lemma_divisor_bound(d1, d2);
    let (x, y, z) = lemma_bezout_of_three(n2, k2, d2);
    lemma_combination(x, y, z, n2, k2, d2, n1, k1, d1);
    lemma_mod_multiples_basic(x * n1 + y * k1 + z * d1, d2);
    lemma_divisor_bound(d2, d1);
    assert(n1 == n2) by (nonlinear_arith)
        requires
            n1 * d2 == n2 * d1,
            d1 == d2,
            d1 > 0,
    ;
    assert(k1 == k2) by (nonlinear_arith)
        requires
            k1 * d2 == k2 * d1,
            d1 == d2,
            d1 > 0,
    ;
}

/// Every 64-bit integer is in canonical form.
pub proof fn lemma_integer_wf(n: int)
    requires
        i64::MIN <= n <= i64::MAX,
    ensures
        SurdParts::integer(n).wf(),
{
    assert forall|k: int| k >= 2 implies !#[trigger] common_divisor(k, n, 0, 1) by {
        lemma_small_mod(1, k as nat);
    }
}

/// `1/√2` is in canonical form.
pub proof fn lemma_inv_sqrt2_wf()
    ensures
        SurdParts::inv_sqrt2().wf(),
{
    assert forall|k: int| k >= 2 implies !#[trigger] common_divisor(k, 0, 1, 2) by {
        lemma_small_mod(1, k as nat);
    }
    assert forall|k: int| k >= 2 implies !#[trigger] square_divides(k, 2) by {
        assert(k * k > 2) by (nonlinear_arith)
            requires
                k >= 2,
        ;
        lemma_small_mod(2, (k * k) as nat);
    }
}

} // verus!
