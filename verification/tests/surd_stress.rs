use complex_table::surd::{QuadraticSurd, RADICAND_LIMIT};

const LARGE: i64 = 1 << 40;

struct Lcg(u64);

impl Lcg {
    fn next(&mut self) -> u64 {
        self.0 = self.0.wrapping_mul(6364136223846793005).wrapping_add(1442695040888963407);
        self.0 >> 33
    }

    fn within(&mut self, bound: i64) -> i64 {
        ((self.next() << 31 ^ self.next()) % (2 * bound as u64 + 1)) as i64 - bound
    }

    fn pick(&mut self, choices: &[i64]) -> i64 {
        choices[(self.next() % choices.len() as u64) as usize]
    }

    fn surd(&mut self, bound: i64, radicands: &[i64]) -> QuadraticSurd {
        loop {
            let numer = self.within(bound);
            let denom = self.within(bound).abs().max(1);
            let (coeff, radicand) = if self.next() % 3 == 0 {
                (0, 0)
            } else {
                (self.within(bound), self.pick(radicands))
            };
            if let Some(s) = QuadraticSurd::new(numer, coeff, denom, radicand) {
                return s;
            }
        }
    }
}

fn gcd(a: i128, b: i128) -> i128 {
    if b == 0 { a.abs() } else { gcd(b, a % b) }
}

type Parts = (i128, i128, i128, i128);

fn parts(s: &QuadraticSurd) -> Parts {
    (s.numer() as i128, s.coeff() as i128, s.denom() as i128, s.radicand() as i128)
}

/// The canonical parts of `(a + b·√r) / c` for a square-free `r` and a positive `c`.
fn canonical(a: i128, b: i128, c: i128, r: i128) -> Parts {
    let r = if b == 0 { 0 } else { r };
    let g = gcd(gcd(a, b), c);
    (a / g, b / g, c / g, r)
}

/// What storing the parts gives: the parts, if they are 64-bit integers with a
/// radicand within the limit.
fn stored(p: Parts) -> Option<Parts> {
    let fits = |n: i128| i64::MIN as i128 <= n && n <= i64::MAX as i128;
    if fits(p.0) && fits(p.1) && fits(p.2) && p.3 <= RADICAND_LIMIT as i128 {
        Some(p)
    } else {
        None
    }
}

fn field(a: Parts, b: Parts) -> Option<i128> {
    if a.1 == 0 {
        Some(b.3)
    } else if b.1 == 0 || a.3 == b.3 {
        Some(a.3)
    } else {
        None
    }
}

fn exact_sum(a: Parts, b: Parts, sign: i128) -> Option<Parts> {
    let r = field(a, b)?;
    stored(canonical(a.0 * b.2 + sign * b.0 * a.2, a.1 * b.2 + sign * b.1 * a.2, a.2 * b.2, r))
}

fn exact_product(a: Parts, b: Parts) -> Option<Parts> {
    match field(a, b) {
        Some(r) => stored(canonical(a.0 * b.0 + a.1 * b.1 * r, a.0 * b.1 + a.1 * b.0, a.2 * b.2, r)),
        None if a.0 == 0 && b.0 == 0 => {
            let g = gcd(a.3, b.3);
            stored(canonical(0, a.1 * b.1 * g, a.2 * b.2, (a.3 / g) * (b.3 / g)))
        }
        None => None,
    }
}

fn isqrt(n: i128) -> i128 {
    let mut root = (n as f64).sqrt() as i128;
    while root * root > n {
        root -= 1;
    }
    while (root + 1) * (root + 1) <= n {
        root += 1;
    }
    root
}

fn exercise(a: &QuadraticSurd, b: &QuadraticSurd) {
    assert!(a.is_canonical() && b.is_canonical());
    let (pa, pb) = (parts(a), parts(b));
    assert_eq!(a.can_add(b), field(pa, pb).is_some());
    assert_eq!(a.can_multiply(b), field(pa, pb).is_some() || (a.is_pure() && b.is_pure()));
    let expect = |exact: Option<Parts>| exact;
    let sum = a.checked_add(b);
    assert_eq!(sum.as_ref().map(parts), expect(exact_sum(pa, pb, 1)), "{:?} + {:?}", a, b);
    let difference = a.checked_sub(b);
    assert_eq!(difference.as_ref().map(parts), expect(exact_sum(pa, pb, -1)), "{:?} - {:?}", a, b);
    let product = a.checked_mul(b);
    assert_eq!(product.as_ref().map(parts), expect(exact_product(pa, pb)), "{:?} * {:?}", a, b);
    for s in [sum, difference, product].iter().flatten() {
        assert!(s.is_canonical());
    }
    let n = pa.0 + isqrt(pa.1 * pa.1 * pa.3);
    let approximation = i64::try_from(n).ok().map(|n| (n, a.denom()));
    assert_eq!(a.to_rational(), approximation, "{:?}", a);
}

#[test]
fn small_surds_add_subtract_and_multiply_exactly() {
    let mut rng = Lcg(1);
    let radicands = [2, 3, 5, 6, 7, 10];
    for _ in 0..20000 {
        let a = rng.surd(12, &radicands);
        let b = rng.surd(12, &radicands);
        exercise(&a, &b);
    }
}

#[test]
fn surds_over_one_radicand_stay_exact() {
    let mut rng = Lcg(2);
    for radicand in [2, 3, 32765] {
        for bound in [1000, 3_000_000, LARGE] {
            for _ in 0..3000 {
                let a = rng.surd(bound, &[radicand]);
                let b = rng.surd(bound, &[radicand]);
                exercise(&a, &b);
            }
        }
    }
}

#[test]
fn large_and_small_surds_combine_exactly() {
    let mut rng = Lcg(4);
    for _ in 0..3000 {
        let a = rng.surd(LARGE, &[2, 3]);
        let b = rng.surd(3, &[2, 3]);
        exercise(&a, &b);
        exercise(&b, &a);
    }
}

#[test]
fn pure_roots_multiply_across_radicands() {
    let mut rng = Lcg(3);
    let radicands = [2, 3, 5, 6, 15, 30, 101, 181, 182, 210, 30030, 32765];
    let mut multiplied = 0;
    for _ in 0..20000 {
        let bound = rng.pick(&[50, 100_000, LARGE]);
        let a = QuadraticSurd::new(0, rng.within(bound), rng.within(bound).abs().max(1), rng.pick(&radicands));
        let b = QuadraticSurd::new(0, rng.within(bound), rng.within(bound).abs().max(1), rng.pick(&radicands));
        if let (Some(a), Some(b)) = (a, b) {
            exercise(&a, &b);
            multiplied += 1;
        }
    }
    assert!(multiplied > 5000);
}

#[test]
fn large_operands_do_not_overflow() {
    let m = LARGE;
    let r = 32765;
    let extremes = [
        QuadraticSurd::new(m, 0, 1, 0).unwrap(),
        QuadraticSurd::new(-m, 0, 1, 0).unwrap(),
        QuadraticSurd::new(1, 0, m, 0).unwrap(),
        QuadraticSurd::new(m - 1, 0, m, 0).unwrap(),
        QuadraticSurd::new(m, m - 1, m, r).unwrap(),
        QuadraticSurd::new(-m, -(m - 1), m, r).unwrap(),
        QuadraticSurd::new(m - 1, m, m - 2, r).unwrap(),
        QuadraticSurd::new(0, m, m - 1, r).unwrap(),
        QuadraticSurd::new(0, -m, m - 1, 32763).unwrap(),
        QuadraticSurd::new(0, m, 1, 2).unwrap(),
        QuadraticSurd::new(m, m - 1, 1, 2).unwrap(),
        QuadraticSurd::new(m, m, m - 1, r).unwrap(),
        QuadraticSurd::new(-m, m, m - 1, r).unwrap(),
    ];
    for a in &extremes {
        for b in &extremes {
            exercise(a, b);
        }
    }
}
