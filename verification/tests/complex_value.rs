use std::cmp::Ordering;

use complex_table::error::Error;
use complex_table::hashing::{bucket_index, hash_key, HASH_MODULUS, HASH_MULTIPLIER};
use complex_table::order::{surd_less, value_less};
use complex_table::surd::QuadraticSurd;
use complex_table::text::{format_integers, parse_integers};
use complex_table::value::ComplexValue;

fn surd(numer: i64, coeff: i64, denom: i64, radicand: i64) -> QuadraticSurd {
    QuadraticSurd::new(numer, coeff, denom, radicand).unwrap()
}

fn gaussian(re: i64, im: i64) -> ComplexValue {
    ComplexValue::from_pair((re, im))
}

#[test]
fn constructors_build_the_components() {
    let v = ComplexValue::new(surd(1, 1, 2, 2), surd(0, -1, 3, 5));
    assert_eq!(v.real_part(), surd(1, 1, 2, 2));
    assert_eq!(v.imaginary_part(), surd(0, -1, 3, 5));
    assert_eq!(ComplexValue::from_integer(7), gaussian(7, 0));
    assert_eq!(gaussian(3, -4).real_part(), QuadraticSurd::from_integer(3));
    assert_eq!(gaussian(3, -4).imaginary_part(), QuadraticSurd::from_integer(-4));
    assert_eq!(ComplexValue::zero(), gaussian(0, 0));
    assert_eq!(ComplexValue::one(), gaussian(1, 0));
    assert_eq!(ComplexValue::inv_sqrt2().real_part(), QuadraticSurd::inv_sqrt2());
    assert_eq!(ComplexValue::inv_sqrt2().imaginary_part(), QuadraticSurd::zero());
}

#[test]
fn equality_is_exact() {
    assert!(gaussian(1, 2).equals(&gaussian(1, 2)));
    assert!(!gaussian(1, 2).equals(&gaussian(1, 3)));
    assert!(!gaussian(1, 2).equals(&gaussian(2, 2)));
    let a = ComplexValue::new(surd(0, 1, 2, 2), QuadraticSurd::zero());
    assert!(a.equals(&ComplexValue::inv_sqrt2()));
    assert!(a == ComplexValue::inv_sqrt2());
    assert!(a != ComplexValue::one());
}

#[test]
fn zero_and_one_are_recognised() {
    assert!(ComplexValue::zero().is_zero());
    assert!(!ComplexValue::zero().is_one());
    assert!(ComplexValue::one().is_one());
    assert!(!ComplexValue::one().is_zero());
    assert!(!gaussian(0, 1).is_zero());
    assert!(!gaussian(1, 1).is_one());
    assert!(!ComplexValue::inv_sqrt2().is_zero());
    let sum = gaussian(3, -2).add(&gaussian(-3, 2)).unwrap();
    assert!(sum.is_zero());
}

#[test]
fn canonical_key_lists_numerator_denominator_multiplier_radicand() {
    let v = ComplexValue::new(surd(1, 3, 2, 5), surd(-7, 0, 4, 0));
    assert_eq!(v.to_canonical_key(), ((1, 2, 3, 5), (-7, 4, 0, 0)));
    assert_eq!(ComplexValue::inv_sqrt2().to_canonical_key(), ((0, 2, 1, 2), (0, 1, 0, 0)));
}

#[test]
fn canonical_key_does_not_depend_on_the_arithmetic_that_led_to_a_value() {
    let h = ComplexValue::inv_sqrt2();
    let half_by_product = h.multiply(&h).unwrap();
    let quarter = gaussian(1, 0).multiply(&half_by_product).unwrap().multiply(&half_by_product).unwrap();
    let half_by_sum = quarter.add(&quarter).unwrap();
    assert!(half_by_product.equals(&half_by_sum));
    assert_eq!(half_by_product.to_canonical_key(), half_by_sum.to_canonical_key());
    assert_eq!(half_by_product.to_canonical_key(), ((1, 2, 0, 0), (0, 1, 0, 0)));
    assert_ne!(half_by_product.to_canonical_key(), quarter.to_canonical_key());
}

#[test]
fn add_is_componentwise() {
    assert_eq!(gaussian(1, 2).add(&gaussian(3, 4)), Ok(gaussian(4, 6)));
    let h = ComplexValue::inv_sqrt2();
    let twice = h.add(&h).unwrap();
    assert_eq!(twice.real_part(), surd(0, 1, 1, 2));
    assert_eq!(twice.imaginary_part(), QuadraticSurd::zero());
}

#[test]
fn add_reports_radicands_that_do_not_combine() {
    let a = ComplexValue::new(surd(0, 1, 1, 2), QuadraticSurd::zero());
    let b = ComplexValue::new(surd(0, 1, 1, 3), QuadraticSurd::zero());
    assert_eq!(a.add(&b), Err(Error::UnrepresentableRadicand));
    let c = ComplexValue::new(QuadraticSurd::zero(), surd(0, 1, 1, 3));
    assert_eq!(a.add(&c).unwrap().imaginary_part(), surd(0, 1, 1, 3));
    let d = ComplexValue::new(QuadraticSurd::zero(), surd(0, 1, 1, 5));
    assert_eq!(c.add(&d), Err(Error::UnrepresentableRadicand));
}

#[test]
fn multiply_is_the_complex_product() {
    assert_eq!(gaussian(1, 2).multiply(&gaussian(3, 4)), Ok(gaussian(-5, 10)));
    assert_eq!(gaussian(0, 1).multiply(&gaussian(0, 1)), Ok(gaussian(-1, 0)));
    assert_eq!(gaussian(2, 3).multiply(&ComplexValue::one()), Ok(gaussian(2, 3)));
    assert_eq!(gaussian(2, 3).multiply(&ComplexValue::zero()), Ok(gaussian(0, 0)));
    let h = ComplexValue::inv_sqrt2();
    let i_over_root2 = gaussian(0, 1).multiply(&h).unwrap();
    assert_eq!(i_over_root2.real_part(), QuadraticSurd::zero());
    assert_eq!(i_over_root2.imaginary_part(), QuadraticSurd::inv_sqrt2());
    let minus_half = i_over_root2.multiply(&i_over_root2).unwrap();
    assert_eq!(minus_half.real_part(), surd(-1, 0, 2, 0));
    assert_eq!(minus_half.imaginary_part(), QuadraticSurd::zero());
}

#[test]
fn multiply_by_inv_sqrt2_four_times_gives_one_quarter() {
    let h = ComplexValue::inv_sqrt2();
    let mut v = ComplexValue::one();
    for _ in 0..4 {
        v = v.multiply(&h).unwrap();
    }
    assert_eq!(v.real_part(), surd(1, 0, 4, 0));
    assert_eq!(v.real_part().coeff(), 0);
    assert_eq!(v.real_part().radicand(), 0);
    assert_eq!(v.imaginary_part(), QuadraticSurd::zero());
}

#[test]
fn multiply_reports_an_unrepresentable_radicand() {
    let a = ComplexValue::new(surd(1, 1, 1, 2), QuadraticSurd::zero());
    let b = ComplexValue::new(surd(1, 1, 1, 3), QuadraticSurd::zero());
    assert_eq!(a.multiply(&b), Err(Error::UnrepresentableRadicand));
    let r2 = ComplexValue::new(surd(0, 1, 1, 2), QuadraticSurd::zero());
    let r3 = ComplexValue::new(surd(0, 1, 1, 3), QuadraticSurd::zero());
    let r6 = r2.multiply(&r3).unwrap();
    assert_eq!(r6.real_part(), surd(0, 1, 1, 6));
    let mixed = ComplexValue::new(surd(0, 1, 1, 2), surd(0, 1, 1, 3));
    let square = mixed.multiply(&mixed).unwrap();
    assert_eq!(square.real_part(), QuadraticSurd::from_integer(-1));
    assert_eq!(square.imaginary_part(), surd(0, 2, 1, 6));
    assert_eq!(mixed.multiply(&gaussian(1, 1)), Err(Error::UnrepresentableRadicand));
    assert_eq!(mixed.multiply(&gaussian(1, 0)), Ok(mixed));
}

#[test]
fn large_values_are_combined_where_the_result_fits() {
    let big = ComplexValue::from_integer(1 << 40);
    assert_eq!(big.add(&ComplexValue::one()), Ok(ComplexValue::from_integer((1 << 40) + 1)));
    assert_eq!(big.add(&ComplexValue::zero()), Ok(big));
    assert_eq!(big.multiply(&ComplexValue::one()), Ok(big));
    assert_eq!(ComplexValue::one().multiply(&big), Ok(big));
    assert_eq!(big.multiply(&ComplexValue::zero()), Ok(ComplexValue::zero()));
    let wide = gaussian(i64::MAX, i64::MIN);
    assert_eq!(wide.add(&ComplexValue::zero()), Ok(wide));
    assert_eq!(wide.multiply(&ComplexValue::one()), Ok(wide));
    assert_eq!(wide.multiply(&ComplexValue::zero()), Ok(ComplexValue::zero()));
    assert_eq!(gaussian(i64::MAX, 0).multiply(&gaussian(0, 1)), Ok(gaussian(0, i64::MAX)));
}

#[test]
fn results_that_do_not_fit_are_reported() {
    let max = ComplexValue::from_integer(i64::MAX);
    assert_eq!(max.add(&ComplexValue::one()), Err(Error::UnrepresentableRadicand));
    assert_eq!(max.multiply(&max), Err(Error::UnrepresentableRadicand));
    assert_eq!(gaussian(0, i64::MIN).multiply(&gaussian(0, 1)), Err(Error::UnrepresentableRadicand));
}

#[test]
fn mul_add_is_the_product_plus_the_third_value() {
    let r = gaussian(1, 2).mul_add(&gaussian(3, 4), &gaussian(10, 20));
    assert_eq!(r, Ok(gaussian(5, 30)));
    let h = ComplexValue::inv_sqrt2();
    let r = h.mul_add(&h, &ComplexValue::one()).unwrap();
    assert_eq!(r.real_part(), surd(3, 0, 2, 0));
    let a = ComplexValue::new(surd(1, 1, 1, 2), QuadraticSurd::zero());
    let b = ComplexValue::new(surd(1, 1, 1, 3), QuadraticSurd::zero());
    assert_eq!(a.mul_add(&b, &ComplexValue::one()), Err(Error::UnrepresentableRadicand));
    assert_eq!(a.mul_add(&a, &b), Err(Error::UnrepresentableRadicand));
}

#[test]
fn lowest_fraction_of_the_real_part() {
    let v = ComplexValue::new(surd(3, 0, 4, 0), surd(0, 1, 1, 2));
    assert_eq!(v.get_lowest_fraction(), Some((3, 4)));
    assert_eq!(gaussian(-5, 9).get_lowest_fraction(), Some((-5, 1)));
    assert_eq!(ComplexValue::inv_sqrt2().get_lowest_fraction(), Some((1, 2)));
    let w = ComplexValue::new(surd(1, 2, 3, 3), QuadraticSurd::zero());
    assert_eq!(w.get_lowest_fraction(), Some((4, 3)));
}

#[test]
fn compare_orders_by_real_part_then_imaginary_part() {
    assert_eq!(gaussian(1, 5).compare(&gaussian(2, 0)), Ordering::Less);
    assert_eq!(gaussian(2, 0).compare(&gaussian(1, 5)), Ordering::Greater);
    assert_eq!(gaussian(1, 5).compare(&gaussian(1, 6)), Ordering::Less);
    assert_eq!(gaussian(1, 6).compare(&gaussian(1, 5)), Ordering::Greater);
    assert_eq!(gaussian(1, 5).compare(&gaussian(1, 5)), Ordering::Equal);
    assert_eq!(gaussian(-3, 0).compare(&gaussian(2, 0)), Ordering::Less);
}

#[test]
fn compare_orders_rationals_by_size() {
    let third = ComplexValue::new(surd(1, 0, 3, 0), QuadraticSurd::zero());
    let half = ComplexValue::new(surd(1, 0, 2, 0), QuadraticSurd::zero());
    let minus_half = ComplexValue::new(surd(-1, 0, 2, 0), QuadraticSurd::zero());
    assert_eq!(third.compare(&half), Ordering::Less);
    assert_eq!(half.compare(&third), Ordering::Greater);
    assert_eq!(minus_half.compare(&third), Ordering::Less);
    assert_eq!(half.compare(&ComplexValue::one()), Ordering::Less);
    let wide = ComplexValue::new(surd(i64::MAX, 0, 2, 0), QuadraticSurd::zero());
    let wider = ComplexValue::from_integer(i64::MAX);
    assert_eq!(wide.compare(&wider), Ordering::Less);
    assert_eq!(ComplexValue::from_integer(i64::MIN).compare(&wide), Ordering::Less);
}

#[test]
fn compare_orders_surds_by_size() {
    let real = |s: QuadraticSurd| ComplexValue::new(s, QuadraticSurd::zero());
    let half = real(surd(1, 0, 2, 0));
    let inv_root2 = ComplexValue::inv_sqrt2();
    let root2 = real(surd(0, 1, 1, 2));
    let root3 = real(surd(0, 1, 1, 3));
    assert_eq!(inv_root2.compare(&half), Ordering::Greater);
    assert_eq!(half.compare(&inv_root2), Ordering::Less);
    assert_eq!(inv_root2.compare(&ComplexValue::one()), Ordering::Less);
    assert_eq!(ComplexValue::one().compare(&root2), Ordering::Less);
    assert_eq!(root2.compare(&root3), Ordering::Less);
    assert_eq!(root3.compare(&root2), Ordering::Greater);
    assert_eq!(real(surd(0, -1, 1, 3)).compare(&real(surd(0, -1, 1, 2))), Ordering::Less);
    assert_eq!(real(surd(0, -1, 1, 2)).compare(&inv_root2), Ordering::Less);
    // √2 + √3 against π's neighbours: 3.1462... lies between 3 and 22/7.
    assert_eq!(real(surd(3, -1, 1, 2)).compare(&root3), Ordering::Less);
    assert_eq!(real(surd(22, -7, 7, 2)).compare(&root3), Ordering::Less);
    assert_eq!(real(surd(16, -5, 5, 2)).compare(&root3), Ordering::Greater);
    // 99/70 and 1393/985 approximate √2 from above and from below.
    assert_eq!(real(surd(99, 0, 70, 0)).compare(&root2), Ordering::Greater);
    assert_eq!(real(surd(1393, 0, 985, 0)).compare(&root2), Ordering::Less);
    // 7·√2 = 9.8995 against 4·√6 = 9.7980 and 2·√26 = 10.198.
    assert_eq!(real(surd(0, 7, 1, 2)).compare(&real(surd(0, 4, 1, 6))), Ordering::Greater);
    assert_eq!(real(surd(0, 7, 1, 2)).compare(&real(surd(0, 2, 1, 26))), Ordering::Less);
    // 1 + √2 = 2.4142 against 1/2 + √3·9/8 = 2.4486 and against 2/3 + √3 = 2.3987.
    assert_eq!(real(surd(1, 1, 1, 2)).compare(&real(surd(4, 9, 8, 3))), Ordering::Less);
    assert_eq!(real(surd(1, 1, 1, 2)).compare(&real(surd(2, 3, 3, 3))), Ordering::Greater);
    // The real parts decide before the imaginary parts.
    let a = ComplexValue::new(surd(0, 1, 2, 2), QuadraticSurd::from_integer(100));
    let b = ComplexValue::new(surd(1, 0, 1, 0), QuadraticSurd::from_integer(-100));
    assert_eq!(a.compare(&b), Ordering::Less);
    let c = ComplexValue::new(surd(0, 1, 2, 2), surd(0, 1, 1, 3));
    let d = ComplexValue::new(surd(0, 1, 2, 2), surd(0, 1, 1, 2));
    assert_eq!(c.compare(&d), Ordering::Greater);
}

#[test]
fn compare_agrees_with_the_size_of_large_surds() {
    let real = |s: QuadraticSurd| ComplexValue::new(s, QuadraticSurd::zero());
    // Neighbouring convergents of √2 with 64-bit parts: p/q is below √2 exactly
    // if p² < 2·q².
    let (mut p, mut q): (i64, i64) = (1, 1);
    let root2 = real(surd(0, 1, 1, 2));
    while p < i64::MAX / 4 {
        let below = (p as i128) * (p as i128) < 2 * (q as i128) * (q as i128);
        let v = real(QuadraticSurd::new(p, 0, q, 0).unwrap());
        assert_eq!(v.compare(&root2), if below { Ordering::Less } else { Ordering::Greater });
        assert_eq!(root2.compare(&v), if below { Ordering::Greater } else { Ordering::Less });
        // p - q·√2 is negative exactly if p/q is below √2.
        let d = real(QuadraticSurd::new(p, -q, 1, 2).unwrap());
        assert_eq!(
            d.compare(&ComplexValue::zero()),
            if below { Ordering::Less } else { Ordering::Greater }
        );
        let next = (p + 2 * q, p + q);
        p = next.0;
        q = next.1;
    }
    let max = real(surd(i64::MAX, i64::MAX, 1, 32765));
    let min = real(surd(i64::MIN, i64::MIN, 1, 32763));
    assert_eq!(min.compare(&max), Ordering::Less);
    assert_eq!(max.compare(&min), Ordering::Greater);
    assert_eq!(max.compare(&max), Ordering::Equal);
}

#[test]
fn compare_is_a_total_order_on_a_sample() {
    let mut surds = Vec::new();
    for radicand in [0, 2, 3, 5] {
        for numer in [-3i64, -1, 0, 1, 2] {
            for coeff in [-2i64, -1, 1, 3] {
                for denom in [1i64, 2, 3] {
                    let coeff = if radicand == 0 { 0 } else { coeff };
                    if let Some(s) = QuadraticSurd::new(numer, coeff, denom, radicand) {
                        surds.push(s);
                    }
                }
            }
        }
    }
    surds.sort_by(|a, b| {
        (a.numer(), a.coeff(), a.denom(), a.radicand())
            .cmp(&(b.numer(), b.coeff(), b.denom(), b.radicand()))
    });
    surds.dedup();
    let size = |s: &QuadraticSurd| {
        (s.numer() as f64 + s.coeff() as f64 * (s.radicand() as f64).sqrt()) / s.denom() as f64
    };
    let values: Vec<ComplexValue> =
        surds.iter().map(|s| ComplexValue::new(*s, QuadraticSurd::zero())).collect();
    for (i, a) in values.iter().enumerate() {
        for (j, b) in values.iter().enumerate() {
            let o = a.compare(b);
            assert_eq!(o == Ordering::Equal, i == j);
            assert_eq!(o == Ordering::Equal, a.equals(b));
            assert_eq!(o == Ordering::Less, b.compare(a) == Ordering::Greater);
            assert_eq!(o == Ordering::Less, value_less(a, b));
            assert_eq!(o == Ordering::Less, surd_less(&surds[i], &surds[j]));
            let (x, y) = (size(&surds[i]), size(&surds[j]));
            if (x - y).abs() > 1e-9 {
                assert_eq!(o == Ordering::Less, x < y, "{:?} {:?}", surds[i], surds[j]);
            }
        }
    }
    let mut sorted = values.clone();
    sorted.sort_by(|a, b| a.compare(b));
    for pair in sorted.windows(2) {
        assert_eq!(pair[0].compare(&pair[1]), Ordering::Less);
        assert!(size(&pair[0].real_part()) <= size(&pair[1].real_part()) + 1e-9);
    }
}

#[test]
fn surds_of_equal_rational_part_are_ordered_by_their_root() {
    assert!(surd_less(&surd(1, 0, 3, 0), &surd(1, 0, 2, 0)));
    assert!(!surd_less(&surd(1, 0, 2, 0), &surd(1, 0, 3, 0)));
    assert!(surd_less(&surd(0, -1, 2, 2), &surd(0, 1, 2, 2)));
    assert!(surd_less(&surd(0, 1, 3, 2), &surd(0, 1, 2, 2)));
    assert!(surd_less(&surd(0, 1, 2, 2), &surd(0, 1, 2, 3)));
    assert!(!surd_less(&surd(0, 1, 2, 2), &surd(0, 1, 2, 2)));
}

#[test]
fn parse_reads_two_integers() {
    assert_eq!(ComplexValue::parse("3+4i"), Ok(gaussian(3, 4)));
    assert_eq!(ComplexValue::parse("-3+-4i"), Ok(gaussian(-3, -4)));
    assert_eq!(ComplexValue::parse("0+0i"), Ok(ComplexValue::zero()));
    assert_eq!(ComplexValue::parse("007+010i"), Ok(gaussian(7, 10)));
    assert_eq!(ComplexValue::parse("-0+0i"), Ok(ComplexValue::zero()));
    assert_eq!(
        ComplexValue::parse("9223372036854775807+-9223372036854775808i"),
        Ok(gaussian(i64::MAX, i64::MIN))
    );
    assert_eq!(parse_integers("12+-34i"), Some((12, -34)));
}

#[test]
fn parse_refuses_malformed_text() {
    for text in [
        "", "i", "+", "+i", "3", "3+4", "3+i", "+4i", "3+4j", "3 + 4i", "3+4i ", " 3+4i", "3-4i",
        "3++4i", "3+4+5i", "a+4i", "3+bi", "3+4ii", "--3+4i", "3+--4i", "-+4i", "3+-i", "3.0+4i",
        "3+4I", "√2+0i", "3+4ı", "٣+4i", "9223372036854775808+0i", "0+9223372036854775808i",
        "-9223372036854775809+0i", "0+-9223372036854775809i",
        "99999999999999999999999999999999999999999999+0i",
    ] {
        assert_eq!(ComplexValue::parse(text), Err(Error::ParseError), "{}", text);
        assert_eq!(parse_integers(text), None, "{}", text);
    }
}

#[test]
fn format_writes_two_integers() {
    assert_eq!(format_integers(3, 4), "3+4i");
    assert_eq!(format_integers(-3, -4), "-3+-4i");
    assert_eq!(format_integers(0, 0), "0+0i");
    assert_eq!(format_integers(10, 100), "10+100i");
    assert_eq!(
        format_integers(i64::MAX, i64::MIN),
        "9223372036854775807+-9223372036854775808i"
    );
    assert_eq!(gaussian(12, -5).to_text(), "12+-5i");
}

#[test]
fn text_round_trip_keeps_the_integers() {
    for re in [0, 1, -1, 9, 10, -10, 99, 100, 12345, -67890, i64::MAX, i64::MIN] {
        for im in [0, 7, -7, 1000, i64::MAX, i64::MIN] {
            let text = format_integers(re, im);
            assert_eq!(parse_integers(&text), Some((re, im)));
            let v = ComplexValue::parse(&text).unwrap();
            assert_eq!(v, gaussian(re, im));
            assert_eq!(v.to_text(), text);
        }
    }
    let v = ComplexValue::parse("0042+-0i").unwrap();
    assert_eq!(v.to_text(), "42+0i");
    assert_eq!(ComplexValue::parse(&v.to_text()), Ok(v));
}

#[test]
fn text_of_a_value_that_is_not_an_integer() {
    assert_eq!(ComplexValue::inv_sqrt2().to_text(), "√2/2+0i");
    let v = ComplexValue::new(surd(1, 0, 2, 0), surd(1, -1, 3, 5));
    assert_eq!(v.to_text(), "1/2+(1-√5)/3i");
    let far = ComplexValue::new(surd((1 << 40) + 1, 1, 1, 2), QuadraticSurd::zero());
    assert_eq!(far.to_text(), "1099511627777+√2+0i");
    let wide = ComplexValue::new(QuadraticSurd::from_integer(i64::MAX), surd(i64::MAX, i64::MIN, 2, 3));
    assert_eq!(
        wide.to_text(),
        "9223372036854775807+(9223372036854775807-9223372036854775808√3)/2i"
    );
}

fn mix(h: u128, part: i64) -> u128 {
    (h * HASH_MULTIPLIER as u128 + (part as i128 - i64::MIN as i128) as u128) % HASH_MODULUS as u128
}

#[test]
fn hash_is_the_polynomial_of_the_key() {
    let key = ((1, 2, 3, 5), (-7, 4, 0, 0));
    let mut h = 0u128;
    for part in [1, 2, 3, 5, -7, 4, 0, 0] {
        h = mix(h, part);
    }
    assert_eq!(hash_key(key) as u128, h);
    assert_eq!(hash_key(((0, 0, 0, 0), (0, 0, 0, 0))), 934744482760888297);
    let v = ComplexValue::new(surd(1, 3, 2, 5), surd(-7, 0, 4, 0));
    assert_eq!(bucket_index(&v, 8) as u128, h % 8);
    assert_eq!(bucket_index(&v, 1), 0);
    assert_eq!(bucket_index(&v, 1000) as u128, h % 1000);
}

#[test]
fn from_builds_integers() {
    assert_eq!(ComplexValue::from(7i64), ComplexValue::from_integer(7));
    assert_eq!(ComplexValue::from((3i64, -4i64)), gaussian(3, -4));
    let v: ComplexValue = (i64::MIN, i64::MAX).into();
    assert_eq!(v.to_canonical_key(), ((i64::MIN, 1, 0, 0), (i64::MAX, 1, 0, 0)));
    assert!(v.is_canonical());
}

#[test]
fn operators_follow_compare() {
    assert!(gaussian(1, 5) < gaussian(2, 0));
    assert!(gaussian(1, 6) > gaussian(1, 5));
    assert!(gaussian(1, 5) <= gaussian(1, 5));
    assert!(gaussian(1, 5) >= gaussian(1, 5));
    let half = ComplexValue::new(surd(1, 0, 2, 0), QuadraticSurd::zero());
    assert!(half < ComplexValue::one());
    assert!(half > ComplexValue::zero());
    assert_eq!(half.partial_cmp(&ComplexValue::one()), Some(Ordering::Less));
    assert_eq!(half.partial_cmp(&half), Some(Ordering::Equal));
}
