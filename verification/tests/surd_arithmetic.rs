use complex_table::surd::QuadraticSurd;
use complex_table::arithmetic::accept;
use complex_table::surd::RADICAND_LIMIT;

fn parts(s: &QuadraticSurd) -> (i64, i64, i64, i64) {
    (s.numer(), s.coeff(), s.denom(), s.radicand())
}

fn surd(numer: i64, coeff: i64, denom: i64, radicand: i64) -> QuadraticSurd {
    QuadraticSurd::new(numer, coeff, denom, radicand).unwrap()
}

#[test]
fn new_accepts_canonical_parts() {
    assert_eq!(parts(&surd(1, 0, 2, 0)), (1, 0, 2, 0));
    assert_eq!(parts(&surd(0, 1, 2, 2)), (0, 1, 2, 2));
    assert_eq!(parts(&surd(-3, 5, 7, 6)), (-3, 5, 7, 6));
    assert_eq!(parts(&surd(2, 1, 2, 2)), (2, 1, 2, 2));
    assert_eq!(parts(&surd(i64::MIN, 0, 1, 0)), (i64::MIN, 0, 1, 0));
    assert_eq!(parts(&surd(i64::MAX, 0, 2, 0)), (i64::MAX, 0, 2, 0));
}

#[test]
fn new_refuses_a_denominator_that_is_not_positive() {
    assert!(QuadraticSurd::new(1, 0, 0, 0).is_none());
    assert!(QuadraticSurd::new(1, 0, -1, 0).is_none());
}

#[test]
fn new_refuses_a_radical_part_that_is_half_there() {
    assert!(QuadraticSurd::new(1, 1, 1, 0).is_none());
    assert!(QuadraticSurd::new(1, 0, 1, 2).is_none());
}

#[test]
fn new_refuses_a_radicand_with_a_square_factor() {
    assert!(QuadraticSurd::new(0, 1, 1, 4).is_none());
    assert!(QuadraticSurd::new(0, 1, 1, 8).is_none());
    assert!(QuadraticSurd::new(0, 1, 1, 18).is_none());
    assert!(QuadraticSurd::new(0, 1, 1, 1).is_none());
    assert!(QuadraticSurd::new(0, 1, 1, 32761).is_none());
    assert!(QuadraticSurd::new(0, 1, 1, -2).is_none());
}

#[test]
fn new_refuses_a_radicand_beyond_the_limit() {
    assert!(QuadraticSurd::new(0, 1, 1, 32765).is_some());
    assert!(QuadraticSurd::new(0, 1, 1, RADICAND_LIMIT + 3).is_none());
    assert!(QuadraticSurd::new(0, 1, 1, 32771).is_none());
}

#[test]
fn new_refuses_parts_that_are_not_in_lowest_terms() {
    assert!(QuadraticSurd::new(2, 0, 4, 0).is_none());
    assert!(QuadraticSurd::new(2, 2, 2, 2).is_none());
    assert!(QuadraticSurd::new(0, 0, 2, 0).is_none());
    assert!(QuadraticSurd::new(-6, 9, 3, 5).is_none());
    assert!(QuadraticSurd::new(i64::MIN, 0, 2, 0).is_none());
}

#[test]
fn constants_have_their_parts() {
    assert_eq!(parts(&QuadraticSurd::zero()), (0, 0, 1, 0));
    assert_eq!(parts(&QuadraticSurd::one()), (1, 0, 1, 0));
    assert_eq!(parts(&QuadraticSurd::inv_sqrt2()), (0, 1, 2, 2));
    assert_eq!(parts(&QuadraticSurd::from_integer(-17)), (-17, 0, 1, 0));
}

#[test]
fn kinds_of_surds() {
    assert!(surd(1, 0, 2, 0).is_rational());
    assert!(!surd(1, 0, 2, 0).is_integer());
    assert!(surd(5, 0, 1, 0).is_integer());
    assert!(!surd(1, 1, 1, 2).is_rational());
    assert!(surd(0, 3, 1, 2).is_pure());
    assert!(!surd(1, 3, 1, 2).is_pure());
    assert!(!surd(0, 0, 1, 0).is_pure());
    assert_eq!(RADICAND_LIMIT, 32768);
}

#[test]
fn equals_compares_all_four_parts() {
    assert!(surd(1, 1, 2, 2).equals(&surd(1, 1, 2, 2)));
    assert!(!surd(1, 1, 2, 2).equals(&surd(1, 1, 2, 3)));
    assert!(!surd(1, 1, 2, 2).equals(&surd(1, -1, 2, 2)));
    assert!(!surd(1, 0, 2, 0).equals(&surd(1, 0, 3, 0)));
    assert_eq!(surd(1, 1, 2, 2), surd(1, 1, 2, 2));
    assert_ne!(surd(1, 1, 2, 2), surd(-1, 1, 2, 2));
}

#[test]
fn inv_sqrt2_squared_is_one_half() {
    let h = QuadraticSurd::inv_sqrt2();
    let sq = h.checked_mul(&h).unwrap();
    assert_eq!(parts(&sq), (1, 0, 2, 0));
}

#[test]
fn inv_sqrt2_to_the_fourth_is_one_quarter() {
    let h = QuadraticSurd::inv_sqrt2();
    let p2 = h.checked_mul(&h).unwrap();
    let p3 = p2.checked_mul(&h).unwrap();
    let p4 = p3.checked_mul(&h).unwrap();
    assert_eq!(parts(&p3), (0, 1, 4, 2));
    assert_eq!(parts(&p4), (1, 0, 4, 0));
}

#[test]
fn sums_are_reduced() {
    let half = surd(1, 0, 2, 0);
    assert_eq!(parts(&half.checked_add(&half).unwrap()), (1, 0, 1, 0));
    let h = QuadraticSurd::inv_sqrt2();
    assert_eq!(parts(&h.checked_add(&h).unwrap()), (0, 1, 1, 2));
    assert_eq!(parts(&h.checked_add(&half).unwrap()), (1, 1, 2, 2));
    let a = surd(1, 1, 1, 2);
    let b = surd(1, -1, 1, 2);
    assert_eq!(parts(&a.checked_add(&b).unwrap()), (2, 0, 1, 0));
    assert_eq!(parts(&surd(1, 0, 3, 0).checked_add(&surd(1, 0, 6, 0)).unwrap()), (1, 0, 2, 0));
}

#[test]
fn differences_are_reduced() {
    let a = surd(1, 1, 1, 2);
    let b = surd(1, -1, 1, 2);
    assert_eq!(parts(&a.checked_sub(&b).unwrap()), (0, 2, 1, 2));
    assert_eq!(parts(&a.checked_sub(&a).unwrap()), (0, 0, 1, 0));
    assert_eq!(parts(&surd(1, 0, 2, 0).checked_sub(&surd(1, 0, 3, 0)).unwrap()), (1, 0, 6, 0));
    assert_eq!(parts(&surd(3, 0, 1, 0).checked_sub(&a).unwrap()), (2, -1, 1, 2));
}

#[test]
fn products_combine_radicands() {
    let r2 = surd(0, 1, 1, 2);
    let r3 = surd(0, 1, 1, 3);
    let r6 = surd(0, 1, 1, 6);
    assert_eq!(parts(&r2.checked_mul(&r2).unwrap()), (2, 0, 1, 0));
    assert_eq!(parts(&r2.checked_mul(&r3).unwrap()), (0, 1, 1, 6));
    assert_eq!(parts(&r2.checked_mul(&r6).unwrap()), (0, 2, 1, 3));
    let a = surd(1, 1, 1, 2);
    assert_eq!(parts(&a.checked_mul(&a).unwrap()), (3, 2, 1, 2));
    assert_eq!(parts(&a.checked_mul(&surd(1, -1, 1, 2)).unwrap()), (-1, 0, 1, 0));
    assert_eq!(parts(&a.checked_mul(&surd(2, 0, 3, 0)).unwrap()), (2, 2, 3, 2));
}

#[test]
fn roots_of_two_and_three_multiply_but_do_not_add() {
    let r2 = surd(0, 1, 1, 2);
    let r3 = surd(0, 1, 1, 3);
    assert!(r2.can_multiply(&r3));
    assert!(!r2.can_add(&r3));
    assert!(r2.checked_add(&r3).is_none());
    assert!(r2.checked_sub(&r3).is_none());
    let one_plus_r2 = surd(1, 1, 1, 2);
    let one_plus_r3 = surd(1, 1, 1, 3);
    assert!(!one_plus_r2.can_multiply(&one_plus_r3));
    assert!(one_plus_r2.checked_mul(&one_plus_r3).is_none());
}

#[test]
fn large_operands_are_combined_where_the_result_fits() {
    let big = QuadraticSurd::from_integer(1 << 40);
    let one = QuadraticSurd::one();
    let zero = QuadraticSurd::zero();
    assert_eq!(parts(&big.checked_add(&one).unwrap()), ((1 << 40) + 1, 0, 1, 0));
    assert_eq!(big.checked_add(&zero), Some(big));
    assert_eq!(big.checked_mul(&one), Some(big));
    assert_eq!(one.checked_mul(&big), Some(big));
    assert_eq!(big.checked_mul(&zero), Some(zero));
    assert_eq!(parts(&one.checked_sub(&big).unwrap()), (1 - (1 << 40), 0, 1, 0));
    let max = QuadraticSurd::from_integer(i64::MAX);
    let min = QuadraticSurd::from_integer(i64::MIN);
    assert_eq!(max.checked_add(&zero), Some(max));
    assert_eq!(parts(&max.checked_add(&min).unwrap()), (-1, 0, 1, 0));
    assert_eq!(min.checked_mul(&one), Some(min));
    let wide = surd(i64::MAX, i64::MAX - 1, i64::MAX, 2);
    assert_eq!(wide.checked_mul(&one), Some(wide));
    assert_eq!(wide.checked_sub(&wide), Some(zero));
    let third = surd(1, 0, 3, 0);
    assert_eq!(parts(&max.checked_mul(&third).unwrap()), (i64::MAX, 0, 3, 0));
}

#[test]
fn results_that_do_not_fit_are_refused() {
    let max = QuadraticSurd::from_integer(i64::MAX);
    let min = QuadraticSurd::from_integer(i64::MIN);
    let one = QuadraticSurd::one();
    assert!(max.checked_add(&one).is_none());
    assert!(min.checked_sub(&one).is_none());
    assert!(max.checked_mul(&max).is_none());
    assert!(min.checked_mul(&QuadraticSurd::from_integer(-1)).is_none());
    assert!(surd(1, 0, i64::MAX, 0).checked_mul(&surd(1, 0, 2, 0)).is_none());
    let limit = QuadraticSurd::from_integer(1 << 31);
    let square = limit.checked_mul(&limit).unwrap();
    assert_eq!(parts(&square), (1 << 62, 0, 1, 0));
    assert!(square.checked_mul(&limit).is_none());
    assert_eq!(square.checked_mul(&QuadraticSurd::one()), Some(square));
}

#[test]
fn sums_and_products_of_large_operands_are_associative() {
    let n = QuadraticSurd::from_integer(1 << 31);
    let m = QuadraticSurd::from_integer(-(1 << 31));
    let left = n.checked_add(&n).unwrap().checked_add(&m).unwrap();
    let right = n.checked_add(&n.checked_add(&m).unwrap()).unwrap();
    assert_eq!(left, right);
    assert_eq!(left, n);
    let two = QuadraticSurd::from_integer(2);
    let one = QuadraticSurd::one();
    let left = n.checked_mul(&two).unwrap().checked_mul(&one).unwrap();
    let right = n.checked_mul(&two.checked_mul(&one).unwrap()).unwrap();
    assert_eq!(left, right);
    assert_eq!(parts(&left), (1 << 32, 0, 1, 0));
}

#[test]
fn a_product_with_too_large_a_radicand_is_refused() {
    let a = surd(0, 1, 1, 32765);
    let b = surd(0, 1, 1, 32763);
    assert!(a.can_multiply(&b));
    assert!(a.checked_mul(&b).is_none());
}

#[test]
fn rational_approximation_rounds_the_root_towards_zero() {
    assert_eq!(surd(3, 0, 4, 0).to_rational(), Some((3, 4)));
    assert_eq!(surd(1, 1, 1, 2).to_rational(), Some((2, 1)));
    assert_eq!(surd(1, 3, 2, 2).to_rational(), Some((5, 2)));
    assert_eq!(QuadraticSurd::inv_sqrt2().to_rational(), Some((1, 2)));
    assert_eq!(QuadraticSurd::from_integer(i64::MAX).to_rational(), Some((i64::MAX, 1)));
    assert_eq!(surd(1, -1, 1, 2).to_rational(), Some((2, 1)));
    assert_eq!(surd((1 << 40) + 1, 1 << 40, 3, 2).to_rational(), Some(((1 << 40) + 1 + 1554944255987, 3)));
    assert_eq!(surd(i64::MAX, 1, 1, 2).to_rational(), None);
    assert_eq!(surd(1, i64::MAX, 1, 2).to_rational(), None);
}

#[test]
fn accept_stores_canonical_outcomes_only() {
    assert_eq!(accept((Some(1), Some(0), Some(2), Some(0))), QuadraticSurd::new(1, 0, 2, 0));
    assert_eq!(accept((Some(0), Some(1), Some(2), Some(2))), Some(QuadraticSurd::inv_sqrt2()));
    assert_eq!(
        accept((Some(i64::MAX), Some(0), Some(1), Some(0))),
        Some(QuadraticSurd::from_integer(i64::MAX))
    );
    assert_eq!(accept((None, Some(0), Some(1), Some(0))), None);
    assert_eq!(accept((Some(1), None, Some(1), Some(2))), None);
    assert_eq!(accept((Some(1), Some(0), None, Some(0))), None);
    assert_eq!(accept((Some(1), Some(1), Some(1), None)), None);
    assert_eq!(accept((Some(2), Some(0), Some(4), Some(0))), None);
    assert_eq!(accept((Some(1), Some(0), Some(-2), Some(0))), None);
    assert_eq!(accept((Some(1), Some(1), Some(1), Some(4))), None);
    assert_eq!(accept((Some(1), Some(1), Some(1), Some(0))), None);
    assert_eq!(accept((Some(0), Some(1), Some(1), Some(32771))), None);
}

#[test]
fn canonical_surds_are_recognised() {
    assert!(QuadraticSurd::zero().is_canonical());
    assert!(QuadraticSurd::inv_sqrt2().is_canonical());
    assert!(QuadraticSurd::from_integer(i64::MIN).is_canonical());
    assert!(surd(-3, 5, 7, 6).is_canonical());
    let product = surd(1, 1, 3, 2).checked_mul(&surd(2, -1, 5, 2)).unwrap();
    assert!(product.is_canonical());
    assert_eq!(parts(&product), (0, 1, 15, 2));
}
