use polynomial::decimal::magnitude_of;
use polynomial::{Decimal, Polynomial, Term};

const ONE: i128 = 1_000_000_000;

fn term(coeff: i128, exp: i128) -> Term {
    Term::new(Decimal::from_nanos(coeff), Decimal::from_nanos(exp))
}

fn whole(coeff: i128, exp: i128) -> Term {
    term(coeff * ONE, exp * ONE)
}

fn poly(terms: Vec<Term>) -> Polynomial {
    Polynomial::new(terms)
}

fn sorted_terms(p: &Polynomial) -> Vec<(i128, i128)> {
    let mut v: Vec<(i128, i128)> =
        p.terms().iter().map(|t| (t.exp.nanos(), t.coeff.nanos())).collect();
    v.sort();
    v
}

#[test]
fn new_keeps_the_terms_in_their_order() {
    let v = vec![whole(0, 5), whole(2, 3), whole(2, 3)];
    assert_eq!(poly(v.clone()).terms(), &v);
}

#[test]
fn parsed_like_terms_merge_into_one() {
    let p = Polynomial::parse("2x^2 + 3x^2").unwrap().simplify();
    assert_eq!(p.terms(), &vec![whole(5, 2)]);
}

#[test]
fn parsed_zero_term_is_eliminated() {
    let p = Polynomial::parse("0x^5 + 4").unwrap().simplify();
    assert_eq!(p.terms(), &vec![whole(4, 0)]);
}

#[test]
fn simplify_merges_into_the_place_of_the_first() {
    let p = poly(vec![whole(1, 2), whole(7, 0), whole(3, 2), whole(-2, 0), whole(4, 1)]);
    assert_eq!(p.simplify().terms(), &vec![whole(4, 2), whole(5, 0), whole(4, 1)]);
}

#[test]
fn simplify_drops_a_sum_of_zero() {
    let p = poly(vec![whole(2, 1), whole(3, 0), whole(-2, 1)]);
    assert_eq!(p.simplify().terms(), &vec![whole(3, 0)]);
}

#[test]
fn simplify_keeps_a_place_that_passed_through_zero() {
    let p = poly(vec![whole(2, 1), whole(3, 0), whole(-2, 1), whole(5, 1)]);
    assert_eq!(p.simplify().terms(), &vec![whole(5, 1), whole(3, 0)]);
}

#[test]
fn simplify_adds_decimals_exactly() {
    let p = poly(vec![term(100_000_000, ONE), term(200_000_000, ONE)]);
    assert_eq!(p.simplify().terms(), &vec![term(300_000_000, ONE)]);
}

#[test]
fn simplify_of_nothing_is_nothing() {
    assert_eq!(poly(vec![]).simplify().terms(), &Vec::<Term>::new());
    assert_eq!(poly(vec![whole(0, 1), whole(0, 2)]).simplify().terms(), &Vec::<Term>::new());
}

#[test]
fn simplify_sum_sticks_to_the_bounds() {
    let p = poly(vec![term(i128::MAX, 0), term(5, 0)]);
    assert_eq!(p.simplify().terms(), &vec![term(i128::MAX, 0)]);
    let q = poly(vec![term(i128::MIN, 0), term(-5, 0)]);
    assert_eq!(q.simplify().terms(), &vec![term(i128::MIN, 0)]);
}

#[test]
fn simplify_twice_is_simplify_once() {
    let p = poly(vec![whole(1, 2), whole(7, 0), whole(3, 2), whole(-7, 0), whole(4, 1), whole(0, 9)]);
    let once = p.simplify();
    let twice = once.simplify();
    assert_eq!(once.terms(), twice.terms());
    assert_eq!(once.terms(), &vec![whole(4, 2), whole(4, 1)]);
}

#[test]
fn organize_keeps_ties_in_input_order() {
    let p = poly(vec![whole(2, 3), whole(5, 3), whole(1, 1)]);
    assert_eq!(p.organize().terms(), &vec![whole(2, 3), whole(5, 3), whole(1, 1)]);
}

#[test]
fn organize_orders_by_falling_exponent() {
    let p = poly(vec![whole(1, 1), whole(2, 3), whole(3, -2), whole(4, 2)]);
    assert_eq!(p.organize().terms(), &vec![whole(2, 3), whole(4, 2), whole(1, 1), whole(3, -2)]);
}

#[test]
fn organize_inserts_before_a_smaller_last_term() {
    let p = poly(vec![whole(1, 1), whole(2, 3)]);
    assert_eq!(p.organize().terms(), &vec![whole(2, 3), whole(1, 1)]);
    let q = poly(vec![whole(1, 5), whole(2, 1), whole(3, 3)]);
    assert_eq!(q.organize().terms(), &vec![whole(1, 5), whole(3, 3), whole(2, 1)]);
}

#[test]
fn organize_appends_behind_a_tie_with_the_last_term() {
    let p = poly(vec![whole(1, 3), whole(2, 3)]);
    assert_eq!(p.organize().terms(), &vec![whole(1, 3), whole(2, 3)]);
    let q = poly(vec![whole(1, 2), whole(2, 1), whole(3, 2), whole(4, 1)]);
    assert_eq!(q.organize().terms(), &vec![whole(1, 2), whole(3, 2), whole(2, 1), whole(4, 1)]);
}

#[test]
fn organize_compares_fractions_and_signs() {
    let p = poly(vec![term(ONE, -1), term(ONE, 1), term(ONE, 0), term(ONE, -ONE)]);
    assert_eq!(
        p.organize().terms(),
        &vec![term(ONE, 1), term(ONE, 0), term(ONE, -1), term(ONE, -ONE)]
    );
}

#[test]
fn organize_twice_is_organize_once() {
    let p = poly(vec![whole(1, 2), whole(2, 1), whole(3, 2), whole(4, 7), whole(5, 1)]);
    let once = p.organize();
    let twice = once.organize();
    assert_eq!(once.terms(), twice.terms());
}

#[test]
fn organize_of_nothing_is_nothing() {
    assert_eq!(poly(vec![]).organize().terms(), &Vec::<Term>::new());
}

#[test]
fn square_of_a_binomial() {
    let a = Polynomial::parse("x^2 + 4x").unwrap();
    let b = Polynomial::parse("x^2 + 4x").unwrap();
    let p = a.mult(&b);
    assert_eq!(p.terms(), &vec![whole(1, 4), whole(8, 3), whole(16, 2)]);
    assert_eq!(p.to_string(), "x^4 + 8x^3 + 16x^2");
    let again = p.simplify().organize();
    assert_eq!(again.terms(), p.terms());
}

#[test]
fn product_of_decimal_terms() {
    let a = poly(vec![
        term(2_400_000_000, 3_300_000_000),
        term(1_500_000_000, 700_000_000),
        term(4_200_000_000, -1_100_000_000),
    ]);
    let b = poly(vec![term(6_010_000_000, 1_900_000_000), term(3_200_000_000, -300_000_000)]);
    let p = a.mult(&b);
    assert_eq!(
        p.terms(),
        &vec![
            term(14_424_000_000, 5_200_000_000),
            term(7_680_000_000, 3_000_000_000),
            term(9_015_000_000, 2_600_000_000),
            term(25_242_000_000, 800_000_000),
            term(4_800_000_000, 400_000_000),
            term(13_440_000_000, -1_400_000_000),
        ]
    );
    assert_eq!(
        p.to_string(),
        "14.424x^5.2 + 7.68x^3 + 9.015x^2.6 + 25.242x^0.8 + 4.8x^0.4 + 13.44x^-1.4"
    );
}

#[test]
fn product_with_nothing_is_nothing() {
    let a = poly(vec![whole(1, 1)]);
    assert_eq!(a.mult(&poly(vec![])).terms(), &Vec::<Term>::new());
    assert_eq!(poly(vec![]).mult(&a).terms(), &Vec::<Term>::new());
}

#[test]
fn product_cancels_to_nothing() {
    let a = poly(vec![whole(1, 1), whole(-1, 1)]);
    let b = poly(vec![whole(3, 2)]);
    assert_eq!(a.mult(&b).terms(), &Vec::<Term>::new());
}

#[test]
fn product_of_terms_multiplies_and_adds() {
    assert_eq!(whole(3, 2).times(whole(-4, 5)), whole(-12, 7));
    assert_eq!(term(500_000_000, -ONE).times(term(500_000_000, ONE)), term(250_000_000, 0));
}

#[test]
fn decimal_sum_and_opposite() {
    let a = Decimal::from_nanos(1_500_000_000);
    let b = Decimal::from_nanos(-2_250_000_000);
    assert_eq!(a.plus(b), Decimal::from_nanos(-750_000_000));
    assert_eq!(a.negated(), Decimal::from_nanos(-1_500_000_000));
    assert_eq!(Decimal::from_nanos(i128::MIN).negated(), Decimal::from_nanos(i128::MAX));
    assert_eq!(Decimal::from_nanos(i128::MAX).plus(a), Decimal::from_nanos(i128::MAX));
    assert_eq!(Decimal::from_nanos(i128::MIN).plus(b), Decimal::from_nanos(i128::MIN));
    assert_eq!(magnitude_of(-5), 5);
    assert_eq!(magnitude_of(5), 5);
    assert_eq!(magnitude_of(i128::MIN), 1u128 << 127);
    assert!(Decimal::from_nanos(0).is_zero());
    assert!(!Decimal::from_nanos(1).is_zero());
}

#[test]
fn product_is_snapped_to_nine_digits() {
    let d = Decimal::from_nanos;
    // 1.5 * 2 = 3
    assert_eq!(d(1_500_000_000).times(d(2 * ONE)), d(3 * ONE));
    // 0.1 * 0.1 = 0.01
    assert_eq!(d(100_000_000).times(d(100_000_000)), d(10_000_000));
    // 0.000000001 * 0.4 = 0.0000000004, which snaps to 0
    assert_eq!(d(1).times(d(400_000_000)), d(0));
    // 0.000000001 * 0.5 = 0.0000000005, which snaps away from zero
    assert_eq!(d(1).times(d(500_000_000)), d(1));
    assert_eq!(d(-1).times(d(500_000_000)), d(-1));
    // 1.5 * 0.999999999 = 1.4999999985: the residual 0.4999999985 rounds up
    assert_eq!(d(1_500_000_000).times(d(999_999_999)), d(1_499_999_999));
    // 1.999999999 * 0.5 = 0.9999999995: the residual -0.0000000005 rounds away from zero
    assert_eq!(d(1_999_999_999).times(d(500_000_000)), d(999_999_999));
    assert_eq!(d(-1_999_999_999).times(d(500_000_000)), d(-999_999_999));
    // 2.999999999 * 0.5 = 1.4999999995: the residual 0.4999999995 rounds up
    assert_eq!(d(2_999_999_999).times(d(500_000_000)), d(1_500_000_000));
}

#[test]
fn product_of_large_numbers_is_exact() {
    let d = Decimal::from_nanos;
    // 100000 * 100000
    assert_eq!(d(100_000 * ONE).times(d(100_000 * ONE)), d(10_000_000_000 * ONE));
    // 12345678901.000000001 * 98765432109.000000009
    assert_eq!(
        d(12_345_678_901_000_000_001).times(d(98_765_432_109_000_000_009)),
        d(1_219_326_311_336_229_232_418_876_542_218)
    );
    // 3000000000.5 * -0.000000003 = -9.0000000015, the residual rounds away from zero
    assert_eq!(d(3_000_000_000_500_000_000).times(d(-3)), d(-9_000_000_002));
    // half of the greatest number ends in half a unit, which rounds away from the nearest whole
    assert_eq!(
        d(i128::MAX).times(d(500_000_000)),
        d(85_070_591_730_234_615_865_843_651_857_942_052_863)
    );
    assert_eq!(
        d(i128::MIN).times(d(500_000_000)),
        d(-85_070_591_730_234_615_865_843_651_857_942_052_864)
    );
    assert_eq!(d(i128::MIN).times(d(-ONE)), d(i128::MAX));
}

#[test]
fn product_sticks_to_the_bounds() {
    let d = Decimal::from_nanos;
    assert_eq!(d(i128::MAX).times(d(2 * ONE)), d(i128::MAX));
    assert_eq!(d(i128::MAX).times(d(ONE + 1)), d(i128::MAX));
    assert_eq!(d(i128::MAX).times(d(i128::MAX)), d(i128::MAX));
    assert_eq!(d(i128::MAX).times(d(i128::MIN)), d(i128::MIN));
    assert_eq!(d(20_000_000_000_000_000_000 * ONE).times(d(20_000_000_000 * ONE)), d(i128::MAX));
    assert_eq!(d(-20_000_000_000_000_000_000 * ONE).times(d(20_000_000_000 * ONE)), d(i128::MIN));
    assert_eq!(d(10_000_000_000_000_000_000 * ONE).times(d(10 * ONE)), d(100_000_000_000_000_000_000 * ONE));
    assert_eq!(d(i128::MAX).times(d(-2 * ONE)), d(i128::MIN));
    assert_eq!(d(i128::MIN).times(d(i128::MIN)), d(i128::MAX));
    assert_eq!(d(i128::MIN).times(d(ONE)), d(i128::MIN));
    assert_eq!(d(i128::MAX).times(d(ONE)), d(i128::MAX));
    assert_eq!(term(ONE, i128::MAX).times(term(ONE, 5)).exp, d(i128::MAX));
    assert_eq!(term(ONE, i128::MIN).times(term(ONE, -5)).exp, d(i128::MIN));
    assert_eq!(whole(1, 9).times(whole(1, 9)).exp, d(18 * ONE));
}

#[test]
fn multiplication_distributes_over_concatenation() {
    let a = poly(vec![whole(2, 1), term(500_000_000, 0), whole(-3, 2)]);
    let b = vec![whole(1, 1), whole(4, 0)];
    let c = vec![whole(-1, 1), whole(2, 3), term(250_000_000, 0)];
    let mut both = b.clone();
    both.extend(c.iter().copied());
    let left = a.mult(&poly(both)).simplify();
    let mut apart = a.mult(&poly(b)).terms().clone();
    apart.extend(a.mult(&poly(c)).terms().iter().copied());
    let right = poly(apart).simplify();
    assert_eq!(sorted_terms(&left), sorted_terms(&right));
    assert_eq!(
        sorted_terms(&left),
        vec![
            (0, 2_125_000_000),
            (ONE, 8_500_000_000),
            (2 * ONE, -12_750_000_000),
            (3 * ONE, ONE),
            (4 * ONE, 4 * ONE),
            (5 * ONE, -6 * ONE),
        ]
    );
}

#[test]
fn written_and_read_again_is_the_same() {
    let v = vec![
        term(-16_998_000_000, 33_300_000_000),
        whole(3, 3),
        term(-ONE, 2_500_000_000),
        whole(-4, 1),
        whole(-1, 1),
        whole(1, 1),
        term(33_200_000_000, 0),
        whole(-1, 0),
        whole(1, 0),
        term(1, -1),
        term(i128::MAX, -ONE),
        term(-i128::MAX, -i128::MAX),
    ];
    let text = poly(v.clone()).to_string();
    let back = Polynomial::parse(&text).unwrap();
    assert_eq!(back.terms(), &v);
    assert_eq!(back.organize().terms(), &v);
}
