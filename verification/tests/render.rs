use polynomial::numeral::push_decimal;
use polynomial::{Decimal, Polynomial, PolynomialStringError, Term};

const ONE: i128 = 1_000_000_000;

fn term(coeff: i128, exp: i128) -> Term {
    Term::new(Decimal::from_nanos(coeff), Decimal::from_nanos(exp))
}

fn text(terms: Vec<Term>) -> String {
    Polynomial::new(terms).to_string()
}

fn decimal(nanos: i128) -> String {
    let mut s = String::new();
    push_decimal(&mut s, Decimal::from_nanos(nanos));
    s
}

#[test]
fn no_terms_give_the_empty_text() {
    assert_eq!(text(vec![]), "");
}

#[test]
fn coefficient_one_is_left_out_before_the_variable() {
    assert_eq!(text(vec![term(ONE, 0)]), "1");
    assert_eq!(text(vec![term(ONE, ONE)]), "x");
    assert_eq!(text(vec![term(ONE, 2 * ONE)]), "x^2");
    assert_eq!(text(vec![term(ONE, -1_500_000_000)]), "x^-1.5");
}

#[test]
fn coefficient_minus_one_leaves_its_sign() {
    assert_eq!(text(vec![term(-ONE, 0)]), "-1");
    assert_eq!(text(vec![term(-ONE, ONE)]), "-x");
    assert_eq!(text(vec![term(-ONE, 2 * ONE)]), "-x^2");
}

#[test]
fn other_coefficients_are_written_out() {
    assert_eq!(text(vec![term(3 * ONE, 0)]), "3");
    assert_eq!(text(vec![term(3 * ONE, ONE)]), "3x");
    assert_eq!(text(vec![term(3 * ONE, 2 * ONE)]), "3x^2");
    assert_eq!(text(vec![term(-16_998_000_000, 33_300_000_000)]), "-16.998x^33.3");
    assert_eq!(text(vec![term(1_000_000_001, ONE)]), "1.000000001x");
}

#[test]
fn terms_are_joined_by_plus_whatever_their_sign() {
    assert_eq!(
        text(vec![term(ONE, 4 * ONE), term(-3 * ONE, 2 * ONE), term(-ONE, ONE), term(5 * ONE, 0)]),
        "x^4 + -3x^2 + -x + 5"
    );
}

#[test]
fn zero_terms_are_skipped_with_their_separator() {
    assert_eq!(text(vec![term(0, 5 * ONE), term(4 * ONE, 0)]), "4");
    assert_eq!(text(vec![term(2 * ONE, ONE), term(0, 5 * ONE), term(4 * ONE, 0)]), "2x + 4");
    assert_eq!(text(vec![term(0, ONE)]), "");
}

#[test]
fn zero_term_at_the_end_leaves_the_separator_before_it() {
    assert_eq!(text(vec![term(2 * ONE, ONE), term(0, 0)]), "2x + ");
}

#[test]
fn terms_keep_the_order_they_are_given_in() {
    assert_eq!(text(vec![term(ONE, 0), term(ONE, 2 * ONE), term(ONE, ONE)]), "1 + x^2 + x");
}

#[test]
fn decimals_are_written_without_needless_zeros() {
    assert_eq!(decimal(0), "0");
    assert_eq!(decimal(5 * ONE), "5");
    assert_eq!(decimal(-5 * ONE), "-5");
    assert_eq!(decimal(500_000_000), "0.5");
    assert_eq!(decimal(-500_000_000), "-0.5");
    assert_eq!(decimal(1), "0.000000001");
    assert_eq!(decimal(-1), "-0.000000001");
    assert_eq!(decimal(1_000_000_010), "1.00000001");
    assert_eq!(decimal(120 * ONE), "120");
    assert_eq!(decimal(33_200_000_000), "33.2");
    assert_eq!(decimal(123_456_789), "0.123456789");
    assert_eq!(decimal(100_100_000_000), "100.1");
}

#[test]
fn bounds_of_the_range_are_written_in_full() {
    assert_eq!(decimal(i128::MAX), "170141183460469231731687303715.884105727");
    assert_eq!(decimal(i128::MIN), "-170141183460469231731687303715.884105728");
}

#[test]
fn push_decimal_appends() {
    let mut s = String::from("x^");
    push_decimal(&mut s, Decimal::from_nanos(-2_500_000_000));
    assert_eq!(s, "x^-2.5");
}

#[test]
fn message_for_an_empty_text() {
    assert_eq!(
        PolynomialStringError::EmptyStringError.to_string(),
        "No polynomial found in string"
    );
}

#[test]
fn message_for_an_unexpected_character() {
    assert_eq!(
        PolynomialStringError::ParseError(5, '$').to_string(),
        "Failure to parse, encountered character $ at index 5"
    );
    assert_eq!(
        PolynomialStringError::ParseError(120, 'é').to_string(),
        "Failure to parse, encountered character é at index 120"
    );
    assert_eq!(
        PolynomialStringError::ParseError(0, '+').to_string(),
        "Failure to parse, encountered character + at index 0"
    );
}

#[test]
fn message_for_a_parenthesis() {
    assert_eq!(
        PolynomialStringError::ParenthesesError(7, true).to_string(),
        "Illegal open parentheses at index 7"
    );
    assert_eq!(
        PolynomialStringError::ParenthesesError(0, false).to_string(),
        "Illegal close parentheses at index 0"
    );
}
