use polynomial::numeral::parse_numeral;
use polynomial::{Decimal, Polynomial, PolynomialStringError, Term};

const ONE: i128 = 1_000_000_000;

fn term(coeff: i128, exp: i128) -> Term {
    Term::new(Decimal::from_nanos(coeff), Decimal::from_nanos(exp))
}

fn terms_of(text: &str) -> Vec<Term> {
    Polynomial::parse(text).unwrap().terms().clone()
}

fn error_of(text: &str) -> PolynomialStringError {
    Polynomial::parse(text).unwrap_err()
}

fn numeral(text: &str) -> Option<i128> {
    let chars: Vec<char> = text.chars().collect();
    parse_numeral(&chars).map(|d| d.nanos())
}

#[test]
fn leading_minus_gives_a_negative_first_term() {
    assert_eq!(terms_of("-4x + 3"), vec![term(-4 * ONE, ONE), term(3 * ONE, 0)]);
}

#[test]
fn long_expression_is_read() {
    assert_eq!(
        terms_of("3x^3 + 33.2 - 4x + -16.998x^33.3"),
        vec![
            term(3 * ONE, 3 * ONE),
            term(33_200_000_000, 0),
            term(-4 * ONE, ONE),
            term(-16_998_000_000, 33_300_000_000),
        ]
    );
}

#[test]
fn foreign_character_is_reported_at_its_index() {
    assert_eq!(error_of("3x^3 $ 2"), PolynomialStringError::ParseError(5, '$'));
}

#[test]
fn empty_text_is_an_error() {
    assert_eq!(error_of(""), PolynomialStringError::EmptyStringError);
}

#[test]
fn like_terms_are_read_apart() {
    assert_eq!(terms_of("2x^2 + 3x^2"), vec![term(2 * ONE, 2 * ONE), term(3 * ONE, 2 * ONE)]);
}

#[test]
fn zero_coefficient_is_read_as_it_stands() {
    assert_eq!(terms_of("0x^5 + 4"), vec![term(0, 5 * ONE), term(4 * ONE, 0)]);
}

#[test]
fn blanks_are_ignored_anywhere() {
    assert_eq!(terms_of(" 1 2 x ^ 3 . 5 "), vec![term(12 * ONE, 3_500_000_000)]);
}

#[test]
fn upper_case_variable_is_read() {
    assert_eq!(terms_of("2X^2+X"), vec![term(2 * ONE, 2 * ONE), term(ONE, ONE)]);
}

#[test]
fn bare_variable_has_coefficient_one() {
    assert_eq!(terms_of("x"), vec![term(ONE, ONE)]);
    assert_eq!(terms_of("-x"), vec![term(-ONE, ONE)]);
    assert_eq!(terms_of("-x^2"), vec![term(-ONE, 2 * ONE)]);
}

#[test]
fn minus_between_terms_belongs_to_the_next_term() {
    assert_eq!(terms_of("3 - 4x"), vec![term(3 * ONE, 0), term(-4 * ONE, ONE)]);
    assert_eq!(terms_of("3 - 4"), vec![term(3 * ONE, 0), term(-4 * ONE, 0)]);
    assert_eq!(terms_of("3 - 4x^2"), vec![term(3 * ONE, 0), term(-4 * ONE, 2 * ONE)]);
}

#[test]
fn sign_before_a_term_replaces_the_waiting_sign() {
    assert_eq!(terms_of("3 + -4"), vec![term(3 * ONE, 0), term(-4 * ONE, 0)]);
    assert_eq!(terms_of("3 - -4"), vec![term(3 * ONE, 0), term(-4 * ONE, 0)]);
    assert_eq!(terms_of("--4"), vec![term(-4 * ONE, 0)]);
}

#[test]
fn exponent_takes_its_own_sign() {
    assert_eq!(terms_of("x^-2"), vec![term(ONE, -2 * ONE)]);
    assert_eq!(terms_of("x^+2"), vec![term(ONE, 2 * ONE)]);
    assert_eq!(terms_of("x^-+2"), vec![term(ONE, 2 * ONE)]);
    assert_eq!(terms_of("3 - x^-2.5"), vec![term(3 * ONE, 0), term(-ONE, -2_500_000_000)]);
}

#[test]
fn sign_of_an_exponent_does_not_reach_the_next_term() {
    assert_eq!(terms_of("x^-2 + 3"), vec![term(ONE, -2 * ONE), term(3 * ONE, 0)]);
    assert_eq!(terms_of("x^-2 - 3"), vec![term(ONE, -2 * ONE), term(-3 * ONE, 0)]);
}

#[test]
fn open_exponent_at_the_end_is_dropped() {
    assert_eq!(terms_of("x^"), Vec::<Term>::new());
    assert_eq!(terms_of("2 + 3x^-"), vec![term(2 * ONE, 0)]);
}

#[test]
fn leading_plus_is_an_error() {
    assert_eq!(error_of("+4"), PolynomialStringError::ParseError(0, '+'));
    assert_eq!(error_of("3 + + 4"), PolynomialStringError::ParseError(4, '+'));
}

#[test]
fn text_that_ends_in_a_sign_fails_at_the_added_plus() {
    assert_eq!(error_of("-"), PolynomialStringError::ParseError(1, '+'));
    assert_eq!(error_of("3x + "), PolynomialStringError::ParseError(5, '+'));
    assert_eq!(error_of(" "), PolynomialStringError::ParseError(1, '+'));
}

#[test]
fn caret_needs_a_variable_before_it() {
    assert_eq!(error_of("^2"), PolynomialStringError::ParseError(0, '^'));
    assert_eq!(error_of("3^2"), PolynomialStringError::ParseError(1, '^'));
    assert_eq!(error_of("x^^2"), PolynomialStringError::ParseError(2, '^'));
    assert_eq!(error_of("x^2^3"), PolynomialStringError::ParseError(3, '^'));
    assert_eq!(error_of("3+^2"), PolynomialStringError::ParseError(2, '^'));
}

#[test]
fn second_variable_in_a_term_is_an_error() {
    assert_eq!(error_of("xx"), PolynomialStringError::ParseError(1, 'x'));
    assert_eq!(error_of("x^2x"), PolynomialStringError::ParseError(3, 'x'));
    assert_eq!(error_of("3xX"), PolynomialStringError::ParseError(2, 'x'));
    assert_eq!(error_of("x^x"), PolynomialStringError::ParseError(2, 'x'));
}

#[test]
fn number_behind_a_variable_is_an_error() {
    assert_eq!(error_of("x2"), PolynomialStringError::ParseError(1, '2'));
    assert_eq!(error_of("x.5"), PolynomialStringError::ParseError(1, '.'));
}

#[test]
fn malformed_number_fails_where_it_ends() {
    assert_eq!(error_of("1.2.3"), PolynomialStringError::ParseError(5, '+'));
    assert_eq!(error_of("1.2.3 - 4"), PolynomialStringError::ParseError(6, '-'));
    assert_eq!(error_of("1.2.3x"), PolynomialStringError::ParseError(5, 'x'));
    assert_eq!(error_of(".x"), PolynomialStringError::ParseError(1, 'x'));
    assert_eq!(error_of("x^."), PolynomialStringError::ParseError(3, '+'));
    assert_eq!(error_of("x^1..2-3"), PolynomialStringError::ParseError(6, '-'));
}

#[test]
fn characters_outside_the_alphabet_are_errors() {
    assert_eq!(error_of("y"), PolynomialStringError::ParseError(0, 'y'));
    assert_eq!(error_of("3*x"), PolynomialStringError::ParseError(1, '*'));
    assert_eq!(error_of("(x)"), PolynomialStringError::ParseError(0, '('));
    assert_eq!(error_of("2x\t"), PolynomialStringError::ParseError(2, '\t'));
    assert_eq!(error_of("é"), PolynomialStringError::ParseError(0, 'é'));
}

#[test]
fn index_counts_characters_not_bytes() {
    assert_eq!(error_of("2x + é"), PolynomialStringError::ParseError(5, 'é'));
    assert_eq!(error_of("é + ü"), PolynomialStringError::ParseError(0, 'é'));
}

#[test]
fn from_str_reads_as_parse_does() {
    let p: Polynomial = "-4x + 3".parse().unwrap();
    assert_eq!(p.terms(), &vec![term(-4 * ONE, ONE), term(3 * ONE, 0)]);
    let e: Result<Polynomial, PolynomialStringError> = "3x^3 $ 2".parse();
    assert_eq!(e, Err(PolynomialStringError::ParseError(5, '$')));
}

#[test]
fn numerals_with_and_without_a_point() {
    assert_eq!(numeral("5"), Some(5 * ONE));
    assert_eq!(numeral("5."), Some(5 * ONE));
    assert_eq!(numeral(".5"), Some(500_000_000));
    assert_eq!(numeral("0.50"), Some(500_000_000));
    assert_eq!(numeral("007"), Some(7 * ONE));
    assert_eq!(numeral("33.2"), Some(33_200_000_000));
    assert_eq!(numeral("16.998"), Some(16_998_000_000));
    assert_eq!(numeral("0.123456789"), Some(123_456_789));
}

#[test]
fn texts_that_are_no_numerals() {
    assert_eq!(numeral(""), None);
    assert_eq!(numeral("."), None);
    assert_eq!(numeral("1.2.3"), None);
    assert_eq!(numeral(".."), None);
    assert_eq!(numeral("1x"), None);
    assert_eq!(numeral("-1"), None);
    assert_eq!(numeral("1.5a"), None);
    assert_eq!(numeral("1 "), None);
}

#[test]
fn tenth_digit_rounds_the_ninth() {
    assert_eq!(numeral("0.0000000004"), Some(0));
    assert_eq!(numeral("0.0000000005"), Some(1));
    assert_eq!(numeral("0.00000000049999"), Some(0));
    assert_eq!(numeral("0.1234567894"), Some(123_456_789));
    assert_eq!(numeral("0.1234567895"), Some(123_456_790));
    assert_eq!(numeral("0.9999999995"), Some(ONE));
    assert_eq!(numeral("1.99999999951"), Some(2 * ONE));
    assert_eq!(numeral("2.000000000000000000000000000001"), Some(2 * ONE));
}

#[test]
fn numerals_out_of_range_stick_to_the_bound() {
    assert_eq!(numeral("170141183460469231731687303715.884105727"), Some(i128::MAX));
    assert_eq!(numeral("170141183460469231731687303715.884105726"), Some(i128::MAX - 1));
    assert_eq!(numeral("170141183460469231731687303715.884105728"), Some(i128::MAX));
    assert_eq!(numeral("170141183460469231731687303716"), Some(i128::MAX));
    assert_eq!(numeral("199999999999999999999999999999.999999999"), Some(i128::MAX));
    assert_eq!(numeral("200000000000000000000000000000"), Some(i128::MAX));
    assert_eq!(
        numeral("123456789012345678901234567890123456789012345678901234567890.5"),
        Some(i128::MAX)
    );
    assert_eq!(
        terms_of("-999999999999999999999999999999x"),
        vec![term(-i128::MAX, ONE)]
    );
}

#[test]
fn large_numerals_are_exact() {
    assert_eq!(
        numeral("12345678901234567890.123456789"),
        Some(12_345_678_901_234_567_890_123_456_789)
    );
    assert_eq!(numeral("100000000000"), Some(100_000_000_000 * ONE));
    assert_eq!(
        terms_of("100000x^2 - 9007199254740993"),
        vec![term(100_000 * ONE, 2 * ONE), term(-9_007_199_254_740_993 * ONE, 0)]
    );
}
