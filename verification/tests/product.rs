use polynomial::{parse_poly_mult_string, Decimal, PolynomialStringError, Term};

const ONE: i128 = 1_000_000_000;

fn whole(coeff: i128, exp: i128) -> Term {
    Term::new(Decimal::from_nanos(coeff * ONE), Decimal::from_nanos(exp * ONE))
}

fn terms_of(text: &str) -> Vec<Term> {
    parse_poly_mult_string(text).unwrap().terms().clone()
}

fn error_of(text: &str) -> PolynomialStringError {
    parse_poly_mult_string(text).unwrap_err()
}

#[test]
fn two_factors_are_multiplied() {
    assert_eq!(terms_of("(x^2 + 4x)(x^2 + 4x)"), vec![whole(1, 4), whole(8, 3), whole(16, 2)]);
    assert_eq!(
        parse_poly_mult_string("(x^2 + 4x)(x^2 + 4x)").unwrap().to_string(),
        "x^4 + 8x^3 + 16x^2"
    );
}

#[test]
fn three_factors_are_multiplied_from_the_left() {
    assert_eq!(
        terms_of("(x + 1)(x - 1)(x^2 + 1)"),
        vec![whole(1, 4), whole(-1, 0)]
    );
}

#[test]
fn one_factor_is_simplified_and_organized() {
    assert_eq!(terms_of("(3 + x + 2x^2 + x)"), vec![whole(2, 2), whole(2, 1), whole(3, 0)]);
}

#[test]
fn no_factor_gives_the_constant_one() {
    assert_eq!(terms_of(""), vec![whole(1, 0)]);
    assert_eq!(terms_of("x + 1"), vec![whole(1, 0)]);
}

#[test]
fn text_outside_the_parentheses_is_ignored() {
    assert_eq!(terms_of("2 * (x + 1) and (x - 1)!"), vec![whole(1, 2), whole(-1, 0)]);
}

#[test]
fn factor_left_open_at_the_end_is_ignored() {
    assert_eq!(terms_of("(x + 1)(x - 1"), vec![whole(1, 1), whole(1, 0)]);
}

#[test]
fn opening_inside_an_open_pair_is_an_error() {
    assert_eq!(error_of("(x + (1))"), PolynomialStringError::ParenthesesError(5, true));
    assert_eq!(error_of("(("), PolynomialStringError::ParenthesesError(1, true));
}

#[test]
fn closing_without_an_open_pair_is_an_error() {
    assert_eq!(error_of(")"), PolynomialStringError::ParenthesesError(0, false));
    assert_eq!(error_of("(x))"), PolynomialStringError::ParenthesesError(3, false));
    assert_eq!(error_of("é)"), PolynomialStringError::ParenthesesError(1, false));
}

#[test]
fn error_of_a_factor_counts_inside_the_factor() {
    assert_eq!(error_of("(x + 1)(3x^3 $ 2)"), PolynomialStringError::ParseError(5, '$'));
    assert_eq!(error_of("()"), PolynomialStringError::EmptyStringError);
    assert_eq!(error_of("(x)(ü + 1)"), PolynomialStringError::ParseError(0, 'ü'));
}
