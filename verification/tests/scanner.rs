use polynomial::parser::{follows, Last, Mode, Scanner};
use polynomial::{Decimal, PolynomialStringError, Term};

const ONE: i128 = 1_000_000_000;

fn term(coeff: i128, exp: i128) -> Term {
    Term::new(Decimal::from_nanos(coeff), Decimal::from_nanos(exp))
}

#[test]
fn characters_are_told_apart() {
    assert_eq!(Mode::new('^'), Some(Mode::Arrow));
    assert_eq!(Mode::new('x'), Some(Mode::X));
    assert_eq!(Mode::new('X'), Some(Mode::X));
    assert_eq!(Mode::new('+'), Some(Mode::Operator(true)));
    assert_eq!(Mode::new('-'), Some(Mode::Operator(false)));
    assert_eq!(Mode::new('.'), Some(Mode::Number('.')));
    assert_eq!(Mode::new('0'), Some(Mode::Number('0')));
    assert_eq!(Mode::new('9'), Some(Mode::Number('9')));
    assert_eq!(Mode::new('/'), None);
    assert_eq!(Mode::new(':'), None);
    assert_eq!(Mode::new(' '), None);
    assert_eq!(Mode::new('y'), None);
    assert_eq!(Mode::new('٣'), None);
}

#[test]
fn each_mode_has_its_character() {
    assert_eq!(Mode::Number('7').char(), '7');
    assert_eq!(Mode::Number('.').char(), '.');
    assert_eq!(Mode::X.char(), 'x');
    assert_eq!(Mode::Operator(true).char(), '+');
    assert_eq!(Mode::Operator(false).char(), '-');
    assert_eq!(Mode::Arrow.char(), '^');
    assert_eq!(Mode::Number('7').last(), Last::Number);
    assert_eq!(Mode::X.last(), Last::X);
    assert_eq!(Mode::Operator(false).last(), Last::Operator);
    assert_eq!(Mode::Arrow.last(), Last::Arrow);
}

#[test]
fn table_of_what_may_follow() {
    let kinds = [Last::Number, Last::X, Last::Operator, Last::Arrow];
    let table = [
        (Last::Start, [true, true, true, false]),
        (Last::Number, [true, true, true, true]),
        (Last::X, [false, false, true, true]),
        (Last::Operator, [true, true, true, false]),
        (Last::Arrow, [true, false, true, true]),
    ];
    for (last, row) in table {
        for (next, expected) in kinds.iter().zip(row) {
            assert_eq!(follows(last, *next), expected, "{:?} then {:?}", last, next);
        }
        assert!(!follows(last, Last::Start));
    }
}

#[test]
fn scanner_takes_one_character_at_a_time() {
    let mut scanner = Scanner::new();
    for (i, c) in "2x^3 - 5+".chars().enumerate() {
        scanner = scanner.advance(i, c).unwrap();
    }
    assert_eq!(scanner.into_terms(), vec![term(2 * ONE, 3 * ONE), term(-5 * ONE, 0)]);
}

#[test]
fn scanner_reports_the_index_it_is_given() {
    let scanner = Scanner::new().advance(40, '3').unwrap();
    assert_eq!(
        scanner.advance(41, '^').unwrap_err(),
        PolynomialStringError::ParseError(41, '^')
    );
    assert_eq!(
        Scanner::new().advance(7, '#').unwrap_err(),
        PolynomialStringError::ParseError(7, '#')
    );
}

#[test]
fn scanner_holds_back_an_unfinished_term() {
    let mut scanner = Scanner::new();
    for (i, c) in "4 + 2x".chars().enumerate() {
        scanner = scanner.advance(i, c).unwrap();
    }
    assert_eq!(scanner.into_terms(), vec![term(4 * ONE, 0)]);
}
