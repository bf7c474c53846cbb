//! Products of parenthesized polynomials, such as `(x + 1)(x - 1)`.

use vstd::prelude::*;
use vstd::string::StrSliceExecFns;
use crate::decimal::{Decimal, SCALE};
use crate::error::PolynomialStringError;
use crate::parser::{parsed, terms_of};
use crate::polynomial::{Polynomial, Term, is_organized, is_simplified, multiplied};

verus! {

/// Where the reader of a product stands between two characters.
pub struct FactorState {
    /// Whether a parenthesis is open.
    pub open: bool,
    /// The index of the parenthesis that was opened last.
    pub start: int,
    /// The product of the factors closed so far.
    pub product: Seq<Term>,
}

/// The product of no factors: the constant one.
pub open spec fn unit_terms() -> Seq<Term> {
    seq![Term { coeff: Decimal { nanos: SCALE }, exp: Decimal { nanos: 0 } }]
}

/// The state before the first character.
pub open spec fn no_factor() -> FactorState {
    FactorState { open: false, start: 0, product: unit_terms() }
}

/// The state after the character at `i`. An opening parenthesis must not
/// stand inside an open pair, and a closing one must close a pair; what the
/// pair encloses is read as a polynomial and multiplied into the product. Any
/// other character changes nothing.
pub open spec fn factor_step(st: FactorState, text: Seq<char>, i: int) -> Result<
    FactorState,
    PolynomialStringError,
> {
    if text[i] == '(' {
        if st.open {
            Err(PolynomialStringError::ParenthesesError(i as usize, true))
        } else {
            Ok(FactorState { open: true, start: i, product: st.product })
        }
    } else if text[i] == ')' {
        if !st.open {
            Err(PolynomialStringError::ParenthesesError(i as usize, false))
        } else {
            match parsed(text.subrange(st.start + 1, i)) {
                Ok(factor) => Ok(
                    FactorState {
                        open: false,
                        start: st.start,
                        product: multiplied(st.product, factor),
                    },
                ),
                Err(e) => Err(e),
            }
        }
    } else {
        Ok(st)
    }
}

/// The state after the characters of `text` from `from` on, or the first
/// error.
pub open spec fn factor_scan(st: FactorState, text: Seq<char>, from: int) -> Result<
    FactorState,
    PolynomialStringError,
>
    decreases text.len() - from,
{
    if from < 0 || from >= text.len() {
        Ok(st)
    } else {
        match factor_step(st, text, from) {
            Ok(next) => factor_scan(next, text, from + 1),
            Err(e) => Err(e),
        }
    }
}

/// The product that `text` writes: the polynomials in its pairs of
/// parentheses, multiplied from left to right, starting from the constant
/// one. An error of a factor carries the index inside that factor.
pub open spec fn product_of_factors(text: Seq<char>) -> Result<Seq<Term>, PolynomialStringError> {
    match factor_scan(no_factor(), text, 0) {
        Ok(st) => Ok(st.product),
        Err(e) => Err(e),
    }
}

/// Reads a product of parenthesized polynomials and multiplies it out. The
/// product comes simplified and organized.
pub fn parse_poly_mult_string(ps: &str) -> (r: Result<Polynomial, PolynomialStringError>)
    ensures
        terms_of(r) == product_of_factors(ps@),
        match r {
            Ok(p) => is_simplified(p@) && is_organized(p@),
            Err(_) => true,
        },
{
    let n = ps.unicode_len();
    let mut unit: Vec<Term> = Vec::new();
    unit.push(Term::new(Decimal::from_nanos(SCALE), Decimal::from_nanos(0)));
    proof {
        assert(unit@ =~= unit_terms());
    }
    let mut build = Polynomial::new(unit);
    let mut parens_open = false;
    let mut start: usize = 0;
    let mut i: usize = 0;
    while i < n
        invariant
            i <= n,
            n == ps@.len(),
            start <= i,
            parens_open ==> start < i,
            is_simplified(build@),
            is_organized(build@),
            factor_scan(no_factor(), ps@, 0) == factor_scan(
                FactorState { open: parens_open, start: start as int, product: build@ },
                ps@,
                i as int,
            ),
        decreases n - i,
    {
        let c = ps.get_char(i);
        if c == '(' {
            if parens_open {
                return Err(PolynomialStringError::ParenthesesError(i, true));
            }
            parens_open = true;
            start = i;
        } else if c == ')' {
            if !parens_open {
                return Err(PolynomialStringError::ParenthesesError(i, false));
            }
            parens_open = false;
            match Polynomial::parse(ps.substring_char(start + 1, i)) {
                Ok(factor) => {
                    build = build.mult(&factor);
                },
                Err(e) => {
                    return Err(e);
                },
            }
        }
        i += 1;
    }
    Ok(build)
}

} // verus!
