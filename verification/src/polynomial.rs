//! Polynomials as sequences of terms: merging like terms, ordering by
//! exponent, multiplying, and writing as text.

use vstd::prelude::*;
use crate::decimal::{Decimal, SCALE};
use crate::laws::{
    coefficient_at, lemma_organized_is_organized, lemma_organized_is_stable,
    lemma_organized_keeps_simplified, lemma_organized_permutes, lemma_simplified_is_simplified,
    lemma_sums_multiplied, lemma_sums_simplified, mass, with_exponent,
};
use crate::numeral::{decimal_text, push_decimal};

verus! {

/// One term of a polynomial: `coeff` times the variable to the power `exp`.
#[derive(Clone, Copy, Debug, PartialEq, Eq, Structural)]
pub struct Term {
    pub coeff: Decimal,
    pub exp: Decimal,
}

impl Term {
    /// The product of two terms: the coefficients multiplied and snapped, the
    /// exponents added.
    pub open spec fn product(self, other: Term) -> Term {
        Term { coeff: self.coeff.product(other.coeff), exp: self.exp.sum(other.exp) }
    }

    /// The term `coeff` times the variable to the power `exp`.
    pub fn new(coeff: Decimal, exp: Decimal) -> (t: Term)
        ensures
            t.coeff == coeff,
            t.exp == exp,
    {
        Term { coeff, exp }
    }

    /// Multiplies two terms.
    pub fn times(self, other: Term) -> (t: Term)
        ensures
            t == self.product(other),
    {
        Term { coeff: self.coeff.times(other.coeff), exp: self.exp.plus(other.exp) }
    }
}

/// Where the first term with exponent `e` stands in `acc`; the length of
/// `acc` if there is none.
pub open spec fn position_of(acc: Seq<Term>, e: Decimal) -> int
    decreases acc.len(),
{
    if acc.len() == 0 || acc[0].exp == e {
        0
    } else {
        1 + position_of(acc.drop_first(), e)
    }
}

/// `acc` after one more term is merged into it. A term with coefficient zero
/// leaves it as it is. Another is added to the first term of its exponent,
/// and appended where there is none.
pub open spec fn merge_term(acc: Seq<Term>, t: Term) -> Seq<Term> {
    let at = position_of(acc, t.exp);
    if t.coeff@ == 0 {
        acc
    } else if at < acc.len() {
        acc.update(at, Term { coeff: t.coeff.sum(acc[at].coeff), exp: t.exp })
    } else {
        acc.push(t)
    }
}

/// The terms of `s` merged one by one, in their order.
pub open spec fn merged(s: Seq<Term>) -> Seq<Term>
    decreases s.len(),
{
    if s.len() == 0 {
        Seq::empty()
    } else {
        merge_term(merged(s.drop_last()), s.last())
    }
}

/// The terms of `s` whose coefficient is not zero, in their order.
pub open spec fn without_zeros(s: Seq<Term>) -> Seq<Term>
    decreases s.len(),
{
    if s.len() == 0 {
        Seq::empty()
    } else if s.last().coeff@ == 0 {
        without_zeros(s.drop_last())
    } else {
        without_zeros(s.drop_last()).push(s.last())
    }
}

/// The simplified form of `s`: like terms merged into the place of the first
/// of them, and no term with coefficient zero.
pub open spec fn simplified(s: Seq<Term>) -> Seq<Term> {
    without_zeros(merged(s))
}

/// Whether no two terms of `s` share an exponent and none has coefficient
/// zero.
pub open spec fn is_simplified(s: Seq<Term>) -> bool {
    &&& forall|i: int, j: int| 0 <= i < j < s.len() ==> s[i].exp != s[j].exp
    &&& forall|i: int| 0 <= i < s.len() ==> (#[trigger] s[i]).coeff@ != 0
}

/// Where a term with exponent `e` goes into `acc`: before the first term
/// with a smaller exponent, and at the end if there is none.
pub open spec fn insert_position(acc: Seq<Term>, e: Decimal) -> int
    decreases acc.len(),
{
    if acc.len() == 0 || acc[0].exp@ < e@ {
        0
    } else {
        1 + insert_position(acc.drop_first(), e)
    }
}

/// The terms of `s` inserted one by one, in their order, each at its
/// position.
pub open spec fn organized(s: Seq<Term>) -> Seq<Term>
    decreases s.len(),
{
    if s.len() == 0 {
        Seq::empty()
    } else {
        let acc = organized(s.drop_last());
        acc.insert(insert_position(acc, s.last().exp), s.last())
    }
}

/// Whether the exponents of `s` never rise from one term to a later one.
pub open spec fn is_organized(s: Seq<Term>) -> bool {
    forall|i: int, j: int| 0 <= i < j < s.len() ==> s[i].exp@ >= s[j].exp@
}

/// The products of `t` with each term of `b`, in the order of `b`.
pub open spec fn scaled_by(t: Term, b: Seq<Term>) -> Seq<Term> {
    Seq::new(b.len(), |j: int| t.product(b[j]))
}

/// The products of each term of `a` with each term of `b`: first those of
/// the first term of `a`, in the order of `b`, then those of the second, and
/// so on.
pub open spec fn cross_terms(a: Seq<Term>, b: Seq<Term>) -> Seq<Term>
    decreases a.len(),
{
    if a.len() == 0 {
        Seq::empty()
    } else {
        cross_terms(a.drop_last(), b) + scaled_by(a.last(), b)
    }
}

/// The product of two polynomials: all products of their terms, simplified
/// and organized.
pub open spec fn multiplied(a: Seq<Term>, b: Seq<Term>) -> Seq<Term> {
    organized(simplified(cross_terms(a, b)))
}

/// The variable with its exponent, as it is written behind a coefficient:
/// nothing for exponent zero, `x` for exponent one, `x^` and the exponent
/// for any other.
pub open spec fn power_text(e: Decimal) -> Seq<char> {
    if e@ == 0 {
        Seq::empty()
    } else if e@ == SCALE {
        seq!['x']
    } else {
        seq!['x', '^'] + decimal_text(e@)
    }
}

/// The text of one term. A coefficient of one or minus one is written only
/// where no variable follows; before a variable, minus one leaves its sign.
pub open spec fn term_text(t: Term) -> Seq<char> {
    if t.coeff@ == SCALE {
        if t.exp@ == 0 {
            seq!['1']
        } else {
            power_text(t.exp)
        }
    } else if t.coeff@ == -SCALE {
        if t.exp@ == 0 {
            seq!['-', '1']
        } else {
            seq!['-'] + power_text(t.exp)
        }
    } else {
        decimal_text(t.coeff@) + power_text(t.exp)
    }
}

/// What the term at `i` adds to the text of `s`: nothing where its
/// coefficient is zero; else its text, followed by ` + ` unless it is the
/// last term of `s`.
pub open spec fn term_piece(s: Seq<Term>, i: int) -> Seq<char> {
    if s[i].coeff@ == 0 {
        Seq::empty()
    } else if i != s.len() - 1 {
        term_text(s[i]) + seq![' ', '+', ' ']
    } else {
        term_text(s[i])
    }
}

/// The text of the first `n` terms of `s`.
pub open spec fn rendered_prefix(s: Seq<Term>, n: int) -> Seq<char>
    decreases n,
{
    if n <= 0 {
        Seq::empty()
    } else {
        rendered_prefix(s, n - 1) + term_piece(s, n - 1)
    }
}

/// The text of the polynomial `s`; the empty text where `s` has no term.
pub open spec fn rendered(s: Seq<Term>) -> Seq<char> {
    rendered_prefix(s, s.len() as int)
}

/// Where no term before `i` has exponent `e`, the first that has stands at
/// `i` or behind it.
pub proof fn lemma_position_of(acc: Seq<Term>, e: Decimal, i: int)
    requires
        0 <= i <= acc.len(),
        forall|j: int| 0 <= j < i ==> acc[j].exp != e,
    ensures
        position_of(acc, e) >= i,
        (i == acc.len() || acc[i].exp == e) ==> position_of(acc, e) == i,
        position_of(acc, e) <= acc.len(),
    decreases acc.len(),
{
    if acc.len() == 0 || acc[0].exp == e {
    } else if i == 0 {
        lemma_position_of(acc.drop_first(), e, 0);
    } else {
        lemma_position_of(acc.drop_first(), e, i - 1);
    }
}

/// Where no term before `i` has an exponent below `e`, the first that has
/// stands at `i` or behind it.
pub proof fn lemma_insert_position(acc: Seq<Term>, e: Decimal, i: int)
    requires
        0 <= i <= acc.len(),
        forall|j: int| 0 <= j < i ==> acc[j].exp@ >= e@,
    ensures
        insert_position(acc, e) >= i,
        (i == acc.len() || acc[i].exp@ < e@) ==> insert_position(acc, e) == i,
        insert_position(acc, e) <= acc.len(),
    decreases acc.len(),
{
    if acc.len() == 0 || acc[0].exp@ < e@ {
    } else if i == 0 {
        lemma_insert_position(acc.drop_first(), e, 0);
    } else {
        lemma_insert_position(acc.drop_first(), e, i - 1);
    }
}

/// A polynomial in one variable: its terms, in an order that the caller
/// chooses. Nothing is required of them: two may share an exponent, and a
/// coefficient may be zero.
#[derive(Debug, PartialEq, Eq)]
pub struct Polynomial {
    terms: Vec<Term>,
}

impl View for Polynomial {
    type V = Seq<Term>;

    /// The terms of the polynomial, in their order.
    closed spec fn view(&self) -> Seq<Term> {
        self.terms@
    }
}

impl Polynomial {
    /// The polynomial of the terms `v`, in their order.
    pub fn new(v: Vec<Term>) -> (p: Polynomial)
        ensures
            p@ == v@,
    {
        Polynomial { terms: v }
    }

    /// The terms of the polynomial, in their order.
    pub fn terms(&self) -> (v: &Vec<Term>)
        ensures
            v@ == self@,
    {
        &self.terms
    }

    /// Merges the terms that share an exponent and drops those whose
    /// coefficient is zero. No two terms of the result share an exponent, and
    /// while no sum is cut off at a bound of the range, the result has at
    /// each exponent the sum of the coefficients that the polynomial has
    /// there.
    pub fn simplify(&self) -> (p: Polynomial)
        ensures
            p@ == simplified(self@),
            is_simplified(p@),
            mass(self@) <= i128::MAX ==> forall|e: Decimal|
                coefficient_at(p@, e) == coefficient_at(self@, e),
    {
        let n = self.terms.len();
        let mut build: Vec<Term> = Vec::new();
        let mut i: usize = 0;
        while i < n
            invariant
                i <= n,
                n == self.terms@.len(),
                build@ == merged(self.terms@.take(i as int)),
            decreases n - i,
        {
            let term = self.terms[i];
            proof {
                assert(self.terms@.take(i + 1).drop_last() =~= self.terms@.take(i as int));
            }
            if !term.coeff.is_zero() {
                let mut j: usize = 0;
                while j < build.len() && build[j].exp != term.exp
                    invariant
                        j <= build.len(),
                        forall|k: int| 0 <= k < j ==> build@[k].exp != term.exp,
                    decreases build.len() - j,
                {
                    j += 1;
                }
                proof {
                    lemma_position_of(build@, term.exp, j as int);
                }
                if j < build.len() {
                    let sum = Term { coeff: term.coeff.plus(build[j].coeff), exp: term.exp };
                    build.set(j, sum);
                } else {
                    build.push(term);
                }
            }
            i += 1;
        }
        proof {
            assert(self.terms@.take(n as int) =~= self.terms@);
        }
        let m = build.len();
        let mut kept: Vec<Term> = Vec::new();
        let mut k: usize = 0;
        while k < m
            invariant
                k <= m,
                m == build@.len(),
                kept@ == without_zeros(build@.take(k as int)),
            decreases m - k,
        {
            proof {
                assert(build@.take(k + 1).drop_last() =~= build@.take(k as int));
            }
            if !build[k].coeff.is_zero() {
                kept.push(build[k]);
            }
            k += 1;
        }
        proof {
            assert(build@.take(m as int) =~= build@);
            lemma_simplified_is_simplified(self@);
            if mass(self@) <= i128::MAX {
                assert forall|e: Decimal|
                    coefficient_at(simplified(self@), e) == coefficient_at(self@, e) by {
                    lemma_sums_simplified(self@, e);
                }
            }
        }
        Polynomial { terms: kept }
    }

    /// Orders the terms by exponent, the greatest first; terms that share an
    /// exponent keep their order. The result holds the same terms, each as
    /// often as before.
    pub fn organize(&self) -> (p: Polynomial)
        ensures
            p@ == organized(self@),
            is_organized(p@),
            p@.to_multiset() == self@.to_multiset(),
            forall|e: Decimal| with_exponent(p@, e) == with_exponent(self@, e),
    {
        let n = self.terms.len();
        let mut build: Vec<Term> = Vec::new();
        let mut i: usize = 0;
        while i < n
            invariant
                i <= n,
                n == self.terms@.len(),
                build@ == organized(self.terms@.take(i as int)),
            decreases n - i,
        {
            let term = self.terms[i];
            proof {
                assert(self.terms@.take(i + 1).drop_last() =~= self.terms@.take(i as int));
            }
            let mut j: usize = 0;
            while j < build.len() && build[j].exp.nanos >= term.exp.nanos
                invariant
                    j <= build.len(),
                    forall|k: int| 0 <= k < j ==> build@[k].exp@ >= term.exp@,
                decreases build.len() - j,
            {
                j += 1;
            }
            proof {
                lemma_insert_position(build@, term.exp, j as int);
            }
            build.insert(j, term);
            i += 1;
        }
        proof {
            assert(self.terms@.take(n as int) =~= self.terms@);
            lemma_organized_is_organized(self@);
            lemma_organized_permutes(self@);
            assert forall|e: Decimal|
                with_exponent(organized(self@), e) == with_exponent(self@, e) by {
                lemma_organized_is_stable(self@, e);
            }
        }
        Polynomial { terms: build }
    }

    /// Multiplies two polynomials: every term of the one with every term of
    /// the other, the products simplified and organized. While no sum is cut
    /// off at a bound of the range, the result has at each exponent the sum of
    /// the products with that exponent.
    pub fn mult(&self, poly: &Polynomial) -> (p: Polynomial)
        ensures
            p@ == multiplied(self@, poly@),
            is_simplified(p@),
            is_organized(p@),
            mass(cross_terms(self@, poly@)) <= i128::MAX ==> forall|e: Decimal|
                coefficient_at(p@, e) == coefficient_at(cross_terms(self@, poly@), e),
    {
        let n = self.terms.len();
        let m = poly.terms.len();
        let mut build: Vec<Term> = Vec::new();
        let mut i: usize = 0;
        while i < n
            invariant
                i <= n,
                n == self.terms@.len(),
                m == poly.terms@.len(),
                build@ == cross_terms(self.terms@.take(i as int), poly.terms@),
            decreases n - i,
        {
            let term = self.terms[i];
            let ghost done = build@;
            let mut j: usize = 0;
            while j < m
                invariant
                    j <= m,
                    m == poly.terms@.len(),
                    build@ == done + scaled_by(term, poly.terms@).take(j as int),
                decreases m - j,
            {
                build.push(term.times(poly.terms[j]));
                proof {
                    assert(scaled_by(term, poly.terms@).take(j + 1) =~= scaled_by(
                        term,
                        poly.terms@,
                    ).take(j as int).push(term.product(poly.terms@[j as int])));
                }
                j += 1;
            }
            proof {
                assert(scaled_by(term, poly.terms@).take(m as int) =~= scaled_by(
                    term,
                    poly.terms@,
                ));
                assert(self.terms@.take(i + 1).drop_last() =~= self.terms@.take(i as int));
            }
            i += 1;
        }
        proof {
            assert(self.terms@.take(n as int) =~= self.terms@);
        }
        let product = Polynomial { terms: build };
        proof {
            lemma_simplified_is_simplified(product@);
            lemma_organized_keeps_simplified(simplified(product@));
            if mass(product@) <= i128::MAX {
                assert forall|e: Decimal|
                    coefficient_at(multiplied(self@, poly@), e) == coefficient_at(
                        product@,
                        e,
                    ) by {
                    lemma_sums_multiplied(self@, poly@, e);
                }
            }
        }
        product.simplify().organize()
    }

    /// Writes the polynomial as text, term by term in their order.
    pub fn to_string(&self) -> (s: String)
        ensures
            s@ == rendered(self@),
    {
        let n = self.terms.len();
        let mut out = String::new();
        let mut i: usize = 0;
        while i < n
            invariant
                i <= n,
                n == self.terms@.len(),
                out@ == rendered_prefix(self.terms@, i as int),
            decreases n - i,
        {
            let term = self.terms[i];
            let ghost before = out@;
            if !term.coeff.is_zero() {
                push_term(&mut out, term);
                if i != n - 1 {
                    out.push(' ');
                    out.push('+');
                    out.push(' ');
                    proof {
                        assert(out@ =~= before + (term_text(term) + seq![' ', '+', ' ']));
                    }
                }
            } else {
                proof {
                    assert(out@ =~= before + Seq::<char>::empty());
                }
            }
            i += 1;
        }
        out
    }
}

/// Appends the variable with its exponent to `out`.
fn push_power(out: &mut String, e: Decimal)
    ensures
        final(out)@ == old(out)@ + power_text(e),
{
    if e.nanos == 0 {
        proof {
            assert(out@ =~= old(out)@ + Seq::<char>::empty());
        }
    } else if e.nanos == SCALE {
        out.push('x');
        proof {
            assert(out@ =~= old(out)@ + seq!['x']);
        }
    } else {
        out.push('x');
        out.push('^');
        push_decimal(out, e);
        proof {
            assert(out@ =~= old(out)@ + (seq!['x', '^'] + decimal_text(e@)));
        }
    }
}

/// Appends the text of one term to `out`.
fn push_term(out: &mut String, t: Term)
    ensures
        final(out)@ == old(out)@ + term_text(t),
{
    if t.coeff.nanos == SCALE {
        if t.exp.nanos == 0 {
            out.push('1');
            proof {
                assert(out@ =~= old(out)@ + seq!['1']);
            }
        } else {
            push_power(out, t.exp);
        }
    } else if t.coeff.nanos == -SCALE {
        if t.exp.nanos == 0 {
            out.push('-');
            out.push('1');
            proof {
                assert(out@ =~= old(out)@ + seq!['-', '1']);
            }
        } else {
            out.push('-');
            push_power(out, t.exp);
            proof {
                assert(out@ =~= old(out)@ + (seq!['-'] + power_text(t.exp)));
            }
        }
    } else {
        push_decimal(out, t.coeff);
        push_power(out, t.exp);
        proof {
            assert(out@ =~= old(out)@ + (decimal_text(t.coeff@) + power_text(t.exp)));
        }
    }
}

} // verus!
