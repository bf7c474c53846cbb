//! What holds of simplifying, organizing and multiplying, for all
//! polynomials.

use vstd::prelude::*;
use vstd::seq_lib::*;
use crate::decimal::{Decimal, magnitude};
use crate::polynomial::{
    Term, cross_terms, insert_position, is_organized, is_simplified, merge_term, merged,
    multiplied, organized, position_of, scaled_by, simplified, without_zeros,
    lemma_insert_position, lemma_position_of,
};

verus! {

/// The terms of `s` with exponent `e`, in their order.
pub open spec fn with_exponent(s: Seq<Term>, e: Decimal) -> Seq<Term>
    decreases s.len(),
{
    if s.len() == 0 {
        Seq::empty()
    } else if s.last().exp == e {
        with_exponent(s.drop_last(), e).push(s.last())
    } else {
        with_exponent(s.drop_last(), e)
    }
}

/// What the position of insertion is: every term before it has an exponent
/// that is not smaller, and the term at it, if there is one, a smaller one.
pub proof fn lemma_insert_position_is(acc: Seq<Term>, e: Decimal)
    ensures
        0 <= insert_position(acc, e) <= acc.len(),
        forall|j: int| 0 <= j < insert_position(acc, e) ==> (#[trigger] acc[j]).exp@ >= e@,
        insert_position(acc, e) < acc.len() ==> acc[insert_position(acc, e)].exp@ < e@,
    decreases acc.len(),
{
    if acc.len() == 0 || acc[0].exp@ < e@ {
    } else {
        let rest = acc.drop_first();
        lemma_insert_position_is(rest, e);
        assert forall|j: int| 0 <= j < insert_position(acc, e) implies (#[trigger] acc[j]).exp@
            >= e@ by {
            if j > 0 {
                assert(acc[j] == rest[j - 1]);
            }
        }
    }
}

/// What the position of an exponent is: no term before it has the exponent,
/// and the term at it, if there is one, has it.
pub proof fn lemma_position_of_is(acc: Seq<Term>, e: Decimal)
    ensures
        0 <= position_of(acc, e) <= acc.len(),
        forall|j: int| 0 <= j < position_of(acc, e) ==> (#[trigger] acc[j]).exp != e,
        position_of(acc, e) < acc.len() ==> acc[position_of(acc, e)].exp == e,
    decreases acc.len(),
{
    if acc.len() == 0 || acc[0].exp == e {
    } else {
        let rest = acc.drop_first();
        lemma_position_of_is(rest, e);
        assert forall|j: int| 0 <= j < position_of(acc, e) implies (#[trigger] acc[j]).exp
            != e by {
            if j > 0 {
                assert(acc[j] == rest[j - 1]);
            }
        }
    }
}

/// The organized form is in order: exponents never rise.
pub proof fn lemma_organized_is_organized(s: Seq<Term>)
    ensures
        is_organized(organized(s)),
    decreases s.len(),
{
    if s.len() > 0 {
        let acc = organized(s.drop_last());
        let t = s.last();
        let p = insert_position(acc, t.exp);
        lemma_organized_is_organized(s.drop_last());
        lemma_insert_position_is(acc, t.exp);
        let r = acc.insert(p, t);
        assert forall|i: int, j: int| 0 <= i < j < r.len() implies r[i].exp@ >= r[j].exp@ by {
            if j < p {
                assert(r[i] == acc[i] && r[j] == acc[j]);
            } else if j == p {
                assert(r[i] == acc[i]);
            } else if i < p {
                assert(r[i] == acc[i] && r[j] == acc[j - 1]);
                assert(acc[p].exp@ >= acc[j - 1].exp@ || p == j - 1);
            } else if i == p {
                assert(r[j] == acc[j - 1]);
                assert(acc[p].exp@ >= acc[j - 1].exp@ || p == j - 1);
            } else {
                assert(r[i] == acc[i - 1] && r[j] == acc[j - 1]);
            }
        }
    }
}

/// The organized form holds the same terms, each as often as before.
pub proof fn lemma_organized_permutes(s: Seq<Term>)
    ensures
        organized(s).to_multiset() == s.to_multiset(),
    decreases s.len(),
{
    if s.len() == 0 {
        assert(organized(s) =~= s);
    } else {
        let front = s.drop_last();
        let acc = organized(front);
        let p = insert_position(acc, s.last().exp);
        lemma_organized_permutes(front);
        lemma_insert_position_is(acc, s.last().exp);
        to_multiset_insert(acc, p, s.last());
        to_multiset_build(front, s.last());
        assert(s =~= front.push(s.last()));
    }
}

/// Inserting a term among terms leaves the run of each other exponent alone
/// and extends the run of its own exponent where it is put.
proof fn lemma_with_exponent_insert(acc: Seq<Term>, p: int, t: Term, e: Decimal)
    requires
        0 <= p <= acc.len(),
        forall|j: int| p <= j < acc.len() ==> (#[trigger] acc[j]).exp != t.exp,
    ensures
        with_exponent(acc.insert(p, t), e) == if t.exp == e {
            with_exponent(acc, e).push(t)
        } else {
            with_exponent(acc, e)
        },
    decreases acc.len() - p,
{
    let r = acc.insert(p, t);
    if p == acc.len() {
        assert(r =~= acc.push(t));
        assert(r.drop_last() =~= acc);
    } else {
        let front = acc.drop_last();
        assert(r.drop_last() =~= front.insert(p, t));
        assert(r.last() == acc.last());
        assert(acc.last().exp != t.exp);
        lemma_with_exponent_insert(front, p, t, e);
        if acc.last().exp == e {
            assert(t.exp != e);
        }
    }
}

/// Organizing is stable: the terms of each exponent keep their order.
pub proof fn lemma_organized_is_stable(s: Seq<Term>, e: Decimal)
    ensures
        with_exponent(organized(s), e) == with_exponent(s, e),
    decreases s.len(),
{
    if s.len() > 0 {
        let acc = organized(s.drop_last());
        let t = s.last();
        let p = insert_position(acc, t.exp);
        lemma_organized_is_stable(s.drop_last(), e);
        lemma_organized_is_organized(s.drop_last());
        lemma_insert_position_is(acc, t.exp);
        assert forall|j: int| p <= j < acc.len() implies (#[trigger] acc[j]).exp != t.exp by {
            assert(acc[p].exp@ >= acc[j].exp@ || p == j);
        }
        lemma_with_exponent_insert(acc, p, t, e);
    }
}

/// Terms that are in order already are left as they are.
pub proof fn lemma_organized_fixes_organized(s: Seq<Term>)
    requires
        is_organized(s),
    ensures
        organized(s) == s,
    decreases s.len(),
{
    if s.len() > 0 {
        let front = s.drop_last();
        assert(is_organized(front)) by {
            assert forall|i: int, j: int| 0 <= i < j < front.len() implies front[i].exp@
                >= front[j].exp@ by {
                assert(front[i] == s[i] && front[j] == s[j]);
            }
        }
        lemma_organized_fixes_organized(front);
        assert forall|j: int| 0 <= j < front.len() implies front[j].exp@ >= s.last().exp@ by {
            assert(front[j] == s[j]);
        }
        lemma_insert_position(front, s.last().exp, front.len() as int);
        assert(front.insert(front.len() as int, s.last()) =~= s);
    }
}

/// Organizing twice gives what organizing once gives.
pub proof fn lemma_organize_idempotent(s: Seq<Term>)
    ensures
        organized(organized(s)) == organized(s),
{
    lemma_organized_is_organized(s);
    lemma_organized_fixes_organized(organized(s));
}

/// Whether no two terms of `s` share an exponent.
pub open spec fn exponents_differ(s: Seq<Term>) -> bool {
    forall|i: int, j: int| 0 <= i < j < s.len() ==> s[i].exp != s[j].exp
}

/// Merging one more term keeps the exponents apart.
proof fn lemma_merge_term_differ(acc: Seq<Term>, t: Term)
    requires
        exponents_differ(acc),
    ensures
        exponents_differ(merge_term(acc, t)),
{
    let at = position_of(acc, t.exp);
    let r = merge_term(acc, t);
    lemma_position_of_is(acc, t.exp);
    assert forall|i: int, j: int| 0 <= i < j < r.len() implies r[i].exp != r[j].exp by {
        if t.coeff@ == 0 {
        } else if at < acc.len() {
            assert(r[i].exp == acc[i].exp && r[j].exp == acc[j].exp);
        } else {
            if j < acc.len() {
                assert(r[i] == acc[i] && r[j] == acc[j]);
            } else {
                assert(r[i] == acc[i]);
            }
        }
    }
}

/// Merged terms have exponents that differ.
pub proof fn lemma_merged_differ(s: Seq<Term>)
    ensures
        exponents_differ(merged(s)),
    decreases s.len(),
{
    if s.len() > 0 {
        lemma_merged_differ(s.drop_last());
        lemma_merge_term_differ(merged(s.drop_last()), s.last());
    }
}

/// Each term left after the zeros are dropped is a term of the sequence, and
/// those left before it come from before it.
proof fn lemma_without_zeros_source(s: Seq<Term>, k: int) -> (m: int)
    requires
        0 <= k < without_zeros(s).len(),
    ensures
        0 <= m < s.len(),
        s[m] == without_zeros(s)[k],
        s[m].coeff@ != 0,
        without_zeros(s.subrange(0, m)) == without_zeros(s).subrange(0, k),
    decreases s.len(),
{
    let front = s.drop_last();
    if s.last().coeff@ != 0 && k == without_zeros(front).len() {
        assert(s.subrange(0, s.len() - 1) =~= front);
        assert(without_zeros(s).subrange(0, k) =~= without_zeros(front));
        s.len() - 1
    } else {
        let m = lemma_without_zeros_source(front, k);
        assert(front.subrange(0, m) =~= s.subrange(0, m));
        assert(without_zeros(front).subrange(0, k) =~= without_zeros(s).subrange(0, k));
        m
    }
}

/// Dropping the zeros keeps exponents apart.
proof fn lemma_without_zeros_differ(s: Seq<Term>)
    requires
        exponents_differ(s),
    ensures
        is_simplified(without_zeros(s)),
{
    let r = without_zeros(s);
    assert forall|i: int, j: int| 0 <= i < j < r.len() implies r[i].exp != r[j].exp by {
        let mj = lemma_without_zeros_source(s, j);
        let front = s.subrange(0, mj);
        assert(without_zeros(front) == r.subrange(0, j));
        assert(r.subrange(0, j)[i] == r[i]);
        let mi = lemma_without_zeros_source(front, i);
        assert(front[mi] == s[mi]);
    }
    assert forall|i: int| 0 <= i < r.len() implies (#[trigger] r[i]).coeff@ != 0 by {
        let m = lemma_without_zeros_source(s, i);
    }
}

/// The simplified form is simplified: no two of its terms share an exponent,
/// and none has coefficient zero.
pub proof fn lemma_simplified_is_simplified(s: Seq<Term>)
    ensures
        is_simplified(simplified(s)),
{
    lemma_merged_differ(s);
    lemma_without_zeros_differ(merged(s));
}

/// Terms that are simplified already are left as they are.
pub proof fn lemma_simplified_fixes_simplified(s: Seq<Term>)
    requires
        is_simplified(s),
    ensures
        merged(s) == s,
        without_zeros(s) == s,
        simplified(s) == s,
    decreases s.len(),
{
    if s.len() > 0 {
        let front = s.drop_last();
        assert(is_simplified(front)) by {
            assert forall|i: int, j: int| 0 <= i < j < front.len() implies front[i].exp
                != front[j].exp by {
                assert(front[i] == s[i] && front[j] == s[j]);
            }
            assert forall|i: int| 0 <= i < front.len() implies (#[trigger] front[i]).coeff@
                != 0 by {
                assert(front[i] == s[i]);
            }
        }
        lemma_simplified_fixes_simplified(front);
        assert forall|j: int| 0 <= j < front.len() implies front[j].exp != s.last().exp by {
            assert(front[j] == s[j]);
        }
        lemma_position_of(front, s.last().exp, front.len() as int);
        assert(s.last() == s[s.len() - 1]);
        assert(front.push(s.last()) =~= s);
    }
}

/// Simplifying twice gives what simplifying once gives.
pub proof fn lemma_simplify_idempotent(s: Seq<Term>)
    ensures
        simplified(simplified(s)) == simplified(s),
{
    lemma_simplified_is_simplified(s);
    lemma_simplified_fixes_simplified(simplified(s));
}

/// The sum of the coefficients that `s` has at exponent `e`, as an integer
/// count of units of 10^-9; zero where no term has that exponent.
pub open spec fn coefficient_at(s: Seq<Term>, e: Decimal) -> int
    decreases s.len(),
{
    if s.len() == 0 {
        0
    } else {
        coefficient_at(s.drop_last(), e) + if s.last().exp == e {
            s.last().coeff@
        } else {
            0
        }
    }
}

/// The sum of the absolute values of the coefficients of `s`. While it is
/// within the range of a number, no sum of coefficients of `s` leaves the
/// range.
pub open spec fn mass(s: Seq<Term>) -> int
    decreases s.len(),
{
    if s.len() == 0 {
        0
    } else {
        mass(s.drop_last()) + magnitude(s.last().coeff@)
    }
}

/// What one term adds to the sum at exponent `e`.
pub open spec fn share(t: Term, e: Decimal) -> int {
    if t.exp == e {
        t.coeff@
    } else {
        0
    }
}

/// The sums and the mass of two sequences set one behind the other are those
/// of the two, added.
proof fn lemma_sums_concat(a: Seq<Term>, b: Seq<Term>, e: Decimal)
    ensures
        coefficient_at(a + b, e) == coefficient_at(a, e) + coefficient_at(b, e),
        mass(a + b) == mass(a) + mass(b),
    decreases b.len(),
{
    if b.len() == 0 {
        assert(a + b =~= a);
    } else {
        lemma_sums_concat(a, b.drop_last(), e);
        assert((a + b).drop_last() =~= a + b.drop_last());
        assert((a + b).last() == b.last());
    }
}

/// The sums and the mass of a single term.
proof fn lemma_sums_one(t: Term, e: Decimal)
    ensures
        coefficient_at(seq![t], e) == share(t, e),
        mass(seq![t]) == magnitude(t.coeff@),
{
    assert(seq![t].drop_last() =~= Seq::<Term>::empty());
    assert(seq![t].last() == t);
    assert(coefficient_at(seq![t].drop_last(), e) == 0);
    assert(mass(seq![t].drop_last()) == 0);
}

/// Inserting a term adds its share to the sum at its exponent and its
/// absolute value to the mass.
proof fn lemma_sums_insert(acc: Seq<Term>, p: int, t: Term, e: Decimal)
    requires
        0 <= p <= acc.len(),
    ensures
        coefficient_at(acc.insert(p, t), e) == coefficient_at(acc, e) + share(t, e),
        mass(acc.insert(p, t)) == mass(acc) + magnitude(t.coeff@),
{
    let head = acc.subrange(0, p);
    let rest = acc.subrange(p, acc.len() as int);
    assert(acc =~= head + rest);
    assert(acc.insert(p, t) =~= (head + seq![t]) + rest);
    lemma_sums_concat(head, rest, e);
    lemma_sums_concat(head, seq![t], e);
    lemma_sums_concat(head + seq![t], rest, e);
    lemma_sums_one(t, e);
}

/// Replacing a term takes its share out of the sums and the mass and puts in
/// that of the new term.
proof fn lemma_sums_update(acc: Seq<Term>, j: int, u: Term, e: Decimal)
    requires
        0 <= j < acc.len(),
    ensures
        coefficient_at(acc.update(j, u), e) == coefficient_at(acc, e) - share(acc[j], e) + share(
            u,
            e,
        ),
        mass(acc.update(j, u)) == mass(acc) - magnitude(acc[j].coeff@) + magnitude(u.coeff@),
{
    let head = acc.subrange(0, j);
    let rest = acc.subrange(j + 1, acc.len() as int);
    assert(acc =~= (head + seq![acc[j]]) + rest);
    assert(acc.update(j, u) =~= (head + seq![u]) + rest);
    lemma_sums_concat(head, seq![acc[j]], e);
    lemma_sums_concat(head + seq![acc[j]], rest, e);
    lemma_sums_concat(head, seq![u], e);
    lemma_sums_concat(head + seq![u], rest, e);
    lemma_sums_one(u, e);
    lemma_sums_one(acc[j], e);
}

/// No coefficient is greater in absolute value than the mass.
proof fn lemma_mass_bounds(s: Seq<Term>, i: int)
    requires
        0 <= i < s.len(),
    ensures
        0 <= magnitude(s[i].coeff@) <= mass(s),
    decreases s.len(),
{
    lemma_mass_not_negative(s.drop_last());
    if i < s.len() - 1 {
        lemma_mass_bounds(s.drop_last(), i);
    }
}

/// The mass is never negative.
proof fn lemma_mass_not_negative(s: Seq<Term>)
    ensures
        mass(s) >= 0,
    decreases s.len(),
{
    if s.len() > 0 {
        lemma_mass_not_negative(s.drop_last());
    }
}

/// Where the exponents differ, the sum at the exponent of a term is that
/// term's coefficient, and the sum at an exponent that no term has is zero.
proof fn lemma_sums_of_differing(s: Seq<Term>, e: Decimal)
    requires
        exponents_differ(s),
    ensures
        forall|i: int| 0 <= i < s.len() && (#[trigger] s[i]).exp == e ==> coefficient_at(s, e)
            == s[i].coeff@,
        (forall|i: int| 0 <= i < s.len() ==> (#[trigger] s[i]).exp != e) ==> coefficient_at(s, e)
            == 0,
    decreases s.len(),
{
    if s.len() > 0 {
        let front = s.drop_last();
        assert(exponents_differ(front)) by {
            assert forall|i: int, j: int| 0 <= i < j < front.len() implies front[i].exp
                != front[j].exp by {
                assert(front[i] == s[i] && front[j] == s[j]);
            }
        }
        lemma_sums_of_differing(front, e);
        assert forall|i: int| 0 <= i < s.len() && (#[trigger] s[i]).exp == e implies coefficient_at(
            s,
            e,
        ) == s[i].coeff@ by {
            if i < s.len() - 1 {
                assert(front[i] == s[i]);
                assert(s[i].exp != s[s.len() - 1].exp);
            } else {
                assert forall|k: int| 0 <= k < front.len() implies (#[trigger] front[k]).exp
                    != e by {
                    assert(front[k] == s[k]);
                    assert(s[k].exp != s[s.len() - 1].exp);
                }
            }
        }
        if forall|i: int| 0 <= i < s.len() ==> (#[trigger] s[i]).exp != e {
            assert forall|k: int| 0 <= k < front.len() implies (#[trigger] front[k]).exp != e by {
                assert(front[k] == s[k]);
            }
            assert(s[s.len() - 1].exp != e);
        }
    }
}

/// Merging keeps the sum at every exponent, and does not add to the mass,
/// while the mass is within the range of a number.
pub proof fn lemma_sums_merged(s: Seq<Term>, e: Decimal)
    requires
        mass(s) <= i128::MAX,
    ensures
        coefficient_at(merged(s), e) == coefficient_at(s, e),
        0 <= mass(merged(s)) <= mass(s),
    decreases s.len(),
{
    if s.len() > 0 {
        let front = s.drop_last();
        let t = s.last();
        let acc = merged(front);
        let at = position_of(acc, t.exp);
        lemma_mass_not_negative(front);
        lemma_sums_merged(front, e);
        lemma_position_of_is(acc, t.exp);
        if t.coeff@ == 0 {
        } else if at < acc.len() {
            lemma_mass_bounds(acc, at);
            let u = Term { coeff: t.coeff.sum(acc[at].coeff), exp: t.exp };
            assert(u.coeff@ == t.coeff@ + acc[at].coeff@);
            lemma_sums_update(acc, at, u, e);
        } else {
            assert(acc.push(t).drop_last() =~= acc);
        }
    }
}

/// Dropping the zeros keeps the sum at every exponent and the mass.
pub proof fn lemma_sums_without_zeros(s: Seq<Term>, e: Decimal)
    ensures
        coefficient_at(without_zeros(s), e) == coefficient_at(s, e),
        mass(without_zeros(s)) == mass(s),
    decreases s.len(),
{
    if s.len() > 0 {
        lemma_sums_without_zeros(s.drop_last(), e);
        if s.last().coeff@ != 0 {
            assert(without_zeros(s.drop_last()).push(s.last()).drop_last() =~= without_zeros(
                s.drop_last(),
            ));
        }
    }
}

/// Simplifying keeps the sum at every exponent, and does not add to the
/// mass, while the mass is within the range of a number.
pub proof fn lemma_sums_simplified(s: Seq<Term>, e: Decimal)
    requires
        mass(s) <= i128::MAX,
    ensures
        coefficient_at(simplified(s), e) == coefficient_at(s, e),
        0 <= mass(simplified(s)) <= mass(s),
{
    lemma_sums_merged(s, e);
    lemma_sums_without_zeros(merged(s), e);
}

/// Organizing keeps the sum at every exponent and the mass.
pub proof fn lemma_sums_organized(s: Seq<Term>, e: Decimal)
    ensures
        coefficient_at(organized(s), e) == coefficient_at(s, e),
        mass(organized(s)) == mass(s),
    decreases s.len(),
{
    if s.len() > 0 {
        let acc = organized(s.drop_last());
        lemma_sums_organized(s.drop_last(), e);
        lemma_insert_position_is(acc, s.last().exp);
        lemma_sums_insert(acc, insert_position(acc, s.last().exp), s.last(), e);
    }
}

/// The product has at every exponent the sum of the products of terms with
/// that exponent, while the mass of those products is within the range of a
/// number.
pub proof fn lemma_sums_multiplied(a: Seq<Term>, b: Seq<Term>, e: Decimal)
    requires
        mass(cross_terms(a, b)) <= i128::MAX,
    ensures
        coefficient_at(multiplied(a, b), e) == coefficient_at(cross_terms(a, b), e),
        0 <= mass(multiplied(a, b)) <= mass(cross_terms(a, b)),
{
    lemma_sums_simplified(cross_terms(a, b), e);
    lemma_sums_organized(simplified(cross_terms(a, b)), e);
}

/// The products with `b` and `c` set one behind the other are, exponent by
/// exponent, the products with `b` and the products with `c` together.
proof fn lemma_sums_cross(a: Seq<Term>, b: Seq<Term>, c: Seq<Term>, e: Decimal)
    ensures
        coefficient_at(cross_terms(a, b + c), e) == coefficient_at(cross_terms(a, b), e)
            + coefficient_at(cross_terms(a, c), e),
        mass(cross_terms(a, b + c)) == mass(cross_terms(a, b)) + mass(cross_terms(a, c)),
    decreases a.len(),
{
    if a.len() > 0 {
        let front = a.drop_last();
        let t = a.last();
        lemma_sums_cross(front, b, c, e);
        assert(scaled_by(t, b + c) =~= scaled_by(t, b) + scaled_by(t, c));
        lemma_sums_concat(scaled_by(t, b), scaled_by(t, c), e);
        lemma_sums_concat(cross_terms(front, b + c), scaled_by(t, b + c), e);
        lemma_sums_concat(cross_terms(front, b), scaled_by(t, b), e);
        lemma_sums_concat(cross_terms(front, c), scaled_by(t, c), e);
    }
}

/// Organizing simplified terms leaves them simplified.
pub proof fn lemma_organized_keeps_simplified(s: Seq<Term>)
    requires
        is_simplified(s),
    ensures
        is_simplified(organized(s)),
{
    let r = organized(s);
    lemma_organized_permutes(s);
    assert forall|i: int| 0 <= i < r.len() implies (#[trigger] r[i]).coeff@ != 0 by {
        assert(r.contains(r[i]));
        to_multiset_contains(r, r[i]);
        to_multiset_contains(s, r[i]);
        assert(s.contains(r[i]));
        let m = choose|m: int| 0 <= m < s.len() && s[m] == r[i];
        assert(s[m].coeff@ != 0);
    }
    assert forall|i: int, j: int| 0 <= i < j < r.len() implies r[i].exp != r[j].exp by {
        if r[i].exp == r[j].exp {
            let e = r[i].exp;
            lemma_organized_is_stable(s, e);
            lemma_with_exponent_count(s, e);
            lemma_with_exponent_two(r, i, j);
        }
    }
}

/// Where the exponents differ, at most one term has a given exponent.
proof fn lemma_with_exponent_count(s: Seq<Term>, e: Decimal)
    requires
        exponents_differ(s),
    ensures
        with_exponent(s, e).len() <= 1,
        (forall|i: int| 0 <= i < s.len() ==> (#[trigger] s[i]).exp != e) ==> with_exponent(
            s,
            e,
        ).len() == 0,
    decreases s.len(),
{
    if s.len() > 0 {
        let front = s.drop_last();
        assert(exponents_differ(front)) by {
            assert forall|i: int, j: int| 0 <= i < j < front.len() implies front[i].exp
                != front[j].exp by {
                assert(front[i] == s[i] && front[j] == s[j]);
            }
        }
        lemma_with_exponent_count(front, e);
        if s.last().exp == e {
            assert forall|k: int| 0 <= k < front.len() implies (#[trigger] front[k]).exp
                != e by {
                assert(front[k] == s[k]);
                assert(s[k].exp != s[s.len() - 1].exp);
            }
        } else if forall|i: int| 0 <= i < s.len() ==> (#[trigger] s[i]).exp != e {
            assert forall|k: int| 0 <= k < front.len() implies (#[trigger] front[k]).exp
                != e by {
                assert(front[k] == s[k]);
            }
        }
    }
}

/// Two terms of one exponent make a run of two at least.
proof fn lemma_with_exponent_two(s: Seq<Term>, i: int, j: int)
    requires
        0 <= i < j < s.len(),
        s[i].exp == s[j].exp,
    ensures
        with_exponent(s, s[i].exp).len() >= 2,
    decreases s.len(),
{
    let e = s[i].exp;
    let front = s.drop_last();
    if j < s.len() - 1 {
        assert(front[i] == s[i] && front[j] == s[j]);
        lemma_with_exponent_two(front, i, j);
    } else {
        assert(front[i] == s[i]);
        lemma_with_exponent_one(front, i);
    }
}

/// A term makes a run of one at least at its exponent.
proof fn lemma_with_exponent_one(s: Seq<Term>, i: int)
    requires
        0 <= i < s.len(),
    ensures
        with_exponent(s, s[i].exp).len() >= 1,
    decreases s.len(),
{
    if i < s.len() - 1 {
        assert(s.drop_last()[i] == s[i]);
        lemma_with_exponent_one(s.drop_last(), i);
    }
}

/// Two simplified sequences with the same sum at every exponent hold the same
/// terms.
pub proof fn lemma_same_sums_same_terms(s1: Seq<Term>, s2: Seq<Term>)
    requires
        is_simplified(s1),
        is_simplified(s2),
        forall|e: Decimal| coefficient_at(s1, e) == coefficient_at(s2, e),
    ensures
        s1.to_set() == s2.to_set(),
{
    assert forall|t: Term| s1.to_set().contains(t) == s2.to_set().contains(t) by {
        if s1.contains(t) {
            lemma_term_found(s1, s2, t);
        }
        if s2.contains(t) {
            assert(forall|e: Decimal| coefficient_at(s2, e) == coefficient_at(s1, e));
            lemma_term_found(s2, s1, t);
        }
    }
    assert(s1.to_set() =~= s2.to_set());
}

/// Of two simplified sequences with the same sum at the exponent of `t`, the
/// second holds `t` where the first does.
proof fn lemma_term_found(s1: Seq<Term>, s2: Seq<Term>, t: Term)
    requires
        is_simplified(s1),
        is_simplified(s2),
        coefficient_at(s1, t.exp) == coefficient_at(s2, t.exp),
        s1.contains(t),
    ensures
        s2.contains(t),
{
    let i = choose|i: int| 0 <= i < s1.len() && s1[i] == t;
    lemma_sums_of_differing(s1, t.exp);
    lemma_sums_of_differing(s2, t.exp);
    assert(coefficient_at(s1, t.exp) == s1[i].coeff@);
    assert(t.coeff@ != 0);
    let k = choose|k: int| 0 <= k < s2.len() && (#[trigger] s2[k]).exp == t.exp;
    assert(s2[k].coeff@ == t.coeff@);
    assert(s2[k].coeff == t.coeff);
    assert(s2[k] == t);
}

/// Multiplication distributes over setting two polynomials one behind the
/// other: the simplified product of `a` with `b + c` holds the same terms as
/// the two products of `a` with `b` and with `c`, set one behind the other
/// and simplified. This holds while the sum of the absolute values of all
/// coefficients of the products is within the range of a number, so that no
/// sum of them is cut off.
pub proof fn lemma_multiply_distributes(a: Seq<Term>, b: Seq<Term>, c: Seq<Term>)
    requires
        mass(cross_terms(a, b + c)) <= i128::MAX,
    ensures
        simplified(multiplied(a, b + c)).to_set() == simplified(
            multiplied(a, b) + multiplied(a, c),
        ).to_set(),
{
    let whole = cross_terms(a, b + c);
    let left = multiplied(a, b + c);
    let apart = multiplied(a, b) + multiplied(a, c);
    let any = Decimal { nanos: 0 };
    lemma_sums_cross(a, b, c, any);
    lemma_mass_not_negative(cross_terms(a, b));
    lemma_mass_not_negative(cross_terms(a, c));
    // the left side is simplified already
    lemma_simplified_is_simplified(whole);
    lemma_organized_keeps_simplified(simplified(whole));
    lemma_simplified_fixes_simplified(left);
    lemma_simplified_is_simplified(apart);
    // the mass of the right side
    lemma_sums_simplified(cross_terms(a, b), any);
    lemma_sums_simplified(cross_terms(a, c), any);
    lemma_sums_organized(simplified(cross_terms(a, b)), any);
    lemma_sums_organized(simplified(cross_terms(a, c)), any);
    lemma_sums_concat(multiplied(a, b), multiplied(a, c), any);
    assert(mass(apart) <= i128::MAX);
    assert forall|e: Decimal| coefficient_at(left, e) == coefficient_at(simplified(apart), e) by {
        lemma_sums_cross(a, b, c, e);
        lemma_sums_simplified(whole, e);
        lemma_sums_organized(simplified(whole), e);
        lemma_sums_simplified(cross_terms(a, b), e);
        lemma_sums_simplified(cross_terms(a, c), e);
        lemma_sums_organized(simplified(cross_terms(a, b)), e);
        lemma_sums_organized(simplified(cross_terms(a, c)), e);
        lemma_sums_concat(multiplied(a, b), multiplied(a, c), e);
        lemma_sums_simplified(apart, e);
    }
    lemma_same_sums_same_terms(left, simplified(apart));
}

} // verus!
