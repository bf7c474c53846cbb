//! Writing a polynomial and reading the text again gives the polynomial
//! back.

use vstd::prelude::*;
use crate::decimal::{Decimal, SCALE, magnitude};
use crate::error::PolynomialStringError;
use crate::laws::lemma_organized_fixes_organized;
use crate::numeral::{decimal_text, is_digit, lemma_magnitude_text_reads_back, magnitude_text};
use crate::parser::{
    Last, Mode, ScanState, Slot, allowed, numeral_of, on_variable, parsed, scan, signed,
    start_state, step,
};
use crate::polynomial::{
    Term, is_organized, organized, power_text, rendered, rendered_prefix, term_piece, term_text,
};

verus! {

/// The state after the characters of `piece`, wherever they stand; `None`
/// where one of them is an error.
spec fn run(st: ScanState, piece: Seq<char>) -> Option<ScanState>
    decreases piece.len(),
{
    if piece.len() == 0 {
        Some(st)
    } else {
        match step(st, 0, piece[0]) {
            Ok(next) => run(next, piece.drop_first()),
            Err(_) => None,
        }
    }
}

/// The state after a character does not depend on where the character
/// stands; only an error names the place.
proof fn lemma_step_anywhere(st: ScanState, i: usize, j: usize, c: char)
    ensures
        step(st, i, c) is Ok ==> step(st, j, c) == step(st, i, c),
{
}

/// Running over two pieces set one behind the other is running over the
/// first and then over the second.
proof fn lemma_run_concat(st: ScanState, a: Seq<char>, b: Seq<char>)
    ensures
        run(st, a + b) == match run(st, a) {
            Some(mid) => run(mid, b),
            None => None,
        },
    decreases a.len(),
{
    if a.len() == 0 {
        assert(a + b =~= b);
    } else {
        assert((a + b)[0] == a[0]);
        assert((a + b).drop_first() =~= a.drop_first() + b);
        match step(st, 0, a[0]) {
            Ok(next) => {
                lemma_run_concat(next, a.drop_first(), b);
            },
            Err(_) => {},
        }
    }
}

/// Running over one character is one step.
proof fn lemma_run_one(st: ScanState, c: char)
    ensures
        run(st, seq![c]) == match step(st, 0, c) {
            Ok(next) => Some(next),
            Err(_) => None::<ScanState>,
        },
{
    assert(seq![c][0] == c);
    assert(seq![c].drop_first() =~= Seq::<char>::empty());
    match step(st, 0, c) {
        Ok(next) => {
            assert(run(next, Seq::<char>::empty()) == Some(next));
        },
        Err(_) => {},
    }
}

/// Scanning a text passes through the state that running over its first
/// part gives.
proof fn lemma_scan_run(st: ScanState, text: Seq<char>, from: int, k: int, after: ScanState)
    requires
        0 <= from,
        0 <= k,
        from + k <= text.len(),
        run(st, text.subrange(from, from + k)) == Some(after),
    ensures
        scan(st, text, from) == scan(after, text, from + k),
    decreases k,
{
    let piece = text.subrange(from, from + k);
    if k == 0 {
    } else {
        assert(piece[0] == text[from]);
        assert(piece.drop_first() =~= text.subrange(from + 1, from + k));
        lemma_step_anywhere(st, 0, from as usize, text[from]);
        match step(st, 0, piece[0]) {
            Ok(next) => {
                lemma_scan_run(next, text, from + 1, k - 1, after);
            },
            Err(_) => {},
        }
    }
}

/// Digits and decimal points go to the buffer.
proof fn lemma_run_number(st: ScanState, piece: Seq<char>)
    requires
        piece.len() > 0,
        forall|i: int| 0 <= i < piece.len() ==> is_digit(#[trigger] piece[i]) || piece[i] == '.',
        allowed(st.last, Last::Number),
    ensures
        run(st, piece) == Some(
            ScanState { last: Last::Number, buffer: st.buffer + piece, ..st },
        ),
    decreases piece.len(),
{
    let c = piece[0];
    let rest = piece.drop_first();
    assert(is_digit(c) || c == '.');
    assert(Mode::of(c) == Some(Mode::Number(c)));
    let next = ScanState { last: Last::Number, buffer: st.buffer.push(c), ..st };
    assert(step(st, 0, c) == Ok::<ScanState, PolynomialStringError>(next));
    if rest.len() == 0 {
        assert(st.buffer.push(c) =~= st.buffer + piece);
        assert(run(next, rest) == Some(next));
    } else {
        assert forall|i: int| 0 <= i < rest.len() implies is_digit(#[trigger] rest[i]) || rest[i]
            == '.' by {
            assert(rest[i] == piece[i + 1]);
        }
        lemma_run_number(next, rest);
        assert(st.buffer.push(c) + rest =~= st.buffer + piece);
    }
}

/// The text of a number leaves its digits in the buffer and its sign as the
/// waiting sign.
proof fn lemma_run_decimal(st: ScanState, v: int)
    requires
        st.buffer.len() == 0,
        st.positive,
        i128::MIN < v <= i128::MAX,
        (st.slot is Empty && (st.last == Last::Start || st.last == Last::Operator)) || (st.slot
            is Power && st.last == Last::Arrow),
    ensures
        run(st, decimal_text(v)) == Some(
            ScanState {
                last: Last::Number,
                buffer: magnitude_text(magnitude(v)),
                positive: v >= 0,
                ..st
            },
        ),
        numeral_of(magnitude_text(magnitude(v))) == Some(Decimal { nanos: magnitude(v) as i128 }),
        magnitude_text(magnitude(v)).len() > 0,
{
    let digits = magnitude_text(magnitude(v));
    lemma_magnitude_text_reads_back(magnitude(v));
    if v < 0 {
        let minus = ScanState { last: Last::Operator, positive: false, ..st };
        assert(Mode::of('-') == Some(Mode::Operator(false)));
        assert(step(st, 0, '-') == Ok::<ScanState, PolynomialStringError>(minus));
        lemma_run_one(st, '-');
        lemma_run_concat(st, seq!['-'], digits);
        lemma_run_number(minus, digits);
        assert(minus.buffer + digits =~= digits);
    } else {
        lemma_run_number(st, digits);
        assert(st.buffer + digits =~= digits);
    }
}

/// Whether the scanner stands between two terms: nothing in the buffer, no
/// term under construction, and no sign waiting.
spec fn between_terms(st: ScanState) -> bool {
    &&& st.buffer.len() == 0
    &&& st.slot is Empty
    &&& st.positive
    &&& (st.last == Last::Start || st.last == Last::Operator)
}

/// The state after `t` was read and completed by a `+`.
spec fn after_term(st: ScanState, t: Term) -> ScanState {
    ScanState {
        last: Last::Operator,
        buffer: Seq::empty(),
        slot: Slot::Empty,
        positive: true,
        terms: st.terms.push(t),
    }
}

/// The variable and its exponent, read behind a coefficient that waits in
/// the buffer: a `+` behind them completes the term.
proof fn lemma_run_power(st: ScanState, m: Decimal, t: Term) -> (pending: ScanState)
    requires
        st.slot is Empty,
        allowed(st.last, Last::X),
        numeral_of(
            if st.buffer.len() == 0 {
                seq!['1']
            } else {
                st.buffer
            },
        ) == Some(m),
        signed(st.positive, m) == t.coeff,
        t.exp@ != 0,
        t.exp@ > i128::MIN,
    ensures
        run(st, power_text(t.exp)) == Some(pending),
        step(pending, 0, '+') == Ok::<ScanState, PolynomialStringError>(
            ScanState {
                last: Last::Operator,
                buffer: Seq::empty(),
                slot: Slot::Empty,
                positive: true,
                terms: st.terms.push(t),
            },
        ),
{
    let seen = ScanState { last: Last::X, ..st };
    let variable = ScanState { buffer: Seq::empty(), slot: Slot::Variable(m), ..seen };
    assert(Mode::of('x') == Some(Mode::X));
    assert(on_variable(seen, 0) == Ok::<ScanState, PolynomialStringError>(variable));
    assert(step(st, 0, 'x') == Ok::<ScanState, PolynomialStringError>(variable));
    assert(Mode::of('+') == Some(Mode::Operator(true)));
    if t.exp@ == SCALE {
        lemma_run_one(st, 'x');
        assert(t.exp == Decimal { nanos: SCALE });
        variable
    } else {
        let power = ScanState {
            last: Last::Arrow,
            slot: Slot::Power(t.coeff),
            positive: true,
            ..variable
        };
        assert(Mode::of('^') == Some(Mode::Arrow));
        assert(step(variable, 0, '^') == Ok::<ScanState, PolynomialStringError>(power));
        lemma_run_decimal(power, t.exp@);
        let pending = ScanState {
            last: Last::Number,
            buffer: magnitude_text(magnitude(t.exp@)),
            positive: t.exp@ >= 0,
            ..power
        };
        lemma_run_one(st, 'x');
        lemma_run_one(variable, '^');
        lemma_run_concat(st, seq!['x'], seq!['^']);
        assert(seq!['x'] + seq!['^'] =~= seq!['x', '^']);
        lemma_run_concat(st, seq!['x', '^'], decimal_text(t.exp@));
        assert(signed(t.exp@ >= 0, Decimal { nanos: magnitude(t.exp@) as i128 }) == t.exp);
        pending
    }
}

/// The text of a term, read between two terms: a `+` behind it completes
/// the term.
proof fn lemma_run_term(st: ScanState, t: Term) -> (pending: ScanState)
    requires
        between_terms(st),
        t.coeff@ != 0,
        t.coeff@ > i128::MIN,
        t.exp@ > i128::MIN,
    ensures
        run(st, term_text(t)) == Some(pending),
        step(pending, 0, '+') == Ok::<ScanState, PolynomialStringError>(after_term(st, t)),
        term_text(t).len() > 0,
{
    assert(Mode::of('+') == Some(Mode::Operator(true)));
    let one = Decimal { nanos: SCALE };
    if t.exp@ == 0 {
        // a constant: the number alone
        lemma_run_decimal(st, t.coeff@);
        assert(term_text(t) =~= decimal_text(t.coeff@)) by {
            lemma_text_of_one();
            assert(power_text(t.exp) =~= Seq::<char>::empty());
        }
        assert(t.exp == Decimal { nanos: 0 });
        assert(signed(t.coeff@ >= 0, Decimal { nanos: magnitude(t.coeff@) as i128 }) == t.coeff);
        ScanState {
            last: Last::Number,
            buffer: magnitude_text(magnitude(t.coeff@)),
            positive: t.coeff@ >= 0,
            ..st
        }
    } else if t.coeff@ == SCALE {
        lemma_numeral_one();
        assert(t.coeff == one);
        let pending = lemma_run_power(st, one, t);
        lemma_power_text_len(t.exp);
        pending
    } else if t.coeff@ == -SCALE {
        lemma_numeral_one();
        let minus = ScanState { last: Last::Operator, positive: false, ..st };
        assert(Mode::of('-') == Some(Mode::Operator(false)));
        assert(step(st, 0, '-') == Ok::<ScanState, PolynomialStringError>(minus));
        assert(signed(false, one) == t.coeff);
        let pending = lemma_run_power(minus, one, t);
        lemma_run_one(st, '-');
        lemma_run_concat(st, seq!['-'], power_text(t.exp));
        assert(after_term(minus, t) == after_term(st, t));
        pending
    } else {
        lemma_run_decimal(st, t.coeff@);
        let coefficient = ScanState {
            last: Last::Number,
            buffer: magnitude_text(magnitude(t.coeff@)),
            positive: t.coeff@ >= 0,
            ..st
        };
        assert(signed(t.coeff@ >= 0, Decimal { nanos: magnitude(t.coeff@) as i128 }) == t.coeff);
        let pending = lemma_run_power(coefficient, Decimal { nanos: magnitude(t.coeff@) as i128 }, t);
        lemma_run_concat(st, decimal_text(t.coeff@), power_text(t.exp));
        assert(after_term(coefficient, t) == after_term(st, t));
        pending
    }
}

/// A variable is written with one character at least.
proof fn lemma_power_text_len(e: Decimal)
    requires
        e@ != 0,
    ensures
        power_text(e).len() > 0,
{
}

/// `1` is a numeral, and it writes one.
proof fn lemma_numeral_one()
    ensures
        numeral_of(seq!['1']) == Some(Decimal { nanos: SCALE }),
{
    lemma_text_of_one();
    lemma_magnitude_text_reads_back(SCALE as int);
}

/// One and minus one are written `1` and `-1`.
proof fn lemma_text_of_one()
    ensures
        magnitude_text(SCALE as int) == seq!['1'],
        decimal_text(SCALE as int) == seq!['1'],
        decimal_text(-SCALE) == seq!['-', '1'],
{
    reveal_with_fuel(crate::numeral::nat_text, 2);
    assert(magnitude_text(SCALE as int) =~= seq!['1']);
    assert(seq!['-'] + seq!['1'] =~= seq!['-', '1']);
}

/// Whether every term of `s` can be written and read again: no coefficient
/// is zero, and no number is the lower bound of the range, whose absolute
/// value is out of the range.
pub open spec fn is_writable(s: Seq<Term>) -> bool {
    forall|i: int|
        0 <= i < s.len() ==> (#[trigger] s[i]).coeff@ != 0 && s[i].coeff@ > i128::MIN && s[i].exp@
            > i128::MIN
}

/// The state between the terms `k - 1` and `k` of `s`.
spec fn between(s: Seq<Term>, k: int) -> ScanState {
    ScanState {
        last: if k == 0 {
            Last::Start
        } else {
            Last::Operator
        },
        buffer: Seq::empty(),
        slot: Slot::Empty,
        positive: true,
        terms: s.take(k),
    }
}

/// The text of the first `k` terms, each followed by ` + `, reads as those
/// terms.
proof fn lemma_run_prefix(s: Seq<Term>, k: int)
    requires
        is_writable(s),
        0 <= k < s.len(),
    ensures
        run(start_state(), rendered_prefix(s, k)) == Some(between(s, k)),
    decreases k,
{
    if k == 0 {
        assert(s.take(0) =~= Seq::<Term>::empty());
    } else {
        let st = between(s, k - 1);
        let t = s[k - 1];
        lemma_run_prefix(s, k - 1);
        let pending = lemma_run_term(st, t);
        let done = after_term(st, t);
        assert(s.take(k - 1).push(t) =~= s.take(k));
        assert(done == between(s, k));
        assert(step(pending, 0, ' ') == Ok::<ScanState, PolynomialStringError>(pending));
        assert(step(done, 0, ' ') == Ok::<ScanState, PolynomialStringError>(done));
        lemma_run_one(pending, ' ');
        lemma_run_one(pending, '+');
        lemma_run_one(done, ' ');
        lemma_run_concat(pending, seq![' '], seq!['+']);
        lemma_run_concat(pending, seq![' '] + seq!['+'], seq![' ']);
        assert((seq![' '] + seq!['+']) + seq![' '] =~= seq![' ', '+', ' ']);
        lemma_run_concat(st, term_text(t), seq![' ', '+', ' ']);
        assert(term_piece(s, k - 1) == term_text(t) + seq![' ', '+', ' ']);
        lemma_run_concat(start_state(), rendered_prefix(s, k - 1), term_piece(s, k - 1));
    }
}

/// A polynomial that is written as text and read again is the polynomial
/// itself, and organizing what was read changes nothing, provided that it
/// has a term, that no coefficient is zero, that its exponents do not rise,
/// and that no number is the lower bound of the range.
pub proof fn lemma_render_parse_round_trip(s: Seq<Term>)
    requires
        s.len() > 0,
        is_writable(s),
        is_organized(s),
    ensures
        parsed(rendered(s)) == Ok::<Seq<Term>, PolynomialStringError>(s),
        organized(s) == s,
{
    let n = s.len() as int;
    let st = between(s, n - 1);
    let t = s[n - 1];
    let text = rendered(s).push('+');
    lemma_run_prefix(s, n - 1);
    let pending = lemma_run_term(st, t);
    let done = after_term(st, t);
    assert(s.take(n - 1).push(t) =~= s);
    assert(term_piece(s, n - 1) == term_text(t));
    lemma_run_concat(start_state(), rendered_prefix(s, n - 1), term_text(t));
    lemma_run_one(pending, '+');
    lemma_run_concat(start_state(), rendered(s), seq!['+']);
    assert(rendered(s) + seq!['+'] =~= text);
    assert(run(start_state(), text) == Some(done));
    assert(text.subrange(0, text.len() as int) =~= text);
    lemma_scan_run(start_state(), text, 0, text.len() as int, done);
    assert(rendered(s).len() > 0);
    lemma_organized_fixes_organized(s);
}

} // verus!
