//! Reading a polynomial from text: a scanner that takes one character at a
//! time, checks it against what may follow the character before, and builds
//! the terms.

use vstd::prelude::*;
use vstd::string::StrSliceExecFns;
use crate::decimal::{Decimal, SCALE, saturate};
use crate::error::PolynomialStringError;
use crate::numeral::{is_digit, is_numeral, numeral_nanos, parse_numeral};
use crate::polynomial::{Polynomial, Term};

verus! {

/// What a character of the text is.
#[derive(Clone, Copy, Debug, PartialEq, Eq, Structural)]
pub enum Mode {
    /// A digit or a decimal point: part of a number.
    Number(char),
    /// The variable, `x` or `X`.
    X,
    /// A sign: `+` (`true`) or `-` (`false`).
    Operator(bool),
    /// The caret that announces an exponent.
    Arrow,
}

/// What the scanner read last: nothing yet, or a character of one of the
/// four kinds. It decides what may come next.
#[derive(Clone, Copy, Debug, PartialEq, Eq, Structural)]
pub enum Last {
    Start,
    Number,
    X,
    Operator,
    Arrow,
}

/// How far the term under construction has come.
#[derive(Clone, Copy, Debug, PartialEq, Eq, Structural)]
pub enum Slot {
    /// No coefficient yet.
    Empty,
    /// The variable was read, and no caret: the coefficient is known, the
    /// exponent stands at one.
    Variable(Decimal),
    /// A caret was read after the variable: the coefficient is known, the
    /// exponent is awaited.
    Power(Decimal),
}

impl Mode {
    /// The kind of a character; `None` for a character that no polynomial
    /// holds.
    pub open spec fn of(c: char) -> Option<Mode> {
        if c == '^' {
            Some(Mode::Arrow)
        } else if c == 'x' || c == 'X' {
            Some(Mode::X)
        } else if c == '+' || c == '-' {
            Some(Mode::Operator(c == '+'))
        } else if c == '.' || is_digit(c) {
            Some(Mode::Number(c))
        } else {
            None
        }
    }

    /// The character that stands for a kind in an error: the character
    /// itself for part of a number, and `x`, `+`, `-` or `^`.
    pub open spec fn symbol(self) -> char {
        match self {
            Mode::Number(c) => c,
            Mode::X => 'x',
            Mode::Operator(plus) => if plus {
                '+'
            } else {
                '-'
            },
            Mode::Arrow => '^',
        }
    }

    /// The kind as the scanner remembers it.
    pub open spec fn kind(self) -> Last {
        match self {
            Mode::Number(_) => Last::Number,
            Mode::X => Last::X,
            Mode::Operator(_) => Last::Operator,
            Mode::Arrow => Last::Arrow,
        }
    }

    /// Tells what a character is.
    pub fn new(c: char) -> (r: Option<Mode>)
        ensures
            r == Mode::of(c),
    {
        if c == '^' {
            Some(Mode::Arrow)
        } else if c == 'x' || c == 'X' {
            Some(Mode::X)
        } else if c == '+' || c == '-' {
            Some(Mode::Operator(c == '+'))
        } else if c == '.' || ('0' <= c && c <= '9') {
            Some(Mode::Number(c))
        } else {
            None
        }
    }

    /// The character that stands for the kind in an error.
    pub fn char(&self) -> (c: char)
        ensures
            c == self.symbol(),
    {
        match self {
            Mode::Number(c) => *c,
            Mode::X => 'x',
            Mode::Operator(plus) => if *plus {
                '+'
            } else {
                '-'
            },
            Mode::Arrow => '^',
        }
    }

    /// The kind as the scanner remembers it.
    pub fn last(&self) -> (l: Last)
        ensures
            l == self.kind(),
    {
        match self {
            Mode::Number(_) => Last::Number,
            Mode::X => Last::X,
            Mode::Operator(_) => Last::Operator,
            Mode::Arrow => Last::Arrow,
        }
    }
}

/// Whether a character of kind `next` may follow what was read last. Only
/// the kinds count, not the digit or the sign.
///
/// | read last | may follow |
/// |---|---|
/// | nothing | number, variable, sign |
/// | number | number, sign, variable, caret |
/// | variable | sign, caret |
/// | sign | number, sign, variable |
/// | caret | number, sign, caret |
///
/// A text starts with a number or the variable, or with the sign of its
/// first term. Of the signs only a minus is of use there: a plus with no
/// number before it is an error, at the start as anywhere else (see
/// [`on_operator`]).
pub open spec fn allowed(last: Last, next: Last) -> bool {
    match last {
        Last::Start => next == Last::Number || next == Last::X || next == Last::Operator,
        Last::Number => next == Last::Number || next == Last::Operator || next == Last::X || next
            == Last::Arrow,
        Last::X => next == Last::Operator || next == Last::Arrow,
        Last::Operator => next == Last::Number || next == Last::Operator || next == Last::X,
        Last::Arrow => next == Last::Number || next == Last::Operator || next == Last::Arrow,
    }
}

/// Tells whether a character of kind `next` may follow `last`.
pub fn follows(last: Last, next: Last) -> (b: bool)
    ensures
        b == allowed(last, next),
{
    match last {
        Last::Start => match next {
            Last::Number | Last::X | Last::Operator => true,
            _ => false,
        },
        Last::Number => match next {
            Last::Number | Last::Operator | Last::X | Last::Arrow => true,
            _ => false,
        },
        Last::X => match next {
            Last::Operator | Last::Arrow => true,
            _ => false,
        },
        Last::Operator => match next {
            Last::Number | Last::Operator | Last::X => true,
            _ => false,
        },
        Last::Arrow => match next {
            Last::Number | Last::Operator | Last::Arrow => true,
            _ => false,
        },
    }
}

/// The state of the scanner between two characters, as a value of
/// mathematics.
pub struct ScanState {
    /// What was read last.
    pub last: Last,
    /// The digits and decimal points read since the last number was
    /// completed.
    pub buffer: Seq<char>,
    /// The term under construction.
    pub slot: Slot,
    /// The sign that the next number takes: `true` for plus.
    pub positive: bool,
    /// The terms completed so far.
    pub terms: Seq<Term>,
}

/// The number that the buffer writes, if it writes one.
pub open spec fn numeral_of(buffer: Seq<char>) -> Option<Decimal> {
    if is_numeral(buffer) {
        Some(Decimal { nanos: saturate(numeral_nanos(buffer)) as i128 })
    } else {
        None
    }
}

/// `d` under a sign.
pub open spec fn signed(positive: bool, d: Decimal) -> Decimal {
    if positive {
        d
    } else {
        d.opposite()
    }
}

/// The state before the first character.
pub open spec fn start_state() -> ScanState {
    ScanState {
        last: Last::Start,
        buffer: Seq::empty(),
        slot: Slot::Empty,
        positive: true,
        terms: Seq::empty(),
    }
}

/// The state after the term `t` is completed by a sign: the term is added,
/// the sign is kept for the next term, and the rest is cleared.
pub open spec fn completed(st: ScanState, t: Term, plus: bool) -> ScanState {
    ScanState {
        last: st.last,
        buffer: Seq::empty(),
        slot: Slot::Empty,
        positive: plus,
        terms: st.terms.push(t),
    }
}

/// The variable at `index`. The buffer, or `1` where it is empty, becomes the
/// coefficient. It is an error where the buffer is no numeral or the term
/// has its variable already.
pub open spec fn on_variable(st: ScanState, index: usize) -> Result<
    ScanState,
    PolynomialStringError,
> {
    let text = if st.buffer.len() == 0 {
        seq!['1']
    } else {
        st.buffer
    };
    match (st.slot, numeral_of(text)) {
        (Slot::Empty, Some(v)) => Ok(
            ScanState { buffer: Seq::empty(), slot: Slot::Variable(v), ..st },
        ),
        _ => Err(PolynomialStringError::ParseError(index, 'x')),
    }
}

/// The caret at `index`. It is an error unless the variable was just read.
/// The coefficient takes the waiting sign, and the sign is plus again.
pub open spec fn on_arrow(st: ScanState, index: usize) -> Result<
    ScanState,
    PolynomialStringError,
> {
    match st.slot {
        Slot::Variable(c) => Ok(
            ScanState { slot: Slot::Power(signed(st.positive, c)), positive: true, ..st },
        ),
        _ => Err(PolynomialStringError::ParseError(index, '^')),
    }
}

/// The sign at `index`.
///
/// - Before any coefficient: a minus with an empty buffer is the sign of the
///   coefficient to come. Otherwise the buffer is the coefficient of a
///   constant term, which takes the waiting sign and is completed.
/// - After a caret: with an empty buffer the sign is that of the exponent to
///   come. Otherwise the buffer is the exponent, which takes the waiting sign,
///   and the term is completed.
/// - After the variable: the term has exponent one, its coefficient takes
///   the waiting sign, and it is completed.
///
/// A buffer that is no numeral is an error where a number is due.
pub open spec fn on_operator(st: ScanState, index: usize, plus: bool) -> Result<
    ScanState,
    PolynomialStringError,
> {
    let failure = PolynomialStringError::ParseError(
        index,
        if plus {
            '+'
        } else {
            '-'
        },
    );
    match st.slot {
        Slot::Empty => if st.buffer.len() == 0 && !plus {
            Ok(ScanState { positive: false, ..st })
        } else {
            match numeral_of(st.buffer) {
                Some(v) => Ok(
                    completed(
                        st,
                        Term { coeff: signed(st.positive, v), exp: Decimal { nanos: 0 } },
                        plus,
                    ),
                ),
                None => Err(failure),
            }
        },
        Slot::Power(c) => if st.buffer.len() == 0 {
            Ok(ScanState { positive: plus, ..st })
        } else {
            match numeral_of(st.buffer) {
                Some(v) => Ok(completed(st, Term { coeff: c, exp: signed(st.positive, v) }, plus)),
                None => Err(failure),
            }
        },
        Slot::Variable(c) => Ok(
            completed(
                st,
                Term { coeff: signed(st.positive, c), exp: Decimal { nanos: SCALE } },
                plus,
            ),
        ),
    }
}

/// The state after the character `c`, which stands at `index`. A blank
/// changes nothing. Any other character must be of one of the four kinds and
/// allowed after the last one, else it is an error at `index`.
pub open spec fn step(st: ScanState, index: usize, c: char) -> Result<
    ScanState,
    PolynomialStringError,
> {
    if c == ' ' {
        Ok(st)
    } else {
        match Mode::of(c) {
            None => Err(PolynomialStringError::ParseError(index, c)),
            Some(mode) => if !allowed(st.last, mode.kind()) {
                Err(PolynomialStringError::ParseError(index, mode.symbol()))
            } else {
                let seen = ScanState { last: mode.kind(), ..st };
                match mode {
                    Mode::Number(d) => Ok(ScanState { buffer: seen.buffer.push(d), ..seen }),
                    Mode::X => on_variable(seen, index),
                    Mode::Operator(plus) => on_operator(seen, index, plus),
                    Mode::Arrow => on_arrow(seen, index),
                }
            },
        }
    }
}

/// The state after the characters of `text` from `from` on, or the first
/// error.
pub open spec fn scan(st: ScanState, text: Seq<char>, from: int) -> Result<
    ScanState,
    PolynomialStringError,
>
    decreases text.len() - from,
{
    if from < 0 || from >= text.len() {
        Ok(st)
    } else {
        match step(st, from as usize, text[from]) {
            Ok(next) => scan(next, text, from + 1),
            Err(e) => Err(e),
        }
    }
}

/// The terms that `text` writes, in the order of the text, or what is wrong
/// with it. The empty text is an error. Any other is scanned with one `+`
/// added to its end, which completes the last term.
pub open spec fn parsed(text: Seq<char>) -> Result<Seq<Term>, PolynomialStringError> {
    if text.len() == 0 {
        Err(PolynomialStringError::EmptyStringError)
    } else {
        match scan(start_state(), text.push('+'), 0) {
            Ok(st) => Ok(st.terms),
            Err(e) => Err(e),
        }
    }
}

/// The scanner between two characters.
#[derive(Debug)]
pub struct Scanner {
    last: Last,
    buffer: Vec<char>,
    slot: Slot,
    positive: bool,
    terms: Vec<Term>,
}

impl View for Scanner {
    type V = ScanState;

    /// The scanner as a value of mathematics.
    closed spec fn view(&self) -> ScanState {
        ScanState {
            last: self.last,
            buffer: self.buffer@,
            slot: self.slot,
            positive: self.positive,
            terms: self.terms@,
        }
    }
}

/// What a step of the scanner gave, with the scanner as its state.
pub open spec fn state_of(r: Result<Scanner, PolynomialStringError>) -> Result<
    ScanState,
    PolynomialStringError,
> {
    match r {
        Ok(s) => Ok(s@),
        Err(e) => Err(e),
    }
}

/// What reading a text gave, with the polynomial as its terms.
pub open spec fn terms_of(r: Result<Polynomial, PolynomialStringError>) -> Result<
    Seq<Term>,
    PolynomialStringError,
> {
    match r {
        Ok(p) => Ok(p@),
        Err(e) => Err(e),
    }
}

/// Gives a number its sign.
fn with_sign(positive: bool, d: Decimal) -> (r: Decimal)
    ensures
        r == signed(positive, d),
{
    if positive {
        d
    } else {
        d.negated()
    }
}

/// Reads the buffer as a number.
fn read_buffer(buffer: &Vec<char>) -> (r: Option<Decimal>)
    ensures
        r == numeral_of(buffer@),
{
    parse_numeral(buffer)
}

impl Scanner {
    /// The scanner before the first character.
    pub fn new() -> (s: Scanner)
        ensures
            s@ == start_state(),
    {
        Scanner {
            last: Last::Start,
            buffer: Vec::new(),
            slot: Slot::Empty,
            positive: true,
            terms: Vec::new(),
        }
    }

    /// The terms completed so far.
    pub fn into_terms(self) -> (v: Vec<Term>)
        ensures
            v@ == self@.terms,
    {
        self.terms
    }

    /// Completes the term `t` at a sign.
    fn complete(self, t: Term, plus: bool) -> (s: Scanner)
        ensures
            s@ == completed(self@, t, plus),
    {
        let mut terms = self.terms;
        terms.push(t);
        Scanner { last: self.last, buffer: Vec::new(), slot: Slot::Empty, positive: plus, terms }
    }

    /// Takes the variable at `index`.
    fn variable(self, index: usize) -> (r: Result<Scanner, PolynomialStringError>)
        ensures
            state_of(r) == on_variable(self@, index),
    {
        let mut buffer = self.buffer;
        if buffer.len() == 0 {
            buffer.push('1');
            proof {
                assert(buffer@ =~= seq!['1']);
            }
        }
        match (self.slot, read_buffer(&buffer)) {
            (Slot::Empty, Some(v)) => Ok(
                Scanner {
                    last: self.last,
                    buffer: Vec::new(),
                    slot: Slot::Variable(v),
                    positive: self.positive,
                    terms: self.terms,
                },
            ),
            _ => Err(PolynomialStringError::ParseError(index, 'x')),
        }
    }

    /// Takes the caret at `index`.
    fn arrow(self, index: usize) -> (r: Result<Scanner, PolynomialStringError>)
        ensures
            state_of(r) == on_arrow(self@, index),
    {
        match self.slot {
            Slot::Variable(c) => Ok(
                Scanner {
                    last: self.last,
                    buffer: self.buffer,
                    slot: Slot::Power(with_sign(self.positive, c)),
                    positive: true,
                    terms: self.terms,
                },
            ),
            _ => Err(PolynomialStringError::ParseError(index, '^')),
        }
    }

    /// Takes the sign at `index`.
    fn operator(self, index: usize, plus: bool) -> (r: Result<Scanner, PolynomialStringError>)
        ensures
            state_of(r) == on_operator(self@, index, plus),
    {
        let failure = PolynomialStringError::ParseError(
            index,
            if plus {
                '+'
            } else {
                '-'
            },
        );
        match self.slot {
            Slot::Empty => {
                if self.buffer.len() == 0 && !plus {
                    Ok(
                        Scanner {
                            last: self.last,
                            buffer: self.buffer,
                            slot: self.slot,
                            positive: false,
                            terms: self.terms,
                        },
                    )
                } else {
                    match read_buffer(&self.buffer) {
                        Some(v) => {
                            let t = Term {
                                coeff: with_sign(self.positive, v),
                                exp: Decimal { nanos: 0 },
                            };
                            Ok(self.complete(t, plus))
                        },
                        None => Err(failure),
                    }
                }
            },
            Slot::Power(c) => {
                if self.buffer.len() == 0 {
                    Ok(
                        Scanner {
                            last: self.last,
                            buffer: self.buffer,
                            slot: self.slot,
                            positive: plus,
                            terms: self.terms,
                        },
                    )
                } else {
                    match read_buffer(&self.buffer) {
                        Some(v) => {
                            let t = Term { coeff: c, exp: with_sign(self.positive, v) };
                            Ok(self.complete(t, plus))
                        },
                        None => Err(failure),
                    }
                }
            },
            Slot::Variable(c) => {
                let t = Term { coeff: with_sign(self.positive, c), exp: Decimal { nanos: SCALE } };
                Ok(self.complete(t, plus))
            },
        }
    }

    /// Takes the character `c`, which stands at `index`.
    pub fn advance(self, index: usize, c: char) -> (r: Result<Scanner, PolynomialStringError>)
        ensures
            state_of(r) == step(self@, index, c),
    {
        if c == ' ' {
            return Ok(self);
        }
        match Mode::new(c) {
            None => Err(PolynomialStringError::ParseError(index, c)),
            Some(mode) => {
                if !follows(self.last, mode.last()) {
                    return Err(PolynomialStringError::ParseError(index, mode.char()));
                }
                let seen = Scanner {
                    last: mode.last(),
                    buffer: self.buffer,
                    slot: self.slot,
                    positive: self.positive,
                    terms: self.terms,
                };
                match mode {
                    Mode::Number(d) => {
                        let mut buffer = seen.buffer;
                        buffer.push(d);
                        Ok(
                            Scanner {
                                last: seen.last,
                                buffer,
                                slot: seen.slot,
                                positive: seen.positive,
                                terms: seen.terms,
                            },
                        )
                    },
                    Mode::X => seen.variable(index),
                    Mode::Operator(plus) => seen.operator(index, plus),
                    Mode::Arrow => seen.arrow(index),
                }
            },
        }
    }
}

impl Polynomial {
    /// Reads a polynomial from text such as `3x^3 + 33.2 - 4x + -16.998x^33.3`.
    /// The terms come in the order of the text, neither simplified nor
    /// organized.
    pub fn parse(text: &str) -> (r: Result<Polynomial, PolynomialStringError>)
        ensures
            terms_of(r) == parsed(text@),
    {
        let n = text.unicode_len();
        if n == 0 {
            return Err(PolynomialStringError::EmptyStringError);
        }
        let ghost whole = text@.push('+');
        let mut scanner = Scanner::new();
        let mut i: usize = 0;
        while i < n
            invariant
                i <= n,
                n == text@.len(),
                whole == text@.push('+'),
                scan(start_state(), whole, 0) == scan(scanner@, whole, i as int),
            decreases n - i,
        {
            let c = text.get_char(i);
            proof {
                assert(whole[i as int] == c);
            }
            match scanner.advance(i, c) {
                Ok(next) => {
                    scanner = next;
                },
                Err(e) => {
                    return Err(e);
                },
            }
            i += 1;
        }
        proof {
            assert(whole[n as int] == '+');
        }
        match scanner.advance(n, '+') {
            Ok(end) => {
                proof {
                    assert(scan(end@, whole, n + 1) == Ok::<ScanState, PolynomialStringError>(end@));
                }
                Ok(Polynomial::new(end.into_terms()))
            },
            Err(e) => Err(e),
        }
    }
}

impl core::str::FromStr for Polynomial {
    type Err = PolynomialStringError;

    /// Reads a polynomial as [`Polynomial::parse`] does.
    fn from_str(s: &str) -> (r: Result<Polynomial, PolynomialStringError>)
        ensures
            terms_of(r) == parsed(s@),
    {
        Polynomial::parse(s)
    }
}

} // verus!
