//! Decimal numerals: the number that a run of digits and decimal points
//! stands for.

use vstd::prelude::*;
use vstd::arithmetic::div_mod::lemma_div_multiples_vanish_fancy;
use crate::decimal::{Decimal, SCALE, magnitude_of, round_half_away, saturate};

verus! {

/// Whether `c` is one of the ten decimal digits.
pub open spec fn is_digit(c: char) -> bool {
    '0' <= c && c <= '9'
}

/// The value of a decimal digit.
pub open spec fn digit_value(c: char) -> int {
    c as int - 48
}

/// The digit that stands for `d`, for `d` below ten.
pub open spec fn digit_char(d: int) -> char {
    (d + 48) as char
}

/// Ten to the power `k`.
pub open spec fn pow10(k: nat) -> int
    decreases k,
{
    if k == 0 {
        1
    } else {
        10 * pow10((k - 1) as nat)
    }
}

/// Whether `s` holds decimal digits only.
pub open spec fn all_digits(s: Seq<char>) -> bool {
    forall|i: int| 0 <= i < s.len() ==> is_digit(#[trigger] s[i])
}

/// The number that a run of digits writes in base ten; the empty run writes
/// zero.
pub open spec fn digits_value(s: Seq<char>) -> int
    decreases s.len(),
{
    if s.len() == 0 {
        0
    } else {
        digits_value(s.drop_last()) * 10 + digit_value(s.last())
    }
}

/// Where the first decimal point of `s` stands; the length of `s` if it has
/// none.
pub open spec fn point_index(s: Seq<char>) -> int
    decreases s.len(),
{
    if s.len() == 0 || s[0] == '.' {
        0
    } else {
        1 + point_index(s.drop_first())
    }
}

/// What stands before the first decimal point.
pub open spec fn whole_part(s: Seq<char>) -> Seq<char> {
    s.subrange(0, point_index(s))
}

/// What stands behind the first decimal point.
pub open spec fn fraction_part(s: Seq<char>) -> Seq<char> {
    if point_index(s) < s.len() {
        s.subrange(point_index(s) + 1, s.len() as int)
    } else {
        Seq::empty()
    }
}

/// Whether `s` is a numeral: digits with at most one decimal point among
/// them, and at least one digit. `"5"`, `"5."`, `".5"` and `"0.50"` are
/// numerals; `""`, `"."` and `"1.2.3"` are not.
pub open spec fn is_numeral(s: Seq<char>) -> bool {
    &&& all_digits(whole_part(s))
    &&& all_digits(fraction_part(s))
    &&& whole_part(s).len() + fraction_part(s).len() > 0
}

/// The number that the numeral `s` writes, as a count of units of 10^-9: the
/// count nearest to the exact value, a half rounding up.
pub open spec fn numeral_nanos(s: Seq<char>) -> int {
    round_half_away(
        digits_value(whole_part(s) + fraction_part(s)) * SCALE,
        pow10(fraction_part(s).len()),
    )
}

/// What the digits behind the decimal point add to the count of units: nine
/// digits are exact, the tenth decides the rounding, the rest has no say.
pub open spec fn fraction_nanos(f: Seq<char>) -> int {
    if f.len() <= 9 {
        digits_value(f) * pow10((9 - f.len()) as nat)
    } else {
        digits_value(f.subrange(0, 9)) + if digit_value(f[9]) >= 5 {
            1int
        } else {
            0int
        }
    }
}

/// A power of ten is at least one.
pub proof fn lemma_pow10_positive(k: nat)
    ensures
        pow10(k) >= 1,
    decreases k,
{
    if k > 0 {
        lemma_pow10_positive((k - 1) as nat);
    }
}

/// Ten to a sum is the product of the powers.
pub proof fn lemma_pow10_adds(a: nat, b: nat)
    ensures
        pow10(a + b) == pow10(a) * pow10(b),
    decreases a,
{
    if a == 0 {
    } else {
        lemma_pow10_adds((a - 1) as nat, b);
        assert(pow10(a + b) == 10 * pow10((a - 1 + b) as nat));
        assert(10 * (pow10((a - 1) as nat) * pow10(b)) == (10 * pow10((a - 1) as nat)) * pow10(b))
            by (nonlinear_arith);
    }
}

/// Ten to the ninth is the number of units in one.
pub proof fn lemma_pow10_nine()
    ensures
        pow10(9) == SCALE,
{
    reveal_with_fuel(pow10, 10);
}

/// A run of `k` digits writes a number below ten to the `k`.
pub proof fn lemma_digits_bound(s: Seq<char>)
    requires
        all_digits(s),
    ensures
        0 <= digits_value(s) < pow10(s.len()),
    decreases s.len(),
{
    if s.len() > 0 {
        lemma_digits_bound(s.drop_last());
    }
}

/// The value of two runs set one behind the other.
pub proof fn lemma_digits_concat(a: Seq<char>, b: Seq<char>)
    ensures
        digits_value(a + b) == digits_value(a) * pow10(b.len()) + digits_value(b),
    decreases b.len(),
{
    if b.len() == 0 {
        assert(a + b =~= a);
        assert(pow10(0) == 1);
        assert(digits_value(a) * 1 == digits_value(a));
    } else {
        let front = b.drop_last();
        let p = pow10(front.len());
        lemma_digits_concat(a, front);
        assert((a + b).drop_last() =~= a + front);
        assert((a + b).last() == b.last());
        assert(pow10(b.len()) == 10 * p);
        assert(digits_value(a + b) == digits_value(a + front) * 10 + digit_value(b.last()));
        assert(digits_value(b) == digits_value(front) * 10 + digit_value(b.last()));
        assert((digits_value(a) * p + digits_value(front)) * 10 == digits_value(a) * (10 * p)
            + digits_value(front) * 10) by (nonlinear_arith);
    }
}

/// Where no decimal point stands before `i`, the first one stands at `i` or
/// behind it.
pub proof fn lemma_point_index(s: Seq<char>, i: int)
    requires
        0 <= i <= s.len(),
        forall|j: int| 0 <= j < i ==> s[j] != '.',
    ensures
        point_index(s) >= i,
        (i == s.len() || s[i] == '.') ==> point_index(s) == i,
        point_index(s) <= s.len(),
    decreases s.len(),
{
    if s.len() == 0 || s[0] == '.' {
    } else if i == 0 {
        lemma_point_index(s.drop_first(), 0);
    } else {
        lemma_point_index(s.drop_first(), i - 1);
    }
}

/// The count of units that a numeral writes, part by part.
pub proof fn lemma_numeral_parts(w: Seq<char>, f: Seq<char>)
    requires
        all_digits(w),
        all_digits(f),
    ensures
        round_half_away(digits_value(w + f) * SCALE, pow10(f.len())) == digits_value(w) * SCALE
            + fraction_nanos(f),
        0 <= fraction_nanos(f) <= SCALE,
{
    let k = f.len();
    let p = pow10(k);
    let wv = digits_value(w);
    let fv = digits_value(f);
    lemma_pow10_positive(k);
    lemma_pow10_nine();
    lemma_digits_concat(w, f);
    lemma_digits_bound(w);
    lemma_digits_bound(f);
    if k <= 9 {
        let q = pow10((9 - k) as nat);
        lemma_pow10_positive((9 - k) as nat);
        lemma_pow10_adds((9 - k) as nat, k);
        assert(q * p == SCALE);
        let x = wv * SCALE + fv * q;
        assert((wv * p + fv) * SCALE == p * x) by (nonlinear_arith)
            requires
                q * p == SCALE,
                x == wv * SCALE + fv * q,
        ;
        assert(0 <= p / 2 < p);
        lemma_div_multiples_vanish_fancy(x, p / 2, p);
        assert(x >= 0) by (nonlinear_arith)
            requires
                x == wv * SCALE + fv * q,
                wv >= 0,
                fv >= 0,
                q >= 1,
        ;
        assert(fv * q <= SCALE) by (nonlinear_arith)
            requires
                0 <= fv < p,
                q * p == SCALE,
                q >= 1,
        ;
        assert(fv * q >= 0) by (nonlinear_arith)
            requires
                fv >= 0,
                q >= 1,
        ;
    } else {
        let head = f.subrange(0, 9);
        let tail = f.subrange(9, k as int);
        let rest = tail.drop_first();
        let d = digit_value(f[9]);
        assert(f =~= head + tail);
        assert(tail =~= seq![f[9]] + rest);
        lemma_digits_concat(head, tail);
        lemma_digits_concat(seq![f[9]], rest);
        lemma_digits_bound(head);
        lemma_digits_bound(rest);
        assert(digits_value(seq![f[9]]) == d) by {
            assert(seq![f[9]].drop_last() =~= Seq::<char>::empty());
            reveal_with_fuel(digits_value, 2);
        }
        let hv = digits_value(head);
        let rv = digits_value(rest);
        let q = pow10((k - 10) as nat);
        lemma_pow10_positive((k - 10) as nat);
        lemma_pow10_adds(9, (k - 9) as nat);
        assert(pow10((k - 9) as nat) == 10 * q);
        assert(p == SCALE * (10 * q));
        assert(0 <= d <= 9);
        // the whole count is x * p + e, with e below p
        let x = wv * SCALE + hv;
        let e = (d * q + rv) * SCALE;
        assert(fv == hv * (10 * q) + (d * q + rv));
        assert((wv * p + fv) * SCALE == p * x + e) by (nonlinear_arith)
            requires
                p == SCALE * (10 * q),
                fv == hv * (10 * q) + (d * q + rv),
                x == wv * SCALE + hv,
                e == (d * q + rv) * SCALE,
        ;
        assert(p / 2 == 5 * q * SCALE) by (nonlinear_arith)
            requires
                p == SCALE * (10 * q),
        ;
        assert(x >= 0) by (nonlinear_arith)
            requires
                x == wv * SCALE + hv,
                wv >= 0,
                hv >= 0,
        ;
        if d >= 5 {
            let b = e + p / 2 - p;
            assert(0 <= b < p) by (nonlinear_arith)
                requires
                    b == (d * q + rv) * SCALE + 5 * q * SCALE - p,
                    p == SCALE * (10 * q),
                    5 <= d <= 9,
                    0 <= rv < q,
            ;
            lemma_div_multiples_vanish_fancy(x + 1, b, p);
            assert(p * (x + 1) + b == p * x + e + p / 2) by (nonlinear_arith)
                requires
                    b == e + p / 2 - p,
            ;
        } else {
            let b = e + p / 2;
            assert(0 <= b < p) by (nonlinear_arith)
                requires
                    b == (d * q + rv) * SCALE + 5 * q * SCALE,
                    p == SCALE * (10 * q),
                    0 <= d < 5,
                    0 <= rv < q,
            ;
            lemma_div_multiples_vanish_fancy(x, b, p);
        }
    }
}

/// Reads one decimal digit.
pub fn read_digit(c: char) -> (r: Option<u8>)
    ensures
        r is Some <==> is_digit(c),
        r is Some ==> r.unwrap() == digit_value(c),
{
    if '0' <= c && c <= '9' {
        Some((c as u32 - 48) as u8)
    } else {
        None
    }
}

/// A whole part from here on is out of the range of a number, whatever
/// stands behind the decimal point.
const WHOLE_CAP: u128 = 200_000_000_000_000_000_000_000_000_000;

/// The whole part's value as the reader keeps it: exact below the cap, and
/// the cap from there on.
spec fn capped(v: int) -> int {
    if v >= WHOLE_CAP {
        WHOLE_CAP as int
    } else {
        v
    }
}

/// Reads a numeral: the nearest count of units of 10^-9, or the upper bound
/// of the range where that count does not fit. `None` where the text is no
/// numeral.
pub fn parse_numeral(text: &Vec<char>) -> (r: Option<Decimal>)
    ensures
        r is Some <==> is_numeral(text@),
        r is Some ==> r.unwrap()@ == saturate(numeral_nanos(text@)),
{
    let n = text.len();
    let mut i: usize = 0;
    let mut whole: u128 = 0;
    while i < n && text[i] != '.'
        invariant
            i <= n,
            n == text@.len(),
            forall|j: int| 0 <= j < i ==> is_digit(#[trigger] text@[j]),
            whole == capped(digits_value(text@.subrange(0, i as int))),
        decreases n - i,
    {
        let ghost before = text@.subrange(0, i as int);
        let ghost after = text@.subrange(0, i + 1);
        proof {
            assert(after.drop_last() =~= before);
            lemma_point_index(text@, i + 1);
            lemma_digits_bound(before);
        }
        match read_digit(text[i]) {
            None => {
                proof {
                    assert(whole_part(text@)[i as int] == text@[i as int]);
                }
                return None;
            },
            Some(d) => {
                whole = whole * 10 + d as u128;
                if whole > WHOLE_CAP {
                    whole = WHOLE_CAP;
                }
            },
        }
        i += 1;
    }
    let point = i;
    let ghost w = whole_part(text@);
    let ghost f = fraction_part(text@);
    proof {
        lemma_point_index(text@, point as int);
        assert(w =~= text@.subrange(0, point as int));
        lemma_digits_bound(w);
        lemma_pow10_nine();
    }
    let mut fraction: u64 = 0;
    let mut kept: usize = 0;
    let mut round_up = false;
    if i < n {
        i += 1;
        while i < n
            invariant
                point < i <= n,
                n == text@.len(),
                f == text@.subrange(point + 1, n as int),
                f == fraction_part(text@),
                all_digits(f.subrange(0, i - point - 1)),
                kept <= 9,
                kept == if i - point - 1 <= 9 {
                    i - point - 1
                } else {
                    9
                },
                fraction == digits_value(f.subrange(0, kept as int)),
                0 <= fraction < pow10(kept as nat),
                round_up == (i - point - 1 > 9 && digit_value(f[9]) >= 5),
            decreases n - i,
        {
            let ghost before = f.subrange(0, i - point - 1);
            let ghost after = f.subrange(0, i - point);
            proof {
                assert(after.drop_last() =~= before);
                assert(f[i - point - 1] == text@[i as int]);
            }
            match read_digit(text[i]) {
                None => {
                    return None;
                },
                Some(d) => {
                    if kept < 9 {
                        proof {
                            lemma_digits_bound(after);
                            lemma_pow10_adds(kept as nat, (9 - kept) as nat);
                            lemma_pow10_positive((9 - kept) as nat);
                            lemma_pow10_nine();
                            assert(fraction < 1_000_000_000) by (nonlinear_arith)
                                requires
                                    fraction < pow10(kept as nat),
                                    pow10(kept as nat) * pow10((9 - kept) as nat) == 1_000_000_000,
                                    pow10((9 - kept) as nat) >= 1,
                            ;
                        }
                        fraction = fraction * 10 + d as u64;
                        kept += 1;
                    } else if i - point - 1 == 9 {
                        round_up = d >= 5;
                    }
                },
            }
            i += 1;
        }
        proof {
            assert(f.subrange(0, i - point - 1) =~= f);
        }
    } else {
        proof {
            assert(f.subrange(0, 0) =~= f);
        }
    }
    if point == 0 && n <= 1 {
        return None;
    }
    let mut scaled: u64 = fraction;
    let mut k: usize = kept;
    proof {
        assert(fraction * pow10(0) == fraction) by (nonlinear_arith)
            requires
                pow10(0) == 1,
        ;
    }
    while k < 9
        invariant
            kept <= k <= 9,
            scaled == fraction * pow10((k - kept) as nat),
            0 <= fraction < pow10(kept as nat),
            scaled < pow10(k as nat),
            pow10(9) == 1_000_000_000,
        decreases 9 - k,
    {
        proof {
            lemma_pow10_adds(k as nat, (9 - k) as nat);
            lemma_pow10_positive((9 - k) as nat);
            assert(scaled < 1_000_000_000) by (nonlinear_arith)
                requires
                    scaled < pow10(k as nat),
                    pow10(k as nat) * pow10((9 - k) as nat) == 1_000_000_000,
                    pow10((9 - k) as nat) >= 1,
            ;
            assert(fraction * pow10((k - kept) as nat) * 10 == fraction * (10 * pow10(
                (k - kept) as nat,
            ))) by (nonlinear_arith);
        }
        scaled = scaled * 10;
        k += 1;
    }
    proof {
        lemma_numeral_parts(w, f);
        if f.len() <= 9 {
            assert(f.subrange(0, kept as int) =~= f);
        } else {
            assert(pow10(0) == 1);
        }
        assert(fraction_nanos(f) == scaled + if round_up {
            1int
        } else {
            0int
        });
        assert(whole >= WHOLE_CAP ==> digits_value(w) * SCALE >= WHOLE_CAP * 1_000_000_000)
            by (nonlinear_arith)
            requires
                whole == capped(digits_value(w)),
                SCALE == 1_000_000_000,
        ;
        assert(whole < WHOLE_CAP ==> digits_value(w) * SCALE == whole * 1_000_000_000);
    }
    if whole >= WHOLE_CAP {
        return Some(Decimal { nanos: i128::MAX });
    }
    let total: u128 = whole * 1_000_000_000 + scaled as u128 + if round_up {
        1u128
    } else {
        0u128
    };
    if total > i128::MAX as u128 {
        Some(Decimal { nanos: i128::MAX })
    } else {
        Some(Decimal { nanos: total as i128 })
    }
}

/// The decimal digits of `n`, without leading zeros; zero is written `0`.
pub open spec fn nat_text(n: int) -> Seq<char>
    decreases n,
{
    if n < 10 {
        seq![digit_char(n)]
    } else {
        nat_text(n / 10).push(digit_char(n % 10))
    }
}

/// The digits of `f` units out of ten to the `width`, written behind a
/// decimal point: as many as `width`, less the zeros at the end.
pub open spec fn fraction_text(f: int, width: nat) -> Seq<char>
    decreases width,
{
    if f <= 0 || width == 0 {
        Seq::empty()
    } else {
        seq![digit_char(f / pow10((width - 1) as nat))] + fraction_text(
            f % pow10((width - 1) as nat),
            (width - 1) as nat,
        )
    }
}

/// The text of `m` units of 10^-9, for `m` not below zero: the whole number,
/// and where the rest is not zero a decimal point and the rest.
pub open spec fn magnitude_text(m: int) -> Seq<char> {
    if m % (SCALE as int) == 0 {
        nat_text(m / (SCALE as int))
    } else {
        nat_text(m / (SCALE as int)) + seq!['.'] + fraction_text(m % (SCALE as int), 9)
    }
}

/// The text of `n` units of 10^-9: `1500000000` is written `1.5`,
/// `-2000000000` is written `-2`.
pub open spec fn decimal_text(n: int) -> Seq<char> {
    if n < 0 {
        seq!['-'] + magnitude_text(-n)
    } else {
        magnitude_text(n)
    }
}

/// `String::push` appends the character to the end of the string and leaves
/// the rest as it was.
pub assume_specification[ String::push ](s: &mut String, c: char)
    ensures
        final(s)@ == old(s)@.push(c),
;

/// Writes one decimal digit.
fn write_digit(d: u8) -> (c: char)
    requires
        d < 10,
    ensures
        c == digit_char(d as int),
{
    (d + 48) as char
}

/// Appends the digits of `n` to `out`.
pub fn push_nat(out: &mut String, n: u128)
    ensures
        final(out)@ == old(out)@ + nat_text(n as int),
    decreases n,
{
    if n >= 10 {
        push_nat(out, n / 10);
    }
    out.push(write_digit((n % 10) as u8));
    proof {
        if n < 10 {
            assert(old(out)@.push(digit_char(n as int)) =~= old(out)@ + nat_text(n as int));
        } else {
            assert((old(out)@ + nat_text(n as int / 10)).push(digit_char(n as int % 10))
                =~= old(out)@ + nat_text(n as int));
        }
    }
}

/// Appends the digits of `f` units of 10^-9 to `out`, as they stand behind a
/// decimal point.
fn push_fraction(out: &mut String, f: u64)
    requires
        f < 1_000_000_000,
    ensures
        final(out)@ == old(out)@ + fraction_text(f as int, 9),
{
    let mut rest: u64 = f;
    let mut divisor: u64 = 100_000_000;
    let mut width: usize = 9;
    proof {
        lemma_pow10_nine();
        assert(fraction_text(f as int, 9) + Seq::<char>::empty() =~= fraction_text(f as int, 9));
        assert(pow10(9) == 10 * pow10(8));
    }
    while rest > 0
        invariant
            0 < width <= 9 || rest == 0,
            width <= 9,
            width > 0 ==> divisor == pow10((width - 1) as nat),
            rest < pow10(width as nat),
            old(out)@ + fraction_text(f as int, 9) == out@ + fraction_text(rest as int, width as nat),
        decreases width,
    {
        proof {
            assert(width > 0) by {
                if width == 0 {
                    assert(pow10(0) == 1);
                }
            }
            lemma_pow10_positive((width - 1) as nat);
        }
        let d: u64 = rest / divisor;
        assert(d < 10) by (nonlinear_arith)
            requires
                rest < 10 * divisor,
                divisor >= 1,
                d == rest / divisor,
        ;
        let ghost before = out@;
        out.push(write_digit(d as u8));
        proof {
            assert(before + (seq![digit_char(d as int)] + fraction_text(
                rest as int % divisor as int,
                (width - 1) as nat,
            )) =~= before.push(digit_char(d as int)) + fraction_text(
                rest as int % divisor as int,
                (width - 1) as nat,
            ));
        }
        rest = rest % divisor;
        width -= 1;
        if width > 0 {
            proof {
                assert(pow10(width as nat) == 10 * pow10((width - 1) as nat));
            }
            divisor = divisor / 10;
        }
    }
    proof {
        assert(out@ + fraction_text(0, width as nat) =~= out@);
    }
}

/// Appends the text of `d` to `out`.
pub fn push_decimal(out: &mut String, d: Decimal)
    ensures
        final(out)@ == old(out)@ + decimal_text(d@),
{
    if d.nanos < 0 {
        out.push('-');
    }
    let magnitude: u128 = magnitude_of(d.nanos);
    let ghost signed = out@;
    push_nat(out, magnitude / 1_000_000_000);
    if magnitude % 1_000_000_000 != 0 {
        out.push('.');
        push_fraction(out, (magnitude % 1_000_000_000) as u64);
    }
    proof {
        let m = magnitude as int;
        if m % 1_000_000_000 != 0 {
            assert(signed + nat_text(m / 1_000_000_000) + seq!['.'] =~= (signed + nat_text(
                m / 1_000_000_000,
            )).push('.'));
            assert(out@ =~= signed + magnitude_text(m));
        }
        if d.nanos < 0 {
            assert(old(out)@.push('-') + magnitude_text(m) =~= old(out)@ + (seq!['-']
                + magnitude_text(m)));
        }
    }
}

/// The digits of a number write that number.
pub proof fn lemma_nat_text_reads_back(n: int)
    requires
        n >= 0,
    ensures
        all_digits(nat_text(n)),
        nat_text(n).len() >= 1,
        digits_value(nat_text(n)) == n,
    decreases n,
{
    if n < 10 {
        let s = seq![digit_char(n)];
        assert(s.drop_last() =~= Seq::<char>::empty());
        assert(s.last() == digit_char(n));
        assert(digits_value(s.drop_last()) == 0);
    } else {
        lemma_nat_text_reads_back(n / 10);
        let front = nat_text(n / 10);
        let s = front.push(digit_char(n % 10));
        assert(s.drop_last() =~= front);
        assert(s.last() == digit_char(n % 10));
        assert forall|i: int| 0 <= i < s.len() implies is_digit(#[trigger] s[i]) by {
            if i < front.len() {
                assert(s[i] == front[i]);
            }
        }
    }
}

/// The digits behind the decimal point write the fraction, once the zeros
/// left off at the end are counted in.
pub proof fn lemma_fraction_text_reads_back(f: int, width: nat)
    requires
        0 <= f < pow10(width),
    ensures
        all_digits(fraction_text(f, width)),
        fraction_text(f, width).len() <= width,
        f > 0 ==> fraction_text(f, width).len() >= 1,
        digits_value(fraction_text(f, width)) * pow10(
            (width - fraction_text(f, width).len()) as nat,
        ) == f,
    decreases width,
{
    if f <= 0 || width == 0 {
        assert(pow10(0) == 1);
        assert(0 * pow10(width) == 0);
    } else {
        let unit = pow10((width - 1) as nat);
        lemma_pow10_positive((width - 1) as nat);
        let d = f / unit;
        let r = f % unit;
        assert(0 <= d < 10 && 0 <= r < unit && f == d * unit + r) by (nonlinear_arith)
            requires
                0 <= f < 10 * unit,
                unit >= 1,
                d == f / unit,
                r == f % unit,
        ;
        lemma_fraction_text_reads_back(r, (width - 1) as nat);
        let rest = fraction_text(r, (width - 1) as nat);
        let s = seq![digit_char(d)] + rest;
        assert(s == fraction_text(f, width));
        assert forall|i: int| 0 <= i < s.len() implies is_digit(#[trigger] s[i]) by {
            if i > 0 {
                assert(s[i] == rest[i - 1]);
            }
        }
        lemma_digits_concat(seq![digit_char(d)], rest);
        assert(digits_value(seq![digit_char(d)]) == d) by {
            assert(seq![digit_char(d)].drop_last() =~= Seq::<char>::empty());
            assert(digits_value(seq![digit_char(d)].drop_last()) == 0);
        }
        let gap = pow10((width - 1 - rest.len()) as nat);
        lemma_pow10_adds(rest.len(), (width - 1 - rest.len()) as nat);
        assert((d * pow10(rest.len()) + digits_value(rest)) * gap == d * unit + r)
            by (nonlinear_arith)
            requires
                pow10(rest.len()) * gap == unit,
                digits_value(rest) * gap == r,
        ;
    }
}

/// The text of a count of units is a numeral that writes that count.
pub proof fn lemma_magnitude_text_reads_back(m: int)
    requires
        m >= 0,
    ensures
        is_numeral(magnitude_text(m)),
        numeral_nanos(magnitude_text(m)) == m,
        magnitude_text(m).len() >= 1,
        forall|i: int|
            0 <= i < magnitude_text(m).len() ==> is_digit(#[trigger] magnitude_text(m)[i])
                || magnitude_text(m)[i] == '.',
{
    let whole = nat_text(m / (SCALE as int));
    let f = m % (SCALE as int);
    let fraction = fraction_text(f, 9);
    let text = magnitude_text(m);
    lemma_nat_text_reads_back(m / (SCALE as int));
    lemma_pow10_nine();
    lemma_fraction_text_reads_back(f, 9);
    assert(forall|j: int| 0 <= j < whole.len() ==> is_digit(#[trigger] whole[j]));
    if f == 0 {
        assert forall|j: int| 0 <= j < whole.len() implies text[j] != '.' by {
            assert(is_digit(whole[j]));
        }
        lemma_point_index(text, text.len() as int);
        assert(whole_part(text) =~= whole);
        assert(fraction_part(text) =~= Seq::<char>::empty());
        lemma_numeral_parts(whole, Seq::<char>::empty());
        assert(pow10(9) == SCALE);
        assert(digits_value(Seq::<char>::empty()) == 0);
    } else {
        assert(text =~= whole + seq!['.'] + fraction);
        assert forall|j: int| 0 <= j < whole.len() implies text[j] != '.' by {
            assert(text[j] == whole[j]);
            assert(is_digit(whole[j]));
        }
        assert(text[whole.len() as int] == '.');
        lemma_point_index(text, whole.len() as int);
        assert(whole_part(text) =~= whole);
        assert(fraction_part(text) =~= fraction);
        lemma_numeral_parts(whole, fraction);
        assert forall|i: int| 0 <= i < text.len() implies is_digit(#[trigger] text[i]) || text[i]
            == '.' by {
            if i < whole.len() {
                assert(text[i] == whole[i]);
            } else if i > whole.len() {
                assert(text[i] == fraction[i - whole.len() - 1]);
            }
        }
    }
}

} // verus!
