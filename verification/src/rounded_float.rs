//! Lengths in attributes: read leniently, written canonically.
//!
//! Reading takes a decimal number with an optional unit behind it and gives
//! an integer; writing gives the integer in decimal and never a unit. A
//! number that is no integer is rounded as binary floating point with 64
//! bits rounds it, and from there to the nearest integer; both steps are
//! worked out on the decimal digits. An integer is read as it stands.
use crate::binary64::{
    binary64_limit, digit_of, floor_log2_of, floor_scaled, fraction_sign, grid_round, grid_round_of,
    lemma_binary64_limit, lemma_floor_below, lemma_floor_log2_below, lemma_grid_round_great,
    lemma_pow10_between, lemma_pow2_64, lemma_pow2_consts, lemma_pow2_monotonic,
    lemma_pow2_positive, lemma_reaches_half_large, lemma_reaches_half_small, lemma_split,
    lemma_zero_floor, pow2, pow5_of, reaches_half, reaches_limit, zeros,
};
use crate::error::{DecodeError, EncodeError};
use crate::text::{
    chars_of, ends_with, is_whitespace, range_ends_with, string_from_chars, trim, trim_end,
    trim_range, trim_start,
};
use vstd::arithmetic::div_mod::lemma_fundamental_div_mod_converse;
use vstd::prelude::*;

verus! {

/// No magnitude that the reading works with goes above this bound, which
/// lies above every `isize`.
pub const MAGNITUDE_CAP: u128 = 0x1_0000_0000_0000_0000;

/// No exponent that the reading works with goes above this bound.
pub const EXPONENT_CAP: u128 = 1_000_000_000_000_000_000_000_000_000_000;

/// A scale at or beyond this bound decides the result by its sign alone.
pub const LARGE_SCALE: i128 = 100_000_000_000_000_000_000_000_000_000;

/// `t` without its last `suffix.len()` characters, trimmed again.
pub open spec fn without_suffix(t: Seq<char>, suffix: Seq<char>) -> Seq<char> {
    trim(t.take(t.len() - suffix.len()))
}

/// The numeric part of a length: `s` trimmed, and then without the unit
/// that it ends with, if it ends with one of `pt`, `cm`, `mm`, `in`, `pc`,
/// `pi`, `em` and `%`. No two of the units can end the same text.
pub open spec fn stripped(s: Seq<char>) -> Seq<char> {
    let t = trim(s);
    if ends_with(t, "pt"@) {
        without_suffix(t, "pt"@)
    } else if ends_with(t, "cm"@) {
        without_suffix(t, "cm"@)
    } else if ends_with(t, "mm"@) {
        without_suffix(t, "mm"@)
    } else if ends_with(t, "in"@) {
        without_suffix(t, "in"@)
    } else if ends_with(t, "pc"@) {
        without_suffix(t, "pc"@)
    } else if ends_with(t, "pi"@) {
        without_suffix(t, "pi"@)
    } else if ends_with(t, "em"@) {
        without_suffix(t, "em"@)
    } else if ends_with(t, "%"@) {
        without_suffix(t, "%"@)
    } else {
        t
    }
}

/// Whether `c` is one of the digits `0` to `9`.
pub open spec fn is_digit(c: char) -> bool {
    0x30 <= c as u32 <= 0x39
}

/// The number that the digit `c` stands for.
pub open spec fn digit_value(c: char) -> nat {
    (c as u32 - 0x30) as nat
}

/// Whether `d` holds digits only.
pub open spec fn all_digits(d: Seq<char>) -> bool {
    forall|i: int| 0 <= i < d.len() ==> is_digit(#[trigger] d[i])
}

/// The number that the digits `d` write in decimal.
pub open spec fn digits_value(d: Seq<char>) -> nat
    decreases d.len(),
{
    if d.len() == 0 {
        0
    } else {
        digits_value(d.drop_last()) * 10 + digit_value(d.last())
    }
}

/// The power of ten with exponent `n`.
pub open spec fn pow10(n: nat) -> nat
    decreases n,
{
    if n == 0 {
        1
    } else {
        10 * pow10((n - 1) as nat)
    }
}

/// The number of digits that `s` starts with.
pub open spec fn leading_digits(s: Seq<char>) -> nat
    decreases s.len(),
{
    if s.len() > 0 && is_digit(s[0]) {
        1 + leading_digits(s.drop_first())
    } else {
        0
    }
}

/// A decimal number as it was written: its sign, the digits before and
/// behind the point in one row, and the power of ten to multiply them by.
pub struct Decimal {
    pub negative: bool,
    pub digits: Seq<char>,
    pub scale: int,
}

/// Whether `c` is a sign.
pub open spec fn is_sign(c: char) -> bool {
    c == '-' || c == '+'
}

/// Whether `c` starts an exponent.
pub open spec fn is_exponent_mark(c: char) -> bool {
    c == 'e' || c == 'E'
}

/// The part of a decimal number before its exponent, as it stands at the
/// start of a text: an optional sign, then digits with an optional point
/// among them.
pub struct Mantissa {
    pub negative: bool,
    /// The digits before and behind the point, in one row.
    pub digits: Seq<char>,
    /// The number of digits behind the point.
    pub fraction: nat,
    /// The position behind the last character of the mantissa.
    pub end: int,
}

/// The mantissa that `s` starts with: the sign, if one stands there, the
/// longest row of digits behind it, and, if a point follows, the point and
/// the longest row of digits behind that.
pub open spec fn parse_mantissa(s: Seq<char>) -> Mantissa {
    let a: int = if s.len() > 0 && is_sign(s[0]) { 1 } else { 0 };
    let b = a + leading_digits(s.skip(a));
    let has_point = b < s.len() && s[b] == '.';
    let c: int = if has_point { b + 1 } else { b };
    let d = if has_point { c + leading_digits(s.skip(c)) } else { c };
    Mantissa {
        negative: s.len() > 0 && s[0] == '-',
        digits: s.subrange(a, b) + s.subrange(c, d),
        fraction: (d - c) as nat,
        end: d,
    }
}

/// The exponent that `s` holds from position `from` to its end: zero where
/// nothing stands there, else `e` or `E`, an optional sign and at least one
/// digit.
pub open spec fn parse_exponent(s: Seq<char>, from: int) -> Option<int> {
    if from == s.len() {
        Some(0)
    } else if 0 <= from < s.len() && is_exponent_mark(s[from]) {
        let signed = from + 1 < s.len() && is_sign(s[from + 1]);
        let negative = from + 1 < s.len() && s[from + 1] == '-';
        let e: int = if signed { from + 2 } else { from + 1 };
        let n = leading_digits(s.skip(e));
        if n == 0 || e + n != s.len() {
            None
        } else {
            let exponent = digits_value(s.skip(e)) as int;
            Some(if negative { -exponent } else { exponent })
        }
    } else {
        None
    }
}

/// The decimal number that `s` writes: a mantissa with at least one digit,
/// and an exponent behind it or nothing. Any other text writes no number.
pub open spec fn parse_decimal(s: Seq<char>) -> Option<Decimal> {
    let m = parse_mantissa(s);
    if m.digits.len() == 0 {
        None
    } else {
        match parse_exponent(s, m.end) {
            Some(e) => Some(
                Decimal { negative: m.negative, digits: m.digits, scale: e - m.fraction },
            ),
            None => None,
        }
    }
}

/// `m` times ten to the power `scale`, rounded in two steps: to the nearest
/// number of binary floating point first, and from there to the nearest
/// integer, a half going away from zero. Below 2^53 [`reaches_half`] says
/// whether the two steps end above the integer part; from there on the
/// first step gives an integer, which [`grid_round`] describes. An integer
/// is read as it stands, whatever its size.
pub open spec fn scaled_round(m: nat, scale: int) -> nat {
    if scale >= 0 {
        m * pow10(scale as nat)
    } else {
        let p = pow10((-scale) as nat);
        if m / p >= pow2(53) && m % p > 0 {
            grid_round(m / p)
        } else {
            (m / p + if reaches_half(m / p, m % p, p) { 1nat } else { 0nat }) as nat
        }
    }
}

/// Whether `d` is too great for a finite number of binary floating point.
pub open spec fn is_infinite(d: Decimal) -> bool {
    floor_scaled(digits_value(d.digits), d.scale) >= binary64_limit()
}

/// The integer that `d` is rounded to, as [`scaled_round`] says, with its
/// sign.
pub open spec fn rounded(d: Decimal) -> int {
    let m = scaled_round(digits_value(d.digits), d.scale) as int;
    if d.negative { -m } else { m }
}

/// `v` where it is an `isize`, else the `isize` nearest to it.
pub open spec fn clamp(v: int) -> isize {
    if v < isize::MIN {
        isize::MIN
    } else if v > isize::MAX {
        isize::MAX
    } else {
        v as isize
    }
}

/// What reading the length `s` gives: the integer that the number in `s` is
/// rounded to, behind which a unit may stand, or `InvalidNumber` where the
/// numeric part writes no number or one that is too great to be finite in
/// binary floating point.
pub open spec fn from_xml_spec(s: Seq<char>) -> Result<isize, DecodeError> {
    match parse_decimal(stripped(s)) {
        Some(d) => if is_infinite(d) {
            Err(DecodeError::InvalidNumber)
        } else {
            Ok(clamp(rounded(d)))
        },
        None => Err(DecodeError::InvalidNumber),
    }
}

/// The digit that stands for `d`.
pub open spec fn digit_char(d: nat) -> char {
    ((0x30 + d) as u8) as char
}

/// `n` in decimal, without leading zeros.
pub open spec fn nat_text(n: nat) -> Seq<char>
    decreases n,
{
    if n < 10 {
        seq![digit_char(n)]
    } else {
        nat_text(n / 10).push(digit_char(n % 10))
    }
}

/// `v` in decimal, with `-` in front where it is negative.
pub open spec fn decimal_text(v: int) -> Seq<char> {
    if v < 0 {
        seq!['-'] + nat_text((-v) as nat)
    } else {
        nat_text(v as nat)
    }
}

/// The smaller of two numbers.
pub open spec fn min_nat(a: nat, b: nat) -> nat {
    if a <= b { a } else { b }
}

/// Whether a scale that was computed with a bounded exponent decides the
/// same result as the true one.
pub open spec fn same_scale(bounded: int, scale: int) -> bool {
    ||| bounded == scale
    ||| bounded >= LARGE_SCALE && scale >= LARGE_SCALE
    ||| bounded <= -LARGE_SCALE && scale <= -LARGE_SCALE
}

pub proof fn lemma_pow10_positive(n: nat)
    ensures
        pow10(n) >= 1,
    decreases n,
{
    if n > 0 {
        lemma_pow10_positive((n - 1) as nat);
    }
}

pub proof fn lemma_pow10_monotonic(a: nat, b: nat)
    requires
        a <= b,
    ensures
        pow10(a) <= pow10(b),
    decreases b,
{
    if a < b {
        lemma_pow10_monotonic(a, (b - 1) as nat);
        lemma_pow10_positive((b - 1) as nat);
    }
}

pub proof fn lemma_pow10_25()
    ensures
        pow10(25) == 10_000_000_000_000_000_000_000_000,
        pow10(25) > MAGNITUDE_CAP,
{
    reveal_with_fuel(pow10, 26);
}

/// Digits write a number below the power of ten of their count.
pub proof fn lemma_digits_value_bound(d: Seq<char>)
    requires
        all_digits(d),
    ensures
        digits_value(d) < pow10(d.len()),
    decreases d.len(),
{
    if d.len() > 0 {
        lemma_digits_value_bound(d.drop_last());
        assert(is_digit(d.last()));
    }
}

/// The value of two rows of digits written one after the other.
pub proof fn lemma_digits_value_concat(a: Seq<char>, b: Seq<char>)
    ensures
        digits_value(a + b) == digits_value(a) * pow10(b.len()) + digits_value(b),
    decreases b.len(),
{
    if b.len() == 0 {
        assert(a + b =~= a);
        assert(pow10(0) == 1);
        assert(digits_value(a) * 1 == digits_value(a)) by (nonlinear_arith);
    } else {
        lemma_digits_value_concat(a, b.drop_last());
        assert((a + b).drop_last() =~= a + b.drop_last());
        assert((a + b).last() == b.last());
        let x = digits_value(a) as int;
        let p = pow10(b.drop_last().len()) as int;
        let y = digits_value(b.drop_last()) as int;
        let z = digit_value(b.last()) as int;
        assert(pow10(b.len()) == 10 * p);
        assert(digits_value(b) == y * 10 + z);
        assert(digits_value(a + b) == (x * p + y) * 10 + z);
        assert((x * p + y) * 10 + z == x * (10 * p) + (y * 10 + z)) by (nonlinear_arith);
    }
}

/// Whether the digits `d` write at least half of the power of ten of their
/// count is decided by their first digit.
pub proof fn lemma_leading_digit(d: Seq<char>)
    requires
        all_digits(d),
        d.len() > 0,
    ensures
        2 * digits_value(d) >= pow10(d.len()) <==> digit_value(d[0]) >= 5,
{
    let head = seq![d[0]];
    let rest = d.drop_first();
    assert(d =~= head + rest);
    lemma_digits_value_concat(head, rest);
    assert(head.drop_last() =~= Seq::<char>::empty());
    assert(digits_value(head) == digit_value(d[0])) by {
        reveal_with_fuel(digits_value, 2);
    }
    assert(all_digits(rest)) by {
        assert forall|i: int| 0 <= i < rest.len() implies is_digit(#[trigger] rest[i]) by {
            assert(rest[i] == d[i + 1]);
        }
    }
    lemma_digits_value_bound(rest);
    let q = pow10(rest.len()) as int;
    let c = digits_value(rest) as int;
    let h = digit_value(d[0]) as int;
    assert(pow10(d.len()) == 10 * q);
    assert(is_digit(d[0]));
    assert(h >= 5 ==> 2 * (h * q + c) >= 10 * q) by (nonlinear_arith)
        requires
            c >= 0,
            q >= 1,
    ;
    assert(h <= 4 ==> 2 * (h * q + c) < 10 * q) by (nonlinear_arith)
        requires
            0 <= c < q,
            h >= 0,
    ;
}

/// Rounding where the point stands inside the digits: the digits before it
/// give the integer, and those behind it decide the rounding.
pub proof fn lemma_round_inside(d: Seq<char>, k: int)
    requires
        all_digits(d),
        0 <= k < d.len(),
    ensures
        scaled_round(digits_value(d), k - d.len()) == (if digits_value(d.take(k)) >= pow2(53)
            && digits_value(d.skip(k)) > 0 {
            grid_round(digits_value(d.take(k)))
        } else {
            digits_value(d.take(k)) + (if reaches_half(
                digits_value(d.take(k)),
                digits_value(d.skip(k)),
                pow10((d.len() - k) as nat),
            ) { 1nat } else { 0nat })
        }),
        2 * digits_value(d.skip(k)) >= pow10((d.len() - k) as nat) <==> digit_value(d[k]) >= 5,
{
    lemma_split(d, k);
    lemma_leading_digit(d.skip(k));
    assert(d.skip(k)[0] == d[k]);
    assert((-(k - d.len())) as nat == (d.len() - k) as nat);
}

/// Rounding where the point stands before all the digits by `gap` places.
pub proof fn lemma_round_before(d: Seq<char>, gap: nat)
    requires
        all_digits(d),
        d.len() > 0,
        gap > 0,
    ensures
        scaled_round(digits_value(d), -(d.len() + gap)) == 0,
{
    lemma_digits_value_bound(d);
    lemma_pow10_monotonic(d.len() + 1, d.len() + gap);
    let m = digits_value(d) as int;
    let p = pow10(d.len() + gap) as int;
    assert(pow10(d.len() + 1) == 10 * pow10(d.len()));
    lemma_fundamental_div_mod_converse(m, p, 0, m);
    lemma_pow2_consts();
    let c = pow2(55) as int;
    assert(2 * c * m + 2 * p < c * p) by (nonlinear_arith)
        requires
            c == 0x80_0000_0000_0000,
            10 * m < p,
            m >= 0,
    ;
}

/// Digits of which one stands for another digit than zero write more than
/// zero.
pub proof fn lemma_nonzero_digit(d: Seq<char>, i: int)
    requires
        0 <= i < d.len(),
        digit_value(d[i]) > 0,
    ensures
        digits_value(d) > 0,
    decreases d.len(),
{
    if i < d.len() - 1 {
        assert(d.drop_last()[i] == d[i]);
        lemma_nonzero_digit(d.drop_last(), i);
    }
}

/// Digits that all stand for zero write zero.
pub proof fn lemma_zero_digits(d: Seq<char>)
    requires
        forall|i: int| 0 <= i < d.len() ==> digit_value(#[trigger] d[i]) == 0,
    ensures
        digits_value(d) == 0,
    decreases d.len(),
{
    if d.len() > 0 {
        assert forall|i: int| 0 <= i < d.drop_last().len() implies digit_value(
            #[trigger] d.drop_last()[i],
        ) == 0 by {
            assert(d.drop_last()[i] == d[i]);
        }
        lemma_zero_digits(d.drop_last());
        assert(digit_value(d[d.len() - 1]) == 0);
    }
}

/// Zero is rounded to zero.
pub proof fn lemma_round_zero(scale: int)
    ensures
        scaled_round(0, scale) == 0,
        floor_scaled(0, scale) == 0,
{
    lemma_zero_floor(scale);
    if scale < 0 {
        let p = pow10((-scale) as nat) as int;
        lemma_pow10_positive((-scale) as nat);
        lemma_fundamental_div_mod_converse(0, p, 0, 0);
        lemma_pow2_consts();
        let c = pow2(55) as int;
        assert(2 * c * 0 + 2 * p < c * p) by (nonlinear_arith)
            requires
                c == 0x80_0000_0000_0000,
                p >= 1,
        ;
    }
}

/// A scale so large that its sign alone decides the result.
pub proof fn lemma_large_scale(d: Seq<char>, s1: int, s2: int)
    requires
        all_digits(d),
        d.len() > 0,
        d.len() < LARGE_SCALE,
        same_scale(s1, s2),
    ensures
        min_nat(scaled_round(digits_value(d), s1), MAGNITUDE_CAP as nat) == min_nat(
            scaled_round(digits_value(d), s2),
            MAGNITUDE_CAP as nat,
        ),
        floor_scaled(digits_value(d), s1) >= binary64_limit() <==> floor_scaled(
            digits_value(d),
            s2,
        ) >= binary64_limit(),
{
    let m = digits_value(d);
    if s1 == s2 {
    } else if s1 >= LARGE_SCALE {
        lemma_pow10_25();
        lemma_pow10_monotonic(25, s1 as nat);
        lemma_pow10_monotonic(25, s2 as nat);
        lemma_pow10_monotonic(400, s1 as nat);
        lemma_pow10_monotonic(400, s2 as nat);
        lemma_pow10_between(400);
        lemma_pow2_monotonic(1024, 1200);
        lemma_binary64_limit();
        let first = pow10(s1 as nat) as int;
        let second = pow10(s2 as nat) as int;
        if m > 0 {
            assert(m * first >= first) by (nonlinear_arith)
                requires
                    m >= 1,
                    first >= 0,
            ;
            assert(m * second >= second) by (nonlinear_arith)
                requires
                    m >= 1,
                    second >= 0,
            ;
        } else {
            assert(m * first == 0) by (nonlinear_arith)
                requires
                    m == 0,
            ;
            assert(m * second == 0) by (nonlinear_arith)
                requires
                    m == 0,
            ;
        }
    } else {
        lemma_round_before(d, (-s1 - d.len()) as nat);
        lemma_round_before(d, (-s2 - d.len()) as nat);
        lemma_floor_below(d, s1);
        lemma_floor_below(d, s2);
        lemma_binary64_limit();
        lemma_pow2_positive(1023);
    }
}

/// A text of digits starts with as many digits as it holds.
pub proof fn lemma_leading_digits_all(s: Seq<char>)
    requires
        all_digits(s),
    ensures
        leading_digits(s) == s.len(),
    decreases s.len(),
{
    if s.len() > 0 {
        assert(is_digit(s[0]));
        assert forall|i: int| 0 <= i < s.drop_first().len() implies is_digit(
            #[trigger] s.drop_first()[i],
        ) by {
            assert(s.drop_first()[i] == s[i + 1]);
        }
        lemma_leading_digits_all(s.drop_first());
    }
}

/// The decimal text of a number holds digits only, at least one, and writes
/// the number.
pub proof fn lemma_nat_text(n: nat)
    ensures
        all_digits(nat_text(n)),
        nat_text(n).len() > 0,
        digits_value(nat_text(n)) == n,
    decreases n,
{
    let last = digit_char(n % 10);
    assert(is_digit(last) && digit_value(last) == n % 10);
    if n < 10 {
        assert(nat_text(n).drop_last() =~= Seq::<char>::empty());
        reveal_with_fuel(digits_value, 2);
    } else {
        lemma_nat_text(n / 10);
        let front = nat_text(n / 10);
        assert(nat_text(n).drop_last() =~= front);
        assert forall|i: int| 0 <= i < nat_text(n).len() implies is_digit(
            #[trigger] nat_text(n)[i],
        ) by {
            if i < front.len() {
                assert(nat_text(n)[i] == front[i]);
            }
        }
    }
}

/// Reading what was written gives the integer back: for every `isize`, the
/// decimal text of it reads as the same `isize`.
pub proof fn lemma_read_written(x: isize)
    ensures
        from_xml_spec(decimal_text(x as int)) == Ok::<isize, DecodeError>(x),
{
    let t = decimal_text(x as int);
    let n: nat = if x < 0 { (-x) as nat } else { x as nat };
    let body = nat_text(n);
    lemma_nat_text(n);
    let a: int = if x < 0 { 1 } else { 0 };
    assert(t.skip(a) =~= body);
    assert(t.len() == a + body.len());
    assert(is_digit(t.last())) by {
        assert(t.last() == body.last());
    }
    assert(!is_whitespace(t[0])) by {
        if x >= 0 {
            assert(is_digit(body[0]));
        }
    }
    assert(trim(t) == t) by {
        assert(trim_start(t) == t);
        assert(trim_end(t) == t);
    }
    assert(stripped(t) == t) by {
        reveal_strlit("pt");
        reveal_strlit("cm");
        reveal_strlit("mm");
        reveal_strlit("in");
        reveal_strlit("pc");
        reveal_strlit("pi");
        reveal_strlit("em");
        reveal_strlit("%");
        lemma_not_unit(t, "pt"@);
        lemma_not_unit(t, "cm"@);
        lemma_not_unit(t, "mm"@);
        lemma_not_unit(t, "in"@);
        lemma_not_unit(t, "pc"@);
        lemma_not_unit(t, "pi"@);
        lemma_not_unit(t, "em"@);
        lemma_not_unit(t, "%"@);
    }
    lemma_leading_digits_all(body);
    let m = parse_mantissa(t);
    assert(t.len() > 0 && is_sign(t[0]) <==> x < 0) by {
        if x >= 0 {
            assert(is_digit(body[0]));
        }
    }
    assert(m.end == t.len());
    assert(t.subrange(t.len() as int, t.len() as int) =~= Seq::<char>::empty());
    assert(m.digits =~= body) by {
        assert(t.subrange(a, t.len() as int) =~= body);
    }
    assert(m.fraction == 0);
    assert(m.negative == (x < 0));
    assert(parse_exponent(t, t.len() as int) == Some(0int));
    assert(pow10(0) == 1);
    assert(n * 1 == n) by (nonlinear_arith);
    assert(scaled_round(n, 0) == n);
    assert(floor_scaled(n, 0) == n);
    lemma_binary64_limit();
    lemma_pow2_monotonic(64, 1023);
    lemma_pow2_64();
}

/// What was read is in normal form: writing it and reading it again gives
/// the same integer.
pub proof fn lemma_read_normalizes(s: Seq<char>)
    requires
        from_xml_spec(s) is Ok,
    ensures
        from_xml_spec(decimal_text(from_xml_spec(s)->Ok_0 as int)) == from_xml_spec(s),
{
    lemma_read_written(from_xml_spec(s)->Ok_0);
}

/// A text that ends with a digit ends with no text that ends otherwise.
pub proof fn lemma_not_unit(t: Seq<char>, unit: Seq<char>)
    requires
        t.len() > 0,
        is_digit(t.last()),
        unit.len() > 0,
        !is_digit(unit.last()),
    ensures
        !ends_with(t, unit),
{
    if ends_with(t, unit) {
        let tail = t.subrange(t.len() - unit.len(), t.len() as int);
        assert(tail.last() == t.last());
    }
}

/// Whether `c` is one of the digits `0` to `9`.
pub fn char_is_digit(c: char) -> (r: bool)
    ensures
        r == is_digit(c),
{
    let n: u32 = c as u32;
    0x30 <= n && n <= 0x39
}

/// The number of digits that stand in `v` from position `from` on.
pub fn count_digits(v: &Vec<char>, from: usize) -> (r: usize)
    requires
        from <= v.len(),
    ensures
        r == leading_digits(v@.skip(from as int)),
        from + r <= v.len(),
        all_digits(v@.subrange(from as int, from + r)),
{
    let mut i: usize = from;
    while i < v.len() && char_is_digit(v[i])
        invariant
            from <= i <= v.len(),
            leading_digits(v@.skip(from as int)) == (i - from) + leading_digits(v@.skip(i as int)),
            forall|j: int| from <= j < i ==> is_digit(#[trigger] v@[j]),
        decreases v.len() - i,
    {
        proof {
            assert(v@.skip(i as int).drop_first() =~= v@.skip(i + 1));
        }
        i = i + 1;
    }
    i - from
}

/// The number that the digits `v[lo..hi]` write, or `cap` where that is
/// less.
pub fn bounded_digits_value(v: &Vec<char>, lo: usize, hi: usize, cap: u128) -> (r: u128)
    requires
        lo <= hi <= v.len(),
        all_digits(v@.subrange(lo as int, hi as int)),
        cap <= 0x1_0000_0000_0000_0000_0000_0000_0000,
    ensures
        r == min_nat(digits_value(v@.subrange(lo as int, hi as int)), cap as nat),
{
    let mut acc: u128 = 0;
    let mut i: usize = lo;
    assert(v@.subrange(lo as int, lo as int) =~= Seq::<char>::empty());
    while i < hi
        invariant
            lo <= i <= hi <= v.len(),
            all_digits(v@.subrange(lo as int, hi as int)),
            cap <= 0x1_0000_0000_0000_0000_0000_0000_0000,
            acc == min_nat(digits_value(v@.subrange(lo as int, i as int)), cap as nat),
        decreases hi - i,
    {
        proof {
            let next = v@.subrange(lo as int, i + 1);
            assert(next.drop_last() =~= v@.subrange(lo as int, i as int));
            assert(next.last() == v@[i as int]);
            assert(v@.subrange(lo as int, hi as int)[i - lo] == v@[i as int]);
        }
        let digit: u128 = (v[i] as u32 - 0x30) as u128;
        let next: u128 = acc * 10 + digit;
        acc = if next > cap { cap } else { next };
        i = i + 1;
    }
    acc
}

/// The number that `digits` write times ten to the power `scale`, rounded
/// as [`scaled_round`] says, or [`MAGNITUDE_CAP`] where that is less.
pub fn round_digits(digits: &Vec<char>, scale: i128) -> (r: u128)
    requires
        all_digits(digits@),
        digits@.len() > 0,
        -2 * LARGE_SCALE * 10 <= scale <= 2 * LARGE_SCALE * 10,
    ensures
        r == min_nat(scaled_round(digits_value(digits@), scale as int), MAGNITUDE_CAP as nat),
{
    let len: i128 = digits.len() as i128;
    let k: i128 = len + scale;
    proof {
        assert(digits@.subrange(0, digits@.len() as int) =~= digits@);
    }
    if k < 0 {
        proof {
            lemma_round_before(digits@, (-k) as nat);
        }
        0
    } else if k < len {
        let upto: usize = k as usize;
        proof {
            assert(digits@.subrange(0, upto as int) =~= digits@.take(upto as int));
            lemma_split(digits@, k as int);
            lemma_round_inside(digits@, k as int);
            assert(is_digit(digits@[k as int]));
            lemma_pow2_consts();
        }
        let whole: u128 = bounded_digits_value(digits, 0, upto, MAGNITUDE_CAP);
        if whole >= 0x20_0000_0000_0000 {
            if fraction_is_zero(digits, upto) {
                whole
            } else if whole >= MAGNITUDE_CAP {
                proof {
                    lemma_pow2_64();
                    lemma_grid_round_great(digits_value(digits@.take(upto as int)));
                }
                MAGNITUDE_CAP
            } else {
                let near: u128 = grid_round_of(whole as u64);
                if near > MAGNITUDE_CAP { MAGNITUDE_CAP } else { near }
            }
        } else {
            let up: bool = rounds_up(digits, upto, whole);
            if up { whole + 1 } else { whole }
        }
    } else {
        let mut cur: u128 = bounded_digits_value(digits, 0, digits.len(), MAGNITUDE_CAP);
        let mut t: i128 = 0;
        let steps: i128 = k - len;
        proof {
            assert(pow10(0) == 1);
            assert(digits_value(digits@) * 1 == digits_value(digits@)) by (nonlinear_arith);
        }
        while t < steps && cur != 0 && cur < MAGNITUDE_CAP
            invariant
                0 <= t <= steps,
                steps == scale,
                cur == min_nat(digits_value(digits@) * pow10(t as nat), MAGNITUDE_CAP as nat),
            decreases MAGNITUDE_CAP - cur,
        {
            proof {
                let m = digits_value(digits@) as int;
                let p = pow10(t as nat) as int;
                assert(pow10((t + 1) as nat) == 10 * p);
                assert(m * (10 * p) == (m * p) * 10) by (nonlinear_arith);
            }
            let next: u128 = cur * 10;
            cur = if next > MAGNITUDE_CAP { MAGNITUDE_CAP } else { next };
            t = t + 1;
        }
        proof {
            let m = digits_value(digits@) as int;
            let p = pow10(t as nat) as int;
            let q = pow10(steps as nat) as int;
            lemma_pow10_monotonic(t as nat, steps as nat);
            lemma_pow10_positive(t as nat);
            if t < steps {
                if cur == 0 {
                    assert(m == 0) by (nonlinear_arith)
                        requires
                            m * p == 0,
                            p >= 1,
                            m >= 0,
                    ;
                    assert(m * q == 0) by (nonlinear_arith)
                        requires
                            m == 0,
                    ;
                } else {
                    assert(m * q >= m * p) by (nonlinear_arith)
                        requires
                            m >= 0,
                            q >= p,
                    ;
                }
            }
        }
        cur
    }
}

/// Whether the digits of `digits` from position `point` on write zero.
pub fn fraction_is_zero(digits: &Vec<char>, point: usize) -> (r: bool)
    requires
        all_digits(digits@),
        point <= digits.len(),
    ensures
        r == (digits_value(digits@.skip(point as int)) == 0),
{
    let mut i: usize = point;
    while i < digits.len()
        invariant
            point <= i <= digits.len(),
            all_digits(digits@),
            forall|j: int| point <= j < i ==> digit_value(#[trigger] digits@[j]) == 0,
        decreases digits.len() - i,
    {
        if digit_of(digits[i]) != 0 {
            proof {
                let tail = digits@.skip(point as int);
                assert(tail[i - point] == digits@[i as int]);
                lemma_nonzero_digit(tail, i - point);
            }
            return false;
        }
        i = i + 1;
    }
    proof {
        let tail = digits@.skip(point as int);
        assert forall|j: int| 0 <= j < tail.len() implies digit_value(#[trigger] tail[j])
            == 0 by {
            assert(tail[j] == digits@[point + j]);
        }
        lemma_zero_digits(tail);
    }
    true
}

/// Whether the number that `digits` write with the point before position
/// `point` is rounded up, as [`reaches_half`] says; `whole` is its integer
/// part, or [`MAGNITUDE_CAP`] where that is less.
pub fn rounds_up(digits: &Vec<char>, point: usize, whole: u128) -> (up: bool)
    requires
        all_digits(digits@),
        point < digits.len(),
        whole == min_nat(digits_value(digits@.take(point as int)), MAGNITUDE_CAP as nat),
    ensures
        up == reaches_half(
            digits_value(digits@.take(point as int)),
            digits_value(digits@.skip(point as int)),
            pow10((digits@.len() - point) as nat),
        ),
{
    let ghost q = digits_value(digits@.take(point as int));
    let ghost r = digits_value(digits@.skip(point as int));
    let ghost p = pow10((digits@.len() - point) as nat);
    proof {
        lemma_pow2_consts();
        lemma_round_inside(digits@, point as int);
        assert(is_digit(digits@[point as int]));
    }
    if whole >= 0x20_0000_0000_0000 {
        digit_of(digits[point]) >= 5
    } else if whole >= 0x10_0000_0000_0000 {
        proof {
            lemma_reaches_half_large(q, r, p);
        }
        let sign = fraction_sign(digits, point, 1, 0);
        sign > 0 || (sign == 0 && whole % 2 == 1)
    } else if whole >= 0x8_0000_0000_0000 {
        proof {
            lemma_reaches_half_large(q, r, p);
        }
        fraction_sign(digits, point, 2, 25) > 0
    } else {
        proof {
            lemma_reaches_half_small(q, r, p);
            if q > 0 {
                lemma_floor_log2_below(q, 51);
            }
        }
        let j: usize = if whole == 0 {
            55
        } else {
            53 - floor_log2_of(whole as u64)
        };
        fraction_sign(digits, point, j, pow5_of(j)) >= 0
    }
}

/// The digits of `digits` behind its leading zeros: they write the same
/// number.
pub fn strip_zeros(digits: &Vec<char>) -> (r: Vec<char>)
    requires
        all_digits(digits@),
    ensures
        all_digits(r@),
        digits_value(r@) == digits_value(digits@),
        r@.len() <= digits@.len(),
        r@.len() > 0 ==> digit_value(r@[0]) >= 1,
{
    let mut z: usize = 0;
    while z < digits.len() && digits[z] as u32 == 0x30
        invariant
            z <= digits.len(),
            forall|j: int| 0 <= j < z ==> digit_value(#[trigger] digits@[j]) == 0,
        decreases digits.len() - z,
    {
        z = z + 1;
    }
    let mut out: Vec<char> = Vec::new();
    let mut i: usize = z;
    proof {
        assert(digits@.subrange(z as int, z as int) =~= Seq::<char>::empty());
        assert(z < digits@.len() ==> is_digit(digits@[z as int]));
    }
    while i < digits.len()
        invariant
            z <= i <= digits.len(),
            z < digits@.len() ==> digit_value(digits@[z as int]) >= 1,
            out@ == digits@.subrange(z as int, i as int),
        decreases digits.len() - i,
    {
        out.push(digits[i]);
        proof {
            assert(digits@.subrange(z as int, i + 1) =~= digits@.subrange(z as int, i as int).push(
                digits@[i as int],
            ));
        }
        i = i + 1;
    }
    proof {
        assert(out@ =~= digits@.skip(z as int));
        lemma_split(digits@, z as int);
        assert forall|j: int| 0 <= j < digits@.take(z as int).len() implies digit_value(
            #[trigger] digits@.take(z as int)[j],
        ) == 0 by {
            assert(digits@.take(z as int)[j] == digits@[j]);
        }
        lemma_zero_digits(digits@.take(z as int));
        assert(digits_value(digits@.take(z as int)) * pow10((digits@.len() - z) as nat) == 0)
            by (nonlinear_arith)
            requires
                digits_value(digits@.take(z as int)) == 0,
        ;
        if out@.len() > 0 {
            assert(out@[0] == digits@[z as int]);
        }
    }
    out
}

/// The numeric part of a length, as [`stripped`] says: `s` without the
/// white space around it and without the unit behind its number.
pub fn strip_unit_suffix(s: &str) -> (r: &str)
    ensures
        r@ == stripped(s@),
{
    let v = chars_of(s);
    let (lo, hi) = trim_range(&v, 0, v.len());
    proof {
        assert(v@.subrange(0, v@.len() as int) =~= v@);
    }
    let mut a: usize = lo;
    let mut b: usize = hi;
    let mut found: bool = false;
    let units: [&str; 8] = ["pt", "cm", "mm", "in", "pc", "pi", "em", "%"];
    let mut i: usize = 0;
    while i < 8 && !found
        invariant
            i <= 8,
            lo <= hi <= v.len(),
            a <= b <= v.len(),
            units@ == seq!["pt", "cm", "mm", "in", "pc", "pi", "em", "%"],
            !found ==> a == lo && b == hi && forall|j: int|
                0 <= j < i ==> !ends_with(
                    v@.subrange(lo as int, hi as int),
                    (#[trigger] units@[j])@,
                ),
            found ==> 0 < i && ends_with(v@.subrange(lo as int, hi as int), units@[i - 1]@)
                && v@.subrange(a as int, b as int) == without_suffix(
                v@.subrange(lo as int, hi as int),
                units@[i - 1]@,
            ) && forall|j: int|
                0 <= j < i - 1 ==> !ends_with(
                    v@.subrange(lo as int, hi as int),
                    (#[trigger] units@[j])@,
                ),
        decreases 8 - i, if found { 0int } else { 1int },
    {
        let unit = chars_of(units[i]);
        if range_ends_with(&v, lo, hi, &unit) {
            let end: usize = hi - unit.len();
            let (x, y) = trim_range(&v, lo, end);
            proof {
                let t = v@.subrange(lo as int, hi as int);
                assert(t.take(t.len() - unit@.len()) =~= v@.subrange(lo as int, end as int));
            }
            a = x;
            b = y;
            found = true;
        }
        i = i + 1;
    }
    proof {
        let t = v@.subrange(lo as int, hi as int);
        assert(units@[0]@ == "pt"@);
        assert(units@[1]@ == "cm"@);
        assert(units@[2]@ == "mm"@);
        assert(units@[3]@ == "in"@);
        assert(units@[4]@ == "pc"@);
        assert(units@[5]@ == "pi"@);
        assert(units@[6]@ == "em"@);
        assert(units@[7]@ == "%"@);
    }
    s.substring_char(a, b)
}

/// Copies `v[lo..hi]` to the end of `out`.
fn copy_range(out: &mut Vec<char>, v: &Vec<char>, lo: usize, hi: usize)
    requires
        lo <= hi <= v.len(),
    ensures
        final(out)@ == old(out)@ + v@.subrange(lo as int, hi as int),
{
    let mut i: usize = lo;
    assert(v@.subrange(lo as int, lo as int) =~= Seq::<char>::empty());
    assert(out@ =~= old(out)@ + v@.subrange(lo as int, lo as int));
    while i < hi
        invariant
            lo <= i <= hi <= v.len(),
            out@ == old(out)@ + v@.subrange(lo as int, i as int),
        decreases hi - i,
    {
        out.push(v[i]);
        proof {
            assert(v@.subrange(lo as int, i + 1) =~= v@.subrange(lo as int, i as int).push(
                v@[i as int],
            ));
        }
        i = i + 1;
    }
}

/// Reads the mantissa that `v` starts with, as [`parse_mantissa`] says:
/// whether it is negative, its digits, the number of digits behind the
/// point, and where it ends.
pub fn read_mantissa(v: &Vec<char>) -> (r: (bool, Vec<char>, usize, usize))
    ensures
        r.0 == parse_mantissa(v@).negative,
        r.1@ == parse_mantissa(v@).digits,
        r.2 == parse_mantissa(v@).fraction,
        r.3 == parse_mantissa(v@).end,
        r.3 <= v.len(),
        all_digits(r.1@),
        r.1@.len() <= v.len(),
{
    let n: usize = v.len();
    let signed: bool = n > 0 && (v[0] == '-' || v[0] == '+');
    let negative: bool = n > 0 && v[0] == '-';
    let a: usize = if signed { 1 } else { 0 };
    let b: usize = a + count_digits(v, a);
    let has_point: bool = b < n && v[b] == '.';
    let c: usize = if has_point { b + 1 } else { b };
    let d: usize = if has_point { c + count_digits(v, c) } else { c };
    let mut digits: Vec<char> = Vec::new();
    copy_range(&mut digits, v, a, b);
    copy_range(&mut digits, v, c, d);
    proof {
        assert(digits@ =~= v@.subrange(a as int, b as int) + v@.subrange(c as int, d as int));
        assert(v@.subrange(c as int, c as int) =~= Seq::<char>::empty());
        assert forall|i: int| 0 <= i < digits@.len() implies is_digit(#[trigger] digits@[i]) by {
            if i < b - a {
                assert(digits@[i] == v@.subrange(a as int, b as int)[i]);
            } else {
                assert(digits@[i] == v@.subrange(c as int, d as int)[i - (b - a)]);
            }
        }
    }
    (negative, digits, d - c, d)
}

/// Whether an exponent that was read with a bound decides the same result
/// as the true one.
pub open spec fn same_exponent(bounded: int, exponent: int) -> bool {
    ||| bounded == exponent
    ||| bounded == EXPONENT_CAP && exponent >= EXPONENT_CAP
    ||| bounded == -EXPONENT_CAP && exponent <= -EXPONENT_CAP
}

/// Reads the exponent that `v` holds from position `from` on, as
/// [`parse_exponent`] says. What comes back is the true exponent, or the
/// bound with its sign where the exponent lies beyond it.
pub fn read_exponent(v: &Vec<char>, from: usize) -> (r: Option<i128>)
    requires
        from <= v.len(),
    ensures
        match parse_exponent(v@, from as int) {
            Some(e) => r is Some && same_exponent(r->0 as int, e) && -EXPONENT_CAP <= r->0
                <= EXPONENT_CAP,
            None => r is None,
        },
{
    let n: usize = v.len();
    if from == n {
        return Some(0);
    }
    if !(v[from] == 'e' || v[from] == 'E') {
        return None;
    }
    let signed: bool = from + 1 < n && (v[from + 1] == '-' || v[from + 1] == '+');
    let negative: bool = from + 1 < n && v[from + 1] == '-';
    let e: usize = if signed { from + 2 } else { from + 1 };
    let count: usize = count_digits(v, e);
    if count == 0 || e + count != n {
        return None;
    }
    proof {
        assert(v@.subrange(e as int, n as int) =~= v@.skip(e as int));
    }
    let exponent: u128 = bounded_digits_value(v, e, n, EXPONENT_CAP);
    if negative {
        Some(-(exponent as i128))
    } else {
        Some(exponent as i128)
    }
}

/// Reads the decimal number that `v` writes, as [`parse_decimal`] says. The
/// scale that comes back is the true one, or one that decides the same
/// result where the exponent is beyond all use.
pub fn read_decimal(v: &Vec<char>) -> (r: Option<(bool, Vec<char>, i128)>)
    ensures
        match parse_decimal(v@) {
            Some(d) => {
                &&& r matches Some(read)
                &&& read.0 == d.negative
                &&& read.1@ == d.digits
                &&& all_digits(d.digits)
                &&& 0 < d.digits.len() < LARGE_SCALE
                &&& same_scale(read.2 as int, d.scale)
                &&& -2 * LARGE_SCALE * 10 <= read.2 <= 2 * LARGE_SCALE * 10
            },
            None => r is None,
        },
{
    let (negative, digits, fraction, end) = read_mantissa(v);
    if digits.len() == 0 {
        return None;
    }
    match read_exponent(v, end) {
        None => None,
        Some(exponent) => Some((negative, digits, exponent - fraction as i128)),
    }
}

/// Reads a length, as [`from_xml_spec`] says.
pub fn from_xml(mode: &str) -> (r: Result<isize, DecodeError>)
    ensures
        r == from_xml_spec(mode@),
{
    let numeric = strip_unit_suffix(mode);
    let v = chars_of(numeric);
    match read_decimal(&v) {
        None => Err(DecodeError::InvalidNumber),
        Some((negative, digits, scale)) => {
            let clean = strip_zeros(&digits);
            proof {
                let d = parse_decimal(v@)->0;
                lemma_large_scale(d.digits, scale as int, d.scale);
                lemma_round_zero(scale as int);
            }
            if reaches_limit(&clean, scale) {
                return Err(DecodeError::InvalidNumber);
            }
            let magnitude: u128 = if clean.len() == 0 {
                0
            } else {
                round_digits(&clean, scale)
            };
            if negative {
                if magnitude > isize::MAX as u128 {
                    Ok(isize::MIN)
                } else {
                    Ok((-(magnitude as i128)) as isize)
                }
            } else {
                if magnitude > isize::MAX as u128 {
                    Ok(isize::MAX)
                } else {
                    Ok(magnitude as isize)
                }
            }
        },
    }
}

/// Writes a length in decimal, as [`decimal_text`] says. No unit is ever
/// written, and the call never fails.
pub fn to_xml(mode: &isize) -> (r: Result<String, EncodeError>)
    ensures
        r is Ok,
        r->Ok_0@ == decimal_text(*mode as int),
{
    let v: i128 = *mode as i128;
    let start: u128 = if v < 0 { (-v) as u128 } else { v as u128 };
    let mut out: Vec<char> = Vec::new();
    out.push((0x30u8 + (start % 10) as u8) as char);
    let mut n: u128 = start / 10;
    proof {
        assert(out@ =~= seq![digit_char((start % 10) as nat)]);
        if n > 0 {
            assert(nat_text(start as nat) =~= nat_text(n as nat) + out@);
        } else {
            assert(nat_text(start as nat) =~= Seq::<char>::empty() + out@);
        }
    }
    while n > 0
        invariant
            nat_text(start as nat) == (if n > 0 {
                nat_text(n as nat)
            } else {
                Seq::<char>::empty()
            }) + out@,
        decreases n,
    {
        let ghost before = out@;
        out.insert(0, (0x30u8 + (n % 10) as u8) as char);
        proof {
            let digit = digit_char((n % 10) as nat);
            assert(out@ =~= seq![digit] + before);
            if n >= 10 {
                assert(nat_text(n as nat) + before =~= nat_text((n / 10) as nat) + out@);
            } else {
                assert(nat_text(n as nat) + before =~= Seq::<char>::empty() + out@);
            }
        }
        n = n / 10;
    }
    proof {
        assert(Seq::<char>::empty() + out@ =~= out@);
    }
    if v < 0 {
        out.insert(0, '-');
        proof {
            assert(out@ =~= seq!['-'] + nat_text(start as nat));
        }
    }
    Ok(string_from_chars(&out))
}

} // verus!
