//! What binary floating point with 64 bits makes of a decimal number, stated
//! over integers: where its range ends, and which way it rounds.
use crate::rounded_float::{
    all_digits, bounded_digits_value, digit_value, digits_value, is_digit, lemma_digits_value_bound,
    lemma_digits_value_concat, lemma_pow10_monotonic, lemma_pow10_positive, pow10,
};
use vstd::arithmetic::div_mod::{
    lemma_div_denominator, lemma_fundamental_div_mod, lemma_fundamental_div_mod_converse,
};
use vstd::prelude::*;

verus! {

/// The power of two with exponent `n`.
pub open spec fn pow2(n: nat) -> nat
    decreases n,
{
    if n == 0 {
        1
    } else {
        2 * pow2((n - 1) as nat)
    }
}

/// The integer part of `m` times ten to the power `scale`.
pub open spec fn floor_scaled(m: nat, scale: int) -> nat {
    if scale >= 0 {
        m * pow10(scale as nat)
    } else {
        m / pow10((-scale) as nat)
    }
}

/// The least magnitude that is no finite number in binary floating point
/// with 64 bits: halfway from the greatest finite number, 2^1024 - 2^971, to
/// 2^1024. A decimal of at least this magnitude reads as infinite.
pub open spec fn binary64_limit() -> nat {
    (pow2(1024) - pow2(970)) as nat
}

/// `n` times the digit `0`.
pub open spec fn zeros(n: nat) -> Seq<char> {
    Seq::new(n, |i: int| '0')
}

pub proof fn lemma_pow2_positive(n: nat)
    ensures
        pow2(n) >= 1,
    decreases n,
{
    if n > 0 {
        lemma_pow2_positive((n - 1) as nat);
    }
}

pub proof fn lemma_pow2_monotonic(a: nat, b: nat)
    requires
        a <= b,
    ensures
        pow2(a) <= pow2(b),
    decreases b,
{
    if a < b {
        lemma_pow2_monotonic(a, (b - 1) as nat);
        lemma_pow2_positive((b - 1) as nat);
    }
}

pub proof fn lemma_pow2_add(a: nat, b: nat)
    ensures
        pow2(a + b) == pow2(a) * pow2(b),
    decreases b,
{
    if b == 0 {
        assert(pow2(a) * 1 == pow2(a)) by (nonlinear_arith);
    } else {
        lemma_pow2_add(a, (b - 1) as nat);
        let x = pow2(a) as int;
        let y = pow2((b - 1) as nat) as int;
        assert(2 * (x * y) == x * (2 * y)) by (nonlinear_arith);
    }
}

pub proof fn lemma_pow10_add(a: nat, b: nat)
    ensures
        pow10(a + b) == pow10(a) * pow10(b),
    decreases b,
{
    if b == 0 {
        assert(pow10(a) * 1 == pow10(a)) by (nonlinear_arith);
    } else {
        lemma_pow10_add(a, (b - 1) as nat);
        let x = pow10(a) as int;
        let y = pow10((b - 1) as nat) as int;
        assert(10 * (x * y) == x * (10 * y)) by (nonlinear_arith);
    }
}

/// A power of ten lies between the powers of two with three and with four
/// times its exponent.
pub proof fn lemma_pow10_between(n: nat)
    ensures
        pow2(3 * n) <= pow10(n) <= pow2(4 * n),
    decreases n,
{
    if n > 0 {
        lemma_pow10_between((n - 1) as nat);
        reveal_with_fuel(pow2, 5);
        let a = pow2((3 * (n - 1)) as nat);
        let b = pow2((4 * (n - 1)) as nat);
        assert(pow2(3 * n) == 8 * a);
        assert(pow2(4 * n) == 16 * b);
    }
}

/// The limit is the product of 2^970 and 2^54 - 1, and lies between 2^1023
/// and 2^1024.
pub proof fn lemma_binary64_limit()
    ensures
        binary64_limit() == pow2(970) * (pow2(54) - 1),
        pow2(1023) <= binary64_limit() < pow2(1024),
{
    lemma_pow2_add(970, 54);
    lemma_pow2_add(970, 53);
    lemma_pow2_positive(970);
    let a = pow2(970) as int;
    let b = pow2(54) as int;
    let c = pow2(53) as int;
    assert(b == 2 * c);
    lemma_pow2_positive(53);
    assert(a * (b - 1) == a * b - a) by (nonlinear_arith);
    assert(a * (b - 1) >= a * c) by (nonlinear_arith)
        requires
            b - 1 >= c,
            a >= 0,
    ;
}

/// A row of zeros writes zero.
pub proof fn lemma_zeros_value(n: nat)
    ensures
        digits_value(zeros(n)) == 0,
        all_digits(zeros(n)),
    decreases n,
{
    if n > 0 {
        lemma_zeros_value((n - 1) as nat);
        assert(zeros(n).drop_last() =~= zeros((n - 1) as nat));
    }
}

/// Digits that start with another digit than zero write at least the power
/// of ten with one less than their count as exponent.
pub proof fn lemma_digits_value_lower(d: Seq<char>)
    requires
        all_digits(d),
        d.len() > 0,
        digit_value(d[0]) >= 1,
    ensures
        digits_value(d) >= pow10((d.len() - 1) as nat),
    decreases d.len(),
{
    if d.len() == 1 {
        assert(d.drop_last() =~= Seq::<char>::empty());
        reveal_with_fuel(digits_value, 2);
    } else {
        assert(d.drop_last()[0] == d[0]);
        assert forall|i: int| 0 <= i < d.drop_last().len() implies is_digit(
            #[trigger] d.drop_last()[i],
        ) by {
            assert(d.drop_last()[i] == d[i]);
        }
        lemma_digits_value_lower(d.drop_last());
    }
}

/// The digits before position `k` write the integer part, and those from
/// `k` on the rest, of the number that all of them write with the point at
/// `k`.
pub proof fn lemma_split(d: Seq<char>, k: int)
    requires
        all_digits(d),
        0 <= k <= d.len(),
    ensures
        all_digits(d.take(k)),
        all_digits(d.skip(k)),
        digits_value(d) == digits_value(d.take(k)) * pow10((d.len() - k) as nat) + digits_value(
            d.skip(k),
        ),
        digits_value(d.skip(k)) < pow10((d.len() - k) as nat),
        digits_value(d) / pow10((d.len() - k) as nat) == digits_value(d.take(k)),
        digits_value(d) % pow10((d.len() - k) as nat) == digits_value(d.skip(k)),
{
    let front = d.take(k);
    let back = d.skip(k);
    assert(d =~= front + back);
    lemma_digits_value_concat(front, back);
    assert forall|i: int| 0 <= i < back.len() implies is_digit(#[trigger] back[i]) by {
        assert(back[i] == d[k + i]);
    }
    assert forall|i: int| 0 <= i < front.len() implies is_digit(#[trigger] front[i]) by {
        assert(front[i] == d[i]);
    }
    lemma_digits_value_bound(back);
    let p = pow10(back.len()) as int;
    lemma_pow10_positive(back.len());
    lemma_fundamental_div_mod_converse(
        digits_value(front) * p + digits_value(back),
        p,
        digits_value(front) as int,
        digits_value(back) as int,
    );
    assert((d.len() - k) as nat == back.len());
}

/// The integer part of a number lies below the power of ten of the
/// position of its point.
pub proof fn lemma_floor_below(d: Seq<char>, scale: int)
    requires
        all_digits(d),
    ensures
        d.len() + scale <= 0 ==> floor_scaled(digits_value(d), scale) == 0,
        d.len() + scale >= 0 ==> floor_scaled(digits_value(d), scale) < pow10(
            (d.len() + scale) as nat,
        ),
{
    let m = digits_value(d) as int;
    lemma_digits_value_bound(d);
    let k = d.len() + scale;
    if scale >= 0 {
        lemma_pow10_add(d.len(), scale as nat);
        let a = pow10(d.len()) as int;
        let b = pow10(scale as nat) as int;
        lemma_pow10_positive(scale as nat);
        assert(m * b < a * b) by (nonlinear_arith)
            requires
                m < a,
                b >= 1,
        ;
    } else if k <= 0 {
        let p = pow10((-scale) as nat) as int;
        lemma_pow10_monotonic(d.len(), (-scale) as nat);
        lemma_fundamental_div_mod_converse(m, p, 0, m);
    } else {
        lemma_split(d, k);
        lemma_digits_value_bound(d.take(k));
    }
}

/// The integer part of a number whose first digit is no zero is at least
/// the power of ten of one less than the position of its point.
pub proof fn lemma_floor_above(d: Seq<char>, scale: int)
    requires
        all_digits(d),
        d.len() > 0,
        digit_value(d[0]) >= 1,
        d.len() + scale >= 1,
    ensures
        floor_scaled(digits_value(d), scale) >= pow10((d.len() + scale - 1) as nat),
{
    let m = digits_value(d) as int;
    lemma_digits_value_lower(d);
    let k = d.len() + scale;
    if scale >= 0 {
        lemma_pow10_add((d.len() - 1) as nat, scale as nat);
        let a = pow10((d.len() - 1) as nat) as int;
        let b = pow10(scale as nat) as int;
        assert(m * b >= a * b) by (nonlinear_arith)
            requires
                m >= a,
                b >= 0,
        ;
    } else {
        lemma_split(d, k);
        assert(d.take(k)[0] == d[0]);
        lemma_digits_value_lower(d.take(k));
    }
}

/// Replaces the number that the digits `d` write by its half, rounded down.
pub fn halve(d: &mut Vec<char>)
    requires
        all_digits(old(d)@),
    ensures
        all_digits(final(d)@),
        final(d)@.len() == old(d)@.len(),
        digits_value(final(d)@) == digits_value(old(d)@) / 2,
{
    let mut rem: u8 = 0;
    let mut i: usize = 0;
    proof {
        assert(d@.take(0) =~= Seq::<char>::empty());
    }
    while i < d.len()
        invariant
            i <= d.len(),
            d@.len() == old(d)@.len(),
            rem <= 1,
            all_digits(old(d)@),
            forall|j: int| i <= j < d@.len() ==> d@[j] == old(d)@[j],
            forall|j: int| 0 <= j < i ==> is_digit(#[trigger] d@[j]),
            digits_value(d@.take(i as int)) * 2 + rem == digits_value(old(d)@.take(i as int)),
        decreases d.len() - i,
    {
        assert(is_digit(old(d)@[i as int]));
        let digit: u8 = (d[i] as u32 - 0x30) as u8;
        let cur: u8 = rem * 10 + digit;
        let out: u8 = cur / 2;
        let ghost before = d@;
        let ghost old_rem = rem;
        rem = cur % 2;
        let c: char = (0x30u8 + out) as char;
        d.set(i, c);
        proof {
            assert(digit_value(c) == out);
            assert(is_digit(c));
            assert(d@.take(i as int + 1).drop_last() =~= before.take(i as int));
            assert(d@.take(i as int + 1).last() == c);
            assert(old(d)@.take(i as int + 1).drop_last() =~= old(d)@.take(i as int));
            assert(old(d)@.take(i as int + 1).last() == old(d)@[i as int]);
            assert(2 * out + rem == 10 * old_rem + digit);
        }
        i = i + 1;
    }
    proof {
        assert(d@.take(i as int) =~= d@);
        assert(old(d)@.take(i as int) =~= old(d)@);
        lemma_fundamental_div_mod_converse(
            digits_value(old(d)@) as int,
            2,
            digits_value(d@) as int,
            rem as int,
        );
    }
}

/// A number whose point stands at no more than 255 digits lies below the
/// limit.
pub proof fn lemma_short_is_finite(d: Seq<char>, scale: int)
    requires
        all_digits(d),
        d.len() + scale <= 255,
    ensures
        floor_scaled(digits_value(d), scale) < binary64_limit(),
{
    lemma_binary64_limit();
    lemma_pow10_between(255);
    lemma_pow2_monotonic(1020, 1023);
    lemma_pow2_positive(1023);
    lemma_floor_below(d, scale);
    if d.len() + scale >= 0 {
        lemma_pow10_monotonic((d.len() + scale) as nat, 255);
    }
}

/// A number whose first digit is no zero and whose point stands behind
/// more than 400 digits reaches the limit.
pub proof fn lemma_long_is_infinite(d: Seq<char>, scale: int)
    requires
        all_digits(d),
        d.len() > 0,
        digit_value(d[0]) >= 1,
        d.len() + scale > 400,
    ensures
        floor_scaled(digits_value(d), scale) >= binary64_limit(),
{
    lemma_binary64_limit();
    lemma_pow10_between(400);
    lemma_pow2_monotonic(1024, 1200);
    lemma_floor_above(d, scale);
    lemma_pow10_monotonic(400, (d.len() + scale - 1) as nat);
}

/// A number reaches the limit exactly where it holds 2^970 at least
/// 2^54 - 1 times.
pub proof fn lemma_limit_by_quotient(whole: nat)
    ensures
        whole >= binary64_limit() <==> whole / pow2(970) >= 0x3f_ffff_ffff_ffff,
{
    lemma_binary64_limit();
    let c = pow2(970) as int;
    let q = whole as int / c;
    lemma_pow2_positive(970);
    vstd::arithmetic::div_mod::lemma_fundamental_div_mod(whole as int, c);
    vstd::arithmetic::div_mod::lemma_mod_bound(whole as int, c);
    let b = pow2(54) as int - 1;
    assert(q >= b ==> c * q >= c * b) by (nonlinear_arith)
        requires
            c >= 0,
    ;
    assert(q <= b - 1 ==> c * q + c <= c * b) by (nonlinear_arith)
        requires
            c >= 0,
    ;
    assert(pow2(54) == 0x40_0000_0000_0000) by {
        reveal_with_fuel(pow2, 55);
    }
}

/// The digits of the integer part of the number that `digits` write with
/// the point behind `count` digits.
pub fn integer_digits(digits: &Vec<char>, count: usize) -> (n: Vec<char>)
    requires
        all_digits(digits@),
    ensures
        all_digits(n@),
        n@.len() == count,
        digits_value(n@) == floor_scaled(digits_value(digits@), count - digits@.len()),
{
    let mut n: Vec<char> = Vec::new();
    let mut i: usize = 0;
    while i < count
        invariant
            i <= count,
            n@.len() == i,
            forall|j: int|
                0 <= j < i ==> #[trigger] n@[j] == (if j < digits@.len() {
                    digits@[j]
                } else {
                    '0'
                }),
        decreases count - i,
    {
        if i < digits.len() {
            n.push(digits[i]);
        } else {
            n.push('0');
        }
        i = i + 1;
    }
    proof {
        let k = count as int;
        let len = digits@.len() as int;
        let m = digits_value(digits@) as int;
        if k <= len {
            assert(n@ =~= digits@.take(k));
            lemma_split(digits@, k);
            if k == len {
                assert(digits@.take(k) =~= digits@);
                assert(pow10(0) == 1);
                assert(m * 1 == m) by (nonlinear_arith);
            } else {
                assert((-(k - len)) as nat == (len - k) as nat);
            }
        } else {
            let tail = zeros((k - len) as nat);
            assert(n@ =~= digits@ + tail);
            lemma_digits_value_concat(digits@, tail);
            lemma_zeros_value((k - len) as nat);
            assert(tail.len() == (k - len) as nat);
            assert forall|j: int| 0 <= j < n@.len() implies is_digit(#[trigger] n@[j]) by {
                if j >= len {
                    assert(n@[j] == '0');
                }
            }
        }
    }
    n
}

/// Whether the integer part of the number that `digits` write, times ten to
/// the power `scale`, is at least the limit of binary floating point.
pub fn reaches_limit(digits: &Vec<char>, scale: i128) -> (r: bool)
    requires
        all_digits(digits@),
        digits@.len() > 0 ==> digit_value(digits@[0]) >= 1,
        -0x4000_0000_0000_0000_0000_0000_0000_0000 <= scale
            <= 0x4000_0000_0000_0000_0000_0000_0000_0000,
    ensures
        r == (floor_scaled(digits_value(digits@), scale as int) >= binary64_limit()),
{
    let len: i128 = digits.len() as i128;
    let k: i128 = len + scale;
    if digits.len() == 0 || k <= 255 {
        proof {
            if k <= 255 {
                lemma_short_is_finite(digits@, scale as int);
            } else {
                lemma_short_is_finite(digits@, -(digits@.len() as int));
                lemma_floor_below(digits@, scale as int);
                lemma_zero_floor(scale as int);
            }
        }
        return false;
    }
    if k > 400 {
        proof {
            lemma_long_is_infinite(digits@, scale as int);
        }
        return true;
    }
    let mut n = integer_digits(digits, k as usize);
    let ghost whole = digits_value(n@);
    proof {
        assert(pow2(0) == 1);
    }
    let mut t: usize = 0;
    while t < 970
        invariant
            t <= 970,
            all_digits(n@),
            digits_value(n@) == whole / pow2(t as nat),
        decreases 970 - t,
    {
        halve(&mut n);
        proof {
            lemma_pow2_positive(t as nat);
            lemma_div_denominator(whole as int, pow2(t as nat) as int, 2);
            assert(pow2((t + 1) as nat) == pow2(t as nat) * 2);
        }
        t = t + 1;
    }
    proof {
        assert(n@.subrange(0, n@.len() as int) =~= n@);
        lemma_limit_by_quotient(whole);
    }
    let quotient: u128 = bounded_digits_value(&n, 0, n.len(), 0x1000_0000_0000_0000);
    quotient >= 0x3f_ffff_ffff_ffff
}

/// Zero has the integer part zero, whatever the scale.
pub proof fn lemma_zero_floor(scale: int)
    ensures
        floor_scaled(0, scale) == 0,
{
    if scale >= 0 {
        let p = pow10(scale as nat) as int;
        assert(0 * p == 0) by (nonlinear_arith);
    } else {
        lemma_pow10_positive((-scale) as nat);
        lemma_fundamental_div_mod_converse(0, pow10((-scale) as nat) as int, 0, 0);
    }
}

/// The power of five with exponent `n`.
pub open spec fn pow5(n: nat) -> nat
    decreases n,
{
    if n == 0 {
        1
    } else {
        5 * pow5((n - 1) as nat)
    }
}

/// The exponent of the greatest power of two that is no more than `k`,
/// where `k` is at least one.
pub open spec fn floor_log2(k: nat) -> nat
    decreases k,
{
    if k < 2 {
        0
    } else {
        1 + floor_log2(k / 2)
    }
}

/// Half the distance between the neighbours of `q + 1/2` in binary floating
/// point, as the exponent `j` of `1/2^j`, for `q` below 2^51. Numbers from
/// 2^e up to 2^(e+1) stand 2^(e-52) apart; below one half they stand 2^-54
/// apart.
pub open spec fn gap_exponent(q: nat) -> nat {
    if q == 0 {
        55
    } else {
        (53 - floor_log2(q)) as nat
    }
}

/// Whether the binary floating-point number nearest to `q + r/p` is at
/// least `q + 1/2`, where `r/p` is a proper fraction; at a tie the neighbour
/// with the even last bit is the nearest.
///
/// * Below 2^51, `q + 1/2` is such a number and has an even last bit, so
///   all from half the distance below it on is nearest to it:
///   `r/p >= 1/2 - 1/2^j`.
/// * From 2^51 on the numbers stand one half apart, and `q + 1/2` has an
///   odd last bit: `r/p > 1/4`.
/// * From 2^52 on they are the integers: `r/p > 1/2`, or `r/p == 1/2` and
///   `q` odd.
/// * From 2^53 on the numbers are integers that stand two or more apart,
///   which [`grid_round`] describes. Here the answer is `r/p >= 1/2`; it is
///   asked for only where `r` is zero.
pub open spec fn reaches_half(q: nat, r: nat, p: nat) -> bool {
    if q >= pow2(53) {
        2 * r >= p
    } else if q >= pow2(52) {
        2 * r > p || (2 * r == p && q % 2 == 1)
    } else if q >= pow2(51) {
        4 * r > p
    } else {
        2 * pow2(gap_exponent(q)) * r + 2 * p >= pow2(gap_exponent(q)) * p
    }
}

/// `r/p - (1/2 - e/10^t)`, times `p` and `10^t`: its sign says on which
/// side of `1/2 - e/10^t` the fraction `r/p` lies.
pub open spec fn half_excess(r: nat, p: nat, t: nat, e: nat) -> int {
    r * pow10(t) + e * p - 5 * pow10((t - 1) as nat) * p
}

pub proof fn lemma_pow5_monotonic(a: nat, b: nat)
    requires
        a <= b,
    ensures
        1 <= pow5(a) <= pow5(b),
    decreases b,
{
    if a < b {
        lemma_pow5_monotonic(a, (b - 1) as nat);
    } else if a > 0 {
        lemma_pow5_monotonic((a - 1) as nat, (a - 1) as nat);
    }
}

pub proof fn lemma_pow10_factors(n: nat)
    ensures
        pow10(n) == pow2(n) * pow5(n),
    decreases n,
{
    if n == 0 {
        assert(pow2(0) * pow5(0) == 1) by (nonlinear_arith)
            requires
                pow2(0) == 1,
                pow5(0) == 1,
        ;
    } else {
        lemma_pow10_factors((n - 1) as nat);
        let x = pow2((n - 1) as nat) as int;
        let y = pow5((n - 1) as nat) as int;
        assert(10 * (x * y) == (2 * x) * (5 * y)) by (nonlinear_arith);
    }
}

pub proof fn lemma_pow5_55()
    ensures
        pow5(55) == 277555756156289135105907917022705078125,
{
    reveal_with_fuel(pow5, 56);
}

pub proof fn lemma_pow2_consts()
    ensures
        pow2(51) == 0x8_0000_0000_0000,
        pow2(52) == 0x10_0000_0000_0000,
        pow2(53) == 0x20_0000_0000_0000,
        pow2(55) == 0x80_0000_0000_0000,
{
    reveal_with_fuel(pow2, 56);
}

/// A number below a power of two has a logarithm below its exponent.
pub proof fn lemma_floor_log2_below(k: nat, n: nat)
    requires
        1 <= k < pow2(n),
    ensures
        floor_log2(k) < n,
        pow2(floor_log2(k)) <= k < 2 * pow2(floor_log2(k)),
    decreases k,
{
    if k >= 2 {
        assert(n >= 1);
        lemma_floor_log2_below(k / 2, (n - 1) as nat);
    } else {
        assert(pow2(0) == 1);
        if n == 0 {
        }
    }
}

/// The greatest power of two that is no more than `k` lies within a
/// factor of two of it.
pub proof fn lemma_floor_log2_bounds(k: nat)
    requires
        k >= 1,
    ensures
        pow2(floor_log2(k)) <= k < 2 * pow2(floor_log2(k)),
    decreases k,
{
    if k >= 2 {
        lemma_floor_log2_bounds(k / 2);
    } else {
        assert(pow2(0) == 1);
    }
}

/// A number that is at least a power of two has a logarithm that is at
/// least its exponent.
pub proof fn lemma_floor_log2_above(k: nat, n: nat)
    requires
        k >= pow2(n),
    ensures
        floor_log2(k) >= n,
{
    lemma_pow2_positive(n);
    lemma_floor_log2_bounds(k);
    if floor_log2(k) < n {
        lemma_pow2_monotonic(floor_log2(k) + 1, n);
        assert(pow2(floor_log2(k) + 1) == 2 * pow2(floor_log2(k)));
    }
}

/// The number of binary floating point that is nearest to a number with
/// the integer part `q`, at least 2^53, and a fraction that is not zero.
/// Numbers from 2^e up to 2^(e+1) stand 2^(e-52) apart there, which is at
/// least two, so that the fraction leaves no tie and adds to the lower part
/// of `q` less than one.
pub open spec fn grid_round(q: nat) -> nat {
    let u = pow2((floor_log2(q) - 52) as nat);
    ((q / u) * u + if 2 * (q % u) >= u {
        u
    } else {
        0nat
    }) as nat
}

/// From 2^64 on the nearest number of binary floating point is at least
/// 2^64.
pub proof fn lemma_grid_round_great(q: nat)
    requires
        q >= pow2(64),
    ensures
        grid_round(q) >= pow2(64),
{
    let l = floor_log2(q);
    lemma_floor_log2_above(q, 64);
    lemma_floor_log2_bounds(q);
    let u = pow2((l - 52) as nat);
    lemma_pow2_positive((l - 52) as nat);
    lemma_pow2_add(52, (l - 52) as nat);
    lemma_pow2_monotonic(64, l);
    let c = pow2(52) as int;
    let ui = u as int;
    let qi = q as int;
    assert(qi == ui * (qi / ui) + qi % ui && 0 <= qi % ui < ui) by {
        lemma_fundamental_div_mod(qi, ui);
    }
    assert(qi / ui >= c) by (nonlinear_arith)
        requires
            qi == ui * (qi / ui) + qi % ui,
            0 <= qi % ui < ui,
            qi >= c * ui,
            ui > 0,
    ;
    assert((qi / ui) * ui >= c * ui) by (nonlinear_arith)
        requires
            qi / ui >= c,
            ui > 0,
    ;
}

/// Where the fraction and its denominator are both multiplied, the excess
/// is multiplied alike.
pub proof fn lemma_half_excess_scaled(r: nat, p: nat, c: nat, t: nat, e: nat)
    ensures
        half_excess(r * c, p * c, t, e) == c * half_excess(r, p, t, e),
{
    let a = pow10(t) as int;
    let b = pow10((t - 1) as nat) as int;
    assert((r * c) * a + e * (p * c) - 5 * b * (p * c) == c * (r * a + e * p - 5 * b * p))
        by (nonlinear_arith);
}

/// The excess of a fraction whose first `t` digits write `first` and whose
/// other digits write `tail` out of `w`.
pub proof fn lemma_half_excess_split(first: nat, tail: nat, w: nat, t: nat, e: nat)
    requires
        t >= 1,
    ensures
        half_excess(first * w + tail, pow10(t) * w, t, e) == pow10(t) * ((e + first - 5 * pow10(
            (t - 1) as nat,
        )) * w + tail),
{
    let a = pow10(t) as int;
    let b = pow10((t - 1) as nat) as int;
    assert(a == 10 * b);
    assert((first * w + tail) * a + e * (a * w) - 5 * b * (a * w) == a * ((e + first - 5 * b) * w
        + tail)) by (nonlinear_arith)
        requires
            a == 10 * b,
    ;
}

/// Below 2^51, the nearest number reaches the half exactly where the
/// excess over `1/2 - 5^j/10^j` is not negative: `5^j/10^j` is `1/2^j`.
pub proof fn lemma_reaches_half_small(q: nat, r: nat, p: nat)
    requires
        q < pow2(51),
    ensures
        3 <= gap_exponent(q) <= 55,
        reaches_half(q, r, p) <==> half_excess(r, p, gap_exponent(q), pow5(gap_exponent(q))) >= 0,
{
    let j = gap_exponent(q);
    if q > 0 {
        lemma_floor_log2_below(q, 51);
    }
    lemma_pow2_monotonic(51, 52);
    lemma_pow2_monotonic(51, 53);
    lemma_pow10_factors(j);
    let x = pow2(j) as int;
    let y = pow5(j) as int;
    let u = pow10((j - 1) as nat) as int;
    lemma_pow5_monotonic(0, j);
    assert(pow10(j) == 10 * u);
    assert(2 * ((r * (x * y)) + y * p - 5 * u * p) == y * (2 * x * r + 2 * p - x * p))
        by (nonlinear_arith)
        requires
            x * y == 10 * u,
    ;
    let h = half_excess(r, p, j, pow5(j));
    let b = 2 * x * r + 2 * p - x * p;
    assert(2 * h == y * b);
    assert((h >= 0) == (b >= 0)) by (nonlinear_arith)
        requires
            2 * h == y * b,
            y >= 1,
    ;
}

/// From 2^51 on, the rules for the half are rules on the sign of an excess.
pub proof fn lemma_reaches_half_large(q: nat, r: nat, p: nat)
    ensures
        pow2(51) <= q < pow2(52) ==> (reaches_half(q, r, p) <==> half_excess(r, p, 2, 25) > 0),
        pow2(52) <= q < pow2(53) ==> (reaches_half(q, r, p) <==> half_excess(r, p, 1, 0) > 0 || (
        half_excess(r, p, 1, 0) == 0 && q % 2 == 1)),
{
    reveal_with_fuel(pow10, 3);
    lemma_pow2_monotonic(51, 52);
    lemma_pow2_monotonic(52, 53);
    assert(half_excess(r, p, 2, 25) == 25 * (4 * r - p)) by (nonlinear_arith)
        requires
            half_excess(r, p, 2, 25) == r * 100 + 25 * p - 5 * 10 * p,
    ;
    assert(half_excess(r, p, 1, 0) == 5 * (2 * r - p)) by (nonlinear_arith)
        requires
            half_excess(r, p, 1, 0) == r * 10 + 0 * p - 5 * 1 * p,
    ;
}

/// No difference that is followed goes above this bound.
pub const DIFFERENCE_CAP: u128 = 300_000_000_000_000_000_000_000_000_000_000_000_000;

/// Whether what is kept of a difference stands for `value`: its sign where
/// it is negative, that it is great where it is above the bound, else
/// itself.
pub open spec fn tracks(negative: bool, great: bool, a: u128, value: int) -> bool {
    if value < 0 {
        negative && !great
    } else if value > DIFFERENCE_CAP {
        great && !negative
    } else {
        !negative && !great && a == value
    }
}

/// The number that the digit `c` stands for.
pub fn digit_of(c: char) -> (r: u8)
    requires
        is_digit(c),
    ensures
        r == digit_value(c),
        r <= 9,
{
    (c as u32 - 0x30) as u8
}

/// The power of five with exponent `n`.
pub fn pow5_of(n: usize) -> (r: u128)
    requires
        n <= 55,
    ensures
        r == pow5(n as nat),
        r <= DIFFERENCE_CAP,
{
    let mut r: u128 = 1;
    let mut i: usize = 0;
    proof {
        lemma_pow5_55();
    }
    while i < n
        invariant
            i <= n <= 55,
            r == pow5(i as nat),
            pow5(55) == 277555756156289135105907917022705078125,
        decreases n - i,
    {
        proof {
            lemma_pow5_monotonic((i + 1) as nat, 55);
        }
        r = r * 5;
        i = i + 1;
    }
    proof {
        lemma_pow5_monotonic(n as nat, 55);
    }
    r
}

/// The exponent of the greatest power of two that is no more than `k`.
pub fn floor_log2_of(k: u64) -> (r: usize)
    requires
        k >= 1,
    ensures
        r == floor_log2(k as nat),
        r <= 63,
{
    let mut r: usize = 0;
    let mut rest: u64 = k;
    proof {
        lemma_pow2_64();
    }
    while rest >= 2
        invariant
            rest >= 1,
            r + floor_log2(rest as nat) == floor_log2(k as nat),
            r <= 63,
            (rest as nat) < pow2((64 - r) as nat),
        decreases rest,
    {
        proof {
            assert(pow2((64 - r) as nat) == 2 * pow2((63 - r) as nat));
            if r == 63 {
                assert(pow2(1) == 2) by {
                    reveal_with_fuel(pow2, 2);
                }
            }
        }
        rest = rest / 2;
        r = r + 1;
    }
    r
}

pub proof fn lemma_pow2_64()
    ensures
        pow2(64) == 0x1_0000_0000_0000_0000,
{
    reveal_with_fuel(pow2, 65);
}

/// On which side of `1/2 - e/10^t` the fraction lies that the digits of
/// `digits` from position `from` on write behind the point: above (1), on
/// it (0), or below (-1).
#[verifier::rlimit(60)]
pub fn fraction_sign(digits: &Vec<char>, from: usize, t: usize, e: u128) -> (sign: i8)
    requires
        all_digits(digits@),
        from <= digits.len(),
        1 <= t <= 55,
        e <= DIFFERENCE_CAP,
    ensures
        -1 <= sign <= 1,
        sign > 0 <==> half_excess(
            digits_value(digits@.skip(from as int)),
            pow10((digits@.len() - from) as nat),
            t as nat,
            e as nat,
        ) > 0,
        sign == 0 <==> half_excess(
            digits_value(digits@.skip(from as int)),
            pow10((digits@.len() - from) as nat),
            t as nat,
            e as nat,
        ) == 0,
{
    let ghost given = digits@.skip(from as int);
    let mut frac: Vec<char> = Vec::new();
    let mut i: usize = from;
    proof {
        assert(digits@.subrange(from as int, from as int) =~= Seq::<char>::empty());
    }
    while i < digits.len()
        invariant
            from <= i <= digits.len(),
            frac@ == digits@.subrange(from as int, i as int),
        decreases digits.len() - i,
    {
        frac.push(digits[i]);
        proof {
            assert(digits@.subrange(from as int, i + 1) =~= digits@.subrange(
                from as int,
                i as int,
            ).push(digits@[i as int]));
        }
        i = i + 1;
    }
    proof {
        assert(frac@ =~= given);
        assert(frac@ =~= given + zeros(0));
    }
    while frac.len() < t
        invariant
            frac@.len() >= given.len(),
            frac@ == given + zeros((frac@.len() - given.len()) as nat),
            t <= 55,
        decreases t - frac.len(),
    {
        let ghost before = frac@;
        frac.push('0');
        proof {
            assert(frac@ =~= given + zeros((frac@.len() - given.len()) as nat));
        }
    }
    let ghost pad = (frac@.len() - given.len()) as nat;
    let ghost r = digits_value(given);
    let ghost p = pow10(given.len());
    proof {
        lemma_split(digits@, from as int);
        lemma_zeros_value(pad);
        lemma_digits_value_concat(given, zeros(pad));
        lemma_pow10_add(given.len(), pad);
        assert forall|j: int| 0 <= j < frac@.len() implies is_digit(#[trigger] frac@[j]) by {
            if j < given.len() {
                assert(frac@[j] == given[j]);
            } else {
                assert(frac@[j] == '0');
            }
        }
        assert(digits_value(frac@) == r * pow10(pad));
        assert(pow10(frac@.len()) == p * pow10(pad));
        reveal_with_fuel(digits_value, 2);
        assert(frac@.take(1).drop_last() =~= Seq::<char>::empty());
        assert(pow10(0) == 1);
    }
    let first: u8 = digit_of(frac[0]);
    let mut negative: bool = first > 5;
    let mut great: bool = false;
    let mut a: u128 = if first <= 5 { (5 - first) as u128 } else { 0 };
    let mut k: usize = 1;
    while k < t
        invariant
            1 <= k <= t <= frac.len(),
            all_digits(frac@),
            tracks(
                negative,
                great,
                a,
                5 * pow10((k - 1) as nat) - digits_value(frac@.take(k as int)),
            ),
        decreases t - k,
    {
        let d: u8 = digit_of(frac[k]);
        proof {
            assert(frac@.take(k as int + 1).drop_last() =~= frac@.take(k as int));
            assert(frac@.take(k as int + 1).last() == frac@[k as int]);
            assert(pow10(k as nat) == 10 * pow10((k - 1) as nat));
        }
        if !negative && !great {
            if a > 30_000_000_000_000_000_000_000_000_000_000_000_000 {
                great = true;
            } else {
                let ten: u128 = a * 10;
                if ten < d as u128 {
                    negative = true;
                } else {
                    a = ten - d as u128;
                }
            }
        }
        k = k + 1;
    }
    let mut nonzero: bool = false;
    let mut j: usize = t;
    proof {
        assert(frac@.subrange(t as int, t as int) =~= Seq::<char>::empty());
    }
    while j < frac.len()
        invariant
            t <= j <= frac.len(),
            all_digits(frac@),
            nonzero <==> digits_value(frac@.subrange(t as int, j as int)) > 0,
        decreases frac.len() - j,
    {
        let d: u8 = digit_of(frac[j]);
        proof {
            let next = frac@.subrange(t as int, j + 1);
            assert(next.drop_last() =~= frac@.subrange(t as int, j as int));
            assert(next.last() == frac@[j as int]);
        }
        if d != 0 {
            nonzero = true;
        }
        j = j + 1;
    }
    proof {
        let whole = frac@;
        lemma_split(whole, t as int);
        assert(whole.subrange(t as int, whole.len() as int) =~= whole.skip(t as int));
        let first_part = digits_value(whole.take(t as int));
        let tail = digits_value(whole.skip(t as int));
        let w = pow10((whole.len() - t) as nat);
        lemma_pow10_add(t as nat, (whole.len() - t) as nat);
        lemma_pow10_positive(t as nat);
        lemma_pow10_positive(pad);
        lemma_pow10_positive((whole.len() - t) as nat);
        lemma_half_excess_split(first_part, tail, w, t as nat, e as nat);
        lemma_half_excess_scaled(r, p, pow10(pad), t as nat, e as nat);
        let h = half_excess(r, p, t as nat, e as nat);
        let big = half_excess(digits_value(whole), pow10(whole.len()), t as nat, e as nat);
        let c = pow10(pad) as int;
        let a10 = pow10(t as nat) as int;
        let diff = 5 * pow10((t - 1) as nat) - first_part;
        let inner = (e - diff) * w + tail;
        assert(big == c * h);
        assert(big == a10 * inner);
        assert((h > 0) == (inner > 0) && (h == 0) == (inner == 0)) by (nonlinear_arith)
            requires
                c * h == a10 * inner,
                c >= 1,
                a10 >= 1,
        ;
        assert(e - diff >= 1 ==> inner > 0) by (nonlinear_arith)
            requires
                inner == (e - diff) * w + tail,
                w >= 1,
                tail >= 0,
        ;
        assert(e - diff <= -1 ==> inner < 0) by (nonlinear_arith)
            requires
                inner == (e - diff) * w + tail,
                w >= 1,
                tail < w,
        ;
        assert(e - diff == 0 ==> inner == tail) by (nonlinear_arith)
            requires
                inner == (e - diff) * w + tail,
        ;
    }
    if negative {
        1
    } else if great {
        -1
    } else if a < e {
        1
    } else if a > e {
        -1
    } else if nonzero {
        1
    } else {
        0
    }
}

/// The number of binary floating point that is nearest to a number with
/// the integer part `q` and a fraction that is not zero.
pub fn grid_round_of(q: u64) -> (r: u128)
    requires
        q >= 0x20_0000_0000_0000,
    ensures
        r == grid_round(q as nat),
{
    proof {
        lemma_pow2_consts();
        lemma_pow2_64();
        lemma_floor_log2_above(q as nat, 53);
        lemma_floor_log2_below(q as nat, 64);
    }
    let l: usize = floor_log2_of(q);
    let shift: usize = l - 52;
    let mut u: u64 = 1;
    let mut i: usize = 0;
    proof {
        assert(pow2(0) == 1);
    }
    while i < shift
        invariant
            i <= shift <= 11,
            u == pow2(i as nat),
            1 <= u <= 0x800,
        decreases shift - i,
    {
        proof {
            assert(pow2((i + 1) as nat) == 2 * pow2(i as nat));
            lemma_pow2_monotonic((i + 1) as nat, 11);
            assert(pow2(11) == 0x800) by {
                reveal_with_fuel(pow2, 12);
            }
        }
        u = u * 2;
        i = i + 1;
    }
    let low: u64 = q % u;
    let base: u64 = q - low;
    proof {
        let qi = q as int;
        let ui = u as int;
        lemma_fundamental_div_mod(qi, ui);
        assert((qi / ui) * ui == qi - qi % ui) by (nonlinear_arith)
            requires
                qi == ui * (qi / ui) + qi % ui,
        ;
    }
    if 2 * low >= u {
        base as u128 + u as u128
    } else {
        base as u128
    }
}

} // verus!
