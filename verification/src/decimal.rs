//! Numbers as Rust's `f64` parser reads them, and the exact effect of the
//! float arithmetic a size goes through: rounding the decimal to the nearest
//! `f64`, scaling by the unit in `f64`, and rounding to a whole byte count.

use vstd::prelude::*;
use crate::size::{ascii_lower, digits_value, digit_of, is_digit, all_digits, lower_chars, pow10, power};
use crate::text::slice_chars;
use crate::output::{div_round_even, float_shift, float_value};
use crate::bignum::{
    bn_ok, bn_val, bn_compare, bn_divmod, bn_from_u128, bn_is_zero, bn_mul_pow2, bn_mul_small,
    bn_shift10, bn_sub, lemma_bn_push, lemma_pow10_add, lemma_pow10_pos, lemma_power2_add,
    lemma_power2_pos,
};

verus! {

/// The first index at or after `i` that does not hold a decimal digit (or the length).
pub open spec fn digit_run_end(s: Seq<char>, i: int) -> int
    decreases s.len() - i,
{
    if i < 0 || i >= s.len() {
        s.len() as int
    } else if !is_digit(s[i]) {
        i
    } else {
        digit_run_end(s, i + 1)
    }
}

/// What Rust's float parser makes of a word.
pub enum FloatText {
    NotANumber,
    Infinite(bool),
    /// A finite number: whether it is negative, its significant digits and the
    /// power of ten they are scaled by.
    Finite(bool, Seq<char>, int),
}

/// The word `s` as `str::parse::<f64>` reads it. Once lower-cased, the word
/// must be an optional sign followed by `inf`, `infinity` or `nan`, or by digits
/// with at most one `.` among them (at least one digit) and an optional
/// exponent: `e`, an optional sign, and one or more digits.
pub open spec fn float_text(s: Seq<char>) -> Option<FloatText> {
    let l = ascii_lower(s);
    let signed = l.len() > 0 && (l[0] == '+' || l[0] == '-');
    let neg = l.len() > 0 && l[0] == '-';
    let a: int = if signed { 1 } else { 0 };
    let r = l.skip(a);
    if r == seq!['i', 'n', 'f'] || r == seq!['i', 'n', 'f', 'i', 'n', 'i', 't', 'y'] {
        Some(FloatText::Infinite(neg))
    } else if r == seq!['n', 'a', 'n'] {
        Some(FloatText::NotANumber)
    } else {
        finite_text(l, a, neg)
    }
}

/// The finite number written from index `a` of the lower-cased word `l`:
/// digits with at most one `.` among them (at least one digit), then nothing
/// or an exponent: `e`, an optional sign and one or more digits.
pub open spec fn finite_text(l: Seq<char>, a: int, neg: bool) -> Option<FloatText> {
    let i1 = digit_run_end(l, a);
    let has_dot = i1 < l.len() && l[i1] == '.';
    let i2 = if has_dot { digit_run_end(l, i1 + 1) } else { i1 };
    let frac = if has_dot { l.subrange(i1 + 1, i2) } else { Seq::empty() };
    let mant = l.subrange(a, i1) + frac;
    if mant.len() == 0 {
        None
    } else if i2 == l.len() {
        Some(FloatText::Finite(neg, mant, -(frac.len() as int)))
    } else if l[i2] == 'e' {
        let b = i2 + 1;
        let eneg = b < l.len() && l[b] == '-';
        let c = if b < l.len() && (l[b] == '+' || l[b] == '-') { b + 1 } else { b };
        let d = digit_run_end(l, c);
        if d == l.len() && d > c {
            let ev = digits_value(l.subrange(c, d)) as int;
            Some(FloatText::Finite(neg, mant, (if eneg { -ev } else { ev }) - frac.len()))
        } else {
            None
        }
    } else {
        None
    }
}

pub proof fn lemma_digit_run_end_bounds(s: Seq<char>, i: int)
    requires
        0 <= i <= s.len(),
    ensures
        i <= digit_run_end(s, i) <= s.len(),
        digit_run_end(s, i) < s.len() ==> !is_digit(s[digit_run_end(s, i)]),
        forall|j: int| i <= j < digit_run_end(s, i) ==> is_digit(#[trigger] s[j]),
    decreases s.len() - i,
{
    if i < s.len() && is_digit(s[i]) {
        lemma_digit_run_end_bounds(s, i + 1);
    }
}

fn digit_run_end_exec(v: &Vec<char>, i: usize) -> (r: usize)
    requires
        i <= v.len(),
    ensures
        r == digit_run_end(v@, i as int),
        i <= r <= v.len(),
{
    let mut k = i;
    while k < v.len() && 48 <= (v[k] as u32) && (v[k] as u32) <= 57
        invariant
            i <= k <= v.len(),
            digit_run_end(v@, i as int) == digit_run_end(v@, k as int),
        decreases v.len() - k,
    {
        k = k + 1;
    }
    k
}

fn concat_chars(x: &Vec<char>, y: &Vec<char>) -> (r: Vec<char>)
    ensures
        r@ == x@ + y@,
{
    let mut r = slice_chars(x, 0, x.len());
    let mut k: usize = 0;
    assert(x@.subrange(0, x@.len() as int) =~= x@);
    while k < y.len()
        invariant
            k <= y@.len(),
            r@ == x@ + y@.take(k as int),
        decreases y@.len() - k,
    {
        r.push(y[k]);
        k = k + 1;
        assert(r@ =~= x@ + y@.take(k as int));
    }
    assert(y@.take(k as int) =~= y@);
    r
}

/// A word as read by the float parser.
pub enum FloatWord {
    NotANumber,
    Infinite { negative: bool },
    Finite { negative: bool, mantissa: Vec<char>, frac_len: usize, exp_negative: bool, exp_digits: Vec<char> },
}

/// The power of ten written by an exponent and the number of fraction digits.
pub open spec fn exponent_of(exp_negative: bool, exp_digits: Seq<char>, frac_len: nat) -> int {
    (if exp_negative { -(digits_value(exp_digits) as int) } else { digits_value(exp_digits) as int })
        - frac_len
}

/// The reading a `FloatWord` stands for.
pub open spec fn float_word_view(w: FloatWord) -> FloatText {
    match w {
        FloatWord::NotANumber => FloatText::NotANumber,
        FloatWord::Infinite { negative } => FloatText::Infinite(negative),
        FloatWord::Finite { negative, mantissa, frac_len, exp_negative, exp_digits } => FloatText::Finite(
            negative,
            mantissa@,
            exponent_of(exp_negative, exp_digits@, frac_len as nat),
        ),
    }
}

/// Reads `num` as the float parser does; see `float_text`.
pub fn parse_float_word(num: &Vec<char>) -> (r: Option<FloatWord>)
    ensures
        match r {
            None => float_text(num@) is None,
            Some(w) => float_text(num@) == Some(float_word_view(w)),
        },
        r matches Some(FloatWord::Finite { mantissa, frac_len, exp_digits, .. }) ==> {
            &&& all_digits(mantissa@)
            &&& all_digits(exp_digits@)
            &&& frac_len <= mantissa@.len()
            &&& mantissa@.len() <= num@.len()
        },
{
    let l = lower_chars(num);
    let n = l.len();
    let signed = n > 0 && (l[0] == '+' || l[0] == '-');
    let neg = n > 0 && l[0] == '-';
    let a: usize = if signed { 1 } else { 0 };
    let rest = slice_chars(&l, a, n);
    assert(rest@ =~= l@.skip(a as int));
    if rest.len() == 3 && rest[0] == 'i' && rest[1] == 'n' && rest[2] == 'f' {
        assert(rest@ =~= seq!['i', 'n', 'f']);
        return Some(FloatWord::Infinite { negative: neg });
    }
    if rest.len() == 8 && rest[0] == 'i' && rest[1] == 'n' && rest[2] == 'f' && rest[3] == 'i'
        && rest[4] == 'n' && rest[5] == 'i' && rest[6] == 't' && rest[7] == 'y' {
        assert(rest@ =~= seq!['i', 'n', 'f', 'i', 'n', 'i', 't', 'y']);
        return Some(FloatWord::Infinite { negative: neg });
    }
    if rest.len() == 3 && rest[0] == 'n' && rest[1] == 'a' && rest[2] == 'n' {
        assert(rest@ =~= seq!['n', 'a', 'n']);
        proof {
            if rest@ == seq!['i', 'n', 'f'] || rest@ == seq!['i', 'n', 'f', 'i', 'n', 'i', 't', 'y'] {
                assert(rest@[0] == 'i');
            }
        }
        return Some(FloatWord::NotANumber);
    }
    proof {
        if rest@ == seq!['i', 'n', 'f'] {
            assert(rest@[0] == 'i' && rest@[1] == 'n' && rest@[2] == 'f');
        }
        if rest@ == seq!['i', 'n', 'f', 'i', 'n', 'i', 't', 'y'] {
            assert(rest@[0] == 'i' && rest@[1] == 'n' && rest@[2] == 'f' && rest@[3] == 'i');
            assert(rest@[4] == 'n' && rest@[5] == 'i' && rest@[6] == 't' && rest@[7] == 'y');
        }
        if rest@ == seq!['n', 'a', 'n'] {
            assert(rest@[0] == 'n' && rest@[1] == 'a' && rest@[2] == 'n');
        }
        assert(l@.len() == num@.len());
    }
    parse_finite(&l, a, neg)
}

fn parse_finite(l: &Vec<char>, a: usize, neg: bool) -> (r: Option<FloatWord>)
    requires
        a <= l@.len(),
    ensures
        match r {
            None => finite_text(l@, a as int, neg) is None,
            Some(w) => finite_text(l@, a as int, neg) == Some(float_word_view(w)),
        },
        r matches Some(FloatWord::Finite { mantissa, frac_len, exp_digits, .. }) ==> {
            &&& all_digits(mantissa@)
            &&& all_digits(exp_digits@)
            &&& frac_len <= mantissa@.len()
            &&& mantissa@.len() <= l@.len()
        },
        r matches Some(w) ==> w is Finite,
{
    let n = l.len();
    let i1 = digit_run_end_exec(l, a);
    let has_dot = i1 < n && l[i1] == '.';
    let i2 = if has_dot { digit_run_end_exec(l, i1 + 1) } else { i1 };
    let int_digits = slice_chars(l, a, i1);
    let frac = if has_dot { slice_chars(l, i1 + 1, i2) } else { Vec::new() };
    let mant = concat_chars(&int_digits, &frac);
    proof {
        lemma_digit_run_end_bounds(l@, a as int);
        if has_dot {
            lemma_digit_run_end_bounds(l@, i1 + 1);
        }
        assert forall|j: int| 0 <= j < mant@.len() implies is_digit(#[trigger] mant@[j]) by {
            if j < int_digits@.len() {
                assert(mant@[j] == l@[a + j]);
            } else {
                assert(mant@[j] == frac@[j - int_digits@.len()]);
                assert(frac@[j - int_digits@.len()] == l@[i1 + 1 + j - int_digits@.len()]);
            }
        }
    }
    if mant.len() == 0 {
        return None;
    }
    let frac_len = frac.len();
    if i2 == n {
        let w = FloatWord::Finite {
            negative: neg,
            mantissa: mant,
            frac_len,
            exp_negative: false,
            exp_digits: Vec::new(),
        };
        proof {
            assert(digits_value(Seq::<char>::empty()) == 0);
        }
        return Some(w);
    }
    if l[i2] != 'e' {
        return None;
    }
    let b = i2 + 1;
    let eneg = b < n && l[b] == '-';
    let c = if b < n && (l[b] == '+' || l[b] == '-') { b + 1 } else { b };
    let d = digit_run_end_exec(l, c);
    if !(d == n && d > c) {
        return None;
    }
    let exp_digits = slice_chars(l, c, d);
    proof {
        lemma_digit_run_end_bounds(l@, c as int);
        assert forall|j: int| 0 <= j < exp_digits@.len() implies is_digit(#[trigger] exp_digits@[j]) by {
            assert(exp_digits@[j] == l@[c + j]);
        }
    }
    Some(FloatWord::Finite { negative: neg, mantissa: mant, frac_len, exp_negative: eneg, exp_digits })
}


/// The numerator of the number with significant digits `mant` scaled by `10^k`:
/// `digits * 10^max(k, 0)`.
pub open spec fn scaled_num(mant: Seq<char>, k: int) -> nat {
    digits_value(mant) * pow10(if k > 0 { k as nat } else { 0 })
}

/// The matching denominator: `10^max(-k, 0)`.
pub open spec fn scaled_den(k: int) -> nat {
    pow10(if k < 0 { (-k) as nat } else { 0 })
}

/// `a / b` rounds to zero as an `f64`: it is at most half the smallest positive
/// `f64` (`2^-1074`), and a tie goes to the even neighbour, zero.
pub open spec fn rounds_to_zero(a: nat, b: nat) -> bool {
    a * power(2, 1075) <= b
}

/// `a / b` is below `2^-43`, so its `f64` times the largest unit (`2^40`) stays
/// below one half and rounds to no byte.
pub open spec fn below_half_byte(a: nat, b: nat) -> bool {
    a * power(2, 43) < b
}

/// `a / b` rounds to infinity as an `f64`: it is at least halfway between the
/// largest finite `f64`, `(2^53 - 1) * 2^971`, and `2^1024`; a tie goes to the
/// even neighbour, `2^1024`, which is infinite.
pub open spec fn rounds_to_infinity(a: nat, b: nat) -> bool {
    a >= (power(2, 54) - 1) * power(2, 970) * b
}

/// `a / b` is at least `2^65`: so is its `f64`, and times any unit it is more
/// bytes than a `u64` holds.
pub open spec fn at_least_2_65(a: nat, b: nat) -> bool {
    a >= power(2, 65) * b
}

/// The least `t` (from `t` up, at most 107) with `a / b * 2^t >= 2^64`: the
/// scaling that puts 53 significant bits of `a / b` above the binary point
/// once `12` are dropped.
pub open spec fn mid_shift(a: nat, b: nat, t: nat) -> nat
    decreases 107 - t,
{
    if t < 107 && a * power(2, t) < power(2, 64) * b {
        mid_shift(a, b, t + 1)
    } else {
        t
    }
}

/// The byte count for `a / b` (between `2^-43` and `2^65`) in a unit of `scale`
/// bytes, computed as the float arithmetic does: `a / b` rounded to the nearest
/// `f64` is `m * 2^(12 - t)` (53-bit `m`, ties to even); the product with the
/// unit rounds `m * scale` to 53 bits at the same exponent; the result is then
/// rounded to a whole number, halves away from zero.
pub open spec fn mid_bytes(a: nat, b: nat, scale: nat) -> nat {
    let t = mid_shift(a, b, 0);
    let m = div_round_even(a * power(2, t), b * power(2, 12));
    whole_bytes(float_value(m * scale), t)
}

/// `w * 2^(12 - t)` rounded to a whole number, halves away from zero.
pub open spec fn whole_bytes(w: nat, t: nat) -> nat {
    if t <= 12 {
        w * power(2, (12 - t) as nat)
    } else {
        (2 * w + power(2, (t - 12) as nat)) / power(2, (t - 11) as nat)
    }
}

/// Where `a / b` falls, for the byte count it gives.
pub enum Magnitude {
    /// Rounds to zero as an `f64`.
    Zero,
    /// Not zero, but below half a byte in any unit.
    Negligible,
    /// Rounds to infinity as an `f64`.
    Infinite,
    /// Finite, but beyond what a `u64` holds in any unit.
    Excessive,
    /// In between: the byte count is `mid_bytes`.
    InRange,
}

/// What a `Magnitude` says of `a / b`.
pub open spec fn magnitude_holds(g: Magnitude, a: nat, b: nat) -> bool {
    match g {
        Magnitude::Zero => rounds_to_zero(a, b) && below_half_byte(a, b) && !rounds_to_infinity(a, b),
        Magnitude::Negligible => !rounds_to_zero(a, b) && below_half_byte(a, b) && !rounds_to_infinity(a, b),
        Magnitude::Infinite => rounds_to_infinity(a, b),
        Magnitude::Excessive => !rounds_to_zero(a, b) && !below_half_byte(a, b) && !rounds_to_infinity(a, b)
            && at_least_2_65(a, b),
        Magnitude::InRange => !rounds_to_zero(a, b) && !below_half_byte(a, b) && !rounds_to_infinity(a, b)
            && !at_least_2_65(a, b),
    }
}

proof fn lemma_pow10_ge_pow2(j: nat)
    ensures
        pow10(j) >= power(2, 3 * j),
    decreases j,
{
    if j > 0 {
        lemma_pow10_ge_pow2((j - 1) as nat);
        lemma_power2_add((3 * (j - 1)) as nat, 3);
        reveal_with_fuel(power, 4);
        assert(3 * j == (3 * (j - 1)) as nat + 3);
        assert(pow10(j) == 10 * pow10((j - 1) as nat));
    }
}

proof fn lemma_pow10_mono(i: nat, j: nat)
    requires
        i <= j,
    ensures
        pow10(i) <= pow10(j),
{
    lemma_pow10_add(i, (j - i) as nat);
    lemma_pow10_pos((j - i) as nat);
    assert(pow10(i) * pow10((j - i) as nat) >= pow10(i)) by (nonlinear_arith)
        requires
            pow10((j - i) as nat) >= 1,
    ;
}

pub proof fn lemma_power2_mono(i: nat, j: nat)
    requires
        i <= j,
    ensures
        power(2, i) <= power(2, j),
{
    lemma_power2_add(i, (j - i) as nat);
    lemma_power2_pos((j - i) as nat);
    assert(power(2, i) * power(2, (j - i) as nat) >= power(2, i)) by (nonlinear_arith)
        requires
            power(2, (j - i) as nat) >= 1,
    ;
}

/// The overflow threshold is below `2^1024`, itself below `10^350`.
pub proof fn lemma_threshold_bounds()
    ensures
        (power(2, 54) - 1) * power(2, 970) < power(2, 1024),
        power(2, 1024) <= pow10(350),
        (power(2, 54) - 1) * power(2, 970) >= 1,
{
    lemma_power2_add(54, 970);
    lemma_power2_pos(970);
    lemma_power2_add(43, 11);
    lemma_power2_pos(43);
    reveal_with_fuel(power, 12);
    assert(power(2, 54) >= 2);
    assert((power(2, 54) - 1) * power(2, 970) < power(2, 54) * power(2, 970)) by (nonlinear_arith)
        requires
            power(2, 970) >= 1,
    ;
    assert((power(2, 54) - 1) * power(2, 970) >= 1) by (nonlinear_arith)
        requires
            power(2, 970) >= 1,
            power(2, 54) >= 2,
    ;
    lemma_pow10_ge_pow2(350);
    lemma_power2_mono(1024, 1050);
}

/// What rounds to zero is below half a byte and does not round to infinity.
proof fn lemma_zero_facts(a: nat, b: nat)
    requires
        b >= 1,
        rounds_to_zero(a, b),
    ensures
        below_half_byte(a, b),
        !rounds_to_infinity(a, b),
{
    lemma_power2_mono(43, 1075);
    lemma_power2_add(43, 1032);
    lemma_power2_pos(1032);
    lemma_power2_pos(43);
    lemma_threshold_bounds();
    let t = (power(2, 54) - 1) * power(2, 970);
    assert(a * power(2, 43) < b) by (nonlinear_arith)
        requires
            a * power(2, 1075) <= b,
            power(2, 1075) == power(2, 43) * power(2, 1032),
            power(2, 1032) >= 1,
            power(2, 43) >= 1,
            b >= 1,
    ;
    assert(a < t * b) by (nonlinear_arith)
        requires
            a * power(2, 43) < b,
            power(2, 43) >= 1,
            t >= 1,
    ;
}

/// Ten to a large enough power, times a positive number, rounds to infinity.
proof fn lemma_huge_is_infinite(n: nat, k: nat)
    requires
        n >= 1,
        k >= 350,
    ensures
        rounds_to_infinity(n * pow10(k), 1),
{
    lemma_threshold_bounds();
    lemma_pow10_mono(350, k);
    assert(n * pow10(k) >= pow10(k)) by (nonlinear_arith)
        requires
            n >= 1,
    ;
}

/// A number of `l` digits over ten to at least `l + 360` rounds to zero.
proof fn lemma_minute_is_zero(n: nat, l: nat, k: nat)
    requires
        n < pow10(l),
        k >= l + 360,
    ensures
        rounds_to_zero(n, pow10(k)),
{
    lemma_pow10_ge_pow2(360);
    lemma_power2_mono(1075, 1080);
    lemma_pow10_add(l, 360);
    lemma_pow10_mono(l + 360, k);
    assert(n * power(2, 1075) <= pow10(l) * pow10(360)) by (nonlinear_arith)
        requires
            n < pow10(l),
            power(2, 1075) <= pow10(360),
    ;
}


/// The digits `v`, most significant first, as a little-endian digit vector.
fn bn_from_digits(v: &Vec<char>) -> (r: Vec<u8>)
    requires
        all_digits(v@),
    ensures
        bn_ok(r@),
        bn_val(r@) == digits_value(v@),
{
    let mut r: Vec<u8> = Vec::new();
    let mut i: usize = v.len();
    assert(v@.skip(i as int) =~= Seq::<char>::empty());
    while i > 0
        invariant
            i <= v@.len(),
            r@.len() == v@.len() - i,
            bn_ok(r@),
            bn_val(r@) == digits_value(v@.skip(i as int)),
            all_digits(v@),
        decreases i,
    {
        i = i - 1;
        let c = v[i];
        assert(is_digit(v@[i as int]));
        let d: u8 = ((c as u32) - 48) as u8;
        proof {
            let rest = v@.skip(i as int + 1);
            assert(v@.skip(i as int) =~= seq![c] + rest);
            crate::size::lemma_digits_value_concat(seq![c], rest);
            assert(seq![c].drop_last() =~= Seq::<char>::empty());
            assert(seq![c].last() == c);
            assert(digits_value(Seq::<char>::empty()) == 0);
            assert(digits_value(seq![c]) == digit_of(c));
            lemma_bn_push(r@, d);
        }
        r.push(d);
    }
    assert(v@.skip(0) =~= v@);
    r
}

/// The value of the digits `d`, or a flag that it is at least `2^64`.
fn exponent_value(d: &Vec<char>) -> (r: (u128, bool))
    requires
        all_digits(d@),
    ensures
        r.1 ==> digits_value(d@) >= 0x1_0000_0000_0000_0000,
        !r.1 ==> r.0 == digits_value(d@) && r.0 < 0x1_0000_0000_0000_0000,
{
    let mut acc: u128 = 0;
    let mut i: usize = 0;
    assert(d@.take(0) =~= Seq::<char>::empty());
    while i < d.len()
        invariant
            i <= d@.len(),
            acc == digits_value(d@.take(i as int)),
            acc < 0x1_0000_0000_0000_0000,
            all_digits(d@),
        decreases d@.len() - i,
    {
        assert(is_digit(d@[i as int]));
        let digit: u128 = ((d[i] as u32) - 48) as u128;
        assert(d@.take(i as int + 1).drop_last() =~= d@.take(i as int));
        acc = acc * 10 + digit;
        i = i + 1;
        if acc >= 0x1_0000_0000_0000_0000 {
            proof {
                crate::size::lemma_digits_value_concat(d@.take(i as int), d@.skip(i as int));
                assert(d@.take(i as int) + d@.skip(i as int) =~= d@);
                lemma_pow10_pos((d@.len() - i) as nat);
                assert(digits_value(d@.take(i as int)) * pow10((d@.len() - i) as nat)
                    >= digits_value(d@.take(i as int))) by (nonlinear_arith)
                    requires
                        pow10((d@.len() - i) as nat) >= 1,
                ;
            }
            return (acc, true);
        }
    }
    assert(d@.take(i as int) =~= d@);
    (acc, false)
}

/// Where the number with significant digits `mant` scaled by `10^k` falls
/// (`k` from the exponent and the fraction length), with its numerator and
/// denominator as digit vectors when it is in range.
pub(crate) fn classify(mant: &Vec<char>, frac_len: usize, exp_negative: bool, exp_digits: &Vec<char>)
    -> (r: (Magnitude, Vec<u8>, Vec<u8>))
    requires
        all_digits(mant@),
        all_digits(exp_digits@),
        frac_len <= mant@.len(),
        mant@.len() <= isize::MAX,
    ensures
        magnitude_holds(
            r.0,
            scaled_num(mant@, exponent_of(exp_negative, exp_digits@, frac_len as nat)),
            scaled_den(exponent_of(exp_negative, exp_digits@, frac_len as nat)),
        ),
        r.0 is InRange ==> {
            &&& bn_ok(r.1@)
            &&& bn_ok(r.2@)
            &&& bn_val(r.1@) == scaled_num(mant@, exponent_of(exp_negative, exp_digits@, frac_len as nat))
            &&& bn_val(r.2@) == scaled_den(exponent_of(exp_negative, exp_digits@, frac_len as nat))
        },
{
    let ghost k = exponent_of(exp_negative, exp_digits@, frac_len as nat);
    let ghost kp: nat = if k > 0 { k as nat } else { 0 };
    let ghost kn: nat = if k < 0 { (-k) as nat } else { 0 };
    let ghost n = digits_value(mant@);
    let n_bn = bn_from_digits(mant);
    proof {
        lemma_pow10_pos(kp);
        lemma_pow10_pos(kn);
    }
    if bn_is_zero(&n_bn) {
        proof {
            assert(scaled_num(mant@, k) == 0);
            lemma_zero_facts(0, scaled_den(k));
        }
        return (Magnitude::Zero, Vec::new(), Vec::new());
    }
    let (ev, saturated) = exponent_value(exp_digits);
    if saturated {
        if !exp_negative {
            proof {
                lemma_huge_is_infinite(n, kp);
            }
            return (Magnitude::Infinite, Vec::new(), Vec::new());
        } else {
            proof {
                assert(k < 0 && kp == 0 && kn >= mant@.len() + 360);
                assert(pow10(0) == 1);
                assert(scaled_num(mant@, k) == n * pow10(0));
                assert(scaled_num(mant@, k) == n);
                crate::size::lemma_digits_value_bound(mant@);
                lemma_minute_is_zero(n, mant@.len(), kn);
                lemma_zero_facts(n, pow10(kn));
            }
            return (Magnitude::Zero, Vec::new(), Vec::new());
        }
    }
    let signed: i128 = if exp_negative { -(ev as i128) } else { ev as i128 };
    let kk: i128 = signed - frac_len as i128;
    assert(kk == k);
    if kk >= 350 {
        proof {
            lemma_huge_is_infinite(n, kp);
        }
        return (Magnitude::Infinite, Vec::new(), Vec::new());
    }
    if -kk - (mant.len() as i128) >= 360 {
        proof {
            assert(k < 0 && kp == 0 && kn >= mant@.len() + 360);
            assert(pow10(0) == 1);
            assert(scaled_num(mant@, k) == n * pow10(0));
            assert(scaled_num(mant@, k) == n);
            crate::size::lemma_digits_value_bound(mant@);
            lemma_minute_is_zero(n, mant@.len(), kn);
            lemma_zero_facts(n, pow10(kn));
        }
        return (Magnitude::Zero, Vec::new(), Vec::new());
    }
    let up: usize = if kk > 0 { kk as usize } else { 0 };
    let down: usize = if kk < 0 { (-kk) as usize } else { 0 };
    let a = bn_shift10(&n_bn, up);
    let one = bn_from_u128(1);
    let b = bn_shift10(&one, down);
    let ghost av = bn_val(a@);
    let ghost bv = bn_val(b@);
    assert(av == scaled_num(mant@, k));
    assert(bv == scaled_den(k));
    let a_zero = bn_mul_pow2(&a, 1075);
    if bn_compare(&a_zero, &b) <= 0 {
        proof {
            lemma_zero_facts(av, bv);
        }
        return (Magnitude::Zero, Vec::new(), Vec::new());
    }
    let a_half = bn_mul_pow2(&a, 43);
    let negligible = bn_compare(&a_half, &b) < 0;
    let b54 = bn_mul_pow2(&b, 54);
    proof {
        lemma_power2_pos(54);
        assert(bv * power(2, 54) >= bv) by (nonlinear_arith)
            requires
                power(2, 54) >= 1,
        ;
    }
    let b_odd = bn_sub(&b54, &b);
    let b_inf = bn_mul_pow2(&b_odd, 970);
    proof {
        assert(bn_val(b_inf@) == (power(2, 54) - 1) * power(2, 970) * bv) by (nonlinear_arith)
            requires
                bn_val(b_inf@) == bn_val(b_odd@) * power(2, 970),
                bn_val(b_odd@) == bv * power(2, 54) - bv,
        ;
    }
    if bn_compare(&a, &b_inf) >= 0 {
        return (Magnitude::Infinite, Vec::new(), Vec::new());
    }
    if negligible {
        return (Magnitude::Negligible, Vec::new(), Vec::new());
    }
    let b65 = bn_mul_pow2(&b, 65);
    assert(bn_val(b65@) == power(2, 65) * bv) by (nonlinear_arith)
        requires
            bn_val(b65@) == bv * power(2, 65),
    ;
    if bn_compare(&a, &b65) >= 0 {
        return (Magnitude::Excessive, Vec::new(), Vec::new());
    }
    (Magnitude::InRange, a, b)
}


/// `2^e` as a `u128`.
fn pow2_u128(e: u32) -> (p: u128)
    requires
        e <= 120,
    ensures
        p == power(2, e as nat),
{
    let mut p: u128 = 1;
    let mut i: u32 = 0;
    while i < e
        invariant
            i <= e <= 120,
            p == power(2, i as nat),
        decreases e - i,
    {
        proof {
            lemma_power2_mono((i + 1) as nat, 120);
            assert(power(2, (i + 1) as nat) == 2 * power(2, i as nat));
            assert(power(2, 120) <= 0x8000_0000_0000_0000_0000_0000_0000_0000) by {
                assert(power(2, 120) == power(2, 64) * power(2, 56)) by {
                    lemma_power2_add(64, 56);
                }
                lemma_power2_small();
            }
        }
        p = p * 2;
        i = i + 1;
    }
    p
}

/// Powers of two used by the float arithmetic.
pub proof fn lemma_power2_small()
    ensures
        power(2, 65) == 0x2_0000_0000_0000_0000,
        power(2, 64) == 0x1_0000_0000_0000_0000,
        power(2, 56) == 0x100_0000_0000_0000,
        power(2, 54) == 0x40_0000_0000_0000,
        power(2, 53) == 0x20_0000_0000_0000,
        power(2, 12) == 4096,
        power(2, 11) == 2048,
        power(2, 42) == 0x400_0000_0000,
        power(2, 95) == 0x8000_0000_0000_0000_0000_0000,
{
    reveal_with_fuel(power, 17);
    assert(power(2, 16) == 0x1_0000);
    assert(power(2, 12) == 4096);
    assert(power(2, 11) == 2048);
    assert(power(2, 10) == 1024);
    assert(power(2, 8) == 256);
    assert(power(2, 6) == 64);
    assert(power(2, 5) == 32);
    assert(power(2, 1) == 2);
    lemma_power2_add(16, 16);
    assert(power(2, 32) == 0x1_0000_0000);
    lemma_power2_add(32, 32);
    assert(power(2, 64) == 0x1_0000_0000_0000_0000);
    lemma_power2_add(64, 1);
    lemma_power2_add(32, 16);
    assert(power(2, 48) == 0x1_0000_0000_0000);
    lemma_power2_add(48, 8);
    lemma_power2_add(48, 6);
    lemma_power2_add(48, 5);
    lemma_power2_add(32, 10);
    lemma_power2_add(16, 15);
    assert(power(2, 15) == 0x8000);
    assert(power(2, 31) == 0x8000_0000);
    lemma_power2_add(64, 31);
}

/// `n` rounded to the nearest `f64` (`float_value`), for `n` up to `2^94`.
pub fn float_value_wide(n: u128) -> (v: u128)
    requires
        n <= 0x4000_0000_0000_0000_0000_0000,
    ensures
        v == float_value(n as nat),
        v <= 2 * n,
{
    let mut x: u128 = n;
    let mut p: u128 = 1;
    let mut e: u32 = 0;
    proof {
        reveal_with_fuel(power, 1);
    }
    while x >= 0x20_0000_0000_0000
        invariant
            p == power(2, e as nat),
            1 <= p <= 0x400_0000_0000,
            e <= 42,
            x == n as nat / p as nat,
            e > 0 ==> x >= 0x10_0000_0000_0000,
            float_shift(n as nat) == e + float_shift(x as nat),
            n <= 0x4000_0000_0000_0000_0000_0000,
        decreases x,
    {
        proof {
            vstd::arithmetic::div_mod::lemma_fundamental_div_mod(n as int, p as int);
            vstd::arithmetic::div_mod::lemma_mod_bound(n as int, p as int);
            assert(p * x <= n) by (nonlinear_arith)
                requires
                    n == p * (n as int / p as int) + (n as int % p as int),
                    x == n as int / p as int,
                    n as int % p as int >= 0,
            ;
            assert(p <= 0x200_0000_0000) by (nonlinear_arith)
                requires
                    p * x <= n,
                    x >= 0x20_0000_0000_0000,
                    n <= 0x4000_0000_0000_0000_0000_0000,
                    p >= 1,
            ;
            vstd::arithmetic::div_mod::lemma_div_denominator(n as int, p as int, 2);
            assert(power(2, (e + 1) as nat) == 2 * power(2, e as nat));
            if e >= 42 {
                lemma_power2_mono(42, e as nat);
                lemma_power2_small();
            }
        }
        x = x / 2;
        p = p * 2;
        e = e + 1;
    }
    if e == 0 {
        return n;
    }
    proof {
        vstd::arithmetic::div_mod::lemma_fundamental_div_mod(n as int, p as int);
        vstd::arithmetic::div_mod::lemma_mod_bound(n as int, p as int);
        assert(p * x <= n) by (nonlinear_arith)
            requires
                n == p * (n as int / p as int) + (n as int % p as int),
                x == n as int / p as int,
                n as int % p as int >= 0,
        ;
        assert(power(2, e as nat) == 2 * power(2, (e - 1) as nat));
        assert(x >= 1);
    }
    let q: u128 = x;
    let r: u128 = n - q * p;
    let half: u128 = p / 2;
    let rq: u128 = if r > half || (r == half && q % 2 == 1) { q + 1 } else { q };
    proof {
        assert(rq * p <= 2 * n) by (nonlinear_arith)
            requires
                rq <= q + 1,
                p * q <= n,
                q >= 1,
        ;
    }
    rq * p
}

/// `mid_shift(a, b, 0)` and `a * 2^t` for it.
fn shift_into_range(a: &Vec<u8>, b: &Vec<u8>) -> (r: (u32, Vec<u8>))
    requires
        bn_ok(a@),
        bn_ok(b@),
        !at_least_2_65(bn_val(a@), bn_val(b@)),
    ensures
        r.0 == mid_shift(bn_val(a@), bn_val(b@), 0),
        r.0 <= 107,
        bn_ok(r.1@),
        bn_val(r.1@) == bn_val(a@) * power(2, r.0 as nat),
        bn_val(r.1@) < power(2, 65) * bn_val(b@),
{
    let ghost av = bn_val(a@);
    let ghost bv = bn_val(b@);
    let b64 = bn_mul_pow2(b, 64);
    let mut at = bn_mul_small(a, 1);
    let mut t: u32 = 0;
    assert(bn_val(b64@) == power(2, 64) * bv) by (nonlinear_arith)
        requires
            bn_val(b64@) == bv * power(2, 64),
    ;
    proof {
        reveal_with_fuel(power, 1);
    }
    while t < 107 && bn_compare(&at, &b64) < 0
        invariant
            bn_ok(at@),
            bn_ok(b64@),
            t <= 107,
            bn_val(at@) == av * power(2, t as nat),
            bn_val(b64@) == power(2, 64) * bv,
            mid_shift(av, bv, t as nat) == mid_shift(av, bv, 0),
            av * power(2, t as nat) < power(2, 65) * bv,
        decreases 107 - t,
    {
        proof {
            assert(power(2, (t + 1) as nat) == 2 * power(2, t as nat));
            assert(power(2, 65) == 2 * power(2, 64));
            assert(av * power(2, (t + 1) as nat) == 2 * (av * power(2, t as nat))) by (nonlinear_arith)
                requires
                    power(2, (t + 1) as nat) == 2 * power(2, t as nat),
            ;
            assert(power(2, 65) * bv == 2 * (power(2, 64) * bv)) by (nonlinear_arith)
                requires
                    power(2, 65) == 2 * power(2, 64),
            ;
        }
        at = bn_mul_small(&at, 2);
        t = t + 1;
    }
    (t, at)
}

/// `x / (b * 2^12)` rounded to the nearest integer, ties to even, for
/// `x < 2^65 * b`: at most `2^53`.
fn rounded_significand(x: &Vec<u8>, b: &Vec<u8>) -> (m: u64)
    requires
        bn_ok(x@),
        bn_ok(b@),
        bn_val(b@) >= 1,
        bn_val(x@) < power(2, 65) * bn_val(b@),
    ensures
        m == div_round_even(bn_val(x@), bn_val(b@) * power(2, 12)),
        m <= 0x20_0000_0000_0000,
{
    let ghost bv = bn_val(b@);
    let ghost xv = bn_val(x@);
    let y = bn_mul_pow2(b, 12);
    let ghost yv = bv * power(2, 12);
    proof {
        lemma_power2_small();
        lemma_power2_add(12, 53);
        lemma_power2_add(53, 1);
        assert(power(2, 54) == 2 * power(2, 53)) by {
            reveal_with_fuel(power, 2);
        }
        assert(power(2, 65) * bv == yv * power(2, 53)) by (nonlinear_arith)
            requires
                power(2, 65) == power(2, 12) * power(2, 53),
                yv == bv * power(2, 12),
        ;
        assert(xv < yv * power(2, 54)) by (nonlinear_arith)
            requires
                xv < yv * power(2, 53),
                power(2, 54) == 2 * power(2, 53),
                yv >= 1,
        ;
        assert(yv >= 1) by (nonlinear_arith)
            requires
                bv >= 1,
                yv == bv * 4096,
        ;
    }
    let (q, rem) = bn_divmod(x, &y);
    proof {
        vstd::arithmetic::div_mod::lemma_fundamental_div_mod(xv as int, yv as int);
        vstd::arithmetic::div_mod::lemma_mod_bound(xv as int, yv as int);
        assert(q < 0x20_0000_0000_0000) by (nonlinear_arith)
            requires
                xv == yv * q + bn_val(rem@),
                bn_val(rem@) >= 0,
                xv < yv * 0x20_0000_0000_0000,
                yv > 0,
        ;
    }
    let two_rem = bn_mul_small(&rem, 2);
    let c = bn_compare(&two_rem, &y);
    if c > 0 || (c == 0 && q % 2 == 1) {
        q + 1
    } else {
        q
    }
}

fn whole_bytes_exec(w: u128, t: u32) -> (r: u128)
    requires
        w <= 0x8000_0000_0000_0000_0000_0000,
        t <= 107,
    ensures
        r == whole_bytes(w as nat, t as nat),
{
    if t <= 12 {
        let p = pow2_u128(12 - t);
        proof {
            lemma_power2_mono((12 - t) as nat, 12);
            lemma_power2_small();
            assert(w * p <= 0x8000_0000_0000_0000_0000_0000 * 4096) by (nonlinear_arith)
                requires
                    w <= 0x8000_0000_0000_0000_0000_0000,
                    p <= 4096,
            ;
        }
        w * p
    } else {
        let p = pow2_u128(t - 12);
        proof {
            lemma_power2_mono((t - 12) as nat, 95);
            lemma_power2_pos((t - 12) as nat);
            lemma_power2_small();
            assert(power(2, (t - 11) as nat) == 2 * power(2, (t - 12) as nat));
        }
        (2 * w + p) / (2 * p)
    }
}

/// The byte count of `mid_bytes` for a numerator and denominator in range.
pub(crate) fn mid_bytes_exec(a: &Vec<u8>, b: &Vec<u8>, scale: u64) -> (r: u128)
    requires
        bn_ok(a@),
        bn_ok(b@),
        bn_val(b@) >= 1,
        !at_least_2_65(bn_val(a@), bn_val(b@)),
        1 <= scale <= 0x100_0000_0000,
    ensures
        r == mid_bytes(bn_val(a@), bn_val(b@), scale as nat),
{
    let (t, at) = shift_into_range(a, b);
    let m = rounded_significand(&at, b);
    assert(m as u128 * scale as u128 <= 0x4000_0000_0000_0000_0000_0000) by (nonlinear_arith)
        requires
            m <= 0x20_0000_0000_0000,
            scale <= 0x100_0000_0000,
    ;
    let prod: u128 = m as u128 * scale as u128;
    let w = float_value_wide(prod);
    whole_bytes_exec(w, t)
}

} // verus!
