//! Laws of size parsing: what holds of `size_spec` for every input.

use vstd::prelude::*;
use crate::size::{
    all_digits, ascii_lower, bytes_result, digits_value, is_digit, lower_char, number_end, pow10, power,
    size_from_parts, size_spec, unit_scale,
};
use crate::decimal::{
    digit_run_end, finite_text, float_text, lemma_digit_run_end_bounds, mid_bytes, mid_shift,
    whole_bytes, FloatText,
};
use crate::output::{div_round_even, float_shift, float_value};
use crate::bignum::{lemma_power2_add, lemma_power2_pos};
use crate::text::{is_ws, token_end, trim, trim_end_len, ws_end};

verus! {

proof fn lemma_digit_not_ws(c: char)
    requires
        is_digit(c) || c == '.',
    ensures
        !is_ws(c),
{
}

proof fn lemma_lower_keeps_classes(c: char)
    ensures
        is_ws(lower_char(c)) == is_ws(c),
        is_digit(lower_char(c)) == is_digit(c),
        (lower_char(c) == '.') == (c == '.'),
        is_digit(c) || c == '.' ==> lower_char(c) == c,
        lower_char(lower_char(c)) == lower_char(c),
{
    let u = c as u32;
    if 65 <= u <= 90 {
        let l = (((u + 32) as u8) as char);
        assert(l as u32 == u + 32);
    }
}

/// `token_end` over a run of non-whitespace ending at `j`.
proof fn lemma_token_end_run(s: Seq<char>, i: int, j: int)
    requires
        0 <= i <= j <= s.len(),
        forall|k: int| i <= k < j ==> !is_ws(#[trigger] s[k]),
        j == s.len() || is_ws(s[j]),
    ensures
        token_end(s, i) == j,
    decreases j - i,
{
    if i < j {
        lemma_token_end_run(s, i + 1, j);
    }
}

/// `number_end` over a run of digits and dots ending at `j`.
proof fn lemma_number_end_run(s: Seq<char>, i: int, j: int)
    requires
        0 <= i <= j <= s.len(),
        forall|k: int| i <= k < j ==> is_digit(#[trigger] s[k]) || s[k] == '.',
        j == s.len() || !(is_digit(s[j]) || s[j] == '.'),
    ensures
        number_end(s, i) == j,
    decreases j - i,
{
    if i < j {
        lemma_number_end_run(s, i + 1, j);
    }
}

/// A string that neither starts nor ends with whitespace is its own trim.
proof fn lemma_trim_unchanged(s: Seq<char>)
    requires
        s.len() > 0,
        !is_ws(s[0]),
        !is_ws(s[s.len() - 1]),
    ensures
        trim(s) == s,
{
    assert(ws_end(s, 0) == 0);
    assert(trim_end_len(s, s.len() as int) == s.len());
    assert(s.subrange(0, s.len() as int) =~= s);
}

/// `x = p * 2^j` with `p < 2^53` drops no bits as an `f64`: the bits it drops
/// are zeros.
proof fn lemma_float_shift_exact(p: nat, j: nat)
    requires
        p < 0x20_0000_0000_0000,
    ensures
        float_shift(p * power(2, j)) <= j,
        (p * power(2, j)) % power(2, float_shift(p * power(2, j))) == 0,
    decreases j,
{
    let x = p * power(2, j);
    lemma_power2_pos(j);
    if x < 0x20_0000_0000_0000 {
        assert(float_shift(x) == 0);
        assert(power(2, 0) == 1);
        assert(x % 1 == 0);
    } else {
        if j == 0 {
            assert(power(2, 0) == 1);
            assert(x == p) by (nonlinear_arith)
                requires
                    x == p * power(2, j),
                    power(2, j) == 1,
            ;
        }
        assert(j >= 1);
        let y = p * power(2, (j - 1) as nat);
        assert(power(2, j) == 2 * power(2, (j - 1) as nat));
        assert(x == 2 * y) by (nonlinear_arith)
            requires
                x == p * power(2, j),
                y == p * power(2, (j - 1) as nat),
                power(2, j) == 2 * power(2, (j - 1) as nat),
        ;
        assert(x / 2 == y);
        lemma_float_shift_exact(p, (j - 1) as nat);
        let e = float_shift(y);
        assert(float_shift(x) == 1 + e);
        lemma_power2_pos(e);
        assert(power(2, e + 1) == 2 * power(2, e));
        vstd::arithmetic::div_mod::lemma_fundamental_div_mod(y as int, power(2, e) as int);
        let q = y / power(2, e);
        assert(x == (2 * power(2, e)) * q) by (nonlinear_arith)
            requires
                x == 2 * y,
                y == power(2, e) * q + y % power(2, e),
                y % power(2, e) == 0,
        ;
        vstd::arithmetic::div_mod::lemma_mod_multiples_basic(q as int, (2 * power(2, e)) as int);
        assert(x % power(2, e + 1) == 0) by (nonlinear_arith)
            requires
                x == (2 * power(2, e)) * q,
                power(2, e + 1) == 2 * power(2, e),
                (q * (2 * power(2, e))) % (2 * power(2, e)) == 0,
        ;
    }
}

/// A number of fewer than 54 significant bits is its own `f64`.
proof fn lemma_float_value_exact_below(p: nat, j: nat)
    requires
        p < 0x20_0000_0000_0000,
    ensures
        float_value(p * power(2, j)) == p * power(2, j),
{
    let x = p * power(2, j);
    lemma_float_shift_exact(p, j);
    let e = float_shift(x);
    if e > 0 {
        let pe = power(2, e);
        lemma_power2_pos(e);
        lemma_power2_pos((e - 1) as nat);
        assert(pe == 2 * power(2, (e - 1) as nat));
        vstd::arithmetic::div_mod::lemma_fundamental_div_mod(x as int, pe as int);
        let q = x / pe;
        assert(x % pe == 0);
        assert(q * pe == x) by (nonlinear_arith)
            requires
                x == pe * q + x % pe,
                x % pe == 0,
        ;
        assert(float_value(x) == q * pe);
    }
}

/// A number of at most 53 significant bits (`p <= 2^53`) is its own `f64`.
proof fn lemma_float_value_exact(p: nat, j: nat)
    requires
        p <= 0x20_0000_0000_0000,
    ensures
        float_value(p * power(2, j)) == p * power(2, j),
{
    if p < 0x20_0000_0000_0000 {
        lemma_float_value_exact_below(p, j);
    } else {
        crate::decimal::lemma_power2_small();
        assert(power(2, 53) == 2 * power(2, 52));
        lemma_power2_add(1, j);
        assert(power(2, 1) == 2) by {
            reveal_with_fuel(power, 2);
        }
        assert(p * power(2, j) == 0x10_0000_0000_0000 * power(2, j + 1)) by (nonlinear_arith)
            requires
                p == 0x20_0000_0000_0000,
                power(2, 1 + j) == 2 * power(2, j),
        ;
        lemma_float_value_exact_below(0x10_0000_0000_0000, j + 1);
    }
}

/// `mid_shift` from `t0` stops at 11 when `a / b * 2^10 < 2^64 <= a / b * 2^11`.
proof fn lemma_mid_shift_is_11(a: nat, b: nat, t0: nat)
    requires
        t0 <= 11,
        a * power(2, 10) < power(2, 64) * b,
        a * power(2, 11) >= power(2, 64) * b,
    ensures
        mid_shift(a, b, t0) == 11,
    decreases 11 - t0,
{
    if t0 < 11 {
        crate::decimal::lemma_power2_mono(t0, 10);
        assert(a * power(2, t0) <= a * power(2, 10)) by (nonlinear_arith)
            requires
                power(2, t0) <= power(2, 10),
        ;
        lemma_mid_shift_is_11(a, b, t0 + 1);
    }
}

/// `2^53` bytes, the largest whole number below which all are exact, comes
/// out of the float arithmetic unchanged.
proof fn lemma_mid_bytes_top()
    ensures
        mid_bytes(0x20_0000_0000_0000, 1, 1) == 0x20_0000_0000_0000,
{
    let n: nat = 0x20_0000_0000_0000;
    crate::decimal::lemma_power2_small();
    assert(power(2, 11) == 2 * power(2, 10));
    assert(power(2, 1) == 2) by {
        reveal_with_fuel(power, 2);
    }
    lemma_mid_shift_is_11(n, 1, 0);
    assert(n * power(2, 11) == 0x1_0000_0000_0000_0000);
    assert(1 * power(2, 12) == 4096);
    vstd::arithmetic::div_mod::lemma_fundamental_div_mod_converse(
        0x1_0000_0000_0000_0000,
        4096,
        0x10_0000_0000_0000,
        0,
    );
    assert(div_round_even(n * power(2, 11), 1 * power(2, 12)) == 0x10_0000_0000_0000);
    assert(power(2, 0) == 1);
    lemma_float_value_exact(0x10_0000_0000_0000, 0);
    assert(0x10_0000_0000_0000 * power(2, 0) == 0x10_0000_0000_0000);
    assert(float_value(0x10_0000_0000_0000 * 1) == 0x10_0000_0000_0000);
    assert(whole_bytes(0x10_0000_0000_0000, 11) == 0x10_0000_0000_0000 * power(2, 1));
}

/// `mid_shift` from `t0` reaches at least 12 when `a / b * 2^11 < 2^64`.
proof fn lemma_mid_shift_at_least_12(a: nat, b: nat, t0: nat)
    requires
        t0 <= 12,
        a * power(2, 11) < power(2, 64) * b,
    ensures
        12 <= mid_shift(a, b, t0) <= 107,
    decreases 12 - t0,
{
    if t0 < 12 {
        crate::decimal::lemma_power2_mono(t0, 11);
        assert(a * power(2, t0) <= a * power(2, 11)) by (nonlinear_arith)
            requires
                power(2, t0) <= power(2, 11),
        ;
        lemma_mid_shift_at_least_12(a, b, t0 + 1);
    } else {
        lemma_mid_shift_le(a, b, t0);
    }
}

proof fn lemma_mid_shift_le(a: nat, b: nat, t0: nat)
    requires
        t0 <= 107,
    ensures
        t0 <= mid_shift(a, b, t0) <= 107,
    decreases 107 - t0,
{
    if t0 < 107 && a * power(2, t0) < power(2, 64) * b {
        lemma_mid_shift_le(a, b, t0 + 1);
    }
}

/// A whole number of bytes below `2^53` comes out of the float arithmetic
/// unchanged.
proof fn lemma_mid_bytes_exact(n: nat, scale: nat)
    requires
        n >= 1,
        scale >= 1,
        n * scale <= 0x20_0000_0000_0000,
    ensures
        mid_bytes(n, 1, scale) == n * scale,
{
    if n == 0x20_0000_0000_0000 {
        assert(scale == 1) by (nonlinear_arith)
            requires
                n * scale <= 0x20_0000_0000_0000,
                n == 0x20_0000_0000_0000,
                scale >= 1,
        ;
        lemma_mid_bytes_top();
        assert(n * scale == n);
        return;
    }
    crate::decimal::lemma_power2_small();
    lemma_power2_add(53, 11);
    assert(n < 0x20_0000_0000_0000) by (nonlinear_arith)
        requires
            n * scale <= 0x20_0000_0000_0000,
            scale >= 1,
            n != 0x20_0000_0000_0000,
    ;
    assert(n * power(2, 11) < power(2, 64) * 1) by (nonlinear_arith)
        requires
            n < 0x20_0000_0000_0000,
            power(2, 11) == 2048,
            power(2, 64) == 0x1_0000_0000_0000_0000,
    ;
    lemma_mid_shift_at_least_12(n, 1, 0);
    let t = mid_shift(n, 1, 0);
    let j = (t - 12) as nat;
    lemma_power2_add(j, 12);
    lemma_power2_pos(j);
    let q = n * power(2, j);
    assert(n * power(2, t) == q * power(2, 12)) by (nonlinear_arith)
        requires
            power(2, t) == power(2, j) * power(2, 12),
            q == n * power(2, j),
    ;
    assert(1 * power(2, 12) == 4096);
    vstd::arithmetic::div_mod::lemma_div_multiples_vanish(q as int, 4096);
    vstd::arithmetic::div_mod::lemma_mod_multiples_basic(q as int, 4096);
    assert(div_round_even(n * power(2, t), 1 * power(2, 12)) == q);
    let pj = n * scale;
    assert(q * scale == pj * power(2, j)) by (nonlinear_arith)
        requires
            q == n * power(2, j),
            pj == n * scale,
    ;
    lemma_float_value_exact(pj, j);
    let w = pj * power(2, j);
    if t > 12 {
        let d = power(2, j);
        assert(power(2, (t - 11) as nat) == 2 * d);
        assert(2 * w + d == pj * (2 * d) + d) by (nonlinear_arith)
            requires
                w == pj * d,
        ;
        vstd::arithmetic::div_mod::lemma_fundamental_div_mod_converse(
            (2 * w + d) as int,
            (2 * d) as int,
            pj as int,
            d as int,
        );
        assert(whole_bytes(w, t) == pj);
    } else {
        assert(j == 0);
        assert(power(2, 0) == 1);
        assert(w == pj) by (nonlinear_arith)
            requires
                w == pj * power(2, j),
                power(2, j) == 1,
        ;
        assert(whole_bytes(w, t) == pj);
    }
}

proof fn lemma_lower_all_digits(s: Seq<char>)
    requires
        all_digits(s),
    ensures
        ascii_lower(s) == s,
{
    assert forall|k: int| 0 <= k < s.len() implies #[trigger] ascii_lower(s)[k] == s[k] by {
        lemma_lower_keeps_classes(s[k]);
    }
    assert(ascii_lower(s) =~= s);
}

/// Digits alone are read by the float parser as themselves, unscaled.
proof fn lemma_digits_float_text(num: Seq<char>)
    requires
        num.len() > 0,
        all_digits(num),
    ensures
        float_text(num) == Some(FloatText::Finite(false, num, 0)),
{
    lemma_lower_all_digits(num);
    let l = ascii_lower(num);
    assert(is_digit(l[0]));
    assert(l.skip(0) =~= l);
    if l == seq!['i', 'n', 'f'] || l == seq!['i', 'n', 'f', 'i', 'n', 'i', 't', 'y'] {
        assert(l[0] == 'i');
    }
    if l == seq!['n', 'a', 'n'] {
        assert(l[0] == 'n');
    }
    lemma_digit_run_end_bounds(l, 0);
    let i1 = digit_run_end(l, 0);
    if i1 < l.len() {
        assert(is_digit(l[i1]));
    }
    assert(l.subrange(0, i1) + Seq::<char>::empty() =~= num);
    assert(finite_text(l, 0, false) == Some(FloatText::Finite(false, num, 0)));
}

/// Every unit is between one byte and `2^40` bytes.
proof fn lemma_unit_scale_bounds(u: Seq<char>)
    ensures
        unit_scale(u) matches Some(s) ==> 1 <= s <= 0x100_0000_0000,
{
    reveal_with_fuel(power, 5);
}

/// A whole number of a unit whose byte count stays below `2^53` (where every
/// whole number is exact in an `f64`) reads as exactly that many bytes.
pub proof fn lemma_whole_units(num: Seq<char>, unit: Seq<char>, scale: nat)
    requires
        num.len() > 0,
        all_digits(num),
        unit_scale(ascii_lower(trim(unit))) == Some(scale),
        digits_value(num) * scale <= 0x20_0000_0000_0000,
    ensures
        size_from_parts(num, unit) == Ok::<u64, Seq<char>>((digits_value(num) * scale) as u64),
{
    lemma_digits_float_text(num);
    lemma_unit_scale_bounds(ascii_lower(trim(unit)));
    crate::decimal::lemma_threshold_bounds();
    crate::decimal::lemma_power2_small();
    lemma_power2_pos(970);
    lemma_power2_pos(43);
    let n = digits_value(num);
    assert(pow10(0) == 1);
    assert(n * pow10(0) == n);
    let t = (power(2, 54) - 1) * power(2, 970);
    assert(t >= power(2, 54) - 1) by (nonlinear_arith)
        requires
            t == (power(2, 54) - 1) * power(2, 970),
            power(2, 970) >= 1,
            power(2, 54) >= 1,
    ;
    assert(n <= 0x20_0000_0000_0000) by (nonlinear_arith)
        requires
            n * scale <= 0x20_0000_0000_0000,
            scale >= 1,
    ;
    assert(t * 1 == t);
    if n == 0 {
        assert(bytes_result(0, 1, scale) == Ok::<u64, Seq<char>>(0));
        assert(n * scale == 0) by (nonlinear_arith)
            requires
                n == 0,
        ;
    } else {
        assert(n * power(2, 43) >= 1) by (nonlinear_arith)
            requires
                n >= 1,
                power(2, 43) >= 1,
        ;
        lemma_mid_bytes_exact(n, scale);
        assert(bytes_result(n, 1, scale) == Ok::<u64, Seq<char>>((n * scale) as u64));
    }
}

/// A plain number below `2^53` is that many bytes.
pub proof fn lemma_plain_number_is_bytes(s: Seq<char>)
    requires
        s.len() > 0,
        all_digits(s),
        digits_value(s) <= 0x20_0000_0000_0000,
    ensures
        size_spec(s) == Ok::<u64, Seq<char>>(digits_value(s) as u64),
{
    assert forall|k: int| 0 <= k < s.len() implies !is_ws(#[trigger] s[k]) by {
        lemma_digit_not_ws(s[k]);
    }
    lemma_trim_unchanged(s);
    let n = s.len() as int;
    lemma_token_end_run(s, 0, n);
    assert(s.take(n) =~= s);
    lemma_number_end_run(s, 0, n);
    assert(s.skip(n) =~= Seq::<char>::empty());
    let unit = Seq::<char>::empty();
    assert(trim(unit) =~= unit);
    assert(ascii_lower(unit) =~= unit);
    assert(unit_scale(unit) == Some(1nat));
    assert(digits_value(s) * 1 == digits_value(s));
    lemma_whole_units(s, unit, 1);
}

/// A number followed directly by its unit reads as the same size as the
/// number, a space, and the unit.
pub proof fn lemma_glued_equals_spaced(num: Seq<char>, unit: Seq<char>)
    requires
        num.len() > 0,
        forall|k: int| 0 <= k < num.len() ==> is_digit(#[trigger] num[k]) || num[k] == '.',
        unit.len() > 0,
        !is_digit(unit[0]) && unit[0] != '.',
        forall|k: int| 0 <= k < unit.len() ==> !is_ws(#[trigger] unit[k]),
    ensures
        size_spec(num + unit) == size_spec(num + seq![' '] + unit),
        size_spec(num + unit) == size_from_parts(num, unit),
{
    let g = num + unit;
    let sp = num + seq![' '] + unit;
    let a = num.len() as int;
    assert forall|k: int| 0 <= k < num.len() implies !is_ws(#[trigger] num[k]) by {
        lemma_digit_not_ws(num[k]);
    }
    // glued: one word, split where the number ends
    assert(g[0] == num[0]);
    assert(g[g.len() - 1] == unit[unit.len() - 1]);
    lemma_trim_unchanged(g);
    assert forall|k: int| 0 <= k < g.len() implies !is_ws(#[trigger] g[k]) by {
        if k < a {
            assert(g[k] == num[k]);
        } else {
            assert(g[k] == unit[k - a]);
        }
    }
    lemma_token_end_run(g, 0, g.len() as int);
    assert(g.take(g.len() as int) =~= g);
    assert forall|k: int| 0 <= k < a implies is_digit(#[trigger] g[k]) || g[k] == '.' by {
        assert(g[k] == num[k]);
    }
    assert(g[a] == unit[0]);
    lemma_number_end_run(g, 0, a);
    assert(g.take(a) =~= num);
    assert(g.skip(a) =~= unit);
    // spaced: two words
    assert(sp[0] == num[0]);
    assert(sp[sp.len() - 1] == unit[unit.len() - 1]);
    lemma_trim_unchanged(sp);
    assert forall|k: int| 0 <= k < a implies !is_ws(#[trigger] sp[k]) by {
        assert(sp[k] == num[k]);
    }
    assert(sp[a] == ' ');
    assert(is_ws(' '));
    lemma_token_end_run(sp, 0, a);
    assert(sp[a + 1] == unit[0]);
    assert(ws_end(sp, a + 1) == a + 1);
    assert(ws_end(sp, a) == a + 1);
    assert forall|k: int| a + 1 <= k < sp.len() implies !is_ws(#[trigger] sp[k]) by {
        assert(sp[k] == unit[k - a - 1]);
    }
    lemma_token_end_run(sp, a + 1, sp.len() as int);
    assert(ws_end(sp, sp.len() as int) == sp.len());
    assert(sp.take(a) =~= num);
    assert(sp.subrange(a + 1, sp.len() as int) =~= unit);
}

proof fn lemma_lower_positions(s: Seq<char>, i: int)
    requires
        0 <= i <= s.len(),
    ensures
        ws_end(ascii_lower(s), i) == ws_end(s, i),
        token_end(ascii_lower(s), i) == token_end(s, i),
        number_end(ascii_lower(s), i) == number_end(s, i),
    decreases s.len() - i,
{
    if i < s.len() {
        lemma_lower_keeps_classes(s[i]);
        assert(ascii_lower(s)[i] == lower_char(s[i]));
        lemma_lower_positions(s, i + 1);
    }
}

proof fn lemma_lower_trim_end(s: Seq<char>, j: int)
    requires
        0 <= j <= s.len(),
    ensures
        trim_end_len(ascii_lower(s), j) == trim_end_len(s, j),
    decreases j,
{
    if j > 0 {
        lemma_lower_keeps_classes(s[j - 1]);
        assert(ascii_lower(s)[j - 1] == lower_char(s[j - 1]));
        lemma_lower_trim_end(s, j - 1);
    }
}

proof fn lemma_lower_trim(s: Seq<char>)
    ensures
        trim(ascii_lower(s)) == ascii_lower(trim(s)),
{
    lemma_lower_positions(s, 0);
    lemma_lower_trim_end(s, s.len() as int);
    crate::text::lemma_ws_end_bounds(s, 0);
    crate::text::lemma_trim_end_bounds(s, s.len() as int);
    let a = ws_end(s, 0);
    if a < s.len() {
        let b = trim_end_len(s, s.len() as int);
        if b <= a {
            assert(is_ws(s[a]));
        }
        assert(ascii_lower(s).subrange(a, b) =~= ascii_lower(s.subrange(a, b)));
    } else {
        assert(ascii_lower(Seq::<char>::empty()) =~= Seq::<char>::empty());
    }
}

proof fn lemma_lower_idempotent(s: Seq<char>)
    ensures
        ascii_lower(ascii_lower(s)) == ascii_lower(s),
{
    assert forall|k: int| 0 <= k < s.len() implies #[trigger] ascii_lower(ascii_lower(s))[k]
        == ascii_lower(s)[k] by {
        lemma_lower_keeps_classes(s[k]);
    }
    assert(ascii_lower(ascii_lower(s)) =~= ascii_lower(s));
}

proof fn lemma_lower_parts(num: Seq<char>, unit: Seq<char>)
    ensures
        size_from_parts(num, unit) is Ok <==> size_from_parts(ascii_lower(num), ascii_lower(unit)) is Ok,
        size_from_parts(num, unit) is Ok ==> size_from_parts(num, unit) == size_from_parts(
            ascii_lower(num),
            ascii_lower(unit),
        ),
{
    lemma_lower_idempotent(num);
    lemma_lower_trim(unit);
    lemma_lower_idempotent(trim(unit));
}

/// Units are read regardless of case: `s` and `s` with ASCII letters in lower
/// case are both read as sizes or both rejected, and when read, as the same size.
pub proof fn lemma_size_ignores_case(s: Seq<char>)
    ensures
        size_spec(s) is Ok <==> size_spec(ascii_lower(s)) is Ok,
        size_spec(s) is Ok ==> size_spec(s) == size_spec(ascii_lower(s)),
{
    let ls = ascii_lower(s);
    let t = trim(s);
    lemma_lower_trim(s);
    let lt = trim(ls);
    assert(lt == ascii_lower(t));
    if t.len() > 0 {
        lemma_lower_positions(t, 0);
        crate::text::lemma_token_end_bounds(t, 0);
        let e1 = token_end(t, 0);
        lemma_lower_positions(t, e1);
        crate::text::lemma_ws_end_bounds(t, e1);
        let r = ws_end(t, e1);
        if r >= t.len() {
            let first = t.take(e1);
            assert(lt.take(e1) =~= ascii_lower(first));
            lemma_lower_positions(first, 0);
            crate::size::lemma_number_end_bounds_pub(first);
            let k = number_end(first, 0);
            assert(ascii_lower(first).take(k) =~= ascii_lower(first.take(k)));
            assert(ascii_lower(first).skip(k) =~= ascii_lower(first.skip(k)));
            lemma_lower_parts(first.take(k), first.skip(k));
        } else {
            crate::text::lemma_token_end_bounds(t, r);
            let e2 = token_end(t, r);
            lemma_lower_positions(t, r);
            lemma_lower_positions(t, e2);
            assert(lt.take(e1) =~= ascii_lower(t.take(e1)));
            assert(lt.subrange(r, e2) =~= ascii_lower(t.subrange(r, e2)));
            lemma_lower_parts(t.take(e1), t.subrange(r, e2));
        }
    }
}


pub open spec fn upper_char(c: char) -> char {
    if 97 <= (c as u32) <= 122 {
        (((c as u32) - 32) as u8) as char
    } else {
        c
    }
}

/// `s` with ASCII lower-case letters turned to upper case.
pub open spec fn ascii_upper(s: Seq<char>) -> Seq<char> {
    s.map_values(|c: char| upper_char(c))
}

/// Inputs that differ only in the case of ASCII letters are both read as sizes
/// or both rejected, and when read, as the same size.
pub proof fn lemma_size_case_insensitive(s: Seq<char>, t: Seq<char>)
    requires
        ascii_lower(s) == ascii_lower(t),
    ensures
        size_spec(s) is Ok <==> size_spec(t) is Ok,
        size_spec(s) is Ok ==> size_spec(s) == size_spec(t),
{
    lemma_size_ignores_case(s);
    lemma_size_ignores_case(t);
}

/// Upper-casing the letters of an input does not change how it reads.
pub proof fn lemma_size_ignores_upper_case(s: Seq<char>)
    ensures
        size_spec(s) is Ok <==> size_spec(ascii_upper(s)) is Ok,
        size_spec(s) is Ok ==> size_spec(s) == size_spec(ascii_upper(s)),
{
    assert forall|k: int| 0 <= k < s.len() implies #[trigger] ascii_lower(ascii_upper(s))[k]
        == ascii_lower(s)[k] by {
        let c = s[k];
        let u = c as u32;
        if 97 <= u <= 122 {
            let up = (((u - 32) as u8) as char);
            assert(up as u32 == u - 32);
            assert(upper_char(c) == up);
            assert(lower_char(up) as u32 == u);
            vstd::utf8::char_u32_cast(c, u);
            assert(lower_char(up) == c) by {
                vstd::utf8::char_u32_cast(lower_char(up), u);
            }
        }
    }
    assert(ascii_lower(ascii_upper(s)) =~= ascii_lower(s));
    lemma_size_case_insensitive(s, ascii_upper(s));
}

} // verus!
