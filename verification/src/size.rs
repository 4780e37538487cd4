//! Parsing of human-written sizes such as `4096`, `1KiB`, `1 MiB` or `2 mb`.

use vstd::prelude::*;
use crate::decimal::{
    classify, exponent_of, float_text, mid_bytes, mid_bytes_exec, parse_float_word, scaled_den,
    scaled_num, at_least_2_65, below_half_byte, rounds_to_infinity, rounds_to_zero, FloatText,
    FloatWord, Magnitude,
};
use crate::text::{
    push_str, slice_chars, string_from_chars, token_end, token_end_exec, trim, trim_chars, ws_end,
    ws_end_exec, lemma_token_end_bounds, lemma_ws_end_bounds,
};

verus! {

/// `10` to the power `k`.
pub open spec fn pow10(k: nat) -> nat
    decreases k,
{
    if k == 0 {
        1
    } else {
        10 * pow10((k - 1) as nat)
    }
}

pub open spec fn is_digit(c: char) -> bool {
    48 <= (c as u32) <= 57
}

pub open spec fn digit_of(c: char) -> nat {
    ((c as u32) - 48) as nat
}

pub open spec fn all_digits(s: Seq<char>) -> bool {
    forall|i: int| 0 <= i < s.len() ==> is_digit(#[trigger] s[i])
}

/// The number written by the decimal digits `s` (0 for no digits).
pub open spec fn digits_value(s: Seq<char>) -> nat
    decreases s.len(),
{
    if s.len() == 0 {
        0
    } else {
        digits_value(s.drop_last()) * 10 + digit_of(s.last())
    }
}

/// The first index at or after `i` holding neither a digit nor a `.` (or the length).
pub open spec fn number_end(s: Seq<char>, i: int) -> int
    decreases s.len() - i,
{
    if i < 0 || i >= s.len() {
        s.len() as int
    } else if !(is_digit(s[i]) || s[i] == '.') {
        i
    } else {
        number_end(s, i + 1)
    }
}

pub open spec fn letter_exponent(c: char) -> Option<nat> {
    if c == 'k' {
        Some(1)
    } else if c == 'm' {
        Some(2)
    } else if c == 'g' {
        Some(3)
    } else if c == 't' {
        Some(4)
    } else {
        None
    }
}

pub open spec fn power(b: nat, e: nat) -> nat
    decreases e,
{
    if e == 0 {
        1
    } else {
        b * power(b, (e - 1) as nat)
    }
}

/// The number of bytes in one of the (lower-case) unit `u`: `` and `b` are bytes,
/// `k`/`kb`, `m`/`mb`, `g`/`gb`, `t`/`tb` are powers of 1000 and
/// `kib`, `mib`, `gib`, `tib` are powers of 1024.
pub open spec fn unit_scale(u: Seq<char>) -> Option<nat> {
    if u.len() == 0 || (u.len() == 1 && u[0] == 'b') {
        Some(1)
    } else if u.len() == 1 || (u.len() == 2 && u[1] == 'b') {
        match letter_exponent(u[0]) {
            Some(e) => Some(power(1000, e)),
            None => None,
        }
    } else if u.len() == 3 && u[1] == 'i' && u[2] == 'b' {
        match letter_exponent(u[0]) {
            Some(e) => Some(power(1024, e)),
            None => None,
        }
    } else {
        None
    }
}

pub open spec fn lower_char(c: char) -> char {
    if 65 <= (c as u32) <= 90 {
        (((c as u32) + 32) as u8) as char
    } else {
        c
    }
}

/// `s` with ASCII upper-case letters turned to lower case.
pub open spec fn ascii_lower(s: Seq<char>) -> Seq<char> {
    s.map_values(|c: char| lower_char(c))
}

/// The size written as the number `num` followed by the unit `unit`, as the
/// float arithmetic computes it: `num` is read by Rust's `f64` parser (see
/// `float_text`) and rounded to the nearest `f64`; a number that is not one, is
/// infinite or is negative (other than a negative zero) is refused; then the
/// unit is looked up, case-insensitively; the value times the unit's byte count
/// is rounded to an `f64`, then to a whole number of bytes, halves away from zero.
pub open spec fn size_from_parts(num: Seq<char>, unit: Seq<char>) -> Result<u64, Seq<char>> {
    match float_text(num) {
        None => Err("invalid number: "@ + num),
        Some(FloatText::Finite(negative, mant, k)) => {
            let a = scaled_num(mant, k);
            let b = scaled_den(k);
            if rounds_to_infinity(a, b) || (negative && !rounds_to_zero(a, b)) {
                Err("invalid number"@)
            } else {
                match unit_scale(ascii_lower(trim(unit))) {
                    None => Err("unknown unit: "@ + unit),
                    Some(scale) => bytes_result(a, b, scale),
                }
            }
        },
        Some(_) => Err("invalid number"@),
    }
}

/// The byte count for the finite, non-negative number `a / b` in a unit of
/// `scale` bytes: `0` below half a byte; `"size overflow"` above `2^64` (so
/// always from `2^65` on); exactly `2^64` saturates to `u64::MAX`.
pub open spec fn bytes_result(a: nat, b: nat, scale: nat) -> Result<u64, Seq<char>> {
    if below_half_byte(a, b) {
        Ok(0)
    } else if at_least_2_65(a, b) {
        Err("size overflow"@)
    } else {
        let r = mid_bytes(a, b, scale);
        if r > 0x1_0000_0000_0000_0000 {
            Err("size overflow"@)
        } else if r == 0x1_0000_0000_0000_0000 {
            Ok(u64::MAX)
        } else {
            Ok(r as u64)
        }
    }
}

/// The result of reading `s` as a size: surrounding whitespace is ignored; the
/// rest is either one word (a number directly followed by a unit) or two words
/// (a number, whitespace, a unit).
pub open spec fn size_spec(s: Seq<char>) -> Result<u64, Seq<char>> {
    let t = trim(s);
    if t.len() == 0 {
        Err("size is empty"@)
    } else {
        let e1 = token_end(t, 0);
        let r = ws_end(t, e1);
        if r >= t.len() {
            let first = t.take(e1);
            let k = number_end(first, 0);
            size_from_parts(first.take(k), first.skip(k))
        } else {
            let e2 = token_end(t, r);
            if ws_end(t, e2) < t.len() {
                Err("invalid size"@)
            } else {
                size_from_parts(t.take(e1), t.subrange(r, e2))
            }
        }
    }
}

/// The view of a result whose error is a `String`.
pub open spec fn result_view(r: Result<u64, String>) -> Result<u64, Seq<char>> {
    match r {
        Ok(v) => Ok(v),
        Err(e) => Err(e@),
    }
}

pub proof fn lemma_digits_value_concat(a: Seq<char>, b: Seq<char>)
    ensures
        digits_value(a + b) == digits_value(a) * pow10(b.len()) + digits_value(b),
    decreases b.len(),
{
    if b.len() == 0 {
        assert(a + b =~= a);
        assert(digits_value(b) == 0);
        assert(pow10(0) == 1);
    } else {
        let bl = b.drop_last();
        lemma_digits_value_concat(a, bl);
        assert(digits_value(b) == digits_value(bl) * 10 + digit_of(b.last()));
        assert((a + b).drop_last() =~= a + bl);
        assert((a + b).last() == b.last());
        assert((a + b).len() > 0);
        assert(digits_value(a + b) == digits_value(a + bl) * 10 + digit_of(b.last()));
        let p = pow10(bl.len());
        assert(pow10(b.len()) == 10 * p);
        assert((digits_value(a) * p + digits_value(bl)) * 10 + digit_of(b.last())
            == digits_value(a) * (10 * p) + (digits_value(bl) * 10 + digit_of(b.last())))
            by (nonlinear_arith);
    }
}

/// Digits are fewer than ten to their count.
pub proof fn lemma_digits_value_bound(s: Seq<char>)
    requires
        all_digits(s),
    ensures
        digits_value(s) < pow10(s.len()),
    decreases s.len(),
{
    if s.len() > 0 {
        let p = s.drop_last();
        assert(all_digits(p)) by {
            assert forall|i: int| 0 <= i < p.len() implies is_digit(#[trigger] p[i]) by {
                assert(p[i] == s[i]);
            }
        }
        lemma_digits_value_bound(p);
        assert(is_digit(s[s.len() - 1]));
        let k = p.len();
        assert(pow10(s.len()) == 10 * pow10(k));
        assert(digits_value(p) * 10 + digit_of(s.last()) < 10 * pow10(k)) by (nonlinear_arith)
            requires
                digits_value(p) < pow10(k),
                digit_of(s.last()) < 10,
        ;
    }
}

pub proof fn lemma_number_end_bounds_pub(s: Seq<char>)
    ensures
        0 <= number_end(s, 0) <= s.len(),
{
    lemma_number_end_bounds(s, 0);
}

fn is_digit_exec(c: char) -> (b: bool)
    ensures
        b == is_digit(c),
{
    let u = c as u32;
    48 <= u && u <= 57
}

fn number_end_exec(v: &Vec<char>) -> (r: usize)
    ensures
        r == number_end(v@, 0),
{
    let mut k: usize = 0;
    while k < v.len() && (is_digit_exec(v[k]) || v[k] == '.')
        invariant
            k <= v.len(),
            number_end(v@, 0) == number_end(v@, k as int),
        decreases v.len() - k,
    {
        k = k + 1;
    }
    k
}

proof fn lemma_number_end_bounds(s: Seq<char>, i: int)
    requires
        0 <= i <= s.len(),
    ensures
        i <= number_end(s, i) <= s.len(),
    decreases s.len() - i,
{
    if i < s.len() && (is_digit(s[i]) || s[i] == '.') {
        lemma_number_end_bounds(s, i + 1);
    }
}

pub fn lower_chars(v: &Vec<char>) -> (r: Vec<char>)
    ensures
        r@ == ascii_lower(v@),
{
    let mut r: Vec<char> = Vec::new();
    let mut k: usize = 0;
    while k < v.len()
        invariant
            k <= v.len(),
            r@ =~= ascii_lower(v@.take(k as int)),
        decreases v.len() - k,
    {
        let c = v[k];
        let u = c as u32;
        let l = if 65 <= u && u <= 90 { ((u + 32) as u8) as char } else { c };
        r.push(l);
        k = k + 1;
        assert(v@.take(k as int) =~= v@.take(k - 1).push(c));
    }
    assert(v@.take(v.len() as int) =~= v@);
    r
}

fn letter_exponent_exec(c: char) -> (r: Option<u32>)
    ensures
        match r {
            Some(e) => letter_exponent(c) == Some(e as nat) && 1 <= e <= 4,
            None => letter_exponent(c) is None,
        },
{
    if c == 'k' {
        Some(1)
    } else if c == 'm' {
        Some(2)
    } else if c == 'g' {
        Some(3)
    } else if c == 't' {
        Some(4)
    } else {
        None
    }
}

fn power_exec(b: u64, e: u32) -> (r: u64)
    requires
        b == 1000 || b == 1024,
        e <= 4,
    ensures
        r == power(b as nat, e as nat),
        1 <= r <= 0x100_0000_0000,
{
    proof {
        reveal_with_fuel(power, 5);
    }
    if e == 0 {
        1
    } else if e == 1 {
        b
    } else if e == 2 {
        b * b
    } else if e == 3 {
        b * b * b
    } else {
        b * b * b * b
    }
}

fn unit_scale_exec(u: &Vec<char>) -> (r: Option<u64>)
    ensures
        match r {
            Some(x) => unit_scale(u@) == Some(x as nat) && 1 <= x <= 0x100_0000_0000,
            None => unit_scale(u@) is None,
        },
{
    proof {
        reveal_with_fuel(power, 1);
    }
    let n = u.len();
    if n == 0 || (n == 1 && u[0] == 'b') {
        Some(1)
    } else if n == 1 || (n == 2 && u[1] == 'b') {
        match letter_exponent_exec(u[0]) {
            Some(e) => Some(power_exec(1000, e)),
            None => None,
        }
    } else if n == 3 && u[1] == 'i' && u[2] == 'b' {
        match letter_exponent_exec(u[0]) {
            Some(e) => Some(power_exec(1024, e)),
            None => None,
        }
    } else {
        None
    }
}

/// `prefix` followed by the characters `v`.
fn message_with(prefix: &str, v: &Vec<char>) -> (s: String)
    ensures
        s@ == prefix@ + v@,
{
    let mut s = String::from_str(prefix);
    let tail = string_from_chars(v);
    push_str(&mut s, tail.as_str());
    s
}

fn size_from_parts_exec(num: &Vec<char>, unit: &Vec<char>) -> (r: Result<u64, String>)
    requires
        num@.len() <= isize::MAX,
    ensures
        result_view(r) == size_from_parts(num@, unit@),
{
    let word = parse_float_word(num);
    match word {
        None => Err(message_with("invalid number: ", num)),
        Some(FloatWord::Finite { negative, mantissa, frac_len, exp_negative, exp_digits }) => {
            let ghost k = exponent_of(exp_negative, exp_digits@, frac_len as nat);
            let (g, a, b) = classify(&mantissa, frac_len, exp_negative, &exp_digits);
            let refused = match g {
                Magnitude::Infinite => true,
                Magnitude::Zero => false,
                _ => negative,
            };
            if refused {
                return Err(String::from_str("invalid number"));
            }
            let lowered = lower_chars(&trim_chars(unit));
            match unit_scale_exec(&lowered) {
                None => Err(message_with("unknown unit: ", unit)),
                Some(scale) => match g {
                    Magnitude::InRange => {
                        proof {
                            crate::bignum::lemma_pow10_pos(if k < 0 { (-k) as nat } else { 0 });
                        }
                        let r = mid_bytes_exec(&a, &b, scale);
                        if r > 0x1_0000_0000_0000_0000 {
                            Err(String::from_str("size overflow"))
                        } else if r == 0x1_0000_0000_0000_0000 {
                            Ok(u64::MAX)
                        } else {
                            Ok(r as u64)
                        }
                    },
                    Magnitude::Excessive => Err(String::from_str("size overflow")),
                    _ => Ok(0),
                },
            }
        },
        Some(_) => Err(String::from_str("invalid number")),
    }
}

/// Reads a size in bytes: a plain number of bytes (`4096`), or a number followed,
/// directly or after whitespace, by a unit (`1KiB`, `1 MiB`, `2 mb`). Units are
/// case-insensitive: `b`; `k`/`kb`, `m`/`mb`, `g`/`gb`, `t`/`tb` (powers of 1000);
/// `kib`, `mib`, `gib`, `tib` (powers of 1024). The number is read as an `f64`
/// (so `1e3`, `+1`, `0.5` are numbers) and must be finite and not negative; it
/// is multiplied by the unit in `f64` and rounded to the nearest byte, halves away
/// from zero; a result above `2^64` is an overflow, exactly `2^64` gives
/// `u64::MAX`. No string is longer than `isize::MAX` characters.
pub fn parse_size_bytes(s: &str) -> (r: Result<u64, String>)
    requires
        s@.len() <= isize::MAX,
    ensures
        result_view(r) == size_spec(s@),
{
    let chars = crate::text::chars_of(s);
    let t = trim_chars(&chars);
    proof {
        lemma_ws_end_bounds(chars@, 0);
        crate::text::lemma_trim_end_bounds(chars@, chars@.len() as int);
        assert(t@.len() <= s@.len());
    }
    if t.len() == 0 {
        return Err(String::from_str("size is empty"));
    }
    let e1 = token_end_exec(&t, 0);
    let r = ws_end_exec(&t, e1);
    proof {
        lemma_token_end_bounds(t@, 0);
        lemma_ws_end_bounds(t@, e1 as int);
    }
    if r >= t.len() {
        let first = slice_chars(&t, 0, e1);
        let k = number_end_exec(&first);
        proof {
            lemma_number_end_bounds(first@, 0);
        }
        let num = slice_chars(&first, 0, k);
        let unit = slice_chars(&first, k, first.len());
        assert(num@ =~= first@.take(k as int));
        assert(unit@ =~= first@.skip(k as int));
        assert(first@ =~= t@.take(e1 as int));
        size_from_parts_exec(&num, &unit)
    } else {
        let e2 = token_end_exec(&t, r);
        let after = ws_end_exec(&t, e2);
        proof {
            lemma_token_end_bounds(t@, r as int);
        }
        if after < t.len() {
            return Err(String::from_str("invalid size"));
        }
        let num = slice_chars(&t, 0, e1);
        let unit = slice_chars(&t, r, e2);
        assert(num@ =~= t@.take(e1 as int));
        size_from_parts_exec(&num, &unit)
    }
}

} // verus!
