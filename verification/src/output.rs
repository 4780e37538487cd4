//! Human-readable byte counts, as printed in reports.

use vstd::prelude::*;
use crate::decimal::float_value_wide;
use crate::size::power;
use crate::text::{decimal, digit_char, push_char, push_decimal, push_str};

verus! {

/// How a report is written.
#[derive(Clone, Copy, Debug, PartialEq, Eq, Structural)]
pub enum OutputFormat {
    Text,
    Json,
}

impl OutputFormat {
    /// The name of the format, as written on the command line.
    pub fn as_str(&self) -> (s: &'static str)
        ensures
            s@ == match self {
                OutputFormat::Text => "text"@,
                OutputFormat::Json => "json"@,
            },
    {
        match self {
            OutputFormat::Text => "text",
            OutputFormat::Json => "json",
        }
    }
}

/// The number of low bits dropped when `b` is converted to a 64-bit float
/// (whose significand holds 53 bits).
pub open spec fn float_shift(b: nat) -> nat
    decreases b,
{
    if b < 0x20_0000_0000_0000 {
        0
    } else {
        1 + float_shift(b / 2)
    }
}

/// `b` rounded to the nearest 64-bit float (`b as f64`): to 53 significant
/// bits, ties to the even significand.
pub open spec fn float_value(b: nat) -> nat {
    let e = float_shift(b);
    if e == 0 {
        b
    } else {
        let p = power(2, e);
        let q = b / p;
        let r = b % p;
        let half = power(2, (e - 1) as nat);
        let rq = if r > half || (r == half && q % 2 == 1) {
            q + 1
        } else {
            q
        };
        rq * p
    }
}

/// The unit a value of `v` bytes is shown in: the smallest `k >= 1` such that
/// `v / 1024^k < 1024`, and at most 6.
pub open spec fn unit_index(v: nat) -> nat {
    if v < 0x10_0000 {
        1
    } else if v < 0x4000_0000 {
        2
    } else if v < 0x100_0000_0000 {
        3
    } else if v < 0x4_0000_0000_0000 {
        4
    } else if v < 0x1000_0000_0000_0000 {
        5
    } else {
        6
    }
}

pub open spec fn unit_name(k: nat) -> Seq<char> {
    if k == 1 {
        "KiB"@
    } else if k == 2 {
        "MiB"@
    } else if k == 3 {
        "GiB"@
    } else if k == 4 {
        "TiB"@
    } else if k == 5 {
        "PiB"@
    } else {
        "EiB"@
    }
}

/// `n / d` rounded to the nearest integer, ties to even.
pub open spec fn div_round_even(n: nat, d: nat) -> nat {
    let q = n / d;
    let r = n % d;
    if 2 * r > d || (2 * r == d && q % 2 == 1) {
        q + 1
    } else {
        q
    }
}

/// A byte count for people: below 1024 the exact number of bytes (`"12 B"`);
/// otherwise the float value of the count scaled to the largest binary unit
/// that keeps it under 1024 (at most EiB), with two decimals rounded half to
/// even (`"1.50 KiB"`).
pub open spec fn format_bytes_spec(b: nat) -> Seq<char> {
    if b < 1024 {
        decimal(b) + " B"@
    } else {
        let v = float_value(b);
        let k = unit_index(v);
        let h = div_round_even(v * 100, power(1024, k));
        decimal(h / 100) + seq!['.', digit_char((h % 100) / 10), digit_char(h % 10), ' ']
            + unit_name(k)
    }
}

fn unit_index_exec(v: u128) -> (k: u64)
    ensures
        k == unit_index(v as nat),
        1 <= k <= 6,
{
    if v < 0x10_0000 {
        1
    } else if v < 0x4000_0000 {
        2
    } else if v < 0x100_0000_0000 {
        3
    } else if v < 0x4_0000_0000_0000 {
        4
    } else if v < 0x1000_0000_0000_0000 {
        5
    } else {
        6
    }
}

fn unit_divisor(k: u64) -> (d: u128)
    requires
        1 <= k <= 6,
    ensures
        d == power(1024, k as nat),
        1024 <= d <= 0x1000_0000_0000_0000,
{
    proof {
        reveal_with_fuel(power, 7);
    }
    if k == 1 {
        0x400
    } else if k == 2 {
        0x10_0000
    } else if k == 3 {
        0x4000_0000
    } else if k == 4 {
        0x100_0000_0000
    } else if k == 5 {
        0x4_0000_0000_0000
    } else {
        0x1000_0000_0000_0000
    }
}

fn unit_name_exec(k: u64) -> (s: &'static str)
    ensures
        s@ == unit_name(k as nat),
{
    if k == 1 {
        "KiB"
    } else if k == 2 {
        "MiB"
    } else if k == 3 {
        "GiB"
    } else if k == 4 {
        "TiB"
    } else if k == 5 {
        "PiB"
    } else {
        "EiB"
    }
}

fn div_round_even_exec(n: u128, d: u128) -> (h: u128)
    requires
        1 <= d <= 0x1000_0000_0000_0000,
        n <= 0x2_0000_0000_0000_0000 * 100,
    ensures
        h == div_round_even(n as nat, d as nat),
{
    let q = n / d;
    let r = n % d;
    if 2 * r > d || (2 * r == d && q % 2 == 1) {
        q + 1
    } else {
        q
    }
}

/// Formats a byte count for people; see `format_bytes_spec`.
pub fn format_bytes(bytes: u64) -> (s: String)
    ensures
        s@ == format_bytes_spec(bytes as nat),
{
    let mut s = String::new();
    if bytes < 1024 {
        push_decimal(&mut s, bytes as u128);
        push_str(&mut s, " B");
        return s;
    }
    let v = float_value_wide(bytes as u128);
    let k = unit_index_exec(v);
    let d = unit_divisor(k);
    let h = div_round_even_exec(v * 100, d);
    push_decimal(&mut s, h / 100);
    let tens = ((h % 100) / 10) as u8;
    let ones = (h % 10) as u8;
    push_char(&mut s, '.');
    push_char(&mut s, (tens + 48) as char);
    push_char(&mut s, (ones + 48) as char);
    push_char(&mut s, ' ');
    push_str(&mut s, unit_name_exec(k));
    proof {
        let ghost h2 = h as nat;
        assert(seq!['.', digit_char((h2 % 100) / 10), digit_char(h2 % 10), ' '] =~= seq!['.'].push(
            digit_char((h2 % 100) / 10),
        ).push(digit_char(h2 % 10)).push(' '));
    }
    s
}

} // verus!
