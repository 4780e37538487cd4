use disk_scout::size::parse_size_bytes;

#[test]
fn cli_parses_plain_bytes() {
    assert_eq!(parse_size_bytes("0").unwrap(), 0);
    assert_eq!(parse_size_bytes("42").unwrap(), 42);
    assert_eq!(parse_size_bytes("42 b").unwrap(), 42);
}

#[test]
fn cli_parses_binary_units() {
    assert_eq!(parse_size_bytes("1KiB").unwrap(), 1024);
    assert_eq!(parse_size_bytes("1 MiB").unwrap(), 1024 * 1024);
}

#[test]
fn cli_parses_decimal_units() {
    assert_eq!(parse_size_bytes("1KB").unwrap(), 1000);
    assert_eq!(parse_size_bytes("2 mb").unwrap(), 2_000_000);
}

#[test]
fn size_parses_plain_bytes() {
    assert_eq!(parse_size_bytes("0").unwrap(), 0);
    assert_eq!(parse_size_bytes("42").unwrap(), 42);
    assert_eq!(parse_size_bytes("42 b").unwrap(), 42);
}

#[test]
fn size_parses_binary_units() {
    assert_eq!(parse_size_bytes("1KiB").unwrap(), 1024);
    assert_eq!(parse_size_bytes("1 MiB").unwrap(), 1024 * 1024);
}

#[test]
fn size_parses_decimal_units() {
    assert_eq!(parse_size_bytes("1KB").unwrap(), 1000);
    assert_eq!(parse_size_bytes("2 mb").unwrap(), 2_000_000);
}

#[test]
fn parses_every_unit() {
    assert_eq!(parse_size_bytes("3b").unwrap(), 3);
    assert_eq!(parse_size_bytes("3k").unwrap(), 3_000);
    assert_eq!(parse_size_bytes("3m").unwrap(), 3_000_000);
    assert_eq!(parse_size_bytes("3g").unwrap(), 3_000_000_000);
    assert_eq!(parse_size_bytes("3t").unwrap(), 3_000_000_000_000);
    assert_eq!(parse_size_bytes("3gb").unwrap(), 3_000_000_000);
    assert_eq!(parse_size_bytes("3tb").unwrap(), 3_000_000_000_000);
    assert_eq!(parse_size_bytes("3gib").unwrap(), 3 << 30);
    assert_eq!(parse_size_bytes("3tib").unwrap(), 3u64 << 40);
}

#[test]
fn units_ignore_case() {
    assert_eq!(parse_size_bytes("1KIB").unwrap(), 1024);
    assert_eq!(parse_size_bytes("1kib").unwrap(), 1024);
    assert_eq!(parse_size_bytes("2 Mb").unwrap(), 2_000_000);
    assert_eq!(parse_size_bytes("5 B").unwrap(), 5);
}

#[test]
fn glued_and_spaced_units_agree() {
    for (glued, spaced) in [("1KiB", "1 KiB"), ("7mb", "7 mb"), ("2.5g", "2.5 g"), ("10b", "10 b")] {
        assert_eq!(parse_size_bytes(glued), parse_size_bytes(spaced));
    }
}

#[test]
fn surrounding_whitespace_is_ignored() {
    assert_eq!(parse_size_bytes("  12  ").unwrap(), 12);
    assert_eq!(parse_size_bytes("\t1 KiB\n").unwrap(), 1024);
    assert_eq!(parse_size_bytes("1   KiB").unwrap(), 1024);
}

#[test]
fn fractions_are_scaled_and_rounded() {
    assert_eq!(parse_size_bytes("1.5KiB").unwrap(), 1536);
    assert_eq!(parse_size_bytes("0.5 KB").unwrap(), 500);
    assert_eq!(parse_size_bytes(".5 KiB").unwrap(), 512);
    assert_eq!(parse_size_bytes("2.").unwrap(), 2);
    assert_eq!(parse_size_bytes("0.5").unwrap(), 1);
    assert_eq!(parse_size_bytes("0.4").unwrap(), 0);
    assert_eq!(parse_size_bytes("1.0004 KB").unwrap(), 1000);
    assert_eq!(parse_size_bytes("1.0006 KB").unwrap(), 1001);
    assert_eq!(parse_size_bytes("0.0001 kib").unwrap(), 0);
}

#[test]
fn fractions_round_as_floats_do() {
    // 8.0185 is slightly below itself as an f64, and so is its product with 1000
    assert_eq!(parse_size_bytes("8.0185 kb").unwrap(), 8018);
    assert_eq!(parse_size_bytes("9007199254740993").unwrap(), 9007199254740992);
    assert_eq!(parse_size_bytes("2.5").unwrap(), 3);
    assert_eq!(parse_size_bytes("3.5 b").unwrap(), 4);
}

#[test]
fn numbers_are_read_as_floats() {
    assert_eq!(parse_size_bytes("1e3 b").unwrap(), 1000);
    assert_eq!(parse_size_bytes("1E3 b").unwrap(), 1000);
    assert_eq!(parse_size_bytes("2.5e-3 mb").unwrap(), 2500);
    assert_eq!(parse_size_bytes("+1 b").unwrap(), 1);
    assert_eq!(parse_size_bytes("-0 b").unwrap(), 0);
    assert_eq!(parse_size_bytes("1e-400 b").unwrap(), 0);
    assert_eq!(parse_size_bytes("-1e-400 kib").unwrap(), 0);
    assert_eq!(parse_size_bytes("1e-5 tib").unwrap(), 10995116);
    // glued, only digits and dots belong to the number
    assert_eq!(parse_size_bytes("1e3").unwrap_err(), "unknown unit: e3");
}

#[test]
fn refuses_negative_and_non_finite_numbers() {
    assert_eq!(parse_size_bytes("-1 b").unwrap_err(), "invalid number");
    assert_eq!(parse_size_bytes("-0.5 kib").unwrap_err(), "invalid number");
    assert_eq!(parse_size_bytes("inf b").unwrap_err(), "invalid number");
    assert_eq!(parse_size_bytes("-Infinity kb").unwrap_err(), "invalid number");
    assert_eq!(parse_size_bytes("nan b").unwrap_err(), "invalid number");
    assert_eq!(parse_size_bytes("NaN xyz").unwrap_err(), "invalid number");
    assert_eq!(parse_size_bytes("1e400 b").unwrap_err(), "invalid number");
    assert_eq!(parse_size_bytes("-1 xyz").unwrap_err(), "invalid number");
    assert_eq!(parse_size_bytes("1e e").unwrap_err(), "invalid number: 1e");
    assert_eq!(parse_size_bytes("-inf").unwrap_err(), "invalid number: ");
}

/// What the float computation gives, written with `f64` directly.
fn float_reference(text: &str) -> Result<u64, String> {
    let t = text.trim();
    if t.is_empty() {
        return Err("size is empty".to_string());
    }
    let words: Vec<&str> = t.split_whitespace().collect();
    let (num, unit) = match words.len() {
        1 => {
            let w = words[0];
            let k = w.find(|c: char| !(c.is_ascii_digit() || c == '.')).unwrap_or(w.len());
            w.split_at(k)
        }
        2 => (words[0], words[1]),
        _ => return Err("invalid size".to_string()),
    };
    let x: f64 = num.parse().map_err(|_| format!("invalid number: {num}"))?;
    if !x.is_finite() || x < 0.0 {
        return Err("invalid number".to_string());
    }
    let mul: u64 = match unit.to_ascii_lowercase().as_str() {
        "" | "b" => 1,
        "k" | "kb" => 1000,
        "m" | "mb" => 1_000_000,
        "g" | "gb" => 1_000_000_000,
        "t" | "tb" => 1_000_000_000_000,
        "kib" => 1 << 10,
        "mib" => 1 << 20,
        "gib" => 1 << 30,
        "tib" => 1 << 40,
        _ => return Err(format!("unknown unit: {unit}")),
    };
    let bytes = (x * mul as f64).round();
    if bytes > u64::MAX as f64 {
        return Err("size overflow".to_string());
    }
    Ok(bytes as u64)
}

#[test]
fn agrees_with_float_arithmetic() {
    let numbers = [
        "0", "1", "8.0185", "0.1", "0.3", "0.5", "0.7", "1.5", "2.675", "123.456", "0.000001",
        "1e3", "2.5e-3", "1e-5", "3.14159", "17179869184", "18446744073709551615",
        "18446744073709551616", "18446744073709553665", "1.8446744073709552e19",
        "1.7976931348623157e308", "1.7976931348623158e308", "4.9e-324", "2.4e-324", "1e-320",
        "16777216.5", "9007199254740993", "123456789.987654321", "0.00000000000001e14",
        "4611686018427387904.5", "0.4999999999999999", "1099511627776.25", "7.62939453125e-6",
    ];
    let units = ["", "b", "k", "KB", "m", "mb", "g", "gb", "t", "tb", "kib", "MiB", "gib", "tib"];
    for n in numbers {
        for u in units {
            for text in [format!("{n} {u}"), format!("{n}{u}")] {
                assert_eq!(parse_size_bytes(&text), float_reference(&text), "{text}");
            }
        }
    }
    for i in 0..3000u64 {
        let n = format!("{}.{:04}", i / 13, (i * 7919) % 10000);
        for u in ["b", "kb", "kib", "mb", "mib", "gb", "tib"] {
            let text = format!("{n} {u}");
            assert_eq!(parse_size_bytes(&text), float_reference(&text), "{text}");
        }
        let e = format!("{}e{} kb", i % 97, (i % 41) as i64 - 20);
        assert_eq!(parse_size_bytes(&e), float_reference(&e), "{e}");
    }
}

#[test]
fn agrees_with_float_scaling_where_exact() {
    // values whose product with the unit is exact in binary floating point
    let units = [("", 1u64), ("kib", 1024), ("mib", 1 << 20), ("kb", 1000), ("mb", 1_000_000)];
    for n in 0..200u64 {
        for (u, m) in units {
            let text = format!("{} {}", n as f64 / 4.0, if u.is_empty() { "b" } else { u });
            let expected = ((n as f64 / 4.0) * m as f64).round() as u64;
            assert_eq!(parse_size_bytes(&text).unwrap(), expected, "{text}");
        }
    }
}

#[test]
fn reports_empty_input() {
    assert_eq!(parse_size_bytes("").unwrap_err(), "size is empty");
    assert_eq!(parse_size_bytes("   ").unwrap_err(), "size is empty");
}

#[test]
fn reports_too_many_words() {
    assert_eq!(parse_size_bytes("1 KiB extra").unwrap_err(), "invalid size");
}

#[test]
fn reports_invalid_number() {
    assert_eq!(parse_size_bytes("KiB").unwrap_err(), "invalid number: ");
    assert_eq!(parse_size_bytes("1.2.3").unwrap_err(), "invalid number: 1.2.3");
    assert_eq!(parse_size_bytes("abc kb").unwrap_err(), "invalid number: abc");
    assert_eq!(parse_size_bytes(". kb").unwrap_err(), "invalid number: .");
}

#[test]
fn reports_unknown_unit() {
    assert_eq!(parse_size_bytes("1 parsec").unwrap_err(), "unknown unit: parsec");
    assert_eq!(parse_size_bytes("5XB").unwrap_err(), "unknown unit: XB");
    assert_eq!(parse_size_bytes("5k1").unwrap_err(), "unknown unit: k1");
}

#[test]
fn reports_overflow() {
    assert_eq!(parse_size_bytes("18446744073709551615").unwrap(), u64::MAX);
    assert_eq!(parse_size_bytes("18446744073709551616").unwrap(), u64::MAX);
    assert_eq!(parse_size_bytes("18446744073709553665").unwrap_err(), "size overflow");
    assert_eq!(parse_size_bytes("20000000 TiB").unwrap_err(), "size overflow");
    assert_eq!(
        parse_size_bytes("99999999999999999999999999999999999999999999").unwrap_err(),
        "size overflow"
    );
}

#[test]
fn letter_case_never_changes_a_size() {
    for s in ["1KiB", "2 mb", "3Gb", "4 tIb", "1e3 B", "inf b", "1 xb", "5k", "0.5 KIB", "7 Bytes"] {
        let v = parse_size_bytes(s).ok();
        assert_eq!(v, parse_size_bytes(&s.to_ascii_uppercase()).ok(), "{s}");
        assert_eq!(v, parse_size_bytes(&s.to_ascii_lowercase()).ok(), "{s}");
    }
}

#[test]
fn whole_numbers_up_to_two_to_the_53_are_exact() {
    assert_eq!(parse_size_bytes("9007199254740992").unwrap(), 9007199254740992);
    assert_eq!(parse_size_bytes("8796093022208 kib").unwrap(), 9007199254740992);
    assert_eq!(parse_size_bytes("9007199254740991 b").unwrap(), 9007199254740991);
}
