use disk_scout::output::{format_bytes, OutputFormat};

#[test]
fn formats_small_bytes() {
    assert_eq!(format_bytes(0), "0 B");
    assert_eq!(format_bytes(12), "12 B");
    assert_eq!(format_bytes(1023), "1023 B");
}

#[test]
fn formats_kib_mib() {
    assert_eq!(format_bytes(1024), "1.00 KiB");
    assert_eq!(format_bytes(1536), "1.50 KiB");
    assert_eq!(format_bytes(1024 * 1024), "1.00 MiB");
}

#[test]
fn formats_larger_units() {
    assert_eq!(format_bytes(1 << 30), "1.00 GiB");
    assert_eq!(format_bytes(1 << 40), "1.00 TiB");
    assert_eq!(format_bytes(1 << 50), "1.00 PiB");
    assert_eq!(format_bytes(1 << 60), "1.00 EiB");
    assert_eq!(format_bytes(u64::MAX), "16.00 EiB");
    assert_eq!(format_bytes(1024 * 1024 - 1), "1024.00 KiB");
}

#[test]
fn rounds_ties_to_even() {
    // 1152 bytes are exactly 1.125 KiB
    assert_eq!(format_bytes(1152), "1.12 KiB");
    // 1160 bytes are exactly 1.1328125 KiB
    assert_eq!(format_bytes(1160), "1.13 KiB");
}

/// The byte count formatted through floating point.
fn float_reference(bytes: u64) -> String {
    if bytes < 1024 {
        return format!("{bytes} B");
    }
    let units = ["KiB", "MiB", "GiB", "TiB", "PiB", "EiB"];
    let mut value = bytes as f64;
    let mut unit = "B";
    for u in units {
        value /= 1024.0;
        unit = u;
        if value < 1024.0 {
            break;
        }
    }
    format!("{value:.2} {unit}")
}

#[test]
fn agrees_with_float_formatting() {
    for b in 0..70_000u64 {
        assert_eq!(format_bytes(b), float_reference(b), "{b}");
    }
    let mut x: u64 = 0x9E37_79B9_7F4A_7C15;
    for _ in 0..200_000 {
        x = x.wrapping_mul(6364136223846793005).wrapping_add(1442695040888963407);
        let b = x >> (x % 64);
        assert_eq!(format_bytes(b), float_reference(b), "{b}");
    }
    for shift in 10..64 {
        for delta in [0u64, 1, 2, 3, 511, 512, 513, 1023, 1024, 1025] {
            let base = 1u64 << shift;
            for b in [base.wrapping_sub(delta), base.wrapping_add(delta)] {
                assert_eq!(format_bytes(b), float_reference(b), "{b}");
            }
        }
    }
    for b in [u64::MAX, u64::MAX - 1, u64::MAX - 1024, (1 << 53) + 1, (1 << 54) + 2, (1 << 54) + 6] {
        assert_eq!(format_bytes(b), float_reference(b), "{b}");
    }
}

#[test]
fn output_format_names() {
    assert_eq!(OutputFormat::Text.as_str(), "text");
    assert_eq!(OutputFormat::Json.as_str(), "json");
}
