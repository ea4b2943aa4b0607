use clipx::text::{decimal_text, hex_text};
use clipx::units::format_bytes;

#[test]
fn byte_format_uses_readable_decimal_units() {
    assert_eq!(format_bytes(0), "0 B");
    assert_eq!(format_bytes(999), "999 B");
    assert_eq!(format_bytes(1_000), "1 KB");
    assert_eq!(format_bytes(5_485_145), "5.49 MB");
    assert_eq!(format_bytes(1_000_000_000), "1 GB");
}

#[test]
fn format_bytes_uses_decimal_units() {
    assert_eq!(format_bytes(0), "0 B");
    assert_eq!(format_bytes(1_000), "1 KB");
    assert_eq!(format_bytes(1_250_000), "1.25 MB");
}

fn floating(bytes: u64) -> String {
    let units = ["B", "KB", "MB", "GB", "TB"];
    let mut value = bytes as f64;
    let mut unit = 0;
    while value >= 1000.0 && unit < units.len() - 1 {
        value /= 1000.0;
        unit += 1;
    }
    if unit == 0 {
        return format!("{bytes} B");
    }
    let text = format!("{value:.2}");
    let text = text.trim_end_matches('0').trim_end_matches('.');
    format!("{text} {}", units[unit])
}

#[test]
fn sizes_are_rounded_as_double_precision_rounds_them() {
    let mut samples = vec![
        1_005, 1_015, 1_025, 1_035, 1_045, 999_994, 999_995, 999_996, 999_999, 1_000_000,
        999_994_999, 999_995_000, 999_999_999_999, 1_000_000_000_000, 999_999_999_999_999,
        1_000_000_000_000_000, 9_007_199_254_740_991, 9_007_199_254_740_992,
        9_007_199_254_740_993, 18_014_398_509_481_985, u64::MAX, u64::MAX - 1, u64::MAX / 2,
    ];
    let mut value = 0x9e37_79b9_7f4a_7c15u64;
    for shift in 0..64u32 {
        for _ in 0..300 {
            value = value
                .wrapping_mul(6_364_136_223_846_793_005)
                .wrapping_add(1_442_695_040_888_963_407);
            samples.push(value >> shift);
        }
    }
    for tens in 0..2_000u64 {
        samples.push(1_000_000 + tens * 5_000 + 5);
        samples.push(1_000_000 + tens * 5_000);
        samples.push(1_000 + tens * 5);
    }
    for sample in samples {
        assert_eq!(format_bytes(sample), floating(sample));
    }
}

#[test]
fn numbers_are_written_in_digits() {
    for n in [0u128, 7, 10, 99, 100, 65_535, u64::MAX as u128, u128::MAX] {
        assert_eq!(decimal_text(n), n.to_string());
    }
    for n in [0u64, 1, 0xdead_beef, u64::MAX] {
        assert_eq!(hex_text(n), format!("{n:016x}"));
    }
}
