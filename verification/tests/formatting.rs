use disk_scanner::{format_size, format_with_commas, parse_size};

#[test]
fn format_size_bytes_below_one_kib() {
    assert_eq!(format_size(0), "0 B");
    assert_eq!(format_size(1), "1 B");
    assert_eq!(format_size(1023), "1023 B");
}

#[test]
fn format_size_binary_units() {
    assert_eq!(format_size(1024), "1.00 KiB");
    assert_eq!(format_size(1536), "1.50 KiB");
    assert_eq!(format_size(1024 * 1024), "1.00 MiB");
    assert_eq!(format_size(100 * 1024 * 1024), "100.00 MiB");
    assert_eq!(format_size(3 * 1024 * 1024 * 1024), "3.00 GiB");
    assert_eq!(format_size(1024u64.pow(4)), "1.00 TiB");
    assert_eq!(format_size(1024u64.pow(5)), "1.00 PiB");
}

#[test]
fn format_size_stays_in_pib() {
    assert_eq!(format_size(1024u64.pow(5) * 2048), "2048.00 PiB");
    assert_eq!(format_size(u64::MAX), "16384.00 PiB");
}

#[test]
fn format_size_rounds_half_to_even() {
    // 1152 bytes are exactly 1.125 KiB; 1.375 KiB are 1408 bytes.
    assert_eq!(format_size(1152), "1.12 KiB");
    assert_eq!(format_size(1408), "1.38 KiB");
    // Just under the next unit rounds up within the unit.
    assert_eq!(format_size(1024 * 1024 - 1), "1024.00 KiB");
}

#[test]
fn format_size_agrees_with_float_formatting() {
    let samples: [u64; 12] = [1025, 2047, 5000, 123_456, 9_999_999, 1 << 40, 7_777_777_777, 1 << 52, 1152, 1408, 1_048_575, 3_221_225_472];
    for &b in samples.iter() {
        let mut size = b as f64;
        let mut unit = 0;
        let units = ["B", "KiB", "MiB", "GiB", "TiB", "PiB"];
        while size >= 1024.0 && unit < units.len() - 1 {
            size /= 1024.0;
            unit += 1;
        }
        let expected = format!("{:.2} {}", size, units[unit]);
        assert_eq!(format_size(b), expected);
    }
}

#[test]
fn commas_group_thousands() {
    assert_eq!(format_with_commas(0), "0");
    assert_eq!(format_with_commas(999), "999");
    assert_eq!(format_with_commas(1000), "1,000");
    assert_eq!(format_with_commas(1_234_567), "1,234,567");
    assert_eq!(format_with_commas(1_000_001), "1,000,001");
    assert_eq!(format_with_commas(u64::MAX), "18,446,744,073,709,551,615");
}

#[test]
fn commas_removed_give_the_number() {
    for n in [0u64, 7, 1000, 65_536, 10_000_000, 123_456_789_012] {
        assert_eq!(format_with_commas(n).replace(",", ""), n.to_string());
    }
}

#[test]
fn parse_size_plain_and_suffixed() {
    assert_eq!(parse_size("100"), Some(100));
    assert_eq!(parse_size("50M"), Some(50 * 1024 * 1024));
    assert_eq!(parse_size("1G"), Some(1024 * 1024 * 1024));
    assert_eq!(parse_size("2k"), Some(2048));
    assert_eq!(parse_size(" 1g "), Some(1024 * 1024 * 1024));
    assert_eq!(parse_size("+5K"), Some(5120));
}

#[test]
fn parse_size_rejects_what_u64_parsing_rejects() {
    assert_eq!(parse_size(""), None);
    assert_eq!(parse_size("   "), None);
    assert_eq!(parse_size("K"), None);
    assert_eq!(parse_size("5T"), None);
    assert_eq!(parse_size("-5"), None);
    assert_eq!(parse_size("1.5G"), None);
    assert_eq!(parse_size("18446744073709551616"), None);
}

#[test]
fn parse_size_wraps_on_overflow() {
    assert_eq!(parse_size("18446744073709551615K"), Some(u64::MAX.wrapping_mul(1024)));
    assert_eq!(parse_size("18446744073709551615"), Some(u64::MAX));
}

#[test]
fn format_size_above_two_to_the_53() {
    // 2^53 + 2^50 + 1 bytes is exactly 8.125 PiB once taken as a double.
    assert_eq!(format_size(9_147_936_743_096_321), "8.12 PiB");
    let samples: [u64; 6] = [
        9_147_936_743_096_321,
        (1 << 53) + 1,
        (1 << 60) + 12_345,
        u64::MAX - 1,
        u64::MAX,
        18_000_000_000_000_000_000,
    ];
    for &b in samples.iter() {
        let size = b as f64 / 1024f64.powi(5);
        assert_eq!(format_size(b), format!("{:.2} PiB", size));
    }
}
