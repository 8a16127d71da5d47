use cargo_sweep::size::{format_bytes, parse_size, SizeError};

#[test]
fn test_format_bytes() {
    assert_eq!(format_bytes(0), "0 B");
    assert_eq!(format_bytes(512), "512 B");
    assert_eq!(format_bytes(1024), "1.00 KB");
    assert_eq!(format_bytes(1536), "1.50 KB");
    assert_eq!(format_bytes(1048576), "1.00 MB");
    assert_eq!(format_bytes(1073741824), "1.00 GB");
}

#[test]
fn test_parse_size() {
    assert_eq!(parse_size("100B").unwrap(), 100);
    assert_eq!(parse_size("1KB").unwrap(), 1024);
    assert_eq!(parse_size("1MB").unwrap(), 1048576);
    assert_eq!(parse_size("1GB").unwrap(), 1073741824);
    assert_eq!(parse_size("1.5MB").unwrap(), 1572864);
    assert!(parse_size("invalid").is_err());
}

#[test]
fn format_large_values_never_use_bytes() {
    for b in [1024u64, 1025, 4096, 1048575, 1048576, u64::MAX] {
        let s = format_bytes(b);
        assert!(!s.ends_with(" B"), "{}", s);
    }
    assert_eq!(format_bytes(1023), "1023 B");
}

#[test]
fn format_terabytes_and_rounding() {
    assert_eq!(format_bytes(1099511627776), "1.00 TB");
    assert_eq!(format_bytes(5 * 1099511627776 + 549755813888), "5.50 TB");
    assert_eq!(format_bytes(u64::MAX), "16777216.00 TB");
    assert_eq!(format_bytes(1048575), "1024.00 KB");
    // 1.125 KB is a tie: it goes to the even hundredth
    assert_eq!(format_bytes(1152), "1.12 KB");
    assert_eq!(format_bytes(1126), "1.10 KB");
}

#[test]
fn parse_units_in_any_case_and_with_blanks() {
    assert_eq!(parse_size("2kb").unwrap(), 2048);
    assert_eq!(parse_size(" 3 Mb ").unwrap(), 3 * 1048576);
    assert_eq!(parse_size("1tb").unwrap(), 1099511627776);
    assert_eq!(parse_size("0.5KB").unwrap(), 512);
    assert_eq!(parse_size(".5KB").unwrap(), 512);
    assert_eq!(parse_size("7.B").unwrap(), 7);
    assert_eq!(parse_size("0.3KB").unwrap(), 307);
    assert_eq!(parse_size("99999999999TB").unwrap(), u64::MAX);
}

#[test]
fn parse_errors() {
    assert_eq!(parse_size("100").unwrap_err(), SizeError::MissingUnit);
    assert_eq!(parse_size("").unwrap_err(), SizeError::MissingUnit);
    assert_eq!(parse_size("abcMB").unwrap_err(), SizeError::InvalidNumber);
    assert_eq!(parse_size("KB").unwrap_err(), SizeError::InvalidNumber);
    assert_eq!(parse_size(".MB").unwrap_err(), SizeError::InvalidNumber);
    assert_eq!(parse_size("1.2.3GB").unwrap_err(), SizeError::InvalidNumber);
    assert_eq!(parse_size("1 2KB").unwrap_err(), SizeError::InvalidNumber);
}

#[test]
fn parse_of_format_comes_back_within_rounding() {
    for s in ["100B", "1KB", "1.5MB", "3.14GB", "2.25TB", "1023B", "0.01KB"] {
        let n = parse_size(s).unwrap();
        let again = parse_size(&format_bytes(n)).unwrap();
        let unit: u64 = if n >= 1099511627776 {
            1099511627776
        } else if n >= 1073741824 {
            1073741824
        } else if n >= 1048576 {
            1048576
        } else if n >= 1024 {
            1024
        } else {
            1
        };
        let slack = unit / 200 + 1;
        assert!(again + slack >= n && again <= n + slack, "{} {} {}", s, n, again);
        if n < 1024 {
            assert_eq!(again, n);
        }
    }
}

#[test]
fn parse_trims_unicode_whitespace_and_ignores_case() {
    assert_eq!(parse_size("\u{a0}2KB\u{2009}").unwrap(), 2048);
    for s in ["1kb", "1Kb", "1kB", "1KB"] {
        assert_eq!(parse_size(s).unwrap(), 1024);
    }
    assert_eq!(SizeError::MissingUnit.message(), "Invalid size format: expected format like '100MB' or '1GB'");
    assert_eq!(SizeError::InvalidNumber.message(), "Invalid number in size");
}
