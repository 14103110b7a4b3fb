use chrono::{Datelike, NaiveDate, TimeZone};
use seekrs::filters::{
    format_stamp, modified_day, modified_text, parse_size, passes_date_filter, passes_ext_filter,
    passes_size_filter,
};

#[test]
fn parse_size_units() {
    assert_eq!(parse_size("10KB"), Some(10240));
    assert_eq!(parse_size("1MB"), Some(1048576));
    assert_eq!(parse_size("1GB"), Some(1073741824));
    assert_eq!(parse_size("500B"), Some(500));
    assert_eq!(parse_size("2g"), Some(2147483648));
    assert_eq!(parse_size("3k"), Some(3072));
    assert_eq!(parse_size("4m"), Some(4194304));
}

#[test]
fn parse_size_decimals_and_spacing() {
    assert_eq!(parse_size("1.5MB"), Some(1572864));
    assert_eq!(parse_size(" 500b "), Some(500));
    assert_eq!(parse_size("1 KB"), Some(1024));
    assert_eq!(parse_size(".5K"), Some(512));
    assert_eq!(parse_size("5.K"), Some(5120));
    assert_eq!(parse_size("0.1KB"), Some(102));
    assert_eq!(parse_size("0.0009765625KB"), Some(1));
}

#[test]
fn parse_size_rejects() {
    assert_eq!(parse_size("500"), None);
    assert_eq!(parse_size(""), None);
    assert_eq!(parse_size("KB"), None);
    assert_eq!(parse_size("1.2.3KB"), None);
    assert_eq!(parse_size("10XB"), None);
    assert_eq!(parse_size("10 TB"), None);
    assert_eq!(parse_size(".KB"), None);
}

#[test]
fn parse_size_saturates() {
    assert_eq!(parse_size("99999999999999999999999G"), Some(u64::MAX));
    assert_eq!(parse_size("18446744073709551615B"), Some(u64::MAX));
    assert_eq!(parse_size("17179869184G"), Some(u64::MAX));
}

#[test]
fn size_filter_bounds_are_inclusive() {
    assert!(passes_size_filter(100, None, None));
    assert!(passes_size_filter(100, Some(100), Some(100)));
    assert!(!passes_size_filter(99, Some(100), None));
    assert!(!passes_size_filter(101, None, Some(100)));
    assert!(passes_size_filter(2048, parse_size("1KB"), parse_size("2KB")));
}

#[test]
fn date_filter() {
    let june = Some((2025, 6, 1));
    assert!(passes_date_filter(june, Some("2025-01-01"), Some("2025-12-31")));
    assert!(passes_date_filter(june, Some("2025-06-01"), Some("2025-06-01")));
    assert!(!passes_date_filter(june, Some("2025-06-02"), None));
    assert!(!passes_date_filter(june, None, Some("2025-05-31")));
    assert!(passes_date_filter(june, Some("not a date"), Some("2025/01/01")));
    assert!(passes_date_filter(None, Some("2030-01-01"), None));
    assert!(!passes_date_filter(Some((2024, 12, 31)), Some("2025-01-01"), None));
}

#[test]
fn ext_filter() {
    let rs = vec!["rs".to_string()];
    assert!(passes_ext_filter("src/main.rs", &rs));
    assert!(passes_ext_filter("src/MAIN.RS", &rs));
    assert!(passes_ext_filter("lib.rs", &["toml".to_string(), "RS".to_string()]));
    assert!(!passes_ext_filter("Makefile", &rs));
    assert!(!passes_ext_filter("notes.md", &rs));
    assert!(!passes_ext_filter(".bashrc", &["bashrc".to_string()]));
    assert!(passes_ext_filter("anything", &[]));
}

#[test]
fn stamp_formatting_matches_chrono() {
    assert_eq!(format_stamp((2025, 4, 18, 12, 32)), "2025-04-18 12:32");
    assert_eq!(format_stamp((5, 1, 2, 3, 4)), "0005-01-02 03:04");
    assert_eq!(format_stamp((-1, 1, 1, 0, 0)), "-0001-01-01 00:00");
    assert_eq!(format_stamp((10000, 12, 31, 23, 59)), "+10000-12-31 23:59");
    for &(y, m, d, h, mi) in &[(2025, 4, 18, 12, 32), (5, 1, 2, 3, 4), (-1, 1, 1, 0, 0),
        (10000, 12, 31, 23, 59), (-12345, 6, 7, 8, 9), (999, 10, 11, 22, 5)] {
        let expected = NaiveDate::from_ymd_opt(y, m, d).unwrap().and_hms_opt(h, mi, 0).unwrap()
            .format("%Y-%m-%d %H:%M").to_string();
        assert_eq!(format_stamp((y, m, d, h, mi)), expected);
    }
    for &secs in &[0i64, 1_700_000_000, -86_400 * 400] {
        let dt = chrono::Local.timestamp_opt(secs, 0).single().unwrap();
        assert_eq!(modified_text(secs, 0), Some(dt.format("%Y-%m-%d %H:%M").to_string()));
        let nd = dt.date_naive();
        assert_eq!(modified_day(secs, 0), Some((nd.year(), nd.month(), nd.day())));
    }
    assert_eq!(modified_text(i64::MAX, 0), None);
    assert_eq!(modified_day(0, 2_000_000_000), None);
}

#[test]
fn parse_size_ignores_case_and_blanks() {
    for s in ["10kb", "10KB", "1.5mB", "3g", "500b", "7 M", "x", "12", "0.25GB"] {
        let r = parse_size(s);
        assert_eq!(parse_size(&s.to_ascii_lowercase()), r);
        assert_eq!(parse_size(&s.to_ascii_uppercase()), r);
        assert_eq!(parse_size(&format!("  {}\t", s)), r);
    }
    assert_eq!(parse_size(" 10kb "), Some(10240));
}

#[test]
fn parse_size_is_monotone() {
    let units = ["B", "K", "KB", "M", "MB", "G", "GB"];
    let nums = ["0", "1", "9", "10", "1023", "99999999999"];
    for u in units {
        for a in nums {
            for b in nums {
                let (va, vb): (u64, u64) = (a.parse().unwrap(), b.parse().unwrap());
                if va <= vb {
                    assert!(parse_size(&format!("{}{}", a, u)).unwrap() <= parse_size(&format!("{}{}", b, u)).unwrap());
                }
            }
            for v in units {
                let mu = parse_size(&format!("1{}", u)).unwrap();
                let mv = parse_size(&format!("1{}", v)).unwrap();
                if mu <= mv {
                    assert!(parse_size(&format!("{}{}", a, u)).unwrap() <= parse_size(&format!("{}{}", a, v)).unwrap());
                }
            }
        }
    }
}
