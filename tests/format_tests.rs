use tudiff::format::{decimal_text, format_file_size, format_modified_time, is_leap_year, truncate_path};

#[test]
fn file_sizes() {
    assert_eq!(format_file_size(None), "     ");
    assert_eq!(format_file_size(Some(0)), "   0B");
    assert_eq!(format_file_size(Some(1023)), "1023B");
    assert_eq!(format_file_size(Some(1024)), " 1.0K");
    assert_eq!(format_file_size(Some(1536)), " 1.5K");
    assert_eq!(format_file_size(Some(1280)), " 1.2K");
    assert_eq!(format_file_size(Some(1331)), " 1.3K");
    assert_eq!(format_file_size(Some(1_048_575)), "1024.0K");
    assert_eq!(format_file_size(Some(1_048_576)), " 1.0M");
    assert_eq!(format_file_size(Some(5_000_000)), " 4.8M");
    assert_eq!(format_file_size(Some(1_073_741_824)), " 1.0G");
    assert_eq!(format_file_size(Some(u64::MAX)), "17179869184.0G");
}

#[test]
fn file_sizes_match_float_formatting() {
    for s in [1024u64, 1100, 1280, 2047, 2048, 10_000, 65_535, 500_000, 1_000_000, 3_000_000, 999_999_999, 5_000_000_000] {
        let expected = if s < 1024 * 1024 {
            format!("{:>4.1}K", s as f64 / 1024.0)
        } else if s < 1024 * 1024 * 1024 {
            format!("{:>4.1}M", s as f64 / (1024.0 * 1024.0))
        } else {
            format!("{:>4.1}G", s as f64 / (1024.0 * 1024.0 * 1024.0))
        };
        assert_eq!(format_file_size(Some(s)), expected, "size {}", s);
    }
}

#[test]
fn decimals() {
    assert_eq!(decimal_text(0), "0");
    assert_eq!(decimal_text(907), "907");
    assert_eq!(decimal_text(u64::MAX), u64::MAX.to_string());
}

#[test]
fn leap_years() {
    assert!(is_leap_year(2000));
    assert!(is_leap_year(2024));
    assert!(!is_leap_year(1900));
    assert!(!is_leap_year(2023));
}

#[test]
fn modified_times() {
    assert_eq!(format_modified_time(None, 0, 0), "           ");
    // 2024-03-05 14:07:00 UTC
    let t = 1_709_647_620;
    assert_eq!(format_modified_time(Some(t), t, 0), "Mar  5 14:07");
    assert_eq!(format_modified_time(Some(t), t, 3600), "Mar  5 15:07");
    // 2001-09-09 01:46:40 UTC, seen from 2024
    assert_eq!(format_modified_time(Some(1_000_000_000), t, 0), "Sep  9  2001");
    assert_eq!(format_modified_time(Some(0), t, 0), "Jan  1  1970");
    assert_eq!(format_modified_time(Some(0), t, -3600), "Jan  1  1970");
    // 2024-12-31 23:59:00 UTC
    assert_eq!(format_modified_time(Some(1_735_689_540), t, 0), "Dec 31 23:59");
}

#[test]
fn truncated_paths() {
    assert_eq!(truncate_path("short", 10), "short");
    assert_eq!(truncate_path("abcdefghij", 2), "...");
    assert_eq!(truncate_path("abcdefghij", 7), "ab...ij");
    assert_eq!(truncate_path("abcdefghij", 8), "ab...hij");
    assert_eq!(truncate_path("abcdefghij", 3), "...");
}
