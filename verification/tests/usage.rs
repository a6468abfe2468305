use syncbox::{parse_df_output, parse_quota_kb, parse_quota_output, socket_address, StorageStats};

const HEADER: &str = "Disk quotas for user u123456 (uid 1234):\n     Filesystem  blocks   quota   limit   grace   files   quota   limit   grace\n";

#[test]
fn quota_single_line_layout() {
    let out = format!("{}      /dev/sda1  1234*  2048  4096  -  100  200  400  -\n", HEADER);
    assert_eq!(parse_quota_kb(&out), Some((1234, 4096)));
    assert_eq!(parse_quota_output(&out), Some((1234 * 1024, 4096 * 1024)));
}

#[test]
fn quota_two_line_layout_falls_back_to_soft_limit() {
    let out = format!("{}/dev/sdb1\n    500   1000   0   0   10  0  0\n", HEADER);
    assert_eq!(parse_quota_output(&out), Some((512000, 1024000)));
}

#[test]
fn quota_layouts_give_the_same_reading() {
    let one = format!("{}/dev/sda1 700 800 900\n", HEADER);
    let two = format!("{}/dev/sda1\n700 800 900\n", HEADER);
    assert_eq!(parse_quota_output(&one), parse_quota_output(&two));
    assert_eq!(parse_quota_output(&one), Some((700 * 1024, 900 * 1024)));
}

#[test]
fn quota_without_any_limit_is_none() {
    assert_eq!(parse_quota_output("/dev/sda1 10 0 0\n"), None);
}

#[test]
fn quota_with_unreadable_usage_is_none() {
    assert_eq!(parse_quota_output("/dev/sda1 abc 10 20\n/dev/sdb1 1 2 3\n"), None);
}

#[test]
fn quota_empty_or_headers_only_is_none() {
    assert_eq!(parse_quota_output(""), None);
    assert_eq!(parse_quota_output(HEADER), None);
}

#[test]
fn quota_short_line_is_skipped() {
    assert_eq!(parse_quota_output("/dev/sda1 12 34\n/dev/sdb1 5 6 7 8\n"), Some((5 * 1024, 7 * 1024)));
}

#[test]
fn quota_windows_line_endings() {
    assert_eq!(parse_quota_output("/dev/sda1\r\n 3 4 5\r\n"), Some((3 * 1024, 5 * 1024)));
}

#[test]
fn quota_plus_sign_and_leading_zeros() {
    assert_eq!(parse_quota_kb("/x +007 0 +12\n"), Some((7, 12)));
    assert_eq!(parse_quota_kb("/x - 0 12\n"), None);
}

#[test]
fn quota_kb_reports_values_too_large_for_bytes() {
    let big = u64::MAX / 1024 + 1;
    let out = format!("/dev/sda1 {} 1 1\n", big);
    assert_eq!(parse_quota_kb(&out), Some((big, 1)));
}

#[test]
fn quota_number_overflowing_u64_is_none() {
    assert_eq!(parse_quota_kb("/dev/sda1 18446744073709551616 1 1\n"), None);
    assert_eq!(parse_quota_kb("/dev/sda1 18446744073709551615 1 1\n"), Some((u64::MAX, 1)));
}

#[test]
fn df_last_line() {
    assert_eq!(
        parse_df_output("/dev/sda1 1000000 250000 750000 25% /home\n"),
        Some((250000, 1000000))
    );
}

#[test]
fn df_header_or_garbage_is_none() {
    assert_eq!(parse_df_output("Filesystem\n"), None);
    assert_eq!(parse_df_output("fs size used\n"), None);
    assert_eq!(parse_df_output(""), None);
}

#[test]
fn stats_trim_home_and_default_usage() {
    let s = StorageStats::from_probe("  /home/u1\n", Some((1, 2)));
    assert_eq!(s.home_dir, "/home/u1");
    assert_eq!((s.used_bytes, s.total_bytes), (1, 2));
    let t = StorageStats::from_probe(" \n\t", None);
    assert_eq!(t.home_dir, ".");
    assert_eq!((t.used_bytes, t.total_bytes), (0, 0));
}

#[test]
fn address_of_host_and_port() {
    assert_eq!(socket_address("example.com", 23), "example.com:23");
    assert_eq!(socket_address("h", 0), "h:0");
    assert_eq!(socket_address("10.0.0.1", 65535), "10.0.0.1:65535");
}

#[test]
fn home_dir_trimmed_once_or_twice_is_the_same() {
    let raw = "\t /home/u1 \r\n";
    let once = StorageStats::from_probe(raw, None);
    let twice = StorageStats::from_probe(raw.trim(), None);
    assert_eq!(once.home_dir, twice.home_dir);
    assert_eq!(once.home_dir, "/home/u1");
}

#[test]
fn quota_header_lines_do_not_change_the_reading() {
    let body = "/dev/sda1 10 20 30\n";
    let with_headers = format!("Disk quotas for u1:\n\n   File system stuff\n{}", body);
    assert_eq!(parse_quota_output(&with_headers), parse_quota_output(body));
    assert_eq!(parse_quota_output(body), Some((10 * 1024, 30 * 1024)));
}
