use dust::format::format_size;

#[test]
fn bytes_below_one_kilobyte() {
    assert_eq!(format_size(0), "0 B");
    assert_eq!(format_size(1), "1 B");
    assert_eq!(format_size(512), "512 B");
    assert_eq!(format_size(1023), "1023 B");
}

#[test]
fn kilobyte_boundaries() {
    assert_eq!(format_size(1024), "1.00 KB");
    assert_eq!(format_size(1536), "1.50 KB");
    assert_eq!(format_size(1024 * 1024 - 1), "1024.00 KB");
}

#[test]
fn megabytes_and_gigabytes() {
    assert_eq!(format_size(1024 * 1024), "1.00 MB");
    assert_eq!(format_size(1024 * 1024 * 1024), "1.00 GB");
    assert_eq!(format_size(1_073_741_824), "1.00 GB");
    assert_eq!(format_size(2_684_354_560), "2.50 GB");
}

#[test]
fn hundredths_round_ties_to_even() {
    // 1152 / 1024 = 1.125 exactly: the hundredths tie rounds down to 12.
    assert_eq!(format_size(1152), "1.12 KB");
    // 1408 / 1024 = 1.375 exactly: the hundredths tie rounds up to 38.
    assert_eq!(format_size(1408), "1.38 KB");
}

#[test]
fn largest_sizes_do_not_overflow() {
    let s = format_size(u64::MAX);
    assert!(s.ends_with(" GB"));
}
