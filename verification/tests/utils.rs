use pagescan::utils::format_bytes;

#[test]
fn format_bytes_picks_the_largest_unit() {
    assert_eq!(format_bytes(0), "0B");
    assert_eq!(format_bytes(1023), "1023B");
    assert_eq!(format_bytes(1024), "1KB");
    assert_eq!(format_bytes(1536), "1KB");
    assert_eq!(format_bytes(0x20_0000), "2MB");
    assert_eq!(format_bytes(0x4000_0000), "1GB");
}

#[test]
fn format_bytes_stops_at_terabytes() {
    assert_eq!(format_bytes(1 << 40), "1TB");
    assert_eq!(format_bytes((1 << 40) - 1), "1023GB");
    assert_eq!(format_bytes(1 << 50), "1024TB");
    assert_eq!(format_bytes(5 << 51), "10240TB");
}

#[test]
fn format_bytes_rounds_down_at_every_step() {
    assert_eq!(format_bytes(1024 * 1024 - 1), "1023KB");
    assert_eq!(format_bytes(1024 * 1024 * 1024 - 1), "1023MB");
    assert_eq!(format_bytes(10 * 1024 * 1024 + 5), "10MB");
}
