use std::cmp::Ordering;
use std::collections::HashSet;

use pagescan::range::Range;

#[test]
fn range_keeps_address_and_size() {
    let range = Range::new(0x20_0000, 0x20_0000);
    assert_eq!(range.address(), 0x20_0000);
    assert_eq!(range.size(), 0x20_0000);
}

#[test]
fn ranges_are_equal_when_both_fields_are() {
    assert_eq!(Range::new(0x4000_0000, 0x1000), Range::new(0x4000_0000, 0x1000));
    assert_ne!(Range::new(0x4000_0000, 0x1000), Range::new(0x4000_0000, 0x20_0000));
    assert_ne!(Range::new(0x4000_0000, 0x1000), Range::new(0x4000_1000, 0x1000));
    let mut set = HashSet::new();
    assert!(set.insert(Range::new(0x4000_0000, 0x1000)));
    assert!(!set.insert(Range::new(0x4000_0000, 0x1000)));
    assert!(set.insert(Range::new(0x4000_0000, 0x4000_0000)));
    assert_eq!(set.len(), 2);
}

#[test]
fn ranges_are_ordered_by_address_alone() {
    let low = Range::new(0x1000, 0x1000);
    let high = Range::new(0x4000_0000, 0x1000);
    let huge = Range::new(0x4000_0000, 0x4000_0000);
    assert_eq!(low.partial_cmp(&high), Some(Ordering::Less));
    assert_eq!(high.partial_cmp(&low), Some(Ordering::Greater));
    assert_eq!(high.partial_cmp(&huge), Some(Ordering::Equal));
    assert!(low < high);
    assert!(!(high < huge) && !(huge < high));
}

#[test]
fn checked_takes_valid_pages_only() {
    assert_eq!(Range::checked(0x1000, 0x1000), Some(Range::new(0x1000, 0x1000)));
    assert_eq!(Range::checked(0, 0x4000_0000), Some(Range::new(0, 0x4000_0000)));
    assert_eq!(Range::checked(0x1000, 0x2000), None);
    assert_eq!(Range::checked(0x1000, 0), None);
    assert_eq!(Range::checked(0x1800, 0x1000), None);
    assert_eq!(Range::checked(0x20_1000, 0x20_0000), None);
    assert_eq!(Range::checked(0x8000_0000, 0x4000_0000), Some(Range::new(0x8000_0000, 0x4000_0000)));
    assert_eq!(
        Range::checked(0xffff_ffff_ffff_f000, 0x1000),
        Some(Range::new(0xffff_ffff_ffff_f000, 0x1000))
    );
}
