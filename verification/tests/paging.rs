use pagescan::paging::{classify, decode_table, Level, Slot, TableRef};
use pagescan::range::Range;
use x86::bits64::paging::{PDEntry, PDFlags, PDPTEntry, PDPTFlags, PML4Entry, PTEntry};

#[test]
fn decode_table_reads_entries_least_significant_byte_first() {
    let mut bytes = vec![0u8; 4096];
    bytes[0..8].copy_from_slice(&[0x01, 0x02, 0x03, 0x04, 0x05, 0x06, 0x07, 0x08]);
    bytes[4088..4096].copy_from_slice(&[0xff, 0, 0, 0, 0, 0, 0, 0x80]);
    let entries = decode_table(&bytes).unwrap();
    assert_eq!(entries.len(), 512);
    assert_eq!(entries[0], 0x0807_0605_0403_0201);
    assert_eq!(entries[1], 0);
    assert_eq!(entries[511], 0x8000_0000_0000_00ff);
}

#[test]
fn decode_table_takes_whole_tables_only() {
    assert_eq!(decode_table(&[]), None);
    assert_eq!(decode_table(&vec![0u8; 4095]), None);
    assert_eq!(decode_table(&vec![0u8; 4097]), None);
    assert!(decode_table(&vec![0u8; 4096]).is_some());
}

#[test]
fn classify_follows_present_entries_to_the_next_level() {
    assert_eq!(
        classify(Level::Pml4, 0x1234_5067),
        Slot::Table(TableRef { level: Level::Pdpt, address: 0x1234_5000 })
    );
    assert_eq!(
        classify(Level::Pdpt, 0x1234_5067),
        Slot::Table(TableRef { level: Level::Pd, address: 0x1234_5000 })
    );
    assert_eq!(
        classify(Level::Pd, 0x1234_5067),
        Slot::Table(TableRef { level: Level::Pt, address: 0x1234_5000 })
    );
    assert_eq!(classify(Level::Pt, 0x1234_5067), Slot::Page(Range::new(0x1234_5000, 0x1000)));
}

#[test]
fn classify_takes_the_page_size_bit_for_a_page() {
    assert_eq!(
        classify(Level::Pdpt, 0x8000_0001_4000_00e7),
        Slot::Page(Range::new(0x1_4000_0000, 0x4000_0000))
    );
    assert_eq!(classify(Level::Pd, 0x1260_00e7), Slot::Page(Range::new(0x1260_0000, 0x20_0000)));
    assert_eq!(
        classify(Level::Pml4, 0x1234_50e7),
        Slot::Table(TableRef { level: Level::Pdpt, address: 0x1234_5000 })
    );
}

#[test]
fn classify_drops_entries_that_are_absent_or_zero() {
    assert_eq!(classify(Level::Pml4, 0x1234_5066), Slot::Absent);
    assert_eq!(classify(Level::Pt, 0x1234_5000), Slot::Absent);
    assert_eq!(classify(Level::Pt, 0xfff), Slot::Absent);
    assert_eq!(classify(Level::Pd, 0x1f_f0e7), Slot::Absent);
    assert_eq!(classify(Level::Pdpt, 0x3fff_f0e7), Slot::Absent);
    assert_eq!(classify(Level::Pml4, 0xfff0_0000_0000_0fff), Slot::Absent);
}

#[test]
fn classify_reads_entries_as_the_x86_crate_does() {
    let samples: [u64; 8] = [
        0,
        0x1,
        0x1234_5067,
        0x8000_0001_4000_00e7,
        0xffff_ffff_ffff_ffff,
        0x000f_ffff_ffff_f000,
        0x7777_7777_7777_7776,
        0x0000_0000_0020_0081,
    ];
    for raw in samples {
        let entry = PML4Entry(raw);
        let expected = if entry.is_present() && entry.address().as_u64() != 0 {
            Slot::Table(TableRef { level: Level::Pdpt, address: entry.address().as_u64() })
        } else {
            Slot::Absent
        };
        assert_eq!(classify(Level::Pml4, raw), expected);

        let entry = PTEntry(raw);
        let expected = if entry.is_present() && entry.address().as_u64() != 0 {
            Slot::Page(Range::new(entry.address().as_u64(), 0x1000))
        } else {
            Slot::Absent
        };
        assert_eq!(classify(Level::Pt, raw), expected);

        let entry = PDPTEntry(raw);
        if !entry.flags().contains(PDPTFlags::PS) {
            let expected = if entry.is_present() && entry.address().as_u64() != 0 {
                Slot::Table(TableRef { level: Level::Pd, address: entry.address().as_u64() })
            } else {
                Slot::Absent
            };
            assert_eq!(classify(Level::Pdpt, raw), expected);
        } else {
            assert!(!matches!(classify(Level::Pdpt, raw), Slot::Table(_)));
        }

        let entry = PDEntry(raw);
        if !entry.flags().contains(PDFlags::PS) {
            let expected = if entry.is_present() && entry.address().as_u64() != 0 {
                Slot::Table(TableRef { level: Level::Pt, address: entry.address().as_u64() })
            } else {
                Slot::Absent
            };
            assert_eq!(classify(Level::Pd, raw), expected);
        } else {
            assert!(!matches!(classify(Level::Pd, raw), Slot::Table(_)));
        }
    }
}

#[test]
fn levels_go_down_to_the_page_table() {
    assert_eq!(Level::Pml4.below(), Level::Pdpt);
    assert_eq!(Level::Pdpt.below(), Level::Pd);
    assert_eq!(Level::Pd.below(), Level::Pt);
    assert_eq!(Level::Pdpt.page_bytes(), 0x4000_0000);
    assert_eq!(Level::Pd.page_bytes(), 0x20_0000);
    assert_eq!(Level::Pt.page_bytes(), 0x1000);
}
