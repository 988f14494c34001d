use std::collections::HashMap;

use pagescan::page_walker::{PageWalker, WalkError};
use pagescan::paging::{Level, TableRef};
use pagescan::range::Range;

const PRESENT: u64 = 0x1;
const PAGE_SIZE: u64 = 0x80;
const KIB4: usize = 0x1000;
const MIB2: usize = 0x20_0000;
const GIB1: usize = 0x4000_0000;

fn table(entries: &[(usize, u64)]) -> Vec<u8> {
    let mut bytes = vec![0u8; 4096];
    for (index, raw) in entries {
        bytes[index * 8..index * 8 + 8].copy_from_slice(&raw.to_le_bytes());
    }
    bytes
}

fn walk(memory: &HashMap<u64, Vec<u8>>, root: u64) -> Result<Vec<Range>, WalkError> {
    let mut walker = PageWalker::new(Some(root)).unwrap();
    walker.scan(memory)
}

/// Drives the walk one read at a time and keeps the addresses read.
fn walk_by_steps(memory: &HashMap<u64, Vec<u8>>, root: u64) -> (Result<Vec<Range>, WalkError>, Vec<u64>) {
    let mut walker = PageWalker::new(Some(root)).unwrap();
    let mut reads = Vec::new();
    while let Some(next) = walker.next_table() {
        reads.push(next.address);
        let reply = memory.get(&next.address).map(|bytes| bytes.as_slice());
        let _ = walker.supply(reply);
    }
    (walker.finish(), reads)
}

fn pairs(pages: &[Range]) -> Vec<(u64, usize)> {
    pages.iter().map(|page| (page.address(), page.size())).collect()
}

fn four_levels() -> HashMap<u64, Vec<u8>> {
    let mut memory = HashMap::new();
    memory.insert(0x1000, table(&[(0, 0x2000 | PRESENT)]));
    memory.insert(
        0x2000,
        table(&[(0, 0x3000 | PRESENT), (1, 0x4000_0000 | PRESENT | PAGE_SIZE)]),
    );
    memory.insert(
        0x3000,
        table(&[(0, 0x4000 | PRESENT), (5, 0x60_0000 | PRESENT | PAGE_SIZE)]),
    );
    memory.insert(0x4000, table(&[(3, 0x9000 | PRESENT), (1, 0x7000 | PRESENT)]));
    memory
}

#[test]
fn walk_finds_pages_of_all_three_sizes() {
    let pages = walk(&four_levels(), 0x1000).unwrap();
    assert_eq!(
        pairs(&pages),
        vec![(0x7000, KIB4), (0x9000, KIB4), (0x60_0000, MIB2), (0x4000_0000, GIB1)]
    );
}

#[test]
fn walk_by_steps_gives_what_scan_gives() {
    let memory = four_levels();
    let (pages, reads) = walk_by_steps(&memory, 0x1000);
    assert_eq!(pages, walk(&memory, 0x1000));
    assert_eq!(reads, vec![0x1000, 0x2000, 0x3000, 0x4000]);
}

#[test]
fn walk_reads_the_root_first() {
    let walker = PageWalker::new(Some(0x1ab000)).unwrap();
    assert_eq!(walker.root(), 0x1ab000);
    assert_eq!(
        walker.next_table(),
        Some(TableRef { level: Level::Pml4, address: 0x1ab000 })
    );
}

#[test]
fn walk_fails_without_a_root_table() {
    let memory = HashMap::new();
    assert_eq!(walk(&memory, 0x1000), Err(WalkError::PageMapUnreadable));
    let (pages, reads) = walk_by_steps(&memory, 0x1000);
    assert_eq!(pages, Err(WalkError::PageMapUnreadable));
    assert_eq!(reads, vec![0x1000]);
}

#[test]
fn walk_fails_on_a_root_table_that_is_cut_short() {
    let mut memory = HashMap::new();
    memory.insert(0x1000, vec![0u8; 4095]);
    assert_eq!(walk(&memory, 0x1000), Err(WalkError::PageMapUnreadable));
}

#[test]
fn supply_reports_the_root_that_was_not_read() {
    let mut walker = PageWalker::new(Some(0x1000)).unwrap();
    assert_eq!(walker.supply(None), Err(WalkError::PageMapUnreadable));
    assert_eq!(walker.next_table(), None);
    assert_eq!(walker.supply(None), Ok(()));
    assert_eq!(walker.finish(), Err(WalkError::PageMapUnreadable));
}

#[test]
fn walker_needs_the_root_address() {
    assert!(matches!(PageWalker::new(None), Err(WalkError::MetadataUnavailable)));
}

#[test]
fn walk_of_an_empty_root_finds_nothing() {
    let mut memory = HashMap::new();
    memory.insert(0x1000, table(&[]));
    assert_eq!(walk(&memory, 0x1000), Ok(vec![]));
}

#[test]
fn walk_skips_entries_that_are_absent_or_zero() {
    let mut memory = HashMap::new();
    memory.insert(
        0x1000,
        table(&[
            (0, 0x2000),
            (1, PRESENT),
            (2, 0x8000_0000_0000_0fff),
            (3, 0x3000 | PRESENT),
        ]),
    );
    memory.insert(0x2000, table(&[(0, 0x4000_0000 | PRESENT | PAGE_SIZE)]));
    memory.insert(0x3000, table(&[(0, 0x8000_0000 | PAGE_SIZE), (1, PRESENT | PAGE_SIZE)]));
    let (pages, reads) = walk_by_steps(&memory, 0x1000);
    assert_eq!(pages, Ok(vec![]));
    assert_eq!(reads, vec![0x1000, 0x3000]);
}

#[test]
fn walk_skips_a_table_that_cannot_be_read() {
    let mut memory = four_levels();
    memory.remove(&0x3000);
    assert_eq!(pairs(&walk(&memory, 0x1000).unwrap()), vec![(0x4000_0000, GIB1)]);
    let mut memory = four_levels();
    memory.remove(&0x4000);
    assert_eq!(
        pairs(&walk(&memory, 0x1000).unwrap()),
        vec![(0x60_0000, MIB2), (0x4000_0000, GIB1)]
    );
}

#[test]
fn huge_page_is_one_range_and_no_read() {
    let mut memory = HashMap::new();
    memory.insert(0x1000, table(&[(0, 0x2000 | PRESENT)]));
    memory.insert(0x2000, table(&[(7, 0x1_c000_0000 | PRESENT | PAGE_SIZE)]));
    memory.insert(0x1_c000_0000, table(&[(0, 0x5000 | PRESENT)]));
    let (pages, reads) = walk_by_steps(&memory, 0x1000);
    assert_eq!(pairs(&pages.unwrap()), vec![(0x1_c000_0000, GIB1)]);
    assert_eq!(reads, vec![0x1000, 0x2000]);
}

#[test]
fn large_page_is_one_range_and_no_read() {
    let mut memory = HashMap::new();
    memory.insert(0x1000, table(&[(0, 0x2000 | PRESENT)]));
    memory.insert(0x2000, table(&[(0, 0x3000 | PRESENT)]));
    memory.insert(0x3000, table(&[(9, 0xa0_0000 | PRESENT | PAGE_SIZE)]));
    memory.insert(0xa0_0000, table(&[(0, 0x5000 | PRESENT)]));
    let (pages, reads) = walk_by_steps(&memory, 0x1000);
    assert_eq!(pairs(&pages.unwrap()), vec![(0xa0_0000, MIB2)]);
    assert_eq!(reads, vec![0x1000, 0x2000, 0x3000]);
}

#[test]
fn page_size_bit_means_nothing_in_a_page_table_or_the_root() {
    let mut memory = HashMap::new();
    memory.insert(0x1000, table(&[(0, 0x2000 | PRESENT | PAGE_SIZE)]));
    memory.insert(0x2000, table(&[(0, 0x3000 | PRESENT)]));
    memory.insert(0x3000, table(&[(0, 0x4000 | PRESENT)]));
    memory.insert(0x4000, table(&[(0, 0x5000 | PRESENT | PAGE_SIZE)]));
    assert_eq!(pairs(&walk(&memory, 0x1000).unwrap()), vec![(0x5000, KIB4)]);
}

#[test]
fn large_page_address_is_cut_to_its_size() {
    let mut memory = HashMap::new();
    memory.insert(0x1000, table(&[(0, 0x2000 | PRESENT)]));
    memory.insert(
        0x2000,
        table(&[(0, 0x3000 | PRESENT), (1, 0x8000_1000 | PRESENT | PAGE_SIZE)]),
    );
    memory.insert(0x3000, table(&[(0, 0x40_1000 | PRESENT | PAGE_SIZE)]));
    assert_eq!(
        pairs(&walk(&memory, 0x1000).unwrap()),
        vec![(0x40_0000, MIB2), (0x8000_0000, GIB1)]
    );
}

#[test]
fn page_reached_twice_is_found_once() {
    let mut memory = HashMap::new();
    memory.insert(0x1000, table(&[(0, 0x2000 | PRESENT), (1, 0x2000 | PRESENT)]));
    memory.insert(0x2000, table(&[(0, 0x3000 | PRESENT), (4, 0x6000 | PRESENT)]));
    memory.insert(0x3000, table(&[(0, 0x4000 | PRESENT)]));
    memory.insert(0x6000, table(&[(0, 0x4000 | PRESENT)]));
    memory.insert(0x4000, table(&[(0, 0x7000 | PRESENT), (1, 0x7000 | PRESENT)]));
    assert_eq!(pairs(&walk(&memory, 0x1000).unwrap()), vec![(0x7000, KIB4)]);
}

#[test]
fn pages_at_one_address_with_two_sizes_are_both_found() {
    let mut memory = HashMap::new();
    memory.insert(0x1000, table(&[(0, 0x2000 | PRESENT)]));
    memory.insert(
        0x2000,
        table(&[(0, 0x4000_0000 | PRESENT | PAGE_SIZE), (1, 0x3000 | PRESENT)]),
    );
    memory.insert(
        0x3000,
        table(&[(0, 0x4000_0000 | PRESENT | PAGE_SIZE), (1, 0x4000 | PRESENT)]),
    );
    memory.insert(0x4000, table(&[(0, 0x4000_0000 | PRESENT)]));
    assert_eq!(
        pairs(&walk(&memory, 0x1000).unwrap()),
        vec![(0x4000_0000, KIB4), (0x4000_0000, MIB2), (0x4000_0000, GIB1)]
    );
}

#[test]
fn pages_come_out_in_ascending_order_whatever_the_order_of_the_entries() {
    let ascending = [0x10_0000u64, 0x20_0000, 0x30_0000, 0x40_0000, 0x50_0000];
    let orders: [[usize; 5]; 3] = [[0, 1, 2, 3, 4], [4, 3, 2, 1, 0], [2, 4, 0, 3, 1]];
    for order in orders {
        let mut memory = HashMap::new();
        memory.insert(0x1000, table(&[(0, 0x2000 | PRESENT)]));
        memory.insert(0x2000, table(&[(0, 0x3000 | PRESENT)]));
        memory.insert(0x3000, table(&[(0, 0x4000 | PRESENT)]));
        let entries: Vec<(usize, u64)> = order
            .iter()
            .enumerate()
            .map(|(slot, pick)| (slot * 100, ascending[*pick] | PRESENT))
            .collect();
        memory.insert(0x4000, table(&entries));
        let expected: Vec<(u64, usize)> = ascending.iter().map(|address| (*address, KIB4)).collect();
        assert_eq!(pairs(&walk(&memory, 0x1000).unwrap()), expected);
    }
}

#[test]
fn walking_twice_gives_the_same_pages() {
    let memory = four_levels();
    let first = walk(&memory, 0x1000);
    let second = walk(&memory, 0x1000);
    assert_eq!(first, second);
    let mut walker = PageWalker::new(Some(0x1000)).unwrap();
    let once = walker.scan(&memory);
    let again = walker.scan(&memory);
    assert_eq!(once, again);
}

#[test]
fn walker_that_has_walked_walks_anew() {
    let first = four_levels();
    let mut second = HashMap::new();
    second.insert(0x1000, table(&[(2, 0x8000 | PRESENT)]));
    second.insert(0x8000, table(&[(0, 0x1_8000_0000 | PRESENT | PAGE_SIZE)]));
    let mut walker = PageWalker::new(Some(0x1000)).unwrap();
    assert_eq!(
        pairs(&walker.scan(&first).unwrap()),
        vec![(0x7000, KIB4), (0x9000, KIB4), (0x60_0000, MIB2), (0x4000_0000, GIB1)]
    );
    assert_eq!(pairs(&walker.scan(&second).unwrap()), vec![(0x1_8000_0000, GIB1)]);
    assert_eq!(walker.scan(&HashMap::new()), Err(WalkError::PageMapUnreadable));
    let mut empty = HashMap::new();
    empty.insert(0x1000, table(&[]));
    assert_eq!(walker.scan(&empty), Ok(vec![]));
    assert_eq!(pairs(&walker.scan(&first).unwrap()).len(), 4);
}

#[test]
fn walker_that_is_set_back_reads_the_root_again() {
    let memory = four_levels();
    let mut walker = PageWalker::new(Some(0x1000)).unwrap();
    let _ = walker.supply(memory.get(&0x1000).map(|bytes| bytes.as_slice()));
    assert_eq!(walker.next_table(), Some(TableRef { level: Level::Pdpt, address: 0x2000 }));
    walker.restart();
    assert_eq!(walker.next_table(), Some(TableRef { level: Level::Pml4, address: 0x1000 }));
    assert_eq!(walker.finish(), Ok(vec![]));
    assert_eq!(walker.supply(None), Err(WalkError::PageMapUnreadable));
    walker.restart();
    assert_eq!(walker.finish(), Ok(vec![]));
    assert_eq!(walker.root(), 0x1000);
}

#[test]
fn root_that_points_at_itself_ends() {
    let mut memory = HashMap::new();
    memory.insert(0x1000, table(&[(0x1ed, 0x1000 | PRESENT)]));
    let (pages, reads) = walk_by_steps(&memory, 0x1000);
    assert_eq!(pairs(&pages.unwrap()), vec![(0x1000, KIB4)]);
    assert_eq!(reads, vec![0x1000, 0x1000, 0x1000, 0x1000]);
}

#[test]
fn full_table_gives_512_pages() {
    let mut memory = HashMap::new();
    memory.insert(0x1000, table(&[(511, 0x2000 | PRESENT)]));
    memory.insert(0x2000, table(&[(511, 0x3000 | PRESENT)]));
    memory.insert(0x3000, table(&[(511, 0x4000 | PRESENT)]));
    let entries: Vec<(usize, u64)> = (0..512)
        .map(|index| (index, (0x100_0000 + 0x1000 * (511 - index as u64)) | PRESENT))
        .collect();
    memory.insert(0x4000, table(&entries));
    let pages = walk(&memory, 0x1000).unwrap();
    assert_eq!(pages.len(), 512);
    assert_eq!(pages[0].address(), 0x100_0000);
    assert_eq!(pages[511].address(), 0x100_0000 + 0x1000 * 511);
}
