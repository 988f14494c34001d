//! The four levels of 64-bit x86 paging and what one table entry means at
//! each of them.

use vstd::prelude::*;
use vstd::bytes::{spec_u64_from_le_bytes, u64_from_le_bytes};
use crate::range::{valid_page, Range, PAGE_1G, PAGE_2M, PAGE_4K};

verus! {

/// Entries in a table of any level.
pub const TABLE_ENTRIES: usize = 512;

/// Bytes in a table of any level.
pub const TABLE_BYTES: usize = 4096;

/// Bits 12 to 51 of an entry: the address of the next table or of a 4 KiB page.
pub const ADDRESS_MASK: u64 = 0x000f_ffff_ffff_f000;

/// Bits 21 to 51 of an entry: the address of a 2 MiB page.
pub const FRAME_2M_MASK: u64 = 0x000f_ffff_ffe0_0000;

/// Bits 30 to 51 of an entry: the address of a 1 GiB page.
pub const FRAME_1G_MASK: u64 = 0x000f_ffff_c000_0000;

/// Bit 0 of an entry: the entry is in use.
pub const PRESENT_BIT: u64 = 0x1;

/// Bit 7 of an entry: the entry maps a page itself.
pub const PAGE_SIZE_BIT: u64 = 0x80;

/// A level of the paging hierarchy, from the root down.
#[derive(Debug, Copy, Clone, PartialEq, Eq, Structural)]
pub enum Level {
    /// Page-map level 4, the root.
    Pml4,
    /// Page-directory-pointer table.
    Pdpt,
    /// Page directory.
    Pd,
    /// Page table.
    Pt,
}

/// A table still to be read: its level and where it lies.
#[derive(Debug, Copy, Clone, PartialEq, Eq, Structural)]
pub struct TableRef {
    pub level: Level,
    pub address: u64,
}

/// What one entry contributes to a walk.
#[derive(Debug, Copy, Clone, PartialEq, Eq, Structural)]
pub enum Slot {
    /// Nothing: the entry is not present, or points at address zero.
    Absent,
    /// A mapped page.
    Page(Range),
    /// A table of the next level.
    Table(TableRef),
}

impl Level {
    /// Number of levels below this one.
    pub open spec fn rank(self) -> nat {
        match self {
            Level::Pml4 => 3,
            Level::Pdpt => 2,
            Level::Pd => 1,
            Level::Pt => 0,
        }
    }

    /// The level that a table entry of this level points to.
    pub open spec fn spec_below(self) -> Level {
        match self {
            Level::Pml4 => Level::Pdpt,
            Level::Pdpt => Level::Pd,
            Level::Pd => Level::Pt,
            Level::Pt => Level::Pt,
        }
    }

    /// Size of the page that a leaf entry of this level maps. The root has
    /// no leaf entries; for it the smallest size stands here.
    pub open spec fn spec_page_bytes(self) -> usize {
        match self {
            Level::Pml4 => PAGE_4K,
            Level::Pdpt => PAGE_1G,
            Level::Pd => PAGE_2M,
            Level::Pt => PAGE_4K,
        }
    }

    /// The bits of a leaf entry of this level that hold the page's address:
    /// those of the entry's address that are a multiple of the page's size.
    pub open spec fn spec_frame_mask(self) -> u64 {
        match self {
            Level::Pml4 => ADDRESS_MASK,
            Level::Pdpt => FRAME_1G_MASK,
            Level::Pd => FRAME_2M_MASK,
            Level::Pt => ADDRESS_MASK,
        }
    }

    #[verifier::when_used_as_spec(spec_below)]
    pub fn below(self) -> (level: Level)
        ensures
            level == self.spec_below(),
    {
        match self {
            Level::Pml4 => Level::Pdpt,
            Level::Pdpt => Level::Pd,
            Level::Pd => Level::Pt,
            Level::Pt => Level::Pt,
        }
    }

    #[verifier::when_used_as_spec(spec_page_bytes)]
    pub fn page_bytes(self) -> (size: usize)
        ensures
            size == self.spec_page_bytes(),
    {
        match self {
            Level::Pml4 => PAGE_4K,
            Level::Pdpt => PAGE_1G,
            Level::Pd => PAGE_2M,
            Level::Pt => PAGE_4K,
        }
    }

    #[verifier::when_used_as_spec(spec_frame_mask)]
    pub fn frame_mask(self) -> (mask: u64)
        ensures
            mask == self.spec_frame_mask(),
    {
        match self {
            Level::Pml4 => ADDRESS_MASK,
            Level::Pdpt => FRAME_1G_MASK,
            Level::Pd => FRAME_2M_MASK,
            Level::Pt => ADDRESS_MASK,
        }
    }
}

/// Whether the entry is marked present.
pub open spec fn is_present(raw: u64) -> bool {
    raw & PRESENT_BIT == PRESENT_BIT
}

/// Whether an entry of `level` maps a page itself: always in a page table,
/// by the page-size bit in a page directory and a page-directory-pointer
/// table, never in the root.
pub open spec fn is_leaf(level: Level, raw: u64) -> bool {
    match level {
        Level::Pml4 => false,
        Level::Pdpt => raw & PAGE_SIZE_BIT == PAGE_SIZE_BIT,
        Level::Pd => raw & PAGE_SIZE_BIT == PAGE_SIZE_BIT,
        Level::Pt => true,
    }
}

/// The address that an entry of `level` points at: the page for a leaf, the
/// next table otherwise.
pub open spec fn target(level: Level, raw: u64) -> u64 {
    if is_leaf(level, raw) {
        raw & level.spec_frame_mask()
    } else {
        raw & ADDRESS_MASK
    }
}

/// Whether the entry takes part in the walk: present, with a target other
/// than zero.
pub open spec fn is_mapped(level: Level, raw: u64) -> bool {
    is_present(raw) && target(level, raw) != 0
}

/// The page that an entry of `level` maps, if it maps one.
pub open spec fn page_of(level: Level, raw: u64) -> Option<(u64, usize)> {
    if is_mapped(level, raw) && is_leaf(level, raw) {
        Some((target(level, raw), level.spec_page_bytes()))
    } else {
        None
    }
}

/// The table that an entry of `level` leads to, if it leads to one.
pub open spec fn table_of(level: Level, raw: u64) -> Option<TableRef> {
    if is_mapped(level, raw) && !is_leaf(level, raw) {
        Some(TableRef { level: level.spec_below(), address: target(level, raw) })
    } else {
        None
    }
}

/// Entry `index` of a table: eight bytes, least significant first.
pub open spec fn entry_of(table: Seq<u8>, index: int) -> u64 {
    spec_u64_from_le_bytes(table.subrange(8 * index, 8 * index + 8))
}

/// The 512 entries of a table of 4096 bytes.
pub open spec fn entries_of(table: Seq<u8>) -> Seq<u64> {
    Seq::new(TABLE_ENTRIES as nat, |index: int| entry_of(table, index))
}

/// The address of a page lies in bits 12 to 51, so the page is valid.
pub proof fn lemma_leaf_is_valid(level: Level, raw: u64)
    requires
        is_leaf(level, raw),
    ensures
        valid_page(target(level, raw), level.spec_page_bytes()),
{
    let t = target(level, raw);
    match level {
        Level::Pml4 => {},
        Level::Pdpt => {
            assert((raw & 0x000f_ffff_c000_0000u64) % 0x4000_0000u64 == 0
                && (raw & 0x000f_ffff_c000_0000u64) <= 0x000f_ffff_c000_0000u64) by (bit_vector);
        },
        Level::Pd => {
            assert((raw & 0x000f_ffff_ffe0_0000u64) % 0x20_0000u64 == 0
                && (raw & 0x000f_ffff_ffe0_0000u64) <= 0x000f_ffff_ffe0_0000u64) by (bit_vector);
        },
        Level::Pt => {
            assert((raw & 0x000f_ffff_ffff_f000u64) % 0x1000u64 == 0
                && (raw & 0x000f_ffff_ffff_f000u64) <= 0x000f_ffff_ffff_f000u64) by (bit_vector);
        },
    }
}

/// An entry with the page-size bit set maps a page and leads to no table;
/// an entry of a page table always does; an entry of the root never does.
pub proof fn lemma_page_or_table(level: Level, raw: u64)
    ensures
        !(page_of(level, raw) is Some && table_of(level, raw) is Some),
        is_mapped(level, raw) <==> page_of(level, raw) is Some || table_of(level, raw) is Some,
        level != Level::Pml4 && level != Level::Pt && raw & PAGE_SIZE_BIT == PAGE_SIZE_BIT
            ==> table_of(level, raw) is None,
        level == Level::Pt ==> table_of(level, raw) is None,
        level == Level::Pml4 ==> page_of(level, raw) is None,
        table_of(level, raw) matches Some(t) ==> t.level.rank() + 1 == level.rank(),
{
}

/// What the entry `raw` of a table of `level` contributes.
pub fn classify(level: Level, raw: u64) -> (slot: Slot)
    ensures
        match slot {
            Slot::Absent => !is_mapped(level, raw),
            Slot::Page(range) => page_of(level, raw) == Some(range@),
            Slot::Table(table) => table_of(level, raw) == Some(table),
        },
{
    if raw & PRESENT_BIT != PRESENT_BIT {
        return Slot::Absent;
    }
    let leaf = match level {
        Level::Pml4 => false,
        Level::Pdpt => raw & PAGE_SIZE_BIT == PAGE_SIZE_BIT,
        Level::Pd => raw & PAGE_SIZE_BIT == PAGE_SIZE_BIT,
        Level::Pt => true,
    };
    if leaf {
        let address: u64 = raw & level.frame_mask();
        if address == 0 {
            return Slot::Absent;
        }
        proof {
            lemma_leaf_is_valid(level, raw);
        }
        Slot::Page(Range::new(address, level.page_bytes()))
    } else {
        let address: u64 = raw & ADDRESS_MASK;
        if address == 0 {
            return Slot::Absent;
        }
        Slot::Table(TableRef { level: level.below(), address })
    }
}

/// The entries of a table read from memory, or `None` where `bytes` is not
/// a whole table.
pub fn decode_table(bytes: &[u8]) -> (entries: Option<Vec<u64>>)
    ensures
        entries is Some <==> bytes@.len() == TABLE_BYTES,
        entries matches Some(e) ==> e@ == entries_of(bytes@),
{
    if bytes.len() != TABLE_BYTES {
        return None;
    }
    let mut entries: Vec<u64> = Vec::with_capacity(TABLE_ENTRIES);
    let mut index: usize = 0;
    while index < TABLE_ENTRIES
        invariant
            index <= TABLE_ENTRIES,
            bytes@.len() == TABLE_BYTES,
            entries@.len() == index,
            forall|k: int| 0 <= k < index ==> entries@[k] == entry_of(bytes@, k),
        decreases TABLE_ENTRIES - index,
    {
        let start: usize = 8 * index;
        let raw: u64 = u64_from_le_bytes(&bytes[start..start + 8]);
        entries.push(raw);
        index += 1;
    }
    assert(entries@ =~= entries_of(bytes@));
    Some(entries)
}

} // verus!
