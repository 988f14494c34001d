//! A span of guest physical memory that one leaf entry of a page table maps.

use std::cmp::Ordering;
use vstd::prelude::*;
use vstd::std_specs::cmp::PartialOrdSpecImpl;

verus! {

/// Bytes mapped by a leaf entry of a page table.
pub const PAGE_4K: usize = 0x1000;

/// Bytes mapped by a leaf entry of a page directory.
pub const PAGE_2M: usize = 0x20_0000;

/// Bytes mapped by a leaf entry of a page-directory-pointer table.
pub const PAGE_1G: usize = 0x4000_0000;

/// Whether `size` is one of the three page sizes, `address` is a multiple of
/// it, and the span ends no later than the top of the 64-bit address space.
pub open spec fn valid_page(address: u64, size: usize) -> bool {
    &&& (size == PAGE_4K || size == PAGE_2M || size == PAGE_1G)
    &&& address % (size as u64) == 0
    &&& address + size <= 0x1_0000_0000_0000_0000
}

/// Strict order of `(address, size)` pairs: by address, then by size.
pub open spec fn key_lt(a: (u64, usize), b: (u64, usize)) -> bool {
    a.0 < b.0 || (a.0 == b.0 && a.1 < b.1)
}

/// Whether each pair of `keys` is smaller than all that follow it.
pub open spec fn strictly_ascending(keys: Seq<(u64, usize)>) -> bool {
    forall|i: int, j: int| 0 <= i < j < keys.len() ==> key_lt(#[trigger] keys[i], #[trigger] keys[j])
}

/// A physical page: its base address and its length in bytes.
///
/// Every value is a valid page in the sense of [`valid_page`].
#[derive(Debug, Copy, Clone, PartialEq, Eq, Structural, Hash)]
pub struct Range {
    address: u64,
    size: usize,
}

impl View for Range {
    type V = (u64, usize);

    closed spec fn view(&self) -> (u64, usize) {
        (self.address, self.size)
    }
}

impl Range {
    #[verifier::type_invariant]
    spec fn well_formed(self) -> bool {
        valid_page(self.address, self.size)
    }

    /// The page of `size` bytes at `address`.
    pub fn new(address: u64, size: usize) -> (range: Self)
        requires
            valid_page(address, size),
        ensures
            range@ == (address, size),
    {
        Range { address, size }
    }

    /// The page of `size` bytes at `address`, where that is a valid page.
    pub fn checked(address: u64, size: usize) -> (range: Option<Self>)
        ensures
            range is Some <==> valid_page(address, size),
            range matches Some(r) ==> r@ == (address, size),
    {
        if size != PAGE_4K && size != PAGE_2M && size != PAGE_1G {
            return None;
        }
        let span: u64 = size as u64;
        if address % span != 0 {
            return None;
        }
        if address > u64::MAX - (span - 1) {
            return None;
        }
        Some(Range { address, size })
    }

    /// Base address of the page.
    pub fn address(&self) -> (address: u64)
        ensures
            address == self@.0,
            valid_page(self@.0, self@.1),
    {
        proof {
            use_type_invariant(self);
        }
        self.address
    }

    /// Length of the page in bytes.
    pub fn size(&self) -> (size: usize)
        ensures
            size == self@.1,
            valid_page(self@.0, self@.1),
    {
        proof {
            use_type_invariant(self);
        }
        self.size
    }
}

impl PartialOrd for Range {
    /// Pages are ordered by address alone: two pages at one address are
    /// equal in order, whatever their sizes.
    fn partial_cmp(&self, other: &Self) -> (order: Option<Ordering>) {
        if self.address < other.address {
            Some(Ordering::Less)
        } else if self.address == other.address {
            Some(Ordering::Equal)
        } else {
            Some(Ordering::Greater)
        }
    }
}

impl PartialOrdSpecImpl for Range {
    open spec fn obeys_partial_cmp_spec() -> bool {
        true
    }

    open spec fn partial_cmp_spec(&self, other: &Self) -> Option<Ordering> {
        if self@.0 < other@.0 {
            Some(Ordering::Less)
        } else if self@.0 == other@.0 {
            Some(Ordering::Equal)
        } else {
            Some(Ordering::Greater)
        }
    }
}

/// Two pages with the same address and size are the same page.
pub proof fn lemma_range_by_view(a: Range, b: Range)
    requires
        a@ == b@,
    ensures
        a == b,
{
}

} // verus!
