//! The walk of a guest's page tables: which table to read next, what a
//! table that was read adds, and the pages found at the end.

use std::collections::HashMap;
use vstd::prelude::*;
use crate::model::{
    fails, lemma_start, lemma_step_decreases_work, lemma_step_keeps_failure, lemma_step_keeps_reach,
    mapped_pages, pages_from, reach, start, step, table_at, tables_from, usable, work, WalkModel,
};
use crate::pageset::{keys_of, lemma_ascending_pages_unique, PageSet};
use crate::paging::{classify, decode_table, entries_of, Level, Slot, TableRef, TABLE_ENTRIES};
use crate::range::{strictly_ascending, valid_page, Range};

verus! {

/// Why a walk gave no pages.
#[derive(Debug, Copy, Clone, PartialEq, Eq, Structural)]
pub enum WalkError {
    /// The address of the root table could not be resolved.
    MetadataUnavailable,
    /// The root table could not be read.
    PageMapUnreadable,
}

/// The reply to a read, as a value of the model.
pub open spec fn reply_view(reply: Option<&[u8]>) -> Option<Seq<u8>> {
    match reply {
        Some(bytes) => Some(bytes@),
        None => None,
    }
}

/// A captured memory as a value of the model.
pub open spec fn image(memory: Map<u64, Vec<u8>>) -> Map<u64, Seq<u8>> {
    memory.map_values(|table: Vec<u8>| table@)
}

/// A walk of the page tables under one root table.
///
/// The walk asks for one table at a time with [`PageWalker::next_table`]
/// and takes the reply with [`PageWalker::supply`], until no table is left.
pub struct PageWalker {
    root: u64,
    pending: Vec<TableRef>,
    pages: PageSet,
    failed: bool,
}

impl View for PageWalker {
    type V = WalkModel;

    closed spec fn view(&self) -> WalkModel {
        WalkModel { pending: self.pending@, pages: self.pages@, failed: self.failed }
    }
}

impl PageWalker {
    /// Whether every page found is a valid page.
    pub closed spec fn wf(&self) -> bool {
        self.pages.wf()
    }

    /// The root table's address.
    pub closed spec fn spec_root(&self) -> u64 {
        self.root
    }

    /// A walk from the root table at `dtb`, the address that the guest's
    /// kernel was found to use; `None` where it could not be resolved.
    pub fn new(dtb: Option<u64>) -> (walker: Result<Self, WalkError>)
        ensures
            match walker {
                Ok(w) => dtb == Some(w.spec_root()) && w.wf() && w@ == start(w.spec_root()),
                Err(e) => dtb is None && e == WalkError::MetadataUnavailable,
            },
    {
        match dtb {
            Some(root) => {
                let mut pending: Vec<TableRef> = Vec::new();
                pending.push(TableRef { level: Level::Pml4, address: root });
                let walker = PageWalker { root, pending, pages: PageSet::new(), failed: false };
                assert(walker@.pending =~= start(root).pending);
                Ok(walker)
            },
            None => Err(WalkError::MetadataUnavailable),
        }
    }

    /// The root table's address.
    #[verifier::when_used_as_spec(spec_root)]
    pub fn root(&self) -> (root: u64)
        ensures
            root == self.spec_root(),
    {
        self.root
    }

    /// The table to read next: 4096 bytes at its address. `None` when the
    /// walk is complete.
    pub fn next_table(&self) -> (next: Option<TableRef>)
        ensures
            next == if self@.pending.len() > 0 {
                Some(self@.pending.last())
            } else {
                None::<TableRef>
            },
    {
        let n: usize = self.pending.len();
        if n > 0 {
            Some(self.pending[n - 1])
        } else {
            None
        }
    }

    /// Takes the reply to the read of [`PageWalker::next_table`]: the bytes
    /// read, or `None` where the read failed.
    ///
    /// The walk moves on by one [`step`]. A table that could not be read is
    /// skipped with all below it; only for the root table is that an error.
    /// When the walk is complete already, nothing changes.
    pub fn supply(&mut self, reply: Option<&[u8]>) -> (outcome: Result<(), WalkError>)
        requires
            old(self).wf(),
        ensures
            final(self).wf(),
            final(self).spec_root() == old(self).spec_root(),
            final(self)@ == if old(self)@.pending.len() > 0 {
                step(old(self)@, reply_view(reply))
            } else {
                old(self)@
            },
            outcome is Err <==> old(self)@.pending.len() > 0 && old(self)@.pending.last().level
                == Level::Pml4 && usable(reply_view(reply)) is None,
            outcome matches Err(e) ==> e == WalkError::PageMapUnreadable,
    {
        let table = match self.pending.pop() {
            Some(table) => table,
            None => {
                assert(self@.pending =~= old(self)@.pending);
                return Ok(());
            },
        };
        let decoded = match reply {
            Some(bytes) => decode_table(bytes),
            None => None,
        };
        let ghost rest = old(self)@.pending.drop_last();
        let ghost found = old(self)@.pages;
        assert(self.pending@ =~= rest);
        match decoded {
            None => {
                if table.level == Level::Pml4 {
                    self.failed = true;
                    Err(WalkError::PageMapUnreadable)
                } else {
                    Ok(())
                }
            },
            Some(entries) => {
                let ghost all = entries@;
                assert(all == entries_of(usable(reply_view(reply))->0));
                let mut index: usize = TABLE_ENTRIES;
                assert(self.pages@ =~= found.union(pages_from(table.level, all, index as int)));
                while index > 0
                    invariant
                        index <= TABLE_ENTRIES,
                        entries@ == all,
                        all.len() == TABLE_ENTRIES,
                        self.pages.wf(),
                        self.root == old(self).root,
                        self.failed == old(self).failed,
                        self.pending@ == rest + tables_from(table.level, all, index as int),
                        self.pages@ == found.union(pages_from(table.level, all, index as int)),
                    decreases index,
                {
                    index -= 1;
                    let ghost before = self.pages@;
                    match classify(table.level, entries[index]) {
                        Slot::Absent => {},
                        Slot::Page(page) => {
                            self.pages.insert(page);
                        },
                        Slot::Table(child) => {
                            self.pending.push(child);
                        },
                    }
                    proof {
                        crate::paging::lemma_page_or_table(table.level, all[index as int]);
                        assert(self.pending@ =~= rest + tables_from(table.level, all, index as int));
                        assert(self.pages@ =~= found.union(pages_from(table.level, all, index as int)));
                    }
                }
                Ok(())
            },
        }
    }

    /// The pages found so far, or the error of a walk that has failed.
    pub fn finish(&self) -> (outcome: Result<Vec<Range>, WalkError>)
        requires
            self.wf(),
        ensures
            outcome is Err <==> self@.failed,
            outcome matches Err(e) ==> e == WalkError::PageMapUnreadable,
            outcome matches Ok(pages) ==> {
                &&& strictly_ascending(keys_of(pages@))
                &&& keys_of(pages@).to_set() == self@.pages
                &&& forall|i: int| 0 <= i < pages@.len() ==> valid_page((#[trigger] pages@[i])@.0, pages@[i]@.1)
            },
    {
        if self.failed {
            Err(WalkError::PageMapUnreadable)
        } else {
            Ok(self.pages.to_vec())
        }
    }

    /// Sets the walk back to its start: the root table is to be read next,
    /// and nothing is found yet.
    pub fn restart(&mut self)
        ensures
            final(self).wf(),
            final(self).spec_root() == old(self).spec_root(),
            final(self)@ == start(old(self).spec_root()),
    {
        let mut pending: Vec<TableRef> = Vec::new();
        pending.push(TableRef { level: Level::Pml4, address: self.root });
        self.pending = pending;
        self.pages = PageSet::new();
        self.failed = false;
        assert(self@.pending =~= start(self.root).pending);
    }

    /// Walks the tables held in `memory`, a capture of guest memory that
    /// gives the 4096 bytes at each address that can be read.
    ///
    /// Every walk begins anew at the root table, whatever the walker has
    /// read or found before. The result holds each page that the tables of
    /// `memory` map, once, in ascending order of address. The walk fails
    /// where the root table is missing from `memory` or is not 4096 bytes
    /// long, and there only.
    pub fn scan(&mut self, memory: &HashMap<u64, Vec<u8>>) -> (outcome: Result<Vec<Range>, WalkError>)
        requires
            old(self).wf(),
        ensures
            final(self).wf(),
            final(self).spec_root() == old(self).spec_root(),
            final(self)@.pending.len() == 0,
            final(self)@.pages == mapped_pages(image(memory@), old(self).spec_root()),
            final(self)@.failed == (table_at(image(memory@), old(self).spec_root()) is None),
            outcome is Err <==> table_at(image(memory@), old(self).spec_root()) is None,
            outcome matches Err(e) ==> e == WalkError::PageMapUnreadable,
            outcome matches Ok(pages) ==> {
                &&& strictly_ascending(keys_of(pages@))
                &&& keys_of(pages@).to_set() == mapped_pages(image(memory@), old(self).spec_root())
                &&& forall|i: int| 0 <= i < pages@.len() ==> valid_page((#[trigger] pages@[i])@.0, pages@[i]@.1)
            },
    {
        broadcast use vstd::std_specs::hash::group_hash_axioms;

        let ghost guest = image(memory@);
        self.restart();
        proof {
            lemma_start(guest, self.root);
        }
        loop
            invariant
                self.wf(),
                self.root == old(self).root,
                guest == image(memory@),
                reach(guest, self@) == mapped_pages(guest, self.root),
                fails(guest, self@) == (table_at(guest, self.root) is None),
            ensures
                self@.pending.len() == 0,
            decreases work(self@.pending),
        {
            let table = match self.next_table() {
                Some(table) => table,
                None => break,
            };
            let reply: Option<&[u8]> = match memory.get(&table.address) {
                Some(bytes) => Some(bytes.as_slice()),
                None => None,
            };
            proof {
                assert(usable(reply_view(reply)) == table_at(guest, table.address));
                lemma_step_keeps_reach(guest, self@, reply_view(reply));
                lemma_step_keeps_failure(guest, self@, reply_view(reply));
                lemma_step_decreases_work(self@, reply_view(reply));
            }
            let _ = self.supply(reply);
        }
        proof {
            lemma_complete_walk(guest, self@);
        }
        self.finish()
    }
}

/// A walk that is complete finds what it has found, in any memory, and
/// fails if it has failed.
pub proof fn lemma_complete_walk(memory: Map<u64, Seq<u8>>, state: WalkModel)
    requires
        state.pending.len() == 0,
    ensures
        reach(memory, state) == state.pages,
        fails(memory, state) == state.failed,
{
    assert(reach(memory, state) =~= state.pages);
}

/// Two walks of one captured memory from one root give the same pages in
/// the same order, whether one walker makes them or two.
pub proof fn lemma_walks_agree(memory: Map<u64, Vec<u8>>, root: u64, first: Seq<Range>, second: Seq<Range>)
    requires
        strictly_ascending(keys_of(first)),
        strictly_ascending(keys_of(second)),
        keys_of(first).to_set() == mapped_pages(image(memory), root),
        keys_of(second).to_set() == mapped_pages(image(memory), root),
    ensures
        first == second,
{
    lemma_ascending_pages_unique(first, second);
}

} // verus!
