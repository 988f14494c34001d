//! The mathematical model of a walk: guest memory as a map from addresses to
//! table contents, the pages that the tables of such a memory map, and the
//! state of a walk that is under way.

use vstd::prelude::*;
use crate::paging::{
    entries_of, entry_of, is_mapped, lemma_leaf_is_valid, page_of, table_of, Level, TableRef, PAGE_SIZE_BIT,
    TABLE_BYTES, TABLE_ENTRIES,
};
use crate::range::valid_page;

verus! {

/// The table that a read at `address` yields: the bytes that `memory` holds
/// there if they are a whole table, nothing where the address cannot be read.
pub open spec fn table_at(memory: Map<u64, Seq<u8>>, address: u64) -> Option<Seq<u8>> {
    if memory.contains_key(address) {
        usable(Some(memory[address]))
    } else {
        None
    }
}

/// The reply to a read as the walk takes it: a failed read and a reply that
/// is not a whole table both count as no table.
pub open spec fn usable(reply: Option<Seq<u8>>) -> Option<Seq<u8>> {
    match reply {
        Some(bytes) => if bytes.len() == TABLE_BYTES {
            Some(bytes)
        } else {
            None
        },
        None => None,
    }
}

/// Whether the entry `raw` of a table of `level` maps `page`, itself or
/// through the tables below it.
pub open spec fn entry_maps(memory: Map<u64, Seq<u8>>, level: Level, raw: u64, page: (u64, usize)) -> bool
    decreases level.rank(), 0nat,
{
    if page_of(level, raw) is Some {
        page_of(level, raw) == Some(page)
    } else if table_of(level, raw) is Some {
        table_maps(memory, table_of(level, raw)->0, page)
    } else {
        false
    }
}

/// Whether `page` is mapped by an entry of `table`, or of a table that can be
/// reached from it through entries that are present and not zero. A table
/// that cannot be read maps nothing.
pub open spec fn table_maps(memory: Map<u64, Seq<u8>>, table: TableRef, page: (u64, usize)) -> bool
    decreases table.level.rank(), 1nat,
{
    match table_at(memory, table.address) {
        Some(bytes) => exists|index: int|
            0 <= index < TABLE_ENTRIES && entry_maps(
                memory,
                table.level,
                #[trigger] entry_of(bytes, index),
                page,
            ),
        None => false,
    }
}

/// The pages mapped under the root table at `root`.
pub open spec fn mapped_pages(memory: Map<u64, Seq<u8>>, root: u64) -> Set<(u64, usize)> {
    Set::new(|page: (u64, usize)| table_maps(memory, TableRef { level: Level::Pml4, address: root }, page))
}

/// The state of a walk.
pub struct WalkModel {
    /// Tables still to be read; the last one is read next.
    pub pending: Seq<TableRef>,
    /// Pages found so far.
    pub pages: Set<(u64, usize)>,
    /// Whether the root table could not be read.
    pub failed: bool,
}

/// The tables that the entries of `entries` from index `from` on lead to,
/// the one of the highest index first.
pub open spec fn tables_from(level: Level, entries: Seq<u64>, from: int) -> Seq<TableRef>
    decreases TABLE_ENTRIES - from,
{
    if from < 0 || from >= TABLE_ENTRIES {
        Seq::empty()
    } else {
        match table_of(level, entries[from]) {
            Some(table) => tables_from(level, entries, from + 1).push(table),
            None => tables_from(level, entries, from + 1),
        }
    }
}

/// The pages that the entries of `entries` from index `from` on map
/// themselves.
pub open spec fn pages_from(level: Level, entries: Seq<u64>, from: int) -> Set<(u64, usize)> {
    Set::new(
        |page: (u64, usize)|
            exists|index: int|
                from <= index < TABLE_ENTRIES && 0 <= index && #[trigger] page_of(level, entries[index])
                    == Some(page),
    )
}

/// The state after the reply to the read of the last pending table.
///
/// A table that was read is replaced by the tables its entries lead to, and
/// the pages its entries map are added. A table that was not read is
/// dropped; if it is the root, the walk has failed.
pub open spec fn step(state: WalkModel, reply: Option<Seq<u8>>) -> WalkModel {
    let table = state.pending.last();
    match usable(reply) {
        Some(bytes) => WalkModel {
            pending: state.pending.drop_last() + tables_from(table.level, entries_of(bytes), 0),
            pages: state.pages.union(pages_from(table.level, entries_of(bytes), 0)),
            failed: state.failed,
        },
        None => WalkModel {
            pending: state.pending.drop_last(),
            pages: state.pages,
            failed: state.failed || table.level == Level::Pml4,
        },
    }
}

/// Whether one of the `pending` tables maps `page`.
pub open spec fn pending_maps(memory: Map<u64, Seq<u8>>, pending: Seq<TableRef>, page: (u64, usize)) -> bool {
    exists|k: int| 0 <= k < pending.len() && table_maps(memory, #[trigger] pending[k], page)
}

/// The pages that a walk in `state` has found or will find in `memory`.
pub open spec fn reach(memory: Map<u64, Seq<u8>>, state: WalkModel) -> Set<(u64, usize)> {
    Set::new(|page: (u64, usize)| state.pages.contains(page) || pending_maps(memory, state.pending, page))
}

/// The state in which a walk from the root table at `root` begins.
pub open spec fn start(root: u64) -> WalkModel {
    WalkModel {
        pending: seq![TableRef { level: Level::Pml4, address: root }],
        pages: Set::empty(),
        failed: false,
    }
}

/// Whether a root table among the `pending` ones cannot be read in `memory`.
pub open spec fn root_unreadable(memory: Map<u64, Seq<u8>>, pending: Seq<TableRef>) -> bool {
    exists|k: int|
        0 <= k < pending.len() && (#[trigger] pending[k]).level == Level::Pml4 && table_at(
            memory,
            pending[k].address,
        ) is None
}

/// Whether a walk in `state` has failed or will fail in `memory`.
pub open spec fn fails(memory: Map<u64, Seq<u8>>, state: WalkModel) -> bool {
    state.failed || root_unreadable(memory, state.pending)
}

/// Reads that a table of `level` can cost at most: itself and all below it.
pub open spec fn weight(level: Level) -> nat {
    match level {
        Level::Pml4 => 134480385,
        Level::Pdpt => 262657,
        Level::Pd => 513,
        Level::Pt => 1,
    }
}

/// Reads that the `pending` tables can cost at most.
pub open spec fn work(pending: Seq<TableRef>) -> nat
    decreases pending.len(),
{
    if pending.len() == 0 {
        0
    } else {
        work(pending.drop_last()) + weight(pending.last().level)
    }
}

/// Every page that a table maps is a valid page: of one of the three sizes,
/// at a multiple of its size, and below the top of the address space.
pub proof fn lemma_mapped_page_is_valid(memory: Map<u64, Seq<u8>>, table: TableRef, page: (u64, usize))
    requires
        table_maps(memory, table, page),
    ensures
        valid_page(page.0, page.1),
    decreases table.level.rank(),
{
    let bytes = table_at(memory, table.address)->0;
    let index = choose|index: int|
        0 <= index < TABLE_ENTRIES && entry_maps(memory, table.level, #[trigger] entry_of(bytes, index), page);
    let raw = entry_of(bytes, index);
    if page_of(table.level, raw) is Some {
        lemma_leaf_is_valid(table.level, raw);
    } else {
        lemma_mapped_page_is_valid(memory, table_of(table.level, raw)->0, page);
    }
}

/// An entry of a page directory or of a page-directory-pointer table that
/// has the page-size bit set maps one page, of 2 MiB or of 1 GiB, and no
/// table is reached through it, whatever memory holds at its address.
pub proof fn lemma_large_page_is_leaf(memory: Map<u64, Seq<u8>>, level: Level, raw: u64, page: (u64, usize))
    requires
        level == Level::Pdpt || level == Level::Pd,
        raw & PAGE_SIZE_BIT == PAGE_SIZE_BIT,
        is_mapped(level, raw),
    ensures
        table_of(level, raw) is None,
        entry_maps(memory, level, raw, page) <==> page == (raw & level.spec_frame_mask(), level.spec_page_bytes()),
{
}

/// What `tables_from` holds: one table for each entry that leads to one, all
/// of the level below, and no more than there are entries.
pub proof fn lemma_tables_from(level: Level, entries: Seq<u64>, from: int)
    requires
        0 <= from <= TABLE_ENTRIES,
    ensures
        tables_from(level, entries, from).len() <= TABLE_ENTRIES - from,
        forall|j: int|
            0 <= j < tables_from(level, entries, from).len() ==> (#[trigger] tables_from(
                level,
                entries,
                from,
            )[j]).level == level.spec_below(),
        forall|table: TableRef|
            tables_from(level, entries, from).contains(table) <==> exists|index: int|
                from <= index < TABLE_ENTRIES && #[trigger] table_of(level, entries[index]) == Some(table),
    decreases TABLE_ENTRIES - from,
{
    let here = tables_from(level, entries, from);
    if from < TABLE_ENTRIES {
        let after = tables_from(level, entries, from + 1);
        lemma_tables_from(level, entries, from + 1);
        assert forall|table: TableRef| here.contains(table) implies exists|index: int|
            from <= index < TABLE_ENTRIES && #[trigger] table_of(level, entries[index]) == Some(table) by {
            let j = choose|j: int| 0 <= j < here.len() && here[j] == table;
            if j < after.len() {
                assert(after[j] == table);
                assert(after.contains(table));
            } else {
                assert(table_of(level, entries[from]) == Some(table));
            }
        }
        assert forall|table: TableRef|
            (exists|index: int|
                from <= index < TABLE_ENTRIES && #[trigger] table_of(level, entries[index]) == Some(
                    table,
                )) implies here.contains(table) by {
            let index = choose|index: int|
                from <= index < TABLE_ENTRIES && #[trigger] table_of(level, entries[index]) == Some(table);
            if index == from {
                assert(here[here.len() - 1] == table);
            } else {
                assert(after.contains(table));
                let j = choose|j: int| 0 <= j < after.len() && after[j] == table;
                assert(here[j] == table);
            }
        }
    }
}

/// The work of two runs of tables is the sum of their work.
pub proof fn lemma_work_concat(first: Seq<TableRef>, second: Seq<TableRef>)
    ensures
        work(first + second) == work(first) + work(second),
    decreases second.len(),
{
    if second.len() == 0 {
        assert(first + second =~= first);
    } else {
        lemma_work_concat(first, second.drop_last());
        assert((first + second).drop_last() =~= first + second.drop_last());
    }
}

/// The work of tables that are all of one level.
pub proof fn lemma_work_uniform(tables: Seq<TableRef>, level: Level)
    requires
        forall|j: int| 0 <= j < tables.len() ==> (#[trigger] tables[j]).level == level,
    ensures
        work(tables) == tables.len() * weight(level),
    decreases tables.len(),
{
    if tables.len() > 0 {
        lemma_work_uniform(tables.drop_last(), level);
        assert((tables.len() - 1) * weight(level) + weight(level) == tables.len() * weight(level))
            by (nonlinear_arith);
    }
}

/// Every step of a walk leaves less work than there was: a walk ends.
pub proof fn lemma_step_decreases_work(state: WalkModel, reply: Option<Seq<u8>>)
    requires
        state.pending.len() > 0,
    ensures
        work(step(state, reply).pending) < work(state.pending),
{
    let table = state.pending.last();
    let rest = state.pending.drop_last();
    if let Some(bytes) = usable(reply) {
        let tables = tables_from(table.level, entries_of(bytes), 0);
        lemma_tables_from(table.level, entries_of(bytes), 0);
        lemma_work_concat(rest, tables);
        if table.level == Level::Pt {
            assert(tables.len() == 0) by {
                if tables.len() > 0 {
                    assert(tables.contains(tables[0]));
                }
            }
        } else {
            lemma_work_uniform(tables, table.level.spec_below());
            assert(tables.len() * weight(table.level.spec_below()) <= 512 * weight(
                table.level.spec_below(),
            )) by (nonlinear_arith)
                requires
                    tables.len() <= 512,
            ;
        }
    }
}

/// A step changes nothing in what the walk finds: where the reply is what
/// `memory` holds at the table that was asked for, the pages found and still
/// to be found after the step are those before it.
pub proof fn lemma_step_keeps_reach(memory: Map<u64, Seq<u8>>, state: WalkModel, reply: Option<Seq<u8>>)
    requires
        state.pending.len() > 0,
        usable(reply) == table_at(memory, state.pending.last().address),
    ensures
        reach(memory, step(state, reply)) == reach(memory, state),
{
    let table = state.pending.last();
    let rest = state.pending.drop_last();
    let next = step(state, reply);
    let last = state.pending.len() - 1;
    assert forall|page: (u64, usize)| reach(memory, state).contains(page) implies reach(
        memory,
        next,
    ).contains(page) by {
        if !state.pages.contains(page) {
            let k = choose|k: int| 0 <= k < state.pending.len() && table_maps(memory, #[trigger] state.pending[k], page);
            if k < last {
                assert(next.pending[k] == state.pending[k]);
            } else {
                assert(state.pending[k] == table);
                assert(table_maps(memory, table, page));
                let bytes = table_at(memory, table.address)->0;
                assert(usable(reply) == Some(bytes));
                assert(exists|index: int|
                    0 <= index < TABLE_ENTRIES && entry_maps(memory, table.level, #[trigger] entry_of(bytes, index), page));
                let entries = entries_of(bytes);
                let index = choose|index: int|
                    0 <= index < TABLE_ENTRIES && entry_maps(memory, table.level, #[trigger] entry_of(bytes, index), page);
                assert(entries[index] == entry_of(bytes, index));
                if page_of(table.level, entries[index]) is Some {
                    assert(pages_from(table.level, entries, 0).contains(page));
                } else {
                    let child = table_of(table.level, entries[index])->0;
                    let tables = tables_from(table.level, entries, 0);
                    lemma_tables_from(table.level, entries, 0);
                    assert(tables.contains(child));
                    let j = choose|j: int| 0 <= j < tables.len() && tables[j] == child;
                    assert(next.pending[rest.len() + j] == child);
                }
            }
        }
    }
    assert forall|page: (u64, usize)| reach(memory, next).contains(page) implies reach(
        memory,
        state,
    ).contains(page) by {
        if !state.pages.contains(page) {
            if next.pages.contains(page) {
                let bytes = usable(reply)->0;
                let entries = entries_of(bytes);
                let index = choose|index: int|
                    0 <= index < TABLE_ENTRIES && 0 <= index && #[trigger] page_of(table.level, entries[index])
                        == Some(page);
                assert(entries[index] == entry_of(bytes, index));
                assert(entry_maps(memory, table.level, entry_of(bytes, index), page));
                assert(table_maps(memory, state.pending[last], page));
            } else {
                let k = choose|k: int| 0 <= k < next.pending.len() && table_maps(memory, #[trigger] next.pending[k], page);
                if k < last {
                    assert(next.pending[k] == state.pending[k]);
                } else {
                    let bytes = usable(reply)->0;
                    let entries = entries_of(bytes);
                    let tables = tables_from(table.level, entries, 0);
                    lemma_tables_from(table.level, entries, 0);
                    let child = tables[k - last];
                    assert(next.pending[k] == child);
                    assert(tables.contains(child));
                    let index = choose|index: int|
                        0 <= index < TABLE_ENTRIES && #[trigger] table_of(table.level, entries[index]) == Some(
                            child,
                        );
                    assert(entries[index] == entry_of(bytes, index));
                    assert(entry_maps(memory, table.level, entry_of(bytes, index), page));
                    assert(table_maps(memory, state.pending[last], page));
                }
            }
        }
    }
    assert(reach(memory, next) =~= reach(memory, state));
}

/// A step changes nothing in whether the walk fails.
pub proof fn lemma_step_keeps_failure(memory: Map<u64, Seq<u8>>, state: WalkModel, reply: Option<Seq<u8>>)
    requires
        state.pending.len() > 0,
        usable(reply) == table_at(memory, state.pending.last().address),
    ensures
        fails(memory, step(state, reply)) == fails(memory, state),
{
    let table = state.pending.last();
    let next = step(state, reply);
    let last = state.pending.len() - 1;
    if root_unreadable(memory, state.pending) && !state.failed {
        let k = choose|k: int|
            0 <= k < state.pending.len() && (#[trigger] state.pending[k]).level == Level::Pml4 && table_at(
                memory,
                state.pending[k].address,
            ) is None;
        if k < last {
            assert(next.pending[k] == state.pending[k]);
        }
    }
    if root_unreadable(memory, next.pending) && !state.failed {
        let k = choose|k: int|
            0 <= k < next.pending.len() && (#[trigger] next.pending[k]).level == Level::Pml4 && table_at(
                memory,
                next.pending[k].address,
            ) is None;
        if k < last {
            assert(next.pending[k] == state.pending[k]);
        } else {
            let entries = entries_of(usable(reply)->0);
            lemma_tables_from(table.level, entries, 0);
            assert(next.pending[k] == tables_from(table.level, entries, 0)[k - last]);
        }
    }
}

/// A walk that begins at `root` finds the pages mapped under it, and fails
/// where the root table cannot be read.
pub proof fn lemma_start(memory: Map<u64, Seq<u8>>, root: u64)
    ensures
        reach(memory, start(root)) == mapped_pages(memory, root),
        fails(memory, start(root)) <==> table_at(memory, root) is None,
{
    let state = start(root);
    assert(state.pending[0] == TableRef { level: Level::Pml4, address: root });
    assert(reach(memory, state) =~= mapped_pages(memory, root));
}

} // verus!

