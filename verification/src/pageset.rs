//! The set of pages that a walk has found: each page once, in ascending
//! order of address.

use std::collections::BTreeSet;
use vstd::prelude::*;
use vstd::std_specs::cmp::OrdSpec;
use vstd::std_specs::iter::IteratorSpec;
use crate::range::{key_lt, lemma_range_by_view, strictly_ascending, valid_page, Range};

verus! {

/// The `(address, size)` pairs of a sequence of pages.
pub open spec fn keys_of(pages: Seq<Range>) -> Seq<(u64, usize)> {
    pages.map_values(|page: Range| page@)
}

/// A set of pages, held by their `(address, size)` pairs.
pub struct PageSet {
    keys: BTreeSet<(u64, usize)>,
}

impl View for PageSet {
    type V = Set<(u64, usize)>;

    closed spec fn view(&self) -> Set<(u64, usize)> {
        self.keys@
    }
}

impl PageSet {
    /// Whether every member is a valid page.
    pub closed spec fn wf(&self) -> bool {
        forall|key: (u64, usize)| self.keys@.contains(key) ==> valid_page(key.0, key.1)
    }

    /// The empty set.
    pub fn new() -> (set: Self)
        ensures
            set.wf(),
            set@ == Set::<(u64, usize)>::empty(),
    {
        PageSet { keys: BTreeSet::new() }
    }

    /// Adds `page`; a page that the set holds already is not added again.
    /// Returns whether the page was new.
    pub fn insert(&mut self, page: Range) -> (fresh: bool)
        requires
            old(self).wf(),
        ensures
            final(self).wf(),
            final(self)@ == old(self)@.insert(page@),
            fresh == !old(self)@.contains(page@),
    {
        broadcast use vstd::laws_cmp::group_laws_cmp;

        let address: u64 = page.address();
        let size: usize = page.size();
        self.keys.insert((address, size))
    }

    /// The pages of the set, each once, in ascending order of address and,
    /// where two addresses are equal, of size.
    pub fn to_vec(&self) -> (pages: Vec<Range>)
        requires
            self.wf(),
        ensures
            strictly_ascending(keys_of(pages@)),
            keys_of(pages@).to_set() == self@,
            forall|i: int| 0 <= i < pages@.len() ==> valid_page((#[trigger] pages@[i])@.0, pages@[i]@.1),
    {
        broadcast use vstd::std_specs::btree::group_btree_axioms;
        broadcast use vstd::laws_cmp::group_laws_cmp;

        let mut pages: Vec<Range> = Vec::new();
        let ghost sorted = self.keys.iter().remaining();
        for key in it: self.keys.iter()
            invariant
                it.seq() == sorted,
                sorted.unref().to_set() == self.keys@,
                forall|key: (u64, usize)| self.keys@.contains(key) ==> valid_page(key.0, key.1),
                pages@.len() == it.index(),
                forall|i: int| 0 <= i < pages@.len() ==> (#[trigger] pages@[i])@ == *sorted[i],
                forall|i: int| 0 <= i < pages@.len() ==> valid_page((#[trigger] pages@[i])@.0, pages@[i]@.1),
        {
            proof {
                let k = it.index();
                assert(sorted.unref()[k] == *key);
                assert(sorted.unref().contains(*key));
                assert(sorted.unref().to_set().contains(*key));
                assert(valid_page(key.0, key.1));
            }
            pages.push(Range::new(key.0, key.1));
        }
        proof {
            assert(keys_of(pages@) =~= sorted.unref());
            vstd::std_specs::btree::axiom_increasing_seq_meaning::<&(u64, usize)>(sorted);
            assert forall|i: int, j: int| 0 <= i < j < pages@.len() implies key_lt(
                #[trigger] keys_of(pages@)[i],
                #[trigger] keys_of(pages@)[j],
            ) by {
                assert(OrdSpec::cmp_spec(&sorted[i], &sorted[j]) is Less);
            }
        }
        pages
    }
}

/// Pages in ascending order stand in ascending order of address, and none
/// of them stands there twice.
pub proof fn lemma_ascending_pages(pages: Seq<Range>)
    requires
        strictly_ascending(keys_of(pages)),
    ensures
        forall|i: int, j: int| 0 <= i < j < pages.len() ==> (#[trigger] pages[i])@.0 <= (#[trigger] pages[j])@.0,
        pages.no_duplicates(),
{
    assert forall|i: int, j: int| 0 <= i < j < pages.len() implies (#[trigger] pages[i])@.0 <= (
    #[trigger] pages[j])@.0 && pages[i] != pages[j] by {
        assert(key_lt(keys_of(pages)[i], keys_of(pages)[j]));
    }
}

/// There is one way only to list a set of pages in ascending order.
pub proof fn lemma_ascending_keys_unique(first: Seq<(u64, usize)>, second: Seq<(u64, usize)>)
    requires
        strictly_ascending(first),
        strictly_ascending(second),
        first.to_set() == second.to_set(),
    ensures
        first == second,
    decreases first.len(),
{
    if first.len() == 0 {
        if second.len() > 0 {
            assert(second.contains(second[0]));
            assert(second.to_set().contains(second[0]));
            assert(first.to_set().contains(second[0]));
        }
        assert(first =~= second);
    } else {
        let top = first.last();
        assert(first.contains(top));
        assert(first.to_set().contains(top));
        assert(second.to_set().contains(top));
        assert(second.contains(top));
        let at = choose|at: int| 0 <= at < second.len() && second[at] == top;
        if at < second.len() - 1 {
            let above = second.last();
            assert(key_lt(second[at], above));
            assert(second.contains(above));
            assert(second.to_set().contains(above));
            assert(first.to_set().contains(above));
            assert(first.contains(above));
            let back = choose|back: int| 0 <= back < first.len() && first[back] == above;
            if back < first.len() - 1 {
                assert(key_lt(first[back], top));
            }
        }
        let head = first.drop_last();
        let other = second.drop_last();
        assert forall|key: (u64, usize)| head.to_set().contains(key) <==> other.to_set().contains(key) by {
            if head.contains(key) {
                let i = choose|i: int| 0 <= i < head.len() && head[i] == key;
                assert(first[i] == key);
                assert(key_lt(first[i], top));
                assert(first.contains(key));
                assert(first.to_set().contains(key));
                assert(second.to_set().contains(key));
                assert(second.contains(key));
                let j = choose|j: int| 0 <= j < second.len() && second[j] == key;
                assert(other[j] == key);
            }
            if other.contains(key) {
                let j = choose|j: int| 0 <= j < other.len() && other[j] == key;
                assert(second[j] == key);
                assert(key_lt(second[j], top));
                assert(second.contains(key));
                assert(second.to_set().contains(key));
                assert(first.to_set().contains(key));
                assert(first.contains(key));
                let i = choose|i: int| 0 <= i < first.len() && first[i] == key;
                assert(head[i] == key);
            }
        }
        assert(head.to_set() =~= other.to_set());
        lemma_ascending_keys_unique(head, other);
        assert(first =~= head.push(top));
        assert(second =~= other.push(top));
    }
}

/// Two lists of the same pages, both in ascending order, are the same
/// list: what a walk gives depends on the pages mapped and on nothing else.
pub proof fn lemma_ascending_pages_unique(first: Seq<Range>, second: Seq<Range>)
    requires
        strictly_ascending(keys_of(first)),
        strictly_ascending(keys_of(second)),
        keys_of(first).to_set() == keys_of(second).to_set(),
    ensures
        first == second,
{
    lemma_ascending_keys_unique(keys_of(first), keys_of(second));
    assert(first.len() == second.len());
    assert forall|i: int| 0 <= i < first.len() implies first[i] == second[i] by {
        assert(keys_of(first)[i] == keys_of(second)[i]);
        lemma_range_by_view(first[i], second[i]);
    }
    assert(first =~= second);
}

} // verus!
