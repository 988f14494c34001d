//! The scan of the pages that a walk found: which page to read next, which
//! address to write to, and what to report of each match.

use vstd::prelude::*;
use crate::matcher::{hits, lemma_hits_below, matches_at, Matcher};
use crate::pageset::keys_of;
use crate::range::Range;

verus! {

/// One match: where the pattern lies, and how the write went if one was
/// made.
#[derive(Debug, Copy, Clone, PartialEq, Eq, Structural)]
pub struct MatchRecord {
    /// Physical address of the first byte of the match.
    pub address: u64,
    /// `None` where nothing was to be written, else whether the write
    /// succeeded.
    pub patched: Option<bool>,
}

/// What the scan needs done to guest memory next.
#[derive(Debug, Clone)]
pub enum Request {
    /// Read `length` bytes at `address`.
    Read { address: u64, length: usize },
    /// Write `data` at `address`.
    Write { address: u64, data: Vec<u8> },
    /// Nothing: the scan is complete.
    Done,
}

/// How a request ended.
#[derive(Debug, Copy, Clone)]
pub enum Reply<'a> {
    /// The bytes that were read.
    Data(&'a [u8]),
    /// The write succeeded.
    Written,
    /// The read or the write failed.
    Failed,
}

/// The state of a scan.
pub struct ScanModel {
    /// The pages to scan, by address and size.
    pub ranges: Seq<(u64, usize)>,
    /// The pattern, each byte with whether it must be equal.
    pub units: Seq<(u8, bool)>,
    /// The bytes to write over each match; none where matches are only
    /// reported.
    pub patch: Seq<u8>,
    /// Index of the page to read next.
    pub cursor: nat,
    /// Addresses of the matches in the last page read that are yet to be
    /// written to.
    pub queue: Seq<u64>,
}

/// The addresses of the matches in a page at `base` that holds `data`.
pub open spec fn found(units: Seq<(u8, bool)>, base: u64, data: Seq<u8>) -> Seq<u64> {
    hits(units, data).map_values(|offset: usize| (base + offset) as u64)
}

/// Whether `reply` holds the whole of the page `range`.
pub open spec fn holds(range: (u64, usize), reply: Reply) -> bool {
    reply matches Reply::Data(data) && data@.len() == range.1
}

/// Whether `reply` holds the whole page that the scan asked for.
pub open spec fn is_page(state: ScanModel, reply: Reply) -> bool {
    state.cursor < state.ranges.len() && holds(state.ranges[state.cursor as int], reply)
}

/// The bytes of a reply that holds some.
pub open spec fn data_of(reply: Reply) -> Seq<u8> {
    match reply {
        Reply::Data(data) => data@,
        _ => Seq::empty(),
    }
}

/// The addresses of the matches in the page `range`, given the outcome of
/// its read: none where the page was not read, or not whole.
pub open spec fn matches_in(units: Seq<(u8, bool)>, range: (u64, usize), reply: Reply) -> Seq<u64> {
    if holds(range, reply) {
        found(units, range.0, data_of(reply))
    } else {
        Seq::empty()
    }
}

/// The matches in the page that `reply` holds.
pub open spec fn found_in(state: ScanModel, reply: Reply) -> Seq<u64> {
    found(state.units, state.ranges[state.cursor as int].0, data_of(reply))
}

/// The state after `reply`.
///
/// While writes are due, a reply ends the first of them. Else it ends the
/// read of the page at the cursor: the scan moves to the next page, and
/// writes fall due for the matches in the page, if it was read whole and
/// there is something to write.
pub open spec fn after(state: ScanModel, reply: Reply) -> ScanModel {
    if state.queue.len() > 0 {
        ScanModel { queue: state.queue.skip(1), ..state }
    } else if state.cursor < state.ranges.len() {
        ScanModel {
            cursor: state.cursor + 1,
            queue: if is_page(state, reply) && state.patch.len() > 0 {
                found_in(state, reply)
            } else {
                Seq::empty()
            },
            ..state
        }
    } else {
        state
    }
}

/// What is to be reported after `reply`: the write that it ended, or the
/// matches in the page that it holds where nothing is to be written.
pub open spec fn reported(state: ScanModel, reply: Reply) -> Seq<MatchRecord> {
    if state.queue.len() > 0 {
        seq![MatchRecord { address: state.queue[0], patched: Some(reply is Written) }]
    } else if is_page(state, reply) && state.patch.len() == 0 {
        found_in(state, reply).map_values(|address: u64| MatchRecord { address, patched: None })
    } else {
        Seq::empty()
    }
}

/// Scans one page: the addresses at which the pattern of `matcher` lies
/// in `range`, in ascending order, given the outcome of the read of the
/// page. A page that was not read, or not whole, has no match.
pub fn scan(matcher: &Matcher, range: Range, reply: Reply) -> (addresses: Vec<u64>)
    ensures
        addresses@ == matches_in(matcher.units(), range@, reply),
{
    let base: u64 = range.address();
    let size: usize = range.size();
    let mut addresses: Vec<u64> = Vec::new();
    let offsets: Option<Vec<usize>> = match reply {
        Reply::Data(data) => if data.len() == size {
            matcher.find(data)
        } else {
            None
        },
        _ => None,
    };
    if let Some(offsets) = offsets {
        let ghost data = data_of(reply);
        let ghost units = matcher.units();
        proof {
            lemma_hits_below(units, data, data.len() - units.len() + 1);
        }
        let mut k: usize = 0;
        while k < offsets.len()
            invariant
                k <= offsets@.len(),
                offsets@ == hits(units, data),
                base + size <= 0x1_0000_0000_0000_0000,
                forall|i: int| 0 <= i < offsets@.len() ==> (#[trigger] offsets@[i]) < size,
                addresses@.len() == k,
                forall|i: int| 0 <= i < k ==> addresses@[i] == found(units, base, data)[i],
            decreases offsets@.len() - k,
        {
            addresses.push(base + offsets[k] as u64);
            k += 1;
        }
        assert(addresses@ =~= found(units, base, data));
    }
    addresses
}

/// A scan of pages for a pattern, which writes over each match if it was
/// given something to write.
///
/// The scan asks for one read or write at a time with
/// [`Orchestrator::request`] and takes the outcome with
/// [`Orchestrator::respond`], until nothing is left to do.
pub struct Orchestrator {
    ranges: Vec<Range>,
    matcher: Matcher,
    patch: Vec<u8>,
    cursor: usize,
    queue: Vec<u64>,
    served: usize,
}

impl View for Orchestrator {
    type V = ScanModel;

    closed spec fn view(&self) -> ScanModel {
        ScanModel {
            ranges: keys_of(self.ranges@),
            units: self.matcher.units(),
            patch: self.patch@,
            cursor: self.cursor as nat,
            queue: self.queue@.skip(self.served as int),
        }
    }
}

impl Orchestrator {
    #[verifier::type_invariant]
    spec fn well_formed(self) -> bool {
        self.cursor <= self.ranges@.len() && self.served <= self.queue@.len()
    }

    /// A scan of `ranges`, in their order, for the pattern of `matcher`. An
    /// empty `patch` means that matches are only reported.
    pub fn new(ranges: Vec<Range>, matcher: Matcher, patch: Vec<u8>) -> (scan: Self)
        ensures
            scan@ == (ScanModel {
                ranges: keys_of(ranges@),
                units: matcher.units(),
                patch: patch@,
                cursor: 0,
                queue: Seq::empty(),
            }),
    {
        let scan = Orchestrator { ranges, matcher, patch, cursor: 0, queue: Vec::new(), served: 0 };
        assert(scan@.queue =~= Seq::empty());
        scan
    }

    /// What to do next: a write while writes are due, else the read of the
    /// page at the cursor, else nothing.
    pub fn request(&self) -> (request: Request)
        ensures
            match request {
                Request::Write { address, data } => self@.queue.len() > 0 && address == self@.queue[0] && data@
                    == self@.patch,
                Request::Read { address, length } => self@.queue.len() == 0 && self@.cursor
                    < self@.ranges.len() && (address, length) == self@.ranges[self@.cursor as int],
                Request::Done => self@.queue.len() == 0 && self@.cursor >= self@.ranges.len(),
            },
    {
        proof {
            use_type_invariant(self);
        }
        if self.served < self.queue.len() {
            Request::Write { address: self.queue[self.served], data: self.patch.clone() }
        } else if self.cursor < self.ranges.len() {
            let range = self.ranges[self.cursor];
            Request::Read { address: range.address(), length: range.size() }
        } else {
            Request::Done
        }
    }

    /// Takes the outcome of the last request and returns what is to be
    /// reported of it.
    ///
    /// A page that was not read, or not whole, gives no match and no write,
    /// and the scan goes on with the next page. A write that failed is
    /// reported as failed, and the scan goes on with the next match.
    pub fn respond(&mut self, reply: Reply) -> (records: Vec<MatchRecord>)
        ensures
            final(self)@ == after(old(self)@, reply),
            records@ == reported(old(self)@, reply),
    {
        proof {
            use_type_invariant(&*self);
        }
        let mut records: Vec<MatchRecord> = Vec::new();
        if self.served < self.queue.len() {
            let patched = match reply {
                Reply::Written => true,
                _ => false,
            };
            records.push(MatchRecord { address: self.queue[self.served], patched: Some(patched) });
            self.served = self.served + 1;
            assert(self@.queue =~= old(self)@.queue.skip(1));
            assert(records@ =~= reported(old(self)@, reply));
            return records;
        }
        if self.cursor >= self.ranges.len() {
            assert(self@.queue =~= old(self)@.queue);
            return records;
        }
        let range = self.ranges[self.cursor];
        let addresses: Vec<u64> = scan(&self.matcher, range, reply);
        self.served = 0;
        self.cursor = self.cursor + 1;
        let mut queue: Vec<u64> = Vec::new();
        if self.patch.len() > 0 {
            queue = addresses;
        } else {
            let mut k: usize = 0;
            while k < addresses.len()
                invariant
                    k <= addresses@.len(),
                    records@.len() == k,
                    forall|i: int|
                        0 <= i < k ==> records@[i] == (MatchRecord { address: addresses@[i], patched: None }),
                decreases addresses@.len() - k,
            {
                records.push(MatchRecord { address: addresses[k], patched: None });
                k += 1;
            }
            assert(records@ =~= reported(old(self)@, reply));
        }
        self.queue = queue;
        assert(self@.queue =~= after(old(self)@, reply).queue);
        records
    }
}

/// A page that could not be read, or was not read whole, gives no match
/// and no write, whether or not there is something to write, and the scan
/// goes on with the page after it.
pub proof fn lemma_unread_page_is_skipped(state: ScanModel, reply: Reply)
    requires
        state.queue.len() == 0,
        state.cursor < state.ranges.len(),
        !is_page(state, reply),
    ensures
        reported(state, reply).len() == 0,
        after(state, reply).queue.len() == 0,
        after(state, reply).cursor == state.cursor + 1,
        after(state, reply).ranges == state.ranges,
{
}

/// A reply while a write is due ends that write: it is reported at its
/// address with the outcome, and the writes after it stay due.
pub proof fn lemma_write_is_reported(state: ScanModel, reply: Reply)
    requires
        state.queue.len() > 0,
    ensures
        reported(state, reply) == seq![
            MatchRecord { address: state.queue[0], patched: Some(reply is Written) },
        ],
        after(state, reply).queue == state.queue.skip(1),
        after(state, reply).cursor == state.cursor,
{
}

/// Where no page is left and no write is due, nothing is reported and
/// nothing changes.
pub proof fn lemma_nothing_left(state: ScanModel, reply: Reply)
    requires
        state.queue.len() == 0,
        state.cursor >= state.ranges.len(),
    ensures
        reported(state, reply).len() == 0,
        after(state, reply) == state,
{
}

/// Matches are reported in the order of their addresses within a page, one
/// record for each, and each match lies in the page from its first byte to
/// its last.
pub proof fn lemma_found_in_page(units: Seq<(u8, bool)>, base: u64, data: Seq<u8>)
    requires
        units.len() >= 1,
        base + data.len() <= 0x1_0000_0000_0000_0000,
        data.len() <= usize::MAX,
    ensures
        found(units, base, data).len() == hits(units, data).len(),
        forall|k: int|
            0 <= k < found(units, base, data).len() ==> {
                &&& (#[trigger] found(units, base, data)[k]) == base + hits(units, data)[k]
                &&& base <= found(units, base, data)[k]
                &&& found(units, base, data)[k] + units.len() <= base + data.len()
                &&& matches_at(units, data, found(units, base, data)[k] - base)
            },
        forall|k: int, l: int|
            0 <= k < l < found(units, base, data).len() ==> (#[trigger] found(units, base, data)[k])
                < (#[trigger] found(units, base, data)[l]),
{
    lemma_hits_below(units, data, data.len() - units.len() + 1);
}

} // verus!
