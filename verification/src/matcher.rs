//! The search of a buffer for a byte pattern with wildcards. The wildcards
//! at the front of a pattern are counted here; the rest is parsed, and the
//! search is made, by the `aobscan` crate.

use vstd::prelude::*;
use vstd::slice::slice_to_vec;
use vstd::string::StringSliceAdditionalSpecFns;

verus! {

/// Longest pattern that is taken, in bytes: the size of the smallest page,
/// so that a pattern is never longer than a buffer that holds a page.
pub const MAX_PATTERN_BYTES: usize = 4096;

/// `aobscan::Pattern`, a pattern as the matcher holds it. Nothing of it is
/// seen here but through [`pattern_units`], [`pattern_lead`] and
/// [`pattern_threads`].
#[verifier::external_type_specification]
#[verifier::external_body]
pub struct ExPattern(aobscan::Pattern);

/// `aobscan::BuilderError`, the reason for which a text was refused. It is
/// handed on as it came.
#[verifier::external_type_specification]
#[verifier::external_body]
pub struct ExBuilderError(aobscan::BuilderError);

/// What a pattern holds: the bytes it compares, each with `true` where the
/// byte must be equal and `false` where any byte will do. These are the
/// signature and the mask of `aobscan::Pattern`, as they stand after the
/// wildcards at both ends were cut off.
pub uninterp spec fn pattern_units(pattern: aobscan::Pattern) -> Seq<(u8, bool)>;

/// The number of wildcards that were cut off at the front of a pattern, by
/// which `aobscan::Pattern::scan` moves back each position that it reports.
pub uninterp spec fn pattern_lead(pattern: aobscan::Pattern) -> nat;

/// The number of threads that a pattern was built to search with.
pub uninterp spec fn pattern_threads(pattern: aobscan::Pattern) -> nat;

/// What `aobscan::PatternBuilder::from_hex_string` makes of the text with
/// these bytes: nothing where it refuses the text, else what the pattern
/// built from it holds.
pub uninterp spec fn hex_pattern(text: Seq<u8>) -> Option<Seq<(u8, bool)>>;

/// What `aobscan::PatternBuilder::from_ida_style` makes of the text with
/// these bytes: nothing where it refuses the text, else what the pattern
/// built from it holds.
pub uninterp spec fn ida_pattern(text: Seq<u8>) -> Option<Seq<(u8, bool)>>;

/// Whether `byte` is one of `0` to `9`, `a` to `f` or `A` to `F`.
pub open spec fn is_hex_digit(byte: u8) -> bool {
    (0x30 <= byte <= 0x39) || (0x41 <= byte <= 0x46) || (0x61 <= byte <= 0x66)
}

/// The value of a hexadecimal digit.
pub open spec fn hex_value(digit: u8) -> int {
    if 0x30 <= digit <= 0x39 {
        digit - 0x30
    } else if 0x41 <= digit <= 0x46 {
        digit - 0x41 + 10
    } else {
        digit - 0x61 + 10
    }
}

/// Whether the text begins with a hexadecimal digit, and so with a byte
/// that must be equal.
pub open spec fn is_anchored(text: Seq<u8>) -> bool {
    text.len() > 0 && is_hex_digit(text[0])
}

/// Whether the text is written as tokens with spaces between them.
pub open spec fn has_space(text: Seq<u8>) -> bool {
    exists|i: int| 0 <= i < text.len() && #[trigger] text[i] == 0x20
}

/// The number of pairs `??` that an unbroken text begins with.
pub open spec fn hex_lead(text: Seq<u8>) -> nat
    decreases text.len(),
{
    if text.len() >= 2 && text[0] == 0x3f && text[1] == 0x3f {
        1 + hex_lead(text.skip(2))
    } else {
        0
    }
}

/// The wildcards that a text of tokens begins with: how many tokens `?` or
/// `??` stand at its front, each with a space or the end of the text behind
/// it, and how many bytes they take together with the spaces around them.
pub open spec fn ida_lead(text: Seq<u8>) -> (nat, nat)
    decreases text.len(),
{
    if text.len() >= 1 && text[0] == 0x20 {
        (ida_lead(text.skip(1)).0, ida_lead(text.skip(1)).1 + 1)
    } else if text.len() >= 1 && text[0] == 0x3f && (text.len() == 1 || text[1] == 0x20) {
        (ida_lead(text.skip(1)).0 + 1, ida_lead(text.skip(1)).1 + 1)
    } else if text.len() >= 2 && text[0] == 0x3f && text[1] == 0x3f && (text.len() == 2 || text[2] == 0x20) {
        (ida_lead(text.skip(2)).0 + 1, ida_lead(text.skip(2)).1 + 2)
    } else {
        (0, 0)
    }
}

/// The number of wildcards at the front of the text.
pub open spec fn lead_of(text: Seq<u8>) -> nat {
    if has_space(text) {
        ida_lead(text).0
    } else {
        hex_lead(text)
    }
}

/// The text behind the wildcards at its front.
pub open spec fn rest_of(text: Seq<u8>) -> Seq<u8> {
    if has_space(text) {
        text.skip(ida_lead(text).1 as int)
    } else {
        text.skip(2 * hex_lead(text) as int)
    }
}

/// The most bytes that the text behind the wildcards can stand for: one
/// for two bytes of an unbroken text, one for each token and the space
/// behind it of a text of tokens.
pub open spec fn bound_of(text: Seq<u8>) -> nat {
    if has_space(text) {
        ((rest_of(text).len() + 1) / 2) as nat
    } else {
        (rest_of(text).len() / 2) as nat
    }
}

/// What the pattern builder makes of the text behind the wildcards, which
/// it reads as tokens where the whole text holds a space and as an unbroken
/// string of digit pairs where it holds none.
pub open spec fn core_of(text: Seq<u8>) -> Option<Seq<(u8, bool)>> {
    if has_space(text) {
        ida_pattern(rest_of(text))
    } else {
        hex_pattern(rest_of(text))
    }
}

/// Whether pair `index` of an unbroken text is two hexadecimal digits or
/// `??`.
pub open spec fn is_plain_pair(text: Seq<u8>, index: int) -> bool {
    ||| is_hex_digit(text[2 * index]) && is_hex_digit(text[2 * index + 1])
    ||| text[2 * index] == 0x3f && text[2 * index + 1] == 0x3f
}

/// What pair `index` of an unbroken text stands for: any byte for `??`,
/// else the byte whose upper half is the first digit and whose lower half
/// is the second.
pub open spec fn unit_at(text: Seq<u8>, index: int) -> (u8, bool) {
    if text[2 * index] == 0x3f && text[2 * index + 1] == 0x3f {
        (0u8, false)
    } else {
        ((hex_value(text[2 * index]) * 16 + hex_value(text[2 * index + 1])) as u8, true)
    }
}

/// Whether an unbroken text is made of pairs of hexadecimal digits and of
/// pairs `??` alone, and begins with digits.
pub open spec fn is_plain_hex(text: Seq<u8>) -> bool {
    &&& is_anchored(text)
    &&& text.len() % 2 == 0
    &&& forall|index: int| 0 <= index < text.len() / 2 ==> #[trigger] is_plain_pair(text, index)
}

/// What the pairs of an unbroken text stand for, one after the other.
pub open spec fn hex_units(text: Seq<u8>) -> Seq<(u8, bool)> {
    Seq::new(text.len() / 2, |index: int| unit_at(text, index))
}

/// `units` without the wildcards at its end.
pub open spec fn without_end_wildcards(units: Seq<(u8, bool)>) -> Seq<(u8, bool)>
    decreases units.len(),
{
    if units.len() > 0 && !units.last().1 {
        without_end_wildcards(units.drop_last())
    } else {
        units
    }
}

/// The pattern that an unbroken text of digit pairs and pairs `??` stands
/// for: the wildcards at its front, then what the pairs behind them stand
/// for, up to the last pair of digits.
pub open spec fn plain_pattern(text: Seq<u8>) -> Seq<(u8, bool)> {
    wildcards(lead_of(text)) + without_end_wildcards(hex_units(rest_of(text)))
}

/// `count` bytes that may be anything.
pub open spec fn wildcards(count: nat) -> Seq<(u8, bool)> {
    Seq::new(count, |i: int| (0u8, false))
}

/// The pattern that the text stands for: the wildcards at its front, then
/// what the pattern builder makes of the rest; nothing where the builder
/// refuses the rest.
pub open spec fn parsed(text: Seq<u8>) -> Option<Seq<(u8, bool)>> {
    match core_of(text) {
        Some(core) => Some(wildcards(lead_of(text)) + core),
        None => None,
    }
}

/// Whether the text is taken as a pattern: behind the wildcards at its
/// front stands a hexadecimal digit, the pattern is no longer than
/// [`MAX_PATTERN_BYTES`], and the pattern builder takes the rest.
pub open spec fn is_pattern(text: Seq<u8>) -> bool {
    is_anchored(rest_of(text)) && lead_of(text) + bound_of(text) <= MAX_PATTERN_BYTES && core_of(text) is Some
}

/// Whether the pattern lies in `data` at position `at`: every byte that
/// must be equal is.
pub open spec fn matches_at(units: Seq<(u8, bool)>, data: Seq<u8>, at: int) -> bool {
    &&& 0 <= at
    &&& at + units.len() <= data.len()
    &&& forall|j: int| 0 <= j < units.len() && (#[trigger] units[j]).1 ==> data[at + j] == units[j].0
}

/// The positions below `bound` at which the pattern lies in `data`, in
/// ascending order.
pub open spec fn hits_below(units: Seq<(u8, bool)>, data: Seq<u8>, bound: int) -> Seq<usize>
    decreases bound,
{
    if bound <= 0 {
        Seq::empty()
    } else if matches_at(units, data, bound - 1) {
        hits_below(units, data, bound - 1).push((bound - 1) as usize)
    } else {
        hits_below(units, data, bound - 1)
    }
}

/// All positions at which the pattern lies in `data`, in ascending order,
/// up to the last one at which it still fits.
pub open spec fn hits(units: Seq<(u8, bool)>, data: Seq<u8>) -> Seq<usize> {
    hits_below(units, data, data.len() - units.len() + 1)
}

/// The positions of `offsets` that are `lead` or more, each moved back by
/// `lead`.
pub open spec fn moved_back(offsets: Seq<usize>, lead: nat) -> Seq<usize>
    decreases offsets.len(),
{
    if offsets.len() == 0 {
        Seq::empty()
    } else if offsets.last() >= lead {
        moved_back(offsets.drop_last(), lead).push((offsets.last() - lead) as usize)
    } else {
        moved_back(offsets.drop_last(), lead)
    }
}

/// `aobscan::PatternBuilder::from_hex_string`, then `PatternBuilder::build`
/// on what it gave.
///
/// Whether the text is taken, and what the pattern holds, depends on the
/// text alone. The pattern is built for one thread and holds at most one
/// byte for every two bytes of the text. Where the text begins with a
/// hexadecimal digit the pattern has at least one byte, and no wildcard was
/// cut off at its front. A text that begins with a digit and is made of
/// pairs of digits and pairs `??` alone is taken, and its pattern holds
/// what the pairs stand for, without the wildcards at the end.
#[verifier::external_body]
fn compile_hex(text: &str) -> (built: Result<aobscan::Pattern, aobscan::BuilderError>)
    ensures
        built is Ok <==> hex_pattern(text.spec_bytes()) is Some,
        built is Err ==> !is_plain_hex(text.spec_bytes()),
        built matches Ok(pattern) ==> {
            &&& hex_pattern(text.spec_bytes()) == Some(pattern_units(pattern))
            &&& is_plain_hex(text.spec_bytes()) ==> pattern_units(pattern) == without_end_wildcards(
                hex_units(text.spec_bytes()),
            )
            &&& pattern_threads(pattern) == 1
            &&& pattern_units(pattern).len() <= text.spec_bytes().len() / 2
            &&& is_anchored(text.spec_bytes()) ==> pattern_units(pattern).len() >= 1 && pattern_lead(pattern)
                == 0
        },
{
    aobscan::PatternBuilder::from_hex_string(text).map(aobscan::PatternBuilder::build)
}

/// `aobscan::PatternBuilder::from_ida_style`, then `PatternBuilder::build`
/// on what it gave.
///
/// The contract claims of it what that of [`compile_hex`] claims, but for
/// the length: a token and the whitespace that parts it from the next take
/// two bytes at least, so the pattern holds at most one byte for every two
/// bytes of the text, the last of which may be missing.
#[verifier::external_body]
fn compile_ida(text: &str) -> (built: Result<aobscan::Pattern, aobscan::BuilderError>)
    ensures
        built is Ok <==> ida_pattern(text.spec_bytes()) is Some,
        built matches Ok(pattern) ==> {
            &&& ida_pattern(text.spec_bytes()) == Some(pattern_units(pattern))
            &&& pattern_threads(pattern) == 1
            &&& pattern_units(pattern).len() <= (text.spec_bytes().len() + 1) / 2
            &&& is_anchored(text.spec_bytes()) ==> pattern_units(pattern).len() >= 1 && pattern_lead(pattern)
                == 0
        },
{
    aobscan::PatternBuilder::from_ida_style(text).map(aobscan::PatternBuilder::build)
}

/// Keeps a position that a search reports, and asks the search to go on.
fn keep(offsets: &mut Vec<usize>, offset: usize) -> (more: bool)
    ensures
        final(offsets)@ == old(offsets)@.push(offset),
        more,
{
    offsets.push(offset);
    true
}

/// `aobscan::Pattern::scan` with [`keep`] for its callback, so that every
/// position is kept and the search runs to the end.
///
/// A pattern for one thread, with nothing cut off at its front, is tried at
/// every position that leaves at least one byte of `data` behind it, from
/// the first on, and each position where it lies is reported once. The last
/// position at which the pattern fits is not tried.
#[verifier::external_body]
fn scan_pattern(pattern: &aobscan::Pattern, data: &[u8]) -> (offsets: Vec<usize>)
    requires
        pattern_threads(*pattern) == 1,
        pattern_lead(*pattern) == 0,
        1 <= pattern_units(*pattern).len() <= data@.len(),
    ensures
        offsets@ == hits_below(
            pattern_units(*pattern),
            data@,
            data@.len() - pattern_units(*pattern).len(),
        ),
{
    let mut offsets = Vec::new();
    pattern.scan(data, |offset| keep(&mut offsets, offset));
    offsets
}

/// Why a text was not taken as a pattern.
#[derive(Debug)]
pub enum PatternError {
    /// Behind the wildcards at its front, the text does not go on with a
    /// hexadecimal digit.
    Unanchored,
    /// The pattern may be longer than [`MAX_PATTERN_BYTES`].
    TooLong,
    /// The pattern builder did not take the text.
    Rejected(aobscan::BuilderError),
}

/// A pattern that is ready to be searched for.
pub struct Matcher {
    pattern: aobscan::Pattern,
    lead: usize,
    span: usize,
}

impl Matcher {
    #[verifier::type_invariant]
    spec fn well_formed(self) -> bool {
        &&& pattern_threads(self.pattern) == 1
        &&& pattern_lead(self.pattern) == 0
        &&& 1 <= pattern_units(self.pattern).len() <= self.span
        &&& self.lead + self.span <= MAX_PATTERN_BYTES
    }

    /// The bytes of the pattern, each with whether it must be equal.
    pub closed spec fn units(&self) -> Seq<(u8, bool)> {
        wildcards(self.lead as nat) + pattern_units(self.pattern)
    }

    /// The length that a buffer must have to be searched.
    pub closed spec fn spec_span(&self) -> usize {
        (self.lead + self.span) as usize
    }

    /// The pattern that `text` describes: pairs of hexadecimal digits, with
    /// `??` for a byte that may be anything, or such tokens with spaces
    /// between them, where `?` will do for a wildcard too.
    ///
    /// The wildcards at the front are counted here and the rest is handed
    /// to the pattern builder. The rest must begin with a hexadecimal
    /// digit; whether it is well formed beyond that, the builder decides.
    /// An unbroken text of digit pairs and pairs `??` is always taken, if
    /// it is not too long, and stands for [`plain_pattern`].
    pub fn new(text: &str) -> (built: Result<Self, PatternError>)
        ensures
            match built {
                Ok(matcher) => {
                    &&& is_pattern(text.spec_bytes())
                    &&& parsed(text.spec_bytes()) == Some(matcher.units())
                    &&& matcher.spec_span() == lead_of(text.spec_bytes()) + bound_of(text.spec_bytes())
                    &&& 1 <= matcher.units().len() <= matcher.spec_span()
                },
                Err(PatternError::Unanchored) => !is_anchored(rest_of(text.spec_bytes())),
                Err(PatternError::TooLong) => is_anchored(rest_of(text.spec_bytes())) && lead_of(
                    text.spec_bytes(),
                ) + bound_of(text.spec_bytes()) > MAX_PATTERN_BYTES,
                Err(PatternError::Rejected(_)) => is_anchored(rest_of(text.spec_bytes())) && lead_of(
                    text.spec_bytes(),
                ) + bound_of(text.spec_bytes()) <= MAX_PATTERN_BYTES && core_of(text.spec_bytes()) is None,
            },
            !has_space(text.spec_bytes()) && is_plain_hex(rest_of(text.spec_bytes())) && lead_of(
                text.spec_bytes(),
            ) + bound_of(text.spec_bytes()) <= MAX_PATTERN_BYTES ==> (built matches Ok(matcher)
                && matcher.units() == plain_pattern(text.spec_bytes())),
    {
        broadcast use vstd::utf8::encode_utf8_valid_utf8;

        let bytes = text.as_bytes();
        let tokens = contains_space(bytes);
        let (lead, at) = if tokens {
            skip_ida_wildcards(bytes)
        } else {
            skip_hex_wildcards(bytes)
        };
        if at >= bytes.len() || !hex_digit(bytes[at]) {
            return Err(PatternError::Unanchored);
        }
        let left: usize = bytes.len() - at;
        let span: usize = if tokens {
            left / 2 + left % 2
        } else {
            left / 2
        };
        if lead > MAX_PATTERN_BYTES || span > MAX_PATTERN_BYTES - lead {
            return Err(PatternError::TooLong);
        }
        proof {
            vstd::utf8::is_char_boundary_iff_not_is_continuation_byte(bytes@, at as int);
        }
        let (_, rest) = text.split_at(at);
        assert(rest.spec_bytes() =~= rest_of(text.spec_bytes()));
        let compiled = if tokens {
            compile_ida(rest)
        } else {
            compile_hex(rest)
        };
        match compiled {
            Ok(pattern) => Ok(Matcher { pattern, lead, span }),
            Err(error) => Err(PatternError::Rejected(error)),
        }
    }

    /// The length that a buffer must have to be searched: the wildcards at
    /// the front of the pattern, and the most bytes that the rest of its
    /// text can stand for.
    #[verifier::when_used_as_spec(spec_span)]
    pub fn span(&self) -> (span: usize)
        ensures
            span == self.spec_span(),
            1 <= self.units().len() <= span <= MAX_PATTERN_BYTES,
    {
        proof {
            use_type_invariant(self);
        }
        self.lead + self.span
    }

    /// All positions in `data` at which the pattern lies, in ascending
    /// order; `None` where `data` is shorter than [`Matcher::span`] and is
    /// not searched.
    ///
    /// The search is made for the pattern without the wildcards at its
    /// front, over `data` and once more over its end, where the first
    /// search leaves the last position out. Each position found is then
    /// moved back by the number of wildcards.
    pub fn find(&self, data: &[u8]) -> (found: Option<Vec<usize>>)
        ensures
            1 <= self.units().len() <= self.spec_span() <= MAX_PATTERN_BYTES,
            found is Some <==> data@.len() >= self.spec_span(),
            found matches Some(offsets) ==> offsets@ == hits(self.units(), data@),
    {
        proof {
            use_type_invariant(self);
        }
        if data.len() < self.lead + self.span {
            return None;
        }
        let ghost core = pattern_units(self.pattern);
        let length: usize = data.len();
        let mut all: Vec<usize> = scan_pattern(&self.pattern, data);
        let start: usize = length - self.span;
        let mut tail: Vec<u8> = slice_to_vec(&data[start..length]);
        tail.push(0);
        let behind: Vec<usize> = scan_pattern(&self.pattern, tail.as_slice());
        proof {
            lemma_hits_below(core, data@, length - core.len());
            lemma_hits_below(core, tail@, tail@.len() - core.len());
            lemma_tail(core, data@, start as int, tail@);
        }
        if behind.len() > 0 {
            let at: usize = start + behind[behind.len() - 1];
            if all.len() == 0 || at > all[all.len() - 1] {
                all.push(at);
            }
        }
        proof {
            let first = hits_below(core, data@, length - core.len());
            let end = length - core.len();
            if matches_at(core, data@, end) {
                assert(matches_at(core, tail@, end - start));
                assert(behind@.contains((end - start) as usize));
                assert(behind@.last() == end - start);
            } else if behind@.len() > 0 {
                let at = start + behind@.last();
                assert(matches_at(core, tail@, behind@.last() as int));
                assert(matches_at(core, data@, at));
                assert(first.contains(at as usize));
            }
            assert(all@ == hits_below(core, data@, end + 1));
            lemma_moved_back(core, self.lead as nat, data@, end + 1);
        }
        let mut offsets: Vec<usize> = Vec::new();
        let mut i: usize = 0;
        while i < all.len()
            invariant
                i <= all@.len(),
                offsets@ == moved_back(all@.take(i as int), self.lead as nat),
            decreases all@.len() - i,
        {
            proof {
                assert(all@.take(i + 1).drop_last() =~= all@.take(i as int));
            }
            if all[i] >= self.lead {
                offsets.push(all[i] - self.lead);
            }
            i += 1;
        }
        assert(all@.take(i as int) =~= all@);
        Some(offsets)
    }
}

/// The wildcards that an unbroken text begins with, and the bytes that
/// they take.
fn skip_hex_wildcards(text: &[u8]) -> (found: (usize, usize))
    ensures
        found.0 == hex_lead(text@),
        found.1 == 2 * hex_lead(text@),
        found.1 <= text@.len(),
{
    let mut lead: usize = 0;
    let mut at: usize = 0;
    assert(text@.skip(0) =~= text@);
    while text.len() - at >= 2 && text[at] == 0x3f && text[at + 1] == 0x3f
        invariant
            at == 2 * lead,
            at <= text@.len(),
            lead + hex_lead(text@.skip(at as int)) == hex_lead(text@),
        decreases text@.len() - at,
    {
        assert(text@.skip(at as int).skip(2) =~= text@.skip(at + 2));
        lead += 1;
        at += 2;
    }
    (lead, at)
}

/// The wildcards that a text of tokens begins with, and the bytes that they
/// take together with the spaces around them.
fn skip_ida_wildcards(text: &[u8]) -> (found: (usize, usize))
    ensures
        (found.0 as nat, found.1 as nat) == ida_lead(text@),
        found.1 <= text@.len(),
{
    let mut lead: usize = 0;
    let mut at: usize = 0;
    let length: usize = text.len();
    assert(text@.skip(0) =~= text@);
    loop
        invariant
            length == text@.len(),
            lead <= at <= length,
            ida_lead(text@) == (
                (lead + ida_lead(text@.skip(at as int)).0) as nat,
                (at + ida_lead(text@.skip(at as int)).1) as nat,
            ),
        ensures
            ida_lead(text@.skip(at as int)) == (0nat, 0nat),
        decreases length - at,
    {
        let ghost here = text@.skip(at as int);
        if at < length && text[at] == 0x20 {
            assert(here.skip(1) =~= text@.skip(at + 1));
            at += 1;
        } else if at < length && text[at] == 0x3f && (length - at == 1 || text[at + 1] == 0x20) {
            assert(here.skip(1) =~= text@.skip(at + 1));
            lead += 1;
            at += 1;
        } else if length - at >= 2 && text[at] == 0x3f && text[at + 1] == 0x3f && (length - at == 2 || text[at
            + 2] == 0x20) {
            assert(here.skip(2) =~= text@.skip(at + 2));
            lead += 1;
            at += 2;
        } else {
            break;
        }
    }
    (lead, at)
}

/// Whether `byte` is a hexadecimal digit.
pub fn hex_digit(byte: u8) -> (is: bool)
    ensures
        is == is_hex_digit(byte),
{
    (0x30 <= byte && byte <= 0x39) || (0x41 <= byte && byte <= 0x46) || (0x61 <= byte && byte <= 0x66)
}

/// Whether `text` holds a space.
pub fn contains_space(text: &[u8]) -> (found: bool)
    ensures
        found == has_space(text@),
{
    let mut i: usize = 0;
    while i < text.len()
        invariant
            i <= text@.len(),
            forall|k: int| 0 <= k < i ==> text@[k] != 0x20,
        decreases text@.len() - i,
    {
        if text[i] == 0x20 {
            return true;
        }
        i += 1;
    }
    false
}

/// What a search reports: positions in ascending order, each one a place
/// where the pattern lies, and every such place below `bound` among them.
pub proof fn lemma_hits_below(units: Seq<(u8, bool)>, data: Seq<u8>, bound: int)
    requires
        bound <= usize::MAX,
    ensures
        forall|k: int|
            0 <= k < hits_below(units, data, bound).len() ==> {
                &&& (#[trigger] hits_below(units, data, bound)[k]) < bound
                &&& matches_at(units, data, hits_below(units, data, bound)[k] as int)
            },
        forall|k: int, l: int|
            0 <= k < l < hits_below(units, data, bound).len() ==> (#[trigger] hits_below(units, data, bound)[k])
                < (#[trigger] hits_below(units, data, bound)[l]),
        forall|at: int|
            0 <= at < bound && matches_at(units, data, at) ==> #[trigger] hits_below(
                units,
                data,
                bound,
            ).contains(at as usize),
        hits_below(units, data, bound).len() <= if bound > 0 { bound } else { 0 },
    decreases bound,
{
    if bound > 0 {
        lemma_hits_below(units, data, bound - 1);
        let before = hits_below(units, data, bound - 1);
        let here = hits_below(units, data, bound);
        assert forall|at: int| 0 <= at < bound && matches_at(units, data, at) implies #[trigger] here.contains(
            at as usize,
        ) by {
            if at == bound - 1 {
                assert(here[here.len() - 1] == at as usize);
            } else {
                assert(before.contains(at as usize));
                let k = choose|k: int| 0 <= k < before.len() && before[k] == at as usize;
                assert(here[k] == at as usize);
            }
        }
    }
}

/// The end of `data` with one byte behind it holds the pattern where
/// `data` holds it, at every position at which the pattern fits `data`.
pub proof fn lemma_tail(units: Seq<(u8, bool)>, data: Seq<u8>, start: int, tail: Seq<u8>)
    requires
        0 <= start <= data.len(),
        tail == data.subrange(start, data.len() as int).push(0u8),
    ensures
        forall|at: int|
            0 <= at && at + units.len() <= data.len() - start ==> (#[trigger] matches_at(units, tail, at)
                <==> matches_at(units, data, start + at)),
{
    assert forall|at: int| 0 <= at && at + units.len() <= data.len() - start implies (#[trigger] matches_at(
        units,
        tail,
        at,
    ) <==> matches_at(units, data, start + at)) by {
        assert forall|j: int| 0 <= j < units.len() && (#[trigger] units[j]).1 implies tail[at + j]
            == data[start + at + j] by {}
    }
}

/// A pattern with wildcards at its front lies where the pattern without
/// them lies that many bytes further on.
pub proof fn lemma_wildcards_in_front(core: Seq<(u8, bool)>, lead: nat, data: Seq<u8>, at: int)
    requires
        0 <= at,
    ensures
        matches_at(wildcards(lead) + core, data, at) <==> matches_at(core, data, at + lead),
{
    let whole = wildcards(lead) + core;
    if matches_at(whole, data, at) {
        assert forall|j: int| 0 <= j < core.len() && (#[trigger] core[j]).1 implies data[at + lead + j]
            == core[j].0 by {
            assert(whole[lead + j] == core[j]);
        }
    }
    if matches_at(core, data, at + lead) {
        assert forall|j: int| 0 <= j < whole.len() && (#[trigger] whole[j]).1 implies data[at + j]
            == whole[j].0 by {
            if j >= lead {
                assert(whole[j] == core[j - lead]);
            }
        }
    }
}

/// The positions of a pattern with wildcards at its front are those of the
/// pattern without them, moved back by the number of wildcards.
pub proof fn lemma_moved_back(core: Seq<(u8, bool)>, lead: nat, data: Seq<u8>, bound: int)
    requires
        bound <= usize::MAX,
    ensures
        moved_back(hits_below(core, data, bound), lead) == hits_below(wildcards(lead) + core, data, bound - lead),
    decreases bound,
{
    if bound > 0 {
        lemma_moved_back(core, lead, data, bound - 1);
        let before = hits_below(core, data, bound - 1);
        let here = hits_below(core, data, bound);
        if matches_at(core, data, bound - 1) {
            assert(here.drop_last() =~= before);
        }
        if bound - 1 >= lead {
            lemma_wildcards_in_front(core, lead, data, bound - 1 - lead);
        }
    }
}

} // verus!
