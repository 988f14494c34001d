//! What a run checks before it reads guest memory, and what it says of the
//! pages before it scans them.

use vstd::prelude::*;
use vstd::utf8::encode_utf8;
use crate::cli::Cli;
use crate::matcher::{is_pattern, parsed, Matcher, PatternError};
use crate::pageset::keys_of;
use crate::patch::{decode_patch, hex_bytes, is_hex_text, stripped, PatchError};
use crate::range::Range;

verus! {

/// The processor architecture of a guest.
#[derive(Debug, Copy, Clone, PartialEq, Eq, Structural)]
pub enum Architecture {
    /// An architecture that is not known, with the size of its pages.
    Unknown(usize),
    /// x86 with addresses of `bits` bits, with or without the physical
    /// address extensions.
    X86 { bits: u8, address_extensions: bool },
    /// ARM 64-bit, with the size of its pages.
    AArch64(usize),
}

/// Why a run cannot go on.
#[derive(Debug, Copy, Clone, PartialEq, Eq, Structural)]
pub enum SessionError {
    /// The guest is not a 64-bit x86 machine.
    ArchitectureMismatch,
    /// The walk found no page.
    NoPages,
}

/// Why a request for a run was not taken.
#[derive(Debug)]
pub enum ConfigError {
    /// The pattern was not taken.
    Pattern(PatternError),
    /// The patch was not taken.
    Patch(PatchError),
}

/// What a run looks for and what it writes.
pub struct Plan {
    /// The pattern to look for.
    pub matcher: Matcher,
    /// The bytes to write over each match; none where matches are only to
    /// be reported.
    pub patch: Vec<u8>,
}

/// The bytes that a patch text stands for, or none where no text is given.
pub open spec fn patch_of(text: Option<String>) -> Seq<u8> {
    match text {
        Some(text) => hex_bytes(stripped(encode_utf8(text@))),
        None => Seq::empty(),
    }
}

/// Whether the patch text, if one is given, is taken.
pub open spec fn is_patch(text: Option<String>) -> bool {
    text matches Some(text) ==> is_hex_text(stripped(encode_utf8(text@)))
}

/// Whether the guest is one whose tables this library can walk: x86 with
/// 64-bit addresses and four levels of paging.
pub fn check_architecture(architecture: Architecture) -> (outcome: Result<(), SessionError>)
    ensures
        outcome is Ok <==> architecture == (Architecture::X86 { bits: 64, address_extensions: false }),
        outcome matches Err(e) ==> e == SessionError::ArchitectureMismatch,
{
    match architecture {
        Architecture::X86 { bits, address_extensions } => {
            if bits == 64 && !address_extensions {
                Ok(())
            } else {
                Err(SessionError::ArchitectureMismatch)
            }
        },
        _ => Err(SessionError::ArchitectureMismatch),
    }
}

/// The pattern and the patch that `cli` asks for. The pattern is looked at
/// first: a request with a pattern that is not taken fails on the pattern,
/// whatever its patch.
pub fn plan(cli: &Cli) -> (outcome: Result<Plan, ConfigError>)
    ensures
        match outcome {
            Ok(plan) => {
                &&& is_pattern(encode_utf8(cli.pattern@))
                &&& is_patch(cli.patch)
                &&& plan.patch@ == patch_of(cli.patch)
                &&& parsed(encode_utf8(cli.pattern@)) == Some(plan.matcher.units())
            },
            Err(ConfigError::Pattern(_)) => !is_pattern(encode_utf8(cli.pattern@)),
            Err(ConfigError::Patch(_)) => is_pattern(encode_utf8(cli.pattern@)) && !is_patch(cli.patch),
        },
{
    let matcher = match Matcher::new(cli.pattern.as_str()) {
        Ok(matcher) => matcher,
        Err(error) => {
            return Err(ConfigError::Pattern(error));
        },
    };
    let patch = match &cli.patch {
        Some(text) => match decode_patch(text.as_str()) {
            Ok(bytes) => bytes,
            Err(error) => {
                return Err(ConfigError::Patch(error));
            },
        },
        None => Vec::new(),
    };
    Ok(Plan { matcher, patch })
}

/// The sum of the sizes of the first `count` of `pages`.
pub open spec fn span_of(pages: Seq<(u64, usize)>, count: int) -> int
    decreases count,
{
    if count <= 0 {
        0
    } else {
        span_of(pages, count - 1) + pages[count - 1].1
    }
}

/// The bytes that `pages` span in all, or `None` where the sum does not fit.
pub fn total_size(pages: &Vec<Range>) -> (total: Option<usize>)
    ensures
        total is Some <==> span_of(keys_of(pages@), pages@.len() as int) <= usize::MAX,
        total matches Some(sum) ==> sum == span_of(keys_of(pages@), pages@.len() as int),
{
    let mut sum: usize = 0;
    let mut i: usize = 0;
    while i < pages.len()
        invariant
            i <= pages@.len(),
            sum == span_of(keys_of(pages@), i as int),
        decreases pages@.len() - i,
    {
        let size: usize = pages[i].size();
        if size > usize::MAX - sum {
            proof {
                lemma_span_grows(keys_of(pages@), i + 1, pages@.len() as int);
            }
            return None;
        }
        sum = sum + size;
        i += 1;
    }
    Some(sum)
}

/// The span of more pages is no smaller.
pub proof fn lemma_span_grows(pages: Seq<(u64, usize)>, fewer: int, more: int)
    requires
        fewer <= more,
    ensures
        span_of(pages, fewer) <= span_of(pages, more),
    decreases more - fewer,
{
    if fewer < more {
        lemma_span_grows(pages, fewer, more - 1);
    }
}

/// Whether there is anything to scan: a walk that found no page is taken
/// for a walk that went wrong.
pub fn require_pages(pages: &Vec<Range>) -> (outcome: Result<(), SessionError>)
    ensures
        outcome is Ok <==> pages@.len() > 0,
        outcome matches Err(e) ==> e == SessionError::NoPages,
{
    if pages.len() > 0 {
        Ok(())
    } else {
        Err(SessionError::NoPages)
    }
}

} // verus!
