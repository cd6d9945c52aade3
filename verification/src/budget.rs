//! The budget truncator: a cap on the number of lines that go into the
//! prompt. The cap counts lines, not tokens, so it only approximates the limit
//! of the service.

use vstd::prelude::*;
use crate::formatter::FormattedLine;
use crate::text::{decimal, decimal_string};

verus! {

/// The cap on the lines of a prompt where nothing else is asked for.
pub const DEFAULT_MAX_LINES: usize = 400;

/// How many of `len` lines stay under a cap of `cap` lines.
pub open spec fn kept_len(len: nat, cap: nat) -> nat {
    if len <= cap {
        len
    } else {
        cap
    }
}

/// How many of `len` lines are dropped under a cap of `cap` lines.
pub open spec fn dropped_count(len: nat, cap: nat) -> nat {
    (len - kept_len(len, cap)) as nat
}

/// The notice for `dropped` lines that were cut off: none where nothing was
/// dropped, else a sentence that names the count, with `line` in the singular
/// for one line.
pub open spec fn notice_text(dropped: nat) -> Option<Seq<char>> {
    if dropped == 0 {
        None
    } else {
        Some(
            "Cut off "@ + decimal(dropped) + " subtitle line"@ + if dropped == 1 {
                Seq::<char>::empty()
            } else {
                "s"@
            } + ", to avoid hitting the token limit...\n"@,
        )
    }
}

/// The first `max_lines` lines, or all of them where there are fewer, and the
/// number of lines that were dropped.
pub fn truncate_lines(lines: Vec<FormattedLine>, max_lines: usize) -> (out: (
    Vec<FormattedLine>,
    usize,
))
    ensures
        out.0@ == lines@.take(kept_len(lines@.len(), max_lines as nat) as int),
        out.1 == dropped_count(lines@.len(), max_lines as nat),
{
    let mut kept = lines;
    let len = kept.len();
    if len > max_lines {
        kept.truncate(max_lines);
        (kept, len - max_lines)
    } else {
        assert(kept@.take(len as int) =~= kept@);
        (kept, 0)
    }
}

/// The notice to show before going on, where lines were dropped.
pub fn truncation_notice(dropped: usize) -> (notice: Option<String>)
    ensures
        match notice {
            Some(text) => notice_text(dropped as nat) == Some(text@),
            None => notice_text(dropped as nat) is None,
        },
{
    if dropped == 0 {
        None
    } else {
        let mut text = String::from_str("Cut off ");
        let count = decimal_string(dropped);
        text.append(count.as_str());
        text.append(" subtitle line");
        if dropped != 1 {
            text.append("s");
        }
        text.append(", to avoid hitting the token limit...\n");
        assert(text@ =~= notice_text(dropped as nat).unwrap());
        Some(text)
    }
}

/// Truncation: of `len` lines under a cap of `cap`, the smaller of the two
/// numbers stay; a notice is given exactly where `len` is above `cap`, and
/// then `len - cap` lines were dropped.
pub proof fn lemma_truncation(len: nat, cap: nat)
    ensures
        kept_len(len, cap) <= len,
        kept_len(len, cap) <= cap,
        kept_len(len, cap) == len || kept_len(len, cap) == cap,
        kept_len(len, cap) + dropped_count(len, cap) == len,
        notice_text(dropped_count(len, cap)) is Some <==> len > cap,
        len > cap ==> dropped_count(len, cap) == len - cap,
{
}

} // verus!
