//! The prompt builder: the lines that were kept, wrapped in the instruction
//! that asks for a summary.

use vstd::prelude::*;
use crate::formatter::{FormattedLine, LineText, line_views, rendered};

verus! {

/// The instruction that the service gets in the system role.
pub const SYSTEM_INSTRUCTION: &'static str =
    "You summarize the video whose subtitles you are given. After the quick summary, provide a very detailed listing of each subject discussed and the corresponding timestamps where each subject can be found.";

/// What the summary is asked to look like.
pub const DIRECTIVE: &'static str =
    "Summarize the video whose subtitles follow. Start with a quick summary, then list each subject discussed in detail.";

/// What is asked in addition where the subtitles carry times.
pub const TIMESTAMP_REQUEST: &'static str =
    " For each subject, give the timestamps where it can be found.";

/// The line that opens the subtitles.
pub const START_MARKER: &'static str = "\n\n--- SUBTITLES START ---\n";

/// The line that closes the subtitles.
pub const END_MARKER: &'static str = "\n--- SUBTITLES END ---";

/// What is sent to the service: the instruction of the system role, and the
/// message of the user role.
#[derive(Debug, Clone, PartialEq, Eq)]
pub struct Prompt {
    pub system_instruction: String,
    pub user_content: String,
}

/// The lines as they stand in the prompt, one below the other.
pub open spec fn joined(lines: Seq<LineText>) -> Seq<char>
    decreases lines.len(),
{
    if lines.len() == 0 {
        Seq::empty()
    } else if lines.len() == 1 {
        rendered(lines[0])
    } else {
        joined(lines.drop_last()) + seq!['\n'] + rendered(lines.last())
    }
}

/// Whether one of the lines carries a time.
pub open spec fn has_timestamps(lines: Seq<LineText>) -> bool {
    exists|i: int| 0 <= i < lines.len() && (#[trigger] lines[i]).timestamp_prefix is Some
}

/// The message of the user role: the directive, the request for times where
/// the subtitles carry them, and the subtitles between their two markers.
pub open spec fn user_content(subtitles: Seq<char>, with_timestamps: bool) -> Seq<char> {
    DIRECTIVE@ + if with_timestamps {
        TIMESTAMP_REQUEST@
    } else {
        Seq::<char>::empty()
    } + START_MARKER@ + subtitles + END_MARKER@
}

/// The lines as they stand in the prompt, joined by line feeds.
pub fn join_lines(lines: &Vec<FormattedLine>) -> (text: String)
    ensures
        text@ == joined(line_views(lines@)),
{
    let ghost all = line_views(lines@);
    let mut text = String::new();
    let mut i: usize = 0;
    assert(all.take(0) =~= Seq::<LineText>::empty());
    while i < lines.len()
        invariant
            i <= lines@.len(),
            all == line_views(lines@),
            text@ == joined(all.take(i as int)),
        decreases lines@.len() - i,
    {
        proof {
            assert(all.take(i + 1).drop_last() =~= all.take(i as int));
            assert(all.take(i + 1).last() == lines@[i as int]@);
            reveal_strlit("\n");
            assert("\n"@ =~= seq!['\n']);
        }
        if i > 0 {
            text.append("\n");
        }
        let line = lines[i].render();
        text.append(line.as_str());
        proof {
            if i == 0 {
                assert(all.take(1)[0] == lines@[0]@);
                assert(text@ =~= rendered(lines@[0]@));
            }
        }
        i += 1;
    }
    assert(all.take(lines@.len() as int) =~= all);
    text
}

/// Whether one of the lines carries a time.
pub fn any_timestamp(lines: &Vec<FormattedLine>) -> (found: bool)
    ensures
        found == has_timestamps(line_views(lines@)),
{
    let mut i: usize = 0;
    while i < lines.len()
        invariant
            i <= lines@.len(),
            forall|k: int| 0 <= k < i ==> (#[trigger] line_views(lines@)[k]).timestamp_prefix
                is None,
        decreases lines@.len() - i,
    {
        if lines[i].timestamp_prefix.is_some() {
            assert(line_views(lines@)[i as int].timestamp_prefix is Some);
            return true;
        }
        i += 1;
    }
    false
}

/// The prompt for the subtitles `subtitles`.
pub fn build_prompt(subtitles: &str, with_timestamps: bool) -> (prompt: Prompt)
    ensures
        prompt.system_instruction@ == SYSTEM_INSTRUCTION@,
        prompt.user_content@ == user_content(subtitles@, with_timestamps),
{
    let mut content = String::from_str(DIRECTIVE);
    if with_timestamps {
        content.append(TIMESTAMP_REQUEST);
    }
    content.append(START_MARKER);
    content.append(subtitles);
    content.append(END_MARKER);
    assert(content@ =~= user_content(subtitles@, with_timestamps));
    Prompt { system_instruction: String::from_str(SYSTEM_INSTRUCTION), user_content: content }
}

} // verus!
