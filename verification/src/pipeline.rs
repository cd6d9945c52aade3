//! The whole way from the text of a caption track to the prompt.

use vstd::prelude::*;
use crate::budget::{dropped_count, kept_len, notice_text, truncate_lines, truncation_notice};
use crate::captions::{
    caption_lines, is_text_line, lemma_cues_hold_no_angle_bracket,
    lemma_cues_hold_no_tag, lemma_time_holds_no_angle, no_angle, parse_captions, parsed, tag_free,
};
use crate::formatter::{
    LineText, emitted, format_cues, formatted, lemma_lines_cover_cues, line_views, rendered,
};
use crate::prompt::{
    DIRECTIVE, END_MARKER, Prompt, START_MARKER, SYSTEM_INSTRUCTION, TIMESTAMP_REQUEST,
    any_timestamp, build_prompt, has_timestamps, join_lines, joined, user_content,
};
use crate::text::{lemma_trimmed_is_subrange, trimmed};

verus! {

/// A prompt that is ready to be sent, with what was left out of it.
#[derive(Debug, Clone, PartialEq, Eq)]
pub struct Prepared {
    pub prompt: Prompt,
    /// The number of lines that the cap cut off.
    pub dropped: usize,
    /// What to tell the user before going on, where lines were cut off.
    pub notice: Option<String>,
}

/// The lines of a track that go into the prompt: its cues, formatted, under
/// the cap.
pub open spec fn prompt_lines(raw: Seq<char>, stride: int, max_lines: nat) -> Seq<LineText> {
    let all = formatted(parsed(raw), stride);
    all.take(kept_len(all.len(), max_lines) as int)
}

/// The prompt for the caption track `raw`: its cues are parsed, formatted with
/// a time on every `stride`-th line, and cut to `max_lines` lines.
pub fn prepare(raw: &str, stride: usize, max_lines: usize) -> (out: Prepared)
    requires
        stride > 0,
    ensures
        out.prompt.system_instruction@ == SYSTEM_INSTRUCTION@,
        out.prompt.user_content@ == user_content(
            joined(prompt_lines(raw@, stride as int, max_lines as nat)),
            has_timestamps(prompt_lines(raw@, stride as int, max_lines as nat)),
        ),
        out.dropped == dropped_count(
            formatted(parsed(raw@), stride as int).len(),
            max_lines as nat,
        ),
        match out.notice {
            Some(text) => notice_text(out.dropped as nat) == Some(text@),
            None => notice_text(out.dropped as nat) is None,
        },
{
    let cues = parse_captions(raw);
    let lines = format_cues(&cues, stride);
    let ghost all = line_views(lines@);
    let (kept, dropped) = truncate_lines(lines, max_lines);
    assert(line_views(kept@) =~= all.take(kept_len(all.len(), max_lines as nat) as int));
    let subtitles = join_lines(&kept);
    let with_timestamps = any_timestamp(&kept);
    let prompt = build_prompt(subtitles.as_str(), with_timestamps);
    let notice = truncation_notice(dropped);
    Prepared { prompt, dropped, notice }
}

proof fn lemma_trimmed_keeps_no_angle(s: Seq<char>)
    requires
        no_angle(s),
    ensures
        no_angle(trimmed(s)),
{
    let r = lemma_trimmed_is_subrange(s);
    let t = trimmed(s);
    assert forall|k: int| 0 <= k < t.len() implies t[k] != '<' && t[k] != '>' by {
        assert(t[k] == s[r.0 + k]);
    }
}

proof fn lemma_trimmed_keeps_tag_free(s: Seq<char>)
    requires
        tag_free(s),
    ensures
        tag_free(trimmed(s)),
{
    let r = lemma_trimmed_is_subrange(s);
    let t = trimmed(s);
    assert forall|p: int, q: int| 0 <= p < q < t.len() implies !(t[p] == '<' && t[q] == '>') by {
        assert(t[p] == s[r.0 + p]);
        assert(t[q] == s[r.0 + q]);
    }
}

proof fn lemma_joined_holds_no_angle(lines: Seq<LineText>)
    requires
        forall|k: int| 0 <= k < lines.len() ==> no_angle(rendered(#[trigger] lines[k])),
    ensures
        no_angle(joined(lines)),
    decreases lines.len(),
{
    if lines.len() > 1 {
        let front = lines.drop_last();
        assert forall|k: int| 0 <= k < front.len() implies no_angle(
            rendered(#[trigger] front[k]),
        ) by {
            assert(front[k] == lines[k]);
        }
        lemma_joined_holds_no_angle(front);
        let last = rendered(lines[lines.len() - 1]);
        assert(no_angle(last));
        let head = joined(front);
        let all = joined(lines);
        assert(all == head + seq!['\n'] + last);
        assert forall|k: int| 0 <= k < all.len() implies all[k] != '<' && all[k] != '>' by {
            if k < head.len() {
                assert(all[k] == head[k]);
            } else if k == head.len() {
                assert(all[k] == '\n');
            } else {
                assert(all[k] == last[k - head.len() - 1]);
            }
        }
    } else if lines.len() == 1 {
        assert(no_angle(rendered(lines[0])));
    }
}

/// No tag reaches the prompt, whatever the track holds: in no line of the
/// prompt is a `<` followed by a `>`.
pub proof fn lemma_no_tag_reaches_prompt(raw: Seq<char>, stride: int, max_lines: nat)
    ensures
        forall|k: int|
            0 <= k < prompt_lines(raw, stride, max_lines).len() ==> tag_free(
                rendered(#[trigger] prompt_lines(raw, stride, max_lines)[k]),
            ),
{
    let cues = parsed(raw);
    let all = formatted(cues, stride);
    let kept = emitted(cues);
    lemma_cues_hold_no_tag(raw);
    lemma_lines_cover_cues(cues, stride);
    assert forall|k: int| 0 <= k < prompt_lines(raw, stride, max_lines).len() implies tag_free(
        rendered(#[trigger] prompt_lines(raw, stride, max_lines)[k]),
    ) by {
        let line = all[k];
        assert(prompt_lines(raw, stride, max_lines)[k] == line);
        let i = choose|i: int|
            0 <= i < cues.len() && (#[trigger] all[k]).text == trimmed((#[trigger] cues[i]).text)
                && kept[k].timestamp == cues[i].timestamp;
        lemma_trimmed_keeps_tag_free(cues[i].text);
        let whole = rendered(line);
        match line.timestamp_prefix {
            Some(stamp) => {
                assert(stamp == cues[i].timestamp);
                lemma_time_holds_no_angle(stamp);
                let lead = stamp + seq![':', ' '];
                assert(whole == lead + line.text);
                assert forall|p: int, q: int| 0 <= p < q < whole.len() implies !(whole[p] == '<'
                    && whole[q] == '>') by {
                    if p < lead.len() {
                        assert(whole[p] == lead[p]);
                        if p < stamp.len() {
                            assert(lead[p] == stamp[p]);
                        }
                    } else {
                        assert(whole[p] == line.text[p - lead.len()]);
                        assert(whole[q] == line.text[q - lead.len()]);
                    }
                }
            },
            None => {},
        }
    }
}

/// No `<` and no `>` reaches the prompt where, once the tags are removed,
/// none of the lines that can give a cue holds one: neither do the subtitles
/// between the markers hold one, nor does the message as a whole.
pub proof fn lemma_no_bracket_reaches_prompt(
    raw: Seq<char>,
    stride: int,
    max_lines: nat,
    with_timestamps: bool,
)
    requires
        forall|m: int| #[trigger]
            is_text_line(caption_lines(raw), m, false) ==> no_angle(
                trimmed(caption_lines(raw)[m]),
            ),
    ensures
        no_angle(joined(prompt_lines(raw, stride, max_lines))),
        no_angle(user_content(joined(prompt_lines(raw, stride, max_lines)), with_timestamps)),
{
    let cues = parsed(raw);
    let all = formatted(cues, stride);
    let kept = emitted(cues);
    let lines = prompt_lines(raw, stride, max_lines);
    lemma_cues_hold_no_angle_bracket(raw);
    lemma_lines_cover_cues(cues, stride);
    assert forall|k: int| 0 <= k < lines.len() implies no_angle(rendered(#[trigger] lines[k])) by {
        let line = all[k];
        assert(lines[k] == line);
        let i = choose|i: int|
            0 <= i < cues.len() && (#[trigger] all[k]).text == trimmed((#[trigger] cues[i]).text)
                && kept[k].timestamp == cues[i].timestamp;
        lemma_trimmed_keeps_no_angle(cues[i].text);
        let whole = rendered(line);
        match line.timestamp_prefix {
            Some(stamp) => {
                assert(stamp == cues[i].timestamp);
                let lead = stamp + seq![':', ' '];
                assert(whole == lead + line.text);
                assert forall|p: int| 0 <= p < whole.len() implies whole[p] != '<' && whole[p]
                    != '>' by {
                    if p < lead.len() {
                        assert(whole[p] == lead[p]);
                        if p < stamp.len() {
                            assert(lead[p] == stamp[p]);
                        }
                    } else {
                        assert(whole[p] == line.text[p - lead.len()]);
                    }
                }
            },
            None => {},
        }
    }
    lemma_joined_holds_no_angle(lines);
    lemma_wording_holds_no_angle();
    let subtitles = joined(lines);
    let request = if with_timestamps {
        TIMESTAMP_REQUEST@
    } else {
        Seq::<char>::empty()
    };
    let message = user_content(subtitles, with_timestamps);
    assert(message == DIRECTIVE@ + request + START_MARKER@ + subtitles + END_MARKER@);
    let a = DIRECTIVE@.len() as int;
    let b = a + request.len();
    let c = b + START_MARKER@.len();
    let d = c + subtitles.len();
    assert forall|p: int| 0 <= p < message.len() implies message[p] != '<' && message[p]
        != '>' by {
        if p < a {
            assert(message[p] == DIRECTIVE@[p]);
        } else if p < b {
            assert(message[p] == request[p - a]);
        } else if p < c {
            assert(message[p] == START_MARKER@[p - b]);
        } else if p < d {
            assert(message[p] == subtitles[p - c]);
        } else {
            assert(message[p] == END_MARKER@[p - d]);
        }
    }
}

proof fn lemma_wording_holds_no_angle()
    ensures
        no_angle(DIRECTIVE@),
        no_angle(TIMESTAMP_REQUEST@),
        no_angle(START_MARKER@),
        no_angle(END_MARKER@),
{
    reveal_strlit(
        "Summarize the video whose subtitles follow. Start with a quick summary, then list each subject discussed in detail.",
    );
    reveal_strlit(" For each subject, give the timestamps where it can be found.");
    reveal_strlit("\n\n--- SUBTITLES START ---\n");
    reveal_strlit("\n--- SUBTITLES END ---");
}

} // verus!
