//! What comes of feeding the lines of a prompt back in as a caption track:
//! where no two of them read the same, the second pass keeps every one, in
//! its place.

use vstd::prelude::*;
use crate::captions::{
    CueText, closing, cues_of_lines, is_time_range, lemma_closing_is_closer,
    lemma_cues_hold_no_line_feed, lemma_cues_hold_no_tag, lemma_first_break, lemma_unclosed_stays,
    lines_of, newline_free, parsed, range_start, strip_tags, tag_free, unclosed,
};
use crate::formatter::{
    LineText, cue_texts, emitted, formatted, lemma_distinct_cues_are_kept, lemma_lines_cover_cues,
    line_texts, rendered,
};
use crate::pipeline::{lemma_no_tag_reaches_prompt, prompt_lines};
use crate::prompt::joined;
use crate::text::{is_whitespace, lemma_subrange_is_trimmed, lemma_trimmed_is_subrange, trimmed};

verus! {

/// The time range that opens the track made of the lines of a prompt.
pub const OPENING: &'static str = "00:00:00.000 --> 00:00:01.000";

/// Texts one below the other, joined by line feeds.
pub open spec fn join_texts(texts: Seq<Seq<char>>) -> Seq<char>
    decreases texts.len(),
{
    if texts.len() == 0 {
        Seq::empty()
    } else if texts.len() == 1 {
        texts[0]
    } else {
        texts[0] + seq!['\n'] + join_texts(texts.drop_first())
    }
}

/// The lines as they stand in the prompt.
pub open spec fn rendered_lines(lines: Seq<LineText>) -> Seq<Seq<char>> {
    Seq::new(lines.len(), |i: int| rendered(lines[i]))
}

/// The caption track made of the lines of a prompt: one time range, and the
/// lines below it.
pub open spec fn fed_back(lines: Seq<LineText>) -> Seq<char> {
    OPENING@ + seq!['\n'] + joined(lines)
}

proof fn lemma_join_push(texts: Seq<Seq<char>>, last: Seq<char>)
    requires
        texts.len() > 0,
    ensures
        join_texts(texts.push(last)) == join_texts(texts) + seq!['\n'] + last,
    decreases texts.len(),
{
    let all = texts.push(last);
    if texts.len() == 1 {
        assert(all.drop_first() =~= seq![last]);
        assert(join_texts(all.drop_first()) == last);
    } else {
        let rest = texts.drop_first();
        assert(all.drop_first() =~= rest.push(last));
        lemma_join_push(rest, last);
        assert(all[0] == texts[0]);
        assert(texts[0] + seq!['\n'] + (join_texts(rest) + seq!['\n'] + last) =~= (texts[0] + seq![
            '\n',
        ] + join_texts(rest)) + seq!['\n'] + last);
    }
}

proof fn lemma_joined_is_join(lines: Seq<LineText>)
    ensures
        joined(lines) == join_texts(rendered_lines(lines)),
    decreases lines.len(),
{
    let texts = rendered_lines(lines);
    if lines.len() == 0 {
    } else if lines.len() == 1 {
        assert(texts[0] == rendered(lines[0]));
    } else {
        let front = lines.drop_last();
        lemma_joined_is_join(front);
        assert(texts =~= rendered_lines(front).push(rendered(lines.last())));
        lemma_join_push(rendered_lines(front), rendered(lines.last()));
    }
}

proof fn lemma_closing_before_break(a: Seq<char>, b: Seq<char>, i: int)
    requires
        0 <= i <= a.len(),
    ensures
        closing(a + seq!['\n'] + b, i) == closing(a, i),
    decreases a.len() - i,
{
    let all = a + seq!['\n'] + b;
    if i < a.len() {
        assert(all[i] == a[i]);
        if a[i] != '\n' && a[i] != '>' {
            lemma_closing_before_break(a, b, i + 1);
        }
    } else {
        assert(all[i] == '\n');
    }
}

proof fn lemma_closing_after_prefix(p: Seq<char>, b: Seq<char>, j: int)
    requires
        0 <= j,
    ensures
        closing(p + b, p.len() + j) is None <==> closing(b, j) is None,
    decreases b.len() - j,
{
    let all = p + b;
    if j < b.len() {
        assert(all[p.len() + j] == b[j]);
        if b[j] != '\n' && b[j] != '>' {
            lemma_closing_after_prefix(p, b, j + 1);
        }
    }
}

proof fn lemma_tag_free_is_unclosed(s: Seq<char>)
    requires
        tag_free(s),
    ensures
        unclosed(s),
{
    assert forall|p: int| 0 <= p < s.len() && s[p] == '<' implies closing(s, p + 1) is None by {
        lemma_closing_is_closer(s, p + 1);
    }
}

proof fn lemma_unclosed_over_break(a: Seq<char>, b: Seq<char>)
    requires
        unclosed(a),
        unclosed(b),
    ensures
        unclosed(a + seq!['\n'] + b),
{
    let all = a + seq!['\n'] + b;
    let lead = a + seq!['\n'];
    assert(all =~= lead + b);
    assert forall|p: int| 0 <= p < all.len() && all[p] == '<' implies closing(all, p + 1)
        is None by {
        if p < a.len() {
            assert(all[p] == a[p]);
            lemma_closing_before_break(a, b, p + 1);
        } else {
            assert(p > a.len());
            let j = p - lead.len();
            assert(all[p] == b[j]);
            lemma_closing_after_prefix(lead, b, j + 1);
        }
    }
}

proof fn lemma_join_is_unclosed(texts: Seq<Seq<char>>)
    requires
        forall|i: int| 0 <= i < texts.len() ==> tag_free(#[trigger] texts[i]),
    ensures
        unclosed(join_texts(texts)),
    decreases texts.len(),
{
    if texts.len() == 1 {
        lemma_tag_free_is_unclosed(texts[0]);
    } else if texts.len() > 1 {
        let rest = texts.drop_first();
        assert forall|i: int| 0 <= i < rest.len() implies tag_free(#[trigger] rest[i]) by {
            assert(rest[i] == texts[i + 1]);
        }
        lemma_join_is_unclosed(rest);
        lemma_tag_free_is_unclosed(texts[0]);
        lemma_unclosed_over_break(texts[0], join_texts(rest));
    }
}

proof fn lemma_lines_over_break(a: Seq<char>, b: Seq<char>)
    requires
        newline_free(a),
    ensures
        lines_of(a + seq!['\n'] + b) == seq![a] + lines_of(b),
{
    let all = a + seq!['\n'] + b;
    let n = a.len() as int;
    assert(all[n] == '\n');
    assert forall|k: int| 0 <= k < n implies all[k] != '\n' by {
        assert(all[k] == a[k]);
    }
    lemma_first_break(all, n);
    assert(all.take(n) =~= a);
    assert(all.skip(n + 1) =~= b);
}

proof fn lemma_lines_of_join(texts: Seq<Seq<char>>)
    requires
        texts.len() > 0,
        forall|i: int| 0 <= i < texts.len() ==> newline_free(#[trigger] texts[i]),
    ensures
        lines_of(join_texts(texts)) == texts,
    decreases texts.len(),
{
    if texts.len() == 1 {
        let only = texts[0];
        assert(newline_free(only));
        lemma_first_break(only, only.len() as int);
        assert(lines_of(only) == seq![only]);
        assert(seq![only] =~= texts);
    } else {
        let rest = texts.drop_first();
        assert forall|i: int| 0 <= i < rest.len() implies newline_free(#[trigger] rest[i]) by {
            assert(rest[i] == texts[i + 1]);
        }
        lemma_lines_of_join(rest);
        assert(newline_free(texts[0]));
        lemma_lines_over_break(texts[0], join_texts(rest));
        assert(seq![texts[0]] + rest =~= texts);
    }
}

proof fn lemma_texts_are_cues(texts: Seq<Seq<char>>, stamp: Seq<char>)
    requires
        forall|i: int|
            0 <= i < texts.len() ==> trimmed(#[trigger] texts[i]) == texts[i] && texts[i].len() > 0
                && !is_time_range(texts[i]),
    ensures
        cue_texts(cues_of_lines(texts, Some(stamp))) == texts,
    decreases texts.len(),
{
    let cues = cues_of_lines(texts, Some(stamp));
    if texts.len() == 0 {
        assert(cue_texts(cues) =~= texts);
    } else {
        let rest = texts.drop_first();
        assert forall|i: int| 0 <= i < rest.len() implies trimmed(#[trigger] rest[i]) == rest[i]
            && rest[i].len() > 0 && !is_time_range(rest[i]) by {
            assert(rest[i] == texts[i + 1]);
        }
        lemma_texts_are_cues(rest, stamp);
        let tail = cues_of_lines(rest, Some(stamp));
        assert(trimmed(texts[0]) == texts[0]);
        assert(cues == seq![CueText { timestamp: stamp, text: texts[0] }] + tail);
        assert forall|i: int| 0 <= i < texts.len() implies cue_texts(cues)[i] == texts[i] by {
            if i > 0 {
                assert(cues[i] == tail[i - 1]);
                assert(cue_texts(tail)[i - 1] == rest[i - 1]);
            }
        }
        assert(cue_texts(cues) =~= texts);
    }
}

/// The opening is a time range as it stands: trimming leaves it alone.
proof fn lemma_opening()
    ensures
        is_time_range(OPENING@),
        trimmed(OPENING@) == OPENING@,
        newline_free(OPENING@),
        tag_free(OPENING@),
{
    reveal_strlit("00:00:00.000 --> 00:00:01.000");
    let s = OPENING@;
    assert(s.len() == 29);
    assert(!is_whitespace(s[0]) && !is_whitespace(s[28]));
    lemma_subrange_is_trimmed(s, 0, 29);
    assert(s.subrange(0, 29) =~= s);
}

/// What holds of texts that are fed back below the opening: every one that
/// is trimmed, not empty, no time range, free of tags and of line feeds, and
/// unlike the others, is the text of a line of the second pass, in its place.
pub proof fn lemma_texts_come_back(texts: Seq<Seq<char>>, stride: int)
    requires
        forall|i: int|
            0 <= i < texts.len() ==> {
                let text = #[trigger] texts[i];
                &&& trimmed(text) == text
                &&& text.len() > 0
                &&& !is_time_range(text)
                &&& tag_free(text)
                &&& newline_free(text)
            },
        forall|i: int, j: int|
            0 <= i < j < texts.len() ==> #[trigger] texts[i] != #[trigger] texts[j],
    ensures
        line_texts(formatted(parsed(OPENING@ + seq!['\n'] + join_texts(texts)), stride)) == texts,
{
    lemma_opening();
    let body = join_texts(texts);
    let track = OPENING@ + seq!['\n'] + body;
    lemma_tag_free_is_unclosed(OPENING@);
    lemma_join_is_unclosed(texts);
    lemma_unclosed_over_break(OPENING@, body);
    lemma_unclosed_stays(track, 0);
    assert(track.skip(0) =~= track);
    assert(strip_tags(track) == track);
    lemma_lines_over_break(OPENING@, body);
    let stamp = range_start(OPENING@);
    let below = lines_of(body);
    assert(lines_of(track) == seq![OPENING@] + below);
    assert(lines_of(track)[0] == OPENING@);
    assert(lines_of(track).drop_first() =~= below);
    assert(parsed(track) == cues_of_lines(below, Some(stamp)));
    if texts.len() == 0 {
        assert(below == seq![Seq::<char>::empty()]);
        assert(below.drop_first() =~= Seq::<Seq<char>>::empty());
        assert(trimmed(below[0]).len() == 0);
        assert(cues_of_lines(below.drop_first(), Some(stamp)) =~= Seq::<CueText>::empty());
        assert(parsed(track) =~= Seq::<CueText>::empty());
        assert(line_texts(formatted(parsed(track), stride)) =~= texts);
    } else {
        lemma_lines_of_join(texts);
        lemma_texts_are_cues(texts, stamp);
        let cues = parsed(track);
        assert forall|i: int| 0 <= i < cues.len() implies (#[trigger] cues[i]).text.len() > 0
            && trimmed(cues[i].text) == cues[i].text by {
            assert(cue_texts(cues)[i] == texts[i]);
        }
        assert forall|i: int, j: int| 0 <= i < j < cues.len() implies (#[trigger] cues[i]).text
            != (#[trigger] cues[j]).text by {
            assert(cue_texts(cues)[i] == texts[i]);
            assert(cue_texts(cues)[j] == texts[j]);
        }
        lemma_distinct_cues_are_kept(cues);
        assert(line_texts(formatted(cues, stride)) =~= cue_texts(cues));
    }
}

/// Idempotence over the prompt itself: where no two lines of a prompt read
/// the same, the track made of these lines gives, formatted at any stride,
/// one line for each of them, in the same order, with that line as its text.
/// Nothing is dropped, merged or moved in the second pass.
pub proof fn lemma_second_pass_keeps_every_line(
    raw: Seq<char>,
    stride: int,
    max_lines: nat,
    again: int,
)
    requires
        forall|i: int, j: int|
            0 <= i < j < prompt_lines(raw, stride, max_lines).len() ==> rendered(
                #[trigger] prompt_lines(raw, stride, max_lines)[i],
            ) != rendered(#[trigger] prompt_lines(raw, stride, max_lines)[j]),
    ensures
        line_texts(formatted(parsed(fed_back(prompt_lines(raw, stride, max_lines))), again))
            == rendered_lines(prompt_lines(raw, stride, max_lines)),
{
    let cues = parsed(raw);
    let all = formatted(cues, stride);
    let kept = emitted(cues);
    let lines = prompt_lines(raw, stride, max_lines);
    let texts = rendered_lines(lines);
    lemma_cues_hold_no_tag(raw);
    lemma_cues_hold_no_line_feed(raw);
    lemma_lines_cover_cues(cues, stride);
    lemma_no_tag_reaches_prompt(raw, stride, max_lines);
    assert forall|i: int| 0 <= i < texts.len() implies {
        let text = #[trigger] texts[i];
        &&& trimmed(text) == text
        &&& text.len() > 0
        &&& !is_time_range(text)
        &&& tag_free(text)
        &&& newline_free(text)
    } by {
        let line = all[i];
        assert(lines[i] == line);
        let c = choose|c: int|
            0 <= c < cues.len() && (#[trigger] all[i]).text == trimmed((#[trigger] cues[c]).text)
                && kept[i].timestamp == cues[c].timestamp;
        let cue = cues[c];
        assert(line.text == cue.text);
        let whole = rendered(line);
        assert(texts[i] == whole);
        let _ = lemma_trimmed_is_subrange(cue.text);
        match line.timestamp_prefix {
            Some(stamp) => {
                assert(stamp == cue.timestamp);
                let lead = stamp + seq![':', ' '];
                assert(whole == lead + cue.text);
                assert(whole[0] == stamp[0]);
                assert(whole[6] == ' ');
                assert(whole[whole.len() - 1] == cue.text[cue.text.len() - 1]);
                lemma_subrange_is_trimmed(whole, 0, whole.len() as int);
                assert(whole.subrange(0, whole.len() as int) =~= whole);
                assert forall|k: int| 0 <= k < whole.len() implies whole[k] != '\n' by {
                    if k < 5 {
                        assert(whole[k] == stamp[k]);
                    } else if k < 7 {
                        assert(whole[k] == lead[k]);
                    } else {
                        assert(whole[k] == cue.text[k - 7]);
                    }
                }
            },
            None => {},
        }
    }
    assert forall|i: int, j: int| 0 <= i < j < texts.len() implies #[trigger] texts[i]
        != #[trigger] texts[j] by {
        assert(texts[i] == rendered(lines[i]));
        assert(texts[j] == rendered(lines[j]));
    }
    lemma_joined_is_join(lines);
    lemma_texts_come_back(texts, again);
}

} // verus!
