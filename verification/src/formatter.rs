//! The deduplicating formatter: from cues to the lines of the prompt.
//!
//! Caption tracks made by machine repeat the line before as they roll on. The
//! formatter keeps the first occurrence of every text over the whole track and
//! drops the later ones, so a text that comes back much later is dropped too.
//! Every `stride`-th line that is kept carries the time of its cue in front.

use vstd::prelude::*;
use crate::captions::{Cue, CueText, cue_views};
use crate::text::{lemma_subrange_is_trimmed, lemma_trimmed_is_subrange, trim_text, trimmed};

verus! {

/// The stride at which lines are tagged where nothing else is asked for.
pub const DEFAULT_STRIDE: usize = 10;

/// A line of the prompt: the text of a cue, and the time of that cue where the
/// line is one that carries it.
#[derive(Debug, Clone, PartialEq, Eq)]
pub struct FormattedLine {
    pub text: String,
    pub timestamp_prefix: Option<String>,
}

/// What a [`FormattedLine`] holds, as plain text.
pub ghost struct LineText {
    pub text: Seq<char>,
    pub timestamp_prefix: Option<Seq<char>>,
}

impl View for FormattedLine {
    type V = LineText;

    open spec fn view(&self) -> LineText {
        LineText {
            text: self.text@,
            timestamp_prefix: match self.timestamp_prefix {
                Some(t) => Some(t@),
                None => None,
            },
        }
    }
}

/// The lines of a vector, each as plain text.
pub open spec fn line_views(lines: Seq<FormattedLine>) -> Seq<LineText> {
    Seq::new(lines.len(), |i: int| lines[i]@)
}

/// The texts of a run of cues.
pub open spec fn cue_texts(cues: Seq<CueText>) -> Seq<Seq<char>> {
    Seq::new(cues.len(), |i: int| cues[i].text)
}

/// The texts of a run of lines.
pub open spec fn line_texts(lines: Seq<LineText>) -> Seq<Seq<char>> {
    Seq::new(lines.len(), |i: int| lines[i].text)
}

/// The cues that are kept, each with its text trimmed: a cue stays when its
/// trimmed text is not empty and no cue kept before it has the same text.
pub open spec fn emitted(cues: Seq<CueText>) -> Seq<CueText>
    decreases cues.len(),
{
    if cues.len() == 0 {
        Seq::empty()
    } else {
        let before = emitted(cues.drop_last());
        let text = trimmed(cues.last().text);
        if text.len() > 0 && !cue_texts(before).contains(text) {
            before.push(CueText { timestamp: cues.last().timestamp, text })
        } else {
            before
        }
    }
}

/// The line made of the `index`-th cue that is kept.
pub open spec fn line_of(cue: CueText, index: int, stride: int) -> LineText {
    LineText {
        text: cue.text,
        timestamp_prefix: if index % stride == 0 {
            Some(cue.timestamp)
        } else {
            None
        },
    }
}

/// The lines of the prompt: the cues that are kept, in their order, those at
/// positions `0`, `stride`, `2 * stride`, ... with their time.
pub open spec fn formatted(cues: Seq<CueText>, stride: int) -> Seq<LineText> {
    let kept = emitted(cues);
    Seq::new(kept.len(), |i: int| line_of(kept[i], i, stride))
}

/// A line as it stands in the prompt: `<time>: <text>` with a time, the bare
/// text without one.
pub open spec fn rendered(line: LineText) -> Seq<char> {
    match line.timestamp_prefix {
        Some(stamp) => stamp + seq![':', ' '] + line.text,
        None => line.text,
    }
}

impl FormattedLine {
    /// The line as it stands in the prompt.
    pub fn render(&self) -> (s: String)
        ensures
            s@ == rendered(self@),
    {
        match &self.timestamp_prefix {
            Some(stamp) => {
                let mut s = stamp.clone();
                proof {
                    reveal_strlit(": ");
                    assert(": "@ =~= seq![':', ' ']);
                }
                s.append(": ");
                s.append(self.text.as_str());
                s
            },
            None => self.text.clone(),
        }
    }
}

/// Whether one of the lines has the text `text`.
fn seen(lines: &Vec<FormattedLine>, text: &String) -> (r: bool)
    ensures
        r == line_texts(line_views(lines@)).contains(text@),
{
    let ghost texts = line_texts(line_views(lines@));
    let mut i: usize = 0;
    while i < lines.len()
        invariant
            i <= lines@.len(),
            texts == line_texts(line_views(lines@)),
            forall|k: int| 0 <= k < i ==> texts[k] != text@,
        decreases lines@.len() - i,
    {
        if lines[i].text == *text {
            assert(texts[i as int] == text@);
            return true;
        }
        i += 1;
    }
    false
}

/// The lines of the prompt for a run of cues.
pub fn format_cues(cues: &Vec<Cue>, stride: usize) -> (lines: Vec<FormattedLine>)
    requires
        stride > 0,
    ensures
        line_views(lines@) == formatted(cue_views(cues@), stride as int),
{
    let ghost all = cue_views(cues@);
    let mut lines: Vec<FormattedLine> = Vec::new();
    let mut i: usize = 0;
    assert(all.take(0) =~= Seq::<CueText>::empty());
    assert(line_views(lines@) =~= formatted(all.take(0), stride as int));
    while i < cues.len()
        invariant
            stride > 0,
            i <= cues@.len(),
            all == cue_views(cues@),
            line_views(lines@) == formatted(all.take(i as int), stride as int),
        decreases cues@.len() - i,
    {
        let ghost before = emitted(all.take(i as int));
        let ghost old_lines = line_views(lines@);
        let cue = &cues[i];
        let text = trim_text(cue.text.as_str());
        proof {
            assert(all.take(i + 1).drop_last() =~= all.take(i as int));
            assert(all.take(i + 1).last() == cue@);
            assert(line_texts(old_lines) =~= cue_texts(before));
        }
        if !text.as_str().is_empty() && !seen(&lines, &text) {
            let prefix = if lines.len() % stride == 0 {
                Some(cue.timestamp.clone())
            } else {
                None
            };
            let ghost kept = CueText { timestamp: cue@.timestamp, text: text@ };
            let ghost index = lines@.len() as int;
            lines.push(FormattedLine { text, timestamp_prefix: prefix });
            proof {
                let after = emitted(all.take(i + 1));
                assert(after == before.push(kept));
                assert(lines@[index]@ == line_of(kept, index, stride as int));
                assert forall|k: int| 0 <= k < after.len() implies #[trigger] line_views(
                    lines@,
                )[k] == line_of(after[k], k, stride as int) by {
                    if k < index {
                        assert(lines@[k]@ == old_lines[k]);
                    }
                }
                assert(line_views(lines@) =~= formatted(all.take(i + 1), stride as int));
            }
        }
        i += 1;
    }
    assert(all.take(cues@.len() as int) =~= all);
    lines
}

/// The number of lines that carry a time.
pub open spec fn tagged_count(lines: Seq<LineText>) -> nat
    decreases lines.len(),
{
    if lines.len() == 0 {
        0
    } else {
        tagged_count(lines.drop_last()) + if lines.last().timestamp_prefix is Some {
            1nat
        } else {
            0nat
        }
    }
}

/// Trimming a trimmed text changes nothing.
pub proof fn lemma_trimmed_is_idempotent(s: Seq<char>)
    ensures
        trimmed(trimmed(s)) == trimmed(s),
{
    let t = trimmed(s);
    let _ = lemma_trimmed_is_subrange(s);
    lemma_subrange_is_trimmed(t, 0, t.len() as int);
    assert(t.subrange(0, t.len() as int) =~= t);
}

/// The cues that are kept have trimmed texts that are not empty, and no two of
/// them have the same text.
pub proof fn lemma_emitted_texts(cues: Seq<CueText>)
    ensures
        forall|i: int|
            0 <= i < emitted(cues).len() ==> (#[trigger] emitted(cues)[i]).text.len() > 0
                && trimmed(emitted(cues)[i].text) == emitted(cues)[i].text,
        forall|i: int, j: int|
            0 <= i < j < emitted(cues).len() ==> (#[trigger] emitted(cues)[i]).text != (
            #[trigger] emitted(cues)[j]).text,
    decreases cues.len(),
{
    if cues.len() > 0 {
        let before = emitted(cues.drop_last());
        lemma_emitted_texts(cues.drop_last());
        let text = trimmed(cues.last().text);
        lemma_trimmed_is_idempotent(cues.last().text);
        if text.len() > 0 && !cue_texts(before).contains(text) {
            assert forall|i: int, j: int| 0 <= i < j < emitted(cues).len() implies (
            #[trigger] emitted(cues)[i]).text != (#[trigger] emitted(cues)[j]).text by {
                if j == before.len() {
                    assert(cue_texts(before)[i] == before[i].text);
                }
            }
        }
    }
}

/// Global deduplication: no two lines of the formatter's output have the same
/// text, and since every text is already trimmed, none have the same trimmed
/// text either.
pub proof fn lemma_lines_are_distinct(cues: Seq<CueText>, stride: int)
    ensures
        forall|i: int, j: int|
            #![trigger formatted(cues, stride)[i], formatted(cues, stride)[j]]
            0 <= i < j < formatted(cues, stride).len() ==> formatted(cues, stride)[i].text
                != formatted(cues, stride)[j].text && trimmed(formatted(cues, stride)[i].text)
                != trimmed(formatted(cues, stride)[j].text),
        forall|i: int|
            0 <= i < formatted(cues, stride).len() ==> (#[trigger] formatted(
                cues,
                stride,
            )[i]).text.len() > 0,
{
    lemma_emitted_texts(cues);
    let kept = emitted(cues);
    assert forall|i: int, j: int|
        #![trigger formatted(cues, stride)[i], formatted(cues, stride)[j]]
        0 <= i < j < formatted(cues, stride).len() implies formatted(cues, stride)[i].text
        != formatted(cues, stride)[j].text && trimmed(formatted(cues, stride)[i].text) != trimmed(
        formatted(cues, stride)[j].text,
    ) by {
        assert(kept[i].text != kept[j].text);
        assert(trimmed(kept[i].text) == kept[i].text);
        assert(trimmed(kept[j].text) == kept[j].text);
    }
    assert forall|i: int| 0 <= i < formatted(cues, stride).len() implies (#[trigger] formatted(
        cues,
        stride,
    )[i]).text.len() > 0 by {
        assert(kept[i].text.len() > 0);
    }
}

proof fn lemma_ceiling_step(k: int, stride: int)
    requires
        0 <= k,
        0 < stride,
    ensures
        (k + stride) / stride == (k + stride - 1) / stride + if k % stride == 0 {
            1int
        } else {
            0int
        },
{
    let q = k / stride;
    let r = k % stride;
    assert(k == q * stride + r && 0 <= r < stride) by (nonlinear_arith)
        requires
            q == k / stride,
            r == k % stride,
            0 < stride,
    ;
    assert((k + stride) / stride == q + 1) by (nonlinear_arith)
        requires
            k == q * stride + r,
            0 <= r < stride,
    ;
    if r == 0 {
        assert((k + stride - 1) / stride == q) by (nonlinear_arith)
            requires
                k == q * stride + r,
                r == 0,
                0 < stride,
        ;
    } else {
        assert((k + stride - 1) / stride == q + 1) by (nonlinear_arith)
            requires
                k == q * stride + r,
                1 <= r < stride,
        ;
    }
}

proof fn lemma_tagged_count(lines: Seq<LineText>, stride: int)
    requires
        stride > 0,
        forall|i: int|
            0 <= i < lines.len() ==> ((#[trigger] lines[i]).timestamp_prefix is Some <==> i
                % stride == 0),
    ensures
        tagged_count(lines) == (lines.len() + stride - 1) / stride,
    decreases lines.len(),
{
    if lines.len() == 0 {
        assert((stride - 1) / stride == 0) by (nonlinear_arith)
            requires
                stride > 0,
        ;
    } else {
        let front = lines.drop_last();
        assert forall|i: int| 0 <= i < front.len() implies ((
        #[trigger] front[i]).timestamp_prefix is Some <==> i % stride == 0) by {
            assert(front[i] == lines[i]);
        }
        lemma_tagged_count(front, stride);
        lemma_ceiling_step(front.len() as int, stride);
    }
}

/// The stride: a line carries a time exactly where its position is a multiple
/// of the stride, the time is that of its cue, and of `L` lines these are
/// `L / stride`, rounded up.
pub proof fn lemma_stride_tags(cues: Seq<CueText>, stride: int)
    requires
        stride > 0,
    ensures
        forall|i: int|
            0 <= i < formatted(cues, stride).len() ==> ((#[trigger] formatted(
                cues,
                stride,
            )[i]).timestamp_prefix is Some <==> i % stride == 0),
        forall|i: int|
            0 <= i < formatted(cues, stride).len() && i % stride == 0 ==> (#[trigger] formatted(
                cues,
                stride,
            )[i]).timestamp_prefix == Some(emitted(cues)[i].timestamp),
        tagged_count(formatted(cues, stride)) == (formatted(cues, stride).len() + stride - 1)
            / stride,
{
    lemma_tagged_count(formatted(cues, stride), stride);
}

/// Cues whose texts are trimmed, not empty and all different are all kept.
pub proof fn lemma_distinct_cues_are_kept(cues: Seq<CueText>)
    requires
        forall|i: int|
            0 <= i < cues.len() ==> (#[trigger] cues[i]).text.len() > 0 && trimmed(cues[i].text)
                == cues[i].text,
        forall|i: int, j: int|
            0 <= i < j < cues.len() ==> (#[trigger] cues[i]).text != (#[trigger] cues[j]).text,
    ensures
        emitted(cues) == cues,
    decreases cues.len(),
{
    if cues.len() > 0 {
        let front = cues.drop_last();
        assert forall|i: int| 0 <= i < front.len() implies (#[trigger] front[i]).text.len() > 0
            && trimmed(front[i].text) == front[i].text by {
            assert(front[i] == cues[i]);
        }
        assert forall|i: int, j: int| 0 <= i < j < front.len() implies (#[trigger] front[i]).text
            != (#[trigger] front[j]).text by {
            assert(front[i] == cues[i] && front[j] == cues[j]);
        }
        lemma_distinct_cues_are_kept(front);
        let last = cues.last();
        assert(cues[cues.len() - 1] == last);
        if cue_texts(front).contains(last.text) {
            let k = choose|k: int| 0 <= k < front.len() && cue_texts(front)[k] == last.text;
            assert(cues[k].text == cues[cues.len() - 1].text);
        }
        assert(front.push(last) =~= cues);
    } else {
        assert(cues =~= Seq::<CueText>::empty());
    }
}

/// Idempotence: cues made of the texts of the formatter's output, whatever
/// their times, are all kept when they are formatted again, so the texts of
/// the second output are those of the first. With the times of the cues that
/// were kept, the second output is the first.
pub proof fn lemma_format_is_idempotent(cues: Seq<CueText>, again: Seq<CueText>, stride: int)
    requires
        cue_texts(again) == line_texts(formatted(cues, stride)),
    ensures
        emitted(again) == again,
        line_texts(formatted(again, stride)) == line_texts(formatted(cues, stride)),
        again == emitted(cues) ==> formatted(again, stride) == formatted(cues, stride),
{
    lemma_emitted_texts(cues);
    let kept = emitted(cues);
    let first = formatted(cues, stride);
    assert(again.len() == kept.len()) by {
        assert(cue_texts(again).len() == line_texts(first).len());
    }
    assert forall|i: int| 0 <= i < again.len() implies (#[trigger] again[i]).text == kept[i].text by {
        assert(cue_texts(again)[i] == line_texts(first)[i]);
    }
    assert forall|i: int| 0 <= i < again.len() implies (#[trigger] again[i]).text.len() > 0
        && trimmed(again[i].text) == again[i].text by {
        assert(again[i].text == kept[i].text);
    }
    assert forall|i: int, j: int| 0 <= i < j < again.len() implies (#[trigger] again[i]).text != (
    #[trigger] again[j]).text by {
        assert(again[i].text == kept[i].text);
        assert(again[j].text == kept[j].text);
    }
    lemma_distinct_cues_are_kept(again);
    assert(line_texts(formatted(again, stride)) =~= line_texts(first));
}

/// Nothing is lost and nothing is made up: every cue whose trimmed text is
/// not empty has that text among the lines, and every line has the trimmed
/// text and the time of one of the cues.
pub proof fn lemma_lines_cover_cues(cues: Seq<CueText>, stride: int)
    ensures
        forall|i: int|
            0 <= i < cues.len() && trimmed((#[trigger] cues[i]).text).len() > 0 ==> line_texts(
                formatted(cues, stride),
            ).contains(trimmed(cues[i].text)),
        forall|k: int|
            0 <= k < formatted(cues, stride).len() ==> exists|i: int|
                0 <= i < cues.len() && (#[trigger] formatted(cues, stride)[k]).text == trimmed(
                    (#[trigger] cues[i]).text,
                ) && emitted(cues)[k].timestamp == cues[i].timestamp,
{
    lemma_emitted_covers(cues);
    let kept = emitted(cues);
    let lines = formatted(cues, stride);
    assert(line_texts(lines) =~= cue_texts(kept));
    assert forall|k: int| 0 <= k < lines.len() implies exists|i: int|
        0 <= i < cues.len() && (#[trigger] lines[k]).text == trimmed((#[trigger] cues[i]).text)
            && kept[k].timestamp == cues[i].timestamp by {
        let i = choose|i: int|
            0 <= i < cues.len() && (#[trigger] kept[k]).text == trimmed((#[trigger] cues[i]).text)
                && kept[k].timestamp == cues[i].timestamp;
        assert(lines[k].text == trimmed(cues[i].text));
    }
}

proof fn lemma_emitted_covers(cues: Seq<CueText>)
    ensures
        forall|i: int|
            0 <= i < cues.len() && trimmed((#[trigger] cues[i]).text).len() > 0 ==> cue_texts(
                emitted(cues),
            ).contains(trimmed(cues[i].text)),
        forall|k: int|
            0 <= k < emitted(cues).len() ==> exists|i: int|
                0 <= i < cues.len() && (#[trigger] emitted(cues)[k]).text == trimmed(
                    (#[trigger] cues[i]).text,
                ) && emitted(cues)[k].timestamp == cues[i].timestamp,
    decreases cues.len(),
{
    if cues.len() > 0 {
        let front = cues.drop_last();
        let before = emitted(front);
        let after = emitted(cues);
        let last = cues.len() - 1;
        let text = trimmed(cues[last].text);
        lemma_emitted_covers(front);
        assert forall|i: int|
            0 <= i < cues.len() && trimmed((#[trigger] cues[i]).text).len() > 0 implies cue_texts(
            after,
        ).contains(trimmed(cues[i].text)) by {
            if i < last {
                assert(front[i] == cues[i]);
                let k = choose|k: int|
                    0 <= k < before.len() && cue_texts(before)[k] == trimmed(cues[i].text);
                assert(after[k] == before[k]);
                assert(cue_texts(after)[k] == trimmed(cues[i].text));
            } else if cue_texts(before).contains(text) {
                let k = choose|k: int| 0 <= k < before.len() && cue_texts(before)[k] == text;
                assert(cue_texts(after)[k] == text);
            } else {
                assert(cue_texts(after)[before.len() as int] == text);
            }
        }
        assert forall|k: int| 0 <= k < after.len() implies exists|i: int|
            0 <= i < cues.len() && (#[trigger] after[k]).text == trimmed((#[trigger] cues[i]).text)
                && after[k].timestamp == cues[i].timestamp by {
            if k < before.len() {
                let i = choose|i: int|
                    0 <= i < front.len() && (#[trigger] before[k]).text == trimmed(
                        (#[trigger] front[i]).text,
                    ) && before[k].timestamp == front[i].timestamp;
                assert(front[i] == cues[i]);
                assert(after[k] == before[k]);
            } else {
                assert(after[k].text == trimmed(cues[last].text));
            }
        }
    }
}

} // verus!
