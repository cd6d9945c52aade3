//! The caption parser: from the text of a caption track to its cues.
//!
//! A track is a run of blocks. Each block opens with a time-range line,
//! `HH:MM:SS.mmm --> HH:MM:SS.mmm`, and goes on with text lines that may hold
//! inline tags of the form `<...>`. The parser removes the tags, remembers the
//! start of the latest time range as `MM:SS`, and turns every later line that
//! is not blank into a cue. The hours of a time range are not kept.

use vstd::prelude::*;
use crate::text::{
    chars_of, lemma_subrange_is_trimmed, lemma_trimmed_is_subrange, string_of, trim_bounds, trimmed,
};

verus! {

/// One caption line with the time of the block it stands in.
#[derive(Debug, Clone, PartialEq, Eq)]
pub struct Cue {
    pub timestamp: String,
    pub text: String,
}

/// What a [`Cue`] holds, as plain text.
pub ghost struct CueText {
    pub timestamp: Seq<char>,
    pub text: Seq<char>,
}

impl View for Cue {
    type V = CueText;

    open spec fn view(&self) -> CueText {
        CueText { timestamp: self.timestamp@, text: self.text@ }
    }
}

/// The text of a string that may be absent.
pub open spec fn opt_text(s: Option<String>) -> Option<Seq<char>> {
    match s {
        Some(t) => Some(t@),
        None => None,
    }
}

/// The cues of a vector, each as plain text.
pub open spec fn cue_views(cues: Seq<Cue>) -> Seq<CueText> {
    Seq::new(cues.len(), |i: int| cues[i]@)
}

/// The position of the first `>` at or after `i` on the line of `i`.
pub open spec fn closing(s: Seq<char>, i: int) -> Option<int>
    decreases s.len() - i,
{
    if i < 0 || i >= s.len() || s[i] == '\n' {
        None
    } else if s[i] == '>' {
        Some(i)
    } else {
        closing(s, i + 1)
    }
}

/// What is left of `s` from position `i` on once its tags are removed. A tag
/// runs from a `<` to the nearest `>` after it on the same line; a `<` that
/// no `>` follows on its line stays.
pub open spec fn strip_from(s: Seq<char>, i: int) -> Seq<char>
    decreases s.len() - i,
{
    if i < 0 || i >= s.len() {
        Seq::empty()
    } else if s[i] == '<' && closing(s, i + 1) is Some {
        proof {
            lemma_closing_is_closer(s, i + 1);
        }
        strip_from(s, closing(s, i + 1).unwrap() + 1)
    } else {
        seq![s[i]] + strip_from(s, i + 1)
    }
}

/// `s` without its inline tags.
pub open spec fn strip_tags(s: Seq<char>) -> Seq<char> {
    strip_from(s, 0)
}

/// Where `closing` finds a `>`, it is the first one from `i` on, and no line
/// ends before it.
pub proof fn lemma_closing_is_closer(s: Seq<char>, i: int)
    ensures
        closing(s, i) matches Some(j) ==> 0 <= i <= j < s.len() && s[j] == '>' && forall|k: int|
            i <= k < j ==> s[k] != '>' && s[k] != '\n',
    decreases s.len() - i,
{
    if i < 0 || i >= s.len() || s[i] == '\n' {
    } else if s[i] == '>' {
    } else {
        lemma_closing_is_closer(s, i + 1);
    }
}

/// The first `>` from `i` on, with no line end before it, is what `closing`
/// finds.
pub proof fn lemma_closing_found(s: Seq<char>, i: int, j: int)
    requires
        0 <= i <= j < s.len(),
        s[j] == '>',
        forall|k: int| i <= k < j ==> s[k] != '>' && s[k] != '\n',
    ensures
        closing(s, i) == Some(j),
    decreases j - i,
{
    if i < j {
        lemma_closing_found(s, i + 1, j);
    }
}

/// Where the line ends at `e` and holds no `>` from `i` on, `closing` finds
/// nothing.
pub proof fn lemma_closing_missing(s: Seq<char>, i: int, e: int)
    requires
        0 <= i <= e <= s.len(),
        e == s.len() || s[e] == '\n',
        forall|k: int| i <= k < e ==> s[k] != '>',
    ensures
        closing(s, i) is None,
    decreases e - i,
{
    if i < e && s[i] != '\n' {
        lemma_closing_missing(s, i + 1, e);
    }
}

/// A decimal digit, `0` to `9`. The decimal digits of other scripts are not
/// taken for digits.
pub open spec fn is_digit(c: char) -> bool {
    c == '0' || c == '1' || c == '2' || c == '3' || c == '4' || c == '5' || c == '6' || c == '7'
        || c == '8' || c == '9'
}

/// Whether `s` holds a clock reading `HH:MM:SS.mmm` at position `at`.
pub open spec fn is_clock(s: Seq<char>, at: int) -> bool {
    &&& 0 <= at
    &&& at + 12 <= s.len()
    &&& is_digit(s[at])
    &&& is_digit(s[at + 1])
    &&& s[at + 2] == ':'
    &&& is_digit(s[at + 3])
    &&& is_digit(s[at + 4])
    &&& s[at + 5] == ':'
    &&& is_digit(s[at + 6])
    &&& is_digit(s[at + 7])
    &&& s[at + 8] == '.'
    &&& is_digit(s[at + 9])
    &&& is_digit(s[at + 10])
    &&& is_digit(s[at + 11])
}

/// Whether `line` opens with a time range, `HH:MM:SS.mmm --> HH:MM:SS.mmm`.
/// What follows the range on the line does not matter. The range is written in
/// the digits `0` to `9` and no others, on purpose: a line that spells a range
/// in the digits of another script is text, and gives a cue.
pub open spec fn is_time_range(line: Seq<char>) -> bool {
    &&& is_clock(line, 0)
    &&& line.len() >= 29
    &&& line[12] == ' '
    &&& line[13] == '-'
    &&& line[14] == '-'
    &&& line[15] == '>'
    &&& line[16] == ' '
    &&& is_clock(line, 17)
}

/// The start of the time range that opens `line`, as `MM:SS`.
pub open spec fn range_start(line: Seq<char>) -> Seq<char> {
    line.subrange(3, 8)
}

/// The length of the first line of `s`: the position of its first line feed,
/// or its length where it holds none.
pub open spec fn first_break(s: Seq<char>) -> nat
    decreases s.len(),
{
    if s.len() == 0 || s[0] == '\n' {
        0
    } else {
        1 + first_break(s.drop_first())
    }
}

/// The pieces of `s` between its line feeds, in order.
pub open spec fn lines_of(s: Seq<char>) -> Seq<Seq<char>>
    decreases s.len(),
{
    let n = first_break(s) as int;
    if n >= s.len() {
        seq![s]
    } else {
        seq![s.take(n)] + lines_of(s.skip(n + 1))
    }
}

/// The cues of a run of lines that follows a block opened at `current`. A
/// line is trimmed first. A time range opens a block and gives no cue; any
/// other line that is not blank gives a cue, once a block has been opened.
pub open spec fn cues_of_lines(lines: Seq<Seq<char>>, current: Option<Seq<char>>) -> Seq<CueText>
    decreases lines.len(),
{
    if lines.len() == 0 {
        Seq::empty()
    } else {
        let line = trimmed(lines[0]);
        let rest = lines.drop_first();
        if is_time_range(line) {
            cues_of_lines(rest, Some(range_start(line)))
        } else if line.len() > 0 && current is Some {
            seq![CueText { timestamp: current.unwrap(), text: line }] + cues_of_lines(rest, current)
        } else {
            cues_of_lines(rest, current)
        }
    }
}

/// The lines of a caption track once its tags are removed.
pub open spec fn caption_lines(raw: Seq<char>) -> Seq<Seq<char>> {
    lines_of(strip_tags(raw))
}

/// The cues of a caption track.
pub open spec fn parsed(raw: Seq<char>) -> Seq<CueText> {
    cues_of_lines(caption_lines(raw), None)
}

/// The first line of `s` ends at `n` where a line feed or the end stands
/// there and no line feed stands before.
pub proof fn lemma_first_break(s: Seq<char>, n: int)
    requires
        0 <= n <= s.len(),
        n == s.len() || s[n] == '\n',
        forall|k: int| 0 <= k < n ==> s[k] != '\n',
    ensures
        first_break(s) == n,
    decreases n,
{
    if n > 0 {
        let t = s.drop_first();
        assert forall|k: int| 0 <= k < n - 1 implies t[k] != '\n' by {
            assert(t[k] == s[k + 1]);
        }
        lemma_first_break(t, n - 1);
    }
}

/// `v` without its inline tags.
pub fn strip_tag_chars(v: &Vec<char>) -> (out: Vec<char>)
    ensures
        out@ == strip_tags(v@),
{
    let n = v.len();
    let mut out: Vec<char> = Vec::new();
    let mut i: usize = 0;
    assert(out@ + strip_from(v@, 0) =~= strip_tags(v@));
    while i < n
        invariant
            i <= n == v@.len(),
            strip_tags(v@) == out@ + strip_from(v@, i as int),
        decreases n - i,
    {
        if v[i] == '<' {
            let mut j: usize = i + 1;
            while j < n && v[j] != '>' && v[j] != '\n'
                invariant
                    i < j <= n == v@.len(),
                    forall|k: int| i < k < j ==> v@[k] != '>' && v@[k] != '\n',
                decreases n - j,
            {
                j += 1;
            }
            if j < n && v[j] == '>' {
                proof {
                    lemma_closing_found(v@, i + 1, j as int);
                }
                i = j + 1;
            } else {
                // No tag opens before the line ends at `j`: all of it stays.
                let mut k: usize = i;
                while k < j
                    invariant
                        i <= k <= j <= n == v@.len(),
                        j == n || v@[j as int] == '\n',
                        forall|m: int| i < m < j ==> v@[m] != '>' && v@[m] != '\n',
                        strip_tags(v@) == out@ + strip_from(v@, k as int),
                    decreases j - k,
                {
                    proof {
                        lemma_closing_missing(v@, k + 1, j as int);
                        assert(strip_from(v@, k as int) == seq![v@[k as int]] + strip_from(
                            v@,
                            k + 1,
                        ));
                        assert(out@.push(v@[k as int]) + strip_from(v@, k + 1) =~= out@
                            + strip_from(v@, k as int));
                    }
                    out.push(v[k]);
                    k += 1;
                }
                i = j;
            }
        } else {
            proof {
                assert(out@.push(v@[i as int]) + strip_from(v@, i + 1) =~= out@ + strip_from(
                    v@,
                    i as int,
                ));
            }
            out.push(v[i]);
            i += 1;
        }
    }
    assert(out@ + strip_from(v@, n as int) =~= out@);
    out
}

fn digit_at(v: &Vec<char>, i: usize) -> (r: bool)
    requires
        i < v@.len(),
    ensures
        r == is_digit(v@[i as int]),
{
    let c = v[i];
    c == '0' || c == '1' || c == '2' || c == '3' || c == '4' || c == '5' || c == '6' || c == '7'
        || c == '8' || c == '9'
}

fn clock_at(v: &Vec<char>, at: usize) -> (r: bool)
    requires
        at + 12 <= v@.len(),
    ensures
        r == is_clock(v@, at as int),
{
    assert(v@.len() == v.len());
    digit_at(v, at) && digit_at(v, at + 1) && v[at + 2] == ':' && digit_at(v, at + 3) && digit_at(
        v,
        at + 4,
    ) && v[at + 5] == ':' && digit_at(v, at + 6) && digit_at(v, at + 7) && v[at + 8] == '.'
        && digit_at(v, at + 9) && digit_at(v, at + 10) && digit_at(v, at + 11)
}

/// Whether the piece `lo..hi` of `v` opens with a time range.
pub fn time_range_at(v: &Vec<char>, lo: usize, hi: usize) -> (r: bool)
    requires
        lo <= hi <= v@.len(),
    ensures
        r == is_time_range(v@.subrange(lo as int, hi as int)),
{
    assert(v@.len() == v.len());
    if hi - lo < 29 {
        return false;
    }
    let ghost line = v@.subrange(lo as int, hi as int);
    assert(forall|k: int| 0 <= k < 29 ==> line[k] == v@[lo + k]);
    clock_at(v, lo) && v[lo + 12] == ' ' && v[lo + 13] == '-' && v[lo + 14] == '-' && v[lo + 15]
        == '>' && v[lo + 16] == ' ' && clock_at(v, lo + 17)
}

/// The cues of a caption track, in the order of the track.
pub fn parse_captions(raw: &str) -> (cues: Vec<Cue>)
    ensures
        cue_views(cues@) == parsed(raw@),
{
    let source = chars_of(raw);
    let v = strip_tag_chars(&source);
    let n = v.len();
    let mut cues: Vec<Cue> = Vec::new();
    let mut current: Option<String> = None;
    let mut pos: usize = 0;
    let mut done = false;
    assert(v@.skip(0) =~= v@);
    assert(cue_views(cues@) + parsed(raw@) =~= parsed(raw@));
    while !done
        invariant
            pos <= n == v@.len(),
            v@ == strip_tags(raw@),
            !done ==> parsed(raw@) == cue_views(cues@) + cues_of_lines(
                lines_of(v@.skip(pos as int)),
                opt_text(current),
            ),
            done ==> parsed(raw@) == cue_views(cues@),
        decreases n - pos + if done { 0int } else { 1int },
    {
        let ghost tail = v@.skip(pos as int);
        let ghost before = cue_views(cues@);
        let ghost context = opt_text(current);
        let mut e: usize = pos;
        while e < n && v[e] != '\n'
            invariant
                pos <= e <= n == v@.len(),
                forall|k: int| pos <= k < e ==> v@[k] != '\n',
            decreases n - e,
        {
            e += 1;
        }
        proof {
            lemma_first_break(tail, e - pos);
            assert(tail.take(e - pos) =~= v@.subrange(pos as int, e as int));
            if e == n {
                assert(tail =~= v@.subrange(pos as int, e as int));
                assert(lines_of(tail) == seq![tail]);
            } else {
                assert(tail.skip(e - pos + 1) =~= v@.skip(e + 1));
                assert(lines_of(tail) == seq![tail.take(e - pos)] + lines_of(v@.skip(e + 1)));
            }
            assert(lines_of(tail)[0] == v@.subrange(pos as int, e as int));
        }
        let ghost rest = lines_of(tail).drop_first();
        let (lo, hi) = trim_bounds(&v, pos, e);
        let ghost line = v@.subrange(lo as int, hi as int);
        if time_range_at(&v, lo, hi) {
            assert(line.subrange(3, 8) =~= v@.subrange(lo + 3, lo + 8));
            current = Some(string_of(&v, lo + 3, lo + 8));
        } else if hi > lo {
            match &current {
                Some(stamp) => {
                    let cue = Cue { timestamp: stamp.clone(), text: string_of(&v, lo, hi) };
                    cues.push(cue);
                    assert(cue_views(cues@) =~= before + seq![
                        CueText { timestamp: context.unwrap(), text: line },
                    ]);
                },
                None => {},
            }
        }
        proof {
            let after = opt_text(current);
            assert(before + cues_of_lines(lines_of(tail), context) =~= cue_views(cues@)
                + cues_of_lines(rest, after));
            if e == n {
                assert(rest =~= Seq::<Seq<char>>::empty());
                assert(cue_views(cues@) + cues_of_lines(rest, after) =~= cue_views(cues@));
            } else {
                assert(rest =~= lines_of(v@.skip(e + 1)));
            }
        }
        if e == n {
            done = true;
        } else {
            pos = e + 1;
        }
    }
    cues
}

/// A text in which no `<` is followed by a `>`: it holds no tag.
pub open spec fn tag_free(s: Seq<char>) -> bool {
    forall|p: int, q: int| 0 <= p < q < s.len() ==> !(s[p] == '<' && s[q] == '>')
}

/// A text without any `<` or `>`.
pub open spec fn no_angle(s: Seq<char>) -> bool {
    forall|k: int| 0 <= k < s.len() ==> s[k] != '<' && s[k] != '>'
}

/// A text without a line feed.
pub open spec fn newline_free(s: Seq<char>) -> bool {
    forall|k: int| 0 <= k < s.len() ==> s[k] != '\n'
}

/// A time as the parser reports it: two digits, a colon, two digits.
pub open spec fn is_minute_second(s: Seq<char>) -> bool {
    &&& s.len() == 5
    &&& is_digit(s[0])
    &&& is_digit(s[1])
    &&& s[2] == ':'
    &&& is_digit(s[3])
    &&& is_digit(s[4])
}

/// A text in which no `<` has a `>` after it on its line.
pub open spec fn unclosed(s: Seq<char>) -> bool {
    forall|p: int| 0 <= p < s.len() && s[p] == '<' ==> closing(s, p + 1) is None
}

proof fn lemma_closing_shift(c: char, u: Seq<char>, k: int)
    requires
        0 <= k,
    ensures
        closing(seq![c] + u, k + 1) == match closing(u, k) {
            Some(j) => Some(j + 1),
            None => None,
        },
    decreases u.len() - k,
{
    let t = seq![c] + u;
    if k < u.len() {
        assert(t[k + 1] == u[k]);
        if u[k] != '\n' && u[k] != '>' {
            lemma_closing_shift(c, u, k + 1);
        }
    }
}

proof fn lemma_closing_exists(s: Seq<char>, i: int, q: int)
    requires
        0 <= i <= q < s.len(),
        s[q] == '>',
        forall|k: int| i <= k < q ==> s[k] != '\n',
    ensures
        closing(s, i) is Some,
    decreases q - i,
{
    if s[i] != '>' {
        lemma_closing_exists(s, i + 1, q);
    }
}

proof fn lemma_strip_keeps_unclosed(s: Seq<char>, k: int)
    requires
        0 <= k,
        closing(s, k) is None,
    ensures
        closing(strip_from(s, k), 0) is None,
    decreases s.len() - k,
{
    if k < s.len() && s[k] != '\n' {
        let u = strip_from(s, k + 1);
        assert(strip_from(s, k) == seq![s[k]] + u);
        lemma_strip_keeps_unclosed(s, k + 1);
        lemma_closing_shift(s[k], u, 0);
        assert((seq![s[k]] + u)[0] == s[k]);
    } else if k < s.len() {
        assert(strip_from(s, k)[0] == '\n');
    }
}

proof fn lemma_strip_from_unclosed(s: Seq<char>, i: int)
    requires
        0 <= i,
    ensures
        unclosed(strip_from(s, i)),
    decreases s.len() - i,
{
    if i < s.len() {
        if s[i] == '<' && closing(s, i + 1) is Some {
            lemma_closing_is_closer(s, i + 1);
            lemma_strip_from_unclosed(s, closing(s, i + 1).unwrap() + 1);
        } else {
            let u = strip_from(s, i + 1);
            let t = seq![s[i]] + u;
            lemma_strip_from_unclosed(s, i + 1);
            assert forall|p: int| 0 <= p < t.len() && t[p] == '<' implies closing(t, p + 1)
                is None by {
                if p == 0 {
                    lemma_strip_keeps_unclosed(s, i + 1);
                    lemma_closing_shift(s[i], u, 0);
                } else {
                    assert(t[p] == u[p - 1]);
                    lemma_closing_shift(s[i], u, p);
                }
            }
        }
    }
}

/// Once the tags are removed, no `<` has a `>` after it on its line: nothing
/// is left that could be read as a tag.
pub proof fn lemma_strip_leaves_no_tag(s: Seq<char>)
    ensures
        unclosed(strip_tags(s)),
{
    lemma_strip_from_unclosed(s, 0);
}

/// A text in which no `<` has a `>` after it on its line holds no tag, so
/// removing the tags leaves it as it is.
pub proof fn lemma_unclosed_stays(s: Seq<char>, i: int)
    requires
        0 <= i <= s.len(),
        unclosed(s),
    ensures
        strip_from(s, i) == s.skip(i),
    decreases s.len() - i,
{
    if i < s.len() {
        lemma_unclosed_stays(s, i + 1);
        assert(seq![s[i]] + s.skip(i + 1) =~= s.skip(i));
    } else {
        assert(s.skip(i) =~= Seq::<char>::empty());
    }
}

proof fn lemma_first_break_bounds(s: Seq<char>)
    ensures
        first_break(s) <= s.len(),
        first_break(s) < s.len() ==> s[first_break(s) as int] == '\n',
        forall|k: int| 0 <= k < first_break(s) ==> s[k] != '\n',
    decreases s.len(),
{
    if s.len() > 0 && s[0] != '\n' {
        let t = s.drop_first();
        lemma_first_break_bounds(t);
        assert forall|k: int| 0 <= k < first_break(s) implies s[k] != '\n' by {
            if k > 0 {
                assert(s[k] == t[k - 1]);
            }
        }
    }
}

proof fn lemma_lines_hold_no_break(s: Seq<char>)
    ensures
        forall|m: int| 0 <= m < lines_of(s).len() ==> newline_free(#[trigger] lines_of(s)[m]),
    decreases s.len(),
{
    lemma_first_break_bounds(s);
    let n = first_break(s) as int;
    if n >= s.len() {
        assert(lines_of(s) == seq![s]);
    } else {
        let rest = lines_of(s.skip(n + 1));
        lemma_lines_hold_no_break(s.skip(n + 1));
        assert(newline_free(s.take(n)));
        assert forall|m: int| 0 <= m < lines_of(s).len() implies newline_free(
            #[trigger] lines_of(s)[m],
        ) by {
            if m > 0 {
                assert(lines_of(s)[m] == rest[m - 1]);
            }
        }
    }
}

/// No cue holds a line feed in its text.
pub proof fn lemma_cues_hold_no_line_feed(raw: Seq<char>)
    ensures
        forall|k: int| 0 <= k < parsed(raw).len() ==> newline_free((#[trigger] parsed(raw)[k]).text),
{
    let lines = caption_lines(raw);
    lemma_lines_hold_no_break(strip_tags(raw));
    assert forall|m: int| 0 <= m < lines.len() implies newline_free(trimmed(#[trigger] lines[m])) by {
        let r = lemma_trimmed_is_subrange(lines[m]);
        let t = trimmed(lines[m]);
        assert(newline_free(lines[m]));
        assert forall|k: int| 0 <= k < t.len() implies t[k] != '\n' by {
            assert(t[k] == lines[m][r.0 + k]);
        }
    }
    lemma_cue_texts_are_lines(lines, None, |t: Seq<char>| newline_free(t));
}

proof fn lemma_lines_of_unclosed(s: Seq<char>, i: int)
    requires
        0 <= i <= s.len(),
        unclosed(s),
    ensures
        forall|m: int|
            0 <= m < lines_of(s.skip(i)).len() ==> tag_free(#[trigger] lines_of(s.skip(i))[m]),
    decreases s.len() - i,
{
    let u = s.skip(i);
    lemma_first_break_bounds(u);
    let n = first_break(u) as int;
    let head = u.take(n);
    assert forall|p: int, q: int| 0 <= p < q < head.len() implies !(head[p] == '<' && head[q]
        == '>') by {
        if head[p] == '<' && head[q] == '>' {
            assert(s[i + p] == '<');
            assert(s[i + q] == '>');
            assert forall|k: int| i + p + 1 <= k < i + q implies s[k] != '\n' by {
                assert(s[k] == u[k - i]);
            }
            lemma_closing_exists(s, i + p + 1, i + q);
        }
    }
    if n >= u.len() {
        assert(head =~= u);
    } else {
        let rest = lines_of(u.skip(n + 1));
        assert(lines_of(u)[0] == head);
        assert(u.skip(n + 1) =~= s.skip(i + n + 1));
        lemma_lines_of_unclosed(s, i + n + 1);
        assert forall|m: int| 0 <= m < lines_of(u).len() implies tag_free(
            #[trigger] lines_of(u)[m],
        ) by {
            if m > 0 {
                assert(lines_of(u)[m] == rest[m - 1]);
            }
        }
    }
}

/// What holds of every trimmed line that is no time range holds of the text
/// of every cue.
pub proof fn lemma_cue_texts_are_lines(
    lines: Seq<Seq<char>>,
    current: Option<Seq<char>>,
    holds: spec_fn(Seq<char>) -> bool,
)
    requires
        forall|m: int|
            0 <= m < lines.len() ==> is_time_range(trimmed(#[trigger] lines[m])) || holds(
                trimmed(lines[m]),
            ),
    ensures
        forall|k: int|
            0 <= k < cues_of_lines(lines, current).len() ==> holds(
                (#[trigger] cues_of_lines(lines, current)[k]).text,
            ),
    decreases lines.len(),
{
    if lines.len() > 0 {
        let line = trimmed(lines[0]);
        let rest = lines.drop_first();
        assert forall|m: int| 0 <= m < rest.len() implies is_time_range(
            trimmed(#[trigger] rest[m]),
        ) || holds(trimmed(rest[m])) by {
            assert(rest[m] == lines[m + 1]);
        }
        if is_time_range(line) {
            lemma_cue_texts_are_lines(rest, Some(range_start(line)), holds);
            assert(cues_of_lines(lines, current) == cues_of_lines(
                rest,
                Some(range_start(line)),
            ));
        } else {
            lemma_cue_texts_are_lines(rest, current, holds);
            if line.len() > 0 && current is Some {
                let tail = cues_of_lines(rest, current);
                assert(cues_of_lines(lines, current) == seq![
                    CueText { timestamp: current.unwrap(), text: line },
                ] + tail);
                assert forall|k: int| 0 <= k < cues_of_lines(lines, current).len() implies holds(
                    (#[trigger] cues_of_lines(lines, current)[k]).text,
                ) by {
                    if k > 0 {
                        assert(cues_of_lines(lines, current)[k] == tail[k - 1]);
                    }
                }
            } else {
                assert(cues_of_lines(lines, current) == cues_of_lines(rest, current));
            }
        }
    } else {
        assert(cues_of_lines(lines, current) =~= Seq::<CueText>::empty());
    }
}

/// The text of a cue is trimmed, not empty and no time range, and its time
/// reads `MM:SS`.
pub proof fn lemma_cue_shape(lines: Seq<Seq<char>>, current: Option<Seq<char>>)
    requires
        current matches Some(stamp) ==> is_minute_second(stamp),
    ensures
        forall|k: int|
            0 <= k < cues_of_lines(lines, current).len() ==> {
                let cue = #[trigger] cues_of_lines(lines, current)[k];
                &&& is_minute_second(cue.timestamp)
                &&& cue.text.len() > 0
                &&& trimmed(cue.text) == cue.text
                &&& !is_time_range(cue.text)
            },
    decreases lines.len(),
{
    if lines.len() > 0 {
        let line = trimmed(lines[0]);
        let rest = lines.drop_first();
        if is_time_range(line) {
            lemma_cue_shape(rest, Some(range_start(line)));
            assert(cues_of_lines(lines, current) == cues_of_lines(
                rest,
                Some(range_start(line)),
            ));
        } else {
            lemma_cue_shape(rest, current);
            if line.len() > 0 && current is Some {
                let tail = cues_of_lines(rest, current);
                assert(cues_of_lines(lines, current) == seq![
                    CueText { timestamp: current.unwrap(), text: line },
                ] + tail);
                let _ = lemma_trimmed_is_subrange(lines[0]);
                lemma_subrange_is_trimmed(line, 0, line.len() as int);
                assert(line.subrange(0, line.len() as int) =~= line);
                assert forall|k: int| 0 <= k < cues_of_lines(lines, current).len() implies {
                    let cue = #[trigger] cues_of_lines(lines, current)[k];
                    &&& is_minute_second(cue.timestamp)
                    &&& cue.text.len() > 0
                    &&& trimmed(cue.text) == cue.text
                    &&& !is_time_range(cue.text)
                } by {
                    if k > 0 {
                        assert(cues_of_lines(lines, current)[k] == tail[k - 1]);
                    }
                }
            } else {
                assert(cues_of_lines(lines, current) == cues_of_lines(rest, current));
            }
        }
    } else {
        assert(cues_of_lines(lines, current) =~= Seq::<CueText>::empty());
    }
}

/// Every cue of a track has a time that reads `MM:SS` and a text that is
/// trimmed, not empty, no time range, and holds no tag: no `<` in it is
/// followed by a `>`.
pub proof fn lemma_cues_hold_no_tag(raw: Seq<char>)
    ensures
        forall|k: int|
            0 <= k < parsed(raw).len() ==> {
                let cue = #[trigger] parsed(raw)[k];
                &&& tag_free(cue.text)
                &&& is_minute_second(cue.timestamp)
                &&& cue.text.len() > 0
                &&& trimmed(cue.text) == cue.text
                &&& !is_time_range(cue.text)
            },
{
    let stripped = strip_tags(raw);
    let lines = caption_lines(raw);
    lemma_strip_leaves_no_tag(raw);
    lemma_lines_of_unclosed(stripped, 0);
    assert(stripped.skip(0) =~= stripped);
    assert forall|m: int| 0 <= m < lines.len() implies tag_free(trimmed(#[trigger] lines[m])) by {
        let r = lemma_trimmed_is_subrange(lines[m]);
        let t = trimmed(lines[m]);
        assert forall|p: int, q: int| 0 <= p < q < t.len() implies !(t[p] == '<' && t[q] == '>') by {
            assert(t[p] == lines[m][r.0 + p]);
            assert(t[q] == lines[m][r.0 + q]);
        }
    }
    lemma_cue_texts_are_lines(lines, None, |t: Seq<char>| tag_free(t));
    lemma_cue_shape(lines, None);
}

/// A time that reads `MM:SS` holds no `<` and no `>`.
pub proof fn lemma_time_holds_no_angle(stamp: Seq<char>)
    requires
        is_minute_second(stamp),
    ensures
        no_angle(stamp),
{
    assert forall|k: int| 0 <= k < stamp.len() implies stamp[k] != '<' && stamp[k] != '>' by {
        if k == 0 {
        } else if k == 1 {
        } else if k == 2 {
        } else if k == 3 {
        } else {
        }
    }
}

/// Whether line `m` stands in a block: a block was open before the first
/// line, or a time range stands above line `m`.
pub open spec fn follows_time_range(lines: Seq<Seq<char>>, m: int, opened: bool) -> bool {
    opened || exists|t: int| 0 <= t < m && is_time_range(trimmed(#[trigger] lines[t]))
}

/// Whether line `m` is one of those that can give a cue: it stands in a block
/// and is no time range itself.
pub open spec fn is_text_line(lines: Seq<Seq<char>>, m: int, opened: bool) -> bool {
    &&& 0 <= m < lines.len()
    &&& !is_time_range(trimmed(lines[m]))
    &&& follows_time_range(lines, m, opened)
}

proof fn lemma_text_lines_free(lines: Seq<Seq<char>>, current: Option<Seq<char>>)
    requires
        forall|m: int| #[trigger]
            is_text_line(lines, m, current is Some) ==> no_angle(trimmed(lines[m])),
    ensures
        forall|k: int|
            0 <= k < cues_of_lines(lines, current).len() ==> no_angle(
                (#[trigger] cues_of_lines(lines, current)[k]).text,
            ),
    decreases lines.len(),
{
    if lines.len() > 0 {
        let line = trimmed(lines[0]);
        let rest = lines.drop_first();
        let next = if is_time_range(line) {
            Some(range_start(line))
        } else {
            current
        };
        assert forall|m: int| #[trigger] is_text_line(rest, m, next is Some) implies no_angle(
            trimmed(rest[m]),
        ) by {
            assert(rest[m] == lines[m + 1]);
            if current is None {
                if is_time_range(line) {
                    assert(is_time_range(trimmed(lines[0])));
                } else {
                    let t = choose|t: int|
                        0 <= t < m && is_time_range(trimmed(#[trigger] rest[t]));
                    assert(rest[t] == lines[t + 1]);
                    assert(is_time_range(trimmed(lines[t + 1])));
                }
            }
            assert(is_text_line(lines, m + 1, current is Some));
        }
        lemma_text_lines_free(rest, next);
        let tail = cues_of_lines(rest, next);
        if is_time_range(line) {
            assert(cues_of_lines(lines, current) == tail);
        } else if line.len() > 0 && current is Some {
            assert(cues_of_lines(lines, current) == seq![
                CueText { timestamp: current.unwrap(), text: line },
            ] + tail);
            assert(is_text_line(lines, 0, current is Some));
            assert forall|k: int| 0 <= k < cues_of_lines(lines, current).len() implies no_angle(
                (#[trigger] cues_of_lines(lines, current)[k]).text,
            ) by {
                if k > 0 {
                    assert(cues_of_lines(lines, current)[k] == tail[k - 1]);
                }
            }
        } else {
            assert(cues_of_lines(lines, current) == tail);
        }
    } else {
        assert(cues_of_lines(lines, current) =~= Seq::<CueText>::empty());
    }
}

proof fn lemma_text_line_is_cue(lines: Seq<Seq<char>>, current: Option<Seq<char>>, m: int)
    requires
        is_text_line(lines, m, current is Some),
        trimmed(lines[m]).len() > 0,
    ensures
        exists|k: int|
            0 <= k < cues_of_lines(lines, current).len() && (#[trigger] cues_of_lines(
                lines,
                current,
            )[k]).text == trimmed(lines[m]),
    decreases lines.len(),
{
    let line = trimmed(lines[0]);
    let rest = lines.drop_first();
    let all = cues_of_lines(lines, current);
    if m == 0 {
        let tail = cues_of_lines(rest, current);
        assert(all == seq![CueText { timestamp: current.unwrap(), text: line }] + tail);
        assert(all[0].text == line);
    } else {
        let next = if is_time_range(line) {
            Some(range_start(line))
        } else {
            current
        };
        assert(rest[m - 1] == lines[m]);
        if next is None {
            let t = choose|t: int| 0 <= t < m && is_time_range(trimmed(#[trigger] lines[t]));
            assert(t > 0);
            assert(rest[t - 1] == lines[t]);
            assert(is_time_range(trimmed(rest[t - 1])));
        }
        assert(is_text_line(rest, m - 1, next is Some));
        lemma_text_line_is_cue(rest, next, m - 1);
        let tail = cues_of_lines(rest, next);
        let k = choose|k: int| 0 <= k < tail.len() && (#[trigger] tail[k]).text == trimmed(lines[m]);
        if is_time_range(line) {
            assert(all == tail);
            assert(all[k].text == trimmed(lines[m]));
        } else if line.len() > 0 && current is Some {
            assert(all == seq![CueText { timestamp: current.unwrap(), text: line }] + tail);
            assert(all[k + 1] == tail[k]);
        } else {
            assert(all == tail);
            assert(all[k].text == trimmed(lines[m]));
        }
    }
}

/// No cue holds a `<` or a `>` where, once the tags are removed, none of the
/// lines that can give a cue holds one: the lines that stand below a time
/// range and are none themselves. What stands above the first time range does
/// not matter. The time of a cue never holds either character.
pub proof fn lemma_cues_hold_no_angle_bracket(raw: Seq<char>)
    requires
        forall|m: int| #[trigger]
            is_text_line(caption_lines(raw), m, false) ==> no_angle(
                trimmed(caption_lines(raw)[m]),
            ),
    ensures
        forall|k: int|
            0 <= k < parsed(raw).len() ==> no_angle((#[trigger] parsed(raw)[k]).text) && no_angle(
                parsed(raw)[k].timestamp,
            ),
{
    lemma_text_lines_free(caption_lines(raw), None);
    lemma_cue_shape(caption_lines(raw), None);
    assert forall|k: int| 0 <= k < parsed(raw).len() implies no_angle(
        (#[trigger] parsed(raw)[k]).text,
    ) && no_angle(parsed(raw)[k].timestamp) by {
        let cue = cues_of_lines(caption_lines(raw), None)[k];
        lemma_time_holds_no_angle(cue.timestamp);
    }
}

/// The converse: a `<` or `>` in a line that can give a cue is in a cue. So
/// the condition of `lemma_cues_hold_no_angle_bracket` leaves out the tracks
/// of which its claim is false, and no others.
pub proof fn lemma_stray_bracket_reaches_cue(raw: Seq<char>, m: int)
    requires
        is_text_line(caption_lines(raw), m, false),
        !no_angle(trimmed(caption_lines(raw)[m])),
    ensures
        exists|k: int| 0 <= k < parsed(raw).len() && !no_angle((#[trigger] parsed(raw)[k]).text),
{
    let lines = caption_lines(raw);
    let line = trimmed(lines[m]);
    if line.len() == 0 {
        assert(no_angle(line));
    }
    lemma_text_line_is_cue(lines, None, m);
    let k = choose|k: int|
        0 <= k < cues_of_lines(lines, None).len() && (#[trigger] cues_of_lines(
            lines,
            None,
        )[k]).text == line;
    assert(!no_angle(parsed(raw)[k].text));
}

} // verus!
