use caption_summary::captions::{parse_captions, strip_tag_chars, time_range_at, Cue};

fn cue(timestamp: &str, text: &str) -> Cue {
    Cue { timestamp: timestamp.to_string(), text: text.to_string() }
}

fn strip(text: &str) -> String {
    let chars: Vec<char> = text.chars().collect();
    strip_tag_chars(&chars).into_iter().collect()
}

fn opens_with_time_range(line: &str) -> bool {
    let chars: Vec<char> = line.chars().collect();
    time_range_at(&chars, 0, chars.len())
}

#[test]
fn strips_every_tag() {
    assert_eq!(strip("<c>hello</c> <00:00:01.500>world"), "hello world");
    assert_eq!(strip("a<>b"), "ab");
    assert_eq!(strip("<a<b>c"), "c");
    assert_eq!(strip("no tags"), "no tags");
    assert_eq!(strip(""), "");
}

#[test]
fn keeps_brackets_that_close_no_tag() {
    assert_eq!(strip("a > b"), "a > b");
    assert_eq!(strip("a < b"), "a < b");
    assert_eq!(strip("<<< x"), "<<< x");
    assert_eq!(strip("x <b>y</b> < z"), "x y < z");
}

#[test]
fn a_tag_does_not_run_over_a_line_end() {
    assert_eq!(strip("<a\nb>"), "<a\nb>");
    assert_eq!(strip("<a\n<b>c"), "<a\nc");
    assert_eq!(strip("x<\n"), "x<\n");
}

#[test]
fn what_is_left_holds_no_tag() {
    for text in ["<c>a</c>", "a<b", "<a<b>c>d", "<<>>", "a\n<b\n>c<d>"] {
        assert_eq!(strip(&strip(text)), strip(text));
    }
}

#[test]
fn strips_as_the_pattern_does() {
    let pattern = regex::Regex::new(r"<.*?>").unwrap();
    let samples = [
        "",
        "plain",
        "<c>hello</c>",
        "a<b",
        "a>b",
        "<a<b>c>d",
        "<<>>",
        "<>",
        "<\n>",
        "a\n<b\n>c<d>e",
        "x <00:00:01.000><c> word</c> y",
        "<\r\n>",
        "<é>ü<",
        ">><<",
        "<a>\n<b",
    ];
    for text in samples {
        assert_eq!(strip(text), pattern.replace_all(text, "").into_owned(), "on {:?}", text);
    }
}

#[test]
fn recognises_time_ranges() {
    assert!(opens_with_time_range("00:00:01.000 --> 00:00:04.000"));
    assert!(opens_with_time_range("01:23:45.678 --> 01:23:50.000 align:start position:0%"));
    assert!(!opens_with_time_range("00:00:01.000 -> 00:00:04.000"));
    assert!(!opens_with_time_range("00:00:01.000 --> 00:00:04.00"));
    assert!(!opens_with_time_range("0:00:01.000 --> 00:00:04.000"));
    assert!(!opens_with_time_range(" 00:00:01.000 --> 00:00:04.000"));
    assert!(!opens_with_time_range("00:00:01,000 --> 00:00:04,000"));
    assert!(!opens_with_time_range("00:00:0a.000 --> 00:00:04.000"));
    assert!(!opens_with_time_range(""));
    assert!(!opens_with_time_range("hello world"));
}

#[test]
fn recognises_time_ranges_as_the_pattern_does() {
    let pattern =
        regex::Regex::new(r"^\d{2}:(\d{2}:\d{2})\.\d{3} --> \d{2}:\d{2}:\d{2}\.\d{3}").unwrap();
    let samples = [
        "00:00:01.000 --> 00:00:04.000",
        "12:34:56.789 --> 98:76:54.321 trailing",
        "00:00:01.000 --> 00:00:04.00",
        "00:00:01.000 -->  00:00:04.000",
        "x00:00:01.000 --> 00:00:04.000",
        "00:00:01.000 --> 00:00:04.0000",
        "00-00:01.000 --> 00:00:04.000",
        "",
        "WEBVTT",
    ];
    for line in samples {
        assert_eq!(opens_with_time_range(line), pattern.is_match(line), "on {:?}", line);
    }
}

#[test]
fn a_piece_of_a_line_is_tested_on_its_own() {
    let chars: Vec<char> = "  00:00:01.000 --> 00:00:04.000  ".chars().collect();
    assert!(time_range_at(&chars, 2, 31));
    assert!(!time_range_at(&chars, 2, 30));
    assert!(!time_range_at(&chars, 1, 31));
}

#[test]
fn parses_blocks_into_cues() {
    let raw = "WEBVTT\nKind: captions\n\n00:00:01.000 --> 00:00:04.000\nhello world\n\n00:00:04.000 --> 00:00:07.000\nhello world\n\n00:00:07.000 --> 00:00:10.000\ngoodbye\n";
    assert_eq!(
        parse_captions(raw),
        vec![cue("00:01", "hello world"), cue("00:04", "hello world"), cue("00:07", "goodbye")]
    );
}

#[test]
fn lines_before_the_first_time_range_are_dropped() {
    assert_eq!(parse_captions("WEBVTT\nintro\n"), Vec::<Cue>::new());
    assert_eq!(parse_captions(""), Vec::<Cue>::new());
    assert_eq!(
        parse_captions("intro\n00:00:01.000 --> 00:00:02.000\ntext"),
        vec![cue("00:01", "text")]
    );
}

#[test]
fn every_text_line_of_a_block_is_a_cue() {
    let raw = "00:10:01.000 --> 00:10:04.000 align:start\n  first  \n\tsecond\r\n\n   \nthird";
    assert_eq!(
        parse_captions(raw),
        vec![cue("10:01", "first"), cue("10:01", "second"), cue("10:01", "third")]
    );
}

#[test]
fn the_hour_of_a_time_range_is_not_kept() {
    let raw = "01:02:03.000 --> 01:02:04.000\nlate\n";
    assert_eq!(parse_captions(raw), vec![cue("02:03", "late")]);
}

#[test]
fn tags_are_removed_before_lines_are_read() {
    let raw = "00:00:01.000 --> 00:00:04.000\n<c>hello</c><00:00:02.000><c> world</c>\n<c></c>\n";
    assert_eq!(parse_captions(raw), vec![cue("00:01", "hello world")]);
}

#[test]
fn a_time_range_inside_tags_opens_a_block() {
    let raw = "<v>00:00:05.000 --> 00:00:06.000</v>\nspoken\n";
    assert_eq!(parse_captions(raw), vec![cue("00:05", "spoken")]);
}

#[test]
fn cues_of_tagged_text_hold_no_angle_bracket() {
    let raw = "00:00:01.000 --> 00:00:04.000\n<c.colorE5E5E5>so</c><00:00:01.500><c> here</c>\n<i>we</i> go\n";
    let cues = parse_captions(raw);
    assert_eq!(cues.len(), 2);
    for cue in &cues {
        assert!(!cue.text.contains('<') && !cue.text.contains('>'));
        assert!(!cue.timestamp.contains('<') && !cue.timestamp.contains('>'));
    }
}

#[test]
fn a_stray_bracket_stays_in_the_cue() {
    let raw = "00:00:01.000 --> 00:00:04.000\n3 > 2 and 1 < 2\n";
    assert_eq!(parse_captions(raw), vec![cue("00:01", "3 > 2 and 1 < 2")]);
}

#[test]
fn white_space_of_any_script_is_trimmed() {
    let raw = "00:00:01.000 --> 00:00:04.000\n\u{2003}\u{00a0}wide\u{3000}\n\u{2028}\n";
    assert_eq!(parse_captions(raw), vec![cue("00:01", "wide")]);
}

#[test]
fn a_time_range_is_written_in_the_digits_zero_to_nine() {
    let arabic = "\u{0660}\u{0660}:\u{0660}\u{0660}:\u{0660}\u{0661}.\u{0660}\u{0660}\u{0660} --> \u{0660}\u{0660}:\u{0660}\u{0660}:\u{0660}\u{0664}.\u{0660}\u{0660}\u{0660}";
    assert!(!opens_with_time_range(arabic));
    assert!(!opens_with_time_range("\u{ff10}0:00:01.000 --> 00:00:04.000"));
    let raw = format!("00:00:01.000 --> 00:00:04.000\n{}\nafter\n", arabic);
    assert_eq!(parse_captions(&raw), vec![cue("00:01", arabic), cue("00:01", "after")]);
}
