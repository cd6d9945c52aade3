use caption_summary::budget::{truncate_lines, truncation_notice, DEFAULT_MAX_LINES};
use caption_summary::captions::{parse_captions, Cue};
use caption_summary::formatter::{format_cues, FormattedLine, DEFAULT_STRIDE};
use caption_summary::text::{chars_of, decimal_string, string_of, trim_bounds, trim_text};

fn cue(timestamp: &str, text: &str) -> Cue {
    Cue { timestamp: timestamp.to_string(), text: text.to_string() }
}

fn numbered(count: usize) -> Vec<Cue> {
    (0..count).map(|i| cue(&format!("00:{:02}", i % 60), &format!("line {}", i))).collect()
}

fn rendered(lines: &Vec<FormattedLine>) -> Vec<String> {
    lines.iter().map(|line| line.render()).collect()
}

#[test]
fn formats_the_track_of_three_blocks() {
    let raw = "00:00:01.000 --> 00:00:04.000\nhello world\n\n00:00:04.000 --> 00:00:07.000\nhello world\n\n00:00:07.000 --> 00:00:10.000\ngoodbye\n";
    let lines = format_cues(&parse_captions(raw), DEFAULT_STRIDE);
    assert_eq!(rendered(&lines), vec!["00:01: hello world".to_string(), "goodbye".to_string()]);
    assert_eq!(
        lines,
        vec![
            FormattedLine {
                text: "hello world".to_string(),
                timestamp_prefix: Some("00:01".to_string())
            },
            FormattedLine { text: "goodbye".to_string(), timestamp_prefix: None },
        ]
    );
}

#[test]
fn a_text_is_kept_once_over_the_whole_track() {
    let cues = vec![
        cue("00:01", "a"),
        cue("00:02", "b"),
        cue("00:03", "a"),
        cue("00:04", " b "),
        cue("00:05", "c"),
        cue("00:06", "a"),
    ];
    let lines = format_cues(&cues, 10);
    assert_eq!(rendered(&lines), vec!["00:01: a", "b", "c"]);
    for i in 0..lines.len() {
        for j in (i + 1)..lines.len() {
            assert_ne!(lines[i].text.trim(), lines[j].text.trim());
        }
    }
}

#[test]
fn blank_texts_are_not_kept() {
    let cues = vec![cue("00:01", ""), cue("00:02", "  \t"), cue("00:03", " x ")];
    assert_eq!(
        format_cues(&cues, 10),
        vec![FormattedLine { text: "x".to_string(), timestamp_prefix: Some("00:03".to_string()) }]
    );
    assert_eq!(format_cues(&Vec::new(), 10), Vec::<FormattedLine>::new());
}

#[test]
fn every_stride_th_line_carries_its_time() {
    let lines = format_cues(&numbered(25), 10);
    assert_eq!(lines.len(), 25);
    for (i, line) in lines.iter().enumerate() {
        assert_eq!(line.timestamp_prefix.is_some(), i % 10 == 0);
    }
    assert_eq!(lines.iter().filter(|line| line.timestamp_prefix.is_some()).count(), 3);
    assert_eq!(lines[10].render(), "00:10: line 10");
    assert_eq!(lines[20].timestamp_prefix, Some("00:20".to_string()));
    assert_eq!(lines[11].render(), "line 11");
}

#[test]
fn the_count_of_tagged_lines_is_rounded_up() {
    for (count, stride, tagged) in [(0, 3, 0), (1, 3, 1), (3, 3, 1), (4, 3, 2), (7, 1, 7), (5, 9, 1)]
    {
        let lines = format_cues(&numbered(count), stride);
        assert_eq!(lines.iter().filter(|line| line.timestamp_prefix.is_some()).count(), tagged);
    }
}

#[test]
fn the_position_counts_kept_lines_only() {
    let cues = vec![cue("00:01", "a"), cue("00:02", "a"), cue("00:03", "b"), cue("00:04", "c")];
    let lines = format_cues(&cues, 2);
    assert_eq!(rendered(&lines), vec!["00:01: a", "b", "00:04: c"]);
}

#[test]
fn formatting_the_output_again_keeps_every_line() {
    let cues = vec![
        cue("00:01", "a"),
        cue("00:02", " a"),
        cue("00:03", "b "),
        cue("00:04", ""),
        cue("00:05", "c"),
        cue("00:06", "b"),
    ];
    let first = format_cues(&cues, 2);
    let again: Vec<Cue> = first.iter().map(|line| cue("", &line.text)).collect();
    let second = format_cues(&again, 2);
    let texts = |lines: &Vec<FormattedLine>| -> Vec<String> {
        lines.iter().map(|line| line.text.clone()).collect()
    };
    assert_eq!(texts(&second), texts(&first));
    assert_eq!(texts(&first), vec!["a", "b", "c"]);
}

#[test]
fn truncates_to_the_cap() {
    let lines = format_cues(&numbered(5), 10);
    let (kept, dropped) = truncate_lines(lines.clone(), 3);
    assert_eq!(kept, lines[..3].to_vec());
    assert_eq!(dropped, 2);
    let (kept, dropped) = truncate_lines(lines.clone(), 5);
    assert_eq!(kept, lines);
    assert_eq!(dropped, 0);
    let (kept, dropped) = truncate_lines(lines.clone(), 9);
    assert_eq!(kept, lines);
    assert_eq!(dropped, 0);
    let (kept, dropped) = truncate_lines(lines.clone(), 0);
    assert_eq!(kept, Vec::<FormattedLine>::new());
    assert_eq!(dropped, 5);
}

#[test]
fn the_default_cap_is_four_hundred_lines() {
    assert_eq!(DEFAULT_MAX_LINES, 400);
    assert_eq!(DEFAULT_STRIDE, 10);
    let (kept, dropped) = truncate_lines(format_cues(&numbered(401), 10), DEFAULT_MAX_LINES);
    assert_eq!(kept.len(), 400);
    assert_eq!(dropped, 1);
}

#[test]
fn the_notice_names_the_count() {
    assert_eq!(truncation_notice(0), None);
    assert_eq!(
        truncation_notice(1),
        Some("Cut off 1 subtitle line, to avoid hitting the token limit...\n".to_string())
    );
    assert_eq!(
        truncation_notice(2),
        Some("Cut off 2 subtitle lines, to avoid hitting the token limit...\n".to_string())
    );
    assert_eq!(
        truncation_notice(1234),
        Some("Cut off 1234 subtitle lines, to avoid hitting the token limit...\n".to_string())
    );
}

#[test]
fn writes_numbers_in_base_ten() {
    assert_eq!(decimal_string(0), "0");
    assert_eq!(decimal_string(7), "7");
    assert_eq!(decimal_string(10), "10");
    assert_eq!(decimal_string(401), "401");
    assert_eq!(decimal_string(9876543210), "9876543210");
    assert_eq!(decimal_string(usize::MAX), usize::MAX.to_string());
}

#[test]
fn trims_as_the_standard_library_does() {
    for text in ["", " ", "a", "  a b  ", "\t\r\n x \u{00a0}", "\u{3000}y\u{2003}", "\u{200b}z "] {
        assert_eq!(trim_text(text), text.trim());
    }
}

#[test]
fn trims_a_piece_of_a_text() {
    let chars = chars_of("ab  cd  ef");
    assert_eq!(chars, vec!['a', 'b', ' ', ' ', 'c', 'd', ' ', ' ', 'e', 'f']);
    assert_eq!(trim_bounds(&chars, 2, 8), (4, 6));
    assert_eq!(trim_bounds(&chars, 2, 4), (4, 4));
    assert_eq!(trim_bounds(&chars, 0, 10), (0, 10));
    assert_eq!(string_of(&chars, 4, 6), "cd");
    assert_eq!(string_of(&chars, 3, 3), "");
}

#[test]
fn white_space_is_what_the_standard_library_takes_for_it() {
    let listed = |c: char| {
        let n = c as u32;
        (0x09..=0x0d).contains(&n)
            || n == 0x20
            || n == 0x85
            || n == 0xa0
            || n == 0x1680
            || (0x2000..=0x200a).contains(&n)
            || n == 0x2028
            || n == 0x2029
            || n == 0x202f
            || n == 0x205f
            || n == 0x3000
    };
    let mut count = 0;
    for n in 0..=0x10ffffu32 {
        if let Some(c) = char::from_u32(n) {
            assert_eq!(listed(c), c.is_whitespace(), "on U+{:04X}", n);
            if c.is_whitespace() {
                count += 1;
                assert_eq!(trim_text(&format!("{}x{}", c, c)), "x");
            }
        }
    }
    assert_eq!(count, 25);
    assert_eq!(trim_text("\u{200b}x\u{feff}"), "\u{200b}x\u{feff}");
}
