use caption_summary::completion::{
    answer_from, answer_output, bearer_header, build_request, completion_text, read_answer,
    resolve_response, Choice, CompletionError, Message, Response, Root, Usage, ENDPOINT, MODEL,
};
use caption_summary::formatter::FormattedLine;
use caption_summary::captions::parse_captions;
use caption_summary::formatter::format_cues;
use caption_summary::pipeline::prepare;
use caption_summary::second_pass::OPENING;
use caption_summary::prompt::{
    any_timestamp, build_prompt, join_lines, Prompt, DIRECTIVE, END_MARKER, START_MARKER,
    SYSTEM_INSTRUCTION, TIMESTAMP_REQUEST,
};

fn completion(contents: &[&str]) -> Root {
    Root {
        id: "chatcmpl-1".to_string(),
        object: "chat.completion".to_string(),
        created: 1_700_000_000,
        model: "gpt-3.5-turbo".to_string(),
        usage: Usage { prompt_tokens: 10, completion_tokens: 5, total_tokens: 15 },
        choices: contents
            .iter()
            .enumerate()
            .map(|(index, content)| Choice {
                message: Message { role: "assistant".to_string(), content: content.to_string() },
                finish_reason: "stop".to_string(),
                index: index as i64,
            })
            .collect(),
    }
}

fn json(text: &str) -> serde_json::Value {
    serde_json::from_str(text).unwrap()
}

fn line(text: &str, stamp: Option<&str>) -> FormattedLine {
    FormattedLine { text: text.to_string(), timestamp_prefix: stamp.map(|s| s.to_string()) }
}

#[test]
fn a_completion_gives_the_content_of_its_first_choice() {
    let response = Response::Success(completion(&["Summary text", "another"]));
    let text = completion_text(&response).unwrap();
    assert_eq!(text, "Summary text");
    assert_eq!(answer_output(&text), "Summary text\n");
}

#[test]
fn the_content_is_not_trimmed() {
    let response = Response::Success(completion(&["  spaced \n"]));
    assert_eq!(completion_text(&response), Ok("  spaced \n".to_string()));
    assert_eq!(answer_output("  spaced \n"), "  spaced \n\n");
}

#[test]
fn a_body_without_choices_is_shown_pretty_printed() {
    let body = r#"{"error":{"message":"Incorrect API key provided","type":"invalid_request_error","code":null}}"#;
    let value = json(body);
    let response = resolve_response(None, Some(value.clone())).unwrap();
    assert_eq!(response, Response::Failure(value.clone()));
    let text = completion_text(&response).unwrap();
    assert_eq!(text, serde_json::to_string_pretty(&value).unwrap());
    assert_eq!(
        text,
        "{\n  \"error\": {\n    \"code\": null,\n    \"message\": \"Incorrect API key provided\",\n    \"type\": \"invalid_request_error\"\n  }\n}"
    );
    assert_ne!(text, body);
}

#[test]
fn any_json_value_is_an_answer() {
    assert_eq!(completion_text(&Response::Failure(json("null"))), Ok("null".to_string()));
    assert_eq!(
        completion_text(&Response::Failure(json("[1,2]"))),
        Ok("[\n  1,\n  2\n]".to_string())
    );
}

#[test]
fn a_completion_without_a_choice_gives_no_text() {
    let response = Response::Success(completion(&[]));
    assert_eq!(completion_text(&response), Err(CompletionError::NoChoices));
    assert_eq!(answer_from(&response, "x".to_string()), Err(CompletionError::NoChoices));
}

#[test]
fn an_envelope_without_a_choice_is_shown_pretty_printed() {
    let body = r#"{"id":"chatcmpl-1","object":"chat.completion","created":1,"model":"m","usage":{"prompt_tokens":1,"completion_tokens":0,"total_tokens":1},"choices":[]}"#;
    let value = json(body);
    let response = resolve_response(Some(completion(&[])), Some(value.clone()));
    assert_eq!(response, Some(Response::Failure(value.clone())));
    assert_eq!(
        read_answer(Some(completion(&[])), Some(value.clone())),
        Some(serde_json::to_string_pretty(&value).unwrap())
    );
    assert_eq!(resolve_response(Some(completion(&[])), None), None);
    assert_eq!(read_answer(Some(completion(&[])), None), None);
}

#[test]
fn a_body_that_is_json_always_gives_a_text() {
    let root = completion(&["Summary text"]);
    let value = json(r#"{"error":"quota"}"#);
    assert_eq!(read_answer(Some(root.clone()), Some(value.clone())), Some("Summary text".to_string()));
    assert_eq!(read_answer(Some(root), None), Some("Summary text".to_string()));
    assert_eq!(
        read_answer(None, Some(value)),
        Some("{\n  \"error\": \"quota\"\n}".to_string())
    );
    assert_eq!(read_answer(None, Some(json("\"plain\""))), Some("\"plain\"".to_string()));
    assert_eq!(read_answer(None, None), None);
}

#[test]
fn the_answer_follows_the_printed_value() {
    let failure = Response::Failure(json("{}"));
    assert_eq!(answer_from(&failure, "{}".to_string()), Ok("{}".to_string()));
    assert_eq!(answer_from(&failure, "printed".to_string()), Ok("printed".to_string()));
    let success = Response::Success(completion(&["text"]));
    assert_eq!(answer_from(&success, String::new()), Ok("text".to_string()));
    assert_eq!(answer_from(&success, "other".to_string()), Ok("text".to_string()));
}

#[test]
fn the_completion_envelope_wins() {
    let root = completion(&["text"]);
    let value = json(r#"{"choices":[]}"#);
    assert_eq!(
        resolve_response(Some(root.clone()), Some(value.clone())),
        Some(Response::Success(root.clone()))
    );
    assert_eq!(resolve_response(Some(root.clone()), None), Some(Response::Success(root)));
    assert_eq!(resolve_response(None, Some(value.clone())), Some(Response::Failure(value)));
    assert_eq!(resolve_response(None, None), None);
}

#[test]
fn a_copy_of_a_response_is_the_response() {
    let response = Response::Failure(json(r#"{"a":[1,{"b":"c"}]}"#));
    assert_eq!(response.clone(), response);
    assert_ne!(response, Response::Failure(json("{}")));
}

#[test]
fn the_header_holds_the_trimmed_key() {
    assert_eq!(bearer_header("sk-123"), "Bearer sk-123");
    assert_eq!(bearer_header("  sk-123\n"), "Bearer sk-123");
    assert_eq!(bearer_header("\n"), "Bearer ");
}

#[test]
fn the_request_is_a_conversation_of_one_turn() {
    let prompt = Prompt {
        system_instruction: "be brief".to_string(),
        user_content: "the subtitles".to_string(),
    };
    let request = build_request(prompt);
    assert_eq!(request.model, "gpt-3.5-turbo");
    assert_eq!(request.model, MODEL);
    assert_eq!(
        request.messages,
        vec![
            Message { role: "system".to_string(), content: "be brief".to_string() },
            Message { role: "user".to_string(), content: "the subtitles".to_string() },
        ]
    );
    assert_eq!(ENDPOINT, "https://api.openai.com/v1/chat/completions");
}

#[test]
fn lines_are_joined_by_line_feeds() {
    assert_eq!(join_lines(&Vec::new()), "");
    assert_eq!(join_lines(&vec![line("a", Some("00:01"))]), "00:01: a");
    assert_eq!(
        join_lines(&vec![line("a", Some("00:01")), line("b", None), line("c", None)]),
        "00:01: a\nb\nc"
    );
    assert!(any_timestamp(&vec![line("b", None), line("a", Some("00:01"))]));
    assert!(!any_timestamp(&vec![line("b", None)]));
    assert!(!any_timestamp(&Vec::new()));
}

#[test]
fn the_prompt_holds_directive_and_delimited_subtitles() {
    let prompt = build_prompt("00:01: a\nb", true);
    assert_eq!(prompt.system_instruction, SYSTEM_INSTRUCTION);
    assert_eq!(
        prompt.user_content,
        format!("{}{}{}00:01: a\nb{}", DIRECTIVE, TIMESTAMP_REQUEST, START_MARKER, END_MARKER)
    );
    assert_eq!(
        prompt.user_content,
        "Summarize the video whose subtitles follow. Start with a quick summary, then list each subject discussed in detail. For each subject, give the timestamps where it can be found.\n\n--- SUBTITLES START ---\n00:01: a\nb\n--- SUBTITLES END ---"
    );
    let plain = build_prompt("a", false);
    assert_eq!(plain.user_content, format!("{}{}a{}", DIRECTIVE, START_MARKER, END_MARKER));
    assert!(!plain.user_content.contains(TIMESTAMP_REQUEST));
}

#[test]
fn a_track_becomes_a_prompt() {
    let raw = "WEBVTT\n\n00:00:01.000 --> 00:00:04.000\n<c>hello</c> world\n\n00:00:04.000 --> 00:00:07.000\nhello world\ngoodbye\n\n00:00:07.000 --> 00:00:09.000\ngoodbye\nsee you\n";
    let all = prepare(raw, 2, 400);
    assert_eq!(all.dropped, 0);
    assert_eq!(all.notice, None);
    assert_eq!(all.prompt, build_prompt("00:01: hello world\ngoodbye\n00:07: see you", true));
    let cut = prepare(raw, 2, 2);
    assert_eq!(cut.dropped, 1);
    assert_eq!(
        cut.notice,
        Some("Cut off 1 subtitle line, to avoid hitting the token limit...\n".to_string())
    );
    assert_eq!(cut.prompt, build_prompt("00:01: hello world\ngoodbye", true));
    let none = prepare(raw, 2, 0);
    assert_eq!(none.dropped, 3);
    assert_eq!(none.prompt, build_prompt("", false));
    let empty = prepare("", 10, 400);
    assert_eq!(empty.dropped, 0);
    assert_eq!(empty.prompt, build_prompt("", false));
}

fn subtitles_of(prompt: &Prompt) -> String {
    let start = prompt.user_content.find(START_MARKER).unwrap() + START_MARKER.len();
    let end = prompt.user_content.rfind(END_MARKER).unwrap();
    prompt.user_content[start..end].to_string()
}

#[test]
fn no_markup_reaches_the_prompt() {
    let raw = "WEBVTT\nhead > line\n\n00:00:01.000 --> 00:00:04.000\n<c.colorE5E5E5>so</c><00:00:01.500><c> here</c>\n\n00:00:04.000 --> 00:00:07.000\n<i>we</i> go\n";
    let prepared = prepare(raw, 10, 400);
    assert_eq!(subtitles_of(&prepared.prompt), "00:01: so here\nwe go");
    assert!(!prepared.prompt.user_content.contains('<'));
    assert!(!prepared.prompt.user_content.contains('>'));
    let request = build_request(prepared.prompt.clone());
    assert_eq!(request.messages[1].content, prepared.prompt.user_content);
}

#[test]
fn the_lines_of_a_prompt_come_back_from_a_second_pass() {
    let mut raw = String::new();
    for i in 0..25 {
        raw.push_str(&format!("00:{:02}:{:02}.000 --> 00:{:02}:{:02}.500\n", i, i, i, i));
        raw.push_str(&format!("<c>line</c> {}\nline {}\n1 < 2\n\n", i, i / 2));
    }
    let first = prepare(&raw, 10, 400);
    let subtitles = subtitles_of(&first.prompt);
    let out: Vec<&str> = subtitles.split('\n').collect();
    assert_eq!(out.len(), 26);
    assert_eq!(out[0], "00:00: line 0");
    assert_eq!(out[1], "1 < 2");
    assert_eq!(out[10], "09:09: line 9");
    let again = format!("{}\n{}", OPENING, subtitles);
    let second = format_cues(&parse_captions(&again), 10);
    assert_eq!(second.len(), out.len());
    for (i, line) in second.iter().enumerate() {
        assert_eq!(line.text, out[i]);
        assert_eq!(line.timestamp_prefix.is_some(), i % 10 == 0);
    }
    assert_eq!(second[0].render(), "00:00: 00:00: line 0");
    assert_eq!(OPENING, "00:00:00.000 --> 00:00:01.000");
}
