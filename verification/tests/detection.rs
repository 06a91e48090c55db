use mempal::detect::{
    classify, detect_format, extract_content_text, extract_message_text, is_chatgpt_json,
    is_claude_jsonl, is_codex_jsonl, is_slack_json, Format,
};
use mempal::json::{find_entry, parse_json, parse_lines, Json};

fn text(s: &str) -> Json {
    Json::Text(s.to_string())
}

fn object(entries: &[(&str, &str)]) -> Json {
    Json::Object(
        entries
            .iter()
            .map(|(key, value)| (key.to_string(), text(value)))
            .collect(),
    )
}

#[test]
fn claude_records_need_type_and_text() {
    let content = "{\"type\":\"human\",\"message\":\"hi\"}\n\n  {\"type\":\"assistant\",\"content\":[\"a\"]}\r\n";
    assert_eq!(detect_format(content), Format::ClaudeJsonl);
    assert_eq!(
        detect_format("{\"type\":\"human\",\"message\":\"hi\"}\n{\"type\":\"system\"}"),
        Format::PlainText
    );
    assert!(is_claude_jsonl(&vec![object(&[("message", "hi"), ("type", "human")])]));
    assert!(!is_claude_jsonl(&vec![object(&[("message", "hi")])]));
    assert!(!is_claude_jsonl(&vec![object(&[("type", "human")])]));
    assert!(!is_claude_jsonl(&vec![]));
}

#[test]
fn codex_records_need_session_and_activity() {
    let meta = || object(&[("type", "session_meta")]);
    for kind in ["event_msg", "response_item", "turn_context", "compacted"] {
        assert!(is_codex_jsonl(&vec![object(&[("type", kind)]), meta()]));
    }
    assert!(!is_codex_jsonl(&vec![meta()]));
    assert!(!is_codex_jsonl(&vec![object(&[("type", "event_msg")])]));
    assert!(!is_codex_jsonl(&vec![meta(), object(&[("type", "compacted")]), Json::Null]));
}

#[test]
fn unknown_codex_records_change_nothing() {
    let meta = || object(&[("type", "session_meta")]);
    let event = || object(&[("type", "event_msg")]);
    let newer = || object(&[("type", "from_a_newer_version")]);
    assert!(is_codex_jsonl(&vec![meta(), newer(), event()]));
    assert!(!is_codex_jsonl(&vec![meta(), newer()]));
}

#[test]
fn slack_message_counts_only_among_the_first_items() {
    let message = || object(&[("text", "hi"), ("type", "message"), ("user", "u")]);
    let filler = || Json::Null;
    let near = vec![filler(), filler(), filler(), filler(), message()];
    let far = vec![filler(), filler(), filler(), filler(), filler(), message()];
    assert!(is_slack_json(&Json::Array(near)));
    assert!(!is_slack_json(&Json::Array(far)));
    assert!(is_slack_json(&Json::Array(vec![object(&[
        ("text", "hi"),
        ("type", "message"),
        ("username", "u")
    ])])));
    assert!(!is_slack_json(&Json::Array(vec![object(&[("text", "hi"), ("type", "message")])])));
    assert!(!is_slack_json(&Json::Array(vec![object(&[("type", "message"), ("user", "u")])])));
    assert!(!is_slack_json(&Json::Array(vec![object(&[
        ("text", "hi"),
        ("type", "event"),
        ("user", "u")
    ])])));
    assert!(!is_slack_json(&message()));
}

#[test]
fn chatgpt_export_is_array_or_has_messages_or_mapping() {
    assert!(is_chatgpt_json(&Json::Array(vec![])));
    assert!(is_chatgpt_json(&object(&[("messages", "")])));
    assert!(is_chatgpt_json(&object(&[("mapping", "")])));
    assert!(!is_chatgpt_json(&object(&[("other", "")])));
    assert!(!is_chatgpt_json(&Json::Null));
}

#[test]
fn formats_are_tried_in_order() {
    let slack = r#"[{"type":"message","user":"u","text":"hi"}]"#;
    assert_eq!(detect_format(slack), Format::SlackJson);
    assert_eq!(detect_format("[]"), Format::ChatGptJson);
    assert_eq!(detect_format("{\"mapping\":{}}"), Format::ChatGptJson);
    assert_eq!(detect_format("{\"a\":1}"), Format::PlainText);
    assert_eq!(detect_format("just words"), Format::PlainText);
    assert_eq!(detect_format(""), Format::PlainText);
    assert_eq!(detect_format("  \n\t\n"), Format::PlainText);
    // Both kinds of records: the text of every record decides.
    let both = "{\"type\":\"session_meta\",\"message\":\"a\"}\n{\"type\":\"event_msg\",\"message\":\"b\"}";
    assert_eq!(detect_format(both), Format::ClaudeJsonl);
}

#[test]
fn classify_uses_records_before_the_document() {
    let records = || parse_lines("{\"type\":\"session_meta\"}\n{\"type\":\"compacted\"}");
    assert_eq!(classify(&records(), &Ok(Json::Array(vec![]))), Format::CodexJsonl);
    assert_eq!(classify(&parse_lines("{"), &Ok(Json::Array(vec![]))), Format::ChatGptJson);
    assert_eq!(classify(&parse_lines("{"), &parse_json("{")), Format::PlainText);
}

#[test]
fn content_text_of_each_kind() {
    assert_eq!(extract_content_text(&text(" a ")), Some(" a ".to_string()));
    let items = vec![
        text("a"),
        Json::Number,
        object(&[("text", "b")]),
        object(&[("other", "c")]),
    ];
    assert_eq!(extract_content_text(&Json::Array(items)), Some("a\nb".to_string()));
    assert_eq!(extract_content_text(&Json::Array(vec![])), Some(String::new()));
    let parts = |items: Vec<Json>| Json::Object(vec![("parts".to_string(), Json::Array(items))]);
    assert_eq!(
        extract_content_text(&parts(vec![text("x"), Json::Null, text("y")])),
        Some("x\ny".to_string())
    );
    assert_eq!(extract_content_text(&parts(vec![])), None);
    assert_eq!(extract_content_text(&parts(vec![text("")])), None);
    assert_eq!(extract_content_text(&parts(vec![object(&[("text", "x")])])), None);
    assert_eq!(extract_content_text(&object(&[("parts", "x")])), None);
    assert_eq!(extract_content_text(&Json::Bool(true)), None);
}

#[test]
fn message_text_prefers_the_message() {
    assert_eq!(
        extract_message_text(&object(&[("content", "c"), ("message", "m")])),
        Some("m".to_string())
    );
    assert_eq!(
        extract_message_text(&Json::Object(vec![
            ("content".to_string(), text("c")),
            ("message".to_string(), Json::Null),
        ])),
        Some("c".to_string())
    );
    assert_eq!(extract_message_text(&object(&[("other", "o")])), None);
}

#[test]
fn parsed_objects_have_ascending_keys() {
    let json = parse_json(r#"{"b":1,"a":[true,null,{"z":"1","y":"2"}],"b":"last"}"#).unwrap();
    let entries = json.as_object().unwrap();
    let keys: Vec<&str> = entries.iter().map(|(key, _)| key.as_str()).collect();
    assert_eq!(keys, ["a", "b"]);
    assert_eq!(json.str_at("b"), Some("last"));
    let items = json.get("a").unwrap().as_array().unwrap();
    assert!(matches!(items[0], Json::Bool(true)));
    assert!(matches!(items[1], Json::Null));
    let inner = items[2].as_object().unwrap();
    assert_eq!(inner[0].0, "y");
    assert!(find_entry(inner, "z").is_some());
    assert!(find_entry(inner, "x").is_none());
}

#[test]
fn lines_stop_at_the_first_that_is_no_json() {
    let records = parse_lines("1\r\n\r\n \u{3000}\n\"x\"\n").unwrap();
    assert_eq!(records.len(), 2);
    assert_eq!(records[1].as_str(), Some("x"));
    let error = parse_lines("1\n[1,\n{").unwrap_err();
    assert!(error.is_eof());
    assert_eq!(error.column(), 3);
}

#[test]
fn blank_lines_around_change_no_format() {
    let contents = [
        ("{\"type\":\"human\",\"message\":\"hi\"}", Format::ClaudeJsonl),
        (
            "{\"type\":\"session_meta\"}\n{\"type\":\"compacted\"}",
            Format::CodexJsonl,
        ),
        (
            "[{\"type\":\"message\",\"user\":\"u\",\"text\":\"hi\"}]",
            Format::SlackJson,
        ),
        ("{\"mapping\":\n{}}", Format::ChatGptJson),
        ("just words", Format::PlainText),
        ("", Format::PlainText),
    ];
    for (content, format) in contents {
        assert_eq!(detect_format(content), format);
        for space in ["\n", "\r\n", " \t\n", "\n\n \n"] {
            assert_eq!(detect_format(&format!("{space}{content}")), format);
            assert_eq!(detect_format(&format!("{content}{space}")), format);
        }
    }
}
