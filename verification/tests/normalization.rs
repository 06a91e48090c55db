use mempal::chatgpt::{extract_thread, find_root_node, Thread};
use mempal::detect::{detect_format, Format};
use mempal::json::{parse_json, Json};
use mempal::normalize::{
    is_endless, normalize_chatgpt_json, normalize_claude_jsonl, normalize_content,
    normalize_slack_json, render_chatgpt, render_claude, render_codex, render_slack,
    try_normalize_content, NormalizeError,
};
use mempal::text::{join_strings, nonblank_lines, replace_char};
use mempal::transcript::{render_transcript, Message};

fn message(role: &str, content: &str) -> Message {
    Message {
        role: role.to_string(),
        content: content.to_string(),
    }
}

#[test]
fn user_and_human_are_marked() {
    let items = vec![
        message("user", " a\nb "),
        message("human", "c"),
        message("assistant", "\td"),
        message("User", "e"),
    ];
    assert_eq!(render_transcript(&items), "> a\nb\n> c\nd\ne");
}

#[test]
fn blank_messages_are_left_out() {
    let items = vec![
        message("user", " \u{2003}\n"),
        message("assistant", "x"),
        message("user", ""),
    ];
    assert_eq!(render_transcript(&items), "x");
    assert_eq!(render_transcript(&vec![message("user", "\u{a0}")]), "");
    assert_eq!(render_transcript(&vec![]), "");
}

#[test]
fn plain_text_is_trimmed_once_and_for_all() {
    let once = normalize_content("\u{feff} \n a  b \u{85}\n", Format::PlainText).unwrap();
    assert_eq!(once, "\u{feff} \n a  b");
    let padded = normalize_content(" \u{1680}a\u{200a}", Format::PlainText).unwrap();
    assert_eq!(padded, "a");
    assert_eq!(normalize_content(&padded, Format::PlainText).unwrap(), "a");
}

#[test]
fn white_space_is_the_listed_set() {
    for code in 0..=0x10ffffu32 {
        if let Some(c) = char::from_u32(code) {
            let listed = matches!(code,
                0x09..=0x0d | 0x20 | 0x85 | 0xa0 | 0x1680 | 0x2000..=0x200a
                | 0x2028 | 0x2029 | 0x202f | 0x205f | 0x3000);
            assert_eq!(c.is_whitespace(), listed, "{code:x}");
        }
    }
}

#[test]
fn lines_end_at_line_feeds() {
    assert_eq!(nonblank_lines("a\r\n\n  b \rc\nd\r"), ["a", "b \rc", "d"]);
    assert!(nonblank_lines(" \n\r\n").is_empty());
    let parts = vec!["a".to_string(), String::new(), "b".to_string()];
    assert_eq!(join_strings(&parts, ", "), "a, , b");
    assert_eq!(join_strings(&vec![], ", "), "");
}

#[test]
fn claude_type_is_the_role() {
    let content = "{\"type\":\"human\",\"message\":\" hi \"}\n{\"type\":\"x\",\"content\":{\"parts\":[\"p\",\"q\"]}}\n{\"message\":\"m\"}\n{\"type\":\"user\"}";
    assert_eq!(normalize_claude_jsonl(content).unwrap(), "> hi\np\nq\nm");
    assert_eq!(render_claude(&vec![]), "");
}

#[test]
fn json_error_is_that_of_the_first_bad_line() {
    let outcome = normalize_content("{\"type\":\"user\"}\n[1,\nx", Format::ClaudeJsonl);
    match outcome {
        Err(NormalizeError::Json(error)) => assert!(error.is_eof()),
        other => panic!("unexpected {other:?}"),
    }
    assert!(matches!(
        normalize_content("x", Format::CodexJsonl),
        Err(NormalizeError::Json(_))
    ));
    assert!(matches!(
        normalize_content("x", Format::SlackJson),
        Err(NormalizeError::Json(_))
    ));
    assert!(matches!(
        normalize_content("x", Format::ChatGptJson),
        Err(NormalizeError::Json(_))
    ));
    let wrapped = NormalizeError::from(parse_json("{").unwrap_err());
    assert!(matches!(wrapped, NormalizeError::Json(_)));
}

#[test]
fn codex_keeps_only_spoken_messages() {
    let record = |s: &str| parse_json(s).unwrap();
    let response = |role: &str, text: &str| {
        record(&format!(
            r#"{{"type":"response_item","payload":{{"type":"message","role":"{role}","content":"{text}"}}}}"#
        ))
    };
    let records = vec![
        response("developer", "no"),
        response("user", "  "),
        response("user", " q "),
        record(r#"{"type":"response_item","payload":{"type":"reasoning","role":"user","content":"no"}}"#),
        record(r#"{"type":"response_item"}"#),
        record(r#"{"type":"newer","payload":{"type":"message","role":"user","content":"no"}}"#),
        record(r#"{"type":"event_msg","payload":{"type":"user_message","message":"no"}}"#),
        response("assistant", "a"),
    ];
    assert_eq!(render_codex(&records), "> q\na");
}

#[test]
fn codex_events_speak_where_no_response_item_does() {
    let record = |s: &str| parse_json(s).unwrap();
    let records = vec![
        record(r#"{"type":"event_msg","payload":{"type":"user_message","message":" q "}}"#),
        record(r#"{"type":"event_msg","payload":{"type":"token_count","message":"no"}}"#),
        record(r#"{"type":"event_msg","payload":{"type":"agent_message","message":"a"}}"#),
        record(r#"{"type":"event_msg","payload":{"type":"agent_message"}}"#),
        record(r#"{"type":"event_msg","payload":{"type":"agent_message","message":" "}}"#),
    ];
    assert_eq!(render_codex(&records), "> q\na");
}

#[test]
fn first_slack_speaker_asks() {
    let content = r#"[
        {"type":"join","user":"z","text":"no"},
        {"type":"message","user":"z","text":"  "},
        {"type":"message","user":"a","text":" one "},
        {"type":"message","username":"b","text":"two"},
        {"type":"message","user":7,"username":"a","text":"three"},
        {"type":"message","text":"four"},
        {"type":"message","username":"a","text":"five"},
        {"type":"message","user":"c"}
    ]"#;
    assert_eq!(normalize_slack_json(content).unwrap(), "> one\ntwo\nthree\nfour\n> five");
}

#[test]
fn slack_export_must_be_an_array() {
    assert!(matches!(
        render_slack(&Json::Null),
        Err(NormalizeError::UnsupportedChatGptShape)
    ));
    assert_eq!(render_slack(&Json::Array(vec![])).unwrap(), "");
}

#[test]
fn chatgpt_lists_in_either_place() {
    let list = r#"[{"role":"user","content":"q"},{"role":"assistant","content":{"parts":["a",1,"b"]}},{"content":"no"},{"role":"user"},{"role":"user","content":5}]"#;
    assert_eq!(normalize_chatgpt_json(list).unwrap(), "> q\na\nb");
    let wrapped = format!("{{\"mapping\":{{}},\"messages\":{list}}}");
    assert_eq!(normalize_chatgpt_json(&wrapped).unwrap(), "> q\na\nb");
}

fn node(parent: &str, role: &str, content: &str, children: &str) -> String {
    format!(
        r#"{{"parent":{parent},"message":{{"author":{{"role":"{role}"}},"content":"{content}"}},"children":{children}}}"#
    )
}

#[test]
fn chatgpt_mapping_is_walked_parents_first() {
    let content = format!(
        r#"{{"messages":"none","mapping":{{"d":{},"c":{},"b":{},"a":{}}}}}"#,
        node("\"a\"", "assistant", "four", "[]"),
        node("\"b\"", "user", "three", "[]"),
        node("\"a\"", "assistant", "two", "[\"c\",\"missing\",9]"),
        node("null", "user", "one", "[\"b\",\"d\"]"),
    );
    assert_eq!(detect_format(&content), Format::ChatGptJson);
    let expected = "> one\ntwo\n> three\nfour";
    assert_eq!(normalize_chatgpt_json(&content).unwrap(), expected);
    let checked = try_normalize_content(&content, Format::ChatGptJson);
    assert_eq!(checked.unwrap().unwrap(), expected);
}

#[test]
fn shared_nodes_are_walked_each_time() {
    let content = format!(
        r#"{{"mapping":{{"a":{},"b":{}}}}}"#,
        node("\"\"", "user", "one", "[\"b\",\"b\"]"),
        node("\"a\"", "assistant", "two", "[]"),
    );
    assert_eq!(normalize_chatgpt_json(&content).unwrap(), "> one\ntwo\ntwo");
}

#[test]
fn root_is_the_least_node_without_parent() {
    let mapping = |s: &str| parse_json(s).unwrap();
    let root = |s: &str| find_root_node(mapping(s).as_object().unwrap());
    assert_eq!(root(r#"{"c":{},"b":{"parent":null},"a":{"parent":"b"}}"#), Some("b".into()));
    assert_eq!(root(r#"{"b":{"parent":""},"c":{}}"#), Some("b".into()));
    assert_eq!(root(r#"{"b":{"parent":0},"c":5}"#), Some("c".into()));
    assert_eq!(root(r#"{"a":{"parent":"a"}}"#), None);
    assert_eq!(root("{}"), None);
    assert_eq!(
        normalize_chatgpt_json(r#"{"mapping":{"a":{"parent":"a"}}}"#).unwrap(),
        ""
    );
}

#[test]
fn endless_conversations_are_told() {
    let content = format!(
        r#"{{"mapping":{{"a":{},"b":{}}}}}"#,
        node("null", "user", "one", "[\"b\"]"),
        node("\"a\"", "assistant", "two", "[\"a\"]"),
    );
    assert!(is_endless(&content, Format::ChatGptJson));
    assert!(!is_endless(&content, Format::PlainText));
    assert!(try_normalize_content(&content, Format::ChatGptJson).is_none());
    let document = parse_json(&content).unwrap();
    assert!(matches!(extract_thread(&document), Thread::Endless));
    assert!(render_chatgpt(&document).is_none());
    let own = format!(r#"{{"mapping":{{"a":{}}}}}"#, node("null", "user", "one", "[\"a\"]"));
    assert!(is_endless(&own, Format::ChatGptJson));
}

#[test]
fn unsupported_chatgpt_shapes() {
    for content in ["{\"messages\":5}", "{\"mapping\":[]}", "{}", "5"] {
        assert!(matches!(
            try_normalize_content(content, Format::ChatGptJson),
            Some(Err(NormalizeError::UnsupportedChatGptShape))
        ));
    }
}

#[test]
fn detected_contents_normalize() {
    let contents = [
        "words",
        "{\"type\":\"user\",\"message\":\"m\"}",
        "{\"type\":\"session_meta\"}\n{\"type\":\"compacted\"}",
        "[{\"type\":\"message\",\"user\":\"u\",\"text\":\"t\"}]",
    ];
    for content in contents {
        let format = detect_format(content);
        assert_ne!(format, Format::ChatGptJson);
        assert!(normalize_content(content, format).is_ok());
    }
}

#[test]
fn normalized_contents_are_trimmed() {
    let contents = [
        (Format::PlainText, "\n words \n"),
        (
            Format::ClaudeJsonl,
            "{\"type\":\"x\",\"message\":\" \\na\\n \"}\n{\"type\":\"user\",\"message\":\" \"}",
        ),
        (
            Format::CodexJsonl,
            "{\"type\":\"event_msg\",\"payload\":{\"type\":\"agent_message\",\"message\":\"\\t a \"}}",
        ),
        (
            Format::SlackJson,
            "[{\"type\":\"message\",\"user\":\"u\",\"text\":\" t\\n\"}]",
        ),
        (
            Format::ChatGptJson,
            "[{\"role\":\"assistant\",\"content\":\"\\n a\\n\"}]",
        ),
    ];
    for (format, content) in contents {
        let text = normalize_content(content, format).unwrap();
        assert!(!text.is_empty());
        assert_eq!(text.trim(), text);
    }
}

#[test]
fn every_such_character_is_replaced() {
    assert_eq!(replace_char("a-b--\u{e9}-", '-', '\u{1f600}'), "a\u{1f600}b\u{1f600}\u{1f600}\u{e9}\u{1f600}");
    assert_eq!(replace_char("", '-', '+'), "");
    assert_eq!(replace_char("abc", '-', '+'), "abc");
}
