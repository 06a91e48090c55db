//! Recognises the format of a file from its content.

use crate::json;
use crate::json::{Json, JsonView};
use crate::text;
use vstd::prelude::*;

verus! {

/// The formats that can be told apart.
#[derive(Debug, Clone, Copy, PartialEq, Eq, Structural)]
pub enum Format {
    ClaudeJsonl,
    ChatGptJson,
    CodexJsonl,
    SlackJson,
    PlainText,
}

/// Items of an array that are looked at to tell a Slack export.
pub const SLACK_SAMPLE: usize = 5;

/// The text of one item of a content array: the item itself where it is a
/// string, else the string under its `text`.
pub open spec fn piece(item: JsonView) -> Option<Seq<char>> {
    match item.as_str() {
        Some(text) => Some(text),
        None => item.str_at("text"@),
    }
}

/// [`piece`] as a function value.
pub open spec fn piece_fn() -> spec_fn(JsonView) -> Option<Seq<char>> {
    |item: JsonView| piece(item)
}

/// [`JsonView::as_str`] as a function value.
pub open spec fn str_fn() -> spec_fn(JsonView) -> Option<Seq<char>> {
    |item: JsonView| item.as_str()
}

/// The text of a message's content: a string as it is; the texts of an array,
/// one per line; the string `parts` of an object, one per line, unless that is
/// nothing.
pub open spec fn content_text(value: JsonView) -> Option<Seq<char>> {
    match value {
        JsonView::Text(text) => Some(text),
        JsonView::Array(items) => Some(text::joined(items.filter_map(piece_fn()), "\n"@)),
        JsonView::Object(_) => match value.get("parts"@) {
            Some(JsonView::Array(parts)) => {
                let all = text::joined(parts.filter_map(str_fn()), "\n"@);
                if all.len() == 0 {
                    None
                } else {
                    Some(all)
                }
            },
            _ => None,
        },
        _ => None,
    }
}

/// The text of a value's `content`.
pub open spec fn content_of(value: JsonView) -> Option<Seq<char>> {
    match value.get("content"@) {
        Some(content) => content_text(content),
        None => None,
    }
}

/// The text of a record: its `message` where that is a string, else the text of
/// its `content`.
pub open spec fn message_text(value: JsonView) -> Option<Seq<char>> {
    match value.str_at("message"@) {
        Some(text) => Some(text),
        None => content_of(value),
    }
}

/// Records of a `ClaudeJsonl` file: at least one, each with a type and a text.
pub open spec fn claude_shape(records: Seq<JsonView>) -> bool {
    &&& records.len() > 0
    &&& forall|i: int|
        0 <= i < records.len() ==> {
            &&& (#[trigger] records[i]).str_at("type"@) is Some
            &&& message_text(records[i]) is Some
        }
}

/// The record opens a Codex session.
pub open spec fn is_session_meta(record: JsonView) -> bool {
    record.str_at("type"@) == Some("session_meta"@)
}

/// The record reports activity in a Codex session.
pub open spec fn is_activity(record: JsonView) -> bool {
    ||| record.str_at("type"@) == Some("event_msg"@)
    ||| record.str_at("type"@) == Some("response_item"@)
    ||| record.str_at("type"@) == Some("turn_context"@)
    ||| record.str_at("type"@) == Some("compacted"@)
}

/// Records of a Codex rollout: each with a type, one that opens the session and
/// one that reports activity. Records of other types are tolerated.
pub open spec fn codex_shape(records: Seq<JsonView>) -> bool {
    &&& forall|i: int|
        0 <= i < records.len() ==> (#[trigger] records[i]).str_at("type"@) is Some
    &&& exists|i: int| 0 <= i < records.len() && is_session_meta(#[trigger] records[i])
    &&& exists|i: int| 0 <= i < records.len() && is_activity(#[trigger] records[i])
}

/// A Slack message: it says so, and has a speaker and a text.
pub open spec fn is_slack_message(value: JsonView) -> bool {
    &&& value.str_at("type"@) == Some("message"@)
    &&& value.get("user"@) is Some || value.get("username"@) is Some
    &&& value.get("text"@) is Some
}

/// A Slack export: an array with a message among its first items.
pub open spec fn slack_shape(document: JsonView) -> bool {
    &&& document is Array
    &&& exists|i: int|
        0 <= i < document->Array_0.len() && i < SLACK_SAMPLE && is_slack_message(
            #[trigger] document->Array_0[i],
        )
}

/// A ChatGPT export: an array, or an object with `messages` or `mapping`.
pub open spec fn chatgpt_shape(document: JsonView) -> bool {
    ||| document is Array
    ||| document.get("messages"@) is Some
    ||| document.get("mapping"@) is Some
}

/// The format of a file, from its records and from its content as one document.
pub open spec fn format_of(
    records: Result<Seq<JsonView>, serde_json::Error>,
    document: Result<JsonView, serde_json::Error>,
) -> Format {
    if records matches Ok(records) && claude_shape(records) {
        Format::ClaudeJsonl
    } else if records matches Ok(records) && codex_shape(records) {
        Format::CodexJsonl
    } else if document matches Ok(document) && slack_shape(document) {
        Format::SlackJson
    } else if document matches Ok(document) && chatgpt_shape(document) {
        Format::ChatGptJson
    } else {
        Format::PlainText
    }
}

/// The format of a file with this content.
pub open spec fn detected(content: Seq<char>) -> Format {
    format_of(json::json_records(content), json::json_result(content))
}

/// The texts of the items of a content array.
fn collect_pieces(items: &Vec<Json>) -> (r: Vec<String>)
    ensures
        text::strings(r@) == json::items_view(items@).filter_map(piece_fn()),
{
    let ghost views = json::items_view(items@);
    let mut texts: Vec<String> = Vec::new();
    let mut i: usize = 0;
    while i < items.len()
        invariant
            i <= items.len(),
            views == json::items_view(items@),
            text::strings(texts@) == views.take(i as int).filter_map(piece_fn()),
        decreases items.len() - i,
    {
        proof {
            views.lemma_filter_map_take_succ(piece_fn(), i as int);
        }
        let found = match items[i].as_str() {
            Some(text) => Some(text),
            None => items[i].str_at("text"),
        };
        if let Some(text) = found {
            let owned = text.to_owned();
            proof {
                assert(text::strings(texts@.push(owned)) =~= text::strings(texts@).push(owned@));
            }
            texts.push(owned);
        }
        i += 1;
    }
    assert(views.take(views.len() as int) =~= views);
    texts
}

/// The strings among `items`.
fn collect_strs(items: &Vec<Json>) -> (r: Vec<String>)
    ensures
        text::strings(r@) == json::items_view(items@).filter_map(str_fn()),
{
    let ghost views = json::items_view(items@);
    let mut texts: Vec<String> = Vec::new();
    let mut i: usize = 0;
    while i < items.len()
        invariant
            i <= items.len(),
            views == json::items_view(items@),
            text::strings(texts@) == views.take(i as int).filter_map(str_fn()),
        decreases items.len() - i,
    {
        proof {
            views.lemma_filter_map_take_succ(str_fn(), i as int);
        }
        if let Some(text) = items[i].as_str() {
            let owned = text.to_owned();
            proof {
                assert(text::strings(texts@.push(owned)) =~= text::strings(texts@).push(owned@));
            }
            texts.push(owned);
        }
        i += 1;
    }
    assert(views.take(views.len() as int) =~= views);
    texts
}

/// The text of a message's content.
pub fn extract_content_text(value: &Json) -> (r: Option<String>)
    ensures
        text::opt_string(r) == content_text(value@),
{
    match value {
        Json::Text(text) => Some(text.clone()),
        Json::Array(items) => {
            proof {
                json::lemma_array_view(*items);
            }
            let texts = collect_pieces(items);
            Some(text::join_strings(&texts, "\n"))
        },
        Json::Object(_) => match value.get("parts") {
            Some(Json::Array(parts)) => {
                proof {
                    json::lemma_array_view(*parts);
                }
                let texts = collect_strs(parts);
                let all = text::join_strings(&texts, "\n");
                if all.as_str().is_empty() {
                    None
                } else {
                    Some(all)
                }
            },
            _ => None,
        },
        _ => None,
    }
}

/// The text of a value's `content`.
pub fn extract_content_of(value: &Json) -> (r: Option<String>)
    ensures
        text::opt_string(r) == content_of(value@),
{
    match value.get("content") {
        Some(content) => extract_content_text(content),
        None => None,
    }
}

/// The text of a record.
pub fn extract_message_text(value: &Json) -> (r: Option<String>)
    ensures
        text::opt_string(r) == message_text(value@),
{
    match value.str_at("message") {
        Some(text) => Some(text.to_owned()),
        None => extract_content_of(value),
    }
}

/// Whether these are the records of a `ClaudeJsonl` file.
pub fn is_claude_jsonl(records: &Vec<Json>) -> (r: bool)
    ensures
        r == claude_shape(json::items_view(records@)),
{
    let ghost views = json::items_view(records@);
    let mut i: usize = 0;
    while i < records.len()
        invariant
            i <= records.len(),
            views == json::items_view(records@),
            forall|k: int|
                0 <= k < i ==> {
                    &&& (#[trigger] views[k]).str_at("type"@) is Some
                    &&& message_text(views[k]) is Some
                },
        decreases records.len() - i,
    {
        proof {
            assert(views[i as int] == records@[i as int]@);
        }
        if records[i].str_at("type").is_none() {
            return false;
        }
        if extract_message_text(&records[i]).is_none() {
            return false;
        }
        i += 1;
    }
    records.len() > 0
}

/// Whether these are the records of a Codex rollout.
pub fn is_codex_jsonl(records: &Vec<Json>) -> (r: bool)
    ensures
        r == codex_shape(json::items_view(records@)),
{
    let ghost views = json::items_view(records@);
    let mut has_session_meta = false;
    let mut has_activity = false;
    let mut i: usize = 0;
    while i < records.len()
        invariant
            i <= records.len(),
            views == json::items_view(records@),
            forall|k: int| 0 <= k < i ==> (#[trigger] views[k]).str_at("type"@) is Some,
            has_session_meta == exists|k: int| 0 <= k < i && is_session_meta(#[trigger] views[k]),
            has_activity == exists|k: int| 0 <= k < i && is_activity(#[trigger] views[k]),
        decreases records.len() - i,
    {
        proof {
            assert(views[i as int] == records@[i as int]@);
        }
        match records[i].str_at("type") {
            Some(kind) => {
                if *kind == *"session_meta" {
                    has_session_meta = true;
                }
                if *kind == *"event_msg" || *kind == *"response_item" || *kind == *"turn_context"
                    || *kind == *"compacted" {
                    has_activity = true;
                }
            },
            None => {
                return false;
            },
        }
        i += 1;
    }
    has_session_meta && has_activity
}

/// Whether this document is a Slack export.
pub fn is_slack_json(document: &Json) -> (r: bool)
    ensures
        r == slack_shape(document@),
{
    match document {
        Json::Array(items) => {
            proof {
                json::lemma_array_view(*items);
            }
            let ghost views = json::items_view(items@);
            let mut i: usize = 0;
            while i < items.len() && i < SLACK_SAMPLE
                invariant
                    i <= items.len(),
                    i <= SLACK_SAMPLE,
                    views == json::items_view(items@),
                    document@ == JsonView::Array(views),
                    forall|k: int| 0 <= k < i ==> !is_slack_message(#[trigger] views[k]),
                decreases items.len() - i,
            {
                proof {
                    assert(views[i as int] == items@[i as int]@);
                }
                let msg = &items[i];
                let says_message = match msg.str_at("type") {
                    Some(kind) => *kind == *"message",
                    None => false,
                };
                if says_message && (msg.get("user").is_some() || msg.get("username").is_some())
                    && msg.get("text").is_some() {
                    assert(is_slack_message(document@->Array_0[i as int]));
                    return true;
                }
                i += 1;
            }
            false
        },
        _ => false,
    }
}

/// Whether this document is a ChatGPT export.
pub fn is_chatgpt_json(document: &Json) -> (r: bool)
    ensures
        r == chatgpt_shape(document@),
{
    let is_array = match document {
        Json::Array(_) => true,
        _ => false,
    };
    is_array || document.get("messages").is_some() || document.get("mapping").is_some()
}

/// The format of a file, from its records and from its content as one document.
pub fn classify(
    records: &Result<Vec<Json>, serde_json::Error>,
    document: &Result<Json, serde_json::Error>,
) -> (r: Format)
    ensures
        r == format_of(json::records_outcome(*records), json::json_outcome(*document)),
{
    if let Ok(records) = records {
        if is_claude_jsonl(records) {
            return Format::ClaudeJsonl;
        }
        if is_codex_jsonl(records) {
            return Format::CodexJsonl;
        }
    }
    if let Ok(document) = document {
        if is_slack_json(document) {
            return Format::SlackJson;
        }
        if is_chatgpt_json(document) {
            return Format::ChatGptJson;
        }
    }
    Format::PlainText
}

/// The format of a file with this content. White space around the content, as
/// far as it is JSON's too, makes no difference.
pub fn detect_format(content: &str) -> (r: Format)
    ensures
        r == detected(content@),
        r == detected(json::stripped(content@)),
{
    proof {
        text::lemma_solid_lines_without_ends(content@, json::json_space());
    }
    let records = json::parse_lines(content);
    let document = json::parse_json(content);
    classify(&records, &document)
}

} // verus!
