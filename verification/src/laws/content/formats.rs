//! Which format a content has, by the JSON in it.

use super::conversations;
use super::raw;
use crate::detect;
use crate::detect::Format;
use crate::json;
use crate::json::JsonView;
use vstd::prelude::*;

verus! {

/// Records of a `ClaudeJsonl` file: there are some, and each of them has a string
/// under `type` and a text.
pub open spec fn are_claude_records(records: Seq<JsonView>) -> bool {
    &&& records.len() > 0
    &&& forall|i: int|
        0 <= i < records.len() ==> raw::text_under(#[trigger] records[i], "type"@) is Some
            && conversations::record_says(records[i]) is Some
}

/// Records of a Codex rollout: each has a string under `type`, one opens the
/// session and one is of a type that reports activity.
pub open spec fn are_codex_records(records: Seq<JsonView>) -> bool {
    &&& forall|i: int|
        0 <= i < records.len() ==> raw::text_under(#[trigger] records[i], "type"@) is Some
    &&& exists|i: int|
        0 <= i < records.len() && raw::text_under(#[trigger] records[i], "type"@) == Some(
            "session_meta"@,
        )
    &&& exists|i: int|
        0 <= i < records.len() && reports_activity(raw::text_under(#[trigger] records[i], "type"@)->0)
}

/// The types of records that report activity.
pub open spec fn reports_activity(kind: Seq<char>) -> bool {
    kind == "event_msg"@ || kind == "response_item"@ || kind == "turn_context"@ || kind
        == "compacted"@
}

/// A Slack export: an array, one of the first five items of which is a message
/// that has a speaker and a text.
pub open spec fn is_slack_document(document: JsonView) -> bool {
    &&& document is Array
    &&& exists|i: int|
        0 <= i < 5 && i < document->Array_0.len() && {
            let item = #[trigger] document->Array_0[i];
            &&& raw::text_under(item, "type"@) == Some("message"@)
            &&& raw::under(item, "user"@) is Some || raw::under(item, "username"@) is Some
            &&& raw::under(item, "text"@) is Some
        }
}

/// A ChatGPT export: any array, or an object with something under `messages` or
/// `mapping`.
pub open spec fn is_chatgpt_document(document: JsonView) -> bool {
    document is Array || raw::under(document, "messages"@) is Some || raw::under(
        document,
        "mapping"@,
    ) is Some
}

proof fn lemma_records(records: Seq<JsonView>)
    ensures
        detect::claude_shape(records) == are_claude_records(records),
        detect::codex_shape(records) == are_codex_records(records),
{
    assert forall|i: int| 0 <= i < records.len() implies (#[trigger] records[i]).str_at("type"@)
        == raw::text_under(records[i], "type"@) && detect::message_text(records[i])
        == conversations::record_says(records[i]) by {
        raw::lemma_reads(records[i]);
        conversations::records_say_their_message_or_content(records[i]);
    }
    if detect::codex_shape(records) {
        let i = choose|i: int|
            0 <= i < records.len() && detect::is_session_meta(#[trigger] records[i]);
        assert(raw::text_under(records[i], "type"@) == Some("session_meta"@));
        let k = choose|k: int| 0 <= k < records.len() && detect::is_activity(#[trigger] records[k]);
        assert(reports_activity(raw::text_under(records[k], "type"@)->0));
    }
    if are_codex_records(records) {
        let i = choose|i: int|
            0 <= i < records.len() && raw::text_under(#[trigger] records[i], "type"@) == Some(
                "session_meta"@,
            );
        assert(detect::is_session_meta(records[i]));
        let k = choose|k: int|
            0 <= k < records.len() && reports_activity(
                raw::text_under(#[trigger] records[k], "type"@)->0,
            );
        assert(raw::text_under(records[k], "type"@) is Some);
        assert(detect::is_activity(records[k]));
    }
}

proof fn lemma_document(document: JsonView)
    ensures
        detect::slack_shape(document) == is_slack_document(document),
        detect::chatgpt_shape(document) == is_chatgpt_document(document),
{
    raw::lemma_reads(document);
    if document is Array {
        let items = document->Array_0;
        assert forall|i: int| 0 <= i < items.len() implies detect::is_slack_message(
            #[trigger] items[i],
        ) == {
            &&& raw::text_under(items[i], "type"@) == Some("message"@)
            &&& raw::under(items[i], "user"@) is Some || raw::under(items[i], "username"@) is Some
            &&& raw::under(items[i], "text"@) is Some
        } by {
            raw::lemma_reads(items[i]);
        }
    }
}

/// Records are told by what every one of them holds, and documents by what they
/// hold.
pub proof fn shapes_are_told_by_what_is_held(records: Seq<JsonView>, document: JsonView)
    ensures
        detect::claude_shape(records) == are_claude_records(records),
        detect::codex_shape(records) == are_codex_records(records),
        detect::slack_shape(document) == is_slack_document(document),
        detect::chatgpt_shape(document) == is_chatgpt_document(document),
{
    lemma_records(records);
    lemma_document(document);
}

/// The format of a content is told by its records first, where every line is
/// JSON, and then by what it is as one document; all else is plain text.
pub proof fn formats_are_told_by_what_is_held(
    content: Seq<char>,
    records: Result<Seq<JsonView>, serde_json::Error>,
    document: Result<JsonView, serde_json::Error>,
)
    ensures
        detect::detected(content) == detect::format_of(
            json::json_records(content),
            json::json_result(content),
        ),
        ({
            let is_claude = records is Ok && are_claude_records(records->Ok_0);
            let is_codex = records is Ok && are_codex_records(records->Ok_0);
            let is_slack = document is Ok && is_slack_document(document->Ok_0);
            let is_chatgpt = document is Ok && is_chatgpt_document(document->Ok_0);
            let format = detect::format_of(records, document);
            &&& format == Format::ClaudeJsonl <==> is_claude
            &&& format == Format::CodexJsonl <==> is_codex && !is_claude
            &&& format == Format::SlackJson <==> is_slack && !is_claude && !is_codex
            &&& format == Format::ChatGptJson <==> is_chatgpt && !is_claude && !is_codex && !is_slack
        }),
{
    if let Ok(records) = records {
        lemma_records(records);
    }
    if let Ok(document) = document {
        lemma_document(document);
    }
}

} // verus!
