//! What the text of a conversation is, by the JSON that it was told in.

use super::raw;
use crate::chatgpt;
use crate::chatgpt::ThreadView;
use crate::detect;
use crate::detect::Format;
use crate::json;
use crate::json::JsonView;
use crate::normalize;
use crate::normalize::NormalizeError;
use crate::text;
use crate::transcript;
use crate::transcript::{Message, MessageView};
use vstd::prelude::*;

verus! {

/// What a message adds to a transcript: nothing where it is blank, else its text
/// without the white space around it, with a mark before it where the user
/// speaks.
pub open spec fn line_of(by_user: bool, content: Seq<char>) -> Option<Seq<char>> {
    if raw::is_blank(content) {
        None
    } else if by_user {
        Some("> "@ + raw::kernel(content))
    } else {
        Some(raw::kernel(content))
    }
}

/// A transcript once one more line was added to it.
pub open spec fn with_line(before: Seq<char>, line: Option<Seq<char>>) -> Seq<char> {
    if line is None {
        before
    } else if before.len() == 0 {
        line->0
    } else {
        before + "\n"@ + line->0
    }
}

/// Both roles that stand for the user.
pub open spec fn names_user(role: Seq<char>) -> bool {
    role == "user"@ || role == "human"@
}

/// Each message adds its own line at the end of a transcript, and changes
/// nothing before it. A conversation without messages has no text.
pub proof fn transcripts_grow_line_by_line(messages: Seq<MessageView>, next: MessageView)
    ensures
        transcript::transcript(seq![]) == Seq::<char>::empty(),
        transcript::transcript(messages.push(next)) == with_line(
            transcript::transcript(messages),
            line_of(names_user(next.role), next.content),
        ),
{
    let f = transcript::rendered_fn();
    let all = messages.push(next);
    let lines = messages.filter_map(f);
    raw::trimming_leaves_the_core(next.content);
    assert(all.drop_last() =~= messages);
    assert(Seq::<MessageView>::empty().filter_map(f) =~= seq![]);
    super::lemma_rendered_has_solid_ends(messages);
    super::lemma_joined_has_solid_ends(lines, "\n"@);
    if let Some(line) = transcript::rendered(next) {
        assert(all.filter_map(f) =~= lines.push(line));
        raw::joining_keeps_every_part(lines, seq![line], "\n"@, line);
        assert(lines + seq![line] =~= lines.push(line));
        if lines.len() == 0 {
            assert(lines.push(line) =~= seq![line]);
        }
    } else {
        assert(all.filter_map(f) =~= lines);
    }
}

/// Lists of messages show what the messages hold, all of them and in order.
pub proof fn messages_show_what_they_hold(messages: Seq<Message>)
    ensures
        transcript::messages_view(messages).len() == messages.len(),
        forall|i: int|
            0 <= i < messages.len() ==> {
                &&& transcript::messages_view(messages)[i].role == (#[trigger] messages[i]).role@
                &&& transcript::messages_view(messages)[i].content == messages[i].content@
            },
{
}

/// What an item of a content list says: itself where it is a string, else the
/// string under its `text`.
pub open spec fn item_says(item: JsonView) -> Option<Seq<char>> {
    if item is Text {
        Some(item->Text_0)
    } else {
        raw::text_under(item, "text"@)
    }
}

/// One of the items says something.
pub open spec fn some_say(items: Seq<JsonView>) -> bool {
    exists|i: int| 0 <= i < items.len() && item_says(#[trigger] items[i]) is Some
}

/// A string is its own text. Numbers, booleans and null have none.
pub proof fn strings_are_their_own_text(value: JsonView)
    ensures
        value is Text ==> detect::content_text(value) == Some(value->Text_0),
        value is Null || value is Bool || value is Number ==> detect::content_text(value) is None,
{
}

proof fn lemma_pieces(items: Seq<JsonView>)
    ensures
        items.filter_map(detect::piece_fn()).len() > 0 <==> some_say(items),
    decreases items.len(),
{
    if items.len() > 0 {
        let before = items.drop_last();
        lemma_pieces(before);
        raw::lemma_reads(items.last());
        assert(items[items.len() - 1] == items.last());
        if some_say(before) {
            let i = choose|i: int| 0 <= i < before.len() && item_says(#[trigger] before[i]) is Some;
            assert(item_says(items[i]) is Some);
        }
        if some_say(items) && item_says(items.last()) is None {
            let i = choose|i: int| 0 <= i < items.len() && item_says(#[trigger] items[i]) is Some;
            assert(item_says(before[i]) is Some);
        }
    }
}

/// The text of a list is what its items say, one below the other and in order:
/// nothing is left out, and what says nothing leaves no trace.
pub proof fn lists_say_what_their_items_say(a: Seq<JsonView>, item: JsonView, b: Seq<JsonView>)
    ensures
        detect::content_text(JsonView::Array(seq![])) == Some(Seq::<char>::empty()),
        item_says(item) is Some ==> detect::content_text(JsonView::Array(seq![item])) == item_says(
            item,
        ),
        item_says(item) is None ==> detect::content_text(JsonView::Array(a + seq![item] + b))
            == detect::content_text(JsonView::Array(a + b)),
        detect::content_text(JsonView::Array(a)) is Some,
        detect::content_text(JsonView::Array(b)) is Some,
        some_say(a) && some_say(b) ==> detect::content_text(JsonView::Array(a + b)) == Some(
            detect::content_text(JsonView::Array(a))->0 + "\n"@ + detect::content_text(
                JsonView::Array(b),
            )->0,
        ),
{
    let f = detect::piece_fn();
    raw::lemma_reads(item);
    lemma_pieces(a);
    lemma_pieces(b);
    assert(Seq::<JsonView>::empty().filter_map(f) =~= seq![]);
    Seq::<JsonView>::lemma_filter_map_singleton(item, f);
    if item_says(item) is None {
        super::lemma_filter_map_without(a, item, b, f);
    }
    text::lemma_filter_map_add(a, b, f);
    raw::joining_keeps_every_part(a.filter_map(f), b.filter_map(f), "\n"@, seq![]);
}

/// The strings among the items.
pub open spec fn strings_among(items: Seq<JsonView>) -> Seq<JsonView> {
    items.filter(|item: JsonView| item is Text)
}

proof fn lemma_strings_among(items: Seq<JsonView>)
    ensures
        strings_among(items).filter_map(detect::piece_fn()) == items.filter_map(detect::str_fn()),
    decreases items.len(),
{
    reveal(Seq::filter);
    let f = detect::piece_fn();
    if items.len() == 0 {
        assert(strings_among(items) =~= seq![]);
        assert(Seq::<JsonView>::empty().filter_map(f) =~= seq![]);
        assert(items.filter_map(detect::str_fn()) =~= seq![]);
    } else {
        let before = items.drop_last();
        lemma_strings_among(before);
        if items.last() is Text {
            let strings = strings_among(before);
            assert(strings_among(items) =~= strings.push(items.last()));
            assert(strings.push(items.last()).drop_last() =~= strings);
        }
    }
}

/// The text of an object is that of the strings in the array under its `parts`;
/// it has none where there is no such array or nothing is in it to be read.
pub proof fn objects_say_what_their_parts_say(value: JsonView)
    requires
        value is Object,
    ensures
        raw::list_under(value, "parts"@) is None ==> detect::content_text(value) is None,
        raw::list_under(value, "parts"@) matches Some(parts) ==> {
            let all = detect::content_text(JsonView::Array(strings_among(parts)))->0;
            detect::content_text(value) == if all.len() == 0 {
                None
            } else {
                Some(all)
            }
        },
{
    raw::lemma_reads(value);
    if let Some(parts) = raw::list_under(value, "parts"@) {
        lemma_strings_among(parts);
    }
}

/// The text under `content`.
pub open spec fn content_under(value: JsonView) -> Option<Seq<char>> {
    if raw::under(value, "content"@) is Some {
        detect::content_text(raw::under(value, "content"@)->0)
    } else {
        None
    }
}

/// The text of a record: the string under `message`, and without one the text
/// under `content`.
pub open spec fn record_says(record: JsonView) -> Option<Seq<char>> {
    if raw::text_under(record, "message"@) is Some {
        raw::text_under(record, "message"@)
    } else {
        content_under(record)
    }
}

/// The text of a record is the string under its `message` or, without one, the
/// text under its `content`.
pub proof fn records_say_their_message_or_content(record: JsonView)
    ensures
        detect::message_text(record) == record_says(record),
        detect::content_of(record) == content_under(record),
{
    raw::lemma_reads(record);
}

/// The text of a `ClaudeJsonl` file.
pub open spec fn claude_text(records: Seq<JsonView>) -> Seq<char> {
    transcript::transcript(normalize::claude_messages(records))
}

/// Each record of a `ClaudeJsonl` file adds a line with its text, unless that is
/// blank. The line is marked exactly where the record's `type` is `user` or
/// `human`.
pub proof fn claude_records_add_their_lines(records: Seq<JsonView>, next: JsonView)
    ensures
        claude_text(seq![]) == Seq::<char>::empty(),
        claude_text(records.push(next)) == with_line(
            claude_text(records),
            if record_says(next) is Some {
                line_of(
                    raw::text_under(next, "type"@) == Some("user"@) || raw::text_under(
                        next,
                        "type"@,
                    ) == Some("human"@),
                    record_says(next)->0,
                )
            } else {
                None
            },
        ),
{
    let message = normalize::claude_message(next);
    raw::lemma_reads(next);
    records_say_their_message_or_content(next);
    lemma_roles();
    assert(normalize::claude_messages(records.push(next)) =~= normalize::claude_messages(
        records,
    ).push(message));
    assert(normalize::claude_messages(seq![]) =~= seq![]);
    transcripts_grow_line_by_line(normalize::claude_messages(records), message);
}

proof fn lemma_roles()
    ensures
        !names_user("assistant"@),
        names_user("user"@),
{
    reveal_strlit("user");
    reveal_strlit("human");
    reveal_strlit("assistant");
    assert("assistant"@.len() != "user"@.len());
    assert("assistant"@.len() != "human"@.len());
}

/// What a response item of a Codex rollout says: the text under `content` of its
/// payload, which is a message by the user or the assistant.
pub open spec fn response_says(record: JsonView) -> Option<MessageView> {
    let payload = raw::under(record, "payload"@)->0;
    let role = raw::text_under(payload, "role"@)->0;
    if raw::text_under(record, "type"@) == Some("response_item"@) && raw::under(
        record,
        "payload"@,
    ) is Some && raw::text_under(payload, "type"@) == Some("message"@) && raw::text_under(
        payload,
        "role"@,
    ) is Some && (role == "user"@ || role == "assistant"@) && content_under(payload) is Some
        && !raw::is_blank(content_under(payload)->0) {
        Some(MessageView { role, content: raw::kernel(content_under(payload)->0) })
    } else {
        None
    }
}

/// What an event of a Codex rollout says: the string under `message` of its
/// payload, which is a message of the user or of the agent.
pub open spec fn event_says(record: JsonView) -> Option<MessageView> {
    let payload = raw::under(record, "payload"@)->0;
    let kind = raw::text_under(payload, "type"@);
    let said = raw::text_under(payload, "message"@);
    if raw::text_under(record, "type"@) == Some("event_msg"@) && raw::under(
        record,
        "payload"@,
    ) is Some && said is Some && !raw::is_blank(said->0) {
        if kind == Some("user_message"@) {
            Some(MessageView { role: "user"@, content: raw::kernel(said->0) })
        } else if kind == Some("agent_message"@) {
            Some(MessageView { role: "assistant"@, content: raw::kernel(said->0) })
        } else {
            None
        }
    } else {
        None
    }
}

/// One of the records is a response item that says something.
pub open spec fn some_respond(records: Seq<JsonView>) -> bool {
    exists|i: int| 0 <= i < records.len() && response_says(#[trigger] records[i]) is Some
}

proof fn lemma_codex_record(record: JsonView)
    ensures
        normalize::codex_response(record) == response_says(record),
        normalize::codex_event(record) == event_says(record),
{
    raw::lemma_reads(record);
    reveal_strlit("user_message");
    reveal_strlit("agent_message");
    assert("user_message"@.len() != "agent_message"@.len());
    if let Some(payload) = record.get("payload"@) {
        raw::lemma_reads(payload);
        records_say_their_message_or_content(payload);
        if let Some(content) = content_under(payload) {
            raw::trimming_leaves_the_core(content);
        }
        raw::trimming_leaves_the_core(normalize::or_empty(payload.str_at("message"@)));
    }
}

proof fn lemma_responses(records: Seq<JsonView>)
    ensures
        records.filter_map(normalize::response_fn()).len() > 0 <==> some_respond(records),
    decreases records.len(),
{
    if records.len() > 0 {
        let before = records.drop_last();
        lemma_responses(before);
        lemma_codex_record(records.last());
        assert(records[records.len() - 1] == records.last());
        if some_respond(before) {
            let i = choose|i: int|
                0 <= i < before.len() && response_says(#[trigger] before[i]) is Some;
            assert(response_says(records[i]) is Some);
        }
        if some_respond(records) && response_says(records.last()) is None {
            let i = choose|i: int|
                0 <= i < records.len() && response_says(#[trigger] records[i]) is Some;
            assert(response_says(before[i]) is Some);
        }
    }
}

/// The text of a Codex rollout.
pub open spec fn codex_text(records: Seq<JsonView>) -> Seq<char> {
    transcript::transcript(normalize::codex_messages(records))
}

/// Each response item of a Codex rollout adds exactly its own message, after
/// those of all response items before it; the first one puts an end to what
/// events said. As long as no response item says anything, each event adds
/// exactly its own message. All other records add nothing.
pub proof fn codex_records_add_their_messages(records: Seq<JsonView>, next: JsonView)
    ensures
        normalize::codex_messages(seq![]) == Seq::<MessageView>::empty(),
        response_says(next) is Some ==> normalize::codex_messages(records.push(next))
            == if some_respond(records) {
            normalize::codex_messages(records).push(response_says(next)->0)
        } else {
            seq![response_says(next)->0]
        },
        response_says(next) is None && (some_respond(records) || event_says(next) is None)
            ==> normalize::codex_messages(records.push(next)) == normalize::codex_messages(records),
        response_says(next) is None && !some_respond(records) && event_says(next) is Some
            ==> normalize::codex_messages(records.push(next)) == normalize::codex_messages(
            records,
        ).push(event_says(next)->0),
{
    let all = records.push(next);
    let responses = records.filter_map(normalize::response_fn());
    let events = records.filter_map(normalize::event_fn());
    assert(Seq::<JsonView>::empty().filter_map(normalize::response_fn()) =~= seq![]);
    assert(Seq::<JsonView>::empty().filter_map(normalize::event_fn()) =~= seq![]);
    lemma_codex_record(next);
    lemma_responses(records);
    lemma_responses(all);
    assert(all.drop_last() =~= records);
    if let Some(message) = normalize::codex_response(next) {
        assert(all.filter_map(normalize::response_fn()) =~= responses.push(message));
        if responses.len() == 0 {
            assert(responses.push(message) =~= seq![message]);
        }
    } else {
        assert(all.filter_map(normalize::response_fn()) =~= responses);
    }
    if let Some(message) = normalize::codex_event(next) {
        assert(all.filter_map(normalize::event_fn()) =~= events.push(message));
    } else {
        assert(all.filter_map(normalize::event_fn()) =~= events);
    }
}

/// Each response item of a Codex rollout adds its line, marked where the user
/// speaks, after those of all response items before it; without any, each event
/// adds its line.
pub proof fn codex_records_add_their_lines(records: Seq<JsonView>, next: JsonView)
    ensures
        codex_text(seq![]) == Seq::<char>::empty(),
        response_says(next) matches Some(message) ==> codex_text(records.push(next))
            == with_line(
            if some_respond(records) {
                codex_text(records)
            } else {
                seq![]
            },
            line_of(message.role == "user"@, message.content),
        ),
        response_says(next) is None && (some_respond(records) || event_says(next) is None)
            ==> codex_text(records.push(next)) == codex_text(records),
        response_says(next) is None && !some_respond(records) ==> (event_says(next) matches Some(
            message,
        ) ==> codex_text(records.push(next)) == with_line(
            codex_text(records),
            line_of(message.role == "user"@, message.content),
        )),
{
    codex_records_add_their_messages(records, next);
    lemma_roles();
    let none: Seq<MessageView> = seq![];
    if let Some(message) = response_says(next) {
        transcripts_grow_line_by_line(normalize::codex_messages(records), message);
        transcripts_grow_line_by_line(none, message);
        assert(none.push(message) =~= seq![message]);
    } else if let Some(message) = event_says(next) {
        transcripts_grow_line_by_line(normalize::codex_messages(records), message);
    } else {
        transcripts_grow_line_by_line(none, MessageView { role: seq![], content: seq![] });
    }
    transcripts_grow_line_by_line(none, MessageView { role: seq![], content: seq![] });
}

/// The item of a Slack export is a message that says something.
pub open spec fn is_post(item: JsonView) -> bool {
    &&& raw::text_under(item, "type"@) == Some("message"@)
    &&& raw::text_under(item, "text"@) is Some
    &&& !raw::is_blank(raw::text_under(item, "text"@)->0)
}

/// The name of who speaks: the whole string under `user`, or under `username`
/// where there is no `user` at all.
pub open spec fn speaker_of(item: JsonView) -> Seq<char> {
    let key = if raw::under(item, "user"@) is Some {
        "user"@
    } else {
        "username"@
    };
    if raw::text_under(item, key) is Some {
        raw::text_under(item, key)->0
    } else {
        "unknown"@
    }
}

/// The item at `i` is the first that says something.
pub open spec fn is_first_post(items: Seq<JsonView>, i: int) -> bool {
    &&& 0 <= i < items.len()
    &&& is_post(items[i])
    &&& forall|j: int| 0 <= j < i ==> !is_post(#[trigger] items[j])
}

/// The next item would be spoken by the user: by who spoke first, itself where
/// nobody spoke before.
pub open spec fn speaks_as_first(items: Seq<JsonView>, next: JsonView) -> bool {
    forall|i: int| #[trigger]
        is_first_post(items, i) ==> speaker_of(next) == speaker_of(items[i])
}

proof fn lemma_post(item: JsonView)
    ensures
        normalize::slack_post(item) is Some <==> is_post(item),
        normalize::slack_post(item) matches Some(post) ==> {
            &&& post.speaker == speaker_of(item)
            &&& post.text == raw::kernel(raw::text_under(item, "text"@)->0)
        },
{
    raw::lemma_reads(item);
    raw::trimming_leaves_the_core(normalize::or_empty(item.str_at("text"@)));
}

proof fn lemma_posts(items: Seq<JsonView>)
    ensures
        ({
            let posts = items.filter_map(normalize::post_fn());
            &&& posts.len() == 0 <==> forall|i: int| 0 <= i < items.len() ==> !is_post(#[trigger] items[i])
            &&& posts.len() > 0 ==> exists|i: int| #[trigger] is_first_post(items, i)
            &&& forall|i: int| #[trigger]
                is_first_post(items, i) ==> posts.len() > 0 && posts[0].speaker == speaker_of(
                    items[i],
                )
        }),
    decreases items.len(),
{
    let posts = items.filter_map(normalize::post_fn());
    if items.len() > 0 {
        let before = items.drop_last();
        let earlier = before.filter_map(normalize::post_fn());
        let n = before.len() as int;
        lemma_posts(before);
        lemma_post(items.last());
        assert(items[n] == items.last());
        assert forall|i: int| 0 <= i < n implies items[i] == before[i] by {}
        if is_post(items.last()) {
            assert(posts =~= earlier.push(normalize::slack_post(items.last())->0));
        } else {
            assert(posts =~= earlier);
        }
        if earlier.len() > 0 {
            let i = choose|i: int| #[trigger] is_first_post(before, i);
            assert(is_first_post(items, i)) by {
                assert(items[i] == before[i]);
            }
            assert forall|k: int| #[trigger] is_first_post(items, k) implies posts.len() > 0
                && posts[0].speaker == speaker_of(items[k]) by {
                assert(is_post(items[i]));
                if k > i {
                    assert(!is_post(items[i]));
                } else if k < i {
                    assert(is_post(items[k]));
                }
                assert(posts[0] == earlier[0]);
            }
            assert(!(forall|k: int| 0 <= k < items.len() ==> !is_post(#[trigger] items[k]))) by {
                assert(is_post(items[i]));
            }
        } else {
            assert forall|k: int| 0 <= k < n implies !is_post(#[trigger] items[k]) by {
                assert(!is_post(before[k]));
            }
            if is_post(items.last()) {
                assert(is_first_post(items, n));
                assert forall|k: int| #[trigger] is_first_post(items, k) implies posts.len() > 0
                    && posts[0].speaker == speaker_of(items[k]) by {
                    if k < n {
                        assert(!is_post(items[k]));
                    }
                }
            } else {
                assert forall|k: int| #[trigger] is_first_post(items, k) implies false by {
                    assert(is_post(items[k]));
                }
            }
        }
    } else {
        assert(posts =~= seq![]);
    }
}

/// The text of the items of a Slack export.
pub open spec fn slack_text(items: Seq<JsonView>) -> Seq<char> {
    transcript::transcript(normalize::slack_messages(items))
}

/// Each message of a Slack export that is not blank adds a line with its text,
/// marked exactly where its speaker's whole name is that of who spoke first.
/// Other items add nothing.
pub proof fn slack_items_add_their_lines(items: Seq<JsonView>, next: JsonView)
    ensures
        slack_text(seq![]) == Seq::<char>::empty(),
        slack_text(items.push(next)) == with_line(
            slack_text(items),
            if is_post(next) {
                line_of(speaks_as_first(items, next), raw::text_under(next, "text"@)->0)
            } else {
                None
            },
        ),
{
    let f = normalize::post_fn();
    let all = items.push(next);
    let posts = items.filter_map(f);
    let messages = normalize::slack_messages(items);
    let none: Seq<MessageView> = seq![];
    lemma_post(next);
    lemma_posts(items);
    lemma_roles();
    assert(all.drop_last() =~= items);
    assert(normalize::slack_messages(seq![]) =~= none) by {
        assert(Seq::<JsonView>::empty().filter_map(f) =~= seq![]);
    }
    transcripts_grow_line_by_line(none, MessageView { role: seq![], content: seq![] });
    if let Some(post) = normalize::slack_post(next) {
        let said = raw::text_under(next, "text"@)->0;
        assert(all.filter_map(f) =~= posts.push(post));
        let message = normalize::slack_messages(all).last();
        assert(normalize::slack_messages(all) =~= messages.push(message)) by {
            if posts.len() > 0 {
                assert(posts.push(post)[0] == posts[0]);
            }
        }
        assert(names_user(message.role) <==> speaks_as_first(items, next)) by {
            if posts.len() > 0 {
                let i = choose|i: int| #[trigger] is_first_post(items, i);
                assert(posts.push(post)[0] == posts[0]);
                assert(posts[0].speaker == speaker_of(items[i]));
            } else {
                assert forall|i: int| #[trigger] is_first_post(items, i) implies false by {
                    assert(is_post(items[i]));
                }
            }
        }
        raw::trimming_leaves_the_core(said);
        transcripts_grow_line_by_line(messages, message);
    } else {
        assert(all.filter_map(f) =~= posts);
    }
}

/// What an item of a message list says, and in which role.
pub open spec fn listed_says(item: JsonView) -> Option<MessageView> {
    if raw::text_under(item, "role"@) is Some && content_under(item) is Some {
        Some(
            MessageView {
                role: raw::text_under(item, "role"@)->0,
                content: content_under(item)->0,
            },
        )
    } else {
        None
    }
}

/// Each item of a message list that has a role and a content adds exactly its
/// own message; others add nothing.
pub proof fn listed_items_add_their_messages(items: Seq<JsonView>, next: JsonView)
    ensures
        chatgpt::listed_messages(seq![]) == Seq::<MessageView>::empty(),
        chatgpt::listed_messages(items.push(next)) == if listed_says(next) is Some {
            chatgpt::listed_messages(items).push(listed_says(next)->0)
        } else {
            chatgpt::listed_messages(items)
        },
{
    let f = chatgpt::listed_fn();
    let all = items.push(next);
    raw::lemma_reads(next);
    records_say_their_message_or_content(next);
    assert(all.drop_last() =~= items);
    assert(Seq::<JsonView>::empty().filter_map(f) =~= seq![]);
    if let Some(message) = chatgpt::listed_message(next) {
        assert(all.filter_map(f) =~= items.filter_map(f).push(message));
    } else {
        assert(all.filter_map(f) =~= items.filter_map(f));
    }
}

/// Each item of a message list adds a line with its text, marked exactly where
/// its `role` is `user` or `human`; others add nothing.
pub proof fn listed_items_add_their_lines(items: Seq<JsonView>, next: JsonView)
    ensures
        transcript::transcript(chatgpt::listed_messages(seq![])) == Seq::<char>::empty(),
        transcript::transcript(chatgpt::listed_messages(items.push(next))) == with_line(
            transcript::transcript(chatgpt::listed_messages(items)),
            if listed_says(next) is Some {
                line_of(names_user(listed_says(next)->0.role), listed_says(next)->0.content)
            } else {
                None
            },
        ),
{
    listed_items_add_their_messages(items, next);
    let message = listed_says(next)->0;
    transcripts_grow_line_by_line(chatgpt::listed_messages(items), message);
}

/// A ChatGPT document is read as a message list where it is an array or has one
/// under `messages`, and else as a mapping where it has an object under
/// `mapping`; there is no other way.
pub proof fn documents_are_read_as_what_they_hold(document: JsonView)
    ensures
        document is Array ==> chatgpt::thread(document) == ThreadView::Messages(
            chatgpt::listed_messages(document->Array_0),
        ),
        raw::list_under(document, "messages"@) matches Some(items) ==> chatgpt::thread(document)
            == ThreadView::Messages(chatgpt::listed_messages(items)),
        !(document is Array) && raw::list_under(document, "messages"@) is None ==> match raw::under(
            document,
            "mapping"@,
        ) {
            Some(JsonView::Object(mapping)) => chatgpt::thread(document)
                == match chatgpt::mapped_messages(mapping) {
                Some(messages) => ThreadView::Messages(messages),
                None => ThreadView::Endless,
            },
            _ => chatgpt::thread(document) is Unsupported,
        },
{
    raw::lemma_reads(document);
}

/// A content is normalized by its format: plain text is trimmed; a `ClaudeJsonl`
/// file and a Codex rollout are read line by line, and fail as the first bad line
/// does; a Slack or ChatGPT export is read as one document, and fails as that
/// does, or for its shape.
pub proof fn contents_are_normalized_by_their_format(content: Seq<char>)
    ensures
        normalize::normalized(content, Format::PlainText) == Some(
            Ok::<_, NormalizeError>(raw::kernel(content)),
        ),
        json::json_records(content) matches Ok(records) ==> {
            &&& normalize::normalized(content, Format::ClaudeJsonl) == Some(
                Ok::<_, NormalizeError>(claude_text(records)),
            )
            &&& normalize::normalized(content, Format::CodexJsonl) == Some(
                Ok::<_, NormalizeError>(codex_text(records)),
            )
        },
        json::json_records(content) matches Err(error) ==> {
            &&& normalize::normalized(content, Format::ClaudeJsonl) == Some(
                Err::<Seq<char>, _>(NormalizeError::Json(error)),
            )
            &&& normalize::normalized(content, Format::CodexJsonl) == Some(
                Err::<Seq<char>, _>(NormalizeError::Json(error)),
            )
        },
        json::json_result(content) matches Ok(document) ==> {
            &&& normalize::normalized(content, Format::SlackJson) == Some(
                if document is Array {
                    Ok(slack_text(document->Array_0))
                } else {
                    Err(NormalizeError::UnsupportedChatGptShape)
                },
            )
            &&& normalize::normalized(content, Format::ChatGptJson) == match chatgpt::thread(
                document,
            ) {
                ThreadView::Messages(messages) => Some(
                    Ok(transcript::transcript(messages)),
                ),
                ThreadView::Unsupported => Some(Err(NormalizeError::UnsupportedChatGptShape)),
                ThreadView::Endless => None,
            }
        },
        json::json_result(content) matches Err(error) ==> {
            &&& normalize::normalized(content, Format::SlackJson) == Some(
                Err::<Seq<char>, _>(NormalizeError::Json(error)),
            )
            &&& normalize::normalized(content, Format::ChatGptJson) == Some(
                Err::<Seq<char>, _>(NormalizeError::Json(error)),
            )
        },
{
    raw::trimming_leaves_the_core(content);
}

} // verus!
