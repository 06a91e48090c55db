//! What holds of detection and normalization.

pub mod conversations;
pub mod formats;
pub mod raw;
pub mod trees;

use crate::chatgpt;
use crate::detect;
use crate::detect::Format;
use crate::json;
use crate::json::JsonView;
use crate::normalize;
use crate::normalize::NormalizeError;
use crate::text;
use crate::transcript;
use crate::transcript::MessageView;
use vstd::prelude::*;

verus! {

/// Trimmed text is not changed by trimming it again.
pub proof fn trimming_is_idempotent(s: Seq<char>)
    ensures
        text::trimmed(text::trimmed(s)) == text::trimmed(s),
{
    text::lemma_without_leading(s, text::white_space());
    text::lemma_without_trailing(
        text::without_leading(s, text::white_space()),
        text::white_space(),
    );
}

/// No line holds a line feed.
pub proof fn lines_hold_no_line_feed(s: Seq<char>, i: int)
    requires
        0 <= i < text::lines(s).len(),
    ensures
        !text::lines(s)[i].contains('\n'),
    decreases s.len(),
{
    let n = text::line_len(s) as int;
    lemma_line_len(s);
    if n >= s.len() {
        assert(text::lines(s)[i] == s);
    } else if i == 0 {
        let line = s.take(n);
        assert(text::lines(s)[0] == text::chomped(line));
        assert forall|k: int| 0 <= k < line.len() implies line[k] != '\n' by {
            assert(line[k] == s[k]);
        }
    } else {
        let rest = s.skip(n + 1);
        lines_hold_no_line_feed(rest, i - 1);
        assert(text::lines(s)[i] == text::lines(rest)[i - 1]);
    }
}

proof fn lemma_line_len(s: Seq<char>)
    ensures
        text::line_len(s) <= s.len(),
        forall|k: int| 0 <= k < text::line_len(s) ==> s[k] != '\n',
    decreases s.len(),
{
    if s.len() > 0 && s.first() != '\n' {
        let rest = s.drop_first();
        lemma_line_len(rest);
        assert forall|k: int| 0 <= k < text::line_len(s) implies s[k] != '\n' by {
            if k > 0 {
                assert(s[k] == rest[k - 1]);
            }
        }
    }
}

proof fn lemma_text_lt_irreflexive(a: Seq<char>)
    ensures
        !json::text_lt(a, a),
    decreases a.len(),
{
    if a.len() > 0 {
        lemma_text_lt_irreflexive(a.drop_first());
    }
}

/// In an object with ascending keys, every entry is found under its key.
pub proof fn every_entry_is_found(entries: Seq<(Seq<char>, JsonView)>, i: int)
    requires
        json::keys_ascend(entries),
        0 <= i < entries.len(),
    ensures
        json::lookup(entries, entries[i].0) == Some(entries[i].1),
    decreases entries.len(),
{
    if i > 0 {
        assert(json::text_lt(entries[0].0, entries[i].0));
        lemma_text_lt_irreflexive(entries[i].0);
        let rest = entries.drop_first();
        assert forall|k: int, l: int| 0 <= k < l < rest.len() implies json::text_lt(
            (#[trigger] rest[k]).0,
            (#[trigger] rest[l]).0,
        ) by {
            assert(json::text_lt(entries[k + 1].0, entries[l + 1].0));
        }
        every_entry_is_found(rest, i - 1);
        assert(rest[i - 1] == entries[i]);
    }
}

/// White space around a text changes neither its lines, blank ones left out and
/// the others trimmed, nor what the parser makes of them.
pub proof fn records_ignore_surrounding_space(before: Seq<char>, s: Seq<char>, after: Seq<char>)
    requires
        forall|i: int| 0 <= i < before.len() ==> text::is_white_space(#[trigger] before[i]),
        forall|i: int| 0 <= i < after.len() ==> text::is_white_space(#[trigger] after[i]),
    ensures
        text::solid_lines(before + s + after) == text::solid_lines(s),
        json::json_records(before + s + after) == json::json_records(s),
    decreases before.len() + after.len(),
{
    let whole = before + s + after;
    if before.len() > 0 {
        let rest = before.drop_first();
        assert forall|i: int| 0 <= i < rest.len() implies text::is_white_space(
            #[trigger] rest[i],
        ) by {
            assert(text::is_white_space(before[i + 1]));
        }
        assert(whole =~= seq![before.first()] + (rest + s + after));
        assert(text::is_white_space(before[0]));
        text::lemma_solid_lines_prepend(before.first(), rest + s + after);
        records_ignore_surrounding_space(rest, s, after);
    } else if after.len() > 0 {
        let rest = after.drop_last();
        assert forall|i: int| 0 <= i < rest.len() implies text::is_white_space(
            #[trigger] rest[i],
        ) by {
            assert(text::is_white_space(after[i]));
        }
        assert(whole =~= (before + s + rest).push(after.last()));
        assert(text::is_white_space(after[after.len() - 1]));
        text::lemma_solid_lines_push(before + s + rest, after.last());
        records_ignore_surrounding_space(before, s, rest);
    } else {
        assert(whole =~= s);
    }
}

/// JSON's white space around a text, blank lines among it, is left out by
/// [`json::stripped`].
pub proof fn stripping_ignores_surrounding_space(
    before: Seq<char>,
    s: Seq<char>,
    after: Seq<char>,
)
    requires
        forall|i: int| 0 <= i < before.len() ==> json::is_json_space(#[trigger] before[i]),
        forall|i: int| 0 <= i < after.len() ==> json::is_json_space(#[trigger] after[i]),
    ensures
        json::stripped(before + s + after) == json::stripped(s),
    decreases before.len() + after.len(),
{
    let whole = before + s + after;
    if before.len() > 0 {
        let rest = before.drop_first();
        assert forall|i: int| 0 <= i < rest.len() implies json::is_json_space(
            #[trigger] rest[i],
        ) by {
            assert(json::is_json_space(before[i + 1]));
        }
        assert(whole =~= seq![before.first()] + (rest + s + after));
        assert(json::is_json_space(before[0]));
        text::lemma_without_ends_prepend(before.first(), rest + s + after, json::json_space());
        stripping_ignores_surrounding_space(rest, s, after);
    } else if after.len() > 0 {
        let rest = after.drop_last();
        assert forall|i: int| 0 <= i < rest.len() implies json::is_json_space(
            #[trigger] rest[i],
        ) by {
            assert(json::is_json_space(after[i]));
        }
        assert(whole =~= (before + s + rest).push(after.last()));
        assert(json::is_json_space(after[after.len() - 1]));
        text::lemma_without_ends_push(before + s + rest, after.last(), json::json_space());
        stripping_ignores_surrounding_space(before, s, rest);
    } else {
        assert(whole =~= s);
    }
}

/// Blank lines around a content, and JSON's white space of any sort, do not
/// change the format that `detect_format` returns, which is that of the content
/// without them.
pub proof fn blank_lines_keep_the_format(before: Seq<char>, content: Seq<char>, after: Seq<char>)
    requires
        forall|i: int| 0 <= i < before.len() ==> json::is_json_space(#[trigger] before[i]),
        forall|i: int| 0 <= i < after.len() ==> json::is_json_space(#[trigger] after[i]),
    ensures
        detect::detected(json::stripped(before + content + after)) == detect::detected(
            json::stripped(content),
        ),
        json::parsed(json::json_result(before + content + after)) == json::parsed(
            json::json_result(content),
        ) ==> detect::detected(before + content + after) == detect::detected(content),
{
    stripping_ignores_surrounding_space(before, content, after);
    assert forall|i: int| 0 <= i < before.len() implies text::is_white_space(
        #[trigger] before[i],
    ) by {
        assert(json::is_json_space(before[i]));
    }
    assert forall|i: int| 0 <= i < after.len() implies text::is_white_space(
        #[trigger] after[i],
    ) by {
        assert(json::is_json_space(after[i]));
    }
    records_ignore_surrounding_space(before, content, after);
}

/// The text has no white space at either end.
spec fn has_solid_ends(s: Seq<char>) -> bool {
    s.len() > 0 ==> !text::is_white_space(s.first()) && !text::is_white_space(s.last())
}

proof fn lemma_trimmed_has_solid_ends(s: Seq<char>)
    ensures
        has_solid_ends(text::trimmed(s)),
        has_solid_ends(s) ==> text::trimmed(s) == s,
{
    text::lemma_without_leading(s, text::white_space());
    text::lemma_without_trailing(
        text::without_leading(s, text::white_space()),
        text::white_space(),
    );
}

proof fn lemma_joined_has_solid_ends(parts: Seq<Seq<char>>, sep: Seq<char>)
    requires
        forall|i: int|
            0 <= i < parts.len() ==> (#[trigger] parts[i]).len() > 0 && has_solid_ends(parts[i]),
    ensures
        parts.len() > 0 ==> text::joined(parts, sep).len() > 0,
        has_solid_ends(text::joined(parts, sep)),
    decreases parts.len(),
{
    if parts.len() == 1 {
        assert(has_solid_ends(parts[0]));
    } else if parts.len() > 1 {
        let before = parts.drop_last();
        assert forall|i: int| 0 <= i < before.len() implies (#[trigger] before[i]).len() > 0
            && has_solid_ends(before[i]) by {
            assert(has_solid_ends(parts[i]));
        }
        lemma_joined_has_solid_ends(before, sep);
        assert(has_solid_ends(parts[parts.len() - 1]));
        let all = text::joined(parts, sep);
        assert(all.first() == text::joined(before, sep).first());
        assert(all.last() == parts.last().last());
    }
}

proof fn lemma_rendered_has_solid_ends(messages: Seq<MessageView>)
    ensures
        forall|i: int|
            0 <= i < messages.filter_map(transcript::rendered_fn()).len() ==> {
                &&& (#[trigger] messages.filter_map(transcript::rendered_fn())[i]).len() > 0
                &&& has_solid_ends(messages.filter_map(transcript::rendered_fn())[i])
            },
    decreases messages.len(),
{
    if messages.len() > 0 {
        lemma_rendered_has_solid_ends(messages.drop_last());
        lemma_trimmed_has_solid_ends(messages.last().content);
        reveal_strlit("> ");
        if let Some(line) = transcript::rendered(messages.last()) {
            let body = text::trimmed(messages.last().content);
            assert(("> "@ + body).first() == '>');
            assert(("> "@ + body).last() == body.last());
            let before = messages.drop_last().filter_map(transcript::rendered_fn());
            assert(messages.filter_map(transcript::rendered_fn()) =~= before.push(line));
            assert(line.len() > 0 && has_solid_ends(line));
        }
        let before = messages.drop_last().filter_map(transcript::rendered_fn());
        let all = messages.filter_map(transcript::rendered_fn());
        assert forall|i: int| 0 <= i < all.len() implies (#[trigger] all[i]).len() > 0
            && has_solid_ends(all[i]) by {
            if i < before.len() {
                assert(all[i] == before[i]);
            }
        }
    }
}

/// A transcript has no white space at either end.
pub proof fn transcripts_are_trimmed(messages: Seq<MessageView>)
    ensures
        text::trimmed(transcript::transcript(messages)) == transcript::transcript(messages),
{
    lemma_rendered_has_solid_ends(messages);
    lemma_joined_has_solid_ends(messages.filter_map(transcript::rendered_fn()), "\n"@);
    lemma_trimmed_has_solid_ends(transcript::transcript(messages));
}

/// What a content of any format was normalized to has no white space at either
/// end, and is not changed by normalizing it again as plain text.
pub proof fn normalized_text_is_trimmed(content: Seq<char>, format: Format, text: Seq<char>)
    requires
        normalize::normalized(content, format) == Some(Ok::<_, NormalizeError>(text)),
    ensures
        text::trimmed(text) == text,
        normalize::normalized(text, Format::PlainText) == Some(Ok::<_, NormalizeError>(text)),
{
    trimming_is_idempotent(content);
    match format {
        Format::PlainText => {},
        Format::ClaudeJsonl => {
            let records = json::json_records(content)->Ok_0;
            transcripts_are_trimmed(normalize::claude_messages(records));
        },
        Format::CodexJsonl => {
            let records = json::json_records(content)->Ok_0;
            transcripts_are_trimmed(normalize::codex_messages(records));
        },
        Format::SlackJson => {
            let items = json::json_result(content)->Ok_0->Array_0;
            transcripts_are_trimmed(normalize::slack_messages(items));
        },
        Format::ChatGptJson => {
            let messages = chatgpt::thread(json::json_result(content)->Ok_0)->Messages_0;
            transcripts_are_trimmed(messages);
        },
    }
}

/// Plain text that was normalized is not changed by normalizing it again.
pub proof fn plain_text_is_stable(content: Seq<char>)
    ensures
        normalize::normalized(content, Format::PlainText) == Some(
            Ok::<_, NormalizeError>(text::trimmed(content)),
        ),
        normalize::normalized(text::trimmed(content), Format::PlainText) == normalize::normalized(
            content,
            Format::PlainText,
        ),
{
    trimming_is_idempotent(content);
}

/// A content normalizes in the format that was detected. Only an export that was
/// taken for ChatGPT's may fail, and only because neither it nor its `messages`
/// is an array and its `mapping` is no object.
pub proof fn detected_content_normalizes(content: Seq<char>)
    ensures
        detect::detected(content) != Format::ChatGptJson ==> {
            &&& normalize::normalized(content, detect::detected(content)) is Some
            &&& normalize::normalized(content, detect::detected(content))->0 is Ok
        },
        detect::detected(content) == Format::ChatGptJson ==> {
            let document = json::json_result(content)->Ok_0;
            &&& json::json_result(content) is Ok
            &&& normalize::normalized(content, Format::ChatGptJson) matches Some(outcome) ==> {
                &&& outcome is Err ==> outcome->Err_0 == NormalizeError::UnsupportedChatGptShape
                &&& outcome is Err <==> {
                    &&& document.as_array() is None
                    &&& !(document.get("messages"@) matches Some(JsonView::Array(_)))
                    &&& !(document.get("mapping"@) matches Some(JsonView::Object(_)))
                }
            }
        },
{
}

/// An element that maps to nothing can be left out.
proof fn lemma_filter_map_without<A, B>(a: Seq<A>, x: A, b: Seq<A>, f: spec_fn(A) -> Option<B>)
    requires
        f(x) is None,
    ensures
        (a + seq![x] + b).filter_map(f) == (a + b).filter_map(f),
{
    text::lemma_filter_map_add(a + seq![x], b, f);
    text::lemma_filter_map_add(a, seq![x], f);
    text::lemma_filter_map_add(a, b, f);
    Seq::<A>::lemma_filter_map_singleton(x, f);
    assert(a.filter_map(f) + Seq::<B>::empty() =~= a.filter_map(f));
}

/// A record of a type that is not known, wherever it stands, changes neither
/// whether records are a Codex rollout nor what the rollout says.
pub proof fn unknown_codex_records_are_tolerated(
    before: Seq<JsonView>,
    record: JsonView,
    after: Seq<JsonView>,
)
    requires
        record.str_at("type"@) is Some,
        !detect::is_session_meta(record),
        !detect::is_activity(record),
    ensures
        detect::codex_shape(before + seq![record] + after) == detect::codex_shape(before + after),
        normalize::codex_messages(before + seq![record] + after) == normalize::codex_messages(
            before + after,
        ),
{
    let longer = before + seq![record] + after;
    let shorter = before + after;
    let n = before.len() as int;
    assert forall|i: int| 0 <= i < shorter.len() implies shorter[i] == longer[if i < n {
        i
    } else {
        i + 1
    }] by {}
    assert forall|i: int| 0 <= i < longer.len() && i != n implies longer[i] == shorter[if i < n {
        i
    } else {
        i - 1
    }] by {}
    assert(longer[n] == record);
    if detect::codex_shape(longer) {
        assert forall|i: int| 0 <= i < shorter.len() implies (#[trigger] shorter[i]).str_at(
            "type"@,
        ) is Some by {
            assert(longer[if i < n {
                i
            } else {
                i + 1
            }].str_at("type"@) is Some);
        }
        let m = choose|i: int| 0 <= i < longer.len() && detect::is_session_meta(#[trigger] longer[i]);
        assert(detect::is_session_meta(shorter[if m < n {
            m
        } else {
            m - 1
        }]));
        let k = choose|i: int| 0 <= i < longer.len() && detect::is_activity(#[trigger] longer[i]);
        assert(detect::is_activity(shorter[if k < n {
            k
        } else {
            k - 1
        }]));
    }
    if detect::codex_shape(shorter) {
        assert forall|i: int| 0 <= i < longer.len() implies (#[trigger] longer[i]).str_at(
            "type"@,
        ) is Some by {
            if i != n {
                assert(shorter[if i < n {
                    i
                } else {
                    i - 1
                }].str_at("type"@) is Some);
            }
        }
        let m = choose|i: int|
            0 <= i < shorter.len() && detect::is_session_meta(#[trigger] shorter[i]);
        assert(detect::is_session_meta(longer[if m < n {
            m
        } else {
            m + 1
        }]));
        let k = choose|i: int| 0 <= i < shorter.len() && detect::is_activity(#[trigger] shorter[i]);
        assert(detect::is_activity(longer[if k < n {
            k
        } else {
            k + 1
        }]));
    }
    lemma_filter_map_without(before, record, after, normalize::response_fn());
    lemma_filter_map_without(before, record, after, normalize::event_fn());
}

/// Where a Codex rollout has response items, what its events say is left out: a
/// record that is no response item, wherever it stands, changes nothing.
pub proof fn response_items_override_events(
    before: Seq<JsonView>,
    record: JsonView,
    after: Seq<JsonView>,
)
    requires
        (before + after).filter_map(normalize::response_fn()).len() > 0,
        normalize::codex_response(record) is None,
    ensures
        normalize::codex_messages(before + seq![record] + after) == normalize::codex_messages(
            before + after,
        ),
{
    lemma_filter_map_without(before, record, after, normalize::response_fn());
}

/// A blank message, wherever it stands, leaves no trace in a transcript.
pub proof fn blank_messages_leave_no_trace(
    before: Seq<MessageView>,
    message: MessageView,
    after: Seq<MessageView>,
)
    requires
        text::trimmed(message.content).len() == 0,
    ensures
        transcript::transcript(before + seq![message] + after) == transcript::transcript(
            before + after,
        ),
{
    lemma_filter_map_without(before, message, after, transcript::rendered_fn());
}

/// A transcript is empty exactly where every message is blank.
pub proof fn only_blank_conversations_are_empty(messages: Seq<MessageView>)
    ensures
        transcript::transcript(messages).len() == 0 <==> forall|i: int|
            0 <= i < messages.len() ==> text::trimmed((#[trigger] messages[i]).content).len() == 0,
{
    let lines = messages.filter_map(transcript::rendered_fn());
    lemma_rendered_lines(messages);
    lemma_rendered_has_solid_ends(messages);
    lemma_joined_has_solid_ends(lines, "\n"@);
}

proof fn lemma_rendered_lines(messages: Seq<MessageView>)
    ensures
        messages.filter_map(transcript::rendered_fn()).len() == 0 <==> forall|i: int|
            0 <= i < messages.len() ==> text::trimmed((#[trigger] messages[i]).content).len() == 0,
    decreases messages.len(),
{
    if messages.len() > 0 {
        let before = messages.drop_last();
        lemma_rendered_lines(before);
        assert forall|i: int| 0 <= i < before.len() implies before[i] == messages[i] by {}
        let lines = before.filter_map(transcript::rendered_fn());
        let all = messages.filter_map(transcript::rendered_fn());
        assert(messages[messages.len() - 1] == messages.last());
        if all.len() == 0 {
            assert forall|i: int| 0 <= i < messages.len() implies text::trimmed(
                (#[trigger] messages[i]).content,
            ).len() == 0 by {
                if i < before.len() {
                    assert(text::trimmed(before[i].content).len() == 0);
                }
            }
        } else if text::trimmed(messages.last().content).len() == 0 {
            let i = choose|i: int|
                0 <= i < before.len() && text::trimmed((#[trigger] before[i]).content).len() != 0;
            assert(text::trimmed(messages[i].content).len() != 0);
        }
    }
}

/// Who speaks first in a Slack export is the user throughout, and everybody else
/// the assistant.
pub proof fn first_slack_speaker_is_the_user(items: Seq<JsonView>, i: int)
    requires
        0 <= i < items.filter_map(normalize::post_fn()).len(),
    ensures
        ({
            let posts = items.filter_map(normalize::post_fn());
            let messages = normalize::slack_messages(items);
            &&& messages.len() == posts.len()
            &&& messages[i].content == posts[i].text
            &&& transcript::is_user_role(messages[i].role) <==> posts[i].speaker == posts[0].speaker
        }),
{
    reveal_strlit("user");
    reveal_strlit("human");
    reveal_strlit("assistant");
    assert("assistant"@.len() != "user"@.len());
    assert("assistant"@.len() != "human"@.len());
}

/// Every message that a walk gives is that of a node of the mapping.
pub proof fn walked_messages_are_those_of_nodes(
    mapping: Seq<(Seq<char>, JsonView)>,
    id: Seq<char>,
    depth: nat,
    k: int,
)
    requires
        chatgpt::walk(mapping, id, depth) is Some,
        0 <= k < chatgpt::walk(mapping, id, depth)->0.len(),
    ensures
        exists|i: int|
            0 <= i < mapping.len() && chatgpt::node_message((#[trigger] mapping[i]).1) == Some(
                chatgpt::walk(mapping, id, depth)->0[k],
            ),
    decreases depth, 0nat,
{
    let node = json::lookup(mapping, id)->0;
    let own = chatgpt::own_messages(node);
    if k < own.len() {
        json::lemma_lookup(mapping, id);
        let i = choose|i: int| 0 <= i < mapping.len() && #[trigger] mapping[i] == (id, node);
        assert(chatgpt::node_message(mapping[i].1) == Some(own[0]));
    } else {
        lemma_walk_all_nodes(
            mapping,
            chatgpt::children(node),
            (depth - 1) as nat,
            k - own.len(),
        );
    }
}

proof fn lemma_walk_all_nodes(
    mapping: Seq<(Seq<char>, JsonView)>,
    ids: Seq<Seq<char>>,
    depth: nat,
    k: int,
)
    requires
        chatgpt::walk_all(mapping, ids, depth) is Some,
        0 <= k < chatgpt::walk_all(mapping, ids, depth)->0.len(),
    ensures
        exists|i: int|
            0 <= i < mapping.len() && chatgpt::node_message((#[trigger] mapping[i]).1) == Some(
                chatgpt::walk_all(mapping, ids, depth)->0[k],
            ),
    decreases depth, ids.len(),
{
    let before = chatgpt::walk_all(mapping, ids.drop_last(), depth)->0;
    if k < before.len() {
        lemma_walk_all_nodes(mapping, ids.drop_last(), depth, k);
    } else {
        walked_messages_are_those_of_nodes(mapping, ids.last(), depth, k - before.len());
    }
}

} // verus!
