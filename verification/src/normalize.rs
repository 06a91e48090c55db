//! Turns the content of a file of a known format into plain text.

use crate::chatgpt;
use crate::chatgpt::{Thread, ThreadView};
use crate::detect;
use crate::detect::Format;
use crate::json;
use crate::json::{Json, JsonView};
use crate::text;
use crate::transcript;
use crate::transcript::{Message, MessageView};
use vstd::prelude::*;

verus! {

/// Why a content has no plain text.
#[derive(Debug)]
pub enum NormalizeError {
    /// It is not the JSON that its format asks for.
    Json(serde_json::Error),
    /// It is JSON of an unsupported shape.
    UnsupportedChatGptShape,
}

impl From<serde_json::Error> for NormalizeError {
    fn from(error: serde_json::Error) -> (r: NormalizeError) {
        NormalizeError::Json(error)
    }
}

impl vstd::std_specs::convert::FromSpecImpl<serde_json::Error> for NormalizeError {
    open spec fn obeys_from_spec() -> bool {
        true
    }

    open spec fn from_spec(error: serde_json::Error) -> NormalizeError {
        NormalizeError::Json(error)
    }
}

/// The outcome of a normalization, with the text taken by what it holds.
pub open spec fn text_outcome(outcome: Result<String, NormalizeError>) -> Result<
    Seq<char>,
    NormalizeError,
> {
    match outcome {
        Ok(text) => Ok(text@),
        Err(error) => Err(error),
    }
}

/// The text, or nothing.
pub open spec fn or_empty(text: Option<Seq<char>>) -> Seq<char> {
    match text {
        Some(text) => text,
        None => seq![],
    }
}

/// The message of a record of a `ClaudeJsonl` file: its type is the role.
pub open spec fn claude_message(record: JsonView) -> MessageView {
    MessageView {
        role: match record.str_at("type"@) {
            Some(role) => role,
            None => "assistant"@,
        },
        content: or_empty(detect::message_text(record)),
    }
}

/// The messages of a `ClaudeJsonl` file.
pub open spec fn claude_messages(records: Seq<JsonView>) -> Seq<MessageView> {
    records.map_values(|record: JsonView| claude_message(record))
}

/// The message of a Codex response item, where it is one: by the user or the
/// assistant, and not blank.
pub open spec fn response_message(payload: JsonView) -> Option<MessageView> {
    match (payload.str_at("role"@), detect::content_of(payload)) {
        (Some(role), Some(content)) => if payload.str_at("type"@) == Some("message"@) && (role
            == "user"@ || role == "assistant"@) {
            match text::solid(content) {
                Some(content) => Some(MessageView { role, content }),
                None => None,
            }
        } else {
            None
        },
        _ => None,
    }
}

/// The message of a Codex event, where it is one, and not blank.
pub open spec fn event_message(payload: JsonView) -> Option<MessageView> {
    match text::solid(or_empty(payload.str_at("message"@))) {
        Some(content) => if payload.str_at("type"@) == Some("user_message"@) {
            Some(MessageView { role: "user"@, content })
        } else if payload.str_at("type"@) == Some("agent_message"@) {
            Some(MessageView { role: "assistant"@, content })
        } else {
            None
        },
        None => None,
    }
}

/// The message of a record of a Codex rollout that is a response item.
pub open spec fn codex_response(record: JsonView) -> Option<MessageView> {
    match record.get("payload"@) {
        Some(payload) => if record.str_at("type"@) == Some("response_item"@) {
            response_message(payload)
        } else {
            None
        },
        None => None,
    }
}

/// The message of a record of a Codex rollout that is an event.
pub open spec fn codex_event(record: JsonView) -> Option<MessageView> {
    match record.get("payload"@) {
        Some(payload) => if record.str_at("type"@) == Some("event_msg"@) {
            event_message(payload)
        } else {
            None
        },
        None => None,
    }
}

/// [`codex_response`] as a function value.
pub open spec fn response_fn() -> spec_fn(JsonView) -> Option<MessageView> {
    |record: JsonView| codex_response(record)
}

/// [`codex_event`] as a function value.
pub open spec fn event_fn() -> spec_fn(JsonView) -> Option<MessageView> {
    |record: JsonView| codex_event(record)
}

/// The messages of a Codex rollout: those of its response items, or where there
/// are none those of its events.
pub open spec fn codex_messages(records: Seq<JsonView>) -> Seq<MessageView> {
    if records.filter_map(response_fn()).len() > 0 {
        records.filter_map(response_fn())
    } else {
        records.filter_map(event_fn())
    }
}

/// A post in a Slack export.
pub struct PostView {
    pub speaker: Seq<char>,
    pub text: Seq<char>,
}

/// The speaker of a Slack message: `user` or, where there is no `user`,
/// `username`; `unknown` where that is no string.
pub open spec fn slack_speaker(item: JsonView) -> Seq<char> {
    let name = match item.get("user"@) {
        Some(name) => Some(name),
        None => item.get("username"@),
    };
    match name {
        Some(JsonView::Text(name)) => name,
        _ => "unknown"@,
    }
}

/// The post of an item of a Slack export: a message that is not blank.
pub open spec fn slack_post(item: JsonView) -> Option<PostView> {
    if item.str_at("type"@) == Some("message"@) {
        match text::solid(or_empty(item.str_at("text"@))) {
            Some(text) => Some(PostView { speaker: slack_speaker(item), text }),
            None => None,
        }
    } else {
        None
    }
}

/// [`slack_post`] as a function value.
pub open spec fn post_fn() -> spec_fn(JsonView) -> Option<PostView> {
    |item: JsonView| slack_post(item)
}

/// The messages of posts: who speaks first is the user, everybody else the
/// assistant.
pub open spec fn post_messages(posts: Seq<PostView>) -> Seq<MessageView> {
    posts.map_values(
        |post: PostView|
            MessageView {
                role: if post.speaker == posts[0].speaker {
                    "user"@
                } else {
                    "assistant"@
                },
                content: post.text,
            },
    )
}

/// The messages of a Slack export.
pub open spec fn slack_messages(items: Seq<JsonView>) -> Seq<MessageView> {
    post_messages(items.filter_map(post_fn()))
}

/// The text of a Slack export.
pub open spec fn slack_outcome(document: JsonView) -> Result<Seq<char>, NormalizeError> {
    match document {
        JsonView::Array(items) => Ok(transcript::transcript(slack_messages(items))),
        _ => Err(NormalizeError::UnsupportedChatGptShape),
    }
}

/// The text of a ChatGPT export; there is none to tell of where its conversation
/// does not end.
pub open spec fn chatgpt_outcome(document: JsonView) -> Option<Result<Seq<char>, NormalizeError>> {
    match chatgpt::thread(document) {
        ThreadView::Messages(messages) => Some(Ok(transcript::transcript(messages))),
        ThreadView::Unsupported => Some(Err(NormalizeError::UnsupportedChatGptShape)),
        ThreadView::Endless => None,
    }
}

/// The text of a file, from its trimmed content, its records and its content as
/// one document.
pub open spec fn outcome_of(
    body: Seq<char>,
    records: Result<Seq<JsonView>, serde_json::Error>,
    document: Result<JsonView, serde_json::Error>,
    format: Format,
) -> Option<Result<Seq<char>, NormalizeError>> {
    match format {
        Format::PlainText => Some(Ok(body)),
        Format::ClaudeJsonl => match records {
            Ok(records) => Some(Ok(transcript::transcript(claude_messages(records)))),
            Err(error) => Some(Err(NormalizeError::Json(error))),
        },
        Format::CodexJsonl => match records {
            Ok(records) => Some(Ok(transcript::transcript(codex_messages(records)))),
            Err(error) => Some(Err(NormalizeError::Json(error))),
        },
        Format::SlackJson => match document {
            Ok(document) => Some(slack_outcome(document)),
            Err(error) => Some(Err(NormalizeError::Json(error))),
        },
        Format::ChatGptJson => match document {
            Ok(document) => chatgpt_outcome(document),
            Err(error) => Some(Err(NormalizeError::Json(error))),
        },
    }
}

/// What becomes of a file with this content, taken to be of this format; `None`
/// where it holds a conversation that does not end.
pub open spec fn normalized(content: Seq<char>, format: Format) -> Option<
    Result<Seq<char>, NormalizeError>,
> {
    outcome_of(
        text::trimmed(content),
        json::json_records(content),
        json::json_result(content),
        format,
    )
}

/// The text of the records of a `ClaudeJsonl` file.
pub fn render_claude(records: &Vec<Json>) -> (r: String)
    ensures
        r@ == transcript::transcript(claude_messages(json::items_view(records@))),
{
    let ghost views = json::items_view(records@);
    let mut messages: Vec<Message> = Vec::new();
    let mut i: usize = 0;
    while i < records.len()
        invariant
            i <= records.len(),
            views == json::items_view(records@),
            messages@.len() == i,
            forall|k: int| 0 <= k < i ==> (#[trigger] messages@[k])@ == claude_message(views[k]),
        decreases records.len() - i,
    {
        let role = match records[i].str_at("type") {
            Some(role) => role.to_owned(),
            None => "assistant".to_owned(),
        };
        let content = match detect::extract_message_text(&records[i]) {
            Some(content) => content,
            None => String::new(),
        };
        messages.push(Message { role, content });
        i += 1;
    }
    assert(transcript::messages_view(messages@) =~= claude_messages(views));
    transcript::render_transcript(&messages)
}

/// The text of a `ClaudeJsonl` file.
pub fn normalize_claude_jsonl(content: &str) -> (r: Result<String, NormalizeError>)
    ensures
        Some(text_outcome(r)) == normalized(content@, Format::ClaudeJsonl),
{
    match json::parse_lines(content) {
        Ok(records) => Ok(render_claude(&records)),
        Err(error) => Err(NormalizeError::from(error)),
    }
}

/// A message that is not blank, with its content trimmed.
fn solid_message(role: &str, content: &str) -> (r: Option<Message>)
    ensures
        r is Some <==> text::solid(content@) is Some,
        r matches Some(message) ==> message@.role == role@ && text::solid(content@) == Some(
            message@.content,
        ),
{
    let body = content.trim();
    if body.is_empty() {
        None
    } else {
        Some(Message { role: role.to_owned(), content: body.to_owned() })
    }
}

/// What an optional message holds.
pub open spec fn opt_message(message: Option<Message>) -> Option<MessageView> {
    match message {
        Some(message) => Some(message@),
        None => None,
    }
}

/// The message of a Codex response item.
fn extract_response(payload: &Json) -> (r: Option<Message>)
    ensures
        opt_message(r) == response_message(payload@),
{
    let is_message = match payload.str_at("type") {
        Some(kind) => *kind == *"message",
        None => false,
    };
    if !is_message {
        return None;
    }
    match payload.str_at("role") {
        Some(role) => {
            if !(*role == *"user") && !(*role == *"assistant") {
                return None;
            }
            match detect::extract_content_of(payload) {
                Some(content) => solid_message(role, content.as_str()),
                None => None,
            }
        },
        None => None,
    }
}

/// The message of a Codex event.
fn extract_event(payload: &Json) -> (r: Option<Message>)
    ensures
        opt_message(r) == event_message(payload@),
{
    let message = match payload.str_at("message") {
        Some(message) => message,
        None => {
            return None;
        },
    };
    match payload.str_at("type") {
        Some(kind) => {
            if *kind == *"user_message" {
                solid_message("user", message)
            } else if *kind == *"agent_message" {
                solid_message("assistant", message)
            } else {
                None
            }
        },
        None => None,
    }
}

/// The text of the records of a Codex rollout.
pub fn render_codex(records: &Vec<Json>) -> (r: String)
    ensures
        r@ == transcript::transcript(codex_messages(json::items_view(records@))),
{
    let ghost views = json::items_view(records@);
    let mut response_items: Vec<Message> = Vec::new();
    let mut legacy_events: Vec<Message> = Vec::new();
    let mut i: usize = 0;
    while i < records.len()
        invariant
            i <= records.len(),
            views == json::items_view(records@),
            transcript::messages_view(response_items@) == views.take(i as int).filter_map(
                response_fn(),
            ),
            transcript::messages_view(legacy_events@) == views.take(i as int).filter_map(
                event_fn(),
            ),
        decreases records.len() - i,
    {
        let ghost responses = transcript::messages_view(response_items@);
        let ghost events = transcript::messages_view(legacy_events@);
        proof {
            assert(views[i as int] == records@[i as int]@);
            views.lemma_filter_map_take_succ(response_fn(), i as int);
            views.lemma_filter_map_take_succ(event_fn(), i as int);
        }
        if let (Some(payload), Some(kind)) = (records[i].get("payload"), records[i].str_at("type"))
        {
            if *kind == *"response_item" {
                if let Some(message) = extract_response(payload) {
                    response_items.push(message);
                    assert(transcript::messages_view(response_items@) =~= responses.push(message@));
                }
            }
            if *kind == *"event_msg" {
                if let Some(message) = extract_event(payload) {
                    legacy_events.push(message);
                    assert(transcript::messages_view(legacy_events@) =~= events.push(message@));
                }
            }
        }
        i += 1;
    }
    assert(views.take(views.len() as int) =~= views);
    if response_items.len() > 0 {
        transcript::render_transcript(&response_items)
    } else {
        transcript::render_transcript(&legacy_events)
    }
}

/// The text of a Codex rollout.
pub fn normalize_codex_jsonl(content: &str) -> (r: Result<String, NormalizeError>)
    ensures
        Some(text_outcome(r)) == normalized(content@, Format::CodexJsonl),
{
    match json::parse_lines(content) {
        Ok(records) => Ok(render_codex(&records)),
        Err(error) => Err(NormalizeError::from(error)),
    }
}

/// The name under which a Slack message was posted.
fn extract_speaker(item: &Json) -> (r: String)
    ensures
        r@ == slack_speaker(item@),
{
    let name = match item.get("user") {
        Some(name) => Some(name),
        None => item.get("username"),
    };
    match name {
        Some(Json::Text(name)) => name.clone(),
        _ => "unknown".to_owned(),
    }
}

/// The messages of the items of a Slack export.
fn collect_posts(items: &Vec<Json>) -> (r: Vec<Message>)
    ensures
        transcript::messages_view(r@) == slack_messages(json::items_view(items@)),
{
    let ghost views = json::items_view(items@);
    let mut first_speaker: Option<String> = None;
    let mut messages: Vec<Message> = Vec::new();
    let mut i: usize = 0;
    assert(transcript::messages_view(messages@) =~= post_messages(
        views.take(0).filter_map(post_fn()),
    ));
    while i < items.len()
        invariant
            i <= items.len(),
            views == json::items_view(items@),
            transcript::messages_view(messages@) == post_messages(
                views.take(i as int).filter_map(post_fn()),
            ),
            first_speaker is None <==> views.take(i as int).filter_map(post_fn()).len() == 0,
            first_speaker matches Some(first) ==> first@ == views.take(i as int).filter_map(
                post_fn(),
            )[0].speaker,
        decreases items.len() - i,
    {
        let item = &items[i];
        let ghost posts = views.take(i as int).filter_map(post_fn());
        let ghost before = transcript::messages_view(messages@);
        proof {
            assert(views[i as int] == item@);
            views.lemma_filter_map_take_succ(post_fn(), i as int);
        }
        let raw = match item.str_at("type") {
            Some(kind) => if *kind == *"message" {
                item.str_at("text")
            } else {
                None
            },
            None => None,
        };
        if let Some(raw) = raw {
            let text = raw.trim();
            if !text.is_empty() {
                let speaker = extract_speaker(item);
                let is_user = match &first_speaker {
                    Some(first) => *first == speaker,
                    None => true,
                };
                let role = if is_user {
                    "user"
                } else {
                    "assistant"
                };
                let message = Message { role: role.to_owned(), content: text.to_owned() };
                let ghost post = PostView { speaker: speaker@, text: text@ };
                if first_speaker.is_none() {
                    first_speaker = Some(speaker);
                }
                messages.push(message);
                proof {
                    assert(slack_post(item@) == Some(post));
                    assert(views.take(i as int + 1).filter_map(post_fn()) =~= posts.push(post));
                    assert(transcript::messages_view(messages@) =~= before.push(message@));
                    assert(posts.push(post)[0].speaker == first_speaker->0@);
                    assert(post_messages(posts.push(post)) =~= post_messages(posts).push(message@));
                }
            }
        }
        i += 1;
    }
    assert(views.take(views.len() as int) =~= views);
    messages
}

/// The text of a Slack export.
pub fn render_slack(document: &Json) -> (r: Result<String, NormalizeError>)
    ensures
        text_outcome(r) == slack_outcome(document@),
{
    match document.as_array() {
        Some(items) => {
            let messages = collect_posts(items);
            Ok(transcript::render_transcript(&messages))
        },
        None => Err(NormalizeError::UnsupportedChatGptShape),
    }
}

/// The text of a Slack export.
pub fn normalize_slack_json(content: &str) -> (r: Result<String, NormalizeError>)
    ensures
        Some(text_outcome(r)) == normalized(content@, Format::SlackJson),
{
    match json::parse_json(content) {
        Ok(document) => render_slack(&document),
        Err(error) => Err(NormalizeError::from(error)),
    }
}

/// The text of a ChatGPT export, or `None` where its conversation does not end.
pub fn render_chatgpt(document: &Json) -> (r: Option<Result<String, NormalizeError>>)
    ensures
        r is Some <==> chatgpt_outcome(document@) is Some,
        r matches Some(outcome) ==> Some(text_outcome(outcome)) == chatgpt_outcome(document@),
{
    match chatgpt::extract_thread(document) {
        Thread::Messages(messages) => Some(Ok(transcript::render_transcript(&messages))),
        Thread::Unsupported => Some(Err(NormalizeError::UnsupportedChatGptShape)),
        Thread::Endless => None,
    }
}

/// The text of a ChatGPT export whose conversation ends.
pub fn normalize_chatgpt_json(content: &str) -> (r: Result<String, NormalizeError>)
    requires
        normalized(content@, Format::ChatGptJson) is Some,
    ensures
        Some(text_outcome(r)) == normalized(content@, Format::ChatGptJson),
{
    match json::parse_json(content) {
        Ok(document) => match render_chatgpt(&document) {
            Some(outcome) => outcome,
            None => vstd::pervasive::unreached(),
        },
        Err(error) => Err(NormalizeError::from(error)),
    }
}

/// The plain text of a file with this content, taken to be of this format. A
/// ChatGPT export must hold a conversation that ends.
pub fn normalize_content(content: &str, format: Format) -> (r: Result<String, NormalizeError>)
    requires
        normalized(content@, format) is Some,
    ensures
        Some(text_outcome(r)) == normalized(content@, format),
{
    match format {
        Format::PlainText => Ok(content.trim().to_owned()),
        Format::ClaudeJsonl => normalize_claude_jsonl(content),
        Format::ChatGptJson => normalize_chatgpt_json(content),
        Format::CodexJsonl => normalize_codex_jsonl(content),
        Format::SlackJson => normalize_slack_json(content),
    }
}

/// Whether a file with this content, taken to be of this format, holds a
/// conversation that does not end.
pub fn is_endless(content: &str, format: Format) -> (r: bool)
    ensures
        r == normalized(content@, format) is None,
{
    if format != Format::ChatGptJson {
        return false;
    }
    match json::parse_json(content) {
        Ok(document) => match chatgpt::extract_thread(&document) {
            Thread::Endless => true,
            _ => false,
        },
        Err(_) => false,
    }
}

/// The plain text of a file with this content, taken to be of this format;
/// `None` where it holds a conversation that does not end.
pub fn try_normalize_content(content: &str, format: Format) -> (r: Option<
    Result<String, NormalizeError>,
>)
    ensures
        r is Some <==> normalized(content@, format) is Some,
        r matches Some(outcome) ==> Some(text_outcome(outcome)) == normalized(content@, format),
{
    if is_endless(content, format) {
        None
    } else {
        Some(normalize_content(content, format))
    }
}

} // verus!
