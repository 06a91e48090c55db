//! Messages of a conversation, and their rendering as plain text.

use crate::text;
use vstd::prelude::*;

verus! {

/// A message as a mathematical object.
pub struct MessageView {
    pub role: Seq<char>,
    pub content: Seq<char>,
}

/// One message of a conversation.
#[derive(Debug)]
pub struct Message {
    pub role: String,
    pub content: String,
}

impl View for Message {
    type V = MessageView;

    open spec fn view(&self) -> MessageView {
        MessageView { role: self.role@, content: self.content@ }
    }
}

/// What a list of messages holds.
pub open spec fn messages_view(messages: Seq<Message>) -> Seq<MessageView> {
    messages.map_values(|message: Message| message@)
}

/// The role belongs to the person who asks.
pub open spec fn is_user_role(role: Seq<char>) -> bool {
    role == "user"@ || role == "human"@
}

/// What a message contributes to a transcript: its trimmed content, marked with
/// `> ` where the user speaks; nothing where the content is blank.
pub open spec fn rendered(message: MessageView) -> Option<Seq<char>> {
    match text::solid(message.content) {
        Some(content) => if is_user_role(message.role) {
            Some("> "@ + content)
        } else {
            Some(content)
        },
        None => None,
    }
}

/// [`rendered`] as a function value.
pub open spec fn rendered_fn() -> spec_fn(MessageView) -> Option<Seq<char>> {
    |message: MessageView| rendered(message)
}

/// The transcript of a conversation: its messages in order, one after the other.
pub open spec fn transcript(messages: Seq<MessageView>) -> Seq<char> {
    text::joined(messages.filter_map(rendered_fn()), "\n"@)
}

/// Whether the role belongs to the person who asks.
fn speaks_for_user(role: &str) -> (r: bool)
    ensures
        r == is_user_role(role@),
{
    *role == *"user" || *role == *"human"
}

/// What a message contributes to a transcript.
fn render_message(role: &str, content: &str) -> (r: Option<String>)
    ensures
        text::opt_string(r) == rendered(MessageView { role: role@, content: content@ }),
{
    let body = content.trim();
    if body.is_empty() {
        return None;
    }
    if speaks_for_user(role) {
        let mut line = "> ".to_owned();
        line.append(body);
        Some(line)
    } else {
        Some(body.to_owned())
    }
}

/// The transcript of a conversation.
pub fn render_transcript(items: &Vec<Message>) -> (r: String)
    ensures
        r@ == transcript(messages_view(items@)),
{
    let ghost views = messages_view(items@);
    let mut lines: Vec<String> = Vec::new();
    let mut i: usize = 0;
    while i < items.len()
        invariant
            i <= items.len(),
            views == messages_view(items@),
            text::strings(lines@) == views.take(i as int).filter_map(rendered_fn()),
        decreases items.len() - i,
    {
        proof {
            assert(views[i as int] == items@[i as int]@);
            views.lemma_filter_map_take_succ(rendered_fn(), i as int);
        }
        if let Some(line) = render_message(items[i].role.as_str(), items[i].content.as_str()) {
            proof {
                assert(text::strings(lines@.push(line)) =~= text::strings(lines@).push(line@));
            }
            lines.push(line);
        }
        i += 1;
    }
    assert(views.take(views.len() as int) =~= views);
    text::join_strings(&lines, "\n")
}

} // verus!
