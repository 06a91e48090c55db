//! Conversations in ChatGPT exports: a list of messages, or a mapping from ids
//! to nodes that name their children.

use crate::detect;
use crate::json;
use crate::json::{Json, JsonView};
use crate::text;
use crate::transcript;
use crate::transcript::{Message, MessageView};
use vstd::prelude::*;

verus! {

/// The message of a node of a mapping: it has an author with a role, and a
/// content with a text.
pub open spec fn node_message(node: JsonView) -> Option<MessageView> {
    match node.get("message"@) {
        Some(message) => match message.get("author"@) {
            Some(author) => match (author.str_at("role"@), detect::content_of(message)) {
                (Some(role), Some(content)) => Some(MessageView { role, content }),
                _ => None,
            },
            None => None,
        },
        None => None,
    }
}

/// The message of a node, as a list of at most one.
pub open spec fn own_messages(node: JsonView) -> Seq<MessageView> {
    match node_message(node) {
        Some(message) => seq![message],
        None => seq![],
    }
}

/// The ids of a node's children, in order.
pub open spec fn children(node: JsonView) -> Seq<Seq<char>> {
    match node.get("children"@) {
        Some(JsonView::Array(items)) => items.filter_map(detect::str_fn()),
        _ => seq![],
    }
}

/// The messages at and below `id`, a node before its children and the children
/// in order, where no branch is deeper than `depth` nodes. An id that the
/// mapping lacks has none.
pub open spec fn walk(mapping: Seq<(Seq<char>, JsonView)>, id: Seq<char>, depth: nat) -> Option<
    Seq<MessageView>,
>
    decreases depth, 0nat,
{
    match json::lookup(mapping, id) {
        None => Some(seq![]),
        Some(node) => if depth == 0 {
            None
        } else {
            match walk_all(mapping, children(node), (depth - 1) as nat) {
                Some(below) => Some(own_messages(node) + below),
                None => None,
            }
        },
    }
}

/// The messages at and below each of `ids`, one after the other.
pub open spec fn walk_all(
    mapping: Seq<(Seq<char>, JsonView)>,
    ids: Seq<Seq<char>>,
    depth: nat,
) -> Option<Seq<MessageView>>
    decreases depth, ids.len(),
{
    if ids.len() == 0 {
        Some(seq![])
    } else {
        match (walk_all(mapping, ids.drop_last(), depth), walk(mapping, ids.last(), depth)) {
            (Some(before), Some(last)) => Some(before + last),
            _ => None,
        }
    }
}

/// The node is one where a conversation starts: it has no parent, or a null or
/// empty one.
pub open spec fn is_root(node: JsonView) -> bool {
    match node.get("parent"@) {
        None => true,
        Some(parent) => parent is Null || parent.as_str() == Some(Seq::<char>::empty()),
    }
}

/// The id of the first node where a conversation starts.
pub open spec fn root_id(mapping: Seq<(Seq<char>, JsonView)>) -> Option<Seq<char>>
    decreases mapping.len(),
{
    if mapping.len() == 0 {
        None
    } else if is_root(mapping.first().1) {
        Some(mapping.first().0)
    } else {
        root_id(mapping.drop_first())
    }
}

/// The messages of a mapping, from its root down. There are none to give where
/// a node lies below itself, so that the walk would not end.
pub open spec fn mapped_messages(mapping: Seq<(Seq<char>, JsonView)>) -> Option<
    Seq<MessageView>,
> {
    match root_id(mapping) {
        Some(id) => walk(mapping, id, mapping.len()),
        None => Some(seq![]),
    }
}

/// The message of an item of a message list: it has a role and a content with a
/// text.
pub open spec fn listed_message(item: JsonView) -> Option<MessageView> {
    match (item.str_at("role"@), detect::content_of(item)) {
        (Some(role), Some(content)) => Some(MessageView { role, content }),
        _ => None,
    }
}

/// [`listed_message`] as a function value.
pub open spec fn listed_fn() -> spec_fn(JsonView) -> Option<MessageView> {
    |item: JsonView| listed_message(item)
}

/// The messages of a message list.
pub open spec fn listed_messages(items: Seq<JsonView>) -> Seq<MessageView> {
    items.filter_map(listed_fn())
}

/// How a ChatGPT document holds its conversation.
pub enum ThreadView {
    /// As messages, here in order.
    Messages(Seq<MessageView>),
    /// As a mapping in which the walk from the root does not end.
    Endless,
    /// In no way that is supported.
    Unsupported,
}

/// The conversation of a document: the document itself where it is an array,
/// else its `messages` where they are one, else its `mapping` where that is an
/// object.
pub open spec fn thread(document: JsonView) -> ThreadView {
    match (document, document.get("messages"@), document.get("mapping"@)) {
        (JsonView::Array(items), _, _) => ThreadView::Messages(listed_messages(items)),
        (_, Some(JsonView::Array(items)), _) => ThreadView::Messages(listed_messages(items)),
        (_, _, Some(JsonView::Object(mapping))) => match mapped_messages(mapping) {
            Some(messages) => ThreadView::Messages(messages),
            None => ThreadView::Endless,
        },
        _ => ThreadView::Unsupported,
    }
}

/// The id of the first node where a conversation starts.
pub fn find_root_node(mapping: &Vec<(String, Json)>) -> (r: Option<String>)
    ensures
        text::opt_string(r) == root_id(json::entries_view(mapping@)),
{
    let ghost views = json::entries_view(mapping@);
    let mut i: usize = 0;
    assert(views.skip(0) =~= views);
    while i < mapping.len()
        invariant
            i <= mapping.len(),
            views == json::entries_view(mapping@),
            root_id(views) == root_id(views.skip(i as int)),
        decreases mapping.len() - i,
    {
        let node = &mapping[i].1;
        proof {
            assert(views.skip(i as int).first() == (mapping@[i as int].0@, node@));
            assert(views.skip(i as int).drop_first() =~= views.skip(i as int + 1));
        }
        let starts = match node.get("parent") {
            None => true,
            Some(Json::Null) => true,
            Some(Json::Text(id)) => {
                proof {
                    if id@.len() == 0 {
                        assert(id@ =~= Seq::<char>::empty());
                    }
                }
                id.as_str().is_empty()
            },
            Some(_) => false,
        };
        if starts {
            return Some(mapping[i].0.clone());
        }
        i += 1;
    }
    None
}

/// The message of a node of a mapping.
fn extract_node_message(node: &Json) -> (r: Option<Message>)
    ensures
        r is Some <==> node_message(node@) is Some,
        r matches Some(message) ==> node_message(node@) == Some(message@),
{
    let message = match node.get("message") {
        Some(message) => message,
        None => return None,
    };
    let author = match message.get("author") {
        Some(author) => author,
        None => return None,
    };
    match (author.str_at("role"), detect::extract_content_of(message)) {
        (Some(role), Some(content)) => Some(Message { role: role.to_owned(), content }),
        _ => None,
    }
}

/// Appends the messages at and below `node_id` to `result`, a node before its
/// children and the children in order. Stops and says so where a branch is
/// deeper than `depth` nodes.
pub fn collect_messages_dfs(
    mapping: &Vec<(String, Json)>,
    node_id: &str,
    depth: usize,
    result: &mut Vec<Message>,
) -> (ended: bool)
    ensures
        ended == walk(json::entries_view(mapping@), node_id@, depth as nat) is Some,
        ended ==> transcript::messages_view(final(result)@) == transcript::messages_view(
            old(result)@,
        ) + walk(json::entries_view(mapping@), node_id@, depth as nat)->0,
        transcript::messages_view(old(result)@).is_prefix_of(
            transcript::messages_view(final(result)@),
        ),
    decreases depth,
{
    let ghost views = json::entries_view(mapping@);
    let ghost before = transcript::messages_view(result@);
    let node = match json::find_entry(mapping, node_id) {
        Some(node) => node,
        None => {
            assert(before + Seq::<MessageView>::empty() =~= before);
            return true;
        },
    };
    if depth == 0 {
        return false;
    }
    if let Some(message) = extract_node_message(node) {
        proof {
            assert(transcript::messages_view(result@.push(message)) =~= before.push(message@));
        }
        result.push(message);
    }
    assert(transcript::messages_view(result@) =~= before + own_messages(node@));
    let items = match node.get("children") {
        Some(Json::Array(items)) => items,
        _ => {
            return true;
        },
    };
    let ghost item_views = json::items_view(items@);
    let ghost ids = children(node@);
    let ghost below = (depth - 1) as nat;
    proof {
        json::lemma_array_view(*items);
    }
    let mut i: usize = 0;
    while i < items.len()
        invariant
            depth > 0,
            below == depth - 1,
            i <= items.len(),
            views == json::entries_view(mapping@),
            item_views == json::items_view(items@),
            ids == item_views.filter_map(detect::str_fn()),
            walk_all(views, item_views.take(i as int).filter_map(detect::str_fn()), below) is Some,
            transcript::messages_view(result@) == before + own_messages(node@) + walk_all(
                views,
                item_views.take(i as int).filter_map(detect::str_fn()),
                below,
            )->0,
            json::lookup(views, node_id@) == Some(node@),
            children(node@) == ids,
            before == transcript::messages_view(old(result)@),
        decreases items.len() - i,
    {
        let ghost seen = item_views.take(i as int).filter_map(detect::str_fn());
        let ghost so_far = transcript::messages_view(result@);
        proof {
            item_views.lemma_filter_map_take_succ(detect::str_fn(), i as int);
            assert(item_views[i as int] == items@[i as int]@);
        }
        if let Some(child) = items[i].as_str() {
            proof {
                assert(seen.push(child@).drop_last() =~= seen);
                assert(item_views.take(i as int + 1).filter_map(detect::str_fn()) =~= seen.push(
                    child@,
                ));
            }
            if !collect_messages_dfs(mapping, child, depth - 1, result) {
                proof {
                    lemma_walk_all_stops(
                        views,
                        item_views,
                        i as int + 1,
                        below,
                    );
                }
                return false;
            }
            assert(transcript::messages_view(result@) =~= before + own_messages(node@) + walk_all(
                views,
                seen.push(child@),
                below,
            )->0);
        }
        i += 1;
    }
    proof {
        assert(item_views.take(item_views.len() as int) =~= item_views);
        assert(before + own_messages(node@) + walk_all(views, ids, below)->0 =~= before + (
        own_messages(node@) + walk_all(views, ids, below)->0));
    }
    true
}

/// Where the first children have no walk, all of them have none.
proof fn lemma_walk_all_stops(
    mapping: Seq<(Seq<char>, JsonView)>,
    items: Seq<JsonView>,
    n: int,
    depth: nat,
)
    requires
        0 <= n <= items.len(),
        walk_all(mapping, items.take(n).filter_map(detect::str_fn()), depth) is None,
    ensures
        walk_all(mapping, items.filter_map(detect::str_fn()), depth) is None,
    decreases items.len(),
{
    if n == items.len() {
        assert(items.take(n) =~= items);
    } else {
        assert(items.drop_last().take(n) =~= items.take(n));
        lemma_walk_all_stops(mapping, items.drop_last(), n, depth);
        let before = items.drop_last().filter_map(detect::str_fn());
        if let Some(id) = items.last().as_str() {
            assert(items.filter_map(detect::str_fn()) =~= before.push(id));
            assert(before.push(id).drop_last() =~= before);
        }
    }
}

/// The messages of a mapping, from its root down, unless the walk does not end.
pub fn collect_mapped(mapping: &Vec<(String, Json)>) -> (r: Option<Vec<Message>>)
    ensures
        r is Some <==> mapped_messages(json::entries_view(mapping@)) is Some,
        r matches Some(messages) ==> mapped_messages(json::entries_view(mapping@)) == Some(
            transcript::messages_view(messages@),
        ),
{
    let mut ordered: Vec<Message> = Vec::new();
    assert(transcript::messages_view(ordered@) =~= seq![]);
    if let Some(root) = find_root_node(mapping) {
        if !collect_messages_dfs(mapping, root.as_str(), mapping.len(), &mut ordered) {
            return None;
        }
        proof {
            let found = walk(json::entries_view(mapping@), root@, mapping@.len())->0;
            assert(seq![] + found =~= found);
        }
    }
    Some(ordered)
}

/// The messages of a message list.
pub fn collect_listed(items: &Vec<Json>) -> (r: Vec<Message>)
    ensures
        transcript::messages_view(r@) == listed_messages(json::items_view(items@)),
{
    let ghost views = json::items_view(items@);
    let mut messages: Vec<Message> = Vec::new();
    let mut i: usize = 0;
    while i < items.len()
        invariant
            i <= items.len(),
            views == json::items_view(items@),
            transcript::messages_view(messages@) == views.take(i as int).filter_map(listed_fn()),
        decreases items.len() - i,
    {
        proof {
            assert(views[i as int] == items@[i as int]@);
            views.lemma_filter_map_take_succ(listed_fn(), i as int);
        }
        if let Some(role) = items[i].str_at("role") {
            if let Some(content) = detect::extract_content_of(&items[i]) {
                let message = Message { role: role.to_owned(), content };
                proof {
                    assert(transcript::messages_view(messages@.push(message))
                        =~= transcript::messages_view(messages@).push(message@));
                }
                messages.push(message);
            }
        }
        i += 1;
    }
    assert(views.take(views.len() as int) =~= views);
    messages
}

/// How a ChatGPT document holds its conversation.
#[derive(Debug)]
pub enum Thread {
    /// As messages, here in order.
    Messages(Vec<Message>),
    /// As a mapping in which the walk from the root does not end.
    Endless,
    /// In no way that is supported.
    Unsupported,
}

impl View for Thread {
    type V = ThreadView;

    open spec fn view(&self) -> ThreadView {
        match self {
            Thread::Messages(messages) => ThreadView::Messages(
                transcript::messages_view(messages@),
            ),
            Thread::Endless => ThreadView::Endless,
            Thread::Unsupported => ThreadView::Unsupported,
        }
    }
}

/// The conversation of a document.
pub fn extract_thread(document: &Json) -> (r: Thread)
    ensures
        r@ == thread(document@),
{
    if let Some(items) = document.as_array() {
        return Thread::Messages(collect_listed(items));
    }
    if let Some(value) = document.get("messages") {
        if let Some(items) = value.as_array() {
            return Thread::Messages(collect_listed(items));
        }
    }
    if let Some(value) = document.get("mapping") {
        if let Some(mapping) = value.as_object() {
            return match collect_mapped(mapping) {
                Some(messages) => Thread::Messages(messages),
                None => Thread::Endless,
            };
        }
    }
    Thread::Unsupported
}

/// `path` leads from node to child, through nodes that the mapping has.
spec fn is_chain(mapping: Seq<(Seq<char>, JsonView)>, path: Seq<Seq<char>>) -> bool {
    &&& forall|i: int|
        0 <= i < path.len() ==> json::lookup(mapping, #[trigger] path[i]) is Some
    &&& forall|i: int|
        0 < i < path.len() ==> children(json::lookup(mapping, path[i - 1])->0).contains(
            #[trigger] path[i],
        )
}

/// A list of ids has a walk exactly where each of them has one.
pub proof fn lemma_walk_all(mapping: Seq<(Seq<char>, JsonView)>, ids: Seq<Seq<char>>, depth: nat)
    ensures
        walk_all(mapping, ids, depth) is Some <==> forall|i: int|
            0 <= i < ids.len() ==> walk(mapping, #[trigger] ids[i], depth) is Some,
    decreases ids.len(),
{
    if ids.len() > 0 {
        lemma_walk_all(mapping, ids.drop_last(), depth);
        assert forall|i: int| 0 <= i < ids.len() - 1 implies ids.drop_last()[i] == ids[i] by {}
        if walk_all(mapping, ids, depth) is Some {
            assert forall|i: int| 0 <= i < ids.len() implies walk(
                mapping,
                #[trigger] ids[i],
                depth,
            ) is Some by {
                if i < ids.len() - 1 {
                    assert(ids.drop_last()[i] == ids[i]);
                }
            }
        }
    }
}

/// Where a walk ends within some depth, a greater depth gives the same messages.
pub proof fn walk_is_stable(
    mapping: Seq<(Seq<char>, JsonView)>,
    id: Seq<char>,
    depth: nat,
    more: nat,
)
    requires
        walk(mapping, id, depth) is Some,
        depth <= more,
    ensures
        walk(mapping, id, more) == walk(mapping, id, depth),
    decreases depth, 0nat,
{
    if let Some(node) = json::lookup(mapping, id) {
        lemma_walk_all_stable(mapping, children(node), (depth - 1) as nat, (more - 1) as nat);
    }
}

/// Where walks end within some depth, a greater depth gives the same messages.
pub proof fn lemma_walk_all_stable(
    mapping: Seq<(Seq<char>, JsonView)>,
    ids: Seq<Seq<char>>,
    depth: nat,
    more: nat,
)
    requires
        walk_all(mapping, ids, depth) is Some,
        depth <= more,
    ensures
        walk_all(mapping, ids, more) == walk_all(mapping, ids, depth),
    decreases depth, ids.len(),
{
    if ids.len() > 0 {
        lemma_walk_all_stable(mapping, ids.drop_last(), depth, more);
        walk_is_stable(mapping, ids.last(), depth, more);
    }
}

/// Where a walk does not end within a depth, a chain of more nodes than that
/// leads down from its start.
proof fn lemma_chain(mapping: Seq<(Seq<char>, JsonView)>, id: Seq<char>, depth: nat) -> (path: Seq<
    Seq<char>,
>)
    requires
        walk(mapping, id, depth) is None,
    ensures
        path.len() == depth + 1,
        path[0] == id,
        is_chain(mapping, path),
    decreases depth,
{
    if depth == 0 {
        seq![id]
    } else {
        let ids = children(json::lookup(mapping, id)->0);
        lemma_walk_all(mapping, ids, (depth - 1) as nat);
        let i = choose|i: int|
            0 <= i < ids.len() && walk(mapping, #[trigger] ids[i], (depth - 1) as nat) is None;
        let below = lemma_chain(mapping, ids[i], (depth - 1) as nat);
        let path = seq![id] + below;
        assert forall|k: int| 0 <= k < path.len() implies json::lookup(
            mapping,
            #[trigger] path[k],
        ) is Some by {
            if k > 0 {
                assert(path[k] == below[k - 1]);
            }
        }
        assert forall|k: int| 0 < k < path.len() implies children(
            json::lookup(mapping, path[k - 1])->0,
        ).contains(#[trigger] path[k]) by {
            assert(path[k] == below[k - 1]);
            if k > 1 {
                assert(path[k - 1] == below[k - 2]);
            }
        }
        path
    }
}

/// Along a chain, the depth within which the walk ends goes down with each node.
proof fn lemma_chain_descends(
    mapping: Seq<(Seq<char>, JsonView)>,
    path: Seq<Seq<char>>,
    i: int,
    j: int,
    depth: nat,
)
    requires
        is_chain(mapping, path),
        0 <= i <= j < path.len(),
        walk(mapping, path[i], depth) is Some,
    ensures
        j - i < depth,
        walk(mapping, path[j], (depth - (j - i)) as nat) is Some,
    decreases j - i,
{
    if i < j {
        lemma_chain_descends(mapping, path, i, j - 1, depth);
        let left = (depth - (j - 1 - i)) as nat;
        let ids = children(json::lookup(mapping, path[j - 1])->0);
        lemma_walk_all(mapping, ids, (left - 1) as nat);
        assert(ids.contains(path[j]));
        let k = choose|k: int| 0 <= k < ids.len() && ids[k] == path[j];
        assert(walk(mapping, ids[k], (left - 1) as nat) is Some);
        assert(json::lookup(mapping, path[j]) is Some);
    }
}

/// No walk ends from a node that lies below itself.
proof fn lemma_cycle_has_no_walk(
    mapping: Seq<(Seq<char>, JsonView)>,
    path: Seq<Seq<char>>,
    i: int,
    j: int,
    depth: nat,
)
    requires
        is_chain(mapping, path),
        0 <= i < j < path.len(),
        path[i] == path[j],
    ensures
        walk(mapping, path[i], depth) is None,
    decreases depth,
{
    if walk(mapping, path[i], depth) is Some {
        lemma_chain_descends(mapping, path, i, j, depth);
        lemma_cycle_has_no_walk(mapping, path, i, j, (depth - (j - i)) as nat);
    }
}

/// A chain longer than the mapping passes a node twice.
proof fn lemma_long_chain_repeats(mapping: Seq<(Seq<char>, JsonView)>, path: Seq<Seq<char>>)
    requires
        is_chain(mapping, path),
        path.len() > mapping.len(),
    ensures
        exists|i: int, j: int|
            0 <= i < j < path.len() && #[trigger] path[i] == #[trigger] path[j],
{
    if path.no_duplicates() {
        let keys = mapping.map_values(|entry: (Seq<char>, JsonView)| entry.0);
        path.unique_seq_to_set();
        keys.lemma_cardinality_of_set();
        assert forall|id: Seq<char>| path.to_set().contains(id) implies keys.to_set().contains(
            id,
        ) by {
            let i = choose|i: int| 0 <= i < path.len() && path[i] == id;
            assert(json::lookup(mapping, path[i]) is Some);
            json::lemma_lookup(mapping, id);
            let k = choose|k: int|
                0 <= k < mapping.len() && #[trigger] mapping[k] == (
                    id,
                    json::lookup(mapping, id)->0,
                );
            assert(keys[k] == id);
        }
        vstd::set_lib::lemma_len_subset(path.to_set(), keys.to_set());
    } else {
        let (i, j) = choose|i: int, j: int|
            0 <= i < path.len() && 0 <= j < path.len() && i != j && path[i] == path[j];
        if i < j {
            assert(path[i] == path[j]);
        } else {
            assert(path[j] == path[i]);
        }
    }
}

/// A walk that ends at all ends within as many nodes as the mapping has: where
/// it does not, no depth is enough, and a traversal without bound never ends.
pub proof fn walk_ends_within_mapping(
    mapping: Seq<(Seq<char>, JsonView)>,
    id: Seq<char>,
    depth: nat,
)
    requires
        walk(mapping, id, depth) is Some,
    ensures
        walk(mapping, id, mapping.len()) == walk(mapping, id, depth),
{
    if walk(mapping, id, mapping.len()) is None {
        let path = lemma_chain(mapping, id, mapping.len());
        lemma_long_chain_repeats(mapping, path);
        let (i, j) = choose|i: int, j: int|
            0 <= i < j < path.len() && #[trigger] path[i] == #[trigger] path[j];
        lemma_chain_descends(mapping, path, 0, i, depth);
        lemma_cycle_has_no_walk(mapping, path, i, j, (depth - i) as nat);
    } else if depth <= mapping.len() {
        walk_is_stable(mapping, id, depth, mapping.len());
    } else {
        walk_is_stable(mapping, id, mapping.len(), depth);
    }
}

/// The root is a node where a conversation starts; of all of them it has the
/// least id. There is none only where every node has a parent.
pub proof fn root_has_least_id(mapping: Seq<(Seq<char>, JsonView)>)
    requires
        json::keys_ascend(mapping),
    ensures
        root_id(mapping) is None <==> forall|i: int|
            0 <= i < mapping.len() ==> !is_root((#[trigger] mapping[i]).1),
        root_id(mapping) matches Some(id) ==> {
            &&& exists|i: int|
                0 <= i < mapping.len() && (#[trigger] mapping[i]).0 == id && is_root(mapping[i].1)
            &&& forall|i: int|
                0 <= i < mapping.len() && is_root((#[trigger] mapping[i]).1) ==> mapping[i].0 == id
                    || json::text_lt(id, mapping[i].0)
        },
    decreases mapping.len(),
{
    if mapping.len() > 0 {
        let rest = mapping.drop_first();
        assert forall|i: int, j: int| 0 <= i < j < rest.len() implies json::text_lt(
            (#[trigger] rest[i]).0,
            (#[trigger] rest[j]).0,
        ) by {
            assert(json::text_lt(mapping[i + 1].0, mapping[j + 1].0));
        }
        root_has_least_id(rest);
        assert forall|i: int| 0 < i < mapping.len() implies mapping[i] == rest[i - 1] by {}
        if is_root(mapping[0].1) {
        } else {
            if let Some(id) = root_id(rest) {
                let k = choose|k: int|
                    0 <= k < rest.len() && (#[trigger] rest[k]).0 == id && is_root(rest[k].1);
                assert(mapping[k + 1].0 == id && is_root(mapping[k + 1].1));
            } else {
                assert forall|i: int| 0 <= i < mapping.len() implies !is_root(
                    (#[trigger] mapping[i]).1,
                ) by {
                    if i > 0 {
                        assert(mapping[i] == rest[i - 1]);
                    }
                }
            }
        }
    }
}

} // verus!
