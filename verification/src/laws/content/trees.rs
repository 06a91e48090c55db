//! The conversation in a ChatGPT mapping, by the nodes that name their children.

use super::conversations;
use super::raw;
use crate::chatgpt;
use crate::detect;
use crate::json;
use crate::json::JsonView;
use crate::transcript::MessageView;
use vstd::prelude::*;

verus! {

/// The message of a node: the text under `content` of what stands under its
/// `message`, in the role of the author there.
pub open spec fn node_says(node: JsonView) -> Option<MessageView> {
    let message = raw::under(node, "message"@)->0;
    let author = raw::under(message, "author"@)->0;
    if raw::under(node, "message"@) is Some && raw::under(message, "author"@) is Some
        && raw::text_under(author, "role"@) is Some && conversations::content_under(
        message,
    ) is Some {
        Some(
            MessageView {
                role: raw::text_under(author, "role"@)->0,
                content: conversations::content_under(message)->0,
            },
        )
    } else {
        None
    }
}

/// The strings in the array under `children` of a node, whatever else the node
/// has.
pub open spec fn kids(node: JsonView) -> Seq<JsonView> {
    if raw::list_under(node, "children"@) is Some {
        conversations::strings_among(raw::list_under(node, "children"@)->0)
    } else {
        seq![]
    }
}

/// A conversation that branches.
pub enum Tree {
    /// The mapping has no such node.
    Missing,
    /// A message, where there is one, and what follows it.
    Node { own: Option<MessageView>, below: Seq<Tree> },
}

/// The tree lies at `id`: its message is that of the node, and below it lie the
/// trees of all of the node's children, in order.
pub open spec fn lies_at(
    mapping: Seq<(Seq<char>, JsonView)>,
    id: Seq<char>,
    tree: Tree,
) -> bool
    decreases tree,
{
    match tree {
        Tree::Missing => raw::entry_under(mapping, id) is None,
        Tree::Node { own, below } => {
            let node = raw::entry_under(mapping, id)->0;
            &&& raw::entry_under(mapping, id) is Some
            &&& own == node_says(node)
            &&& below.len() == kids(node).len()
            &&& forall|k: int|
                0 <= k < below.len() ==> lies_at(
                    mapping,
                    kids(node)[k]->Text_0,
                    #[trigger] below[k],
                )
        },
    }
}

/// The messages of a tree: the one at the top, and then those of the trees below
/// it, one after the other.
pub open spec fn messages_in(tree: Tree) -> Seq<MessageView>
    decreases tree,
{
    match tree {
        Tree::Missing => seq![],
        Tree::Node { own, below } => if own is Some {
            seq![own->0] + messages_among(below)
        } else {
            messages_among(below)
        },
    }
}

/// The messages of trees, one after the other.
pub open spec fn messages_among(trees: Seq<Tree>) -> Seq<MessageView>
    decreases trees,
{
    if trees.len() == 0 {
        seq![]
    } else {
        messages_among(trees.subrange(0, trees.len() - 1)) + messages_in(trees[trees.len() - 1])
    }
}

proof fn lemma_kids(items: Seq<JsonView>)
    ensures
        ({
            let texts = conversations::strings_among(items);
            let ids = items.filter_map(detect::str_fn());
            &&& texts.len() == ids.len()
            &&& forall|k: int|
                0 <= k < ids.len() ==> texts[k] is Text && #[trigger] ids[k] == texts[k]->Text_0
        }),
    decreases items.len(),
{
    reveal(Seq::filter);
    if items.len() > 0 {
        lemma_kids(items.drop_last());
    }
}

proof fn lemma_node(node: JsonView)
    ensures
        chatgpt::node_message(node) == node_says(node),
        chatgpt::children(node).len() == kids(node).len(),
        forall|k: int|
            0 <= k < kids(node).len() ==> (#[trigger] kids(node)[k]) is Text && chatgpt::children(
                node,
            )[k] == kids(node)[k]->Text_0,
{
    raw::lemma_reads(node);
    if let Some(message) = raw::under(node, "message"@) {
        raw::lemma_reads(message);
        conversations::records_say_their_message_or_content(message);
        if let Some(author) = raw::under(message, "author"@) {
            raw::lemma_reads(author);
        }
    }
    if let Some(items) = raw::list_under(node, "children"@) {
        lemma_kids(items);
    }
}

/// A node's message and children are read as the node holds them.
pub proof fn nodes_are_read_as_they_are(node: JsonView)
    ensures
        chatgpt::node_message(node) == node_says(node),
        chatgpt::children(node) == Seq::new(
            kids(node).len(),
            |k: int| kids(node)[k]->Text_0,
        ),
{
    lemma_node(node);
    assert(chatgpt::children(node) =~= Seq::new(
        kids(node).len(),
        |k: int| kids(node)[k]->Text_0,
    )) by {
        assert forall|k: int| 0 <= k < kids(node).len() implies #[trigger] chatgpt::children(
            node,
        )[k] == kids(node)[k]->Text_0 by {
            assert(kids(node)[k] is Text);
        }
    }
}

proof fn lemma_tree_is_walked(
    mapping: Seq<(Seq<char>, JsonView)>,
    id: Seq<char>,
    tree: Tree,
) -> (depth: nat)
    requires
        lies_at(mapping, id, tree),
    ensures
        chatgpt::walk(mapping, id, depth) == Some(messages_in(tree)),
    decreases tree,
{
    raw::entries_are_found_under_their_keys(mapping, id);
    match tree {
        Tree::Missing => 0,
        Tree::Node { own, below } => {
            let node = raw::entry_under(mapping, id)->0;
            let ids = chatgpt::children(node);
            lemma_node(node);
            assert forall|k: int| 0 <= k < below.len() implies lies_at(
                mapping,
                ids[k],
                #[trigger] below[k],
            ) by {
                assert(kids(node)[k] is Text);
            }
            let depth = lemma_trees_are_walked(mapping, ids, below);
            assert(seq![] + messages_among(below) =~= messages_among(below));
            depth + 1
        },
    }
}

proof fn lemma_trees_are_walked(
    mapping: Seq<(Seq<char>, JsonView)>,
    ids: Seq<Seq<char>>,
    trees: Seq<Tree>,
) -> (depth: nat)
    requires
        ids.len() == trees.len(),
        forall|k: int| 0 <= k < trees.len() ==> lies_at(mapping, ids[k], #[trigger] trees[k]),
    ensures
        chatgpt::walk_all(mapping, ids, depth) == Some(messages_among(trees)),
    decreases trees,
{
    if trees.len() == 0 {
        0
    } else {
        let n = trees.len() - 1;
        let before = trees.subrange(0, n);
        assert(ids.drop_last() =~= ids.subrange(0, n));
        assert forall|k: int| 0 <= k < before.len() implies lies_at(
            mapping,
            ids.drop_last()[k],
            #[trigger] before[k],
        ) by {
            assert(before[k] == trees[k]);
        }
        let a = lemma_trees_are_walked(mapping, ids.drop_last(), before);
        assert(lies_at(mapping, ids[n], trees[n]));
        let b = lemma_tree_is_walked(mapping, ids[n], trees[n]);
        let depth = if a < b {
            b
        } else {
            a
        };
        chatgpt::lemma_walk_all_stable(mapping, ids.drop_last(), a, depth);
        chatgpt::walk_is_stable(mapping, ids[n], b, depth);
        depth
    }
}

/// Where a tree lies at an id, the walk from there ends and gives the messages
/// of the tree, all of them and in the tree's order.
pub proof fn trees_are_walked(mapping: Seq<(Seq<char>, JsonView)>, id: Seq<char>, tree: Tree)
    requires
        lies_at(mapping, id, tree),
    ensures
        chatgpt::walk(mapping, id, mapping.len()) == Some(messages_in(tree)),
{
    let depth = lemma_tree_is_walked(mapping, id, tree);
    chatgpt::walk_ends_within_mapping(mapping, id, depth);
}

proof fn lemma_tree_of_walk(
    mapping: Seq<(Seq<char>, JsonView)>,
    id: Seq<char>,
    depth: nat,
) -> (tree: Tree)
    requires
        chatgpt::walk(mapping, id, depth) is Some,
    ensures
        lies_at(mapping, id, tree),
    decreases depth, 0nat,
{
    raw::entries_are_found_under_their_keys(mapping, id);
    match json::lookup(mapping, id) {
        None => Tree::Missing,
        Some(node) => {
            let ids = chatgpt::children(node);
            let below = lemma_trees_of_walk(mapping, ids, (depth - 1) as nat);
            lemma_node(node);
            let tree = Tree::Node { own: node_says(node), below };
            assert forall|k: int| 0 <= k < below.len() implies lies_at(
                mapping,
                kids(node)[k]->Text_0,
                #[trigger] below[k],
            ) by {
                assert(kids(node)[k] is Text);
            }
            tree
        },
    }
}

proof fn lemma_trees_of_walk(
    mapping: Seq<(Seq<char>, JsonView)>,
    ids: Seq<Seq<char>>,
    depth: nat,
) -> (trees: Seq<Tree>)
    requires
        chatgpt::walk_all(mapping, ids, depth) is Some,
    ensures
        trees.len() == ids.len(),
        forall|k: int| 0 <= k < trees.len() ==> lies_at(mapping, ids[k], #[trigger] trees[k]),
    decreases depth, ids.len(),
{
    if ids.len() == 0 {
        seq![]
    } else {
        let before = lemma_trees_of_walk(mapping, ids.drop_last(), depth);
        let last = lemma_tree_of_walk(mapping, ids.last(), depth);
        let trees = before.push(last);
        assert forall|k: int| 0 <= k < trees.len() implies lies_at(
            mapping,
            ids[k],
            #[trigger] trees[k],
        ) by {
            if k < before.len() {
                assert(trees[k] == before[k]);
                assert(ids.drop_last()[k] == ids[k]);
            }
        }
        trees
    }
}

/// A walk from an id ends exactly where a tree lies there: where no node lies
/// below itself.
pub proof fn walks_end_where_trees_lie(mapping: Seq<(Seq<char>, JsonView)>, id: Seq<char>)
    ensures
        chatgpt::walk(mapping, id, mapping.len()) is Some <==> exists|tree: Tree| lies_at(
            mapping,
            id,
            tree,
        ),
{
    if chatgpt::walk(mapping, id, mapping.len()) is Some {
        let tree = lemma_tree_of_walk(mapping, id, mapping.len());
        assert(lies_at(mapping, id, tree));
    }
    if exists|tree: Tree| lies_at(mapping, id, tree) {
        let tree = choose|tree: Tree| lies_at(mapping, id, tree);
        trees_are_walked(mapping, id, tree);
    }
}

/// The array under `children` of the node `id` has the string `child` in it.
pub open spec fn has_child(
    mapping: Seq<(Seq<char>, JsonView)>,
    id: Seq<char>,
    child: Seq<char>,
) -> bool {
    let node = raw::entry_under(mapping, id)->0;
    &&& raw::entry_under(mapping, id) is Some
    &&& raw::list_under(node, "children"@) is Some
    &&& raw::list_under(node, "children"@)->0.contains(JsonView::Text(child))
}

/// `path` leads down from node to child: the mapping has each of these ids, and
/// each but the first is a string in the array under `children` of the node
/// before it.
pub open spec fn leads_down(mapping: Seq<(Seq<char>, JsonView)>, path: Seq<Seq<char>>) -> bool {
    &&& path.len() > 0
    &&& forall|i: int|
        0 <= i < path.len() ==> raw::entry_under(mapping, #[trigger] path[i]) is Some
    &&& forall|i: int, j: int|
        0 <= i < j < path.len() && j == i + 1 ==> has_child(
            mapping,
            #[trigger] path[i],
            #[trigger] path[j],
        )
}

proof fn lemma_kid(node: JsonView, id: Seq<char>)
    requires
        raw::list_under(node, "children"@) is Some,
        raw::list_under(node, "children"@)->0.contains(JsonView::Text(id)),
    ensures
        chatgpt::children(node).contains(id),
{
    let items = raw::list_under(node, "children"@)->0;
    raw::lemma_reads(node);
    lemma_str_kept(items, id);
}

proof fn lemma_str_kept(items: Seq<JsonView>, id: Seq<char>)
    requires
        items.contains(JsonView::Text(id)),
    ensures
        items.filter_map(detect::str_fn()).contains(id),
    decreases items.len(),
{
    let before = items.drop_last();
    let earlier = before.filter_map(detect::str_fn());
    let all = items.filter_map(detect::str_fn());
    if items.last() == JsonView::Text(id) {
        assert(all =~= earlier.push(id));
        assert(all.last() == id);
    } else {
        let k = choose|k: int| 0 <= k < items.len() && items[k] == JsonView::Text(id);
        assert(before[k] == JsonView::Text(id));
        lemma_str_kept(before, id);
        let l = choose|l: int| 0 <= l < earlier.len() && earlier[l] == id;
        assert(all[l] == id);
    }
}

/// Where a walk from an id ends, the message of every node that can be reached
/// from there is among its messages, whether or not the nodes on the way have
/// one.
pub proof fn every_reachable_message_is_told(
    mapping: Seq<(Seq<char>, JsonView)>,
    path: Seq<Seq<char>>,
    depth: nat,
)
    requires
        leads_down(mapping, path),
        chatgpt::walk(mapping, path[0], depth) is Some,
    ensures
        node_says(raw::entry_under(mapping, path.last())->0) matches Some(message)
            ==> chatgpt::walk(mapping, path[0], depth)->0.contains(message),
    decreases path.len(),
{
    raw::entries_are_found_under_their_keys(mapping, path[0]);
    assert(raw::entry_under(mapping, path[0]) is Some);
    let node = raw::entry_under(mapping, path[0])->0;
    if path.len() == 1 {
        if let Some(message) = node_says(node) {
            lemma_node(node);
            assert(chatgpt::walk(mapping, path[0], depth)->0[0] == message);
        }
    } else {
        let rest = path.drop_first();
        lemma_rest_leads_down(mapping, path);
        let ids = chatgpt::children(node);
        let k = choose|k: int| 0 <= k < ids.len() && ids[k] == path[1];
        chatgpt::lemma_walk_all(mapping, ids, (depth - 1) as nat);
        assert(chatgpt::walk(mapping, ids[k], (depth - 1) as nat) is Some);
        every_reachable_message_is_told(mapping, rest, (depth - 1) as nat);
        if let Some(message) = node_says(raw::entry_under(mapping, path.last())->0) {
            lemma_told_by_child(mapping, ids, (depth - 1) as nat, k, message);
            lemma_told_below(mapping, path[0], depth, message);
        }
    }
}

proof fn lemma_rest_leads_down(mapping: Seq<(Seq<char>, JsonView)>, path: Seq<Seq<char>>)
    requires
        leads_down(mapping, path),
        path.len() > 1,
    ensures
        leads_down(mapping, path.drop_first()),
        path.drop_first()[0] == path[1],
        path.drop_first().last() == path.last(),
        chatgpt::children(raw::entry_under(mapping, path[0])->0).contains(path[1]),
{
    let rest = path.drop_first();
    assert forall|i: int| 0 <= i < rest.len() implies raw::entry_under(
        mapping,
        #[trigger] rest[i],
    ) is Some by {
        assert(rest[i] == path[i + 1]);
    }
    assert forall|i: int, j: int| 0 <= i < j < rest.len() && j == i + 1 implies has_child(
        mapping,
        #[trigger] rest[i],
        #[trigger] rest[j],
    ) by {
        assert(rest[i] == path[i + 1]);
        assert(rest[j] == path[j + 1]);
    }
    assert(path[1] == rest[0]);
    assert(has_child(mapping, path[0], path[1]));
    lemma_kid(raw::entry_under(mapping, path[0])->0, path[1]);
}

/// What is told below a node is told from the node.
proof fn lemma_told_below(
    mapping: Seq<(Seq<char>, JsonView)>,
    id: Seq<char>,
    depth: nat,
    message: MessageView,
)
    requires
        json::lookup(mapping, id) is Some,
        chatgpt::walk(mapping, id, depth) is Some,
        chatgpt::walk_all(
            mapping,
            chatgpt::children(json::lookup(mapping, id)->0),
            (depth - 1) as nat,
        )->0.contains(message),
    ensures
        chatgpt::walk(mapping, id, depth)->0.contains(message),
{
    let node = json::lookup(mapping, id)->0;
    let own = chatgpt::own_messages(node);
    let below = chatgpt::walk_all(mapping, chatgpt::children(node), (depth - 1) as nat)->0;
    let l = choose|l: int| 0 <= l < below.len() && below[l] == message;
    assert(chatgpt::walk(mapping, id, depth)->0[own.len() + l] == message);
}

proof fn lemma_told_by_child(
    mapping: Seq<(Seq<char>, JsonView)>,
    ids: Seq<Seq<char>>,
    depth: nat,
    k: int,
    message: MessageView,
)
    requires
        0 <= k < ids.len(),
        chatgpt::walk_all(mapping, ids, depth) is Some,
        chatgpt::walk(mapping, ids[k], depth) is Some,
        chatgpt::walk(mapping, ids[k], depth)->0.contains(message),
    ensures
        chatgpt::walk_all(mapping, ids, depth)->0.contains(message),
    decreases ids.len(),
{
    let all = chatgpt::walk_all(mapping, ids, depth)->0;
    let before = chatgpt::walk_all(mapping, ids.drop_last(), depth)->0;
    let last = chatgpt::walk(mapping, ids.last(), depth)->0;
    if k == ids.len() - 1 {
        let l = choose|l: int| 0 <= l < last.len() && last[l] == message;
        assert(all[before.len() + l] == message);
    } else {
        assert(ids.drop_last()[k] == ids[k]);
        lemma_told_by_child(mapping, ids.drop_last(), depth, k, message);
        let l = choose|l: int| 0 <= l < before.len() && before[l] == message;
        assert(all[l] == message);
    }
}

/// A conversation starts at the node: it has no `parent`, or one that is null or
/// an empty string.
pub open spec fn starts_here(node: JsonView) -> bool {
    let parent = raw::under(node, "parent"@);
    parent is None || parent->0 is Null || (parent->0 is Text && parent->0->Text_0.len() == 0)
}

/// A mapping is told from the first of its nodes where a conversation starts;
/// without one it holds no messages.
pub proof fn mappings_are_told_from_their_root(mapping: Seq<(Seq<char>, JsonView)>, i: int)
    ensures
        (forall|k: int| 0 <= k < mapping.len() ==> !starts_here((#[trigger] mapping[k]).1)) ==> {
            &&& chatgpt::root_id(mapping) is None
            &&& chatgpt::mapped_messages(mapping) == Some(Seq::<MessageView>::empty())
        },
        0 <= i < mapping.len() && starts_here(mapping[i].1) && (forall|k: int|
            0 <= k < i ==> !starts_here((#[trigger] mapping[k]).1)) ==> {
            &&& chatgpt::root_id(mapping) == Some(mapping[i].0)
            &&& chatgpt::mapped_messages(mapping) == chatgpt::walk(
                mapping,
                mapping[i].0,
                mapping.len(),
            )
        },
{
    if forall|k: int| 0 <= k < mapping.len() ==> !starts_here((#[trigger] mapping[k]).1) {
        lemma_no_root(mapping);
    }
    if 0 <= i < mapping.len() && starts_here(mapping[i].1) && (forall|k: int|
        0 <= k < i ==> !starts_here((#[trigger] mapping[k]).1)) {
        lemma_first_root(mapping, i);
    }
}

proof fn lemma_is_root(node: JsonView)
    ensures
        chatgpt::is_root(node) == starts_here(node),
{
    raw::lemma_reads(node);
    if let Some(JsonView::Text(id)) = raw::under(node, "parent"@) {
        if id.len() == 0 {
            assert(id =~= Seq::<char>::empty());
        }
    }
}

proof fn lemma_no_root(mapping: Seq<(Seq<char>, JsonView)>)
    requires
        forall|k: int| 0 <= k < mapping.len() ==> !starts_here((#[trigger] mapping[k]).1),
    ensures
        chatgpt::root_id(mapping) is None,
    decreases mapping.len(),
{
    if mapping.len() > 0 {
        let rest = mapping.drop_first();
        assert(!starts_here(mapping[0].1));
        lemma_is_root(mapping[0].1);
        assert forall|k: int| 0 <= k < rest.len() implies !starts_here((#[trigger] rest[k]).1) by {
            assert(rest[k] == mapping[k + 1]);
        }
        lemma_no_root(rest);
    }
}

proof fn lemma_first_root(mapping: Seq<(Seq<char>, JsonView)>, i: int)
    requires
        0 <= i < mapping.len(),
        starts_here(mapping[i].1),
        forall|k: int| 0 <= k < i ==> !starts_here((#[trigger] mapping[k]).1),
    ensures
        chatgpt::root_id(mapping) == Some(mapping[i].0),
    decreases mapping.len(),
{
    lemma_is_root(mapping[0].1);
    if i > 0 {
        let rest = mapping.drop_first();
        assert(!starts_here(mapping[0].1));
        assert(rest[i - 1] == mapping[i]);
        assert forall|k: int| 0 <= k < i - 1 implies !starts_here((#[trigger] rest[k]).1) by {
            assert(rest[k] == mapping[k + 1]);
        }
        lemma_first_root(rest, i - 1);
    }
}

} // verus!
