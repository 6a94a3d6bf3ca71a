//! What holds of every tree that is built.
//!
//! Nodes below the top level are named by a trail: the position of a node
//! among the top-level nodes, then the position of a child among its
//! children, and so on.

use crate::filter::{is_document_path, is_ignored_name};
use crate::node::NodeView;
use crate::order::{
    lemma_sort_ignores_given_order, lemma_sort_keeps_members, lemma_sort_sorts, no_ties,
    siblings_sorted,
};
use crate::snapshot::{EntryView, KindView};
use crate::tree::{build_tree, select, selected};
use crate::walk::{
    has_document, lemma_has_document_deeper, lemma_has_document_unfolds, LOOKAHEAD_DEPTH,
};
use vstd::prelude::*;
use vstd::seq_lib::{lemma_multiset_commutative, to_multiset_contains, to_multiset_remove};

verus! {

/// Whether a node is a document or has one somewhere beneath it.
pub open spec fn holds_document(node: NodeView) -> bool
    decreases node,
{
    match node.children {
        None => !node.is_directory,
        Some(children) => exists|i: int|
            0 <= i < children.len() && holds_document(#[trigger] children[i]),
    }
}

/// What holds of a node by itself: a directory has children, in sibling
/// order, a name that is not left out, and a document somewhere beneath it; a
/// file has no children and is a document.
pub open spec fn node_sound(node: NodeView) -> bool {
    if node.is_directory {
        &&& node.children is Some
        &&& siblings_sorted(node.children->Some_0)
        &&& !is_ignored_name(node.name)
        &&& holds_document(node)
    } else {
        &&& node.children is None
        &&& is_document_path(node.path)
    }
}

/// Whether every node of a tree, at every level, is sound.
pub open spec fn nodes_sound(nodes: Seq<NodeView>) -> bool
    decreases nodes,
{
    forall|i: int|
        0 <= i < nodes.len() ==> {
            &&& node_sound(#[trigger] nodes[i])
            &&& nodes[i].children matches Some(children) ==> nodes_sound(children)
        }
}

/// Whether a tree is sound: its top-level nodes are in sibling order and
/// every node, at every level, is sound.
pub open spec fn tree_sound(nodes: Seq<NodeView>) -> bool {
    siblings_sorted(nodes) && nodes_sound(nodes)
}

/// The node that a trail leads to, if it leads to one.
pub open spec fn node_at(nodes: Seq<NodeView>, trail: Seq<int>) -> Option<NodeView>
    decreases trail.len(),
{
    if trail.len() == 0 || !(0 <= trail[0] < nodes.len()) {
        None
    } else if trail.len() == 1 {
        Some(nodes[trail[0]])
    } else {
        match nodes[trail[0]].children {
            Some(children) => node_at(children, trail.drop_first()),
            None => None,
        }
    }
}

/// In a tree whose nodes are all sound, every trail leads to a sound node.
pub proof fn lemma_sound_at(nodes: Seq<NodeView>, trail: Seq<int>)
    requires
        nodes_sound(nodes),
    ensures
        node_at(nodes, trail) matches Some(node) ==> node_sound(node),
    decreases trail.len(),
{
    if trail.len() > 1 && 0 <= trail[0] < nodes.len() {
        let first = nodes[trail[0]];
        if let Some(children) = first.children {
            lemma_sound_at(children, trail.drop_first());
        }
    }
}

/// The node kept for an entry from which a look-ahead finds a document is a
/// document or has one somewhere beneath it.
proof fn lemma_kept_holds_document(entry: EntryView, depth: nat)
    requires
        has_document(entry, depth),
        depth <= LOOKAHEAD_DEPTH,
    ensures
        select(entry) matches Some(node) && holds_document(node),
    decreases depth,
{
    lemma_has_document_unfolds(entry, depth);
    if entry.kind is Directory {
        lemma_has_document_deeper(entry, depth, LOOKAHEAD_DEPTH as nat);
        let below = entry.entries();
        let k = choose|k: int|
            0 <= k < below.len() && #[trigger] has_document(below[k], (depth - 1) as nat);
        lemma_kept_holds_document(below[k], (depth - 1) as nat);
        let child = select(below[k])->Some_0;
        lemma_selected_holds(below, k);
        lemma_sort_keeps_members(selected(below), child);
        let children = build_tree(below);
        let at = choose|i: int| 0 <= i < children.len() && children[i] == child;
        let node = select(entry)->Some_0;
        assert(node.children == Some(children));
        assert(holds_document(node.children->Some_0[at]));
    }
}

/// The node kept for one of the entries stands among the nodes kept for all.
proof fn lemma_selected_holds(entries: Seq<EntryView>, k: int)
    requires
        0 <= k < entries.len(),
        select(entries[k]) is Some,
    ensures
        selected(entries).contains(select(entries[k])->Some_0),
    decreases entries.len(),
{
    let front = entries.drop_last();
    let kept = selected(front);
    let last = match select(entries.last()) {
        Some(node) => seq![node],
        None => Seq::empty(),
    };
    if k < entries.len() - 1 {
        lemma_selected_holds(front, k);
        let node = select(entries[k])->Some_0;
        let at = choose|i: int| 0 <= i < kept.len() && kept[i] == node;
        assert((kept + last)[at] == node);
    } else {
        assert((kept + last)[kept.len() as int] == select(entries[k])->Some_0);
    }
}

/// Every node kept for entries is the node kept for one of them.
proof fn lemma_selected_from(entries: Seq<EntryView>, i: int) -> (k: int)
    requires
        0 <= i < selected(entries).len(),
    ensures
        0 <= k < entries.len(),
        select(entries[k]) == Some(selected(entries)[i]),
    decreases entries.len(),
{
    let front = entries.drop_last();
    let kept = selected(front);
    if i < kept.len() {
        let k = lemma_selected_from(front, i);
        assert(front[k] == entries[k]);
        k
    } else {
        entries.len() - 1
    }
}

/// The node kept for an entry is sound, and so is every node beneath it.
proof fn lemma_select_sound(entry: EntryView)
    ensures
        select(entry) matches Some(node) ==> {
            &&& node_sound(node)
            &&& node.children matches Some(children) ==> nodes_sound(children)
        },
    decreases entry, 0nat,
{
    if let Some(node) = select(entry) {
        if let KindView::Directory { listing } = entry.kind {
            lemma_kept_holds_document(entry, LOOKAHEAD_DEPTH as nat);
            lemma_has_document_unfolds(entry, LOOKAHEAD_DEPTH as nat);
            match listing {
                Ok(entries) => {
                    lemma_build_sound(entries);
                },
                Err(_) => {},
            }
        }
    }
}

/// The tree for the entries of a directory is sound.
proof fn lemma_build_sound(entries: Seq<EntryView>)
    ensures
        tree_sound(build_tree(entries)),
    decreases entries, 1nat,
{
    let kept = selected(entries);
    let tree = build_tree(entries);
    lemma_sort_sorts(kept);
    assert forall|i: int| 0 <= i < tree.len() implies {
        &&& node_sound(#[trigger] tree[i])
        &&& tree[i].children matches Some(children) ==> nodes_sound(children)
    } by {
        lemma_sort_keeps_members(kept, tree[i]);
        assert(tree.contains(tree[i]));
        let at = choose|at: int| 0 <= at < kept.len() && kept[at] == tree[i];
        let k = lemma_selected_from(entries, at);
        lemma_select_sound(entries[k]);
    }
}

/// A directory for which the tree keeps a node was enumerated, and the
/// children of the node are the tree for its entries.
pub proof fn lemma_kept_directory_was_enumerated(entry: EntryView)
    requires
        entry.kind is Directory,
        select(entry) is Some,
    ensures
        entry.kind->Directory_listing is Ok,
        select(entry)->Some_0.children == Some(build_tree(entry.entries())),
{
    lemma_has_document_unfolds(entry, LOOKAHEAD_DEPTH as nat);
}

/// The tree that is built is sound: siblings are in order at every level,
/// every directory in it has a name that is not left out and a document
/// somewhere beneath it, and every file in it is a document.
pub proof fn lemma_tree_is_sound(entries: Seq<EntryView>)
    ensures
        tree_sound(build_tree(entries)),
{
    lemma_build_sound(entries);
}

/// No directory of a tree is empty: every directory that a trail leads to
/// has a document somewhere beneath it.
pub proof fn lemma_no_empty_directory(entries: Seq<EntryView>, trail: Seq<int>)
    ensures
        node_at(build_tree(entries), trail) matches Some(node) ==> (node.is_directory
            ==> holds_document(node)),
{
    lemma_build_sound(entries);
    lemma_sound_at(build_tree(entries), trail);
}

/// Siblings are in order at every level of a tree: directories before files,
/// and within one kind by the lowercase of the name.
pub proof fn lemma_siblings_in_order(entries: Seq<EntryView>, trail: Seq<int>)
    ensures
        siblings_sorted(build_tree(entries)),
        node_at(build_tree(entries), trail) matches Some(node) ==> (node.children matches Some(
            children,
        ) ==> siblings_sorted(children)),
{
    lemma_build_sound(entries);
    lemma_sound_at(build_tree(entries), trail);
}

/// Every file of a tree is a document.
pub proof fn lemma_files_are_documents(entries: Seq<EntryView>, trail: Seq<int>)
    ensures
        node_at(build_tree(entries), trail) matches Some(node) ==> (!node.is_directory
            ==> is_document_path(node.path)),
{
    lemma_build_sound(entries);
    lemma_sound_at(build_tree(entries), trail);
}

/// No directory of a tree has a name that is left out.
pub proof fn lemma_no_excluded_directory(entries: Seq<EntryView>, trail: Seq<int>)
    ensures
        node_at(build_tree(entries), trail) matches Some(node) ==> (node.is_directory
            ==> !is_ignored_name(node.name)),
{
    lemma_build_sound(entries);
    lemma_sound_at(build_tree(entries), trail);
}

/// The nodes kept for two sequences of entries joined are those kept for the
/// first, then those kept for the second.
proof fn lemma_selected_concat(a: Seq<EntryView>, b: Seq<EntryView>)
    ensures
        selected(a + b) == selected(a) + selected(b),
    decreases b.len(),
{
    if b.len() == 0 {
        assert(a + b == a);
        assert(selected(a) + selected(b) == selected(a));
    } else {
        lemma_selected_concat(a, b.drop_last());
        assert((a + b).drop_last() == a + b.drop_last());
        assert((a + b).last() == b.last());
        let kept = match select(b.last()) {
            Some(node) => seq![node],
            None => Seq::empty(),
        };
        assert(selected(a) + (selected(b.drop_last()) + kept) == (selected(a) + selected(
            b.drop_last(),
        )) + kept);
    }
}

/// The same entries in another order keep the same nodes, in another order.
pub proof fn lemma_selected_permutes(first: Seq<EntryView>, second: Seq<EntryView>)
    requires
        first.to_multiset() == second.to_multiset(),
    ensures
        selected(first).to_multiset() == selected(second).to_multiset(),
    decreases first.len(),
{
    broadcast use vstd::multiset::group_multiset_axioms;

    vstd::seq_lib::to_multiset_len(first);
    vstd::seq_lib::to_multiset_len(second);
    if first.len() == 0 {
        assert(first =~= second);
    } else {
        let entry = first.last();
        let front = first.drop_last();
        assert(first == front.push(entry));
        vstd::seq_lib::to_multiset_build(front, entry);
        assert(first.contains(entry)) by {
            assert(first[first.len() - 1] == entry);
        }
        to_multiset_contains(first, entry);
        to_multiset_contains(second, entry);
        let at = choose|at: int| 0 <= at < second.len() && second[at] == entry;
        let rest = second.remove(at);
        to_multiset_remove(second, at);
        assert(front.to_multiset() =~= rest.to_multiset());
        lemma_selected_permutes(front, rest);
        let before = second.take(at);
        let behind = second.skip(at + 1);
        assert(rest == before + behind);
        assert(second == before + seq![entry] + behind);
        assert(first == front + seq![entry]);
        lemma_selected_concat(before, behind);
        lemma_selected_concat(before + seq![entry], behind);
        lemma_selected_concat(before, seq![entry]);
        lemma_selected_concat(front, seq![entry]);
        let kept = selected(seq![entry]);
        let (a, b, c) = (selected(before), selected(behind), selected(front));
        assert(selected(rest) == a + b);
        assert(selected(second) == (a + kept) + b);
        assert(selected(first) == c + kept);
        lemma_multiset_commutative(a, b);
        lemma_multiset_commutative(a + kept, b);
        lemma_multiset_commutative(a, kept);
        lemma_multiset_commutative(c, kept);
        assert(c.to_multiset() == a.to_multiset().add(b.to_multiset()));
        assert((c + kept).to_multiset() =~= c.to_multiset().add(kept.to_multiset()));
        assert(((a + kept) + b).to_multiset() =~= a.to_multiset().add(kept.to_multiset()).add(
            b.to_multiset(),
        ));
        assert(a.to_multiset().add(b.to_multiset()).add(kept.to_multiset()) =~= a.to_multiset().add(
            kept.to_multiset(),
        ).add(b.to_multiset()));
    }
}

/// Where the order tells any two of the kept nodes apart, the tree for
/// entries is the tree for any entries that keep the same nodes.
pub proof fn lemma_tree_ignores_order_of_kept(first: Seq<EntryView>, second: Seq<EntryView>)
    requires
        selected(first).to_multiset() == selected(second).to_multiset(),
        no_ties(selected(first)),
    ensures
        build_tree(first) == build_tree(second),
{
    lemma_sort_ignores_given_order(selected(first), selected(second));
}

/// Where the order tells any two of the kept nodes apart, the tree does not
/// depend on the order in which the entries were enumerated.
pub proof fn lemma_tree_ignores_enumeration_order(first: Seq<EntryView>, second: Seq<EntryView>)
    requires
        first.to_multiset() == second.to_multiset(),
        no_ties(selected(first)),
    ensures
        build_tree(first) == build_tree(second),
{
    lemma_selected_permutes(first, second);
    lemma_tree_ignores_order_of_kept(first, second);
}

} // verus!
