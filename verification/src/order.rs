//! The order of siblings in a tree.
//!
//! Directories come before files. Within one kind the node comes first whose
//! name, in lowercase, comes first in lexicographic order. Nodes that the
//! order does not tell apart keep the order in which they were given; where
//! it tells any two apart, the order in which they were given has no bearing.

use crate::node::{node_views, FileNode, NodeView};
use crate::text::{
    chars_precede, lemma_lex_asymmetric, lemma_lex_total, lemma_lex_transitive, lex_precedes,
    lowercase_of, text_lowercase,
};
use vstd::prelude::*;

verus! {

/// Whether `a` comes strictly before `b` among siblings: a directory before
/// a file, and within one kind the one whose lowercased name comes first.
pub open spec fn node_precedes(a: NodeView, b: NodeView) -> bool {
    if a.is_directory != b.is_directory {
        a.is_directory
    } else {
        lex_precedes(text_lowercase(a.name), text_lowercase(b.name))
    }
}

/// `sorted` with `node` put in after every node that does not come after it.
pub open spec fn insert_sorted(sorted: Seq<NodeView>, node: NodeView) -> Seq<NodeView>
    decreases sorted.len(),
{
    if sorted.len() == 0 {
        seq![node]
    } else if node_precedes(node, sorted.last()) {
        insert_sorted(sorted.drop_last(), node).push(sorted.last())
    } else {
        sorted.push(node)
    }
}

/// The nodes in sibling order, those that the order does not tell apart in
/// the order in which they stand in `nodes`.
pub open spec fn sort_nodes(nodes: Seq<NodeView>) -> Seq<NodeView>
    decreases nodes.len(),
{
    if nodes.len() == 0 {
        Seq::empty()
    } else {
        insert_sorted(sort_nodes(nodes.drop_last()), nodes.last())
    }
}

/// Whether siblings are in order: none comes strictly before one that
/// stands earlier.
pub open spec fn siblings_sorted(nodes: Seq<NodeView>) -> bool {
    forall|i: int, j: int|
        0 <= i < j < nodes.len() ==> !node_precedes(#[trigger] nodes[j], #[trigger] nodes[i])
}

/// Of two nodes at most one comes before the other.
pub proof fn lemma_order_asymmetric(a: NodeView, b: NodeView)
    ensures
        node_precedes(a, b) ==> !node_precedes(b, a),
{
    lemma_lex_asymmetric(text_lowercase(a.name), text_lowercase(b.name));
}

/// A node that does not come after a second, which does not come after a
/// third, does not come after the third.
pub proof fn lemma_order_chains(a: NodeView, b: NodeView, c: NodeView)
    requires
        !node_precedes(b, a),
        !node_precedes(c, b),
    ensures
        !node_precedes(c, a),
{
    let (ka, kb, kc) = (text_lowercase(a.name), text_lowercase(b.name), text_lowercase(c.name));
    lemma_lex_total(ka, kb);
    lemma_lex_total(kb, kc);
    lemma_lex_asymmetric(ka, kc);
    if lex_precedes(ka, kb) && lex_precedes(kb, kc) {
        lemma_lex_transitive(ka, kb, kc);
    }
}

/// Where `node` goes when it is put into `sorted`: after every node that
/// does not come after it, and before the rest.
pub open spec fn insert_place(sorted: Seq<NodeView>, node: NodeView) -> int
    decreases sorted.len(),
{
    if sorted.len() == 0 {
        0
    } else if node_precedes(node, sorted.last()) {
        insert_place(sorted.drop_last(), node)
    } else {
        sorted.len() as int
    }
}

/// Putting a node in puts it at its place and moves nothing else.
pub proof fn lemma_insert_sorted_inserts(sorted: Seq<NodeView>, node: NodeView)
    ensures
        0 <= insert_place(sorted, node) <= sorted.len(),
        insert_sorted(sorted, node) == sorted.insert(insert_place(sorted, node), node),
        forall|j: int|
            insert_place(sorted, node) <= j < sorted.len() ==> node_precedes(
                node,
                #[trigger] sorted[j],
            ),
        insert_place(sorted, node) > 0 ==> !node_precedes(
            node,
            sorted[insert_place(sorted, node) - 1],
        ),
    decreases sorted.len(),
{
    if sorted.len() == 0 {
        assert(sorted.insert(0, node) == seq![node]);
    } else if node_precedes(node, sorted.last()) {
        let front = sorted.drop_last();
        lemma_insert_sorted_inserts(front, node);
        let at = insert_place(front, node);
        assert(front.insert(at, node).push(sorted.last()) == sorted.insert(at, node));
        assert forall|j: int| at <= j < sorted.len() implies node_precedes(
            node,
            #[trigger] sorted[j],
        ) by {
            if j < front.len() {
                assert(sorted[j] == front[j]);
            }
        }
    } else {
        assert(sorted.insert(sorted.len() as int, node) == sorted.push(node));
    }
}

/// Putting a node into siblings that are in order leaves them in order.
pub proof fn lemma_insert_keeps_sorted(sorted: Seq<NodeView>, node: NodeView)
    requires
        siblings_sorted(sorted),
    ensures
        siblings_sorted(insert_sorted(sorted, node)),
{
    lemma_insert_sorted_inserts(sorted, node);
    let at = insert_place(sorted, node);
    let after = sorted.insert(at, node);
    assert forall|i: int, j: int| 0 <= i < j < after.len() implies !node_precedes(
        #[trigger] after[j],
        #[trigger] after[i],
    ) by {
        if j == at {
            assert(after[i] == sorted[i]);
            if i < at - 1 {
                lemma_order_chains(sorted[i], sorted[at - 1], node);
            }
        } else if i == at {
            assert(after[j] == sorted[j - 1]);
            lemma_order_asymmetric(node, sorted[j - 1]);
        } else {
            let before = if i < at { i } else { i - 1 };
            let behind = if j < at { j } else { j - 1 };
            assert(after[i] == sorted[before]);
            assert(after[j] == sorted[behind]);
        }
    }
}

/// Sorted siblings are in order.
pub proof fn lemma_sort_sorts(nodes: Seq<NodeView>)
    ensures
        siblings_sorted(sort_nodes(nodes)),
    decreases nodes.len(),
{
    if nodes.len() > 0 {
        lemma_sort_sorts(nodes.drop_last());
        lemma_insert_keeps_sorted(sort_nodes(nodes.drop_last()), nodes.last());
    }
}

/// Sorting neither adds a node nor drops one.
pub proof fn lemma_sort_permutes(nodes: Seq<NodeView>)
    ensures
        sort_nodes(nodes).to_multiset() == nodes.to_multiset(),
        sort_nodes(nodes).len() == nodes.len(),
    decreases nodes.len(),
{
    broadcast use vstd::seq_lib::group_to_multiset_ensures;

    if nodes.len() > 0 {
        let front = nodes.drop_last();
        lemma_sort_permutes(front);
        lemma_insert_sorted_inserts(sort_nodes(front), nodes.last());
        assert(nodes == front.push(nodes.last()));
    } else {
        assert(sort_nodes(nodes) == nodes);
    }
}

/// A node stands among sorted siblings exactly when it stands among the
/// siblings as given.
pub proof fn lemma_sort_keeps_members(nodes: Seq<NodeView>, node: NodeView)
    ensures
        sort_nodes(nodes).contains(node) == nodes.contains(node),
{
    lemma_sort_permutes(nodes);
    vstd::seq_lib::to_multiset_contains(sort_nodes(nodes), node);
    vstd::seq_lib::to_multiset_contains(nodes, node);
}

/// Whether the order does not tell two nodes apart.
pub open spec fn ties(a: NodeView, b: NodeView) -> bool {
    !node_precedes(a, b) && !node_precedes(b, a)
}

/// Those of the nodes that the order does not tell apart from `like`, in the
/// order in which they stand.
pub open spec fn tied_with(nodes: Seq<NodeView>, like: NodeView) -> Seq<NodeView>
    decreases nodes.len(),
{
    if nodes.len() == 0 {
        Seq::empty()
    } else if ties(nodes.last(), like) {
        tied_with(nodes.drop_last(), like).push(nodes.last())
    } else {
        tied_with(nodes.drop_last(), like)
    }
}

/// Of two sequences joined, the nodes tied with `like` are those of the
/// first, then those of the second.
proof fn lemma_tied_with_concat(a: Seq<NodeView>, b: Seq<NodeView>, like: NodeView)
    ensures
        tied_with(a + b, like) == tied_with(a, like) + tied_with(b, like),
    decreases b.len(),
{
    if b.len() == 0 {
        assert(a + b == a);
        assert(tied_with(a, like) + tied_with(b, like) == tied_with(a, like));
    } else {
        lemma_tied_with_concat(a, b.drop_last(), like);
        assert((a + b).drop_last() == a + b.drop_last());
        assert((a + b).last() == b.last());
        if ties(b.last(), like) {
            assert((tied_with(a, like) + tied_with(b.drop_last(), like)).push(b.last())
                == tied_with(a, like) + tied_with(b.drop_last(), like).push(b.last()));
        }
    }
}

/// Where no node is tied with `like`, none is kept.
proof fn lemma_tied_with_none(nodes: Seq<NodeView>, like: NodeView)
    requires
        forall|j: int| 0 <= j < nodes.len() ==> !ties(#[trigger] nodes[j], like),
    ensures
        tied_with(nodes, like) == Seq::<NodeView>::empty(),
    decreases nodes.len(),
{
    if nodes.len() > 0 {
        let front = nodes.drop_last();
        assert forall|j: int| 0 <= j < front.len() implies !ties(#[trigger] front[j], like) by {
            assert(front[j] == nodes[j]);
        }
        lemma_tied_with_none(front, like);
        assert(!ties(nodes[nodes.len() - 1], like));
    }
}

/// Sorting keeps nodes that the order does not tell apart in the order in
/// which they were given.
pub proof fn lemma_sort_is_stable(nodes: Seq<NodeView>, like: NodeView)
    ensures
        tied_with(sort_nodes(nodes), like) == tied_with(nodes, like),
    decreases nodes.len(),
{
    if nodes.len() > 0 {
        let front = nodes.drop_last();
        let node = nodes.last();
        let sorted = sort_nodes(front);
        lemma_sort_is_stable(front, like);
        lemma_insert_sorted_inserts(sorted, node);
        let at = insert_place(sorted, node);
        let before = sorted.take(at);
        let behind = sorted.skip(at);
        assert(sorted == before + behind);
        assert(sorted.insert(at, node) == before + seq![node] + behind);
        lemma_tied_with_concat(before, behind, like);
        lemma_tied_with_concat(before + seq![node], behind, like);
        lemma_tied_with_concat(before, seq![node], like);
        assert(seq![node].drop_last() == Seq::<NodeView>::empty());
        assert(tied_with(seq![node].drop_last(), like) == Seq::<NodeView>::empty());
        if ties(node, like) {
            assert forall|j: int| 0 <= j < behind.len() implies !ties(
                #[trigger] behind[j],
                like,
            ) by {
                assert(behind[j] == sorted[at + j]);
                assert(node_precedes(node, sorted[at + j]));
                if ties(behind[j], like) {
                    lemma_order_chains(behind[j], like, node);
                }
            }
            lemma_tied_with_none(behind, like);
            assert(tied_with(seq![node], like) == seq![node]);
            assert(tied_with(before, like) + seq![node] + Seq::<NodeView>::empty() == (tied_with(
                before,
                like,
            ) + Seq::<NodeView>::empty()).push(node));
        } else {
            assert(tied_with(seq![node], like) == Seq::<NodeView>::empty());
            assert(tied_with(before, like) + Seq::<NodeView>::empty() + tied_with(behind, like)
                == tied_with(before, like) + tied_with(behind, like));
        }
    }
}

/// Whether the order tells any two of the nodes apart.
pub open spec fn no_ties(nodes: Seq<NodeView>) -> bool {
    forall|i: int, j: int|
        0 <= i < j < nodes.len() ==> !ties(#[trigger] nodes[i], #[trigger] nodes[j])
}

/// Whether each of the nodes comes strictly before those that stand later.
pub open spec fn strictly_sorted(nodes: Seq<NodeView>) -> bool {
    forall|i: int, j: int|
        0 <= i < j < nodes.len() ==> node_precedes(#[trigger] nodes[i], #[trigger] nodes[j])
}

/// Two sequences that hold the same nodes, each node strictly before those
/// that stand later, are the same sequence.
proof fn lemma_strictly_sorted_unique(s: Seq<NodeView>, t: Seq<NodeView>)
    requires
        strictly_sorted(s),
        strictly_sorted(t),
        forall|x: NodeView| #[trigger] s.contains(x) == t.contains(x),
    ensures
        s == t,
    decreases s.len(),
{
    if s.len() == 0 {
        if t.len() > 0 {
            assert(t.contains(t[0]));
            assert(s.contains(t[0]));
        }
        assert(s =~= t);
    } else if t.len() == 0 {
        assert(s.contains(s[0]));
        assert(t.contains(s[0]));
    } else {
        let x = s.last();
        let y = t.last();
        assert(s[s.len() - 1] == x && t[t.len() - 1] == y);
        assert(s.contains(x));
        assert(t.contains(x));
        assert(t.contains(y));
        assert(s.contains(y));
        let p = choose|p: int| 0 <= p < t.len() && t[p] == x;
        let q = choose|q: int| 0 <= q < s.len() && s[q] == y;
        lemma_order_asymmetric(x, y);
        lemma_order_asymmetric(x, x);
        if p < t.len() - 1 {
            assert(node_precedes(t[p], t[t.len() - 1]));
            if q < s.len() - 1 {
                assert(node_precedes(s[q], s[s.len() - 1]));
            }
        }
        assert(x == y);
        let front = s.drop_last();
        let other = t.drop_last();
        assert forall|i: int, j: int| 0 <= i < j < front.len() implies node_precedes(
            #[trigger] front[i],
            #[trigger] front[j],
        ) by {
            assert(front[i] == s[i] && front[j] == s[j]);
        }
        assert forall|i: int, j: int| 0 <= i < j < other.len() implies node_precedes(
            #[trigger] other[i],
            #[trigger] other[j],
        ) by {
            assert(other[i] == t[i] && other[j] == t[j]);
        }
        assert forall|z: NodeView| #[trigger] front.contains(z) == other.contains(z) by {
            lemma_order_asymmetric(z, z);
            if front.contains(z) {
                let i = choose|i: int| 0 <= i < front.len() && front[i] == z;
                assert(s[i] == z);
                assert(node_precedes(s[i], s[s.len() - 1]));
                assert(s.contains(z));
                assert(t.contains(z));
                let r = choose|r: int| 0 <= r < t.len() && t[r] == z;
                assert(other[r] == z);
            }
            if other.contains(z) {
                let i = choose|i: int| 0 <= i < other.len() && other[i] == z;
                assert(t[i] == z);
                assert(node_precedes(t[i], t[t.len() - 1]));
                assert(t.contains(z));
                assert(s.contains(z));
                let r = choose|r: int| 0 <= r < s.len() && s[r] == z;
                assert(front[r] == z);
            }
        }
        lemma_strictly_sorted_unique(front, other);
        assert(s =~= front.push(x));
        assert(t =~= other.push(y));
    }
}

/// Nodes of which the order tells any two apart, and any other arrangement
/// of the same nodes, come out of sorting with each node strictly before
/// those that stand later.
proof fn lemma_sort_is_strict(given: Seq<NodeView>, nodes: Seq<NodeView>)
    requires
        no_ties(given),
        nodes.to_multiset() == given.to_multiset(),
    ensures
        strictly_sorted(sort_nodes(nodes)),
{
    let sorted = sort_nodes(nodes);
    assert forall|i: int, j: int| 0 <= i < given.len() && 0 <= j < given.len() && i
        != j implies given[i] != given[j] by {
        lemma_order_asymmetric(given[i], given[i]);
        if given[i] == given[j] {
            if i < j {
                assert(!ties(given[i], given[j]));
            } else {
                assert(!ties(given[j], given[i]));
            }
        }
    }
    assert(given.no_duplicates());
    given.lemma_multiset_has_no_duplicates();
    lemma_sort_permutes(nodes);
    sorted.lemma_multiset_has_no_duplicates_conv();
    lemma_sort_sorts(nodes);
    assert forall|i: int, j: int| 0 <= i < j < sorted.len() implies node_precedes(
        #[trigger] sorted[i],
        #[trigger] sorted[j],
    ) by {
        let (x, y) = (sorted[i], sorted[j]);
        assert(x != y);
        assert(sorted.contains(x) && sorted.contains(y));
        vstd::seq_lib::to_multiset_contains(sorted, x);
        vstd::seq_lib::to_multiset_contains(sorted, y);
        vstd::seq_lib::to_multiset_contains(given, x);
        vstd::seq_lib::to_multiset_contains(given, y);
        let a = choose|a: int| 0 <= a < given.len() && given[a] == x;
        let b = choose|b: int| 0 <= b < given.len() && given[b] == y;
        if a < b {
            assert(!ties(given[a], given[b]));
        } else {
            assert(!ties(given[b], given[a]));
        }
    }
}

/// Nodes of which the order tells any two apart come out of sorting in one
/// order, in whatever order they were given.
pub proof fn lemma_sort_ignores_given_order(first: Seq<NodeView>, second: Seq<NodeView>)
    requires
        no_ties(first),
        second.to_multiset() == first.to_multiset(),
    ensures
        sort_nodes(first) == sort_nodes(second),
{
    lemma_sort_is_strict(first, first);
    lemma_sort_is_strict(first, second);
    assert forall|x: NodeView| #[trigger]
        sort_nodes(first).contains(x) == sort_nodes(second).contains(x) by {
        lemma_sort_keeps_members(first, x);
        lemma_sort_keeps_members(second, x);
        vstd::seq_lib::to_multiset_contains(first, x);
        vstd::seq_lib::to_multiset_contains(second, x);
    }
    lemma_strictly_sorted_unique(sort_nodes(first), sort_nodes(second));
}

/// Whether `keys` holds, node for node, the lowercased names of `nodes`.
pub open spec fn keyed(nodes: Seq<FileNode>, keys: Seq<Vec<char>>) -> bool {
    &&& keys.len() == nodes.len()
    &&& forall|k: int| 0 <= k < nodes.len() ==> (#[trigger] keys[k])@ == text_lowercase(nodes[k].name@)
}

/// The place that the rule names is the only one that meets it.
proof fn lemma_insert_place(sorted: Seq<NodeView>, node: NodeView, at: int)
    requires
        0 <= at <= sorted.len(),
        forall|j: int| at <= j < sorted.len() ==> node_precedes(node, #[trigger] sorted[j]),
        at > 0 ==> !node_precedes(node, sorted[at - 1]),
    ensures
        insert_place(sorted, node) == at,
    decreases sorted.len(),
{
    if sorted.len() > 0 && at < sorted.len() {
        let front = sorted.drop_last();
        assert(node_precedes(node, sorted[sorted.len() - 1]));
        assert forall|j: int| at <= j < front.len() implies node_precedes(
            node,
            #[trigger] front[j],
        ) by {
            assert(front[j] == sorted[j]);
        }
        assert(at > 0 ==> front[at - 1] == sorted[at - 1]);
        lemma_insert_place(front, node, at);
    }
}

/// Whether a node of the given kind and lowercased name comes strictly before
/// another among siblings.
pub fn comes_before(
    directory: bool,
    key: &[char],
    other_directory: bool,
    other_key: &[char],
) -> (before: bool)
    ensures
        before == if directory != other_directory {
            directory
        } else {
            lex_precedes(key@, other_key@)
        },
{
    if directory != other_directory {
        directory
    } else {
        chars_precede(key, other_key)
    }
}

/// Puts `node` into `nodes`, which are in sibling order, after every node
/// that does not come after it.
pub(crate) fn insert_node(nodes: &mut Vec<FileNode>, keys: &mut Vec<Vec<char>>, node: FileNode)
    requires
        keyed(old(nodes)@, old(keys)@),
    ensures
        keyed(final(nodes)@, final(keys)@),
        node_views(final(nodes)@) == insert_sorted(node_views(old(nodes)@), node@),
{
    let key = lowercase_of(node.name.as_str());
    let ghost views = node_views(nodes@);
    let mut at: usize = nodes.len();
    loop
        invariant
            nodes@ == old(nodes)@,
            keys@ == old(keys)@,
            keyed(nodes@, keys@),
            views == node_views(nodes@),
            key@ == text_lowercase(node@.name),
            at <= nodes.len(),
            forall|j: int| at <= j < views.len() ==> node_precedes(node@, #[trigger] views[j]),
        ensures
            at > 0 ==> !node_precedes(node@, views[at - 1]),
        decreases at,
    {
        if at == 0 {
            break ;
        }
        let other = &nodes[at - 1];
        assert(views[at - 1] == other@);
        if !comes_before(
            node.is_directory,
            key.as_slice(),
            other.is_directory,
            keys[at - 1].as_slice(),
        ) {
            break ;
        }
        at -= 1;
    }
    proof {
        lemma_insert_place(views, node@, at as int);
        lemma_insert_sorted_inserts(views, node@);
        assert(node_views(nodes@.insert(at as int, node)) == views.insert(at as int, node@));
    }
    nodes.insert(at, node);
    keys.insert(at, key);
}

} // verus!
