//! The nodes of a tree of documents.

use vstd::prelude::*;

verus! {

/// One entry of a tree: a document, or a directory with what the tree keeps
/// of its entries.
#[derive(Debug, PartialEq, Eq)]
pub struct FileNode {
    /// The final segment of the path.
    pub name: String,
    /// The full path.
    pub path: String,
    /// Whether the entry is a directory.
    pub is_directory: bool,
    /// The kept entries of a directory; absent for a file.
    pub children: Option<Vec<FileNode>>,
}

/// A node with its texts as character sequences.
pub struct NodeView {
    pub name: Seq<char>,
    pub path: Seq<char>,
    pub is_directory: bool,
    pub children: Option<Seq<NodeView>>,
}

/// The view of a node: its texts as character sequences, and its children
/// viewed one by one.
pub open spec fn node_view(node: FileNode) -> NodeView
    decreases node,
{
    NodeView {
        name: node.name@,
        path: node.path@,
        is_directory: node.is_directory,
        children: match node.children {
            Some(children) => Some(
                Seq::new(
                    children@.len(),
                    |i: int|
                        if 0 <= i < children@.len() {
                            node_view(children@[i])
                        } else {
                            arbitrary()
                        },
                ),
            ),
            None => None,
        },
    }
}

impl View for FileNode {
    type V = NodeView;

    open spec fn view(&self) -> NodeView {
        node_view(*self)
    }
}

/// The views of a sequence of nodes.
pub open spec fn node_views(nodes: Seq<FileNode>) -> Seq<NodeView> {
    nodes.map_values(|node: FileNode| node@)
}

/// The children of a node are viewed node by node.
pub proof fn lemma_children_view(node: FileNode, children: Vec<FileNode>)
    requires
        node.children == Some(children),
    ensures
        node@.children == Some(node_views(children@)),
{
    assert(node@.children->Some_0 =~= node_views(children@));
}

/// A copy of each of `nodes`.
fn clone_nodes(nodes: &Vec<FileNode>) -> (copies: Vec<FileNode>)
    ensures
        node_views(copies@) == node_views(nodes@),
    decreases nodes, 0nat,
{
    let mut copies: Vec<FileNode> = Vec::new();
    let mut i: usize = 0;
    while i < nodes.len()
        invariant
            i <= nodes.len(),
            node_views(copies@) == node_views(nodes@.take(i as int)),
        decreases nodes.len() - i,
    {
        let copy = nodes[i].clone();
        let ghost before = copies@;
        copies.push(copy);
        assert(node_views(copies@) == node_views(before).push(copy@));
        assert(node_views(nodes@.take(i + 1)) == node_views(nodes@.take(i as int)).push(
            nodes[i as int]@,
        ));
        i += 1;
    }
    assert(nodes@.take(i as int) == nodes@);
    copies
}

impl Clone for FileNode {
    /// A copy of the node and of all beneath it.
    fn clone(&self) -> (copy: FileNode)
        ensures
            copy@ == self@,
        decreases self, 1nat,
    {
        let children = match &self.children {
            Some(nodes) => {
                let copies = clone_nodes(nodes);
                proof {
                    lemma_children_view(*self, *nodes);
                }
                Some(copies)
            },
            None => None,
        };
        let ghost kept = children;
        let copy = FileNode {
            name: self.name.clone(),
            path: self.path.clone(),
            is_directory: self.is_directory,
            children,
        };
        proof {
            if let Some(nodes) = kept {
                lemma_children_view(copy, nodes);
            }
        }
        copy
    }
}

} // verus!
