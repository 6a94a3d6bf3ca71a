//! The tree of documents below a directory.
//!
//! Of the entries of a directory the tree keeps the documents and the
//! directories below which a look-ahead finds a document. Kept directories
//! are built in the same way, to any depth. Siblings are ordered: directories
//! before files, and within each kind by the lowercase of the name; entries
//! that the order does not tell apart stay in enumeration order.

use crate::error::{scan_failure, scan_failure_text, AppError, ErrorView};
use crate::filter::{is_document_path, is_markdown_file, should_ignore_dir};
use crate::node::{lemma_children_view, node_views, FileNode, NodeView};
use crate::order::{insert_node, keyed, sort_nodes};
use crate::root::{found_view, require_directory, root_error};
use crate::snapshot::{entry_views, lemma_listing_view, EntryKind, EntryView, FsEntry, KindView};
use crate::tree_laws::{lemma_tree_is_sound, tree_sound};
use crate::walk::{has_document, lemma_has_document_unfolds, LOOKAHEAD_DEPTH};
use vstd::prelude::*;

verus! {

/// The node that the tree keeps for an entry, if it keeps one.
pub open spec fn select(entry: EntryView) -> Option<NodeView>
    decreases entry, 0nat,
{
    match entry.kind {
        KindView::File { .. } => if is_document_path(entry.path) {
            Some(NodeView { name: entry.name, path: entry.path, is_directory: false, children: None })
        } else {
            None
        },
        KindView::Directory { listing } => if has_document(entry, LOOKAHEAD_DEPTH as nat) {
            Some(
                NodeView {
                    name: entry.name,
                    path: entry.path,
                    is_directory: true,
                    children: Some(
                        match listing {
                            Ok(entries) => build_tree(entries),
                            Err(_) => Seq::empty(),
                        },
                    ),
                },
            )
        } else {
            None
        },
    }
}

/// The nodes that the tree keeps for entries, in the order of the entries.
pub open spec fn selected(entries: Seq<EntryView>) -> Seq<NodeView>
    decreases entries, 1nat,
{
    if entries.len() == 0 {
        Seq::empty()
    } else {
        selected(entries.drop_last()) + match select(entries.last()) {
            Some(node) => seq![node],
            None => Seq::empty(),
        }
    }
}

/// The tree for the entries of a directory.
pub open spec fn build_tree(entries: Seq<EntryView>) -> Seq<NodeView>
    decreases entries, 2nat,
{
    sort_nodes(selected(entries))
}

/// What a scan returns for what was found at `path`.
pub open spec fn scan_outcome(path: Seq<char>, found: Option<EntryView>) -> Result<
    Seq<NodeView>,
    ErrorView,
> {
    match root_error(path, found) {
        Some(error) => Err(error),
        None => match found->Some_0.kind->Directory_listing {
            Ok(entries) => Ok(build_tree(entries)),
            Err(reason) => Err(ErrorView::ScanError(scan_failure_text(reason))),
        },
    }
}

/// The view of what a scan returns.
pub open spec fn tree_view(outcome: Result<Vec<FileNode>, AppError>) -> Result<
    Seq<NodeView>,
    ErrorView,
> {
    match outcome {
        Ok(nodes) => Ok(node_views(nodes@)),
        Err(error) => Err(error@),
    }
}

/// Whether a traversal from `entry` that goes at most `depth` levels below
/// it visits a document.
pub fn visits_document(entry: &FsEntry, depth: usize) -> (found: bool)
    ensures
        found == has_document(entry@, depth as nat),
    decreases depth,
{
    proof {
        lemma_has_document_unfolds(entry@, depth as nat);
    }
    match &entry.kind {
        EntryKind::File { .. } => is_markdown_file(entry.path.as_str()),
        EntryKind::Directory { listing } => {
            if should_ignore_dir(entry.name.as_str()) || depth == 0 {
                return false;
            }
            match listing {
                Ok(entries) => {
                    let ghost below = entry_views(entries@);
                    let ghost deeper = (depth - 1) as nat;
                    proof {
                        lemma_listing_view(*entry, *entries);
                        assert(entry@.entries() == below);
                    }
                    let mut i: usize = 0;
                    while i < entries.len()
                        invariant
                            i <= entries.len(),
                            depth > 0,
                            deeper == depth - 1,
                            below == entry_views(entries@),
                            forall|k: int| 0 <= k < i ==> !#[trigger] has_document(below[k], deeper),
                            has_document(entry@, depth as nat) == exists|k: int|
                                0 <= k < below.len() && #[trigger] has_document(below[k], deeper),
                        decreases entries.len() - i,
                    {
                        if visits_document(&entries[i], depth - 1) {
                            assert(has_document(below[i as int], deeper));
                            return true;
                        }
                        i += 1;
                    }
                    false
                },
                Err(_) => false,
            }
        },
    }
}

/// Whether a look-ahead from `entry` finds a document.
pub fn contains_markdown_files(entry: &FsEntry) -> (found: bool)
    ensures
        found == has_document(entry@, LOOKAHEAD_DEPTH as nat),
{
    visits_document(entry, LOOKAHEAD_DEPTH)
}

/// The node that the tree keeps for an entry, if it keeps one.
fn select_entry(entry: &FsEntry) -> (kept: Option<FileNode>)
    ensures
        match kept {
            Some(node) => select(entry@) == Some(node@),
            None => select(entry@) is None,
        },
    decreases entry, 0nat,
{
    match &entry.kind {
        EntryKind::File { .. } => {
            if is_markdown_file(entry.path.as_str()) {
                Some(
                    FileNode {
                        name: entry.name.clone(),
                        path: entry.path.clone(),
                        is_directory: false,
                        children: None,
                    },
                )
            } else {
                None
            }
        },
        EntryKind::Directory { listing } => {
            if !contains_markdown_files(entry) {
                return None;
            }
            let children = match listing {
                Ok(entries) => {
                    proof {
                        lemma_listing_view(*entry, *entries);
                    }
                    build_file_tree(entries)
                },
                Err(_) => Vec::new(),
            };
            let ghost kept_children = children;
            let node = FileNode {
                name: entry.name.clone(),
                path: entry.path.clone(),
                is_directory: true,
                children: Some(children),
            };
            proof {
                lemma_children_view(node, kept_children);
                assert(node_views(Seq::<FileNode>::empty()) == Seq::<NodeView>::empty());
            }
            Some(node)
        },
    }
}

/// Builds the tree for the entries of a directory.
pub fn build_file_tree(entries: &Vec<FsEntry>) -> (nodes: Vec<FileNode>)
    ensures
        node_views(nodes@) == build_tree(entry_views(entries@)),
        tree_sound(node_views(nodes@)),
    decreases entries, 1nat,
{
    let ghost views = entry_views(entries@);
    let mut nodes: Vec<FileNode> = Vec::new();
    let mut keys: Vec<Vec<char>> = Vec::new();
    let mut i: usize = 0;
    proof {
        assert(views.take(0) == Seq::<EntryView>::empty());
        assert(node_views(nodes@) == Seq::<NodeView>::empty());
    }
    while i < entries.len()
        invariant
            i <= entries.len(),
            views == entry_views(entries@),
            keyed(nodes@, keys@),
            node_views(nodes@) == sort_nodes(selected(views.take(i as int))),
        decreases entries.len() - i,
    {
        let ghost done = selected(views.take(i as int));
        proof {
            let upto = views.take(i + 1);
            assert(upto.drop_last() == views.take(i as int));
            assert(upto.last() == entries[i as int]@);
        }
        match select_entry(&entries[i]) {
            Some(node) => {
                proof {
                    let more = done + seq![node@];
                    assert(more == done.push(node@));
                    assert(more.drop_last() == done);
                    assert(more.last() == node@);
                }
                insert_node(&mut nodes, &mut keys, node);
            },
            None => {
                assert(done + Seq::<NodeView>::empty() == done);
            },
        }
        i += 1;
    }
    proof {
        assert(views.take(i as int) == views);
        lemma_tree_is_sound(views);
    }
    nodes
}

/// Builds the tree of the documents below a directory.
///
/// `root` is what was found at `path`. The scan fails where nothing was found
/// there, where what was found is no directory, and where the directory could
/// not be enumerated.
pub fn scan_directory(path: String, root: Option<&FsEntry>) -> (outcome: Result<
    Vec<FileNode>,
    AppError,
>)
    ensures
        tree_view(outcome) == scan_outcome(path@, found_view(root)),
        root is None ==> tree_view(outcome) == Err::<Seq<NodeView>, ErrorView>(
            ErrorView::FileNotFound(path@),
        ),
        root matches Some(entry) && entry@.kind is File ==> tree_view(outcome) == Err::<
            Seq<NodeView>,
            ErrorView,
        >(ErrorView::NotADirectory(path@)),
        outcome matches Ok(nodes) ==> tree_sound(node_views(nodes@)),
{
    let (directory, listing) = match require_directory(path, root) {
        Ok(found) => found,
        Err(error) => {
            return Err(error);
        },
    };
    match listing {
        Ok(entries) => {
            proof {
                lemma_listing_view(*directory, *entries);
            }
            Ok(build_file_tree(entries))
        },
        Err(reason) => Err(scan_failure(reason.as_str())),
    }
}

} // verus!
