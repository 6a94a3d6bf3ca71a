//! What lies beneath a directory that is left out has no bearing on a tree
//! or on a search.

use crate::filter::is_ignored_name;
use crate::search::{entry_hits, hits_of, search_hits, HitView};
use crate::snapshot::{EntryView, KindView};
use crate::tree::{build_tree, select, selected};
use crate::walk::{
    any_document, has_document, is_document_entry, walk, walk_all, LOOKAHEAD_DEPTH, SEARCH_DEPTH,
};
use vstd::prelude::*;

verus! {

/// The entry with nothing beneath any directory in it whose name is left
/// out.
pub open spec fn without_excluded(entry: EntryView) -> EntryView
    decreases entry,
{
    match entry.kind {
        KindView::File { .. } => entry,
        KindView::Directory { listing } => EntryView {
            name: entry.name,
            path: entry.path,
            kind: KindView::Directory {
                listing: if is_ignored_name(entry.name) {
                    Ok(Seq::empty())
                } else {
                    match listing {
                        Ok(entries) => Ok(
                            Seq::new(
                                entries.len(),
                                |i: int|
                                    if 0 <= i < entries.len() {
                                        without_excluded(entries[i])
                                    } else {
                                        arbitrary()
                                    },
                            ),
                        ),
                        Err(reason) => Err(reason),
                    }
                },
            },
        },
    }
}

/// Each of the entries with nothing beneath any directory in it whose name
/// is left out.
pub open spec fn all_without_excluded(entries: Seq<EntryView>) -> Seq<EntryView> {
    entries.map_values(|entry: EntryView| without_excluded(entry))
}

/// No traversal visits or enters a directory whose name is left out, so the
/// tree keeps no node for it and a search finds nothing beneath it.
pub proof fn lemma_excluded_directory_is_skipped(
    entry: EntryView,
    depth: nat,
    needle: Seq<char>,
)
    requires
        entry.kind is Directory,
        is_ignored_name(entry.name),
    ensures
        walk(entry, depth) == Seq::<EntryView>::empty(),
        !has_document(entry, depth),
        select(entry) is None,
        hits_of(walk(entry, depth), needle) == Seq::<HitView>::empty(),
{
}

/// Of a directory that is not left out, the entries are kept, each with
/// nothing beneath the directories in it that are left out.
proof fn lemma_listing_without_excluded(entry: EntryView)
    requires
        entry.kind is Directory,
        !is_ignored_name(entry.name),
    ensures
        without_excluded(entry).kind == (KindView::Directory {
            listing: match entry.kind->Directory_listing {
                Ok(entries) => Ok(all_without_excluded(entries)),
                Err(reason) => Err(reason),
            },
        }),
{
    if let Ok(entries) = entry.kind->Directory_listing {
        assert(without_excluded(entry).kind->Directory_listing->Ok_0 =~= all_without_excluded(
            entries,
        ));
    }
}

/// A traversal visits the same entries, each with nothing beneath the
/// directories in it that are left out.
proof fn lemma_walk_without_excluded(entry: EntryView, depth: nat)
    ensures
        walk(without_excluded(entry), depth) == all_without_excluded(walk(entry, depth)),
    decreases depth, 0nat, 0nat,
{
    let bare = without_excluded(entry);
    if entry.kind is Directory {
        if !is_ignored_name(entry.name) {
            lemma_listing_without_excluded(entry);
            if depth > 0 {
                if let Ok(entries) = entry.kind->Directory_listing {
                    let deeper = (depth - 1) as nat;
                    lemma_walk_all_without_excluded(entries, deeper);
                    assert(all_without_excluded(seq![entry] + walk_all(entries, deeper))
                        == seq![bare] + all_without_excluded(walk_all(entries, deeper)));
                } else {
                    assert(all_without_excluded(seq![entry]) == seq![bare]);
                }
            } else {
                assert(all_without_excluded(seq![entry]) == seq![bare]);
            }
        } else {
            assert(all_without_excluded(Seq::<EntryView>::empty()) == Seq::<EntryView>::empty());
        }
    } else {
        assert(all_without_excluded(seq![entry]) == seq![bare]);
    }
}

/// Traversals from each of the entries visit the same entries, each with
/// nothing beneath the directories in it that are left out.
proof fn lemma_walk_all_without_excluded(entries: Seq<EntryView>, depth: nat)
    ensures
        walk_all(all_without_excluded(entries), depth) == all_without_excluded(
            walk_all(entries, depth),
        ),
    decreases depth, 1nat, entries.len(),
{
    let bare = all_without_excluded(entries);
    if entries.len() == 0 {
        assert(all_without_excluded(Seq::<EntryView>::empty()) == Seq::<EntryView>::empty());
    } else {
        lemma_walk_all_without_excluded(entries.drop_last(), depth);
        lemma_walk_without_excluded(entries.last(), depth);
        assert(bare.drop_last() == all_without_excluded(entries.drop_last()));
        assert(bare.last() == without_excluded(entries.last()));
        assert(all_without_excluded(walk_all(entries.drop_last(), depth) + walk(
            entries.last(),
            depth,
        )) == all_without_excluded(walk_all(entries.drop_last(), depth)) + all_without_excluded(
            walk(entries.last(), depth),
        ));
    }
}

/// Entries give the same hits with and without what lies beneath the
/// directories in them that are left out.
proof fn lemma_hits_without_excluded(entries: Seq<EntryView>, needle: Seq<char>)
    ensures
        hits_of(all_without_excluded(entries), needle) == hits_of(entries, needle),
    decreases entries.len(),
{
    let bare = all_without_excluded(entries);
    if entries.len() > 0 {
        lemma_hits_without_excluded(entries.drop_last(), needle);
        assert(bare.drop_last() == all_without_excluded(entries.drop_last()));
        assert(bare.last() == without_excluded(entries.last()));
        assert(entry_hits(without_excluded(entries.last()), needle) == entry_hits(
            entries.last(),
            needle,
        ));
    }
}

/// A document is among entries with and without what lies beneath the
/// directories in them that are left out.
proof fn lemma_documents_without_excluded(entries: Seq<EntryView>)
    ensures
        any_document(all_without_excluded(entries)) == any_document(entries),
{
    let bare = all_without_excluded(entries);
    assert forall|i: int| 0 <= i < entries.len() implies is_document_entry(#[trigger] bare[i])
        == is_document_entry(entries[i]) by {}
    if any_document(entries) {
        let i = choose|i: int| 0 <= i < entries.len() && is_document_entry(#[trigger] entries[i]);
        assert(is_document_entry(bare[i]));
    }
    if any_document(bare) {
        let i = choose|i: int| 0 <= i < bare.len() && is_document_entry(#[trigger] bare[i]);
        assert(is_document_entry(entries[i]));
    }
}

/// A look-ahead finds the same with and without what lies beneath the
/// directories that are left out.
pub proof fn lemma_lookahead_ignores_excluded(entry: EntryView, depth: nat)
    ensures
        has_document(without_excluded(entry), depth) == has_document(entry, depth),
{
    lemma_walk_without_excluded(entry, depth);
    lemma_documents_without_excluded(walk(entry, depth));
}

/// The tree keeps the same node for an entry with and without what lies
/// beneath the directories in it that are left out.
proof fn lemma_select_without_excluded(entry: EntryView)
    ensures
        select(without_excluded(entry)) == select(entry),
    decreases entry, 0nat,
{
    lemma_lookahead_ignores_excluded(entry, LOOKAHEAD_DEPTH as nat);
    if entry.kind is Directory && has_document(entry, LOOKAHEAD_DEPTH as nat) {
        lemma_listing_without_excluded(entry);
        if let Ok(entries) = entry.kind->Directory_listing {
            lemma_build_without_excluded(entries);
        }
    }
}

/// The tree keeps the same nodes for entries with and without what lies
/// beneath the directories in them that are left out.
proof fn lemma_selected_without_excluded(entries: Seq<EntryView>)
    ensures
        selected(all_without_excluded(entries)) == selected(entries),
    decreases entries, 1nat,
{
    let bare = all_without_excluded(entries);
    if entries.len() > 0 {
        lemma_selected_without_excluded(entries.drop_last());
        lemma_select_without_excluded(entries.last());
        assert(bare.drop_last() == all_without_excluded(entries.drop_last()));
        assert(bare.last() == without_excluded(entries.last()));
    }
}

/// The tree for entries is the same with and without what lies beneath the
/// directories in them that are left out.
proof fn lemma_build_without_excluded(entries: Seq<EntryView>)
    ensures
        build_tree(all_without_excluded(entries)) == build_tree(entries),
    decreases entries, 2nat,
{
    lemma_selected_without_excluded(entries);
}

/// The tree is the same with and without what lies beneath the directories
/// that are left out.
pub proof fn lemma_tree_ignores_excluded(entries: Seq<EntryView>)
    ensures
        build_tree(all_without_excluded(entries)) == build_tree(entries),
{
    lemma_build_without_excluded(entries);
}

/// A search finds the same with and without what lies beneath the
/// directories that are left out.
pub proof fn lemma_search_ignores_excluded(root: EntryView, needle: Seq<char>)
    ensures
        search_hits(without_excluded(root), needle) == search_hits(root, needle),
{
    lemma_walk_without_excluded(root, SEARCH_DEPTH as nat);
    lemma_hits_without_excluded(walk(root, SEARCH_DEPTH as nat), needle);
}

} // verus!
