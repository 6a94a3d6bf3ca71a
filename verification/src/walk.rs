//! The entries that a traversal of a snapshot visits, and their order.
//!
//! A traversal visits an entry, then, where the entry is an enumerated
//! directory, the entries beneath it in enumeration order. It neither visits
//! nor enters a directory whose name is left out by the filtering policy, and
//! it goes no more than a given number of levels below the entry it starts at.

use crate::filter::{is_document_path, is_ignored_name};
use crate::snapshot::{EntryView, KindView};
use vstd::prelude::*;

verus! {

/// How many levels below a directory are searched for a document before the
/// directory is shown in a tree.
pub const LOOKAHEAD_DEPTH: usize = 10;

/// How many levels below the root a search goes.
pub const SEARCH_DEPTH: usize = 100;

/// The entries that a traversal from `entry` visits, going at most `depth`
/// levels below it.
pub open spec fn walk(entry: EntryView, depth: nat) -> Seq<EntryView>
    decreases depth, 0nat, 0nat,
{
    match entry.kind {
        KindView::File { .. } => seq![entry],
        KindView::Directory { listing } => {
            if is_ignored_name(entry.name) {
                Seq::empty()
            } else if depth == 0 {
                seq![entry]
            } else {
                match listing {
                    Ok(entries) => seq![entry] + walk_all(entries, (depth - 1) as nat),
                    Err(_) => seq![entry],
                }
            }
        },
    }
}

/// The entries that traversals from each of `entries` visit, one traversal
/// after the other.
pub open spec fn walk_all(entries: Seq<EntryView>, depth: nat) -> Seq<EntryView>
    decreases depth, 1nat, entries.len(),
{
    if entries.len() == 0 {
        Seq::empty()
    } else {
        walk_all(entries.drop_last(), depth) + walk(entries.last(), depth)
    }
}

/// Whether an entry is a document: a file whose path names one.
pub open spec fn is_document_entry(entry: EntryView) -> bool {
    entry.kind is File && is_document_path(entry.path)
}

/// Whether one of `entries` is a document.
pub open spec fn any_document(entries: Seq<EntryView>) -> bool {
    exists|i: int| 0 <= i < entries.len() && is_document_entry(#[trigger] entries[i])
}

/// Whether a traversal from `entry` that goes at most `depth` levels below
/// it visits a document.
pub open spec fn has_document(entry: EntryView, depth: nat) -> bool {
    any_document(walk(entry, depth))
}

/// A document is among two sequences joined exactly when it is among one of
/// them.
pub proof fn lemma_any_document_concat(a: Seq<EntryView>, b: Seq<EntryView>)
    ensures
        any_document(a + b) == (any_document(a) || any_document(b)),
{
    if any_document(a) {
        let i = choose|i: int| 0 <= i < a.len() && is_document_entry(#[trigger] a[i]);
        assert((a + b)[i] == a[i]);
    }
    if any_document(b) {
        let i = choose|i: int| 0 <= i < b.len() && is_document_entry(#[trigger] b[i]);
        assert((a + b)[a.len() + i] == b[i]);
    }
    if any_document(a + b) {
        let i = choose|i: int| 0 <= i < (a + b).len() && is_document_entry(#[trigger] (a + b)[i]);
        if i < a.len() {
            assert(a[i] == (a + b)[i]);
        } else {
            assert(b[i - a.len()] == (a + b)[i]);
        }
    }
}

/// Traversals from a sequence of entries visit a document exactly when the
/// traversal from one of the entries does.
pub proof fn lemma_any_document_walk_all(entries: Seq<EntryView>, depth: nat)
    ensures
        any_document(walk_all(entries, depth)) == exists|i: int|
            0 <= i < entries.len() && #[trigger] has_document(entries[i], depth),
    decreases entries.len(),
{
    if entries.len() > 0 {
        let front = entries.drop_last();
        lemma_any_document_walk_all(front, depth);
        lemma_any_document_concat(walk_all(front, depth), walk(entries.last(), depth));
        if any_document(walk_all(front, depth)) {
            let i = choose|i: int| 0 <= i < front.len() && #[trigger] has_document(front[i], depth);
            assert(has_document(entries[i], depth));
        }
        if has_document(entries.last(), depth) {
            assert(has_document(entries[entries.len() - 1], depth));
        }
        if exists|i: int| 0 <= i < entries.len() && #[trigger] has_document(entries[i], depth) {
            let i = choose|i: int|
                0 <= i < entries.len() && #[trigger] has_document(entries[i], depth);
            if i < front.len() {
                assert(has_document(front[i], depth));
            }
        }
    }
}

/// What it takes for a traversal to visit a document: a file must be one; a
/// directory must be entered, and the traversal from one of its entries, one
/// level less deep, must visit one.
pub proof fn lemma_has_document_unfolds(entry: EntryView, depth: nat)
    ensures
        has_document(entry, depth) == match entry.kind {
            KindView::File { .. } => is_document_path(entry.path),
            KindView::Directory { .. } => {
                &&& !is_ignored_name(entry.name)
                &&& depth > 0
                &&& exists|k: int|
                    0 <= k < entry.entries().len() && #[trigger] has_document(
                        entry.entries()[k],
                        (depth - 1) as nat,
                    )
            },
        },
{
    let alone = seq![entry];
    assert(alone[0] == entry);
    assert(any_document(alone) == is_document_entry(entry));
    if entry.kind is Directory && !is_ignored_name(entry.name) && depth > 0 {
        let below = entry.entries();
        let deeper = (depth - 1) as nat;
        lemma_any_document_walk_all(below, deeper);
        if entry.kind->Directory_listing is Ok {
            lemma_any_document_concat(alone, walk_all(below, deeper));
        }
    }
}

/// A traversal that may go deeper visits every document that a shallower
/// one visits.
pub proof fn lemma_has_document_deeper(entry: EntryView, depth: nat, more: nat)
    requires
        has_document(entry, depth),
        depth <= more,
    ensures
        has_document(entry, more),
    decreases depth,
{
    lemma_has_document_unfolds(entry, depth);
    lemma_has_document_unfolds(entry, more);
    if entry.kind is Directory {
        let k = choose|k: int|
            0 <= k < entry.entries().len() && #[trigger] has_document(
                entry.entries()[k],
                (depth - 1) as nat,
            );
        lemma_has_document_deeper(entry.entries()[k], (depth - 1) as nat, (more - 1) as nat);
    }
}

} // verus!
