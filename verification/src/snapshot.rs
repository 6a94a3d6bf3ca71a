//! A directory tree as it was read, held as plain values.
//!
//! The commands decide on a snapshot: what a reader found below a path, with
//! the entries of each directory in the order in which they were enumerated.

use vstd::prelude::*;

verus! {

/// One entry of a directory tree.
#[derive(Debug, PartialEq, Eq)]
pub struct FsEntry {
    /// The final segment of the path.
    pub name: String,
    /// The full path.
    pub path: String,
    /// What the entry is, and what was read of it.
    pub kind: EntryKind,
}

/// What an entry is.
#[derive(Debug, PartialEq, Eq)]
pub enum EntryKind {
    /// Anything but a directory, with its text where that was read.
    File { content: Option<String> },
    /// A directory, with its entries in enumeration order, or the reason why
    /// they could not be enumerated.
    Directory { listing: Result<Vec<FsEntry>, String> },
}

/// An entry with its texts as character sequences.
pub struct EntryView {
    pub name: Seq<char>,
    pub path: Seq<char>,
    pub kind: KindView,
}

/// What an entry is, with its texts as character sequences.
pub enum KindView {
    File { content: Option<Seq<char>> },
    Directory { listing: Result<Seq<EntryView>, Seq<char>> },
}

/// The view of an entry: its texts as character sequences, and the entries
/// of an enumerated directory viewed one by one.
pub open spec fn entry_view(entry: FsEntry) -> EntryView
    decreases entry,
{
    EntryView {
        name: entry.name@,
        path: entry.path@,
        kind: match entry.kind {
            EntryKind::File { content } => KindView::File {
                content: match content {
                    Some(text) => Some(text@),
                    None => None,
                },
            },
            EntryKind::Directory { listing } => KindView::Directory {
                listing: match listing {
                    Ok(entries) => Ok(
                        Seq::new(
                            entries@.len(),
                            |i: int|
                                if 0 <= i < entries@.len() {
                                    entry_view(entries@[i])
                                } else {
                                    arbitrary()
                                },
                        ),
                    ),
                    Err(reason) => Err(reason@),
                },
            },
        },
    }
}

impl View for FsEntry {
    type V = EntryView;

    open spec fn view(&self) -> EntryView {
        entry_view(*self)
    }
}

/// The views of a sequence of entries.
pub open spec fn entry_views(entries: Seq<FsEntry>) -> Seq<EntryView> {
    entries.map_values(|e: FsEntry| e@)
}

impl EntryView {
    /// Whether the entry is a directory.
    pub open spec fn is_directory(self) -> bool {
        self.kind is Directory
    }

    /// The entries of a directory that was enumerated; empty otherwise.
    pub open spec fn entries(self) -> Seq<EntryView> {
        match self.kind {
            KindView::Directory { listing: Ok(entries) } => entries,
            _ => Seq::empty(),
        }
    }
}

/// The listing of an enumerated directory is viewed entry by entry.
pub proof fn lemma_listing_view(entry: FsEntry, entries: Vec<FsEntry>)
    requires
        entry.kind == (EntryKind::Directory { listing: Ok(entries) }),
    ensures
        entry@.kind == (KindView::Directory { listing: Ok(entry_views(entries@)) }),
{
    let viewed = entry@.kind->Directory_listing->Ok_0;
    assert(viewed =~= entry_views(entries@));
}

impl FsEntry {
    /// A file, with its text where that was read.
    pub fn file(name: String, path: String, content: Option<String>) -> (entry: FsEntry)
        ensures
            entry@ == (EntryView {
                name: name@,
                path: path@,
                kind: KindView::File {
                    content: match content {
                        Some(text) => Some(text@),
                        None => None,
                    },
                },
            }),
    {
        FsEntry { name, path, kind: EntryKind::File { content } }
    }

    /// A directory whose entries were enumerated.
    pub fn directory(name: String, path: String, entries: Vec<FsEntry>) -> (entry: FsEntry)
        ensures
            entry@ == (EntryView {
                name: name@,
                path: path@,
                kind: KindView::Directory { listing: Ok(entry_views(entries@)) },
            }),
    {
        let ghost listed = entries;
        let entry = FsEntry { name, path, kind: EntryKind::Directory { listing: Ok(entries) } };
        proof {
            lemma_listing_view(entry, listed);
        }
        entry
    }

    /// A directory whose entries could not be enumerated.
    pub fn unreadable_directory(name: String, path: String, reason: String) -> (entry: FsEntry)
        ensures
            entry@ == (EntryView {
                name: name@,
                path: path@,
                kind: KindView::Directory { listing: Err(reason@) },
            }),
    {
        FsEntry { name, path, kind: EntryKind::Directory { listing: Err(reason) } }
    }
}

} // verus!
