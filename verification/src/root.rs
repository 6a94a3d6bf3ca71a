//! What a command finds at the path that it is given.
//!
//! The tree and the search both need a directory there, and fail alike
//! where there is none.

use crate::error::{AppError, ErrorView};
use crate::snapshot::{EntryKind, EntryView, FsEntry, KindView};
use vstd::prelude::*;

verus! {

/// What was found at a path, viewed.
pub open spec fn found_view(found: Option<&FsEntry>) -> Option<EntryView> {
    match found {
        Some(entry) => Some(entry@),
        None => None,
    }
}

/// The error with which a command that needs a directory at `path` fails
/// for what was found there; none where a directory was found.
pub open spec fn root_error(path: Seq<char>, found: Option<EntryView>) -> Option<ErrorView> {
    match found {
        None => Some(ErrorView::FileNotFound(path)),
        Some(entry) => match entry.kind {
            KindView::File { .. } => Some(ErrorView::NotADirectory(path)),
            KindView::Directory { .. } => None,
        },
    }
}

/// The directory found at `path` with its listing, or the error where none
/// was found there.
pub fn require_directory<'a>(path: String, found: Option<&'a FsEntry>) -> (checked: Result<
    (&'a FsEntry, &'a Result<Vec<FsEntry>, String>),
    AppError,
>)
    ensures
        match checked {
            Ok((entry, listing)) => {
                &&& found == Some(entry)
                &&& entry.kind == (EntryKind::Directory { listing: *listing })
                &&& root_error(path@, found_view(found)) is None
            },
            Err(error) => root_error(path@, found_view(found)) == Some(error@),
        },
{
    match found {
        None => Err(AppError::FileNotFound(path)),
        Some(entry) => match &entry.kind {
            EntryKind::File { .. } => Err(AppError::NotADirectory(path)),
            EntryKind::Directory { listing } => Ok((entry, listing)),
        },
    }
}

} // verus!
