//! What the folder dialog and the reading of a single file come to.
//!
//! Showing the dialog and reading the file are left to the caller; what is
//! returned for each way in which they can end is decided here.

use crate::error::{AppError, ErrorView};
use vstd::prelude::*;

verus! {

/// The view of a text or the error in its place.
pub open spec fn text_view(outcome: Result<String, AppError>) -> Result<Seq<char>, ErrorView> {
    match outcome {
        Ok(text) => Ok(text@),
        Err(error) => Err(error@),
    }
}

/// What the folder dialog comes to: the path that the user chose, or the
/// error where the user chose none.
pub open spec fn dialog_outcome(chosen: Option<Seq<char>>) -> Result<Seq<char>, ErrorView> {
    match chosen {
        Some(path) => Ok(path),
        None => Err(ErrorView::DialogCancelled),
    }
}

/// What reading the file at `path` comes to. `read` is absent where nothing
/// exists at the path; otherwise it holds the text, or the reason why the
/// text could not be read.
pub open spec fn read_outcome(
    path: Seq<char>,
    read: Option<Result<Seq<char>, Seq<char>>>,
) -> Result<Seq<char>, ErrorView> {
    match read {
        None => Err(ErrorView::FileNotFound(path)),
        Some(Ok(text)) => Ok(text),
        Some(Err(reason)) => Err(ErrorView::ReadError(reason)),
    }
}

/// The view of what the user chose in the folder dialog.
pub open spec fn chosen_view(chosen: Option<String>) -> Option<Seq<char>> {
    match chosen {
        Some(path) => Some(path@),
        None => None,
    }
}

/// The view of what was read of a file.
pub open spec fn read_view(read: Option<Result<String, String>>) -> Option<
    Result<Seq<char>, Seq<char>>,
> {
    match read {
        None => None,
        Some(Ok(text)) => Some(Ok(text@)),
        Some(Err(reason)) => Some(Err(reason@)),
    }
}

/// Returns the path that the user chose in the folder dialog, or the error
/// where the user chose none.
pub fn open_directory_dialog(chosen: Option<String>) -> (outcome: Result<String, AppError>)
    ensures
        text_view(outcome) == dialog_outcome(chosen_view(chosen)),
{
    match chosen {
        Some(path) => Ok(path),
        None => Err(AppError::DialogCancelled),
    }
}

/// Returns the text that was read of the file at `path`, or the error where
/// nothing exists there or the text could not be read.
pub fn read_file_content(path: String, read: Option<Result<String, String>>) -> (outcome: Result<
    String,
    AppError,
>)
    ensures
        text_view(outcome) == read_outcome(path@, read_view(read)),
{
    match read {
        None => Err(AppError::FileNotFound(path)),
        Some(Ok(text)) => Ok(text),
        Some(Err(reason)) => Err(AppError::ReadError(reason)),
    }
}

} // verus!
