//! The ways in which a command fails.

use vstd::prelude::*;
use vstd::string::StringExecFns;

verus! {

/// Why a command could not produce its result.
#[derive(Debug, Clone, PartialEq, Eq)]
pub enum AppError {
    /// Nothing exists at the path; holds the path.
    FileNotFound(String),
    /// The path exists but names no directory; holds the path.
    NotADirectory(String),
    /// A file's text could not be read; holds the reason.
    ReadError(String),
    /// A directory's entries could not be enumerated; holds the reason.
    ScanError(String),
    /// The user closed the folder dialog without choosing.
    DialogCancelled,
}

/// An error with its texts as character sequences.
pub enum ErrorView {
    FileNotFound(Seq<char>),
    NotADirectory(Seq<char>),
    ReadError(Seq<char>),
    ScanError(Seq<char>),
    DialogCancelled,
}

impl View for AppError {
    type V = ErrorView;

    open spec fn view(&self) -> ErrorView {
        match self {
            AppError::FileNotFound(path) => ErrorView::FileNotFound(path@),
            AppError::NotADirectory(path) => ErrorView::NotADirectory(path@),
            AppError::ReadError(reason) => ErrorView::ReadError(reason@),
            AppError::ScanError(reason) => ErrorView::ScanError(reason@),
            AppError::DialogCancelled => ErrorView::DialogCancelled,
        }
    }
}

/// What a scan error holds for a directory that could not be enumerated
/// for the given reason.
pub open spec fn scan_failure_text(reason: Seq<char>) -> Seq<char> {
    "読み込みエラー: "@ + reason
}

/// The error for a directory that could not be enumerated for the given
/// reason.
pub fn scan_failure(reason: &str) -> (error: AppError)
    ensures
        error@ == ErrorView::ScanError(scan_failure_text(reason@)),
{
    let mut text = "読み込みエラー: ".to_owned();
    text.append(reason);
    AppError::ScanError(text)
}

} // verus!
