//! The filtering policy: which files are documents and which directories are
//! left out.
//!
//! A document is a file whose extension, read without regard to case, is
//! `md` or `mdc`. The extension of a path is what follows the last `.` of its
//! final segment, provided that something precedes that `.` within the
//! segment; segments are separated by `/` or `\`. A directory is left out,
//! with everything beneath it, when its name is one of `node_modules`,
//! `target`, `dist`, `build` and `.git`.

use crate::text::{chars_equal, chars_of, lowercase_text, text_lowercase};
use vstd::prelude::*;
use vstd::slice::slice_subrange;

verus! {

/// The name of the directory that holds fetched dependencies.
pub open spec fn dependency_cache_name() -> Seq<char> {
    seq!['n', 'o', 'd', 'e', '_', 'm', 'o', 'd', 'u', 'l', 'e', 's']
}

/// The name of the directory that holds compiler output.
pub open spec fn compiler_output_name() -> Seq<char> {
    seq!['t', 'a', 'r', 'g', 'e', 't']
}

/// The name of the directory that holds build output.
pub open spec fn build_output_name() -> Seq<char> {
    seq!['b', 'u', 'i', 'l', 'd']
}

/// The name of the directory that holds a packaged distribution.
pub open spec fn distribution_name() -> Seq<char> {
    seq!['d', 'i', 's', 't']
}

/// The name of the directory that holds version-control data.
pub open spec fn version_control_name() -> Seq<char> {
    seq!['.', 'g', 'i', 't']
}

/// Whether a directory of this name is left out of every traversal.
pub open spec fn is_ignored_name(name: Seq<char>) -> bool {
    ||| name == dependency_cache_name()
    ||| name == compiler_output_name()
    ||| name == build_output_name()
    ||| name == distribution_name()
    ||| name == version_control_name()
}

/// The extension of a Markdown document.
pub open spec fn primary_extension() -> Seq<char> {
    seq!['m', 'd']
}

/// The extension of a Markdown document with embedded components.
pub open spec fn companion_extension() -> Seq<char> {
    seq!['m', 'd', 'c']
}

/// Whether a lowercased extension is that of a document.
pub open spec fn is_document_extension(lowered: Seq<char>) -> bool {
    lowered == primary_extension() || lowered == companion_extension()
}

/// Whether a character separates the segments of a path.
pub open spec fn is_separator(c: char) -> bool {
    c == '/' || c == '\\'
}

/// The position just past the last separator of `path`; 0 where it has none.
pub open spec fn after_last_separator(path: Seq<char>) -> int
    decreases path.len(),
{
    if path.len() == 0 {
        0
    } else if is_separator(path.last()) {
        path.len() as int
    } else {
        after_last_separator(path.drop_last())
    }
}

/// The position just past the last `.` of `name`; 0 where it has none.
pub open spec fn after_last_dot(name: Seq<char>) -> int
    decreases name.len(),
{
    if name.len() == 0 {
        0
    } else if name.last() == '.' {
        name.len() as int
    } else {
        after_last_dot(name.drop_last())
    }
}

/// The final segment of a path.
pub open spec fn final_segment(path: Seq<char>) -> Seq<char> {
    path.skip(after_last_separator(path))
}

/// The extension of a path, where it has one.
pub open spec fn extension_of(path: Seq<char>) -> Option<Seq<char>> {
    let name = final_segment(path);
    let end = after_last_dot(name);
    if end <= 1 {
        None
    } else {
        Some(name.skip(end))
    }
}

/// Whether a path names a document.
pub open spec fn is_document_path(path: Seq<char>) -> bool {
    match extension_of(path) {
        Some(extension) => is_document_extension(text_lowercase(extension)),
        None => false,
    }
}

/// Whether a directory of this name is left out of every traversal.
pub fn should_ignore_dir(name: &str) -> (ignored: bool)
    ensures
        ignored == is_ignored_name(name@),
{
    let chars = chars_of(name);
    let dependency_cache: [char; 12] = ['n', 'o', 'd', 'e', '_', 'm', 'o', 'd', 'u', 'l', 'e', 's'];
    let compiler_output: [char; 6] = ['t', 'a', 'r', 'g', 'e', 't'];
    let build_output: [char; 5] = ['b', 'u', 'i', 'l', 'd'];
    let distribution: [char; 4] = ['d', 'i', 's', 't'];
    let version_control: [char; 4] = ['.', 'g', 'i', 't'];
    assert(dependency_cache@ =~= dependency_cache_name());
    assert(compiler_output@ =~= compiler_output_name());
    assert(build_output@ =~= build_output_name());
    assert(distribution@ =~= distribution_name());
    assert(version_control@ =~= version_control_name());
    let name = chars.as_slice();
    chars_equal(name, dependency_cache.as_slice()) || chars_equal(name, compiler_output.as_slice())
        || chars_equal(name, build_output.as_slice()) || chars_equal(
        name,
        distribution.as_slice(),
    ) || chars_equal(name, version_control.as_slice())
}

/// Whether a lowercased extension is that of a document.
pub fn has_document_extension(lowered: &[char]) -> (document: bool)
    ensures
        document == is_document_extension(lowered@),
{
    let primary: [char; 2] = ['m', 'd'];
    let companion: [char; 3] = ['m', 'd', 'c'];
    assert(primary@ =~= primary_extension());
    assert(companion@ =~= companion_extension());
    chars_equal(lowered, primary.as_slice()) || chars_equal(lowered, companion.as_slice())
}

/// The position just past the last separator of `path`.
fn segment_start(path: &[char]) -> (start: usize)
    ensures
        start == after_last_separator(path@),
        start <= path.len(),
{
    let mut i: usize = path.len();
    assert(path@.take(i as int) == path@);
    while i > 0
        invariant
            i <= path.len(),
            after_last_separator(path@) == after_last_separator(path@.take(i as int)),
        decreases i,
    {
        let c = path[i - 1];
        assert(path@.take(i as int).last() == c);
        if c == '/' || c == '\\' {
            return i;
        }
        assert(path@.take(i as int).drop_last() == path@.take(i - 1));
        i -= 1;
    }
    0
}

/// The position just past the last `.` of `name`.
fn dot_end(name: &[char]) -> (end: usize)
    ensures
        end == after_last_dot(name@),
        end <= name.len(),
{
    let mut i: usize = name.len();
    assert(name@.take(i as int) == name@);
    while i > 0
        invariant
            i <= name.len(),
            after_last_dot(name@) == after_last_dot(name@.take(i as int)),
        decreases i,
    {
        let c = name[i - 1];
        assert(name@.take(i as int).last() == c);
        if c == '.' {
            return i;
        }
        assert(name@.take(i as int).drop_last() == name@.take(i - 1));
        i -= 1;
    }
    0
}

/// The extension of a path, where it has one.
pub fn path_extension<'a>(path: &'a [char]) -> (extension: Option<&'a [char]>)
    ensures
        match extension {
            Some(found) => extension_of(path@) == Some(found@),
            None => extension_of(path@) is None,
        },
{
    let start = segment_start(path);
    let name = slice_subrange(path, start, path.len());
    assert(name@ == final_segment(path@));
    let end = dot_end(name);
    if end <= 1 {
        None
    } else {
        let found = slice_subrange(name, end, name.len());
        assert(found@ == name@.skip(end as int));
        Some(found)
    }
}

/// Whether a path names a document.
pub fn is_markdown_file(path: &str) -> (document: bool)
    ensures
        document == is_document_path(path@),
{
    let chars = chars_of(path);
    match path_extension(chars.as_slice()) {
        Some(extension) => {
            let lowered = lowercase_text(extension);
            has_document_extension(lowered.as_slice())
        },
        None => false,
    }
}

} // verus!
