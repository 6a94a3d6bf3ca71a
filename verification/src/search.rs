//! The search: every line of every document that holds the query.
//!
//! A search lowercases the query once and then looks, in traversal order, at
//! each document whose text was read. Each line in which the lowercase of
//! the query occurs gives one hit, at the first occurrence.

use crate::error::{scan_failure, scan_failure_text, AppError, ErrorView};
use crate::filter::{is_document_path, is_ignored_name, is_markdown_file, should_ignore_dir};
use crate::matching::{
    aligned, find_match, first_occurrence, lemma_aligned_lowercase_len, line_spans,
    lowered_pieces, split_lines,
};
use crate::root::{found_view, require_directory, root_error};
use crate::search_laws::{hit_valid, lemma_hits_are_valid};
use crate::snapshot::{entry_views, lemma_listing_view, EntryKind, EntryView, FsEntry, KindView};
use crate::text::{chars_of, lowercase_text, text_lowercase};
use crate::walk::{walk, walk_all, SEARCH_DEPTH};
use vstd::prelude::*;
use vstd::slice::slice_subrange;
use vstd::string::StrSliceExecFns;

verus! {

/// One line of a document in which the query occurs.
#[derive(Debug, Clone, PartialEq, Eq)]
pub struct GrepResult {
    /// The path of the document.
    pub file_path: String,
    /// The name of the document.
    pub file_name: String,
    /// The number of the line, counted from 1.
    pub line_number: usize,
    /// The whole line.
    pub line_content: String,
    /// The position in the line of the first character of the occurrence.
    pub match_start: usize,
    /// The position in the line just past the last character of the occurrence.
    pub match_end: usize,
}

/// A hit with its texts as character sequences.
pub struct HitView {
    pub file_path: Seq<char>,
    pub file_name: Seq<char>,
    pub line_number: nat,
    pub line_content: Seq<char>,
    pub match_start: nat,
    pub match_end: nat,
}

impl View for GrepResult {
    type V = HitView;

    open spec fn view(&self) -> HitView {
        HitView {
            file_path: self.file_path@,
            file_name: self.file_name@,
            line_number: self.line_number as nat,
            line_content: self.line_content@,
            match_start: self.match_start as nat,
            match_end: self.match_end as nat,
        }
    }
}

/// The views of a sequence of hits.
pub open spec fn hit_views(hits: Seq<GrepResult>) -> Seq<HitView> {
    hits.map_values(|hit: GrepResult| hit@)
}

/// The hit that a line gives: one where the needle occurs in it, at the first
/// occurrence, and none otherwise.
pub open spec fn line_hits(
    path: Seq<char>,
    name: Seq<char>,
    number: nat,
    line: Seq<char>,
    needle: Seq<char>,
) -> Seq<HitView> {
    match first_occurrence(line, needle) {
        Some((start, end)) => seq![
            HitView {
                file_path: path,
                file_name: name,
                line_number: number,
                line_content: line,
                match_start: start as nat,
                match_end: end as nat,
            },
        ],
        None => Seq::empty(),
    }
}

/// The hits that lines give, the lines numbered from 1.
pub open spec fn lines_hits(
    path: Seq<char>,
    name: Seq<char>,
    lines: Seq<Seq<char>>,
    needle: Seq<char>,
) -> Seq<HitView>
    decreases lines.len(),
{
    if lines.len() == 0 {
        Seq::empty()
    } else {
        lines_hits(path, name, lines.drop_last(), needle) + line_hits(
            path,
            name,
            lines.len(),
            lines.last(),
            needle,
        )
    }
}

/// The hits that the text of a document gives.
pub open spec fn text_hits(
    path: Seq<char>,
    name: Seq<char>,
    text: Seq<char>,
    needle: Seq<char>,
) -> Seq<HitView> {
    lines_hits(path, name, split_lines(text), needle)
}

/// The hits that an entry gives: those of its text where it is a document
/// whose text was read, none otherwise.
pub open spec fn entry_hits(entry: EntryView, needle: Seq<char>) -> Seq<HitView> {
    match entry.kind {
        KindView::File { content: Some(text) } => if is_document_path(entry.path) {
            text_hits(entry.path, entry.name, text, needle)
        } else {
            Seq::empty()
        },
        _ => Seq::empty(),
    }
}

/// The hits that entries give, entry after entry.
pub open spec fn hits_of(entries: Seq<EntryView>, needle: Seq<char>) -> Seq<HitView>
    decreases entries.len(),
{
    if entries.len() == 0 {
        Seq::empty()
    } else {
        hits_of(entries.drop_last(), needle) + entry_hits(entries.last(), needle)
    }
}

/// The hits of a search from `root` for a lowercased query.
pub open spec fn search_hits(root: EntryView, needle: Seq<char>) -> Seq<HitView> {
    hits_of(walk(root, SEARCH_DEPTH as nat), needle)
}

/// Whether a query can be searched for: it is not empty and its lowercase is
/// cut character by character.
pub open spec fn searchable(query: Seq<char>) -> bool {
    query.len() > 0 && aligned(query)
}

/// What a search for `query` returns for what was found at `path`.
pub open spec fn search_outcome(
    path: Seq<char>,
    query: Seq<char>,
    found: Option<EntryView>,
) -> Result<Seq<HitView>, ErrorView> {
    match root_error(path, found) {
        Some(error) => Err(error),
        None => {
            let root = found->Some_0;
            if !searchable(query) || is_ignored_name(root.name) {
                Ok(Seq::empty())
            } else {
                match root.kind->Directory_listing {
                    Ok(_) => Ok(search_hits(root, text_lowercase(query))),
                    Err(reason) => Err(ErrorView::ScanError(scan_failure_text(reason))),
                }
            }
        },
    }
}

/// The view of what a search returns.
pub open spec fn outcome_view(outcome: Result<Vec<GrepResult>, AppError>) -> Result<
    Seq<HitView>,
    ErrorView,
> {
    match outcome {
        Ok(hits) => Ok(hit_views(hits@)),
        Err(error) => Err(error@),
    }
}

/// The hits of two sequences of entries joined are those of the first, then
/// those of the second.
pub proof fn lemma_hits_of_concat(a: Seq<EntryView>, b: Seq<EntryView>, needle: Seq<char>)
    ensures
        hits_of(a + b, needle) == hits_of(a, needle) + hits_of(b, needle),
    decreases b.len(),
{
    if b.len() == 0 {
        assert(a + b == a);
        assert(hits_of(a, needle) + hits_of(b, needle) == hits_of(a, needle));
    } else {
        lemma_hits_of_concat(a, b.drop_last(), needle);
        assert((a + b).drop_last() == a + b.drop_last());
        assert((a + b).last() == b.last());
        assert(hits_of(a, needle) + (hits_of(b.drop_last(), needle) + entry_hits(
            b.last(),
            needle,
        )) == (hits_of(a, needle) + hits_of(b.drop_last(), needle)) + entry_hits(
            b.last(),
            needle,
        ));
    }
}

/// The hits of a single entry.
pub proof fn lemma_hits_of_one(entry: EntryView, needle: Seq<char>)
    ensures
        hits_of(seq![entry], needle) == entry_hits(entry, needle),
{
    let one = seq![entry];
    assert(one.drop_last() == Seq::<EntryView>::empty());
    assert(hits_of(one.drop_last(), needle) == Seq::<HitView>::empty());
    assert(one.last() == entry);
    assert(Seq::<HitView>::empty() + entry_hits(entry, needle) == entry_hits(entry, needle));
}

/// Adds to `hits` the hits that the text of a document gives.
pub fn grep_text(path: &str, name: &str, text: &str, needle: &[char], hits: &mut Vec<GrepResult>)
    ensures
        hit_views(final(hits)@) == hit_views(old(hits)@) + text_hits(
            path@,
            name@,
            text@,
            needle@,
        ),
{
    let chars = chars_of(text);
    let spans = line_spans(chars.as_slice());
    let ghost lines = split_lines(text@);
    let ghost before = hit_views(hits@);
    let mut i: usize = 0;
    proof {
        assert(lines.take(0) == Seq::<Seq<char>>::empty());
        assert(before + Seq::<HitView>::empty() == before);
    }
    while i < spans.len()
        invariant
            i <= spans.len(),
            chars@ == text@,
            lines == split_lines(text@),
            spans@.len() == lines.len(),
            forall|k: int|
                0 <= k < spans.len() ==> {
                    &&& (#[trigger] spans[k]).0 <= spans[k].1 <= chars.len()
                    &&& chars@.subrange(spans[k].0 as int, spans[k].1 as int) == lines[k]
                },
            hit_views(hits@) == before + lines_hits(path@, name@, lines.take(i as int), needle@),
        decreases spans.len() - i,
    {
        let (start, end) = spans[i];
        let line = slice_subrange(chars.as_slice(), start, end);
        assert(line@ == lines[i as int]);
        let ghost so_far = hit_views(hits@);
        let ghost earlier = lines_hits(path@, name@, lines.take(i as int), needle@);
        proof {
            let upto = lines.take(i + 1);
            assert(upto.drop_last() == lines.take(i as int));
            assert(upto.last() == lines[i as int]);
        }
        match find_match(line, needle) {
            Some((from, to)) => {
                let hit = GrepResult {
                    file_path: path.to_owned(),
                    file_name: name.to_owned(),
                    line_number: i + 1,
                    line_content: text.substring_char(start, end).to_owned(),
                    match_start: from,
                    match_end: to,
                };
                let ghost stored = hits@;
                hits.push(hit);
                proof {
                    assert(hit_views(hits@) == hit_views(stored).push(hit@));
                    let added = line_hits(path@, name@, (i + 1) as nat, line@, needle@);
                    assert(added == seq![hit@]);
                    assert(so_far.push(hit@) == before + (earlier + added));
                }
            },
            None => {
                proof {
                    let added = line_hits(path@, name@, (i + 1) as nat, line@, needle@);
                    assert(earlier + added == earlier);
                }
            },
        }
        i += 1;
    }
    assert(lines.take(i as int) == lines);
}

/// Adds to `hits` the hits of the entries that a traversal from `entry`
/// visits, going at most `depth` levels below it.
fn grep_entry(entry: &FsEntry, needle: &[char], depth: usize, hits: &mut Vec<GrepResult>)
    ensures
        hit_views(final(hits)@) == hit_views(old(hits)@) + hits_of(
            walk(entry@, depth as nat),
            needle@,
        ),
    decreases depth,
{
    let ghost before = hit_views(hits@);
    proof {
        lemma_hits_of_one(entry@, needle@);
        assert(before + Seq::<HitView>::empty() == before);
        assert(hits_of(Seq::<EntryView>::empty(), needle@) == Seq::<HitView>::empty());
    }
    match &entry.kind {
        EntryKind::File { content } => {
            if is_markdown_file(entry.path.as_str()) {
                match content {
                    Some(text) => {
                        grep_text(
                            entry.path.as_str(),
                            entry.name.as_str(),
                            text.as_str(),
                            needle,
                            hits,
                        );
                    },
                    None => {},
                }
            }
        },
        EntryKind::Directory { listing } => {
            if should_ignore_dir(entry.name.as_str()) || depth == 0 {
                return ;
            }
            match listing {
                Ok(entries) => {
                    let ghost below = entry_views(entries@);
                    let ghost deeper = (depth - 1) as nat;
                    proof {
                        lemma_listing_view(*entry, *entries);
                        assert(below.take(0) == Seq::<EntryView>::empty());
                    }
                    let mut i: usize = 0;
                    while i < entries.len()
                        invariant
                            i <= entries.len(),
                            depth > 0,
                            deeper == depth - 1,
                            below == entry_views(entries@),
                            hit_views(hits@) == before + hits_of(
                                walk_all(below.take(i as int), deeper),
                                needle@,
                            ),
                        decreases entries.len() - i,
                    {
                        let ghost so_far = hits_of(walk_all(below.take(i as int), deeper), needle@);
                        grep_entry(&entries[i], needle, depth - 1, hits);
                        proof {
                            let upto = below.take(i + 1);
                            assert(upto.drop_last() == below.take(i as int));
                            assert(upto.last() == entries[i as int]@);
                            lemma_hits_of_concat(
                                walk_all(below.take(i as int), deeper),
                                walk(entries[i as int]@, deeper),
                                needle@,
                            );
                            assert((before + so_far) + hits_of(
                                walk(entries[i as int]@, deeper),
                                needle@,
                            ) == before + (so_far + hits_of(
                                walk(entries[i as int]@, deeper),
                                needle@,
                            )));
                        }
                        i += 1;
                    }
                    proof {
                        assert(below.take(i as int) == below);
                        lemma_hits_of_concat(seq![entry@], walk_all(below, deeper), needle@);
                        assert(Seq::<HitView>::empty() + hits_of(walk_all(below, deeper), needle@)
                            == hits_of(walk_all(below, deeper), needle@));
                    }
                },
                Err(_) => {},
            }
        },
    }
}

/// Searches the documents below a directory for the lines that hold `query`,
/// without regard to case.
///
/// `root` is what was found at `path`. The search fails where nothing was
/// found there and where what was found is no directory. An empty query
/// gives no hits, and neither does a query whose lowercase is not cut
/// character by character, nor a directory whose name is left out. Otherwise
/// the search fails where the directory could not be enumerated. Every hit
/// marks at least one character of its line.
pub fn grep_directory(path: String, query: String, root: Option<&FsEntry>) -> (outcome: Result<
    Vec<GrepResult>,
    AppError,
>)
    ensures
        outcome_view(outcome) == search_outcome(path@, query@, found_view(root)),
        query@.len() == 0 && root_error(path@, found_view(root)) is None ==> outcome_view(outcome)
            == Ok::<Seq<HitView>, ErrorView>(Seq::empty()),
        outcome matches Ok(hits) ==> forall|i: int|
            0 <= i < hits.len() ==> hit_valid(#[trigger] hits[i]@, text_lowercase(query@)),
{
    let (directory, listing) = match require_directory(path, root) {
        Ok(found) => found,
        Err(error) => {
            return Err(error);
        },
    };
    let mut hits: Vec<GrepResult> = Vec::new();
    assert(hit_views(hits@) == Seq::<HitView>::empty());
    if query.as_str().is_empty() {
        return Ok(hits);
    }
    let query_chars = chars_of(query.as_str());
    if lowered_pieces(query_chars.as_slice()).is_none() || should_ignore_dir(
        directory.name.as_str(),
    ) {
        return Ok(hits);
    }
    match listing {
        Ok(_) => {},
        Err(reason) => {
            return Err(scan_failure(reason.as_str()));
        },
    }
    let needle = lowercase_text(query_chars.as_slice());
    grep_entry(directory, needle.as_slice(), SEARCH_DEPTH, &mut hits);
    proof {
        let found = search_hits(directory@, needle@);
        assert(Seq::<HitView>::empty() + found == found);
        lemma_aligned_lowercase_len(query@);
        lemma_hits_are_valid(directory@, needle@);
        assert forall|i: int| 0 <= i < hits.len() implies hit_valid(
            #[trigger] hits[i]@,
            needle@,
        ) by {
            assert(hits[i]@ == found[i]);
        }
    }
    Ok(hits)
}

} // verus!
