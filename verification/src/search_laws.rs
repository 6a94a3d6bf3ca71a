//! What holds of every search.

use crate::filter::is_document_path;
use crate::matching::{
    aligned, first_occurrence, is_first_occurrence, lemma_occurrence_is_not_empty, lowered_part,
    occurs_at, occurs_in, split_lines,
};
use crate::search::{
    entry_hits, hits_of, lemma_hits_of_concat, lemma_hits_of_one, line_hits, lines_hits,
    search_hits, text_hits, HitView,
};
use crate::snapshot::EntryView;
use crate::text::text_lowercase;
use crate::walk::{is_document_entry, walk, SEARCH_DEPTH};
use vstd::prelude::*;

verus! {

/// From an occurrence, the first one: the occurrence itself, or one that
/// starts earlier, or one that starts at the same place and ends earlier.
proof fn lemma_first_occurrence_from(
    line: Seq<char>,
    needle: Seq<char>,
    start: int,
    end: int,
) -> (first: (int, int))
    requires
        occurs_at(line, needle, start, end),
    ensures
        is_first_occurrence(line, needle, first.0, first.1),
    decreases start, end,
{
    if exists|s: int, e: int|
        occurs_at(line, needle, s, e) && (s < start || (s == start && e < end)) {
        let (s, e) = choose|s: int, e: int|
            occurs_at(line, needle, s, e) && (s < start || (s == start && e < end));
        lemma_first_occurrence_from(line, needle, s, e)
    } else {
        (start, end)
    }
}

/// Where the needle occurs in a line, it has a first occurrence there, and
/// that is the one that a search marks.
pub proof fn lemma_first_occurrence_is_first(line: Seq<char>, needle: Seq<char>)
    ensures
        occurs_in(line, needle) == first_occurrence(line, needle) is Some,
        first_occurrence(line, needle) matches Some((start, end)) ==> is_first_occurrence(
            line,
            needle,
            start,
            end,
        ),
{
    if occurs_in(line, needle) {
        let (s, e) = choose|s: int, e: int| occurs_at(line, needle, s, e);
        let first = lemma_first_occurrence_from(line, needle, s, e);
        assert(is_first_occurrence(line, needle, first.0, first.1));
    }
}

/// Whether a hit is the one that a line of a document gives: it names the
/// document, holds the line and its number, and marks the first occurrence
/// of the needle in the line.
pub open spec fn hit_describes(
    hit: HitView,
    path: Seq<char>,
    name: Seq<char>,
    lines: Seq<Seq<char>>,
    needle: Seq<char>,
) -> bool {
    &&& hit.file_path == path
    &&& hit.file_name == name
    &&& 1 <= hit.line_number <= lines.len()
    &&& hit.line_content == lines[hit.line_number - 1]
    &&& is_first_occurrence(
        hit.line_content,
        needle,
        hit.match_start as int,
        hit.match_end as int,
    )
}

/// The hits of the lines of a document: each is the hit that its line gives,
/// they stand in the order of the lines with at most one to a line, and every
/// line in which the needle occurs has one.
pub proof fn lemma_hits_of_lines(
    path: Seq<char>,
    name: Seq<char>,
    lines: Seq<Seq<char>>,
    needle: Seq<char>,
)
    ensures
        forall|k: int|
            0 <= k < lines_hits(path, name, lines, needle).len() ==> hit_describes(
                #[trigger] lines_hits(path, name, lines, needle)[k],
                path,
                name,
                lines,
                needle,
            ),
        forall|j: int, k: int|
            0 <= j < k < lines_hits(path, name, lines, needle).len() ==> (#[trigger] lines_hits(
                path,
                name,
                lines,
                needle,
            )[j]).line_number < (#[trigger] lines_hits(path, name, lines, needle)[k]).line_number,
        forall|i: int|
            0 <= i < lines.len() && occurs_in(#[trigger] lines[i], needle) ==> exists|k: int|
                0 <= k < lines_hits(path, name, lines, needle).len() && (#[trigger] lines_hits(
                    path,
                    name,
                    lines,
                    needle,
                )[k]).line_number == i + 1,
    decreases lines.len(),
{
    let hits = lines_hits(path, name, lines, needle);
    if lines.len() > 0 {
        let front = lines.drop_last();
        let earlier = lines_hits(path, name, front, needle);
        let last = line_hits(path, name, lines.len(), lines.last(), needle);
        lemma_hits_of_lines(path, name, front, needle);
        lemma_first_occurrence_is_first(lines.last(), needle);
        assert(hits == earlier + last);
        assert forall|k: int| 0 <= k < hits.len() implies hit_describes(
            #[trigger] hits[k],
            path,
            name,
            lines,
            needle,
        ) by {
            if k < earlier.len() {
                assert(hits[k] == earlier[k]);
                assert(hit_describes(earlier[k], path, name, front, needle));
                assert(front[earlier[k].line_number - 1] == lines[earlier[k].line_number - 1]);
            } else {
                assert(hits[k] == last[k - earlier.len()]);
            }
        }
        assert forall|j: int, k: int| 0 <= j < k < hits.len() implies (#[trigger] hits[j]).line_number
            < (#[trigger] hits[k]).line_number by {
            assert(hits[j] == earlier[j]);
            assert(hit_describes(earlier[j], path, name, front, needle));
            if k < earlier.len() {
                assert(hits[k] == earlier[k]);
            } else {
                assert(hits[k] == last[k - earlier.len()]);
            }
        }
        assert forall|i: int| 0 <= i < lines.len() && occurs_in(
            #[trigger] lines[i],
            needle,
        ) implies exists|k: int|
            0 <= k < hits.len() && (#[trigger] hits[k]).line_number == i + 1 by {
            if i < front.len() {
                assert(front[i] == lines[i]);
                let k = choose|k: int|
                    0 <= k < earlier.len() && (#[trigger] earlier[k]).line_number == i + 1;
                assert(hits[k] == earlier[k]);
            } else {
                assert(last.len() == 1);
                assert(hits[earlier.len() as int] == last[0]);
            }
        }
    }
}

/// A line of a document in which the query occurs gives exactly one hit.
/// The hit holds the line and marks the first occurrence of the query in it,
/// and what it marks is, in the lowercase of the line, the lowercase of the
/// query.
pub proof fn lemma_one_hit_for_line(
    path: Seq<char>,
    name: Seq<char>,
    text: Seq<char>,
    query: Seq<char>,
    i: int,
) -> (k: int)
    requires
        0 <= i < split_lines(text).len(),
        occurs_in(split_lines(text)[i], text_lowercase(query)),
    ensures
        0 <= k < text_hits(path, name, text, text_lowercase(query)).len(),
        ({
            let hit = text_hits(path, name, text, text_lowercase(query))[k];
            let line = split_lines(text)[i];
            &&& hit.line_number == i + 1
            &&& hit.line_content == line
            &&& is_first_occurrence(line, text_lowercase(query), hit.match_start as int, hit.match_end as int)
            &&& lowered_part(line, hit.match_start as int, hit.match_end as int)
                == text_lowercase(query)
        }),
        forall|j: int|
            0 <= j < text_hits(path, name, text, text_lowercase(query)).len() && (#[trigger] text_hits(
                path,
                name,
                text,
                text_lowercase(query),
            )[j]).line_number == i + 1 ==> j == k,
{
    let lines = split_lines(text);
    let needle = text_lowercase(query);
    let hits = lines_hits(path, name, lines, needle);
    lemma_hits_of_lines(path, name, lines, needle);
    let k = choose|k: int| 0 <= k < hits.len() && (#[trigger] hits[k]).line_number == i + 1;
    assert(hit_describes(hits[k], path, name, lines, needle));
    assert forall|j: int| 0 <= j < hits.len() && (#[trigger] hits[j]).line_number == i
        + 1 implies j == k by {
        if j < k {
            assert(hits[j].line_number < hits[k].line_number);
        } else if k < j {
            assert(hits[k].line_number < hits[j].line_number);
        }
    }
    k
}

/// Whether a hit can be cut out of its line: its line number is at least 1,
/// its positions lie in the line and mark at least one character, and what
/// they mark is, in the lowercase of the line, the needle.
pub open spec fn hit_valid(hit: HitView, needle: Seq<char>) -> bool {
    &&& hit.line_number >= 1
    &&& hit.match_start < hit.match_end <= hit.line_content.len()
    &&& aligned(hit.line_content)
    &&& lowered_part(hit.line_content, hit.match_start as int, hit.match_end as int) == needle
}

/// A line in which the query does not occur gives no hit.
pub proof fn lemma_no_hit_without_occurrence(
    path: Seq<char>,
    name: Seq<char>,
    text: Seq<char>,
    query: Seq<char>,
    k: int,
)
    requires
        0 <= k < text_hits(path, name, text, text_lowercase(query)).len(),
    ensures
        ({
            let hit = text_hits(path, name, text, text_lowercase(query))[k];
            &&& 1 <= hit.line_number <= split_lines(text).len()
            &&& occurs_in(split_lines(text)[hit.line_number - 1], text_lowercase(query))
        }),
{
    let lines = split_lines(text);
    let hits = lines_hits(path, name, lines, text_lowercase(query));
    lemma_hits_of_lines(path, name, lines, text_lowercase(query));
    assert(hit_describes(hits[k], path, name, lines, text_lowercase(query)));
}

/// The hits of entries are those of the entries before one of them, then
/// those of that entry, then those of the entries after it.
pub proof fn lemma_hits_around(entries: Seq<EntryView>, needle: Seq<char>, k: int)
    requires
        0 <= k < entries.len(),
    ensures
        hits_of(entries, needle) == hits_of(entries.take(k), needle) + entry_hits(
            entries[k],
            needle,
        ) + hits_of(entries.skip(k + 1), needle),
{
    let before = entries.take(k);
    let after = entries.skip(k + 1);
    assert(entries == before + seq![entries[k]] + after);
    lemma_hits_of_concat(before + seq![entries[k]], after, needle);
    lemma_hits_of_concat(before, seq![entries[k]], needle);
    lemma_hits_of_one(entries[k], needle);
}

/// Every hit of entries is a hit of one of them, which is a document, and
/// stands among the hits of that entry.
pub proof fn lemma_hit_source(entries: Seq<EntryView>, needle: Seq<char>, i: int) -> (k: int)
    requires
        0 <= i < hits_of(entries, needle).len(),
    ensures
        0 <= k < entries.len(),
        is_document_entry(entries[k]),
        hits_of(entries.take(k), needle).len() <= i < hits_of(entries.take(k), needle).len()
            + entry_hits(entries[k], needle).len(),
        hits_of(entries, needle)[i] == entry_hits(entries[k], needle)[i - hits_of(
            entries.take(k),
            needle,
        ).len()],
        entry_hits(entries[k], needle).contains(hits_of(entries, needle)[i]),
        hits_of(entries, needle)[i].file_path == entries[k].path,
    decreases entries.len(),
{
    let front = entries.drop_last();
    let earlier = hits_of(front, needle);
    let last = entry_hits(entries.last(), needle);
    if i < earlier.len() {
        let k = lemma_hit_source(front, needle, i);
        assert(front[k] == entries[k]);
        assert(front.take(k) == entries.take(k));
        k
    } else {
        let at = i - earlier.len();
        let hit = last[at];
        assert(hits_of(entries, needle)[i] == hit);
        let entry = entries.last();
        let text = entry.kind->File_content->Some_0;
        lemma_hits_of_lines(entry.path, entry.name, split_lines(text), needle);
        assert(hit_describes(hit, entry.path, entry.name, split_lines(text), needle));
        assert(entries.take(entries.len() - 1) == front);
        entries.len() - 1
    }
}

/// Every hit of a search lies in a document that the traversal from the root
/// visits: a file whose path names a document.
pub proof fn lemma_hits_lie_in_documents(root: EntryView, needle: Seq<char>, i: int)
    requires
        0 <= i < search_hits(root, needle).len(),
    ensures
        is_document_path(search_hits(root, needle)[i].file_path),
        exists|k: int|
            0 <= k < walk(root, SEARCH_DEPTH as nat).len() && is_document_entry(
                #[trigger] walk(root, SEARCH_DEPTH as nat)[k],
            ) && entry_hits(walk(root, SEARCH_DEPTH as nat)[k], needle).contains(
                search_hits(root, needle)[i],
            ),
{
    let visited = walk(root, SEARCH_DEPTH as nat);
    let k = lemma_hit_source(visited, needle, i);
    assert(is_document_entry(visited[k]));
}

/// Every hit of a search for a needle that is not empty can be cut out of
/// its line.
pub proof fn lemma_hits_are_valid(root: EntryView, needle: Seq<char>)
    requires
        needle.len() > 0,
    ensures
        forall|i: int|
            0 <= i < search_hits(root, needle).len() ==> hit_valid(
                #[trigger] search_hits(root, needle)[i],
                needle,
            ),
{
    let visited = walk(root, SEARCH_DEPTH as nat);
    let hits = search_hits(root, needle);
    assert forall|i: int| 0 <= i < hits.len() implies hit_valid(#[trigger] hits[i], needle) by {
        let k = lemma_hit_source(visited, needle, i);
        let entry = visited[k];
        let text = entry.kind->File_content->Some_0;
        let lines = split_lines(text);
        let found = entry_hits(entry, needle);
        let at = choose|at: int| 0 <= at < found.len() && found[at] == hits[i];
        lemma_hits_of_lines(entry.path, entry.name, lines, needle);
        assert(hit_describes(found[at], entry.path, entry.name, lines, needle));
        lemma_occurrence_is_not_empty(
            hits[i].line_content,
            needle,
            hits[i].match_start as int,
            hits[i].match_end as int,
        );
    }
}

/// A line of a document that a search visits, in which the query occurs,
/// gives the search exactly one hit among the hits of the document. The hit
/// names the document, holds the line and its number, marks the first
/// occurrence of the query in the line, and what it marks is, in the
/// lowercase of the line, the lowercase of the query.
pub proof fn lemma_search_finds_line(root: EntryView, query: Seq<char>, k: int, i: int) -> (at:
    int)
    requires
        0 <= k < walk(root, SEARCH_DEPTH as nat).len(),
        is_document_entry(walk(root, SEARCH_DEPTH as nat)[k]),
        walk(root, SEARCH_DEPTH as nat)[k].kind->File_content is Some,
        0 <= i < split_lines(walk(root, SEARCH_DEPTH as nat)[k].kind->File_content->Some_0).len(),
        occurs_in(
            split_lines(walk(root, SEARCH_DEPTH as nat)[k].kind->File_content->Some_0)[i],
            text_lowercase(query),
        ),
    ensures
        ({
            let visited = walk(root, SEARCH_DEPTH as nat);
            let document = visited[k];
            let line = split_lines(document.kind->File_content->Some_0)[i];
            let hits = search_hits(root, text_lowercase(query));
            let first = hits_of(visited.take(k), text_lowercase(query)).len();
            let count = entry_hits(document, text_lowercase(query)).len();
            &&& first <= at < first + count <= hits.len()
            &&& hits[at].file_path == document.path
            &&& hits[at].file_name == document.name
            &&& hits[at].line_number == i + 1
            &&& hits[at].line_content == line
            &&& is_first_occurrence(
                line,
                text_lowercase(query),
                hits[at].match_start as int,
                hits[at].match_end as int,
            )
            &&& lowered_part(line, hits[at].match_start as int, hits[at].match_end as int)
                == text_lowercase(query)
            &&& forall|j: int|
                first <= j < first + count && (#[trigger] hits[j]).line_number == i + 1 ==> j
                    == at
        }),
{
    let needle = text_lowercase(query);
    let visited = walk(root, SEARCH_DEPTH as nat);
    let document = visited[k];
    let text = document.kind->File_content->Some_0;
    let hits = search_hits(root, needle);
    let before = hits_of(visited.take(k), needle);
    let found = entry_hits(document, needle);
    let after = hits_of(visited.skip(k + 1), needle);
    lemma_hits_around(visited, needle, k);
    assert(hits == before + found + after);
    let within = lemma_one_hit_for_line(document.path, document.name, text, query, i);
    lemma_hits_of_lines(document.path, document.name, split_lines(text), needle);
    assert(hit_describes(found[within], document.path, document.name, split_lines(text), needle));
    let at = before.len() + within;
    assert(hits[at] == found[within]);
    assert forall|j: int|
        before.len() <= j < before.len() + found.len() && (#[trigger] hits[j]).line_number == i
            + 1 implies j == at by {
        assert(hits[j] == found[j - before.len()]);
    }
    at
}

/// Where no other entry that a search visits has the path of a document,
/// a line of the document in which the query occurs gives the search exactly
/// one hit with that path and the number of the line.
pub proof fn lemma_search_finds_line_once(root: EntryView, query: Seq<char>, k: int, i: int) -> (at:
    int)
    requires
        0 <= k < walk(root, SEARCH_DEPTH as nat).len(),
        is_document_entry(walk(root, SEARCH_DEPTH as nat)[k]),
        walk(root, SEARCH_DEPTH as nat)[k].kind->File_content is Some,
        0 <= i < split_lines(walk(root, SEARCH_DEPTH as nat)[k].kind->File_content->Some_0).len(),
        occurs_in(
            split_lines(walk(root, SEARCH_DEPTH as nat)[k].kind->File_content->Some_0)[i],
            text_lowercase(query),
        ),
        forall|other: int|
            0 <= other < walk(root, SEARCH_DEPTH as nat).len() && other != k ==> (#[trigger] walk(
                root,
                SEARCH_DEPTH as nat,
            )[other]).path != walk(root, SEARCH_DEPTH as nat)[k].path,
    ensures
        ({
            let document = walk(root, SEARCH_DEPTH as nat)[k];
            let hits = search_hits(root, text_lowercase(query));
            &&& 0 <= at < hits.len()
            &&& hits[at].file_path == document.path
            &&& hits[at].line_number == i + 1
            &&& forall|j: int|
                0 <= j < hits.len() && (#[trigger] hits[j]).file_path == document.path
                    && hits[j].line_number == i + 1 ==> j == at
        }),
{
    let needle = text_lowercase(query);
    let visited = walk(root, SEARCH_DEPTH as nat);
    let document = visited[k];
    let hits = search_hits(root, needle);
    let at = lemma_search_finds_line(root, query, k, i);
    assert forall|j: int|
        0 <= j < hits.len() && (#[trigger] hits[j]).file_path == document.path
            && hits[j].line_number == i + 1 implies j == at by {
        let source = lemma_hit_source(visited, needle, j);
        assert(visited[source].path == document.path);
        assert(source == k);
    }
    at
}

/// Every document that the traversal from the root visits gives its hits to
/// the search, in one piece.
pub proof fn lemma_search_holds_document_hits(root: EntryView, needle: Seq<char>, k: int)
    requires
        0 <= k < walk(root, SEARCH_DEPTH as nat).len(),
    ensures
        ({
            let visited = walk(root, SEARCH_DEPTH as nat);
            search_hits(root, needle) == hits_of(visited.take(k), needle) + entry_hits(
                visited[k],
                needle,
            ) + hits_of(visited.skip(k + 1), needle)
        }),
{
    lemma_hits_around(walk(root, SEARCH_DEPTH as nat), needle, k);
}

} // verus!
