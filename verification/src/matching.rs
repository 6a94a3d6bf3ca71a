//! Lines of a text and the first occurrence of a query in a line.
//!
//! A line is searched in its lowercase, which is cut into one piece for each
//! character of the line: as many characters as the lowercase mapping of
//! that character has. A query occurs between two positions of the line when
//! the pieces of the characters between them, joined, are the lowercase of
//! the query. Positions count characters of the line as it stands, so an
//! occurrence can always be cut out of the line, whatever lowercasing does to
//! the length of a character. A line whose lowercase cannot be cut in this
//! way holds no occurrence.

use crate::text::{
    as_nats, lengths_of, lowercase_lengths, lowercase_text, text_lowercase, views_of,
};
use vstd::prelude::*;
use vstd::seq_lib::lemma_flatten_concat;
use vstd::slice::{slice_subrange, slice_to_vec};

verus! {

/// The position of the first line feed of `text`; its length where it has none.
pub open spec fn first_line_feed(text: Seq<char>) -> nat
    decreases text.len(),
{
    if text.len() == 0 {
        0
    } else if text[0] == '\n' {
        0
    } else {
        1 + first_line_feed(text.drop_first())
    }
}

/// A line without the carriage return that ends it, if one does.
pub open spec fn without_carriage_return(line: Seq<char>) -> Seq<char> {
    if line.len() > 0 && line.last() == '\r' {
        line.drop_last()
    } else {
        line
    }
}

/// The lines of a text. A line ends at a line feed or at a carriage return
/// followed by a line feed; neither belongs to the line. What follows the last
/// line feed is a line unless it is empty.
pub open spec fn split_lines(text: Seq<char>) -> Seq<Seq<char>>
    decreases text.len(),
{
    if text.len() == 0 {
        Seq::empty()
    } else {
        let end = first_line_feed(text);
        if end >= text.len() {
            seq![text]
        } else {
            seq![without_carriage_return(text.take(end as int))] + split_lines(
                text.skip(end as int + 1),
            )
        }
    }
}

/// Whether the spans cut the lines of `text` out of it, in order.
pub open spec fn spans_cut_lines(text: Seq<char>, spans: Seq<(usize, usize)>) -> bool {
    let lines = split_lines(text);
    &&& spans.len() == lines.len()
    &&& forall|i: int|
        0 <= i < spans.len() ==> {
            &&& (#[trigger] spans[i]).0 <= spans[i].1 <= text.len()
            &&& text.subrange(spans[i].0 as int, spans[i].1 as int) == lines[i]
        }
}

/// The first line feed lies within the text or at its end, is a line feed
/// where it lies within, and has none before it.
proof fn lemma_first_line_feed(text: Seq<char>)
    ensures
        0 <= first_line_feed(text) <= text.len(),
        first_line_feed(text) < text.len() ==> text[first_line_feed(text) as int] == '\n',
        forall|i: int| 0 <= i < first_line_feed(text) ==> text[i] != '\n',
    decreases text.len(),
{
    if text.len() > 0 && text[0] != '\n' {
        let rest = text.drop_first();
        lemma_first_line_feed(rest);
        assert forall|i: int| 0 <= i < first_line_feed(text) implies text[i] != '\n' by {
            if i > 0 {
                assert(text[i] == rest[i - 1]);
            }
        }
    }
}

/// A position with no line feed before it, which holds one or is the end of
/// the text, is that of the first line feed.
proof fn lemma_line_feed_found(text: Seq<char>, end: int)
    requires
        0 <= end <= text.len(),
        forall|i: int| 0 <= i < end ==> text[i] != '\n',
        end < text.len() ==> text[end] == '\n',
    ensures
        first_line_feed(text) == end,
{
    lemma_first_line_feed(text);
}

/// The start and the end of each line of `text`.
pub fn line_spans(text: &[char]) -> (spans: Vec<(usize, usize)>)
    ensures
        spans_cut_lines(text@, spans@),
{
    let mut spans: Vec<(usize, usize)> = Vec::new();
    let mut start: usize = 0;
    let ghost mut done: Seq<Seq<char>> = Seq::empty();
    assert(text@.skip(0) == text@);
    while start < text.len()
        invariant
            start <= text.len(),
            spans@.len() == done.len(),
            done + split_lines(text@.skip(start as int)) == split_lines(text@),
            forall|i: int|
                0 <= i < spans.len() ==> {
                    &&& (#[trigger] spans[i]).0 <= spans[i].1 <= text.len()
                    &&& text@.subrange(spans[i].0 as int, spans[i].1 as int) == done[i]
                },
        decreases text.len() - start,
    {
        let ghost rest = text@.skip(start as int);
        let mut end: usize = start;
        while end < text.len() && text[end] != '\n'
            invariant
                start <= end <= text.len(),
                forall|i: int| start <= i < end ==> text[i] != '\n',
            decreases text.len() - end,
        {
            end += 1;
        }
        proof {
            assert forall|i: int| 0 <= i < end - start implies rest[i] != '\n' by {
                assert(rest[i] == text[start + i]);
            }
            lemma_line_feed_found(rest, end - start);
            assert(rest.take(end - start) == text@.subrange(start as int, end as int));
        }
        if end == text.len() {
            spans.push((start, end));
            proof {
                assert(rest == text@.subrange(start as int, end as int));
                assert(split_lines(rest) == seq![rest]);
                assert(split_lines(text@.skip(end as int)) == Seq::<Seq<char>>::empty());
                done = done.push(rest);
                assert(done + Seq::<Seq<char>>::empty() == done);
            }
            start = end;
        } else {
            let stop = if end > start && text[end - 1] == '\r' {
                end - 1
            } else {
                end
            };
            spans.push((start, stop));
            proof {
                let raw = text@.subrange(start as int, end as int);
                let line = without_carriage_return(raw);
                assert(line == text@.subrange(start as int, stop as int));
                assert(rest.skip(end - start + 1) == text@.skip(end + 1));
                assert(split_lines(rest) == seq![line] + split_lines(text@.skip(end + 1)));
                assert(done.push(line) + split_lines(text@.skip(end + 1)) == done + split_lines(
                    rest,
                ));
                done = done.push(line);
            }
            start = end + 1;
        }
    }
    proof {
        assert(split_lines(text@.skip(start as int)) == Seq::<Seq<char>>::empty());
        assert(done + Seq::<Seq<char>>::empty() == done);
    }
    spans
}

/// Whether the pieces from `start` up to `end`, concatenated, are `needle`.
pub open spec fn run_matches(
    pieces: Seq<Seq<char>>,
    needle: Seq<char>,
    start: int,
    end: int,
) -> bool {
    0 <= start <= end <= pieces.len() && pieces.subrange(start, end).flatten() == needle
}

/// Whether the run from `start` up to `end` is the first that matches:
/// none starts earlier, and none that starts there ends earlier.
pub open spec fn is_first_run(
    pieces: Seq<Seq<char>>,
    needle: Seq<char>,
    start: int,
    end: int,
) -> bool {
    &&& run_matches(pieces, needle, start, end)
    &&& forall|s: int, e: int| #[trigger]
        run_matches(pieces, needle, s, e) ==> start < s || (start == s && end <= e)
}

/// A run with the next piece added is the run, then the piece.
proof fn lemma_run_extend(pieces: Seq<Seq<char>>, start: int, end: int)
    requires
        0 <= start <= end < pieces.len(),
    ensures
        pieces.subrange(start, end + 1).flatten() == pieces.subrange(start, end).flatten()
            + pieces[end],
{
    let shorter = pieces.subrange(start, end);
    assert(pieces.subrange(start, end + 1) == shorter.push(pieces[end]));
    shorter.lemma_flatten_push(pieces[end]);
}

/// A run cut in two is the first part, then the second.
proof fn lemma_run_split(pieces: Seq<Seq<char>>, start: int, mid: int, end: int)
    requires
        0 <= start <= mid <= end <= pieces.len(),
    ensures
        pieces.subrange(start, end).flatten() == pieces.subrange(start, mid).flatten()
            + pieces.subrange(mid, end).flatten(),
{
    assert(pieces.subrange(start, end) == pieces.subrange(start, mid) + pieces.subrange(mid, end));
    lemma_flatten_concat(pieces.subrange(start, mid), pieces.subrange(mid, end));
}

/// The end of the shortest run from `start` that matches, if one does.
fn run_end(pieces: &Vec<Vec<char>>, needle: &[char], start: usize) -> (found: Option<usize>)
    requires
        start <= pieces.len(),
    ensures
        match found {
            Some(end) => {
                &&& run_matches(views_of(pieces@), needle@, start as int, end as int)
                &&& forall|e: int| #[trigger]
                    run_matches(views_of(pieces@), needle@, start as int, e) ==> end <= e
            },
            None => forall|e: int| !#[trigger] run_matches(
                views_of(pieces@),
                needle@,
                start as int,
                e,
            ),
        },
{
    let ghost all = views_of(pieces@);
    let mut end: usize = start;
    let mut matched: usize = 0;
    assert(all.subrange(start as int, start as int).flatten() == Seq::<char>::empty());
    loop
        invariant
            all == views_of(pieces@),
            start <= end <= pieces.len(),
            matched <= needle.len(),
            all.subrange(start as int, end as int).flatten() == needle@.take(matched as int),
            forall|e: int| start <= e < end ==> !#[trigger] run_matches(all, needle@, start as int, e),
        decreases pieces.len() - end,
    {
        if matched == needle.len() {
            assert(needle@.take(matched as int) == needle@);
            return Some(end);
        }
        if end == pieces.len() {
            return None;
        }
        let piece = &pieces[end];
        assert(piece@ == all[end as int]);
        let ghost so_far = all.subrange(start as int, end as int).flatten();
        proof {
            lemma_run_extend(all, start as int, end as int);
        }
        let mut fits = piece.len() <= needle.len() - matched;
        let mut i: usize = 0;
        while fits && i < piece.len()
            invariant
                i <= piece.len(),
                matched <= needle.len(),
                fits ==> piece.len() <= needle.len() - matched,
                fits ==> piece@.take(i as int) == needle@.subrange(
                    matched as int,
                    matched + i,
                ),
                !fits ==> !(piece.len() <= needle.len() - matched && piece@ == needle@.subrange(
                    matched as int,
                    matched + piece.len(),
                )),
            decreases piece.len() - i, fits as int,
        {
            if piece[i] != needle[matched + i] {
                fits = false;
                assert(needle@.subrange(matched as int, matched + piece.len())[i as int]
                    != piece@[i as int]);
            } else {
                assert(piece@.take(i + 1) == piece@.take(i as int).push(piece@[i as int]));
                assert(needle@.subrange(matched as int, matched + i + 1) == needle@.subrange(
                    matched as int,
                    matched + i,
                ).push(needle@[matched + i]));
                i += 1;
            }
        }
        if !fits {
            proof {
                assert forall|e: int| !#[trigger] run_matches(all, needle@, start as int, e) by {
                    if run_matches(all, needle@, start as int, e) {
                        if e > end {
                            lemma_run_split(all, start as int, end + 1, e);
                            let tail = all.subrange(end + 1, e).flatten();
                            assert(needle@ == so_far + piece@ + tail);
                            assert(needle@.subrange(matched as int, matched + piece.len())
                                == piece@);
                        } else if e == end {
                            assert(so_far.len() == matched);
                        }
                    }
                }
            }
            return None;
        }
        proof {
            assert(piece@.take(i as int) == piece@);
            assert(needle@.take(matched + piece.len()) == needle@.take(matched as int)
                + needle@.subrange(matched as int, matched + piece.len()));
            assert(!run_matches(all, needle@, start as int, end as int)) by {
                assert(so_far.len() == matched);
            }
        }
        matched += piece.len();
        end += 1;
    }
}

/// The first run of consecutive pieces whose concatenation is `needle`.
pub fn find_run(pieces: &Vec<Vec<char>>, needle: &[char]) -> (found: Option<(usize, usize)>)
    ensures
        match found {
            Some((start, end)) => is_first_run(
                views_of(pieces@),
                needle@,
                start as int,
                end as int,
            ),
            None => forall|s: int, e: int| !#[trigger] run_matches(
                views_of(pieces@),
                needle@,
                s,
                e,
            ),
        },
{
    let mut start: usize = 0;
    loop
        invariant
            start <= pieces.len(),
            forall|s: int, e: int|
                s < start ==> !#[trigger] run_matches(views_of(pieces@), needle@, s, e),
        decreases pieces.len() - start,
    {
        match run_end(pieces, needle, start) {
            Some(end) => {
                return Some((start, end));
            },
            None => {},
        }
        if start == pieces.len() {
            return None;
        }
        start += 1;
    }
}

/// The sum of the numbers.
pub open spec fn total(lengths: Seq<nat>) -> nat
    decreases lengths.len(),
{
    if lengths.len() == 0 {
        0
    } else {
        total(lengths.drop_last()) + lengths.last()
    }
}

/// `text` cut into consecutive pieces of the given lengths.
pub open spec fn cut(text: Seq<char>, lengths: Seq<nat>) -> Seq<Seq<char>>
    decreases lengths.len(),
{
    if lengths.len() == 0 {
        Seq::empty()
    } else {
        cut(text, lengths.drop_last()).push(
            text.subrange(total(lengths.drop_last()) as int, total(lengths) as int),
        )
    }
}

/// Whether the lowercase of `text` is cut character by character: the
/// lowercase mapping of each character of `text` has at least one character,
/// and together they have as many as the lowercase of `text`.
pub open spec fn aligned(text: Seq<char>) -> bool {
    &&& forall|i: int| 0 <= i < text.len() ==> (#[trigger] lengths_of(text)[i]) >= 1
    &&& total(lengths_of(text)) == text_lowercase(text).len()
}

/// The lowercase of `line`, one piece for each character of `line`.
pub open spec fn pieces_of(line: Seq<char>) -> Seq<Seq<char>> {
    cut(text_lowercase(line), lengths_of(line))
}

/// The part of the lowercase of `line` that belongs to its characters from
/// `start` up to `end`.
pub open spec fn lowered_part(line: Seq<char>, start: int, end: int) -> Seq<char> {
    pieces_of(line).subrange(start, end).flatten()
}

/// There are as many pieces as lengths.
pub proof fn lemma_cut_len(text: Seq<char>, lengths: Seq<nat>)
    ensures
        cut(text, lengths).len() == lengths.len(),
    decreases lengths.len(),
{
    if lengths.len() > 0 {
        lemma_cut_len(text, lengths.drop_last());
    }
}

/// The sum of the first numbers is at most the sum of all.
proof fn lemma_total_take(lengths: Seq<nat>, i: int)
    requires
        0 <= i <= lengths.len(),
    ensures
        total(lengths.take(i)) <= total(lengths),
    decreases lengths.len(),
{
    if i < lengths.len() {
        lemma_total_take(lengths.drop_last(), i);
        assert(lengths.drop_last().take(i) == lengths.take(i));
    } else {
        assert(lengths.take(i) == lengths);
    }
}

/// Numbers that are each at least 1 add up to at least their count.
proof fn lemma_total_at_least_len(lengths: Seq<nat>)
    requires
        forall|i: int| 0 <= i < lengths.len() ==> (#[trigger] lengths[i]) >= 1,
    ensures
        total(lengths) >= lengths.len(),
    decreases lengths.len(),
{
    if lengths.len() > 0 {
        let front = lengths.drop_last();
        assert forall|i: int| 0 <= i < front.len() implies (#[trigger] front[i]) >= 1 by {
            assert(front[i] == lengths[i]);
        }
        lemma_total_at_least_len(front);
        assert(lengths[lengths.len() - 1] >= 1);
    }
}

/// The lowercase of a text that is cut character by character has at least
/// as many characters as the text.
pub proof fn lemma_aligned_lowercase_len(text: Seq<char>)
    requires
        aligned(text),
    ensures
        text_lowercase(text).len() >= text.len(),
{
    lemma_total_at_least_len(lengths_of(text));
}

/// Where in the lowercase of `line` the part of its character at `position`
/// begins.
pub open spec fn offset(line: Seq<char>, position: int) -> nat {
    total(lengths_of(line).take(position))
}

/// Each piece is the stretch of the text between the sum of the lengths
/// before it and that sum with its own length added.
proof fn lemma_cut_index(text: Seq<char>, lengths: Seq<nat>, i: int)
    requires
        0 <= i < lengths.len(),
    ensures
        cut(text, lengths).len() == lengths.len(),
        cut(text, lengths)[i] == text.subrange(
            total(lengths.take(i)) as int,
            total(lengths.take(i + 1)) as int,
        ),
    decreases lengths.len(),
{
    lemma_cut_len(text, lengths);
    let front = lengths.drop_last();
    lemma_cut_len(text, front);
    if i < lengths.len() - 1 {
        lemma_cut_index(text, front, i);
        assert(front.take(i) == lengths.take(i));
        assert(front.take(i + 1) == lengths.take(i + 1));
    } else {
        assert(lengths.take(i) == front);
        assert(lengths.take(i + 1) == lengths);
    }
}

/// In a line whose lowercase is cut character by character, the part that
/// belongs to a stretch of the line is the stretch of the lowercase between
/// where the parts of its first character and of the character after its
/// last begin; the part that belongs to the whole line is the whole
/// lowercase.
pub proof fn lemma_lowered_part_is_stretch(line: Seq<char>, start: int, end: int)
    requires
        aligned(line),
        0 <= start <= end <= line.len(),
    ensures
        offset(line, start) <= offset(line, end) <= text_lowercase(line).len(),
        lowered_part(line, start, end) == text_lowercase(line).subrange(
            offset(line, start) as int,
            offset(line, end) as int,
        ),
        offset(line, 0) == 0,
        offset(line, line.len() as int) == text_lowercase(line).len(),
    decreases end - start,
{
    let lowered = text_lowercase(line);
    let lengths = lengths_of(line);
    let pieces = pieces_of(line);
    lemma_cut_len(lowered, lengths);
    lemma_total_take(lengths, end);
    assert(lengths.take(0) == Seq::<nat>::empty());
    assert(lengths.take(line.len() as int) == lengths);
    if start == end {
        assert(pieces.subrange(start, end) == Seq::<Seq<char>>::empty());
        assert(lowered.subrange(offset(line, start) as int, offset(line, end) as int)
            == Seq::<char>::empty());
    } else {
        lemma_lowered_part_is_stretch(line, start, end - 1);
        lemma_run_extend(pieces, start, end - 1);
        lemma_cut_index(lowered, lengths, end - 1);
        assert(lengths.take(end).drop_last() == lengths.take(end - 1));
        assert(offset(line, end) == offset(line, end - 1) + lengths[end - 1]);
        assert(lowered.subrange(offset(line, start) as int, offset(line, end - 1) as int)
            + lowered.subrange(offset(line, end - 1) as int, offset(line, end) as int)
            == lowered.subrange(offset(line, start) as int, offset(line, end) as int));
    }
}

/// Cuts `text` into consecutive pieces of the given lengths; none where the
/// lengths do not add up to the length of `text`.
pub fn cut_pieces(text: &[char], lengths: &[usize]) -> (pieces: Option<Vec<Vec<char>>>)
    ensures
        match pieces {
            Some(cut_up) => {
                &&& total(as_nats(lengths@)) == text.len()
                &&& views_of(cut_up@) == cut(text@, as_nats(lengths@))
            },
            None => total(as_nats(lengths@)) != text.len(),
        },
{
    let ghost all = as_nats(lengths@);
    let mut pieces: Vec<Vec<char>> = Vec::new();
    let mut at: usize = 0;
    let mut i: usize = 0;
    assert(all.take(0) == Seq::<nat>::empty());
    assert(views_of(pieces@) == Seq::<Seq<char>>::empty());
    while i < lengths.len()
        invariant
            i <= lengths.len(),
            all == as_nats(lengths@),
            at <= text.len(),
            at == total(all.take(i as int)),
            views_of(pieces@) == cut(text@, all.take(i as int)),
        decreases lengths.len() - i,
    {
        let length = lengths[i];
        proof {
            let upto = all.take(i + 1);
            assert(upto.drop_last() == all.take(i as int));
            assert(upto.last() == length as nat);
            lemma_total_take(all, i + 1);
        }
        if length > text.len() - at {
            return None;
        }
        let piece = slice_to_vec(slice_subrange(text, at, at + length));
        let ghost before = pieces@;
        pieces.push(piece);
        assert(views_of(pieces@) == views_of(before).push(piece@));
        at += length;
        i += 1;
    }
    assert(all.take(i as int) == all);
    if at == text.len() {
        Some(pieces)
    } else {
        None
    }
}

/// The lowercase of `line`, one piece for each character of `line`; none
/// where the lowercase of `line` is not cut character by character.
pub fn lowered_pieces(line: &[char]) -> (pieces: Option<Vec<Vec<char>>>)
    ensures
        match pieces {
            Some(cut_up) => aligned(line@) && views_of(cut_up@) == pieces_of(line@),
            None => !aligned(line@),
        },
{
    let lengths = lowercase_lengths(line);
    let lowered = lowercase_text(line);
    proof {
        assert(as_nats(lengths@).len() == lengths.len());
        assert(lengths_of(line@).len() == line.len());
        assert forall|i: int| 0 <= i < line.len() implies (#[trigger] lengths_of(line@)[i])
            >= 1 by {
            assert(as_nats(lengths@)[i] == lengths[i] as nat);
        }
    }
    cut_pieces(lowered.as_slice(), lengths.as_slice())
}

/// Whether `needle` is the part of the lowercase of `line` that belongs to
/// its characters from `start` up to `end`.
pub open spec fn occurs_at(line: Seq<char>, needle: Seq<char>, start: int, end: int) -> bool {
    aligned(line) && 0 <= start <= end <= line.len() && lowered_part(line, start, end) == needle
}

/// Whether the occurrence from `start` up to `end` is the first: none starts
/// earlier, and none that starts there ends earlier.
pub open spec fn is_first_occurrence(
    line: Seq<char>,
    needle: Seq<char>,
    start: int,
    end: int,
) -> bool {
    &&& occurs_at(line, needle, start, end)
    &&& forall|s: int, e: int| #[trigger]
        occurs_at(line, needle, s, e) ==> start < s || (start == s && end <= e)
}

/// Whether `needle` occurs in `line` at all.
pub open spec fn occurs_in(line: Seq<char>, needle: Seq<char>) -> bool {
    exists|s: int, e: int| occurs_at(line, needle, s, e)
}

/// The first occurrence of `needle` in `line`, if it occurs.
pub open spec fn first_occurrence(line: Seq<char>, needle: Seq<char>) -> Option<(int, int)> {
    if occurs_in(line, needle) {
        Some(choose|found: (int, int)| is_first_occurrence(line, needle, found.0, found.1))
    } else {
        None
    }
}

/// An occurrence in a line is a matching run of the pieces of its lowercase.
pub proof fn lemma_occurrence_is_run(line: Seq<char>, needle: Seq<char>, start: int, end: int)
    ensures
        occurs_at(line, needle, start, end) == (aligned(line) && run_matches(
            pieces_of(line),
            needle,
            start,
            end,
        )),
{
    lemma_cut_len(text_lowercase(line), lengths_of(line));
}

/// In a line whose lowercase is cut character by character, a needle occurs
/// between two positions exactly when it is the stretch of the lowercase of
/// the line between where the parts of the characters at those positions
/// begin.
pub proof fn lemma_occurrence_is_stretch(line: Seq<char>, needle: Seq<char>, start: int, end: int)
    requires
        aligned(line),
        0 <= start <= end <= line.len(),
    ensures
        offset(line, start) <= offset(line, end) <= text_lowercase(line).len(),
        occurs_at(line, needle, start, end) == (text_lowercase(line).subrange(
            offset(line, start) as int,
            offset(line, end) as int,
        ) == needle),
{
    lemma_lowered_part_is_stretch(line, start, end);
}

/// Where the lowercase mapping of each character of a line has one
/// character, the parts of the lowercase begin where the characters stand.
pub proof fn lemma_offset_of_plain_line(line: Seq<char>, position: int)
    requires
        forall|i: int| 0 <= i < line.len() ==> (#[trigger] lengths_of(line)[i]) == 1,
        0 <= position <= line.len(),
    ensures
        offset(line, position) == position,
    decreases position,
{
    let lengths = lengths_of(line);
    if position == 0 {
        assert(lengths.take(0) == Seq::<nat>::empty());
    } else {
        lemma_offset_of_plain_line(line, position - 1);
        assert(lengths.take(position).drop_last() == lengths.take(position - 1));
        assert(lengths.take(position).last() == lengths[position - 1]);
    }
}

/// An occurrence of a needle that is not empty marks at least one character.
pub proof fn lemma_occurrence_is_not_empty(
    line: Seq<char>,
    needle: Seq<char>,
    start: int,
    end: int,
)
    requires
        occurs_at(line, needle, start, end),
        needle.len() > 0,
    ensures
        start < end,
{
    lemma_cut_len(text_lowercase(line), lengths_of(line));
    if start == end {
        assert(pieces_of(line).subrange(start, end) == Seq::<Seq<char>>::empty());
    }
}

/// Two first occurrences of one needle in one line are the same.
pub proof fn lemma_first_occurrence_unique(
    line: Seq<char>,
    needle: Seq<char>,
    a: (int, int),
    b: (int, int),
)
    requires
        is_first_occurrence(line, needle, a.0, a.1),
        is_first_occurrence(line, needle, b.0, b.1),
    ensures
        a == b,
{
}

/// The first occurrence of `needle` in `line`, if it occurs.
pub fn find_match(line: &[char], needle: &[char]) -> (found: Option<(usize, usize)>)
    ensures
        match found {
            Some((start, end)) => first_occurrence(line@, needle@) == Some(
                (start as int, end as int),
            ),
            None => first_occurrence(line@, needle@) is None,
        },
        found matches Some((start, end)) ==> is_first_occurrence(
            line@,
            needle@,
            start as int,
            end as int,
        ),
{
    let pieces = match lowered_pieces(line) {
        Some(cut_up) => cut_up,
        None => {
            return None;
        },
    };
    let found = find_run(&pieces, needle);
    proof {
        assert forall|s: int, e: int|
            occurs_at(line@, needle@, s, e) == #[trigger] run_matches(
                pieces_of(line@),
                needle@,
                s,
                e,
            ) by {
            lemma_occurrence_is_run(line@, needle@, s, e);
        }
        match found {
            Some((start, end)) => {
                assert(occurs_at(line@, needle@, start as int, end as int));
                assert forall|s: int, e: int| #[trigger]
                    occurs_at(line@, needle@, s, e) implies start < s || (start == s && end
                    <= e) by {
                    assert(run_matches(pieces_of(line@), needle@, s, e));
                }
                let here = (start as int, end as int);
                assert(is_first_occurrence(line@, needle@, here.0, here.1));
                let chosen = choose|p: (int, int)|
                    is_first_occurrence(line@, needle@, p.0, p.1);
                lemma_first_occurrence_unique(line@, needle@, here, chosen);
            },
            None => {
                assert forall|s: int, e: int| !occurs_at(line@, needle@, s, e) by {
                    assert(!run_matches(pieces_of(line@), needle@, s, e));
                }
            },
        }
    }
    found
}

} // verus!
