//! Characters, lowercase and the order of texts.
//!
//! Text is handled as sequences of `char`. Texts are compared without regard
//! to case by their lowercase, which is that of the whole text: what a
//! character becomes may depend on the characters around it. The lowercase
//! mapping of a single character serves only to tell how many characters of
//! the lowercase of a text belong to each character of the text.

use vstd::prelude::*;

verus! {

/// The lowercase mapping of a character: the characters that
/// `char::to_lowercase` yields for it, in order.
pub uninterp spec fn char_lowercase(c: char) -> Seq<char>;

/// The lowercase of a text: the characters of what `str::to_lowercase`
/// returns for it.
pub uninterp spec fn text_lowercase(text: Seq<char>) -> Seq<char>;

/// Calls `char::to_lowercase` of the standard library and collects what its
/// iterator yields.
///
/// Trusted: the result is the lowercase mapping of `c`, which depends on `c`
/// alone and has at least one character. Nothing else is claimed of what
/// the mapping holds.
#[verifier::external_body]
pub(crate) fn lowercase_char(c: char) -> (image: Vec<char>)
    ensures
        image@ == char_lowercase(c),
        image@.len() >= 1,
{
    c.to_lowercase().collect()
}

/// Calls `str::to_lowercase` of the standard library on the text that the
/// characters make up, and hands back the characters of what it returns.
///
/// Trusted: the result is the lowercase of the text, which depends on the
/// text alone. Nothing is claimed of what the lowercase holds.
#[verifier::external_body]
pub(crate) fn lowercase_text(text: &[char]) -> (lowered: Vec<char>)
    ensures
        lowered@ == text_lowercase(text@),
{
    text.iter().collect::<String>().to_lowercase().chars().collect()
}

/// The views of a sequence of character vectors.
pub open spec fn views_of(pieces: Seq<Vec<char>>) -> Seq<Seq<char>> {
    pieces.map_values(|p: Vec<char>| p@)
}

/// Strict lexicographic order of texts by character code.
pub open spec fn lex_precedes(a: Seq<char>, b: Seq<char>) -> bool
    decreases a.len(),
{
    if b.len() == 0 {
        false
    } else if a.len() == 0 {
        true
    } else if a[0] != b[0] {
        a[0] < b[0]
    } else {
        lex_precedes(a.drop_first(), b.drop_first())
    }
}

/// No text comes before itself, and of two texts at most one comes before
/// the other.
pub proof fn lemma_lex_asymmetric(a: Seq<char>, b: Seq<char>)
    ensures
        lex_precedes(a, b) ==> !lex_precedes(b, a),
    decreases a.len(),
{
    if a.len() > 0 && b.len() > 0 && a[0] == b[0] {
        lemma_lex_asymmetric(a.drop_first(), b.drop_first());
    }
}

/// Of two different texts one comes before the other.
pub proof fn lemma_lex_total(a: Seq<char>, b: Seq<char>)
    ensures
        lex_precedes(a, b) || lex_precedes(b, a) || a == b,
    decreases a.len(),
{
    if a.len() > 0 && b.len() > 0 && a[0] == b[0] {
        lemma_lex_total(a.drop_first(), b.drop_first());
        if a.drop_first() == b.drop_first() {
            assert(a =~= seq![a[0]] + a.drop_first());
            assert(b =~= seq![b[0]] + b.drop_first());
        }
    } else if a.len() == 0 && b.len() == 0 {
        assert(a =~= b);
    }
}

/// What comes before a text comes before all that the text comes before.
pub proof fn lemma_lex_transitive(a: Seq<char>, b: Seq<char>, c: Seq<char>)
    requires
        lex_precedes(a, b),
        lex_precedes(b, c),
    ensures
        lex_precedes(a, c),
    decreases a.len(),
{
    if a.len() > 0 && a[0] == b[0] && b[0] == c[0] {
        lemma_lex_transitive(a.drop_first(), b.drop_first(), c.drop_first());
    }
}

/// The characters of a string slice.
pub fn chars_of(s: &str) -> (chars: Vec<char>)
    ensures
        chars@ == s@,
{
    broadcast use vstd::string::group_string_axioms;

    let source = s.chars();
    let mut chars: Vec<char> = Vec::new();
    for c in it: source
        invariant
            it.seq() == s@,
            chars@ == s@.subrange(0, it.index()),
    {
        chars.push(c);
    }
    chars
}

/// Whether two texts hold the same characters.
pub fn chars_equal(a: &[char], b: &[char]) -> (same: bool)
    ensures
        same == (a@ == b@),
{
    if a.len() != b.len() {
        return false;
    }
    let mut i: usize = 0;
    while i < a.len()
        invariant
            i <= a.len(),
            a.len() == b.len(),
            a@.subrange(0, i as int) == b@.subrange(0, i as int),
        decreases a.len() - i,
    {
        if a[i] != b[i] {
            return false;
        }
        assert(a@.subrange(0, i + 1) == a@.subrange(0, i as int).push(a[i as int]));
        assert(b@.subrange(0, i + 1) == b@.subrange(0, i as int).push(b[i as int]));
        i += 1;
    }
    assert(a@ == a@.subrange(0, i as int));
    assert(b@ == b@.subrange(0, i as int));
    true
}

/// The lowercase of a text.
pub fn lowercase_of(text: &str) -> (lowered: Vec<char>)
    ensures
        lowered@ == text_lowercase(text@),
{
    let chars = chars_of(text);
    lowercase_text(chars.as_slice())
}

/// How many characters the lowercase mapping of each character of `text`
/// has.
pub open spec fn lengths_of(text: Seq<char>) -> Seq<nat> {
    text.map_values(|c: char| char_lowercase(c).len())
}

/// The numbers as a sequence of `nat`.
pub open spec fn as_nats(lengths: Seq<usize>) -> Seq<nat> {
    lengths.map_values(|n: usize| n as nat)
}

/// How many characters the lowercase mapping of each character of `text`
/// has; each has at least one.
pub fn lowercase_lengths(text: &[char]) -> (lengths: Vec<usize>)
    ensures
        as_nats(lengths@) == lengths_of(text@),
        forall|i: int| 0 <= i < lengths.len() ==> #[trigger] lengths[i] >= 1,
{
    let mut lengths: Vec<usize> = Vec::new();
    let mut i: usize = 0;
    while i < text.len()
        invariant
            i <= text.len(),
            as_nats(lengths@) == lengths_of(text@.take(i as int)),
            forall|k: int| 0 <= k < lengths.len() ==> #[trigger] lengths[k] >= 1,
        decreases text.len() - i,
    {
        let ghost before = lengths@;
        let image = lowercase_char(text[i]);
        lengths.push(image.len());
        assert(as_nats(lengths@) =~= as_nats(before).push(image@.len()));
        assert(lengths_of(text@.take(i + 1)) =~= lengths_of(text@.take(i as int)).push(
            char_lowercase(text[i as int]).len(),
        ));
        i += 1;
    }
    assert(text@.take(i as int) == text@);
    lengths
}

/// Whether `a` comes strictly before `b` in lexicographic order.
pub fn chars_precede(a: &[char], b: &[char]) -> (before: bool)
    ensures
        before == lex_precedes(a@, b@),
{
    let mut i: usize = 0;
    assert(a@.skip(0) == a@ && b@.skip(0) == b@);
    loop
        invariant
            i <= a.len(),
            i <= b.len(),
            lex_precedes(a@, b@) == lex_precedes(a@.skip(i as int), b@.skip(i as int)),
        decreases a.len() - i,
    {
        if i >= b.len() {
            return false;
        }
        if i >= a.len() {
            return true;
        }
        if a[i] != b[i] {
            return a[i] < b[i];
        }
        assert(a@.skip(i as int).drop_first() == a@.skip(i + 1));
        assert(b@.skip(i as int).drop_first() == b@.skip(i + 1));
        i += 1;
    }
}

} // verus!
