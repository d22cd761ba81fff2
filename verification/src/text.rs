//! Character-level helpers shared by the language and lyrics modules: the Unicode facts
//! that come from `std` and `unicode-segmentation`, and conversions between `str` and
//! character vectors.
use unicode_segmentation::UnicodeSegmentation;
use vstd::prelude::*;

verus! {

/// What `str::to_lowercase` gives for a text: its Unicode lowercase mapping.
pub uninterp spec fn lowercased(text: Seq<char>) -> Seq<char>;

/// What `char::to_lowercase` yields for a character: its Unicode lowercase mapping.
pub uninterp spec fn char_lowercased(letter: char) -> Seq<char>;

/// What `char::is_alphanumeric` says of a character: whether it is Alphabetic or Numeric.
pub uninterp spec fn alphanumeric(letter: char) -> bool;

/// The segments that `UnicodeSegmentation::split_word_bounds` cuts a text into (UAX #29
/// word boundaries).
pub uninterp spec fn word_bounds(text: Seq<char>) -> Seq<Seq<char>>;

/// The extended grapheme clusters that `UnicodeSegmentation::graphemes(true)` cuts a text
/// into (UAX #29).
pub uninterp spec fn graphemes_of(text: Seq<char>) -> Seq<Seq<char>>;

/// The characters of a sequence of string slices, slice by slice.
pub open spec fn views_of(pieces: Seq<&str>) -> Seq<Seq<char>> {
    pieces.map_values(|piece: &str| piece@)
}

/// `str::to_lowercase`: the lowercase mapping of `text`, a function of its characters alone.
#[verifier::external_body]
pub fn lowercase(text: &str) -> (lower: String)
    ensures
        lower@ == lowercased(text@),
{
    text.to_lowercase()
}

/// `char::to_lowercase`, collected: the lowercase mapping of one character, which its
/// documentation says is one or more characters.
#[verifier::external_body]
pub fn lowercase_char(letter: char) -> (lower: Vec<char>)
    ensures
        lower@ == char_lowercased(letter),
        lower@.len() >= 1,
{
    letter.to_lowercase().collect()
}

/// `char::is_alphanumeric`.
#[verifier::external_body]
pub fn is_alphanumeric(letter: char) -> (alpha: bool)
    ensures
        alpha == alphanumeric(letter),
{
    letter.is_alphanumeric()
}

/// `UnicodeSegmentation::split_word_bounds`. Its documentation states that the segments
/// concatenate back to the text; that is the second clause.
#[verifier::external_body]
pub fn word_segments(text: &str) -> (segments: Vec<&str>)
    ensures
        views_of(segments@) == word_bounds(text@),
        views_of(segments@).flatten_alt() == text@,
{
    text.split_word_bounds().collect()
}

/// `UnicodeSegmentation::graphemes` with extended clusters. Its iterator hands out
/// consecutive slices of the text from its start to its end, so the clusters concatenate
/// back to the text; that is the second clause.
#[verifier::external_body]
pub fn grapheme_segments(text: &str) -> (clusters: Vec<&str>)
    ensures
        views_of(clusters@) == graphemes_of(text@),
        views_of(clusters@).flatten_alt() == text@,
{
    text.graphemes(true).collect()
}

/// `String::from_iter` over characters.
#[verifier::external_body]
pub fn string_of(letters: &Vec<char>) -> (text: String)
    ensures
        text@ == letters@,
{
    letters.iter().collect()
}

/// Whether a character has the Unicode White_Space property, as `char::is_whitespace`
/// documents it.
pub open spec fn white_space(letter: char) -> bool {
    ||| ('\u{9}' <= letter && letter <= '\u{d}')
    ||| letter == ' '
    ||| letter == '\u{85}'
    ||| letter == '\u{a0}'
    ||| letter == '\u{1680}'
    ||| ('\u{2000}' <= letter && letter <= '\u{200a}')
    ||| letter == '\u{2028}'
    ||| letter == '\u{2029}'
    ||| letter == '\u{202f}'
    ||| letter == '\u{205f}'
    ||| letter == '\u{3000}'
}

/// Decides `white_space`, as `char::is_whitespace` does.
pub fn is_white_space(letter: char) -> (space: bool)
    ensures
        space == white_space(letter),
{
    ('\u{9}' <= letter && letter <= '\u{d}') || letter == ' ' || letter == '\u{85}'
        || letter == '\u{a0}' || letter == '\u{1680}' || ('\u{2000}' <= letter && letter
        <= '\u{200a}') || letter == '\u{2028}' || letter == '\u{2029}' || letter == '\u{202f}'
        || letter == '\u{205f}' || letter == '\u{3000}'
}

/// The number of bytes that the UTF-8 encoding of a character takes.
pub open spec fn utf8_width(letter: char) -> nat {
    if (letter as u32) < 0x80 {
        1
    } else if (letter as u32) < 0x800 {
        2
    } else if (letter as u32) < 0x10000 {
        3
    } else {
        4
    }
}

/// `char::len_utf8`.
pub fn width_of(letter: char) -> (width: usize)
    ensures
        width == utf8_width(letter),
{
    let code = letter as u32;
    if code < 0x80 {
        1
    } else if code < 0x800 {
        2
    } else if code < 0x10000 {
        3
    } else {
        4
    }
}

/// The number of bytes that the UTF-8 encoding of a character sequence takes.
pub open spec fn utf8_len(letters: Seq<char>) -> nat
    decreases letters.len(),
{
    if letters.len() == 0 {
        0
    } else {
        utf8_len(letters.drop_last()) + utf8_width(letters.last())
    }
}

/// The encoded length of two character sequences one after the other is the sum of theirs.
pub proof fn lemma_utf8_len_concat(a: Seq<char>, b: Seq<char>)
    ensures
        utf8_len(a + b) == utf8_len(a) + utf8_len(b),
    decreases b.len(),
{
    if b.len() == 0 {
        assert(a + b =~= a);
    } else {
        lemma_utf8_len_concat(a, b.drop_last());
        assert((a + b).drop_last() =~= a + b.drop_last());
        assert((a + b).last() == b.last());
    }
}

/// The number of bytes that characters `from..until` of `text` take in UTF-8.
pub fn utf8_span(text: &Vec<char>, from: usize, until: usize) -> (bytes: usize)
    requires
        from <= until <= text@.len(),
        utf8_len(text@) <= usize::MAX,
    ensures
        bytes == utf8_len(text@.subrange(from as int, until as int)),
{
    proof {
        lemma_utf8_len_concat(text@.subrange(0, from as int), text@.subrange(from as int, text@.len() as int));
        assert(text@.subrange(0, from as int) + text@.subrange(from as int, text@.len() as int) =~= text@);
    }
    let mut bytes: usize = 0;
    let mut k: usize = from;
    while k < until
        invariant
            from <= k <= until <= text@.len(),
            utf8_len(text@) <= usize::MAX,
            utf8_len(text@.subrange(from as int, text@.len() as int)) <= utf8_len(text@),
            bytes == utf8_len(text@.subrange(from as int, k as int)),
        decreases until - k,
    {
        proof {
            assert(text@.subrange(from as int, k + 1).drop_last() =~= text@.subrange(from as int, k as int));
            lemma_utf8_len_concat(text@.subrange(from as int, k + 1), text@.subrange(k + 1, text@.len() as int));
            assert(text@.subrange(from as int, k + 1) + text@.subrange(k + 1, text@.len() as int) =~= text@.subrange(from as int, text@.len() as int));
        }
        bytes = bytes + width_of(text[k]);
        k = k + 1;
    }
    bytes
}

/// The characters of `text`, in order.
pub fn chars_of(text: &str) -> (letters: Vec<char>)
    ensures
        letters@ == text@,
{
    let mut letters: Vec<char> = Vec::new();
    for letter in it: text.chars()
        invariant
            letters@ == it.seq().take(it.index() as int),
    {
        letters.push(letter);
    }
    letters
}

} // verus!
