//! Byte ranges of a lyric line for karaoke rendering: the part of the line that each timed
//! word owns, and the pieces between the places where the line may break. The original
//! text stays the source of truth; these are only ranges into it.
use icu_segmenter::LineSegmenter;
use icu_segmenter::options::LineBreakOptions;
use std::ops::Range;
use vstd::prelude::*;
use vstd::utf8::{decode_utf8, encode_utf8, is_char_boundary};

use crate::lyrics::model::LyricsWord;
use crate::text::{chars_of, grapheme_segments, graphemes_of, utf8_len, utf8_width, views_of, width_of};

verus! {

/// The byte offsets where ICU4X's line segmenter with dictionary data for complex scripts
/// allows a break in a text, in the order it gives them (UAX #14 with the Kinsoku rules,
/// word lists for Thai, Lao, Khmer and Myanmar).
pub uninterp spec fn line_break_offsets(text: Seq<char>) -> Seq<usize>;

/// `LineSegmenter::new_dictionary(LineBreakOptions::default()).segment_str(text)`, collected:
/// the break offsets of `text`, a function of its characters alone.
#[verifier::external_body]
fn line_breaks(text: &str) -> (offsets: Vec<usize>)
    ensures
        offsets@ == line_break_offsets(text@),
{
    LineSegmenter::new_dictionary(LineBreakOptions::default()).segment_str(text).collect()
}

proof fn lemma_utf8_len_first(letters: Seq<char>)
    requires
        letters.len() > 0,
    ensures
        utf8_len(letters) == utf8_width(letters[0]) + utf8_len(letters.drop_first()),
    decreases letters.len(),
{
    if letters.len() == 1 {
        assert(letters.drop_last().len() == 0);
        assert(letters.drop_first().len() == 0);
        assert(letters.last() == letters[0]);
        assert(utf8_len(letters.drop_last()) == 0);
        assert(utf8_len(letters.drop_first()) == 0);
        assert(utf8_len(letters) == utf8_len(letters.drop_last()) + utf8_width(letters.last()));
    } else {
        lemma_utf8_len_first(letters.drop_last());
        assert(letters.drop_last().drop_first() =~= letters.drop_first().drop_last());
        assert(letters.drop_first().last() == letters.last());
        assert(letters.drop_last()[0] == letters[0]);
        assert(utf8_len(letters.drop_first()) == utf8_len(letters.drop_first().drop_last()) + utf8_width(letters.drop_first().last()));
        assert(utf8_len(letters.drop_last()) == utf8_width(letters[0]) + utf8_len(letters.drop_last().drop_first()));
        assert(utf8_len(letters) == utf8_len(letters.drop_last()) + utf8_width(letters.last()));
    }
}

/// The UTF-8 encoding of a character sequence is as long as `utf8_len` says.
pub proof fn lemma_encoded_len(letters: Seq<char>)
    ensures
        encode_utf8(letters).len() == utf8_len(letters),
    decreases letters.len(),
{
    if letters.len() > 0 {
        lemma_utf8_len_first(letters);
        lemma_encoded_len(letters.drop_first());
        vstd::utf8::char_is_scalar(letters[0]);
    }
}

proof fn lemma_utf8_len_take(letters: Seq<char>, p: int)
    requires
        0 <= p < letters.len(),
    ensures
        utf8_len(letters.take(p + 1)) == utf8_len(letters.take(p)) + utf8_width(letters[p]),
{
    assert(letters.take(p + 1).drop_last() =~= letters.take(p));
}

/// A prefix of a character sequence encodes to no more bytes than the whole.
pub proof fn lemma_utf8_len_prefix(letters: Seq<char>, p: int)
    requires
        0 <= p <= letters.len(),
    ensures
        utf8_len(letters.take(p)) <= utf8_len(letters),
    decreases letters.len() - p,
{
    if p < letters.len() {
        lemma_utf8_len_take(letters, p);
        lemma_utf8_len_prefix(letters, p + 1);
    } else {
        assert(letters.take(p) =~= letters);
    }
}

/// The byte offset of each character position of `line`, the end included.
pub fn byte_offsets(line: &str, letters: &Vec<char>) -> (offsets: Vec<usize>)
    requires
        letters@ == line@,
    ensures
        offsets@.len() == letters@.len() + 1,
        forall|p: int| 0 <= p <= letters@.len() ==> #[trigger] offsets@[p] == utf8_len(line@.take(p)),
{
    let length = line.as_bytes().len();
    proof {
        lemma_encoded_len(line@);
    }
    let mut offsets: Vec<usize> = Vec::new();
    offsets.push(0);
    assert(line@.take(0).len() == 0);
    let mut at: usize = 0;
    let mut p: usize = 0;
    while p < letters.len()
        invariant
            letters@ == line@,
            length == utf8_len(line@),
            p <= letters@.len(),
            offsets@.len() == p + 1,
            at == utf8_len(line@.take(p as int)),
            forall|q: int| 0 <= q <= p ==> #[trigger] offsets@[q] == utf8_len(line@.take(q)),
        decreases letters@.len() - p,
    {
        proof {
            lemma_utf8_len_take(line@, p as int);
            lemma_utf8_len_prefix(line@, p as int + 1);
        }
        at = at + width_of(letters[p]);
        offsets.push(at);
        p = p + 1;
    }
    offsets
}

/// The first position at or after `from` where `word` occurs in `line`.
pub open spec fn find_from(line: Seq<char>, word: Seq<char>, from: int) -> Option<int>
    decreases line.len() - from,
{
    if from < 0 || from + word.len() > line.len() {
        None
    } else if line.subrange(from, from + word.len()) == word {
        Some(from)
    } else if word.len() == 0 {
        None
    } else {
        find_from(line, word, from + 1)
    }
}

/// Where each word of `words` from `k` on is found in `line`, each searched from the end of
/// the one before, the first from `cursor`; `None` when a word is empty or not found.
pub open spec fn word_starts(line: Seq<char>, words: Seq<Seq<char>>, k: int, cursor: int) -> Option<Seq<int>>
    decreases words.len() - k,
{
    if k >= words.len() || k < 0 {
        Some(Seq::empty())
    } else if words[k].len() == 0 {
        None
    } else {
        match find_from(line, words[k], cursor) {
            None => None,
            Some(start) => match word_starts(line, words, k + 1, start + words[k].len()) {
                None => None,
                Some(rest) => Some(seq![start] + rest),
            },
        }
    }
}

/// The characters each word owns when every word is found in order: from where it is
/// found (the first from the start of the line) to where the next is found (the last to
/// the end of the line).
pub open spec fn exact_spans(length: int, starts: Seq<int>) -> Seq<(int, int)> {
    Seq::new(starts.len(), |k: int| (
        if k == 0 { 0 } else { starts[k] },
        if k + 1 < starts.len() { starts[k + 1] } else { length },
    ))
}

/// The sum of the first `k` weights.
pub open spec fn weight_sum(weights: Seq<int>, k: int) -> int
    decreases k,
{
    if k <= 0 { 0 } else { weight_sum(weights, k - 1) + weights[k - 1] }
}

/// Where the span of word `index` should end, in characters, when the words share the line
/// by their lengths: the last word takes the line to its end; otherwise the share of the
/// words up to it (the product saturating at `usize::MAX`), or an equal share when no word
/// has a character.
pub open spec fn approximate_target(characters: int, weights: Seq<int>, index: int) -> int {
    let total = weight_sum(weights, weights.len() as int);
    if index + 1 == weights.len() {
        characters
    } else if total > 0 {
        let product = weight_sum(weights, index + 1) * characters;
        (if product > usize::MAX { usize::MAX as int } else { product }) / total
    } else {
        (index + 1) * characters / (weights.len() as int)
    }
}

/// Where the span of word `index` ends, in characters: its target, within the line and
/// never before the end of the span before it.
pub open spec fn approximate_end(characters: int, weights: Seq<int>, index: int) -> int
    decreases index + 1,
{
    if index < 0 {
        0
    } else {
        let target = approximate_target(characters, weights, index);
        let clamped = if target < characters { target } else { characters };
        let before = approximate_end(characters, weights, index - 1);
        if clamped >= before { clamped } else { before }
    }
}

/// The characters each word owns when the words share the line by their lengths.
pub open spec fn approximate_spans(characters: int, weights: Seq<int>) -> Seq<(int, int)> {
    Seq::new(weights.len(), |k: int| (
        approximate_end(characters, weights, k - 1),
        approximate_end(characters, weights, k),
    ))
}

/// The character lengths of the word texts.
pub open spec fn word_weights(words: Seq<LyricsWord>) -> Seq<int> {
    words.map_values(|word: LyricsWord| word.text@.len() as int)
}

/// The word texts as characters.
pub open spec fn word_texts_of(words: Seq<LyricsWord>) -> Seq<Seq<char>> {
    words.map_values(|word: LyricsWord| word.text@)
}

/// The characters each timed word owns in `line`: found in order when every word text is
/// found, shared by length otherwise.
pub open spec fn char_spans(line: Seq<char>, words: Seq<LyricsWord>) -> Seq<(int, int)> {
    match word_starts(line, word_texts_of(words), 0, 0) {
        Some(starts) => exact_spans(line.len() as int, starts),
        None => approximate_spans(line.len() as int, word_weights(words)),
    }
}

proof fn lemma_find_bounds(line: Seq<char>, word: Seq<char>, from: int)
    ensures
        find_from(line, word, from) matches Some(p) ==> from <= p && p + word.len() <= line.len()
            && line.subrange(p, p + word.len()) == word,
    decreases line.len() - from,
{
    if !(from < 0 || from + word.len() > line.len()) && line.subrange(from, from + word.len()) != word
        && word.len() != 0 {
        lemma_find_bounds(line, word, from + 1);
    }
}

/// Whether `word` occurs in `line` at `at`.
fn occurs(line: &Vec<char>, word: &Vec<char>, at: usize) -> (found: bool)
    requires
        at + word@.len() <= line@.len(),
    ensures
        found == (line@.subrange(at as int, at + word@.len()) == word@),
{
    let total = line.len();
    let mut k: usize = 0;
    while k < word.len()
        invariant
            total == line@.len(),
            at + word@.len() <= line@.len(),
            k <= word@.len(),
            forall|q: int| 0 <= q < k ==> line@[at + q] == word@[q],
        decreases word@.len() - k,
    {
        if line[at + k] != word[k] {
            assert(line@.subrange(at as int, at + word@.len())[k as int] != word@[k as int]);
            return false;
        }
        k = k + 1;
    }
    assert(line@.subrange(at as int, at + word@.len()) =~= word@);
    true
}

/// Decides `find_from` for a word that is not empty.
fn find_at(line: &Vec<char>, word: &Vec<char>, from: usize) -> (found: Option<usize>)
    requires
        from <= line@.len(),
        word@.len() > 0,
    ensures
        match found {
            Some(p) => find_from(line@, word@, from as int) == Some(p as int),
            None => find_from(line@, word@, from as int) is None,
        },
{
    let mut p: usize = from;
    while p <= line.len() && word.len() <= line.len() - p
        invariant
            from <= p,
            word@.len() > 0,
            find_from(line@, word@, from as int) == find_from(line@, word@, p as int),
        decreases line@.len() + 1 - p,
    {
        if occurs(line, word, p) {
            return Some(p);
        }
        p = p + 1;
    }
    None
}

/// The characters of each word text.
fn texts_of_words(words: &Vec<LyricsWord>) -> (texts: Vec<Vec<char>>)
    ensures
        texts@.len() == words@.len(),
        forall|k: int| 0 <= k < texts@.len() ==> (#[trigger] texts@[k])@ == word_texts_of(words@)[k],
{
    let mut texts: Vec<Vec<char>> = Vec::new();
    let mut k: usize = 0;
    while k < words.len()
        invariant
            k <= words@.len(),
            texts@.len() == k,
            forall|q: int| 0 <= q < k ==> (#[trigger] texts@[q])@ == word_texts_of(words@)[q],
        decreases words@.len() - k,
    {
        texts.push(chars_of(words[k].text.as_str()));
        k = k + 1;
    }
    texts
}

/// Decides `word_starts` from the first word and the start of the line.
fn exact_starts(line: &Vec<char>, words: &Vec<LyricsWord>, texts: &Vec<Vec<char>>) -> (starts: Option<Vec<usize>>)
    requires
        texts@.len() == words@.len(),
        forall|k: int| 0 <= k < texts@.len() ==> (#[trigger] texts@[k])@ == word_texts_of(words@)[k],
    ensures
        match starts {
            Some(starts) => word_starts(line@, word_texts_of(words@), 0, 0) == Some(
                starts@.map_values(|s: usize| s as int),
            ) && forall|k: int| 0 <= k < starts@.len() ==> #[trigger] starts@[k] <= line@.len(),
            None => word_starts(line@, word_texts_of(words@), 0, 0) is None,
        },
{
    let ghost all = word_texts_of(words@);
    let total = line.len();
    let mut starts: Vec<usize> = Vec::new();
    let mut cursor: usize = 0;
    let mut k: usize = 0;
    assert(starts@.map_values(|s: usize| s as int) + Seq::<int>::empty() =~= Seq::<int>::empty());
    while k < texts.len()
        invariant
            texts@.len() == words@.len(),
            all == word_texts_of(words@),
            all.len() == words@.len(),
            forall|q: int| 0 <= q < texts@.len() ==> (#[trigger] texts@[q])@ == all[q],
            k <= texts@.len(),
            starts@.len() == k,
            total == line@.len(),
            cursor <= line@.len(),
            forall|q: int| 0 <= q < starts@.len() ==> #[trigger] starts@[q] <= line@.len(),
            word_starts(line@, all, 0, 0) == match word_starts(line@, all, k as int, cursor as int) {
                Some(rest) => Some(starts@.map_values(|s: usize| s as int) + rest),
                None => None,
            },
        decreases texts@.len() - k,
    {
        let text = &texts[k];
        if text.len() == 0 {
            return None;
        }
        let start = match find_at(line, text, cursor) {
            Some(start) => start,
            None => return None,
        };
        proof {
            lemma_find_bounds(line@, all[k as int], cursor as int);
            let before = starts@.map_values(|s: usize| s as int);
            let after = starts@.push(start).map_values(|s: usize| s as int);
            assert(after =~= before.push(start as int));
            match word_starts(line@, all, k + 1, start + all[k as int].len()) {
                Some(rest) => {
                    assert(before + (seq![start as int] + rest) =~= after + rest);
                },
                None => {},
            }
        }
        starts.push(start);
        cursor = start + text.len();
        k = k + 1;
    }
    proof {
        assert(starts@.map_values(|s: usize| s as int) + Seq::<int>::empty() =~= starts@.map_values(|s: usize| s as int));
    }
    Some(starts)
}

/// The weights as integers.
pub open spec fn as_ints(weights: Seq<usize>) -> Seq<int> {
    weights.map_values(|w: usize| w as int)
}

proof fn lemma_weight_sum_step(weights: Seq<int>, k: int)
    requires
        0 <= k,
    ensures
        weight_sum(weights, k + 1) == weight_sum(weights, k) + weights[k],
{
}

proof fn lemma_target_fits(characters: int, weights: Seq<usize>, index: int)
    requires
        0 <= index < weights.len(),
        0 <= characters <= usize::MAX,
        weights.len() <= usize::MAX,
    ensures
        0 <= approximate_target(characters, as_ints(weights), index) <= usize::MAX,
{
    let ws = as_ints(weights);
    assert forall|i: int| 0 <= i < ws.len() implies ws[i] >= 0 by {
        assert(ws[i] == weights[i] as int);
    }
    lemma_weight_sum_nonnegative(ws, index + 1);
    lemma_weight_sum_nonnegative(ws, ws.len() as int);
    let total = weight_sum(ws, ws.len() as int);
    if index + 1 == ws.len() {
    } else if total > 0 {
        let part = weight_sum(ws, index + 1);
        assert(part * characters >= 0) by (nonlinear_arith)
            requires part >= 0, characters >= 0;
        let product = part * characters;
        let capped = if product > usize::MAX { usize::MAX as int } else { product };
        assert(capped / total <= capped) by (nonlinear_arith)
            requires capped >= 0, total >= 1;
        assert(capped / total >= 0) by (nonlinear_arith)
            requires capped >= 0, total >= 1;
    } else {
        let n = ws.len() as int;
        assert((index + 1) * characters / n <= characters) by (nonlinear_arith)
            requires 0 <= index + 1 <= n, n >= 1, characters >= 0;
        assert((index + 1) * characters / n >= 0) by (nonlinear_arith)
            requires 0 <= index + 1 <= n, n >= 1, characters >= 0;
    }
}

proof fn lemma_weight_sum_nonnegative(weights: Seq<int>, k: int)
    requires
        forall|i: int| 0 <= i < weights.len() ==> weights[i] >= 0,
        k <= weights.len(),
    ensures
        weight_sum(weights, k) >= 0,
    decreases k,
{
    if k > 0 {
        lemma_weight_sum_nonnegative(weights, k - 1);
    }
}

/// Decides `approximate_spans`.
fn approximate_char_spans(characters: usize, weights: &Vec<usize>) -> (spans: Vec<(usize, usize)>)
    ensures
        spans@.len() == weights@.len(),
        forall|k: int| 0 <= k < spans@.len() ==> {
            &&& (#[trigger] spans@[k]).0 == approximate_spans(characters as int, as_ints(weights@))[k].0
            &&& spans@[k].1 == approximate_spans(characters as int, as_ints(weights@))[k].1
            &&& spans@[k].0 <= characters
            &&& spans@[k].1 <= characters
        },
{
    let ghost ws = as_ints(weights@);
    let n = weights.len();
    let mut total: u128 = 0;
    let mut k: usize = 0;
    while k < n
        invariant
            n == weights@.len(),
            ws == as_ints(weights@),
            k <= n,
            total == weight_sum(ws, k as int),
            total <= k * (usize::MAX as int),
        decreases n - k,
    {
        proof {
            lemma_weight_sum_step(ws, k as int);
            assert((k + 1) * (usize::MAX as int) <= (usize::MAX as int) * (usize::MAX as int)) by (nonlinear_arith)
                requires k + 1 <= usize::MAX;
            assert((usize::MAX as int) * (usize::MAX as int) < u128::MAX) by (nonlinear_arith);
            assert((k + 1) * (usize::MAX as int) == k * (usize::MAX as int) + usize::MAX) by (nonlinear_arith);
        }
        total = total + weights[k] as u128;
        k = k + 1;
    }
    let mut spans: Vec<(usize, usize)> = Vec::new();
    let mut consumed: u128 = 0;
    let mut previous: usize = 0;
    let mut index: usize = 0;
    while index < n
        invariant
            n == weights@.len(),
            ws == as_ints(weights@),
            forall|i: int| 0 <= i < ws.len() ==> ws[i] >= 0,
            index <= n,
            total == weight_sum(ws, n as int),
            consumed == weight_sum(ws, index as int),
            consumed <= index * (usize::MAX as int),
            previous == approximate_end(characters as int, ws, index - 1),
            previous <= characters,
            spans@.len() == index,
            forall|q: int| 0 <= q < index ==> {
                &&& (#[trigger] spans@[q]).0 == approximate_spans(characters as int, ws)[q].0
                &&& spans@[q].1 == approximate_spans(characters as int, ws)[q].1
                &&& spans@[q].0 <= characters
                &&& spans@[q].1 <= characters
            },
        decreases n - index,
    {
        proof {
            lemma_weight_sum_step(ws, index as int);
            assert((index + 1) * (usize::MAX as int) <= (usize::MAX as int) * (usize::MAX as int)) by (nonlinear_arith)
                requires index + 1 <= usize::MAX;
            assert((usize::MAX as int) * (usize::MAX as int) < u128::MAX) by (nonlinear_arith);
            assert((index + 1) * (usize::MAX as int) == index * (usize::MAX as int) + usize::MAX) by (nonlinear_arith);
            lemma_target_fits(characters as int, weights@, index as int);
        }
        consumed = consumed + weights[index] as u128;
        let target: usize = if index + 1 == n {
            characters
        } else if total > 0 {
            let capped: u128 = if characters == 0 {
                0
            } else if consumed > usize::MAX as u128 {
                assert(consumed * characters > usize::MAX) by (nonlinear_arith)
                    requires consumed > usize::MAX, characters >= 1;
                usize::MAX as u128
            } else {
                assert(consumed * characters <= (usize::MAX as int) * (usize::MAX as int)) by (nonlinear_arith)
                    requires consumed <= usize::MAX, characters <= usize::MAX;
                assert((usize::MAX as int) * (usize::MAX as int) < u128::MAX) by (nonlinear_arith);
                let product = consumed * characters as u128;
                if product > usize::MAX as u128 { usize::MAX as u128 } else { product }
            };
            (capped / total) as usize
        } else {
            assert((index + 1) * characters <= (usize::MAX as int) * (usize::MAX as int)) by (nonlinear_arith)
                requires index + 1 <= usize::MAX, characters <= usize::MAX;
            assert((usize::MAX as int) * (usize::MAX as int) < u128::MAX) by (nonlinear_arith);
            (((index + 1) as u128 * characters as u128) / n as u128) as usize
        };
        let clamped = if target < characters { target } else { characters };
        let end = if clamped >= previous { clamped } else { previous };
        spans.push((previous, end));
        previous = end;
        index = index + 1;
    }
    spans
}

/// Decides `exact_spans`.
fn exact_char_spans(length: usize, starts: &Vec<usize>) -> (spans: Vec<(usize, usize)>)
    requires
        forall|k: int| 0 <= k < starts@.len() ==> #[trigger] starts@[k] <= length,
    ensures
        spans@.len() == starts@.len(),
        forall|k: int| 0 <= k < spans@.len() ==> {
            &&& (#[trigger] spans@[k]).0 == exact_spans(length as int, starts@.map_values(|s: usize| s as int))[k].0
            &&& spans@[k].1 == exact_spans(length as int, starts@.map_values(|s: usize| s as int))[k].1
            &&& spans@[k].0 <= length
            &&& spans@[k].1 <= length
        },
{
    let ghost ints = starts@.map_values(|s: usize| s as int);
    let n = starts.len();
    let mut spans: Vec<(usize, usize)> = Vec::new();
    let mut k: usize = 0;
    while k < n
        invariant
            n == starts@.len(),
            ints == starts@.map_values(|s: usize| s as int),
            forall|q: int| 0 <= q < starts@.len() ==> #[trigger] starts@[q] <= length,
            k <= n,
            spans@.len() == k,
            forall|q: int| 0 <= q < k ==> {
                &&& (#[trigger] spans@[q]).0 == exact_spans(length as int, ints)[q].0
                &&& spans@[q].1 == exact_spans(length as int, ints)[q].1
                &&& spans@[q].0 <= length
                &&& spans@[q].1 <= length
            },
        decreases n - k,
    {
        let from = if k == 0 { 0 } else { starts[k] };
        let until = if k + 1 < n { starts[k + 1] } else { length };
        spans.push((from, until));
        k = k + 1;
    }
    spans
}

/// The byte range of `line` that each timed word owns. Provider words carry timing only,
/// never line breaks. When every word text is found in the line, each searched after the
/// one before, a word owns the line from where it is found to where the next one is (the
/// first from the start of the line, the last to its end). Otherwise the words share the
/// characters of the line by the character lengths of their texts, so that the whole line
/// stays owned and every range falls on character boundaries.
pub fn timing_spans(line: &str, words: &Vec<LyricsWord>) -> (spans: Vec<Range<usize>>)
    ensures
        spans@.len() == words@.len(),
        forall|k: int| 0 <= k < spans@.len() ==> {
            &&& 0 <= char_spans(line@, words@)[k].0 <= line@.len()
            &&& 0 <= char_spans(line@, words@)[k].1 <= line@.len()
            &&& (#[trigger] spans@[k]).start == utf8_len(line@.take(char_spans(line@, words@)[k].0))
            &&& spans@[k].end == utf8_len(line@.take(char_spans(line@, words@)[k].1))
        },
        words@.len() > 0 ==> spans@[0].start == 0 && spans@[words@.len() - 1].end == utf8_len(line@),
        forall|k: int| 0 <= k < spans@.len() - 1 ==> (#[trigger] spans@[k]).end == spans@[k + 1].start,
        forall|k: int| 0 <= k < spans@.len() ==> (#[trigger] spans@[k]).start <= spans@[k].end,
{
    let letters = chars_of(line);
    let offsets = byte_offsets(line, &letters);
    let texts = texts_of_words(words);
    let length = letters.len();
    let owned = match exact_starts(&letters, words, &texts) {
        Some(starts) => {
            let owned = exact_char_spans(length, &starts);
            proof {
                assert(starts@.len() == word_texts_of(words@).len()) by {
                    lemma_word_starts_len(letters@, word_texts_of(words@), 0, 0);
                }
                assert(char_spans(line@, words@).len() == owned@.len());
            }
            owned
        },
        None => {
            let mut weights: Vec<usize> = Vec::new();
            let mut k: usize = 0;
            while k < texts.len()
                invariant
                    k <= texts@.len(),
                    weights@.len() == k,
                    forall|q: int| 0 <= q < k ==> #[trigger] weights@[q] == texts@[q]@.len(),
                decreases texts@.len() - k,
            {
                weights.push(texts[k].len());
                k = k + 1;
            }
            assert(as_ints(weights@) =~= word_weights(words@));
            let owned = approximate_char_spans(length, &weights);
            assert(char_spans(line@, words@).len() == owned@.len());
            owned
        },
    };
    assert forall|k: int| 0 <= k < owned@.len() implies (#[trigger] owned@[k]).0 == char_spans(line@, words@)[k].0
        && owned@[k].1 == char_spans(line@, words@)[k].1 by {}
    let mut spans: Vec<Range<usize>> = Vec::new();
    let mut k: usize = 0;
    while k < owned.len()
        invariant
            letters@ == line@,
            length == letters@.len(),
            offsets@.len() == letters@.len() + 1,
            forall|p: int| 0 <= p <= letters@.len() ==> #[trigger] offsets@[p] == utf8_len(line@.take(p)),
            owned@.len() == words@.len(),
            char_spans(line@, words@).len() == owned@.len(),
            forall|q: int| 0 <= q < owned@.len() ==> (#[trigger] owned@[q]).0 <= length && owned@[q].1 <= length,
            forall|q: int| 0 <= q < owned@.len() ==> (#[trigger] owned@[q]).0 == char_spans(line@, words@)[q].0
                && owned@[q].1 == char_spans(line@, words@)[q].1,
            k <= owned@.len(),
            spans@.len() == k,
            forall|q: int| 0 <= q < k ==> {
                &&& (#[trigger] spans@[q]).start == utf8_len(line@.take(char_spans(line@, words@)[q].0))
                &&& spans@[q].end == utf8_len(line@.take(char_spans(line@, words@)[q].1))
            },
        decreases owned@.len() - k,
    {
        let (from, until) = owned[k];
        spans.push(Range { start: offsets[from], end: offsets[until] });
        k = k + 1;
    }
    assert forall|q: int| 0 <= q < spans@.len() implies 0 <= #[trigger] char_spans(line@, words@)[q].0 <= line@.len()
        && 0 <= char_spans(line@, words@)[q].1 <= line@.len() by {
        assert(owned@[q].0 <= length && owned@[q].1 <= length);
    }
    proof {
        if words@.len() > 0 {
            lemma_timing_spans_cover(line@, words@);
            assert(line@.take(0) =~= Seq::<char>::empty());
            assert(line@.take(line@.len() as int) =~= line@);
            assert forall|q: int| 0 <= q < spans@.len() implies (#[trigger] spans@[q]).start <= spans@[q].end by {
                let a = char_spans(line@, words@)[q].0;
                let b = char_spans(line@, words@)[q].1;
                lemma_utf8_len_prefix(line@.take(b), a);
                assert(line@.take(b).take(a) =~= line@.take(a));
            }
        }
    }
    spans
}

proof fn lemma_word_starts_len(line: Seq<char>, words: Seq<Seq<char>>, k: int, cursor: int)
    requires
        0 <= k <= words.len(),
    ensures
        word_starts(line, words, k, cursor) matches Some(starts) ==> starts.len() == words.len() - k,
    decreases words.len() - k,
{
    if k < words.len() && words[k].len() != 0 {
        match find_from(line, words[k], cursor) {
            Some(start) => lemma_word_starts_len(line, words, k + 1, start + words[k].len()),
            None => {},
        }
    }
}

/// The offsets that fall on character boundaries of the encoded line.
pub open spec fn on_boundaries(offsets: Seq<usize>, bytes: Seq<u8>) -> Seq<usize> {
    offsets.filter(|offset: usize| is_char_boundary(bytes, offset as int))
}

/// The break points with the start of the line put in front and its end put last, where
/// they are not already.
pub open spec fn framed(points: Seq<usize>, length: usize) -> Seq<usize> {
    let front = if points.len() > 0 && points[0] == 0 { points } else { seq![0usize] + points };
    if front.last() == length { front } else { front.push(length) }
}

/// The ranges between consecutive points among the first `k` that run forward.
pub open spec fn rising_ranges(points: Seq<usize>, k: int) -> Seq<(usize, usize)>
    decreases k,
{
    if k < 2 {
        Seq::empty()
    } else {
        let before = rising_ranges(points, k - 1);
        if points[k - 2] < points[k - 1] {
            before.push((points[k - 2], points[k - 1]))
        } else {
            before
        }
    }
}

/// The pieces of a line between the places where it may break: the ICU break offsets that
/// fall on character boundaries, framed by the start and the end of the line.
pub open spec fn break_ranges(text: Seq<char>) -> Seq<(usize, usize)> {
    let bytes = encode_utf8(text);
    let points = framed(on_boundaries(line_break_offsets(text), bytes), bytes.len() as usize);
    rising_ranges(points, points.len() as int)
}

proof fn lemma_on_boundaries_step(offsets: Seq<usize>, bytes: Seq<u8>, i: int)
    requires
        0 <= i < offsets.len(),
    ensures
        on_boundaries(offsets.take(i + 1), bytes) == (if is_char_boundary(bytes, offsets[i] as int) {
            on_boundaries(offsets.take(i), bytes).push(offsets[i])
        } else {
            on_boundaries(offsets.take(i), bytes)
        }),
{
    reveal(Seq::filter);
    let next = offsets.take(i + 1);
    assert(next.drop_last() =~= offsets.take(i));
    assert(next.last() == offsets[i]);
}

/// Whether `x` is one of the first `k` points.
pub open spec fn among(points: Seq<usize>, k: int, x: usize) -> bool {
    exists|i: int| 0 <= i < k && #[trigger] points[i] == x
}

proof fn lemma_rising_ranges(points: Seq<usize>, k: int)
    requires
        0 <= k <= points.len(),
    ensures
        forall|q: int| 0 <= q < rising_ranges(points, k).len() ==> {
            &&& (#[trigger] rising_ranges(points, k)[q]).0 < rising_ranges(points, k)[q].1
            &&& among(points, k, rising_ranges(points, k)[q].0)
            &&& among(points, k, rising_ranges(points, k)[q].1)
        },
    decreases k,
{
    if k >= 2 {
        lemma_rising_ranges(points, k - 1);
        let before = rising_ranges(points, k - 1);
        assert forall|q: int| 0 <= q < before.len() implies {
            &&& among(points, k, before[q].0)
            &&& among(points, k, before[q].1)
        } by {
            let a = choose|i: int| 0 <= i < k - 1 && #[trigger] points[i] == before[q].0;
            let b = choose|i: int| 0 <= i < k - 1 && #[trigger] points[i] == before[q].1;
            assert(0 <= a < k && points[a] == before[q].0);
            assert(0 <= b < k && points[b] == before[q].1);
        }
        assert(among(points, k, points[k - 2]));
        assert(among(points, k, points[k - 1]));
    }
}

/// The pieces of `line` between the places where it may break, as byte ranges: where
/// ICU4X's dictionary line segmenter allows a break (UAX #14 with the Kinsoku rules, word
/// lists for Thai and the other complex scripts), at character boundaries only, from the
/// start of the line to its end. Repeated points and points that do not run forward give
/// no range. Timing never takes part in this.
pub fn normal_break_ranges(line: &str) -> (ranges: Vec<Range<usize>>)
    ensures
        ranges@.len() == break_ranges(line@).len(),
        forall|k: int| 0 <= k < ranges@.len() ==> {
            &&& (#[trigger] ranges@[k]).start == break_ranges(line@)[k].0
            &&& ranges@[k].end == break_ranges(line@)[k].1
            &&& ranges@[k].start < ranges@[k].end
            &&& is_char_boundary(encode_utf8(line@), ranges@[k].start as int)
            &&& is_char_boundary(encode_utf8(line@), ranges@[k].end as int)
        },
{
    let ghost bytes = encode_utf8(line@);
    let length = line.as_bytes().len();
    let offsets = line_breaks(line);
    let mut kept: Vec<usize> = Vec::new();
    let mut i: usize = 0;
    assert(offsets@.take(0) =~= Seq::<usize>::empty());
    while i < offsets.len()
        invariant
            bytes == encode_utf8(line@),
            i <= offsets@.len(),
            kept@ == on_boundaries(offsets@.take(i as int), bytes),
            forall|j: int| 0 <= j < kept@.len() ==> is_char_boundary(bytes, #[trigger] kept@[j] as int),
        decreases offsets@.len() - i,
    {
        let ghost next = offsets@.take(i + 1);
        proof {
            lemma_on_boundaries_step(offsets@, bytes, i as int);
        }
        let boundary = line.is_char_boundary(offsets[i]);
        assert(boundary == is_char_boundary(bytes, offsets@[i as int] as int));
        if boundary {
            kept.push(offsets[i]);
        }
        assert(kept@ == on_boundaries(next, bytes));
        i = i + 1;
    }
    assert(offsets@.take(offsets@.len() as int) =~= offsets@);
    let mut points: Vec<usize> = Vec::new();
    if !(kept.len() > 0 && kept[0] == 0) {
        points.push(0);
    }
    let ghost front_count = points@.len();
    let mut k: usize = 0;
    while k < kept.len()
        invariant
            front_count == points@.len() - k,
            front_count <= 1,
            front_count == 1 ==> points@[0] == 0usize,
            k <= kept@.len(),
            points@.subrange(front_count as int, points@.len() as int) =~= kept@.take(k as int),
        decreases kept@.len() - k,
    {
        points.push(kept[k]);
        k = k + 1;
        assert(points@.subrange(front_count as int, points@.len() as int) =~= kept@.take(k as int));
    }
    proof {
        let front = if kept@.len() > 0 && kept@[0] == 0 { kept@ } else { seq![0usize] + kept@ };
        assert(kept@.take(kept@.len() as int) =~= kept@);
        assert(points@ =~= front);
    }
    let ghost before_end = points@;
    if points[points.len() - 1] != length {
        points.push(length);
    }
    assert(points@.subrange(0, before_end.len() as int) =~= before_end);
    assert(before_end.subrange(front_count as int, before_end.len() as int) =~= kept@);
    assert(points@ == framed(on_boundaries(line_break_offsets(line@), bytes), length));
    proof {
        vstd::utf8::encode_utf8_valid_utf8(line@);
        vstd::utf8::is_char_boundary_start_end_of_seq(bytes);
        assert forall|q: int| 0 <= q < points@.len() implies is_char_boundary(bytes, #[trigger] points@[q] as int) by {
            if q >= front_count && q < front_count + kept@.len() {
                assert(points@[q] == kept@[q - front_count]);
            }
        }
    }
    let mut ranges: Vec<Range<usize>> = Vec::new();
    let mut k: usize = 1;
    while k < points.len()
        invariant
            1 <= k <= points@.len(),
            ranges@.len() == rising_ranges(points@, k as int).len(),
            forall|q: int| 0 <= q < ranges@.len() ==> {
                &&& (#[trigger] ranges@[q]).start == rising_ranges(points@, k as int)[q].0
                &&& ranges@[q].end == rising_ranges(points@, k as int)[q].1
            },
        decreases points@.len() - k,
    {
        if points[k - 1] < points[k] {
            ranges.push(Range { start: points[k - 1], end: points[k] });
        }
        k = k + 1;
    }
    proof {
        lemma_rising_ranges(points@, points@.len() as int);
        assert forall|q: int| 0 <= q < ranges@.len() implies {
            &&& is_char_boundary(bytes, (#[trigger] ranges@[q]).start as int)
            &&& is_char_boundary(bytes, ranges@[q].end as int)
        } by {
            assert(among(points@, points@.len() as int, ranges@[q].start));
            assert(among(points@, points@.len() as int, ranges@[q].end));
            let a = choose|i: int| 0 <= i < points@.len() && #[trigger] points@[i] == ranges@[q].start;
            let b = choose|i: int| 0 <= i < points@.len() && #[trigger] points@[i] == ranges@[q].end;
            assert(is_char_boundary(bytes, points@[a] as int));
            assert(is_char_boundary(bytes, points@[b] as int));
        }
    }
    ranges
}

/// The characters that bytes `start..end` of the encoded line hold.
pub open spec fn piece_of(line: Seq<char>, start: int, end: int) -> Seq<char> {
    decode_utf8(encode_utf8(line).subrange(start, end))
}

/// Where the `i`-th of `clusters` ends, counted in bytes from `start`: the start plus the
/// encoded length of the clusters before it and of itself.
pub open spec fn cluster_end(start: int, clusters: Seq<Seq<char>>, i: int) -> int {
    start + encode_utf8(clusters.take(i).flatten_alt()).len()
}

/// The byte ranges of `clusters` laid one after another from `start`.
pub open spec fn split_ranges(start: int, clusters: Seq<Seq<char>>) -> Seq<(int, int)> {
    Seq::new(clusters.len(), |i: int| (cluster_end(start, clusters, i), cluster_end(start, clusters, i + 1)))
}

/// The first `k` of the normal ranges, each kept where it fits and split into its extended
/// grapheme clusters where it does not.
pub open spec fn emergency(line: Seq<char>, normal: Seq<Range<usize>>, fits: Seq<bool>, k: int) -> Seq<(int, int)>
    decreases k,
{
    if k <= 0 {
        Seq::empty()
    } else {
        let range = normal[k - 1];
        let more = if fits[k - 1] {
            seq![(range.start as int, range.end as int)]
        } else {
            split_ranges(range.start as int, graphemes_of(piece_of(line, range.start as int, range.end as int)))
        };
        emergency(line, normal, fits, k - 1) + more
    }
}

proof fn lemma_encode_concat(a: Seq<char>, b: Seq<char>)
    ensures
        encode_utf8(a + b) == encode_utf8(a) + encode_utf8(b),
    decreases a.len(),
{
    if a.len() == 0 {
        assert(a + b =~= b);
        assert(encode_utf8(a) =~= Seq::<u8>::empty());
        assert(encode_utf8(a) + encode_utf8(b) =~= encode_utf8(b));
    } else {
        lemma_encode_concat(a.drop_first(), b);
        assert((a + b).drop_first() =~= a.drop_first() + b);
        assert((a + b)[0] == a[0]);
        assert(encode_utf8(a + b) == vstd::utf8::encode_scalar(a[0] as u32) + encode_utf8(a.drop_first() + b));
        assert(encode_utf8(a) == vstd::utf8::encode_scalar(a[0] as u32) + encode_utf8(a.drop_first()));
        assert(encode_utf8(a + b) =~= encode_utf8(a) + encode_utf8(b));
    }
}

proof fn lemma_cluster_end_step(start: int, clusters: Seq<Seq<char>>, i: int)
    requires
        0 <= i < clusters.len(),
    ensures
        cluster_end(start, clusters, i + 1) == cluster_end(start, clusters, i) + encode_utf8(clusters[i]).len(),
{
    let next = clusters.take(i + 1);
    assert(next.drop_last() =~= clusters.take(i));
    assert(next.last() == clusters[i]);
    assert(next.flatten_alt() == clusters.take(i).flatten_alt() + clusters[i]);
    lemma_encode_concat(clusters.take(i).flatten_alt(), clusters[i]);
}

proof fn lemma_cluster_end_grows(start: int, clusters: Seq<Seq<char>>, i: int, j: int)
    requires
        0 <= i <= j <= clusters.len(),
    ensures
        cluster_end(start, clusters, i) <= cluster_end(start, clusters, j),
    decreases j - i,
{
    if i < j {
        lemma_cluster_end_step(start, clusters, j - 1);
        lemma_cluster_end_grows(start, clusters, i, j - 1);
    }
}

proof fn lemma_boundary_in_prefix(bytes: Seq<u8>, at: int, end: int)
    requires
        vstd::utf8::valid_utf8(bytes),
        is_char_boundary(bytes, at),
        is_char_boundary(bytes, end),
        0 <= at <= end <= bytes.len(),
    ensures
        vstd::utf8::valid_utf8(bytes.subrange(0, end)),
        is_char_boundary(bytes.subrange(0, end), at),
{
    let head = bytes.subrange(0, end);
    vstd::utf8::valid_utf8_split(bytes, end);
    if at == end {
        vstd::utf8::is_char_boundary_start_end_of_seq(head);
    } else {
        vstd::utf8::is_char_boundary_iff_not_is_continuation_byte(bytes, at);
        vstd::utf8::is_char_boundary_iff_not_is_continuation_byte(head, at);
    }
}

/// The byte ranges of `normal` made to fit a row: a range that fits (`fits` says which, as
/// measured by the caller) is kept, one that does not is split into its extended grapheme
/// clusters (`UnicodeSegmentation::graphemes`), so that no cluster is ever cut. The pieces
/// of a split range run one after another from its start to its end.
pub fn emergency_ranges(line: &str, normal: Vec<Range<usize>>, fits: &Vec<bool>) -> (ranges: Vec<Range<usize>>)
    requires
        fits@.len() == normal@.len(),
        forall|k: int| 0 <= k < normal@.len() ==> {
            &&& (#[trigger] normal@[k]).start <= normal@[k].end
            &&& is_char_boundary(encode_utf8(line@), normal@[k].start as int)
            &&& is_char_boundary(encode_utf8(line@), normal@[k].end as int)
        },
    ensures
        ranges@.len() == emergency(line@, normal@, fits@, normal@.len() as int).len(),
        forall|j: int| 0 <= j < ranges@.len() ==> {
            &&& (#[trigger] ranges@[j]).start == emergency(line@, normal@, fits@, normal@.len() as int)[j].0
            &&& ranges@[j].end == emergency(line@, normal@, fits@, normal@.len() as int)[j].1
        },
        forall|k: int| 0 <= k < normal@.len() && !fits@[k] ==> {
            let clusters = graphemes_of(piece_of(line@, normal@[k].start as int, normal@[k].end as int));
            cluster_end(normal@[k].start as int, clusters, clusters.len() as int) == normal@[k].end
        },
{
    let ghost bytes = encode_utf8(line@);
    proof {
        vstd::utf8::encode_utf8_valid_utf8(line@);
    }
    let mut ranges: Vec<Range<usize>> = Vec::new();
    let mut k: usize = 0;
    while k < normal.len()
        invariant
            bytes == encode_utf8(line@),
            vstd::utf8::valid_utf8(bytes),
            fits@.len() == normal@.len(),
            forall|q: int| 0 <= q < normal@.len() ==> {
                &&& (#[trigger] normal@[q]).start <= normal@[q].end
                &&& is_char_boundary(bytes, normal@[q].start as int)
                &&& is_char_boundary(bytes, normal@[q].end as int)
            },
            k <= normal@.len(),
            ranges@.len() == emergency(line@, normal@, fits@, k as int).len(),
            forall|j: int| 0 <= j < ranges@.len() ==> {
                &&& (#[trigger] ranges@[j]).start == emergency(line@, normal@, fits@, k as int)[j].0
                &&& ranges@[j].end == emergency(line@, normal@, fits@, k as int)[j].1
            },
            forall|q: int| 0 <= q < k && !fits@[q] ==> {
                let clusters = graphemes_of(piece_of(line@, normal@[q].start as int, normal@[q].end as int));
                cluster_end(normal@[q].start as int, clusters, clusters.len() as int) == normal@[q].end
            },
        decreases normal@.len() - k,
    {
        let start = normal[k].start;
        let end = normal[k].end;
        let ghost before = ranges@;
        let ghost earlier = emergency(line@, normal@, fits@, k as int);
        if fits[k] {
            ranges.push(Range { start, end });
        } else {
            proof {
                lemma_boundary_in_prefix(bytes, start as int, end as int);
            }
            let (head, _) = line.split_at(end);
            let (_, piece) = head.split_at(start);
            let ghost piece_bytes = bytes.subrange(start as int, end as int);
            proof {
                assert(piece_bytes =~= bytes.subrange(0, end as int).subrange(start as int, end as int));
                vstd::utf8::encode_utf8_decode_utf8(piece@);
                assert(piece@ == piece_of(line@, start as int, end as int));
            }
            let clusters = grapheme_segments(piece);
            let ghost views = views_of(clusters@);
            assert(views.len() == clusters@.len());
            proof {
                assert(views.take(views.len() as int) =~= views);
                assert(cluster_end(start as int, views, views.len() as int) == end);
            }
            let mut at: usize = start;
            let mut i: usize = 0;
            while i < clusters.len()
                invariant
                    views == views_of(clusters@),
                    views.len() == clusters@.len(),
                    cluster_end(start as int, views, views.len() as int) == end,
                    i <= clusters@.len(),
                    at == cluster_end(start as int, views, i as int),
                    ranges@.len() == before.len() + i,
                    ranges@.subrange(0, before.len() as int) == before,
                    forall|j: int| 0 <= j < i ==> {
                        &&& (#[trigger] ranges@[before.len() + j]).start == split_ranges(start as int, views)[j].0
                        &&& ranges@[before.len() + j].end == split_ranges(start as int, views)[j].1
                    },
                decreases clusters@.len() - i,
            {
                proof {
                    lemma_cluster_end_step(start as int, views, i as int);
                    lemma_cluster_end_grows(start as int, views, i as int + 1, views.len() as int);
                    assert(views[i as int] == clusters@[i as int]@);
                }
                let width = clusters[i].len();
                let next = at + width;
                ranges.push(Range { start: at, end: next });
                at = next;
                i = i + 1;
            }
            proof {
                assert(views == graphemes_of(piece_of(line@, start as int, end as int)));
            }
        }
        proof {
            let now = emergency(line@, normal@, fits@, k as int + 1);
            assert(now == earlier + (if fits@[k as int] {
                seq![(start as int, end as int)]
            } else {
                split_ranges(start as int, graphemes_of(piece_of(line@, start as int, end as int)))
            }));
            assert forall|j: int| 0 <= j < ranges@.len() implies {
                &&& (#[trigger] ranges@[j]).start == now[j].0
                &&& ranges@[j].end == now[j].1
            } by {
                if j < before.len() {
                    assert(ranges@[j] == before[j]);
                } else {
                    let jj = j - before.len();
                    assert(ranges@[before.len() + jj] == ranges@[j]);
                    assert(now[j] == now[earlier.len() + jj]);
                }
            }
        }
        k = k + 1;
    }
    ranges
}

proof fn lemma_word_starts_shape(line: Seq<char>, words: Seq<Seq<char>>, k: int, cursor: int)
    requires
        0 <= k <= words.len(),
        0 <= cursor,
    ensures
        word_starts(line, words, k, cursor) matches Some(starts) ==> {
            &&& starts.len() == words.len() - k
            &&& forall|i: int| 0 <= i < starts.len() ==> cursor <= #[trigger] starts[i] && starts[i] + words[k + i].len() <= line.len()
            &&& forall|i: int| 0 <= i < starts.len() - 1 ==> #[trigger] starts[i] + words[k + i].len() <= starts[i + 1]
        },
    decreases words.len() - k,
{
    if k < words.len() && words[k].len() != 0 {
        lemma_find_bounds(line, words[k], cursor);
        match find_from(line, words[k], cursor) {
            Some(start) => {
                lemma_word_starts_shape(line, words, k + 1, start + words[k].len());
                match word_starts(line, words, k + 1, start + words[k].len()) {
                    Some(rest) => {
                        let starts = seq![start] + rest;
                        assert forall|i: int| 0 <= i < starts.len() implies cursor <= #[trigger] starts[i]
                            && starts[i] + words[k + i].len() <= line.len() by {
                            if i > 0 {
                                assert(starts[i] == rest[i - 1]);
                                assert(k + 1 + (i - 1) == k + i);
                            }
                        }
                        assert forall|i: int| 0 <= i < starts.len() - 1 implies #[trigger] starts[i] + words[k + i].len() <= starts[i + 1] by {
                            if i > 0 {
                                assert(starts[i] == rest[i - 1]);
                                assert(starts[i + 1] == rest[i]);
                                assert(k + 1 + (i - 1) == k + i);
                            } else {
                                assert(starts[1] == rest[0]);
                            }
                        }
                    },
                    None => {},
                }
            },
            None => {},
        }
    }
}

proof fn lemma_approximate_end_bounds(characters: int, weights: Seq<int>, index: int)
    requires
        characters >= 0,
    ensures
        0 <= approximate_end(characters, weights, index) <= characters,
    decreases index + 1,
{
    if index >= 0 {
        lemma_approximate_end_bounds(characters, weights, index - 1);
    }
}

/// The timed words own the whole line between them: the first span starts at the start of
/// the line, each span ends where the next one starts, the last ends at the end of the
/// line, and no span runs backwards.
pub proof fn lemma_timing_spans_cover(line: Seq<char>, words: Seq<LyricsWord>)
    requires
        words.len() > 0,
    ensures
        char_spans(line, words).len() == words.len(),
        char_spans(line, words)[0].0 == 0,
        char_spans(line, words)[words.len() - 1].1 == line.len(),
        forall|k: int| 0 <= k < words.len() - 1 ==> (#[trigger] char_spans(line, words)[k]).1 == char_spans(line, words)[k + 1].0,
        forall|k: int| 0 <= k < words.len() ==> (#[trigger] char_spans(line, words)[k]).0 <= char_spans(line, words)[k].1,
{
    let texts = word_texts_of(words);
    let spans = char_spans(line, words);
    match word_starts(line, texts, 0, 0) {
        Some(starts) => {
            lemma_word_starts_shape(line, texts, 0, 0);
            assert forall|k: int| 0 <= k < words.len() implies (#[trigger] spans[k]).0 <= spans[k].1 by {
                if k + 1 < words.len() {
                    assert(starts[k] + texts[k].len() <= starts[k + 1]);
                }
            }
        },
        None => {
            let weights = word_weights(words);
            let characters = line.len() as int;
            lemma_approximate_end_bounds(characters, weights, words.len() - 2);
        },
    }
}

/// Whether the first `k` points are all the start of the line.
pub open spec fn all_start(points: Seq<usize>, k: int) -> bool {
    forall|i: int| 0 <= i < k ==> #[trigger] points[i] == 0
}

proof fn lemma_rising_first(points: Seq<usize>, k: int)
    requires
        1 <= k <= points.len(),
        points[0] == 0,
    ensures
        !all_start(points, k) ==> rising_ranges(points, k).len() > 0 && rising_ranges(points, k)[0].0 == 0,
        all_start(points, k) ==> rising_ranges(points, k).len() == 0,
    decreases k,
{
    if k >= 2 {
        lemma_rising_first(points, k - 1);
        if all_start(points, k - 1) && !all_start(points, k) {
            assert(points[k - 2] == 0);
            if points[k - 1] == 0 {
                assert forall|i: int| 0 <= i < k implies #[trigger] points[i] == 0 by {
                    if i < k - 1 {
                        assert(points[i] == 0);
                    }
                }
            }
        }
        if all_start(points, k) {
            assert(points[k - 2] == 0 && points[k - 1] == 0);
            assert(all_start(points, k - 1));
        }
    }
}

proof fn lemma_rising_tail(points: Seq<usize>, j: int, k: int)
    requires
        0 <= j,
        j + 2 <= k <= points.len(),
        forall|i: int| j < i < points.len() ==> #[trigger] points[i] == points[points.len() - 1],
        points[j] < points[points.len() - 1],
    ensures
        rising_ranges(points, k).len() > 0,
        rising_ranges(points, k).last().1 == points[points.len() - 1],
    decreases k,
{
    if k > j + 2 {
        lemma_rising_tail(points, j, k - 1);
        assert(points[k - 2] == points[points.len() - 1]);
        assert(points[k - 1] == points[points.len() - 1]);
    } else {
        assert(points[j + 1] == points[points.len() - 1]);
    }
}

proof fn lemma_last_below(points: Seq<usize>, top: usize, k: int) -> (j: int)
    requires
        1 <= k <= points.len(),
        points[0] < top,
        forall|i: int| 0 <= i < points.len() ==> #[trigger] points[i] <= top,
        forall|i: int| k <= i < points.len() ==> #[trigger] points[i] == top,
    ensures
        0 <= j < points.len(),
        points[j] < top,
        forall|i: int| j < i < points.len() ==> #[trigger] points[i] == top,
    decreases k,
{
    if points[k - 1] < top {
        k - 1
    } else {
        lemma_last_below(points, top, k - 1)
    }
}

/// A line with text is covered by its break ranges from its start to its end: there is at
/// least one range, the first starts at byte 0 and the last ends at the byte length.
pub proof fn lemma_break_ranges_frame(text: Seq<char>)
    requires
        text.len() > 0,
        encode_utf8(text).len() <= usize::MAX,
    ensures
        break_ranges(text).len() > 0,
        break_ranges(text)[0].0 == 0,
        break_ranges(text).last().1 == encode_utf8(text).len(),
{
    broadcast use vstd::seq_lib::group_filter_ensures;
    let bytes = encode_utf8(text);
    lemma_encoded_len(text);
    lemma_utf8_len_first(text);
    vstd::utf8::encode_utf8_valid_utf8(text);
    let length = bytes.len() as usize;
    let kept = on_boundaries(line_break_offsets(text), bytes);
    let points = framed(kept, length);
    assert(length > 0);
    assert forall|i: int| 0 <= i < kept.len() implies #[trigger] kept[i] <= length by {
        line_break_offsets(text).lemma_filter_pred(|offset: usize| is_char_boundary(bytes, offset as int), i);
        assert(is_char_boundary(bytes, kept[i] as int));
    }
    let front = if kept.len() > 0 && kept[0] == 0 { kept } else { seq![0usize] + kept };
    assert forall|i: int| 0 <= i < front.len() implies #[trigger] front[i] <= length by {
        if !(kept.len() > 0 && kept[0] == 0) && i > 0 {
            assert(front[i] == kept[i - 1]);
        }
    }
    assert(points[0] == 0);
    assert(points.last() == length);
    assert forall|i: int| 0 <= i < points.len() implies #[trigger] points[i] <= length by {
        if i < front.len() {
            assert(points[i] == front[i]);
        }
    }
    let n = points.len() as int;
    assert(!all_start(points, n)) by {
        assert(points[n - 1] == length);
    }
    lemma_rising_first(points, n);
    let j = lemma_last_below(points, length, n);
    lemma_rising_tail(points, j, n);
}

} // verus!
