//! Lexical tokens of a line ("slots") and the timing of each token ("sung" tokens).
//! Positions are character indices into the line's text.
use vstd::prelude::*;

use crate::lyrics::layout::{byte_offsets, lemma_encoded_len, lemma_utf8_len_prefix};
use crate::lyrics::model::{LyricsLine, LyricsWord};
use crate::text::{
    alphanumeric, char_lowercased, chars_of, grapheme_segments, graphemes_of, is_alphanumeric,
    is_white_space, lemma_utf8_len_concat, lowercase, lowercase_char, lowercased, utf8_len, utf8_span,
    views_of, white_space, width_of, word_bounds, word_segments,
};

verus! {

/// The most lexical tokens that one shaping pass accepts.
pub const LIMIT: usize = 3000;

/// The work budget of one shaping pass, in comparison cells.
pub const CELLS: usize = 2_000_000;

/// A lexical token of a text: the characters `at..until` and the key they compare by.
pub struct Slot {
    pub at: usize,
    pub until: usize,
    pub key: Vec<char>,
}

/// A token as a mathematical value.
pub struct SpecSlot {
    pub at: int,
    pub until: int,
    pub key: Seq<char>,
}

impl Slot {
    pub open spec fn view(&self) -> SpecSlot {
        SpecSlot { at: self.at as int, until: self.until as int, key: self.key@ }
    }
}

/// The values of a sequence of tokens.
pub open spec fn slot_views(slots: Seq<Slot>) -> Seq<SpecSlot> {
    slots.map_values(|slot: Slot| slot.view())
}

/// Tokens lie within the first `length` characters, each non-empty, in text order and
/// without overlap.
pub open spec fn ordered_within(slots: Seq<Slot>, length: nat) -> bool {
    &&& forall|i: int| 0 <= i < slots.len() ==> #[trigger] slots[i].at < slots[i].until
    &&& forall|i: int| 0 <= i < slots.len() ==> #[trigger] slots[i].until <= length
    &&& forall|i: int, j: int| 0 <= i < j < slots.len() ==> #[trigger] slots[i].until <= #[trigger] slots[j].at
}

/// Apostrophe-like characters that keys ignore.
pub open spec fn is_tick(letter: char) -> bool {
    ||| letter == '\''
    ||| letter == '\u{2019}'
    ||| letter == '\u{ff07}'
    ||| letter == '\u{2018}'
    ||| letter == '\u{b4}'
    ||| letter == '`'
}

/// Decides `is_tick`.
pub fn tick(letter: char) -> (is: bool)
    ensures
        is == is_tick(letter),
{
    letter == '\'' || letter == '\u{2019}' || letter == '\u{ff07}' || letter == '\u{2018}'
        || letter == '\u{b4}' || letter == '`'
}

/// Whether a character belongs to the kana, CJK ideograph or Hangul blocks, whose
/// characters are tokens of their own.
pub open spec fn is_wide(letter: char) -> bool {
    ||| ('\u{3040}' <= letter && letter <= '\u{30ff}')
    ||| ('\u{3400}' <= letter && letter <= '\u{4dbf}')
    ||| ('\u{4e00}' <= letter && letter <= '\u{9fff}')
    ||| ('\u{ac00}' <= letter && letter <= '\u{d7af}')
    ||| ('\u{f900}' <= letter && letter <= '\u{faff}')
}

/// Kana (hiragana and katakana, U+3040..U+30FF), CJK ideographs (U+3400..U+4DBF,
/// U+4E00..U+9FFF, U+F900..U+FAFF) and Hangul syllables (U+AC00..U+D7AF) are wide, and
/// nothing else is. A segment that holds a wide character is tokenized cluster by cluster,
/// and a cluster that holds one is a token of its own, keyed by its lowercase form.
pub proof fn lemma_wide_letters(letter: char, segment: Seq<char>, at: int, lexical: bool)
    ensures
        is_wide(letter) <==> {
            ||| '\u{3040}' <= letter <= '\u{30ff}'
            ||| '\u{3400}' <= letter <= '\u{4dbf}'
            ||| '\u{4e00}' <= letter <= '\u{9fff}'
            ||| '\u{ac00}' <= letter <= '\u{d7af}'
            ||| '\u{f900}' <= letter <= '\u{faff}'
        },
        segment.contains(letter) && '\u{3040}' <= letter <= '\u{30ff}'
            ==> segment_slots(segment, at, lexical) == clusters_slots(graphemes_of(segment), at),
        segment.contains(letter) && '\u{3040}' <= letter <= '\u{30ff}'
            ==> cluster_slots(segment, at) == seq![SpecSlot { at, until: at + segment.len(), key: lowercased(segment) }],
{
    if segment.contains(letter) {
        let i = choose|i: int| 0 <= i < segment.len() && segment[i] == letter;
        if '\u{3040}' <= letter <= '\u{30ff}' {
            assert(is_wide(segment[i]));
        }
    }
}

/// Decides `is_wide`.
pub fn wide(letter: char) -> (is: bool)
    ensures
        is == is_wide(letter),
{
    ('\u{3040}' <= letter && letter <= '\u{30ff}') || ('\u{3400}' <= letter && letter
        <= '\u{4dbf}') || ('\u{4e00}' <= letter && letter <= '\u{9fff}') || ('\u{ac00}'
        <= letter && letter <= '\u{d7af}') || ('\u{f900}' <= letter && letter <= '\u{faff}')
}

/// Whether a text holds a kana, CJK ideograph or Hangul character.
pub open spec fn has_wide(text: Seq<char>) -> bool {
    exists|i: int| 0 <= i < text.len() && is_wide(#[trigger] text[i])
}

/// Whether a text holds an alphanumeric character.
pub open spec fn has_alphanumeric(text: Seq<char>) -> bool {
    exists|i: int| 0 <= i < text.len() && alphanumeric(#[trigger] text[i])
}

/// Whether a text is white space throughout.
pub open spec fn all_white(text: Seq<char>) -> bool {
    forall|i: int| 0 <= i < text.len() ==> white_space(#[trigger] text[i])
}

/// The key of a text: its characters without ticks, lowercased.
pub open spec fn folded(text: Seq<char>) -> Seq<char>
    decreases text.len(),
{
    if text.len() == 0 {
        Seq::empty()
    } else if is_tick(text.last()) {
        folded(text.drop_last())
    } else {
        folded(text.drop_last()) + char_lowercased(text.last())
    }
}

/// The token, if any, of one grapheme cluster of a segment that holds wide characters.
pub open spec fn cluster_slots(cluster: Seq<char>, at: int) -> Seq<SpecSlot> {
    if has_wide(cluster) {
        seq![SpecSlot { at, until: at + cluster.len(), key: lowercased(cluster) }]
    } else if has_alphanumeric(cluster) && folded(cluster).len() > 0 {
        seq![SpecSlot { at, until: at + cluster.len(), key: folded(cluster) }]
    } else {
        Seq::empty()
    }
}

/// The tokens of consecutive grapheme clusters, the first starting at `at`.
pub open spec fn clusters_slots(clusters: Seq<Seq<char>>, at: int) -> Seq<SpecSlot>
    decreases clusters.len(),
{
    if clusters.len() == 0 {
        Seq::empty()
    } else {
        clusters_slots(clusters.drop_last(), at) + cluster_slots(
            clusters.last(),
            at + clusters.drop_last().flatten_alt().len(),
        )
    }
}

/// The tokens of one word-boundary segment starting at `at`; `lexical` tells whether the
/// whole text holds any alphanumeric character.
pub open spec fn segment_slots(segment: Seq<char>, at: int, lexical: bool) -> Seq<SpecSlot> {
    if has_wide(segment) {
        clusters_slots(graphemes_of(segment), at)
    } else if (has_alphanumeric(segment) || (!lexical && !all_white(segment))) && folded(
        segment,
    ).len() > 0 {
        seq![SpecSlot { at, until: at + segment.len(), key: folded(segment) }]
    } else {
        Seq::empty()
    }
}

/// The tokens of consecutive segments, the first starting at position 0.
pub open spec fn segments_slots(segments: Seq<Seq<char>>, lexical: bool) -> Seq<SpecSlot>
    decreases segments.len(),
{
    if segments.len() == 0 {
        Seq::empty()
    } else {
        segments_slots(segments.drop_last(), lexical) + segment_slots(
            segments.last(),
            segments.drop_last().flatten_alt().len() as int,
            lexical,
        )
    }
}

/// The lexical tokens of a text. A segment with wide characters gives one token per
/// grapheme cluster that holds a wide or alphanumeric character; another segment gives one
/// token when it holds an alphanumeric character, or, in a text without any, when it is
/// not all white space. Keys drop ticks and are lowercased; empty keys give no token.
pub open spec fn spec_tokens(text: Seq<char>) -> Seq<SpecSlot> {
    segments_slots(word_bounds(text), has_alphanumeric(text))
}

/// A prefix of a sequence of pieces flattens to a prefix of the whole.
pub proof fn lemma_flatten_prefix(pieces: Seq<Seq<char>>, k: int)
    requires
        0 <= k <= pieces.len(),
    ensures
        pieces.take(k).flatten_alt().len() <= pieces.flatten_alt().len(),
        pieces.take(k).flatten_alt() =~= pieces.flatten_alt().take(
            pieces.take(k).flatten_alt().len() as int,
        ),
    decreases pieces.len() - k,
{
    if k < pieces.len() {
        lemma_flatten_prefix(pieces, k + 1);
        assert(pieces.take(k + 1).drop_last() =~= pieces.take(k));
    } else {
        assert(pieces.take(k) =~= pieces);
    }
}

proof fn lemma_segments_prefix(segments: Seq<Seq<char>>, k: int, lexical: bool)
    requires
        0 <= k <= segments.len(),
    ensures
        segments_slots(segments.take(k), lexical).len() <= segments_slots(segments, lexical).len(),
        segments_slots(segments.take(k), lexical) =~= segments_slots(segments, lexical).take(
            segments_slots(segments.take(k), lexical).len() as int,
        ),
    decreases segments.len() - k,
{
    if k < segments.len() {
        lemma_segments_prefix(segments, k + 1, lexical);
        assert(segments.take(k + 1).drop_last() =~= segments.take(k));
    } else {
        assert(segments.take(k) =~= segments);
    }
}

proof fn lemma_clusters_prefix(clusters: Seq<Seq<char>>, k: int, at: int)
    requires
        0 <= k <= clusters.len(),
    ensures
        clusters_slots(clusters.take(k), at).len() <= clusters_slots(clusters, at).len(),
        clusters_slots(clusters.take(k), at) =~= clusters_slots(clusters, at).take(
            clusters_slots(clusters.take(k), at).len() as int,
        ),
    decreases clusters.len() - k,
{
    if k < clusters.len() {
        lemma_clusters_prefix(clusters, k + 1, at);
        assert(clusters.take(k + 1).drop_last() =~= clusters.take(k));
    } else {
        assert(clusters.take(k) =~= clusters);
    }
}

/// The UTF-8 length of a key, in bytes.
pub fn utf8_key_len(key: &Vec<char>) -> (length: u128)
    ensures
        length == utf8_len(key@),
{
    let mut length: u128 = 0;
    let mut index: usize = 0;
    while index < key.len()
        invariant
            index <= key@.len(),
            length == utf8_len(key@.take(index as int)),
            length <= index * 4,
        decreases key@.len() - index,
    {
        assert(key@.take(index + 1).drop_last() =~= key@.take(index as int));
        length = length + width_of(key[index]) as u128;
        index = index + 1;
    }
    assert(key@.take(key@.len() as int) =~= key@);
    length
}

/// A copy of a character vector.
pub fn copy_chars(letters: &Vec<char>) -> (copy: Vec<char>)
    ensures
        copy@ == letters@,
{
    let mut copy: Vec<char> = Vec::new();
    let mut index: usize = 0;
    while index < letters.len()
        invariant
            index <= letters@.len(),
            copy@ == letters@.take(index as int),
        decreases letters@.len() - index,
    {
        copy.push(letters[index]);
        index = index + 1;
        assert(copy@ =~= letters@.take(index as int));
    }
    assert(letters@.take(letters@.len() as int) =~= letters@);
    copy
}

/// Pushes `slot` unless `slots` already holds `limit` tokens.
fn push_slot(slots: &mut Vec<Slot>, limit: usize, slot: Slot) -> (pushed: Option<()>)
    ensures
        old(slots)@.len() >= limit ==> pushed is None && final(slots)@ == old(slots)@,
        old(slots)@.len() < limit ==> pushed is Some && final(slots)@ == old(slots)@.push(slot),
{
    if slots.len() >= limit {
        None
    } else {
        slots.push(slot);
        Some(())
    }
}

/// The key of `text`: ticks dropped, the rest lowercased.
fn fold_key(text: &Vec<char>) -> (key: Vec<char>)
    ensures
        key@ == folded(text@),
{
    let mut key: Vec<char> = Vec::new();
    let mut index: usize = 0;
    while index < text.len()
        invariant
            index <= text@.len(),
            key@ == folded(text@.take(index as int)),
        decreases text@.len() - index,
    {
        let letter = text[index];
        assert(text@.take(index + 1).drop_last() =~= text@.take(index as int));
        if !tick(letter) {
            let mut lower = lowercase_char(letter);
            key.append(&mut lower);
        }
        index = index + 1;
    }
    assert(text@.take(text@.len() as int) =~= text@);
    key
}

fn any_wide(text: &Vec<char>) -> (found: bool)
    ensures
        found == has_wide(text@),
{
    let mut index: usize = 0;
    while index < text.len()
        invariant
            index <= text@.len(),
            forall|i: int| 0 <= i < index ==> !is_wide(#[trigger] text@[i]),
        decreases text@.len() - index,
    {
        if wide(text[index]) {
            return true;
        }
        index = index + 1;
    }
    false
}

fn any_alphanumeric(text: &Vec<char>) -> (found: bool)
    ensures
        found == has_alphanumeric(text@),
{
    let mut index: usize = 0;
    while index < text.len()
        invariant
            index <= text@.len(),
            forall|i: int| 0 <= i < index ==> !alphanumeric(#[trigger] text@[i]),
        decreases text@.len() - index,
    {
        if is_alphanumeric(text[index]) {
            return true;
        }
        index = index + 1;
    }
    false
}

fn only_white(text: &Vec<char>) -> (all: bool)
    ensures
        all == all_white(text@),
{
    let mut index: usize = 0;
    while index < text.len()
        invariant
            index <= text@.len(),
            forall|i: int| 0 <= i < index ==> white_space(#[trigger] text@[i]),
        decreases text@.len() - index,
    {
        if !is_white_space(text[index]) {
            return false;
        }
        index = index + 1;
    }
    true
}

proof fn lemma_views_push(slots: Seq<Slot>, slot: Slot)
    ensures
        slot_views(slots.push(slot)) =~= slot_views(slots).push(slot.view()),
{
}

/// Whether a token of `text` is sound: its key is not empty unless its characters hold a
/// wide character, and, in a text with a letter or digit, its characters hold a letter, a
/// digit or a wide character.
pub open spec fn token_sound(text: Seq<char>, slot: SpecSlot) -> bool {
    let chars = text.subrange(slot.at, slot.until);
    &&& slot.key.len() > 0 || has_wide(chars)
    &&& has_alphanumeric(text) ==> has_alphanumeric(chars) || has_wide(chars)
}

/// Piece `k` of pieces that flatten to `whole` stands in `whole` where the pieces before it end.
proof fn lemma_piece_at(whole: Seq<char>, pieces: Seq<Seq<char>>, k: int)
    requires
        0 <= k < pieces.len(),
        pieces.flatten_alt() == whole,
    ensures
        pieces.take(k).flatten_alt().len() + pieces[k].len() <= whole.len(),
        whole.subrange(
            pieces.take(k).flatten_alt().len() as int,
            (pieces.take(k).flatten_alt().len() + pieces[k].len()) as int,
        ) =~= pieces[k],
{
    lemma_flatten_prefix(pieces, k + 1);
    assert(pieces.take(k + 1).drop_last() =~= pieces.take(k));
    assert(pieces.take(k + 1).last() == pieces[k]);
    let a = pieces.take(k).flatten_alt().len() as int;
    let upto = pieces.take(k + 1).flatten_alt();
    assert(upto == pieces.take(k).flatten_alt() + pieces[k]);
    assert forall|t: int| 0 <= t < pieces[k].len() implies #[trigger] whole.subrange(a, a + pieces[k].len())[t] == pieces[k][t] by {
        assert(upto[a + t] == pieces[k][t]);
        assert(whole.take(upto.len() as int)[a + t] == whole[a + t]);
    }
}

/// The lexical tokens of `text`, or `None` when there are more than `limit` of them.
pub fn tokenize(text: &str, limit: usize) -> (slots: Option<Vec<Slot>>)
    ensures
        match slots {
            None => spec_tokens(text@).len() > limit,
            Some(slots) => slot_views(slots@) == spec_tokens(text@) && ordered_within(
                slots@,
                text@.len(),
            ) && spec_tokens(text@).len() <= limit
                && forall|q: int| 0 <= q < slots@.len() ==> #[trigger] token_sound(text@, slots@[q].view()),
        },
        limit >= text@.len() ==> slots is Some,
{
    let letters = chars_of(text);
    let lexical = any_alphanumeric(&letters);
    let segments = word_segments(text);
    let ghost views = views_of(segments@);
    let mut slots: Vec<Slot> = Vec::new();
    let mut at: usize = 0;
    let mut k: usize = 0;
    assert(views.take(0).flatten_alt() =~= Seq::<char>::empty());
    assert(segments_slots(views.take(0), lexical) =~= Seq::<SpecSlot>::empty());
    assert(slot_views(slots@) =~= Seq::<SpecSlot>::empty());
    while k < segments.len()
        invariant
            views == views_of(segments@),
            views == word_bounds(text@),
            views.flatten_alt() == text@,
            letters@ == text@,
            lexical == has_alphanumeric(text@),
            k <= segments@.len(),
            at == views.take(k as int).flatten_alt().len(),
            slot_views(slots@) == segments_slots(views.take(k as int), lexical),
            ordered_within(slots@, at as nat),
            at <= text@.len(),
            slots@.len() <= limit,
            forall|q: int| 0 <= q < slots@.len() ==> #[trigger] token_sound(text@, slots@[q].view()),
        decreases segments@.len() - k,
    {
        let segment = segments[k];
        let piece = chars_of(segment);
        let ghost before = slot_views(slots@);
        proof {
            lemma_flatten_prefix(views, k + 1);
            assert(views.take(k + 1).drop_last() =~= views.take(k as int));
            assert(views.take(k + 1).last() == views[k as int]);
            assert(views[k as int] == piece@);
            assert(views.take(k + 1).flatten_alt() == views.take(k as int).flatten_alt() + piece@);
            lemma_segments_prefix(views, k + 1, lexical);
            lemma_piece_at(text@, views, k as int);
        }
        assert(text@.subrange(at as int, at + piece@.len()) =~= piece@);
        let total = letters.len();
        assert(at + piece@.len() <= total);
        let ghost produced = segment_slots(piece@, at as int, lexical);
        let end = at + piece.len();
        if any_wide(&piece) {
            let clusters = grapheme_segments(segment);
            let ghost parts = views_of(clusters@);
            let mut g_at: usize = at;
            let mut j: usize = 0;
            assert(parts.take(0).flatten_alt() =~= Seq::<char>::empty());
            assert(clusters_slots(parts.take(0), at as int) =~= Seq::<SpecSlot>::empty());
            assert(before + clusters_slots(parts.take(0), at as int) =~= before);
            while j < clusters.len()
                invariant
                    parts == views_of(clusters@),
                    parts == graphemes_of(piece@),
                    parts.flatten_alt() == piece@,
                    j <= clusters@.len(),
                    at + piece@.len() == end,
                    g_at == at + parts.take(j as int).flatten_alt().len(),
                    slot_views(slots@) == before + clusters_slots(parts.take(j as int), at as int),
                    before == segments_slots(views.take(k as int), lexical),
                    views == views_of(segments@),
                    k < segments@.len(),
                    produced == segment_slots(piece@, at as int, lexical),
                    has_wide(piece@),
                    segments_slots(views.take(k + 1), lexical) == before + produced,
                    segments_slots(views.take(k + 1), lexical).len() <= spec_tokens(text@).len(),
                    views == word_bounds(text@),
                    lexical == has_alphanumeric(text@),
                    ordered_within(slots@, g_at as nat),
                    slots@.len() <= limit,
                    at <= g_at <= end,
                    end <= text@.len(),
                    text@.subrange(at as int, end as int) == piece@,
                    forall|q: int| 0 <= q < slots@.len() ==> #[trigger] token_sound(text@, slots@[q].view()),
                decreases clusters@.len() - j,
            {
                let cluster = clusters[j];
                let part = chars_of(cluster);
                let ghost done = slot_views(slots@);
                proof {
                    lemma_flatten_prefix(parts, j + 1);
                    assert(parts.take(j + 1).drop_last() =~= parts.take(j as int));
                    assert(parts.take(j + 1).last() == parts[j as int]);
                    assert(parts[j as int] == part@);
                    assert(parts.take(j + 1).flatten_alt() == parts.take(j as int).flatten_alt() + part@);
                    lemma_clusters_prefix(parts, j + 1, at as int);
                }
                let g_end = g_at + part.len();
                let mut key: Vec<char> = Vec::new();
                let mut keep = false;
                if any_wide(&part) {
                    let lower = lowercase(cluster);
                    key = chars_of(lower.as_str());
                    keep = true;
                } else if any_alphanumeric(&part) {
                    key = fold_key(&part);
                    keep = key.len() > 0;
                }
                if keep {
                    let slot = Slot { at: g_at, until: g_end, key };
                    proof {
                        lemma_views_push(slots@, slot);
                        assert(cluster_slots(part@, g_at as int) =~= seq![slot.view()]);
                        lemma_piece_at(piece@, parts, j as int);
                        assert(parts[j as int] == part@);
                        assert(text@.subrange(g_at as int, g_end as int) =~= piece@.subrange(g_at - at, g_end - at));
                        assert(token_sound(text@, slot.view()));
                    }
                    let ghost kept = slots@;
                    match push_slot(&mut slots, limit, slot) {
                        Some(()) => {
                            assert forall|q: int| 0 <= q < slots@.len() implies #[trigger] token_sound(text@, slots@[q].view()) by {
                                if q < kept.len() {
                                    assert(slots@[q] == kept[q]);
                                }
                            }
                        },
                        None => {
                            proof {
                                lemma_ordered_count(slots@, g_at as nat);
                                assert(g_at < g_end);
                                assert(done.len() >= limit);
                                assert(clusters_slots(parts.take(j + 1), at as int).len()
                                    == clusters_slots(parts.take(j as int), at as int).len() + 1);
                                assert(clusters_slots(parts, at as int).len() == produced.len());
                            }
                            return None;
                        },
                    }
                } else {
                    assert(cluster_slots(part@, g_at as int) =~= Seq::<SpecSlot>::empty());
                }
                assert(slot_views(slots@) =~= before + clusters_slots(parts.take(j + 1), at as int));
                g_at = g_end;
                j = j + 1;
            }
            assert(parts.take(clusters@.len() as int) =~= parts);
        } else if any_alphanumeric(&piece) || (!lexical && !only_white(&piece)) {
            let key = fold_key(&piece);
            if key.len() > 0 {
                let slot = Slot { at, until: end, key };
                proof {
                    lemma_views_push(slots@, slot);
                    assert(produced =~= seq![slot.view()]);
                    lemma_segments_prefix(views, k + 1, lexical);
                    assert(token_sound(text@, slot.view()));
                }
                let ghost kept = slots@;
                match push_slot(&mut slots, limit, slot) {
                    Some(()) => {
                        assert forall|q: int| 0 <= q < slots@.len() implies #[trigger] token_sound(text@, slots@[q].view()) by {
                            if q < kept.len() {
                                assert(slots@[q] == kept[q]);
                            }
                        }
                    },
                    None => {
                        proof {
                            lemma_ordered_count(slots@, at as nat);
                            assert(at < end);
                        }
                        return None;
                    },
                }
            } else {
                assert(produced =~= Seq::<SpecSlot>::empty());
            }
        } else {
            assert(produced =~= Seq::<SpecSlot>::empty());
        }
        assert(slot_views(slots@) =~= segments_slots(views.take(k + 1), lexical));
        at = end;
        k = k + 1;
    }
    assert(views.take(segments@.len() as int) =~= views);
    Some(slots)
}

/// A text has no more tokens than characters.
proof fn lemma_ordered_count(slots: Seq<Slot>, length: nat)
    requires
        ordered_within(slots, length),
    ensures
        slots.len() <= length,
    decreases slots.len(),
{
    if slots.len() > 0 {
        let last = slots.len() - 1;
        let rest = slots.drop_last();
        assert(slots[last].at < slots[last].until);
        assert forall|i: int| 0 <= i < rest.len() implies #[trigger] rest[i].until <= slots[last].at by {
            assert(rest[i] == slots[i]);
        }
        assert(ordered_within(rest, slots[last].at as nat)) by {
            assert forall|i: int, j: int| 0 <= i < j < rest.len() implies #[trigger] rest[i].until <= #[trigger] rest[j].at by {
                assert(rest[i] == slots[i]);
                assert(rest[j] == slots[j]);
            }
            assert forall|i: int| 0 <= i < rest.len() implies #[trigger] rest[i].at < rest[i].until by {
                assert(rest[i] == slots[i]);
            }
        }
        lemma_ordered_count(rest, slots[last].at as nat);
    }
}

/// The lexical tokens of `text`, however many there are.
pub fn tokens(text: &str) -> (slots: Vec<Slot>)
    ensures
        slot_views(slots@) == spec_tokens(text@),
        ordered_within(slots@, text@.len()),
        forall|q: int| 0 <= q < slots@.len() ==> #[trigger] token_sound(text@, slots@[q].view()),
{
    let letters = chars_of(text);
    let count = letters.len();
    assert(text@.len() == count);
    match tokenize(text, usize::MAX) {
        Some(slots) => slots,
        None => Vec::new(),
    }
}

/// The lexical tokens of `text`, or `None` when there are more than `limit` of them.
pub fn bounded_tokens_to(text: &str, limit: usize) -> (slots: Option<Vec<Slot>>)
    ensures
        match slots {
            None => spec_tokens(text@).len() > limit,
            Some(slots) => slot_views(slots@) == spec_tokens(text@) && ordered_within(
                slots@,
                text@.len(),
            ) && spec_tokens(text@).len() <= limit
                && forall|q: int| 0 <= q < slots@.len() ==> #[trigger] token_sound(text@, slots@[q].view()),
        },
{
    tokenize(text, limit)
}

/// Whether a token's time was delivered by the provider or spread over its line.
#[derive(Clone, Copy, Debug, PartialEq, Eq, Structural)]
pub enum Timing {
    Provider,
    Synthesized,
}

/// A timed token of a source line.
pub struct Sung {
    pub source_line: usize,
    pub start: u64,
    pub end: u64,
    pub key: Vec<char>,
    pub timing: Timing,
}

/// The characters `from..until` of a text that a provider cue owns, with the cue's time.
#[derive(Clone, Copy, Debug, PartialEq, Eq)]
pub struct Cue {
    pub from: usize,
    pub until: usize,
    pub start: u64,
    pub end: u64,
}

/// How a source line maps onto its own canonical text.
pub enum CanonicalOutcome {
    Mapped(Vec<Sung>),
    Unsafe(usize),
    LimitExceeded,
}

/// Whether a cue text holds anything besides white space and ticks.
pub open spec fn is_meaningful(text: Seq<char>) -> bool {
    exists|i: int| 0 <= i < text.len() && !white_space(#[trigger] text[i]) && !is_tick(text[i])
}

/// Decides `is_meaningful`.
pub fn meaningful_cue(text: &Vec<char>) -> (meaningful: bool)
    ensures
        meaningful == is_meaningful(text@),
{
    let mut index: usize = 0;
    while index < text.len()
        invariant
            index <= text@.len(),
            forall|i: int| 0 <= i < index ==> white_space(#[trigger] text@[i]) || is_tick(text@[i]),
        decreases text@.len() - index,
    {
        if !is_white_space(text[index]) && !tick(text[index]) {
            return true;
        }
        index = index + 1;
    }
    false
}

/// Whether two characters are equal or lowercase to the same text.
pub open spec fn alike(a: char, b: char) -> bool {
    a == b || char_lowercased(a) == char_lowercased(b)
}

fn same_chars(left: &Vec<char>, right: &Vec<char>) -> (same: bool)
    ensures
        same == (left@ == right@),
{
    if left.len() != right.len() {
        return false;
    }
    let mut index: usize = 0;
    while index < left.len()
        invariant
            left@.len() == right@.len(),
            index <= left@.len(),
            forall|k: int| 0 <= k < index ==> left@[k] == right@[k],
        decreases left@.len() - index,
    {
        if left[index] != right[index] {
            return false;
        }
        index = index + 1;
    }
    assert(left@ =~= right@);
    true
}

/// Decides `alike`.
pub fn char_alike(a: char, b: char) -> (same: bool)
    ensures
        same == alike(a, b),
{
    if a == b {
        return true;
    }
    same_chars(&lowercase_char(a), &lowercase_char(b))
}

/// Whether a character is trimmed off the ends of a cue text: white space or a tick.
pub open spec fn trims(letter: char) -> bool {
    white_space(letter) || is_tick(letter)
}

/// The first position of `text` from `k` on that is not trimmed.
pub open spec fn lead_trim(text: Seq<char>, k: int) -> int
    decreases text.len() - k,
{
    if k < 0 || k >= text.len() {
        k
    } else if trims(text[k]) {
        lead_trim(text, k + 1)
    } else {
        k
    }
}

/// The end of `text` up to `until`, past the trimmed characters before it, not before `from`.
pub open spec fn tail_trim(text: Seq<char>, from: int, until: int) -> int
    decreases until - from,
{
    if until <= from {
        from
    } else if trims(text[until - 1]) {
        tail_trim(text, from, until - 1)
    } else {
        until
    }
}

/// A cue text without leading and trailing white space and ticks.
pub open spec fn core_of(text: Seq<char>) -> Seq<char> {
    let from = lead_trim(text, 0);
    text.subrange(from, tail_trim(text, from, text.len() as int))
}

proof fn lemma_trim_bounds(text: Seq<char>, k: int, from: int, until: int)
    requires
        0 <= k <= text.len(),
        0 <= from <= until <= text.len(),
    ensures
        k <= lead_trim(text, k) <= text.len(),
        from <= tail_trim(text, from, until) <= until,
    decreases text.len() - k + until - from,
{
    if k < text.len() {
        lemma_trim_bounds(text, k + 1, from, until);
    }
    if until > from {
        lemma_trim_bounds(text, k, from, until - 1);
    }
}

/// Decides `core_of`.
fn trimmed(text: &Vec<char>) -> (core: Vec<char>)
    ensures
        core@ == core_of(text@),
{
    proof {
        lemma_trim_bounds(text@, 0, 0, 0);
    }
    let mut from: usize = 0;
    while from < text.len() && (is_white_space(text[from]) || tick(text[from]))
        invariant
            from <= text@.len(),
            lead_trim(text@, from as int) == lead_trim(text@, 0),
        decreases text@.len() - from,
    {
        from = from + 1;
    }
    let mut until: usize = text.len();
    proof {
        lemma_trim_bounds(text@, 0, from as int, until as int);
    }
    while until > from && (is_white_space(text[until - 1]) || tick(text[until - 1]))
        invariant
            from <= until <= text@.len(),
            tail_trim(text@, from as int, until as int) == tail_trim(text@, from as int, text@.len() as int),
        decreases until,
    {
        until = until - 1;
    }
    let mut core: Vec<char> = Vec::new();
    let mut index = from;
    while index < until
        invariant
            from <= index <= until <= text@.len(),
            core@ == text@.subrange(from as int, index as int),
        decreases until - index,
    {
        core.push(text[index]);
        index = index + 1;
        assert(core@ =~= text@.subrange(from as int, index as int));
    }
    core
}

/// The first position of `word` from `w` on that is not a tick.
pub open spec fn past_ticks(word: Seq<char>, w: int) -> int
    decreases word.len() - w,
{
    if w < 0 || w >= word.len() {
        w
    } else if is_tick(word[w]) {
        past_ticks(word, w + 1)
    } else {
        w
    }
}

/// The first position of `word` from `w` on that is neither a tick nor white space.
pub open spec fn past_ticks_and_space(word: Seq<char>, w: int) -> int
    decreases word.len() - w,
{
    if w < 0 || w >= word.len() {
        w
    } else if is_tick(word[w]) || white_space(word[w]) {
        past_ticks_and_space(word, w + 1)
    } else {
        w
    }
}

/// How matching `word` against `text` goes on from word position `w` and text position
/// `t`, when `last` characters of the text from `from` are matched so far. At each text
/// character the word's ticks are skipped; a finished word gives what is matched; a tick
/// of the text, a character that is alike, or (once matching has begun) a character of the
/// text that is neither alphanumeric nor wide extends the match; anything else fails. At
/// the end of the text the word must be finished but for ticks and white space, and the
/// match then runs to the end of the text.
pub open spec fn prefix_from(word: Seq<char>, text: Seq<char>, from: int, w: int, t: int, last: int) -> Option<int>
    decreases text.len() - t,
{
    if t < 0 || t >= text.len() {
        if past_ticks_and_space(word, w) == word.len() { Some(text.len() - from) } else { None }
    } else {
        let v = past_ticks(word, w);
        if v == word.len() {
            Some(last)
        } else if is_tick(text[t]) {
            prefix_from(word, text, from, v, t + 1, t - from + 1)
        } else if 0 <= v < word.len() && alike(word[v], text[t]) {
            prefix_from(word, text, from, v + 1, t + 1, t - from + 1)
        } else if v > 0 && !alphanumeric(text[t]) && !is_wide(text[t]) {
            prefix_from(word, text, from, v, t + 1, t - from + 1)
        } else {
            None
        }
    }
}

proof fn lemma_past_ticks_bounds(word: Seq<char>, w: int)
    requires
        0 <= w <= word.len(),
    ensures
        w <= past_ticks(word, w) <= word.len(),
        w <= past_ticks_and_space(word, w) <= word.len(),
    decreases word.len() - w,
{
    if w < word.len() {
        lemma_past_ticks_bounds(word, w + 1);
    }
}

/// How many text characters matching `word` against `text` looks at from word position `w`
/// and text position `t` (see `prefix_from`): one for each step until the walk stops.
pub open spec fn prefix_steps(word: Seq<char>, text: Seq<char>, w: int, t: int) -> nat
    decreases text.len() - t,
{
    if t < 0 || t >= text.len() {
        0
    } else {
        let v = past_ticks(word, w);
        1 + if v == word.len() {
            0
        } else if is_tick(text[t]) {
            prefix_steps(word, text, v, t + 1)
        } else if 0 <= v < word.len() && alike(word[v], text[t]) {
            prefix_steps(word, text, v + 1, t + 1)
        } else if v > 0 && !alphanumeric(text[t]) && !is_wide(text[t]) {
            prefix_steps(word, text, v, t + 1)
        } else {
            0
        }
    }
}

proof fn lemma_prefix_steps_bound(word: Seq<char>, text: Seq<char>, w: int, t: int)
    requires
        0 <= t <= text.len(),
    ensures
        prefix_steps(word, text, w, t) <= text.len() - t,
    decreases text.len() - t,
{
    if t < text.len() {
        let v = past_ticks(word, w);
        lemma_prefix_steps_bound(word, text, v, t + 1);
        lemma_prefix_steps_bound(word, text, v + 1, t + 1);
    }
}

/// How many characters of `text` from `from` a cue's characters `word` match, as
/// `prefix_from` says, with one unit of `work` per text character looked at: `None` as well
/// when the budget runs out.
#[verifier::loop_isolation(false)]
pub fn match_prefix(word: &Vec<char>, text: &Vec<char>, from: usize, work: &mut usize) -> (matched: Option<usize>)
    requires
        from <= text@.len(),
    ensures
        matched matches Some(length) ==> from + length <= text@.len()
            && prefix_from(word@, text@, from as int, 0, from as int, 0) == Some(length as int),
        matched is None ==> prefix_from(word@, text@, from as int, 0, from as int, 0) is None || *final(work) >= CELLS,
        *final(work) >= *old(work),
        *final(work) <= *old(work) + prefix_steps(word@, text@, 0, from as int),
        *old(work) + prefix_steps(word@, text@, 0, from as int) < CELLS
            ==> *final(work) == *old(work) + prefix_steps(word@, text@, 0, from as int),
        *final(work) < CELLS ==> *final(work) == *old(work) + prefix_steps(word@, text@, 0, from as int),
        prefix_steps(word@, text@, 0, from as int) <= text@.len() - from,
{
    let ghost whole = prefix_from(word@, text@, from as int, 0, from as int, 0);
    let ghost total = prefix_steps(word@, text@, 0, from as int);
    proof {
        lemma_prefix_steps_bound(word@, text@, 0, from as int);
    }
    let mut w_idx: usize = 0;
    let mut last: usize = 0;
    let mut t_idx: usize = from;
    while t_idx < text.len()
        invariant
            from <= t_idx <= text@.len(),
            w_idx <= word@.len(),
            last <= t_idx - from,
            *work >= *old(work),
            whole == prefix_from(word@, text@, from as int, w_idx as int, t_idx as int, last as int),
            total == prefix_steps(word@, text@, 0, from as int),
            *work + prefix_steps(word@, text@, w_idx as int, t_idx as int) <= *old(work) + total,
            *work + prefix_steps(word@, text@, w_idx as int, t_idx as int) == *old(work) + total,
        decreases text@.len() - t_idx,
    {
        let t_char = text[t_idx];
        *work = work.saturating_add(1);
        if *work >= CELLS {
            return None;
        }
        let ghost w_start = w_idx as int;
        proof {
            lemma_past_ticks_bounds(word@, w_start);
        }
        while w_idx < word.len() && tick(word[w_idx])
            invariant
                w_start <= w_idx <= word@.len(),
                past_ticks(word@, w_idx as int) == past_ticks(word@, w_start),
            decreases word@.len() - w_idx,
        {
            w_idx = w_idx + 1;
        }
        assert(w_idx == past_ticks(word@, w_start));
        if w_idx == word.len() {
            return Some(last);
        }
        if tick(t_char) {
            last = t_idx - from + 1;
        } else if char_alike(word[w_idx], t_char) {
            w_idx = w_idx + 1;
            last = t_idx - from + 1;
        } else if w_idx > 0 && !is_alphanumeric(t_char) && !wide(t_char) {
            last = t_idx - from + 1;
        } else {
            return None;
        }
        t_idx = t_idx + 1;
    }
    let ghost w_end = w_idx as int;
    proof {
        lemma_past_ticks_bounds(word@, w_end);
    }
    while w_idx < word.len() && (tick(word[w_idx]) || is_white_space(word[w_idx]))
        invariant
            w_end <= w_idx <= word@.len(),
            past_ticks_and_space(word@, w_idx as int) == past_ticks_and_space(word@, w_end),
        decreases word@.len() - w_idx,
    {
        w_idx = w_idx + 1;
    }
    if w_idx == word.len() {
        Some(text.len() - from)
    } else {
        None
    }
}

/// The character vectors of the cue texts.
fn word_chars(words: &Vec<LyricsWord>) -> (texts: Vec<Vec<char>>)
    ensures
        texts@.len() == words@.len(),
        forall|i: int| 0 <= i < words@.len() ==> #[trigger] texts@[i]@ == words@[i].text@,
{
    let mut texts: Vec<Vec<char>> = Vec::new();
    let mut index: usize = 0;
    while index < words.len()
        invariant
            index <= words@.len(),
            texts@.len() == index,
            forall|i: int| 0 <= i < index ==> #[trigger] texts@[i]@ == words@[i].text@,
        decreases words@.len() - index,
    {
        texts.push(chars_of(words[index].text.as_str()));
        index = index + 1;
    }
    texts
}

/// Whether a token lies wholly inside `gap_from..gap_until`.
pub open spec fn inside_gap(gap_from: int, gap_until: int) -> spec_fn(Slot) -> bool {
    |slot: Slot| slot.at >= gap_from && slot.until <= gap_until
}

/// The tokens that lie wholly inside `gap_from..gap_until`.
pub open spec fn available_in(slots: Seq<Slot>, gap_from: int, gap_until: int) -> Seq<Slot> {
    slots.filter(inside_gap(gap_from, gap_until))
}

/// Keeping some tokens of tokens in order keeps them in order.
proof fn lemma_filter_in_order(slots: Seq<Slot>, pred: spec_fn(Slot) -> bool)
    requires
        tokens_in_order(slots),
    ensures
        tokens_in_order(slots.filter(pred)),
        forall|k: int| 0 <= k < slots.filter(pred).len() ==> pred(#[trigger] slots.filter(pred)[k]),
    decreases slots.len(),
{
    reveal_with_fuel(Seq::filter, 1);
    slots.filter_lemma(pred);
    if slots.len() > 0 {
        let init = slots.drop_last();
        let last = slots.last();
        assert(tokens_in_order(init)) by {
            assert forall|i: int| 0 <= i < init.len() implies #[trigger] init[i].at < init[i].until by {
                assert(init[i] == slots[i]);
            }
            assert forall|i: int, j: int| 0 <= i < j < init.len() implies #[trigger] init[i].until <= #[trigger] init[j].at by {
                assert(init[i] == slots[i]);
                assert(init[j] == slots[j]);
            }
        }
        lemma_filter_in_order(init, pred);
        let kept = init.filter(pred);
        if pred(last) {
            assert(slots.filter(pred) == kept.push(last));
            assert forall|k: int| 0 <= k < kept.len() implies #[trigger] kept[k].until <= last.at by {
                assert(kept.contains(kept[k]));
                init.lemma_filter_contains_rev(pred, kept[k]);
                let q = choose|q: int| 0 <= q < init.len() && init[q] == kept[k];
                assert(slots[q].until <= slots[slots.len() - 1].at);
            }
            let out = kept.push(last);
            assert(tokens_in_order(out)) by {
                assert forall|i: int| 0 <= i < out.len() implies #[trigger] out[i].at < out[i].until by {
                    if i < kept.len() {
                        assert(out[i] == kept[i]);
                    }
                }
                assert forall|i: int, j: int| 0 <= i < j < out.len() implies #[trigger] out[i].until <= #[trigger] out[j].at by {
                    assert(out[i] == kept[i]);
                    if j < kept.len() {
                        assert(out[j] == kept[j]);
                    }
                }
            }
        } else {
            assert(slots.filter(pred) == kept);
        }
    }
}

/// The positions of the tokens that lie wholly inside `gap_from..gap_until`.
fn available_positions(gap_from: usize, gap_until: usize, slots: &Vec<Slot>) -> (available: Vec<usize>)
    ensures
        available@.len() == available_in(slots@, gap_from as int, gap_until as int).len(),
        forall|k: int| 0 <= k < available@.len() ==> #[trigger] available@[k] < slots@.len() && slots@[available@[k] as int] == available_in(slots@, gap_from as int, gap_until as int)[k],
        forall|k: int, l: int| 0 <= k < l < available@.len() ==> #[trigger] available@[k] < #[trigger] available@[l],
        forall|k: int| 0 <= k < available@.len() ==> #[trigger] slots@[available@[k] as int].at >= gap_from && slots@[available@[k] as int].until <= gap_until,
{
    let mut available: Vec<usize> = Vec::new();
    let mut index: usize = 0;
    while index < slots.len()
        invariant
            index <= slots@.len(),
            available@.len() == available_in(slots@.take(index as int), gap_from as int, gap_until as int).len(),
            forall|k: int| 0 <= k < available@.len() ==> #[trigger] available@[k] < index && slots@[available@[k] as int] == available_in(slots@.take(index as int), gap_from as int, gap_until as int)[k],
            forall|k: int, l: int| 0 <= k < l < available@.len() ==> #[trigger] available@[k] < #[trigger] available@[l],
            forall|k: int| 0 <= k < available@.len() ==> #[trigger] slots@[available@[k] as int].at >= gap_from && slots@[available@[k] as int].until <= gap_until,
        decreases slots@.len() - index,
    {
        proof {
            assert(slots@.take(index + 1).drop_last() =~= slots@.take(index as int));
            reveal_with_fuel(Seq::<_>::filter, 1);
        }
        if slots[index].at >= gap_from && slots[index].until <= gap_until {
            available.push(index);
        }
        index = index + 1;
    }
    assert(slots@.take(slots@.len() as int) =~= slots@);
    available
}

/// The first and last run positions of run `i` when `n` tokens split into `count` runs.
pub open spec fn run_first(i: int, n: int, count: int) -> int {
    i * n / count
}

/// The last run position of run `i` (see `run_first`); 0 when the run is empty at the
/// front.
pub open spec fn run_last(i: int, n: int, count: int) -> int {
    if (i + 1) * n / count >= 1 {
        (i + 1) * n / count - 1
    } else {
        0
    }
}

proof fn lemma_run_bounds(i: int, n: int, count: int)
    requires
        0 <= i < count,
        0 < count <= n,
    ensures
        0 <= run_first(i, n, count) <= run_last(i, n, count) < n,
        (i + 1) * n / count >= 1,
{
    assert(i * n / count <= (i + 1) * n / count) by (nonlinear_arith)
        requires count > 0, n >= 0, i >= 0;
    assert(i * n / count < (i + 1) * n / count) by (nonlinear_arith)
        requires count > 0, n >= count, i >= 0;
    assert((i + 1) * n / count <= n) by (nonlinear_arith)
        requires i + 1 <= count, count > 0, n >= 0;
    assert(i * n / count >= 0) by (nonlinear_arith)
        requires count > 0, n >= 0, i >= 0;
}

/// Splits the tokens inside a gap as evenly as possible into `count` consecutive runs and
/// gives the character range each run covers; `None` when there are fewer tokens than runs.
pub fn partition_gap(gap_from: usize, gap_until: usize, count: usize, slots: &Vec<Slot>) -> (ranges: Option<Vec<(usize, usize)>>)
    requires
        forall|i: int| 0 <= i < slots@.len() ==> #[trigger] slots@[i].at < slots@[i].until,
        forall|i: int, j: int| 0 <= i < j < slots@.len() ==> #[trigger] slots@[i].until <= #[trigger] slots@[j].at,
    ensures
        count == 0 ==> ranges is Some,
        count > 0 ==> (ranges is None <==> available_in(slots@, gap_from as int, gap_until as int).len() < count),
        ranges matches Some(r) ==> r@.len() == count && forall|i: int| 0 <= i < count ==> {
            let chosen = available_in(slots@, gap_from as int, gap_until as int);
            #[trigger] r@[i] == (
                chosen[run_first(i, chosen.len() as int, count as int)].at,
                chosen[run_last(i, chosen.len() as int, count as int)].until,
            )
        },
        ranges matches Some(r) ==> forall|i: int| 0 <= i < r@.len() ==> #[trigger] r@[i].0 <= r@[i].1,
        ranges matches Some(r) ==> forall|i: int| 0 <= i < r@.len() ==> gap_from <= #[trigger] r@[i].0 && r@[i].1 <= gap_until,
{
    if count == 0 {
        return Some(Vec::new());
    }
    let ghost chosen = available_in(slots@, gap_from as int, gap_until as int);
    let available = available_positions(gap_from, gap_until, slots);
    if available.len() < count {
        return None;
    }
    let n = available.len();
    let mut ranges: Vec<(usize, usize)> = Vec::new();
    let mut i: usize = 0;
    while i < count
        invariant
            0 < count <= n,
            n == available@.len(),
            n == chosen.len(),
            chosen == available_in(slots@, gap_from as int, gap_until as int),
            forall|k: int| 0 <= k < n ==> #[trigger] available@[k] < slots@.len() && slots@[available@[k] as int] == chosen[k],
            forall|k: int, l: int| 0 <= k < l < n ==> #[trigger] available@[k] < #[trigger] available@[l],
            forall|a: int| 0 <= a < slots@.len() ==> #[trigger] slots@[a].at < slots@[a].until,
            forall|a: int, b: int| 0 <= a < b < slots@.len() ==> #[trigger] slots@[a].until <= #[trigger] slots@[b].at,
            i <= count,
            ranges@.len() == i,
            forall|k: int| 0 <= k < i ==> #[trigger] ranges@[k] == (
                chosen[run_first(k, n as int, count as int)].at,
                chosen[run_last(k, n as int, count as int)].until,
            ),
            forall|k: int| 0 <= k < i ==> #[trigger] ranges@[k].0 <= ranges@[k].1,
            forall|k: int| 0 <= k < n ==> #[trigger] slots@[available@[k] as int].at >= gap_from && slots@[available@[k] as int].until <= gap_until,
            forall|k: int| 0 <= k < i ==> gap_from <= #[trigger] ranges@[k].0 && ranges@[k].1 <= gap_until,
        decreases count - i,
    {
        proof {
            lemma_run_bounds(i as int, n as int, count as int);
            assert((i as int + 1) * (n as int) <= 0xffff_ffff_ffff_ffff * 0xffff_ffff_ffff_ffff) by (nonlinear_arith)
                requires
                    0 <= i + 1 <= 0xffff_ffff_ffff_ffff,
                    0 <= n <= 0xffff_ffff_ffff_ffff;
            assert((i as int) * (n as int) <= (i as int + 1) * (n as int)) by (nonlinear_arith)
                requires
                    0 <= i,
                    0 <= n;
        }
        let first = ((i as u128) * (n as u128) / (count as u128)) as usize;
        let last = (((i as u128 + 1) * (n as u128) / (count as u128)) - 1) as usize;
        assert(first == run_first(i as int, n as int, count as int));
        assert(last == run_last(i as int, n as int, count as int));
        let left = slots[available[first]].at;
        let right = slots[available[last]].until;
        proof {
            if first < last {
                assert(available@[first as int] < available@[last as int]);
                assert(slots@[available@[first as int] as int].until <= slots@[available@[last as int] as int].at);
            }
        }
        ranges.push((left, right));
        i = i + 1;
    }
    Some(ranges)
}

/// Whether the range of cue `w` meets some token.
pub open spec fn cue_meets_token(ranges: Seq<(usize, usize)>, slots: Seq<Slot>, w: int) -> bool {
    exists|k: int| 0 <= k < slots.len() && #[trigger] slots[k].until > ranges[w].0 && slots[k].at < ranges[w].1
}

/// Whether some meaningful cue's range starts before token `k` ends.
pub open spec fn token_reached(meaningful: Seq<bool>, ranges: Seq<(usize, usize)>, slots: Seq<Slot>, k: int) -> bool {
    exists|w: int| 0 <= w < ranges.len() && meaningful[w] && #[trigger] ranges[w].0 < slots[k].until
}

/// Every meaningful cue's range meets a token, and every token is reached by a meaningful
/// cue whose range starts before the token ends.
pub open spec fn covered_both_ways(meaningful: Seq<bool>, ranges: Seq<(usize, usize)>, slots: Seq<Slot>) -> bool {
    &&& forall|w: int| 0 <= w < ranges.len() && #[trigger] meaningful[w] ==> cue_meets_token(ranges, slots, w)
    &&& forall|k: int| 0 <= k < slots.len() ==> #[trigger] token_reached(meaningful, ranges, slots, k)
}

/// The first token from `k` on that ends after `from`.
pub open spec fn tokens_past(slots: Seq<Slot>, k: int, from: int) -> int
    decreases slots.len() - k,
{
    if k < 0 || k >= slots.len() {
        k
    } else if slots[k].until <= from {
        tokens_past(slots, k + 1, from)
    } else {
        k
    }
}

/// The first cue from `c` on whose range ends after `at`.
pub open spec fn cues_past(ranges: Seq<(usize, usize)>, c: int, at: int) -> int
    decreases ranges.len() - c,
{
    if c < 0 || c >= ranges.len() {
        c
    } else if ranges[c].1 <= at {
        cues_past(ranges, c + 1, at)
    } else {
        c
    }
}

/// Whether a meaningful cue from `j` on starts before `until`, looking only as long as the
/// cues start before it.
pub open spec fn meaningful_before(meaningful: Seq<bool>, ranges: Seq<(usize, usize)>, j: int, until: int) -> bool
    decreases ranges.len() - j,
{
    if j < 0 || j >= ranges.len() || ranges[j].0 >= until {
        false
    } else if meaningful[j] {
        true
    } else {
        meaningful_before(meaningful, ranges, j + 1, until)
    }
}

/// The check that every meaningful cue from `w` on meets a token: walking the cues in
/// order with a token cursor that only moves forward (from `k`), each meaningful cue needs
/// the first token ending after the cue's start to start before the cue's end.
pub open spec fn cues_meet_tokens(meaningful: Seq<bool>, ranges: Seq<(usize, usize)>, slots: Seq<Slot>, w: int, k: int) -> bool
    decreases ranges.len() - w,
{
    if w < 0 || w >= ranges.len() {
        true
    } else if !meaningful[w] {
        cues_meet_tokens(meaningful, ranges, slots, w + 1, k)
    } else {
        let next = tokens_past(slots, k, ranges[w].0 as int);
        if next >= slots.len() || slots[next].at >= ranges[w].1 {
            false
        } else {
            cues_meet_tokens(meaningful, ranges, slots, w + 1, next)
        }
    }
}

/// The check that every token from `k` on is reached: walking the tokens in order with a
/// cue cursor that only moves forward (from `c`), past the cues that end before the token
/// starts, some meaningful cue must start before the token ends.
pub open spec fn tokens_reached(meaningful: Seq<bool>, ranges: Seq<(usize, usize)>, slots: Seq<Slot>, k: int, c: int) -> bool
    decreases slots.len() - k,
{
    if k < 0 || k >= slots.len() {
        true
    } else {
        let first = cues_past(ranges, c, slots[k].at as int);
        if meaningful_before(meaningful, ranges, first, slots[k].until as int) {
            tokens_reached(meaningful, ranges, slots, k + 1, first)
        } else {
            false
        }
    }
}

/// Whether cue ranges and canonical tokens cover each other: without tokens, no cue may be
/// meaningful; with tokens, both walks must succeed.
pub open spec fn coverage_holds(meaningful: Seq<bool>, ranges: Seq<(usize, usize)>, slots: Seq<Slot>) -> bool {
    if slots.len() == 0 {
        forall|w: int| 0 <= w < meaningful.len() ==> !#[trigger] meaningful[w]
    } else {
        cues_meet_tokens(meaningful, ranges, slots, 0, 0) && tokens_reached(meaningful, ranges, slots, 0, 0)
    }
}

proof fn lemma_tokens_past_bounds(slots: Seq<Slot>, k: int, from: int)
    requires
        0 <= k <= slots.len(),
    ensures
        k <= tokens_past(slots, k, from) <= slots.len(),
        tokens_past(slots, k, from) < slots.len() ==> slots[tokens_past(slots, k, from)].until > from,
    decreases slots.len() - k,
{
    if k < slots.len() {
        lemma_tokens_past_bounds(slots, k + 1, from);
    }
}

proof fn lemma_cues_past_bounds(ranges: Seq<(usize, usize)>, c: int, at: int)
    requires
        0 <= c <= ranges.len(),
    ensures
        c <= cues_past(ranges, c, at) <= ranges.len(),
    decreases ranges.len() - c,
{
    if c < ranges.len() {
        lemma_cues_past_bounds(ranges, c + 1, at);
    }
}

proof fn lemma_meaningful_before(meaningful: Seq<bool>, ranges: Seq<(usize, usize)>, j: int, until: int)
    requires
        0 <= j,
        meaningful.len() == ranges.len(),
    ensures
        meaningful_before(meaningful, ranges, j, until) ==> exists|w: int| j <= w < ranges.len() && meaningful[w] && #[trigger] ranges[w].0 < until,
    decreases ranges.len() - j,
{
    if j < ranges.len() && ranges[j].0 < until && !meaningful[j] {
        lemma_meaningful_before(meaningful, ranges, j + 1, until);
    }
}

/// Whether cue ranges run in order: neither their starts nor their ends ever go back.
pub open spec fn ranges_in_order(ranges: Seq<(usize, usize)>) -> bool {
    forall|a: int, b: int| #![trigger ranges[a], ranges[b]] 0 <= a < b < ranges.len()
        ==> ranges[a].0 <= ranges[b].0 && ranges[a].1 <= ranges[b].1
}

/// Whether tokens run in order: each has characters and ends before the next one starts.
pub open spec fn tokens_in_order(slots: Seq<Slot>) -> bool {
    &&& forall|i: int| 0 <= i < slots.len() ==> #[trigger] slots[i].at < slots[i].until
    &&& forall|i: int, j: int| 0 <= i < j < slots.len() ==> #[trigger] slots[i].until <= #[trigger] slots[j].at
}

/// Whether the range of some meaningful cue overlaps token `k`.
pub open spec fn token_overlapped(meaningful: Seq<bool>, ranges: Seq<(usize, usize)>, slots: Seq<Slot>, k: int) -> bool {
    exists|w: int| 0 <= w < ranges.len() && meaningful[w] && #[trigger] ranges[w].1 > slots[k].at && ranges[w].0 < slots[k].until
}

/// Every meaningful cue's range overlaps a token, and every token is overlapped by the range
/// of a meaningful cue.
pub open spec fn overlap_both_ways(meaningful: Seq<bool>, ranges: Seq<(usize, usize)>, slots: Seq<Slot>) -> bool {
    &&& forall|w: int| 0 <= w < ranges.len() && #[trigger] meaningful[w] ==> cue_meets_token(ranges, slots, w)
    &&& forall|k: int| 0 <= k < slots.len() ==> #[trigger] token_overlapped(meaningful, ranges, slots, k)
}

/// Whether no range that ends after the start of the text ends later than a later
/// meaningful cue's range starts.
pub open spec fn reach_in_order(meaningful: Seq<bool>, ranges: Seq<(usize, usize)>) -> bool {
    forall|a: int, b: int| 0 <= a < b < ranges.len() && #[trigger] meaningful[b] && #[trigger] ranges[a].1 > 0
        ==> ranges[a].1 <= ranges[b].0
}

proof fn lemma_reached_overlaps(meaningful: Seq<bool>, ranges: Seq<(usize, usize)>, slots: Seq<Slot>, k: int, c: int)
    requires
        0 <= k <= slots.len(),
        0 <= c <= ranges.len(),
        meaningful.len() == ranges.len(),
        reach_in_order(meaningful, ranges),
        forall|w: int| 0 <= w < ranges.len() ==> #[trigger] ranges[w].0 <= ranges[w].1,
        tokens_reached(meaningful, ranges, slots, k, c),
    ensures
        forall|t: int| k <= t < slots.len() ==> #[trigger] token_overlapped(meaningful, ranges, slots, t),
    decreases slots.len() - k,
{
    if k < slots.len() {
        let at = slots[k].at as int;
        let until = slots[k].until as int;
        let first = cues_past(ranges, c, at);
        lemma_cues_past_bounds(ranges, c, at);
        lemma_cues_past_skips(ranges, c, at);
        lemma_meaningful_before(meaningful, ranges, first, until);
        let w = choose|w: int| first <= w < ranges.len() && meaningful[w] && #[trigger] ranges[w].0 < until;
        if w > first {
            assert(ranges[first].1 > 0);
            assert(ranges[first].1 <= ranges[w].0);
        }
        assert(ranges[w].1 > slots[k].at);
        assert(token_overlapped(meaningful, ranges, slots, k));
        lemma_reached_overlaps(meaningful, ranges, slots, k + 1, first);
    }
}

/// Where ranges reach in order (see `reach_in_order`), cues and tokens that cover each
/// other as `coverage_holds` walks them overlap both ways.
proof fn lemma_coverage_overlaps(meaningful: Seq<bool>, ranges: Seq<(usize, usize)>, slots: Seq<Slot>)
    requires
        meaningful.len() == ranges.len(),
        reach_in_order(meaningful, ranges),
        forall|w: int| 0 <= w < ranges.len() ==> #[trigger] ranges[w].0 <= ranges[w].1,
        coverage_holds(meaningful, ranges, slots),
        covered_both_ways(meaningful, ranges, slots),
    ensures
        overlap_both_ways(meaningful, ranges, slots),
{
    if slots.len() > 0 {
        lemma_reached_overlaps(meaningful, ranges, slots, 0, 0);
    }
}

proof fn lemma_tokens_past_skips(slots: Seq<Slot>, k: int, from: int)
    requires
        0 <= k <= slots.len(),
    ensures
        forall|t: int| k <= t < tokens_past(slots, k, from) ==> #[trigger] slots[t].until <= from,
    decreases slots.len() - k,
{
    if k < slots.len() {
        lemma_tokens_past_skips(slots, k + 1, from);
    }
}

proof fn lemma_cues_past_skips(ranges: Seq<(usize, usize)>, c: int, at: int)
    requires
        0 <= c <= ranges.len(),
    ensures
        forall|t: int| c <= t < cues_past(ranges, c, at) ==> #[trigger] ranges[t].1 <= at,
        cues_past(ranges, c, at) < ranges.len() ==> ranges[cues_past(ranges, c, at)].1 > at,
    decreases ranges.len() - c,
{
    if c < ranges.len() {
        lemma_cues_past_skips(ranges, c + 1, at);
    }
}

proof fn lemma_meaningful_before_in_order(meaningful: Seq<bool>, ranges: Seq<(usize, usize)>, j: int, until: int)
    requires
        0 <= j <= ranges.len(),
        meaningful.len() == ranges.len(),
        ranges_in_order(ranges),
    ensures
        meaningful_before(meaningful, ranges, j, until)
            <==> exists|w: int| j <= w < ranges.len() && meaningful[w] && #[trigger] ranges[w].0 < until,
    decreases ranges.len() - j,
{
    if j < ranges.len() {
        lemma_meaningful_before_in_order(meaningful, ranges, j + 1, until);
        if ranges[j].0 >= until {
            assert forall|w: int| j <= w < ranges.len() && meaningful[w] implies !(#[trigger] ranges[w].0 < until) by {
                if w > j {
                    assert(ranges[j].0 <= ranges[w].0);
                }
            }
        } else if !meaningful[j] {
            if exists|w: int| j <= w < ranges.len() && meaningful[w] && #[trigger] ranges[w].0 < until {
                let w = choose|w: int| j <= w < ranges.len() && meaningful[w] && #[trigger] ranges[w].0 < until;
                assert(w > j);
            }
        }
    }
}

proof fn lemma_cues_meet_in_order(meaningful: Seq<bool>, ranges: Seq<(usize, usize)>, slots: Seq<Slot>, w: int, k: int)
    requires
        0 <= w <= ranges.len(),
        0 <= k <= slots.len(),
        meaningful.len() == ranges.len(),
        ranges_in_order(ranges),
        tokens_in_order(slots),
        w < ranges.len() ==> forall|t: int| 0 <= t < k ==> #[trigger] slots[t].until <= ranges[w].0,
    ensures
        cues_meet_tokens(meaningful, ranges, slots, w, k)
            <==> forall|v: int| w <= v < ranges.len() && #[trigger] meaningful[v] ==> cue_meets_token(ranges, slots, v),
    decreases ranges.len() - w,
{
    if w < ranges.len() {
        if w + 1 < ranges.len() {
            assert(ranges[w].0 <= ranges[w + 1].0);
        }
        if !meaningful[w] {
            lemma_cues_meet_in_order(meaningful, ranges, slots, w + 1, k);
        } else {
            let from = ranges[w].0 as int;
            let next = tokens_past(slots, k, from);
            lemma_tokens_past_bounds(slots, k, from);
            lemma_tokens_past_skips(slots, k, from);
            if next >= slots.len() || slots[next].at >= ranges[w].1 {
                assert forall|t: int| 0 <= t < slots.len() && #[trigger] slots[t].until > ranges[w].0 implies slots[t].at >= ranges[w].1 by {
                    if t > next {
                        assert(slots[next].until <= slots[t].at);
                        assert(slots[next].at < slots[next].until);
                    }
                }
                assert(!cue_meets_token(ranges, slots, w));
            } else {
                assert(cue_meets_token(ranges, slots, w));
                lemma_cues_meet_in_order(meaningful, ranges, slots, w + 1, next);
            }
        }
    }
}

proof fn lemma_tokens_reached_in_order(meaningful: Seq<bool>, ranges: Seq<(usize, usize)>, slots: Seq<Slot>, k: int, c: int)
    requires
        0 <= k <= slots.len(),
        0 <= c <= ranges.len(),
        meaningful.len() == ranges.len(),
        ranges_in_order(ranges),
        tokens_in_order(slots),
        k < slots.len() ==> forall|v: int| 0 <= v < c ==> #[trigger] ranges[v].1 <= slots[k].at,
    ensures
        tokens_reached(meaningful, ranges, slots, k, c)
            <==> forall|t: int| k <= t < slots.len() ==> #[trigger] token_overlapped(meaningful, ranges, slots, t),
    decreases slots.len() - k,
{
    if k < slots.len() {
        let at = slots[k].at as int;
        let until = slots[k].until as int;
        let first = cues_past(ranges, c, at);
        lemma_cues_past_bounds(ranges, c, at);
        lemma_cues_past_skips(ranges, c, at);
        lemma_meaningful_before_in_order(meaningful, ranges, first, until);
        if k + 1 < slots.len() {
            assert(slots[k].until <= slots[k + 1].at);
        }
        if meaningful_before(meaningful, ranges, first, until) {
            let w = choose|w: int| first <= w < ranges.len() && meaningful[w] && #[trigger] ranges[w].0 < until;
            if w > first {
                assert(ranges[first].1 <= ranges[w].1);
            }
            assert(token_overlapped(meaningful, ranges, slots, k));
            lemma_tokens_reached_in_order(meaningful, ranges, slots, k + 1, first);
        } else {
            if token_overlapped(meaningful, ranges, slots, k) {
                let w = choose|w: int| 0 <= w < ranges.len() && meaningful[w] && #[trigger] ranges[w].1 > slots[k].at && ranges[w].0 < slots[k].until;
                assert(w >= first);
            }
        }
    }
}

/// Where cue ranges and tokens both run in order, the walks of `coverage_holds` decide
/// exactly whether they overlap both ways.
pub proof fn lemma_coverage_in_order(meaningful: Seq<bool>, ranges: Seq<(usize, usize)>, slots: Seq<Slot>)
    requires
        meaningful.len() == ranges.len(),
        ranges_in_order(ranges),
        tokens_in_order(slots),
    ensures
        coverage_holds(meaningful, ranges, slots) <==> overlap_both_ways(meaningful, ranges, slots),
{
    if slots.len() > 0 {
        lemma_cues_meet_in_order(meaningful, ranges, slots, 0, 0);
        lemma_tokens_reached_in_order(meaningful, ranges, slots, 0, 0);
    }
}

/// Checks that the cue ranges and the canonical tokens cover each other, as
/// `coverage_holds` walks them: no meaningful cue without text, no token without a
/// meaningful cue.
#[verifier::loop_isolation(false)]
fn validate_bidirectional_coverage(meaningful: &Vec<bool>, ranges: &Vec<(usize, usize)>, slots: &Vec<Slot>) -> (valid: bool)
    requires
        meaningful@.len() == ranges@.len(),
    ensures
        valid == coverage_holds(meaningful@, ranges@, slots@),
        valid ==> covered_both_ways(meaningful@, ranges@, slots@),
        ranges_in_order(ranges@) && tokens_in_order(slots@) ==> (valid <==> overlap_both_ways(meaningful@, ranges@, slots@)),
{
    proof {
        if ranges_in_order(ranges@) && tokens_in_order(slots@) {
            lemma_coverage_in_order(meaningful@, ranges@, slots@);
        }
    }
    if slots.len() == 0 {
        let mut w: usize = 0;
        while w < meaningful.len()
            invariant
                w <= meaningful@.len(),
                forall|k: int| 0 <= k < w ==> !#[trigger] meaningful@[k],
            decreases meaningful@.len() - w,
        {
            if meaningful[w] {
                return false;
            }
            w = w + 1;
        }
        return true;
    }
    let mut slot_idx: usize = 0;
    let mut w: usize = 0;
    while w < ranges.len()
        invariant
            meaningful@.len() == ranges@.len(),
            w <= ranges@.len(),
            slot_idx <= slots@.len(),
            forall|v: int| 0 <= v < w && #[trigger] meaningful@[v] ==> cue_meets_token(ranges@, slots@, v),
            cues_meet_tokens(meaningful@, ranges@, slots@, 0, 0) == cues_meet_tokens(meaningful@, ranges@, slots@, w as int, slot_idx as int),
        decreases ranges@.len() - w,
    {
        if meaningful[w] {
            let range_from = ranges[w].0;
            let ghost start_idx = slot_idx as int;
            proof {
                lemma_tokens_past_bounds(slots@, start_idx, range_from as int);
            }
            while slot_idx < slots.len() && slots[slot_idx].until <= range_from
                invariant
                    start_idx <= slot_idx <= slots@.len(),
                    tokens_past(slots@, slot_idx as int, range_from as int) == tokens_past(slots@, start_idx, range_from as int),
                decreases slots@.len() - slot_idx,
            {
                slot_idx = slot_idx + 1;
            }
            if slot_idx == slots.len() || slots[slot_idx].at >= ranges[w].1 {
                return false;
            }
            assert(slots@[slot_idx as int].until > ranges@[w as int].0);
            assert(cue_meets_token(ranges@, slots@, w as int));
        }
        w = w + 1;
    }
    let mut cue_idx: usize = 0;
    let mut k: usize = 0;
    while k < slots.len()
        invariant
            meaningful@.len() == ranges@.len(),
            k <= slots@.len(),
            cue_idx <= ranges@.len(),
            cues_meet_tokens(meaningful@, ranges@, slots@, 0, 0),
            forall|v: int| 0 <= v < ranges@.len() && #[trigger] meaningful@[v] ==> cue_meets_token(ranges@, slots@, v),
            forall|j: int| 0 <= j < k ==> #[trigger] token_reached(meaningful@, ranges@, slots@, j),
            tokens_reached(meaningful@, ranges@, slots@, 0, 0) == tokens_reached(meaningful@, ranges@, slots@, k as int, cue_idx as int),
        decreases slots@.len() - k,
    {
        let slot_at = slots[k].at;
        let slot_until = slots[k].until;
        let ghost start_cue = cue_idx as int;
        proof {
            lemma_cues_past_bounds(ranges@, start_cue, slot_at as int);
        }
        while cue_idx < ranges.len() && ranges[cue_idx].1 <= slot_at
            invariant
                start_cue <= cue_idx <= ranges@.len(),
                cues_past(ranges@, cue_idx as int, slot_at as int) == cues_past(ranges@, start_cue, slot_at as int),
            decreases ranges@.len() - cue_idx,
        {
            cue_idx = cue_idx + 1;
        }
        let mut covered = false;
        let mut j = cue_idx;
        while j < ranges.len() && ranges[j].0 < slot_until
            invariant
                slot_until == slots@[k as int].until,
                meaningful@.len() == ranges@.len(),
                cue_idx <= j <= ranges@.len(),
                k < slots@.len(),
                !covered ==> meaningful_before(meaningful@, ranges@, cue_idx as int, slot_until as int)
                    == meaningful_before(meaningful@, ranges@, j as int, slot_until as int),
                covered ==> meaningful_before(meaningful@, ranges@, cue_idx as int, slot_until as int),
                covered ==> token_reached(meaningful@, ranges@, slots@, k as int),
            decreases ranges@.len() - j,
        {
            if meaningful[j] {
                covered = true;
                assert(ranges@[j as int].0 < slots@[k as int].until);
                break;
            }
            j = j + 1;
        }
        if !covered {
            return false;
        }
        k = k + 1;
    }
    proof {
        assert forall|v: int| 0 <= v < ranges@.len() && #[trigger] meaningful@[v] implies cue_meets_token(ranges@, slots@, v) by {}
    }
    true
}

/// The characters of each cue text.
pub open spec fn texts_of(texts: Seq<Vec<char>>) -> Seq<Seq<char>> {
    texts.map_values(|text: Vec<char>| text@)
}

/// The cue texts of `words`.
pub open spec fn word_texts(words: Seq<LyricsWord>) -> Seq<Seq<char>> {
    words.map_values(|word: LyricsWord| word.text@)
}

/// Whether `piece` occurs in `text` at position `pos`.
fn occurs_at(piece: &Vec<char>, text: &Vec<char>, pos: usize) -> (found: bool)
    requires
        pos + piece@.len() <= text@.len(),
    ensures
        found == (text@.subrange(pos as int, pos + piece@.len()) == piece@),
{
    let total = text.len();
    let mut k: usize = 0;
    while k < piece.len()
        invariant
            total == text@.len(),
            pos + piece@.len() <= text@.len(),
            k <= piece@.len(),
            forall|j: int| 0 <= j < k ==> piece@[j] == text@[pos + j],
        decreases piece@.len() - k,
    {
        if piece[k] != text[pos + k] {
            assert(text@.subrange(pos as int, pos + piece@.len())[k as int] != piece@[k as int]);
            return false;
        }
        k = k + 1;
    }
    assert(text@.subrange(pos as int, pos + piece@.len()) =~= piece@);
    true
}

/// Whether the cue texts, one after the other, spell `text` exactly.
fn spells(texts: &Vec<Vec<char>>, text: &Vec<char>) -> (exact: bool)
    ensures
        exact == (texts_of(texts@).flatten_alt() == text@),
{
    let ghost views = texts_of(texts@);
    let mut pos: usize = 0;
    let mut i: usize = 0;
    assert(views.take(0).flatten_alt() =~= Seq::<char>::empty());
    while i < texts.len()
        invariant
            views == texts_of(texts@),
            i <= texts@.len(),
            pos <= text@.len(),
            views.take(i as int).flatten_alt() == text@.take(pos as int),
        decreases texts@.len() - i,
    {
        let piece = &texts[i];
        proof {
            assert(views.take(i + 1).drop_last() =~= views.take(i as int));
            assert(views[i as int] == piece@);
            assert(views.take(i + 1).flatten_alt() == views.take(i as int).flatten_alt() + piece@);
            lemma_flatten_prefix(views, i + 1);
        }
        if piece.len() > text.len() - pos {
            return false;
        }
        if !occurs_at(piece, text, pos) {
            proof {
                if views.flatten_alt() == text@ {
                    let whole = views.take(i + 1).flatten_alt();
                    assert(whole == text@.take(pos as int) + piece@);
                    assert(whole =~= text@.take(pos + piece@.len()));
                    assert forall|j: int| 0 <= j < piece@.len() implies text@.subrange(pos as int, pos + piece@.len())[j] == piece@[j] by {
                        assert(whole[pos + j] == piece@[j]);
                        assert(whole[pos + j] == text@[pos + j]);
                    }
                    assert(text@.subrange(pos as int, pos + piece@.len()) =~= piece@);
                }
            }
            return false;
        }
        assert(text@.take(pos + piece@.len()) =~= text@.take(pos as int) + piece@);
        pos = pos + piece.len();
        i = i + 1;
    }
    assert(views.take(texts@.len() as int) =~= views);
    if pos == text.len() {
        assert(text@.take(pos as int) =~= text@);
        true
    } else {
        proof {
            if views.flatten_alt() == text@ {
                assert(text@.take(pos as int).len() == pos);
            }
        }
        false
    }
}

/// Whether each cue text is meaningful.
fn meaningful_flags(texts: &Vec<Vec<char>>) -> (flags: Vec<bool>)
    ensures
        flags@.len() == texts@.len(),
        forall|i: int| 0 <= i < texts@.len() ==> #[trigger] flags@[i] == is_meaningful(texts@[i]@),
{
    let mut flags: Vec<bool> = Vec::new();
    let mut i: usize = 0;
    while i < texts.len()
        invariant
            i <= texts@.len(),
            flags@.len() == i,
            forall|k: int| 0 <= k < i ==> #[trigger] flags@[k] == is_meaningful(texts@[k]@),
        decreases texts@.len() - i,
    {
        flags.push(meaningful_cue(&texts[i]));
        i = i + 1;
    }
    flags
}

/// The cue that a word owns over the characters `range` of the text.
pub open spec fn cue_of(word: LyricsWord, range: (usize, usize)) -> Cue {
    Cue {
        from: range.0,
        until: range.1,
        start: word.start,
        end: if word.end >= word.start { word.end } else { word.start },
    }
}

/// Attaches each word's time to its character range.
fn cues_of(words: &Vec<LyricsWord>, ranges: &Vec<(usize, usize)>) -> (cues: Vec<Cue>)
    requires
        words@.len() == ranges@.len(),
    ensures
        cues@.len() == words@.len(),
        forall|i: int| 0 <= i < words@.len() ==> #[trigger] cues@[i] == cue_of(words@[i], ranges@[i]),
{
    let mut cues: Vec<Cue> = Vec::new();
    let mut i: usize = 0;
    while i < words.len()
        invariant
            words@.len() == ranges@.len(),
            i <= words@.len(),
            cues@.len() == i,
            forall|k: int| 0 <= k < i ==> #[trigger] cues@[k] == cue_of(words@[k], ranges@[k]),
        decreases words@.len() - i,
    {
        let word = &words[i];
        let end = if word.end >= word.start { word.end } else { word.start };
        cues.push(Cue { from: ranges[i].0, until: ranges[i].1, start: word.start, end });
        i = i + 1;
    }
    cues
}

/// Cue ranges that lie within the first `length` characters and do not run backwards.
pub open spec fn ranges_within(ranges: Seq<(usize, usize)>, length: nat) -> bool {
    forall|i: int| 0 <= i < ranges.len() ==> #[trigger] ranges[i].0 <= ranges[i].1 && ranges[i].1 <= length
}

/// Whether the cue texts, one after another, are the text itself.
pub open spec fn cues_spell(text: Seq<char>, words: Seq<LyricsWord>) -> bool {
    word_texts(words).flatten_alt() == text
}

/// A cue placed by UTF-8 byte offsets into `text` in place of character positions.
pub open spec fn byte_cue(text: Seq<char>, cue: Cue) -> Cue {
    Cue {
        from: utf8_len(text.take(cue.from as int)) as usize,
        until: utf8_len(text.take(cue.until as int)) as usize,
        start: cue.start,
        end: cue.end,
    }
}

/// Maps provider cues onto `text` with a fresh work budget and the full token limit:
/// `None` as well when the text has more than `LIMIT` tokens. The cues it gives own byte
/// ranges of the text (see `byte_cue`). Where the cue texts spell the text, no budget is
/// spent and the result is `None` exactly when the mapping fails.
pub fn map_words_to_text(text: &str, words: &Vec<LyricsWord>) -> (cues: Option<Vec<Cue>>)
    ensures
        spec_tokens(text@).len() > LIMIT ==> cues is None,
        cues matches Some(cues) ==> {
            &&& cues@.len() == words@.len()
            &&& forall|i: int| 0 <= i < cues@.len() ==> #[trigger] cues@[i].from <= cues@[i].until && cues@[i].until <= utf8_len(text@)
            &&& exists|slots: Seq<Slot>| #[trigger] slot_views(slots) == spec_tokens(text@) && ordered_within(slots, text@.len())
                && (spec_cue_ranges(text@, words@, slots) matches Some(ranges) && ranges.len() == cues@.len()
                && forall|i: int| 0 <= i < cues@.len() ==> #[trigger] cues@[i] == byte_cue(text@, cue_of(words@[i], ranges[i]))
                && meaningful_in_order(meaningful_of(words@), ranges)
                && overlap_both_ways(meaningful_of(words@), ranges, slots))
        },
        cues is None && spec_tokens(text@).len() <= LIMIT
            ==> exists|slots: Seq<Slot>| #[trigger] slot_views(slots) == spec_tokens(text@) && ordered_within(slots, text@.len())
                && (spec_cue_ranges(text@, words@, slots) is None || map_steps(text@, words@, slots) >= CELLS),
{
    let slots = match bounded_tokens_to(text, LIMIT) {
        Some(slots) => slots,
        None => return None,
    };
    let letters = chars_of(text);
    let mut work: usize = 0;
    let cues = match map_words_to_text_with_limit(&letters, words, &slots, &mut work) {
        Some(cues) => cues,
        None => return None,
    };
    let offsets = byte_offsets(text, &letters);
    let mut placed: Vec<Cue> = Vec::new();
    let mut k: usize = 0;
    while k < cues.len()
        invariant
            letters@ == text@,
            offsets@.len() == letters@.len() + 1,
            forall|p: int| 0 <= p <= letters@.len() ==> #[trigger] offsets@[p] == utf8_len(text@.take(p)),
            forall|i: int| 0 <= i < cues@.len() ==> #[trigger] cues@[i].from <= cues@[i].until && cues@[i].until <= text@.len(),
            k <= cues@.len(),
            placed@.len() == k,
            forall|i: int| 0 <= i < k ==> #[trigger] placed@[i] == byte_cue(text@, cues@[i]),
            forall|i: int| 0 <= i < k ==> #[trigger] placed@[i].from <= placed@[i].until && placed@[i].until <= utf8_len(text@),
        decreases cues@.len() - k,
    {
        let cue = cues[k];
        let from = offsets[cue.from];
        let until = offsets[cue.until];
        proof {
            lemma_utf8_len_prefix(text@.take(cue.until as int), cue.from as int);
            assert(text@.take(cue.until as int).take(cue.from as int) =~= text@.take(cue.from as int));
            lemma_utf8_len_prefix(text@, cue.until as int);
        }
        placed.push(Cue { from, until, start: cue.start, end: cue.end });
        k = k + 1;
    }
    Some(placed)
}

/// The characters each cue owns when the cue texts spell the text one after another.
pub open spec fn spelled_ranges(texts: Seq<Seq<char>>) -> Seq<(usize, usize)> {
    Seq::new(texts.len(), |i: int| (
        texts.take(i).flatten_alt().len() as usize,
        texts.take(i + 1).flatten_alt().len() as usize,
    ))
}

/// Which cue texts are meaningful.
pub open spec fn meaningful_of(words: Seq<LyricsWord>) -> Seq<bool> {
    words.map_values(|word: LyricsWord| is_meaningful(word.text@))
}

/// The characters each cue owns, before the coverage check. When the cue texts spell the
/// text exactly, each cue owns its own characters. Otherwise the cues are anchored (see
/// `anchoring`); without any anchor there is no mapping; each run of unanchored cues must
/// fit its gap (see `run_fits`), and the cues then own `owned_range`.
pub open spec fn cue_ranges_before_check(text: Seq<char>, words: Seq<LyricsWord>, slots: Seq<Slot>) -> Option<Seq<(usize, usize)>> {
    let texts = word_texts(words);
    if texts.flatten_alt() == text {
        Some(spelled_ranges(texts))
    } else {
        let anchors = anchoring(text, cores_of(words), slots, words.len() as int).0;
        let flags = meaningful_of(words);
        if forall|j: int| 0 <= j < anchors.len() ==> #[trigger] anchors[j] is None {
            None
        } else if forall|j: int| 0 <= j < anchors.len() && #[trigger] anchors[j] is None
            ==> run_fits(text.len() as int, anchors, flags, slots, j) {
            Some(Seq::new(anchors.len(), |j: int| owned_range(text.len() as int, anchors, flags, slots, j)))
        } else {
            None
        }
    }
}

/// The characters each provider cue owns in the canonical text: `cue_ranges_before_check`,
/// kept only when cues and tokens cover each other (see `coverage_holds`).
pub open spec fn spec_cue_ranges(text: Seq<char>, words: Seq<LyricsWord>, slots: Seq<Slot>) -> Option<Seq<(usize, usize)>> {
    match cue_ranges_before_check(text, words, slots) {
        Some(ranges) => if coverage_holds(meaningful_of(words), ranges, slots) { Some(ranges) } else { None },
        None => None,
    }
}

proof fn lemma_anchoring_len(text: Seq<char>, cores: Seq<Seq<char>>, slots: Seq<Slot>, w: int)
    requires
        0 <= w,
    ensures
        anchoring(text, cores, slots, w).0.len() == w,
    decreases w,
{
    if w > 0 {
        lemma_anchoring_len(text, cores, slots, w - 1);
    }
}

/// The work of mapping cues onto a text: none where the cue texts spell the text, else the
/// work of anchoring the cue cores (see `anchor_steps`).
pub open spec fn map_steps(text: Seq<char>, words: Seq<LyricsWord>, slots: Seq<Slot>) -> nat {
    if cues_spell(text, words) { 0 } else { anchor_steps(text, cores_of(words), slots, words.len() as int) }
}

/// The most work mapping `words` onto `text` with `count` tokens can take: one unit per
/// token tried for each cue, and one per text character looked at for each try.
pub open spec fn cue_cost(text: Seq<char>, words: Seq<LyricsWord>, count: int) -> int {
    words.len() * (count * (1 + text.len()))
}

proof fn lemma_scan_steps_bound(text: Seq<char>, core: Seq<char>, slots: Seq<Slot>, s: int)
    requires
        ordered_within(slots, text.len()),
    ensures
        scan_steps(text, core, slots, s) <= slots.len() * (1 + text.len()),
        0 <= s <= slots.len() ==> scan_steps(text, core, slots, s) <= (slots.len() - s) * (1 + text.len()),
    decreases slots.len() - s,
{
    let l = text.len() as int;
    let n = slots.len() as int;
    if 0 <= s < n {
        lemma_scan_steps_bound(text, core, slots, s + 1);
        let at = slots[s].at as int;
        assert(slots[s].at < slots[s].until);
        lemma_prefix_steps_bound(core, text, 0, at);
        assert((n - s - 1) * (1 + l) + (1 + l) == (n - s) * (1 + l)) by (nonlinear_arith);
        assert((n - s) * (1 + l) <= n * (1 + l)) by (nonlinear_arith)
            requires 0 <= s, l >= 0;
    } else {
        assert(n * (1 + l) >= 0) by (nonlinear_arith)
            requires n >= 0, l >= 0;
    }
}

proof fn lemma_anchor_steps_bound(text: Seq<char>, cores: Seq<Seq<char>>, slots: Seq<Slot>, w: int)
    requires
        ordered_within(slots, text.len()),
        0 <= w,
    ensures
        anchor_steps(text, cores, slots, w) <= w * (slots.len() * (1 + text.len())),
    decreases w,
{
    if w > 0 {
        lemma_anchor_steps_grow(text, cores, slots, w - 1, w);
        lemma_anchor_steps_bound(text, cores, slots, w - 1);
        let c = slots.len() * (1 + text.len());
        lemma_scan_steps_bound(text, cores[w - 1], slots, anchoring(text, cores, slots, w - 1).1);
        assert((w - 1) * c + c == w * c) by (nonlinear_arith);
    }
}

/// The map work is within the cue cost.
pub proof fn lemma_map_steps_bound(text: Seq<char>, words: Seq<LyricsWord>, slots: Seq<Slot>)
    requires
        ordered_within(slots, text.len()),
    ensures
        map_steps(text, words, slots) <= cue_cost(text, words, slots.len() as int),
{
    lemma_anchor_steps_bound(text, cores_of(words), slots, words.len() as int);
    let c = slots.len() * (1 + text.len());
    assert(words.len() * c >= 0) by (nonlinear_arith)
        requires c >= 0;
}

/// Maps each provider cue onto the characters of the canonical text it sings, as
/// `spec_cue_ranges` says, with each cue's time (its end never before its start). Anchor
/// search costs `work` (one unit per token tried and per character compared); `None` as
/// well when the budget runs out.
#[verifier::rlimit(60)]
#[verifier::spinoff_prover]
pub fn map_words_to_text_with_limit(
    text: &Vec<char>,
    words: &Vec<LyricsWord>,
    canonical_slots: &Vec<Slot>,
    work: &mut usize,
) -> (cues: Option<Vec<Cue>>)
    requires
        ordered_within(canonical_slots@, text@.len()),
    ensures
        *final(work) >= *old(work),
        cues matches Some(cues) ==> {
            &&& spec_cue_ranges(text@, words@, canonical_slots@) matches Some(ranges)
                && ranges.len() == cues@.len()
                && forall|i: int| 0 <= i < cues@.len() ==> #[trigger] cues@[i] == cue_of(words@[i], ranges[i])
                && covered_both_ways(meaningful_of(words@), ranges, canonical_slots@)
                && meaningful_in_order(meaningful_of(words@), ranges)
                && overlap_both_ways(meaningful_of(words@), ranges, canonical_slots@)
            &&& cues@.len() == words@.len()
            &&& forall|i: int| 0 <= i < cues@.len() ==> #[trigger] cues@[i].from <= cues@[i].until && cues@[i].until <= text@.len()
            &&& forall|i: int| 0 <= i < cues@.len() ==> #[trigger] cues@[i].start == words@[i].start && cues@[i].end == (if words@[i].end >= words@[i].start { words@[i].end } else { words@[i].start })
        },
        cues is None ==> spec_cue_ranges(text@, words@, canonical_slots@) is None || *final(work) >= CELLS,
        cues_spell(text@, words@) ==> *final(work) == *old(work),
        *old(work) + map_steps(text@, words@, canonical_slots@) < CELLS ==> {
            &&& *final(work) == *old(work) + map_steps(text@, words@, canonical_slots@)
            &&& (cues is None <==> spec_cue_ranges(text@, words@, canonical_slots@) is None)
        },
        cues is Some && !cues_spell(text@, words@) ==> *final(work) < CELLS,
        !cues_spell(text@, words@) && *old(work) + map_steps(text@, words@, canonical_slots@) >= CELLS ==> cues is None,
        *final(work) <= *old(work) + cue_cost(text@, words@, canonical_slots@.len() as int),
        cues_spell(text@, words@) ==> (cues is Some
            <==> overlap_both_ways(meaningful_of(words@), spelled_ranges(word_texts(words@)), canonical_slots@)),
{
    proof {
        let c = canonical_slots@.len() * (1 + text@.len());
        assert(words@.len() * c >= 0) by (nonlinear_arith)
            requires c >= 0;
    }
    let total = text.len();
    let texts = word_chars(words);
    assert(texts_of(texts@) =~= word_texts(words@));
    let flags = meaningful_flags(&texts);
    assert(flags@ =~= meaningful_of(words@));
    let n = words.len();
    if spells(&texts, text) {
        let mut ranges: Vec<(usize, usize)> = Vec::new();
        let mut from: usize = 0;
        let mut i: usize = 0;
        let ghost views = texts_of(texts@);
        assert(views.take(0).flatten_alt() =~= Seq::<char>::empty());
        while i < n
            invariant
                n == words@.len(),
                n == texts@.len(),
                total == text@.len(),
                views == texts_of(texts@),
                views.flatten_alt() == text@,
                i <= n,
                ranges@.len() == i,
                from == views.take(i as int).flatten_alt().len(),
                ranges_within(ranges@, text@.len()),
                forall|q: int| 0 <= q < i ==> #[trigger] ranges@[q] == spelled_ranges(views)[q],
                forall|q: int| 0 <= q < i ==> #[trigger] ranges@[q].0 <= ranges@[q].1 && ranges@[q].1 <= from,
                forall|a: int, b: int| 0 <= a < b < i ==> #[trigger] ranges@[a].1 <= #[trigger] ranges@[b].0,
            decreases n - i,
        {
            proof {
                lemma_flatten_prefix(views, i + 1);
                assert(views.take(i + 1).drop_last() =~= views.take(i as int));
                assert(views[i as int] == texts@[i as int]@);
                assert(views.take(i + 1).flatten_alt() == views.take(i as int).flatten_alt() + texts@[i as int]@);
            }
            assert(from + texts@[i as int]@.len() <= total);
            let until = from + texts[i].len();
            let ghost before = ranges@;
            ranges.push((from, until));
            proof {
                assert forall|a: int, b: int| 0 <= a < b < i + 1 implies #[trigger] ranges@[a].1 <= #[trigger] ranges@[b].0 by {
                    assert(ranges@[a] == before[a]);
                    assert(before[a].0 <= before[a].1 && before[a].1 <= from);
                    if b < i {
                        assert(ranges@[b] == before[b]);
                    }
                }
            }
            from = until;
            i = i + 1;
        }
        assert(ranges@ =~= spelled_ranges(views));
        assert(meaningful_in_order(flags@, ranges@));
        assert(reach_in_order(flags@, ranges@));
        assert(ranges_in_order(ranges@)) by {
            assert forall|a: int, b: int| #![trigger ranges@[a], ranges@[b]] 0 <= a < b < ranges@.len()
                implies ranges@[a].0 <= ranges@[b].0 && ranges@[a].1 <= ranges@[b].1 by {
                assert(ranges@[a].1 <= ranges@[b].0);
            }
        }
        if !validate_bidirectional_coverage(&flags, &ranges, canonical_slots) {
            return None;
        }
        proof {
            lemma_coverage_overlaps(flags@, ranges@, canonical_slots@);
        }
        return Some(cues_of(words, &ranges));
    }
    let anchors = match anchor_cues(text, &texts, words, canonical_slots, work) {
        Some(anchors) => anchors,
        None => return None,
    };
    proof {
        lemma_anchoring_len(text@, cores_of(words@), canonical_slots@, n as int);
    }
    let mut any = false;
    let mut k: usize = 0;
    while k < n
        invariant
            anchors@.len() == n,
            k <= n,
            any <==> exists|j: int| 0 <= j < k && #[trigger] anchors@[j] is Some,
        decreases n - k,
    {
        if anchors[k].is_some() {
            any = true;
        }
        k = k + 1;
    }
    if !any {
        return None;
    }
    let ranges = match share_gaps(total, &anchors, &flags, canonical_slots) {
        Some(ranges) => ranges,
        None => return None,
    };
    proof {
        let anchor_seq = anchoring(text@, cores_of(words@), canonical_slots@, n as int).0;
        assert(anchors@ == anchor_seq);
        assert(ranges@ =~= Seq::new(anchor_seq.len(), |j: int| owned_range(text@.len() as int, anchor_seq, meaningful_of(words@), canonical_slots@, j)));
        lemma_owned_in_order(total as int, anchors@, flags@, canonical_slots@);
        assert(meaningful_in_order(flags@, ranges@));
        assert(reach_in_order(flags@, ranges@));
    }
    if !validate_bidirectional_coverage(&flags, &ranges, canonical_slots) {
        return None;
    }
    proof {
        lemma_coverage_overlaps(flags@, ranges@, canonical_slots@);
    }
    Some(cues_of(words, &ranges))
}

/// The first token from `s` on at whose start the cue core `core` matches the text (see
/// `prefix_from`), with the length of the match.
pub open spec fn first_anchor(text: Seq<char>, core: Seq<char>, slots: Seq<Slot>, s: int) -> Option<(int, int)>
    decreases slots.len() - s,
{
    if s < 0 || s >= slots.len() {
        None
    } else {
        match prefix_from(core, text, slots[s].at as int, 0, slots[s].at as int, 0) {
            Some(length) => Some((s, length)),
            None => first_anchor(text, core, slots, s + 1),
        }
    }
}

/// The first token from `k` on that starts at or after `end`.
pub open spec fn resume_at(slots: Seq<Slot>, k: int, end: int) -> int
    decreases slots.len() - k,
{
    if k < 0 || k >= slots.len() {
        k
    } else if slots[k].at < end {
        resume_at(slots, k + 1, end)
    } else {
        k
    }
}

/// The cores of the cue texts.
pub open spec fn cores_of(words: Seq<LyricsWord>) -> Seq<Seq<char>> {
    words.map_values(|word: LyricsWord| core_of(word.text@))
}

/// The anchors of the first `w` cues, and the token where the search goes on after them.
/// A cue whose core is not empty is anchored where its core matches the text at the first
/// token from the search position on that allows it; the search then goes on from the
/// first token that starts at or after the end of that match. Other cues get no anchor.
pub open spec fn anchoring(text: Seq<char>, cores: Seq<Seq<char>>, slots: Seq<Slot>, w: int) -> (Seq<Option<(usize, usize)>>, int)
    decreases w,
{
    if w <= 0 {
        (Seq::empty(), 0)
    } else {
        let (before, search) = anchoring(text, cores, slots, w - 1);
        let core = cores[w - 1];
        if core.len() == 0 {
            (before.push(None), search)
        } else {
            match first_anchor(text, core, slots, search) {
                None => (before.push(None), search),
                Some((s, length)) => {
                    let at = slots[s].at as int;
                    (before.push(Some((at as usize, (at + length) as usize))), resume_at(slots, search, at + length))
                },
            }
        }
    }
}

proof fn lemma_first_anchor(text: Seq<char>, core: Seq<char>, slots: Seq<Slot>, s: int)
    requires
        0 <= s,
    ensures
        first_anchor(text, core, slots, s) matches Some((found, length)) ==> s <= found < slots.len()
            && prefix_from(core, text, slots[found].at as int, 0, slots[found].at as int, 0) == Some(length),
    decreases slots.len() - s,
{
    if s < slots.len() {
        lemma_first_anchor(text, core, slots, s + 1);
    }
}

proof fn lemma_resume_at(slots: Seq<Slot>, k: int, end: int)
    requires
        0 <= k <= slots.len(),
    ensures
        k <= resume_at(slots, k, end) <= slots.len(),
    decreases slots.len() - k,
{
    if k < slots.len() {
        lemma_resume_at(slots, k + 1, end);
    }
}

proof fn lemma_prefix_from_bounds(word: Seq<char>, text: Seq<char>, from: int, w: int, t: int, last: int)
    requires
        0 <= from <= t <= text.len(),
        0 <= last <= t - from,
    ensures
        prefix_from(word, text, from, w, t, last) matches Some(length) ==> 0 <= length <= text.len() - from,
    decreases text.len() - t,
{
    if t < text.len() {
        let v = past_ticks(word, w);
        lemma_prefix_from_bounds(word, text, from, v, t + 1, t - from + 1);
        lemma_prefix_from_bounds(word, text, from, v + 1, t + 1, t - from + 1);
    }
}

/// Anchors each cue as `anchoring` says, with one unit of `work` per token tried on top of
/// what `match_prefix` spends; `None` once the budget is spent.
#[verifier::loop_isolation(false)]
/// The work of looking for cue core `core` at the tokens from `s` on (see `first_anchor`):
/// one unit per token tried and one per text character matching looks at, until a token
/// matches.
pub open spec fn scan_steps(text: Seq<char>, core: Seq<char>, slots: Seq<Slot>, s: int) -> nat
    decreases slots.len() - s,
{
    if s < 0 || s >= slots.len() {
        0
    } else {
        let at = slots[s].at as int;
        1 + prefix_steps(core, text, 0, at) + if prefix_from(core, text, at, 0, at, 0) is Some {
            0
        } else {
            scan_steps(text, core, slots, s + 1)
        }
    }
}

/// The work of anchoring the first `w` cue cores (see `anchoring`).
pub open spec fn anchor_steps(text: Seq<char>, cores: Seq<Seq<char>>, slots: Seq<Slot>, w: int) -> nat
    decreases w,
{
    if w <= 0 {
        0
    } else {
        anchor_steps(text, cores, slots, w - 1) + if cores[w - 1].len() == 0 {
            0
        } else {
            scan_steps(text, cores[w - 1], slots, anchoring(text, cores, slots, w - 1).1)
        }
    }
}

proof fn lemma_anchor_steps_grow(text: Seq<char>, cores: Seq<Seq<char>>, slots: Seq<Slot>, v: int, w: int)
    requires
        0 <= v <= w,
    ensures
        anchor_steps(text, cores, slots, v) <= anchor_steps(text, cores, slots, w),
    decreases w - v,
{
    if v < w {
        lemma_anchor_steps_grow(text, cores, slots, v, w - 1);
    }
}

#[verifier::loop_isolation(false)]
fn anchor_cues(text: &Vec<char>, texts: &Vec<Vec<char>>, words: &Vec<LyricsWord>, slots: &Vec<Slot>, work: &mut usize) -> (anchors: Option<Vec<Option<(usize, usize)>>>)
    requires
        texts@.len() == words@.len(),
        forall|i: int| 0 <= i < words@.len() ==> #[trigger] texts@[i]@ == words@[i].text@,
        ordered_within(slots@, text@.len()),
    ensures
        *final(work) >= *old(work),
        anchors matches Some(anchors) ==> anchors@ == anchoring(text@, cores_of(words@), slots@, words@.len() as int).0,
        anchors is None ==> *final(work) >= CELLS,
        anchors is Some ==> *final(work) < CELLS,
        *final(work) <= *old(work) + cue_cost(text@, words@, slots@.len() as int),
        *old(work) + anchor_steps(text@, cores_of(words@), slots@, words@.len() as int) < CELLS
            ==> anchors is Some && *final(work) == *old(work) + anchor_steps(text@, cores_of(words@), slots@, words@.len() as int),
        anchors matches Some(anchors) ==> forall|k: int| 0 <= k < anchors@.len() ==> (#[trigger] anchors@[k] matches Some(r) ==> r.0 <= r.1 && r.1 <= text@.len()),
        anchors is Some ==> *final(work) == *old(work) + anchor_steps(text@, cores_of(words@), slots@, words@.len() as int),
        anchors matches Some(anchors) ==> anchors_in_order(anchors@),
{
    let ghost cores = cores_of(words@);
    let ghost needed = anchor_steps(text@, cores_of(words@), slots@, words@.len() as int);
    let n = words.len();
    let total = text.len();
    let mut anchors: Vec<Option<(usize, usize)>> = Vec::new();
    let mut search_idx: usize = 0;
    let mut w_idx: usize = 0;
    while w_idx < n
        invariant
            n == words@.len(),
            cores == cores_of(words@),
            cores.len() == n,
            total == text@.len(),
            w_idx <= n,
            anchors@.len() == w_idx,
            search_idx <= slots@.len(),
            *work >= *old(work),
            *work < CELLS ==> anchors@ == anchoring(text@, cores, slots@, w_idx as int).0
                && search_idx == anchoring(text@, cores, slots@, w_idx as int).1,
            forall|k: int| 0 <= k < anchors@.len() ==> (#[trigger] anchors@[k] matches Some(r) ==> r.0 <= r.1 && r.1 <= text@.len()),
            needed == anchor_steps(text@, cores, slots@, n as int),
            texts@.len() == words@.len(),
            forall|i: int| 0 <= i < words@.len() ==> #[trigger] texts@[i]@ == words@[i].text@,
            ordered_within(slots@, text@.len()),
            *old(work) + needed < CELLS ==> *work == *old(work) + anchor_steps(text@, cores, slots@, w_idx as int),
            *work < CELLS ==> *work == *old(work) + anchor_steps(text@, cores, slots@, w_idx as int),
            *work <= *old(work) + w_idx * (slots@.len() * (1 + text@.len())),
        decreases n - w_idx,
    {
        proof {
            lemma_anchor_steps_grow(text@, cores, slots@, w_idx as int + 1, n as int);
        }
        let core = trimmed(&texts[w_idx]);
        assert(core@ == cores[w_idx as int]);
        let ghost search_before = search_idx as int;
        let ghost before = anchors@;
        let ghost work_start = *work;
        let mut found: Option<(usize, usize)> = None;
        proof {
            if *old(work) + needed < CELLS && core@.len() > 0 {
                assert(anchoring(text@, cores, slots@, w_idx as int).1 == search_before);
                assert(anchor_steps(text@, cores, slots@, w_idx + 1) == anchor_steps(text@, cores, slots@, w_idx as int)
                    + scan_steps(text@, core@, slots@, search_before));
            }
        }
        if core.len() > 0 {
            let mut s = search_idx;
            while s < slots.len()
                invariant
                    search_idx == search_before,
                    search_before <= s <= slots@.len(),
                    found is None,
                    *work >= work_start,
                    *work >= *old(work),
                    *work < CELLS ==> first_anchor(text@, core@, slots@, search_before) == first_anchor(text@, core@, slots@, s as int),
                    *old(work) + needed < CELLS ==> *work + scan_steps(text@, core@, slots@, s as int) == work_start + scan_steps(text@, core@, slots@, search_before),
                    *old(work) + needed < CELLS ==> work_start + scan_steps(text@, core@, slots@, search_before) <= *old(work) + needed,
                    *work < CELLS ==> *work + scan_steps(text@, core@, slots@, s as int) == work_start + scan_steps(text@, core@, slots@, search_before),
                    *work <= work_start + (s - search_before) * (1 + text@.len()),
                    work_start <= *old(work) + w_idx * (slots@.len() * (1 + text@.len())),
                decreases slots@.len() - s,
            {
                proof {
                    let l = text@.len() as int;
                    assert((s - search_before) * (1 + l) + (1 + l) == (s + 1 - search_before) * (1 + l)) by (nonlinear_arith);
                    assert((s + 1 - search_before) * (1 + l) <= slots@.len() * (1 + l)) by (nonlinear_arith)
                        requires s + 1 <= slots@.len(), search_before >= 0, l >= 0;
                    assert(w_idx * (slots@.len() * (1 + l)) + slots@.len() * (1 + l) == (w_idx + 1) * (slots@.len() * (1 + l))) by (nonlinear_arith);
                    assert((w_idx + 1) * (slots@.len() * (1 + l)) <= n * (slots@.len() * (1 + l))) by (nonlinear_arith)
                        requires w_idx + 1 <= n, l >= 0;
                }
                *work = work.saturating_add(1);
                if *work >= CELLS {
                    return None;
                }
                let start = slots[s].at;
                assert(slots@[s as int].at < slots@[s as int].until);
                let ghost before_match = *work;
                match match_prefix(&core, text, start, work) {
                    Some(length) => {
                        let match_end = start + length;
                        found = Some((start, match_end));
                        proof {
                            lemma_resume_at(slots@, search_before, match_end as int);
                        }
                        while search_idx < slots.len() && slots[search_idx].at < match_end
                            invariant
                                search_before <= search_idx <= slots@.len(),
                                resume_at(slots@, search_idx as int, match_end as int) == resume_at(slots@, search_before, match_end as int),
                            decreases slots@.len() - search_idx,
                        {
                            search_idx = search_idx + 1;
                        }
                        assert(*work <= work_start + slots@.len() * (1 + text@.len()));
                        break;
                    },
                    None => {},
                }
                s = s + 1;
            }
            proof {
                let l = text@.len() as int;
                assert((s - search_before) * (1 + l) <= slots@.len() * (1 + l)) by (nonlinear_arith)
                    requires s <= slots@.len(), search_before >= 0, l >= 0;
            }
            assert(*work <= work_start + slots@.len() * (1 + text@.len()));
        }
        proof {
            let l = text@.len() as int;
            assert(w_idx * (slots@.len() * (1 + l)) + slots@.len() * (1 + l) == (w_idx + 1) * (slots@.len() * (1 + l))) by (nonlinear_arith);
            assert(slots@.len() * (1 + l) >= 0) by (nonlinear_arith)
                requires l >= 0;
        }
        anchors.push(found);
        proof {
            if *work < CELLS {
                let (prior, prior_search) = anchoring(text@, cores, slots@, w_idx as int);
                assert(prior == before);
                assert(prior_search == search_before);
                if core@.len() == 0 {
                    assert(anchors@ =~= before.push(None));
                } else {
                    match first_anchor(text@, core@, slots@, search_before) {
                        None => {
                            assert(anchors@ =~= before.push(None));
                        },
                        Some((at_slot, length)) => {
                            assert(anchors@ =~= before.push(found));
                        },
                    }
                }
            }
        }
        w_idx = w_idx + 1;
    }
    if *work >= CELLS {
        return None;
    }
    proof {
        lemma_anchoring_order(text@, cores, slots@, n as int);
    }
    Some(anchors)
}

/// Where the run of unanchored cues that reaches back from cue `j` begins.
pub open spec fn run_start_of(anchors: Seq<Option<(usize, usize)>>, j: int) -> int
    decreases j,
{
    if j <= 0 {
        0
    } else if anchors[j - 1] is Some {
        j
    } else {
        run_start_of(anchors, j - 1)
    }
}

/// Where the run of unanchored cues from cue `j` on ends.
pub open spec fn run_end_from(anchors: Seq<Option<(usize, usize)>>, j: int) -> int
    decreases anchors.len() - j,
{
    if j < 0 || j >= anchors.len() || anchors[j] is Some {
        j
    } else {
        run_end_from(anchors, j + 1)
    }
}

/// How many of the cues `from..until` are meaningful.
pub open spec fn flag_count(flags: Seq<bool>, from: int, until: int) -> int
    decreases until - from,
{
    if until <= from {
        0
    } else {
        flag_count(flags, from, until - 1) + if flags[until - 1] { 1int } else { 0int }
    }
}

/// Where the gap of a run that begins at cue `start` starts: at the end of the anchor
/// before it, or at the start of the text.
pub open spec fn gap_start(anchors: Seq<Option<(usize, usize)>>, start: int) -> int {
    if start == 0 {
        0
    } else {
        match anchors[start - 1] {
            Some(range) => range.1 as int,
            None => 0,
        }
    }
}

/// Where the gap of a run that ends at cue `end` ends: at the start of the anchor after
/// it, or at the end of the text.
pub open spec fn gap_end(anchors: Seq<Option<(usize, usize)>>, end: int, length: int) -> int {
    if end == anchors.len() {
        length
    } else {
        match anchors[end] {
            Some(range) => range.0 as int,
            None => length,
        }
    }
}

/// Whether the run of unanchored cues that holds cue `j` can share its gap: without
/// meaningful cues it always can; with them it must lie between two anchors and its gap
/// must hold a token for each meaningful cue.
pub open spec fn run_fits(length: int, anchors: Seq<Option<(usize, usize)>>, flags: Seq<bool>, slots: Seq<Slot>, j: int) -> bool {
    let start = run_start_of(anchors, j);
    let end = run_end_from(anchors, j);
    let count = flag_count(flags, start, end);
    count == 0 || (start != 0 && end != anchors.len()
        && available_in(slots, gap_start(anchors, start), gap_end(anchors, end, length)).len() >= count)
}

/// The characters that cue `j` owns: its anchor; for the `m`-th meaningful cue of a run,
/// the `m`-th of as many shares of the run's gap tokens as the run has meaningful cues
/// (see `partition_gap`); nothing for other cues.
pub open spec fn owned_range(length: int, anchors: Seq<Option<(usize, usize)>>, flags: Seq<bool>, slots: Seq<Slot>, j: int) -> (usize, usize) {
    match anchors[j] {
        Some(range) => range,
        None => if flags[j] {
            let start = run_start_of(anchors, j);
            let end = run_end_from(anchors, j);
            let count = flag_count(flags, start, end);
            let chosen = available_in(slots, gap_start(anchors, start), gap_end(anchors, end, length));
            let m = flag_count(flags, start, j);
            (chosen[run_first(m, chosen.len() as int, count)].at, chosen[run_last(m, chosen.len() as int, count)].until)
        } else {
            (0usize, 0usize)
        },
    }
}

proof fn lemma_run_end(anchors: Seq<Option<(usize, usize)>>, j: int, end: int)
    requires
        0 <= j <= end <= anchors.len(),
        end == anchors.len() || anchors[end] is Some,
        forall|k: int| j <= k < end ==> #[trigger] anchors[k] is None,
    ensures
        run_end_from(anchors, j) == end,
    decreases end - j,
{
    if j < end {
        lemma_run_end(anchors, j + 1, end);
    }
}

proof fn lemma_run_start(anchors: Seq<Option<(usize, usize)>>, start: int, j: int)
    requires
        0 <= start <= j <= anchors.len(),
        run_start_of(anchors, start) == start,
        forall|k: int| start <= k < j ==> #[trigger] anchors[k] is None,
    ensures
        run_start_of(anchors, j) == start,
    decreases j - start,
{
    if j > start {
        lemma_run_start(anchors, start, j - 1);
    }
}

proof fn lemma_flag_count_bounds(flags: Seq<bool>, from: int, until: int)
    requires
        from <= until,
    ensures
        0 <= flag_count(flags, from, until) <= until - from,
    decreases until - from,
{
    if until > from {
        lemma_flag_count_bounds(flags, from, until - 1);
    }
}

proof fn lemma_flag_count_monotone(flags: Seq<bool>, from: int, mid: int, until: int)
    requires
        from <= mid <= until,
    ensures
        flag_count(flags, from, mid) <= flag_count(flags, from, until),
        flags.len() >= until && mid < until && flags[mid] ==> flag_count(flags, from, mid) < flag_count(flags, from, until),
    decreases until - mid,
{
    if mid < until {
        lemma_flag_count_monotone(flags, from, mid, until - 1);
    }
}

/// Whether anchors run in order: each anchored range ends no later than the next anchored
/// one starts.
pub open spec fn anchors_in_order(anchors: Seq<Option<(usize, usize)>>) -> bool {
    forall|a: int, b: int| 0 <= a < b < anchors.len() && #[trigger] anchors[a] is Some && #[trigger] anchors[b] is Some
        ==> anchors[a].unwrap().1 <= anchors[b].unwrap().0
}

/// Whether the ranges of meaningful cues run in order without overlap.
pub open spec fn meaningful_in_order(flags: Seq<bool>, ranges: Seq<(usize, usize)>) -> bool {
    forall|a: int, b: int| 0 <= a < b < ranges.len() && #[trigger] flags[a] && #[trigger] flags[b]
        ==> ranges[a].1 <= ranges[b].0
}

proof fn lemma_resume_after(slots: Seq<Slot>, length: nat, k: int, end: int)
    requires
        0 <= k <= slots.len(),
        ordered_within(slots, length),
    ensures
        forall|t: int| resume_at(slots, k, end) <= t < slots.len() ==> #[trigger] slots[t].at >= end,
    decreases slots.len() - k,
{
    if k < slots.len() {
        if slots[k].at < end {
            lemma_resume_after(slots, length, k + 1, end);
        } else {
            assert forall|t: int| k <= t < slots.len() implies #[trigger] slots[t].at >= end by {
                if t > k {
                    assert(slots[k].until <= slots[t].at);
                    assert(slots[k].at < slots[k].until);
                }
            }
        }
    }
}

proof fn lemma_anchoring_order(text: Seq<char>, cores: Seq<Seq<char>>, slots: Seq<Slot>, w: int)
    requires
        0 <= w <= cores.len(),
        ordered_within(slots, text.len()),
        text.len() <= usize::MAX,
    ensures
        0 <= anchoring(text, cores, slots, w).1 <= slots.len(),
        anchoring(text, cores, slots, w).0.len() == w,
        anchors_in_order(anchoring(text, cores, slots, w).0),
        forall|a: int, t: int| #![trigger anchoring(text, cores, slots, w).0[a], slots[t]]
            0 <= a < w && anchoring(text, cores, slots, w).0[a] is Some && anchoring(text, cores, slots, w).1 <= t < slots.len()
            ==> anchoring(text, cores, slots, w).0[a].unwrap().1 <= slots[t].at,
    decreases w,
{
    if w > 0 {
        lemma_anchoring_order(text, cores, slots, w - 1);
        let (before, search) = anchoring(text, cores, slots, w - 1);
        let (after, next) = anchoring(text, cores, slots, w);
        let core = cores[w - 1];
        if core.len() == 0 || first_anchor(text, core, slots, search) is None {
            assert(after =~= before.push(None));
            assert(next == search);
            assert(anchors_in_order(after)) by {
                assert forall|a: int, b: int| 0 <= a < b < after.len() && #[trigger] after[a] is Some && #[trigger] after[b] is Some
                    implies after[a].unwrap().1 <= after[b].unwrap().0 by {
                    assert(after[a] == before[a]);
                    assert(after[b] == before[b]);
                }
            }
            assert forall|a: int, t: int| #![trigger after[a], slots[t]]
                0 <= a < w && after[a] is Some && next <= t < slots.len() implies after[a].unwrap().1 <= slots[t].at by {
                assert(after[a] == before[a]);
            }
        } else {
            let (s, length) = first_anchor(text, core, slots, search).unwrap();
            lemma_first_anchor(text, core, slots, search);
            let at = slots[s].at as int;
            assert(slots[s].at < slots[s].until && slots[s].until <= text.len());
            lemma_prefix_from_bounds(core, text, at, 0, at, 0);
            let end = at + length;
            assert(after =~= before.push(Some((at as usize, end as usize))));
            assert(next == resume_at(slots, search, end));
            lemma_resume_at(slots, search, end);
            lemma_resume_after(slots, text.len(), search, end);
            assert forall|a: int| 0 <= a < w - 1 && #[trigger] before[a] is Some implies before[a].unwrap().1 <= at by {
                assert(before[a].unwrap().1 <= slots[s].at);
            }
            assert(anchors_in_order(after)) by {
                assert forall|a: int, b: int| 0 <= a < b < after.len() && #[trigger] after[a] is Some && #[trigger] after[b] is Some
                    implies after[a].unwrap().1 <= after[b].unwrap().0 by {
                    assert(after[a] == before[a]);
                    if b < w - 1 {
                        assert(after[b] == before[b]);
                    }
                }
            }
            assert forall|a: int, t: int| #![trigger after[a], slots[t]]
                0 <= a < w && after[a] is Some && next <= t < slots.len() implies after[a].unwrap().1 <= slots[t].at by {
                assert(slots[t].at >= end);
                if a < w - 1 {
                    assert(after[a] == before[a]);
                    assert(before[a].unwrap().1 <= slots[t].at);
                }
            }
        }
    } else {
        assert(anchoring(text, cores, slots, 0).0 =~= Seq::<Option<(usize, usize)>>::empty());
    }
}

proof fn lemma_run_start_shape(anchors: Seq<Option<(usize, usize)>>, j: int)
    requires
        0 <= j <= anchors.len(),
    ensures
        0 <= run_start_of(anchors, j) <= j,
        run_start_of(anchors, j) > 0 ==> anchors[run_start_of(anchors, j) - 1] is Some,
        forall|k: int| run_start_of(anchors, j) <= k < j ==> #[trigger] anchors[k] is None,
    decreases j,
{
    if j > 0 && anchors[j - 1] is None {
        lemma_run_start_shape(anchors, j - 1);
    }
}

proof fn lemma_run_end_shape(anchors: Seq<Option<(usize, usize)>>, j: int)
    requires
        0 <= j <= anchors.len(),
    ensures
        j <= run_end_from(anchors, j) <= anchors.len(),
        run_end_from(anchors, j) < anchors.len() ==> anchors[run_end_from(anchors, j)] is Some,
        forall|k: int| j <= k < run_end_from(anchors, j) ==> #[trigger] anchors[k] is None,
    decreases anchors.len() - j,
{
    if j < anchors.len() && anchors[j] is None {
        lemma_run_end_shape(anchors, j + 1);
    }
}

proof fn lemma_runs_apart(m: int, l: int, n: int, count: int)
    requires
        0 <= m < l < count,
        count <= n,
    ensures
        run_last(m, n, count) < run_first(l, n, count),
{
    lemma_run_bounds(m, n, count);
    assert((m + 1) * n / count <= l * n / count) by (nonlinear_arith)
        requires m + 1 <= l, count > 0, n >= 0, m >= 0;
}

/// What the range of an unanchored meaningful cue `j` is bound by: it lies between the
/// anchors around its run, and the token shares of its run are taken in order.
proof fn lemma_owned_unanchored(length: int, anchors: Seq<Option<(usize, usize)>>, flags: Seq<bool>, slots: Seq<Slot>, j: int)
    requires
        flags.len() == anchors.len(),
        tokens_in_order(slots),
        0 <= j < anchors.len(),
        anchors[j] is None,
        flags[j],
        run_fits(length, anchors, flags, slots, j),
    ensures
        0 < run_start_of(anchors, j) <= j < run_end_from(anchors, j) < anchors.len(),
        anchors[run_start_of(anchors, j) - 1] is Some,
        anchors[run_end_from(anchors, j)] is Some,
        forall|k: int| run_start_of(anchors, j) <= k < run_end_from(anchors, j) ==> #[trigger] anchors[k] is None,
        anchors[run_start_of(anchors, j) - 1].unwrap().1 <= owned_range(length, anchors, flags, slots, j).0,
        owned_range(length, anchors, flags, slots, j).1 <= anchors[run_end_from(anchors, j)].unwrap().0,
{
    lemma_run_start_shape(anchors, j);
    lemma_run_end_shape(anchors, j);
    let start = run_start_of(anchors, j);
    let end = run_end_from(anchors, j);
    assert(end > j);
    lemma_flag_count_bounds(flags, start, j);
    lemma_flag_count_monotone(flags, start, j, end);
    let count = flag_count(flags, start, end);
    let m = flag_count(flags, start, j);
    assert(count > 0);
    let chosen = available_in(slots, gap_start(anchors, start), gap_end(anchors, end, length));
    lemma_filter_in_order(slots, inside_gap(gap_start(anchors, start), gap_end(anchors, end, length)));
    lemma_run_bounds(m, chosen.len() as int, count);
    let first = run_first(m, chosen.len() as int, count);
    let last = run_last(m, chosen.len() as int, count);
    assert(inside_gap(gap_start(anchors, start), gap_end(anchors, end, length))(chosen[first]));
    assert(inside_gap(gap_start(anchors, start), gap_end(anchors, end, length))(chosen[last]));
}

proof fn lemma_owned_same_run(length: int, anchors: Seq<Option<(usize, usize)>>, flags: Seq<bool>, slots: Seq<Slot>, a: int, b: int)
    requires
        flags.len() == anchors.len(),
        tokens_in_order(slots),
        0 <= a < b < anchors.len(),
        anchors[a] is None,
        anchors[b] is None,
        flags[a],
        flags[b],
        b < run_end_from(anchors, a),
        run_fits(length, anchors, flags, slots, a),
    ensures
        owned_range(length, anchors, flags, slots, a).1 <= owned_range(length, anchors, flags, slots, b).0,
{
    lemma_owned_unanchored(length, anchors, flags, slots, a);
    let start = run_start_of(anchors, a);
    let end = run_end_from(anchors, a);
    assert(run_start_of(anchors, start) == start) by {
        assert(anchors[start - 1] is Some);
    }
    lemma_run_start(anchors, start, b);
    lemma_run_end(anchors, b, end);
    lemma_flag_count_bounds(flags, start, a);
    lemma_flag_count_monotone(flags, start, a, b);
    lemma_flag_count_monotone(flags, start, b, end);
    let count = flag_count(flags, start, end);
    let ma = flag_count(flags, start, a);
    let mb = flag_count(flags, start, b);
    let chosen = available_in(slots, gap_start(anchors, start), gap_end(anchors, end, length));
    lemma_filter_in_order(slots, inside_gap(gap_start(anchors, start), gap_end(anchors, end, length)));
    let n = chosen.len() as int;
    lemma_runs_apart(ma, mb, n, count);
    lemma_run_bounds(ma, n, count);
    lemma_run_bounds(mb, n, count);
    let x = run_last(ma, n, count);
    let y = run_first(mb, n, count);
    assert(chosen[x].until <= chosen[y].at);
}

/// The ranges that unanchored meaningful cues get from their gaps (see `owned_range`) run
/// in order with the anchors and with each other, so all meaningful cues' ranges run in
/// order without overlap, and no anchor or meaningful range ends after a later meaningful
/// one starts.
proof fn lemma_owned_in_order(length: int, anchors: Seq<Option<(usize, usize)>>, flags: Seq<bool>, slots: Seq<Slot>)
    requires
        flags.len() == anchors.len(),
        tokens_in_order(slots),
        anchors_in_order(anchors),
        forall|k: int| 0 <= k < anchors.len() ==> (#[trigger] anchors[k] matches Some(r) ==> r.0 <= r.1),
        forall|j: int| 0 <= j < anchors.len() && #[trigger] anchors[j] is None ==> run_fits(length, anchors, flags, slots, j),
    ensures
        meaningful_in_order(flags, Seq::new(anchors.len(), |j: int| owned_range(length, anchors, flags, slots, j))),
        reach_in_order(flags, Seq::new(anchors.len(), |j: int| owned_range(length, anchors, flags, slots, j))),
{
    let ranges = Seq::new(anchors.len(), |j: int| owned_range(length, anchors, flags, slots, j));
    assert forall|a: int, b: int| 0 <= a < b < ranges.len() && (anchors[a] is Some || flags[a]) && #[trigger] flags[b]
        implies #[trigger] ranges[a].1 <= ranges[b].0 by {
        if anchors[a] is Some && anchors[b] is Some {
        } else if anchors[a] is Some {
            lemma_owned_unanchored(length, anchors, flags, slots, b);
            let p = run_start_of(anchors, b) - 1;
            assert(a <= p);
            if a < p {
                assert(anchors[p] matches Some(r) ==> r.0 <= r.1);
            }
        } else if anchors[b] is Some {
            lemma_owned_unanchored(length, anchors, flags, slots, a);
            let q = run_end_from(anchors, a);
            assert(q <= b);
            if q < b {
                assert(anchors[q] matches Some(r) ==> r.0 <= r.1);
            }
        } else {
            lemma_owned_unanchored(length, anchors, flags, slots, a);
            lemma_owned_unanchored(length, anchors, flags, slots, b);
            let q = run_end_from(anchors, a);
            if b < q {
                lemma_owned_same_run(length, anchors, flags, slots, a, b);
            } else {
                let p = run_start_of(anchors, b) - 1;
                assert(q <= p);
                assert(anchors[q] matches Some(r) ==> r.0 <= r.1);
                if q < p {
                    assert(anchors[p] matches Some(r) ==> r.0 <= r.1);
                }
            }
        }
    }
    assert forall|a: int, b: int| 0 <= a < b < ranges.len() && #[trigger] flags[a] && #[trigger] flags[b]
        implies ranges[a].1 <= ranges[b].0 by {
        assert(ranges[a].1 <= ranges[b].0);
    }
    assert forall|a: int, b: int| 0 <= a < b < ranges.len() && #[trigger] flags[b] && #[trigger] ranges[a].1 > 0
        implies ranges[a].1 <= ranges[b].0 by {
        if anchors[a] is None && !flags[a] {
            assert(ranges[a] == (0usize, 0usize));
        }
        assert(ranges[a].1 <= ranges[b].0);
    }
}

/// Shares the gaps between anchors among the unanchored meaningful cues: each cue gets
/// `owned_range`; `None` when a run does not fit (see `run_fits`).
#[verifier::loop_isolation(false)]
#[verifier::rlimit(80)]
#[verifier::spinoff_prover]
fn share_gaps(length: usize, anchors: &Vec<Option<(usize, usize)>>, flags: &Vec<bool>, slots: &Vec<Slot>) -> (ranges: Option<Vec<(usize, usize)>>)
    requires
        flags@.len() == anchors@.len(),
        ordered_within(slots@, length as nat),
        forall|k: int| 0 <= k < anchors@.len() ==> (#[trigger] anchors@[k] matches Some(r) ==> r.0 <= r.1 && r.1 <= length),
    ensures
        ranges is Some <==> forall|j: int| 0 <= j < anchors@.len() && #[trigger] anchors@[j] is None
            ==> run_fits(length as int, anchors@, flags@, slots@, j),
        ranges matches Some(ranges) ==> ranges@.len() == anchors@.len() && forall|j: int| 0 <= j < ranges@.len()
            ==> #[trigger] ranges@[j] == owned_range(length as int, anchors@, flags@, slots@, j),
        ranges matches Some(ranges) ==> ranges_within(ranges@, length as nat),
{
    let n = anchors.len();
    let mut ranges: Vec<(usize, usize)> = Vec::new();
    let mut k: usize = 0;
    while k < n
        invariant
            k <= n,
            ranges@.len() == k,
            forall|q: int| 0 <= q < k ==> #[trigger] ranges@[q] == (0usize, 0usize),
        decreases n - k,
    {
        ranges.push((0, 0));
        k = k + 1;
    }
    assert(ranges_within(ranges@, length as nat));
    let mut i: usize = 0;
    while i < n
        invariant
            n == anchors@.len(),
            i <= n,
            ranges@.len() == n,
            i == n || anchors@[i as int] is Some || run_start_of(anchors@, i as int) == i,
            forall|j: int| 0 <= j < i ==> #[trigger] ranges@[j] == owned_range(length as int, anchors@, flags@, slots@, j),
            forall|j: int| i <= j < n ==> #[trigger] ranges@[j] == (0usize, 0usize),
            forall|j: int| 0 <= j < i && #[trigger] anchors@[j] is None ==> run_fits(length as int, anchors@, flags@, slots@, j),
            ranges_within(ranges@, length as nat),
        decreases n - i,
    {
        match anchors[i] {
            Some(range) => {
                ranges.set(i, range);
                i = i + 1;
                proof {
                    if i < n && anchors@[i as int] is None {
                        assert(run_start_of(anchors@, i as int) == i);
                    }
                }
            },
            None => {
                let run_start = i;
                while i < n && anchors[i].is_none()
                    invariant
                        run_start <= i <= n,
                        forall|q: int| run_start <= q < i ==> #[trigger] anchors@[q] is None,
                    decreases n - i,
                {
                    i = i + 1;
                }
                let run_end = i;
                proof {
                    assert forall|j: int| run_start <= j < run_end implies run_start_of(anchors@, j) == run_start
                        && run_end_from(anchors@, j) == run_end by {
                        lemma_run_start(anchors@, run_start as int, j);
                        lemma_run_end(anchors@, j, run_end as int);
                    }
                }
                let gap_from = if run_start == 0 {
                    0
                } else {
                    match anchors[run_start - 1] {
                        Some(range) => range.1,
                        None => 0,
                    }
                };
                let gap_until = if run_end == n {
                    length
                } else {
                    match anchors[run_end] {
                        Some(range) => range.0,
                        None => length,
                    }
                };
                assert(gap_until <= length);
                let mut meaningful: Vec<usize> = Vec::new();
                let mut j = run_start;
                while j < run_end
                    invariant
                        run_start <= j <= run_end <= n,
                        meaningful@.len() == flag_count(flags@, run_start as int, j as int),
                        forall|q: int| 0 <= q < meaningful@.len() ==> run_start <= #[trigger] meaningful@[q] < j
                            && flags@[meaningful@[q] as int]
                            && flag_count(flags@, run_start as int, meaningful@[q] as int) == q,
                        forall|x: int| run_start <= x < j && flags@[x] ==> #[trigger] meaningful@[flag_count(flags@, run_start as int, x)] == x,
                    decreases run_end - j,
                {
                    proof {
                        lemma_flag_count_bounds(flags@, run_start as int, j as int);
                        assert forall|x: int| run_start <= x < j && flags@[x] implies flag_count(flags@, run_start as int, x) < meaningful@.len() by {
                            lemma_flag_count_monotone(flags@, run_start as int, x, j as int);
                        }
                    }
                    let ghost old_m = meaningful@;
                    if flags[j] {
                        meaningful.push(j);
                    }
                    proof {
                        assert forall|x: int| run_start <= x < j + 1 && flags@[x] implies #[trigger] meaningful@[flag_count(flags@, run_start as int, x)] == x by {
                            if x < j {
                                lemma_flag_count_monotone(flags@, run_start as int, x, j as int);
                                lemma_flag_count_bounds(flags@, run_start as int, x);
                                assert(old_m.len() == flag_count(flags@, run_start as int, j as int));
                                assert(flag_count(flags@, run_start as int, x) < old_m.len());
                                assert(meaningful@[flag_count(flags@, run_start as int, x)] == old_m[flag_count(flags@, run_start as int, x)]);
                            }
                        }
                    }
                    j = j + 1;
                }
                let count = meaningful.len();
                if count > 0 && (run_start == 0 || run_end == n) {
                    assert(!run_fits(length as int, anchors@, flags@, slots@, run_start as int));
                    return None;
                }
                let partitioned = match partition_gap(gap_from, gap_until, count, slots) {
                    Some(partitioned) => partitioned,
                    None => {
                        assert(!run_fits(length as int, anchors@, flags@, slots@, run_start as int));
                        return None;
                    },
                };
                proof {
                    assert forall|j: int| run_start <= j < run_end implies run_fits(length as int, anchors@, flags@, slots@, j) by {}
                }
                let ghost before = ranges@;
                assert forall|q: int| 0 <= q < partitioned@.len() implies #[trigger] partitioned@[q].0 <= partitioned@[q].1 && partitioned@[q].1 <= gap_until by {
                    assert(partitioned@[q].0 <= partitioned@[q].1);
                    assert(gap_from <= partitioned@[q].0 && partitioned@[q].1 <= gap_until);
                }
                proof {
                    assert forall|j: int| run_start <= j < run_end implies flag_count(flags@, run_start as int, j) >= 0 by {
                        lemma_flag_count_bounds(flags@, run_start as int, j);
                    }
                }
                let mut m: usize = 0;
                while m < count
                    invariant
                        count == meaningful@.len(),
                        partitioned@.len() == count,
                        ranges@.len() == n,
                        0 <= m <= count,
                        forall|j: int| 0 <= j < n && !(run_start <= j < run_end && flags@[j] && flag_count(flags@, run_start as int, j) < m)
                            ==> #[trigger] ranges@[j] == before[j],
                        forall|j: int| run_start <= j < run_end && flags@[j] && flag_count(flags@, run_start as int, j) < m
                            ==> #[trigger] ranges@[j] == partitioned@[flag_count(flags@, run_start as int, j)],
                        ranges_within(ranges@, length as nat),
                        gap_until <= length,
                        forall|q: int| 0 <= q < partitioned@.len() ==> #[trigger] partitioned@[q].0 <= partitioned@[q].1 && partitioned@[q].1 <= gap_until,
                    decreases count - m,
                {
                    let target = meaningful[m];
                    ranges.set(target, partitioned[m]);
                    m = m + 1;
                }
                proof {
                    assert forall|j: int| 0 <= j < run_end implies #[trigger] ranges@[j] == owned_range(length as int, anchors@, flags@, slots@, j) by {
                        if run_start <= j && flags@[j] {
                            lemma_flag_count_monotone(flags@, run_start as int, j, run_end as int);
                        }
                    }
                }
            },
        }
    }
    Some(ranges)
}

/// Whether the characters `from..until` of `text` are all white space.
fn blank_between(text: &Vec<char>, from: usize, until: usize) -> (blank: bool)
    requires
        from <= until <= text@.len(),
    ensures
        blank == all_white(text@.subrange(from as int, until as int)),
{
    let mut k = from;
    while k < until
        invariant
            from <= k <= until <= text@.len(),
            forall|j: int| from <= j < k ==> white_space(#[trigger] text@[j]),
        decreases until - k,
    {
        if !is_white_space(text[k]) {
            assert(!white_space(text@.subrange(from as int, until as int)[k - from]));
            return false;
        }
        k = k + 1;
    }
    assert forall|j: int| 0 <= j < until - from implies white_space(#[trigger] text@.subrange(from as int, until as int)[j]) by {
        assert(white_space(text@[from + j]));
    }
    true
}

/// `start + (end - start) * offset / total`: the time a fraction `offset / total` of the
/// way through `start..end`.
pub open spec fn between(start: u64, end: u64, offset: nat, total: nat) -> u64 {
    (start + ((end - start) * (offset as int)) / (total as int)) as u64
}

/// Later fractions give later times.
pub proof fn lemma_between_monotone(start: u64, end: u64, a: nat, b: nat, total: nat)
    requires
        start <= end,
        a <= b <= total,
        total > 0,
    ensures
        start <= between(start, end, a, total) <= between(start, end, b, total) <= end,
{
    let s = end - start;
    assert(s * (a as int) <= s * (b as int)) by (nonlinear_arith)
        requires s >= 0, a <= b;
    assert((s * (a as int)) / (total as int) <= (s * (b as int)) / (total as int)) by (nonlinear_arith)
        requires s * (a as int) <= s * (b as int), total > 0;
    assert(s * (b as int) <= s * (total as int)) by (nonlinear_arith)
        requires s >= 0, b <= total;
    assert((s * (b as int)) / (total as int) <= s) by (nonlinear_arith)
        requires s * (b as int) <= s * (total as int), total > 0, s >= 0;
    assert((s * (a as int)) / (total as int) >= 0) by (nonlinear_arith)
        requires s >= 0, a >= 0, total > 0;
}

/// Decides `between`: the instant a fraction `offset / total` of the way through
/// `start..end`, rounded down.
pub fn interpolate(start: u64, end: u64, offset: usize, total: usize) -> (at: u64)
    requires
        start <= end,
        offset <= total,
        total > 0,
    ensures
        at == between(start, end, offset as nat, total as nat),
        start <= at <= end,
{
    let span = (end - start) as u128;
    proof {
        let s = span as int;
        let o = offset as int;
        let t = total as int;
        assert(s * o <= s * t) by (nonlinear_arith)
            requires o <= t, s >= 0;
        assert(s * t <= 0xffff_ffff_ffff_ffff * 0xffff_ffff_ffff_ffff) by (nonlinear_arith)
            requires 0 <= s <= 0xffff_ffff_ffff_ffff, 0 <= t <= 0xffff_ffff_ffff_ffff;
        assert((s * o) / t <= s) by (nonlinear_arith)
            requires o <= t, t > 0, s >= 0, o >= 0;
        assert((s * o) / t >= 0) by (nonlinear_arith)
            requires t > 0, s >= 0, o >= 0;
    }
    let part = (span * (offset as u128)) / (total as u128);
    (start as u128 + part) as u64
}

/// The tokens of `text` timed by provider cues, with a fresh work budget and the full
/// token limit. Where the cue texts spell the text, no budget is spent and the result is
/// `None` exactly when the text is too long or the cues leave a token untimed.
pub fn timed(text: &str, words: &Vec<LyricsWord>) -> (sung: Option<Vec<Sung>>)
    ensures
        spec_tokens(text@).len() > LIMIT ==> sung is None,
        words@.len() == 0 || text@.len() == 0 ==> sung is None,
        sung matches Some(sung) ==> {
            &&& sung@.len() == spec_tokens(text@).len()
            &&& forall|i: int| 0 <= i < sung@.len() ==> {
                &&& (#[trigger] sung@[i]).key@ == spec_tokens(text@)[i].key
                &&& sung@[i].start <= sung@[i].end
                &&& sung@[i].timing == Timing::Provider
            }
            &&& exists|slots: Seq<Slot>| #[trigger] slot_views(slots) == spec_tokens(text@) && ordered_within(slots, text@.len())
                && timed_as_cued(text@, words@, slots, sung@)
        },
        sung is None && words@.len() > 0 && text@.len() > 0 && spec_tokens(text@).len() <= LIMIT
            ==> exists|slots: Seq<Slot>| #[trigger] slot_views(slots) == spec_tokens(text@) && ordered_within(slots, text@.len())
                && (untimed(text@, words@, slots) || map_steps(text@, words@, slots) >= CELLS),
{
    let mut work: usize = 0;
    timed_with_limit(text, words, LIMIT, &mut work)
}

/// The tokens of `text` timed by provider cues: `None` when the text has more than `limit`
/// tokens, or as `timed_with_limit_and_slots` decides.
pub fn timed_with_limit(text: &str, words: &Vec<LyricsWord>, limit: usize, work: &mut usize) -> (sung: Option<Vec<Sung>>)
    ensures
        *final(work) >= *old(work),
        spec_tokens(text@).len() > limit ==> sung is None,
        words@.len() == 0 || text@.len() == 0 ==> sung is None,
        sung matches Some(sung) ==> {
            &&& sung@.len() == spec_tokens(text@).len()
            &&& forall|i: int| 0 <= i < sung@.len() ==> {
                &&& (#[trigger] sung@[i]).key@ == spec_tokens(text@)[i].key
                &&& sung@[i].start <= sung@[i].end
                &&& sung@[i].timing == Timing::Provider
            }
            &&& exists|slots: Seq<Slot>| #[trigger] slot_views(slots) == spec_tokens(text@) && ordered_within(slots, text@.len())
                && timed_as_cued(text@, words@, slots, sung@)
        },
        sung is None && words@.len() > 0 && text@.len() > 0 && spec_tokens(text@).len() <= limit && *final(work) < CELLS
            ==> exists|slots: Seq<Slot>| #[trigger] slot_views(slots) == spec_tokens(text@) && ordered_within(slots, text@.len())
                && untimed(text@, words@, slots),
        sung is None && words@.len() > 0 && text@.len() > 0 && spec_tokens(text@).len() <= limit
            ==> exists|slots: Seq<Slot>| #[trigger] slot_views(slots) == spec_tokens(text@) && ordered_within(slots, text@.len())
                && (untimed(text@, words@, slots) || *old(work) + map_steps(text@, words@, slots) >= CELLS),
        cues_spell(text@, words@) ==> *final(work) == *old(work),
{
    let slots = match bounded_tokens_to(text, limit) {
        Some(slots) => slots,
        None => return None,
    };
    let letters = chars_of(text);
    let length = text.as_bytes().len();
    proof {
        lemma_encoded_len(text@);
    }
    let sung = timed_with_limit_and_slots(&letters, words, &slots, work);
    proof {
        assert(slot_views(slots@).len() == slots@.len());
        if sung is Some {
            let found = sung.unwrap();
            assert forall|i: int| 0 <= i < found@.len() implies (#[trigger] found@[i]).key@ == spec_tokens(text@)[i].key by {
                assert(slot_views(slots@)[i] == slots@[i].view());
            }
        }
    }
    sung
}

/// The first cue from `c` on that ends after `at`.
pub open spec fn cues_after(cues: Seq<Cue>, c: int, at: int) -> int
    decreases cues.len() - c,
{
    if c < 0 || c >= cues.len() {
        c
    } else if cues[c].until <= at {
        cues_after(cues, c + 1, at)
    } else {
        c
    }
}

/// The cue where the look for token `index` begins: past every cue that ends before the
/// token starts, carrying on from where the look for the token before it began.
pub open spec fn cue_cursor(cues: Seq<Cue>, slots: Seq<Slot>, index: int) -> int
    decreases index + 1,
{
    if index < 0 {
        0
    } else {
        cues_after(cues, cue_cursor(cues, slots, index - 1), slots[index].at as int)
    }
}

/// The first cue from `c` on that starts at or after `until`.
pub open spec fn scan_end(cues: Seq<Cue>, c: int, until: int) -> int
    decreases cues.len() - c,
{
    if c < 0 || c >= cues.len() || cues[c].from >= until {
        c
    } else {
        scan_end(cues, c + 1, until)
    }
}

/// The first cue among `k..end` that ends after `at`.
pub open spec fn first_overlap(cues: Seq<Cue>, k: int, end: int, at: int) -> Option<int>
    decreases end - k,
{
    if k >= end {
        None
    } else if cues[k].until > at {
        Some(k)
    } else {
        first_overlap(cues, k + 1, end, at)
    }
}

/// The last cue among `from..k` that ends after `at`.
pub open spec fn last_overlap(cues: Seq<Cue>, from: int, k: int, at: int) -> Option<int>
    decreases k - from,
{
    if k <= from {
        None
    } else if cues[k - 1].until > at {
        Some(k - 1)
    } else {
        last_overlap(cues, from, k - 1, at)
    }
}

/// When a token that starts at `at` starts within the first cue it overlaps: that cue's
/// start, unless the token starts inside the cue after more than white space, where the
/// time is interpolated by UTF-8 bytes.
pub open spec fn head_start(text: Seq<char>, head: Cue, at: int) -> u64 {
    if at <= head.from || head.from == head.until || all_white(text.subrange(head.from as int, at)) {
        head.start
    } else {
        between(
            head.start,
            head.end,
            utf8_len(text.subrange(head.from as int, at)),
            utf8_len(text.subrange(head.from as int, head.until as int)),
        )
    }
}

/// When a token that ends at `until` ends within the last cue it overlaps: that cue's end,
/// unless more than white space of the cue follows the token, where the time is
/// interpolated by UTF-8 bytes.
pub open spec fn tail_end(text: Seq<char>, tail: Cue, until: int) -> u64 {
    if until >= tail.until || tail.from == tail.until || all_white(text.subrange(until, tail.until as int)) {
        tail.end
    } else {
        between(
            tail.start,
            tail.end,
            utf8_len(text.subrange(tail.from as int, until)),
            utf8_len(text.subrange(tail.from as int, tail.until as int)),
        )
    }
}

/// `start`, made earlier by every cue among `from..k` that overlaps the token and starts
/// within it.
pub open spec fn earliest_start(cues: Seq<Cue>, from: int, k: int, at: int, start: u64) -> u64
    decreases k - from,
{
    if k <= from {
        start
    } else {
        let before = earliest_start(cues, from, k - 1, at, start);
        let cue = cues[k - 1];
        if cue.until > at && at <= cue.from && cue.start < before { cue.start } else { before }
    }
}

/// `end`, made later by every cue among `from..k` that overlaps the token and ends within
/// it.
pub open spec fn latest_end(cues: Seq<Cue>, from: int, k: int, at: int, until: int, end: u64) -> u64
    decreases k - from,
{
    if k <= from {
        end
    } else {
        let before = latest_end(cues, from, k - 1, at, until, end);
        let cue = cues[k - 1];
        if cue.until > at && until >= cue.until && cue.end > before { cue.end } else { before }
    }
}

/// The time of a token from the cues it overlaps, looking from cue `c` on among the cues
/// that start before the token ends: it starts as `head_start` of the first and ends as
/// `tail_end` of the last, widened to every overlapping cue that lies within the token, and
/// never ends before it starts. `None` when no cue overlaps it.
pub open spec fn slot_timing(text: Seq<char>, cues: Seq<Cue>, slot: Slot, c: int) -> Option<(u64, u64)> {
    let at = slot.at as int;
    let until = slot.until as int;
    let stop = scan_end(cues, c, until);
    match (first_overlap(cues, c, stop, at), last_overlap(cues, c, stop, at)) {
        (Some(first), Some(last)) => {
            let start = earliest_start(cues, c, stop, at, head_start(text, cues[first], at));
            let end = latest_end(cues, c, stop, at, until, tail_end(text, cues[last], until));
            Some((start, if end >= start { end } else { start }))
        },
        _ => None,
    }
}

proof fn lemma_cues_after(cues: Seq<Cue>, c: int, at: int)
    requires
        0 <= c <= cues.len(),
    ensures
        c <= cues_after(cues, c, at) <= cues.len(),
    decreases cues.len() - c,
{
    if c < cues.len() {
        lemma_cues_after(cues, c + 1, at);
    }
}

proof fn lemma_cue_cursor(cues: Seq<Cue>, slots: Seq<Slot>, index: int)
    requires
        index < slots.len(),
    ensures
        0 <= cue_cursor(cues, slots, index) <= cues.len(),
    decreases index + 1,
{
    if index >= 0 {
        lemma_cue_cursor(cues, slots, index - 1);
        lemma_cues_after(cues, cue_cursor(cues, slots, index - 1), slots[index].at as int);
    }
}

proof fn lemma_scan_end(cues: Seq<Cue>, c: int, until: int)
    requires
        0 <= c <= cues.len(),
    ensures
        c <= scan_end(cues, c, until) <= cues.len(),
    decreases cues.len() - c,
{
    if c < cues.len() {
        lemma_scan_end(cues, c + 1, until);
    }
}

proof fn lemma_scan_within(cues: Seq<Cue>, c: int, until: int, k: int)
    requires
        0 <= c <= k < scan_end(cues, c, until),
    ensures
        cues[k].from < until,
    decreases k - c,
{
    if c < k {
        lemma_scan_within(cues, c + 1, until, k);
    }
}

proof fn lemma_first_overlap(cues: Seq<Cue>, k: int, end: int, at: int)
    requires
        0 <= k,
    ensures
        first_overlap(cues, k, end, at) matches Some(f) ==> k <= f < end && cues[f].until > at,
    decreases end - k,
{
    if k < end {
        lemma_first_overlap(cues, k + 1, end, at);
    }
}

proof fn lemma_overlaps_agree(cues: Seq<Cue>, from: int, k: int, at: int)
    requires
        0 <= from <= k,
    ensures
        first_overlap(cues, from, k, at) is Some <==> last_overlap(cues, from, k, at) is Some,
        last_overlap(cues, from, k, at) matches Some(l) ==> from <= l < k && cues[l].until > at,
    decreases k - from,
{
    if k > from {
        lemma_overlaps_agree(cues, from, k - 1, at);
        lemma_first_overlap_extend(cues, from, k - 1, at);
    }
}

proof fn lemma_first_overlap_extend(cues: Seq<Cue>, from: int, k: int, at: int)
    requires
        0 <= from <= k,
    ensures
        first_overlap(cues, from, k + 1, at) == (match first_overlap(cues, from, k, at) {
            Some(f) => Some(f),
            None => if cues[k].until > at { Some(k) } else { None },
        }),
    decreases k - from,
{
    if from < k {
        lemma_first_overlap_extend(cues, from + 1, k, at);
    } else {
        assert(first_overlap(cues, from, k, at) is None);
        assert(first_overlap(cues, k + 1, k + 1, at) is None);
    }
}

proof fn lemma_utf8_span_within(text: Seq<char>, from: int, at: int, until: int)
    requires
        0 <= from < at <= until <= text.len(),
    ensures
        utf8_len(text.subrange(from, at)) <= utf8_len(text.subrange(from, until)),
        utf8_len(text.subrange(from, until)) > 0,
{
    lemma_utf8_len_concat(text.subrange(from, at), text.subrange(at, until));
    assert(text.subrange(from, at) + text.subrange(at, until) =~= text.subrange(from, until));
    let first = text.subrange(from, from + 1);
    lemma_utf8_len_concat(first, text.subrange(from + 1, until));
    assert(first + text.subrange(from + 1, until) =~= text.subrange(from, until));
    assert(first.drop_last() =~= Seq::<char>::empty());
}

/// Times each token from the cues that own the text, as `slot_timing` says for the token
/// at its cue cursor (see `cue_cursor`); `None` when some token overlaps no cue.
#[verifier::loop_isolation(false)]
pub fn time_slots(text: &Vec<char>, cues: &Vec<Cue>, slots: &Vec<Slot>) -> (sung: Option<Vec<Sung>>)
    requires
        ordered_within(slots@, text@.len()),
        utf8_len(text@) <= usize::MAX,
        forall|i: int| 0 <= i < cues@.len() ==> #[trigger] cues@[i].from <= cues@[i].until && cues@[i].until <= text@.len(),
        forall|i: int| 0 <= i < cues@.len() ==> #[trigger] cues@[i].start <= cues@[i].end,
    ensures
        sung is Some <==> forall|i: int| 0 <= i < slots@.len() ==> #[trigger] slot_timing(text@, cues@, slots@[i], cue_cursor(cues@, slots@, i)) is Some,
        sung matches Some(sung) ==> {
            &&& sung@.len() == slots@.len()
            &&& forall|i: int| 0 <= i < sung@.len() ==> {
                &&& slot_timing(text@, cues@, slots@[i], cue_cursor(cues@, slots@, i)) == Some(((#[trigger] sung@[i]).start, sung@[i].end))
                &&& sung@[i].key@ == slots@[i].key@
                &&& sung@[i].start <= sung@[i].end
                &&& sung@[i].timing == Timing::Provider
                &&& sung@[i].source_line == 0
            }
        },
{
    let mut sung: Vec<Sung> = Vec::new();
    let mut cursor: usize = 0;
    let mut index: usize = 0;
    while index < slots.len()
        invariant
            index <= slots@.len(),
            cursor <= cues@.len(),
            index > 0 ==> cursor == cue_cursor(cues@, slots@, index - 1),
            index == 0 ==> cursor == 0,
            sung@.len() == index,
            forall|i: int| 0 <= i < index ==> #[trigger] slot_timing(text@, cues@, slots@[i], cue_cursor(cues@, slots@, i)) is Some,
            forall|i: int| 0 <= i < index ==> {
                &&& slot_timing(text@, cues@, slots@[i], cue_cursor(cues@, slots@, i)) == Some(((#[trigger] sung@[i]).start, sung@[i].end))
                &&& sung@[i].key@ == slots@[i].key@
                &&& sung@[i].start <= sung@[i].end
                &&& sung@[i].timing == Timing::Provider
                &&& sung@[i].source_line == 0
            },
        decreases slots@.len() - index,
    {
        let slot = &slots[index];
        let at = slot.at;
        let until = slot.until;
        assert(at < until && until <= text@.len());
        let ghost begin = cursor as int;
        proof {
            lemma_cues_after(cues@, begin, at as int);
        }
        while cursor < cues.len() && cues[cursor].until <= at
            invariant
                begin <= cursor <= cues@.len(),
                cues_after(cues@, cursor as int, at as int) == cues_after(cues@, begin, at as int),
            decreases cues@.len() - cursor,
        {
            cursor = cursor + 1;
        }
        proof {
            assert(cues_after(cues@, cursor as int, at as int) == cursor as int);
            assert(begin == cue_cursor(cues@, slots@, index - 1));
            assert(cue_cursor(cues@, slots@, index as int) == cues_after(cues@, cue_cursor(cues@, slots@, index - 1), slots@[index as int].at as int));
        }
        assert(cursor == cue_cursor(cues@, slots@, index as int));
        let ghost c = cursor as int;
        let ghost stop = scan_end(cues@, c, until as int);
        proof {
            lemma_scan_end(cues@, c, until as int);
        }
        let mut first: Option<usize> = None;
        let mut last: usize = 0;
        let mut k = cursor;
        while k < cues.len() && cues[k].from < until
            invariant
                c <= k <= stop,
                scan_end(cues@, k as int, until as int) == stop,
                first == (match first_overlap(cues@, c, k as int, at as int) { Some(f) => Some(f as usize), None => None }),
                first is Some ==> last_overlap(cues@, c, k as int, at as int) == Some(last as int),
            decreases cues@.len() - k,
        {
            proof {
                lemma_first_overlap_extend(cues@, c, k as int, at as int);
                lemma_overlaps_agree(cues@, c, k as int, at as int);
                lemma_scan_end(cues@, k + 1, until as int);
            }
            if cues[k].until > at {
                if first.is_none() {
                    first = Some(k);
                }
                last = k;
            }
            k = k + 1;
        }
        assert(k == stop);
        proof {
            lemma_overlaps_agree(cues@, c, stop, at as int);
            lemma_first_overlap(cues@, c, stop, at as int);
        }
        let first = match first {
            Some(first) => first,
            None => {
                assert(slot_timing(text@, cues@, slots@[index as int], cue_cursor(cues@, slots@, index as int)) is None);
                return None;
            },
        };
        proof {
            lemma_scan_within(cues@, c, until as int, last as int);
        }
        let head = cues[first];
        let tail = cues[last];
        let mut start = if at <= head.from || head.from == head.until || blank_between(text, head.from, at) {
            head.start
        } else {
            proof {
                lemma_utf8_span_within(text@, head.from as int, at as int, head.until as int);
            }
            interpolate(head.start, head.end, utf8_span(text, head.from, at), utf8_span(text, head.from, head.until))
        };
        let mut end = if until >= tail.until || tail.from == tail.until || blank_between(text, until, tail.until) {
            tail.end
        } else {
            proof {
                lemma_utf8_span_within(text@, tail.from as int, until as int, tail.until as int);
            }
            interpolate(tail.start, tail.end, utf8_span(text, tail.from, until), utf8_span(text, tail.from, tail.until))
        };
        let ghost start0 = start;
        let ghost end0 = end;
        let mut k = cursor;
        while k < cues.len() && cues[k].from < until
            invariant
                c <= k <= stop,
                scan_end(cues@, k as int, until as int) == stop,
                start == earliest_start(cues@, c, k as int, at as int, start0),
                end == latest_end(cues@, c, k as int, at as int, until as int, end0),
            decreases cues@.len() - k,
        {
            proof {
                lemma_scan_end(cues@, k + 1, until as int);
            }
            if cues[k].until > at {
                if at <= cues[k].from && cues[k].start < start {
                    start = cues[k].start;
                }
                if until >= cues[k].until && cues[k].end > end {
                    end = cues[k].end;
                }
            }
            k = k + 1;
        }
        let finish = if end >= start { end } else { start };
        sung.push(Sung { source_line: 0, start, end: finish, key: copy_chars(&slot.key), timing: Timing::Provider });
        index = index + 1;
    }
    Some(sung)
}

/// Whether the cues leave the tokens untimed: they do not map onto the text, or some token
/// gets no time from them.
pub open spec fn untimed(text: Seq<char>, words: Seq<LyricsWord>, slots: Seq<Slot>) -> bool {
    match spec_cue_ranges(text, words, slots) {
        None => true,
        Some(ranges) => {
            let cues = Seq::new(words.len(), |i: int| cue_of(words[i], ranges[i]));
            exists|i: int| 0 <= i < slots.len() && #[trigger] slot_timing(text, cues, slots[i], cue_cursor(cues, slots, i)) is None
        },
    }
}

/// The tokens of a line timed by its provider cues: the cues are mapped onto the text
/// (see `map_words_to_text_with_limit`) and each token is timed from them (see
/// `time_slots`). `None` without cues or text, when the cues do not map, when the budget
/// runs out, or when a token overlaps no cue.
pub fn timed_with_limit_and_slots(
    text: &Vec<char>,
    words: &Vec<LyricsWord>,
    slots: &Vec<Slot>,
    work: &mut usize,
) -> (sung: Option<Vec<Sung>>)
    requires
        ordered_within(slots@, text@.len()),
        utf8_len(text@) <= usize::MAX,
    ensures
        *final(work) >= *old(work),
        words@.len() == 0 || text@.len() == 0 ==> sung is None,
        sung matches Some(sung) ==> {
            &&& spec_cue_ranges(text@, words@, slots@) matches Some(ranges) && {
                let cues = Seq::new(words@.len(), |i: int| cue_of(words@[i], ranges[i]));
                forall|i: int| 0 <= i < sung@.len() ==> slot_timing(text@, cues, slots@[i], cue_cursor(cues, slots@, i))
                    == Some(((#[trigger] sung@[i]).start, sung@[i].end))
            }
            &&& sung@.len() == slots@.len()
            &&& forall|i: int| 0 <= i < sung@.len() ==> {
                &&& (#[trigger] sung@[i]).key@ == slots@[i].key@
                &&& sung@[i].start <= sung@[i].end
                &&& sung@[i].timing == Timing::Provider
                &&& sung@[i].source_line == 0
            }
        },
        sung is None && words@.len() > 0 && text@.len() > 0 && *final(work) < CELLS ==> untimed(text@, words@, slots@),
        !cues_spell(text@, words@) && *old(work) + map_steps(text@, words@, slots@) >= CELLS ==> sung is None,
        cues_spell(text@, words@) ==> *final(work) == *old(work),
        words@.len() == 0 || text@.len() == 0 ==> *final(work) == *old(work),
        *final(work) <= *old(work) + cue_cost(text@, words@, slots@.len() as int),
        words@.len() > 0 && text@.len() > 0 && *old(work) + map_steps(text@, words@, slots@) < CELLS ==> {
            &&& *final(work) == *old(work) + map_steps(text@, words@, slots@)
            &&& (sung is None <==> untimed(text@, words@, slots@))
        },
{
    if words.len() == 0 || text.len() == 0 {
        return None;
    }
    let cues = match map_words_to_text_with_limit(text, words, slots, work) {
        Some(cues) => cues,
        None => return None,
    };
    proof {
        let ranges = spec_cue_ranges(text@, words@, slots@).unwrap();
        assert(cues@ =~= Seq::new(words@.len(), |i: int| cue_of(words@[i], ranges[i])));
    }
    time_slots(text, &cues, slots)
}

/// The number of key characters of the first `k` tokens.
pub open spec fn token_key_chars(slots: Seq<SpecSlot>, k: int) -> nat
    decreases k,
{
    if k <= 0 {
        0
    } else {
        token_key_chars(slots, k - 1) + slots[k - 1].key.len()
    }
}

proof fn lemma_key_chars_views(slots: Seq<Slot>, k: int)
    requires
        0 <= k <= slots.len(),
    ensures
        key_chars(slots, k) == token_key_chars(slot_views(slots), k),
    decreases k,
{
    if k > 0 {
        lemma_key_chars_views(slots, k - 1);
        assert(slot_views(slots)[k - 1] == slots[k - 1].view());
    }
}

/// The number of characters in the keys of the first `k` tokens.
pub open spec fn key_chars(slots: Seq<Slot>, k: int) -> nat
    decreases k,
{
    if k <= 0 {
        0
    } else {
        key_chars(slots, k - 1) + slots[k - 1].key@.len()
    }
}

proof fn lemma_key_chars_monotone(slots: Seq<Slot>, j: int, k: int)
    requires
        0 <= j <= k <= slots.len(),
    ensures
        key_chars(slots, j) <= key_chars(slots, k),
    decreases k - j,
{
    if j < k {
        lemma_key_chars_monotone(slots, j, k - 1);
    }
}

/// Synthesized timing for a line without cues: `start..end` shared among the tokens in
/// proportion to the characters of their keys.
pub fn spread(slots: &Vec<Slot>, start: u64, end: u64) -> (sung: Vec<Sung>)
    requires
        key_chars(slots@, slots@.len() as int) <= usize::MAX,
    ensures
        key_chars(slots@, slots@.len() as int) == 0 ==> sung@.len() == 0,
        key_chars(slots@, slots@.len() as int) > 0 ==> sung@.len() == slots@.len() && forall|i: int| 0 <= i < sung@.len() ==> {
            let total = key_chars(slots@, slots@.len() as int);
            let span = if end >= start { (end - start) as u64 } else { 0 };
            &&& (#[trigger] sung@[i]).key@ == slots@[i].key@
            &&& sung@[i].start == between(start, (start + span) as u64, key_chars(slots@, i), total)
            &&& sung@[i].end == between(start, (start + span) as u64, key_chars(slots@, i + 1), total)
            &&& sung@[i].start <= sung@[i].end
            &&& sung@[i].timing == Timing::Synthesized
            &&& sung@[i].source_line == 0
        },
{
    let ghost all = key_chars(slots@, slots@.len() as int);
    let mut total: usize = 0;
    let mut k: usize = 0;
    while k < slots.len()
        invariant
            k <= slots@.len(),
            total == key_chars(slots@, k as int),
            all == key_chars(slots@, slots@.len() as int),
            all <= usize::MAX,
        decreases slots@.len() - k,
    {
        proof {
            lemma_key_chars_monotone(slots@, k + 1, slots@.len() as int);
        }
        total = total + slots[k].key.len();
        k = k + 1;
    }
    let mut sung: Vec<Sung> = Vec::new();
    if total == 0 {
        return sung;
    }
    let span: u64 = if end >= start { end - start } else { 0 };
    let finish: u64 = start + span;
    let mut passed: usize = 0;
    let mut index: usize = 0;
    while index < slots.len()
        invariant
            index <= slots@.len(),
            total == all,
            total > 0,
            all == key_chars(slots@, slots@.len() as int),
            passed == key_chars(slots@, index as int),
            span == (if end >= start { (end - start) as u64 } else { 0 }),
            finish == start + span,
            sung@.len() == index,
            forall|i: int| 0 <= i < index ==> {
                &&& (#[trigger] sung@[i]).key@ == slots@[i].key@
                &&& sung@[i].start == between(start, finish, key_chars(slots@, i), total as nat)
                &&& sung@[i].end == between(start, finish, key_chars(slots@, i + 1), total as nat)
                &&& sung@[i].start <= sung@[i].end
                &&& sung@[i].timing == Timing::Synthesized
                &&& sung@[i].source_line == 0
            },
        decreases slots@.len() - index,
    {
        proof {
            lemma_key_chars_monotone(slots@, index + 1, slots@.len() as int);
            lemma_key_chars_monotone(slots@, index as int, index + 1);
        }
        let from = interpolate(start, finish, passed, total);
        passed = passed + slots[index].key.len();
        let to = interpolate(start, finish, passed, total);
        proof {
            let span = (finish - start) as int;
            assert(span * (key_chars(slots@, index as int) as int) <= span * (passed as int)) by (nonlinear_arith)
                requires span >= 0, key_chars(slots@, index as int) <= passed;
            assert(span * (key_chars(slots@, index as int) as int) / (total as int) <= span * (passed as int) / (total as int)) by (nonlinear_arith)
                requires span * (key_chars(slots@, index as int) as int) <= span * (passed as int), total > 0;
        }
        assert(passed == key_chars(slots@, index + 1));
        assert(from == between(start, finish, key_chars(slots@, index as int), total as nat));
        assert(to == between(start, finish, key_chars(slots@, index + 1), total as nat));
        proof {
            lemma_between_monotone(start, finish, key_chars(slots@, index as int), key_chars(slots@, index + 1), total as nat);
        }
        assert(from <= to);
        sung.push(Sung { source_line: 0, start: from, end: to, key: copy_chars(&slots[index].key), timing: Timing::Synthesized });
        index = index + 1;
    }
    sung
}

/// The number of characters in the keys of all tokens, if it fits a `usize`.
fn key_total(slots: &Vec<Slot>) -> (total: Option<usize>)
    ensures
        total matches Some(t) ==> t == key_chars(slots@, slots@.len() as int),
        total is None ==> key_chars(slots@, slots@.len() as int) > usize::MAX,
{
    let mut total: usize = 0;
    let mut k: usize = 0;
    while k < slots.len()
        invariant
            k <= slots@.len(),
            total == key_chars(slots@, k as int),
        decreases slots@.len() - k,
    {
        let length = slots[k].key.len();
        if total > usize::MAX - length {
            proof {
                lemma_key_chars_monotone(slots@, k + 1, slots@.len() as int);
            }
            return None;
        }
        total = total + length;
        k = k + 1;
    }
    Some(total)
}

/// When a line without cues ends: its own end, else the next line's start, never before
/// its start.
pub open spec fn line_until(line: LyricsLine, next: Option<LyricsLine>) -> u64 {
    let until = match line.end {
        Some(end) => end,
        None => match next {
            Some(next) => next.start,
            None => line.start,
        },
    };
    if until >= line.start { until } else { line.start }
}

/// A line without cues is sung from its start to its own end when it has one, whatever
/// line follows; only without an end does it run to the start of the next line, and,
/// with neither, it takes no time. It never ends before it starts.
pub proof fn lemma_line_until(line: LyricsLine, next: Option<LyricsLine>)
    ensures
        line.end is Some ==> line_until(line, next) == (if line.end.unwrap() >= line.start {
            line.end.unwrap()
        } else {
            line.start
        }),
        line.end is None && next is Some ==> line_until(line, next) == (if next.unwrap().start >= line.start {
            next.unwrap().start
        } else {
            line.start
        }),
        line.end is None && next is None ==> line_until(line, next) == line.start,
        line_until(line, next) >= line.start,
{
}

/// Whether tokens are timed by a line's cues: the cues map onto the text (see
/// `spec_cue_ranges`) and each token has the time `slot_timing` gives it.
pub open spec fn timed_as_cued(text: Seq<char>, words: Seq<LyricsWord>, slots: Seq<Slot>, tokens: Seq<Sung>) -> bool {
    spec_cue_ranges(text, words, slots) matches Some(ranges) && {
        let cues = Seq::new(words.len(), |i: int| cue_of(words[i], ranges[i]));
        forall|i: int| 0 <= i < tokens.len() ==> slot_timing(text, cues, slots[i], cue_cursor(cues, slots, i))
            == Some(((#[trigger] tokens[i]).start, tokens[i].end))
    }
}

/// Whether tokens share the time from `start` to `end` by the lengths of their keys.
pub open spec fn spread_by_keys(slots: Seq<Slot>, start: u64, end: u64, tokens: Seq<Sung>) -> bool {
    let total = key_chars(slots, slots.len() as int);
    let span = if end >= start { (end - start) as u64 } else { 0 };
    forall|i: int| 0 <= i < tokens.len() ==> {
        &&& (#[trigger] tokens[i]).start == between(start, (start + span) as u64, key_chars(slots, i), total)
        &&& tokens[i].end == between(start, (start + span) as u64, key_chars(slots, i + 1), total)
    }
}

/// The line that follows, by value.
pub open spec fn next_value(next: Option<&LyricsLine>) -> Option<LyricsLine> {
    match next {
        Some(line) => Some(*line),
        None => None,
    }
}

/// Maps a source line onto its canonical text: the tokens of the text, timed by the line's
/// cues when it has any, spread over the line otherwise.
///
/// `LimitExceeded` when the work budget is spent or the text has more than `limit` tokens;
/// `Unsafe` with the token count when the text has no tokens or its cues do not map.
/// The most work timing a line from its cues can take (see `cue_cost`); none without cues.
pub open spec fn line_cost(line: LyricsLine) -> int {
    match line.words {
        Some(words) => if words@.len() > 0 { cue_cost(line.text@, words@, spec_tokens(line.text@).len() as int) } else { 0 },
        None => 0,
    }
}

pub fn canonical(line: &LyricsLine, next: Option<&LyricsLine>, limit: usize, work: &mut usize) -> (outcome: CanonicalOutcome)
    ensures
        *final(work) >= *old(work),
        *old(work) >= CELLS ==> outcome is LimitExceeded,
        *old(work) < CELLS && spec_tokens(line.text@).len() > limit ==> outcome is LimitExceeded,
        *old(work) < CELLS && spec_tokens(line.text@).len() == 0 ==> outcome == CanonicalOutcome::Unsafe(0),
        outcome matches CanonicalOutcome::Unsafe(n) ==> n == spec_tokens(line.text@).len(),
        outcome is LimitExceeded ==> *final(work) >= CELLS || spec_tokens(line.text@).len() > limit
            || token_key_chars(spec_tokens(line.text@), spec_tokens(line.text@).len() as int) > usize::MAX,
        line.words is Some && line.words.unwrap()@.len() > 0 && spec_tokens(line.text@).len() > 0 && outcome is Unsafe
            ==> exists|slots: Seq<Slot>| #[trigger] slot_views(slots) == spec_tokens(line.text@) && ordered_within(slots, line.text@.len())
                && (untimed(line.text@, line.words.unwrap()@, slots)
                || *old(work) + map_steps(line.text@, line.words.unwrap()@, slots) >= CELLS),
        (line.words is None || line.words.unwrap()@.len() == 0) && *old(work) < CELLS
            && 0 < spec_tokens(line.text@).len() <= limit
            && 0 < token_key_chars(spec_tokens(line.text@), spec_tokens(line.text@).len() as int) <= usize::MAX
            ==> outcome is Mapped,
        *final(work) <= *old(work) + line_cost(*line),
        outcome matches CanonicalOutcome::Mapped(tokens) ==> {
            &&& tokens@.len() == spec_tokens(line.text@).len()
            &&& tokens@.len() > 0
            &&& forall|i: int| 0 <= i < tokens@.len() ==> (#[trigger] tokens@[i]).key@ == spec_tokens(line.text@)[i].key
            &&& forall|i: int| 0 <= i < tokens@.len() ==> (#[trigger] tokens@[i]).start <= tokens@[i].end
        },
        outcome matches CanonicalOutcome::Mapped(tokens) ==> ((line.words is None || line.words.unwrap()@.len() == 0)
            ==> forall|i: int| 0 <= i < tokens@.len() ==> (#[trigger] tokens@[i]).timing == Timing::Synthesized),
        outcome matches CanonicalOutcome::Mapped(tokens) ==> ((line.words is Some && line.words.unwrap()@.len() > 0)
            ==> forall|i: int| 0 <= i < tokens@.len() ==> (#[trigger] tokens@[i]).timing == Timing::Provider),
        outcome matches CanonicalOutcome::Mapped(tokens) ==> exists|slots: Seq<Slot>| {
            &&& #[trigger] slot_views(slots) == spec_tokens(line.text@)
            &&& ordered_within(slots, line.text@.len())
            &&& if line.words is Some && line.words.unwrap()@.len() > 0 {
                timed_as_cued(line.text@, line.words.unwrap()@, slots, tokens@)
            } else {
                spread_by_keys(slots, line.start, line_until(*line, next_value(next)), tokens@)
            }
        },
{
    if *work >= CELLS {
        return CanonicalOutcome::LimitExceeded;
    }
    let source = line.text.as_str();
    assert(source@ == line.text@);
    let slots = match bounded_tokens_to(source, limit) {
        Some(slots) => slots,
        None => return CanonicalOutcome::LimitExceeded,
    };
    let slot_count = slots.len();
    assert(slot_views(slots@).len() == slots@.len());
    assert(slot_count == spec_tokens(line.text@).len());
    if slot_count == 0 {
        return CanonicalOutcome::Unsafe(0);
    }
    let has_words = match &line.words {
        Some(words) => words.len() > 0,
        None => false,
    };
    let tokens = if has_words {
        let words = line.words.as_ref().unwrap();
        let text = chars_of(line.text.as_str());
        let length = line.text.as_str().as_bytes().len();
        proof {
            lemma_encoded_len(line.text@);
        }
        match timed_with_limit_and_slots(&text, words, &slots, work) {
            Some(sung) => sung,
            None => {
                if *work >= CELLS {
                    return CanonicalOutcome::LimitExceeded;
                }
                return CanonicalOutcome::Unsafe(slot_count);
            },
        }
    } else {
        let until = match line.end {
            Some(end) => end,
            None => match next {
                Some(next) => next.start,
                None => line.start,
            },
        };
        let until = if until >= line.start { until } else { line.start };
        proof {
            lemma_key_chars_views(slots@, slots@.len() as int);
        }
        match key_total(&slots) {
            Some(_) => spread(&slots, line.start, until),
            None => {
                proof {
                    lemma_key_chars_views(slots@, slots@.len() as int);
                }
                return CanonicalOutcome::LimitExceeded;
            },
        }
    };
    if tokens.len() == 0 {
        if *work >= CELLS {
            CanonicalOutcome::LimitExceeded
        } else {
            CanonicalOutcome::Unsafe(slot_count)
        }
    } else {
        CanonicalOutcome::Mapped(tokens)
    }
}

} // verus!