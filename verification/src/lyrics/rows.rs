//! The rows of the synced-lyrics sheet: one per line, and one more before each line that
//! follows a long instrumental pause. Times are nanoseconds from the start of the track.
use vstd::prelude::*;

use crate::lyrics::model::{LyricsLine, spec_sung_end, words_end};

verus! {

/// How long a pause without singing must last to get a row of its own: 5 s.
pub const INSTRUMENTAL_BREAK: u64 = 5_000_000_000;

/// The pause before line `index`: from the start of the track for the first line, else
/// from the end of the line before (its own or its words', its start when it has none),
/// and none when the lines overlap.
pub open spec fn spec_gap_before(lines: Seq<LyricsLine>, index: int) -> u64 {
    let start = lines[index].start;
    if index == 0 {
        start
    } else {
        let previous = lines[index - 1];
        let end = match spec_sung_end(previous) {
            Some(end) => end,
            None => previous.start,
        };
        if start >= end { (start - end) as u64 } else { 0 }
    }
}

/// Where pressing the pause row before line `index` seeks to: the start of the pause, that
/// is, the line's start less the pause before it.
pub fn break_seek(lines: &[LyricsLine], index: usize) -> (at: u64)
    requires
        index < lines@.len(),
    ensures
        at == (if spec_gap_before(lines@, index as int) <= lines@[index as int].start {
            (lines@[index as int].start - spec_gap_before(lines@, index as int)) as u64
        } else {
            0
        }),
{
    let gap = instrumental_gap_before(lines, index);
    lines[index].start.saturating_sub(gap)
}

/// Decides `spec_gap_before`.
pub fn instrumental_gap_before(lines: &[LyricsLine], index: usize) -> (gap: u64)
    requires
        index < lines@.len(),
    ensures
        gap == spec_gap_before(lines@, index as int),
{
    let start = lines[index].start;
    if index == 0 {
        start
    } else {
        let previous = &lines[index - 1];
        let end = match previous.sung_end() {
            Some(end) => end,
            None => previous.start,
        };
        if start >= end { start - end } else { 0 }
    }
}

/// The first line from `k` on that starts after `position`.
pub open spec fn next_line_from(lines: Seq<LyricsLine>, position: u64, k: int) -> Option<int>
    decreases lines.len() - k,
{
    if k < 0 || k >= lines.len() {
        None
    } else if lines[k].start > position {
        Some(k)
    } else {
        next_line_from(lines, position, k + 1)
    }
}

/// The line whose long pause is playing at `position`: the first line that starts after
/// `position`, when the pause before it lasts `INSTRUMENTAL_BREAK` or more and has begun.
pub open spec fn spec_active_instrumental(lines: Seq<LyricsLine>, position: u64) -> Option<usize> {
    match next_line_from(lines, position, 0) {
        None => None,
        Some(next) => {
            let gap = spec_gap_before(lines, next);
            let start = if lines[next].start >= gap { (lines[next].start - gap) as u64 } else { 0 };
            if gap >= INSTRUMENTAL_BREAK && position >= start { Some(next as usize) } else { None }
        },
    }
}

proof fn lemma_next_line_in_range(lines: Seq<LyricsLine>, position: u64, k: int)
    requires
        0 <= k,
    ensures
        next_line_from(lines, position, k) matches Some(j) ==> k <= j < lines.len(),
    decreases lines.len() - k,
{
    if k < lines.len() && lines[k].start <= position {
        lemma_next_line_in_range(lines, position, k + 1);
    }
}

/// Decides `spec_active_instrumental`.
pub fn active_instrumental(lines: &[LyricsLine], position: u64) -> (found: Option<usize>)
    ensures
        found == spec_active_instrumental(lines@, position),
{
    let mut k: usize = 0;
    while k < lines.len() && lines[k].start <= position
        invariant
            k <= lines@.len(),
            next_line_from(lines@, position, 0) == next_line_from(lines@, position, k as int),
        decreases lines@.len() - k,
    {
        k = k + 1;
    }
    if k == lines.len() {
        return None;
    }
    let next = k;
    let gap = instrumental_gap_before(lines, next);
    let start = if lines[next].start >= gap { lines[next].start - gap } else { 0 };
    if gap >= INSTRUMENTAL_BREAK && position >= start {
        Some(next)
    } else {
        None
    }
}

/// How many of the first `k` lines follow a long pause.
pub open spec fn breaks_before(lines: Seq<LyricsLine>, k: int) -> int
    decreases k,
{
    if k <= 0 {
        0
    } else {
        breaks_before(lines, k - 1) + if spec_gap_before(lines, k - 1) >= INSTRUMENTAL_BREAK { 1int } else { 0int }
    }
}

proof fn lemma_breaks_before_bounds(lines: Seq<LyricsLine>, k: int)
    requires
        0 <= k,
    ensures
        0 <= breaks_before(lines, k) <= k,
    decreases k,
{
    if k > 0 {
        lemma_breaks_before_bounds(lines, k - 1);
    }
}

/// Counts `breaks_before` over the first `k` lines.
fn count_breaks(lines: &[LyricsLine], k: usize) -> (count: usize)
    requires
        k <= lines@.len(),
    ensures
        count == breaks_before(lines@, k as int),
{
    let mut count: usize = 0;
    let mut i: usize = 0;
    while i < k
        invariant
            k <= lines@.len(),
            i <= k,
            count == breaks_before(lines@, i as int),
            count <= i,
        decreases k - i,
    {
        proof {
            lemma_breaks_before_bounds(lines@, i as int + 1);
        }
        if instrumental_gap_before(lines, i) >= INSTRUMENTAL_BREAK {
            count = count + 1;
        }
        i = i + 1;
    }
    count
}

/// How many rows the lyrics sheet has: one per line and one per long pause.
pub fn lyric_row_count(lines: &[LyricsLine]) -> (rows: usize)
    requires
        lines@.len() + breaks_before(lines@, lines@.len() as int) <= usize::MAX,
    ensures
        rows == lines@.len() + breaks_before(lines@, lines@.len() as int),
{
    lines.len() + count_breaks(lines, lines.len())
}

/// The row of line `index`: after every line before it and every long pause up to and
/// including its own.
pub fn line_row(lines: &[LyricsLine], index: usize) -> (row: usize)
    requires
        index < lines@.len(),
        index + breaks_before(lines@, index + 1) <= usize::MAX,
    ensures
        row == index + breaks_before(lines@, index + 1),
{
    let total = lines.len();
    assert(index + 1 <= total);
    index + count_breaks(lines, index + 1)
}

/// The row to follow at `position`: the row of the line being sung, else the row of the
/// long pause that is playing (the row just before the line that ends it), else none.
/// `sung` is the line that the lyrics player reports as sung at `position`; it is set
/// aside while a long pause plays.
pub open spec fn spec_active_lyrics_row(
    lines: Seq<LyricsLine>,
    position: u64,
    sung: Option<usize>,
) -> Option<int> {
    match spec_active_instrumental(lines, position) {
        Some(next) => Some(next + breaks_before(lines, next + 1) - 1),
        None => match sung {
            Some(index) => Some(index + breaks_before(lines, index + 1)),
            None => None,
        },
    }
}

/// Decides `spec_active_lyrics_row`.
pub fn active_lyrics_row(lines: &[LyricsLine], position: u64, sung: Option<usize>) -> (row: Option<
    usize,
>)
    requires
        sung matches Some(index) ==> index < lines@.len(),
        lines@.len() + breaks_before(lines@, lines@.len() as int) <= usize::MAX,
    ensures
        row matches Some(r) ==> spec_active_lyrics_row(lines@, position, sung) == Some(r as int),
        row is None ==> spec_active_lyrics_row(lines@, position, sung) is None,
{
    match active_instrumental(lines, position) {
        Some(next) => {
            proof {
                lemma_next_line_in_range(lines@, position, 0);
                lemma_breaks_monotone(lines@, next as int + 1, lines@.len() as int);
                lemma_breaks_before_bounds(lines@, next as int);
                assert(breaks_before(lines@, next as int + 1) >= 1);
            }
            let row = line_row(lines, next);
            Some(row - 1)
        },
        None => match sung {
            Some(index) => {
                proof {
                    lemma_breaks_monotone(lines@, index as int + 1, lines@.len() as int);
                }
                Some(line_row(lines, index))
            },
            None => None,
        },
    }
}

proof fn lemma_words_end_is_latest(words: Seq<crate::lyrics::model::LyricsWord>, k: int)
    requires
        1 <= k <= words.len(),
    ensures
        forall|w: int| 0 <= w < k ==> #[trigger] words[w].end <= words_end(words, k),
        exists|w: int| 0 <= w < k && #[trigger] words[w].end == words_end(words, k),
    decreases k,
{
    if k > 1 {
        lemma_words_end_is_latest(words, k - 1);
        if words[k - 1].end <= words_end(words, k - 1) {
            let w = choose|w: int| 0 <= w < k - 1 && #[trigger] words[w].end == words_end(words, k - 1);
            assert(words[w].end == words_end(words, k));
        } else {
            assert(words[k - 1].end == words_end(words, k));
        }
    } else {
        assert(words[0].end == words_end(words, k));
    }
}

/// The pause before a line: for the first line, all the time from the start of the track;
/// for a later line, the time from where the line before stops being sung to this line's
/// start, none when they overlap. The line before stops with its latest-ending word when
/// it has words, else at its own end, and, with neither, at its own start.
pub proof fn lemma_gap_measured_from_previous(lines: Seq<LyricsLine>, index: int)
    requires
        0 <= index < lines.len(),
    ensures
        index == 0 ==> spec_gap_before(lines, index) == lines[0].start,
        index > 0 && (lines[index - 1].words is None || lines[index - 1].words.unwrap()@.len() == 0)
            && lines[index - 1].end is None
            ==> spec_gap_before(lines, index) == (if lines[index].start >= lines[index - 1].start {
                lines[index].start - lines[index - 1].start
            } else {
                0
            }),
        index > 0 && (lines[index - 1].words is None || lines[index - 1].words.unwrap()@.len() == 0)
            && lines[index - 1].end is Some
            ==> spec_gap_before(lines, index) == (if lines[index].start >= lines[index - 1].end.unwrap() {
                lines[index].start - lines[index - 1].end.unwrap()
            } else {
                0
            }),
        index > 0 && lines[index - 1].words is Some && lines[index - 1].words.unwrap()@.len() > 0
            ==> exists|latest: int| #![trigger lines[index - 1].words.unwrap()@[latest]] {
                &&& 0 <= latest < lines[index - 1].words.unwrap()@.len()
                &&& forall|w: int| 0 <= w < lines[index - 1].words.unwrap()@.len()
                    ==> #[trigger] lines[index - 1].words.unwrap()@[w].end <= lines[index - 1].words.unwrap()@[latest].end
                &&& spec_gap_before(lines, index) == (if lines[index].start >= lines[index - 1].words.unwrap()@[latest].end {
                    lines[index].start - lines[index - 1].words.unwrap()@[latest].end
                } else {
                    0
                })
            },
{
    if index > 0 {
        if let Some(words) = lines[index - 1].words {
            if words@.len() > 0 {
                lemma_words_end_is_latest(words@, words@.len() as int);
                let last = words_end(words@, words@.len() as int);
                assert(spec_sung_end(lines[index - 1]) == Some(last));
                let latest = choose|w: int| 0 <= w < words@.len() && #[trigger] words@[w].end == last;
                assert(forall|w: int| 0 <= w < words@.len() ==> #[trigger] words@[w].end <= words@[latest].end);
            }
        }
    }
}

/// Rows follow lines in order: a later line has a later row, a line that follows a long
/// pause sits two rows after the line before it (the pause takes the row between), and
/// every row is within the sheet.
pub proof fn lemma_rows_in_order(lines: Seq<LyricsLine>, index: int)
    requires
        0 < index < lines.len(),
    ensures
        index + breaks_before(lines, index + 1) == (index - 1) + breaks_before(lines, index) + 1
            + if spec_gap_before(lines, index) >= INSTRUMENTAL_BREAK { 1int } else { 0int },
        index + breaks_before(lines, index + 1) < lines.len() + breaks_before(lines, lines.len() as int),
{
    lemma_breaks_monotone(lines, index + 1, lines.len() as int);
}

proof fn lemma_breaks_monotone(lines: Seq<LyricsLine>, j: int, k: int)
    requires
        0 <= j <= k,
    ensures
        breaks_before(lines, j) <= breaks_before(lines, k),
    decreases k - j,
{
    if j < k {
        lemma_breaks_monotone(lines, j, k - 1);
    }
}

} // verus!
