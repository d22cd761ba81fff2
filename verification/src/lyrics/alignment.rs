//! Alignment of source tokens onto guide tokens: the time window each guide line allows,
//! temporal compatibility, the longest common subsequence of keys, and the timing of guide
//! tokens that no source token pairs with.
use vstd::prelude::*;

use crate::lyrics::model::{
    LyricsLane, LyricsLine, LyricsWord, RomanizedText, copy_lane, copy_romanized, same_lane,
    same_romanized, spec_sung_end, spelled_by_words, word_texts, words_start_in_order,
};
use crate::lyrics::timing::{CELLS, SpecSlot, ordered_within, slot_views, spec_tokens, tokenize};
use crate::text::chars_of;
use crate::lyrics::timing::{Slot, Sung, Timing, between, interpolate, lemma_between_monotone, utf8_key_len};
use crate::text::{string_of, utf8_len};

verus! {

/// The time window of a guide line.
#[derive(Clone, Copy, Debug, PartialEq, Eq, Structural)]
pub enum GuideHint {
    /// The line is sung from `start` until `end`.
    Bounded { start: u64, end: u64 },
    /// The line has no time of its own: it shares its start with what follows.
    Simultaneous { at: u64 },
    /// The last line, from `start` on.
    Terminal { start: u64 },
}

/// The start of the first line after `index` that starts later than `start`.
pub open spec fn next_later_start(lines: Seq<LyricsLine>, from: int, start: u64) -> Option<u64>
    decreases lines.len() - from,
{
    if from >= lines.len() || from < 0 {
        None
    } else if lines[from].start > start {
        Some(lines[from].start)
    } else {
        next_later_start(lines, from + 1, start)
    }
}

/// The window of guide line `index`: up to its own end, or else up to the next line that
/// starts later; without either it is the terminal line, and with a window that does not
/// run forward it is simultaneous with what follows.
pub open spec fn spec_guide_hint(lines: Seq<LyricsLine>, index: int) -> GuideHint {
    let line = lines[index];
    let end = match line.end {
        Some(end) => Some(end),
        None => next_later_start(lines, index + 1, line.start),
    };
    match end {
        Some(end) => if end > line.start {
            GuideHint::Bounded { start: line.start, end }
        } else {
            GuideHint::Simultaneous { at: line.start }
        },
        None => GuideHint::Terminal { start: line.start },
    }
}

/// Decides `spec_guide_hint`.
pub fn guide_hint(lines: &Vec<LyricsLine>, index: usize) -> (hint: GuideHint)
    requires
        index < lines@.len(),
    ensures
        hint == spec_guide_hint(lines@, index as int),
{
    let line = &lines[index];
    let end = match line.end {
        Some(end) => Some(end),
        None => {
            let count = lines.len();
            let mut found: Option<u64> = None;
            let mut k = index + 1;
            while k < count && found.is_none()
                invariant
                    count == lines@.len(),
                    index < k <= count,
                    found is None ==> next_later_start(lines@, index + 1, line.start) == next_later_start(lines@, k as int, line.start),
                    found is Some ==> next_later_start(lines@, index + 1, line.start) == found,
                decreases count - k + (if found is None { 1int } else { 0int }),
            {
                if lines[k].start > line.start {
                    found = Some(lines[k].start);
                } else {
                    k = k + 1;
                }
            }
            found
        },
    };
    match end {
        Some(end) => if end > line.start {
            GuideHint::Bounded { start: line.start, end }
        } else {
            GuideHint::Simultaneous { at: line.start }
        },
        None => GuideHint::Terminal { start: line.start },
    }
}

/// Whether a source token sung over `start..end` may belong to a guide line with window
/// `hint`. A token without duration is a point: it must lie inside the window (at the
/// window's time, for a simultaneous line). Otherwise the token must overlap the window.
pub open spec fn token_compatible(start: u64, end: u64, hint: GuideHint) -> bool {
    if start == end {
        match hint {
            GuideHint::Bounded { start: from, end: until } => start >= from && start < until,
            GuideHint::Simultaneous { at } => start == at,
            GuideHint::Terminal { start: from } => start >= from,
        }
    } else {
        match hint {
            GuideHint::Bounded { start: from, end: until } => min(end, until) > max(start, from),
            GuideHint::Simultaneous { at } => start <= at && end > at,
            GuideHint::Terminal { start: from } => end > from,
        }
    }
}

/// The smaller of two instants.
pub open spec fn min(a: u64, b: u64) -> u64 {
    if a <= b { a } else { b }
}

/// The larger of two instants.
pub open spec fn max(a: u64, b: u64) -> u64 {
    if a >= b { a } else { b }
}

/// Decides `token_compatible`.
pub fn token_temporally_compatible(t_start: u64, t_end: u64, hint: GuideHint) -> (compatible: bool)
    ensures
        compatible == token_compatible(t_start, t_end, hint),
{
    if t_start == t_end {
        return match hint {
            GuideHint::Bounded { start, end } => t_start >= start && t_start < end,
            GuideHint::Simultaneous { at } => t_start == at,
            GuideHint::Terminal { start } => t_start >= start,
        };
    }
    match hint {
        GuideHint::Bounded { start, end } => {
            let low = if t_start >= start { t_start } else { start };
            let high = if t_end <= end { t_end } else { end };
            high > low
        },
        GuideHint::Simultaneous { at } => t_start <= at && t_end > at,
        GuideHint::Terminal { start } => t_end > start,
    }
}

/// Whether a source line sung over `start..end` may belong to a guide line with window
/// `hint`: the same rule as for a token.
pub open spec fn line_compatible(start: u64, end: u64, hint: GuideHint) -> bool {
    token_compatible(start, end, hint)
}

/// Decides `line_compatible`.
pub fn line_temporally_compatible(s_start: u64, s_end: u64, hint: GuideHint) -> (compatible: bool)
    ensures
        compatible == line_compatible(s_start, s_end, hint),
{
    if s_start == s_end {
        return token_temporally_compatible(s_start, s_end, hint);
    }
    match hint {
        GuideHint::Bounded { start, end } => {
            let low = if s_start >= start { s_start } else { start };
            let high = if s_end <= end { s_end } else { end };
            high > low
        },
        GuideHint::Simultaneous { at } => s_start <= at && s_end > at,
        GuideHint::Terminal { start } => s_end > start,
    }
}

/// When a guide window begins.
pub open spec fn spec_guide_start(hint: GuideHint) -> u64 {
    match hint {
        GuideHint::Bounded { start, .. } => start,
        GuideHint::Terminal { start } => start,
        GuideHint::Simultaneous { at } => at,
    }
}

/// Decides `spec_guide_start`.
pub fn guide_start(hint: GuideHint) -> (start: u64)
    ensures
        start == spec_guide_start(hint),
{
    match hint {
        GuideHint::Bounded { start, .. } => start,
        GuideHint::Terminal { start } => start,
        GuideHint::Simultaneous { at } => at,
    }
}

/// The distance between two instants, in nanoseconds.
pub open spec fn distance(left: u64, right: u64) -> u128 {
    if left >= right { (left - right) as u128 } else { (right - left) as u128 }
}

/// Decides `distance`.
pub fn start_distance(left: u64, right: u64) -> (gap: u128)
    ensures
        gap == distance(left, right),
{
    if left >= right { (left - right) as u128 } else { (right - left) as u128 }
}

/// How long a source line sung over `start..end` overlaps a guide window. A simultaneous
/// window has no length; a terminal one runs on from its start.
pub open spec fn overlap(start: u64, end: u64, hint: GuideHint) -> u64 {
    match hint {
        GuideHint::Bounded { start: from, end: until } => if min(end, until) > max(start, from) {
            (min(end, until) - max(start, from)) as u64
        } else {
            0
        },
        GuideHint::Simultaneous { .. } => 0,
        GuideHint::Terminal { start: from } => if end > from && end > max(start, from) {
            (end - max(start, from)) as u64
        } else {
            0
        },
    }
}

/// Decides `overlap`.
pub fn line_temporal_overlap(s_start: u64, s_end: u64, hint: GuideHint) -> (length: u64)
    ensures
        length == overlap(s_start, s_end, hint),
{
    match hint {
        GuideHint::Bounded { start, end } => {
            let low = if s_start >= start { s_start } else { start };
            let high = if s_end <= end { s_end } else { end };
            if high > low { high - low } else { 0 }
        },
        GuideHint::Simultaneous { .. } => 0,
        GuideHint::Terminal { start } => {
            if s_end > start {
                let low = if s_start >= start { s_start } else { start };
                if s_end > low { s_end - low } else { 0 }
            } else {
                0
            }
        },
    }
}

/// Whether two keys count as the same word: equal, or the shorter (of at least four UTF-8
/// bytes) is a prefix of the longer, which is at most two bytes longer.
pub open spec fn keys_akin(left: Seq<char>, right: Seq<char>) -> bool {
    left == right || {
        let (short, long) = if utf8_len(left) <= utf8_len(right) { (left, right) } else { (right, left) };
        &&& utf8_len(short) >= 4
        &&& utf8_len(long) <= utf8_len(short) + 2
        &&& short.len() <= long.len()
        &&& long.take(short.len() as int) == short
    }
}

/// Whether `short` is a prefix of `long`.
fn starts_with(long: &Vec<char>, short: &Vec<char>) -> (prefix: bool)
    ensures
        prefix == (short@.len() <= long@.len() && long@.take(short@.len() as int) == short@),
{
    if short.len() > long.len() {
        return false;
    }
    let mut k: usize = 0;
    while k < short.len()
        invariant
            short@.len() <= long@.len(),
            k <= short@.len(),
            forall|j: int| 0 <= j < k ==> long@[j] == short@[j],
        decreases short@.len() - k,
    {
        if long[k] != short[k] {
            assert(long@.take(short@.len() as int)[k as int] != short@[k as int]);
            return false;
        }
        k = k + 1;
    }
    assert(long@.take(short@.len() as int) =~= short@);
    true
}

fn same_key(left: &Vec<char>, right: &Vec<char>) -> (same: bool)
    ensures
        same == (left@ == right@),
{
    if left.len() != right.len() {
        return false;
    }
    let mut k: usize = 0;
    while k < left.len()
        invariant
            left@.len() == right@.len(),
            k <= left@.len(),
            forall|j: int| 0 <= j < k ==> left@[j] == right@[j],
        decreases left@.len() - k,
    {
        if left[k] != right[k] {
            return false;
        }
        k = k + 1;
    }
    assert(left@ =~= right@);
    true
}

/// Decides `keys_akin`.
pub fn akin(left: &Vec<char>, right: &Vec<char>) -> (same: bool)
    ensures
        same == keys_akin(left@, right@),
{
    if same_key(left, right) {
        return true;
    }
    let left_len = utf8_key_len(left);
    let right_len = utf8_key_len(right);
    if left_len <= right_len {
        left_len >= 4 && right_len - left_len <= 2 && starts_with(right, left)
    } else {
        right_len >= 4 && left_len - right_len <= 2 && starts_with(left, right)
    }
}

/// Whether row `row` and column `column` match in a row-major matrix with `columns`
/// columns.
pub open spec fn cell(matches: Seq<bool>, columns: int, row: int, column: int) -> bool {
    matches[row * columns + column]
}

/// The length of the longest common subsequence of rows `row..rows` and columns
/// `column..columns`, pairing only matching cells.
pub open spec fn lcs(matches: Seq<bool>, rows: int, columns: int, row: int, column: int) -> nat
    decreases rows - row + columns - column,
    when 0 <= row && 0 <= column
{
    if row >= rows || column >= columns {
        0
    } else if cell(matches, columns, row, column) {
        lcs(matches, rows, columns, row + 1, column + 1) + 1
    } else {
        let down = lcs(matches, rows, columns, row + 1, column);
        let right = lcs(matches, rows, columns, row, column + 1);
        if down >= right { down } else { right }
    }
}

/// The pairs that the traceback of the longest-common-subsequence table picks from
/// `(row, column)` on: a match is taken at once; otherwise the walk moves down when that
/// keeps at least as long a subsequence as moving right.
pub open spec fn traceback(matches: Seq<bool>, rows: int, columns: int, row: int, column: int) -> Seq<(usize, usize)>
    decreases rows - row + columns - column,
    when 0 <= row && 0 <= column
{
    if row >= rows || column >= columns {
        Seq::empty()
    } else if cell(matches, columns, row, column) {
        seq![(row as usize, column as usize)] + traceback(matches, rows, columns, row + 1, column + 1)
    } else if lcs(matches, rows, columns, row + 1, column) >= lcs(matches, rows, columns, row, column + 1) {
        traceback(matches, rows, columns, row + 1, column)
    } else {
        traceback(matches, rows, columns, row, column + 1)
    }
}

/// The position of cell `(row, column)` in a row-major table with `columns + 1` columns.
pub open spec fn table_index(row: int, column: int, columns: int) -> int {
    row * (columns + 1) + column
}

proof fn lemma_index_in_table(row: int, column: int, rows: int, columns: int)
    requires
        0 <= row <= rows,
        0 <= column <= columns,
    ensures
        0 <= row * (columns + 1) + column,
        row * (columns + 1) + column <= rows * (columns + 1) + columns,
        row < rows ==> row * (columns + 1) + column + columns + 1 <= rows * (columns + 1) + columns,
{
    assert(row * (columns + 1) <= rows * (columns + 1)) by (nonlinear_arith)
        requires row <= rows, columns >= 0;
    assert(row * (columns + 1) >= 0) by (nonlinear_arith)
        requires row >= 0, columns >= 0;
    if row < rows {
        assert((row + 1) * (columns + 1) <= rows * (columns + 1)) by (nonlinear_arith)
            requires row + 1 <= rows, columns >= 0;
        assert((row + 1) * (columns + 1) == row * (columns + 1) + columns + 1) by (nonlinear_arith);
    }
}

proof fn lemma_matrix_index(row: int, column: int, rows: int, columns: int)
    requires
        0 <= row < rows,
        0 <= column < columns,
    ensures
        0 <= row * columns + column < rows * columns,
{
    assert(row * columns + column < (row + 1) * columns) by (nonlinear_arith)
        requires column < columns;
    assert((row + 1) * columns <= rows * columns) by (nonlinear_arith)
        requires row + 1 <= rows, columns >= 0;
    assert(row * columns >= 0) by (nonlinear_arith)
        requires row >= 0, columns >= 0;
}

proof fn lemma_lcs_bounded(matches: Seq<bool>, rows: int, columns: int, row: int, column: int)
    requires
        0 <= row,
        0 <= column,
    ensures
        lcs(matches, rows, columns, row, column) <= if rows - row >= 0 { rows - row } else { 0 },
    decreases rows - row + columns - column,
{
    if row < rows && column < columns {
        lemma_lcs_bounded(matches, rows, columns, row + 1, column + 1);
        lemma_lcs_bounded(matches, rows, columns, row + 1, column);
        lemma_lcs_bounded(matches, rows, columns, row, column + 1);
    }
}

/// Whether `pairs` is a common subsequence of rows `row..rows` and columns
/// `column..columns`: each pair is a matching cell among them, and the pairs strictly
/// increase on both sides.
pub open spec fn common_pairs(matches: Seq<bool>, rows: int, columns: int, row: int, column: int, pairs: Seq<(int, int)>) -> bool {
    &&& forall|k: int| 0 <= k < pairs.len() ==> row <= (#[trigger] pairs[k]).0 < rows && column <= pairs[k].1 < columns
        && cell(matches, columns, pairs[k].0, pairs[k].1)
    &&& forall|k: int, l: int| 0 <= k < l < pairs.len() ==> (#[trigger] pairs[k]).0 < (#[trigger] pairs[l]).0 && pairs[k].1 < pairs[l].1
}

/// No common subsequence of rows `row..rows` and columns `column..columns` is longer than
/// `lcs` says.
pub proof fn lemma_lcs_longest(matches: Seq<bool>, rows: int, columns: int, row: int, column: int, pairs: Seq<(int, int)>)
    requires
        0 <= row,
        0 <= column,
        common_pairs(matches, rows, columns, row, column, pairs),
    ensures
        pairs.len() <= lcs(matches, rows, columns, row, column),
    decreases rows - row + columns - column,
{
    if pairs.len() > 0 {
        let first = pairs[0];
        let rest = pairs.drop_first();
        assert(row <= first.0 < rows && column <= first.1 < columns);
        assert forall|k: int| 0 <= k < rest.len() implies #[trigger] rest[k] == pairs[k + 1] && first.0 < rest[k].0 && first.1 < rest[k].1 by {
            assert(pairs[0].0 < pairs[k + 1].0);
        }
        if cell(matches, columns, row, column) {
            assert(common_pairs(matches, rows, columns, row + 1, column + 1, rest)) by {
                assert forall|k: int, l: int| 0 <= k < l < rest.len() implies (#[trigger] rest[k]).0 < (#[trigger] rest[l]).0 && rest[k].1 < rest[l].1 by {
                    assert(pairs[k + 1].0 < pairs[l + 1].0);
                }
            }
            lemma_lcs_longest(matches, rows, columns, row + 1, column + 1, rest);
        } else if first.0 > row {
            assert forall|k: int| 0 <= k < pairs.len() implies row + 1 <= (#[trigger] pairs[k]).0 by {
                if k > 0 {
                    assert(pairs[0].0 < pairs[k].0);
                }
            }
            lemma_lcs_longest(matches, rows, columns, row + 1, column, pairs);
        } else {
            assert(first.1 > column);
            assert forall|k: int| 0 <= k < pairs.len() implies column + 1 <= (#[trigger] pairs[k]).1 by {
                if k > 0 {
                    assert(pairs[0].1 < pairs[k].1);
                }
            }
            lemma_lcs_longest(matches, rows, columns, row, column + 1, pairs);
        }
    }
}

/// The traceback picks a longest common subsequence: no common subsequence of the whole
/// table has more pairs than it.
pub proof fn lemma_traceback_longest(matches: Seq<bool>, rows: int, columns: int, pairs: Seq<(int, int)>)
    requires
        rows <= usize::MAX,
        columns <= usize::MAX,
        common_pairs(matches, rows, columns, 0, 0, pairs),
    ensures
        pairs.len() <= traceback(matches, rows, columns, 0, 0).len(),
{
    lemma_traceback_shape(matches, rows, columns, 0, 0);
    lemma_lcs_longest(matches, rows, columns, 0, 0, pairs);
}

/// The longest common subsequence of `left` rows and `right` columns under the row-major
/// match matrix `matches`, as the traceback picks it.
pub fn paired_by(left: usize, right: usize, matches: &Vec<bool>) -> (pairs: Vec<(usize, usize)>)
    requires
        matches@.len() == left * right,
        (left + 1) * (right + 1) <= usize::MAX,
    ensures
        pairs@ == traceback(matches@, left as int, right as int, 0, 0),
{
    let cells = matches.len();
    proof {
        assert(left + 1 <= (left + 1) * (right + 1)) by (nonlinear_arith)
            requires right >= 0;
        assert(right + 1 <= (left + 1) * (right + 1)) by (nonlinear_arith)
            requires left >= 0;
    }
    let rows = left + 1;
    let columns = right + 1;
    let size = rows * columns;
    let mut table: Vec<usize> = Vec::new();
    let mut k: usize = 0;
    while k < size
        invariant
            k <= size,
            table@.len() == k,
            forall|j: int| 0 <= j < k ==> #[trigger] table@[j] == 0,
        decreases size - k,
    {
        table.push(0);
        k = k + 1;
    }
    proof {
        assert(size == (left as int) * (right as int + 1) + right as int + 1) by (nonlinear_arith)
            requires size == (left + 1) * (right + 1);
    }
    let ghost m = matches@;
    let ghost l = left as int;
    let ghost r = right as int;
    assert forall|i: int, j: int| 0 <= i <= l && 0 <= j <= r && (i == l || j == r) implies #[trigger] table@[table_index(i, j, r)] == 0 by {
        lemma_index_in_table(i, j, l, r);
    }
    assert forall|i: int, j: int| 0 <= i <= l && 0 <= j <= r && (i >= left || i == l || j == r) implies #[trigger] table@[table_index(i, j, r)] == lcs(m, l, r, i, j) by {
        lemma_index_in_table(i, j, l, r);
    }
    let mut row = left;
    while row > 0
        invariant
            row <= left,
            m == matches@,
            matches@.len() == left * right,
            cells == matches@.len(),
            table@.len() == size,
            size == l * (r + 1) + r + 1,
            l == left,
            r == right,
            columns == right + 1,
            forall|i: int, j: int| 0 <= i <= l && 0 <= j <= r && (i >= row || i == l || j == r) ==> #[trigger] table@[table_index(i, j, r)] == lcs(m, l, r, i, j),
            forall|i: int, j: int| 0 <= i <= l && 0 <= j <= r && (i == l || j == r) ==> #[trigger] table@[table_index(i, j, r)] == 0,
        decreases row,
    {
        row = row - 1;
        let mut column = right;
        while column > 0
            invariant
                row < left,
                column <= right,
                m == matches@,
                matches@.len() == left * right,
                cells == matches@.len(),
                table@.len() == size,
                size == l * (r + 1) + r + 1,
                l == left,
                r == right,
                columns == right + 1,
                forall|i: int, j: int| 0 <= i <= l && 0 <= j <= r && (i > row || i == l || j == r || (i == row && j >= column)) ==> #[trigger] table@[table_index(i, j, r)] == lcs(m, l, r, i, j),
                forall|i: int, j: int| 0 <= i <= l && 0 <= j <= r && (i == l || j == r) ==> #[trigger] table@[table_index(i, j, r)] == 0,
            decreases column,
        {
            column = column - 1;
            proof {
                lemma_index_in_table(row as int, column as int, l, r);
                lemma_index_in_table(row as int + 1, column as int, l, r);
                lemma_matrix_index(row as int, column as int, l, r);
                assert((row as int + 1) * (r + 1) + column == row * (r + 1) + column + r + 1) by (nonlinear_arith);
                lemma_lcs_bounded(m, l, r, row as int + 1, column as int + 1);
                lemma_lcs_bounded(m, l, r, row as int + 1, column as int);
                lemma_lcs_bounded(m, l, r, row as int, column as int + 1);
            }
            let at = row * columns + column;
            proof {
                assert(at == table_index(row as int, column as int, r));
                assert(at + columns + 1 == table_index(row + 1, column + 1, r));
                assert(at + columns == table_index(row + 1, column as int, r));
                assert(at + 1 == table_index(row as int, column + 1, r));
                assert(table@[table_index(row + 1, column + 1, r)] == lcs(m, l, r, row + 1, column + 1));
                assert(table@[table_index(row + 1, column as int, r)] == lcs(m, l, r, row + 1, column as int));
                assert(table@[table_index(row as int, column + 1, r)] == lcs(m, l, r, row as int, column + 1));
            }
            let value = if matches[row * right + column] {
                table[at + columns + 1] + 1
            } else {
                let down = table[at + columns];
                let across = table[at + 1];
                if down >= across { down } else { across }
            };
            assert(value == lcs(m, l, r, row as int, column as int));
            let ghost before = table@;
            table.set(at, value);
            proof {
                assert forall|i: int, j: int| 0 <= i <= l && 0 <= j <= r && (i == l || j == r) implies #[trigger] table@[table_index(i, j, r)] == 0 by {
                    lemma_index_in_table(i, j, l, r);
                    assert(before[table_index(i, j, r)] == 0);
                    if table_index(i, j, r) == at {
                        lemma_same_cell(i, j, row as int, column as int, r);
                    }
                }
                assert forall|i: int, j: int| 0 <= i <= l && 0 <= j <= r && (i > row || i == l || j == r || (i == row && j >= column)) implies #[trigger] table@[table_index(i, j, r)] == lcs(m, l, r, i, j) by {
                    lemma_index_in_table(i, j, l, r);
                    if table_index(i, j, r) == at {
                        lemma_same_cell(i, j, row as int, column as int, r);
                    } else {
                        assert(before[table_index(i, j, r)] == lcs(m, l, r, i, j));
                    }
                }
            }
        }
    }
    let mut pairs: Vec<(usize, usize)> = Vec::new();
    let mut i: usize = 0;
    let mut j: usize = 0;
    while i < left && j < right
        invariant
            i <= left,
            j <= right,
            m == matches@,
            matches@.len() == left * right,
            cells == matches@.len(),
            table@.len() == size,
            size == l * (r + 1) + r + 1,
            l == left,
            r == right,
            columns == right + 1,
            forall|a: int, b: int| 0 <= a <= l && 0 <= b <= r ==> #[trigger] table@[table_index(a, b, r)] == lcs(m, l, r, a, b),
            pairs@ + traceback(m, l, r, i as int, j as int) == traceback(m, l, r, 0, 0),
        decreases left - i + right - j,
    {
        proof {
            lemma_index_in_table(i as int, j as int, l, r);
            lemma_matrix_index(i as int, j as int, l, r);
            assert((i as int + 1) * (r + 1) + j == i * (r + 1) + j + r + 1) by (nonlinear_arith);
        }
        let at = i * columns + j;
        proof {
            assert(at + columns == table_index(i + 1, j as int, r));
            assert(at + 1 == table_index(i as int, j + 1, r));
            assert(table@[table_index(i + 1, j as int, r)] == lcs(m, l, r, i + 1, j as int));
            assert(table@[table_index(i as int, j + 1, r)] == lcs(m, l, r, i as int, j + 1));
        }
        if matches[i * right + j] {
            proof {
                assert(pairs@.push((i, j)) + traceback(m, l, r, i + 1, j + 1) =~= pairs@ + traceback(m, l, r, i as int, j as int));
            }
            pairs.push((i, j));
            i = i + 1;
            j = j + 1;
        } else if table[at + columns] >= table[at + 1] {
            i = i + 1;
        } else {
            j = j + 1;
        }
    }
    proof {
        assert(traceback(m, l, r, i as int, j as int) =~= Seq::<(usize, usize)>::empty());
        assert(pairs@ + Seq::<(usize, usize)>::empty() =~= pairs@);
    }
    pairs
}

proof fn lemma_same_cell(i: int, j: int, a: int, b: int, r: int)
    requires
        0 <= j <= r,
        0 <= b <= r,
        i >= 0,
        a >= 0,
        i * (r + 1) + j == a * (r + 1) + b,
    ensures
        i == a && j == b,
{
    if i < a {
        assert((i + 1) * (r + 1) <= a * (r + 1)) by (nonlinear_arith)
            requires i + 1 <= a, r >= 0;
        assert((i + 1) * (r + 1) == i * (r + 1) + r + 1) by (nonlinear_arith);
    } else if i > a {
        assert((a + 1) * (r + 1) <= i * (r + 1)) by (nonlinear_arith)
            requires a + 1 <= i, r >= 0;
        assert((a + 1) * (r + 1) == a * (r + 1) + r + 1) by (nonlinear_arith);
    }
}

/// Whether the pairs of a group represent it: they start with the first tokens of both
/// sides and end with the last ones, and between consecutive pairs the source side only
/// skips tokens where the guide side skips at least one too.
pub open spec fn spec_represented(pairs: Seq<(usize, usize)>, source_len: int, guide_len: int) -> bool {
    &&& pairs.len() > 0
    &&& pairs[0] == (0usize, 0usize)
    &&& pairs.last().0 == source_len - 1 && pairs.last().1 == guide_len - 1
    &&& forall|i: int| 0 <= i < pairs.len() - 1 ==> #[trigger] pairs[i + 1].0 == pairs[i].0 + 1 || pairs[i + 1].1 > pairs[i].1 + 1
}

/// Decides `spec_represented`.
pub fn represented(pairs: &[(usize, usize)], source_len: usize, guide_len: usize) -> (valid: bool)
    requires
        source_len >= 1,
        guide_len >= 1,
    ensures
        valid == spec_represented(pairs@, source_len as int, guide_len as int),
{
    if pairs.len() == 0 {
        return false;
    }
    let last = pairs[pairs.len() - 1];
    let first = pairs[0];
    if first.0 != 0 || first.1 != 0 || last.0 != source_len - 1 || last.1 != guide_len - 1 {
        return false;
    }
    let mut i: usize = 0;
    while i < pairs.len() - 1
        invariant
            pairs@.len() > 0,
            i < pairs@.len(),
            forall|k: int| 0 <= k < i ==> #[trigger] pairs@[k + 1].0 == pairs@[k].0 + 1 || pairs@[k + 1].1 > pairs@[k].1 + 1,
        decreases pairs@.len() - i,
    {
        let here = pairs[i];
        let next = pairs[i + 1];
        if !(here.0 < usize::MAX && next.0 == here.0 + 1) && !(here.1 < usize::MAX && next.1 > here.1 + 1) {
            assert(!(pairs@[i + 1].0 == pairs@[i as int].0 + 1 || pairs@[i + 1].1 > pairs@[i as int].1 + 1));
            return false;
        }
        i = i + 1;
    }
    true
}

/// A source line: its position among the source lines, and its canonical tokens unless
/// its cues could not be mapped.
pub struct SourceLine {
    pub index: usize,
    pub tokens: Option<Vec<Sung>>,
}

/// The earliest start of the first `k` tokens.
pub open spec fn earliest(tokens: Seq<Sung>, k: int) -> u64
    decreases k,
{
    if k <= 1 {
        tokens[0].start
    } else {
        min(earliest(tokens, k - 1), tokens[k - 1].start)
    }
}

/// The latest end of the first `k` tokens.
pub open spec fn latest(tokens: Seq<Sung>, k: int) -> u64
    decreases k,
{
    if k <= 1 {
        tokens[0].end
    } else {
        max(latest(tokens, k - 1), tokens[k - 1].end)
    }
}

/// The time a source line's tokens span: from the earliest start to the latest end (never
/// before that start). None without tokens.
pub open spec fn spec_extent(source: SourceLine) -> Option<(u64, u64)> {
    match source.tokens {
        None => None,
        Some(tokens) => if tokens@.len() == 0 {
            None
        } else {
            let start = earliest(tokens@, tokens@.len() as int);
            Some((start, max(latest(tokens@, tokens@.len() as int), start)))
        },
    }
}

/// Decides `spec_extent`.
pub fn source_extent(source: &SourceLine) -> (extent: Option<(u64, u64)>)
    ensures
        extent == spec_extent(*source),
{
    let tokens = match &source.tokens {
        Some(tokens) => tokens,
        None => return None,
    };
    if tokens.len() == 0 {
        return None;
    }
    let mut start = tokens[0].start;
    let mut end = tokens[0].end;
    let mut k: usize = 1;
    while k < tokens.len()
        invariant
            1 <= k <= tokens@.len(),
            start == earliest(tokens@, k as int),
            end == latest(tokens@, k as int),
        decreases tokens@.len() - k,
    {
        if tokens[k].start < start {
            start = tokens[k].start;
        }
        if tokens[k].end > end {
            end = tokens[k].end;
        }
        k = k + 1;
    }
    let end = if end >= start { end } else { start };
    Some((start, end))
}

/// Whether a source line may belong to a guide line with window `hint`: it has tokens and
/// the time they span is compatible with the window.
pub open spec fn spec_source_compatible(source: SourceLine, hint: GuideHint) -> bool {
    match spec_extent(source) {
        Some((start, end)) => line_compatible(start, end, hint),
        None => false,
    }
}

/// Decides `spec_source_compatible`.
pub fn source_temporally_compatible(source: &SourceLine, hint: GuideHint) -> (compatible: bool)
    ensures
        compatible == spec_source_compatible(*source, hint),
{
    match source_extent(source) {
        Some((start, end)) => line_temporally_compatible(start, end, hint),
        None => false,
    }
}

/// Whether every source line of a group is compatible with some guide window of it, and
/// every guide window with some source line.
pub open spec fn spec_group_compatible(sources: Seq<SourceLine>, hints: Seq<GuideHint>) -> bool {
    &&& forall|i: int| 0 <= i < sources.len() ==> #[trigger] source_placed(sources, hints, i)
    &&& forall|j: int| 0 <= j < hints.len() ==> #[trigger] hint_served(sources, hints, j)
}

/// Whether source line `i` is compatible with some guide window.
pub open spec fn source_placed(sources: Seq<SourceLine>, hints: Seq<GuideHint>, i: int) -> bool {
    exists|j: int| 0 <= j < hints.len() && #[trigger] spec_source_compatible(sources[i], hints[j])
}

/// Whether guide window `j` is compatible with some source line.
pub open spec fn hint_served(sources: Seq<SourceLine>, hints: Seq<GuideHint>, j: int) -> bool {
    exists|i: int| 0 <= i < sources.len() && #[trigger] spec_source_compatible(sources[i], hints[j])
}

fn group_temporally_compatible(sources: &[SourceLine], hints: &[GuideHint]) -> (compatible: bool)
    ensures
        compatible == spec_group_compatible(sources@, hints@),
{
    let mut i: usize = 0;
    while i < sources.len()
        invariant
            i <= sources@.len(),
            forall|a: int| 0 <= a < i ==> #[trigger] source_placed(sources@, hints@, a),
        decreases sources@.len() - i,
    {
        let mut found = false;
        let mut j: usize = 0;
        while j < hints.len() && !found
            invariant
                j <= hints@.len(),
                i < sources@.len(),
                found ==> source_placed(sources@, hints@, i as int),
                !found ==> forall|b: int| 0 <= b < j ==> !#[trigger] spec_source_compatible(sources@[i as int], hints@[b]),
            decreases hints@.len() - j + (if found { 0int } else { 1int }),
        {
            if source_temporally_compatible(&sources[i], hints[j]) {
                found = true;
            } else {
                j = j + 1;
            }
        }
        if !found {
            assert(!source_placed(sources@, hints@, i as int));
            return false;
        }
        i = i + 1;
    }
    let mut j: usize = 0;
    while j < hints.len()
        invariant
            j <= hints@.len(),
            forall|a: int| 0 <= a < sources@.len() ==> #[trigger] source_placed(sources@, hints@, a),
            forall|b: int| 0 <= b < j ==> #[trigger] hint_served(sources@, hints@, b),
        decreases hints@.len() - j,
    {
        let mut found = false;
        let mut i: usize = 0;
        while i < sources.len() && !found
            invariant
                i <= sources@.len(),
                j < hints@.len(),
                found ==> hint_served(sources@, hints@, j as int),
                !found ==> forall|a: int| 0 <= a < i ==> !#[trigger] spec_source_compatible(sources@[a], hints@[j as int]),
            decreases sources@.len() - i + (if found { 0int } else { 1int }),
        {
            if source_temporally_compatible(&sources[i], hints[j]) {
                found = true;
            } else {
                i = i + 1;
            }
        }
        if !found {
            assert(!hint_served(sources@, hints@, j as int));
            return false;
        }
        j = j + 1;
    }
    true
}

/// Whether source token `row` may pair with guide token `column`: akin keys, and a
/// provider-timed token must fall in the guide line's window.
pub open spec fn pairable(source: Seq<&Sung>, guide: Seq<(usize, &Slot)>, hints: Seq<GuideHint>, row: int, column: int) -> bool {
    &&& keys_akin(source[row].key@, guide[column].1.key@)
    &&& (source[row].timing == Timing::Synthesized || token_compatible(source[row].start, source[row].end, hints[guide[column].0 as int]))
}

/// The row-major matrix of `pairable`.
pub open spec fn pair_matrix(source: Seq<&Sung>, guide: Seq<(usize, &Slot)>, hints: Seq<GuideHint>) -> Seq<bool> {
    Seq::new(
        (source.len() * guide.len()) as nat,
        |k: int| pairable(source, guide, hints, k / (guide.len() as int), k % (guide.len() as int)),
    )
}

/// The pairs of source and guide tokens that a group aligns: the traceback of the longest
/// common subsequence of pairable tokens.
pub fn local_pairs(source: &Vec<&Sung>, guide: &Vec<(usize, &Slot)>, hints: &Vec<GuideHint>) -> (pairs: Vec<(usize, usize)>)
    requires
        forall|k: int| 0 <= k < guide@.len() ==> (#[trigger] guide@[k]).0 < hints@.len(),
        (source@.len() + 1) * (guide@.len() + 1) <= usize::MAX,
    ensures
        pairs@ == traceback(pair_matrix(source@, guide@, hints@), source@.len() as int, guide@.len() as int, 0, 0),
{
    let left = source.len();
    let right = guide.len();
    let ghost target = pair_matrix(source@, guide@, hints@);
    proof {
        assert(left * right <= (left + 1) * (right + 1)) by (nonlinear_arith);
    }
    let mut matches: Vec<bool> = Vec::new();
    let mut row: usize = 0;
    while row < left
        invariant
            left == source@.len(),
            right == guide@.len(),
            left * right <= usize::MAX,
            target == pair_matrix(source@, guide@, hints@),
            forall|k: int| 0 <= k < guide@.len() ==> (#[trigger] guide@[k]).0 < hints@.len(),
            row <= left,
            matches@.len() == row * right,
            forall|k: int| 0 <= k < matches@.len() ==> #[trigger] matches@[k] == target[k],
        decreases left - row,
    {
        let mut column: usize = 0;
        while column < right
            invariant
                left == source@.len(),
                right == guide@.len(),
                target == pair_matrix(source@, guide@, hints@),
                forall|k: int| 0 <= k < guide@.len() ==> (#[trigger] guide@[k]).0 < hints@.len(),
                row < left,
                column <= right,
                matches@.len() == row * right + column,
                forall|k: int| 0 <= k < matches@.len() ==> #[trigger] matches@[k] == target[k],
            decreases right - column,
        {
            let token = source[row];
            let (line, slot) = guide[column];
            let fits = akin(&token.key, &slot.key) && (token.timing == Timing::Synthesized
                || token_temporally_compatible(token.start, token.end, hints[line]));
            proof {
                let k = row * right + column;
                assert(k < left * right) by (nonlinear_arith)
                    requires k == row * right + column, column < right, row < left;
                vstd::arithmetic::div_mod::lemma_fundamental_div_mod_converse(k as int, right as int, row as int, column as int);
                assert(target[k as int] == pairable(source@, guide@, hints@, row as int, column as int));
            }
            matches.push(fits);
            column = column + 1;
        }
        proof {
            assert(row * right + right == (row + 1) * right) by (nonlinear_arith);
            assert((row + 1) * right <= left * right) by (nonlinear_arith)
                requires row + 1 <= left;
        }
        row = row + 1;
    }
    assert(matches@ =~= target);
    paired_by(left, right, &matches)
}

/// The position of the last known span before position `i`, or -1.
pub open spec fn prev_known(spans: Seq<Option<(u64, u64)>>, i: int) -> int
    decreases i,
{
    if i <= 0 {
        -1
    } else if spans[i - 1] is Some {
        i - 1
    } else {
        prev_known(spans, i - 1)
    }
}

/// The position of the first known span after position `i`, or the length.
pub open spec fn next_known(spans: Seq<Option<(u64, u64)>>, i: int) -> int
    decreases spans.len() - i,
{
    if i + 1 >= spans.len() {
        spans.len() as int
    } else if spans[i + 1] is Some {
        i + 1
    } else {
        next_known(spans, i + 1)
    }
}

/// Whether the unknown span at `i` has known neighbours on both sides that do not run
/// backwards.
pub open spec fn fillable(spans: Seq<Option<(u64, u64)>>, i: int) -> bool {
    let p = prev_known(spans, i);
    let q = next_known(spans, i);
    &&& p >= 0
    &&& q < spans.len()
    &&& spans[q].unwrap().0 >= spans[p].unwrap().1
}

/// The span at `i`: the known one, or an equal share of the gap between the known
/// neighbours.
pub open spec fn filled_at(spans: Seq<Option<(u64, u64)>>, i: int) -> (u64, u64) {
    match spans[i] {
        Some(span) => span,
        None => {
            let p = prev_known(spans, i);
            let q = next_known(spans, i);
            let after = spans[p].unwrap().1;
            let before = spans[q].unwrap().0;
            let count = (q - p - 1) as nat;
            let step = (i - p - 1) as nat;
            (between(after, before, step, count), between(after, before, step + 1, count))
        },
    }
}

proof fn lemma_prev_in_run(spans: Seq<Option<(u64, u64)>>, start: int, i: int)
    requires
        0 <= start <= i < spans.len(),
        forall|k: int| start <= k <= i ==> #[trigger] spans[k] is None,
        start == 0 || spans[start - 1] is Some,
    ensures
        prev_known(spans, i) == start - 1,
    decreases i - start,
{
    if i > start {
        lemma_prev_in_run(spans, start, i - 1);
    }
}

proof fn lemma_next_in_run(spans: Seq<Option<(u64, u64)>>, i: int, until: int)
    requires
        0 <= i < until <= spans.len(),
        forall|k: int| i <= k < until ==> #[trigger] spans[k] is None,
        until == spans.len() || spans[until] is Some,
    ensures
        next_known(spans, i) == until,
    decreases until - i,
{
    if i + 1 < until {
        lemma_next_in_run(spans, i + 1, until);
    }
}

/// Filling shares each gap contiguously: where one of two neighbouring spans was unknown
/// (and could be filled), the first ends exactly where the second starts, so a run of
/// unknown spans runs from the end of the known span before it to the start of the known
/// span after it.
proof fn lemma_prev_below(spans: Seq<Option<(u64, u64)>>, i: int)
    requires
        i >= 0,
    ensures
        prev_known(spans, i) <= i - 1,
    decreases i,
{
    if i > 0 && spans[i - 1] is None {
        lemma_prev_below(spans, i - 1);
        assert(prev_known(spans, i) == prev_known(spans, i - 1));
    }
}

proof fn lemma_next_above(spans: Seq<Option<(u64, u64)>>, i: int)
    requires
        i < spans.len(),
    ensures
        next_known(spans, i) >= i + 1,
    decreases spans.len() - i,
{
    if i + 1 >= spans.len() {
        assert(next_known(spans, i) == spans.len());
    } else if spans[i + 1] is Some {
        assert(next_known(spans, i) == i + 1);
    } else {
        lemma_next_above(spans, i + 1);
        assert(next_known(spans, i) == next_known(spans, i + 1));
    }
}

pub proof fn lemma_filled_contiguous(spans: Seq<Option<(u64, u64)>>, i: int)
    requires
        0 <= i,
        i + 1 < spans.len(),
        spans[i] is None || spans[i + 1] is None,
        spans[i] is None ==> fillable(spans, i),
        spans[i + 1] is None ==> fillable(spans, i + 1),
    ensures
        filled_at(spans, i).1 == filled_at(spans, i + 1).0,
{
    lemma_prev_below(spans, i);
    lemma_next_above(spans, i + 1);
    if spans[i] is None && spans[i + 1] is Some {
        let p = prev_known(spans, i);
        assert(next_known(spans, i) == i + 1);
        let after = spans[p].unwrap().1;
        let before = spans[i + 1].unwrap().0;
        let count = (i - p) as nat;
        assert(before >= after);
        assert(((before - after) * (count as int)) / (count as int) == before - after) by (nonlinear_arith)
            requires count > 0;
        assert(filled_at(spans, i).1 == between(after, before, count, count));
    } else if spans[i] is Some && spans[i + 1] is None {
        assert(prev_known(spans, i + 1) == i);
        let q = next_known(spans, i + 1);
        let after = spans[i].unwrap().1;
        let before = spans[q].unwrap().0;
        let count = (q - i - 1) as nat;
        assert(count > 0);
        assert(((before - after) * 0int) / (count as int) == 0) by (nonlinear_arith)
            requires count > 0;
        assert(filled_at(spans, i + 1).0 == between(after, before, 0, count));
    } else {
        assert(prev_known(spans, i + 1) == prev_known(spans, i));
        assert(next_known(spans, i) == next_known(spans, i + 1));
    }
}

/// Fills every unknown span by sharing the gap between its known neighbours equally;
/// `None` when an unknown span lacks a neighbour on either side or its neighbours run
/// backwards.
pub fn filled(spans: Vec<Option<(u64, u64)>>) -> (settled: Option<Vec<(u64, u64)>>)
    ensures
        settled is None <==> exists|i: int| 0 <= i < spans@.len() && spans@[i] is None && !#[trigger] fillable(spans@, i),
        settled matches Some(settled) ==> settled@.len() == spans@.len() && forall|i: int| 0 <= i < spans@.len() ==> #[trigger] settled@[i] == filled_at(spans@, i),
{
    let ghost all = spans@;
    let mut settled: Vec<(u64, u64)> = Vec::new();
    let mut index: usize = 0;
    while index < spans.len()
        invariant
            all == spans@,
            index <= spans@.len(),
            settled@.len() == index,
            0 < index < spans@.len() ==> spans@[index - 1] is Some || spans@[index as int] is Some,
            forall|i: int| 0 <= i < index ==> #[trigger] settled@[i] == filled_at(all, i),
            forall|i: int| 0 <= i < index && all[i] is None ==> #[trigger] fillable(all, i),
        decreases spans@.len() - index,
    {
        match spans[index] {
            Some(span) => {
                settled.push(span);
                index = index + 1;
            },
            None => {
                let mut until = index;
                while until < spans.len() && spans[until].is_none()
                    invariant
                        index <= until <= spans@.len(),
                        forall|k: int| index <= k < until ==> #[trigger] spans@[k] is None,
                    decreases spans@.len() - until,
                {
                    until = until + 1;
                }
                proof {
                    lemma_prev_in_run(all, index as int, index as int);
                    lemma_next_in_run(all, index as int, until as int);
                }
                if index == 0 {
                    assert(!fillable(all, 0));
                    return None;
                }
                let after = settled[index - 1].1;
                assert(after == all[index - 1].unwrap().1);
                if until == spans.len() {
                    assert(!fillable(all, index as int));
                    return None;
                }
                let before = match spans[until] {
                    Some(span) => span.0,
                    None => 0,
                };
                if before < after {
                    assert(!fillable(all, index as int));
                    return None;
                }
                let count = until - index;
                let mut step: usize = 0;
                while step < count
                    invariant
                        all == spans@,
                        0 < index < until < spans@.len(),
                        count == until - index,
                        step <= count,
                        settled@.len() == index + step,
                        after == all[index - 1].unwrap().1,
                        before == all[until as int].unwrap().0,
                        after <= before,
                        forall|k: int| index <= k < until ==> #[trigger] spans@[k] is None,
                        spans@[index - 1] is Some,
                        spans@[until as int] is Some,
                        forall|i: int| 0 <= i < index + step ==> #[trigger] settled@[i] == filled_at(all, i),
                        forall|i: int| 0 <= i < index + step && all[i] is None ==> #[trigger] fillable(all, i),
                    decreases count - step,
                {
                    let at = index + step;
                    proof {
                        lemma_prev_in_run(all, index as int, at as int);
                        lemma_next_in_run(all, at as int, until as int);
                        lemma_between_monotone(after, before, step as nat, (step + 1) as nat, count as nat);
                    }
                    let from = interpolate(after, before, step, count);
                    let to = interpolate(after, before, step + 1, count);
                    settled.push((from, to));
                    step = step + 1;
                }
                index = until;
            },
        }
    }
    assert forall|i: int| 0 <= i < spans@.len() && spans@[i] is None implies #[trigger] fillable(spans@, i) by {}
    Some(settled)
}

/// The pairs of the traceback from `(row, column)` lie at or after it, within the table,
/// strictly increase on both sides, and pair only matching cells.
pub proof fn lemma_traceback_shape(matches: Seq<bool>, rows: int, columns: int, row: int, column: int)
    requires
        0 <= row,
        0 <= column,
        rows <= usize::MAX,
        columns <= usize::MAX,
    ensures
        forall|k: int| 0 <= k < traceback(matches, rows, columns, row, column).len() ==> {
            let pair = #[trigger] traceback(matches, rows, columns, row, column)[k];
            &&& row <= pair.0 < rows
            &&& column <= pair.1 < columns
            &&& cell(matches, columns, pair.0 as int, pair.1 as int)
        },
        forall|k: int, l: int| 0 <= k < l < traceback(matches, rows, columns, row, column).len() ==>
            (#[trigger] traceback(matches, rows, columns, row, column)[k]).0 < (#[trigger] traceback(matches, rows, columns, row, column)[l]).0
            && traceback(matches, rows, columns, row, column)[k].1 < traceback(matches, rows, columns, row, column)[l].1,
        traceback(matches, rows, columns, row, column).len() == lcs(matches, rows, columns, row, column),
    decreases rows - row + columns - column,
{
    if row >= rows || column >= columns {
    } else if cell(matches, columns, row, column) {
        lemma_traceback_shape(matches, rows, columns, row + 1, column + 1);
        let rest = traceback(matches, rows, columns, row + 1, column + 1);
        let all = traceback(matches, rows, columns, row, column);
        assert(all == seq![(row as usize, column as usize)] + rest);
        assert forall|k: int| 0 <= k < all.len() implies {
            let pair = #[trigger] all[k];
            &&& row <= pair.0 < rows
            &&& column <= pair.1 < columns
            &&& cell(matches, columns, pair.0 as int, pair.1 as int)
        } by {
            if k > 0 {
                assert(all[k] == rest[k - 1]);
            }
        }
        assert forall|k: int, l: int| 0 <= k < l < all.len() implies
            (#[trigger] all[k]).0 < (#[trigger] all[l]).0 && all[k].1 < all[l].1 by {
            assert(all[l] == rest[l - 1]);
            if k > 0 {
                assert(all[k] == rest[k - 1]);
            }
        }
    } else if lcs(matches, rows, columns, row + 1, column) >= lcs(matches, rows, columns, row, column + 1) {
        lemma_traceback_shape(matches, rows, columns, row + 1, column);
    } else {
        lemma_traceback_shape(matches, rows, columns, row, column + 1);
    }
}

/// The spans that the first `k` pairs give their guide tokens: the time of their source
/// token.
pub open spec fn paired_spans(source: Seq<&Sung>, guide_len: nat, pairs: Seq<(usize, usize)>, k: int) -> Seq<Option<(u64, u64)>>
    decreases k,
{
    if k <= 0 {
        Seq::new(guide_len, |i: int| None)
    } else {
        let pair = pairs[k - 1];
        paired_spans(source, guide_len, pairs, k - 1).update(
            pair.1 as int,
            Some((source[pair.0 as int].start, source[pair.0 as int].end)),
        )
    }
}

proof fn lemma_paired_spans_len(source: Seq<&Sung>, guide_len: nat, pairs: Seq<(usize, usize)>, k: int)
    requires
        k <= pairs.len(),
        forall|j: int| 0 <= j < k ==> (#[trigger] pairs[j]).1 < guide_len,
    ensures
        paired_spans(source, guide_len, pairs, k).len() == guide_len,
    decreases k,
{
    if k > 0 {
        lemma_paired_spans_len(source, guide_len, pairs, k - 1);
    }
}

/// Whether the source starts of consecutive pairs never run backwards.
pub open spec fn starts_in_order(source: Seq<&Sung>, pairs: Seq<(usize, usize)>) -> bool {
    forall|k: int| 0 <= k < pairs.len() - 1 ==> #[trigger] source[pairs[k].0 as int].start <= source[pairs[k + 1].0 as int].start
}

/// The pairs of a group and the span of every guide token.
pub struct Alignment {
    pub pairs: Vec<(usize, usize)>,
    pub spans: Vec<(u64, u64)>,
}

/// Whether the source starts of consecutive pairs never run backwards.
fn in_order(source: &Vec<&Sung>, pairs: &Vec<(usize, usize)>) -> (ordered: bool)
    requires
        forall|j: int| 0 <= j < pairs@.len() ==> (#[trigger] pairs@[j]).0 < source@.len(),
    ensures
        ordered == starts_in_order(source@, pairs@),
{
    if pairs.len() == 0 {
        return true;
    }
    let mut k: usize = 0;
    while k < pairs.len() - 1
        invariant
            pairs@.len() > 0,
            k < pairs@.len(),
            forall|j: int| 0 <= j < pairs@.len() ==> (#[trigger] pairs@[j]).0 < source@.len(),
            forall|j: int| 0 <= j < k ==> #[trigger] source@[pairs@[j].0 as int].start <= source@[pairs@[j + 1].0 as int].start,
        decreases pairs@.len() - k,
    {
        if source[pairs[k].0].start > source[pairs[k + 1].0].start {
            assert(!(source@[pairs@[k as int].0 as int].start <= source@[pairs@[k + 1].0 as int].start));
            return false;
        }
        k = k + 1;
    }
    true
}

/// The span of each guide token that a pair covers; `None` for the others.
fn spans_of_pairs(source: &Vec<&Sung>, guide_len: usize, pairs: &Vec<(usize, usize)>) -> (spans: Vec<Option<(u64, u64)>>)
    requires
        forall|j: int| 0 <= j < pairs@.len() ==> (#[trigger] pairs@[j]).0 < source@.len() && pairs@[j].1 < guide_len,
    ensures
        spans@ == paired_spans(source@, guide_len as nat, pairs@, pairs@.len() as int),
{
    let mut spans: Vec<Option<(u64, u64)>> = Vec::new();
    let mut g: usize = 0;
    while g < guide_len
        invariant
            g <= guide_len,
            spans@.len() == g,
            forall|j: int| 0 <= j < g ==> #[trigger] spans@[j] is None,
        decreases guide_len - g,
    {
        spans.push(None);
        g = g + 1;
    }
    assert(spans@ =~= paired_spans(source@, guide_len as nat, pairs@, 0));
    let mut k: usize = 0;
    while k < pairs.len()
        invariant
            k <= pairs@.len(),
            spans@ == paired_spans(source@, guide_len as nat, pairs@, k as int),
            spans@.len() == guide_len,
            forall|j: int| 0 <= j < pairs@.len() ==> (#[trigger] pairs@[j]).0 < source@.len() && pairs@[j].1 < guide_len,
        decreases pairs@.len() - k,
    {
        let (source_at, guide_at) = pairs[k];
        let token = source[source_at];
        spans.set(guide_at, Some((token.start, token.end)));
        k = k + 1;
    }
    spans
}

/// Aligns the source tokens of a group onto its guide tokens: the pairs must represent the
/// group and keep the source starts in order, and every guide token that no pair covers
/// must be fillable from its paired neighbours.
pub fn local_alignment(source: &Vec<&Sung>, guide: &Vec<(usize, &Slot)>, hints: &Vec<GuideHint>) -> (alignment: Option<Alignment>)
    requires
        forall|k: int| 0 <= k < guide@.len() ==> (#[trigger] guide@[k]).0 < hints@.len(),
        (source@.len() + 1) * (guide@.len() + 1) <= usize::MAX,
    ensures
        ({
            let pairs = traceback(pair_matrix(source@, guide@, hints@), source@.len() as int, guide@.len() as int, 0, 0);
            let spans = paired_spans(source@, guide@.len(), pairs, pairs.len() as int);
            &&& alignment is None <==> (!spec_represented(pairs, source@.len() as int, guide@.len() as int)
                || !starts_in_order(source@, pairs)
                || exists|i: int| 0 <= i < spans.len() && spans[i] is None && !#[trigger] fillable(spans, i))
            &&& alignment matches Some(found) ==> {
                &&& found.pairs@ == pairs
                &&& found.spans@.len() == guide@.len()
                &&& forall|i: int| 0 <= i < guide@.len() ==> #[trigger] found.spans@[i] == filled_at(spans, i)
            }
        }),
{
    let left = source.len();
    let right = guide.len();
    let ghost matrix = pair_matrix(source@, guide@, hints@);
    let pairs = local_pairs(source, guide, hints);
    proof {
        lemma_traceback_shape(matrix, left as int, right as int, 0, 0);
    }
    if pairs.len() == 0 || !represented(pairs.as_slice(), left, right) {
        return None;
    }
    if !in_order(source, &pairs) {
        return None;
    }
    let spans = spans_of_pairs(source, right, &pairs);
    let ghost known = spans@;
    assert(known == paired_spans(source@, guide@.len(), pairs@, pairs@.len() as int));
    proof {
        lemma_paired_spans_len(source@, guide@.len(), pairs@, pairs@.len() as int);
    }
    let result = filled(spans);
    match result {
        Some(settled) => {
            assert(forall|i: int| 0 <= i < known.len() && known[i] is None ==> #[trigger] fillable(known, i));
            assert(spec_represented(pairs@, left as int, right as int));
            assert(starts_in_order(source@, pairs@));
            assert(settled@.len() == right);
            assert(forall|i: int| 0 <= i < right ==> #[trigger] settled@[i] == filled_at(known, i));
            let found = Alignment { pairs, spans: settled };
            assert(found.pairs@ == traceback(matrix, left as int, right as int, 0, 0));
            Some(found)
        },
        None => {
            assert(exists|i: int| 0 <= i < known.len() && known[i] is None && !#[trigger] fillable(known, i));
            None
        },
    }
}

/// The characters `from..until` of `text`.
pub fn slice_chars(text: &Vec<char>, from: usize, until: usize) -> (part: Vec<char>)
    requires
        from <= until <= text@.len(),
    ensures
        part@ == text@.subrange(from as int, until as int),
{
    let mut part: Vec<char> = Vec::new();
    let mut k = from;
    while k < until
        invariant
            from <= k <= until <= text@.len(),
            part@ == text@.subrange(from as int, k as int),
        decreases until - k,
    {
        part.push(text[k]);
        k = k + 1;
        assert(part@ =~= text@.subrange(from as int, k as int));
    }
    part
}

/// Where the text of word `index` of a line starts: the line's start for the first word,
/// else the word's token.
pub open spec fn word_from(slots: Seq<Slot>, index: int) -> int {
    if index == 0 { 0 } else { slots[index].at as int }
}

/// Where the text of word `index` ends: where the next word's token starts, or the end of
/// the line.
pub open spec fn word_until(slots: Seq<Slot>, length: int, index: int) -> int {
    if index + 1 < slots.len() {
        let next = slots[index + 1].at as int;
        if next >= word_from(slots, index) { next } else { word_from(slots, index) }
    } else {
        length
    }
}

proof fn lemma_word_prefix_spells(text: Seq<char>, slots: Seq<Slot>, words: Seq<LyricsWord>, k: int)
    requires
        ordered_within(slots, text.len()),
        1 <= k <= slots.len(),
        words.len() == slots.len(),
        forall|w: int| 0 <= w < words.len() ==> (#[trigger] words[w]).text@ == text.subrange(
            word_from(slots, w),
            word_until(slots, text.len() as int, w),
        ),
    ensures
        0 <= word_until(slots, text.len() as int, k - 1) <= text.len(),
        word_texts(words).take(k).flatten_alt() == text.subrange(0, word_until(slots, text.len() as int, k - 1)),
    decreases k,
{
    let texts = word_texts(words);
    let length = text.len() as int;
    let prefix = texts.take(k);
    assert(prefix.drop_last() =~= texts.take(k - 1));
    assert(prefix.last() == words[k - 1].text@);
    if k + 0 < slots.len() {
        assert(slots[k - 1].at < slots[k - 1].until);
    }
    if k == 1 {
        assert(texts.take(0) =~= Seq::<Seq<char>>::empty());
        assert(texts.take(0).flatten_alt() =~= Seq::<char>::empty());
        assert(prefix.flatten_alt() =~= text.subrange(0, word_until(slots, length, 0)));
    } else {
        lemma_word_prefix_spells(text, slots, words, k - 1);
        assert(slots[k - 2].at < slots[k - 2].until);
        assert(slots[k - 2].until <= slots[k - 1].at);
        assert(word_until(slots, length, k - 2) == word_from(slots, k - 1));
        assert(prefix.flatten_alt() =~= text.subrange(0, word_until(slots, length, k - 1)));
    }
}

/// Words cut from a line at its tokens, each from its token up to the next one (the first
/// from the line's start, the last to its end), spell out the line exactly.
pub proof fn lemma_words_spell_text(text: Seq<char>, slots: Seq<Slot>, words: Seq<LyricsWord>)
    requires
        ordered_within(slots, text.len()),
        slots.len() > 0,
        words.len() == slots.len(),
        forall|w: int| 0 <= w < words.len() ==> (#[trigger] words[w]).text@ == text.subrange(
            word_from(slots, w),
            word_until(slots, text.len() as int, w),
        ),
    ensures
        word_texts(words).flatten_alt() == text,
{
    lemma_word_prefix_spells(text, slots, words, slots.len() as int);
    assert(word_texts(words).take(slots.len() as int) =~= word_texts(words));
    assert(text.subrange(0, text.len() as int) =~= text);
}

/// Splits a guide line into timed words, one per token: each word takes the text from its
/// token up to the next token (the first from the line's start, the last to its end) and
/// the token's span, never ending before it starts.
pub fn worded_from(text: &Vec<char>, slots: &[Slot], spans: &[(u64, u64)]) -> (words: Vec<LyricsWord>)
    requires
        ordered_within(slots@, text@.len()),
        spans@.len() >= slots@.len(),
    ensures
        words@.len() == slots@.len(),
        forall|i: int| 0 <= i < slots@.len() ==> {
            &&& (#[trigger] words@[i]).start == spans@[i].0
            &&& words@[i].end == max(spans@[i].1, spans@[i].0)
            &&& words@[i].text@ == text@.subrange(word_from(slots@, i), word_until(slots@, text@.len() as int, i))
        },
{
    let mut words: Vec<LyricsWord> = Vec::new();
    let mut index: usize = 0;
    while index < slots.len()
        invariant
            ordered_within(slots@, text@.len()),
            spans@.len() >= slots@.len(),
            index <= slots@.len(),
            words@.len() == index,
            forall|i: int| 0 <= i < index ==> {
                &&& (#[trigger] words@[i]).start == spans@[i].0
                &&& words@[i].end == max(spans@[i].1, spans@[i].0)
                &&& words@[i].text@ == text@.subrange(word_from(slots@, i), word_until(slots@, text@.len() as int, i))
            },
        decreases slots@.len() - index,
    {
        let from = if index == 0 { 0 } else { slots[index].at };
        let until = if index + 1 < slots.len() {
            let next = slots[index + 1].at;
            if next >= from { next } else { from }
        } else {
            text.len()
        };
        assert(slots@[index as int].until <= text@.len());
        if index + 1 < slots.len() {
            assert(slots@[index + 1].until <= text@.len());
            assert(slots@[index + 1].at < slots@[index + 1].until);
        }
        let part = slice_chars(text, from, until);
        let (start, end) = spans[index];
        let end = if end >= start { end } else { start };
        words.push(LyricsWord { start, end, text: string_of(&part) });
        index = index + 1;
    }
    words
}

/// The distance from `start` to the nearest of the first `k` guide windows, or 0 without
/// any.
pub open spec fn nearest_hint(start: u64, hints: Seq<GuideHint>, k: int) -> u128
    decreases k,
{
    if k <= 0 {
        0
    } else if k == 1 {
        distance(start, spec_guide_start(hints[0]))
    } else {
        let rest = nearest_hint(start, hints, k - 1);
        let here = distance(start, spec_guide_start(hints[k - 1]));
        if here < rest { here } else { rest }
    }
}

/// The distance from a guide window to the nearest of the first `k` source starts, or 0
/// without any.
pub open spec fn nearest_start(starts: Seq<u64>, hint: GuideHint, k: int) -> u128
    decreases k,
{
    if k <= 0 {
        0
    } else if k == 1 {
        distance(starts[0], spec_guide_start(hint))
    } else {
        let rest = nearest_start(starts, hint, k - 1);
        let here = distance(starts[k - 1], spec_guide_start(hint));
        if here < rest { here } else { rest }
    }
}

/// The sum, over the first `k` source starts, of the distance to the nearest window.
pub open spec fn source_distance_sum(starts: Seq<u64>, hints: Seq<GuideHint>, k: int) -> int
    decreases k,
{
    if k <= 0 {
        0
    } else {
        source_distance_sum(starts, hints, k - 1) + nearest_hint(starts[k - 1], hints, hints.len() as int)
    }
}

/// The sum, over the first `k` windows, of the distance to the nearest source start.
pub open spec fn guide_distance_sum(starts: Seq<u64>, hints: Seq<GuideHint>, k: int) -> int
    decreases k,
{
    if k <= 0 {
        0
    } else {
        guide_distance_sum(starts, hints, k - 1) + nearest_start(starts, hints[k - 1], starts.len() as int)
    }
}

/// How far apart a group's source lines and guide windows start: for each source line the
/// distance to the nearest window, plus for each window the distance to the nearest source
/// line, capped at the largest `u128`.
pub open spec fn spec_group_distance(starts: Seq<u64>, hints: Seq<GuideHint>) -> u128 {
    let total = source_distance_sum(starts, hints, starts.len() as int) + guide_distance_sum(starts, hints, hints.len() as int);
    if total > u128::MAX { u128::MAX } else { total as u128 }
}

/// The starts of the first `k` source lines, when all have tokens.
pub open spec fn source_starts(sources: Seq<SourceLine>, k: int) -> Option<Seq<u64>>
    decreases k,
{
    if k <= 0 {
        Some(Seq::empty())
    } else {
        match (source_starts(sources, k - 1), spec_extent(sources[k - 1])) {
            (Some(starts), Some(extent)) => Some(starts.push(extent.0)),
            _ => None,
        }
    }
}

proof fn lemma_sum_nonnegative(starts: Seq<u64>, hints: Seq<GuideHint>, k: int)
    ensures
        source_distance_sum(starts, hints, k) >= 0,
        guide_distance_sum(starts, hints, k) >= 0,
    decreases k,
{
    if k > 0 {
        lemma_sum_nonnegative(starts, hints, k - 1);
    }
}

fn group_temporal_distance(sources: &[SourceLine], hints: &[GuideHint]) -> (total: Option<u128>)
    ensures
        match source_starts(sources@, sources@.len() as int) {
            None => total is None,
            Some(starts) => total == Some(spec_group_distance(starts, hints@)),
        },
{
    let mut starts: Vec<u64> = Vec::new();
    let mut i: usize = 0;
    while i < sources.len()
        invariant
            i <= sources@.len(),
            source_starts(sources@, i as int) == Some(starts@),
        decreases sources@.len() - i,
    {
        match source_extent(&sources[i]) {
            Some((start, _)) => starts.push(start),
            None => {
                proof {
                    lemma_starts_none(sources@, i as int + 1, sources@.len() as int);
                }
                return None;
            },
        }
        i = i + 1;
    }
    let mut total: u128 = 0;
    let mut k: usize = 0;
    while k < starts.len()
        invariant
            k <= starts@.len(),
            total == (if source_distance_sum(starts@, hints@, k as int) > u128::MAX { u128::MAX } else { source_distance_sum(starts@, hints@, k as int) as u128 }),
        decreases starts@.len() - k,
    {
        let mut nearest: u128 = 0;
        let mut h: usize = 0;
        while h < hints.len()
            invariant
                h <= hints@.len(),
                k < starts@.len(),
                nearest == nearest_hint(starts@[k as int], hints@, h as int),
            decreases hints@.len() - h,
        {
            let here = start_distance(starts[k], guide_start(hints[h]));
            if h == 0 || here < nearest {
                nearest = here;
            }
            h = h + 1;
        }
        proof {
            lemma_sum_nonnegative(starts@, hints@, k as int);
        }
        total = total.saturating_add(nearest);
        k = k + 1;
    }
    let mut h: usize = 0;
    while h < hints.len()
        invariant
            h <= hints@.len(),
            total == (if source_distance_sum(starts@, hints@, starts@.len() as int) + guide_distance_sum(starts@, hints@, h as int) > u128::MAX { u128::MAX } else { (source_distance_sum(starts@, hints@, starts@.len() as int) + guide_distance_sum(starts@, hints@, h as int)) as u128 }),
        decreases hints@.len() - h,
    {
        let mut nearest: u128 = 0;
        let mut k: usize = 0;
        while k < starts.len()
            invariant
                k <= starts@.len(),
                h < hints@.len(),
                nearest == nearest_start(starts@, hints@[h as int], k as int),
            decreases starts@.len() - k,
        {
            let here = start_distance(starts[k], guide_start(hints[h]));
            if k == 0 || here < nearest {
                nearest = here;
            }
            k = k + 1;
        }
        proof {
            lemma_sum_nonnegative(starts@, hints@, starts@.len() as int);
            lemma_sum_nonnegative(starts@, hints@, h as int);
        }
        total = total.saturating_add(nearest);
        h = h + 1;
    }
    Some(total)
}

proof fn lemma_starts_none(sources: Seq<SourceLine>, from: int, k: int)
    requires
        1 <= from <= k,
        source_starts(sources, from) is None,
    ensures
        source_starts(sources, k) is None,
    decreases k - from,
{
    if k > from {
        lemma_starts_none(sources, from, k - 1);
    }
}

/// The tokens of a source line; none when its cues could not be mapped.
pub open spec fn line_tokens(source: SourceLine) -> Seq<Sung> {
    match source.tokens {
        Some(tokens) => tokens@,
        None => Seq::empty(),
    }
}

/// Whether every token of every source line ends no earlier than it starts.
pub open spec fn tokens_run_forward(sources: Seq<SourceLine>) -> bool {
    forall|i: int, t: int| 0 <= i < sources.len() && 0 <= t < line_tokens(sources[i]).len()
        ==> #[trigger] line_tokens(sources[i])[t].start <= line_tokens(sources[i])[t].end
}

proof fn lemma_flat_tokens_forward(sources: Seq<SourceLine>, k: int)
    requires
        tokens_run_forward(sources),
        0 <= k <= sources.len(),
    ensures
        forall|t: int| 0 <= t < flat_tokens(sources, k).len() ==> (#[trigger] flat_tokens(sources, k)[t]).start <= flat_tokens(sources, k)[t].end,
    decreases k,
{
    if k > 0 {
        lemma_flat_tokens_forward(sources, k - 1);
        let before = flat_tokens(sources, k - 1);
        let line = line_tokens(sources[k - 1]);
        assert forall|t: int| 0 <= t < flat_tokens(sources, k).len() implies (#[trigger] flat_tokens(sources, k)[t]).start <= flat_tokens(sources, k)[t].end by {
            if t < before.len() {
                assert(flat_tokens(sources, k)[t] == before[t]);
            } else {
                assert(flat_tokens(sources, k)[t] == line[t - before.len()]);
                assert(line_tokens(sources[k - 1])[t - before.len()].start <= line_tokens(sources[k - 1])[t - before.len()].end);
            }
        }
    }
}

/// The tokens of the first `k` source lines, one line after another.
pub open spec fn flat_tokens(sources: Seq<SourceLine>, k: int) -> Seq<Sung>
    decreases k,
{
    if k <= 0 {
        Seq::empty()
    } else {
        flat_tokens(sources, k - 1) + line_tokens(sources[k - 1])
    }
}

/// The tokens of the first `k` guide lines, one line after another, each with its line.
pub open spec fn flat_slots(guides: Seq<Vec<Slot>>, k: int) -> Seq<(usize, Slot)>
    decreases k,
{
    if k <= 0 {
        Seq::empty()
    } else {
        flat_slots(guides, k - 1) + guides[k - 1]@.map_values(|slot: Slot| ((k - 1) as usize, slot))
    }
}

/// `pairable`, on token values.
pub open spec fn value_pairable(source: Seq<Sung>, guide: Seq<(usize, Slot)>, hints: Seq<GuideHint>, row: int, column: int) -> bool {
    &&& keys_akin(source[row].key@, guide[column].1.key@)
    &&& (source[row].timing == Timing::Synthesized || token_compatible(source[row].start, source[row].end, hints[guide[column].0 as int]))
}

/// `pair_matrix`, on token values.
pub open spec fn value_matrix(source: Seq<Sung>, guide: Seq<(usize, Slot)>, hints: Seq<GuideHint>) -> Seq<bool> {
    Seq::new(
        (source.len() * guide.len()) as nat,
        |k: int| value_pairable(source, guide, hints, k / (guide.len() as int), k % (guide.len() as int)),
    )
}

/// `paired_spans`, on token values.
pub open spec fn value_spans(source: Seq<Sung>, guide_len: nat, pairs: Seq<(usize, usize)>, k: int) -> Seq<Option<(u64, u64)>>
    decreases k,
{
    if k <= 0 {
        Seq::new(guide_len, |i: int| None)
    } else {
        let pair = pairs[k - 1];
        value_spans(source, guide_len, pairs, k - 1).update(
            pair.1 as int,
            Some((source[pair.0 as int].start, source[pair.0 as int].end)),
        )
    }
}

/// `starts_in_order`, on token values.
pub open spec fn value_starts_in_order(source: Seq<Sung>, pairs: Seq<(usize, usize)>) -> bool {
    forall|k: int| 0 <= k < pairs.len() - 1 ==> #[trigger] source[pairs[k].0 as int].start <= source[pairs[k + 1].0 as int].start
}

/// The pairs of a group: the traceback of the longest common subsequence of its source
/// tokens and guide tokens under `value_pairable`.
pub open spec fn group_pairs(sources: Seq<SourceLine>, guides: Seq<Vec<Slot>>, hints: Seq<GuideHint>) -> Seq<(usize, usize)> {
    let source = flat_tokens(sources, sources.len() as int);
    let guide = flat_slots(guides, guides.len() as int);
    traceback(value_matrix(source, guide, hints), source.len() as int, guide.len() as int, 0, 0)
}

/// Whether a group's tokens align (see `local_alignment`): the pairs represent both sides,
/// their source starts run forward, and every unpaired guide token can be filled.
pub open spec fn group_aligns(sources: Seq<SourceLine>, guides: Seq<Vec<Slot>>, hints: Seq<GuideHint>) -> bool {
    let source = flat_tokens(sources, sources.len() as int);
    let guide = flat_slots(guides, guides.len() as int);
    let pairs = group_pairs(sources, guides, hints);
    let spans = value_spans(source, guide.len(), pairs, pairs.len() as int);
    &&& spec_represented(pairs, source.len() as int, guide.len() as int)
    &&& value_starts_in_order(source, pairs)
    &&& forall|i: int| 0 <= i < spans.len() && spans[i] is None ==> #[trigger] fillable(spans, i)
}

/// The time of every guide token of a group, as paired before filling.
pub open spec fn group_spans(sources: Seq<SourceLine>, guides: Seq<Vec<Slot>>, hints: Seq<GuideHint>) -> Seq<Option<(u64, u64)>> {
    let pairs = group_pairs(sources, guides, hints);
    value_spans(flat_tokens(sources, sources.len() as int), flat_slots(guides, guides.len() as int).len(), pairs, pairs.len() as int)
}

proof fn lemma_value_spans_known(source: Seq<Sung>, guide_len: nat, pairs: Seq<(usize, usize)>, k: int, g: int)
    requires
        0 <= k <= pairs.len(),
        forall|j: int| 0 <= j < k ==> (#[trigger] pairs[j]).1 < guide_len,
        0 <= g,
    ensures
        value_spans(source, guide_len, pairs, k).len() == guide_len,
        g < guide_len && value_spans(source, guide_len, pairs, k)[g] is Some ==> exists|m: int| 0 <= m < k && (#[trigger] pairs[m]).1 == g
            && value_spans(source, guide_len, pairs, k)[g] == Some((source[pairs[m].0 as int].start, source[pairs[m].0 as int].end)),
    decreases k,
{
    if k > 0 {
        lemma_value_spans_known(source, guide_len, pairs, k - 1, g);
        if pairs[k - 1].1 as int == g {
            assert(pairs[k - 1].1 == g);
        } else {
            let before = value_spans(source, guide_len, pairs, k - 1);
            if g < guide_len && before[g] is Some {
                let m = choose|m: int| 0 <= m < k - 1 && (#[trigger] pairs[m]).1 == g
                    && before[g] == Some((source[pairs[m].0 as int].start, source[pairs[m].0 as int].end));
                assert(0 <= m < k && pairs[m].1 == g);
            }
        }
    }
}

proof fn lemma_pair_starts_chain(source: Seq<Sung>, pairs: Seq<(usize, usize)>, a: int, b: int)
    requires
        value_starts_in_order(source, pairs),
        0 <= a <= b < pairs.len(),
    ensures
        source[pairs[a].0 as int].start <= source[pairs[b].0 as int].start,
    decreases b - a,
{
    if a < b {
        lemma_pair_starts_chain(source, pairs, a, b - 1);
        assert(source[pairs[b - 1].0 as int].start <= source[pairs[b - 1 + 1].0 as int].start);
    }
}

proof fn lemma_next_known_after(spans: Seq<Option<(u64, u64)>>, i: int)
    requires
        i < spans.len(),
    ensures
        next_known(spans, i) > i,
    decreases spans.len() - i,
{
    if i + 1 < spans.len() && spans[i + 1] is None {
        lemma_next_known_after(spans, i + 1);
    }
}

proof fn lemma_prev_known_before(spans: Seq<Option<(u64, u64)>>, i: int)
    requires
        0 <= i,
    ensures
        prev_known(spans, i) < i,
    decreases i,
{
    if i > 0 && spans[i - 1] is None {
        lemma_prev_known_before(spans, i - 1);
    }
}

/// Filling keeps starts in order: where the known spans start in order and end no earlier
/// than they start, and every unknown span can be filled, the span at `i + 1` starts no
/// earlier than the span at `i`.
proof fn lemma_filled_starts_in_order(spans: Seq<Option<(u64, u64)>>, i: int)
    requires
        0 <= i,
        i + 1 < spans.len(),
        forall|g: int| 0 <= g < spans.len() && #[trigger] spans[g] is Some ==> spans[g].unwrap().0 <= spans[g].unwrap().1,
        forall|g: int, h: int| 0 <= g < h < spans.len() && #[trigger] spans[g] is Some && #[trigger] spans[h] is Some
            ==> spans[g].unwrap().0 <= spans[h].unwrap().0,
        forall|g: int| 0 <= g < spans.len() && spans[g] is None ==> #[trigger] fillable(spans, g),
    ensures
        filled_at(spans, i).0 <= filled_at(spans, i + 1).0,
{
    let here = spans[i];
    let there = spans[i + 1];
    if here is Some && there is Some {
    } else if here is Some {
        assert(fillable(spans, i + 1));
        assert(prev_known(spans, i + 1) == i);
        let q = next_known(spans, i + 1);
        lemma_next_known_after(spans, i + 1);
        let after = spans[i].unwrap().1;
        let before = spans[q].unwrap().0;
        let count = (q - i - 1) as nat;
        lemma_between_monotone(after, before, 0, 0, count);
        assert(between(after, before, 0, count) == after) by (nonlinear_arith)
            requires after <= before, count > 0;
    } else if there is Some {
        assert(fillable(spans, i));
        assert(next_known(spans, i) == i + 1);
        let p = prev_known(spans, i);
        lemma_prev_known_before(spans, i);
        let after = spans[p].unwrap().1;
        let before = spans[i + 1].unwrap().0;
        let count = (i - p) as nat;
        lemma_between_monotone(after, before, (i - p - 1) as nat, count, count);
    } else {
        assert(fillable(spans, i));
        assert(fillable(spans, i + 1));
        assert(prev_known(spans, i + 1) == prev_known(spans, i));
        assert(next_known(spans, i) == next_known(spans, i + 1));
        let p = prev_known(spans, i);
        let q = next_known(spans, i);
        lemma_prev_known_before(spans, i);
        lemma_next_known_after(spans, i + 1);
        let after = spans[p].unwrap().1;
        let before = spans[q].unwrap().0;
        let count = (q - p - 1) as nat;
        lemma_between_monotone(after, before, (i - p - 1) as nat, (i - p) as nat, count);
    }
}

/// The tokens of a group that aligns are timed in order: when every source token ends no
/// earlier than it starts, each guide token's filled span starts no earlier than the span of
/// the guide token before it.
pub proof fn lemma_group_starts_in_order(sources: Seq<SourceLine>, guides: Seq<Vec<Slot>>, hints: Seq<GuideHint>, i: int)
    requires
        group_aligns(sources, guides, hints),
        flat_tokens(sources, sources.len() as int).len() <= usize::MAX,
        flat_slots(guides, guides.len() as int).len() <= usize::MAX,
        forall|t: int| 0 <= t < flat_tokens(sources, sources.len() as int).len() ==>
            (#[trigger] flat_tokens(sources, sources.len() as int)[t]).start <= flat_tokens(sources, sources.len() as int)[t].end,
        0 <= i,
        i + 1 < flat_slots(guides, guides.len() as int).len(),
    ensures
        filled_at(group_spans(sources, guides, hints), i).0 <= filled_at(group_spans(sources, guides, hints), i + 1).0,
{
    let source = flat_tokens(sources, sources.len() as int);
    let guide = flat_slots(guides, guides.len() as int);
    let pairs = group_pairs(sources, guides, hints);
    let spans = group_spans(sources, guides, hints);
    let matches = value_matrix(source, guide, hints);
    lemma_traceback_shape(matches, source.len() as int, guide.len() as int, 0, 0);
    assert forall|j: int| 0 <= j < pairs.len() implies (#[trigger] pairs[j]).1 < guide.len() && pairs[j].0 < source.len() by {
        let pair = pairs[j];
    }
    assert forall|g: int| 0 <= g < spans.len() && #[trigger] spans[g] is Some implies spans[g].unwrap().0 <= spans[g].unwrap().1 by {
        lemma_value_spans_known(source, guide.len(), pairs, pairs.len() as int, g);
        let m = choose|m: int| 0 <= m < pairs.len() && (#[trigger] pairs[m]).1 == g
            && spans[g] == Some((source[pairs[m].0 as int].start, source[pairs[m].0 as int].end));
        assert(pairs[m].0 < source.len());
    }
    assert forall|g: int, h: int| 0 <= g < h < spans.len() && #[trigger] spans[g] is Some && #[trigger] spans[h] is Some
        implies spans[g].unwrap().0 <= spans[h].unwrap().0 by {
        lemma_value_spans_known(source, guide.len(), pairs, pairs.len() as int, g);
        lemma_value_spans_known(source, guide.len(), pairs, pairs.len() as int, h);
        let a = choose|m: int| 0 <= m < pairs.len() && (#[trigger] pairs[m]).1 == g
            && spans[g] == Some((source[pairs[m].0 as int].start, source[pairs[m].0 as int].end));
        let b = choose|m: int| 0 <= m < pairs.len() && (#[trigger] pairs[m]).1 == h
            && spans[h] == Some((source[pairs[m].0 as int].start, source[pairs[m].0 as int].end));
        if b < a {
            assert(pairs[b].1 < pairs[a].1);
        }
        assert(a != b);
        lemma_pair_starts_chain(source, pairs, a, b);
    }
    lemma_value_spans_known(source, guide.len(), pairs, pairs.len() as int, 0);
    lemma_filled_starts_in_order(spans, i);
}

/// Whether some pair's source side lies between two tokens of source line `index`.
pub open spec fn line_paired(tokens: Seq<Sung>, pairs: Seq<(usize, usize)>, index: usize) -> bool {
    exists|p: int, a: int, b: int|
        #![trigger pairs[p], tokens[a], tokens[b]]
        0 <= p < pairs.len() && 0 <= a <= pairs[p].0 <= b < tokens.len() && tokens[a].source_line == index
            && tokens[b].source_line == index
}

/// Whether some pair's guide side lies in `from..until`.
pub open spec fn block_paired(pairs: Seq<(usize, usize)>, from: int, until: int) -> bool {
    exists|p: int| 0 <= p < pairs.len() && from <= #[trigger] pairs[p].1 < until
}

/// Whether every source line and every guide line of a group holds a pair.
pub open spec fn lines_paired(sources: Seq<SourceLine>, guides: Seq<Vec<Slot>>, pairs: Seq<(usize, usize)>) -> bool {
    let tokens = flat_tokens(sources, sources.len() as int);
    &&& forall|i: int| 0 <= i < sources.len() ==> line_paired(tokens, pairs, #[trigger] sources[i].index)
    &&& forall|j: int| 0 <= j < guides.len() ==> block_paired(pairs, #[trigger] slot_count(guides, j), slot_count(guides, j + 1))
}

/// A matched group of consecutive source lines and consecutive guide lines.
#[derive(Clone, Copy, Debug)]
pub struct Group {
    pub sources: usize,
    pub guides: usize,
    pub pairs: usize,
    pub temporal_distance: u128,
}

/// What evaluating a candidate group gives.
pub enum GroupOutcome {
    Matched(Group),
    Incompatible,
    LimitExceeded,
}

/// The number of canonical tokens of the first `k` source lines.
pub open spec fn token_count(sources: Seq<SourceLine>, k: int) -> int
    decreases k,
{
    if k <= 0 {
        0
    } else {
        token_count(sources, k - 1) + match sources[k - 1].tokens {
            Some(tokens) => tokens@.len() as int,
            None => 0,
        }
    }
}

/// The number of tokens of the first `k` guide lines.
pub open spec fn slot_count(guides: Seq<Vec<Slot>>, k: int) -> int
    decreases k,
{
    if k <= 0 {
        0
    } else {
        slot_count(guides, k - 1) + guides[k - 1]@.len()
    }
}

/// The canonical tokens of a group's source lines, one after another.
fn source_tokens_of(sources: &[SourceLine]) -> (tokens: Vec<&Sung>)
    ensures
        tokens@.len() == token_count(sources@, sources@.len() as int),
        tokens@.len() == flat_tokens(sources@, sources@.len() as int).len(),
        forall|k: int| 0 <= k < tokens@.len() ==> *(#[trigger] tokens@[k]) == flat_tokens(sources@, sources@.len() as int)[k],
{
    let mut tokens: Vec<&Sung> = Vec::new();
    let mut i: usize = 0;
    while i < sources.len()
        invariant
            i <= sources@.len(),
            tokens@.len() == token_count(sources@, i as int),
            tokens@.len() == flat_tokens(sources@, i as int).len(),
            forall|q: int| 0 <= q < tokens@.len() ==> *(#[trigger] tokens@[q]) == flat_tokens(sources@, i as int)[q],
        decreases sources@.len() - i,
    {
        let ghost before = flat_tokens(sources@, i as int);
        match &sources[i].tokens {
            Some(line) => {
                let mut k: usize = 0;
                while k < line.len()
                    invariant
                        k <= line@.len(),
                        tokens@.len() == token_count(sources@, i as int) + k,
                        tokens@.len() == before.len() + k,
                        forall|q: int| 0 <= q < tokens@.len() ==> *(#[trigger] tokens@[q]) == (before + line@)[q],
                    decreases line@.len() - k,
                {
                    tokens.push(&line[k]);
                    k = k + 1;
                }
                assert(flat_tokens(sources@, i + 1) == before + line@);
            },
            None => {
                assert(flat_tokens(sources@, i + 1) =~= before);
            },
        }
        i = i + 1;
    }
    tokens
}

/// The tokens of a group's guide lines, one after another, each with its line.
fn guide_tokens_of(guides: &[Vec<Slot>]) -> (tokens: Vec<(usize, &Slot)>)
    ensures
        forall|k: int| 0 <= k < tokens@.len() ==> (#[trigger] tokens@[k]).0 < guides@.len(),
        tokens@.len() == slot_count(guides@, guides@.len() as int),
        tokens@.len() == flat_slots(guides@, guides@.len() as int).len(),
        forall|k: int| 0 <= k < tokens@.len() ==> (#[trigger] tokens@[k]).0 == flat_slots(guides@, guides@.len() as int)[k].0
            && *tokens@[k].1 == flat_slots(guides@, guides@.len() as int)[k].1,
{
    let mut tokens: Vec<(usize, &Slot)> = Vec::new();
    let mut line: usize = 0;
    while line < guides.len()
        invariant
            line <= guides@.len(),
            forall|k: int| 0 <= k < tokens@.len() ==> (#[trigger] tokens@[k]).0 < guides@.len(),
            tokens@.len() == slot_count(guides@, line as int),
            tokens@.len() == flat_slots(guides@, line as int).len(),
            forall|k: int| 0 <= k < tokens@.len() ==> (#[trigger] tokens@[k]).0 == flat_slots(guides@, line as int)[k].0
                && *tokens@[k].1 == flat_slots(guides@, line as int)[k].1,
        decreases guides@.len() - line,
    {
        let slots = &guides[line];
        let ghost before = flat_slots(guides@, line as int);
        let ghost added = slots@.map_values(|slot: Slot| (line as usize, slot));
        let mut k: usize = 0;
        while k < slots.len()
            invariant
                line < guides@.len(),
                k <= slots@.len(),
                slots == guides@[line as int],
                added == slots@.map_values(|slot: Slot| (line as usize, slot)),
                added.len() == slots@.len(),
                tokens@.len() == slot_count(guides@, line as int) + k,
                tokens@.len() == before.len() + k,
                forall|j: int| 0 <= j < tokens@.len() ==> (#[trigger] tokens@[j]).0 < guides@.len(),
                forall|j: int| 0 <= j < tokens@.len() ==> (#[trigger] tokens@[j]).0 == (before + added)[j].0
                    && *tokens@[j].1 == (before + added)[j].1,
            decreases slots@.len() - k,
        {
            tokens.push((line, &slots[k]));
            k = k + 1;
        }
        assert(flat_slots(guides@, line + 1) == before + added);
        line = line + 1;
    }
    tokens
}

/// Whether some pair's source side lies in `first..=last`.
fn some_source_pair(pairs: &Vec<(usize, usize)>, first: usize, last: usize) -> (found: bool)
    ensures
        found == exists|p: int| 0 <= p < pairs@.len() && first <= #[trigger] pairs@[p].0 <= last,
{
    let mut k: usize = 0;
    while k < pairs.len()
        invariant
            k <= pairs@.len(),
            forall|p: int| 0 <= p < k ==> !(first <= #[trigger] pairs@[p].0 <= last),
        decreases pairs@.len() - k,
    {
        if first <= pairs[k].0 && pairs[k].0 <= last {
            return true;
        }
        k = k + 1;
    }
    false
}

/// Whether some pair's guide side lies in `from..until`.
fn some_guide_pair(pairs: &Vec<(usize, usize)>, from: usize, until: usize) -> (found: bool)
    ensures
        found == block_paired(pairs@, from as int, until as int),
{
    let mut k: usize = 0;
    while k < pairs.len()
        invariant
            k <= pairs@.len(),
            forall|p: int| 0 <= p < k ==> !(from <= #[trigger] pairs@[p].1 < until),
        decreases pairs@.len() - k,
    {
        if from <= pairs[k].1 && pairs[k].1 < until {
            return true;
        }
        k = k + 1;
    }
    false
}

proof fn lemma_values_agree(
    source: Seq<&Sung>,
    values: Seq<Sung>,
    guide: Seq<(usize, &Slot)>,
    slot_values: Seq<(usize, Slot)>,
    hints: Seq<GuideHint>,
)
    requires
        source.len() == values.len(),
        forall|k: int| 0 <= k < source.len() ==> *(#[trigger] source[k]) == values[k],
        guide.len() == slot_values.len(),
        forall|k: int| 0 <= k < guide.len() ==> (#[trigger] guide[k]).0 == slot_values[k].0 && *guide[k].1 == slot_values[k].1,
    ensures
        pair_matrix(source, guide, hints) == value_matrix(values, slot_values, hints),
{
    let left = pair_matrix(source, guide, hints);
    let right = value_matrix(values, slot_values, hints);
    assert forall|k: int| 0 <= k < left.len() implies left[k] == right[k] by {
        let g = guide.len() as int;
        let row = k / g;
        let column = k % g;
        assert(0 <= row < source.len() && 0 <= column < g) by (nonlinear_arith)
            requires 0 <= k < source.len() * g, g > 0, row == k / g, column == k % g;
    }
    assert(left =~= right);
}

proof fn lemma_spans_agree(source: Seq<&Sung>, values: Seq<Sung>, guide_len: nat, pairs: Seq<(usize, usize)>, k: int)
    requires
        source.len() == values.len(),
        forall|q: int| 0 <= q < source.len() ==> *(#[trigger] source[q]) == values[q],
        k <= pairs.len(),
        forall|q: int| 0 <= q < pairs.len() ==> (#[trigger] pairs[q]).0 < source.len(),
    ensures
        paired_spans(source, guide_len, pairs, k) == value_spans(values, guide_len, pairs, k),
        starts_in_order(source, pairs) == value_starts_in_order(values, pairs),
    decreases k,
{
    if k > 0 {
        lemma_spans_agree(source, values, guide_len, pairs, k - 1);
        assert(source[pairs[k - 1].0 as int] == values[pairs[k - 1].0 as int]);
    }
    if starts_in_order(source, pairs) {
        assert forall|q: int| 0 <= q < pairs.len() - 1 implies #[trigger] values[pairs[q].0 as int].start <= values[pairs[q + 1].0 as int].start by {
            assert(*source[pairs[q].0 as int] == values[pairs[q].0 as int]);
            assert(*source[pairs[q + 1].0 as int] == values[pairs[q + 1].0 as int]);
            assert(source[pairs[q].0 as int].start <= source[pairs[q + 1].0 as int].start);
        }
    }
    if value_starts_in_order(values, pairs) {
        assert forall|q: int| 0 <= q < pairs.len() - 1 implies #[trigger] source[pairs[q].0 as int].start <= source[pairs[q + 1].0 as int].start by {
            assert(*source[pairs[q].0 as int] == values[pairs[q].0 as int]);
            assert(*source[pairs[q + 1].0 as int] == values[pairs[q + 1].0 as int]);
            assert(values[pairs[q].0 as int].start <= values[pairs[q + 1].0 as int].start);
        }
    }
}

proof fn lemma_flat_tokens_len(sources: Seq<SourceLine>, k: int)
    requires
        0 <= k <= sources.len(),
    ensures
        flat_tokens(sources, k).len() == token_count(sources, k),
    decreases k,
{
    if k > 0 {
        lemma_flat_tokens_len(sources, k - 1);
    }
}

/// Whether a group that fits the budget is matched: every source line has tokens, the
/// tokens align (see `group_aligns`), every line holds a pair, and the source lines have
/// starts.
pub open spec fn group_matches(sources: Seq<SourceLine>, guides: Seq<Vec<Slot>>, hints: Seq<GuideHint>) -> bool {
    &&& forall|i: int| 0 <= i < sources.len() ==> (#[trigger] sources[i]).tokens is Some
    &&& group_aligns(sources, guides, hints)
    &&& lines_paired(sources, guides, group_pairs(sources, guides, hints))
    &&& source_starts(sources, sources.len() as int) is Some
}

proof fn lemma_block_pair_from(pairs: Seq<(usize, usize)>, guides: Seq<Vec<Slot>>, j: int)
    requires
        0 <= j < guides.len(),
        forall|k: int, l: int| 0 <= k < l < pairs.len() ==> (#[trigger] pairs[k]).1 < (#[trigger] pairs[l]).1,
        forall|g: int| 0 <= g < guides.len() ==> block_paired(pairs, #[trigger] slot_count(guides, g), slot_count(guides, g + 1)),
    ensures
        exists|p: int| j <= p < pairs.len() && slot_count(guides, j) <= #[trigger] pairs[p].1 < slot_count(guides, j + 1),
    decreases j,
{
    assert(block_paired(pairs, slot_count(guides, j), slot_count(guides, j + 1)));
    let p = choose|p: int| 0 <= p < pairs.len() && slot_count(guides, j) <= #[trigger] pairs[p].1 < slot_count(guides, j + 1);
    if j > 0 {
        lemma_block_pair_from(pairs, guides, j - 1);
        let q = choose|q: int| j - 1 <= q < pairs.len() && slot_count(guides, j - 1) <= #[trigger] pairs[q].1 < slot_count(guides, j);
        if p <= q {
            if p < q {
                assert(pairs[p].1 < pairs[q].1);
            }
        }
        assert(p >= j);
    }
}

/// In a matched group every guide line holds a pair of its own, so the group has at least
/// as many pairs as guide lines.
pub proof fn lemma_matched_pairs_cover_guides(sources: Seq<SourceLine>, guides: Seq<Vec<Slot>>, hints: Seq<GuideHint>)
    requires
        group_matches(sources, guides, hints),
        flat_tokens(sources, sources.len() as int).len() <= usize::MAX,
        flat_slots(guides, guides.len() as int).len() <= usize::MAX,
    ensures
        group_pairs(sources, guides, hints).len() >= guides.len(),
{
    let source = flat_tokens(sources, sources.len() as int);
    let guide = flat_slots(guides, guides.len() as int);
    let pairs = group_pairs(sources, guides, hints);
    lemma_traceback_shape(value_matrix(source, guide, hints), source.len() as int, guide.len() as int, 0, 0);
    if guides.len() > 0 {
        lemma_block_pair_from(pairs, guides, guides.len() - 1);
    }
}

/// A group has no more pairs than it has source tokens, so no more than its token table
/// has cells.
proof fn lemma_group_pairs_bounded(sources: Seq<SourceLine>, guides: Seq<Vec<Slot>>, hints: Seq<GuideHint>)
    requires
        flat_tokens(sources, sources.len() as int).len() >= 1,
        flat_slots(guides, guides.len() as int).len() >= 1,
        flat_tokens(sources, sources.len() as int).len() * flat_slots(guides, guides.len() as int).len() <= CELLS,
    ensures
        group_pairs(sources, guides, hints).len() <= CELLS,
{
    let source = flat_tokens(sources, sources.len() as int);
    let guide = flat_slots(guides, guides.len() as int);
    let a = source.len() as int;
    let b = guide.len() as int;
    let matches = value_matrix(source, guide, hints);
    assert(a <= a * b && b <= a * b) by (nonlinear_arith)
        requires a >= 1, b >= 1;
    lemma_traceback_shape(matches, a, b, 0, 0);
    lemma_lcs_bounded(matches, a, b, 0, 0);
}

/// The work that evaluating a group charges from `work`: the product of its source and
/// guide token counts, where the budget is not spent, the lines are compatible, both counts
/// are positive and fit a `usize`, and the charge fits; nothing otherwise.
pub open spec fn group_charge(sources: Seq<SourceLine>, guides: Seq<Vec<Slot>>, hints: Seq<GuideHint>, work: int) -> int {
    let a = token_count(sources, sources.len() as int);
    let b = slot_count(guides, guides.len() as int);
    if work < CELLS && spec_group_compatible(sources, hints) && 0 < a <= usize::MAX && 0 < b <= usize::MAX
        && work + a * b <= usize::MAX {
        a * b
    } else {
        0
    }
}

/// Evaluates source lines and guide lines as one group. `LimitExceeded` when the budget is
/// already spent; `Incompatible` when the lines are not temporally compatible or a side
/// has no tokens; `LimitExceeded` when the product of the token counts does not fit the
/// budget, which is charged with it otherwise; then `Matched` with the group's size, pairs
/// and temporal distance when `group_matches`, `Incompatible` when not.
#[verifier::loop_isolation(false)]
#[verifier::rlimit(100)]
#[verifier::spinoff_prover]
pub fn group(sources: &[SourceLine], guides: &[Vec<Slot>], hints: &[GuideHint], work: &mut usize) -> (outcome: GroupOutcome)
    requires
        guides@.len() == hints@.len(),
    ensures
        *final(work) >= *old(work),
        *final(work) == *old(work) + group_charge(sources@, guides@, hints@, *old(work) as int),
        *old(work) >= CELLS ==> outcome is LimitExceeded,
        *old(work) < CELLS && !spec_group_compatible(sources@, hints@) ==> outcome is Incompatible,
        *old(work) < CELLS && spec_group_compatible(sources@, hints@) && token_count(sources@, sources@.len() as int) <= usize::MAX
            && slot_count(guides@, guides@.len() as int) <= usize::MAX ==> {
            let a = token_count(sources@, sources@.len() as int);
            let b = slot_count(guides@, guides@.len() as int);
            &&& (a == 0 || b == 0) ==> outcome is Incompatible
            &&& (a > 0 && b > 0 && *old(work) + a * b > CELLS) ==> outcome is LimitExceeded
            &&& (a > 0 && b > 0 && *old(work) + a * b <= CELLS) ==> *final(work) == *old(work) + a * b && outcome == (
                if group_matches(sources@, guides@, hints@) {
                    GroupOutcome::Matched(Group {
                        sources: sources@.len() as usize,
                        guides: guides@.len() as usize,
                        pairs: group_pairs(sources@, guides@, hints@).len() as usize,
                        temporal_distance: spec_group_distance(source_starts(sources@, sources@.len() as int).unwrap(), hints@),
                    })
                } else {
                    GroupOutcome::Incompatible
                }
            )
        },
        outcome matches GroupOutcome::Matched(found) ==> {
            &&& *final(work) <= CELLS
            &&& found.sources == sources@.len()
            &&& found.guides == guides@.len()
            &&& found.pairs > 0
            &&& found.pairs <= CELLS
            &&& found.pairs == group_pairs(sources@, guides@, hints@).len()
            &&& group_matches(sources@, guides@, hints@)
            &&& spec_group_compatible(sources@, hints@)
            &&& source_starts(sources@, sources@.len() as int) matches Some(starts) && found.temporal_distance == spec_group_distance(starts, hints@)
        },
{
    if *work >= CELLS {
        return GroupOutcome::LimitExceeded;
    }
    if !group_temporally_compatible(sources, hints) {
        return GroupOutcome::Incompatible;
    }
    let mut source_len: usize = 0;
    let mut i: usize = 0;
    while i < sources.len()
        invariant
            i <= sources@.len(),
            source_len == token_count(sources@, i as int),
        decreases sources@.len() - i,
    {
        let count = match &sources[i].tokens {
            Some(tokens) => tokens.len(),
            None => 0,
        };
        source_len = match source_len.checked_add(count) {
            Some(total) => total,
            None => {
                proof {
                    lemma_token_count_prefix(sources@, i as int + 1, sources@.len() as int);
                }
                return GroupOutcome::LimitExceeded;
            },
        };
        i = i + 1;
    }
    let mut guide_len: usize = 0;
    let mut j: usize = 0;
    while j < guides.len()
        invariant
            j <= guides@.len(),
            guide_len == slot_count(guides@, j as int),
        decreases guides@.len() - j,
    {
        guide_len = match guide_len.checked_add(guides[j].len()) {
            Some(total) => total,
            None => {
                proof {
                    lemma_slot_count_prefix(guides@, j as int + 1, guides@.len() as int);
                }
                return GroupOutcome::LimitExceeded;
            },
        };
        j = j + 1;
    }
    if source_len == 0 || guide_len == 0 {
        return GroupOutcome::Incompatible;
    }
    let cells = match source_len.checked_mul(guide_len) {
        Some(cells) => cells,
        None => {
            proof {
                let x = source_len as int;
                let y = guide_len as int;
                assert(*work + x * y > usize::MAX) by (nonlinear_arith)
                    requires x * y > usize::MAX, *work >= 0;
            }
            return GroupOutcome::LimitExceeded;
        },
    };
    let next_work = match work.checked_add(cells) {
        Some(next_work) => next_work,
        None => return GroupOutcome::LimitExceeded,
    };
    *work = next_work;
    if *work > CELLS {
        return GroupOutcome::LimitExceeded;
    }
    let mut i: usize = 0;
    while i < sources.len()
        invariant
            i <= sources@.len(),
            forall|q: int| 0 <= q < i ==> (#[trigger] sources@[q]).tokens is Some,
        decreases sources@.len() - i,
    {
        if sources[i].tokens.is_none() {
            return GroupOutcome::Incompatible;
        }
        i = i + 1;
    }
    let source_tokens = source_tokens_of(sources);
    let guide_tokens = guide_tokens_of(guides);
    let hint_list = copy_hints(hints);
    let ghost values = flat_tokens(sources@, sources@.len() as int);
    let ghost slot_values = flat_slots(guides@, guides@.len() as int);
    proof {
        let a = source_tokens@.len() as int;
        let b = guide_tokens@.len() as int;
        assert(a * b <= CELLS);
        assert((a + 1) * (b + 1) <= 3 * CELLS + 1) by (nonlinear_arith)
            requires a >= 1, b >= 1, a * b <= CELLS;
        lemma_values_agree(source_tokens@, values, guide_tokens@, slot_values, hint_list@);
        lemma_traceback_shape(pair_matrix(source_tokens@, guide_tokens@, hint_list@), a, b, 0, 0);
        let pairs = traceback(pair_matrix(source_tokens@, guide_tokens@, hint_list@), a, b, 0, 0);
        assert(pairs == group_pairs(sources@, guides@, hints@));
        lemma_spans_agree(source_tokens@, values, b as nat, pairs, pairs.len() as int);
        lemma_group_pairs_bounded(sources@, guides@, hints@);
    }
    let alignment = match local_alignment(&source_tokens, &guide_tokens, &hint_list) {
        Some(alignment) => alignment,
        None => {
            assert(!group_aligns(sources@, guides@, hints@));
            return GroupOutcome::Incompatible;
        },
    };
    assert(group_aligns(sources@, guides@, hints@));
    let pairs = &alignment.pairs;
    assert(pairs@ == group_pairs(sources@, guides@, hints@));
    let mut s: usize = 0;
    while s < sources.len()
        invariant
            s <= sources@.len(),
            source_tokens@.len() == values.len(),
            forall|q: int| 0 <= q < source_tokens@.len() ==> *(#[trigger] source_tokens@[q]) == values[q],
            pairs@ == group_pairs(sources@, guides@, hints@),
            forall|q: int| 0 <= q < s ==> line_paired(values, pairs@, #[trigger] sources@[q].index),
        decreases sources@.len() - s,
    {
        let index = sources[s].index;
        let mut first: Option<usize> = None;
        let mut last: usize = 0;
        let mut k: usize = 0;
        while k < source_tokens.len()
            invariant
                k <= source_tokens@.len(),
                first is None ==> forall|q: int| 0 <= q < k ==> (#[trigger] values[q]).source_line != index,
                first matches Some(f) ==> f <= last < k && values[f as int].source_line == index
                    && values[last as int].source_line == index
                    && (forall|q: int| 0 <= q < f ==> (#[trigger] values[q]).source_line != index)
                    && (forall|q: int| last < q < k ==> (#[trigger] values[q]).source_line != index),
            decreases source_tokens@.len() - k,
        {
            if source_tokens[k].source_line == index {
                if first.is_none() {
                    first = Some(k);
                }
                last = k;
            }
            k = k + 1;
        }
        let first = match first {
            Some(first) => first,
            None => {
                assert(!line_paired(values, pairs@, index));
                assert(!lines_paired(sources@, guides@, pairs@)) by {
                    assert(!line_paired(values, pairs@, sources@[s as int].index));
                }
                return GroupOutcome::Incompatible;
            },
        };
        if !some_source_pair(pairs, first, last) {
            assert(!line_paired(values, pairs@, index));
            assert(!lines_paired(sources@, guides@, pairs@)) by {
                assert(!line_paired(values, pairs@, sources@[s as int].index));
            }
            return GroupOutcome::Incompatible;
        }
        assert(line_paired(values, pairs@, index)) by {
            let p = choose|p: int| 0 <= p < pairs@.len() && first <= #[trigger] pairs@[p].0 <= last;
            assert(values[first as int].source_line == index && values[last as int].source_line == index);
            assert(pairs@[p] == pairs@[p]);
        }
        s = s + 1;
    }
    let mut cursor: usize = 0;
    let mut g: usize = 0;
    while g < guides.len()
        invariant
            g <= guides@.len(),
            cursor == slot_count(guides@, g as int),
            forall|q: int| 0 <= q < g ==> block_paired(pairs@, #[trigger] slot_count(guides@, q), slot_count(guides@, q + 1)),
        decreases guides@.len() - g,
    {
        proof {
            lemma_slot_count_prefix(guides@, g as int + 1, guides@.len() as int);
        }
        let end = cursor + guides[g].len();
        if !some_guide_pair(pairs, cursor, end) {
            assert(!lines_paired(sources@, guides@, pairs@)) by {
                assert(!block_paired(pairs@, slot_count(guides@, g as int), slot_count(guides@, g + 1)));
            }
            return GroupOutcome::Incompatible;
        }
        cursor = end;
        g = g + 1;
    }
    assert(lines_paired(sources@, guides@, pairs@));
    let temporal_distance = match group_temporal_distance(sources, hints) {
        Some(distance) => distance,
        None => return GroupOutcome::Incompatible,
    };
    let count = pairs.len();
    assert(group_matches(sources@, guides@, hints@));
    assert(count == group_pairs(sources@, guides@, hints@).len());
    GroupOutcome::Matched(Group {
        sources: sources.len(),
        guides: guides.len(),
        pairs: count,
        temporal_distance,
    })
}

/// The tokens of a window of source lines are those of the lines up to its end less those
/// before it, so no more than all of them.
pub proof fn lemma_token_count_window(sources: Seq<SourceLine>, i: int, a: int)
    requires
        0 <= i,
        0 <= a,
        i + a <= sources.len(),
    ensures
        token_count(sources.subrange(i, i + a), a) == token_count(sources, i + a) - token_count(sources, i),
        0 <= token_count(sources.subrange(i, i + a), a) <= token_count(sources, sources.len() as int),
    decreases a,
{
    if a > 0 {
        lemma_token_count_window(sources, i, a - 1);
        let window = sources.subrange(i, i + a);
        assert(window.subrange(0, a - 1) =~= sources.subrange(i, i + a - 1));
        lemma_token_count_agree(window, sources.subrange(i, i + a - 1), a - 1);
        assert(window[a - 1] == sources[i + a - 1]);
    }
    lemma_token_count_prefix(sources, 0, i);
    lemma_token_count_prefix(sources, i + a, sources.len() as int);
    lemma_token_count_nonnegative(sources, 0);
}

proof fn lemma_token_count_nonnegative(sources: Seq<SourceLine>, k: int)
    ensures
        token_count(sources, k) >= 0,
    decreases k,
{
    if k > 0 {
        lemma_token_count_nonnegative(sources, k - 1);
    }
}

pub proof fn lemma_token_count_agree(a: Seq<SourceLine>, b: Seq<SourceLine>, k: int)
    requires
        0 <= k <= a.len(),
        k <= b.len(),
        forall|q: int| 0 <= q < k ==> a[q] == b[q],
    ensures
        token_count(a, k) == token_count(b, k),
    decreases k,
{
    if k > 0 {
        lemma_token_count_agree(a, b, k - 1);
    }
}

/// The tokens of a window of guide lines are no more than those of all of them.
pub proof fn lemma_slot_count_window(guides: Seq<Vec<Slot>>, j: int, b: int)
    requires
        0 <= j,
        0 <= b,
        j + b <= guides.len(),
    ensures
        slot_count(guides.subrange(j, j + b), b) == slot_count(guides, j + b) - slot_count(guides, j),
        0 <= slot_count(guides.subrange(j, j + b), b) <= slot_count(guides, guides.len() as int),
    decreases b,
{
    if b > 0 {
        lemma_slot_count_window(guides, j, b - 1);
        let window = guides.subrange(j, j + b);
        lemma_slot_count_agree(window, guides.subrange(j, j + b - 1), b - 1);
        assert(window[b - 1] == guides[j + b - 1]);
    }
    lemma_slot_count_prefix(guides, 0, j);
    lemma_slot_count_prefix(guides, j + b, guides.len() as int);
}

proof fn lemma_slot_count_agree(a: Seq<Vec<Slot>>, b: Seq<Vec<Slot>>, k: int)
    requires
        0 <= k <= a.len(),
        k <= b.len(),
        forall|q: int| 0 <= q < k ==> a[q] == b[q],
    ensures
        slot_count(a, k) == slot_count(b, k),
    decreases k,
{
    if k > 0 {
        lemma_slot_count_agree(a, b, k - 1);
    }
}

proof fn lemma_token_count_prefix(sources: Seq<SourceLine>, j: int, k: int)
    requires
        0 <= j <= k <= sources.len(),
    ensures
        token_count(sources, j) <= token_count(sources, k),
    decreases k - j,
{
    if j < k {
        lemma_token_count_prefix(sources, j, k - 1);
    }
}

fn copy_hints(hints: &[GuideHint]) -> (copy: Vec<GuideHint>)
    ensures
        copy@ == hints@,
{
    let mut copy: Vec<GuideHint> = Vec::new();
    let mut k: usize = 0;
    while k < hints.len()
        invariant
            k <= hints@.len(),
            copy@ == hints@.take(k as int),
        decreases hints@.len() - k,
    {
        copy.push(hints[k]);
        k = k + 1;
        assert(copy@ =~= hints@.take(k as int));
    }
    assert(hints@.take(hints@.len() as int) =~= hints@);
    copy
}

/// The best overlap of a source line with any of the first `k` guide windows, or 0.
pub open spec fn best_overlap(line: LyricsLine, hints: Seq<GuideHint>, k: int) -> u64
    decreases k,
{
    if k <= 0 {
        0
    } else {
        let end = match spec_sung_end(line) {
            Some(end) => if end >= line.start { end } else { line.start },
            None => line.start,
        };
        let here = overlap(line.start, end, hints[k - 1]);
        let rest = best_overlap(line, hints, k - 1);
        if k == 1 || here > rest { here } else { rest }
    }
}

fn overlap_with_hints(line: &LyricsLine, hints: &[GuideHint]) -> (best: u64)
    ensures
        best == best_overlap(*line, hints@, hints@.len() as int),
{
    let end = match line.sung_end() {
        Some(end) => if end >= line.start { end } else { line.start },
        None => line.start,
    };
    let mut best: u64 = 0;
    let mut k: usize = 0;
    while k < hints.len()
        invariant
            k <= hints@.len(),
            best == best_overlap(*line, hints@, k as int),
            end == (match spec_sung_end(*line) {
                Some(end) => if end >= line.start { end } else { line.start },
                None => line.start,
            }),
        decreases hints@.len() - k,
    {
        let here = line_temporal_overlap(line.start, end, hints[k]);
        if k == 0 || here > best {
            best = here;
        }
        k = k + 1;
    }
    best
}

/// The characters of each of a run of keys.
pub open spec fn key_views(keys: Seq<Vec<char>>) -> Seq<Seq<char>> {
    keys.map_values(|key: Vec<char>| key@)
}

/// The keys of a run of tokens.
pub open spec fn slot_keys(slots: Seq<SpecSlot>) -> Seq<Seq<char>> {
    slots.map_values(|slot: SpecSlot| slot.key)
}

/// Whether two key sequences are equal.
fn same_keys(left: &Vec<Vec<char>>, right: &Vec<Vec<char>>) -> (same: bool)
    ensures
        same == (key_views(left@) == key_views(right@)),
{
    if left.len() != right.len() {
        assert(key_views(left@).len() != key_views(right@).len());
        return false;
    }
    let mut k: usize = 0;
    while k < left.len()
        invariant
            left@.len() == right@.len(),
            k <= left@.len(),
            forall|j: int| 0 <= j < k ==> left@[j]@ == right@[j]@,
        decreases left@.len() - k,
    {
        if !same_key(&left[k], &right[k]) {
            assert(key_views(left@)[k as int] != key_views(right@)[k as int]);
            return false;
        }
        k = k + 1;
    }
    assert(key_views(left@) =~= key_views(right@));
    true
}

/// The keys of the tokens of a text (none when it has more tokens than fit a `usize`).
fn keys_of(text: &str) -> (keys: Vec<Vec<char>>)
    ensures
        spec_tokens(text@).len() <= usize::MAX ==> key_views(keys@) == slot_keys(spec_tokens(text@)),
        spec_tokens(text@).len() > usize::MAX ==> keys@.len() == 0,
{
    let slots = match tokenize(text, usize::MAX) {
        Some(slots) => slots,
        None => Vec::new(),
    };
    let keys = keys_of_slots(&slots);
    proof {
        if spec_tokens(text@).len() <= usize::MAX {
            assert(key_views(keys@) =~= slot_keys(spec_tokens(text@))) by {
                assert forall|k: int| 0 <= k < keys@.len() implies key_views(keys@)[k] == slot_keys(spec_tokens(text@))[k] by {
                    assert(slot_views(slots@)[k] == slots@[k].view());
                }
            }
        }
    }
    keys
}

/// The keys of a run of tokens.
fn keys_of_slots(slots: &Vec<Slot>) -> (keys: Vec<Vec<char>>)
    ensures
        keys@.len() == slots@.len(),
        forall|k: int| 0 <= k < slots@.len() ==> (#[trigger] keys@[k])@ == slots@[k].key@,
        key_views(keys@) == slot_keys(slot_views(slots@)),
{
    let mut keys: Vec<Vec<char>> = Vec::new();
    let mut k: usize = 0;
    while k < slots.len()
        invariant
            k <= slots@.len(),
            keys@.len() == k,
            forall|j: int| 0 <= j < k ==> (#[trigger] keys@[j])@ == slots@[j].key@,
        decreases slots@.len() - k,
    {
        keys.push(crate::lyrics::timing::copy_chars(&slots[k].key));
        k = k + 1;
    }
    assert(key_views(keys@) =~= slot_keys(slot_views(slots@)));
    keys
}

#[verifier::rlimit(60)]
#[verifier::spinoff_prover]
proof fn lemma_group_words_in_order(
    sources: Seq<SourceLine>,
    slots: Seq<Vec<Slot>>,
    hints: Seq<GuideHint>,
    words: Seq<LyricsWord>,
    i: int,
)
    requires
        group_aligns(sources, slots, hints),
        tokens_run_forward(sources),
        flat_tokens(sources, sources.len() as int).len() <= usize::MAX,
        flat_slots(slots, slots.len() as int).len() == slot_count(slots, slots.len() as int),
        slot_count(slots, slots.len() as int) <= usize::MAX,
        0 <= i < slots.len(),
        words.len() == slots[i]@.len(),
        forall|w: int| 0 <= w < words.len() ==> (#[trigger] words[w]).start == filled_at(group_spans(sources, slots, hints), slot_count(slots, i) + w).0,
    ensures
        forall|w: int| 0 <= w < words.len() - 1 ==> #[trigger] words[w].start <= words[w + 1].start,
{
    lemma_flat_tokens_forward(sources, sources.len() as int);
    lemma_slot_count_prefix(slots, i + 1, slots.len() as int);
    lemma_slot_count_prefix(slots, 0, i);
    assert forall|w: int| 0 <= w < words.len() - 1 implies #[trigger] words[w].start <= words[w + 1].start by {
        lemma_group_starts_in_order(sources, slots, hints, slot_count(slots, i) + w);
    }
}

/// The spans `from..until` of a span list.
fn spans_between(spans: &Vec<(u64, u64)>, from: usize, until: usize) -> (part: Vec<(u64, u64)>)
    requires
        from <= until <= spans@.len(),
    ensures
        part@ == spans@.subrange(from as int, until as int),
{
    let mut part: Vec<(u64, u64)> = Vec::new();
    let mut k = from;
    while k < until
        invariant
            from <= k <= until <= spans@.len(),
            part@ == spans@.subrange(from as int, k as int),
        decreases until - k,
    {
        part.push(spans[k]);
        k = k + 1;
        assert(part@ =~= spans@.subrange(from as int, k as int));
    }
    part
}

/// The latest end of the first `k` words.
pub open spec fn latest_word_end(words: Seq<LyricsWord>, k: int) -> u64
    decreases k,
{
    if k <= 1 {
        words[0].end
    } else {
        max(latest_word_end(words, k - 1), words[k - 1].end)
    }
}

/// Whether source `owner` overlaps the guide windows most, and no later source as much.
pub open spec fn is_owner(sources: Seq<SourceLine>, original: Seq<LyricsLine>, hints: Seq<GuideHint>, owner: int) -> bool {
    let score = |s: int| best_overlap(original[sources[s].index as int], hints, hints.len() as int);
    &&& 0 <= owner < sources.len()
    &&& forall|s: int| 0 <= s < sources.len() ==> #[trigger] score(s) <= score(owner)
    &&& forall|s: int| owner < s < sources.len() ==> #[trigger] score(s) < score(owner)
}

/// The keys of the tokens of a text, as `keys_of` gives them.
pub open spec fn text_keys(text: Seq<char>) -> Seq<Seq<char>> {
    if spec_tokens(text).len() <= usize::MAX { slot_keys(spec_tokens(text)) } else { Seq::empty() }
}

/// Whether a built line's romanization is the guide line's, or else the owning source
/// line's where the group is one source line and one guide line with the same keys, or
/// else none.
pub open spec fn built_romanized(
    guide: LyricsLine,
    slots: Seq<SpecSlot>,
    owner: LyricsLine,
    lone: bool,
    romanized: Option<RomanizedText>,
) -> bool {
    if guide.romanized is Some {
        same_romanized(romanized, guide.romanized)
    } else if lone && text_keys(owner.text@) == slot_keys(slots) {
        same_romanized(romanized, owner.romanized)
    } else {
        romanized is None
    }
}

/// Whether two lane lists hold the same lanes.
pub open spec fn same_lanes(a: Seq<LyricsLane>, b: Seq<LyricsLane>) -> bool {
    &&& a.len() == b.len()
    &&& forall|k: int| 0 <= k < a.len() ==> same_lane(#[trigger] a[k], b[k])
}

/// A copy of a lane list.
fn copy_lanes(lanes: &Vec<LyricsLane>) -> (copy: Vec<LyricsLane>)
    ensures
        same_lanes(copy@, lanes@),
{
    let mut copy: Vec<LyricsLane> = Vec::new();
    let mut k: usize = 0;
    while k < lanes.len()
        invariant
            k <= lanes@.len(),
            copy@.len() == k,
            forall|j: int| 0 <= j < k ==> same_lane(#[trigger] copy@[j], lanes@[j]),
        decreases lanes@.len() - k,
    {
        copy.push(copy_lane(&lanes[k]));
        k = k + 1;
    }
    copy
}

/// Whether a group can be built: its token table fits a `usize`, its tokens align, and
/// every guide line has a token.
pub open spec fn buildable(sources: Seq<SourceLine>, guides: Seq<Vec<Slot>>, hints: Seq<GuideHint>) -> bool {
    &&& (flat_tokens(sources, sources.len() as int).len() + 1) * (flat_slots(guides, guides.len() as int).len() + 1) <= usize::MAX
    &&& group_aligns(sources, guides, hints)
    &&& sources.len() > 0
    &&& forall|i: int| 0 <= i < guides.len() ==> (#[trigger] guides[i])@.len() > 0
}

/// Whether `lines` are what building the group of `sources` and the guide lines `guides`
/// gives: one line per guide line, with the guide's text, words cut at its tokens and timed
/// from the group's aligned spans (see `filled_at` and `group_spans`), the voice and the
/// first line's secondary lanes of the owning source line, and the romanization that
/// `built_romanized` says.
pub open spec fn group_built(
    sources: Seq<SourceLine>,
    guides: Seq<LyricsLine>,
    guide_slots: Seq<Vec<Slot>>,
    guide_hints: Seq<GuideHint>,
    original: Seq<LyricsLine>,
    lines: Seq<LyricsLine>,
) -> bool {
    &&& lines.len() == guides.len()
    &&& sources.len() > 0
    &&& exists|owner: int| #[trigger] is_owner(sources, original, guide_hints, owner)
        && forall|i: int| 0 <= i < lines.len() ==> {
            let owner_line = original[sources[owner].index as int];
            &&& (#[trigger] lines[i]).voice == owner_line.voice
            &&& built_romanized(guides[i], slot_views(guide_slots[i]@), owner_line, sources.len() == 1 && guides.len() == 1, lines[i].romanized)
            &&& i == 0 ==> same_lanes(lines[i].secondary@, owner_line.secondary@)
            &&& i > 0 ==> lines[i].secondary@.len() == 0
        }
    &&& forall|i: int| 0 <= i < lines.len() ==> {
        &&& (#[trigger] lines[i]).text@ == guides[i].text@
        &&& lines[i].words matches Some(words) && words@.len() == guide_slots[i]@.len() && words@.len() > 0
            && lines[i].start == words@[0].start
            && lines[i].end == Some(max(latest_word_end(words@, words@.len() as int), words@[0].start))
            && forall|w: int| 0 <= w < words@.len() ==> (#[trigger] words@[w]).text@ == guides[i].text@.subrange(
                word_from(guide_slots[i]@, w),
                word_until(guide_slots[i]@, guides[i].text@.len() as int, w),
            )
        &&& spelled_by_words(lines[i])
        &&& tokens_run_forward(sources) ==> words_start_in_order(lines[i])
    }
    &&& group_aligns(sources, guide_slots, guide_hints)
    &&& forall|i: int, w: int| 0 <= i < lines.len() && 0 <= w < guide_slots[i]@.len() ==> {
        let at = filled_at(group_spans(sources, guide_slots, guide_hints), slot_count(guide_slots, i) + w);
        &&& (#[trigger] lines[i].words.unwrap()@[w]).start == at.0
        &&& lines[i].words.unwrap()@[w].end == max(at.1, at.0)
    }
}

/// Builds the output lines of a matched group: each guide line keeps its text and gets one
/// timed word per token from the group's alignment; it takes voice, secondary lanes (on
/// its first line) and, when the guide has none and a lone source line has exactly the
/// guide line's keys, romanization from the owning source line, the one that overlaps the
/// guide windows most (the last such on a tie).
pub fn build_group(
    sources: &[SourceLine],
    guides: &[LyricsLine],
    guide_slots: &[Vec<Slot>],
    guide_hints: &[GuideHint],
    original: &Vec<LyricsLine>,
) -> (output: Option<Vec<LyricsLine>>)
    requires
        guides@.len() == guide_slots@.len(),
        guides@.len() == guide_hints@.len(),
        forall|i: int| 0 <= i < sources@.len() ==> (#[trigger] sources@[i]).index < original@.len(),
        forall|i: int| 0 <= i < guide_slots@.len() ==> ordered_within(#[trigger] guide_slots@[i]@, guides@[i].text@.len()),
    ensures
        output is Some <==> buildable(sources@, guide_slots@, guide_hints@),
        output matches Some(lines) ==> group_built(sources@, guides@, guide_slots@, guide_hints@, original@, lines@),
{
    let source_tokens = source_tokens_of(sources);
    let guide_tokens = guide_tokens_of(guide_slots);
    let hint_list = copy_hints(guide_hints);
    let rows = match source_tokens.len().checked_add(1) {
        Some(rows) => rows,
        None => {
            proof {
                let n = source_tokens@.len() as int;
                let m = guide_tokens@.len() as int;
                assert((n + 1) * (m + 1) > usize::MAX) by (nonlinear_arith)
                    requires n + 1 > usize::MAX, m >= 0;
            }
            return None;
        },
    };
    let columns = match guide_tokens.len().checked_add(1) {
        Some(columns) => columns,
        None => {
            proof {
                let n = source_tokens@.len() as int;
                let m = guide_tokens@.len() as int;
                assert((n + 1) * (m + 1) > usize::MAX) by (nonlinear_arith)
                    requires m + 1 > usize::MAX, n >= 0;
            }
            return None;
        },
    };
    if rows.checked_mul(columns).is_none() {
        return None;
    }
    let ghost values = flat_tokens(sources@, sources@.len() as int);
    let ghost slot_values = flat_slots(guide_slots@, guide_slots@.len() as int);
    proof {
        lemma_values_agree(source_tokens@, values, guide_tokens@, slot_values, hint_list@);
        let a = source_tokens@.len() as int;
        let b = guide_tokens@.len() as int;
        lemma_traceback_shape(pair_matrix(source_tokens@, guide_tokens@, hint_list@), a, b, 0, 0);
        let pairs = traceback(pair_matrix(source_tokens@, guide_tokens@, hint_list@), a, b, 0, 0);
        assert(pairs == group_pairs(sources@, guide_slots@, guide_hints@));
        lemma_spans_agree(source_tokens@, values, b as nat, pairs, pairs.len() as int);
    }
    let spans = match local_alignment(&source_tokens, &guide_tokens, &hint_list) {
        Some(alignment) => alignment.spans,
        None => {
            assert(!group_aligns(sources@, guide_slots@, guide_hints@));
            return None;
        },
    };
    let ghost timed = group_spans(sources@, guide_slots@, guide_hints@);
    assert(group_aligns(sources@, guide_slots@, guide_hints@));
    assert(forall|k: int| 0 <= k < spans@.len() ==> #[trigger] spans@[k] == filled_at(timed, k));
    if sources.len() == 0 {
        return None;
    }
    let mut owner: usize = 0;
    let mut best = overlap_with_hints(&original[sources[0].index], guide_hints);
    let mut s: usize = 1;
    while s < sources.len()
        invariant
            1 <= s <= sources@.len(),
            owner < s,
            forall|i: int| 0 <= i < sources@.len() ==> (#[trigger] sources@[i]).index < original@.len(),
            best == best_overlap(original@[sources@[owner as int].index as int], guide_hints@, guide_hints@.len() as int),
            forall|i: int| 0 <= i < s ==> #[trigger] best_overlap(original@[sources@[i].index as int], guide_hints@, guide_hints@.len() as int) <= best,
            forall|i: int| owner < i < s ==> #[trigger] best_overlap(original@[sources@[i].index as int], guide_hints@, guide_hints@.len() as int) < best,
        decreases sources@.len() - s,
    {
        let here = overlap_with_hints(&original[sources[s].index], guide_hints);
        if here >= best {
            best = here;
            owner = s;
        }
        s = s + 1;
    }
    assert(is_owner(sources@, original@, guide_hints@, owner as int));
    let owner_line = &original[sources[owner].index];
    let owner_keys = keys_of(owner_line.text.as_str());
    assert(key_views(owner_keys@) =~= text_keys(owner_line.text@));
    let lone = sources.len() == 1 && guides.len() == 1;
    let span_count = spans.len();
    let mut output: Vec<LyricsLine> = Vec::new();
    let mut cursor: usize = 0;
    let mut index: usize = 0;
    while index < guides.len()
        invariant
            guides@.len() == guide_slots@.len(),
            forall|i: int| 0 <= i < guide_slots@.len() ==> ordered_within(#[trigger] guide_slots@[i]@, guides@[i].text@.len()),
            index <= guides@.len(),
            output@.len() == index,
            cursor == slot_count(guide_slots@, index as int),
            spans@.len() == slot_count(guide_slots@, guide_slots@.len() as int),
            span_count == spans@.len(),
            owner_line == &original@[sources@[owner as int].index as int],
            forall|i: int| 0 <= i < index ==> (#[trigger] output@[i]).voice == owner_line.voice,
            forall|i: int| 0 <= i < index ==> {
                &&& (#[trigger] output@[i]).text@ == guides@[i].text@
                &&& output@[i].words matches Some(words) && words@.len() == guide_slots@[i]@.len() && words@.len() > 0
                    && output@[i].start == words@[0].start
                    && output@[i].end == Some(max(latest_word_end(words@, words@.len() as int), words@[0].start))
                    && forall|w: int| 0 <= w < words@.len() ==> (#[trigger] words@[w]).text@ == guides@[i].text@.subrange(
                        word_from(guide_slots@[i]@, w),
                        word_until(guide_slots@[i]@, guides@[i].text@.len() as int, w),
                    )
                &&& built_romanized(guides@[i], slot_views(guide_slots@[i]@), *owner_line, lone, output@[i].romanized)
                &&& i == 0 ==> same_lanes(output@[i].secondary@, owner_line.secondary@)
                &&& i > 0 ==> output@[i].secondary@.len() == 0
            },
            lone == (sources@.len() == 1 && guides@.len() == 1),
            key_views(owner_keys@) == text_keys(owner_line.text@),
            forall|i: int| 0 <= i < index ==> (#[trigger] guide_slots@[i])@.len() > 0,
            forall|k: int| 0 <= k < spans@.len() ==> #[trigger] spans@[k] == filled_at(timed, k),
            forall|i: int, w: int| 0 <= i < index && 0 <= w < guide_slots@[i]@.len() ==> {
                let at = filled_at(timed, slot_count(guide_slots@, i) + w);
                &&& (#[trigger] output@[i].words.unwrap()@[w]).start == at.0
                &&& output@[i].words.unwrap()@[w].end == max(at.1, at.0)
            },
        decreases guides@.len() - index,
    {
        let guide = &guides[index];
        let slots = &guide_slots[index];
        proof {
            lemma_slot_count_prefix(guide_slots@, index as int + 1, guide_slots@.len() as int);
            assert(slot_count(guide_slots@, index as int + 1) == cursor + slots@.len());
        }
        let end = cursor + slots.len();
        let mine = spans_between(&spans, cursor, end);
        let text = chars_of(guide.text.as_str());
        let words = worded_from(&text, slots.as_slice(), mine.as_slice());
        if words.len() == 0 {
            assert(guide_slots@[index as int]@.len() == 0);
            assert(!buildable(sources@, guide_slots@, guide_hints@));
            return None;
        }
        let start = words[0].start;
        let mut finish = words[0].end;
        let mut w: usize = 1;
        while w < words.len()
            invariant
                1 <= w <= words@.len(),
                finish == latest_word_end(words@, w as int),
            decreases words@.len() - w,
        {
            if words[w].end > finish {
                finish = words[w].end;
            }
            w = w + 1;
        }
        let finish = if finish >= start { finish } else { start };
        let romanized = if guide.romanized.is_some() {
            copy_romanized(&guide.romanized)
        } else if lone && same_keys(&owner_keys, &keys_of_slots(slots)) {
            copy_romanized(&owner_line.romanized)
        } else {
            None
        };
        let secondary: Vec<LyricsLane> = if index == 0 { copy_lanes(&owner_line.secondary) } else { Vec::new() };
        output.push(LyricsLine {
            start,
            end: Some(finish),
            text: guide.text.clone(),
            romanized,
            words: Some(words),
            secondary,
            voice: owner_line.voice,
        });
        cursor = end;
        index = index + 1;
    }
    proof {
        assert forall|i: int| 0 <= i < output@.len() implies spelled_by_words(#[trigger] output@[i]) by {
            let words = output@[i].words.unwrap();
            lemma_words_spell_text(guides@[i].text@, guide_slots@[i]@, words@);
        }
        if tokens_run_forward(sources@) {
            assert forall|i: int| 0 <= i < output@.len() implies words_start_in_order(#[trigger] output@[i]) by {
                lemma_group_words_in_order(sources@, guide_slots@, guide_hints@, output@[i].words.unwrap()@, i);
            }
        }
    }
    Some(output)
}

proof fn lemma_slot_count_prefix(guides: Seq<Vec<Slot>>, j: int, k: int)
    requires
        0 <= j <= k <= guides.len(),
    ensures
        slot_count(guides, j) <= slot_count(guides, k),
    decreases k - j,
{
    if j < k {
        lemma_slot_count_prefix(guides, j, k - 1);
    }
}

} // verus!
