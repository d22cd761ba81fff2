//! Conforming word-timed source lyrics to the text and line breaks of a guide: source
//! lines and guide lines are grouped by a dynamic program over both line lists, each
//! group is aligned token by token, and the result is kept only when enough of the guide
//! was matched with confidence.
use vstd::prelude::*;

use crate::lyrics::alignment::{
    GuideHint, Group, GroupOutcome, SourceLine, build_group, buildable, group_built, group, group_matches, group_pairs,
    guide_hint, line_tokens, source_starts, spec_group_compatible, spec_group_distance,
    lemma_slot_count_window, lemma_token_count_agree, lemma_token_count_window, slot_count, spec_guide_hint, token_count,
    tokens_run_forward, word_from, word_until,
};
use crate::lyrics::model::{
    Lyrics, LyricsLine, LyricsWord, copy_line, same_line, spelled_by_words, words_start_in_order,
};
use crate::lyrics::timing::{
    CELLS, CanonicalOutcome, LIMIT, Slot, Sung, Timing, bounded_tokens_to, canonical, copy_chars,
    cue_cursor, cue_of, lemma_map_steps_bound, line_cost, line_until, map_steps, ordered_within, slot_timing,
    slot_views, spec_cue_ranges, spec_tokens, spread_by_keys, timed_as_cued, token_key_chars, untimed,
};

verus! {

/// The least number of tokens on either side, and of pairs, that a conformed result needs.
pub const LEAST: usize = 6;

/// The number of lexical tokens in the texts of the first `k` lines.
pub open spec fn text_tokens(lines: Seq<LyricsLine>, k: int) -> int
    decreases k,
{
    if k <= 0 {
        0
    } else {
        text_tokens(lines, k - 1) + spec_tokens(lines[k - 1].text@).len()
    }
}

/// Whether an alignment is trusted: at least `LEAST` pairs, pairs for at least seven tenths
/// of the guide tokens and half of the mapped source tokens, and at least nine tenths of the
/// guide lines that have tokens anchored in a matched group.
pub open spec fn spec_confident(pairs: int, places: int, sung: int, anchored: int, counted: int) -> bool {
    &&& pairs >= LEAST
    &&& pairs * 10 >= places * 7
    &&& pairs * 2 >= sung
    &&& anchored * 10 >= counted * 9
}

/// Decides `spec_confident`.
pub fn confident(pairs: usize, places: usize, sung: usize, anchored: usize, counted: usize) -> (sure: bool)
    ensures
        sure == spec_confident(pairs as int, places as int, sung as int, anchored as int, counted as int),
{
    let pairs = pairs as u128;
    let places = places as u128;
    let sung = sung as u128;
    let anchored = anchored as u128;
    let counted = counted as u128;
    pairs >= 6 && pairs * 10 >= places * 7 && pairs * 2 >= sung && anchored * 10 >= counted * 9
}

proof fn lemma_text_tokens_step(lines: Seq<LyricsLine>, k: int)
    requires
        0 <= k,
    ensures
        text_tokens(lines, k + 1) == text_tokens(lines, k) + spec_tokens(lines[k].text@).len(),
{
}

/// The tokens of a source line, each marked as coming from line `line`.
fn retag(tokens: Vec<Sung>, line: usize) -> (tagged: Vec<Sung>)
    ensures
        tagged@.len() == tokens@.len(),
        forall|k: int| 0 <= k < tagged@.len() ==> {
            &&& (#[trigger] tagged@[k]).source_line == line
            &&& tagged@[k].start == tokens@[k].start
            &&& tagged@[k].end == tokens@[k].end
            &&& tagged@[k].key@ == tokens@[k].key@
            &&& tagged@[k].timing == tokens@[k].timing
        },
{
    let mut tagged: Vec<Sung> = Vec::new();
    let mut k: usize = 0;
    while k < tokens.len()
        invariant
            k <= tokens@.len(),
            tagged@.len() == k,
            forall|i: int| 0 <= i < k ==> {
                &&& (#[trigger] tagged@[i]).source_line == line
                &&& tagged@[i].start == tokens@[i].start
                &&& tagged@[i].end == tokens@[i].end
                &&& tagged@[i].key@ == tokens@[i].key@
                &&& tagged@[i].timing == tokens@[i].timing
            },
        decreases tokens@.len() - k,
    {
        let token = &tokens[k];
        tagged.push(Sung {
            source_line: line,
            start: token.start,
            end: token.end,
            key: copy_chars(&token.key),
            timing: token.timing,
        });
        k = k + 1;
    }
    tagged
}

/// The most work mapping the cues of the first `k` lines can take (see `line_cost`).
pub open spec fn lines_cost(lines: Seq<LyricsLine>, k: int) -> int
    decreases k,
{
    if k <= 0 { 0 } else { lines_cost(lines, k - 1) + line_cost(lines[k - 1]) }
}

proof fn lemma_lines_cost_grow(lines: Seq<LyricsLine>, j: int, k: int)
    requires
        0 <= j <= k,
    ensures
        lines_cost(lines, j) <= lines_cost(lines, k),
    decreases k - j,
{
    if j < k {
        lemma_lines_cost_grow(lines, j, k - 1);
        let line = lines[k - 1];
        if line.words is Some && line.words.unwrap()@.len() > 0 {
            let c = spec_tokens(line.text@).len() * (1 + line.text@.len());
            assert(line.words.unwrap()@.len() * c >= 0) by (nonlinear_arith)
                requires c >= 0;
        }
    }
}

/// Whether `source` is what source line `i` of `lines` gives, with `base` work spent before
/// the first line: its tokens timed from its cues (or shared over its time when it has
/// none), or no tokens when it has none, its cues leave a token untimed, its keys are empty
/// or too long to count, or the work budget may have run out by its end.
#[verifier::opaque]
pub open spec fn line_source(lines: Seq<LyricsLine>, i: int, source: SourceLine, base: int) -> bool {
    let line = lines[i];
    let next = next_value_of(lines, i);
    let tokens = spec_tokens(line.text@);
    let cued = line.words is Some && line.words.unwrap()@.len() > 0;
    &&& source.index == i
    &&& match source.tokens {
        Some(found) => {
            &&& found@.len() == tokens.len()
            &&& found@.len() > 0
            &&& forall|k: int| 0 <= k < found@.len() ==> {
                &&& (#[trigger] found@[k]).key@ == tokens[k].key
                &&& found@[k].start <= found@[k].end
                &&& found@[k].source_line == i
                &&& found@[k].timing == (if cued { Timing::Provider } else { Timing::Synthesized })
            }
            &&& exists|slots: Seq<Slot>| #[trigger] slot_views(slots) == tokens && ordered_within(slots, line.text@.len())
                && if cued {
                timed_as_cued(line.text@, line.words.unwrap()@, slots, found@)
            } else {
                spread_by_keys(slots, line.start, line_until(line, next), found@)
            }
        },
        None => {
            ||| tokens.len() == 0
            ||| cued && exists|slots: Seq<Slot>| #[trigger] slot_views(slots) == tokens && ordered_within(slots, line.text@.len())
                && untimed(line.text@, line.words.unwrap()@, slots)
            ||| !cued && (token_key_chars(tokens, tokens.len() as int) == 0 || token_key_chars(tokens, tokens.len() as int) > usize::MAX)
            ||| base + lines_cost(lines, i + 1) >= CELLS
        },
    }
}

proof fn lemma_retag_keeps_times(text: Seq<char>, words: Seq<LyricsWord>, slots: Seq<Slot>, start: u64, end: u64, a: Seq<Sung>, b: Seq<Sung>)
    requires
        a.len() == b.len(),
        forall|k: int| 0 <= k < a.len() ==> (#[trigger] a[k]).start == b[k].start && a[k].end == b[k].end,
    ensures
        timed_as_cued(text, words, slots, a) ==> timed_as_cued(text, words, slots, b),
        spread_by_keys(slots, start, end, a) ==> spread_by_keys(slots, start, end, b),
{
    if timed_as_cued(text, words, slots, a) {
        let ranges = spec_cue_ranges(text, words, slots).unwrap();
        let cues = Seq::new(words.len(), |i: int| cue_of(words[i], ranges[i]));
        assert forall|i: int| 0 <= i < b.len() implies slot_timing(text, cues, slots[i], cue_cursor(cues, slots, i))
            == Some(((#[trigger] b[i]).start, b[i].end)) by {
            assert(a[i].start == b[i].start);
        }
    }
    if spread_by_keys(slots, start, end, a) {
        assert forall|i: int| 0 <= i < b.len() implies #[trigger] b[i].start == a[i].start && b[i].end == a[i].end by {}
    }
}

/// The canonical source lines of `lines` and the number of tokens they map. Each line may
/// only use what is left of `LIMIT` after the tokens of the lines before it, mapped or not;
/// `None` when a line passes that, or when the work budget is spent.
fn source_lines(lines: &Vec<LyricsLine>, work: &mut usize) -> (outcome: Option<(Vec<SourceLine>, usize)>)
    ensures
        *final(work) >= *old(work),
        text_tokens(lines@, lines@.len() as int) > LIMIT ==> outcome is None,
        outcome is None ==> text_tokens(lines@, lines@.len() as int) > LIMIT || *final(work) >= CELLS
            || exists|i: int| 0 <= i < lines@.len() && #[trigger] token_key_chars(spec_tokens(lines@[i].text@), spec_tokens(lines@[i].text@).len() as int) > usize::MAX,
        outcome matches Some((sources, sung)) ==> {
            &&& sources@.len() == lines@.len()
            &&& sung <= text_tokens(lines@, lines@.len() as int)
            &&& forall|i: int| 0 <= i < sources@.len() ==> (#[trigger] sources@[i]).index == i
            &&& tokens_run_forward(sources@)
            &&& sung == token_count(sources@, sources@.len() as int)
            &&& forall|i: int| 0 <= i < sources@.len() ==> line_source(lines@, i, #[trigger] sources@[i], *old(work) as int)
        },
        *final(work) <= *old(work) + lines_cost(lines@, lines@.len() as int),
{
    reveal(line_source);
    let ghost first = *work;
    let mut sources: Vec<SourceLine> = Vec::new();
    let mut remaining: usize = LIMIT;
    let mut sung: usize = 0;
    let mut i: usize = 0;
    while i < lines.len()
        invariant
            i <= lines@.len(),
            sources@.len() == i,
            forall|k: int| 0 <= k < i ==> (#[trigger] sources@[k]).index == k,
            tokens_run_forward(sources@),
            text_tokens(lines@, i as int) + remaining == LIMIT,
            sung <= text_tokens(lines@, i as int),
            first == *old(work),
            *work >= first,
            *work <= first + lines_cost(lines@, i as int),
            sung == token_count(sources@, i as int),
            forall|k: int| 0 <= k < i ==> line_source(lines@, k, #[trigger] sources@[k], first as int),
        decreases lines@.len() - i,
    {
        proof {
            reveal(line_source);
            lemma_text_tokens_step(lines@, i as int);
            lemma_lines_cost_grow(lines@, i as int + 1, lines@.len() as int);
        }
        let ghost work_before = *work;
        let ghost sources_before = sources@;
        let next = if i + 1 < lines.len() { Some(&lines[i + 1]) } else { None };
        match canonical(&lines[i], next, remaining, work) {
            CanonicalOutcome::Mapped(tokens) => {
                let count = tokens.len();
                remaining = remaining - count;
                sung = sung + count;
                let ghost raw = tokens@;
                let tagged = retag(tokens, i);
                proof {
                    reveal(line_source);
                    let line = lines@[i as int];
                    let slots = choose|slots: Seq<Slot>| #[trigger] slot_views(slots) == spec_tokens(line.text@)
                        && ordered_within(slots, line.text@.len())
                        && if line.words is Some && line.words.unwrap()@.len() > 0 {
                        timed_as_cued(line.text@, line.words.unwrap()@, slots, raw)
                    } else {
                        spread_by_keys(slots, line.start, line_until(line, next_value_of(lines@, i as int)), raw)
                    };
                    lemma_retag_keeps_times(line.text@, if line.words is Some { line.words.unwrap()@ } else { Seq::empty() },
                        slots, line.start, line_until(line, next_value_of(lines@, i as int)), raw, tagged@);
                }
                sources.push(SourceLine { index: i, tokens: Some(tagged) });
            },
            CanonicalOutcome::Unsafe(count) => {
                remaining = remaining - count;
                proof {
                    reveal(line_source);
                    let line = lines@[i as int];
                    if line.words is Some && line.words.unwrap()@.len() > 0 && spec_tokens(line.text@).len() > 0 {
                        let slots = choose|slots: Seq<Slot>| #[trigger] slot_views(slots) == spec_tokens(line.text@)
                            && ordered_within(slots, line.text@.len())
                            && (untimed(line.text@, line.words.unwrap()@, slots)
                            || work_before + map_steps(line.text@, line.words.unwrap()@, slots) >= CELLS);
                        lemma_map_steps_bound(line.text@, line.words.unwrap()@, slots);
                        assert(slot_views(slots).len() == slots.len());
                    }
                }
                sources.push(SourceLine { index: i, tokens: None });
            },
            CanonicalOutcome::LimitExceeded => {
                proof {
                    reveal(line_source);
                    lemma_text_tokens_prefix(lines@, i as int + 1, lines@.len() as int);
                }
                return None;
            },
        }
        proof {
            reveal(line_source);
            lemma_token_count_agree(sources@, sources_before, i as int);
            assert forall|k: int| 0 <= k < i + 1 implies line_source(lines@, k, #[trigger] sources@[k], first as int) by {
                if k < i {
                    assert(sources@[k] == sources_before[k]);
                }
            }
        }
        i = i + 1;
    }
    Some((sources, sung))
}

/// The line after line `i`, if any.
pub open spec fn next_value_of(lines: Seq<LyricsLine>, i: int) -> Option<LyricsLine> {
    if i + 1 < lines.len() { Some(lines[i + 1]) } else { None }
}

/// The tokens of each guide line, all of them within `LIMIT` together; `None` otherwise.
fn guide_slots(lines: &Vec<LyricsLine>) -> (slots: Option<Vec<Vec<Slot>>>)
    ensures
        slots is None <==> text_tokens(lines@, lines@.len() as int) > LIMIT,
        slots matches Some(slots) ==> {
            &&& slots@.len() == lines@.len()
            &&& forall|i: int| 0 <= i < slots@.len() ==> slot_views((#[trigger] slots@[i])@) == spec_tokens(lines@[i].text@)
            &&& forall|i: int| 0 <= i < slots@.len() ==> ordered_within((#[trigger] slots@[i])@, lines@[i].text@.len())
        },
{
    let mut slots: Vec<Vec<Slot>> = Vec::new();
    let mut remaining: usize = LIMIT;
    let mut i: usize = 0;
    while i < lines.len()
        invariant
            i <= lines@.len(),
            slots@.len() == i,
            forall|k: int| 0 <= k < i ==> slot_views((#[trigger] slots@[k])@) == spec_tokens(lines@[k].text@),
            forall|k: int| 0 <= k < i ==> ordered_within((#[trigger] slots@[k])@, lines@[k].text@.len()),
            text_tokens(lines@, i as int) + remaining == LIMIT,
        decreases lines@.len() - i,
    {
        proof {
            lemma_text_tokens_step(lines@, i as int);
        }
        let line_slots = match bounded_tokens_to(lines[i].text.as_str(), remaining) {
            Some(found) => found,
            None => {
                proof {
                    lemma_text_tokens_prefix(lines@, i as int + 1, lines@.len() as int);
                }
                return None;
            },
        };
        proof {
            assert(slot_views(line_slots@).len() == line_slots@.len());
        }
        remaining = remaining - line_slots.len();
        slots.push(line_slots);
        i = i + 1;
    }
    Some(slots)
}

/// The time window of each guide line.
fn guide_hints(lines: &Vec<LyricsLine>) -> (hints: Vec<GuideHint>)
    ensures
        hints@.len() == lines@.len(),
        forall|i: int| 0 <= i < hints@.len() ==> #[trigger] hints@[i] == spec_guide_hint(lines@, i),
{
    let mut hints: Vec<GuideHint> = Vec::new();
    let mut i: usize = 0;
    while i < lines.len()
        invariant
            i <= lines@.len(),
            hints@.len() == i,
            forall|k: int| 0 <= k < i ==> #[trigger] hints@[k] == spec_guide_hint(lines@, k),
        decreases lines@.len() - i,
    {
        hints.push(guide_hint(lines, i));
        i = i + 1;
    }
    hints
}

/// The first step of a way through the remaining source and guide lines: keep a source
/// line, drop a guide line, match a group, or stop at the end of both.
#[derive(Clone, Copy, Debug)]
pub enum Step {
    Source,
    Guide,
    Match(Group),
    Done,
}

/// The best way found from some source line and some guide line on: the pairs its groups
/// hold, their summed temporal distance, and its first step.
#[derive(Clone, Copy, Debug)]
pub struct Path {
    pub score: usize,
    pub temporal_distance: u128,
    pub step: Step,
}

/// Whether `step` can be taken from source line `i` and guide line `j` of `n` and `m`.
pub open spec fn step_fits(step: Step, i: int, j: int, n: int, m: int) -> bool {
    match step {
        Step::Source => i < n,
        Step::Guide => j < m,
        Step::Match(found) => found.sources >= 1 && found.guides >= 1 && i + found.sources <= n
            && j + found.guides <= m,
        Step::Done => i == n && j == m,
    }
}

/// Whether `rows` holds, for each source line `n - r` from the last on, the paths from
/// every guide line, each with a step that fits.
pub open spec fn rows_fit(rows: Seq<Vec<Path>>, n: int, m: int) -> bool {
    forall|r: int| 0 <= r < rows.len() ==> {
        &&& (#[trigger] rows[r])@.len() == m + 1
        &&& forall|c: int| 0 <= c <= m ==> step_fits((#[trigger] rows[r]@[c]).step, n - r, c, n, m)
    }
}

/// The better of two paths: more pairs, or as many pairs closer in time; the first on a tie.
pub open spec fn spec_better(current: Option<Path>, candidate: Path) -> Path {
    match current {
        None => candidate,
        Some(current) => if candidate.score > current.score || (candidate.score == current.score
            && candidate.temporal_distance < current.temporal_distance) {
            candidate
        } else {
            current
        },
    }
}

/// Decides `spec_better`.
pub fn better(current: Option<Path>, candidate: Path) -> (best: Path)
    ensures
        best == spec_better(current, candidate),
{
    match current {
        None => candidate,
        Some(current) => if candidate.score > current.score || (candidate.score == current.score
            && candidate.temporal_distance < current.temporal_distance) {
            candidate
        } else {
            current
        },
    }
}

/// Whether the work budget cannot cover one more group of `sources` and `slots` after
/// `work`: one group's table has at most as many cells as all source tokens times all guide
/// tokens.
pub open spec fn budget_spent(work: int, sources: Seq<SourceLine>, slots: Seq<Vec<Slot>>) -> bool {
    let tokens = token_count(sources, sources.len() as int);
    let places = slot_count(slots, slots.len() as int);
    ||| work + tokens * places >= CELLS
    ||| tokens > usize::MAX
    ||| places > usize::MAX
}

/// Whether some planned path has so many pairs that one more group could overflow them.
pub open spec fn scores_overflow(rows: Seq<Vec<Path>>) -> bool {
    exists|r: int, c: int| 0 <= r < rows.len() && 0 <= c < rows[r]@.len() && #[trigger] rows[r]@[c].score + CELLS > usize::MAX
}

/// Whether every planned path has at most one group's worth of pairs (`CELLS`) for each
/// line it has left to cover: row `r` is source line `n - r`.
pub open spec fn scores_bounded(rows: Seq<Vec<Path>>, m: int) -> bool {
    forall|r: int, c: int| 0 <= r < rows.len() && 0 <= c < rows[r]@.len() && c <= m
        ==> #[trigger] rows[r]@[c].score <= (r + (m - c)) * CELLS
}

/// What evaluating a group gives when the budget covers it (see `group`): the group, when
/// its lines are temporally compatible, both sides have tokens and it matches.
pub open spec fn group_result(sources: Seq<SourceLine>, slots: Seq<Vec<Slot>>, hints: Seq<GuideHint>) -> Option<Group> {
    if spec_group_compatible(sources, hints) && token_count(sources, sources.len() as int) > 0
        && slot_count(slots, slots.len() as int) > 0 && group_matches(sources, slots, hints) {
        Some(
            Group {
                sources: sources.len() as usize,
                guides: slots.len() as usize,
                pairs: group_pairs(sources, slots, hints).len() as usize,
                temporal_distance: spec_group_distance(source_starts(sources, sources.len() as int).unwrap(), hints),
            },
        )
    } else {
        None
    }
}

/// How many guide lines a group of `a` source lines from guide line `j` may take: any
/// number for one source line or at the last guide line, else one.
pub open spec fn group_width(a: int, j: int, m: int) -> int {
    if a == 1 || j == m { m - j } else { 1 }
}

/// The path that matches source lines `i..i + a` with guide lines `j..j + b` and goes on
/// with the planned path from where the group ends; none when the group does not match.
pub open spec fn match_candidate(
    i: int,
    j: int,
    a: int,
    b: int,
    sources: Seq<SourceLine>,
    slots: Seq<Vec<Slot>>,
    hints: Seq<GuideHint>,
    rows: Seq<Vec<Path>>,
) -> Option<Path> {
    let n = sources.len() as int;
    match group_result(sources.subrange(i, i + a), slots.subrange(j, j + b), hints.subrange(j, j + b)) {
        Some(found) => {
            let next = rows[n - i - a]@[j + b];
            let distance = next.temporal_distance + found.temporal_distance;
            Some(Path {
                score: (next.score + found.pairs) as usize,
                temporal_distance: if distance > u128::MAX { u128::MAX } else { distance as u128 },
                step: Step::Match(found),
            })
        },
        None => None,
    }
}

/// The better of `best` and the groups of `a` source lines with `b..=widest` guide lines.
pub open spec fn fold_guides(
    best: Option<Path>,
    i: int,
    j: int,
    a: int,
    b: int,
    sources: Seq<SourceLine>,
    slots: Seq<Vec<Slot>>,
    hints: Seq<GuideHint>,
    rows: Seq<Vec<Path>>,
) -> Option<Path>
    decreases group_width(a, j, slots.len() as int) + 1 - b,
{
    if b < 1 || b > group_width(a, j, slots.len() as int) {
        best
    } else {
        let next = match match_candidate(i, j, a, b, sources, slots, hints, rows) {
            Some(path) => Some(spec_better(best, path)),
            None => best,
        };
        fold_guides(next, i, j, a, b + 1, sources, slots, hints, rows)
    }
}

/// The better of `best` and the groups of `a` or more source lines from line `i`, up to the
/// first source line without tokens.
pub open spec fn fold_sources(
    best: Option<Path>,
    i: int,
    j: int,
    a: int,
    sources: Seq<SourceLine>,
    slots: Seq<Vec<Slot>>,
    hints: Seq<GuideHint>,
    rows: Seq<Vec<Path>>,
) -> Option<Path>
    decreases sources.len() - i + 1 - a,
{
    if a < 1 || a > sources.len() - i || sources[i + a - 1].tokens is None {
        best
    } else {
        fold_sources(fold_guides(best, i, j, a, 1, sources, slots, hints, rows), i, j, a + 1, sources, slots, hints, rows)
    }
}

/// The most work one group of `sources` and `slots` can charge: all source tokens times all
/// guide tokens.
pub open spec fn group_cost(sources: Seq<SourceLine>, slots: Seq<Vec<Slot>>) -> int {
    token_count(sources, sources.len() as int) * slot_count(slots, slots.len() as int)
}

proof fn lemma_group_cost_nonnegative(sources: Seq<SourceLine>, slots: Seq<Vec<Slot>>)
    ensures
        group_cost(sources, slots) >= 0,
{
    lemma_token_count_window(sources, 0, 0);
    lemma_slot_count_window(slots, 0, 0);
    let x = token_count(sources, sources.len() as int);
    let y = slot_count(slots, slots.len() as int);
    assert(x * y >= 0) by (nonlinear_arith)
        requires x >= 0, y >= 0;
}

/// The most work planning can charge: one `best_at` for each source line and guide line,
/// each charging at most every source line times every guide line times `group_cost`.
pub open spec fn plan_cost(sources: Seq<SourceLine>, slots: Seq<Vec<Slot>>) -> int {
    (sources.len() + 1) * (slots.len() + 1) * (sources.len() * slots.len() * group_cost(sources, slots))
}

proof fn lemma_plan_cost_covers(sources: Seq<SourceLine>, slots: Seq<Vec<Slot>>, r: int, c: int)
    requires
        0 <= r <= sources.len(),
        1 <= c <= slots.len() + 1,
    ensures
        (r * (slots.len() + 1) + (slots.len() + 1 - c) + 1) * (sources.len() * slots.len() * group_cost(sources, slots))
            <= plan_cost(sources, slots),
        plan_cost(sources, slots) >= 0,
{
    lemma_group_cost_nonnegative(sources, slots);
    let n = sources.len() as int;
    let m = slots.len() as int;
    let g = group_cost(sources, slots);
    let e = n * m * g;
    assert(e >= 0) by (nonlinear_arith)
        requires g >= 0, n >= 0, m >= 0, e == n * m * g;
    assert((r * (m + 1) + (m + 1 - c) + 1) * e <= (n + 1) * (m + 1) * e) by (nonlinear_arith)
        requires 0 <= r <= n, 1 <= c <= m + 1, e >= 0;
    assert((n + 1) * (m + 1) * e >= 0) by (nonlinear_arith)
        requires n >= 0, m >= 0, e >= 0;
}

/// The best path from source line `i` and guide line `j`, as `best_at` finds it: keeping
/// the source line, then dropping the guide line, then each group in turn, each taken
/// when `spec_better` prefers it.
pub open spec fn spec_best_at(
    i: int,
    j: int,
    sources: Seq<SourceLine>,
    slots: Seq<Vec<Slot>>,
    hints: Seq<GuideHint>,
    rows: Seq<Vec<Path>>,
    row: Seq<Path>,
) -> Option<Path> {
    let n = sources.len() as int;
    let m = slots.len() as int;
    let kept = if i < n {
        let next = rows[n - i - 1]@[j];
        Some(Path { score: next.score, temporal_distance: next.temporal_distance, step: Step::Source })
    } else {
        None
    };
    let dropped = if j < m {
        let next = row[j + 1];
        Some(spec_better(kept, Path { score: next.score, temporal_distance: next.temporal_distance, step: Step::Guide }))
    } else {
        kept
    };
    fold_sources(dropped, i, j, 1, sources, slots, hints, rows)
}

/// The best path from source line `i` and guide line `j`: keeping source line `i`,
/// dropping guide line `j`, or matching source lines `i..i + a` with guide lines `j..j + b`
/// as a group, where one side is a single line (several source lines merge into one guide
/// line, or one source line splits into several), followed by the best path from where
/// that step ends. `rows` holds the rows
/// of the later source lines and `row` the paths from the later guide lines of line `i`.
/// `None` only when the work budget cannot cover one more group or a score could overflow.
fn best_at(
    i: usize,
    j: usize,
    sources: &Vec<SourceLine>,
    slots: &Vec<Vec<Slot>>,
    hints: &Vec<GuideHint>,
    rows: &Vec<Vec<Path>>,
    row: &Vec<Path>,
    work: &mut usize,
) -> (best: Option<Path>)
    requires
        slots@.len() == hints@.len(),
        i <= sources@.len(),
        j <= slots@.len(),
        i < sources@.len() || j < slots@.len(),
        sources@.len() < usize::MAX,
        slots@.len() < usize::MAX,
        rows@.len() == sources@.len() - i,
        rows_fit(rows@, sources@.len() as int, slots@.len() as int),
        row@.len() == slots@.len() + 1,
        forall|c: int| j < c <= slots@.len() ==> step_fits(
            (#[trigger] row@[c]).step,
            i as int,
            c,
            sources@.len() as int,
            slots@.len() as int,
        ),
    ensures
        best matches Some(path) ==> step_fits(
            path.step,
            i as int,
            j as int,
            sources@.len() as int,
            slots@.len() as int,
        ),
        *final(work) >= *old(work),
        *final(work) <= *old(work) + sources@.len() * slots@.len() * group_cost(sources@, slots@),
        best is None ==> budget_spent(*final(work) as int, sources@, slots@) || scores_overflow(rows@),
        scores_bounded(rows@, slots@.len() as int) && (forall|c: int| j < c <= slots@.len()
            ==> (#[trigger] row@[c]).score <= ((sources@.len() - i) + (slots@.len() - c)) * CELLS)
            ==> (best matches Some(path) ==> path.score <= ((sources@.len() - i) + (slots@.len() - j)) * CELLS),
        token_count(sources@, sources@.len() as int) <= usize::MAX && slot_count(slots@, slots@.len() as int) <= usize::MAX
            ==> (best is Some ==> best == spec_best_at(i as int, j as int, sources@, slots@, hints@, rows@, row@)),
{
    let n = sources.len();
    let m = slots.len();
    let ghost bounded = scores_bounded(rows@, m as int) && (forall|c: int| j < c <= m
        ==> (#[trigger] row@[c]).score <= ((n - i) + (m - c)) * CELLS);
    let ghost limit = ((n - i) + (m - j)) * CELLS;
    let mut best: Option<Path> = None;
    if i < n {
        let next = rows[n - i - 1][j];
        best = Some(Path { score: next.score, temporal_distance: next.temporal_distance, step: Step::Source });
    }
    if j < m {
        let next = row[j + 1];
        best = Some(better(best, Path { score: next.score, temporal_distance: next.temporal_distance, step: Step::Guide }));
    }
    let ghost premise = token_count(sources@, n as int) <= usize::MAX && slot_count(slots@, m as int) <= usize::MAX;
    let ghost target = spec_best_at(i as int, j as int, sources@, slots@, hints@, rows@, row@);
    assert(fold_sources(best, i as int, j as int, 1, sources@, slots@, hints@, rows@) == target);
    let mut a: usize = 1;
    while a <= n - i && sources[i + a - 1].tokens.is_some()
        invariant
            i < n ==> 1 <= a <= n - i + 1,
            i == n ==> a == 1,
            n == sources@.len(),
            m == slots@.len(),
            m == hints@.len(),
            n < usize::MAX,
            m < usize::MAX,
            j <= m,
            rows@.len() == n - i,
            rows_fit(rows@, n as int, m as int),
            best matches Some(path) ==> step_fits(path.step, i as int, j as int, n as int, m as int),
            best is Some,
            *work >= *old(work),
            *work <= *old(work) + (a - 1) * m * group_cost(sources@, slots@),
            bounded == (scores_bounded(rows@, m as int) && (forall|c: int| j < c <= m
                ==> (#[trigger] row@[c]).score <= ((n - i) + (m - c)) * CELLS)),
            limit == ((n - i) + (m - j)) * CELLS,
            bounded ==> (best matches Some(path) ==> path.score <= limit),
            premise == (token_count(sources@, n as int) <= usize::MAX && slot_count(slots@, m as int) <= usize::MAX),
            target == spec_best_at(i as int, j as int, sources@, slots@, hints@, rows@, row@),
            premise ==> fold_sources(best, i as int, j as int, a as int, sources@, slots@, hints@, rows@) == target,
        decreases n - i + 1 - a,
    {
        let group_sources = vstd::slice::slice_subrange(sources.as_slice(), i, i + a);
        let widest: usize = if a == 1 || j == m { m - j } else { 1 };
        assert(widest == group_width(a as int, j as int, m as int));
        assert(premise ==> fold_sources(fold_guides(best, i as int, j as int, a as int, 1, sources@, slots@, hints@, rows@), i as int, j as int, a + 1, sources@, slots@, hints@, rows@) == target);
        let mut b: usize = 1;
        while b <= widest
            invariant
                1 <= a <= n - i,
                widest <= m - j,
                1 <= b <= widest + 1,
                n == sources@.len(),
                m == slots@.len(),
                m == hints@.len(),
                n < usize::MAX,
                m < usize::MAX,
                j <= m,
                rows@.len() == n - i,
                rows_fit(rows@, n as int, m as int),
                group_sources@.len() == a,
                group_sources@ == sources@.subrange(i as int, i + a),
                best matches Some(path) ==> step_fits(path.step, i as int, j as int, n as int, m as int),
                best is Some,
                *work >= *old(work),
                *work <= *old(work) + ((a - 1) * m + (b - 1)) * group_cost(sources@, slots@),
                bounded == (scores_bounded(rows@, m as int) && (forall|c: int| j < c <= m
                    ==> (#[trigger] row@[c]).score <= ((n - i) + (m - c)) * CELLS)),
                limit == ((n - i) + (m - j)) * CELLS,
                bounded ==> (best matches Some(path) ==> path.score <= limit),
                premise == (token_count(sources@, n as int) <= usize::MAX && slot_count(slots@, m as int) <= usize::MAX),
                target == spec_best_at(i as int, j as int, sources@, slots@, hints@, rows@, row@),
                widest == group_width(a as int, j as int, m as int),
                premise ==> fold_sources(fold_guides(best, i as int, j as int, a as int, b as int, sources@, slots@, hints@, rows@), i as int, j as int, a + 1, sources@, slots@, hints@, rows@) == target,
            decreases widest + 1 - b,
        {
            let group_slots = vstd::slice::slice_subrange(slots.as_slice(), j, j + b);
            let group_hints = vstd::slice::slice_subrange(hints.as_slice(), j, j + b);
            let ghost before = *work;
            let ghost best_before = best;
            proof {
                lemma_token_count_window(sources@, i as int, a as int);
                lemma_slot_count_window(slots@, j as int, b as int);
                assert(group_slots@ == slots@.subrange(j as int, j + b));
                assert(group_hints@ == hints@.subrange(j as int, j + b));
                let x = token_count(group_sources@, a as int);
                let y = slot_count(group_slots@, b as int);
                let tokens = token_count(sources@, n as int);
                let places = slot_count(slots@, m as int);
                assert(x * y <= tokens * places) by (nonlinear_arith)
                    requires 0 <= x <= tokens, 0 <= y <= places;
                let k = group_cost(sources@, slots@);
                assert(((a - 1) * m + (b - 1)) * k + k == ((a - 1) * m + b) * k) by (nonlinear_arith);
                assert(((a - 1) * m + b) * k <= a * m * k) by (nonlinear_arith)
                    requires b <= m, k >= 0, a >= 1;
                assert(a * m * k <= n * m * k) by (nonlinear_arith)
                    requires a <= n, k >= 0, m >= 0;
            }
            match group(group_sources, group_slots, group_hints, work) {
                GroupOutcome::LimitExceeded => {
                    proof {
                        lemma_token_count_window(sources@, i as int, a as int);
                        lemma_slot_count_window(slots@, j as int, b as int);
                        let x = token_count(group_sources@, a as int);
                        let y = slot_count(group_slots@, b as int);
                        let tokens = token_count(sources@, n as int);
                        let places = slot_count(slots@, m as int);
                        assert(x * y <= tokens * places) by (nonlinear_arith)
                            requires 0 <= x <= tokens, 0 <= y <= places;
                    }
                    return None;
                },
                GroupOutcome::Incompatible => {
                    assert(premise ==> match_candidate(i as int, j as int, a as int, b as int, sources@, slots@, hints@, rows@) is None);
                },
                GroupOutcome::Matched(found) => {
                    assert(premise ==> group_result(group_sources@, group_slots@, group_hints@) == Some(found));
                    let next = rows[n - i - a][j + b];
                    let score = match next.score.checked_add(found.pairs) {
                        Some(score) => score,
                        None => {
                            assert(rows@[(n - i - a) as int]@[(j + b) as int].score + CELLS > usize::MAX);
                            return None;
                        },
                    };
                    let temporal_distance = next.temporal_distance.saturating_add(found.temporal_distance);
                    best = Some(better(best, Path { score, temporal_distance, step: Step::Match(found) }));
                    assert(premise ==> match_candidate(i as int, j as int, a as int, b as int, sources@, slots@, hints@, rows@)
                        == Some(Path { score, temporal_distance, step: Step::Match(found) }));
                },
            }
            b = b + 1;
        }
        proof {
            let k = group_cost(sources@, slots@);
            lemma_group_cost_nonnegative(sources@, slots@);
            assert(((a - 1) * m + (b - 1)) * k <= a * m * k) by (nonlinear_arith)
                requires b - 1 <= m, k >= 0, a >= 1;
        }
        a = a + 1;
    }
    proof {
        let k = group_cost(sources@, slots@);
        lemma_group_cost_nonnegative(sources@, slots@);
        assert((a - 1) * m * k <= n * m * k) by (nonlinear_arith)
            requires a - 1 <= n, k >= 0, m >= 0;
    }
    best
}

/// Whether `rows` holds, for each source line `n - r` from the last on, the path that
/// `spec_best_at` finds from it and each guide line over the rows after it, and the end of
/// both at the last cell of the first row.
#[verifier::opaque]
pub open spec fn planned(rows: Seq<Vec<Path>>, sources: Seq<SourceLine>, slots: Seq<Vec<Slot>>, hints: Seq<GuideHint>) -> bool {
    let n = sources.len() as int;
    let m = slots.len() as int;
    forall|r: int, c: int| 0 <= r < rows.len() && 0 <= c <= m ==> {
        if r == 0 && c == m {
            #[trigger] rows[r]@[c] == Path { score: 0, temporal_distance: 0, step: Step::Done }
        } else {
            Some(rows[r]@[c]) == spec_best_at(n - r, c, sources, slots, hints, rows.take(r), rows[r]@)
        }
    }
}

/// The best paths from every source line and guide line: `rows[r][j]` is the path from
/// source line `n - r` and guide line `j`. `None` only when the work budget cannot cover
/// one more group (see `budget_spent`) or the pair counts could overflow.
#[verifier::rlimit(60)]
fn plan(sources: &Vec<SourceLine>, slots: &Vec<Vec<Slot>>, hints: &Vec<GuideHint>, work: &mut usize) -> (rows: Option<Vec<Vec<Path>>>)
    requires
        slots@.len() == hints@.len(),
    ensures
        rows matches Some(rows) ==> {
            &&& rows@.len() == sources@.len() + 1
            &&& rows_fit(rows@, sources@.len() as int, slots@.len() as int)
        },
        *final(work) >= *old(work),
        *final(work) <= *old(work) + plan_cost(sources@, slots@),
        rows is None ==> budget_spent(*final(work) as int, sources@, slots@)
            || (sources@.len() + slots@.len() + 1) * CELLS > usize::MAX,
        rows matches Some(rows) ==> token_count(sources@, sources@.len() as int) <= usize::MAX
            && slot_count(slots@, slots@.len() as int) <= usize::MAX ==> planned(rows@, sources@, slots@, hints@),
{
    reveal(planned);
    let n = sources.len();
    let m = slots.len();
    proof {
        reveal(planned);
        lemma_plan_cost_covers(sources@, slots@, 0, 1);
    }
    let count = match n.checked_add(1) {
        Some(count) => count,
        None => return None,
    };
    let columns = match m.checked_add(1) {
        Some(columns) => columns,
        None => return None,
    };
    let ghost premise = token_count(sources@, n as int) <= usize::MAX && slot_count(slots@, m as int) <= usize::MAX;
    let mut rows: Vec<Vec<Path>> = Vec::new();
    let mut r: usize = 0;
    while r < count
        invariant
            n == sources@.len(),
            m == slots@.len(),
            m == hints@.len(),
            count == n + 1,
            columns == m + 1,
            r <= count,
            rows@.len() == r,
            rows_fit(rows@, n as int, m as int),
            scores_bounded(rows@, m as int),
            forall|q: int| 0 <= q < rows@.len() ==> (#[trigger] rows@[q])@.len() == m + 1,
            *work >= *old(work),
            *work <= *old(work) + r * (m + 1) * (n * m * group_cost(sources@, slots@)),
            premise == (token_count(sources@, n as int) <= usize::MAX && slot_count(slots@, m as int) <= usize::MAX),
            premise ==> planned(rows@, sources@, slots@, hints@),
        decreases count - r,
    {
        let i = n - r;
        let mut row: Vec<Path> = Vec::new();
        let mut c: usize = 0;
        while c < columns
            invariant
                columns == m + 1,
                c <= columns,
                row@.len() == c,
            decreases columns - c,
        {
            row.push(Path { score: 0, temporal_distance: 0, step: Step::Done });
            c = c + 1;
        }
        let mut c: usize = columns;
        while c > 0
            invariant
                n == sources@.len(),
                m == slots@.len(),
                m == hints@.len(),
                columns == m + 1,
                count == n + 1,
                i == n - r,
                rows@.len() == r,
                r < count,
                rows_fit(rows@, n as int, m as int),
                c <= columns,
                row@.len() == columns,
                forall|k: int| c <= k <= m ==> step_fits((#[trigger] row@[k]).step, i as int, k, n as int, m as int),
                scores_bounded(rows@, m as int),
                forall|q: int| 0 <= q < rows@.len() ==> (#[trigger] rows@[q])@.len() == m + 1,
                forall|k: int| c <= k <= m ==> (#[trigger] row@[k]).score <= ((n - i) + (m - k)) * CELLS,
                *work >= *old(work),
                *work <= *old(work) + (r * (m + 1) + (m + 1 - c)) * (n * m * group_cost(sources@, slots@)),
                premise == (token_count(sources@, n as int) <= usize::MAX && slot_count(slots@, m as int) <= usize::MAX),
                premise ==> planned(rows@, sources@, slots@, hints@),
                premise ==> forall|k: int| c <= k <= m ==> if r == 0 && k == m {
                    #[trigger] row@[k] == Path { score: 0, temporal_distance: 0, step: Step::Done }
                } else {
                    Some(row@[k]) == spec_best_at(i as int, k, sources@, slots@, hints@, rows@, row@)
                },
            decreases c,
        {
            let j = c - 1;
            let ghost old_row = row@;
            proof {
                reveal(planned);
                lemma_group_cost_nonnegative(sources@, slots@);
                let e = n * m * group_cost(sources@, slots@);
                let g = group_cost(sources@, slots@);
                assert(e >= 0) by (nonlinear_arith)
                    requires g >= 0, n >= 0, m >= 0, e == n * m * g;
                assert((r * (m + 1) + (m + 1 - c)) * e + e == (r * (m + 1) + (m + 1 - j)) * e) by (nonlinear_arith)
                    requires j == c - 1;
            }
            if i == n && j == m {
                row.set(j, Path { score: 0, temporal_distance: 0, step: Step::Done });
            } else {
                match best_at(i, j, sources, slots, hints, &rows, &row, work) {
                    Some(path) => row.set(j, path),
                    None => {
                        proof {
                            reveal(planned);
                            lemma_plan_cost_covers(sources@, slots@, r as int, c as int);
                            if scores_overflow(rows@) {
                                let (q, k) = choose|q: int, k: int| 0 <= q < rows@.len() && 0 <= k < rows@[q]@.len()
                                    && #[trigger] rows@[q]@[k].score + CELLS > usize::MAX;
                                assert(rows@[q]@[k].score <= (q + (m - k)) * CELLS);
                                assert((q + (m - k)) * CELLS <= (n + m) * CELLS);
                            }
                        }
                        return None;
                    },
                }
            }
            proof {
                reveal(planned);
                if premise {
                    assert forall|k: int| j <= k <= m implies if r == 0 && k == m {
                        #[trigger] row@[k] == Path { score: 0, temporal_distance: 0, step: Step::Done }
                    } else {
                        Some(row@[k]) == spec_best_at(i as int, k, sources@, slots@, hints@, rows@, row@)
                    } by {
                        if k > j {
                            assert(row@[k] == old_row[k]);
                            if k < m {
                                assert(row@[k + 1] == old_row[k + 1]);
                            }
                        } else if j < m {
                            assert(row@[j + 1] == old_row[j + 1]);
                        }
                    }
                }
            }
            c = j;
        }
        let ghost before = rows@;
        proof {
            reveal(planned);
            let e = n * m * group_cost(sources@, slots@);
            assert((r * (m + 1) + (m + 1)) * e == (r + 1) * (m + 1) * e) by (nonlinear_arith);
            assert(*work <= *old(work) + (r + 1) * (m + 1) * e);
        }
        rows.push(row);
        proof {
            reveal(planned);
            assert forall|q: int| 0 <= q < rows@.len() implies {
                &&& (#[trigger] rows@[q])@.len() == m + 1
                &&& forall|k: int| 0 <= k <= m ==> step_fits((#[trigger] rows@[q]@[k]).step, n - q, k, n as int, m as int)
            } by {
                if q < r {
                    assert(rows@[q] == before[q]);
                }
            }
            if premise {
                assert forall|q: int, k: int| 0 <= q < rows@.len() && 0 <= k <= m implies if q == 0 && k == m {
                    #[trigger] rows@[q]@[k] == Path { score: 0, temporal_distance: 0, step: Step::Done }
                } else {
                    Some(rows@[q]@[k]) == spec_best_at(n - q, k, sources@, slots@, hints@, rows@.take(q), rows@[q]@)
                } by {
                    if q < r {
                        assert(rows@[q] == before[q]);
                        assert(rows@.take(q) =~= before.take(q));
                    } else {
                        assert(rows@[q] == row);
                        assert(rows@.take(q) =~= before);
                    }
                }
            }
            assert forall|q: int, k: int| 0 <= q < rows@.len() && 0 <= k < rows@[q]@.len() && k <= m
                implies #[trigger] rows@[q]@[k].score <= (q + (m - k)) * CELLS by {
                if q < r {
                    assert(rows@[q] == before[q]);
                } else {
                    assert(rows@[q]@[k] == row@[k]);
                }
            }
        }
        r = r + 1;
    }
    proof {
        reveal(planned);
        lemma_group_cost_nonnegative(sources@, slots@);
        let e = n * m * group_cost(sources@, slots@);
        assert(r == n + 1);
    }
    Some(rows)
}

/// Whether every word of a line has text and starts no later than it ends.
pub open spec fn words_filled(line: LyricsLine) -> bool {
    line.words matches Some(words) && forall|w: int| 0 <= w < words@.len()
        ==> (#[trigger] words@[w]).text@.len() > 0 && words@[w].start <= words@[w].end
}

/// Whether an output line is a source line kept as it was, or a guide line's text that was
/// given word timing, with words that have text, spell the text out exactly and start in
/// order, each no later than it ends.
pub open spec fn kept_or_conformed(line: LyricsLine, source: Seq<LyricsLine>, guide: Seq<LyricsLine>) -> bool {
    ||| exists|i: int| 0 <= i < source.len() && same_line(line, #[trigger] source[i])
    ||| exists|j: int| 0 <= j < guide.len() && line.text@ == (#[trigger] guide[j]).text@ && spelled_by_words(line)
        && words_start_in_order(line) && words_filled(line)
}

/// Whether following the planned path from source line `i` and guide line `j`, with
/// `pairs` pairs so far, gets to the end: every matched group on it can be built and the
/// pair count fits a `usize`.
pub open spec fn followable(
    sources: Seq<SourceLine>,
    slots: Seq<Vec<Slot>>,
    hints: Seq<GuideHint>,
    rows: Seq<Vec<Path>>,
    i: int,
    j: int,
    pairs: int,
) -> bool
    decreases (sources.len() - i) + (slots.len() - j),
{
    let n = sources.len() as int;
    let m = slots.len() as int;
    if i < 0 || j < 0 || i > n || j > m || !(i < n || j < m) {
        true
    } else {
        match rows[n - i]@[j].step {
            Step::Source => i < n && followable(sources, slots, hints, rows, i + 1, j, pairs),
            Step::Guide => j < m && followable(sources, slots, hints, rows, i, j + 1, pairs),
            Step::Match(found) => {
                let a = found.sources as int;
                let b = found.guides as int;
                &&& a >= 1 && b >= 1 && i + a <= n && j + b <= m
                &&& buildable(sources.subrange(i, i + a), slots.subrange(j, j + b), hints.subrange(j, j + b))
                &&& pairs + found.pairs <= usize::MAX
                &&& followable(sources, slots, hints, rows, i + a, j + b, pairs + found.pairs)
            },
            Step::Done => false,
        }
    }
}

/// What following the planned path from source line `i` and guide line `j` adds up to: the
/// pairs of its groups, the guide lines its groups hold, and the lines it gives (each kept
/// source line and each guide line of a group).
pub open spec fn path_totals(
    sources: Seq<SourceLine>,
    slots: Seq<Vec<Slot>>,
    rows: Seq<Vec<Path>>,
    i: int,
    j: int,
) -> (int, int, int)
    decreases (sources.len() - i) + (slots.len() - j),
{
    let n = sources.len() as int;
    let m = slots.len() as int;
    if i < 0 || j < 0 || i > n || j > m || !(i < n || j < m) {
        (0, 0, 0)
    } else {
        match rows[n - i]@[j].step {
            Step::Source => if i < n {
                let rest = path_totals(sources, slots, rows, i + 1, j);
                (rest.0, rest.1, rest.2 + 1)
            } else {
                (0, 0, 0)
            },
            Step::Guide => if j < m { path_totals(sources, slots, rows, i, j + 1) } else { (0, 0, 0) },
            Step::Match(found) => {
                let a = found.sources as int;
                let b = found.guides as int;
                if a >= 1 && b >= 1 && i + a <= n && j + b <= m {
                    let rest = path_totals(sources, slots, rows, i + a, j + b);
                    (rest.0 + found.pairs, rest.1 + b, rest.2 + b)
                } else {
                    (0, 0, 0)
                }
            },
            Step::Done => (0, 0, 0),
        }
    }
}

/// Whether `lines` are what following the planned path from source line `i` and guide
/// line `j` gives: the source line itself for a source step, nothing for a guide step, and
/// for a matched group the lines that building it gives (see `group_built`).
pub open spec fn path_lines(
    worded: Seq<LyricsLine>,
    guide: Seq<LyricsLine>,
    sources: Seq<SourceLine>,
    slots: Seq<Vec<Slot>>,
    hints: Seq<GuideHint>,
    rows: Seq<Vec<Path>>,
    i: int,
    j: int,
    lines: Seq<LyricsLine>,
) -> bool
    decreases (sources.len() - i) + (slots.len() - j),
{
    let n = sources.len() as int;
    let m = slots.len() as int;
    if i < 0 || j < 0 || i > n || j > m {
        false
    } else if !(i < n || j < m) {
        lines.len() == 0
    } else {
        match rows[n - i]@[j].step {
            Step::Source => i < n && lines.len() > 0 && same_line(lines[0], worded[i])
                && path_lines(worded, guide, sources, slots, hints, rows, i + 1, j, lines.drop_first()),
            Step::Guide => j < m && path_lines(worded, guide, sources, slots, hints, rows, i, j + 1, lines),
            Step::Match(found) => {
                let a = found.sources as int;
                let b = found.guides as int;
                &&& a >= 1 && b >= 1 && i + a <= n && j + b <= m && lines.len() >= b
                &&& group_built(sources.subrange(i, i + a), guide.subrange(j, j + b), slots.subrange(j, j + b),
                    hints.subrange(j, j + b), worded, lines.take(b))
                &&& path_lines(worded, guide, sources, slots, hints, rows, i + a, j + b, lines.skip(b))
            },
            Step::Done => false,
        }
    }
}

/// Follows the planned path from the first source line and the first guide line: a kept
/// source line is copied, a matched group is built from its guide lines, a dropped guide
/// line leaves nothing. Also gives the pairs of the matched groups and how many guide lines
/// they hold. `None` when a group cannot be built.
#[verifier::rlimit(100)]
#[verifier::spinoff_prover]
fn follow(
    worded: &Vec<LyricsLine>,
    guide: &Vec<LyricsLine>,
    sources: &Vec<SourceLine>,
    slots: &Vec<Vec<Slot>>,
    hints: &Vec<GuideHint>,
    rows: &Vec<Vec<Path>>,
) -> (outcome: Option<(Vec<LyricsLine>, usize, usize)>)
    requires
        sources@.len() == worded@.len(),
        forall|i: int| 0 <= i < sources@.len() ==> (#[trigger] sources@[i]).index == i,
        slots@.len() == guide@.len(),
        hints@.len() == guide@.len(),
        forall|i: int| 0 <= i < slots@.len() ==> ordered_within((#[trigger] slots@[i])@, guide@[i].text@.len()),
        rows@.len() == sources@.len() + 1,
        rows_fit(rows@, sources@.len() as int, slots@.len() as int),
        tokens_run_forward(sources@),
    ensures
        outcome is Some <==> followable(sources@, slots@, hints@, rows@, 0, 0, 0),
        outcome matches Some((lines, pairs, anchored)) ==> {
            &&& pairs == path_totals(sources@, slots@, rows@, 0, 0).0
            &&& anchored == path_totals(sources@, slots@, rows@, 0, 0).1
            &&& lines@.len() == path_totals(sources@, slots@, rows@, 0, 0).2
        },
        outcome matches Some((lines, pairs, anchored)) ==> {
            &&& anchored <= guide@.len()
            &&& forall|k: int| 0 <= k < lines@.len() ==> kept_or_conformed(#[trigger] lines@[k], worded@, guide@)
            &&& path_lines(worded@, guide@, sources@, slots@, hints@, rows@, 0, 0, lines@)
        },
{
    let n = sources.len();
    let m = guide.len();
    let mut lines: Vec<LyricsLine> = Vec::new();
    let mut pairs: usize = 0;
    let mut anchored: usize = 0;
    let mut i: usize = 0;
    let mut j: usize = 0;
    assert forall|rest: Seq<LyricsLine>| #[trigger] path_lines(worded@, guide@, sources@, slots@, hints@, rows@, 0, 0, rest)
        implies path_lines(worded@, guide@, sources@, slots@, hints@, rows@, 0, 0, lines@ + rest) by {
        assert(lines@ + rest =~= rest);
    }
    while i < n || j < m
        invariant
            n == sources@.len(),
            n == worded@.len(),
            m == guide@.len(),
            m == slots@.len(),
            m == hints@.len(),
            i <= n,
            j <= m,
            anchored <= j,
            forall|k: int| 0 <= k < sources@.len() ==> (#[trigger] sources@[k]).index == k,
            forall|k: int| 0 <= k < slots@.len() ==> ordered_within((#[trigger] slots@[k])@, guide@[k].text@.len()),
            rows@.len() == n + 1,
            rows_fit(rows@, n as int, m as int),
            tokens_run_forward(sources@),
            forall|k: int| 0 <= k < lines@.len() ==> kept_or_conformed(#[trigger] lines@[k], worded@, guide@),
            followable(sources@, slots@, hints@, rows@, 0, 0, 0) == followable(sources@, slots@, hints@, rows@, i as int, j as int, pairs as int),
            pairs + path_totals(sources@, slots@, rows@, i as int, j as int).0 == path_totals(sources@, slots@, rows@, 0, 0).0,
            anchored + path_totals(sources@, slots@, rows@, i as int, j as int).1 == path_totals(sources@, slots@, rows@, 0, 0).1,
            lines@.len() + path_totals(sources@, slots@, rows@, i as int, j as int).2 == path_totals(sources@, slots@, rows@, 0, 0).2,
            forall|rest: Seq<LyricsLine>| #[trigger] path_lines(worded@, guide@, sources@, slots@, hints@, rows@, i as int, j as int, rest)
                ==> path_lines(worded@, guide@, sources@, slots@, hints@, rows@, 0, 0, lines@ + rest),
        decreases (n - i) + (m - j),
    {
        let path = rows[n - i][j];
        assert(step_fits(rows@[n - i]@[j as int].step, i as int, j as int, n as int, m as int));
        match path.step {
            Step::Source => {
                let copy = copy_line(&worded[i]);
                assert(same_line(copy, worded@[i as int]));
                let ghost before = lines@;
                lines.push(copy);
                assert forall|k: int| 0 <= k < lines@.len() implies kept_or_conformed(#[trigger] lines@[k], worded@, guide@) by {
                    if k < before.len() {
                        assert(lines@[k] == before[k]);
                    } else {
                        assert(lines@[k] == copy);
                    }
                }
                assert forall|rest: Seq<LyricsLine>| #[trigger] path_lines(worded@, guide@, sources@, slots@, hints@, rows@, i + 1, j as int, rest)
                    implies path_lines(worded@, guide@, sources@, slots@, hints@, rows@, 0, 0, lines@ + rest) by {
                    let longer = seq![copy] + rest;
                    assert(longer.drop_first() =~= rest);
                    assert(longer[0] == copy);
                    assert(path_lines(worded@, guide@, sources@, slots@, hints@, rows@, i as int, j as int, longer));
                    assert(before + longer =~= lines@ + rest);
                }
                i = i + 1;
            },
            Step::Guide => {
                assert forall|rest: Seq<LyricsLine>| #[trigger] path_lines(worded@, guide@, sources@, slots@, hints@, rows@, i as int, j + 1, rest)
                    implies path_lines(worded@, guide@, sources@, slots@, hints@, rows@, 0, 0, lines@ + rest) by {
                    assert(path_lines(worded@, guide@, sources@, slots@, hints@, rows@, i as int, j as int, rest));
                }
                j = j + 1;
            },
            Step::Match(found) => {
                let a = found.sources;
                let b = found.guides;
                let group_sources = vstd::slice::slice_subrange(sources.as_slice(), i, i + a);
                let group_guides = vstd::slice::slice_subrange(guide.as_slice(), j, j + b);
                let group_slots = vstd::slice::slice_subrange(slots.as_slice(), j, j + b);
                let group_hints = vstd::slice::slice_subrange(hints.as_slice(), j, j + b);
                assert forall|k: int| 0 <= k < group_sources@.len() implies (#[trigger] group_sources@[k]).index < worded@.len() by {
                    assert(group_sources@[k] == sources@[i + k]);
                }
                assert forall|k: int, t: int| 0 <= k < group_sources@.len() && 0 <= t < line_tokens(group_sources@[k]).len()
                    implies #[trigger] line_tokens(group_sources@[k])[t].start <= line_tokens(group_sources@[k])[t].end by {
                    assert(group_sources@[k] == sources@[i + k]);
                    assert(line_tokens(sources@[i + k])[t].start <= line_tokens(sources@[i + k])[t].end);
                }
                assert forall|k: int| 0 <= k < group_slots@.len() implies ordered_within(
                    (#[trigger] group_slots@[k])@,
                    group_guides@[k].text@.len(),
                ) by {
                    assert(group_slots@[k] == slots@[j + k]);
                    assert(group_guides@[k] == guide@[j + k]);
                }
                let mut built = match build_group(group_sources, group_guides, group_slots, group_hints, worded) {
                    Some(built) => built,
                    None => return None,
                };
                pairs = match pairs.checked_add(found.pairs) {
                    Some(total) => total,
                    None => return None,
                };
                let ghost before = lines@;
                let ghost made = built@;
                assert forall|k: int| 0 <= k < made.len() implies kept_or_conformed(#[trigger] made[k], worded@, guide@) by {
                    assert(group_guides@[k] == guide@[j + k]);
                    assert(made[k].text@ == guide@[j + k].text@);
                    let words = made[k].words.unwrap();
                    let row = group_slots@[k]@;
                    let length = group_guides@[k].text@.len() as int;
                    assert forall|w: int| 0 <= w < words@.len() implies (#[trigger] words@[w]).text@.len() > 0
                        && words@[w].start <= words@[w].end by {
                        assert(ordered_within(row, group_guides@[k].text@.len()));
                        assert(row[w].at < row[w].until);
                        if w + 1 < row.len() {
                            assert(row[w].until <= row[w + 1].at);
                            assert(row[w + 1].at < row[w + 1].until);
                        }
                        assert(0 <= word_from(row, w) < word_until(row, length, w) <= length);
                        assert(words@[w].start <= words@[w].end);
                    }
                }
                lines.append(&mut built);
                assert forall|k: int| 0 <= k < lines@.len() implies kept_or_conformed(#[trigger] lines@[k], worded@, guide@) by {
                    if k < before.len() {
                        assert(lines@[k] == before[k]);
                    } else {
                        assert(lines@[k] == made[k - before.len()]);
                    }
                }
                assert(group_sources@ =~= sources@.subrange(i as int, i + a));
                assert(group_guides@ =~= guide@.subrange(j as int, j + b));
                assert(group_slots@ =~= slots@.subrange(j as int, j + b));
                assert(group_hints@ =~= hints@.subrange(j as int, j + b));
                assert forall|rest: Seq<LyricsLine>| #[trigger] path_lines(worded@, guide@, sources@, slots@, hints@, rows@, i + a, j + b, rest)
                    implies path_lines(worded@, guide@, sources@, slots@, hints@, rows@, 0, 0, lines@ + rest) by {
                    let longer = made + rest;
                    assert(longer.take(b as int) =~= made);
                    assert(longer.skip(b as int) =~= rest);
                    assert(path_lines(worded@, guide@, sources@, slots@, hints@, rows@, i as int, j as int, longer));
                    assert(before + longer =~= lines@ + rest);
                }
                anchored = anchored + b;
                i = i + a;
                j = j + b;
            },
            Step::Done => return None,
        }
    }
    assert(path_lines(worded@, guide@, sources@, slots@, hints@, rows@, i as int, j as int, Seq::<LyricsLine>::empty()));
    assert(lines@ + Seq::<LyricsLine>::empty() =~= lines@);
    Some((lines, pairs, anchored))
}

/// Whether lines are ordered by start.
pub open spec fn sorted_by_start(lines: Seq<LyricsLine>) -> bool {
    forall|a: int, b: int| 0 <= a < b < lines.len() ==> lines[a].start <= lines[b].start
}

/// Whether `sorted` holds `lines` ordered by start, lines that start together keeping their
/// order.
pub open spec fn sorted_stably(sorted: Seq<LyricsLine>, lines: Seq<LyricsLine>) -> bool {
    &&& sorted.to_multiset() == lines.to_multiset()
    &&& sorted_by_start(sorted)
    &&& forall|t: u64| #[trigger] starting_at(sorted, t) == starting_at(lines, t)
}

/// The lines of `lines` that start at `t`, in their order.
pub open spec fn starting_at(lines: Seq<LyricsLine>, t: u64) -> Seq<LyricsLine> {
    lines.filter(starts_at(t))
}

/// Whether a line starts at `t`.
pub open spec fn starts_at(t: u64) -> spec_fn(LyricsLine) -> bool {
    |line: LyricsLine| line.start == t
}

proof fn lemma_starting_at_empty(lines: Seq<LyricsLine>, t: u64)
    requires
        forall|q: int| 0 <= q < lines.len() ==> (#[trigger] lines[q]).start != t,
    ensures
        starting_at(lines, t) == Seq::<LyricsLine>::empty(),
{
    let pred = starts_at(t);
    if lines.filter(pred).len() > 0 {
        lines.lemma_filter_pred(pred, 0);
        assert(lines.filter(pred).contains(lines.filter(pred)[0]));
        lines.lemma_filter_contains_rev(pred, lines.filter(pred)[0]);
    }
}

proof fn lemma_starting_at_one(line: LyricsLine, t: u64)
    ensures
        starting_at(seq![line], t) == (if line.start == t { seq![line] } else { Seq::<LyricsLine>::empty() }),
{
    let pred = starts_at(t);
    reveal_with_fuel(Seq::filter, 2);
    assert(seq![line].drop_last() =~= Seq::<LyricsLine>::empty());
    assert(Seq::<LyricsLine>::empty().filter(pred) =~= Seq::<LyricsLine>::empty());
    assert(seq![line].last() == line);
    assert(Seq::<LyricsLine>::empty().push(line) =~= seq![line]);
}

proof fn lemma_starting_at_insert(before: Seq<LyricsLine>, p: int, line: LyricsLine, t: u64)
    requires
        0 <= p <= before.len(),
        forall|q: int| p <= q < before.len() ==> (#[trigger] before[q]).start > line.start,
    ensures
        starting_at(before.insert(p, line), t) == starting_at(before, t) + starting_at(seq![line], t),
{
    let pred = starts_at(t);
    let head = before.subrange(0, p);
    let tail = before.subrange(p, before.len() as int);
    assert(before =~= head + tail);
    assert(before.insert(p, line) =~= (head + seq![line]) + tail);
    Seq::filter_distributes_over_add(head + seq![line], tail, pred);
    Seq::filter_distributes_over_add(head, seq![line], pred);
    Seq::filter_distributes_over_add(head, tail, pred);
    lemma_starting_at_one(line, t);
    if line.start == t {
        assert forall|q: int| 0 <= q < tail.len() implies (#[trigger] tail[q]).start != t by {
            assert(tail[q] == before[p + q]);
        }
        lemma_starting_at_empty(tail, t);
        assert(starting_at(before, t) =~= starting_at(head, t));
        assert(starting_at(before.insert(p, line), t) =~= starting_at(head, t) + seq![line]);
    } else {
        assert(starting_at(before.insert(p, line), t) =~= starting_at(head, t) + starting_at(tail, t));
    }
}

/// The lines ordered by start; lines that start together keep their order.
pub fn sort_by_start(lines: Vec<LyricsLine>) -> (sorted: Vec<LyricsLine>)
    ensures
        sorted@.to_multiset() == lines@.to_multiset(),
        sorted_by_start(sorted@),
        forall|t: u64| #[trigger] starting_at(sorted@, t) == starting_at(lines@, t),
{
    broadcast use vstd::seq_lib::group_to_multiset_ensures;
    broadcast use vstd::multiset::group_multiset_axioms;
    let ghost all = lines@;
    let mut rest = lines;
    let mut sorted: Vec<LyricsLine> = Vec::new();
    proof {
        assert forall|t: u64| #[trigger] starting_at(sorted@, t) + starting_at(rest@, t) == starting_at(all, t) by {
            assert(starting_at(sorted@, t) =~= Seq::<LyricsLine>::empty());
            assert(starting_at(sorted@, t) + starting_at(rest@, t) =~= starting_at(rest@, t));
        }
    }
    while rest.len() > 0
        invariant
            sorted@.to_multiset().add(rest@.to_multiset()) == all.to_multiset(),
            sorted_by_start(sorted@),
            forall|t: u64| #[trigger] starting_at(sorted@, t) + starting_at(rest@, t) == starting_at(all, t),
        decreases rest@.len(),
    {
        let ghost rest_before = rest@;
        let line = rest.remove(0);
        proof {
            vstd::seq_lib::to_multiset_remove(rest_before, 0);
            assert(rest_before[0] == line);
            assert(rest_before.contains(line));
            vstd::seq_lib::to_multiset_contains(rest_before, line);
        }
        let mut p: usize = 0;
        while p < sorted.len() && sorted[p].start <= line.start
            invariant
                p <= sorted@.len(),
                forall|q: int| 0 <= q < p ==> sorted@[q].start <= line.start,
            decreases sorted@.len() - p,
        {
            p = p + 1;
        }
        let ghost sorted_before = sorted@;
        sorted.insert(p, line);
        proof {
            assert forall|t: u64| #[trigger] starting_at(sorted@, t) + starting_at(rest@, t) == starting_at(all, t) by {
                assert forall|q: int| p <= q < sorted_before.len() implies (#[trigger] sorted_before[q]).start > line.start by {
                    assert(sorted_before[p as int].start > line.start);
                    assert(sorted_before[p as int].start <= sorted_before[q].start);
                }
                lemma_starting_at_insert(sorted_before, p as int, line, t);
                assert(rest_before =~= seq![line] + rest@);
                Seq::filter_distributes_over_add(seq![line], rest@, starts_at(t));
                assert(starting_at(sorted@, t) + starting_at(rest@, t) =~= starting_at(sorted_before, t) + starting_at(rest_before, t));
            }
            vstd::seq_lib::to_multiset_insert(sorted_before, p as int, line);
            assert(sorted@.to_multiset().add(rest@.to_multiset()) =~= all.to_multiset());
            assert forall|a: int, b: int| 0 <= a < b < sorted@.len() implies sorted@[a].start <= sorted@[b].start by {
                if b < p {
                } else if b == p {
                    assert(sorted@[a] == sorted_before[a]);
                } else if a == p {
                    assert(sorted@[b] == sorted_before[b - 1]);
                    assert(sorted_before[p as int].start > line.start);
                } else if a < p {
                    assert(sorted@[b] == sorted_before[b - 1]);
                } else {
                    assert(sorted@[a] == sorted_before[a - 1]);
                    assert(sorted@[b] == sorted_before[b - 1]);
                }
            }
        }
    }
    proof {
        assert(rest@.to_multiset() =~= vstd::multiset::Multiset::empty());
        assert(sorted@.to_multiset().add(rest@.to_multiset()) =~= sorted@.to_multiset());
        assert forall|t: u64| #[trigger] starting_at(sorted@, t) == starting_at(all, t) by {
            assert(starting_at(rest@, t) =~= Seq::<LyricsLine>::empty());
            assert(starting_at(sorted@, t) + starting_at(rest@, t) =~= starting_at(sorted@, t));
        }
    }
    sorted
}

/// How many of the first `k` lines have tokens.
pub open spec fn lines_with_tokens(lines: Seq<LyricsLine>, k: int) -> int
    decreases k,
{
    if k <= 0 {
        0
    } else {
        lines_with_tokens(lines, k - 1) + if spec_tokens(lines[k - 1].text@).len() > 0 { 1int } else { 0int }
    }
}

/// The time window of each guide line.
pub open spec fn hints_of(lines: Seq<LyricsLine>) -> Seq<GuideHint> {
    Seq::new(lines.len(), |i: int| spec_guide_hint(lines, i))
}

/// Whether `slots` holds the tokens of each of `lines`.
pub open spec fn slots_of(lines: Seq<LyricsLine>, slots: Seq<Vec<Slot>>) -> bool {
    &&& slots.len() == lines.len()
    &&& forall|i: int| 0 <= i < slots.len() ==> slot_views((#[trigger] slots[i])@) == spec_tokens(lines[i].text@)
    &&& forall|i: int| 0 <= i < slots.len() ==> ordered_within((#[trigger] slots[i])@, lines[i].text@.len())
}

/// Whether `sources` are what the lines of `source` give (see `line_source`).
pub open spec fn sources_of(source: Seq<LyricsLine>, sources: Seq<SourceLine>) -> bool {
    &&& sources.len() == source.len()
    &&& forall|i: int| 0 <= i < sources.len() ==> line_source(source, i, #[trigger] sources[i], 0)
}

/// Whether conforming `source` to `target` is owed a result: both have lines and at most
/// `LIMIT` tokens, every key can be counted, cue mapping and planning fit the work budget,
/// each side has `LEAST` tokens, and following the planned path builds every group, is
/// confident and gives two lines or more.
#[verifier::opaque]
pub open spec fn conform_owed(source: Seq<LyricsLine>, target: Seq<LyricsLine>) -> bool {
    let n = source.len() as int;
    let m = target.len() as int;
    &&& n > 0 && m > 0
    &&& text_tokens(source, n) <= LIMIT
    &&& text_tokens(target, m) <= LIMIT
    &&& forall|i: int| 0 <= i < n ==> #[trigger] token_key_chars(spec_tokens(source[i].text@), spec_tokens(source[i].text@).len() as int) <= usize::MAX
    &&& lines_cost(source, n) < CELLS
    &&& (n + m + 1) * CELLS <= usize::MAX
    &&& forall|sources: Seq<SourceLine>, slots: Seq<Vec<Slot>>| #[trigger] sources_of(source, sources) && #[trigger] slots_of(target, slots) ==> {
        &&& token_count(sources, n) >= LEAST
        &&& text_tokens(target, m) >= LEAST
        &&& lines_cost(source, n) + plan_cost(sources, slots) + group_cost(sources, slots) < CELLS
    }
    &&& forall|sources: Seq<SourceLine>, slots: Seq<Vec<Slot>>, rows: Seq<Vec<Path>>|
        #[trigger] sources_of(source, sources) && #[trigger] slots_of(target, slots) && rows.len() == n + 1
            && rows_fit(rows, n, m) && #[trigger] planned(rows, sources, slots, hints_of(target)) ==> {
        let totals = path_totals(sources, slots, rows, 0, 0);
        &&& followable(sources, slots, hints_of(target), rows, 0, 0, 0)
        &&& spec_confident(totals.0, text_tokens(target, m), token_count(sources, n), totals.1, lines_with_tokens(target, m))
        &&& totals.2 >= 2
    }
}

/// Whether `rows`, planned over the tokens `sources` of `source` and `slots` of `target`,
/// give a path that a conformed result may come from: each side has `LEAST` tokens, every
/// group on the path builds, and the path is confident and gives two lines or more.
pub open spec fn conforming_path(
    source: Seq<LyricsLine>,
    target: Seq<LyricsLine>,
    sources: Seq<SourceLine>,
    slots: Seq<Vec<Slot>>,
    rows: Seq<Vec<Path>>,
) -> bool {
    let n = source.len() as int;
    let m = target.len() as int;
    let totals = path_totals(sources, slots, rows, 0, 0);
    &&& sources_of(source, sources)
    &&& slots_of(target, slots)
    &&& rows.len() == n + 1
    &&& rows_fit(rows, n, m)
    &&& planned(rows, sources, slots, hints_of(target))
    &&& token_count(sources, n) >= LEAST
    &&& text_tokens(target, m) >= LEAST
    &&& followable(sources, slots, hints_of(target), rows, 0, 0, 0)
    &&& spec_confident(totals.0, text_tokens(target, m), token_count(sources, n), totals.1, lines_with_tokens(target, m))
    &&& totals.2 >= 2
}

proof fn lemma_slot_count_tokens(lines: Seq<LyricsLine>, slots: Seq<Vec<Slot>>, k: int)
    requires
        slots_of(lines, slots),
        0 <= k <= slots.len(),
    ensures
        slot_count(slots, k) == text_tokens(lines, k),
    decreases k,
{
    if k > 0 {
        lemma_slot_count_tokens(lines, slots, k - 1);
        assert(slot_views(slots[k - 1]@).len() == slots[k - 1]@.len());
    }
}

proof fn lemma_owed_basics(source: Seq<LyricsLine>, target: Seq<LyricsLine>)
    requires
        conform_owed(source, target),
    ensures
        source.len() > 0 && target.len() > 0,
        text_tokens(source, source.len() as int) <= LIMIT,
        text_tokens(target, target.len() as int) <= LIMIT,
        forall|i: int| 0 <= i < source.len() ==> #[trigger] token_key_chars(spec_tokens(source[i].text@), spec_tokens(source[i].text@).len() as int) <= usize::MAX,
        lines_cost(source, source.len() as int) < CELLS,
        (source.len() + target.len() + 1) * CELLS <= usize::MAX,
{
    reveal(conform_owed);
}

proof fn lemma_owed_budget(source: Seq<LyricsLine>, target: Seq<LyricsLine>, sources: Seq<SourceLine>, slots: Seq<Vec<Slot>>)
    requires
        conform_owed(source, target),
        sources_of(source, sources),
        slots_of(target, slots),
    ensures
        token_count(sources, source.len() as int) >= LEAST,
        text_tokens(target, target.len() as int) >= LEAST,
        lines_cost(source, source.len() as int) + plan_cost(sources, slots) + group_cost(sources, slots) < CELLS,
{
    reveal(conform_owed);
}

proof fn lemma_owed_path(source: Seq<LyricsLine>, target: Seq<LyricsLine>, sources: Seq<SourceLine>, slots: Seq<Vec<Slot>>, rows: Seq<Vec<Path>>)
    requires
        conform_owed(source, target),
        sources_of(source, sources),
        slots_of(target, slots),
        rows.len() == source.len() + 1,
        rows_fit(rows, source.len() as int, target.len() as int),
        planned(rows, sources, slots, hints_of(target)),
    ensures
        followable(sources, slots, hints_of(target), rows, 0, 0, 0),
        spec_confident(path_totals(sources, slots, rows, 0, 0).0, text_tokens(target, target.len() as int),
            token_count(sources, source.len() as int), path_totals(sources, slots, rows, 0, 0).1, lines_with_tokens(target, target.len() as int)),
        path_totals(sources, slots, rows, 0, 0).2 >= 2,
{
    reveal(conform_owed);
}

/// Conforms word-timed `worded` lyrics to the text and line breaks of `guide` lyrics.
///
/// Both must be synced and non-empty. Every source line is mapped onto the tokens of its own
/// text; the tokens of all source texts, mapped or not, and those of all guide texts must
/// each stay within `LIMIT`. With at least `LEAST` mapped source tokens and `LEAST` guide
/// tokens, a dynamic program over both line lists picks, from the first lines on, the way
/// with the most pairs (the closest in time on a tie) through three steps: keep a source
/// line, drop a guide line, or match one source line with consecutive guide lines, or
/// consecutive source lines with one guide line, as one group (see `group`). The whole search shares the work budget `CELLS`. The result
/// needs the confidence of `confident`; it holds the lines that following the planned path
/// gives (see `path_lines`): the kept source lines as they were and the lines built from
/// the matched groups, ordered by start with lines that start together kept in path order,
/// and at least two lines.
#[verifier::rlimit(100)]
#[verifier::spinoff_prover]
pub fn conform(worded: &Lyrics, guide: &Lyrics) -> (result: Option<Lyrics>)
    ensures
        !(worded is Synced && guide is Synced) ==> result is None,
        result matches Some(conformed) ==> conformed is Synced,
        worded matches Lyrics::Synced { lines: source } ==> guide matches Lyrics::Synced { lines: target } ==> {
            &&& (source@.len() == 0 || target@.len() == 0) ==> result is None
            &&& text_tokens(source@, source@.len() as int) > LIMIT ==> result is None
            &&& text_tokens(target@, target@.len() as int) > LIMIT ==> result is None
            &&& text_tokens(source@, source@.len() as int) < LEAST ==> result is None
            &&& text_tokens(target@, target@.len() as int) < LEAST ==> result is None
            &&& result matches Some(Lyrics::Synced { lines }) ==> {
                &&& lines@.len() >= 2
                &&& sorted_by_start(lines@)
                &&& forall|k: int| 0 <= k < lines@.len() ==> kept_or_conformed(#[trigger] lines@[k], source@, target@)
            }
            &&& conform_owed(source@, target@) ==> result is Some
            &&& result matches Some(Lyrics::Synced { lines }) ==> exists|sources: Seq<SourceLine>, slots: Seq<Vec<Slot>>, rows: Seq<Vec<Path>>, followed: Seq<LyricsLine>|
                #[trigger] conforming_path(source@, target@, sources, slots, rows)
                    && lines@.len() == path_totals(sources, slots, rows, 0, 0).2
                    && #[trigger] path_lines(source@, target@, sources, slots, hints_of(target@), rows, 0, 0, followed)
                    && sorted_stably(lines@, followed)
        },
{
    let source = match worded {
        Lyrics::Synced { lines } => lines,
        Lyrics::Plain { .. } => return None,
    };
    let target = match guide {
        Lyrics::Synced { lines } => lines,
        Lyrics::Plain { .. } => return None,
    };
    proof {
        if conform_owed(source@, target@) {
            lemma_owed_basics(source@, target@);
        }
    }
    if source.len() == 0 || target.len() == 0 {
        return None;
    }
    let mut work: usize = 0;
    let (sources, sung) = match source_lines(source, &mut work) {
        Some(found) => found,
        None => return None,
    };
    let slots = match guide_slots(target) {
        Some(slots) => slots,
        None => return None,
    };
    let hints = guide_hints(target);
    let mut places: usize = 0;
    let mut counted: usize = 0;
    let mut j: usize = 0;
    while j < slots.len()
        invariant
            slots@.len() == target@.len(),
            forall|i: int| 0 <= i < slots@.len() ==> slot_views((#[trigger] slots@[i])@) == spec_tokens(target@[i].text@),
            text_tokens(target@, target@.len() as int) <= LIMIT,
            j <= slots@.len(),
            places == text_tokens(target@, j as int),
            counted <= j,
            counted == lines_with_tokens(target@, j as int),
        decreases slots@.len() - j,
    {
        proof {
            lemma_text_tokens_step(target@, j as int);
            lemma_text_tokens_prefix(target@, j as int + 1, target@.len() as int);
            assert(slot_views(slots@[j as int]@).len() == slots@[j as int]@.len());
        }
        places = places + slots[j].len();
        if slots[j].len() > 0 {
            counted = counted + 1;
        }
        j = j + 1;
    }
    let ghost owed = conform_owed(source@, target@);
    proof {
        assert(hints@ =~= hints_of(target@));
        assert(sources_of(source@, sources@));
        assert(slots_of(target@, slots@));
        lemma_slot_count_tokens(target@, slots@, slots@.len() as int);
        if owed {
            lemma_owed_budget(source@, target@, sources@, slots@);
        }
    }
    if sung < LEAST || places < LEAST {
        return None;
    }
    let work_before_plan = work;
    let rows = match plan(&sources, &slots, &hints, &mut work) {
        Some(rows) => rows,
        None => {
            proof {
                if owed {
                    assert(text_tokens(target@, target@.len() as int) == places);
                }
            }
            return None;
        },
    };
    proof {
        if owed && sung <= usize::MAX && places <= usize::MAX {
            lemma_owed_path(source@, target@, sources@, slots@, rows@);
        }
    }
    let (lines, pairs, anchored) = match follow(source, target, &sources, &slots, &hints, &rows) {
        Some(found) => found,
        None => return None,
    };
    if !confident(pairs, places, sung, anchored, counted) {
        return None;
    }
    let ghost unsorted = lines@;
    let lines = sort_by_start(lines);
    proof {
        vstd::seq_lib::to_multiset_len(lines@);
        vstd::seq_lib::to_multiset_len(unsorted);
    }
    if lines.len() < 2 {
        return None;
    }
    proof {
        assert(conforming_path(source@, target@, sources@, slots@, rows@));
        assert(path_lines(source@, target@, sources@, slots@, hints_of(target@), rows@, 0, 0, unsorted));
        assert(sorted_stably(lines@, unsorted));
        assert forall|k: int| 0 <= k < lines@.len() implies kept_or_conformed(#[trigger] lines@[k], source@, target@) by {
            let line = lines@[k];
            assert(lines@.contains(line));
            vstd::seq_lib::to_multiset_contains(lines@, line);
            vstd::seq_lib::to_multiset_contains(unsorted, line);
            let q = choose|q: int| 0 <= q < unsorted.len() && unsorted[q] == line;
            assert(kept_or_conformed(unsorted[q], source@, target@));
        }
    }
    Some(Lyrics::Synced { lines })
}

proof fn lemma_text_tokens_prefix(lines: Seq<LyricsLine>, j: int, k: int)
    requires
        0 <= j <= k,
    ensures
        text_tokens(lines, j) <= text_tokens(lines, k),
    decreases k - j,
{
    if j < k {
        lemma_text_tokens_prefix(lines, j, k - 1);
    }
}

} // verus!
