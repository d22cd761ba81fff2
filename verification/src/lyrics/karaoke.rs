//! When lines and words of synced lyrics are sung, for the karaoke display: the time window
//! a word's sweep takes, and whether a line is past or still sounding in the background.
//! Times are nanoseconds from the start of the track.
use vstd::prelude::*;

use crate::lyrics::model::{LyricsLane, LyricsLine, LyricsWord, spec_sung_end};

verus! {

/// The least time a word's sweep takes when its cue gives it none: 180 ms.
pub const SWEEP_LEAST: u64 = 180_000_000;

/// The window of word `index`'s sweep: from its start to its end; for a word without
/// duration, to the start of the next word when that is later, else for `SWEEP_LEAST`.
pub open spec fn spec_karaoke_window(words: Seq<LyricsWord>, index: int) -> (u64, u64) {
    let start = words[index].start;
    let end = if words[index].end > start {
        words[index].end
    } else if index + 1 < words.len() && words[index + 1].start > start {
        words[index + 1].start
    } else {
        (start + SWEEP_LEAST) as u64
    };
    (start, end)
}

/// Decides `spec_karaoke_window`.
pub fn karaoke_window(words: &[LyricsWord], index: usize) -> (window: (u64, u64))
    requires
        index < words@.len(),
        words@[index as int].start + SWEEP_LEAST <= u64::MAX,
    ensures
        window == spec_karaoke_window(words@, index as int),
        window.0 < window.1,
{
    let word = &words[index];
    let start = word.start;
    let least = start + SWEEP_LEAST;
    let end = if word.end > start {
        word.end
    } else if index + 1 < words.len() {
        let next = words[index + 1].start;
        let next = if next >= start { next } else { start };
        if next > start { next } else { least }
    } else {
        least
    };
    (start, end)
}

/// Whether a line is over at `position`: it has an end, its own or its words', and that
/// has come.
pub open spec fn spec_line_has_passed(line: LyricsLine, position: u64) -> bool {
    spec_sung_end(line) matches Some(end) && position >= end
}

/// Decides `spec_line_has_passed`.
pub fn line_has_passed(line: &LyricsLine, position: u64) -> (passed: bool)
    ensures
        passed == spec_line_has_passed(*line, position),
{
    match line.sung_end() {
        Some(end) => position >= end,
        None => false,
    }
}

/// Whether a line that is not the active one is still being sung at `position`, behind
/// the active line.
pub open spec fn spec_background_line_singing(line: LyricsLine, line_active: bool, position: u64) -> bool {
    &&& !line_active
    &&& position >= line.start
    &&& spec_sung_end(line) matches Some(end) && position < end
}

/// Decides `spec_background_line_singing`.
pub fn background_line_singing(line: &LyricsLine, line_active: bool, position: u64) -> (singing: bool)
    ensures
        singing == spec_background_line_singing(*line, line_active, position),
{
    if line_active || position < line.start {
        return false;
    }
    match line.sung_end() {
        Some(end) => position < end,
        None => false,
    }
}

/// Whether a line shows its karaoke sweep at `position`: always while it is the active
/// line; otherwise from its start until `fade` after its singing ends, so that a line
/// overlapped by the next one keeps singing in the background and then fades. `fade` is the
/// length of the interface's control motion, which the caller supplies.
pub open spec fn spec_primary_karaoke_visible(line: LyricsLine, line_active: bool, position: u64, fade: u64) -> bool {
    ||| line_active
    ||| (position >= line.start && (spec_sung_end(line) matches Some(end) && position < end + fade))
}

/// Decides `spec_primary_karaoke_visible`.
pub fn primary_karaoke_visible(line: &LyricsLine, line_active: bool, position: u64, fade: u64) -> (visible: bool)
    ensures
        visible == spec_primary_karaoke_visible(*line, line_active, position, fade),
{
    if line_active {
        return true;
    }
    if position < line.start {
        return false;
    }
    match line.sung_end() {
        Some(end) => position < end || position - end < fade,
        None => false,
    }
}

/// A line that is singing in the background shows its sweep, whatever the fade.
pub proof fn lemma_background_lines_show_their_sweep(line: LyricsLine, line_active: bool, position: u64, fade: u64)
    ensures
        spec_background_line_singing(line, line_active, position) ==> spec_primary_karaoke_visible(line, line_active, position, fade),
{
}

/// Whether a secondary lane has started at `position`.
pub fn secondary_lane_started(lane: &LyricsLane, position: u64) -> (started: bool)
    ensures
        started == (position >= lane.start),
{
    position >= lane.start
}

/// Whether a secondary lane sweeps at `position`: its line is active and the lane started.
pub fn secondary_karaoke_visible(lane: &LyricsLane, line_active: bool, position: u64) -> (visible: bool)
    ensures
        visible == (line_active && position >= lane.start),
{
    line_active && secondary_lane_started(lane, position)
}

/// A line that is singing in the background has not passed, and a line that has passed is
/// not singing in the background.
pub proof fn lemma_background_lines_have_not_passed(line: LyricsLine, line_active: bool, position: u64)
    ensures
        spec_background_line_singing(line, line_active, position) ==> !spec_line_has_passed(line, position),
{
}

} // verus!
