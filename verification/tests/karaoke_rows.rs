use sonora::lyrics::karaoke::{
    SWEEP_LEAST, background_line_singing, karaoke_window, line_has_passed, primary_karaoke_visible,
    secondary_karaoke_visible, secondary_lane_started,
};
use sonora::lyrics::model::{LyricsLane, LyricsLine, LyricsWord, Voice};
use sonora::lyrics::rows::{
    INSTRUMENTAL_BREAK, active_instrumental, active_lyrics_row, break_seek, instrumental_gap_before, line_row, lyric_row_count,
};

fn ms(value: u64) -> u64 {
    value * 1_000_000
}

fn secs(value: u64) -> u64 {
    value * 1_000_000_000
}

fn plain_line(text: &str, start: u64, end: u64) -> LyricsLine {
    LyricsLine {
        start,
        end: Some(end),
        text: text.to_owned(),
        romanized: None,
        words: None,
        secondary: Vec::new(),
        voice: Voice::Lead,
    }
}

#[test]
fn only_a_currently_singing_background_line_gets_the_reduced_blur() {
    let line = LyricsLine {
        start: secs(2),
        end: Some(secs(8)),
        text: "Wake me up inside".to_owned(),
        romanized: None,
        words: Some(vec![LyricsWord {
            start: secs(2),
            end: secs(8),
            text: "Wake me up inside".to_owned(),
        }]),
        secondary: Vec::new(),
        voice: Voice::Lead,
    };

    assert!(!background_line_singing(&line, false, ms(1999)));
    assert!(background_line_singing(&line, false, secs(5)));
    assert!(!background_line_singing(&line, false, secs(8)));
    assert!(!background_line_singing(&line, true, secs(5)));
}

#[test]
fn a_finished_line_stays_past_during_a_gap() {
    let line = LyricsLine {
        start: secs(2),
        end: Some(secs(5)),
        text: "line".to_owned(),
        romanized: None,
        words: None,
        secondary: Vec::new(),
        voice: Voice::Lead,
    };

    assert!(line_has_passed(&line, secs(8)));
}

#[test]
fn a_line_without_end_never_passes() {
    let line = LyricsLine {
        start: secs(2),
        end: None,
        text: "line".to_owned(),
        romanized: None,
        words: None,
        secondary: Vec::new(),
        voice: Voice::Lead,
    };
    assert!(!line_has_passed(&line, secs(100)));
    assert!(!background_line_singing(&line, false, secs(3)));
}

#[test]
fn word_ends_later_than_the_line_keep_it_sounding() {
    let line = LyricsLine {
        start: secs(1),
        end: Some(secs(2)),
        text: "long".to_owned(),
        romanized: None,
        words: Some(vec![LyricsWord { start: secs(1), end: secs(4), text: "long".to_owned() }]),
        secondary: Vec::new(),
        voice: Voice::Lead,
    };
    assert!(!line_has_passed(&line, secs(3)));
    assert!(background_line_singing(&line, false, secs(3)));
    assert!(line_has_passed(&line, secs(4)));
}

#[test]
fn karaoke_windows_fill_words_without_duration() {
    let words = vec![
        LyricsWord { start: ms(100), end: ms(300), text: "a".to_owned() },
        LyricsWord { start: ms(300), end: ms(300), text: "b".to_owned() },
        LyricsWord { start: ms(500), end: ms(400), text: "c".to_owned() },
        LyricsWord { start: ms(500), end: ms(500), text: "d".to_owned() },
    ];
    assert_eq!(karaoke_window(&words, 0), (ms(100), ms(300)));
    assert_eq!(karaoke_window(&words, 1), (ms(300), ms(500)));
    assert_eq!(karaoke_window(&words, 2), (ms(500), ms(500) + SWEEP_LEAST));
    assert_eq!(karaoke_window(&words, 3), (ms(500), ms(680)));
}

#[test]
fn secondary_lanes_start_with_their_own_time() {
    let lane = LyricsLane {
        start: secs(3),
        end: Some(secs(4)),
        text: "(echo)".to_owned(),
        romanized: None,
        words: None,
    };
    assert!(!secondary_lane_started(&lane, secs(2)));
    assert!(secondary_lane_started(&lane, secs(3)));
    assert!(secondary_karaoke_visible(&lane, true, secs(3)));
    assert!(!secondary_karaoke_visible(&lane, false, secs(3)));
}

#[test]
fn a_long_instrumental_pause_gets_its_own_row() {
    let lines = [plain_line("first", secs(2), secs(5)), plain_line("second", secs(12), secs(15))];

    assert_eq!(instrumental_gap_before(&lines, 0), secs(2));
    assert_eq!(instrumental_gap_before(&lines, 1), secs(7));
    assert!(instrumental_gap_before(&lines, 1) >= INSTRUMENTAL_BREAK);
    assert_eq!(lyric_row_count(&lines), 3);
    assert_eq!(line_row(&lines, 0), 0);
    assert_eq!(line_row(&lines, 1), 2);
    assert_eq!(active_instrumental(&lines, secs(8)), Some(1));
    assert_eq!(active_instrumental(&lines, secs(4)), None);
    assert_eq!(active_instrumental(&lines, secs(13)), None);
}

#[test]
fn an_intro_pause_gets_a_row_before_the_first_line() {
    let lines = [plain_line("first", secs(6), secs(7)), plain_line("second", secs(8), secs(9))];
    assert_eq!(lyric_row_count(&lines), 3);
    assert_eq!(line_row(&lines, 0), 1);
    assert_eq!(line_row(&lines, 1), 2);
    assert_eq!(active_instrumental(&lines, secs(1)), Some(0));
}

#[test]
fn overlapping_lines_have_no_pause() {
    let lines = [plain_line("first", secs(0), secs(10)), plain_line("second", secs(8), secs(9))];
    assert_eq!(instrumental_gap_before(&lines, 1), 0);
    assert_eq!(lyric_row_count(&lines), 2);
}

// The third argument of `active_lyrics_row` is the line that the lyrics player reports as
// sung at that moment.
#[test]
fn a_long_instrumental_pause_gets_its_own_lyrics_row() {
    let lines = [plain_line("first", secs(2), secs(5)), plain_line("second", secs(12), secs(15))];

    assert_eq!(lyric_row_count(&lines), 3);
    assert_eq!(line_row(&lines, 0), 0);
    assert_eq!(line_row(&lines, 1), 2);
    assert_eq!(active_lyrics_row(&lines, secs(8), None), Some(1));
    assert_eq!(active_lyrics_row(&lines, secs(13), Some(1)), Some(2));
}

#[test]
fn word_timing_exposes_a_pause_hidden_by_the_line_end() {
    let lines = [
        LyricsLine {
            start: secs(2),
            end: Some(secs(12)),
            text: "first".to_owned(),
            romanized: None,
            words: Some(vec![LyricsWord {
                start: secs(2),
                end: secs(5),
                text: "first".to_owned(),
            }]),
            secondary: Vec::new(),
            voice: Voice::Lead,
        },
        LyricsLine {
            start: secs(12),
            end: Some(secs(15)),
            text: "second".to_owned(),
            romanized: None,
            words: None,
            secondary: Vec::new(),
            voice: Voice::Lead,
        },
    ];

    assert_eq!(lyric_row_count(&lines), 3);
    assert_eq!(active_lyrics_row(&lines, secs(8), Some(0)), Some(1));
    assert!(line_has_passed(&lines[0], secs(8)));
}

#[test]
fn the_sung_line_is_ignored_while_a_long_pause_plays() {
    let lines = [plain_line("first", secs(2), secs(5)), plain_line("second", secs(12), secs(15))];

    assert_eq!(active_lyrics_row(&lines, secs(8), Some(0)), Some(1));
    assert_eq!(active_lyrics_row(&lines, secs(3), Some(0)), Some(0));
    assert_eq!(active_lyrics_row(&lines, secs(3), None), None);
}

#[test]
fn a_finished_background_lane_stays_sung_until_its_line_departs() {
    let lane = LyricsLane {
        start: secs(2),
        end: Some(secs(3)),
        text: "(E)".to_owned(),
        romanized: None,
        words: Some(vec![LyricsWord {
            start: secs(2),
            end: secs(3),
            text: "(E)".to_owned(),
        }]),
    };

    assert!(!secondary_karaoke_visible(&lane, true, ms(1999)));
    assert!(secondary_karaoke_visible(&lane, true, secs(2)));
    assert!(secondary_karaoke_visible(&lane, true, secs(4)));
    assert!(!secondary_karaoke_visible(&lane, false, secs(4)));
}

#[test]
fn overlapping_word_windows_keep_provider_ends() {
    let words = vec![
        LyricsWord {
            start: ms(1000),
            end: ms(2000),
            text: "A".to_owned(),
        },
        LyricsWord {
            start: ms(1500),
            end: ms(2500),
            text: "B".to_owned(),
        },
    ];

    assert_eq!(karaoke_window(&words, 0), (ms(1000), ms(2000)));
    assert_eq!(karaoke_window(&words, 1), (ms(1500), ms(2500)));
}

#[test]
fn zero_duration_word_uses_only_limited_fallback() {
    let words = vec![
        LyricsWord {
            start: ms(1000),
            end: ms(1000),
            text: "A".to_owned(),
        },
        LyricsWord {
            start: ms(1500),
            end: ms(2000),
            text: "B".to_owned(),
        },
    ];

    assert_eq!(karaoke_window(&words, 0), (ms(1000), ms(1500)));
    assert_eq!(karaoke_window(&words[..1], 0), (ms(1000), ms(1180)));
}

fn worded_line(text: &str, start: u64, end: u64) -> LyricsLine {
    LyricsLine {
        start,
        end: Some(end),
        text: text.to_owned(),
        romanized: None,
        words: Some(vec![LyricsWord { start, end, text: text.to_owned() }]),
        secondary: Vec::new(),
        voice: Voice::Lead,
    }
}

// The last argument of `primary_karaoke_visible` is the fade that follows the singing; it
// plays no part while the line is active.
#[test]
fn the_active_primary_line_keeps_its_completed_sweep_until_departure() {
    let line = worded_line("line", secs(2), secs(5));

    assert!(primary_karaoke_visible(&line, true, secs(8), ms(250)));
}

#[test]
fn an_overlapped_line_sweeps_until_its_fade_ends() {
    let line = worded_line("Wake me up inside", secs(2), secs(8));
    let fade = ms(250);

    assert!(!primary_karaoke_visible(&line, false, ms(1999), fade));
    assert!(primary_karaoke_visible(&line, false, secs(5), fade));
    assert!(primary_karaoke_visible(&line, false, secs(8), fade));
    assert!(primary_karaoke_visible(&line, false, secs(8) + ms(249), fade));
    assert!(!primary_karaoke_visible(&line, false, secs(8) + fade, fade));
    assert!(!primary_karaoke_visible(&plain_line_without_end(), false, secs(5), fade));
}

fn plain_line_without_end() -> LyricsLine {
    LyricsLine {
        start: secs(1),
        end: None,
        text: "open".to_owned(),
        romanized: None,
        words: None,
        secondary: Vec::new(),
        voice: Voice::Lead,
    }
}

#[test]
fn a_late_first_word_starts_at_provider_time() {
    let words = vec![
        LyricsWord { start: ms(1500), end: ms(1900), text: "first".to_owned() },
        LyricsWord { start: ms(2000), end: ms(2400), text: "second".to_owned() },
    ];
    assert_eq!(karaoke_window(&words, 0), (ms(1500), ms(1900)));
}

#[test]
fn pressing_a_pause_row_seeks_to_the_start_of_the_pause() {
    let lines = [plain_line("first", secs(2), secs(5)), plain_line("second", secs(12), secs(15))];
    assert_eq!(break_seek(&lines, 0), 0);
    assert_eq!(break_seek(&lines, 1), secs(5));
}
