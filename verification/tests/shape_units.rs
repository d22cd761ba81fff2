use sonora::lyrics::alignment::{
    GuideHint, akin, filled, line_temporal_overlap, start_distance, worded_from,
};
use sonora::lyrics::model::{LyricsLine, LyricsWord, Voice};
use sonora::lyrics::shape::{Path, Step, better, confident, sort_by_start};
use sonora::lyrics::timing::{
    Timing, interpolate, map_words_to_text, spread, tick, timed, tokens, wide,
};

fn ms(value: u64) -> u64 {
    value * 1_000_000
}

fn chars(text: &str) -> Vec<char> {
    text.chars().collect()
}

fn line(text: &str, start: u64) -> LyricsLine {
    LyricsLine {
        start,
        end: None,
        text: text.to_owned(),
        romanized: None,
        words: None,
        secondary: Vec::new(),
        voice: Voice::Lead,
    }
}

#[test]
fn confidence_needs_every_threshold() {
    assert!(confident(6, 8, 12, 9, 10));
    assert!(!confident(5, 5, 5, 9, 10));
    assert!(!confident(6, 9, 12, 9, 10));
    assert!(!confident(6, 8, 13, 9, 10));
    assert!(!confident(6, 8, 12, 8, 10));
}

#[test]
fn better_paths_score_higher_then_stay_closer() {
    let near = Path { score: 3, temporal_distance: 4, step: Step::Done };
    let far = Path { score: 3, temporal_distance: 5, step: Step::Source };
    let fewer = Path { score: 2, temporal_distance: 0, step: Step::Guide };

    let best = better(None, far);
    assert_eq!((best.score, best.temporal_distance), (3, 5));
    let best = better(Some(far), near);
    assert_eq!((best.score, best.temporal_distance), (3, 4));
    let best = better(Some(near), far);
    assert_eq!((best.score, best.temporal_distance), (3, 4));
    let best = better(Some(far), fewer);
    assert_eq!((best.score, best.temporal_distance), (3, 5));
}

#[test]
fn sorting_by_start_keeps_ties_in_order() {
    let lines = vec![line("c", 3), line("a", 1), line("b1", 2), line("b2", 2)];
    let sorted = sort_by_start(lines);
    let texts: Vec<&str> = sorted.iter().map(|line| line.text.as_str()).collect();
    assert_eq!(texts, ["a", "b1", "b2", "c"]);
}

#[test]
fn interpolation_rounds_down() {
    assert_eq!(interpolate(0, 1000, 1, 3), 333);
    assert_eq!(interpolate(100, 200, 0, 4), 100);
    assert_eq!(interpolate(100, 200, 4, 4), 200);
}

#[test]
fn spread_shares_by_characters() {
    let slots = tokens("ab cdef");
    let sung = spread(&slots, 0, 600);
    assert_eq!(sung.len(), 2);
    assert_eq!((sung[0].start, sung[0].end), (0, 200));
    assert_eq!((sung[1].start, sung[1].end), (200, 600));
    assert_eq!(sung[0].timing, Timing::Synthesized);
    assert!(spread(&tokens("  "), 0, 600).is_empty());
}

#[test]
fn unknown_spans_share_the_gap_between_their_neighbours() {
    let spans = vec![Some((0, 100)), None, None, Some((400, 500))];
    assert_eq!(filled(spans), Some(vec![(0, 100), (100, 250), (250, 400), (400, 500)]));
    assert_eq!(filled(vec![None, Some((0, 1))]), None);
    assert_eq!(filled(vec![Some((0, 1)), None]), None);
    assert_eq!(filled(vec![Some((0, 10)), None, Some((5, 6))]), None);
}

#[test]
fn temporal_measures() {
    assert_eq!(start_distance(3, 10), 7);
    assert_eq!(start_distance(10, 3), 7);
    assert_eq!(line_temporal_overlap(0, 10, GuideHint::Bounded { start: 5, end: 20 }), 5);
    assert_eq!(line_temporal_overlap(0, 10, GuideHint::Simultaneous { at: 5 }), 0);
    assert_eq!(line_temporal_overlap(0, 10, GuideHint::Terminal { start: 5 }), 5);
    assert_eq!(line_temporal_overlap(0, 4, GuideHint::Terminal { start: 5 }), 0);
}

#[test]
fn character_classes() {
    assert!(tick('\''));
    assert!(tick('\u{2019}'));
    assert!(!tick('a'));
    assert!(wide('你'));
    assert!(wide('こ'));
    assert!(wide('안'));
    assert!(!wide('a'));
    assert!(akin(&chars("love"), &chars("love")));
    assert!(!akin(&chars("love"), &chars("hate")));
}

#[test]
fn words_cover_the_line_from_token_to_token() {
    let text = chars("hi there");
    let slots = tokens("hi there");
    let words = worded_from(&text, &slots, &[(0, 10), (20, 15)]);
    assert_eq!(words.len(), 2);
    assert_eq!((words[0].text.as_str(), words[0].start, words[0].end), ("hi ", 0, 10));
    assert_eq!((words[1].text.as_str(), words[1].start, words[1].end), ("there", 20, 20));
}

#[test]
fn spelled_cues_map_onto_the_text() {
    let words = vec![
        LyricsWord { start: ms(0), end: ms(500), text: "hello ".to_owned() },
        LyricsWord { start: ms(500), end: ms(1000), text: "world".to_owned() },
    ];
    let cues = map_words_to_text("hello world", &words).unwrap();
    assert_eq!(cues.len(), 2);
    assert_eq!((cues[0].from, cues[0].until, cues[0].start, cues[0].end), (0, 6, ms(0), ms(500)));
    assert_eq!((cues[1].from, cues[1].until, cues[1].start, cues[1].end), (6, 11, ms(500), ms(1000)));
}

#[test]
fn one_cue_over_two_tokens_is_shared_by_characters() {
    let words = vec![LyricsWord { start: 0, end: ms(1000), text: "hello world".to_owned() }];
    let sung = timed("hello world", &words).unwrap();
    assert_eq!(sung.len(), 2);
    assert_eq!((sung[0].start, sung[0].end), (0, 454_545_454));
    assert_eq!((sung[1].start, sung[1].end), (545_454_545, 1_000_000_000));
    assert_eq!(sung[1].timing, Timing::Provider);
}

#[test]
fn interpolation_inside_a_cue_goes_by_bytes() {
    let text = "éé ab";
    let words = vec![LyricsWord { start: 0, end: 700, text: text.to_owned() }];
    let sung = timed(text, &words).unwrap();
    assert_eq!(sung.len(), 2);
    assert_eq!((sung[0].start, sung[0].end), (0, 400));
    assert_eq!((sung[1].start, sung[1].end), (500, 700));
}

#[test]
fn mapped_cues_own_byte_ranges() {
    let words = vec![
        LyricsWord { start: ms(0), end: ms(500), text: "héllo ".to_owned() },
        LyricsWord { start: ms(500), end: ms(1000), text: "wörld".to_owned() },
    ];
    let cues = map_words_to_text("héllo wörld", &words).unwrap();
    assert_eq!(cues.len(), 2);
    assert_eq!((cues[0].from, cues[0].until), (0, 7));
    assert_eq!((cues[1].from, cues[1].until), (7, 13));
}
