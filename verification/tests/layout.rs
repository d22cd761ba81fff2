use std::ops::Range;

use sonora::lyrics::layout::{emergency_ranges, normal_break_ranges, timing_spans};
use unicode_segmentation::UnicodeSegmentation;
use sonora::lyrics::model::LyricsWord;

fn ms(value: u64) -> u64 {
    value * 1_000_000
}

fn segments(text: &str) -> Vec<&str> {
    normal_break_ranges(text)
        .into_iter()
        .map(|range| &text[range])
        .collect()
}

fn timed_words(parts: &[&str]) -> Vec<LyricsWord> {
    parts
        .iter()
        .enumerate()
        .map(|(index, text)| LyricsWord {
            start: ms(index as u64 * 100),
            end: ms(index as u64 * 100 + 100),
            text: (*text).to_owned(),
        })
        .collect()
}

#[test]
fn timing_spans_keep_original_spacing() {
    let text = "I said oooh I'm drowning in the night";
    let words = ["I", "said", "oooh", "I'm", "drowning", "in", "the", "night"]
        .into_iter()
        .enumerate()
        .map(|(index, text)| LyricsWord {
            start: ms(index as u64 * 100),
            end: ms(index as u64 * 100 + 100),
            text: text.to_owned(),
        })
        .collect::<Vec<_>>();

    let spans = timing_spans(text, &words);
    assert_eq!(
        spans
            .iter()
            .map(|range| &text[range.clone()])
            .collect::<Vec<_>>(),
        [
            "I ",
            "said ",
            "oooh ",
            "I'm ",
            "drowning ",
            "in ",
            "the ",
            "night"
        ]
    );
}

#[test]
fn mismatched_timing_still_owns_the_original_line() {
    let text = "เข้าใจสักที";
    let words = timed_words(&["เข้าใจ", "missing"]);
    let spans = timing_spans(text, &words);

    assert_eq!(
        spans
            .iter()
            .map(|range| &text[range.clone()])
            .collect::<String>(),
        text
    );
    assert!(
        spans.iter().all(|range| {
            text.is_char_boundary(range.start) && text.is_char_boundary(range.end)
        })
    );
}

#[test]
fn required_thai_phrases_use_dictionary_boundaries() {
    for (text, expected) in [
        (
            "ฉันรักเธอมากที่สุด",
            ["ฉัน", "รัก", "เธอ", "มาก", "ที่สุด"].as_slice(),
        ),
        ("กรุงเทพมหานคร", ["กรุงเทพมหานคร"].as_slice()),
        (
            "อยากให้เข้าใจกันสักที",
            ["อยาก", "ให้", "เข้าใจ", "กัน", "สัก", "ที"].as_slice(),
        ),
        ("ประเทศไทย", ["ประเทศไทย"].as_slice()),
    ] {
        assert_eq!(segments(text), expected);
    }
}

#[test]
fn provider_grapheme_splits_do_not_create_normal_breaks() {
    for (text, parts) in [
        ("สัก", ["ส", "ั", "ก"].as_slice()),
        ("ที่", ["ท", "ี่"].as_slice()),
    ] {
        let words = timed_words(parts);
        let spans = timing_spans(text, &words);
        let normal = normal_break_ranges(text);
        let normal_offsets = normal
            .iter()
            .flat_map(|range| [range.start, range.end])
            .collect::<Vec<_>>();

        assert_eq!(
            spans
                .iter()
                .map(|range| &text[range.clone()])
                .collect::<Vec<_>>(),
            parts
        );
        assert_eq!(segments(text), [text]);
        assert!(
            spans
                .iter()
                .skip(1)
                .all(|range| !normal_offsets.contains(&range.start))
        );
    }
}

#[test]
fn cjk_and_kinsoku_boundaries_survive() {
    assert_eq!(segments("你好世界"), ["你", "好", "世", "界"]);
    assert_eq!(segments("「你好」"), ["「你", "好」"]);

    for text in [
        "いゝ", "いゞ", "イヽ", "イヾ", "あっ", "アッ", "日々", "あー", "あ…", "あ、", "あ。",
    ] {
        assert_eq!(segments(text), [text], "{text}");
    }
}

#[test]
fn mixed_script_breaks_reconstruct_the_source() {
    for text in ["Sonora เพลงดีมาก", "เพลงดีมาก Sonora", "Hello世界 เพลง"]
    {
        let ranges = normal_break_ranges(text);
        assert_eq!(ranges.first().map(|range| range.start), Some(0));
        assert_eq!(ranges.last().map(|range| range.end), Some(text.len()));
        assert_eq!(
            ranges
                .iter()
                .map(|range| &text[range.clone()])
                .collect::<String>(),
            text
        );
        assert!(ranges.iter().all(
            |range| text.is_char_boundary(range.start) && text.is_char_boundary(range.end)
        ));
    }
}

#[test]
fn empty_line_has_no_break_ranges() {
    assert!(normal_break_ranges("").is_empty());
    assert!(timing_spans("", &Vec::new()).is_empty());
}

#[test]
fn words_share_a_line_by_length_when_one_is_missing() {
    let text = "abcdef";
    let words = timed_words(&["ab", "zzzz"]);
    let spans = timing_spans(text, &words);
    assert_eq!(spans, vec![0..2, 2..6]);
}

#[test]
fn empty_word_text_falls_back_to_shares() {
    let text = "abcd";
    let words = timed_words(&["", ""]);
    let spans = timing_spans(text, &words);
    assert_eq!(spans, vec![0..2, 2..4]);
}

#[test]
fn normal_breaking_keeps_original_text() {
    let text = "Ладони полны слёзок, но время";
    let ranges = normal_break_ranges(text);

    assert_eq!(ranges.first().map(|range| range.start), Some(0));
    assert_eq!(ranges.last().map(|range| range.end), Some(text.len()));
    assert_eq!(
        ranges
            .iter()
            .map(|range| &text[range.clone()])
            .collect::<Vec<_>>(),
        ["Ладони ", "полны ", "слёзок, ", "но ", "время"]
    );
}

// Each byte is one unit wide here; a range fits when its width is at most `width`.
fn emergency_ranges_for_test(text: &str, normal: Vec<Range<usize>>, width: f32) -> Vec<Range<usize>> {
    let fits: Vec<bool> = normal
        .iter()
        .map(|range| range.end as f32 - range.start as f32 <= width)
        .collect();
    emergency_ranges(text, normal, &fits)
}

#[test]
fn emergency_ranges_split_only_the_oversized_normal_unit() {
    let text = "a bbbbb c";
    let normal = normal_break_ranges(text);
    let ranges = emergency_ranges_for_test(text, normal.clone(), 3.);
    let pieces = ranges
        .iter()
        .map(|range| &text[range.clone()])
        .collect::<Vec<_>>();

    assert_eq!(
        normal
            .iter()
            .map(|range| &text[range.clone()])
            .collect::<Vec<_>>(),
        ["a ", "bbbbb ", "c"]
    );
    assert_eq!(pieces.first(), Some(&"a "));
    assert_eq!(pieces.last(), Some(&"c"));
    assert_eq!(pieces[1..pieces.len() - 1].concat(), "bbbbb ");
    assert!(pieces.len() > normal.len());
}

#[test]
fn emergency_ranges_preserve_extended_graphemes() {
    for text in ["สัก", "ที่", "มากๆ", "กรุงเทพฯ"] {
        let normal = normal_break_ranges(text);
        let ranges = emergency_ranges_for_test(text, normal, 1.);
        let expected = text
            .grapheme_indices(true)
            .map(|(at, cluster)| at..at + cluster.len())
            .collect::<Vec<_>>();

        assert_eq!(ranges, expected, "{text}");
    }
}

#[test]
fn fitting_ranges_are_kept_whole() {
    let text = "ab cd";
    let normal = vec![0..3, 3..5];
    assert_eq!(emergency_ranges(text, normal.clone(), &vec![true, true]), normal);
    assert_eq!(emergency_ranges(text, normal, &vec![true, false]), vec![0..3, 3..4, 4..5]);
}

#[test]
fn thai_normal_breaks_ignore_timing_granularity() {
    let text = "เข้าใจสักที";
    let expected = ["เข้าใจ", "สัก", "ที"];
    let granularities = [
        ["เข้า", "ใจ", "สั", "ก", "ที"].as_slice(),
        ["เข้าใจ", "สัก", "ที"].as_slice(),
        ["เข้าใจสักที"].as_slice(),
    ];

    assert_eq!(segments(text), expected);
    for parts in granularities {
        let words = timed_words(parts);
        let spans = timing_spans(text, &words);
        assert_eq!(
            spans
                .iter()
                .map(|range| &text[range.clone()])
                .collect::<Vec<_>>(),
            parts
        );
    }
}
