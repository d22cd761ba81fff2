use sonora::lyrics::model::{Lyrics, LyricsLine, LyricsWord, Voice};
use sonora::lyrics::shape::conform;
use sonora::lyrics::timing::{timed, tokens};

fn key_text(key: &[char]) -> String {
    key.iter().collect()
}

fn ms(value: u64) -> u64 {
    value * 1_000_000
}

#[test]
fn shape_combining_only_provider_chunks_are_not_silently_dropped() {
    let chunk = vec![LyricsWord {
        start: ms(150),
        end: ms(300),
        text: "้".to_owned(),
    }];
    let sung = timed("้", &chunk).unwrap();
    assert_eq!(sung.len(), 1);
    assert_eq!(key_text(&sung[0].key), "้");
    assert_eq!(sung[0].start, ms(150));
    assert_eq!(sung[0].end, ms(300));

    let multi_combining = vec![LyricsWord {
        start: ms(200),
        end: ms(450),
        text: "ี่".to_owned(),
    }];
    let sung = timed("ี่", &multi_combining).unwrap();
    assert_eq!(sung.len(), 1);
    assert_eq!(key_text(&sung[0].key), "ี่");
    assert_eq!(sung[0].start, ms(200));
    assert_eq!(sung[0].end, ms(450));
}

#[test]
fn shape_chunk_boundary_variants_produce_equivalent_timing_and_text() {
    let fine_chunks = vec![
        LyricsWord {
            start: ms(0),
            end: ms(100),
            text: "ไ".to_owned(),
        },
        LyricsWord {
            start: ms(100),
            end: ms(200),
            text: "ว".to_owned(),
        },
        LyricsWord {
            start: ms(200),
            end: ms(300),
            text: "้".to_owned(),
        },
    ];

    let single_chunk = vec![LyricsWord {
        start: ms(0),
        end: ms(300),
        text: "ไว้".to_owned(),
    }];

    let fine_sung = timed("ไว้", &fine_chunks).unwrap();
    let single_sung = timed("ไว้", &single_chunk).unwrap();

    assert_eq!(fine_sung.len(), single_sung.len());
    for (fine, single) in fine_sung.iter().zip(&single_sung) {
        assert_eq!(fine.key, single.key);
        assert_eq!(fine.start, single.start);
        assert_eq!(fine.end, single.end);
    }
    assert_eq!(fine_sung.last().unwrap().end, ms(300));
}

#[test]
fn shape_thai_reconstructed_text_remains_exact_and_monotonic() {
    let guide = Lyrics::Synced {
        lines: vec![
            LyricsLine {
                start: ms(0),
                end: Some(ms(3000)),
                text: "ไว้ ที่ นี่ เธอ อยู่ ที่".to_owned(),
                romanized: None,
                words: None,
                secondary: Vec::new(),
                voice: Voice::Lead,
            },
            LyricsLine {
                start: ms(3000),
                end: Some(ms(6000)),
                text: "ฉัน ยัง รอ อยู่ ตรง นี้".to_owned(),
                romanized: None,
                words: None,
                secondary: Vec::new(),
                voice: Voice::Lead,
            },
        ]
        .into(),
    };

    let split_words = vec![
        LyricsWord {
            start: ms(0),
            end: ms(100),
            text: "ไ".to_owned(),
        },
        LyricsWord {
            start: ms(100),
            end: ms(200),
            text: "ว".to_owned(),
        },
        LyricsWord {
            start: ms(200),
            end: ms(300),
            text: "้".to_owned(),
        },
        LyricsWord {
            start: ms(300),
            end: ms(400),
            text: " ".to_owned(),
        },
        LyricsWord {
            start: ms(400),
            end: ms(500),
            text: "ท".to_owned(),
        },
        LyricsWord {
            start: ms(500),
            end: ms(650),
            text: "ี่".to_owned(),
        },
        LyricsWord {
            start: ms(650),
            end: ms(700),
            text: " ".to_owned(),
        },
        LyricsWord {
            start: ms(700),
            end: ms(800),
            text: "น".to_owned(),
        },
        LyricsWord {
            start: ms(800),
            end: ms(950),
            text: "ี่".to_owned(),
        },
        LyricsWord {
            start: ms(950),
            end: ms(1000),
            text: " ".to_owned(),
        },
        LyricsWord {
            start: ms(1000),
            end: ms(1100),
            text: "เ".to_owned(),
        },
        LyricsWord {
            start: ms(1100),
            end: ms(1200),
            text: "ธ".to_owned(),
        },
        LyricsWord {
            start: ms(1200),
            end: ms(1300),
            text: "อ".to_owned(),
        },
        LyricsWord {
            start: ms(1300),
            end: ms(1400),
            text: " ".to_owned(),
        },
        LyricsWord {
            start: ms(1400),
            end: ms(1500),
            text: "อ".to_owned(),
        },
        LyricsWord {
            start: ms(1500),
            end: ms(1600),
            text: "ย".to_owned(),
        },
        LyricsWord {
            start: ms(1600),
            end: ms(1700),
            text: "ู".to_owned(),
        },
        LyricsWord {
            start: ms(1700),
            end: ms(1800),
            text: "่".to_owned(),
        },
        LyricsWord {
            start: ms(1800),
            end: ms(1900),
            text: " ".to_owned(),
        },
        LyricsWord {
            start: ms(1900),
            end: ms(2000),
            text: "ท".to_owned(),
        },
        LyricsWord {
            start: ms(2000),
            end: ms(2200),
            text: "ี่".to_owned(),
        },
    ];

    let worded_split = Lyrics::Synced {
        lines: vec![
            LyricsLine {
                start: ms(0),
                end: Some(ms(3000)),
                text: "ไว้ ที่ นี่ เธอ อยู่ ที่".to_owned(),
                romanized: None,
                words: Some(split_words),
                secondary: Vec::new(),
                voice: Voice::Lead,
            },
            LyricsLine {
                start: ms(3000),
                end: Some(ms(6000)),
                text: "ฉัน ยัง รอ อยู่ ตรง นี้".to_owned(),
                romanized: None,
                words: None,
                secondary: Vec::new(),
                voice: Voice::Lead,
            },
        ]
        .into(),
    };

    let word_chunks = vec![
        LyricsWord {
            start: ms(0),
            end: ms(300),
            text: "ไว้".to_owned(),
        },
        LyricsWord {
            start: ms(300),
            end: ms(400),
            text: " ".to_owned(),
        },
        LyricsWord {
            start: ms(400),
            end: ms(650),
            text: "ที่".to_owned(),
        },
        LyricsWord {
            start: ms(650),
            end: ms(700),
            text: " ".to_owned(),
        },
        LyricsWord {
            start: ms(700),
            end: ms(950),
            text: "นี่".to_owned(),
        },
        LyricsWord {
            start: ms(950),
            end: ms(1000),
            text: " ".to_owned(),
        },
        LyricsWord {
            start: ms(1000),
            end: ms(1300),
            text: "เธอ".to_owned(),
        },
        LyricsWord {
            start: ms(1300),
            end: ms(1400),
            text: " ".to_owned(),
        },
        LyricsWord {
            start: ms(1400),
            end: ms(1800),
            text: "อยู่".to_owned(),
        },
        LyricsWord {
            start: ms(1800),
            end: ms(1900),
            text: " ".to_owned(),
        },
        LyricsWord {
            start: ms(1900),
            end: ms(2200),
            text: "ที่".to_owned(),
        },
    ];

    let worded_whole = Lyrics::Synced {
        lines: vec![
            LyricsLine {
                start: ms(0),
                end: Some(ms(3000)),
                text: "ไว้ ที่ นี่ เธอ อยู่ ที่".to_owned(),
                romanized: None,
                words: Some(word_chunks),
                secondary: Vec::new(),
                voice: Voice::Lead,
            },
            LyricsLine {
                start: ms(3000),
                end: Some(ms(6000)),
                text: "ฉัน ยัง รอ อยู่ ตรง นี้".to_owned(),
                romanized: None,
                words: None,
                secondary: Vec::new(),
                voice: Voice::Lead,
            },
        ]
        .into(),
    };

    let conformed_split = conform(&worded_split, &guide).expect("split worded should conform");
    let conformed_whole = conform(&worded_whole, &guide).expect("whole worded should conform");

    let Lyrics::Synced { lines: split_lines } = conformed_split else {
        unreachable!()
    };
    let Lyrics::Synced { lines: whole_lines } = conformed_whole else {
        unreachable!()
    };

    assert_eq!(split_lines[0].text, "ไว้ ที่ นี่ เธอ อยู่ ที่");
    let split_words = split_lines[0].words.as_ref().unwrap();
    let reconstructed: String = split_words.iter().map(|w| w.text.as_str()).collect();
    assert_eq!(reconstructed, "ไว้ ที่ นี่ เธอ อยู่ ที่");

    for window in split_words.windows(2) {
        assert!(window[0].start <= window[0].end);
        assert!(window[0].end <= window[1].start);
    }

    let whole_words = whole_lines[0].words.as_ref().unwrap();
    assert_eq!(split_words.len(), whole_words.len());
    for (w_split, w_whole) in split_words.iter().zip(whole_words) {
        assert_eq!(w_split.text, w_whole.text);
        assert_eq!(w_split.start, w_whole.start);
        assert_eq!(w_split.end, w_whole.end);
    }
}

#[test]
fn shape_existing_latin_cjk_japanese_korean_behavior_remains_intact() {
    let latin_slots = tokens("Hello, world! don't stop");
    let latin_keys: Vec<String> = latin_slots.iter().map(|s| key_text(&s.key)).collect();
    assert_eq!(latin_keys, vec!["hello", "world", "dont", "stop"]);

    let cjk_slots = tokens("你好世界");
    let cjk_keys: Vec<String> = cjk_slots.iter().map(|s| key_text(&s.key)).collect();
    assert_eq!(cjk_keys, vec!["你", "好", "世", "界"]);

    let jpn_slots = tokens("こんにちは");
    let jpn_keys: Vec<String> = jpn_slots.iter().map(|s| key_text(&s.key)).collect();
    assert_eq!(jpn_keys, vec!["こ", "ん", "に", "ち", "は"]);

    let kor_slots = tokens("안녕하세요");
    let kor_keys: Vec<String> = kor_slots.iter().map(|s| key_text(&s.key)).collect();
    assert_eq!(kor_keys, vec!["안", "녕", "하", "세", "요"]);
}
