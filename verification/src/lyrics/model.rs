//! The lyrics data model. Times are nanoseconds from the start of the track.
use vstd::prelude::*;

verus! {

/// One timed word (or other cue) of a line, as a provider delivers it.
#[derive(Clone, Debug, PartialEq, Eq)]
pub struct LyricsWord {
    pub start: u64,
    pub end: u64,
    pub text: String,
}

/// Who sings a line.
#[derive(Clone, Copy, Debug, PartialEq, Eq, Structural)]
pub enum Voice {
    Lead,
    Counter,
    Background,
}

/// The script that a romanization was made from.
#[derive(Clone, Copy, Debug, PartialEq, Eq, Structural)]
pub enum WritingSystem {
    Japanese,
    Korean,
    Chinese,
    Cyrillic,
    Other,
}

/// A romanized rendering of a line.
#[derive(Clone, Debug, PartialEq, Eq)]
pub struct RomanizedText {
    pub text: String,
    pub writing_system: WritingSystem,
}

/// A secondary lane of a line, such as a background vocal.
#[derive(Clone, Debug, PartialEq, Eq)]
pub struct LyricsLane {
    pub start: u64,
    pub end: Option<u64>,
    pub text: String,
    pub romanized: Option<RomanizedText>,
    pub words: Option<Vec<LyricsWord>>,
}

/// One line of synced lyrics.
#[derive(Clone, Debug, PartialEq, Eq)]
pub struct LyricsLine {
    pub start: u64,
    pub end: Option<u64>,
    pub text: String,
    pub romanized: Option<RomanizedText>,
    pub words: Option<Vec<LyricsWord>>,
    pub secondary: Vec<LyricsLane>,
    pub voice: Voice,
}

/// Lyrics, with or without timing.
#[derive(Clone, Debug, PartialEq, Eq)]
pub enum Lyrics {
    Synced { lines: Vec<LyricsLine> },
    Plain { text: String },
}

/// The latest end of the first `k` words.
pub open spec fn words_end(words: Seq<LyricsWord>, k: int) -> u64
    decreases k,
{
    if k <= 1 {
        words[0].end
    } else if words[k - 1].end > words_end(words, k - 1) {
        words[k - 1].end
    } else {
        words_end(words, k - 1)
    }
}

/// The texts of a run of words, in order.
pub open spec fn word_texts(words: Seq<LyricsWord>) -> Seq<Seq<char>> {
    words.map_values(|word: LyricsWord| word.text@)
}

/// Whether a line's words spell out its text exactly: it has words, and their texts, one
/// after another, are its text.
pub open spec fn spelled_by_words(line: LyricsLine) -> bool {
    line.words matches Some(words) && word_texts(words@).flatten_alt() == line.text@
}

/// Whether a line's words start in order: it has words, and none starts before the one
/// before it.
pub open spec fn words_start_in_order(line: LyricsLine) -> bool {
    line.words matches Some(words) && forall|w: int| 0 <= w < words@.len() - 1 ==> #[trigger] words@[w].start <= words@[w + 1].start
}

/// When a line stops being sung: the end of its last-ending word when it has words, else
/// its own end. Word timing wins both ways: it can run past the line's end or show that the
/// singing stopped before it.
pub open spec fn spec_sung_end(line: LyricsLine) -> Option<u64> {
    let worded = match line.words {
        Some(words) => if words@.len() > 0 { Some(words_end(words@, words@.len() as int)) } else { None },
        None => None,
    };
    match worded {
        Some(last) => Some(last),
        None => line.end,
    }
}

impl LyricsLine {
    pub fn sung_end(&self) -> (end: Option<u64>)
        ensures
            end == spec_sung_end(*self),
    {
        let worded = match &self.words {
            Some(words) => {
                if words.len() > 0 {
                    let mut last = words[0].end;
                    let mut k: usize = 1;
                    while k < words.len()
                        invariant
                            1 <= k <= words@.len(),
                            last == words_end(words@, k as int),
                        decreases words@.len() - k,
                    {
                        if words[k].end > last {
                            last = words[k].end;
                        }
                        k = k + 1;
                    }
                    Some(last)
                } else {
                    None
                }
            },
            None => None,
        };
        match worded {
            Some(last) => Some(last),
            None => self.end,
        }
    }
}

/// A copy of a romanization.
pub fn copy_romanized(romanized: &Option<RomanizedText>) -> (copy: Option<RomanizedText>)
    ensures
        copy is Some <==> romanized is Some,
        copy matches Some(copy) ==> copy.text@ == romanized.unwrap().text@ && copy.writing_system == romanized.unwrap().writing_system,
{
    match romanized {
        Some(found) => Some(RomanizedText { text: found.text.clone(), writing_system: found.writing_system }),
        None => None,
    }
}

/// Whether two word lists hold the same words.
pub open spec fn same_words(a: Seq<LyricsWord>, b: Seq<LyricsWord>) -> bool {
    &&& a.len() == b.len()
    &&& forall|k: int| 0 <= k < a.len() ==> (#[trigger] a[k]).start == b[k].start && a[k].end == b[k].end && a[k].text@ == b[k].text@
}

/// Whether two optional word lists hold the same words.
pub open spec fn same_optional_words(a: Option<Vec<LyricsWord>>, b: Option<Vec<LyricsWord>>) -> bool {
    match (a, b) {
        (Some(a), Some(b)) => same_words(a@, b@),
        (None, None) => true,
        _ => false,
    }
}

/// Whether two optional romanizations are the same.
pub open spec fn same_romanized(a: Option<RomanizedText>, b: Option<RomanizedText>) -> bool {
    match (a, b) {
        (Some(a), Some(b)) => a.text@ == b.text@ && a.writing_system == b.writing_system,
        (None, None) => true,
        _ => false,
    }
}

/// Whether two lanes are the same.
pub open spec fn same_lane(a: LyricsLane, b: LyricsLane) -> bool {
    &&& a.start == b.start
    &&& a.end == b.end
    &&& a.text@ == b.text@
    &&& same_romanized(a.romanized, b.romanized)
    &&& same_optional_words(a.words, b.words)
}

/// Whether two lines are the same, field by field.
pub open spec fn same_line(a: LyricsLine, b: LyricsLine) -> bool {
    &&& a.start == b.start
    &&& a.end == b.end
    &&& a.text@ == b.text@
    &&& same_romanized(a.romanized, b.romanized)
    &&& same_optional_words(a.words, b.words)
    &&& a.voice == b.voice
    &&& a.secondary@.len() == b.secondary@.len()
    &&& forall|k: int| 0 <= k < a.secondary@.len() ==> same_lane(#[trigger] a.secondary@[k], b.secondary@[k])
}

/// A copy of a word list.
pub fn copy_words(words: &Vec<LyricsWord>) -> (copy: Vec<LyricsWord>)
    ensures
        same_words(copy@, words@),
{
    let mut copy: Vec<LyricsWord> = Vec::new();
    let mut k: usize = 0;
    while k < words.len()
        invariant
            k <= words@.len(),
            copy@.len() == k,
            forall|i: int| 0 <= i < k ==> (#[trigger] copy@[i]).start == words@[i].start && copy@[i].end == words@[i].end && copy@[i].text@ == words@[i].text@,
        decreases words@.len() - k,
    {
        let word = &words[k];
        copy.push(LyricsWord { start: word.start, end: word.end, text: word.text.clone() });
        k = k + 1;
    }
    copy
}

/// A copy of an optional word list.
pub fn copy_optional_words(words: &Option<Vec<LyricsWord>>) -> (copy: Option<Vec<LyricsWord>>)
    ensures
        same_optional_words(copy, *words),
{
    match words {
        Some(words) => Some(copy_words(words)),
        None => None,
    }
}

/// A copy of a lane.
pub fn copy_lane(lane: &LyricsLane) -> (copy: LyricsLane)
    ensures
        same_lane(copy, *lane),
{
    LyricsLane {
        start: lane.start,
        end: lane.end,
        text: lane.text.clone(),
        romanized: copy_romanized(&lane.romanized),
        words: copy_optional_words(&lane.words),
    }
}

/// A copy of a line.
pub fn copy_line(line: &LyricsLine) -> (copy: LyricsLine)
    ensures
        same_line(copy, *line),
{
    let mut secondary: Vec<LyricsLane> = Vec::new();
    let mut k: usize = 0;
    while k < line.secondary.len()
        invariant
            k <= line.secondary@.len(),
            secondary@.len() == k,
            forall|i: int| 0 <= i < k ==> same_lane(#[trigger] secondary@[i], line.secondary@[i]),
        decreases line.secondary@.len() - k,
    {
        secondary.push(copy_lane(&line.secondary[k]));
        k = k + 1;
    }
    LyricsLine {
        start: line.start,
        end: line.end,
        text: line.text.clone(),
        romanized: copy_romanized(&line.romanized),
        words: copy_optional_words(&line.words),
        secondary,
        voice: line.voice,
    }
}

} // verus!
