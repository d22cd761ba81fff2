# sonora

The logic of the Sonora music player's lyrics and side panel, verified with Verus.

- `language`: the interface languages, their identifiers and labels, and how a system
  locale picks one.
- `queue`: the rows of the queue panel (history, the current track, up next, suggestions).
- `text`: Unicode facts from `std` and `unicode-segmentation` used by the rest.
- `lyrics::model`: lines, lanes and timed words; times are nanoseconds.
- `lyrics::timing`: tokenizing a line and timing its tokens from provider cues.
- `lyrics::alignment`: pairing provider tokens with guide tokens and building word-timed
  lines from a matched group.
- `lyrics::shape`: conforming word-timed lyrics to a guide text (`conform`).
- `lyrics::layout`: byte ranges for karaoke rendering (timing spans, line-break pieces,
  grapheme splitting of pieces that do not fit).
- `lyrics::karaoke` and `lyrics::rows`: which lines sweep at a given moment, and the rows
  of the synced-lyrics sheet with their instrumental pauses.

The tests under `tests/` run the library with `unicode-segmentation`, `icu_segmenter` and
`sys-locale` linked.
