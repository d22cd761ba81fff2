//! The rows of the queue panel: a history section, the track now playing, what is up next
//! and similar suggestions, each non-empty section under a header of its own.
use vstd::prelude::*;

verus! {

/// A track's place in the queue.
#[derive(Clone, Copy, Debug, PartialEq)]
pub enum QueuePosition {
    Past(usize),
    Current,
    Upcoming(usize),
    Similar(usize),
}

/// One row of the queue panel: a section header, named by its message key, or a track.
#[derive(Clone, Copy, Debug, PartialEq)]
pub enum Slot {
    Header(&'static str),
    Track(QueuePosition),
}

/// The sizes of the queue's sections.
#[derive(Clone, Copy, Debug)]
pub struct Sections {
    pub past: usize,
    pub current: bool,
    pub upcoming: usize,
    pub similar: usize,
}

/// The rows a section of `count` tracks takes: none when empty, else a header and its tracks.
pub open spec fn section_rows(count: int) -> int {
    if count == 0 { 0 } else { count + 1 }
}

impl QueuePosition {
    /// The history index of a past track.
    pub fn past(self) -> (index: Option<usize>)
        ensures
            index == (match self {
                QueuePosition::Past(index) => Some(index),
                _ => None,
            }),
    {
        match self {
            QueuePosition::Past(index) => Some(index),
            _ => None,
        }
    }

    /// The index of an upcoming track.
    pub fn upcoming(self) -> (index: Option<usize>)
        ensures
            index == (match self {
                QueuePosition::Upcoming(index) => Some(index),
                _ => None,
            }),
    {
        match self {
            QueuePosition::Upcoming(index) => Some(index),
            _ => None,
        }
    }

    /// The index of a similar suggestion.
    pub fn similar(self) -> (index: Option<usize>)
        ensures
            index == (match self {
                QueuePosition::Similar(index) => Some(index),
                _ => None,
            }),
    {
        match self {
            QueuePosition::Similar(index) => Some(index),
            _ => None,
        }
    }
}

impl Sections {
    /// Where the history section ends.
    pub open spec fn spec_past_end(self) -> int {
        section_rows(self.past as int)
    }

    /// Where the now-playing section ends.
    pub open spec fn spec_current_end(self) -> int {
        self.spec_past_end() + if self.current { 2int } else { 0int }
    }

    /// Where the up-next section ends.
    pub open spec fn spec_upcoming_end(self) -> int {
        self.spec_current_end() + section_rows(self.upcoming as int)
    }

    /// How many rows the panel has.
    pub open spec fn spec_len(self) -> int {
        self.spec_upcoming_end() + section_rows(self.similar as int)
    }

    /// The row at `index`: each non-empty section is its header followed by its tracks in
    /// order, history first, then the track now playing, what is up next, and suggestions.
    pub open spec fn spec_slot(self, index: int) -> Slot {
        if index < self.spec_past_end() {
            if index == 0 { Slot::Header("queue-history") } else { Slot::Track(QueuePosition::Past((index - 1) as usize)) }
        } else if index < self.spec_current_end() {
            if index == self.spec_past_end() { Slot::Header("queue-now-playing") } else { Slot::Track(QueuePosition::Current) }
        } else if index < self.spec_upcoming_end() {
            if index == self.spec_current_end() {
                Slot::Header("queue-up-next")
            } else {
                Slot::Track(QueuePosition::Upcoming((index - self.spec_current_end() - 1) as usize))
            }
        } else if index == self.spec_upcoming_end() {
            Slot::Header("queue-similar")
        } else {
            Slot::Track(QueuePosition::Similar((index - self.spec_upcoming_end() - 1) as usize))
        }
    }

    /// Where the history section ends.
    pub fn past_end(self) -> (end: usize)
        requires
            self.spec_len() <= usize::MAX,
        ensures
            end == self.spec_past_end(),
    {
        match self.past {
            0 => 0,
            count => count + 1,
        }
    }

    /// Where the now-playing section ends.
    pub fn current_end(self) -> (end: usize)
        requires
            self.spec_len() <= usize::MAX,
        ensures
            end == self.spec_current_end(),
    {
        self.past_end() + if self.current { 2 } else { 0 }
    }

    /// Where the up-next section ends.
    pub fn upcoming_end(self) -> (end: usize)
        requires
            self.spec_len() <= usize::MAX,
        ensures
            end == self.spec_upcoming_end(),
    {
        self.current_end() + match self.upcoming {
            0 => 0,
            count => count + 1,
        }
    }

    /// How many rows the panel has.
    pub fn len(self) -> (count: usize)
        requires
            self.spec_len() <= usize::MAX,
        ensures
            count == self.spec_len(),
    {
        self.upcoming_end() + match self.similar {
            0 => 0,
            count => count + 1,
        }
    }

    /// The row of the track now playing, if there is one: right under its header.
    pub fn current_index(self) -> (index: Option<usize>)
        requires
            self.spec_len() <= usize::MAX,
        ensures
            index == (if self.current { Some((self.spec_past_end() + 1) as usize) } else { None }),
    {
        if self.current {
            Some(self.past_end() + 1)
        } else {
            None
        }
    }

    /// The row at `index`, as `spec_slot` lays them out.
    pub fn slot(self, index: usize) -> (slot: Slot)
        requires
            self.spec_len() <= usize::MAX,
        ensures
            slot == self.spec_slot(index as int),
    {
        if index < self.past_end() {
            return match index {
                0 => Slot::Header("queue-history"),
                _ => Slot::Track(QueuePosition::Past(index - 1)),
            };
        }
        if index < self.current_end() {
            return if index == self.past_end() {
                Slot::Header("queue-now-playing")
            } else {
                Slot::Track(QueuePosition::Current)
            };
        }
        if index < self.upcoming_end() {
            return if index == self.current_end() {
                Slot::Header("queue-up-next")
            } else {
                Slot::Track(QueuePosition::Upcoming(index - self.current_end() - 1))
            };
        }
        if index == self.upcoming_end() {
            Slot::Header("queue-similar")
        } else {
            Slot::Track(QueuePosition::Similar(index - self.upcoming_end() - 1))
        }
    }
}

/// The row of history track `k`.
pub open spec fn past_row(k: int) -> int {
    k + 1
}

/// The row of up-next track `k`.
pub open spec fn upcoming_row(sections: Sections, k: int) -> int {
    sections.spec_current_end() + 1 + k
}

/// The row of suggestion `k`.
pub open spec fn similar_row(sections: Sections, k: int) -> int {
    sections.spec_upcoming_end() + 1 + k
}

/// Every track of the queue has its row within the panel, and no track has two: past track
/// `k` under the history header, the current track under its header, up-next track `k`
/// and suggestion `k` under theirs; and every track row names a track that exists.
pub proof fn lemma_every_track_has_one_row(sections: Sections)
    ensures
        forall|k: int| 0 <= k < sections.past ==> past_row(k) < sections.spec_len()
            && sections.spec_slot(#[trigger] past_row(k)) == Slot::Track(QueuePosition::Past(k as usize)),
        sections.current ==> sections.spec_past_end() + 1 < sections.spec_len()
            && sections.spec_slot(sections.spec_past_end() + 1) == Slot::Track(QueuePosition::Current),
        forall|k: int| 0 <= k < sections.upcoming ==> upcoming_row(sections, k) < sections.spec_len()
            && sections.spec_slot(#[trigger] upcoming_row(sections, k)) == Slot::Track(QueuePosition::Upcoming(k as usize)),
        forall|k: int| 0 <= k < sections.similar ==> similar_row(sections, k) < sections.spec_len()
            && sections.spec_slot(#[trigger] similar_row(sections, k)) == Slot::Track(QueuePosition::Similar(k as usize)),
        forall|i: int| 0 <= i < sections.spec_len() ==> match #[trigger] sections.spec_slot(i) {
            Slot::Track(QueuePosition::Past(k)) => k < sections.past,
            Slot::Track(QueuePosition::Current) => sections.current,
            Slot::Track(QueuePosition::Upcoming(k)) => k < sections.upcoming,
            Slot::Track(QueuePosition::Similar(k)) => k < sections.similar,
            Slot::Header(_) => true,
        },
        forall|i: int, j: int| 0 <= i < j < sections.spec_len() && (#[trigger] sections.spec_slot(i)) is Track
            ==> sections.spec_slot(i) != #[trigger] sections.spec_slot(j),
{
}

/// What pressing a track row's play button does.
#[derive(Clone, Copy, Debug, PartialEq)]
pub enum PlayAction {
    TogglePlay,
    PlayPast(usize),
    PlayUpcoming(usize),
    PlaySimilar(usize),
    Nothing,
}

/// The play button of a track row that was shown for the queue at revision `shown`,
/// pressed while the queue is at revision `now`: the current track toggles playback; any
/// other track plays only while the queue is unchanged since the row was shown.
pub fn play_action(position: QueuePosition, shown: u64, now: u64) -> (action: PlayAction)
    ensures
        action == (match position {
            QueuePosition::Current => PlayAction::TogglePlay,
            QueuePosition::Past(index) => if shown == now { PlayAction::PlayPast(index) } else { PlayAction::Nothing },
            QueuePosition::Upcoming(index) => if shown == now { PlayAction::PlayUpcoming(index) } else { PlayAction::Nothing },
            QueuePosition::Similar(index) => if shown == now { PlayAction::PlaySimilar(index) } else { PlayAction::Nothing },
        }),
{
    let stale = shown != now;
    match position {
        QueuePosition::Current => PlayAction::TogglePlay,
        QueuePosition::Past(index) => if stale { PlayAction::Nothing } else { PlayAction::PlayPast(index) },
        QueuePosition::Upcoming(index) => if stale { PlayAction::Nothing } else { PlayAction::PlayUpcoming(index) },
        QueuePosition::Similar(index) => if stale { PlayAction::Nothing } else { PlayAction::PlaySimilar(index) },
    }
}

} // verus!
