use sonora::queue::{PlayAction, QueuePosition, Sections, Slot, play_action};

fn slots(sections: Sections) -> Vec<Slot> {
    (0..sections.len()).map(|i| sections.slot(i)).collect()
}

#[test]
fn lays_out_every_section() {
    let sections = Sections {
        past: 2,
        current: true,
        upcoming: 2,
        similar: 2,
    };

    assert_eq!(sections.current_index(), Some(4));
    assert_eq!(
        slots(sections),
        [
            Slot::Header("queue-history"),
            Slot::Track(QueuePosition::Past(0)),
            Slot::Track(QueuePosition::Past(1)),
            Slot::Header("queue-now-playing"),
            Slot::Track(QueuePosition::Current),
            Slot::Header("queue-up-next"),
            Slot::Track(QueuePosition::Upcoming(0)),
            Slot::Track(QueuePosition::Upcoming(1)),
            Slot::Header("queue-similar"),
            Slot::Track(QueuePosition::Similar(0)),
            Slot::Track(QueuePosition::Similar(1)),
        ]
    );
}

#[test]
fn suggests_similar_tracks_without_anything_up_next() {
    let sections = Sections {
        past: 0,
        current: true,
        upcoming: 0,
        similar: 1,
    };

    assert_eq!(
        slots(sections),
        [
            Slot::Header("queue-now-playing"),
            Slot::Track(QueuePosition::Current),
            Slot::Header("queue-similar"),
            Slot::Track(QueuePosition::Similar(0)),
        ]
    );
}

#[test]
fn drops_headers_for_empty_sections() {
    let sections = Sections {
        past: 0,
        current: true,
        upcoming: 1,
        similar: 0,
    };

    assert_eq!(sections.current_index(), Some(1));
    assert_eq!(
        slots(sections),
        [
            Slot::Header("queue-now-playing"),
            Slot::Track(QueuePosition::Current),
            Slot::Header("queue-up-next"),
            Slot::Track(QueuePosition::Upcoming(0)),
        ]
    );
}

#[test]
fn lays_out_history_without_a_current_track() {
    let sections = Sections {
        past: 1,
        current: false,
        upcoming: 0,
        similar: 0,
    };

    assert_eq!(sections.current_index(), None);
    assert_eq!(
        slots(sections),
        [
            Slot::Header("queue-history"),
            Slot::Track(QueuePosition::Past(0))
        ]
    );
}

#[test]
fn an_empty_queue_has_no_rows() {
    let sections = Sections {
        past: 0,
        current: false,
        upcoming: 0,
        similar: 0,
    };

    assert_eq!(sections.len(), 0);
    assert_eq!(sections.current_index(), None);
}

#[test]
fn section_ends_count_headers() {
    let sections = Sections {
        past: 3,
        current: true,
        upcoming: 0,
        similar: 4,
    };
    assert_eq!(sections.past_end(), 4);
    assert_eq!(sections.current_end(), 6);
    assert_eq!(sections.upcoming_end(), 6);
    assert_eq!(sections.len(), 11);
    assert_eq!(sections.slot(6), Slot::Header("queue-similar"));
    assert_eq!(sections.slot(10), Slot::Track(QueuePosition::Similar(3)));
}

#[test]
fn queue_positions_name_their_section() {
    assert_eq!(QueuePosition::Past(3).past(), Some(3));
    assert_eq!(QueuePosition::Past(3).upcoming(), None);
    assert_eq!(QueuePosition::Upcoming(2).upcoming(), Some(2));
    assert_eq!(QueuePosition::Similar(1).similar(), Some(1));
    assert_eq!(QueuePosition::Current.similar(), None);
    assert_eq!(QueuePosition::Current.past(), None);
}

#[test]
fn a_stale_row_plays_nothing_but_the_current_track_still_toggles() {
    assert_eq!(play_action(QueuePosition::Current, 3, 4), PlayAction::TogglePlay);
    assert_eq!(play_action(QueuePosition::Past(1), 3, 3), PlayAction::PlayPast(1));
    assert_eq!(play_action(QueuePosition::Upcoming(2), 3, 3), PlayAction::PlayUpcoming(2));
    assert_eq!(play_action(QueuePosition::Similar(0), 3, 3), PlayAction::PlaySimilar(0));
    assert_eq!(play_action(QueuePosition::Upcoming(2), 3, 4), PlayAction::Nothing);
    assert_eq!(play_action(QueuePosition::Past(1), 5, 4), PlayAction::Nothing);
}
