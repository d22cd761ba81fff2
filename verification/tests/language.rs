use sonora::language::{AUTO, ALL, Language, detect_from, resolve};

#[test]
fn every_language_round_trips_through_its_id() {
    for language in ALL {
        assert_eq!(Language::from_id(language.id()), Some(language));
    }
}

#[test]
fn ids_and_labels_are_the_documented_ones() {
    assert_eq!(Language::English.id(), "en-US");
    assert_eq!(Language::PortugueseBrazilian.id(), "pt-BR");
    assert_eq!(Language::Ukrainian.id(), "uk");
    assert_eq!(Language::French.label(), "Français");
    assert_eq!(Language::Russian.label(), "Русский");
    assert_eq!(Language::PortugueseBrazilian.label(), "Português (Brasil)");
}

#[test]
fn unknown_ids_name_no_language() {
    assert_eq!(Language::from_id("en"), None);
    assert_eq!(Language::from_id("DE"), None);
    assert_eq!(Language::from_id(AUTO), None);
    assert_eq!(Language::from_id(""), None);
}

#[test]
fn system_locales_pick_by_primary_subtag() {
    assert_eq!(detect_from(Some("de-DE")), Language::German);
    assert_eq!(detect_from(Some("pt_BR")), Language::PortugueseBrazilian);
    assert_eq!(detect_from(Some("pt-PT")), Language::PortugueseBrazilian);
    assert_eq!(detect_from(Some("EN-gb")), Language::English);
    assert_eq!(detect_from(Some("uk")), Language::Ukrainian);
    assert_eq!(detect_from(Some("zh-CN")), Language::English);
    assert_eq!(detect_from(Some("")), Language::English);
    assert_eq!(detect_from(None), Language::English);
}

#[test]
fn a_known_setting_resolves_to_its_language() {
    assert_eq!(resolve("fr"), Language::French);
    assert_eq!(resolve("pl"), Language::Polish);
}

#[test]
fn the_automatic_setting_resolves_to_a_language() {
    let language = resolve(AUTO);
    assert!(ALL.contains(&language));
    assert_eq!(language, Language::detect());
}
