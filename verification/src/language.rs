//! The interface languages the client ships, their identifiers and labels.
use vstd::prelude::*;

use crate::text::{lowercase, lowercased};

verus! {

broadcast use vstd::string::group_string_axioms;

/// The identifier that asks for the language to follow the system locale.
pub const AUTO: &'static str = "auto";

/// An interface language.
#[derive(Clone, Copy, Debug, PartialEq, Eq, Structural)]
pub enum Language {
    English,
    German,
    French,
    Italian,
    Russian,
    Ukrainian,
    Polish,
    PortugueseBrazilian,
}

/// Every language, in the order in which lookups try them.
pub const ALL: [Language; 8] = [
    Language::English,
    Language::German,
    Language::French,
    Language::Italian,
    Language::Russian,
    Language::Ukrainian,
    Language::Polish,
    Language::PortugueseBrazilian,
];

/// The languages as a sequence, in lookup order.
pub open spec fn all_languages() -> Seq<Language> {
    seq![
        Language::English,
        Language::German,
        Language::French,
        Language::Italian,
        Language::Russian,
        Language::Ukrainian,
        Language::Polish,
        Language::PortugueseBrazilian,
    ]
}

impl Language {
    /// The BCP 47 identifier of the language.
    pub open spec fn spec_id(self) -> Seq<char> {
        match self {
            Language::English => "en-US"@,
            Language::German => "de"@,
            Language::French => "fr"@,
            Language::Italian => "it"@,
            Language::Russian => "ru"@,
            Language::Ukrainian => "uk"@,
            Language::Polish => "pl"@,
            Language::PortugueseBrazilian => "pt-BR"@,
        }
    }

    /// The name of the language, written in that language.
    pub open spec fn spec_label(self) -> Seq<char> {
        match self {
            Language::English => "English"@,
            Language::German => "Deutsch"@,
            Language::French => "Français"@,
            Language::Italian => "Italiano"@,
            Language::Russian => "Русский"@,
            Language::Ukrainian => "Українська"@,
            Language::Polish => "Polski"@,
            Language::PortugueseBrazilian => "Português (Brasil)"@,
        }
    }

    pub fn id(self) -> (id: &'static str)
        ensures
            id@ == self.spec_id(),
    {
        match self {
            Language::English => "en-US",
            Language::German => "de",
            Language::French => "fr",
            Language::Italian => "it",
            Language::Russian => "ru",
            Language::Ukrainian => "uk",
            Language::Polish => "pl",
            Language::PortugueseBrazilian => "pt-BR",
        }
    }

    pub fn label(self) -> (label: &'static str)
        ensures
            label@ == self.spec_label(),
    {
        match self {
            Language::English => "English",
            Language::German => "Deutsch",
            Language::French => "Français",
            Language::Italian => "Italiano",
            Language::Russian => "Русский",
            Language::Ukrainian => "Українська",
            Language::Polish => "Polski",
            Language::PortugueseBrazilian => "Português (Brasil)",
        }
    }
}

/// The language whose identifier is `id`, trying them in lookup order.
pub open spec fn spec_from_id(id: Seq<char>) -> Option<Language> {
    first_with_id(id, 0)
}

/// The first language from position `from` of the lookup order whose identifier is `id`.
pub open spec fn first_with_id(id: Seq<char>, from: nat) -> Option<Language>
    decreases 8 - from,
{
    if from >= 8 {
        None
    } else if all_languages()[from as int].spec_id() == id {
        Some(all_languages()[from as int])
    } else {
        first_with_id(id, from + 1)
    }
}

impl Language {
    pub fn from_id(id: &str) -> (found: Option<Language>)
        ensures
            found == spec_from_id(id@),
    {
        let all = ALL;
        assert(all@ == all_languages());
        let mut index: usize = 0;
        while index < 8
            invariant
                index <= 8,
                all@ == all_languages(),
                spec_from_id(id@) == first_with_id(id@, index as nat),
            decreases 8 - index,
        {
            let language = all[index];
            if same_text(language.id(), id) {
                return Some(language);
            }
            index = index + 1;
        }
        None
    }
}

/// Reveals the characters of every language identifier.
proof fn reveal_ids()
    ensures
        "en-US"@ == seq!['e', 'n', '-', 'U', 'S'],
        "de"@ == seq!['d', 'e'],
        "fr"@ == seq!['f', 'r'],
        "it"@ == seq!['i', 't'],
        "ru"@ == seq!['r', 'u'],
        "uk"@ == seq!['u', 'k'],
        "pl"@ == seq!['p', 'l'],
        "pt-BR"@ == seq!['p', 't', '-', 'B', 'R'],
{
    reveal_strlit("en-US");
    reveal_strlit("de");
    reveal_strlit("fr");
    reveal_strlit("it");
    reveal_strlit("ru");
    reveal_strlit("uk");
    reveal_strlit("pl");
    reveal_strlit("pt-BR");
}

/// No two languages share an identifier.
pub proof fn lemma_ids_distinct(a: Language, b: Language)
    requires
        a != b,
    ensures
        a.spec_id() != b.spec_id(),
{
    reveal_ids();
    if a.spec_id() == b.spec_id() {
        assert(a.spec_id().len() == b.spec_id().len());
        assert(a.spec_id()[0] == b.spec_id()[0]);
        assert(a.spec_id()[1] == b.spec_id()[1]);
    }
}

/// Looking up the identifier of a language gives back that language.
pub proof fn lemma_from_id_of_id(language: Language)
    ensures
        spec_from_id(language.spec_id()) == Some(language),
{
    reveal_ids();
    reveal_with_fuel(first_with_id, 9);
    let id = language.spec_id();
    assert forall|other: Language| other != language implies other.spec_id() != id by {
        lemma_ids_distinct(other, language);
    }
}

/// A lookup that succeeds names the language whose identifier was asked for.
pub proof fn lemma_from_id_found(id: Seq<char>)
    ensures
        spec_from_id(id) matches Some(language) ==> language.spec_id() == id,
        spec_from_id(id) is None ==> forall|language: Language| language.spec_id() != id,
{
    reveal_with_fuel(first_with_id, 9);
    assert forall|language: Language| spec_from_id(id) is None implies language.spec_id() != id by {
        match language {
            Language::English => {},
            Language::German => {},
            Language::French => {},
            Language::Italian => {},
            Language::Russian => {},
            Language::Ukrainian => {},
            Language::Polish => {},
            Language::PortugueseBrazilian => {},
        }
    }
}

/// `sys_locale::get_locale`: the locale the operating system reports, if any. What it
/// returns depends on the machine, so nothing is stated of it.
#[verifier::external_body]
fn system_locale() -> Option<String> {
    sys_locale::get_locale()
}

/// Whether a character separates the primary subtag of a locale tag from the rest.
pub open spec fn is_subtag_separator(letter: char) -> bool {
    letter == '-' || letter == '_'
}

/// The position of the first subtag separator of `tag` at or after `from`, or its length.
pub open spec fn separator_from(tag: Seq<char>, from: nat) -> nat
    decreases tag.len() - from,
{
    if from >= tag.len() {
        tag.len()
    } else if is_subtag_separator(tag[from as int]) {
        from
    } else {
        separator_from(tag, from + 1)
    }
}

/// The primary subtag of a locale tag, lowercased: what comes before the first `-` or `_`.
pub open spec fn spec_base(tag: Seq<char>) -> Seq<char> {
    lowercased(tag.take(separator_from(tag, 0) as int))
}

proof fn lemma_separator_bounded(tag: Seq<char>, from: nat)
    requires
        from <= tag.len(),
    ensures
        from <= separator_from(tag, from) <= tag.len(),
    decreases tag.len() - from,
{
    if from < tag.len() && !is_subtag_separator(tag[from as int]) {
        lemma_separator_bounded(tag, from + 1);
    }
}

/// The primary subtag of `tag`, lowercased.
fn base(tag: &str) -> (primary: String)
    ensures
        primary@ == spec_base(tag@),
{
    let length = tag.unicode_len();
    let mut at: usize = 0;
    proof {
        lemma_separator_bounded(tag@, 0);
    }
    while at < length && !(tag.get_char(at) == '-' || tag.get_char(at) == '_')
        invariant
            length == tag@.len(),
            at <= length,
            separator_from(tag@, 0) == separator_from(tag@, at as nat),
        decreases length - at,
    {
        at = at + 1;
    }
    let prefix = tag.substring_char(0, at);
    assert(prefix@ =~= tag@.take(separator_from(tag@, 0) as int));
    lowercase(prefix)
}

/// The first language from position `from` whose primary subtag matches `primary`.
pub open spec fn first_with_base(primary: Seq<char>, from: nat) -> Option<Language>
    decreases 8 - from,
{
    if from >= 8 {
        None
    } else if spec_base(all_languages()[from as int].spec_id()) == primary {
        Some(all_languages()[from as int])
    } else {
        first_with_base(primary, from + 1)
    }
}

/// The language chosen for a system locale: the first whose primary subtag matches the
/// locale's, English when none does or no locale is known.
pub open spec fn spec_detect_from(locale: Option<Seq<char>>) -> Language {
    match locale {
        None => Language::English,
        Some(tag) => match first_with_base(spec_base(tag), 0) {
            Some(language) => language,
            None => Language::English,
        },
    }
}

/// Chooses the language for the system locale `locale`.
pub fn detect_from(locale: Option<&str>) -> (language: Language)
    ensures
        language == spec_detect_from(match locale {
            Some(tag) => Some(tag@),
            None => None,
        }),
{
    let tag = match locale {
        Some(tag) => tag,
        None => return Language::English,
    };
    assert(locale == Some(tag));
    let primary = base(tag);
    let all = ALL;
    assert(all@ == all_languages());
    let mut index: usize = 0;
    while index < 8
        invariant
            index <= 8,
            all@ == all_languages(),
            primary@ == spec_base(tag@),
            locale == Some(tag),
            first_with_base(spec_base(tag@), 0) == first_with_base(spec_base(tag@), index as nat),
        decreases 8 - index,
    {
        let language = all[index];
        let candidate = base(language.id());
        if same_text(candidate.as_str(), primary.as_str()) {
            assert(language == all_languages()[index as int]);
            assert(first_with_base(spec_base(tag@), index as nat) == Some(language));
            assert(spec_detect_from(Some(tag@)) == language);
            return language;
        }
        index = index + 1;
    }
    Language::English
}

impl Language {
    /// The language for the locale the operating system reports.
    pub fn detect() -> (language: Language)
        ensures
            exists|locale: Option<Seq<char>>| language == spec_detect_from(locale),
    {
        let locale = system_locale();
        let language = match &locale {
            Some(tag) => detect_from(Some(tag.as_str())),
            None => detect_from(None),
        };
        proof {
            match &locale {
                Some(tag) => assert(language == spec_detect_from(Some(tag@))),
                None => assert(language == spec_detect_from(None)),
            }
        }
        language
    }
}

/// The language named by a setting: the one whose identifier it is, or the system's.
pub fn resolve(id: &str) -> (language: Language)
    ensures
        spec_from_id(id@) matches Some(named) ==> language == named,
        spec_from_id(id@) is None ==> exists|locale: Option<Seq<char>>| language == spec_detect_from(locale),
{
    match Language::from_id(id) {
        Some(language) => language,
        None => Language::detect(),
    }
}

/// Whether two strings hold the same characters.
fn same_text(left: &str, right: &str) -> (same: bool)
    ensures
        same == (left@ == right@),
{
    let length = left.unicode_len();
    if length != right.unicode_len() {
        return false;
    }
    let mut index: usize = 0;
    while index < length
        invariant
            length == left@.len(),
            length == right@.len(),
            index <= length,
            forall|k: int| 0 <= k < index ==> left@[k] == right@[k],
        decreases length - index,
    {
        if left.get_char(index) != right.get_char(index) {
            return false;
        }
        index = index + 1;
    }
    assert(left@ =~= right@);
    true
}

} // verus!
