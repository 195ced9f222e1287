//! The target-language table.
//!
//! A closed list, not free text: the picker needs names that the person who wants the
//! subtitles can read, and the translation prompt needs an unambiguous English name.
//!
//! Codes are BCP-47 where a region distinguishes the written form, and bare ISO-639-1
//! otherwise. The code is what lands in the name of the file that is written.

use crate::text;
use vstd::prelude::*;

verus! {

/// The default target when the caller and the settings both say nothing.
pub const DEFAULT_TARGET: &'static str = "en";

/// One offerable subtitle language.
#[derive(Debug, Clone, Copy, PartialEq, Eq)]
pub struct Language {
    /// BCP-47 tag. Also the infix of the file name.
    pub code: &'static str,
    /// English name: what the translation prompt names.
    pub name: &'static str,
    /// Endonym: what the picker shows.
    pub native: &'static str,
}

/// A row of the table.
pub open spec fn row(code: &'static str, name: &'static str, native: &'static str) -> Language {
    Language { code, name, native }
}

fn row_of(code: &'static str, name: &'static str, native: &'static str) -> (r: Language)
    ensures
        r == row(code, name, native),
{
    Language { code, name, native }
}

/// Every language that can be translated into.
pub open spec fn language_table() -> Seq<Language> {
    seq![
        row("en", "English", "English"),
        row("es", "Spanish", "Español"),
        row("fr", "French", "Français"),
        row("de", "German", "Deutsch"),
        row("it", "Italian", "Italiano"),
        row("pt-BR", "Brazilian Portuguese", "Português (Brasil)"),
        row("pt", "European Portuguese", "Português (Portugal)"),
        row("nl", "Dutch", "Nederlands"),
        row("pl", "Polish", "Polski"),
        row("ru", "Russian", "Русский"),
        row("uk", "Ukrainian", "Українська"),
        row("tr", "Turkish", "Türkçe"),
        row("ar", "Arabic", "العربية"),
        row("he", "Hebrew", "עברית"),
        row("fa", "Persian", "فارسی"),
        row("hi", "Hindi", "हिन्दी"),
        row("bn", "Bengali", "বাংলা"),
        row("ta", "Tamil", "தமிழ்"),
        row("th", "Thai", "ไทย"),
        row("vi", "Vietnamese", "Tiếng Việt"),
        row("id", "Indonesian", "Bahasa Indonesia"),
        row("ms", "Malay", "Bahasa Melayu"),
        row("ja", "Japanese", "日本語"),
        row("ko", "Korean", "한국어"),
        row("zh-Hans", "Simplified Chinese", "简体中文"),
        row("zh-Hant", "Traditional Chinese", "繁體中文"),
        row("sv", "Swedish", "Svenska"),
        row("no", "Norwegian", "Norsk"),
        row("da", "Danish", "Dansk"),
        row("fi", "Finnish", "Suomi"),
        row("cs", "Czech", "Čeština"),
        row("el", "Greek", "Ελληνικά"),
        row("ro", "Romanian", "Română"),
        row("hu", "Hungarian", "Magyar"),
    ]
}

/// Every language that can be translated into.
pub fn languages() -> (r: Vec<Language>)
    ensures
        r@ == language_table(),
{
    let r: Vec<Language> = vec![
        row_of("en", "English", "English"),
        row_of("es", "Spanish", "Español"),
        row_of("fr", "French", "Français"),
        row_of("de", "German", "Deutsch"),
        row_of("it", "Italian", "Italiano"),
        row_of("pt-BR", "Brazilian Portuguese", "Português (Brasil)"),
        row_of("pt", "European Portuguese", "Português (Portugal)"),
        row_of("nl", "Dutch", "Nederlands"),
        row_of("pl", "Polish", "Polski"),
        row_of("ru", "Russian", "Русский"),
        row_of("uk", "Ukrainian", "Українська"),
        row_of("tr", "Turkish", "Türkçe"),
        row_of("ar", "Arabic", "العربية"),
        row_of("he", "Hebrew", "עברית"),
        row_of("fa", "Persian", "فارسی"),
        row_of("hi", "Hindi", "हिन्दी"),
        row_of("bn", "Bengali", "বাংলা"),
        row_of("ta", "Tamil", "தமிழ்"),
        row_of("th", "Thai", "ไทย"),
        row_of("vi", "Vietnamese", "Tiếng Việt"),
        row_of("id", "Indonesian", "Bahasa Indonesia"),
        row_of("ms", "Malay", "Bahasa Melayu"),
        row_of("ja", "Japanese", "日本語"),
        row_of("ko", "Korean", "한국어"),
        row_of("zh-Hans", "Simplified Chinese", "简体中文"),
        row_of("zh-Hant", "Traditional Chinese", "繁體中文"),
        row_of("sv", "Swedish", "Svenska"),
        row_of("no", "Norwegian", "Norsk"),
        row_of("da", "Danish", "Dansk"),
        row_of("fi", "Finnish", "Suomi"),
        row_of("cs", "Czech", "Čeština"),
        row_of("el", "Greek", "Ελληνικά"),
        row_of("ro", "Romanian", "Română"),
        row_of("hu", "Hungarian", "Magyar"),
    ];
    assert(r@ =~= language_table());
    r
}

/// Whether `code` stands for `l`, whatever its case and the whitespace around it.
pub open spec fn names(code: Seq<char>, l: Language) -> bool {
    text::ascii_lower(l.code@) == text::ascii_lower(text::trim(code))
}

/// The first language from row `i` on that `code` stands for.
pub open spec fn named_from(code: Seq<char>, i: int) -> Option<Language>
    decreases language_table().len() - i,
{
    if i < 0 || i >= language_table().len() {
        None
    } else if names(code, language_table()[i]) {
        Some(language_table()[i])
    } else {
        named_from(code, i + 1)
    }
}

/// The language that `code` stands for.
pub open spec fn lookup(code: Seq<char>) -> Option<Language> {
    named_from(code, 0)
}

/// Looks a language up by its code, whatever its case. An unknown code must never reach the
/// prompt, where it would become a translation into whatever the model felt like.
#[must_use]
pub fn find(code: &str) -> (r: Option<Language>)
    ensures
        r == lookup(code@),
{
    let wanted = text::ascii_lower_of(text::trimmed(code).as_slice());
    let table = languages();
    let mut i: usize = 0;
    while i < table.len()
        invariant
            i <= table@.len(),
            table@ == language_table(),
            wanted@ == text::ascii_lower(text::trim(code@)),
            lookup(code@) == named_from(code@, i as int),
        decreases table@.len() - i,
    {
        let l = table[i];
        let own = text::ascii_lower_of(text::chars_of(l.code).as_slice());
        if text::same(own.as_slice(), wanted.as_slice()) {
            return Some(l);
        }
        i += 1;
    }
    None
}

/// A number that tells codes apart whatever their case: made of the first two characters,
/// the last one, and the length.
spec fn fingerprint(code: Seq<char>) -> int {
    let c = text::ascii_lower(code);
    c[0] as int * 0x100_0000 + c[1] as int * 0x1_0000 + c.last() as int * 0x100 + c.len()
}

/// The fingerprints of the table, row by row.
spec fn fingerprints() -> Seq<int> {
    seq![
        1701735938,
        1702064898,
        1718776322,
        1684366594,
        1769239554,
        1886679557,
        1886680066,
        1852599298,
        1886153730,
        1920300290,
        1969974018,
        1953657346,
        1634890242,
        1751475458,
        1717657858,
        1751738626,
        1651404290,
        1952538882,
        1952999426,
        1986619650,
        1768186882,
        1836282626,
        1784766722,
        1802465026,
        2053665543,
        2053665799,
        1937143298,
        1852796674,
        1684103426,
        1718184194,
        1668510466,
        1701604354,
        1919905538,
        1752528130,
    ]
}

proof fn lemma_fingerprints()
    ensures
        language_table().len() == fingerprints().len(),
        forall|i: int|
            0 <= i < fingerprints().len() ==> fingerprint((#[trigger] language_table()[i]).code@)
                == fingerprints()[i],
{
    reveal_strlit("en");
    reveal_strlit("es");
    reveal_strlit("fr");
    reveal_strlit("de");
    reveal_strlit("it");
    reveal_strlit("pt-BR");
    reveal_strlit("pt");
    reveal_strlit("nl");
    reveal_strlit("pl");
    reveal_strlit("ru");
    reveal_strlit("uk");
    reveal_strlit("tr");
    reveal_strlit("ar");
    reveal_strlit("he");
    reveal_strlit("fa");
    reveal_strlit("hi");
    reveal_strlit("bn");
    reveal_strlit("ta");
    reveal_strlit("th");
    reveal_strlit("vi");
    reveal_strlit("id");
    reveal_strlit("ms");
    reveal_strlit("ja");
    reveal_strlit("ko");
    reveal_strlit("zh-Hans");
    reveal_strlit("zh-Hant");
    reveal_strlit("sv");
    reveal_strlit("no");
    reveal_strlit("da");
    reveal_strlit("fi");
    reveal_strlit("cs");
    reveal_strlit("el");
    reveal_strlit("ro");
    reveal_strlit("hu");
    let got = language_table().map_values(|l: Language| fingerprint(l.code@));
    assert(got =~= fingerprints());
    assert forall|i: int| 0 <= i < fingerprints().len() implies fingerprint(
        (#[trigger] language_table()[i]).code@,
    ) == fingerprints()[i] by {
        assert(got[i] == fingerprint(language_table()[i].code@));
    }
}

/// No two languages share a code, whatever its case.
pub proof fn codes_are_unique(i: int, j: int)
    requires
        0 <= i < language_table().len(),
        0 <= j < language_table().len(),
        i != j,
    ensures
        text::ascii_lower(language_table()[i].code@) != text::ascii_lower(
            language_table()[j].code@,
        ),
{
    lemma_fingerprints();
    assert(fingerprints()[i] != fingerprints()[j]);
    assert(fingerprint(language_table()[i].code@) == fingerprints()[i]);
    assert(fingerprint(language_table()[j].code@) == fingerprints()[j]);
}

proof fn lemma_named_from(code: Seq<char>, from: int, i: int)
    requires
        0 <= from <= i < language_table().len(),
        names(code, language_table()[i]),
        forall|j: int| from <= j < i ==> !names(code, #[trigger] language_table()[j]),
    ensures
        named_from(code, from) == Some(language_table()[i]),
    decreases i - from,
{
    if from < i {
        assert(!names(code, language_table()[from]));
        lemma_named_from(code, from + 1, i);
    }
}

/// Every language is found by its own code, in any case and with whitespace around it.
pub proof fn every_code_finds_its_language(code: Seq<char>, i: int)
    requires
        0 <= i < language_table().len(),
        names(code, language_table()[i]),
    ensures
        lookup(code) == Some(language_table()[i]),
{
    assert forall|j: int| 0 <= j < i implies !names(code, #[trigger] language_table()[j]) by {
        codes_are_unique(i, j);
    }
    lemma_named_from(code, 0, i);
}

/// What is found is a row of the table, and only what no row stands for is not found.
pub proof fn lookup_is_closed(code: Seq<char>)
    ensures
        match lookup(code) {
            Some(l) => names(code, l) && language_table().contains(l),
            None => forall|j: int|
                0 <= j < language_table().len() ==> !names(
                    code,
                    #[trigger] language_table()[j],
                ),
        },
{
    lemma_closed_from(code, 0);
}

proof fn lemma_closed_from(code: Seq<char>, i: int)
    requires
        0 <= i <= language_table().len(),
    ensures
        match named_from(code, i) {
            Some(l) => names(code, l) && language_table().contains(l),
            None => forall|j: int|
                i <= j < language_table().len() ==> !names(
                    code,
                    #[trigger] language_table()[j],
                ),
        },
    decreases language_table().len() - i,
{
    if i < language_table().len() {
        lemma_closed_from(code, i + 1);
    }
}

/// The default target is one of the languages.
pub proof fn the_default_target_is_a_language()
    ensures
        lookup(DEFAULT_TARGET@) == Some(language_table()[0]),
{
    reveal_strlit("en");
    assert(language_table()[0].code@ == "en"@);
    text::lemma_trim_fixed("en"@);
    every_code_finds_its_language("en"@, 0);
}

/// A language is found by exactly the texts that are its code once the whitespace around them is
/// dropped and capitals are lowered.
pub proof fn a_language_is_found_by_its_code(code: Seq<char>, i: int)
    requires
        0 <= i < language_table().len(),
    ensures
        lookup(code) == Some(language_table()[i]) <==> text::ascii_lower(text::trim(code))
            == text::ascii_lower(language_table()[i].code@),
        lookup(code) matches Some(l) ==> text::ascii_lower(text::trim(code)) == text::ascii_lower(
            l.code@,
        ),
        lookup(code) is None ==> text::ascii_lower(text::trim(code)) != text::ascii_lower(
            language_table()[i].code@,
        ),
{
    lookup_is_closed(code);
    if names(code, language_table()[i]) {
        every_code_finds_its_language(code, i);
    }
}

/// A row holds its code, its English name and its own name, each in its place.
pub proof fn a_row_holds_its_names(code: &'static str, name: &'static str, native: &'static str)
    ensures
        row(code, name, native).code@ == code@,
        row(code, name, native).name@ == name@,
        row(code, name, native).native@ == native@,
{
}

} // verus!
