use ryu_subtitles::languages::{find, languages, DEFAULT_TARGET};

#[test]
fn lookup_is_case_insensitive_and_closed() {
    assert_eq!(find("ES").map(|l| l.name), Some("Spanish"));
    assert_eq!(find("zh-hans").map(|l| l.code), Some("zh-Hans"));
    assert!(find("klingon").is_none());
    assert!(find("").is_none());
}

#[test]
fn the_default_target_resolves() {
    assert!(find(DEFAULT_TARGET).is_some());
}

#[test]
fn codes_are_unique_and_names_disambiguate_regional_variants() {
    let table = languages();
    let mut codes: Vec<&str> = table.iter().map(|l| l.code).collect();
    codes.sort_unstable();
    let before = codes.len();
    codes.dedup();
    assert_eq!(before, codes.len(), "duplicate language code");

    assert_eq!(find("pt-BR").map(|l| l.name), Some("Brazilian Portuguese"));
    assert_eq!(find("pt").map(|l| l.name), Some("European Portuguese"));
}

#[test]
fn every_code_finds_its_own_row() {
    for language in languages() {
        assert_eq!(find(language.code), Some(language));
        assert_eq!(find(&format!("  {} ", language.code.to_uppercase())), Some(language));
    }
}
