use protests::localizer::{
    for_language, extract_language, Localizer, LocaleSource, LocalizerError,
};

fn source(tag: &str, text: &str) -> LocaleSource {
    LocaleSource { tag: tag.to_string(), text: text.to_string() }
}

fn localizer() -> Localizer {
    Localizer::new(vec![
        source("sk", "title = Protesty\nlogin = Prihlásiť\n"),
        source("en-us", "title = Protests\nonly-attr =\n    .label = Label\n"),
    ])
    .unwrap()
}

#[test]
fn texts_are_looked_up_by_language_and_key() {
    let l = localizer();
    let sk = for_language(&l, "sk".to_string());
    assert_eq!(sk.translate("title"), "Protesty");
    assert_eq!(sk.translate("login"), "Prihlásiť");
    assert_eq!(sk.language(), "sk");
}

#[test]
fn languages_are_named_by_their_canonical_tag() {
    let l = localizer();
    assert!(l.has_language("en-US"));
    assert!(!l.has_language("en-us"));
    assert!(!l.has_language("de"));
    let en = for_language(&l, "en-US".to_string());
    assert_eq!(en.translate("title"), "Protests");
}

#[test]
fn missing_texts_are_none() {
    let l = localizer();
    let en = for_language(&l, "en-US".to_string());
    assert_eq!(en.try_translate("login"), None);
    assert_eq!(en.try_translate("only-attr"), None);
    assert_eq!(en.try_translate("title"), Some("Protests".to_string()));
}

#[test]
fn a_later_source_of_a_language_replaces_an_earlier_one() {
    let l = Localizer::new(vec![source("sk", "a = 1\n"), source("sk", "b = 2\n")]).unwrap();
    let sk = for_language(&l, "sk".to_string());
    assert_eq!(sk.try_translate("a"), None);
    assert_eq!(sk.try_translate("b"), Some("2".to_string()));
}

#[test]
fn a_bad_language_tag_is_refused() {
    let r = Localizer::new(vec![source("sk", "a = 1\n"), source("not a tag!", "a = 1\n")]);
    assert_eq!(r.err(), Some(LocalizerError::InvalidLanguage { index: 1 }));
}

#[test]
fn bad_fluent_source_is_refused() {
    let r = Localizer::new(vec![source("sk", "= no id\n")]);
    assert_eq!(r.err(), Some(LocalizerError::InvalidResource { index: 0 }));
}

#[test]
fn conflicting_entries_are_refused() {
    let r = Localizer::new(vec![source("sk", "a = 1\na = 2\n")]);
    assert_eq!(r.err(), Some(LocalizerError::ConflictingEntries { index: 0 }));
}

#[test]
fn the_language_of_the_cookie_is_used() {
    let l = localizer();
    let (lang, t) = extract_language(&l, None);
    assert_eq!(lang, "sk");
    assert_eq!(t.translate("title"), "Protesty");
    let (lang, t) = extract_language(&l, Some("en-US".to_string()));
    assert_eq!(lang, "en-US");
    assert_eq!(t.translate("title"), "Protests");
}

#[test]
fn each_language_holds_the_messages_of_its_last_source() {
    let l = Localizer::new(vec![
        source("en", "greeting = Hello\n"),
        source("sk", "greeting = Ahoj\nbye = Zbohom\n"),
        source("en", "greeting = Hi\n"),
    ])
    .unwrap();
    let en = for_language(&l, "en".to_string());
    assert_eq!(en.try_translate("greeting"), Some("Hi".to_string()));
    let sk = for_language(&l, "sk".to_string());
    assert_eq!(sk.try_translate("greeting"), Some("Ahoj".to_string()));
    assert_eq!(sk.try_translate("bye"), Some("Zbohom".to_string()));
}

#[test]
fn a_conflict_in_a_later_source_is_reported_at_its_index() {
    let r = Localizer::new(vec![source("sk", "a = 1\n"), source("en", "b = 1\nb = 2\n")]);
    assert_eq!(r.err(), Some(LocalizerError::ConflictingEntries { index: 1 }));
}

#[test]
fn no_sources_give_no_languages() {
    let l = Localizer::new(Vec::new()).unwrap();
    assert!(!l.has_language("sk"));
}
