use makemessages::locales::{existing_locales, is_valid_locale, resolve_locales, suggest_locale};

#[test]
fn test_valid_locales() {
    for l in ["en", "fr", "en_GB", "zh_Hant", "sr_Latn", "nl_NL", "es_419"] {
        assert!(is_valid_locale(l), "{l} should be valid");
    }
}

#[test]
fn test_invalid_locales() {
    for l in ["en-gb", "EN", "en_gb", "", "En"] {
        assert!(!is_valid_locale(l), "{l} should be invalid");
    }
}

#[test]
fn test_suggests_canonical_form() {
    assert_eq!(suggest_locale("en-gb").as_deref(), Some("en_GB"));
    assert_eq!(suggest_locale("pt-br").as_deref(), Some("pt_BR"));
}

#[test]
fn test_suggestion_keeps_tail_after_two_chars() {
    assert_eq!(
        suggest_locale("nl-nl-x-informal").as_deref(),
        Some("nl_NL-x-informal")
    );
}

#[test]
fn suggestion_needs_both_parts() {
    assert_eq!(suggest_locale("en"), None);
    assert_eq!(suggest_locale("-gb"), None);
    assert_eq!(suggest_locale("en-"), None);
    assert_eq!(suggest_locale("EN-g"), Some("en_G".to_string()));
}

#[test]
fn existing_locales_keep_two_lowercase_letters_sorted() {
    let names: Vec<String> = ["fr", "en_GB", "CVS", "de", "x", "zh_Hant", ".git"]
        .iter()
        .map(|s| s.to_string())
        .collect();
    assert_eq!(existing_locales(&names), vec!["de", "en_GB", "fr", "zh_Hant"]);
}

#[test]
fn resolve_reports_invalid_with_suggestion() {
    let locales = vec!["en-gb".to_string(), "en".to_string(), "EN".to_string()];
    let (valid, warnings) = resolve_locales(false, &locales, &Vec::new(), &Vec::new());
    assert_eq!(valid, vec!["en"]);
    assert_eq!(
        warnings,
        vec![
            "invalid locale en-gb, did you mean en_GB?".to_string(),
            "invalid locale EN".to_string()
        ]
    );
}

#[test]
fn resolve_all_ignores_exclude() {
    let existing = vec!["de".to_string(), "fr".to_string()];
    let exclude = vec!["fr".to_string()];
    let (valid, _) = resolve_locales(true, &Vec::new(), &exclude, &existing);
    assert_eq!(valid, vec!["de", "fr"]);
    let (valid, _) = resolve_locales(false, &Vec::new(), &exclude, &existing);
    assert_eq!(valid, vec!["de"]);
}

#[test]
fn selection_and_suggestion_guard() {
    let given = vec!["fr".to_string(), "en-gb".to_string()];
    let exclude = vec!["fr".to_string()];
    let existing = vec!["de".to_string()];
    let sel = makemessages::locales::select_locales(false, &given, &exclude, &existing);
    assert_eq!(sel, vec!["en-gb".to_string()]);
    let sel = makemessages::locales::select_locales(true, &given, &exclude, &existing);
    assert_eq!(sel, vec!["de".to_string()]);
    let sel = makemessages::locales::select_locales(false, &Vec::new(), &exclude, &existing);
    assert_eq!(sel, vec!["de".to_string()]);
    assert!(makemessages::locales::suggestion_is_defined("en-gb"));
    assert!(makemessages::locales::suggestion_is_defined("english"));
    assert!(!makemessages::locales::suggestion_is_defined("en\u{e9}gb"));
}
