use makemessages::plural_forms::{plural_forms_for, DEFAULT_PLURAL_FORMS, PLURAL_FORMS};

#[test]
fn test_table_is_sorted_for_binary_search() {
    let mut sorted = PLURAL_FORMS.to_vec();
    sorted.sort_by(|a, b| a.0.cmp(b.0));
    assert_eq!(sorted, PLURAL_FORMS.to_vec());
}

#[test]
fn test_cjk_locales_have_one_plural() {
    for locale in ["ja", "ko", "zh_Hans", "zh_Hant"] {
        assert_eq!(
            plural_forms_for(locale),
            "nplurals=1; plural=0;",
            "wrong plural forms for {locale}"
        );
    }
}

#[test]
fn test_french_uses_greater_than_one() {
    assert_eq!(plural_forms_for("fr"), "nplurals=2; plural=(n > 1);");
}

#[test]
fn test_falls_back_to_base_language() {
    // pt_PT is not in Django's catalog set; pt is.
    assert_eq!(plural_forms_for("pt_PT"), plural_forms_for("pt"));
}

#[test]
fn test_unknown_locale_uses_default() {
    assert_eq!(plural_forms_for("xx_YY"), DEFAULT_PLURAL_FORMS);
}
