use makemessages::keywords::{argnums_for, default_keywords, detect_aliases, Keyword};

#[test]
fn test_detect_simple_alias() {
    let ks = detect_aliases("from django.utils.translation import gettext as _\n");
    assert_eq!(ks.len(), 1);
    assert_eq!(ks[0].name, "_");
    assert_eq!(ks[0].msgid, 1);
}

#[test]
fn test_detect_alias_keeps_argnums() {
    let ks = detect_aliases("from django.utils.translation import pgettext_lazy as pl\n");
    assert_eq!(ks[0].name, "pl");
    assert_eq!(ks[0].context, Some(1));
    assert_eq!(ks[0].msgid, 2);
}

#[test]
fn test_detect_multiple_and_parenthesized() {
    let src =
        "from django.utils.translation import (\n    gettext as g,\n    ngettext as ng,\n)\n";
    let names: Vec<String> = detect_aliases(src).iter().map(|k| k.name.clone()).collect();
    assert_eq!(names, vec!["g", "ng"]);
}

#[test]
fn test_plain_import_is_not_an_alias() {
    assert!(detect_aliases("from django.utils.translation import gettext\n").is_empty());
}

#[test]
fn test_other_module_ignored() {
    assert!(detect_aliases("from mymod import gettext as _\n").is_empty());
}

#[test]
fn test_bare_name() {
    let k = Keyword::parse("_").unwrap();
    assert_eq!(k.name, "_");
    assert_eq!(k.msgid, 1);
    assert_eq!(k.plural, None);
    assert_eq!(k.context, None);
}

#[test]
fn test_plural_spec() {
    let k = Keyword::parse("ngettext:1,2").unwrap();
    assert_eq!(k.msgid, 1);
    assert_eq!(k.plural, Some(2));
    assert_eq!(k.context, None);
}

#[test]
fn test_context_spec() {
    let k = Keyword::parse("pgettext:1c,2").unwrap();
    assert_eq!(k.context, Some(1));
    assert_eq!(k.msgid, 2);
    assert_eq!(k.plural, None);
}

#[test]
fn test_context_plural_spec() {
    let k = Keyword::parse("npgettext:1c,2,3").unwrap();
    assert_eq!(k.context, Some(1));
    assert_eq!(k.msgid, 2);
    assert_eq!(k.plural, Some(3));
}

#[test]
fn test_non_first_msgid() {
    let k = Keyword::parse("mylog:2").unwrap();
    assert_eq!(k.msgid, 2);
}

#[test]
fn test_total_count_suffix_ignored() {
    let k = Keyword::parse("dngettext:2,3,4t").unwrap();
    assert_eq!(k.msgid, 2);
    assert_eq!(k.plural, Some(3));
}

#[test]
fn test_malformed_specs_rejected() {
    assert!(Keyword::parse(":1").is_none());
    assert!(Keyword::parse("name:x").is_none());
    assert!(Keyword::parse("name:1c").is_none());
}

#[test]
fn test_argnums_match_django() {
    assert_eq!(argnums_for("gettext_lazy"), Some("1"));
    assert_eq!(argnums_for("ngettext_lazy"), Some("1,2"));
    assert_eq!(argnums_for("pgettext_lazy"), Some("1c,2"));
    assert_eq!(argnums_for("npgettext_lazy"), Some("1c,2,3"));
    assert_eq!(argnums_for("not_a_gettext_fn"), None);
}

#[test]
fn test_djangojs_omits_lazy_context_variants() {
    let js: Vec<String> = default_keywords(true)
        .iter()
        .map(|k| k.name.clone())
        .collect();
    assert!(!js.contains(&"pgettext_lazy".to_string()));
    let py: Vec<String> = default_keywords(false)
        .iter()
        .map(|k| k.name.clone())
        .collect();
    assert!(py.contains(&"pgettext_lazy".to_string()));
}

#[test]
fn simple_keyword_takes_the_first_argument() {
    let k = Keyword::simple("t");
    assert_eq!(k.name, "t");
    assert_eq!(k.msgid, 1);
    assert_eq!(k.plural, None);
    assert_eq!(k.context, None);
    assert_eq!(Keyword::parse("t"), Some(k));
}
