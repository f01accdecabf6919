use makemessages::extractor::TranslationEntry;
use makemessages::po::LocationMode;
use makemessages::run::{
    catalog_file_text, catalog_path, check_run_options, extensions_for, group_by_locale_dir,
    ignore_patterns_for, location_mode_for, out_of_sync, relative_references, should_write,
};

fn strings(v: &[&str]) -> Vec<String> {
    v.iter().map(|s| s.to_string()).collect()
}

fn msg(id: &str, reference: &str) -> TranslationEntry {
    TranslationEntry {
        msgid: id.to_string(),
        msgid_plural: None,
        msgctxt: None,
        references: vec![reference.to_string()],
        comments: Vec::new(),
    }
}

#[test]
fn a_locale_selector_is_required() {
    let err = check_run_options(&Vec::new(), &Vec::new(), false, "django").unwrap_err();
    assert!(err.contains("at least one of"));
    assert!(check_run_options(&Vec::new(), &Vec::new(), true, "django").is_ok());
    assert!(check_run_options(&Vec::new(), &strings(&["fr"]), false, "djangojs").is_ok());
}

#[test]
fn unknown_domain_is_rejected() {
    let err = check_run_options(&strings(&["en"]), &Vec::new(), false, "nope").unwrap_err();
    assert!(err.contains("domain"));
}

#[test]
fn extensions_default_by_domain() {
    assert_eq!(extensions_for("django", &Vec::new()), strings(&["html", "txt", "py"]));
    assert_eq!(extensions_for("djangojs", &Vec::new()), strings(&["js"]));
    assert_eq!(extensions_for("djangojs", &strings(&["ts"])), strings(&["ts"]));
}

#[test]
fn default_ignores_are_added_once() {
    assert_eq!(
        ignore_patterns_for(&strings(&["vendor", "CVS"]), false),
        strings(&["vendor", "CVS", ".*", "*~", "*.pyc"])
    );
    assert_eq!(ignore_patterns_for(&strings(&["vendor"]), true), strings(&["vendor"]));
}

#[test]
fn no_location_wins_over_add_location() {
    assert_eq!(location_mode_for(true, Some(LocationMode::File)), LocationMode::Never);
    assert_eq!(location_mode_for(false, Some(LocationMode::File)), LocationMode::File);
    assert_eq!(location_mode_for(false, None), LocationMode::Full);
}

#[test]
fn sync_check_compares_with_the_file_text() {
    let text = catalog_file_text("msgid \"\"");
    assert_eq!(text, "msgid \"\"\n");
    assert!(!out_of_sync(Some("msgid \"\"\n"), &text));
    assert!(out_of_sync(Some("msgid \"\""), &text));
    assert!(out_of_sync(None, &text));
}

#[test]
fn empty_catalogs_need_force_po() {
    assert!(!should_write(0, false));
    assert!(should_write(0, true));
    assert!(should_write(3, false));
}

#[test]
fn references_become_relative_to_the_root() {
    let es = relative_references(vec![msg("a", "/p/app/v.py:3")], "/p/app/v.py", "/p");
    assert_eq!(es[0].references, vec!["app/v.py:3".to_string()]);
    let es = relative_references(vec![msg("a", "/q/v.py:3")], "/q/v.py", "/p");
    assert_eq!(es[0].references, vec!["/q/v.py:3".to_string()]);
}

#[test]
fn groups_follow_path_order_and_merge_same_dirs() {
    let groups = group_by_locale_dir(vec![
        ("/p/locale".to_string(), vec![msg("b", "b.py:1")]),
        ("/p/appA/locale".to_string(), vec![msg("a", "a.py:1")]),
        ("/p/locale/".to_string(), vec![msg("c", "c.py:1")]),
    ]);
    let dirs: Vec<&str> = groups.iter().map(|g| g.0.as_str()).collect();
    assert_eq!(dirs, vec!["/p/appA/locale", "/p/locale"]);
    let ids: Vec<&str> = groups[1].1.iter().map(|e| e.msgid.as_str()).collect();
    assert_eq!(ids, vec!["b", "c"]);
}

#[test]
fn catalog_paths_join_the_parts() {
    assert_eq!(
        catalog_path("/p/locale", "en", "djangojs"),
        "/p/locale/en/LC_MESSAGES/djangojs.po"
    );
}
