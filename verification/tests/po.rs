use makemessages::extractor::TranslationEntry;
use makemessages::po::{
    format_entry, format_po_string, merge_entries, parse_po_file, parse_po_string, untranslated_messages,
    LocationMode, PoEntry, PoFileOptions,
};

#[test]
fn test_parse_simple_po() {
    let content = r#"
msgid ""
msgstr ""
"Content-Type: text/plain; charset=UTF-8\n"

#: views.py:10
msgid "Hello"
msgstr "你好"

#: views.py:20
msgid "Goodbye"
msgstr ""
"#;
    let entries = parse_po_file(content);
    assert_eq!(entries.len(), 2);
    assert_eq!(entries.get("Hello").unwrap().msgstr[0], "你好");
    assert!(entries.get("Goodbye").unwrap().msgstr[0].is_empty());
}

#[test]
fn test_merge_preserves_translations() {
    let existing = r#"msgid ""
msgstr ""
"Language: zh_Hant\n"

#: old.py:1
msgid "Hello"
msgstr "你好"
"#;
    let extracted = vec![TranslationEntry {
        msgid: "Hello".to_string(),
        msgid_plural: None,
        msgctxt: None,
        references: vec!["new.py:5".to_string()],
        comments: Vec::new(),
    }];
    let options = PoFileOptions {
        location_mode: LocationMode::Full,
        no_obsolete: true,
        no_wrap: true,
        sort_output: true,
        no_fuzzy_matching: true,
        no_flags: false,
        keep_header: true,
        no_flag: Vec::new(),
        width: None,
    };
    let result = merge_entries(&extracted, Some(existing), "zh_Hant", &options);
    assert!(result.contains("你好"));
    assert!(result.contains("new.py:5"));
    assert!(!result.contains("old.py:1"));
}

#[test]
fn test_format_po_string_simple() {
    assert_eq!(format_po_string("msgid", "Hello"), r#"msgid "Hello""#);
}

fn test_opts(
    location_mode: LocationMode,
    no_flags: bool,
    sort_output: bool,
    no_wrap: bool,
) -> PoFileOptions {
    PoFileOptions {
        location_mode,
        no_flags,
        sort_output,
        no_wrap,
        no_obsolete: false,
        no_fuzzy_matching: false,
        keep_header: false,
        no_flag: Vec::new(),
        width: None,
    }
}

fn make_entry(refs: Vec<&str>) -> PoEntry {
    PoEntry {
        comments: Vec::new(),
        references: refs.into_iter().map(String::from).collect(),
        flags: Vec::new(),
        msgctxt: None,
        msgid: "x".to_string(),
        msgid_plural: None,
        msgstr: vec![String::new()],
        obsolete: false,
    }
}

#[test]
fn test_wrap_references_short_fits_one_line() {
    let entry = make_entry(vec!["a.py:1", "b.py:2"]);
    let out = format_entry(&entry, &test_opts(LocationMode::Full, false, false, false));
    let ref_lines: Vec<&str> = out.lines().filter(|l| l.starts_with("#:")).collect();
    assert_eq!(ref_lines, vec!["#: a.py:1 b.py:2"]);
}

#[test]
fn test_wrap_references_breaks_at_80() {
    let refs: Vec<&str> = vec![
        "aaaa.py:1",
        "aaaa.py:2",
        "aaaa.py:3",
        "aaaa.py:4",
        "aaaa.py:5",
        "aaaa.py:6",
        "aaaa.py:7",
        "aaaa.py:8",
    ];
    let entry = make_entry(refs);
    let out = format_entry(&entry, &test_opts(LocationMode::Full, false, false, false));
    let ref_lines: Vec<&str> = out.lines().filter(|l| l.starts_with("#:")).collect();
    assert_eq!(ref_lines.len(), 2);
    for l in &ref_lines {
        assert!(l.len() < 80, "line too long: {} ({})", l, l.len());
    }
}

#[test]
fn test_wrap_references_exact_80_wraps() {
    let long_ref = format!("a/{}.py:1", "x".repeat(70));
    assert_eq!(long_ref.len(), 77);
    let entry = make_entry(vec!["a.py:1", &long_ref]);
    let out = format_entry(&entry, &test_opts(LocationMode::Full, false, false, false));
    let ref_lines: Vec<&str> = out.lines().filter(|l| l.starts_with("#:")).collect();
    assert_eq!(ref_lines.len(), 2);
    assert_eq!(ref_lines[0], "#: a.py:1");
    assert_eq!(ref_lines[1], format!("#: {long_ref}"));
}

#[test]
fn test_no_wrap_keeps_single_line() {
    let refs: Vec<&str> = vec![
        "aaaa.py:1",
        "aaaa.py:2",
        "aaaa.py:3",
        "aaaa.py:4",
        "aaaa.py:5",
        "aaaa.py:6",
        "aaaa.py:7",
        "aaaa.py:8",
    ];
    let entry = make_entry(refs);
    let out = format_entry(&entry, &test_opts(LocationMode::Full, false, false, true));
    let ref_lines: Vec<&str> = out.lines().filter(|l| l.starts_with("#:")).collect();
    assert_eq!(ref_lines.len(), 1);
    assert!(ref_lines[0].len() > 80);
}

#[test]
fn test_location_mode_file_strips_line_numbers_and_dedups() {
    let entry = make_entry(vec!["a.py:1", "a.py:2", "b.py:3"]);
    let out = format_entry(&entry, &test_opts(LocationMode::File, false, false, true));
    let ref_lines: Vec<&str> = out.lines().filter(|l| l.starts_with("#:")).collect();
    assert_eq!(ref_lines, vec!["#: a.py b.py"]);
}

#[test]
fn test_location_mode_never_omits_location_line() {
    let entry = make_entry(vec!["a.py:1"]);
    let out = format_entry(&entry, &test_opts(LocationMode::Never, false, false, true));
    assert!(!out.lines().any(|l| l.starts_with("#:")));
}

fn opts(no_obsolete: bool) -> PoFileOptions {
    PoFileOptions {
        location_mode: LocationMode::Never,
        no_obsolete,
        no_wrap: true,
        sort_output: true,
        no_fuzzy_matching: true,
        no_flags: false,
        keep_header: true,
        no_flag: Vec::new(),
        width: None,
    }
}

fn entry(msgid: &str) -> TranslationEntry {
    TranslationEntry {
        msgid: msgid.to_string(),
        msgid_plural: None,
        msgctxt: None,
        references: vec!["a.py:1".to_string()],
        comments: Vec::new(),
    }
}

const EXISTING: &str = r#"msgid ""
msgstr ""
"Language: en\n"

msgid "Kept"
msgstr "translated kept"

msgid "Gone"
msgstr "precious translation"
"#;

#[test]
fn test_obsolete_entry_is_preserved() {
    let out = merge_entries(&[entry("Kept")], Some(EXISTING), "en", &opts(false));
    assert!(out.contains(r#"#~ msgid "Gone""#), "missing obsolete block:\n{out}");
    assert!(out.contains(r#"#~ msgstr "precious translation""#));
    assert!(out.contains(r#"msgid "Kept""#));
}

#[test]
fn test_no_obsolete_drops_entry() {
    let out = merge_entries(&[entry("Kept")], Some(EXISTING), "en", &opts(true));
    assert!(!out.contains("Gone"), "obsolete entry should be gone:\n{out}");
}

#[test]
fn test_untranslated_obsolete_is_not_kept() {
    let existing = "msgid \"\"\nmsgstr \"\"\n\nmsgid \"Gone\"\nmsgstr \"\"\n";
    let out = merge_entries(&[entry("Kept")], Some(existing), "en", &opts(false));
    assert!(!out.contains("Gone"));
}

#[test]
fn test_obsolete_survives_round_trip() {
    let first = merge_entries(&[entry("Kept")], Some(EXISTING), "en", &opts(false));
    let second = merge_entries(&[entry("Kept")], Some(&first), "en", &opts(false));
    assert_eq!(second.matches(r#"#~ msgid "Gone""#).count(), 1, "{second}");
}

#[test]
fn test_obsolete_entry_has_no_location_line() {
    let out = merge_entries(&[entry("Kept")], Some(EXISTING), "en", &{
        let mut o = opts(false);
        o.location_mode = LocationMode::Full;
        o
    });
    assert!(!out.contains("#~ #:"));
}

#[test]
fn test_translator_comment_emitted() {
    let mut e = entry("Hi");
    e.comments = vec!["Translators: a hint".to_string()];
    let out = merge_entries(&[e], None, "en", &opts(false));
    assert!(out.contains("#. Translators: a hint"), "{out}");
}

const WITH_UNTRANSLATED: &str = r#"msgid ""
msgstr ""
"Language: en\n"

msgid "done"
msgstr "translated"

msgid "todo"
msgstr ""

msgid "wrapped"
msgstr ""
"continued here"

#~ msgid "obsolete"
#~ msgstr ""
"#;

#[test]
fn test_untranslated_finds_only_empty_msgstr() {
    let found = untranslated_messages(WITH_UNTRANSLATED);
    assert_eq!(found.len(), 1, "{found:?}");
    assert!(found[0].contains("\"todo\""), "{found:?}");
}

#[test]
fn test_untranslated_skips_header() {
    assert!(!untranslated_messages(WITH_UNTRANSLATED)
        .iter()
        .any(|m| m.contains("msgid \"\"")));
}

#[test]
fn test_untranslated_skips_wrapped_translation() {
    assert!(!untranslated_messages(WITH_UNTRANSLATED)
        .iter()
        .any(|m| m.contains("wrapped")));
}

#[test]
fn test_untranslated_skips_obsolete() {
    assert!(!untranslated_messages(WITH_UNTRANSLATED)
        .iter()
        .any(|m| m.contains("obsolete")));
}

#[test]
fn test_untranslated_reports_plural_index() {
    let po = "msgid \"\"\nmsgstr \"\"\n\nmsgid \"a\"\nmsgid_plural \"b\"\nmsgstr[0] \"x\"\nmsgstr[1] \"\"\n";
    let found = untranslated_messages(po);
    assert_eq!(found.len(), 1);
    assert!(found[0].contains("msgstr[1]"), "{found:?}");
}

#[test]
fn test_no_flag_removes_only_named_flag() {
    let mut entry = make_entry(vec!["a.py:1"]);
    entry.flags = vec!["python-format".into(), "fuzzy".into()];
    let mut o = test_opts(LocationMode::Never, false, false, true);
    o.no_flag = vec!["python-format".into()];
    let out = format_entry(&entry, &o);
    assert!(out.contains("#, fuzzy"), "{out}");
    assert!(!out.contains("python-format"), "{out}");
}

#[test]
fn test_no_flag_drops_line_when_all_removed() {
    let mut entry = make_entry(vec!["a.py:1"]);
    entry.flags = vec!["fuzzy".into()];
    let mut o = test_opts(LocationMode::Never, false, false, true);
    o.no_flag = vec!["fuzzy".into()];
    assert!(!format_entry(&entry, &o).contains("#,"));
}

#[test]
fn test_width_zero_never_wraps() {
    let refs: Vec<String> = (1..=12).map(|i| format!("a.py:{i}")).collect();
    let entry = make_entry(refs.iter().map(|s| s.as_str()).collect());
    let mut o = test_opts(LocationMode::Full, false, false, false);
    o.width = Some(0);
    let n = format_entry(&entry, &o)
        .lines()
        .filter(|l| l.starts_with("#:"))
        .count();
    assert_eq!(n, 1);
}

#[test]
fn test_custom_width_wraps_earlier_than_default() {
    let refs: Vec<String> = (1..=12).map(|i| format!("a.py:{i}")).collect();
    let entry = make_entry(refs.iter().map(|s| s.as_str()).collect());
    let count = |w: Option<usize>| {
        let mut o = test_opts(LocationMode::Full, false, false, false);
        o.width = w;
        format_entry(&entry, &o)
            .lines()
            .filter(|l| l.starts_with("#:"))
            .count()
    };
    assert!(count(Some(40)) > count(None), "narrower width must wrap more");
}

#[test]
fn fresh_header_names_locale_and_plural_forms() {
    let h = makemessages::po::generate_header("ja");
    assert!(h.contains("\"Language: ja\\n\""), "{h}");
    assert!(h.contains("\"Plural-Forms: nplurals=1; plural=0;\\n\""), "{h}");
    assert!(h.starts_with("# SOME DESCRIPTIVE TITLE."));
}

#[test]
fn header_is_dated_from_the_given_time() {
    let h = makemessages::po::generate_header_at("en", 0);
    assert!(h.contains("POT-Creation-Date: 1970-01-01 00:00+0000"), "{h}");
    let h = makemessages::po::generate_header_at("en", 1_700_000_000);
    assert!(h.contains("POT-Creation-Date: 2023-11-14 22:13+0000"), "{h}");
}

#[test]
fn po_string_reads_back() {
    for v in ["plain", "two\nlines\n", "quote \" and\ttab", "\n", "a\n\nb", ""] {
        let written = format_po_string("msgstr", v);
        let raw: Vec<char> = written["msgstr ".len()..].chars().collect();
        let back: String = parse_po_string(&raw).into_iter().collect();
        assert_eq!(back, v, "{written}");
    }
}

#[test]
fn merge_keeps_translation_and_drops_fuzzy() {
    let existing = "msgid \"\"\nmsgstr \"\"\n\n#, fuzzy, python-format\nmsgid \"Kept\"\nmsgstr \"vieux\"\n";
    let mut o = opts(false);
    o.location_mode = LocationMode::Full;
    let out = merge_entries(&[entry("Kept"), entry("New")], Some(existing), "fr", &o);
    assert!(out.contains("#, python-format\nmsgid \"Kept\"\nmsgstr \"vieux\""), "{out}");
    assert!(out.contains("msgid \"New\"\nmsgstr \"\""), "{out}");
    assert!(!out.contains("fuzzy"), "{out}");
}

#[test]
fn sorted_output_orders_by_key() {
    let out = merge_entries(&[entry("b"), entry("a")], None, "en", &opts(false));
    let a = out.find("msgid \"a\"").unwrap();
    let b = out.find("msgid \"b\"").unwrap();
    assert!(a < b, "{out}");
}

#[test]
fn written_entry_reads_back() {
    let e = PoEntry {
        comments: vec!["#. Translators: the menu item".to_string()],
        references: vec!["views.py:10".to_string(), "views.py:22".to_string()],
        flags: vec!["python-format".to_string()],
        msgctxt: Some("menu".to_string()),
        msgid: "Open %(n)s file\nnow".to_string(),
        msgid_plural: Some("Open %(n)s files".to_string()),
        msgstr: vec!["Ouvrir".to_string(), "Ouvrir \"tous\"".to_string()],
        obsolete: false,
    };
    let o = test_opts(LocationMode::Full, false, false, false);
    let text = format_entry(&e, &o);
    let back = parse_po_file(&text);
    assert_eq!(back.len(), 1);
    let r = back.get("menu\u{4}Open %(n)s file\nnow").unwrap();
    assert_eq!(r.comments, e.comments);
    assert_eq!(r.references, e.references);
    assert_eq!(r.flags, e.flags);
    assert_eq!(r.msgctxt, e.msgctxt);
    assert_eq!(r.msgid, e.msgid);
    assert_eq!(r.msgid_plural, e.msgid_plural);
    assert_eq!(r.msgstr, e.msgstr);
    assert!(!r.obsolete);
}

#[test]
fn written_entries_read_back_in_order() {
    let mut first = make_entry(vec!["a.py:1"]);
    first.msgid = "zebra".to_string();
    first.msgstr = vec!["Zèbre".to_string()];
    let mut second = make_entry(vec!["b.py:2", "c.py:3"]);
    second.msgid = "apple".to_string();
    second.msgctxt = Some("fruit".to_string());
    let o = test_opts(LocationMode::Full, false, false, false);
    let text = format!("{}\n\n{}\n\n", format_entry(&first, &o), format_entry(&second, &o));
    let back = parse_po_file(&text);
    assert_eq!(back.len(), 2);
    let keys: Vec<String> = back.index.keys().cloned().collect();
    assert_eq!(keys, vec!["zebra".to_string(), "fruit\u{4}apple".to_string()]);
    let a = back.get("zebra").unwrap();
    assert_eq!(a.references, first.references);
    assert_eq!(a.msgstr, first.msgstr);
    let b = back.get("fruit\u{4}apple").unwrap();
    assert_eq!(b.references, second.references);
    assert_eq!(b.msgctxt, second.msgctxt);
}

#[test]
fn obsolete_entry_reads_back_as_obsolete() {
    let mut e = make_entry(Vec::new());
    e.msgid = "Gone".to_string();
    e.msgstr = vec!["Parti".to_string()];
    e.comments = vec!["#. Translators: kept".to_string()];
    e.obsolete = true;
    let o = test_opts(LocationMode::Full, false, false, false);
    let text = format_entry(&e, &o);
    assert!(text.lines().all(|l| l.starts_with("#~ ")), "{text}");
    let back = parse_po_file(&text);
    let r = back.get("Gone").unwrap();
    assert!(r.obsolete);
    assert_eq!(r.msgstr, e.msgstr);
    assert_eq!(r.comments, e.comments);
}

#[test]
fn merged_catalog_reads_back() {
    let mut o = test_opts(LocationMode::Full, false, false, false);
    o.keep_header = false;
    let out = merge_entries(&[entry("Kept"), entry("New")], Some(EXISTING), "fr", &o);
    let back = parse_po_file(&out);
    let keys: Vec<String> = back.index.keys().cloned().collect();
    assert_eq!(keys, vec!["Kept".to_string(), "New".to_string(), "Gone".to_string()]);
    assert_eq!(back.get("Kept").unwrap().msgstr, vec!["translated kept".to_string()]);
    assert_eq!(back.get("Kept").unwrap().references, vec!["a.py:1".to_string()]);
    assert_eq!(back.get("New").unwrap().msgstr, vec![String::new()]);
    let gone = back.get("Gone").unwrap();
    assert!(gone.obsolete);
    assert_eq!(gone.msgstr, vec!["precious translation".to_string()]);
}

#[test]
fn second_run_finds_catalog_in_sync() {
    let mut o = test_opts(LocationMode::Full, false, false, false);
    o.keep_header = false;
    let extracted = [entry("Kept"), entry("New")];
    let first = makemessages::catalog::merge_entries_at(&extracted, Some(EXISTING), "fr", &o, &Vec::new(), 1_700_000_000);
    let file = makemessages::run::catalog_file_text(&first);
    let second = makemessages::catalog::merge_entries_at(&extracted, Some(&file), "fr", &o, &Vec::new(), 1_700_000_020);
    assert_eq!(second, first);
    assert!(!makemessages::run::out_of_sync(Some(&file), &makemessages::run::catalog_file_text(&second)));
    assert!(second.contains("#~ msgid \"Gone\""), "{second}");
}

#[test]
fn second_run_in_sync_without_locations_or_flags() {
    let mut o = test_opts(LocationMode::Never, true, false, false);
    o.keep_header = false;
    let existing = "msgid \"\"\nmsgstr \"\"\n\n#, fuzzy, python-format\nmsgid \"Kept\"\nmsgstr \"vieux\"\n\nmsgid \"Gone\"\nmsgstr \"parti\"\n";
    let extracted = [entry("Kept"), entry("New")];
    let first = makemessages::catalog::merge_entries_at(&extracted, Some(existing), "fr", &o, &Vec::new(), 1_700_000_000);
    let file = makemessages::run::catalog_file_text(&first);
    let second = makemessages::catalog::merge_entries_at(&extracted, Some(&file), "fr", &o, &Vec::new(), 1_700_000_030);
    assert_eq!(second, first);
    assert!(!first.contains("#:"), "{first}");
}

#[test]
fn sorted_references_read_back_sorted() {
    let e = make_entry(vec!["z.py:9", "a.py:1"]);
    let o = test_opts(LocationMode::Full, false, true, false);
    let back = parse_po_file(&format_entry(&e, &o));
    assert_eq!(back.get("x").unwrap().references, vec!["a.py:1".to_string(), "z.py:9".to_string()]);
}

#[test]
fn second_run_in_sync_with_sorted_output() {
    let mut o = opts(false);
    o.keep_header = false;
    o.no_flags = true;
    let extracted = [entry("b"), entry("Kept"), entry("a")];
    let first = makemessages::catalog::merge_entries_at(&extracted, Some(EXISTING), "ja", &o, &Vec::new(), 1_700_000_000);
    let file = makemessages::run::catalog_file_text(&first);
    let second = makemessages::catalog::merge_entries_at(&extracted, Some(&file), "ja", &o, &Vec::new(), 1_700_000_010);
    assert_eq!(second, first);
    let a = first.find("msgid \"a\"").unwrap();
    let b = first.find("msgid \"b\"").unwrap();
    assert!(a < b, "{first}");
}

#[test]
fn check_run_after_run_with_kept_header_is_in_sync() {
    let mut o = opts(false);
    o.no_flags = true;
    let extracted = [entry("b"), entry("Kept"), entry("a")];
    let first = merge_entries(&extracted, None, "zh_Hant", &o);
    let file = makemessages::run::catalog_file_text(&first);
    let second = merge_entries(&extracted, Some(&file), "zh_Hant", &o);
    assert_eq!(second, first);
    assert!(!makemessages::run::out_of_sync(Some(&file), &makemessages::run::catalog_file_text(&second)));
}

#[test]
fn file_only_references_read_back_as_files() {
    let e = make_entry(vec!["b.py:3", "b.py:7", "a.py:1"]);
    let o = test_opts(LocationMode::File, false, false, false);
    let back = parse_po_file(&format_entry(&e, &o));
    assert_eq!(back.get("x").unwrap().references, vec!["b.py".to_string(), "a.py".to_string()]);
    let sorted = test_opts(LocationMode::File, false, true, false);
    let back = parse_po_file(&format_entry(&e, &sorted));
    assert_eq!(back.get("x").unwrap().references, vec!["a.py".to_string(), "b.py".to_string()]);
}

#[test]
fn second_run_in_sync_with_file_locations() {
    let mut o = opts(false);
    o.location_mode = LocationMode::File;
    o.keep_header = false;
    o.no_flags = true;
    let extracted = [entry("b"), entry("Kept"), entry("a")];
    let first = makemessages::catalog::merge_entries_at(&extracted, Some(EXISTING), "ja", &o, &Vec::new(), 1_700_000_000);
    assert!(first.contains("#: a.py\n"), "{first}");
    let file = makemessages::run::catalog_file_text(&first);
    let second = makemessages::catalog::merge_entries_at(&extracted, Some(&file), "ja", &o, &Vec::new(), 1_700_000_010);
    assert_eq!(second, first);
}

#[test]
fn second_run_in_sync_with_a_flag_left_out() {
    let mut o = test_opts(LocationMode::Full, false, false, false);
    o.keep_header = false;
    o.no_flag = vec!["python-format".to_string()];
    let existing = "msgid \"\"\nmsgstr \"\"\n\n#, fuzzy, python-format, c-format\nmsgid \"Kept\"\nmsgstr \"vieux\"\n";
    let extracted = [entry("Kept")];
    let first = makemessages::catalog::merge_entries_at(&extracted, Some(existing), "fr", &o, &Vec::new(), 1_700_000_000);
    assert!(first.contains("#, c-format\n"), "{first}");
    let file = makemessages::run::catalog_file_text(&first);
    let second = makemessages::catalog::merge_entries_at(&extracted, Some(&file), "fr", &o, &Vec::new(), 1_700_000_020);
    assert_eq!(second, first);
}

#[test]
fn po_string_with_backslashes_reads_back() {
    for v in ["C:\\Users\\x", "a\\\\b", "end\\", "\\\"q\\\"", "back\\\nslash"] {
        let written = format_po_string("msgstr", v);
        let raw: Vec<char> = written["msgstr ".len()..].chars().collect();
        let back: String = parse_po_string(&raw).into_iter().collect();
        assert_eq!(back, v, "{written}");
    }
    for v in ["a\\nb", "tab\\t", "\\n", "x\\\ny"] {
        let written = format_po_string("msgstr", v);
        let raw: Vec<char> = written["msgstr ".len()..].chars().collect();
        let back: String = parse_po_string(&raw).into_iter().collect();
        assert_eq!(back, v, "{written}");
    }
}

#[test]
fn run_after_run_keeping_an_existing_header_is_in_sync() {
    let mut o = opts(false);
    o.location_mode = LocationMode::Full;
    let existing = "# Project catalog.\n#, fuzzy\nmsgid \"\"\nmsgstr \"\"\n\"Language: en\\n\"\n\nmsgid \"Kept\"\nmsgstr \"translated kept\"\n\nmsgid \"Gone\"\nmsgstr \"precious translation\"\n";
    let extracted = [entry("Kept"), entry("New")];
    let first = merge_entries(&extracted, Some(existing), "en", &o);
    assert!(first.starts_with("# Project catalog.\n#, fuzzy\nmsgid \"\"\nmsgstr \"\"\n\"Language: en\\n\"\n\n"), "{first}");
    let file = makemessages::run::catalog_file_text(&first);
    let second = merge_entries(&extracted, Some(&file), "en", &o);
    assert_eq!(second, first);
    assert!(!makemessages::run::out_of_sync(Some(&file), &makemessages::run::catalog_file_text(&second)));
    let back = parse_po_file(&first);
    assert_eq!(back.get("Kept").unwrap().msgstr, vec!["translated kept".to_string()]);
    assert!(back.get("").is_none());
}

#[test]
fn untranslated_reports_a_wrapped_msgid() {
    let content = [r#"msgid """#, r#"msgstr """#, r#""Language: en\n""#, "", r#"msgid """#, r#""long message""#, r#"msgstr """#].join("\n");
    assert_eq!(untranslated_messages(&content), vec![r#"7: msgstr for msgid "long message""#.to_string()]);
}

#[test]
fn obsolete_entry_comes_back_when_its_message_does() {
    let existing = "msgid \"\"\nmsgstr \"\"\n\n#~ msgid \"Back\"\n#~ msgstr \"revenu\"\n";
    let out = merge_entries(&[entry("Back")], Some(existing), "fr", &opts(false));
    assert!(out.contains("\nmsgid \"Back\"\nmsgstr \"revenu\""), "{out}");
    assert!(!out.contains("#~"), "{out}");
}

#[test]
fn second_run_in_sync_with_spaces_in_paths_and_empty_comment() {
    let mut o = test_opts(LocationMode::Full, false, false, false);
    o.keep_header = false;
    let mut spaced = entry("Kept");
    spaced.references = vec!["my app/views.py:3".to_string(), "other dir/x.py:12".to_string()];
    spaced.comments = vec!["Translators: keep short   ".to_string(), String::new()];
    let extracted = [spaced, entry("New")];
    let first = makemessages::catalog::merge_entries_at(&extracted, Some(EXISTING), "fr", &o, &Vec::new(), 1_700_000_000);
    assert!(first.contains("#: my app/views.py:3 other dir/x.py:12"), "{first}");
    let file = makemessages::run::catalog_file_text(&first);
    let back = parse_po_file(&file);
    assert_eq!(
        back.get("Kept").unwrap().references,
        vec!["my".to_string(), "app/views.py:3".to_string(), "other".to_string(), "dir/x.py:12".to_string()]
    );
    assert_eq!(back.get("Kept").unwrap().comments, vec!["#. Translators: keep short".to_string(), "#.".to_string()]);
    let second = makemessages::catalog::merge_entries_at(&extracted, Some(&file), "fr", &o, &Vec::new(), 1_700_000_020);
    assert_eq!(second, first);
    assert!(!makemessages::run::out_of_sync(Some(&file), &makemessages::run::catalog_file_text(&second)));
}

#[test]
fn second_run_in_sync_with_untidy_flag_line() {
    let mut o = test_opts(LocationMode::Full, false, false, false);
    o.keep_header = false;
    let existing = "msgid \"\"\nmsgstr \"\"\n\n#,  python-format , fuzzy,,c-format \nmsgid \"Kept\"\nmsgstr \"vieux\"\n\n#, no-wrap ,\nmsgid \"Gone\"\nmsgstr \"parti\"\n";
    let extracted = [entry("Kept")];
    let first = makemessages::catalog::merge_entries_at(&extracted, Some(existing), "fr", &o, &Vec::new(), 1_700_000_000);
    assert!(first.contains("#, python-format, c-format\nmsgid \"Kept\""), "{first}");
    let file = makemessages::run::catalog_file_text(&first);
    let second = makemessages::catalog::merge_entries_at(&extracted, Some(&file), "fr", &o, &Vec::new(), 1_700_000_010);
    assert_eq!(second, first);
}
