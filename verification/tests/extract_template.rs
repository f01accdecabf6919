use makemessages::extractor::extract_from_template;

#[test]
fn test_extract_template_trans() {
    let html = r#"{% trans "Welcome" %} and {% trans 'Goodbye' %}"#;
    let entries = extract_from_template(html, "test.html");
    assert_eq!(entries.len(), 2);
    assert_eq!(entries[0].msgid, "Welcome");
    assert_eq!(entries[1].msgid, "Goodbye");
}

#[test]
fn test_extract_template_translate() {
    let html = r#"{% translate "Welcome" %}"#;
    let entries = extract_from_template(html, "test.html");
    assert_eq!(entries.len(), 1);
    assert_eq!(entries[0].msgid, "Welcome");
}

#[test]
fn test_extract_template_blocktrans() {
    let html = r#"{% blocktrans %}Hello {{ name }}{% endblocktrans %}"#;
    let entries = extract_from_template(html, "test.html");
    assert_eq!(entries.len(), 1);
    assert_eq!(entries[0].msgid, "Hello %(name)s");
}

#[test]
fn test_extract_template_blocktrans_plural() {
    let html = r#"{% blocktrans count counter=list|length %}{{ counter }} item selected{% plural %}{{ counter }} items selected{% endblocktrans %}"#;
    let entries = extract_from_template(html, "test.html");
    assert_eq!(entries.len(), 1);
    assert_eq!(entries[0].msgid, "%(counter)s item selected");
    assert_eq!(
        entries[0].msgid_plural.as_deref(),
        Some("%(counter)s items selected")
    );
}

#[test]
fn test_template_percent_escape() {
    let html = r#"{% trans "Error Rate (%)" %}"#;
    let entries = extract_from_template(html, "test.html");
    assert_eq!(entries.len(), 1);
    assert_eq!(entries[0].msgid, "Error Rate (%%)");
}

#[test]
fn test_template_var_not_double_escaped() {
    let html =
        r#"{% blocktrans %}Hello {{ name }}, you have 100% completion{% endblocktrans %}"#;
    let entries = extract_from_template(html, "test.html");
    assert_eq!(entries.len(), 1);
    assert_eq!(
        entries[0].msgid,
        "Hello %(name)s, you have 100%% completion"
    );
}

#[test]
fn test_template_blocktranslate_trimmed() {
    let html = r#"{% blocktranslate trimmed %}
      Or, <a href="{{ signup_url }}">sign up</a>
      for a {{ site_name }} account and sign in below:
    {% endblocktranslate %}"#;
    let entries = extract_from_template(html, "test.html");
    assert_eq!(entries.len(), 1);
    assert_eq!(
        entries[0].msgid,
        "Or, <a href=\"%(signup_url)s\">sign up</a> for a %(site_name)s account and sign in below:"
    );
}

#[test]
fn test_template_inline_comment_skipped() {
    let html = r#"{# {% trans "hidden" %} #}
{% trans "visible" %}"#;
    let entries = extract_from_template(html, "test.html");
    assert_eq!(entries.len(), 1);
    assert_eq!(entries[0].msgid, "visible");
}

#[test]
fn test_template_comment_block_skipped() {
    let html = r#"{% comment %}
{% trans "inside comment" %}
{% blocktrans %}Also hidden {{ name }}{% endblocktrans %}
{% endcomment %}
{% trans "after comment" %}"#;
    let entries = extract_from_template(html, "test.html");
    assert_eq!(entries.len(), 1);
    assert_eq!(entries[0].msgid, "after comment");
}

#[test]
fn test_template_comment_preserves_line_numbers() {
    let html = r#"{% comment %}
skip this
{% endcomment %}
{% trans "on line four" %}"#;
    let entries = extract_from_template(html, "test.html");
    assert_eq!(entries.len(), 1);
    assert_eq!(entries[0].references[0], "test.html:4");
}

#[test]
fn test_template_mixed_comments_and_content() {
    let html = r#"{% trans "first" %}
{# {% trans "hidden inline" %} #}
{% comment %}{% trans "hidden block" %}{% endcomment %}
{% trans "second" %}"#;
    let entries = extract_from_template(html, "test.html");
    assert_eq!(entries.len(), 2);
    assert_eq!(entries[0].msgid, "first");
    assert_eq!(entries[1].msgid, "second");
}

#[test]
fn test_blocktrans_inside_comment_block_skipped() {
    let html = r#"{% comment %}
{% blocktrans count counter=items|length %}
{{ counter }} item
{% plural %}
{{ counter }} items
{% endblocktrans %}
{% endcomment %}
{% trans "visible after blocktrans comment" %}"#;
    let entries = extract_from_template(html, "test.html");
    assert_eq!(entries.len(), 1);
    assert_eq!(entries[0].msgid, "visible after blocktrans comment");
}

#[test]
fn test_blocktrans_var_keeps_filters_and_dots() {
    let html =
        r#"{% blocktrans %}Hi {{ user.name }} you have {{ n|add:1 }}{% endblocktrans %}"#;
    let entries = extract_from_template(html, "test.html");
    assert_eq!(entries.len(), 1);
    assert_eq!(entries[0].msgid, "Hi %(user.name)s you have %(n|add:1)s");
}

#[test]
fn test_percent_in_filter_arg_not_doubled() {
    let html = r#"{% blocktrans %}50% of {{ x|default:"a%b" }}{% endblocktrans %}"#;
    let entries = extract_from_template(html, "test.html");
    assert_eq!(entries.len(), 1);
    assert_eq!(entries[0].msgid, r#"50%% of %(x|default:"a%b")s"#);
}

#[test]
fn test_trans_with_context() {
    let html = r#"{% translate "File" context "menu" %}"#;
    let entries = extract_from_template(html, "test.html");
    assert_eq!(entries.len(), 1);
    assert_eq!(entries[0].msgctxt.as_deref(), Some("menu"));
    assert_eq!(entries[0].msgid, "File");
}

#[test]
fn test_trans_without_context_has_none() {
    let html = r#"{% translate "File" %}"#;
    let entries = extract_from_template(html, "test.html");
    assert_eq!(entries[0].msgctxt, None);
}

#[test]
fn test_blocktrans_with_context() {
    let html = r#"{% blocktranslate context "email" %}Body{% endblocktranslate %}"#;
    let entries = extract_from_template(html, "test.html");
    assert_eq!(entries.len(), 1);
    assert_eq!(entries[0].msgctxt.as_deref(), Some("email"));
}

#[test]
fn test_blocktrans_plural_with_context() {
    let html = r#"{% blocktranslate count n=x|length context "cart" %}{{ n }} thing{% plural %}{{ n }} things{% endblocktranslate %}"#;
    let entries = extract_from_template(html, "test.html");
    assert_eq!(entries.len(), 1);
    assert_eq!(entries[0].msgctxt.as_deref(), Some("cart"));
    assert_eq!(entries[0].msgid_plural.as_deref(), Some("%(n)s things"));
}

#[test]
fn test_constant_in_filter_argument() {
    let html = r#"{{ foo|default:_("fallback") }}"#;
    let entries = extract_from_template(html, "test.html");
    assert_eq!(entries.len(), 1);
    assert_eq!(entries[0].msgid, "fallback");
}

#[test]
fn test_constant_in_var_and_block_tag() {
    let html = "{{ _(\"in var\") }}\n{% mytag _(\"in tag\") %}";
    let entries = extract_from_template(html, "test.html");
    let ids: Vec<&str> = entries.iter().map(|e| e.msgid.as_str()).collect();
    assert_eq!(ids, vec!["in var", "in tag"]);
}

#[test]
fn test_constant_not_extracted_inside_blocktrans_body() {
    let html = r#"{% blocktrans %}literal _("x") here{% endblocktrans %}"#;
    let entries = extract_from_template(html, "test.html");
    assert_eq!(entries.len(), 1);
    assert_eq!(entries[0].msgid, r#"literal _("x") here"#);
}

#[test]
fn test_entries_are_in_source_order() {
    let html = "{% trans \"first\" %}\n{% blocktrans %}second{% endblocktrans %}\n{% trans \"third\" %}";
    let entries = extract_from_template(html, "test.html");
    let ids: Vec<&str> = entries.iter().map(|e| e.msgid.as_str()).collect();
    assert_eq!(ids, vec!["first", "second", "third"]);
}

#[test]
fn test_template_inline_translator_comment() {
    let html = "{# Translators: inline hint #}\n{% trans \"Greeting\" %}";
    let entries = extract_from_template(html, "test.html");
    assert_eq!(entries.len(), 1);
    assert_eq!(entries[0].comments, vec!["Translators: inline hint"]);
}

#[test]
fn test_template_block_translator_comment() {
    let html =
        "{% comment %}\nTranslators: block hint\n{% endcomment %}\n{% trans \"Farewell\" %}";
    let entries = extract_from_template(html, "test.html");
    assert_eq!(entries.len(), 1);
    assert_eq!(entries[0].comments, vec!["Translators: block hint"]);
}

#[test]
fn test_blocktrans_preserves_surrounding_whitespace() {
    let html = r#"{% blocktranslate %} By {{ t }} {% endblocktranslate %}"#;
    let entries = extract_from_template(html, "test.html");
    assert_eq!(entries[0].msgid, " By %(t)s ");
}

#[test]
fn test_blocktrans_trimmed_collapses() {
    // Django's trim_whitespace only collapses runs spanning a newline.
    let html = "{% blocktranslate trimmed %}\n   a   {{ x }}\n   b\n{% endblocktranslate %}";
    let entries = extract_from_template(html, "test.html");
    assert_eq!(entries[0].msgid, "a   %(x)s b");
}

#[test]
fn stripped_comments_keep_the_byte_length() {
    let content = "a{# caf\u{e9} \u{4e2d} #}b\n{% comment %}\u{e9}\n\u{1f600}{% endcomment %}c";
    let stripped: String = makemessages::template::strip_template_comments(content).into_iter().collect();
    assert_eq!(stripped.len(), content.len());
    for (i, (x, y)) in stripped.bytes().zip(content.bytes()).enumerate() {
        assert_eq!(x == b'\n', y == b'\n', "at byte {i}");
    }
    assert!(stripped.starts_with('a') && stripped.ends_with('c'));
}

#[test]
fn trimmed_in_the_body_is_not_the_option() {
    let entries = extract_from_template("{% blocktrans %} trimmed {% endblocktrans %}", "test.html");
    assert_eq!(entries.len(), 1);
    assert_eq!(entries[0].msgid, " trimmed ");
    let entries = extract_from_template("{% blocktrans trimmed %}\n  a\n  b\n{% endblocktrans %}", "test.html");
    assert_eq!(entries[0].msgid, "a b");
}

#[test]
fn comment_items_follow_the_given_spans() {
    let content = "{# Translators: greeting #}\n{% trans \"Hi\" %}\n{% comment %}Translators: a block\nsecond line{% endcomment %}\n{% trans \"Bye\" %}";
    let chars: Vec<char> = content.chars().collect();
    let block_start = content.find("{% comment %}").unwrap();
    let block_end = content.find("{% endcomment %}").unwrap() + "{% endcomment %}".len();
    let items = makemessages::template::comment_items_from_spans(&chars, &vec![(0, 27)], &vec![(block_start, block_end)]);
    let as_text: Vec<(usize, Vec<String>)> = items
        .iter()
        .map(|(line, ls)| (*line, ls.iter().map(|l| l.iter().collect::<String>()).collect()))
        .collect();
    assert_eq!(
        as_text,
        vec![
            (2, vec!["Translators: greeting".to_string()]),
            (5, vec!["Translators: a block".to_string(), "second line".to_string()]),
        ]
    );
    let none = makemessages::template::comment_items_from_spans(&chars, &vec![], &vec![]);
    assert!(none.is_empty());
}

#[test]
fn comment_map_gathers_comments_by_line_in_order() {
    let v = |s: &str| s.chars().collect::<Vec<char>>();
    let items = vec![(2usize, vec![v("a")]), (5usize, vec![v("b")]), (2usize, vec![v("c"), v("d")])];
    let m = makemessages::template::comment_map(&items);
    assert_eq!(m.get(&2), Some(&vec![v("a"), v("c"), v("d")]));
    assert_eq!(m.get(&5), Some(&vec![v("b")]));
    assert_eq!(m.get(&3), None);
    assert_eq!(m.len(), 2);
}
