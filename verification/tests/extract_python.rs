use makemessages::extractor::{extract_from_python, extract_source};

#[test]
fn test_extract_gettext() {
    let code = r#"
from django.utils.translation import gettext_lazy as _

msg = _('Hello world')
msg2 = gettext_lazy("File format not supported")
"#;
    let entries = extract_from_python(code, "test.py");
    assert_eq!(entries.len(), 2);
    assert_eq!(entries[0].msgid, "Hello world");
    assert_eq!(entries[1].msgid, "File format not supported");
}

#[test]
fn test_extract_pgettext() {
    let code = r#"pgettext_lazy('menu', 'File')"#;
    let entries = extract_from_python(code, "test.py");
    assert_eq!(entries.len(), 1);
    assert_eq!(entries[0].msgctxt.as_deref(), Some("menu"));
    assert_eq!(entries[0].msgid, "File");
}

#[test]
fn test_extract_ngettext() {
    let code = r#"ngettext_lazy('%(count)d item', '%(count)d items', count)"#;
    let entries = extract_from_python(code, "test.py");
    assert_eq!(entries.len(), 1);
    assert_eq!(entries[0].msgid, "%(count)d item");
    assert_eq!(entries[0].msgid_plural.as_deref(), Some("%(count)d items"));
}

#[test]
fn test_extract_implicit_concat() {
    let code = r#"_(
        'At least one of knowledge_base_ids, knowledge_base_file_ids, '
        'or chatbot_file_ids parameter is required.'
    )"#;
    let entries = extract_from_python(code, "test.py");
    assert_eq!(entries.len(), 1);
    assert_eq!(
        entries[0].msgid,
        "At least one of knowledge_base_ids, knowledge_base_file_ids, or chatbot_file_ids parameter is required."
    );
}

#[test]
fn test_underscore_not_in_method() {
    let code = r#"obj._('hello')"#;
    let entries = extract_from_python(code, "test.py");
    assert_eq!(entries.len(), 0);
}

#[test]
fn test_underscore_not_in_word() {
    let code = r#"some_func('hello')"#;
    let entries = extract_from_python(code, "test.py");
    assert_eq!(entries.len(), 0);
}

#[test]
fn test_python_escaped_quotes_in_single_quoted() {
    let code = r#"_('Celery queue "%(queue)s" purged successfully.')"#;
    let entries = extract_from_python(code, "test.py");
    assert_eq!(entries.len(), 1);
    assert_eq!(
        entries[0].msgid,
        "Celery queue \"%(queue)s\" purged successfully."
    );
}

#[test]
fn test_python_percent_formatting_after_call() {
    let code = r#"_('Queue "%(queue)s" purged.') % {'queue': name}"#;
    let entries = extract_from_python(code, "test.py");
    assert_eq!(entries.len(), 1);
    assert_eq!(entries[0].msgid, "Queue \"%(queue)s\" purged.");
}

#[test]
fn test_same_line_implicit_concat() {
    let code = r#"_('Can not modify maigpt chatbot. please modify ' 'Config.maigpt_settings in admin.')"#;
    let entries = extract_from_python(code, "test.py");
    assert_eq!(entries.len(), 1);
    assert_eq!(
        entries[0].msgid,
        "Can not modify maigpt chatbot. please modify Config.maigpt_settings in admin."
    );
}

#[test]
fn test_gettext_noop() {
    let code = r#"gettext_noop('Draft')"#;
    let entries = extract_from_python(code, "test.py");
    assert_eq!(entries.len(), 1);
    assert_eq!(entries[0].msgid, "Draft");
}

#[test]
fn test_triple_quoted_python_string() {
    let code = "x = _(\"\"\"triple quoted\"\"\")";
    let entries = extract_from_python(code, "test.py");
    assert_eq!(entries.len(), 1);
    assert_eq!(entries[0].msgid, "triple quoted");
}

#[test]
fn test_python_translator_comment() {
    let code = "# Translators: helpful hint\nx = _('Greeting')";
    let entries = extract_from_python(code, "test.py");
    assert_eq!(entries.len(), 1);
    assert_eq!(entries[0].comments, vec!["Translators: helpful hint"]);
}

#[test]
fn test_python_non_translator_comment_ignored() {
    let code = "# just a note\nx = _('Greeting')";
    let entries = extract_from_python(code, "test.py");
    assert!(entries[0].comments.is_empty());
}

#[test]
fn test_extract_file_routes_email_to_template() {
    let content = "{% load i18n %}{% trans \"Hello from email\" %}\n";
    let entries = extract_source(content, "welcome.email", "email");
    assert_eq!(entries.len(), 1);
    assert_eq!(entries[0].msgid, "Hello from email");
}

#[test]
fn test_extract_file_routes_py_to_python() {
    let content = "_('Python string')\n";
    let entries = extract_source(content, "views.py", "py");
    assert_eq!(entries.len(), 1);
    assert_eq!(entries[0].msgid, "Python string");
}

#[test]
fn test_js_file_uses_python_scanner() {
    let content = "const a = gettext(\"JS string\");\n";
    let entries = extract_source(content, "app.js", "js");
    assert_eq!(entries.len(), 1);
    assert_eq!(entries[0].msgid, "JS string");
}
