//! Extraction of translatable strings from Python (and JavaScript) sources
//! and from Django templates.
use vstd::prelude::*;
use crate::text::{
    chars_of, count_of, count_char, decimal, find_char, has_prefix, index_of, lemma_index_of,
    push_decimal, replace, replace_seq, seqs_of, string_of, trim, trim_seq, lines, lines_of,
};
use crate::matching::{
    char_span, fancy_find, fancy_find_spans, find_spans, regex_find_spans, CharPositions,
};
pub use crate::template::extract_from_template;

verus! {

/// One message found in a source file.
#[derive(Debug, Clone, PartialEq, Eq, Hash)]
pub struct TranslationEntry {
    pub msgid: String,
    pub msgid_plural: Option<String>,
    pub msgctxt: Option<String>,
    pub references: Vec<String>,
    /// `Translators:` comments attached to this string, emitted as `#.` lines.
    pub comments: Vec<String>,
}

pub struct EntryView {
    pub msgid: Seq<char>,
    pub msgid_plural: Option<Seq<char>>,
    pub msgctxt: Option<Seq<char>>,
    pub references: Seq<Seq<char>>,
    pub comments: Seq<Seq<char>>,
}

pub open spec fn opt_view(o: Option<String>) -> Option<Seq<char>> {
    match o {
        Some(s) => Some(s@),
        None => None,
    }
}

pub open spec fn strings_view(v: Seq<String>) -> Seq<Seq<char>> {
    v.map_values(|s: String| s@)
}

impl View for TranslationEntry {
    type V = EntryView;

    open spec fn view(&self) -> EntryView {
        EntryView {
            msgid: self.msgid@,
            msgid_plural: opt_view(self.msgid_plural),
            msgctxt: opt_view(self.msgctxt),
            references: strings_view(self.references@),
            comments: strings_view(self.comments@),
        }
    }
}

pub open spec fn entry_views(v: Seq<TranslationEntry>) -> Seq<EntryView> {
    v.map_values(|e: TranslationEntry| e@)
}

/// The mark that opens a comment meant for translators.
pub const TRANSLATOR_COMMENT_MARK: &'static str = "Translators";

/// What a backslash escape inside a Python string literal stands for.
pub open spec fn escape_piece(e: char) -> Seq<char> {
    if e == 'n' {
        seq!['\n']
    } else if e == 't' {
        seq!['\t']
    } else if e == '\\' {
        seq!['\\']
    } else if e == '\'' {
        seq!['\'']
    } else if e == '"' {
        seq!['"']
    } else {
        seq!['\\', e]
    }
}

/// Reads `t` from `i` on, inside a literal opened by `q` (tripled or not)
/// when `in_str`, and yields the concatenated contents of every string
/// literal, escapes resolved.
pub open spec fn concat_scan(t: Seq<char>, i: int, in_str: bool, q: char, triple: bool) -> Seq<char>
    decreases t.len() - i,
{
    if i < 0 || i >= t.len() {
        seq![]
    } else if !in_str {
        let ch = t[i];
        if ch == '\'' || ch == '"' {
            let tr = i + 2 < t.len() && t[i + 1] == ch && t[i + 2] == ch;
            concat_scan(
                t,
                if tr {
                    i + 3
                } else {
                    i + 1
                },
                true,
                ch,
                tr,
            )
        } else {
            concat_scan(t, i + 1, false, q, triple)
        }
    } else if triple && t[i] == q && i + 2 < t.len() && t[i + 1] == q && t[i + 2] == q {
        concat_scan(t, i + 3, false, q, false)
    } else if t[i] == '\\' && i + 1 < t.len() {
        escape_piece(t[i + 1]) + concat_scan(t, i + 2, true, q, triple)
    } else if t[i] == q && !triple {
        concat_scan(t, i + 1, false, q, false)
    } else {
        seq![t[i]] + concat_scan(t, i + 1, true, q, triple)
    }
}

/// The concatenated contents of the string literals in `t`.
pub open spec fn concat_strings(t: Seq<char>) -> Seq<char> {
    concat_scan(t, 0, false, ' ', false)
}

fn push_escape(out: &mut Vec<char>, e: char)
    ensures
        final(out)@ == old(out)@ + escape_piece(e),
{
    if e == 'n' {
        out.push('\n');
    } else if e == 't' {
        out.push('\t');
    } else if e == '\\' {
        out.push('\\');
    } else if e == '\'' {
        out.push('\'');
    } else if e == '"' {
        out.push('"');
    } else {
        out.push('\\');
        out.push(e);
    }
}

/// The contents of every string literal of `text`, concatenated, with the
/// escapes `\n \t \\ \' \"` resolved (others kept verbatim).
pub fn extract_concat_from_text(text: &[char]) -> (r: Vec<char>)
    ensures
        r@ == concat_strings(text@),
{
    let mut out: Vec<char> = Vec::new();
    let mut i: usize = 0;
    let mut in_str = false;
    let mut q: char = ' ';
    let mut triple = false;
    let n = text.len();
    while i < n
        invariant
            n == text@.len(),
            i <= n,
            concat_strings(text@) == out@ + concat_scan(text@, i as int, in_str, q, triple),
        decreases n - i,
    {
        let ghost before = out@;
        let ch = text[i];
        if !in_str {
            if ch == '\'' || ch == '"' {
                let tr = n - i > 2 && text[i + 1] == ch && text[i + 2] == ch;
                in_str = true;
                q = ch;
                triple = tr;
                i = if tr {
                    i + 3
                } else {
                    i + 1
                };
            } else {
                i += 1;
            }
        } else if triple && ch == q && n - i > 2 && text[i + 1] == q && text[i + 2] == q {
            in_str = false;
            triple = false;
            i += 3;
        } else if ch == '\\' && i + 1 < n {
            push_escape(&mut out, text[i + 1]);
            assert(out@ + concat_scan(text@, i + 2, true, q, triple) == before + (escape_piece(
                text@[i + 1],
            ) + concat_scan(text@, i + 2, true, q, triple)));
            i += 2;
        } else if ch == q && !triple {
            in_str = false;
            triple = false;
            i += 1;
        } else {
            out.push(ch);
            assert(out@ + concat_scan(text@, i + 1, true, q, triple) == before + (seq![ch]
                + concat_scan(text@, i + 1, true, q, triple)));
            i += 1;
        }
    }
    assert(concat_scan(text@, i as int, in_str, q, triple) == Seq::<char>::empty());
    assert(out@ + Seq::<char>::empty() == out@);
    out
}

/// `%` doubled where it does not open a `%(name)` placeholder; an existing
/// `%%` is kept as it is.
pub open spec fn escape_percent_seq(s: Seq<char>) -> Seq<char>
    decreases s.len(),
{
    if s.len() == 0 {
        seq![]
    } else if s[0] == '%' {
        if s.len() > 1 && s[1] == '(' {
            seq!['%'] + escape_percent_seq(s.drop_first())
        } else if s.len() > 1 && s[1] == '%' {
            seq!['%', '%'] + escape_percent_seq(s.skip(2))
        } else {
            seq!['%', '%'] + escape_percent_seq(s.drop_first())
        }
    } else {
        seq![s[0]] + escape_percent_seq(s.drop_first())
    }
}

/// Every `%` is doubled or opens a `%(name)` placeholder.
pub open spec fn percents_escaped(t: Seq<char>) -> bool
    decreases t.len(),
{
    if t.len() == 0 {
        true
    } else if t[0] == '%' {
        if t.len() > 1 && t[1] == '%' {
            percents_escaped(t.skip(2))
        } else if t.len() > 1 && t[1] == '(' {
            percents_escaped(t.drop_first())
        } else {
            false
        }
    } else {
        percents_escaped(t.drop_first())
    }
}

proof fn lemma_escape_percent_head(s: Seq<char>)
    requires
        s.len() > 0,
        s[0] != '%',
    ensures
        escape_percent_seq(s).len() > 0,
        escape_percent_seq(s)[0] == s[0],
{
}

/// After escaping, no `%` stands alone: each is doubled or opens a
/// `%(name)` placeholder.
pub proof fn law_escaped_percents(s: Seq<char>)
    ensures
        percents_escaped(escape_percent_seq(s)),
    decreases s.len(),
{
    if s.len() == 0 {
        return;
    }
    let e = escape_percent_seq(s);
    if s[0] == '%' {
        if s.len() > 1 && s[1] == '(' {
            let rest = escape_percent_seq(s.drop_first());
            law_escaped_percents(s.drop_first());
            lemma_escape_percent_head(s.drop_first());
            assert(e == seq!['%'] + rest);
            assert(e[1] == '(');
            assert(e.drop_first() =~= rest);
        } else if s.len() > 1 && s[1] == '%' {
            law_escaped_percents(s.skip(2));
            assert(e.skip(2) =~= escape_percent_seq(s.skip(2)));
        } else {
            law_escaped_percents(s.drop_first());
            assert(e.skip(2) =~= escape_percent_seq(s.drop_first()));
        }
    } else {
        law_escaped_percents(s.drop_first());
        assert(e.drop_first() =~= escape_percent_seq(s.drop_first()));
    }
}

proof fn lemma_escape_keeps_escaped(t: Seq<char>)
    requires
        percents_escaped(t),
    ensures
        escape_percent_seq(t) == t,
    decreases t.len(),
{
    if t.len() == 0 {
        return;
    }
    if t[0] == '%' {
        if t.len() > 1 && t[1] == '%' {
            lemma_escape_keeps_escaped(t.skip(2));
            assert(seq!['%', '%'] + t.skip(2) =~= t);
        } else {
            lemma_escape_keeps_escaped(t.drop_first());
            assert(seq!['%'] + t.drop_first() =~= t);
        }
    } else {
        lemma_escape_keeps_escaped(t.drop_first());
        assert(seq![t[0]] + t.drop_first() =~= t);
    }
}

/// Escaping twice is escaping once.
pub proof fn law_escape_percent_idempotent(s: Seq<char>)
    ensures
        escape_percent_seq(escape_percent_seq(s)) == escape_percent_seq(s),
{
    law_escaped_percents(s);
    lemma_escape_keeps_escaped(escape_percent_seq(s));
}

/// Escape lone `%` that aren't part of `%(name)s` format strings.
/// In PO files, a literal `%` must be written as `%%`.
pub fn escape_lone_percent(s: &[char]) -> (r: Vec<char>)
    ensures
        r@ == escape_percent_seq(s@),
{
    let mut out: Vec<char> = Vec::new();
    let mut i: usize = 0;
    assert(s@.skip(0) == s@);
    while i < s.len()
        invariant
            i <= s@.len(),
            escape_percent_seq(s@) == out@ + escape_percent_seq(s@.skip(i as int)),
        decreases s@.len() - i,
    {
        let ghost rest = s@.skip(i as int);
        let ghost before = out@;
        assert(rest[0] == s@[i as int]);
        if s[i] == '%' {
            if i + 1 < s.len() && s[i + 1] == '(' {
                out.push('%');
                assert(rest[1] == s@[i + 1]);
                assert(rest.drop_first() == s@.skip(i + 1));
                i += 1;
            } else if i + 1 < s.len() && s[i + 1] == '%' {
                out.push('%');
                out.push('%');
                assert(rest[1] == s@[i + 1]);
                assert(rest.skip(2) == s@.skip(i + 2));
                assert(out@ == before + seq!['%', '%']);
                i += 2;
            } else {
                out.push('%');
                out.push('%');
                assert(rest.drop_first() == s@.skip(i + 1));
                assert(out@ == before + seq!['%', '%']);
                i += 1;
            }
        } else {
            out.push(s[i]);
            assert(rest.drop_first() == s@.skip(i + 1));
            i += 1;
        }
    }
    assert(s@.skip(i as int) =~= Seq::<char>::empty());
    assert(out@ + Seq::<char>::empty() == out@);
    out
}

/// The escapes `\n \t \\ \' \"` resolved, each by its own left-to-right
/// replacement pass, in that order.
pub open spec fn unescape_seq(s: Seq<char>) -> Seq<char> {
    replace_seq(
        replace_seq(
            replace_seq(
                replace_seq(replace_seq(s, seq!['\\', 'n'], seq!['\n']), seq!['\\', 't'], seq!['\t']),
                seq!['\\', '\\'],
                seq!['\\'],
            ),
            seq!['\\', '\''],
            seq!['\''],
        ),
        seq!['\\', '"'],
        seq!['"'],
    )
}

pub fn unescape_string(s: &[char]) -> (r: Vec<char>)
    ensures
        r@ == unescape_seq(s@),
{
    let p1: Vec<char> = vec!['\\', 'n'];
    let r1: Vec<char> = vec!['\n'];
    let p2: Vec<char> = vec!['\\', 't'];
    let r2: Vec<char> = vec!['\t'];
    let p3: Vec<char> = vec!['\\', '\\'];
    let r3: Vec<char> = vec!['\\'];
    let p4: Vec<char> = vec!['\\', '\''];
    let r4: Vec<char> = vec!['\''];
    let p5: Vec<char> = vec!['\\', '"'];
    let r5: Vec<char> = vec!['"'];
    assert(p1@ =~= seq!['\\', 'n'] && r1@ =~= seq!['\n']);
    assert(p2@ =~= seq!['\\', 't'] && r2@ =~= seq!['\t']);
    assert(p3@ =~= seq!['\\', '\\'] && r3@ =~= seq!['\\']);
    assert(p4@ =~= seq!['\\', '\''] && r4@ =~= seq!['\'']);
    assert(p5@ =~= seq!['\\', '"'] && r5@ =~= seq!['"']);
    let a = replace(s, p1.as_slice(), r1.as_slice());
    let b = replace(a.as_slice(), p2.as_slice(), r2.as_slice());
    let c = replace(b.as_slice(), p3.as_slice(), r3.as_slice());
    let d = replace(c.as_slice(), p4.as_slice(), r4.as_slice());
    replace(d.as_slice(), p5.as_slice(), r5.as_slice())
}

/// The top-level, comma-separated arguments of a call's argument text: from
/// position `i` on, with the given nesting depth, quoting and escape state,
/// the current argument having begun at `start`.
pub open spec fn split_args_from(
    t: Seq<char>,
    i: int,
    depth: int,
    in_sq: bool,
    in_dq: bool,
    esc: bool,
    start: int,
) -> Seq<Seq<char>>
    decreases t.len() - i,
{
    if i < 0 || i >= t.len() {
        let last = trim_seq(t.subrange(start, t.len() as int));
        if last.len() > 0 {
            seq![last]
        } else {
            seq![]
        }
    } else if esc {
        split_args_from(t, i + 1, depth, in_sq, in_dq, false, start)
    } else if t[i] == '\\' {
        split_args_from(t, i + 1, depth, in_sq, in_dq, true, start)
    } else if t[i] == '\'' && !in_dq {
        split_args_from(t, i + 1, depth, !in_sq, in_dq, false, start)
    } else if t[i] == '"' && !in_sq {
        split_args_from(t, i + 1, depth, in_sq, !in_dq, false, start)
    } else if !in_sq && !in_dq && t[i] == '(' {
        split_args_from(t, i + 1, depth + 1, in_sq, in_dq, false, start)
    } else if !in_sq && !in_dq && t[i] == ')' {
        split_args_from(t, i + 1, depth - 1, in_sq, in_dq, false, start)
    } else if !in_sq && !in_dq && t[i] == ',' && depth == 0 {
        seq![trim_seq(t.subrange(start, i))] + split_args_from(
            t,
            i + 1,
            depth,
            in_sq,
            in_dq,
            false,
            i + 1,
        )
    } else {
        split_args_from(t, i + 1, depth, in_sq, in_dq, false, start)
    }
}

/// The trimmed top-level arguments of an argument list.
pub open spec fn split_args_seq(t: Seq<char>) -> Seq<Seq<char>> {
    split_args_from(t, 0, 0, false, false, false, 0)
}

pub fn split_args(text: &[char]) -> (r: Vec<Vec<char>>)
    ensures
        seqs_of(r@) == split_args_seq(text@),
{
    let mut args: Vec<Vec<char>> = Vec::new();
    let mut depth: i128 = 0;
    let mut in_sq = false;
    let mut in_dq = false;
    let mut escape = false;
    let mut current_start: usize = 0;
    let mut i: usize = 0;
    let n = text.len();
    while i < n
        invariant
            n == text@.len(),
            current_start <= i <= n,
            -(i as int) <= depth <= i,
            split_args_seq(text@) == seqs_of(args@) + split_args_from(
                text@,
                i as int,
                depth as int,
                in_sq,
                in_dq,
                escape,
                current_start as int,
            ),
        decreases n - i,
    {
        let ch = text[i];
        if escape {
            escape = false;
        } else if ch == '\\' {
            escape = true;
        } else if ch == '\'' && !in_dq {
            in_sq = !in_sq;
        } else if ch == '"' && !in_sq {
            in_dq = !in_dq;
        } else if !in_sq && !in_dq && ch == '(' {
            depth = depth + 1;
        } else if !in_sq && !in_dq && ch == ')' {
            depth = depth - 1;
        } else if !in_sq && !in_dq && ch == ',' && depth == 0 {
            let piece = trim(&text[current_start..i]);
            let ghost before = args@;
            args.push(vstd::slice::slice_to_vec(piece));
            assert(seqs_of(args@) == seqs_of(before).push(piece@));
            assert(seqs_of(args@) + split_args_from(text@, i + 1, 0, false, false, false, i + 1)
                == seqs_of(before) + (seq![piece@] + split_args_from(
                text@,
                i + 1,
                0,
                false,
                false,
                false,
                i + 1,
            )));
            current_start = i + 1;
        }
        i += 1;
    }
    let last = trim(&text[current_start..n]);
    if last.len() > 0 {
        let ghost before = args@;
        args.push(vstd::slice::slice_to_vec(last));
        assert(seqs_of(args@) == seqs_of(before).push(last@));
    } else {
        assert(seqs_of(args@) + Seq::<Seq<char>>::empty() == seqs_of(args@));
    }
    args
}

/// 1-based line on which position `k` of `content` lies.
pub open spec fn line_number(content: Seq<char>, k: int) -> int {
    (count_of(content.take(k), '\n') + 1) as int
}

pub fn line_num_at(content: &[char], k: usize) -> (r: usize)
    requires
        k <= content@.len() < usize::MAX,
    ensures
        r == line_number(content@, k as int),
{
    let pre = &content[0..k];
    assert(pre@ == content@.take(k as int));
    let c = count_char(pre, '\n');
    assert(c <= k) by {
        lemma_count_of_le(pre@, '\n');
    }
    c + 1
}

pub proof fn lemma_count_of_le(s: Seq<char>, c: char)
    ensures
        count_of(s, c) <= s.len(),
    decreases s.len(),
{
    if s.len() > 0 {
        lemma_count_of_le(s.drop_last(), c);
    }
}


/// `gettext(...)`, `gettext_lazy(...)`, `gettext_noop(...)` and `_(...)` calls
/// whose argument is a run of string literals; `_` must not follow `.` or a
/// word character (so `obj._()` and `some_func()` do not count).
pub const PYTHON_GETTEXT_PATTERN: &'static str = r##"(?:(?:\b(?:gettext|gettext_lazy|gettext_noop))|(?:(?<![.\w])_))\(\s*(?:(?s:(?:"""([^\\]*?(?:\\.[^\\]*?)*?)"""|'''([^\\]*?(?:\\.[^\\]*?)*?)'''|"([^"\\]*(?:\\.[^"\\]*)*)"|'([^'\\]*(?:\\.[^'\\]*)*)'))(?:[ \t\n\r\\]+(?s:(?:"""([^\\]*?(?:\\.[^\\]*?)*?)"""|'''([^\\]*?(?:\\.[^\\]*?)*?)'''|"([^"\\]*(?:\\.[^"\\]*)*)"|'([^'\\]*(?:\\.[^'\\]*)*)')))*)\s*\)"##;

/// The head of an `ngettext` call: singular and plural literals.
pub const PYTHON_NGETTEXT_PATTERN: &'static str = r##"\b(?:ngettext|ngettext_lazy)\(\s*(?:(?s:(?:"""([^\\]*?(?:\\.[^\\]*?)*?)"""|'''([^\\]*?(?:\\.[^\\]*?)*?)'''|"([^"\\]*(?:\\.[^"\\]*)*)"|'([^'\\]*(?:\\.[^'\\]*)*)'))(?:[ \t\n\r\\]+(?s:(?:"""([^\\]*?(?:\\.[^\\]*?)*?)"""|'''([^\\]*?(?:\\.[^\\]*?)*?)'''|"([^"\\]*(?:\\.[^"\\]*)*)"|'([^'\\]*(?:\\.[^'\\]*)*)')))*)\s*,\s*(?:(?s:(?:"""([^\\]*?(?:\\.[^\\]*?)*?)"""|'''([^\\]*?(?:\\.[^\\]*?)*?)'''|"([^"\\]*(?:\\.[^"\\]*)*)"|'([^'\\]*(?:\\.[^'\\]*)*)'))(?:[ \t\n\r\\]+(?s:(?:"""([^\\]*?(?:\\.[^\\]*?)*?)"""|'''([^\\]*?(?:\\.[^\\]*?)*?)'''|"([^"\\]*(?:\\.[^"\\]*)*)"|'([^'\\]*(?:\\.[^'\\]*)*)')))*)\s*,"##;

/// A `pgettext` call: context and message literals.
pub const PYTHON_PGETTEXT_PATTERN: &'static str = r##"\b(?:pgettext|pgettext_lazy)\(\s*(?:(?s:(?:"""([^\\]*?(?:\\.[^\\]*?)*?)"""|'''([^\\]*?(?:\\.[^\\]*?)*?)'''|"([^"\\]*(?:\\.[^"\\]*)*)"|'([^'\\]*(?:\\.[^'\\]*)*)'))(?:[ \t\n\r\\]+(?s:(?:"""([^\\]*?(?:\\.[^\\]*?)*?)"""|'''([^\\]*?(?:\\.[^\\]*?)*?)'''|"([^"\\]*(?:\\.[^"\\]*)*)"|'([^'\\]*(?:\\.[^'\\]*)*)')))*)\s*,\s*(?:(?s:(?:"""([^\\]*?(?:\\.[^\\]*?)*?)"""|'''([^\\]*?(?:\\.[^\\]*?)*?)'''|"([^"\\]*(?:\\.[^"\\]*)*)"|'([^'\\]*(?:\\.[^'\\]*)*)'))(?:[ \t\n\r\\]+(?s:(?:"""([^\\]*?(?:\\.[^\\]*?)*?)"""|'''([^\\]*?(?:\\.[^\\]*?)*?)'''|"([^"\\]*(?:\\.[^"\\]*)*)"|'([^'\\]*(?:\\.[^'\\]*)*)')))*)\s*\)"##;

/// The head of an `npgettext` call: context, singular and plural literals.
pub const PYTHON_NPGETTEXT_PATTERN: &'static str = r##"\b(?:npgettext|npgettext_lazy)\(\s*(?:(?s:(?:"""([^\\]*?(?:\\.[^\\]*?)*?)"""|'''([^\\]*?(?:\\.[^\\]*?)*?)'''|"([^"\\]*(?:\\.[^"\\]*)*)"|'([^'\\]*(?:\\.[^'\\]*)*)'))(?:[ \t\n\r\\]+(?s:(?:"""([^\\]*?(?:\\.[^\\]*?)*?)"""|'''([^\\]*?(?:\\.[^\\]*?)*?)'''|"([^"\\]*(?:\\.[^"\\]*)*)"|'([^'\\]*(?:\\.[^'\\]*)*)')))*)\s*,\s*(?:(?s:(?:"""([^\\]*?(?:\\.[^\\]*?)*?)"""|'''([^\\]*?(?:\\.[^\\]*?)*?)'''|"([^"\\]*(?:\\.[^"\\]*)*)"|'([^'\\]*(?:\\.[^'\\]*)*)'))(?:[ \t\n\r\\]+(?s:(?:"""([^\\]*?(?:\\.[^\\]*?)*?)"""|'''([^\\]*?(?:\\.[^\\]*?)*?)'''|"([^"\\]*(?:\\.[^"\\]*)*)"|'([^'\\]*(?:\\.[^'\\]*)*)')))*)\s*,\s*(?:(?s:(?:"""([^\\]*?(?:\\.[^\\]*?)*?)"""|'''([^\\]*?(?:\\.[^\\]*?)*?)'''|"([^"\\]*(?:\\.[^"\\]*)*)"|'([^'\\]*(?:\\.[^'\\]*)*)'))(?:[ \t\n\r\\]+(?s:(?:"""([^\\]*?(?:\\.[^\\]*?)*?)"""|'''([^\\]*?(?:\\.[^\\]*?)*?)'''|"([^"\\]*(?:\\.[^"\\]*)*)"|'([^'\\]*(?:\\.[^'\\]*)*)')))*)\s*,"##;

/// Whether a source line is a `#` comment.
pub open spec fn is_comment_line(l: Seq<char>) -> bool {
    trim_seq(l).len() > 0 && trim_seq(l)[0] == '#'
}

/// The text of a `#` comment line.
pub open spec fn comment_text(l: Seq<char>) -> Seq<char> {
    trim_seq(trim_seq(l).drop_first())
}

/// The texts of the run of comment lines directly above line index `idx`,
/// top to bottom.
pub open spec fn comment_run(lines: Seq<Seq<char>>, idx: int) -> Seq<Seq<char>>
    decreases idx,
{
    if idx <= 0 || idx > lines.len() {
        seq![]
    } else if is_comment_line(lines[idx - 1]) {
        comment_run(lines, idx - 1).push(comment_text(lines[idx - 1]))
    } else {
        seq![]
    }
}

/// Index of the first piece that begins with `mark`, or -1.
pub open spec fn first_marked(b: Seq<Seq<char>>, mark: Seq<char>) -> int
    decreases b.len(),
{
    if b.len() == 0 {
        -1
    } else if has_prefix(b[0], mark) {
        0
    } else {
        let k = first_marked(b.drop_first(), mark);
        if k < 0 {
            -1
        } else {
            k + 1
        }
    }
}

pub proof fn lemma_first_marked(b: Seq<Seq<char>>, mark: Seq<char>)
    ensures
        -1 <= first_marked(b, mark) < b.len(),
        first_marked(b, mark) >= 0 ==> has_prefix(b[first_marked(b, mark)], mark),
        forall|k: int|
            0 <= k < b.len() && (first_marked(b, mark) < 0 || k < first_marked(b, mark))
                ==> !has_prefix(#[trigger] b[k], mark),
    decreases b.len(),
{
    if b.len() > 0 && !has_prefix(b[0], mark) {
        lemma_first_marked(b.drop_first(), mark);
        assert forall|k: int|
            0 <= k < b.len() && (first_marked(b, mark) < 0 || k < first_marked(b, mark))
                implies !has_prefix(#[trigger] b[k], mark) by {
            if k > 0 {
                assert(b[k] == b.drop_first()[k - 1]);
            }
        }
    }
}

pub proof fn lemma_first_marked_unique(b: Seq<Seq<char>>, mark: Seq<char>, p: int)
    requires
        0 <= p < b.len(),
        has_prefix(b[p], mark),
        forall|k: int| 0 <= k < p ==> !has_prefix(#[trigger] b[k], mark),
    ensures
        first_marked(b, mark) == p,
{
    lemma_first_marked(b, mark);
}

/// The `Translators:` comments xgettext attaches to a string starting on
/// 1-based line `line`: the comment run right above it, from the first
/// comment that starts with the mark.
pub open spec fn python_comments_at(lines: Seq<Seq<char>>, line: int) -> Seq<Seq<char>> {
    if 1 <= line <= lines.len() {
        let b = comment_run(lines, line - 1);
        let p = first_marked(b, TRANSLATOR_COMMENT_MARK@);
        if p >= 0 {
            b.skip(p)
        } else {
            seq![]
        }
    } else {
        seq![]
    }
}

pub fn is_comment_line_exec(l: &[char]) -> (r: bool)
    ensures
        r == is_comment_line(l@),
{
    let t = trim(l);
    t.len() > 0 && t[0] == '#'
}

/// Owned strings of the given character sequences.
pub fn strings_of(v: &[Vec<char>]) -> (r: Vec<String>)
    ensures
        strings_view(r@) == seqs_of(v@),
{
    let mut out: Vec<String> = Vec::new();
    let mut i: usize = 0;
    while i < v.len()
        invariant
            i <= v@.len(),
            strings_view(out@) == seqs_of(v@).take(i as int),
        decreases v@.len() - i,
    {
        let ghost before = out@;
        out.push(string_of(v[i].as_slice()));
        assert(strings_view(out@) == strings_view(before).push(v@[i as int]@));
        assert(seqs_of(v@).take(i + 1) == seqs_of(v@).take(i as int).push(v@[i as int]@));
        i += 1;
    }
    assert(seqs_of(v@).take(v@.len() as int) == seqs_of(v@));
    out
}

/// The `Translators:` comments for a string starting on 1-based line `line`
/// of a Python source split into `lines`.
pub fn python_translator_comments(lines: &Vec<Vec<char>>, line: usize) -> (r: Vec<String>)
    ensures
        strings_view(r@) == python_comments_at(seqs_of(lines@), line as int),
{
    let ghost ls = seqs_of(lines@);
    if line < 1 || line > lines.len() {
        return Vec::new();
    }
    let idx = line - 1;
    let mut cursor = idx;
    while cursor > 0 && is_comment_line_exec(lines[cursor - 1].as_slice())
        invariant
            ls == seqs_of(lines@),
            cursor <= idx < lines@.len(),
            forall|j: int| cursor <= j < idx ==> is_comment_line(#[trigger] ls[j]),
        decreases cursor,
    {
        cursor -= 1;
    }
    assert(comment_run(ls, cursor as int) == Seq::<Seq<char>>::empty());
    let mut block: Vec<Vec<char>> = Vec::new();
    let mut j = cursor;
    while j < idx
        invariant
            ls == seqs_of(lines@),
            cursor <= j <= idx < lines@.len(),
            forall|k: int| cursor <= k < idx ==> is_comment_line(#[trigger] ls[k]),
            seqs_of(block@) == comment_run(ls, j as int),
        decreases idx - j,
    {
        let t = trim(lines[j].as_slice());
        assert(is_comment_line(ls[j as int]));
        let text = trim(&t[1..t.len()]);
        assert(t@.drop_first() == t@.subrange(1, t@.len() as int));
        let ghost before = block@;
        block.push(vstd::slice::slice_to_vec(text));
        assert(seqs_of(block@) == seqs_of(before).push(text@));
        j += 1;
    }
    let ghost b = seqs_of(block@);
    let mark = chars_of(TRANSLATOR_COMMENT_MARK);
    let mut p: usize = 0;
    while p < block.len()
        invariant
            b == seqs_of(block@),
            b == comment_run(ls, line - 1),
            mark@ == TRANSLATOR_COMMENT_MARK@,
            ls == seqs_of(lines@),
            1 <= line <= ls.len(),
            p <= block@.len(),
            forall|k: int| 0 <= k < p ==> !has_prefix(#[trigger] b[k], mark@),
        decreases block@.len() - p,
    {
        if crate::text::starts_with(block[p].as_slice(), mark.as_slice()) {
            proof {
                assert(b[p as int] == block@[p as int]@);
                lemma_first_marked_unique(b, mark@, p as int);
            }
            let tail = &block[p..block.len()];
            assert(seqs_of(tail@) == b.skip(p as int));
            return strings_of(tail);
        }
        proof {
            assert(b[p as int] == block@[p as int]@);
        }
        p += 1;
    }
    proof {
        lemma_first_marked(b, mark@);
    }
    Vec::new()
}


/// The reference `file:line` of a message.
pub open spec fn reference_for(file_ref: Seq<char>, line: int) -> Seq<char> {
    file_ref + seq![':'] + decimal(line as nat)
}

pub open spec fn located_entry(
    msgid: Seq<char>,
    msgid_plural: Option<Seq<char>>,
    msgctxt: Option<Seq<char>>,
    file_ref: Seq<char>,
    line: int,
    comments: Seq<Seq<char>>,
) -> EntryView {
    EntryView {
        msgid,
        msgid_plural,
        msgctxt,
        references: seq![reference_for(file_ref, line)],
        comments,
    }
}

/// The four gettext call shapes of Python sources.
#[derive(Clone, Copy, PartialEq, Eq, Debug)]
pub enum CallKind {
    Gettext,
    Ngettext,
    Pgettext,
    Npgettext,
}

/// The argument text of a matched call: what follows its first `(`, without
/// the closing `)` when the match includes it.
pub open spec fn call_args_inner(m: Seq<char>, closed: bool) -> Option<Seq<char>> {
    let p = index_of(m, '(');
    if p < 0 {
        None
    } else if closed {
        if p + 1 <= m.len() - 1 {
            Some(m.subrange(p + 1, m.len() - 1))
        } else {
            None
        }
    } else {
        Some(m.skip(p + 1))
    }
}

/// The message a matched gettext call of the given shape yields, with the
/// character position at which the match starts.
pub open spec fn call_entry(
    kind: CallKind,
    content: Seq<char>,
    lines: Seq<Seq<char>>,
    file_ref: Seq<char>,
    span: (usize, usize),
) -> Option<(int, EntryView)> {
    match char_span(content, span) {
        None => None,
        Some((a, b)) => {
            let m = content.subrange(a, b);
            let line = line_number(content, a);
            let comments = python_comments_at(lines, line);
            match kind {
                CallKind::Gettext => match call_args_inner(m, true) {
                    None => None,
                    Some(inner) => {
                        let id = concat_strings(trim_seq(inner));
                        if id.len() == 0 {
                            None
                        } else {
                            Some((a, located_entry(id, None, None, file_ref, line, comments)))
                        }
                    },
                },
                CallKind::Ngettext => match call_args_inner(m, false) {
                    None => None,
                    Some(inner) => {
                        let args = split_args_seq(inner);
                        if args.len() < 2 {
                            None
                        } else {
                            let sg = concat_strings(args[0]);
                            let pl = concat_strings(args[1]);
                            if sg.len() == 0 || pl.len() == 0 {
                                None
                            } else {
                                Some(
                                    (a, located_entry(sg, Some(pl), None, file_ref, line, comments)),
                                )
                            }
                        }
                    },
                },
                CallKind::Pgettext => match call_args_inner(m, true) {
                    None => None,
                    Some(inner) => {
                        let args = split_args_seq(inner);
                        if args.len() < 2 {
                            None
                        } else {
                            let ctx = concat_strings(args[0]);
                            let id = concat_strings(args[1]);
                            if id.len() == 0 {
                                None
                            } else {
                                Some(
                                    (a, located_entry(id, None, Some(ctx), file_ref, line, comments)),
                                )
                            }
                        }
                    },
                },
                CallKind::Npgettext => match call_args_inner(m, false) {
                    None => None,
                    Some(inner) => {
                        let args = split_args_seq(inner);
                        if args.len() < 3 {
                            None
                        } else {
                            let ctx = concat_strings(args[0]);
                            let sg = concat_strings(args[1]);
                            let pl = concat_strings(args[2]);
                            if sg.len() == 0 || pl.len() == 0 {
                                None
                            } else {
                                Some(
                                    (
                                        a,
                                        located_entry(
                                            sg,
                                            Some(pl),
                                            Some(ctx),
                                            file_ref,
                                            line,
                                            comments,
                                        ),
                                    ),
                                )
                            }
                        }
                    },
                },
            }
        },
    }
}

pub open spec fn opt_seq<T>(o: Option<T>) -> Seq<T> {
    match o {
        Some(x) => seq![x],
        None => seq![],
    }
}

/// The messages of the matches of one call shape, in match order.
pub open spec fn call_candidates(
    kind: CallKind,
    content: Seq<char>,
    lines: Seq<Seq<char>>,
    file_ref: Seq<char>,
    spans: Seq<Option<(usize, usize)>>,
) -> Seq<(int, EntryView)>
    decreases spans.len(),
{
    if spans.len() == 0 {
        seq![]
    } else {
        call_candidates(kind, content, lines, file_ref, spans.drop_last()) + match spans.last() {
            Some(sp) => opt_seq(call_entry(kind, content, lines, file_ref, sp)),
            None => seq![],
        }
    }
}

/// Spans that all took part, as the possibly-failed kind.
pub open spec fn all_found(spans: Seq<(usize, usize)>) -> Seq<Option<(usize, usize)>> {
    spans.map_values(|sp: (usize, usize)| Some(sp))
}

/// Where `x` goes in a list ordered by position: after every element whose
/// position is not greater.
pub open spec fn insert_pos(s: Seq<(int, EntryView)>, key: int) -> int
    decreases s.len(),
{
    if s.len() == 0 {
        0
    } else if s[0].0 > key {
        0
    } else {
        1 + insert_pos(s.drop_first(), key)
    }
}

/// Stable sort by position (elements with equal positions keep their order).
pub open spec fn sort_by_position(s: Seq<(int, EntryView)>) -> Seq<(int, EntryView)>
    decreases s.len(),
{
    if s.len() == 0 {
        s
    } else {
        let t = sort_by_position(s.drop_last());
        t.insert(insert_pos(t, s.last().0), s.last())
    }
}

/// The candidates are in source order.
pub open spec fn in_source_order(s: Seq<(int, EntryView)>) -> bool {
    forall|i: int, j: int| 0 <= i < j < s.len() ==> (#[trigger] s[i]).0 <= (#[trigger] s[j]).0
}

proof fn lemma_insert_pos_facts(t: Seq<(int, EntryView)>, key: int)
    ensures
        forall|i: int| 0 <= i < insert_pos(t, key) ==> (#[trigger] t[i]).0 <= key,
        insert_pos(t, key) < t.len() ==> t[insert_pos(t, key)].0 > key,
        0 <= insert_pos(t, key) <= t.len(),
    decreases t.len(),
{
    if t.len() > 0 && t[0].0 <= key {
        lemma_insert_pos_facts(t.drop_first(), key);
        assert forall|i: int| 0 <= i < insert_pos(t, key) implies (#[trigger] t[i]).0 <= key by {
            if i > 0 {
                assert(t[i] == t.drop_first()[i - 1]);
            }
        }
    }
}

/// Sorting the candidates puts them in source order and keeps every one.
pub proof fn law_sort_by_position(s: Seq<(int, EntryView)>)
    ensures
        in_source_order(sort_by_position(s)),
        sort_by_position(s).to_multiset() == s.to_multiset(),
    decreases s.len(),
{
    if s.len() > 0 {
        law_sort_by_position(s.drop_last());
        let t = sort_by_position(s.drop_last());
        let x = s.last();
        let k = insert_pos(t, x.0);
        lemma_insert_pos_facts(t, x.0);
        let u = t.insert(k, x);
        assert forall|i: int, j: int| 0 <= i < j < u.len() implies (#[trigger] u[i]).0 <= (
        #[trigger] u[j]).0 by {
            if i < k && j == k {
                assert(u[i] == t[i]);
            } else if i == k && j > k {
                assert(u[j] == t[j - 1]);
                assert(t[k].0 <= t[j - 1].0);
            } else if j < k {
                assert(u[i] == t[i] && u[j] == t[j]);
            } else if i < k && j > k {
                assert(u[i] == t[i] && u[j] == t[j - 1]);
            } else {
                assert(u[i] == t[i - 1] && u[j] == t[j - 1]);
            }
        }
        vstd::seq_lib::to_multiset_insert(t, k, x);
        vstd::seq_lib::to_multiset_build(s.drop_last(), x);
        assert(s.drop_last().push(x) =~= s);
    } else {
        assert(sort_by_position(s).to_multiset() =~= s.to_multiset());
    }
}

pub open spec fn without_positions(s: Seq<(int, EntryView)>) -> Seq<EntryView> {
    s.map_values(|c: (int, EntryView)| c.1)
}

/// The messages of a Python source, in source order, given the matches of
/// each call pattern.
pub open spec fn python_entries_spec(
    content: Seq<char>,
    file_ref: Seq<char>,
    gettext: Seq<Option<(usize, usize)>>,
    ngettext: Seq<(usize, usize)>,
    pgettext: Seq<(usize, usize)>,
    npgettext: Seq<(usize, usize)>,
) -> Seq<EntryView> {
    let lines = lines_of(content);
    without_positions(
        sort_by_position(
            call_candidates(CallKind::Gettext, content, lines, file_ref, gettext)
                + call_candidates(CallKind::Ngettext, content, lines, file_ref, all_found(ngettext))
                + call_candidates(CallKind::Pgettext, content, lines, file_ref, all_found(pgettext))
                + call_candidates(
                CallKind::Npgettext,
                content,
                lines,
                file_ref,
                all_found(npgettext),
            ),
        ),
    )
}

/// A candidate message: a non-empty msgid, and the one reference to the
/// line its call starts on.
pub open spec fn cand_ok(c: (int, EntryView), content: Seq<char>, file_ref: Seq<char>) -> bool {
    &&& c.1.msgid.len() > 0
    &&& c.1.references == seq![reference_for(file_ref, line_number(content, c.0))]
}

proof fn lemma_call_candidates_ok(
    kind: CallKind,
    content: Seq<char>,
    file_ref: Seq<char>,
    spans: Seq<Option<(usize, usize)>>,
)
    ensures
        forall|j: int|
            0 <= j < call_candidates(kind, content, lines_of(content), file_ref, spans).len()
                ==> cand_ok(
                #[trigger] call_candidates(kind, content, lines_of(content), file_ref, spans)[j],
                content,
                file_ref,
            ),
    decreases spans.len(),
{
    if spans.len() > 0 {
        lemma_call_candidates_ok(kind, content, file_ref, spans.drop_last());
        let r = call_candidates(kind, content, lines_of(content), file_ref, spans.drop_last());
        let all = call_candidates(kind, content, lines_of(content), file_ref, spans);
        assert forall|j: int| 0 <= j < all.len() implies cand_ok(#[trigger] all[j], content, file_ref) by {
            if j < r.len() {
                assert(all[j] == r[j]);
            }
        }
    }
}

/// The messages of a Python source come in source order, each with a
/// non-empty msgid and the one reference `file:line` of the line its call
/// starts on.
pub proof fn law_python_entries(
    content: Seq<char>,
    file_ref: Seq<char>,
    gettext: Seq<Option<(usize, usize)>>,
    ngettext: Seq<(usize, usize)>,
    pgettext: Seq<(usize, usize)>,
    npgettext: Seq<(usize, usize)>,
)
    ensures
        ({
            let lines = lines_of(content);
            let s = sort_by_position(
                call_candidates(CallKind::Gettext, content, lines, file_ref, gettext)
                    + call_candidates(CallKind::Ngettext, content, lines, file_ref, all_found(ngettext))
                    + call_candidates(CallKind::Pgettext, content, lines, file_ref, all_found(pgettext))
                    + call_candidates(
                    CallKind::Npgettext,
                    content,
                    lines,
                    file_ref,
                    all_found(npgettext),
                ),
            );
            &&& python_entries_spec(content, file_ref, gettext, ngettext, pgettext, npgettext)
                == without_positions(s)
            &&& in_source_order(s)
            &&& forall|j: int| 0 <= j < s.len() ==> cand_ok(#[trigger] s[j], content, file_ref)
        }),
{
    let lines = lines_of(content);
    let a = call_candidates(CallKind::Gettext, content, lines, file_ref, gettext);
    let b = call_candidates(CallKind::Ngettext, content, lines, file_ref, all_found(ngettext));
    let c = call_candidates(CallKind::Pgettext, content, lines, file_ref, all_found(pgettext));
    let d = call_candidates(CallKind::Npgettext, content, lines, file_ref, all_found(npgettext));
    lemma_call_candidates_ok(CallKind::Gettext, content, file_ref, gettext);
    lemma_call_candidates_ok(CallKind::Ngettext, content, file_ref, all_found(ngettext));
    lemma_call_candidates_ok(CallKind::Pgettext, content, file_ref, all_found(pgettext));
    lemma_call_candidates_ok(CallKind::Npgettext, content, file_ref, all_found(npgettext));
    let all = a + b + c + d;
    assert forall|j: int| 0 <= j < all.len() implies cand_ok(#[trigger] all[j], content, file_ref) by {
        if j < a.len() {
            assert(all[j] == a[j]);
        } else if j < a.len() + b.len() {
            assert(all[j] == b[j - a.len()]);
        } else if j < a.len() + b.len() + c.len() {
            assert(all[j] == c[j - a.len() - b.len()]);
        } else {
            assert(all[j] == d[j - a.len() - b.len() - c.len()]);
        }
    }
    law_sort_by_position(all);
    let s = sort_by_position(all);
    assert forall|j: int| 0 <= j < s.len() implies cand_ok(#[trigger] s[j], content, file_ref) by {
        vstd::seq_lib::to_multiset_contains(s, s[j]);
        assert(s.contains(s[j]));
        assert(s.to_multiset().count(s[j]) > 0) by {
            broadcast use vstd::seq_lib::group_to_multiset_ensures;
        }
        assert(all.to_multiset().count(s[j]) > 0);
        broadcast use vstd::seq_lib::group_to_multiset_ensures;
        assert(all.contains(s[j]));
        let q = choose|q: int| 0 <= q < all.len() && all[q] == s[j];
        assert(cand_ok(all[q], content, file_ref));
    }
}

pub open spec fn cand_views(v: Seq<(usize, TranslationEntry)>) -> Seq<(int, EntryView)> {
    v.map_values(|c: (usize, TranslationEntry)| (c.0 as int, c.1@))
}

pub open spec fn opt_cand_view(o: Option<(usize, TranslationEntry)>) -> Option<(int, EntryView)> {
    match o {
        Some(c) => Some((c.0 as int, c.1@)),
        None => None,
    }
}

fn opt_string(o: Option<Vec<char>>) -> (r: Option<String>)
    ensures
        opt_view(r) == match o {
            Some(v) => Some(v@),
            None => None::<Seq<char>>,
        },
{
    match o {
        Some(v) => Some(string_of(v.as_slice())),
        None => None,
    }
}

/// A message with one `file:line` reference.
pub fn make_located_entry(
    msgid: Vec<char>,
    msgid_plural: Option<Vec<char>>,
    msgctxt: Option<Vec<char>>,
    file_ref: &[char],
    line: usize,
    comments: Vec<String>,
) -> (r: TranslationEntry)
    ensures
        r@ == located_entry(
            msgid@,
            match msgid_plural {
                Some(v) => Some(v@),
                None => None,
            },
            match msgctxt {
                Some(v) => Some(v@),
                None => None,
            },
            file_ref@,
            line as int,
            strings_view(comments@),
        ),
{
    let mut r: Vec<char> = vstd::slice::slice_to_vec(file_ref);
    r.push(':');
    assert(r@ =~= file_ref@ + seq![':']);
    push_decimal(&mut r, line as u64);
    assert(r@ =~= reference_for(file_ref@, line as int));
    let reference = string_of(r.as_slice());
    let mut references: Vec<String> = Vec::new();
    references.push(reference);
    assert(strings_view(references@) =~= seq![reference_for(file_ref@, line as int)]);
    TranslationEntry {
        msgid: string_of(msgid.as_slice()),
        msgid_plural: opt_string(msgid_plural),
        msgctxt: opt_string(msgctxt),
        references,
        comments,
    }
}

fn call_args_inner_exec(m: &[char], closed: bool) -> (r: Option<&[char]>)
    ensures
        match r {
            Some(x) => call_args_inner(m@, closed) == Some(x@),
            None => call_args_inner(m@, closed) is None,
        },
{
    match find_char(m, '(') {
        None => None,
        Some(p) => {
            proof {
                lemma_index_of(m@, '(');
            }
            let len = m.len();
            assert(p < len);
            if closed {
                if len - p >= 2 {
                    Some(&m[p + 1..len - 1])
                } else {
                    None
                }
            } else {
                let r = &m[p + 1..len];
                assert(r@ == m@.skip(p + 1));
                Some(r)
            }
        },
    }
}

/// The message one matched gettext call yields, with the character position
/// of the match.
pub fn call_entry_exec(
    kind: CallKind,
    content: &[char],
    pos: &CharPositions,
    lines: &Vec<Vec<char>>,
    file_ref: &[char],
    span: (usize, usize),
) -> (r: Option<(usize, TranslationEntry)>)
    requires
        pos.describes(content@),
        content@.len() < usize::MAX,
    ensures
        opt_cand_view(r) == call_entry(kind, content@, seqs_of(lines@), file_ref@, span),
{
    let (a, b) = match pos.span(content, span) {
        None => return None,
        Some(ab) => ab,
    };
    let m = &content[a..b];
    let line = line_num_at(content, a);
    let comments = python_translator_comments(lines, line);
    match kind {
        CallKind::Gettext => match call_args_inner_exec(m, true) {
            None => None,
            Some(inner) => {
                let id = extract_concat_from_text(trim(inner));
                if id.len() == 0 {
                    None
                } else {
                    Some((a, make_located_entry(id, None, None, file_ref, line, comments)))
                }
            },
        },
        CallKind::Ngettext => match call_args_inner_exec(m, false) {
            None => None,
            Some(inner) => {
                let args = split_args(inner);
                if args.len() < 2 {
                    None
                } else {
                    let sg = extract_concat_from_text(args[0].as_slice());
                    let pl = extract_concat_from_text(args[1].as_slice());
                    if sg.len() == 0 || pl.len() == 0 {
                        None
                    } else {
                        Some((a, make_located_entry(sg, Some(pl), None, file_ref, line, comments)))
                    }
                }
            },
        },
        CallKind::Pgettext => match call_args_inner_exec(m, true) {
            None => None,
            Some(inner) => {
                let args = split_args(inner);
                if args.len() < 2 {
                    None
                } else {
                    let ctx = extract_concat_from_text(args[0].as_slice());
                    let id = extract_concat_from_text(args[1].as_slice());
                    if id.len() == 0 {
                        None
                    } else {
                        Some((a, make_located_entry(id, None, Some(ctx), file_ref, line, comments)))
                    }
                }
            },
        },
        CallKind::Npgettext => match call_args_inner_exec(m, false) {
            None => None,
            Some(inner) => {
                let args = split_args(inner);
                if args.len() < 3 {
                    None
                } else {
                    let ctx = extract_concat_from_text(args[0].as_slice());
                    let sg = extract_concat_from_text(args[1].as_slice());
                    let pl = extract_concat_from_text(args[2].as_slice());
                    if sg.len() == 0 || pl.len() == 0 {
                        None
                    } else {
                        Some(
                            (
                                a,
                                make_located_entry(
                                    sg,
                                    Some(pl),
                                    Some(ctx),
                                    file_ref,
                                    line,
                                    comments,
                                ),
                            ),
                        )
                    }
                }
            },
        },
    }
}


/// Appends the messages of the matches of one call shape, in match order.
pub fn collect_calls(
    kind: CallKind,
    content: &[char],
    pos: &CharPositions,
    lines: &Vec<Vec<char>>,
    file_ref: &[char],
    spans: &Vec<Option<(usize, usize)>>,
    out: &mut Vec<(usize, TranslationEntry)>,
)
    requires
        pos.describes(content@),
        content@.len() < usize::MAX,
    ensures
        cand_views(final(out)@) == cand_views(old(out)@) + call_candidates(
            kind,
            content@,
            seqs_of(lines@),
            file_ref@,
            spans@,
        ),
{
    let ghost start = cand_views(out@);
    let mut i: usize = 0;
    assert(spans@.take(0) =~= Seq::<Option<(usize, usize)>>::empty());
    assert(start + Seq::<(int, EntryView)>::empty() == start);
    while i < spans.len()
        invariant
            i <= spans@.len(),
            pos.describes(content@),
            content@.len() < usize::MAX,
            cand_views(out@) == start + call_candidates(
                kind,
                content@,
                seqs_of(lines@),
                file_ref@,
                spans@.take(i as int),
            ),
        decreases spans@.len() - i,
    {
        assert(spans@.take(i + 1).drop_last() == spans@.take(i as int));
        assert(spans@.take(i + 1).last() == spans@[i as int]);
        let ghost before = cand_views(out@);
        match spans[i] {
            Some(sp) => match call_entry_exec(kind, content, pos, lines, file_ref, sp) {
                Some(c) => {
                    out.push(c);
                    assert(cand_views(out@) == before.push((c.0 as int, c.1@)));
                },
                None => {
                    assert(before + Seq::<(int, EntryView)>::empty() == before);
                },
            },
            None => {
                assert(before + Seq::<(int, EntryView)>::empty() == before);
            },
        }
        i += 1;
    }
    assert(spans@.take(spans@.len() as int) == spans@);
}

/// Spans that all took part, in the form of a search that may fail per match.
pub fn all_found_exec(spans: &Vec<(usize, usize)>) -> (r: Vec<Option<(usize, usize)>>)
    ensures
        r@ == all_found(spans@),
{
    let mut out: Vec<Option<(usize, usize)>> = Vec::new();
    let mut i: usize = 0;
    while i < spans.len()
        invariant
            i <= spans@.len(),
            out@ == all_found(spans@.take(i as int)),
        decreases spans@.len() - i,
    {
        out.push(Some(spans[i]));
        assert(all_found(spans@.take(i + 1)) =~= all_found(spans@.take(i as int)).push(
            Some(spans@[i as int]),
        ));
        i += 1;
    }
    assert(spans@.take(spans@.len() as int) == spans@);
    out
}

pub proof fn lemma_insert_pos_bounds(s: Seq<(int, EntryView)>, key: int)
    ensures
        0 <= insert_pos(s, key) <= s.len(),
    decreases s.len(),
{
    if s.len() > 0 && s[0].0 <= key {
        lemma_insert_pos_bounds(s.drop_first(), key);
    }
}

/// Inserts `x` after every element whose position is not greater than its own.
pub fn insert_by_position(sorted: &mut Vec<(usize, TranslationEntry)>, x: (usize, TranslationEntry))
    ensures
        cand_views(final(sorted)@) == cand_views(old(sorted)@).insert(
            insert_pos(cand_views(old(sorted)@), x.0 as int),
            (x.0 as int, x.1@),
        ),
{
    let ghost cv = cand_views(sorted@);
    let key = x.0;
    let mut k: usize = 0;
    assert(cv.skip(0) == cv);
    while k < sorted.len() && sorted[k].0 <= key
        invariant
            cv == cand_views(sorted@),
            k <= sorted@.len(),
            insert_pos(cv, key as int) == k + insert_pos(cv.skip(k as int), key as int),
        decreases sorted@.len() - k,
    {
        assert(cv.skip(k as int)[0] == cv[k as int]);
        assert(cv.skip(k as int).drop_first() == cv.skip(k + 1));
        k += 1;
    }
    proof {
        if k < sorted@.len() {
            assert(cv.skip(k as int)[0] == cv[k as int]);
        }
    }
    sorted.insert(k, x);
    assert(cand_views(sorted@) =~= cv.insert(k as int, (x.0 as int, x.1@)));
}

/// Stable sort of candidates by position.
pub fn sort_candidates(cands: Vec<(usize, TranslationEntry)>) -> (r: Vec<(usize, TranslationEntry)>)
    ensures
        cand_views(r@) == sort_by_position(cand_views(cands@)),
{
    let ghost cv = cand_views(cands@);
    let mut out: Vec<(usize, TranslationEntry)> = Vec::new();
    let mut rest = cands;
    let ghost mut taken: Seq<(int, EntryView)> = Seq::empty();
    assert(cv =~= taken + cand_views(rest@));
    while rest.len() > 0
        invariant
            cv == taken + cand_views(rest@),
            cand_views(out@) == sort_by_position(taken),
        decreases rest@.len(),
    {
        let ghost old_rest = cand_views(rest@);
        let c = rest.remove(0);
        let ghost cview = (c.0 as int, c.1@);
        assert(old_rest =~= seq![cview] + cand_views(rest@));
        insert_by_position(&mut out, c);
        proof {
            assert(taken.push(cview).drop_last() == taken);
            taken = taken.push(cview);
        }
        assert(cv =~= taken + cand_views(rest@));
    }
    assert(cand_views(rest@) =~= Seq::<(int, EntryView)>::empty());
    assert(cv =~= taken);
    out
}


/// The messages of position-tagged candidates, in order.
pub fn entries_of_candidates(cands: Vec<(usize, TranslationEntry)>) -> (r: Vec<TranslationEntry>)
    ensures
        entry_views(r@) == without_positions(cand_views(cands@)),
{
    let ghost cv = cand_views(cands@);
    let mut out: Vec<TranslationEntry> = Vec::new();
    let mut rest = cands;
    let ghost mut taken: Seq<(int, EntryView)> = Seq::empty();
    assert(cv =~= taken + cand_views(rest@));
    assert(entry_views(out@) =~= without_positions(taken));
    while rest.len() > 0
        invariant
            cv == taken + cand_views(rest@),
            entry_views(out@) == without_positions(taken),
        decreases rest@.len(),
    {
        let ghost old_rest = cand_views(rest@);
        let (k, e) = rest.remove(0);
        let ghost cview = (k as int, e@);
        assert(old_rest =~= seq![cview] + cand_views(rest@));
        let ghost before = out@;
        out.push(e);
        proof {
            taken = taken.push(cview);
        }
        assert(entry_views(out@) =~= without_positions(taken)) by {
            assert(entry_views(out@) =~= entry_views(before).push(cview.1));
        }
        assert(cv =~= taken + cand_views(rest@));
    }
    assert(cand_views(rest@) =~= Seq::<(int, EntryView)>::empty());
    assert(cv =~= taken);
    out
}

/// The messages of a Python source, in source order, from the matches of the
/// four call patterns (`gettext` matches may have failed individually).
pub fn python_entries_from_spans(
    content: &[char],
    file_ref: &[char],
    gettext: &Vec<Option<(usize, usize)>>,
    ngettext: &Vec<(usize, usize)>,
    pgettext: &Vec<(usize, usize)>,
    npgettext: &Vec<(usize, usize)>,
) -> (r: Vec<TranslationEntry>)
    requires
        content@.len() < usize::MAX,
    ensures
        entry_views(r@) == python_entries_spec(
            content@,
            file_ref@,
            gettext@,
            ngettext@,
            pgettext@,
            npgettext@,
        ),
{
    let pos = CharPositions::new(content);
    let ls = lines(content);
    let mut cands: Vec<(usize, TranslationEntry)> = Vec::new();
    collect_calls(CallKind::Gettext, content, &pos, &ls, file_ref, gettext, &mut cands);
    let n = all_found_exec(ngettext);
    collect_calls(CallKind::Ngettext, content, &pos, &ls, file_ref, &n, &mut cands);
    let p = all_found_exec(pgettext);
    collect_calls(CallKind::Pgettext, content, &pos, &ls, file_ref, &p, &mut cands);
    let np = all_found_exec(npgettext);
    collect_calls(CallKind::Npgettext, content, &pos, &ls, file_ref, &np, &mut cands);
    let sorted = sort_candidates(cands);
    entries_of_candidates(sorted)
}

/// The result of a search, or no matches when the pattern did not compile.
pub open spec fn or_empty<T>(o: Option<Seq<T>>) -> Seq<T> {
    match o {
        Some(s) => s,
        None => seq![],
    }
}

fn spans_or_empty<T>(o: Option<Vec<T>>) -> (r: Vec<T>)
    ensures
        r@ == or_empty(
            match o {
                Some(v) => Some(v@),
                None => None,
            },
        ),
{
    match o {
        Some(v) => v,
        None => Vec::new(),
    }
}

/// The messages of a Python (or JavaScript) source, as the four call patterns
/// find them, in source order; each carries the reference `file_path:line`.
pub open spec fn extract_from_python_spec(content: Seq<char>, file_path: Seq<char>) -> Seq<EntryView> {
    python_entries_spec(
        content,
        file_path,
        or_empty(fancy_find_spans(PYTHON_GETTEXT_PATTERN@, content)),
        or_empty(regex_find_spans(PYTHON_NGETTEXT_PATTERN@, content)),
        or_empty(regex_find_spans(PYTHON_PGETTEXT_PATTERN@, content)),
        or_empty(regex_find_spans(PYTHON_NPGETTEXT_PATTERN@, content)),
    )
}

pub fn extract_from_python(content: &str, file_path: &str) -> (r: Vec<TranslationEntry>)
    requires
        content@.len() < usize::MAX,
    ensures
        entry_views(r@) == extract_from_python_spec(content@, file_path@),
{
    let chars = chars_of(content);
    let file_ref = chars_of(file_path);
    let g = fancy_find(PYTHON_GETTEXT_PATTERN, content);
    let n = find_spans(PYTHON_NGETTEXT_PATTERN, content);
    let p = find_spans(PYTHON_PGETTEXT_PATTERN, content);
    let np = find_spans(PYTHON_NPGETTEXT_PATTERN, content);
    python_entries_from_spans(
        &chars,
        &file_ref,
        &spans_or_empty(g),
        &spans_or_empty(n),
        &spans_or_empty(p),
        &spans_or_empty(np),
    )
}


/// Extensions of the files read as Python source; JavaScript shares its
/// gettext call syntax and quoting.
pub open spec fn scanned_as_python(ext: Seq<char>) -> bool {
    ext == "py"@ || ext == "js"@ || ext == "mjs"@ || ext == "cjs"@ || ext == "ts"@
}

fn is_extension(ext: &[char], name: &str) -> (r: bool)
    ensures
        r == (ext@ == name@),
{
    let n = chars_of(name);
    crate::text::chars_eq(ext, n.as_slice())
}

/// The messages of a source file, given its text, its path and the
/// extension of its name: Python and JavaScript sources are scanned for
/// gettext calls, anything else is read as a template.
pub fn extract_source(content: &str, file_path: &str, extension: &str) -> (r: Vec<
    TranslationEntry,
>)
    requires
        crate::matching::byte_len(content@) < usize::MAX - 1,
    ensures
        entry_views(r@) == if scanned_as_python(extension@) {
            extract_from_python_spec(content@, file_path@)
        } else {
            crate::template::extract_from_template_spec(content@, file_path@)
        },
{
    proof {
        crate::template::lemma_blank_len(content@);
    }
    let e = chars_of(extension);
    let e = e.as_slice();
    if is_extension(e, "py") || is_extension(e, "js") || is_extension(e, "mjs") || is_extension(
        e,
        "cjs",
    ) || is_extension(e, "ts") {
        extract_from_python(content, file_path)
    } else {
        extract_from_template(content, file_path)
    }
}

/// The calls with a context (`pgettext`, `npgettext`) give their message
/// that context: the string contents of their first argument; the calls
/// without one (`gettext`, `ngettext`) give none. The plural calls
/// (`ngettext`, `npgettext`) give a plural form, the others none. The
/// singular and plural are the string contents of the arguments after the
/// context, in order; a call gives no message with an empty msgid.
pub proof fn law_call_context_and_plural(
    kind: CallKind,
    content: Seq<char>,
    lines: Seq<Seq<char>>,
    file_ref: Seq<char>,
    span: (usize, usize),
)
    requires
        call_entry(kind, content, lines, file_ref, span) is Some,
    ensures
        ({
            let (a, e) = call_entry(kind, content, lines, file_ref, span).unwrap();
            let (a0, b0) = char_span(content, span).unwrap();
            let m = content.subrange(a0, b0);
            &&& kind == CallKind::Npgettext ==> e.msgctxt == Some(
                concat_strings(split_args_seq(call_args_inner(m, false).unwrap())[0]),
            )
            &&& kind == CallKind::Pgettext ==> e.msgctxt == Some(
                concat_strings(split_args_seq(call_args_inner(m, true).unwrap())[0]),
            )
            &&& (kind == CallKind::Gettext || kind == CallKind::Ngettext) ==> e.msgctxt is None
            &&& (e.msgid_plural is Some <==> (kind == CallKind::Ngettext || kind
                == CallKind::Npgettext))
            &&& kind == CallKind::Gettext ==> e.msgid == concat_strings(
                trim_seq(call_args_inner(m, true).unwrap()),
            )
            &&& kind == CallKind::Ngettext ==> e.msgid == concat_strings(
                split_args_seq(call_args_inner(m, false).unwrap())[0],
            ) && e.msgid_plural == Some(
                concat_strings(split_args_seq(call_args_inner(m, false).unwrap())[1]),
            )
            &&& kind == CallKind::Pgettext ==> e.msgid == concat_strings(
                split_args_seq(call_args_inner(m, true).unwrap())[1],
            )
            &&& kind == CallKind::Npgettext ==> e.msgid == concat_strings(
                split_args_seq(call_args_inner(m, false).unwrap())[1],
            ) && e.msgid_plural == Some(
                concat_strings(split_args_seq(call_args_inner(m, false).unwrap())[2]),
            )
            &&& e.msgid.len() > 0
        }),
{
}

/// Characters of a literal that are neither its quote nor a backslash.
pub open spec fn plain_literal_text(s: Seq<char>, q: char) -> bool {
    forall|k: int| 0 <= k < s.len() ==> #[trigger] s[k] != q && s[k] != '\\'
}

proof fn lemma_plain_run(t: Seq<char>, i: int, s: Seq<char>, q: char)
    requires
        0 <= i,
        i + s.len() <= t.len(),
        t.subrange(i, i + s.len()) == s,
        plain_literal_text(s, q),
    ensures
        concat_scan(t, i, true, q, false) == s + concat_scan(t, i + s.len(), true, q, false),
    decreases s.len(),
{
    if s.len() > 0 {
        assert(t[i] == s[0]);
        let r = s.drop_first();
        assert(t.subrange(i + 1, i + 1 + r.len()) =~= r) by {
            assert forall|k: int| 0 <= k < r.len() implies t.subrange(i + 1, i + 1 + r.len())[k]
                == r[k] by {
                assert(t[i + 1 + k] == t.subrange(i, i + s.len())[k + 1]);
            }
        }
        lemma_plain_run(t, i + 1, r, q);
        assert(seq![s[0]] + r =~= s);
    } else {
        assert(s + concat_scan(t, i, true, q, false) =~= concat_scan(t, i, true, q, false));
    }
}

/// Inside a string literal, the escape `\n` stands for one newline: it
/// adds a single newline character to the message, and reading goes on
/// right after it.
pub proof fn law_newline_escape(t: Seq<char>, i: int, q: char, triple: bool)
    requires
        q == '\'' || q == '"',
        0 <= i,
        i + 1 < t.len(),
        t[i] == '\\',
        t[i + 1] == 'n',
    ensures
        concat_scan(t, i, true, q, triple) == seq!['\n'] + concat_scan(t, i + 2, true, q, triple),
{
}

/// Inside a string literal each escape stands for one character: `\n` a
/// newline, `\t` a tab, `\\` a backslash, `\'` and `\"` the quote; any other
/// escape is kept as it is, backslash and all.
pub proof fn law_escapes_resolved(t: Seq<char>, i: int, q: char, triple: bool)
    requires
        q == '\'' || q == '"',
        0 <= i,
        i + 1 < t.len(),
        t[i] == '\\',
    ensures
        concat_scan(t, i, true, q, triple) == (if t[i + 1] == 'n' {
            seq!['\n']
        } else if t[i + 1] == 't' {
            seq!['\t']
        } else if t[i + 1] == '\\' {
            seq!['\\']
        } else if t[i + 1] == '\'' {
            seq!['\'']
        } else if t[i + 1] == '"' {
            seq!['"']
        } else {
            seq!['\\', t[i + 1]]
        }) + concat_scan(t, i + 2, true, q, triple),
{
}

/// A literal of plain text, a `\n` escape and more plain text reads as the
/// first text, one newline, and the second text.
pub proof fn law_newline_escape_literal(s1: Seq<char>, s2: Seq<char>, q: char)
    requires
        q == '\'' || q == '"',
        plain_literal_text(s1, q),
        plain_literal_text(s2, q),
    ensures
        concat_strings(seq![q] + s1 + seq!['\\', 'n'] + s2 + seq![q]) == s1 + seq!['\n'] + s2,
{
    let t = seq![q] + s1 + seq!['\\', 'n'] + s2 + seq![q];
    let n1: int = s1.len() as int + 1;
    let n2: int = n1 + 2;
    let n3: int = n2 + s2.len() as int;
    assert(t[0] == q);
    assert(t[1] != q) by {
        if s1.len() > 0 {
            assert(t[1] == s1[0]);
        } else {
            assert(t[1] == '\\');
        }
    }
    assert(concat_strings(t) == concat_scan(t, 1, true, q, false));
    assert(t.subrange(1, n1) =~= s1);
    lemma_plain_run(t, 1, s1, q);
    assert(t[n1] == '\\' && t[n1 + 1] == 'n');
    law_newline_escape(t, n1, q, false);
    assert(t.subrange(n2, n3) =~= s2);
    lemma_plain_run(t, n2, s2, q);
    assert(t[n3] == q);
    assert(concat_scan(t, n3 + 1, false, q, false) == Seq::<char>::empty());
    assert(concat_scan(t, n3, true, q, false) == Seq::<char>::empty());
    assert(s1 + (seq!['\n'] + (s2 + Seq::<char>::empty())) =~= s1 + seq!['\n'] + s2);
}

} // verus!
