//! PO catalogs: reading existing files, merging freshly extracted messages
//! into them, and writing them back in gettext's layout.
use vstd::prelude::*;
use crate::text::{
    chars_eq, chars_of, decimal, find_char, find_seq, find_sub, has_prefix, index_of, join,
    join_seq, lemma_index_of, lines, lines_of, push_decimal, push_str, replace, replace_seq,
    seqs_of, split_seq, split_sub, split_whitespace, starts_with, string_of, trim, trim_end,
    trim_end_seq, trim_seq, trim_start, trim_start_seq, words_of,
};
use crate::extractor::{strings_view, opt_view};
pub use crate::catalog::{merge_entries, parse_po_file, Catalog};

verus! {

/// How `#:` location comments are written.
#[derive(Debug, Clone, Copy, PartialEq, Eq, Default)]
pub enum LocationMode {
    #[default]
    Full,
    File,
    Never,
}

/// The key of a message in a catalog: its context, `\x04`, and its msgid.
pub open spec fn entry_key_spec(msgctxt: Option<Seq<char>>, msgid: Seq<char>) -> Seq<char> {
    match msgctxt {
        Some(ctx) => ctx + seq!['\x04'] + msgid,
        None => msgid,
    }
}

pub fn entry_key(msgctxt: &Option<String>, msgid: &str) -> (r: String)
    ensures
        r@ == entry_key_spec(opt_view(*msgctxt), msgid@),
{
    match msgctxt {
        Some(ctx) => {
            let mut k = chars_of(ctx.as_str());
            k.push('\x04');
            push_str(&mut k, msgid);
            string_of(k.as_slice())
        },
        None => msgid.to_owned(),
    }
}

/// Backslash, double quote, newline and tab written as PO escapes.
pub open spec fn escape_po_seq(s: Seq<char>) -> Seq<char> {
    replace_seq(
        replace_seq(
            replace_seq(replace_seq(s, seq!['\\'], seq!['\\', '\\']), seq!['"'], seq!['\\', '"']),
            seq!['\n'],
            seq!['\\', 'n'],
        ),
        seq!['\t'],
        seq!['\\', 't'],
    )
}

pub fn escape_po_string(s: &[char]) -> (r: Vec<char>)
    ensures
        r@ == escape_po_seq(s@),
{
    let p1: Vec<char> = vec!['\\'];
    let r1: Vec<char> = vec!['\\', '\\'];
    let p2: Vec<char> = vec!['"'];
    let r2: Vec<char> = vec!['\\', '"'];
    let p3: Vec<char> = vec!['\n'];
    let r3: Vec<char> = vec!['\\', 'n'];
    let p4: Vec<char> = vec!['\t'];
    let r4: Vec<char> = vec!['\\', 't'];
    assert(p1@ =~= seq!['\\'] && r1@ =~= seq!['\\', '\\']);
    assert(p2@ =~= seq!['"'] && r2@ =~= seq!['\\', '"']);
    assert(p3@ =~= seq!['\n'] && r3@ =~= seq!['\\', 'n']);
    assert(p4@ =~= seq!['\t'] && r4@ =~= seq!['\\', 't']);
    let a = replace(s, p1.as_slice(), r1.as_slice());
    let b = replace(a.as_slice(), p2.as_slice(), r2.as_slice());
    let c = replace(b.as_slice(), p3.as_slice(), r3.as_slice());
    replace(c.as_slice(), p4.as_slice(), r4.as_slice())
}

/// The quoted continuation lines of a multi-line PO string, from piece `i` on:
/// every piece but the last ends with `\n` inside its quotes; an empty last
/// piece writes no line.
pub open spec fn po_string_lines(parts: Seq<Seq<char>>, i: int) -> Seq<char>
    decreases parts.len() - i,
{
    if i < 0 || i >= parts.len() {
        seq![]
    } else if i < parts.len() - 1 {
        seq!['"'] + parts[i] + seq!['\\', 'n', '"', '\n'] + po_string_lines(parts, i + 1)
    } else if parts[i].len() > 0 {
        seq!['"'] + parts[i] + seq!['"', '\n'] + po_string_lines(parts, i + 1)
    } else {
        po_string_lines(parts, i + 1)
    }
}

/// `key "value"`, or, when the escaped value holds a newline other than as
/// its whole content, `key ""` followed by one quoted line per piece.
pub open spec fn format_po_string_spec(key: Seq<char>, value: Seq<char>) -> Seq<char> {
    let escaped = escape_po_seq(value);
    if find_seq(escaped, seq!['\\', 'n']) >= 0 && escaped != seq!['\\', 'n'] {
        trim_end_seq(
            key + seq![' ', '"', '"', '\n'] + po_string_lines(
                split_seq(escaped, seq!['\\', 'n']),
                0,
            ),
        )
    } else {
        key + seq![' ', '"'] + escaped + seq!['"']
    }
}

pub fn format_po_chars(key: &[char], value: &[char]) -> (r: Vec<char>)
    ensures
        r@ == format_po_string_spec(key@, value@),
{
    let escaped = escape_po_string(value);
    let nl: Vec<char> = vec!['\\', 'n'];
    assert(nl@ =~= seq!['\\', 'n']);
    let has_nl = match find_sub(escaped.as_slice(), nl.as_slice()) {
        Some(_) => true,
        None => false,
    };
    if has_nl && !chars_eq(escaped.as_slice(), nl.as_slice()) {
        let parts = split_sub(escaped.as_slice(), nl.as_slice());
        let ghost ps = seqs_of(parts@);
        let mut out: Vec<char> = vstd::slice::slice_to_vec(key);
        out.push(' ');
        out.push('"');
        out.push('"');
        out.push('\n');
        let ghost head = out@;
        assert(head =~= key@ + seq![' ', '"', '"', '\n']);
        let mut i: usize = 0;
        while i < parts.len()
            invariant
                i <= parts@.len(),
                ps == seqs_of(parts@),
                head + po_string_lines(ps, 0) == out@ + po_string_lines(ps, i as int),
            decreases parts@.len() - i,
        {
            let ghost before = out@;
            assert(ps[i as int] == parts@[i as int]@);
            if i < parts.len() - 1 {
                out.push('"');
                out.extend_from_slice(parts[i].as_slice());
                out.push('\\');
                out.push('n');
                out.push('"');
                out.push('\n');
                assert(out@ =~= before + (seq!['"'] + ps[i as int] + seq!['\\', 'n', '"', '\n']));
            } else if parts[i].len() > 0 {
                out.push('"');
                out.extend_from_slice(parts[i].as_slice());
                out.push('"');
                out.push('\n');
                assert(out@ =~= before + (seq!['"'] + ps[i as int] + seq!['"', '\n']));
            }
            i += 1;
        }
        assert(out@ + po_string_lines(ps, i as int) == out@);
        vstd::slice::slice_to_vec(trim_end(out.as_slice()))
    } else {
        let mut out: Vec<char> = vstd::slice::slice_to_vec(key);
        out.push(' ');
        out.push('"');
        out.extend_from_slice(escaped.as_slice());
        out.push('"');
        assert(out@ =~= key@ + seq![' ', '"'] + escaped@ + seq!['"']);
        out
    }
}

pub fn format_po_string(key: &str, value: &str) -> (r: String)
    ensures
        r@ == format_po_string_spec(key@, value@),
{
    let k = chars_of(key);
    let v = chars_of(value);
    let r = format_po_chars(k.as_slice(), v.as_slice());
    string_of(r.as_slice())
}

/// The text inside the quotes of a line `"..."`, when it is one.
pub open spec fn quoted_inner(l: Seq<char>) -> Option<Seq<char>> {
    let t = trim_seq(l);
    if t.len() >= 2 && t[0] == '"' && t.last() == '"' {
        Some(t.subrange(1, t.len() - 1))
    } else {
        None
    }
}

/// The quoted pieces of the lines of `raw`, concatenated.
pub open spec fn quoted_concat(ls: Seq<Seq<char>>) -> Seq<char>
    decreases ls.len(),
{
    if ls.len() == 0 {
        seq![]
    } else {
        quoted_concat(ls.drop_last()) + match quoted_inner(ls.last()) {
            Some(x) => x,
            None => seq![],
        }
    }
}

/// The character an escape `\\c` stands for, when `c` starts one.
pub open spec fn escaped_char(c: char) -> Option<char> {
    if c == 'n' {
        Some('\n')
    } else if c == 't' {
        Some('\t')
    } else if c == '"' {
        Some('"')
    } else if c == '\\' {
        Some('\\')
    } else {
        None
    }
}

/// Escapes resolved in one pass from left to right: `\n`, `\t`, `\"` and
/// `\\` each become the character they stand for; any other backslash is
/// kept.
pub open spec fn unescape_po(s: Seq<char>) -> Seq<char>
    decreases s.len(),
{
    if s.len() == 0 {
        seq![]
    } else if s[0] == '\\' && s.len() >= 2 && escaped_char(s[1]) is Some {
        seq![escaped_char(s[1])->0] + unescape_po(s.skip(2))
    } else {
        seq![s[0]] + unescape_po(s.drop_first())
    }
}

/// The value of a (possibly multi-line) PO string: the quoted pieces joined,
/// then its escapes resolved.
pub open spec fn parse_po_string_spec(raw: Seq<char>) -> Seq<char> {
    unescape_po(quoted_concat(lines_of(raw)))
}

fn escaped_char_exec(c: char) -> (r: Option<char>)
    ensures
        r == escaped_char(c),
{
    if c == 'n' {
        Some('\n')
    } else if c == 't' {
        Some('\t')
    } else if c == '"' {
        Some('"')
    } else if c == '\\' {
        Some('\\')
    } else {
        None
    }
}

/// Resolves the escapes of a PO string's text in one pass.
pub fn unescape_po_exec(s: &[char]) -> (r: Vec<char>)
    ensures
        r@ == unescape_po(s@),
{
    let mut out: Vec<char> = Vec::new();
    let mut i: usize = 0;
    assert(s@.skip(0) == s@);
    while i < s.len()
        invariant
            i <= s@.len(),
            out@ + unescape_po(s@.skip(i as int)) == unescape_po(s@),
        decreases s@.len() - i,
    {
        let ghost t = s@.skip(i as int);
        assert(t[0] == s@[i as int]);
        let c = s[i];
        let e = if c == '\\' && i + 1 < s.len() {
            escaped_char_exec(s[i + 1])
        } else {
            None
        };
        match e {
            Some(x) => {
                assert(t[1] == s@[i + 1]);
                assert(t.skip(2) =~= s@.skip(i + 2));
                out.push(x);
                i += 2;
            },
            None => {
                if c == '\\' && i + 1 < s.len() {
                    assert(t[1] == s@[i + 1]);
                }
                assert(t.drop_first() =~= s@.skip(i + 1));
                out.push(c);
                i += 1;
            },
        }
    }
    assert(s@.skip(i as int) =~= Seq::<char>::empty());
    assert(out@ + Seq::<char>::empty() =~= out@);
    out
}

fn quoted_inner_exec(l: &[char]) -> (r: Option<&[char]>)
    ensures
        match r {
            Some(x) => quoted_inner(l@) == Some(x@),
            None => quoted_inner(l@) is None,
        },
{
    let t = trim(l);
    if t.len() >= 2 && t[0] == '"' && t[t.len() - 1] == '"' {
        Some(&t[1..t.len() - 1])
    } else {
        None
    }
}

pub fn parse_po_string(raw: &[char]) -> (r: Vec<char>)
    ensures
        r@ == parse_po_string_spec(raw@),
{
    let ls = lines(raw);
    let ghost lv = seqs_of(ls@);
    let mut acc: Vec<char> = Vec::new();
    let mut i: usize = 0;
    assert(lv.take(0) =~= Seq::<Seq<char>>::empty());
    while i < ls.len()
        invariant
            i <= ls@.len(),
            lv == seqs_of(ls@),
            acc@ == quoted_concat(lv.take(i as int)),
        decreases ls@.len() - i,
    {
        assert(lv.take(i + 1).drop_last() == lv.take(i as int));
        assert(lv.take(i + 1).last() == ls@[i as int]@);
        match quoted_inner_exec(ls[i].as_slice()) {
            Some(x) => {
                acc.extend_from_slice(x);
            },
            None => {
                assert(acc@ + Seq::<char>::empty() == acc@);
            },
        }
        i += 1;
    }
    assert(lv.take(ls@.len() as int) == lv);
    unescape_po_exec(acc.as_slice())
}

/// What `format!("{:?}", s)` writes for a string: Rust's debug rendering,
/// quotes included.
pub uninterp spec fn debug_quoted(s: Seq<char>) -> Seq<char>;

/// Wraps `<str as Debug>::fmt` through `format!`; the contract claims only
/// that the text is the debug rendering of `s`.
#[verifier::external_body]
fn debug_string(s: &str) -> (r: String)
    ensures
        r@ == debug_quoted(s@),
{
    format!("{:?}", s)
}

pub open spec fn opt_chars(o: Option<Vec<char>>) -> Option<Seq<char>> {
    match o {
        Some(v) => Some(v@),
        None => None,
    }
}

/// The value part of a `msgstr` line: what follows its first `"`, without a
/// closing `"`.
pub open spec fn msgstr_value(t: Seq<char>) -> Option<Seq<char>> {
    let q = index_of(t, '"');
    if q < 0 {
        None
    } else {
        let rest = t.skip(q + 1);
        if rest.len() > 0 && rest.last() == '"' {
            Some(rest.drop_last())
        } else {
            Some(rest)
        }
    }
}

/// The report line for an untranslated message.
pub open spec fn untranslated_report(idx: int, key: Seq<char>, msgid: Seq<char>) -> Seq<char> {
    decimal((idx + 1) as nat) + ": "@ + key + " for msgid "@ + debug_quoted(msgid)
}

/// Reports from line index `idx` on, `current` being the msgid last seen
/// (read with its continuation lines).
pub open spec fn untranslated_from(ls: Seq<Seq<char>>, idx: int, current: Option<Seq<char>>) -> Seq<
    Seq<char>,
>
    decreases ls.len() - idx,
{
    if idx < 0 || idx >= ls.len() {
        seq![]
    } else {
        let t = trim_seq(ls[idx]);
        if has_prefix(t, "#~"@) {
            untranslated_from(ls, idx + 1, current)
        } else if has_prefix(t, "msgid "@) {
            untranslated_from(
                ls,
                idx + 1,
                Some(parse_po_string_spec(crate::catalog::continuation(ls, idx + 1, t.skip(6)).0)),
            )
        } else if !(has_prefix(t, "msgstr "@) || has_prefix(t, "msgstr["@)) {
            untranslated_from(ls, idx + 1, current)
        } else {
            match msgstr_value(t) {
                None => untranslated_from(ls, idx + 1, current),
                Some(value) => {
                    let msgid = match current {
                        Some(m) => m,
                        None => seq![],
                    };
                    if value.len() > 0 || (idx + 1 < ls.len() && has_prefix(
                        trim_start_seq(ls[idx + 1]),
                        seq!['"'],
                    )) || msgid.len() == 0 {
                        untranslated_from(ls, idx + 1, current)
                    } else {
                        let w = words_of(t);
                        let key = if w.len() > 0 {
                            w[0]
                        } else {
                            "msgstr"@
                        };
                        seq![untranslated_report(idx, key, msgid)] + untranslated_from(
                            ls,
                            idx + 1,
                            current,
                        )
                    }
                },
            }
        }
    }
}

/// `line: msgstr[n] for msgid "..."` for each empty msgstr, skipping the
/// header entry, wrapped translations and obsolete blocks.
pub open spec fn untranslated_spec(content: Seq<char>) -> Seq<Seq<char>> {
    untranslated_from(lines_of(content), 0, None)
}

fn msgstr_value_exec(t: &[char]) -> (r: Option<&[char]>)
    ensures
        match r {
            Some(x) => msgstr_value(t@) == Some(x@),
            None => msgstr_value(t@) is None,
        },
{
    match find_char(t, '"') {
        None => None,
        Some(q) => {
            proof {
                lemma_index_of(t@, '"');
            }
            let len = t.len();
            assert(q < len);
            let rest = &t[q + 1..len];
            assert(rest@ == t@.skip(q + 1));
            if rest.len() > 0 && rest[rest.len() - 1] == '"' {
                let r = &rest[0..rest.len() - 1];
                assert(r@ == rest@.drop_last());
                Some(r)
            } else {
                Some(rest)
            }
        },
    }
}

fn has_prefix_str(t: &[char], p: &str) -> (r: bool)
    ensures
        r == has_prefix(t@, p@),
{
    let pc = chars_of(p);
    starts_with(t, pc.as_slice())
}

pub fn untranslated_messages(content: &str) -> (r: Vec<String>)
    ensures
        strings_view(r@) == untranslated_spec(content@),
{
    let chars = chars_of(content);
    let ls = lines(chars.as_slice());
    let ghost lv = seqs_of(ls@);
    let mut out: Vec<String> = Vec::new();
    let mut current: Option<Vec<char>> = None;
    let mut idx: usize = 0;
    while idx < ls.len()
        invariant
            idx <= ls@.len(),
            lv == seqs_of(ls@),
            lv == lines_of(chars@),
            chars@ == content@,
            untranslated_spec(content@) == strings_view(out@) + untranslated_from(
                lv,
                idx as int,
                opt_chars(current),
            ),
        decreases ls@.len() - idx,
    {
        let ghost cur = opt_chars(current);
        let t = trim(ls[idx].as_slice());
        assert(t@ == trim_seq(lv[idx as int]));
        if has_prefix_str(t, "#~") {
            idx += 1;
            continue;
        }
        if has_prefix_str(t, "msgid ") {
            proof {
                reveal_strlit("msgid ");
            }
            let rest = &t[6..t.len()];
            assert(rest@ == t@.skip(6));
            let (raw, _k) = crate::catalog::continuation_exec(&ls, idx + 1, vstd::slice::slice_to_vec(rest));
            current = Some(parse_po_string(raw.as_slice()));
            idx += 1;
            continue;
        }
        if !(has_prefix_str(t, "msgstr ") || has_prefix_str(t, "msgstr[")) {
            idx += 1;
            continue;
        }
        let value = match msgstr_value_exec(t) {
            None => {
                idx += 1;
                continue;
            },
            Some(v) => v,
        };
        if value.len() > 0 {
            idx += 1;
            continue;
        }
        if idx + 1 < ls.len() {
            let next = trim_start(ls[idx + 1].as_slice());
            assert(next@ == trim_start_seq(lv[idx + 1]));
            if next.len() > 0 && next[0] == '"' {
                assert(has_prefix(next@, seq!['"'])) by {
                    assert(next@.take(1) =~= seq!['"']);
                }
                idx += 1;
                continue;
            } else {
                assert(!has_prefix(next@, seq!['"'])) by {
                    if next@.len() > 0 {
                        assert(next@.take(1)[0] == next@[0]);
                    }
                }
            }
        }
        let msgid: Vec<char> = match &current {
            Some(v) => v.clone(),
            None => Vec::new(),
        };
        assert(msgid@ == match cur {
            Some(m) => m,
            None => Seq::<char>::empty(),
        });
        if msgid.len() == 0 {
            idx += 1;
            continue;
        }
        let words = split_whitespace(t);
        let key: Vec<char> = if words.len() > 0 {
            vstd::slice::slice_to_vec(words[0].as_slice())
        } else {
            chars_of("msgstr")
        };
        assert(key@ == (if words_of(t@).len() > 0 {
            words_of(t@)[0]
        } else {
            "msgstr"@
        }));
        let mut report: Vec<char> = Vec::new();
        push_decimal(&mut report, (idx + 1) as u64);
        push_str(&mut report, ": ");
        report.extend_from_slice(key.as_slice());
        push_str(&mut report, " for msgid ");
        let msgid_str = string_of(msgid.as_slice());
        let dbg = debug_string(msgid_str.as_str());
        push_str(&mut report, dbg.as_str());
        assert(report@ =~= untranslated_report(idx as int, key@, msgid@));
        let ghost before = out@;
        out.push(string_of(report.as_slice()));
        assert(strings_view(out@) == strings_view(before).push(report@));
        idx += 1;
    }
    out
}


/// One message of a catalog, as read from or written to a PO file.
#[derive(Debug, Clone)]
pub struct PoEntry {
    pub comments: Vec<String>,
    pub references: Vec<String>,
    pub flags: Vec<String>,
    pub msgctxt: Option<String>,
    pub msgid: String,
    pub msgid_plural: Option<String>,
    pub msgstr: Vec<String>,
    /// Entry no longer present in the source, written back as `#~` lines.
    pub obsolete: bool,
}

pub struct PoEntryView {
    pub comments: Seq<Seq<char>>,
    pub references: Seq<Seq<char>>,
    pub flags: Seq<Seq<char>>,
    pub msgctxt: Option<Seq<char>>,
    pub msgid: Seq<char>,
    pub msgid_plural: Option<Seq<char>>,
    pub msgstr: Seq<Seq<char>>,
    pub obsolete: bool,
}

impl View for PoEntry {
    type V = PoEntryView;

    open spec fn view(&self) -> PoEntryView {
        PoEntryView {
            comments: strings_view(self.comments@),
            references: strings_view(self.references@),
            flags: strings_view(self.flags@),
            msgctxt: opt_view(self.msgctxt),
            msgid: self.msgid@,
            msgid_plural: opt_view(self.msgid_plural),
            msgstr: strings_view(self.msgstr@),
            obsolete: self.obsolete,
        }
    }
}

/// How a catalog is written.
pub struct PoFileOptions {
    pub location_mode: LocationMode,
    pub no_obsolete: bool,
    pub no_wrap: bool,
    pub sort_output: bool,
    pub no_fuzzy_matching: bool,
    pub no_flags: bool,
    pub keep_header: bool,
    /// Individual flags to strip from `#,` lines (`--no-flag`).
    pub no_flag: Vec<String>,
    /// Column to wrap at; `None` uses gettext's default of 80.
    pub width: Option<usize>,
}

/// The file part of a reference: what precedes its last `:`.
pub open spec fn file_part(r: Seq<char>) -> Seq<char> {
    let i = crate::text::rfind_seq(r, seq![':']);
    if i >= 0 {
        r.take(i)
    } else {
        r
    }
}

pub open spec fn file_parts(refs: Seq<Seq<char>>) -> Seq<Seq<char>> {
    refs.map_values(|r: Seq<char>| file_part(r))
}

/// Runs of equal neighbours reduced to one (`Vec::dedup`).
pub open spec fn dedup_seq(s: Seq<Seq<char>>) -> Seq<Seq<char>>
    decreases s.len(),
{
    if s.len() == 0 {
        s
    } else {
        let d = dedup_seq(s.drop_last());
        if d.len() > 0 && d.last() == s.last() {
            d
        } else {
            d.push(s.last())
        }
    }
}

/// `a` sorts before `b`: lexicographic order of Unicode scalar values, which
/// is the byte order of their UTF-8 encodings and so `String`'s order.
pub open spec fn str_lt(a: Seq<char>, b: Seq<char>) -> bool
    decreases a.len(),
{
    if a.len() == 0 {
        b.len() > 0
    } else if b.len() == 0 {
        false
    } else if a[0] != b[0] {
        a[0] < b[0]
    } else {
        str_lt(a.drop_first(), b.drop_first())
    }
}

pub proof fn lemma_str_lt_irreflexive(a: Seq<char>)
    ensures
        !str_lt(a, a),
    decreases a.len(),
{
    if a.len() > 0 {
        lemma_str_lt_irreflexive(a.drop_first());
    }
}

pub proof fn lemma_str_lt_transitive(a: Seq<char>, b: Seq<char>, c: Seq<char>)
    requires
        str_lt(a, b),
        str_lt(b, c),
    ensures
        str_lt(a, c),
    decreases a.len(),
{
    if a.len() > 0 && b.len() > 0 && c.len() > 0 && a[0] == b[0] && b[0] == c[0] {
        lemma_str_lt_transitive(a.drop_first(), b.drop_first(), c.drop_first());
    }
}

/// Of two different strings one sorts before the other.
pub proof fn lemma_str_lt_total(a: Seq<char>, b: Seq<char>)
    ensures
        a == b || str_lt(a, b) || str_lt(b, a),
        !(str_lt(a, b) && str_lt(b, a)),
    decreases a.len(),
{
    if a.len() > 0 && b.len() > 0 {
        if a[0] == b[0] {
            lemma_str_lt_total(a.drop_first(), b.drop_first());
            if a.drop_first() == b.drop_first() {
                assert(a =~= seq![a[0]] + a.drop_first());
                assert(b =~= seq![b[0]] + b.drop_first());
            }
        } else {
        }
    } else if a.len() == 0 && b.len() == 0 {
        assert(a =~= b);
    }
}

/// Where `x` goes in a sorted list: after every element not greater than it.
pub open spec fn str_insert_pos(s: Seq<Seq<char>>, x: Seq<char>) -> int
    decreases s.len(),
{
    if s.len() == 0 {
        0
    } else if str_lt(x, s[0]) {
        0
    } else {
        1 + str_insert_pos(s.drop_first(), x)
    }
}

/// The strings in ascending order.
pub open spec fn sort_strs(s: Seq<Seq<char>>) -> Seq<Seq<char>>
    decreases s.len(),
{
    if s.len() == 0 {
        s
    } else {
        let t = sort_strs(s.drop_last());
        t.insert(str_insert_pos(t, s.last()), s.last())
    }
}

/// The `#:` lines for `refs`, a new line started whenever adding the next
/// reference would bring the line's byte length to `wrap_at` or beyond.
pub open spec fn wrap_from(refs: Seq<Seq<char>>, i: int, line: Seq<char>, wrap_at: int) -> Seq<
    Seq<char>,
>
    decreases refs.len() - i,
{
    if i < 0 || i >= refs.len() {
        seq![line]
    } else if crate::matching::byte_len(line) > 2 && crate::matching::byte_len(line) + 1
        + crate::matching::byte_len(refs[i]) >= wrap_at {
        seq![line] + wrap_from(refs, i + 1, seq!['#', ':', ' '] + refs[i], wrap_at)
    } else {
        wrap_from(refs, i + 1, line + seq![' '] + refs[i], wrap_at)
    }
}

/// The `#:` lines of an entry's references.
pub open spec fn reference_lines(refs: Seq<Seq<char>>, o: PoOptionsView) -> Seq<Seq<char>> {
    let r1 = if o.location_mode == LocationMode::File {
        dedup_seq(file_parts(refs))
    } else {
        refs
    };
    let r2 = if o.sort_output {
        sort_strs(r1)
    } else {
        r1
    };
    let w = match o.width {
        Some(w) => w as int,
        None => 80,
    };
    if o.no_wrap || w == 0 {
        seq![seq!['#', ':', ' '] + join_seq(r2, seq![' '])]
    } else {
        wrap_from(r2, 0, seq!['#', ':'], w)
    }
}

/// The flags not named in `no_flag`.
pub open spec fn kept_flags(flags: Seq<Seq<char>>, no_flag: Seq<Seq<char>>) -> Seq<Seq<char>>
    decreases flags.len(),
{
    if flags.len() == 0 {
        flags
    } else {
        let k = kept_flags(flags.drop_last(), no_flag);
        if no_flag.contains(flags.last()) {
            k
        } else {
            k.push(flags.last())
        }
    }
}

/// `msgstr[i] "..."` lines for the msgstr values at index `i` and after.
pub open spec fn msgstr_lines(ms: Seq<Seq<char>>, i: int) -> Seq<Seq<char>>
    decreases ms.len() - i,
{
    if i < 0 || i >= ms.len() {
        seq![]
    } else {
        seq![format_po_string_spec("msgstr["@ + decimal(i as nat) + "]"@, ms[i])] + msgstr_lines(
            ms,
            i + 1,
        )
    }
}

pub struct PoOptionsView {
    pub location_mode: LocationMode,
    pub no_obsolete: bool,
    pub no_wrap: bool,
    pub sort_output: bool,
    pub no_flags: bool,
    pub keep_header: bool,
    pub no_flag: Seq<Seq<char>>,
    pub width: Option<usize>,
}

impl View for PoFileOptions {
    type V = PoOptionsView;

    open spec fn view(&self) -> PoOptionsView {
        PoOptionsView {
            location_mode: self.location_mode,
            no_obsolete: self.no_obsolete,
            no_wrap: self.no_wrap,
            sort_output: self.sort_output,
            no_flags: self.no_flags,
            keep_header: self.keep_header,
            no_flag: strings_view(self.no_flag@),
            width: self.width,
        }
    }
}

/// The lines of an entry before obsolete marking.
pub open spec fn entry_lines(e: PoEntryView, o: PoOptionsView) -> Seq<Seq<char>> {
    let refs = if o.location_mode != LocationMode::Never && e.references.len() > 0 && !e.obsolete {
        reference_lines(e.references, o)
    } else {
        seq![]
    };
    let flags = if !o.no_flags {
        let k = kept_flags(e.flags, o.no_flag);
        if k.len() > 0 {
            seq![seq!['#', ',', ' '] + join_seq(k, seq![',', ' '])]
        } else {
            seq![]
        }
    } else {
        seq![]
    };
    let ctx = match e.msgctxt {
        Some(c) => seq![format_po_string_spec("msgctxt"@, c)],
        None => seq![],
    };
    let tail = match e.msgid_plural {
        Some(p) => seq![format_po_string_spec("msgid_plural"@, p)] + msgstr_lines(e.msgstr, 0),
        None => seq![
            format_po_string_spec(
                "msgstr"@,
                if e.msgstr.len() > 0 {
                    e.msgstr[0]
                } else {
                    seq![]
                },
            ),
        ],
    };
    e.comments + refs + flags + ctx + seq![format_po_string_spec("msgid"@, e.msgid)] + tail
}

/// Every line of every piece, each behind `#~ `.
pub open spec fn obsolete_lines(ls: Seq<Seq<char>>) -> Seq<Seq<char>>
    decreases ls.len(),
{
    if ls.len() == 0 {
        seq![]
    } else {
        obsolete_lines(ls.drop_last()) + lines_of(ls.last()).map_values(
            |l: Seq<char>| seq!['#', '~', ' '] + l,
        )
    }
}

/// The text of one catalog entry.
pub open spec fn format_entry_spec(e: PoEntryView, o: PoOptionsView) -> Seq<char> {
    if e.obsolete {
        join_seq(obsolete_lines(entry_lines(e, o)), seq!['\n'])
    } else {
        join_seq(entry_lines(e, o), seq!['\n'])
    }
}


/// The characters of each string.
pub fn char_vecs(v: &Vec<String>) -> (r: Vec<Vec<char>>)
    ensures
        seqs_of(r@) == strings_view(v@),
{
    let mut out: Vec<Vec<char>> = Vec::new();
    let mut i: usize = 0;
    while i < v.len()
        invariant
            i <= v@.len(),
            seqs_of(out@) == strings_view(v@).take(i as int),
        decreases v@.len() - i,
    {
        let ghost before = out@;
        out.push(chars_of(v[i].as_str()));
        assert(seqs_of(out@) == seqs_of(before).push(v@[i as int]@));
        assert(strings_view(v@).take(i + 1) == strings_view(v@).take(i as int).push(v@[i as int]@));
        i += 1;
    }
    assert(strings_view(v@).take(v@.len() as int) == strings_view(v@));
    out
}

pub fn file_part_exec(r: &[char]) -> (p: &[char])
    ensures
        p@ == file_part(r@),
{
    let colon: Vec<char> = vec![':'];
    assert(colon@ =~= seq![':']);
    match crate::text::rfind_sub(r, colon.as_slice()) {
        Some(i) => {
            let p = &r[0..i];
            assert(p@ == r@.take(i as int));
            p
        },
        None => r,
    }
}

pub fn dedup_exec(v: &Vec<Vec<char>>) -> (r: Vec<Vec<char>>)
    ensures
        seqs_of(r@) == dedup_seq(seqs_of(v@)),
{
    let mut out: Vec<Vec<char>> = Vec::new();
    let mut i: usize = 0;
    assert(seqs_of(v@).take(0) =~= Seq::<Seq<char>>::empty());
    while i < v.len()
        invariant
            i <= v@.len(),
            seqs_of(out@) == dedup_seq(seqs_of(v@).take(i as int)),
        decreases v@.len() - i,
    {
        let ghost t = seqs_of(v@).take(i + 1);
        assert(t.drop_last() == seqs_of(v@).take(i as int));
        assert(t.last() == v@[i as int]@);
        let dup = out.len() > 0 && chars_eq(out[out.len() - 1].as_slice(), v[i].as_slice());
        if !dup {
            let ghost before = out@;
            out.push(vstd::slice::slice_to_vec(v[i].as_slice()));
            assert(seqs_of(out@) == seqs_of(before).push(v@[i as int]@));
        } else {
            assert(seqs_of(out@).last() == out@[out@.len() - 1]@);
        }
        i += 1;
    }
    assert(seqs_of(v@).take(v@.len() as int) == seqs_of(v@));
    out
}

pub fn str_lt_exec(a: &[char], b: &[char]) -> (r: bool)
    ensures
        r == str_lt(a@, b@),
{
    let mut i: usize = 0;
    assert(a@.skip(0) == a@ && b@.skip(0) == b@);
    loop
        invariant
            i <= a@.len(),
            i <= b@.len(),
            str_lt(a@, b@) == str_lt(a@.skip(i as int), b@.skip(i as int)),
        decreases a@.len() - i,
    {
        if i == a.len() {
            return i < b.len();
        }
        if i == b.len() {
            return false;
        }
        assert(a@.skip(i as int)[0] == a@[i as int]);
        assert(b@.skip(i as int)[0] == b@[i as int]);
        if a[i] != b[i] {
            return a[i] < b[i];
        }
        assert(a@.skip(i as int).drop_first() == a@.skip(i + 1));
        assert(b@.skip(i as int).drop_first() == b@.skip(i + 1));
        i += 1;
    }
}

pub proof fn lemma_str_insert_pos_bounds(s: Seq<Seq<char>>, x: Seq<char>)
    ensures
        0 <= str_insert_pos(s, x) <= s.len(),
    decreases s.len(),
{
    if s.len() > 0 && !str_lt(x, s[0]) {
        lemma_str_insert_pos_bounds(s.drop_first(), x);
    }
}

/// The strings in ascending order (a stable insertion sort).
pub fn sort_strs_exec(v: &Vec<Vec<char>>) -> (r: Vec<Vec<char>>)
    ensures
        seqs_of(r@) == sort_strs(seqs_of(v@)),
{
    let mut out: Vec<Vec<char>> = Vec::new();
    let mut i: usize = 0;
    assert(seqs_of(v@).take(0) =~= Seq::<Seq<char>>::empty());
    while i < v.len()
        invariant
            i <= v@.len(),
            seqs_of(out@) == sort_strs(seqs_of(v@).take(i as int)),
        decreases v@.len() - i,
    {
        let ghost t = seqs_of(v@).take(i + 1);
        assert(t.drop_last() == seqs_of(v@).take(i as int));
        assert(t.last() == v@[i as int]@);
        let ghost so = seqs_of(out@);
        let x = v[i].as_slice();
        let mut k: usize = 0;
        assert(so.skip(0) == so);
        while k < out.len() && !str_lt_exec(x, out[k].as_slice())
            invariant
                so == seqs_of(out@),
                k <= out@.len(),
                str_insert_pos(so, x@) == k + str_insert_pos(so.skip(k as int), x@),
            decreases out@.len() - k,
        {
            assert(so.skip(k as int)[0] == out@[k as int]@);
            assert(so.skip(k as int).drop_first() == so.skip(k + 1));
            k += 1;
        }
        proof {
            if k < out@.len() {
                assert(so.skip(k as int)[0] == out@[k as int]@);
            }
        }
        out.insert(k, vstd::slice::slice_to_vec(x));
        assert(seqs_of(out@) =~= so.insert(k as int, x@));
        i += 1;
    }
    assert(seqs_of(v@).take(v@.len() as int) == seqs_of(v@));
    out
}

/// Length in bytes of the UTF-8 encoding.
pub fn byte_len_exec(s: &[char]) -> (r: u128)
    ensures
        r == crate::matching::byte_len(s@),
        r <= 4 * s@.len(),
{
    let mut acc: u128 = 0;
    let mut i: usize = 0;
    assert(s@.take(0) =~= Seq::<char>::empty());
    while i < s.len()
        invariant
            i <= s@.len(),
            acc == crate::matching::byte_len(s@.take(i as int)),
            acc <= 4 * i,
        decreases s@.len() - i,
    {
        let v = s[i] as u32;
        let w: u128 = if v < 0x80 {
            1
        } else if v < 0x800 {
            2
        } else if v < 0x10000 {
            3
        } else {
            4
        };
        assert(s@.take(i + 1).drop_last() == s@.take(i as int));
        acc = acc + w;
        i += 1;
    }
    assert(s@.take(s@.len() as int) == s@);
    acc
}

pub fn wrap_refs_exec(refs: &Vec<Vec<char>>, wrap_at: usize) -> (r: Vec<Vec<char>>)
    ensures
        seqs_of(r@) == wrap_from(seqs_of(refs@), 0, seq!['#', ':'], wrap_at as int),
{
    let ghost rs = seqs_of(refs@);
    let mut out: Vec<Vec<char>> = Vec::new();
    let mut line: Vec<char> = vec!['#', ':'];
    assert(line@ =~= seq!['#', ':']);
    let mut i: usize = 0;
    while i < refs.len()
        invariant
            i <= refs@.len(),
            rs == seqs_of(refs@),
            wrap_from(rs, 0, seq!['#', ':'], wrap_at as int) == seqs_of(out@) + wrap_from(
                rs,
                i as int,
                line@,
                wrap_at as int,
            ),
        decreases refs@.len() - i,
    {
        let r = refs[i].as_slice();
        assert(rs[i as int] == r@);
        let ll = byte_len_exec(line.as_slice());
        let rl = byte_len_exec(r);
        assert(line@.len() == line.len() && r@.len() == r.len());
        assert(ll <= 4 * usize::MAX && rl <= 4 * usize::MAX);
        if ll > 2 && ll + 1 + rl >= wrap_at as u128 {
            let ghost before = out@;
            out.push(line);
            assert(seqs_of(out@) == seqs_of(before).push(line@));
            line = vec!['#', ':', ' '];
            line.extend_from_slice(r);
            assert(line@ =~= seq!['#', ':', ' '] + r@);
        } else {
            let ghost old_line = line@;
            line.push(' ');
            line.extend_from_slice(r);
            assert(line@ =~= old_line + seq![' '] + r@);
        }
        i += 1;
    }
    let ghost before = out@;
    out.push(line);
    assert(seqs_of(out@) == seqs_of(before).push(line@));
    out
}

pub fn reference_lines_exec(refs: &Vec<Vec<char>>, o: &PoFileOptions) -> (r: Vec<Vec<char>>)
    ensures
        seqs_of(r@) == reference_lines(seqs_of(refs@), o@),
{
    let r1: Vec<Vec<char>> = match o.location_mode {
        LocationMode::File => {
            let mut parts: Vec<Vec<char>> = Vec::new();
            let mut i: usize = 0;
            while i < refs.len()
                invariant
                    i <= refs@.len(),
                    seqs_of(parts@) == file_parts(seqs_of(refs@)).take(i as int),
                decreases refs@.len() - i,
            {
                let ghost before = parts@;
                let fp = file_part_exec(refs[i].as_slice());
                parts.push(vstd::slice::slice_to_vec(fp));
                assert(seqs_of(parts@) == seqs_of(before).push(fp@));
                assert(file_parts(seqs_of(refs@)).take(i + 1) == file_parts(seqs_of(refs@)).take(
                    i as int,
                ).push(file_part(refs@[i as int]@)));
                i += 1;
            }
            assert(file_parts(seqs_of(refs@)).take(refs@.len() as int) == file_parts(
                seqs_of(refs@),
            ));
            dedup_exec(&parts)
        },
        _ => {
            let mut copy: Vec<Vec<char>> = Vec::new();
            let mut i: usize = 0;
            while i < refs.len()
                invariant
                    i <= refs@.len(),
                    seqs_of(copy@) == seqs_of(refs@).take(i as int),
                decreases refs@.len() - i,
            {
                let ghost before = copy@;
                copy.push(vstd::slice::slice_to_vec(refs[i].as_slice()));
                assert(seqs_of(copy@) == seqs_of(before).push(refs@[i as int]@));
                assert(seqs_of(refs@).take(i + 1) == seqs_of(refs@).take(i as int).push(
                    refs@[i as int]@,
                ));
                i += 1;
            }
            assert(seqs_of(refs@).take(refs@.len() as int) == seqs_of(refs@));
            copy
        },
    };
    let r2 = if o.sort_output {
        sort_strs_exec(&r1)
    } else {
        r1
    };
    let w: usize = match o.width {
        Some(w) => w,
        None => 80,
    };
    if o.no_wrap || w == 0 {
        let mut line: Vec<char> = vec!['#', ':', ' '];
        let sp: Vec<char> = vec![' '];
        assert(sp@ =~= seq![' ']);
        let joined = join(r2.as_slice(), sp.as_slice());
        line.extend_from_slice(joined.as_slice());
        assert(line@ =~= seq!['#', ':', ' '] + joined@);
        let out = vec![line];
        assert(seqs_of(out@) =~= seq![line@]);
        out
    } else {
        wrap_refs_exec(&r2, w)
    }
}

pub fn kept_flags_exec(flags: &Vec<Vec<char>>, no_flag: &Vec<Vec<char>>) -> (r: Vec<Vec<char>>)
    ensures
        seqs_of(r@) == kept_flags(seqs_of(flags@), seqs_of(no_flag@)),
{
    let ghost nf = seqs_of(no_flag@);
    let mut out: Vec<Vec<char>> = Vec::new();
    let mut i: usize = 0;
    assert(seqs_of(flags@).take(0) =~= Seq::<Seq<char>>::empty());
    while i < flags.len()
        invariant
            i <= flags@.len(),
            nf == seqs_of(no_flag@),
            seqs_of(out@) == kept_flags(seqs_of(flags@).take(i as int), nf),
        decreases flags@.len() - i,
    {
        let ghost t = seqs_of(flags@).take(i + 1);
        assert(t.drop_last() == seqs_of(flags@).take(i as int));
        assert(t.last() == flags@[i as int]@);
        let f = flags[i].as_slice();
        let mut found = false;
        let mut j: usize = 0;
        while j < no_flag.len()
            invariant
                j <= no_flag@.len(),
                nf == seqs_of(no_flag@),
                found == exists|k: int| 0 <= k < j && nf[k] == f@,
            decreases no_flag@.len() - j,
        {
            assert(nf[j as int] == no_flag@[j as int]@);
            if chars_eq(no_flag[j].as_slice(), f) {
                found = true;
            }
            j += 1;
        }
        assert(found == nf.contains(f@));
        if !found {
            let ghost before = out@;
            out.push(vstd::slice::slice_to_vec(f));
            assert(seqs_of(out@) == seqs_of(before).push(f@));
        }
        i += 1;
    }
    assert(seqs_of(flags@).take(flags@.len() as int) == seqs_of(flags@));
    out
}


fn format_po_str_key(key: &str, value: &[char]) -> (r: Vec<char>)
    ensures
        r@ == format_po_string_spec(key@, value@),
{
    let k = chars_of(key);
    format_po_chars(k.as_slice(), value)
}

pub fn msgstr_lines_exec(ms: &Vec<Vec<char>>) -> (r: Vec<Vec<char>>)
    ensures
        seqs_of(r@) == msgstr_lines(seqs_of(ms@), 0),
{
    let ghost mv = seqs_of(ms@);
    let mut out: Vec<Vec<char>> = Vec::new();
    let mut i: usize = 0;
    while i < ms.len()
        invariant
            i <= ms@.len(),
            mv == seqs_of(ms@),
            msgstr_lines(mv, 0) == seqs_of(out@) + msgstr_lines(mv, i as int),
        decreases ms@.len() - i,
    {
        let mut key: Vec<char> = chars_of("msgstr[");
        push_decimal(&mut key, i as u64);
        push_str(&mut key, "]");
        assert(key@ =~= "msgstr["@ + decimal(i as nat) + "]"@);
        let line = format_po_chars(key.as_slice(), ms[i].as_slice());
        assert(mv[i as int] == ms@[i as int]@);
        let ghost before = out@;
        out.push(line);
        assert(seqs_of(out@) == seqs_of(before).push(line@));
        i += 1;
    }
    assert(seqs_of(out@) + msgstr_lines(mv, i as int) == seqs_of(out@));
    out
}

fn push_line(out: &mut Vec<Vec<char>>, line: Vec<char>)
    ensures
        seqs_of(final(out)@) == seqs_of(old(out)@).push(line@),
{
    out.push(line);
}

fn append_lines(out: &mut Vec<Vec<char>>, more: Vec<Vec<char>>)
    ensures
        seqs_of(final(out)@) == seqs_of(old(out)@) + seqs_of(more@),
{
    let mut m = more;
    let ghost a = old(out)@;
    let ghost b = m@;
    out.append(&mut m);
    assert(seqs_of(out@) =~= seqs_of(a) + seqs_of(b));
}

/// The lines of an entry before obsolete marking.
pub fn entry_lines_exec(entry: &PoEntry, o: &PoFileOptions) -> (r: Vec<Vec<char>>)
    ensures
        seqs_of(r@) == entry_lines(entry@, o@),
{
    let ghost ev = entry@;
    let mut out = char_vecs(&entry.comments);
    let mut refs_lines: Vec<Vec<char>> = Vec::new();
    let never = match o.location_mode {
        LocationMode::Never => true,
        _ => false,
    };
    if !never && entry.references.len() > 0 && !entry.obsolete {
        let refs = char_vecs(&entry.references);
        refs_lines = reference_lines_exec(&refs, o);
    }
    append_lines(&mut out, refs_lines);
    let mut flag_lines: Vec<Vec<char>> = Vec::new();
    if !o.no_flags {
        let flags = char_vecs(&entry.flags);
        let nf = char_vecs(&o.no_flag);
        let kept = kept_flags_exec(&flags, &nf);
        if kept.len() > 0 {
            let mut line: Vec<char> = vec!['#', ',', ' '];
            let sep: Vec<char> = vec![',', ' '];
            assert(sep@ =~= seq![',', ' ']);
            let joined = join(kept.as_slice(), sep.as_slice());
            line.extend_from_slice(joined.as_slice());
            assert(line@ =~= seq!['#', ',', ' '] + joined@);
            push_line(&mut flag_lines, line);
        }
    }
    append_lines(&mut out, flag_lines);
    let mut ctx_lines: Vec<Vec<char>> = Vec::new();
    match &entry.msgctxt {
        Some(c) => {
            let cv = chars_of(c.as_str());
            push_line(&mut ctx_lines, format_po_str_key("msgctxt", cv.as_slice()));
        },
        None => {},
    }
    append_lines(&mut out, ctx_lines);
    let idv = chars_of(entry.msgid.as_str());
    push_line(&mut out, format_po_str_key("msgid", idv.as_slice()));
    let ms = char_vecs(&entry.msgstr);
    let mut tail: Vec<Vec<char>> = Vec::new();
    match &entry.msgid_plural {
        Some(p) => {
            let pv = chars_of(p.as_str());
            push_line(&mut tail, format_po_str_key("msgid_plural", pv.as_slice()));
            append_lines(&mut tail, msgstr_lines_exec(&ms));
        },
        None => {
            let first: Vec<char> = if ms.len() > 0 {
                vstd::slice::slice_to_vec(ms[0].as_slice())
            } else {
                Vec::new()
            };
            assert(first@ == (if ev.msgstr.len() > 0 {
                ev.msgstr[0]
            } else {
                Seq::<char>::empty()
            }));
            push_line(&mut tail, format_po_str_key("msgstr", first.as_slice()));
        },
    }
    append_lines(&mut out, tail);
    out
}

/// Every line of every piece behind `#~ `.
pub fn obsolete_lines_exec(ls: &Vec<Vec<char>>) -> (r: Vec<Vec<char>>)
    ensures
        seqs_of(r@) == obsolete_lines(seqs_of(ls@)),
{
    let mut out: Vec<Vec<char>> = Vec::new();
    let mut i: usize = 0;
    assert(seqs_of(ls@).take(0) =~= Seq::<Seq<char>>::empty());
    while i < ls.len()
        invariant
            i <= ls@.len(),
            seqs_of(out@) == obsolete_lines(seqs_of(ls@).take(i as int)),
        decreases ls@.len() - i,
    {
        let ghost t = seqs_of(ls@).take(i + 1);
        assert(t.drop_last() == seqs_of(ls@).take(i as int));
        assert(t.last() == ls@[i as int]@);
        let pieces = lines(ls[i].as_slice());
        let ghost pv = seqs_of(pieces@);
        let ghost start = seqs_of(out@);
        let mut j: usize = 0;
        while j < pieces.len()
            invariant
                j <= pieces@.len(),
                pv == seqs_of(pieces@),
                seqs_of(out@) == start + pv.take(j as int).map_values(
                    |l: Seq<char>| seq!['#', '~', ' '] + l,
                ),
            decreases pieces@.len() - j,
        {
            let mut l: Vec<char> = vec!['#', '~', ' '];
            l.extend_from_slice(pieces[j].as_slice());
            assert(l@ =~= seq!['#', '~', ' '] + pv[j as int]);
            let ghost before = out@;
            out.push(l);
            assert(seqs_of(out@) == seqs_of(before).push(l@));
            assert(pv.take(j + 1).map_values(|l: Seq<char>| seq!['#', '~', ' '] + l) =~= pv.take(
                j as int,
            ).map_values(|l: Seq<char>| seq!['#', '~', ' '] + l).push(seq!['#', '~', ' '] + pv[j as int]));
            j += 1;
        }
        assert(pv.take(pieces@.len() as int) == pv);
        i += 1;
    }
    assert(seqs_of(ls@).take(ls@.len() as int) == seqs_of(ls@));
    out
}

pub fn format_entry(entry: &PoEntry, options: &PoFileOptions) -> (r: String)
    ensures
        r@ == format_entry_spec(entry@, options@),
{
    let ls = entry_lines_exec(entry, options);
    let nl: Vec<char> = vec!['\n'];
    assert(nl@ =~= seq!['\n']);
    if entry.obsolete {
        let ol = obsolete_lines_exec(&ls);
        let j = join(ol.as_slice(), nl.as_slice());
        string_of(j.as_slice())
    } else {
        let j = join(ls.as_slice(), nl.as_slice());
        string_of(j.as_slice())
    }
}


/// The header of a fresh catalog, up to its creation date.
pub const HEADER_START: &'static str = r#"# SOME DESCRIPTIVE TITLE.
# Copyright (C) YEAR THE PACKAGE'S COPYRIGHT HOLDER
# This file is distributed under the same license as the PACKAGE package.
# FIRST AUTHOR <EMAIL@ADDRESS>, YEAR.
#
#, fuzzy
msgid ""
msgstr ""
"Project-Id-Version: PACKAGE VERSION\n"
"Report-Msgid-Bugs-To: \n"
"POT-Creation-Date: "#;

/// The header between the creation date and the language.
pub const HEADER_LANGUAGE: &'static str = r#"\n"
"PO-Revision-Date: YEAR-MO-DA HO:MI+ZONE\n"
"Last-Translator: FULL NAME <EMAIL@ADDRESS>\n"
"Language-Team: LANGUAGE <LL@li.org>\n"
"Language: "#;

/// The header between the language and the plural forms.
pub const HEADER_PLURAL_FORMS: &'static str = r#"\n"
"MIME-Version: 1.0\n"
"Content-Type: text/plain; charset=UTF-8\n"
"Content-Transfer-Encoding: 8bit\n"
"Plural-Forms: "#;

/// The end of the header.
pub const HEADER_END: &'static str = r#"\n""#;

/// The decimal digits of `n`, left-padded with zeros to `width`.
pub open spec fn zero_padded(n: nat, width: nat) -> Seq<char> {
    let d = decimal(n);
    if d.len() < width {
        Seq::new((width - d.len()) as nat, |i: int| '0') + d
    } else {
        d
    }
}

/// `format!("{:04}", y)` for a signed year: a minus sign counts toward the
/// width.
pub open spec fn year_text(y: int) -> Seq<char> {
    if y < 0 {
        seq!['-'] + zero_padded((-y) as nat, 3)
    } else {
        zero_padded(y as nat, 4)
    }
}

fn push_zero_padded(out: &mut Vec<char>, n: u64, width: usize)
    requires
        width <= 4,
    ensures
        final(out)@ == old(out)@ + zero_padded(n as nat, width as nat),
{
    let mut d: Vec<char> = Vec::new();
    push_decimal(&mut d, n);
    assert(d@ == decimal(n as nat));
    let ghost before = out@;
    let mut k: usize = d.len();
    while k < width
        invariant
            d@ == decimal(n as nat),
            d@.len() <= k <= width || (k == d@.len() && k >= width),
            out@ == before + Seq::new((k - d@.len()) as nat, |i: int| '0'),
        decreases width - k,
    {
        out.push('0');
        assert(out@ =~= before + Seq::new((k + 1 - d@.len()) as nat, |i: int| '0'));
        k += 1;
    }
    out.extend_from_slice(d.as_slice());
    proof {
        if d@.len() >= width {
            assert(Seq::new(0nat, |i: int| '0') =~= Seq::<char>::empty());
        }
    }
    assert(out@ =~= before + zero_padded(n as nat, width as nat));
}

/// Calendar date and time (UTC) of a Unix time: year, month, day, hour,
/// minute, by the days-to-civil conversion.
pub open spec fn civil_spec(secs: int) -> (int, u32, u32, u32, u32) {
    let days = secs / 86_400;
    let rem = secs % 86_400;
    let z = days + 719_468;
    let era = z / 146_097;
    let doe = z % 146_097;
    let yoe = (doe - doe / 1460 + doe / 36_524 - doe / 146_096) / 365;
    let y = yoe + era * 400;
    let doy = doe - (365 * yoe + yoe / 4 - yoe / 100);
    let mp = (5 * doy + 2) / 153;
    let d = (doy - (153 * mp + 2) / 5 + 1) as u32;
    let m = (if mp < 10 {
        mp + 3
    } else {
        mp - 9
    }) as u32;
    let y = if m <= 2 {
        y + 1
    } else {
        y
    };
    (y, m, d, (rem / 3600) as u32, (rem % 3600 / 60) as u32)
}

/// Days-to-civil conversion (Howard Hinnant's algorithm).
pub fn civil_from_unix(secs: i64) -> (r: (i64, u32, u32, u32, u32))
    ensures
        (r.0 as int, r.1, r.2, r.3, r.4) == civil_spec(secs as int),
{
    let days = secs.checked_div_euclid(86_400).unwrap();
    let rem = secs.checked_rem_euclid(86_400).unwrap();
    assert(-106_751_991_167_301 <= days <= 106_751_991_167_300);
    assert(0 <= rem < 86_400);
    let z = days + 719_468;
    let era = z.checked_div_euclid(146_097).unwrap();
    let doe = z.checked_rem_euclid(146_097).unwrap();
    assert(0 <= doe < 146_097);
    assert(-800_000_000 <= era <= 800_000_000);
    let yoe = (doe - doe / 1460 + doe / 36_524 - doe / 146_096) / 365;
    assert(0 <= yoe <= 400);
    let y = yoe + era * 400;
    let doy = doe - (365 * yoe + yoe / 4 - yoe / 100);
    assert(-1_000_000 <= doy <= 1_000_000);
    let mp = (5 * doy + 2).checked_div_euclid(153).unwrap();
    assert(-100_000 <= mp <= 100_000);
    let d = (doy - (153 * mp + 2).checked_div_euclid(5).unwrap() + 1) as u32;
    let m = (if mp < 10 {
        mp + 3
    } else {
        mp - 9
    }) as u32;
    let y = if m <= 2 {
        y + 1
    } else {
        y
    };
    (y, m, d, (rem / 3600) as u32, (rem % 3600 / 60) as u32)
}

/// `POT-Creation-Date` in xgettext's format, e.g. `2026-07-29 04:34+0000`.
pub open spec fn creation_date_text(secs: int) -> Seq<char> {
    let (y, mo, d, h, mi) = civil_spec(secs);
    year_text(y) + seq!['-'] + zero_padded(mo as nat, 2) + seq!['-'] + zero_padded(d as nat, 2)
        + seq![' '] + zero_padded(h as nat, 2) + seq![':'] + zero_padded(mi as nat, 2)
        + "+0000"@
}

pub fn pot_creation_date_at(secs: i64) -> (r: Vec<char>)
    ensures
        r@ == creation_date_text(secs as int),
{
    let (y, mo, d, h, mi) = civil_from_unix(secs);
    let mut out: Vec<char> = Vec::new();
    if y < 0 {
        out.push('-');
        let a: u64 = if y == i64::MIN {
            9_223_372_036_854_775_808u64
        } else {
            (-y) as u64
        };
        push_zero_padded(&mut out, a, 3);
    } else {
        push_zero_padded(&mut out, y as u64, 4);
    }
    assert(out@ =~= year_text(y as int));
    out.push('-');
    push_zero_padded(&mut out, mo as u64, 2);
    out.push('-');
    push_zero_padded(&mut out, d as u64, 2);
    out.push(' ');
    push_zero_padded(&mut out, h as u64, 2);
    out.push(':');
    push_zero_padded(&mut out, mi as u64, 2);
    push_str(&mut out, "+0000");
    out
}

/// The header of a fresh catalog for `locale`, created at Unix time `secs`.
pub open spec fn header_spec(locale: Seq<char>, secs: int) -> Seq<char> {
    HEADER_START@ + creation_date_text(secs) + HEADER_LANGUAGE@ + locale + HEADER_PLURAL_FORMS@
        + crate::plural_forms::plural_forms_spec(locale) + HEADER_END@
}

pub fn generate_header_at(locale: &str, secs: i64) -> (r: String)
    ensures
        r@ == header_spec(locale@, secs as int),
{
    let mut out: Vec<char> = chars_of(HEADER_START);
    let date = pot_creation_date_at(secs);
    out.extend_from_slice(date.as_slice());
    push_str(&mut out, HEADER_LANGUAGE);
    push_str(&mut out, locale);
    push_str(&mut out, HEADER_PLURAL_FORMS);
    push_str(&mut out, crate::plural_forms::plural_forms_for(locale));
    push_str(&mut out, HEADER_END);
    string_of(out.as_slice())
}

/// Reads the system clock: whole seconds since the Unix epoch (`0` when the
/// clock reads earlier). Nothing is claimed of the value.
#[verifier::external_body]
pub(crate) fn unix_now() -> (r: i64) {
    std::time::SystemTime::now().duration_since(std::time::UNIX_EPOCH).map(
        |d| d.as_secs() as i64,
    ).unwrap_or(0)
}

/// The header of a fresh catalog for `locale`, dated now.
pub fn generate_header(locale: &str) -> (r: String)
    ensures
        exists|secs: i64| r@ == header_spec(locale@, secs as int),
{
    let secs = unix_now();
    generate_header_at(locale, secs)
}

} // verus!
