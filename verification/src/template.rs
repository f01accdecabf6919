//! Message extraction from Django templates: `{% trans %}` tags,
//! `{% blocktrans %}` blocks (with and without plural forms) and `_("...")`
//! constants inside tags, with the translator comments placed above them.
use vstd::prelude::*;
use std::collections::HashMap;
use crate::text::{
    chars_of, find_sub, find_seq, has_prefix, has_suffix, lines, lines_of, rfind_seq,
    rfind_sub, seqs_of, starts_with, ends_with, string_of, trim, trim_seq, trim_start,
    trim_start_seq,
};
use crate::matching::{
    capture_spans, char_span, find_spans, is_match, regex_capture_spans,
    regex_find_spans, regex_is_match, regex_replace_all, replace_all, span_rows, CharPositions,
};
use crate::extractor::{
    escape_lone_percent, escape_percent_seq, line_num_at, line_number, unescape_seq,
    unescape_string, or_empty, opt_seq, located_entry, EntryView, TranslationEntry,
    sort_by_position, without_positions, cand_views, opt_cand_view, entry_views,
    make_located_entry, sort_candidates, entries_of_candidates,
};
use crate::po::opt_chars;

verus! {

/// `{% comment %} ... {% endcomment %}` blocks.
pub const TEMPLATE_COMMENT_BLOCK_PATTERN: &'static str = r#"(?s)\{%\s*comment\s*%\}.*?\{%\s*endcomment\s*%\}"#;

/// `{# ... #}` comments on one line.
pub const TEMPLATE_INLINE_COMMENT_PATTERN: &'static str = r#"\{#.*?#\}"#;

/// A `{{ var }}` expression, its contents (filters included) captured.
pub const TEMPLATE_VAR_PATTERN: &'static str = r#"\{\{\s*(.*?)\s*\}\}"#;

/// What a template variable becomes in a message: a Python named format.
pub const TEMPLATE_VAR_REPLACEMENT: &'static str = "%($1)s";

/// A whitespace run that spans a line break.
pub const TRIM_WHITESPACE_PATTERN: &'static str = r"\s*\n\s*";

/// A character blanked out: a newline kept, anything else as many spaces as
/// it has bytes.
pub open spec fn blank_char(c: char) -> Seq<char> {
    if c == '\n' {
        seq!['\n']
    } else {
        Seq::new(crate::matching::utf8_width(c), |_i: int| ' ')
    }
}

/// Each character blanked out, the text keeping its byte length and its
/// newlines at their byte offsets.
pub open spec fn blank(t: Seq<char>) -> Seq<char>
    decreases t.len(),
{
    if t.len() == 0 {
        seq![]
    } else {
        blank(t.drop_last()) + blank_char(t.last())
    }
}

proof fn lemma_blank_concat(a: Seq<char>, b: Seq<char>)
    ensures
        blank(a + b) == blank(a) + blank(b),
    decreases b.len(),
{
    if b.len() == 0 {
        assert(a + b =~= a);
        assert(blank(a) + blank(b) =~= blank(a));
    } else {
        lemma_blank_concat(a, b.drop_last());
        assert((a + b).drop_last() =~= a + b.drop_last());
        assert((a + b).last() == b.last());
        assert(blank(a) + blank(b) =~= blank(a) + blank(b.drop_last()) + blank_char(b.last()));
    }
}

proof fn lemma_blank_spaces(n: nat)
    ensures
        blank(Seq::new(n, |_i: int| ' ')) == Seq::new(n, |_i: int| ' '),
    decreases n,
{
    if n > 0 {
        let sp = Seq::new(n, |_i: int| ' ');
        let d = Seq::new((n - 1) as nat, |_i: int| ' ');
        lemma_blank_spaces((n - 1) as nat);
        assert(sp.drop_last() =~= d);
        assert(sp.last() == ' ');
        assert(blank_char(' ') =~= seq![' ']);
        assert(d + seq![' '] =~= sp);
    }
}

/// Blanking blanked text changes nothing.
proof fn lemma_blank_twice(t: Seq<char>)
    ensures
        blank(blank(t)) == blank(t),
    decreases t.len(),
{
    if t.len() > 0 {
        lemma_blank_twice(t.drop_last());
        lemma_blank_concat(blank(t.drop_last()), blank_char(t.last()));
        let c = t.last();
        if c == '\n' {
            assert(blank(seq!['\n']) =~= seq!['\n']) by {
                assert(seq!['\n'].drop_last() =~= Seq::<char>::empty());
                assert(seq!['\n'].last() == '\n');
                assert(blank(Seq::<char>::empty()) == Seq::<char>::empty());
            }
        } else {
            lemma_blank_spaces(crate::matching::utf8_width(c));
        }
    }
}

/// `s` from position `last` on, with the matches from the `i`-th on blanked
/// out; a match that does not start at or after `last` is passed over.
pub open spec fn blank_from(s: Seq<char>, spans: Seq<(usize, usize)>, i: int, last: int) -> Seq<char>
    decreases spans.len() - i,
{
    if i < 0 || i >= spans.len() {
        s.subrange(last, s.len() as int)
    } else {
        match char_span(s, spans[i]) {
            Some((a, b)) => if last <= a {
                s.subrange(last, a) + blank(s.subrange(a, b)) + blank_from(s, spans, i + 1, b)
            } else {
                blank_from(s, spans, i + 1, last)
            },
            None => blank_from(s, spans, i + 1, last),
        }
    }
}

/// The text with each match of a pattern blanked out.
pub open spec fn blank_matches(s: Seq<char>, pattern: Seq<char>) -> Seq<char> {
    blank_from(s, or_empty(regex_find_spans(pattern, s)), 0, 0)
}

/// A template with its comment blocks, then its inline comments, blanked out:
/// lines keep their numbers.
pub open spec fn strip_comments_spec(content: Seq<char>) -> Seq<char> {
    blank_matches(
        blank_matches(content, TEMPLATE_COMMENT_BLOCK_PATTERN@),
        TEMPLATE_INLINE_COMMENT_PATTERN@,
    )
}

/// Blanked text is as long as the text has bytes, which is at least its
/// number of characters.
pub proof fn lemma_blank_len(t: Seq<char>)
    ensures
        blank(t).len() == crate::matching::byte_len(t),
        t.len() <= crate::matching::byte_len(t),
    decreases t.len(),
{
    if t.len() > 0 {
        lemma_blank_len(t.drop_last());
    }
}

/// The stripped template has no more characters than the template has
/// bytes.
pub proof fn lemma_stripped_len(content: Seq<char>)
    ensures
        strip_comments_spec(content).len() <= crate::matching::byte_len(content),
        content.len() <= crate::matching::byte_len(content),
{
    law_stripping_keeps_lines(content);
    lemma_blank_len(content);
    lemma_blank_len(strip_comments_spec(content));
}

/// Blanking the text with matches blanked out is blanking the text itself:
/// byte for byte, newlines stay where they were.
proof fn lemma_blank_from_profile(s: Seq<char>, spans: Seq<(usize, usize)>, i: int, last: int)
    requires
        0 <= last <= s.len(),
    ensures
        blank(blank_from(s, spans, i, last)) == blank(s.subrange(last, s.len() as int)),
    decreases spans.len() - i,
{
    if i < 0 || i >= spans.len() {
        return;
    }
    match char_span(s, spans[i]) {
        Some((a, b)) => {
            if last <= a {
                lemma_blank_from_profile(s, spans, i + 1, b);
                let g = s.subrange(last, a);
                let m = s.subrange(a, b);
                let r = blank_from(s, spans, i + 1, b);
                lemma_blank_concat(g + blank(m), r);
                lemma_blank_concat(g, blank(m));
                lemma_blank_twice(m);
                lemma_blank_concat(g + m, s.subrange(b, s.len() as int));
                lemma_blank_concat(g, m);
                assert(s.subrange(last, s.len() as int) =~= g + m + s.subrange(b, s.len() as int));
            } else {
                lemma_blank_from_profile(s, spans, i + 1, last);
            }
        },
        None => {
            lemma_blank_from_profile(s, spans, i + 1, last);
        },
    }
}

/// Blanking out comments keeps the text's byte length and every newline at
/// its byte offset, so each position stays on the same line: blanked
/// alike, the stripped text and the template are the same.
pub proof fn law_stripping_keeps_lines(content: Seq<char>)
    ensures
        blank(strip_comments_spec(content)) == blank(content),
{
    let p1 = blank_matches(content, TEMPLATE_COMMENT_BLOCK_PATTERN@);
    lemma_blank_from_profile(
        content,
        or_empty(regex_find_spans(TEMPLATE_COMMENT_BLOCK_PATTERN@, content)),
        0,
        0,
    );
    lemma_blank_from_profile(
        p1,
        or_empty(regex_find_spans(TEMPLATE_INLINE_COMMENT_PATTERN@, p1)),
        0,
        0,
    );
    assert(content.subrange(0, content.len() as int) =~= content);
    assert(p1.subrange(0, p1.len() as int) =~= p1);
}

fn push_blank(out: &mut Vec<char>, t: &[char])
    ensures
        final(out)@ == old(out)@ + blank(t@),
{
    let ghost start = out@;
    let mut i: usize = 0;
    while i < t.len()
        invariant
            i <= t@.len(),
            out@ == start + blank(t@.take(i as int)),
        decreases t@.len() - i,
    {
        let c = t[i];
        let ghost before = out@;
        if c == '\n' {
            out.push('\n');
        } else {
            let w: usize = if (c as u32) < 0x80 {
                1
            } else if (c as u32) < 0x800 {
                2
            } else if (c as u32) < 0x10000 {
                3
            } else {
                4
            };
            assert(w == crate::matching::utf8_width(c));
            let mut j: usize = 0;
            while j < w
                invariant
                    j <= w,
                    out@ == before + Seq::new(j as nat, |_i: int| ' '),
                decreases w - j,
            {
                out.push(' ');
                assert(Seq::new((j + 1) as nat, |_i: int| ' ') =~= Seq::new(j as nat, |_i: int| ' ').push(' '));
                j += 1;
            }
        }
        assert(t@.take(i + 1).drop_last() =~= t@.take(i as int));
        assert(t@.take(i + 1).last() == c);
        assert(out@ == before + blank_char(c));
        i += 1;
    }
    assert(t@.take(t@.len() as int) == t@);
}

/// The text with the given matches blanked out.
pub fn blank_spans(s: &[char], spans: &Vec<(usize, usize)>) -> (r: Vec<char>)
    ensures
        r@ == blank_from(s@, spans@, 0, 0),
{
    let pos = CharPositions::new(s);
    let mut out: Vec<char> = Vec::new();
    let mut last: usize = 0;
    let mut i: usize = 0;
    while i < spans.len()
        invariant
            pos.describes(s@),
            i <= spans@.len(),
            last <= s@.len(),
            out@ + blank_from(s@, spans@, i as int, last as int) == blank_from(s@, spans@, 0, 0),
        decreases spans@.len() - i,
    {
        match pos.span(s, spans[i]) {
            Some((a, b)) => {
                if last <= a {
                    let gap = &s[last..a];
                    assert(gap@ == s@.subrange(last as int, a as int));
                    let ghost before = out@;
                    out.extend_from_slice(gap);
                    let m = &s[a..b];
                    assert(m@ == s@.subrange(a as int, b as int));
                    push_blank(&mut out, m);
                    assert(out@ == before + s@.subrange(last as int, a as int) + blank(
                        s@.subrange(a as int, b as int),
                    ));
                    assert(out@ + blank_from(s@, spans@, i + 1, b as int) =~= before
                        + blank_from(s@, spans@, i as int, last as int));
                    last = b;
                }
            },
            None => {},
        }
        i += 1;
    }
    let rest = &s[last..s.len()];
    assert(rest@ == s@.subrange(last as int, s@.len() as int));
    out.extend_from_slice(rest);
    out
}

/// Blanks out the comment blocks, then the inline comments, of a template.
pub fn strip_template_comments(content: &str) -> (r: Vec<char>)
    ensures
        r@ == strip_comments_spec(content@),
        blank(r@) == blank(content@),
{
    proof {
        law_stripping_keeps_lines(content@);
    }
    let chars = chars_of(content);
    let spans1 = match find_spans(TEMPLATE_COMMENT_BLOCK_PATTERN, content) {
        Some(v) => v,
        None => Vec::new(),
    };
    let p1 = blank_spans(chars.as_slice(), &spans1);
    let p1s = string_of(p1.as_slice());
    let spans2 = match find_spans(TEMPLATE_INLINE_COMMENT_PATTERN, p1s.as_str()) {
        Some(v) => v,
        None => Vec::new(),
    };
    blank_spans(p1.as_slice(), &spans2)
}

/// A matched `{{ var }}` written as a Python named format (unchanged when
/// the pattern does not compile).
pub open spec fn templatize_spec(t: Seq<char>) -> Seq<char> {
    match regex_replace_all(TEMPLATE_VAR_PATTERN@, t, TEMPLATE_VAR_REPLACEMENT@) {
        Some(r) => r,
        None => t,
    }
}

pub fn templatize_vars(t: &[char]) -> (r: Vec<char>)
    ensures
        r@ == templatize_spec(t@),
{
    let ts = string_of(t);
    match replace_all(TEMPLATE_VAR_PATTERN, ts.as_str(), TEMPLATE_VAR_REPLACEMENT) {
        Some(r) => chars_of(r.as_str()),
        None => vstd::slice::slice_to_vec(t),
    }
}

/// `s` from `last` on: the text between variables with its lone `%` doubled,
/// each variable from the `i`-th on templatized.
pub open spec fn escape_vars_from(s: Seq<char>, spans: Seq<(usize, usize)>, i: int, last: int) -> Seq<
    char,
>
    decreases spans.len() - i,
{
    if i < 0 || i >= spans.len() {
        escape_percent_seq(s.subrange(last, s.len() as int))
    } else {
        match char_span(s, spans[i]) {
            Some((a, b)) => if last <= a {
                escape_percent_seq(s.subrange(last, a)) + templatize_spec(s.subrange(a, b))
                    + escape_vars_from(s, spans, i + 1, b)
            } else {
                escape_vars_from(s, spans, i + 1, last)
            },
            None => escape_vars_from(s, spans, i + 1, last),
        }
    }
}

/// Block text as a message: `%` doubled in the text, never inside a variable.
pub open spec fn escape_text_and_templatize_spec(s: Seq<char>) -> Seq<char> {
    escape_vars_from(s, or_empty(regex_find_spans(TEMPLATE_VAR_PATTERN@, s)), 0, 0)
}

pub fn escape_text_and_templatize(s: &[char]) -> (r: Vec<char>)
    ensures
        r@ == escape_text_and_templatize_spec(s@),
{
    let ss = string_of(s);
    let spans = match find_spans(TEMPLATE_VAR_PATTERN, ss.as_str()) {
        Some(v) => v,
        None => Vec::new(),
    };
    let pos = CharPositions::new(s);
    let mut out: Vec<char> = Vec::new();
    let mut last: usize = 0;
    let mut i: usize = 0;
    let ghost whole = escape_vars_from(s@, spans@, 0, 0);
    while i < spans.len()
        invariant
            pos.describes(s@),
            i <= spans@.len(),
            last <= s@.len(),
            whole == escape_vars_from(s@, spans@, 0, 0),
            out@ + escape_vars_from(s@, spans@, i as int, last as int) == whole,
        decreases spans@.len() - i,
    {
        match pos.span(s, spans[i]) {
            Some((a, b)) => {
                if last <= a {
                    let gap = &s[last..a];
                    assert(gap@ == s@.subrange(last as int, a as int));
                    let ghost before = out@;
                    let e = escape_lone_percent(gap);
                    out.extend_from_slice(e.as_slice());
                    let m = &s[a..b];
                    assert(m@ == s@.subrange(a as int, b as int));
                    let t = templatize_vars(m);
                    out.extend_from_slice(t.as_slice());
                    assert(out@ + escape_vars_from(s@, spans@, i + 1, b as int) =~= before
                        + escape_vars_from(s@, spans@, i as int, last as int));
                    last = b;
                }
            },
            None => {},
        }
        i += 1;
    }
    let rest = &s[last..s.len()];
    assert(rest@ == s@.subrange(last as int, s@.len() as int));
    let e = escape_lone_percent(rest);
    out.extend_from_slice(e.as_slice());
    out
}

/// Whitespace collapsed as `trimmed` does: the text trimmed, then each
/// whitespace run spanning a line break made one space.
pub open spec fn collapse_spec(s: Seq<char>) -> Seq<char> {
    let t = trim_seq(s);
    match regex_replace_all(TRIM_WHITESPACE_PATTERN@, t, seq![' ']) {
        Some(r) => r,
        None => t,
    }
}

pub fn collapse_whitespace(s: &[char]) -> (r: Vec<char>)
    ensures
        r@ == collapse_spec(s@),
{
    let t = trim(s);
    let ts = string_of(t);
    let sp: [char; 1] = [' '];
    assert(sp@ =~= seq![' ']);
    let space = string_of(sp.as_slice());
    match replace_all(TRIM_WHITESPACE_PATTERN, ts.as_str(), space.as_str()) {
        Some(r) => chars_of(r.as_str()),
        None => vstd::slice::slice_to_vec(t),
    }
}


/// `str::trim_start_matches`: every leading copy of `p` removed.
pub open spec fn strip_leading_copies(s: Seq<char>, p: Seq<char>) -> Seq<char>
    decreases s.len(),
{
    if p.len() > 0 && has_prefix(s, p) {
        strip_leading_copies(s.skip(p.len() as int), p)
    } else {
        s
    }
}

/// `str::trim_end_matches`: every trailing copy of `p` removed.
pub open spec fn strip_trailing_copies(s: Seq<char>, p: Seq<char>) -> Seq<char>
    decreases s.len(),
{
    if p.len() > 0 && has_suffix(s, p) {
        strip_trailing_copies(s.take(s.len() - p.len()), p)
    } else {
        s
    }
}

fn strip_leading_copies_exec<'a>(s: &'a [char], p: &[char]) -> (r: &'a [char])
    ensures
        r@ == strip_leading_copies(s@, p@),
{
    let mut cur = s;
    while p.len() > 0 && starts_with(cur, p)
        invariant
            strip_leading_copies(cur@, p@) == strip_leading_copies(s@, p@),
        decreases cur@.len(),
    {
        let next = &cur[p.len()..cur.len()];
        assert(next@ == cur@.skip(p@.len() as int));
        cur = next;
    }
    cur
}

fn strip_trailing_copies_exec<'a>(s: &'a [char], p: &[char]) -> (r: &'a [char])
    ensures
        r@ == strip_trailing_copies(s@, p@),
{
    let mut cur = s;
    while p.len() > 0 && ends_with(cur, p)
        invariant
            strip_trailing_copies(cur@, p@) == strip_trailing_copies(s@, p@),
        decreases cur@.len(),
    {
        let next = &cur[0..cur.len() - p.len()];
        assert(next@ == cur@.take(cur@.len() - p@.len()));
        cur = next;
    }
    cur
}

/// The comment of an inline `{# ... #}` match, when it is a translator
/// comment: it applies to the line below the comment's.
pub open spec fn inline_comment_item(content: Seq<char>, span: (usize, usize)) -> Option<
    (int, Seq<Seq<char>>),
> {
    match char_span(content, span) {
        Some((a, b)) => {
            let inner = trim_seq(
                strip_trailing_copies(
                    strip_leading_copies(content.subrange(a, b), seq!['{', '#']),
                    seq!['#', '}'],
                ),
            );
            if has_prefix(inner, crate::extractor::TRANSLATOR_COMMENT_MARK@) {
                Some((line_number(content, a) + 1, seq![inner]))
            } else {
                None
            }
        },
        None => None,
    }
}

/// Index of the last line that, left-trimmed, starts with `mark`, or -1.
pub open spec fn last_marked(ls: Seq<Seq<char>>, mark: Seq<char>) -> int
    decreases ls.len(),
{
    if ls.len() == 0 {
        -1
    } else if has_prefix(trim_start_seq(ls.last()), mark) {
        ls.len() - 1
    } else {
        last_marked(ls.drop_last(), mark)
    }
}

pub proof fn lemma_last_marked(ls: Seq<Seq<char>>, mark: Seq<char>)
    ensures
        -1 <= last_marked(ls, mark) < ls.len(),
    decreases ls.len(),
{
    if ls.len() > 0 {
        lemma_last_marked(ls.drop_last(), mark);
    }
}

/// The lines trimmed, empty ones dropped.
pub open spec fn nonempty_trimmed(ls: Seq<Seq<char>>) -> Seq<Seq<char>>
    decreases ls.len(),
{
    if ls.len() == 0 {
        seq![]
    } else {
        let r = nonempty_trimmed(ls.drop_last());
        let t = trim_seq(ls.last());
        if t.len() > 0 {
            r.push(t)
        } else {
            r
        }
    }
}

/// The body of a `{% comment %}` block between its opening and closing
/// tags, when there is one.
pub open spec fn comment_block_inner(body: Seq<char>) -> Option<Seq<char>> {
    let f = find_seq(body, seq!['%', '}']);
    let start = if f >= 0 {
        f + 2
    } else {
        0
    };
    let r = rfind_seq(body, seq!['{', '%']);
    let end = if r >= 0 {
        r
    } else {
        body.len() as int
    };
    if start >= end {
        None
    } else {
        Some(body.subrange(start, end))
    }
}

/// The translator comment of a `{% comment %}` match: its lines from the last
/// one that starts with the mark, trimmed, the empty ones dropped; it applies
/// to the line below the block's end.
pub open spec fn block_comment_item(content: Seq<char>, span: (usize, usize)) -> Option<
    (int, Seq<Seq<char>>),
> {
    match char_span(content, span) {
        Some((a, b)) => match comment_block_inner(content.subrange(a, b)) {
            Some(inner) => {
                let ls = lines_of(inner);
                let p = last_marked(ls, crate::extractor::TRANSLATOR_COMMENT_MARK@);
                if p < 0 {
                    None
                } else {
                    let collected = nonempty_trimmed(ls.skip(p));
                    if collected.len() == 0 {
                        None
                    } else {
                        Some((line_number(content, b) + 1, collected))
                    }
                }
            },
            None => None,
        },
        None => None,
    }
}

/// The comment items of the inline comment matches, in order.
pub open spec fn inline_items(content: Seq<char>, spans: Seq<(usize, usize)>) -> Seq<
    (int, Seq<Seq<char>>),
>
    decreases spans.len(),
{
    if spans.len() == 0 {
        seq![]
    } else {
        inline_items(content, spans.drop_last()) + crate::extractor::opt_seq(
            inline_comment_item(content, spans.last()),
        )
    }
}

/// The comment items of the comment block matches, in order.
pub open spec fn block_items(content: Seq<char>, spans: Seq<(usize, usize)>) -> Seq<
    (int, Seq<Seq<char>>),
>
    decreases spans.len(),
{
    if spans.len() == 0 {
        seq![]
    } else {
        block_items(content, spans.drop_last()) + crate::extractor::opt_seq(
            block_comment_item(content, spans.last()),
        )
    }
}

/// Translator comments of a template, each with the line it applies to:
/// the inline ones first, then the blocks, each kind in source order.
pub open spec fn template_comment_items(content: Seq<char>) -> Seq<(int, Seq<Seq<char>>)> {
    inline_items(content, or_empty(regex_find_spans(TEMPLATE_INLINE_COMMENT_PATTERN@, content)))
        + block_items(content, or_empty(regex_find_spans(TEMPLATE_COMMENT_BLOCK_PATTERN@, content)))
}

/// The comments that apply to `line`, in the items' order.
pub open spec fn comments_at(items: Seq<(int, Seq<Seq<char>>)>, line: int) -> Seq<Seq<char>>
    decreases items.len(),
{
    if items.len() == 0 {
        seq![]
    } else {
        comments_at(items.drop_last(), line) + if items.last().0 == line {
            items.last().1
        } else {
            seq![]
        }
    }
}

/// A comment item: the line it applies to and its comment lines.
pub open spec fn item_views(v: Seq<(usize, Vec<Vec<char>>)>) -> Seq<(int, Seq<Seq<char>>)> {
    v.map_values(|x: (usize, Vec<Vec<char>>)| (x.0 as int, seqs_of(x.1@)))
}

fn inline_comment_item_exec(content: &[char], pos: &CharPositions, span: (usize, usize)) -> (r:
    Option<(usize, Vec<Vec<char>>)>)
    requires
        pos.describes(content@),
        content@.len() < usize::MAX - 1,
    ensures
        match r {
            Some(x) => inline_comment_item(content@, span) == Some((x.0 as int, seqs_of(x.1@))),
            None => inline_comment_item(content@, span) is None,
        },
{
    match pos.span(content, span) {
        Some((a, b)) => {
            let m = &content[a..b];
            assert(m@ == content@.subrange(a as int, b as int));
            let open: [char; 2] = ['{', '#'];
            let close: [char; 2] = ['#', '}'];
            assert(open@ =~= seq!['{', '#']);
            assert(close@ =~= seq!['#', '}']);
            let s1 = strip_leading_copies_exec(m, open.as_slice());
            let s2 = strip_trailing_copies_exec(s1, close.as_slice());
            let inner = trim(s2);
            let mark = chars_of(crate::extractor::TRANSLATOR_COMMENT_MARK);
            if starts_with(inner, mark.as_slice()) {
                let line = line_num_at(content, a);
                proof {
                    crate::extractor::lemma_count_of_le(content@.take(a as int), '\n');
                }
                let mut v: Vec<Vec<char>> = Vec::new();
                v.push(vstd::slice::slice_to_vec(inner));
                assert(seqs_of(v@) =~= seq![inner@]);
                Some((line + 1, v))
            } else {
                None
            }
        },
        None => None,
    }
}

fn nonempty_trimmed_exec(ls: &[Vec<char>]) -> (r: Vec<Vec<char>>)
    ensures
        seqs_of(r@) == nonempty_trimmed(seqs_of(ls@)),
{
    let ghost lv = seqs_of(ls@);
    let mut out: Vec<Vec<char>> = Vec::new();
    let mut i: usize = 0;
    assert(lv.take(0) =~= Seq::<Seq<char>>::empty());
    while i < ls.len()
        invariant
            i <= ls@.len(),
            lv == seqs_of(ls@),
            seqs_of(out@) == nonempty_trimmed(lv.take(i as int)),
        decreases ls@.len() - i,
    {
        assert(lv.take(i + 1).drop_last() == lv.take(i as int));
        assert(lv.take(i + 1).last() == ls@[i as int]@);
        let t = trim(ls[i].as_slice());
        if t.len() > 0 {
            let ghost before = out@;
            out.push(vstd::slice::slice_to_vec(t));
            assert(seqs_of(out@) == seqs_of(before).push(t@));
        }
        i += 1;
    }
    assert(lv.take(ls@.len() as int) == lv);
    out
}

fn block_comment_item_exec(content: &[char], pos: &CharPositions, span: (usize, usize)) -> (r:
    Option<(usize, Vec<Vec<char>>)>)
    requires
        pos.describes(content@),
        content@.len() < usize::MAX - 1,
    ensures
        match r {
            Some(x) => block_comment_item(content@, span) == Some((x.0 as int, seqs_of(x.1@))),
            None => block_comment_item(content@, span) is None,
        },
{
    match pos.span(content, span) {
        Some((a, b)) => {
            let body = &content[a..b];
            assert(body@ == content@.subrange(a as int, b as int));
            let close: [char; 2] = ['%', '}'];
            let open: [char; 2] = ['{', '%'];
            assert(close@ =~= seq!['%', '}']);
            assert(open@ =~= seq!['{', '%']);
            let start: usize = match find_sub(body, close.as_slice()) {
                Some(f) => {
                    proof {
                        crate::text::lemma_find_seq(body@, close@);
                    }
                    f + 2
                },
                None => 0,
            };
            let end: usize = match rfind_sub(body, open.as_slice()) {
                Some(r) => r,
                None => body.len(),
            };
            if start >= end {
                return None;
            }
            let inner = &body[start..end];
            assert(inner@ == body@.subrange(start as int, end as int));
            let ls = lines(inner);
            let mark = chars_of(crate::extractor::TRANSLATOR_COMMENT_MARK);
            let ghost lv = seqs_of(ls@);
            let mut k: usize = ls.len();
            proof {
                lemma_last_marked(lv, mark@);
            }
            assert(lv.take(lv.len() as int) == lv);
            while k > 0 && !starts_with(trim_start(ls[k - 1].as_slice()), mark.as_slice())
                invariant
                    k <= ls@.len(),
                    lv == seqs_of(ls@),
                    last_marked(lv, mark@) == last_marked(lv.take(k as int), mark@),
                decreases k,
            {
                assert(lv.take(k as int).last() == ls@[k - 1]@);
                assert(lv.take(k as int).drop_last() == lv.take(k - 1));
                k -= 1;
            }
            if k == 0 {
                assert(lv.take(0) =~= Seq::<Seq<char>>::empty());
                return None;
            }
            assert(lv.take(k as int).last() == ls@[k - 1]@);
            let p = k - 1;
            assert(last_marked(lv, mark@) == p);
            let tail = &ls.as_slice()[p..ls.len()];
            assert(seqs_of(tail@) =~= lv.skip(p as int));
            let collected = nonempty_trimmed_exec(tail);
            if collected.len() == 0 {
                return None;
            }
            let line = line_num_at(content, b);
            proof {
                crate::extractor::lemma_count_of_le(content@.take(b as int), '\n');
            }
            Some((line + 1, collected))
        },
        None => None,
    }
}

/// The translator comments of a template, each with the line it applies to.
pub fn template_translator_comments(content: &str, chars: &[char]) -> (r: Vec<(usize, Vec<Vec<char>>)>)
    requires
        chars@ == content@,
        chars@.len() < usize::MAX - 1,
    ensures
        item_views(r@) == template_comment_items(content@),
{
    let inline = match find_spans(TEMPLATE_INLINE_COMMENT_PATTERN, content) {
        Some(v) => v,
        None => Vec::new(),
    };
    let blocks = match find_spans(TEMPLATE_COMMENT_BLOCK_PATTERN, content) {
        Some(v) => v,
        None => Vec::new(),
    };
    comment_items_from_spans(chars, &inline, &blocks)
}

/// The translator comments of a template, given the byte spans of its
/// inline comment matches and of its comment block matches: the inline ones
/// first, then the blocks, each kind in the order of the spans.
pub fn comment_items_from_spans(
    chars: &[char],
    inline: &Vec<(usize, usize)>,
    blocks: &Vec<(usize, usize)>,
) -> (r: Vec<(usize, Vec<Vec<char>>)>)
    requires
        chars@.len() < usize::MAX - 1,
    ensures
        item_views(r@) == inline_items(chars@, inline@) + block_items(chars@, blocks@),
{
    let pos = CharPositions::new(chars);
    let mut out: Vec<(usize, Vec<Vec<char>>)> = Vec::new();
    let mut i: usize = 0;
    assert(inline@.take(0) =~= Seq::<(usize, usize)>::empty());
    assert(item_views(out@) =~= inline_items(chars@, inline@.take(0)));
    while i < inline.len()
        invariant
            i <= inline@.len(),
            pos.describes(chars@),
            chars@.len() < usize::MAX - 1,
            item_views(out@) == inline_items(chars@, inline@.take(i as int)),
        decreases inline@.len() - i,
    {
        assert(inline@.take(i + 1).drop_last() == inline@.take(i as int));
        assert(inline@.take(i + 1).last() == inline@[i as int]);
        let ghost before = item_views(out@);
        match inline_comment_item_exec(chars, &pos, inline[i]) {
            Some(x) => {
                out.push(x);
                assert(item_views(out@) == before.push((x.0 as int, seqs_of(x.1@))));
            },
            None => {
                assert(before + Seq::<(int, Seq<Seq<char>>)>::empty() == before);
            },
        }
        i += 1;
    }
    assert(inline@.take(inline@.len() as int) == inline@);
    let ghost first = item_views(out@);
    let mut j: usize = 0;
    assert(blocks@.take(0) =~= Seq::<(usize, usize)>::empty());
    assert(item_views(out@) =~= first + block_items(chars@, blocks@.take(0)));
    while j < blocks.len()
        invariant
            j <= blocks@.len(),
            pos.describes(chars@),
            chars@.len() < usize::MAX - 1,
            item_views(out@) == first + block_items(chars@, blocks@.take(j as int)),
        decreases blocks@.len() - j,
    {
        assert(blocks@.take(j + 1).drop_last() == blocks@.take(j as int));
        assert(blocks@.take(j + 1).last() == blocks@[j as int]);
        let ghost before = item_views(out@);
        match block_comment_item_exec(chars, &pos, blocks[j]) {
            Some(x) => {
                out.push(x);
                assert(item_views(out@) == before.push((x.0 as int, seqs_of(x.1@))));
            },
            None => {
                assert(before + Seq::<(int, Seq<Seq<char>>)>::empty() == before);
            },
        }
        j += 1;
    }
    assert(blocks@.take(blocks@.len() as int) == blocks@);
    out
}

/// The comments by line that a map holds: for each line an item applies
/// to, the comments that apply to it, in the items' order; no other line.
pub open spec fn comment_map_holds(
    m: Map<usize, Vec<Vec<char>>>,
    items: Seq<(int, Seq<Seq<char>>)>,
) -> bool {
    forall|line: usize|
        #![trigger m.contains_key(line)]
        (m.contains_key(line) ==> seqs_of(m[line]@) == comments_at(items, line as int)) && (
        m.contains_key(line) <==> comments_at(items, line as int).len() > 0)
}

/// The comments of the items gathered by the line they apply to.
pub fn comment_map(items: &Vec<(usize, Vec<Vec<char>>)>) -> (r: HashMap<usize, Vec<Vec<char>>>)
    ensures
        comment_map_holds(r@, item_views(items@)),
{
    broadcast use vstd::std_specs::hash::group_hash_axioms;

    let ghost iv = item_views(items@);
    let mut m: HashMap<usize, Vec<Vec<char>>> = HashMap::new();
    let mut i: usize = 0;
    assert(iv.take(0) =~= Seq::<(int, Seq<Seq<char>>)>::empty());
    while i < items.len()
        invariant
            i <= items@.len(),
            iv == item_views(items@),
            comment_map_holds(m@, iv.take(i as int)),
        decreases items@.len() - i,
    {
        let ghost prev = iv.take(i as int);
        assert(iv.take(i + 1).drop_last() == prev);
        assert(iv.take(i + 1).last() == iv[i as int]);
        let line = items[i].0;
        let ghost m0 = m@;
        assert(m0.contains_key(line) ==> seqs_of(m0[line]@) == comments_at(prev, line as int));
        let mut cur: Vec<Vec<char>> = match m.remove(&line) {
            Some(v) => v,
            None => {
                let e: Vec<Vec<char>> = Vec::new();
                assert(seqs_of(e@) =~= comments_at(prev, line as int));
                e
            },
        };
        assert(seqs_of(cur@) == comments_at(prev, line as int));
        let ghost base = seqs_of(cur@);
        let mut k: usize = 0;
        while k < items[i].1.len()
            invariant
                i < items@.len(),
                k <= items@[i as int].1@.len(),
                seqs_of(cur@) == base + seqs_of(items@[i as int].1@).take(k as int),
            decreases items@[i as int].1@.len() - k,
        {
            let ghost b2 = cur@;
            let ghost piece = items@[i as int].1@[k as int]@;
            cur.push(vstd::slice::slice_to_vec(items[i].1[k].as_slice()));
            assert(seqs_of(cur@) == seqs_of(b2).push(piece));
            assert(seqs_of(items@[i as int].1@).take(k + 1) == seqs_of(items@[i as int].1@).take(
                k as int,
            ).push(piece));
            k += 1;
        }
        assert(seqs_of(items@[i as int].1@).take(k as int) == seqs_of(items@[i as int].1@));
        let ghost nv = seqs_of(cur@);
        if cur.len() > 0 {
            m.insert(line, cur);
        }
        let ghost next = iv.take(i + 1);
        assert forall|l: usize| #![trigger m@.contains_key(l)]
            (m@.contains_key(l) ==> seqs_of(m@[l]@) == comments_at(next, l as int)) && (
            m@.contains_key(l) <==> comments_at(next, l as int).len() > 0) by {
            assert(m0.contains_key(l) ==> seqs_of(m0[l]@) == comments_at(prev, l as int));
            assert(m0.contains_key(l) <==> comments_at(prev, l as int).len() > 0);
            assert(comments_at(next, l as int) == comments_at(prev, l as int) + if iv[i as int].0
                == l as int {
                iv[i as int].1
            } else {
                Seq::<Seq<char>>::empty()
            });
            if l == line {
                assert(iv[i as int].0 == line as int);
                assert(comments_at(next, l as int) == nv);
            } else {
                assert(m0.contains_key(l) == m@.contains_key(l));
                if m0.contains_key(l) {
                    assert(m@[l] == m0[l]);
                }
                assert(comments_at(next, l as int) =~= comments_at(prev, l as int));
            }
        }
        i += 1;
    }
    assert(iv.take(items@.len() as int) == iv);
    m
}

/// The comments a map gathered from the items holds for `line`.
fn comments_for(
    m: &HashMap<usize, Vec<Vec<char>>>,
    Ghost(items): Ghost<Seq<(int, Seq<Seq<char>>)>>,
    line: usize,
) -> (r: Vec<String>)
    requires
        comment_map_holds(m@, items),
    ensures
        crate::extractor::strings_view(r@) == comments_at(items, line as int),
{
    broadcast use vstd::std_specs::hash::group_hash_axioms;

    assert(m@.contains_key(line) ==> seqs_of(m@[line]@) == comments_at(items, line as int));
    match m.get(&line) {
        Some(v) => crate::extractor::strings_of(v.as_slice()),
        None => {
            let r: Vec<String> = Vec::new();
            assert(crate::extractor::strings_view(r@) =~= comments_at(items, line as int));
            r
        },
    }
}


/// `{% trans "..." %}` / `{% translate "..." context "..." %}`: the message in
/// groups 1-2, the context in groups 3-4.
pub const TEMPLATE_TRANS_PATTERN: &'static str = r##"\{%\s*(?:trans|translate)\s+(?:'([^'\\]*(?:\\.[^'\\]*)*)'|"([^"\\]*(?:\\.[^"\\]*)*)")(?:[^%]*?\bcontext\s+(?:'([^'\\]*(?:\\.[^'\\]*)*)'|"([^"\\]*(?:\\.[^"\\]*)*)"))?[^%]*?%\}"##;

/// A `{% blocktrans %}` block: its arguments in group 1, its body in group 2.
pub const TEMPLATE_BLOCKTRANS_PATTERN: &'static str = r##"(?s)\{%\s*(?:blocktrans|blocktranslate)((?:\s[^%]*)?)\s*%\}(.*?)\{%\s*(?:endblocktrans|endblocktranslate)\s*%\}"##;

/// A `{% blocktrans count ... %}` block with a `{% plural %}` part: its
/// arguments, singular and plural in groups 1-3.
pub const TEMPLATE_BLOCKTRANS_PLURAL_PATTERN: &'static str = r##"(?s)\{%\s*(?:blocktrans|blocktranslate)\s+(count\s[^%]*)%\}(.*?)\{%\s*plural\s*%\}(.*?)\{%\s*(?:endblocktrans|endblocktranslate)\s*%\}"##;

/// `context "..."` among a block's arguments.
pub const TEMPLATE_CONTEXT_PATTERN: &'static str = r##"\bcontext\s+(?:'([^'\\]*(?:\\.[^'\\]*)*)'|"([^"\\]*(?:\\.[^"\\]*)*)")"##;

/// Any `{% ... %}` or `{{ ... }}` construct.
pub const TEMPLATE_TAG_PATTERN: &'static str = r##"(?s)\{%.*?%\}|\{\{.*?\}\}"##;

/// An opening trans or blocktrans tag.
pub const TEMPLATE_TRANS_TAG_PATTERN: &'static str = r##"^\{%\s*(?:trans|translate|blocktrans|blocktranslate)\b"##;

/// A `_("...")` constant.
pub const TEMPLATE_CONSTANT_PATTERN: &'static str = r##"_\(\s*(?:'([^'\\]*(?:\\.[^'\\]*)*)'|"([^"\\]*(?:\\.[^"\\]*)*)")\s*\)"##;

/// The `{% plural %}` tag.
pub const TEMPLATE_PLURAL_TAG_PATTERN: &'static str = r##"\{%\s*plural\s*%\}"##;

/// Group `i` of a match row, `None` where it is missing.
pub open spec fn row_get(row: Seq<Option<(usize, usize)>>, i: int) -> Option<(usize, usize)> {
    if 0 <= i < row.len() {
        row[i]
    } else {
        None
    }
}

/// The text of a group.
pub open spec fn group_text(s: Seq<char>, g: Option<(usize, usize)>) -> Option<Seq<char>> {
    match g {
        Some(sp) => match char_span(s, sp) {
            Some((a, b)) => Some(s.subrange(a, b)),
            None => None,
        },
        None => None,
    }
}

/// The text of group `i`, or of group `j` when `i` did not take part.
pub open spec fn either_group(s: Seq<char>, row: Seq<Option<(usize, usize)>>, i: int, j: int) -> Option<
    Seq<char>,
> {
    match row_get(row, i) {
        Some(sp) => group_text(s, Some(sp)),
        None => group_text(s, row_get(row, j)),
    }
}

pub open spec fn opt_unescape(o: Option<Seq<char>>) -> Option<Seq<char>> {
    match o {
        Some(t) => Some(unescape_seq(t)),
        None => None,
    }
}

/// The `context "..."` of a block's arguments, unescaped.
pub open spec fn block_context_spec(args: Seq<char>) -> Option<Seq<char>> {
    match regex_capture_spans(TEMPLATE_CONTEXT_PATTERN@, args) {
        Some(rows) => if rows.len() > 0 {
            opt_unescape(either_group(args, rows[0], 1, 2))
        } else {
            None
        },
        None => None,
    }
}

/// Block text as a message, whitespace collapsed when the block is trimmed.
pub open spec fn process_block_text(t: Seq<char>, trimmed: bool) -> Seq<char> {
    let v = escape_text_and_templatize_spec(t);
    if trimmed {
        collapse_spec(v)
    } else {
        v
    }
}

/// The three block-level passes over a template.
#[derive(Clone, Copy, PartialEq, Eq, Debug)]
pub enum TemplatePass {
    Trans,
    BlockPlural,
    Block,
}

/// The message of one match of a pass, with the position where it starts.
pub open spec fn template_entry(
    kind: TemplatePass,
    c: Seq<char>,
    items: Seq<(int, Seq<Seq<char>>)>,
    file_ref: Seq<char>,
    row: Seq<Option<(usize, usize)>>,
) -> Option<(int, EntryView)> {
    match row_get(row, 0) {
        None => None,
        Some(sp) => match char_span(c, sp) {
            None => None,
            Some((a, b)) => {
                let line = line_number(c, a);
                let comments = comments_at(items, line);
                let full = c.subrange(a, b);
                let trimmed = find_seq(opening_tag(full), "trimmed"@) >= 0;
                let ctx = match group_text(c, row_get(row, 1)) {
                    Some(t) => block_context_spec(t),
                    None => None,
                };
                match kind {
                    TemplatePass::Trans => match either_group(c, row, 1, 2) {
                        Some(t) => {
                            let id = escape_percent_seq(templatize_spec(unescape_seq(t)));
                            if id.len() > 0 {
                                Some(
                                    (
                                        a,
                                        located_entry(
                                            id,
                                            None,
                                            opt_unescape(either_group(c, row, 3, 4)),
                                            file_ref,
                                            line,
                                            comments,
                                        ),
                                    ),
                                )
                            } else {
                                None
                            }
                        },
                        None => None,
                    },
                    TemplatePass::BlockPlural => match (
                        group_text(c, row_get(row, 2)),
                        group_text(c, row_get(row, 3)),
                    ) {
                        (Some(st), Some(pt)) => {
                            let sg = process_block_text(st, trimmed);
                            let pl = process_block_text(pt, trimmed);
                            if sg.len() > 0 {
                                Some((a, located_entry(sg, Some(pl), ctx, file_ref, line, comments)))
                            } else {
                                None
                            }
                        },
                        _ => None,
                    },
                    TemplatePass::Block => if regex_is_match(TEMPLATE_PLURAL_TAG_PATTERN@, full)
                        == Some(true) {
                        None
                    } else {
                        match group_text(c, row_get(row, 2)) {
                            Some(t) => {
                                let text = process_block_text(t, trimmed);
                                if text.len() > 0 {
                                    Some((a, located_entry(text, None, ctx, file_ref, line, comments)))
                                } else {
                                    None
                                }
                            },
                            None => None,
                        }
                    },
                }
            },
        },
    }
}

/// The messages of a pass's matches, in match order.
pub open spec fn pass_candidates(
    kind: TemplatePass,
    c: Seq<char>,
    items: Seq<(int, Seq<Seq<char>>)>,
    file_ref: Seq<char>,
    rows: Seq<Seq<Option<(usize, usize)>>>,
) -> Seq<(int, EntryView)>
    decreases rows.len(),
{
    if rows.len() == 0 {
        seq![]
    } else {
        pass_candidates(kind, c, items, file_ref, rows.drop_last()) + opt_seq(
            template_entry(kind, c, items, file_ref, rows.last()),
        )
    }
}

/// The `_("...")` constants of one tag, from its constant matches.
pub open spec fn constant_candidates(
    t: Seq<char>,
    a: int,
    line: int,
    comments: Seq<Seq<char>>,
    file_ref: Seq<char>,
    rows: Seq<Seq<Option<(usize, usize)>>>,
) -> Seq<(int, EntryView)>
    decreases rows.len(),
{
    if rows.len() == 0 {
        seq![]
    } else {
        constant_candidates(t, a, line, comments, file_ref, rows.drop_last()) + match either_group(
            t,
            rows.last(),
            1,
            2,
        ) {
            Some(m) => {
                let id = escape_percent_seq(unescape_seq(m));
                if id.len() > 0 {
                    seq![(a, located_entry(id, None, None, file_ref, line, comments))]
                } else {
                    seq![]
                }
            },
            None => seq![],
        }
    }
}

/// The byte span `tag` lies within one of the `blocks`.
pub open spec fn inside_any(blocks: Seq<(usize, usize)>, tag: (usize, usize)) -> bool {
    exists|k: int| 0 <= k < blocks.len() && blocks[k].0 <= tag.0 && tag.1 <= blocks[k].1
}

/// The constants of one tag: none for an opening trans tag or a tag inside a
/// blocktrans block.
pub open spec fn tag_candidates(
    c: Seq<char>,
    items: Seq<(int, Seq<Seq<char>>)>,
    file_ref: Seq<char>,
    blocks: Seq<(usize, usize)>,
    tag: (usize, usize),
) -> Seq<(int, EntryView)> {
    match char_span(c, tag) {
        None => seq![],
        Some((a, b)) => {
            let t = c.subrange(a, b);
            if regex_is_match(TEMPLATE_TRANS_TAG_PATTERN@, t) == Some(true) {
                seq![]
            } else if inside_any(blocks, tag) {
                seq![]
            } else {
                let line = line_number(c, a);
                constant_candidates(
                    t,
                    a,
                    line,
                    comments_at(items, line),
                    file_ref,
                    or_empty(regex_capture_spans(TEMPLATE_CONSTANT_PATTERN@, t)),
                )
            }
        },
    }
}

/// The constants of all tags, in order.
pub open spec fn constants_spec(
    c: Seq<char>,
    items: Seq<(int, Seq<Seq<char>>)>,
    file_ref: Seq<char>,
    blocks: Seq<(usize, usize)>,
    tags: Seq<(usize, usize)>,
) -> Seq<(int, EntryView)>
    decreases tags.len(),
{
    if tags.len() == 0 {
        seq![]
    } else {
        constants_spec(c, items, file_ref, blocks, tags.drop_last()) + tag_candidates(
            c,
            items,
            file_ref,
            blocks,
            tags.last(),
        )
    }
}

/// The messages of a template whose comments are blanked out, in source
/// order, given the matches of each pass and the comment items.
pub open spec fn template_entries_spec(
    c: Seq<char>,
    items: Seq<(int, Seq<Seq<char>>)>,
    file_ref: Seq<char>,
    trans: Seq<Seq<Option<(usize, usize)>>>,
    plural: Seq<Seq<Option<(usize, usize)>>>,
    blocks: Seq<Seq<Option<(usize, usize)>>>,
    block_spans: Seq<(usize, usize)>,
    tags: Seq<(usize, usize)>,
) -> Seq<EntryView> {
    without_positions(
        sort_by_position(
            pass_candidates(TemplatePass::Trans, c, items, file_ref, trans) + pass_candidates(
                TemplatePass::BlockPlural,
                c,
                items,
                file_ref,
                plural,
            ) + pass_candidates(TemplatePass::Block, c, items, file_ref, blocks) + constants_spec(
                c,
                items,
                file_ref,
                block_spans,
                tags,
            ),
        ),
    )
}

/// A template's messages come in source order: they are the messages of
/// its tags, blocks and constants, each kept as often as found, sorted by
/// where they start.
pub proof fn law_template_entries_in_order(
    c: Seq<char>,
    items: Seq<(int, Seq<Seq<char>>)>,
    file_ref: Seq<char>,
    trans: Seq<Seq<Option<(usize, usize)>>>,
    plural: Seq<Seq<Option<(usize, usize)>>>,
    blocks: Seq<Seq<Option<(usize, usize)>>>,
    block_spans: Seq<(usize, usize)>,
    tags: Seq<(usize, usize)>,
)
    ensures
        ({
            let all = pass_candidates(TemplatePass::Trans, c, items, file_ref, trans)
                + pass_candidates(TemplatePass::BlockPlural, c, items, file_ref, plural)
                + pass_candidates(TemplatePass::Block, c, items, file_ref, blocks) + constants_spec(
                c,
                items,
                file_ref,
                block_spans,
                tags,
            );
            let s = crate::extractor::sort_by_position(all);
            &&& template_entries_spec(c, items, file_ref, trans, plural, blocks, block_spans, tags)
                == crate::extractor::without_positions(s)
            &&& crate::extractor::in_source_order(s)
            &&& s.to_multiset() == all.to_multiset()
        }),
{
    let all = pass_candidates(TemplatePass::Trans, c, items, file_ref, trans)
        + pass_candidates(TemplatePass::BlockPlural, c, items, file_ref, plural)
        + pass_candidates(TemplatePass::Block, c, items, file_ref, blocks) + constants_spec(
        c,
        items,
        file_ref,
        block_spans,
        tags,
    );
    crate::extractor::law_sort_by_position(all);
}

/// The messages of a template, in source order; each carries the reference
/// `file_path:line` and the translator comments above it.
pub open spec fn extract_from_template_spec(content: Seq<char>, file_path: Seq<char>) -> Seq<EntryView> {
    let c = strip_comments_spec(content);
    template_entries_spec(
        c,
        template_comment_items(content),
        file_path,
        or_empty(regex_capture_spans(TEMPLATE_TRANS_PATTERN@, c)),
        or_empty(regex_capture_spans(TEMPLATE_BLOCKTRANS_PLURAL_PATTERN@, c)),
        or_empty(regex_capture_spans(TEMPLATE_BLOCKTRANS_PATTERN@, c)),
        or_empty(regex_find_spans(TEMPLATE_BLOCKTRANS_PATTERN@, c)),
        or_empty(regex_find_spans(TEMPLATE_TAG_PATTERN@, c)),
    )
}


fn row_get_exec(row: &Vec<Option<(usize, usize)>>, i: usize) -> (r: Option<(usize, usize)>)
    ensures
        r == row_get(row@, i as int),
{
    if i < row.len() {
        row[i]
    } else {
        None
    }
}

fn group_text_exec(s: &[char], pos: &CharPositions, g: Option<(usize, usize)>) -> (r: Option<
    Vec<char>,
>)
    requires
        pos.describes(s@),
    ensures
        opt_chars(r) == group_text(s@, g),
{
    match g {
        Some(sp) => match pos.span(s, sp) {
            Some((a, b)) => {
                let t = &s[a..b];
                assert(t@ == s@.subrange(a as int, b as int));
                Some(vstd::slice::slice_to_vec(t))
            },
            None => None,
        },
        None => None,
    }
}

fn either_group_exec(
    s: &[char],
    pos: &CharPositions,
    row: &Vec<Option<(usize, usize)>>,
    i: usize,
    j: usize,
) -> (r: Option<Vec<char>>)
    requires
        pos.describes(s@),
    ensures
        opt_chars(r) == either_group(s@, row@, i as int, j as int),
{
    match row_get_exec(row, i) {
        Some(sp) => group_text_exec(s, pos, Some(sp)),
        None => group_text_exec(s, pos, row_get_exec(row, j)),
    }
}

/// The `context "..."` of a block's arguments, unescaped.
pub fn block_context(args: &[char]) -> (r: Option<Vec<char>>)
    ensures
        opt_chars(r) == block_context_spec(args@),
{
    let s = string_of(args);
    match capture_spans(TEMPLATE_CONTEXT_PATTERN, s.as_str()) {
        Some(rows) => {
            if rows.len() > 0 {
                let pos = CharPositions::new(args);
                assert(span_rows(rows@)[0] == rows@[0]@);
                match either_group_exec(args, &pos, &rows[0], 1, 2) {
                    Some(t) => Some(unescape_string(t.as_slice())),
                    None => None,
                }
            } else {
                None
            }
        },
        None => None,
    }
}

fn block_ctx_exec(c: &[char], pos: &CharPositions, row: &Vec<Option<(usize, usize)>>) -> (r:
    Option<Vec<char>>)
    requires
        pos.describes(c@),
    ensures
        opt_chars(r) == match group_text(c@, row_get(row@, 1)) {
            Some(t) => block_context_spec(t),
            None => None,
        },
{
    match group_text_exec(c, pos, row_get_exec(row, 1)) {
        Some(t) => block_context(t.as_slice()),
        None => None,
    }
}

fn process_block_text_exec(t: &[char], trimmed: bool) -> (r: Vec<char>)
    ensures
        r@ == process_block_text(t@, trimmed),
{
    let v = escape_text_and_templatize(t);
    if trimmed {
        collapse_whitespace(v.as_slice())
    } else {
        v
    }
}

/// The opening tag of a block: the text up to and including its first `%}`
/// (all of it when there is none).
pub open spec fn opening_tag(full: Seq<char>) -> Seq<char> {
    let e = find_seq(full, "%}"@);
    if e >= 0 {
        full.take(e + 2)
    } else {
        full
    }
}

/// Whether the block's opening tag carries the `trimmed` option.
fn is_trimmed(full: &[char]) -> (r: bool)
    ensures
        r == (find_seq(opening_tag(full@), "trimmed"@) >= 0),
{
    let close = chars_of("%}");
    let tw = chars_of("trimmed");
    proof {
        reveal_strlit("%}");
    }
    let tag: &[char] = match find_sub(full, close.as_slice()) {
        Some(e) => {
            proof {
                crate::text::lemma_find_seq(full@, close@);
                assert(has_prefix(full@.skip(e as int), close@));
                assert(close@.len() == 2);
                assert(full@.skip(e as int).len() >= 2);
                assert(e + 2 <= full@.len());
            }
            let n = full.len();
            assert(e + 2 <= n);
            let tag = vstd::slice::slice_subrange(full, 0, e + 2);
            assert(tag@ == full@.take(e + 2));
            tag
        },
        None => full,
    };
    match find_sub(tag, tw.as_slice()) {
        Some(_) => true,
        None => false,
    }
}

fn template_entry_exec(
    kind: TemplatePass,
    c: &[char],
    pos: &CharPositions,
    by_line: &HashMap<usize, Vec<Vec<char>>>,
    Ghost(iv): Ghost<Seq<(int, Seq<Seq<char>>)>>,
    file_ref: &[char],
    row: &Vec<Option<(usize, usize)>>,
) -> (r: Option<(usize, TranslationEntry)>)
    requires
        comment_map_holds(by_line@, iv),
        pos.describes(c@),
        c@.len() < usize::MAX,
    ensures
        opt_cand_view(r) == template_entry(kind, c@, iv, file_ref@, row@),
{
    match row_get_exec(row, 0) {
        None => None,
        Some(sp) => match pos.span(c, sp) {
            None => None,
            Some((a, b)) => {
                let line = line_num_at(c, a);
                let comments = comments_for(by_line, Ghost(iv), line);
                let full = &c[a..b];
                assert(full@ == c@.subrange(a as int, b as int));
                match kind {
                    TemplatePass::Trans => match either_group_exec(c, pos, row, 1, 2) {
                        Some(t) => {
                            let u = unescape_string(t.as_slice());
                            let tv = templatize_vars(u.as_slice());
                            let id = escape_lone_percent(tv.as_slice());
                            if id.len() > 0 {
                                let ctx = match either_group_exec(c, pos, row, 3, 4) {
                                    Some(x) => Some(unescape_string(x.as_slice())),
                                    None => None,
                                };
                                Some((a, make_located_entry(id, None, ctx, file_ref, line, comments)))
                            } else {
                                None
                            }
                        },
                        None => None,
                    },
                    TemplatePass::BlockPlural => {
                        let trimmed = is_trimmed(full);
                        let st = group_text_exec(c, pos, row_get_exec(row, 2));
                        let pt = group_text_exec(c, pos, row_get_exec(row, 3));
                        match (st, pt) {
                            (Some(st), Some(pt)) => {
                                let sg = process_block_text_exec(st.as_slice(), trimmed);
                                let pl = process_block_text_exec(pt.as_slice(), trimmed);
                                if sg.len() > 0 {
                                    let ctx = block_ctx_exec(c, pos, row);
                                    Some(
                                        (
                                            a,
                                            make_located_entry(
                                                sg,
                                                Some(pl),
                                                ctx,
                                                file_ref,
                                                line,
                                                comments,
                                            ),
                                        ),
                                    )
                                } else {
                                    None
                                }
                            },
                            _ => None,
                        }
                    },
                    TemplatePass::Block => {
                        let fs = string_of(full);
                        match is_match(TEMPLATE_PLURAL_TAG_PATTERN, fs.as_str()) {
                            Some(true) => None,
                            _ => {
                                let trimmed = is_trimmed(full);
                                match group_text_exec(c, pos, row_get_exec(row, 2)) {
                                    Some(t) => {
                                        let text = process_block_text_exec(t.as_slice(), trimmed);
                                        if text.len() > 0 {
                                            let ctx = block_ctx_exec(c, pos, row);
                                            Some(
                                                (
                                                    a,
                                                    make_located_entry(
                                                        text,
                                                        None,
                                                        ctx,
                                                        file_ref,
                                                        line,
                                                        comments,
                                                    ),
                                                ),
                                            )
                                        } else {
                                            None
                                        }
                                    },
                                    None => None,
                                }
                            },
                        }
                    },
                }
            },
        },
    }
}

/// Appends the messages of a pass's matches, in match order.
fn pass_exec(
    kind: TemplatePass,
    c: &[char],
    pos: &CharPositions,
    by_line: &HashMap<usize, Vec<Vec<char>>>,
    Ghost(iv): Ghost<Seq<(int, Seq<Seq<char>>)>>,
    file_ref: &[char],
    rows: &Vec<Vec<Option<(usize, usize)>>>,
    out: &mut Vec<(usize, TranslationEntry)>,
)
    requires
        comment_map_holds(by_line@, iv),
        pos.describes(c@),
        c@.len() < usize::MAX,
    ensures
        cand_views(final(out)@) == cand_views(old(out)@) + pass_candidates(
            kind,
            c@,
            iv,
            file_ref@,
            span_rows(rows@),
        ),
{
    let ghost start = cand_views(out@);
    let ghost rv = span_rows(rows@);
    let mut i: usize = 0;
    assert(rv.take(0) =~= Seq::<Seq<Option<(usize, usize)>>>::empty());
    assert(start + Seq::<(int, EntryView)>::empty() == start);
    while i < rows.len()
        invariant
            i <= rows@.len(),
            rv == span_rows(rows@),
            comment_map_holds(by_line@, iv),
            pos.describes(c@),
            c@.len() < usize::MAX,
            cand_views(out@) == start + pass_candidates(kind, c@, iv, file_ref@, rv.take(i as int)),
        decreases rows@.len() - i,
    {
        assert(rv.take(i + 1).drop_last() == rv.take(i as int));
        assert(rv.take(i + 1).last() == rows@[i as int]@);
        let ghost before = cand_views(out@);
        match template_entry_exec(kind, c, pos, by_line, Ghost(iv), file_ref, &rows[i]) {
            Some(x) => {
                out.push(x);
                assert(cand_views(out@) == before.push((x.0 as int, x.1@)));
            },
            None => {
                assert(before + Seq::<(int, EntryView)>::empty() == before);
            },
        }
        i += 1;
    }
    assert(rv.take(rows@.len() as int) == rv);
}

fn inside_any_exec(blocks: &Vec<(usize, usize)>, tag: (usize, usize)) -> (r: bool)
    ensures
        r == inside_any(blocks@, tag),
{
    let mut k: usize = 0;
    while k < blocks.len()
        invariant
            k <= blocks@.len(),
            forall|j: int| 0 <= j < k ==> !(blocks@[j].0 <= tag.0 && tag.1 <= blocks@[j].1),
        decreases blocks@.len() - k,
    {
        if blocks[k].0 <= tag.0 && tag.1 <= blocks[k].1 {
            return true;
        }
        k += 1;
    }
    false
}

fn constant_candidates_exec(
    t: &[char],
    a: usize,
    line: usize,
    comments: &Vec<String>,
    file_ref: &[char],
    rows: &Vec<Vec<Option<(usize, usize)>>>,
    out: &mut Vec<(usize, TranslationEntry)>,
)
    ensures
        cand_views(final(out)@) == cand_views(old(out)@) + constant_candidates(
            t@,
            a as int,
            line as int,
            crate::extractor::strings_view(comments@),
            file_ref@,
            span_rows(rows@),
        ),
{
    let pos = CharPositions::new(t);
    let ghost start = cand_views(out@);
    let ghost rv = span_rows(rows@);
    let ghost cm = crate::extractor::strings_view(comments@);
    let mut i: usize = 0;
    assert(rv.take(0) =~= Seq::<Seq<Option<(usize, usize)>>>::empty());
    assert(start + Seq::<(int, EntryView)>::empty() == start);
    while i < rows.len()
        invariant
            i <= rows@.len(),
            rv == span_rows(rows@),
            cm == crate::extractor::strings_view(comments@),
            pos.describes(t@),
            cand_views(out@) == start + constant_candidates(
                t@,
                a as int,
                line as int,
                cm,
                file_ref@,
                rv.take(i as int),
            ),
        decreases rows@.len() - i,
    {
        assert(rv.take(i + 1).drop_last() == rv.take(i as int));
        assert(rv.take(i + 1).last() == rows@[i as int]@);
        let ghost before = cand_views(out@);
        match either_group_exec(t, &pos, &rows[i], 1, 2) {
            Some(m) => {
                let u = unescape_string(m.as_slice());
                let id = escape_lone_percent(u.as_slice());
                if id.len() > 0 {
                    let e = make_located_entry(
                        id,
                        None,
                        None,
                        file_ref,
                        line,
                        crate::catalog::clone_strings(comments),
                    );
                    out.push((a, e));
                    assert(cand_views(out@) =~= before + seq![(a as int, e@)]);
                } else {
                    assert(before + Seq::<(int, EntryView)>::empty() == before);
                }
            },
            None => {
                assert(before + Seq::<(int, EntryView)>::empty() == before);
            },
        }
        i += 1;
    }
    assert(rv.take(rows@.len() as int) == rv);
}

fn rows_or_empty(o: Option<Vec<Vec<Option<(usize, usize)>>>>) -> (r: Vec<Vec<Option<(usize, usize)>>>)
    ensures
        span_rows(r@) == or_empty(
            match o {
                Some(v) => Some(span_rows(v@)),
                None => None,
            },
        ),
{
    match o {
        Some(v) => v,
        None => {
            let v: Vec<Vec<Option<(usize, usize)>>> = Vec::new();
            assert(span_rows(v@) =~= Seq::<Seq<Option<(usize, usize)>>>::empty());
            v
        },
    }
}

fn spans_or_empty(o: Option<Vec<(usize, usize)>>) -> (r: Vec<(usize, usize)>)
    ensures
        r@ == or_empty(
            match o {
                Some(v) => Some(v@),
                None => None,
            },
        ),
{
    match o {
        Some(v) => v,
        None => Vec::new(),
    }
}

fn tag_exec(
    c: &[char],
    pos: &CharPositions,
    by_line: &HashMap<usize, Vec<Vec<char>>>,
    Ghost(iv): Ghost<Seq<(int, Seq<Seq<char>>)>>,
    file_ref: &[char],
    blocks: &Vec<(usize, usize)>,
    tag: (usize, usize),
    out: &mut Vec<(usize, TranslationEntry)>,
)
    requires
        comment_map_holds(by_line@, iv),
        pos.describes(c@),
        c@.len() < usize::MAX,
    ensures
        cand_views(final(out)@) == cand_views(old(out)@) + tag_candidates(
            c@,
            iv,
            file_ref@,
            blocks@,
            tag,
        ),
{
    let ghost start = cand_views(out@);
    match pos.span(c, tag) {
        None => {
            assert(start + Seq::<(int, EntryView)>::empty() == start);
        },
        Some((a, b)) => {
            let t = &c[a..b];
            assert(t@ == c@.subrange(a as int, b as int));
            let ts = string_of(t);
            match is_match(TEMPLATE_TRANS_TAG_PATTERN, ts.as_str()) {
                Some(true) => {
                    assert(start + Seq::<(int, EntryView)>::empty() == start);
                },
                _ => {
                    if !inside_any_exec(blocks, tag) {
                        let line = line_num_at(c, a);
                        let comments = comments_for(by_line, Ghost(iv), line);
                        let rows = rows_or_empty(capture_spans(TEMPLATE_CONSTANT_PATTERN, ts.as_str()));
                        constant_candidates_exec(t, a, line, &comments, file_ref, &rows, out);
                    } else {
                        assert(start + Seq::<(int, EntryView)>::empty() == start);
                    }
                },
            }
        },
    }
}

fn extract_template_constants(
    c: &[char],
    pos: &CharPositions,
    by_line: &HashMap<usize, Vec<Vec<char>>>,
    Ghost(iv): Ghost<Seq<(int, Seq<Seq<char>>)>>,
    file_ref: &[char],
    blocks: &Vec<(usize, usize)>,
    tags: &Vec<(usize, usize)>,
    out: &mut Vec<(usize, TranslationEntry)>,
)
    requires
        comment_map_holds(by_line@, iv),
        pos.describes(c@),
        c@.len() < usize::MAX,
    ensures
        cand_views(final(out)@) == cand_views(old(out)@) + constants_spec(
            c@,
            iv,
            file_ref@,
            blocks@,
            tags@,
        ),
{
    let ghost start = cand_views(out@);
    let mut i: usize = 0;
    assert(tags@.take(0) =~= Seq::<(usize, usize)>::empty());
    assert(start + Seq::<(int, EntryView)>::empty() == start);
    while i < tags.len()
        invariant
            i <= tags@.len(),
            comment_map_holds(by_line@, iv),
            pos.describes(c@),
            c@.len() < usize::MAX,
            cand_views(out@) == start + constants_spec(c@, iv, file_ref@, blocks@, tags@.take(i as int)),
        decreases tags@.len() - i,
    {
        assert(tags@.take(i + 1).drop_last() == tags@.take(i as int));
        assert(tags@.take(i + 1).last() == tags@[i as int]);
        let ghost before = cand_views(out@);
        tag_exec(c, pos, by_line, Ghost(iv), file_ref, blocks, tags[i], out);
        assert(cand_views(out@) =~= start + constants_spec(c@, iv, file_ref@, blocks@, tags@.take(i + 1)));
        i += 1;
    }
    assert(tags@.take(tags@.len() as int) == tags@);
}

/// The messages of a template whose comments are blanked out, in source
/// order, from the matches of each pass and the comment items.
pub fn template_entries_from_matches(
    c: &[char],
    items: &Vec<(usize, Vec<Vec<char>>)>,
    file_ref: &[char],
    trans: &Vec<Vec<Option<(usize, usize)>>>,
    plural: &Vec<Vec<Option<(usize, usize)>>>,
    blocks: &Vec<Vec<Option<(usize, usize)>>>,
    block_spans: &Vec<(usize, usize)>,
    tags: &Vec<(usize, usize)>,
) -> (r: Vec<TranslationEntry>)
    requires
        c@.len() < usize::MAX,
    ensures
        entry_views(r@) == template_entries_spec(
            c@,
            item_views(items@),
            file_ref@,
            span_rows(trans@),
            span_rows(plural@),
            span_rows(blocks@),
            block_spans@,
            tags@,
        ),
{
    let pos = CharPositions::new(c);
    let by_line = comment_map(items);
    let ghost iv = item_views(items@);
    let mut cands: Vec<(usize, TranslationEntry)> = Vec::new();
    pass_exec(TemplatePass::Trans, c, &pos, &by_line, Ghost(iv), file_ref, trans, &mut cands);
    pass_exec(TemplatePass::BlockPlural, c, &pos, &by_line, Ghost(iv), file_ref, plural, &mut cands);
    pass_exec(TemplatePass::Block, c, &pos, &by_line, Ghost(iv), file_ref, blocks, &mut cands);
    extract_template_constants(c, &pos, &by_line, Ghost(iv), file_ref, block_spans, tags, &mut cands);
    let sorted = sort_candidates(cands);
    entries_of_candidates(sorted)
}

/// The messages of a Django template, in source order; each carries the
/// reference `file_path:line` and the translator comments above it.
pub fn extract_from_template(content: &str, file_path: &str) -> (r: Vec<TranslationEntry>)
    requires
        crate::matching::byte_len(content@) < usize::MAX - 1,
    ensures
        entry_views(r@) == extract_from_template_spec(content@, file_path@),
{
    proof {
        lemma_stripped_len(content@);
    }
    let chars = chars_of(content);
    let items = template_translator_comments(content, chars.as_slice());
    let c = strip_template_comments(content);
    let cs = string_of(c.as_slice());
    let trans = rows_or_empty(capture_spans(TEMPLATE_TRANS_PATTERN, cs.as_str()));
    let plural = rows_or_empty(capture_spans(TEMPLATE_BLOCKTRANS_PLURAL_PATTERN, cs.as_str()));
    let blocks = rows_or_empty(capture_spans(TEMPLATE_BLOCKTRANS_PATTERN, cs.as_str()));
    let block_spans = spans_or_empty(find_spans(TEMPLATE_BLOCKTRANS_PATTERN, cs.as_str()));
    let tags = spans_or_empty(find_spans(TEMPLATE_TAG_PATTERN, cs.as_str()));
    let file_ref = chars_of(file_path);
    template_entries_from_matches(
        c.as_slice(),
        &items,
        file_ref.as_slice(),
        &trans,
        &plural,
        &blocks,
        &block_spans,
        &tags,
    )
}

/// A `{% blocktrans ... count ... %}` block's singular and plural bodies
/// are made messages alike: when its opening tag says `trimmed`, both have
/// their whitespace collapsed (after escaping and templatizing); otherwise
/// neither has. The plural form is never left untrimmed beside a trimmed
/// singular.
pub proof fn law_plural_block_trimmed_alike(
    c: Seq<char>,
    items: Seq<(int, Seq<Seq<char>>)>,
    file_ref: Seq<char>,
    row: Seq<Option<(usize, usize)>>,
)
    requires
        template_entry(TemplatePass::BlockPlural, c, items, file_ref, row) is Some,
    ensures
        ({
            let (a, e) = template_entry(TemplatePass::BlockPlural, c, items, file_ref, row).unwrap();
            let (a0, b0) = char_span(c, row_get(row, 0).unwrap()).unwrap();
            let trimmed = find_seq(opening_tag(c.subrange(a0, b0)), "trimmed"@) >= 0;
            let st = group_text(c, row_get(row, 2)).unwrap();
            let pt = group_text(c, row_get(row, 3)).unwrap();
            &&& trimmed ==> e.msgid == collapse_spec(escape_text_and_templatize_spec(st))
            &&& trimmed ==> e.msgid_plural == Some(
                collapse_spec(escape_text_and_templatize_spec(pt)),
            )
            &&& !trimmed ==> e.msgid == escape_text_and_templatize_spec(st)
            &&& !trimmed ==> e.msgid_plural == Some(escape_text_and_templatize_spec(pt))
        }),
{
}

/// A `{% blocktrans %}` block's body is made a message with its whitespace
/// collapsed (after escaping and templatizing) exactly when its opening tag
/// says `trimmed`.
pub proof fn law_block_trimmed(
    c: Seq<char>,
    items: Seq<(int, Seq<Seq<char>>)>,
    file_ref: Seq<char>,
    row: Seq<Option<(usize, usize)>>,
)
    requires
        template_entry(TemplatePass::Block, c, items, file_ref, row) is Some,
    ensures
        ({
            let (a, e) = template_entry(TemplatePass::Block, c, items, file_ref, row).unwrap();
            let (a0, b0) = char_span(c, row_get(row, 0).unwrap()).unwrap();
            let trimmed = find_seq(opening_tag(c.subrange(a0, b0)), "trimmed"@) >= 0;
            let t = group_text(c, row_get(row, 2)).unwrap();
            &&& trimmed ==> e.msgid == collapse_spec(escape_text_and_templatize_spec(t))
            &&& !trimmed ==> e.msgid == escape_text_and_templatize_spec(t)
            &&& e.msgid_plural is None
        }),
{
}

} // verus!
