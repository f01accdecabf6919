//! xgettext keyword specifications.
//!
//! A keywordspec is `name[:argnum[c][,argnum[c]...]]`, e.g. `_`,
//! `ngettext:1,2`, `pgettext:1c,2`, `npgettext:1c,2,3`. The `c` suffix marks
//! the argument that carries the message context.
use vstd::prelude::*;
use crate::text::{
    chars_eq, chars_of, find_char, index_of, lemma_index_of, parse_usize, parse_usize_spec,
    replace, replace_seq, seqs_of, split_char, split_on, split_whitespace, string_of, trim,
    trim_seq, words_of,
};
use crate::matching::{capture_spans, char_span, regex_capture_spans, span_rows, CharPositions};

verus! {

/// Which argument positions of a call hold the msgid / plural / context.
#[derive(Debug, Clone, PartialEq, Eq)]
pub struct Keyword {
    pub name: String,
    /// 1-based argument holding the singular msgid.
    pub msgid: usize,
    /// 1-based argument holding the plural msgid, if any.
    pub plural: Option<usize>,
    /// 1-based argument holding the msgctxt, if any.
    pub context: Option<usize>,
}

pub struct KeywordView {
    pub name: Seq<char>,
    pub msgid: usize,
    pub plural: Option<usize>,
    pub context: Option<usize>,
}

impl View for Keyword {
    type V = KeywordView;

    open spec fn view(&self) -> KeywordView {
        KeywordView {
            name: self.name@,
            msgid: self.msgid,
            plural: self.plural,
            context: self.context,
        }
    }
}

pub open spec fn keyword_views(v: Seq<Keyword>) -> Seq<KeywordView> {
    v.map_values(|k: Keyword| k@)
}

/// A keyword whose first argument is the msgid.
pub open spec fn simple_keyword(name: Seq<char>) -> KeywordView {
    KeywordView { name, msgid: 1, plural: None, context: None }
}

/// The argument positions and the context position that a comma-separated
/// argnum list names, or `None` when one entry is malformed.
pub open spec fn parse_argnums(parts: Seq<Seq<char>>) -> Option<(Seq<usize>, Option<usize>)>
    decreases parts.len(),
{
    if parts.len() == 0 {
        Some((seq![], None))
    } else {
        match parse_argnums(parts.drop_last()) {
            None => None,
            Some((positions, context)) => {
                let part = trim_seq(parts.last());
                if part.len() == 0 {
                    Some((positions, context))
                } else if part.last() == 'c' {
                    match parse_usize_spec(part.drop_last()) {
                        Some(n) => Some((positions, Some(n))),
                        None => None,
                    }
                } else if part.last() == 't' {
                    match parse_usize_spec(part.drop_last()) {
                        Some(_) => Some((positions, context)),
                        None => None,
                    }
                } else {
                    match parse_usize_spec(part) {
                        Some(n) => Some((positions.push(n), context)),
                        None => None,
                    }
                }
            },
        }
    }
}

/// Once one argnum entry is malformed, so is every longer list.
pub proof fn lemma_argnums_failure_spreads(parts: Seq<Seq<char>>, k: int)
    requires
        0 <= k <= parts.len(),
        parse_argnums(parts.take(k)) is None,
    ensures
        parse_argnums(parts) is None,
    decreases parts.len() - k,
{
    if k < parts.len() {
        assert(parts.take(k + 1).drop_last() == parts.take(k));
        lemma_argnums_failure_spreads(parts, k + 1);
    } else {
        assert(parts.take(k) == parts);
    }
}

/// The keyword a `--keyword` value describes, or `None` when it is malformed.
pub open spec fn parse_keyword(spec: Seq<char>) -> Option<KeywordView> {
    let i = index_of(spec, ':');
    if i < 0 {
        Some(simple_keyword(spec))
    } else if i == 0 {
        None
    } else {
        match parse_argnums(split_on(spec.skip(i + 1), ',')) {
            None => None,
            Some((positions, context)) => if positions.len() == 0 {
                None
            } else {
                Some(
                    KeywordView {
                        name: spec.take(i),
                        msgid: positions[0],
                        plural: if positions.len() > 1 {
                            Some(positions[1])
                        } else {
                            None
                        },
                        context,
                    },
                )
            },
        }
    }
}

/// A `--keyword` spec is accepted exactly when it is a bare name, or a
/// name, `:` and argument numbers that parse and give at least one msgid
/// position.
pub proof fn law_keyword_accepted(spec: Seq<char>)
    ensures
        parse_keyword(spec) is Some <==> (index_of(spec, ':') < 0 || (index_of(spec, ':') > 0
            && match parse_argnums(split_on(spec.skip(index_of(spec, ':') + 1), ',')) {
            Some((positions, _c)) => positions.len() > 0,
            None => false,
        })),
{
}

impl Keyword {
    pub fn simple(name: &str) -> (r: Self)
        ensures
            r@ == simple_keyword(name@),
    {
        Keyword { name: name.to_owned(), msgid: 1, plural: None, context: None }
    }

    /// Parse one `--keyword` value. Returns None when the spec is malformed.
    pub fn parse(spec: &str) -> (r: Option<Self>)
        ensures
            match r {
                Some(k) => parse_keyword(spec@) == Some(k@),
                None => parse_keyword(spec@) is None,
            },
    {
        let chars = chars_of(spec);
        Self::parse_chars(&chars)
    }

    pub fn parse_chars(spec: &[char]) -> (r: Option<Self>)
        ensures
            match r {
                Some(k) => parse_keyword(spec@) == Some(k@),
                None => parse_keyword(spec@) is None,
            },
    {
        let i = match find_char(spec, ':') {
            None => return Some(Keyword { name: string_of(spec), msgid: 1, plural: None, context: None }),
            Some(i) => i,
        };
        proof {
            lemma_index_of(spec@, ':');
        }
        assert(i < spec@.len());
        if i == 0 {
            return None;
        }
        let len = spec.len();
        assert(i < len);
        let args = &spec[i + 1..len];
        assert(args@ == spec@.skip(i + 1));
        let parts = split_char(args, ',');
        let mut positions: Vec<usize> = Vec::new();
        let mut context: Option<usize> = None;
        let mut j: usize = 0;
        assert(seqs_of(parts@).take(0) =~= Seq::<Seq<char>>::empty());
        while j < parts.len()
            invariant
                j <= parts@.len(),
                0 < i < spec@.len(),
                index_of(spec@, ':') == i,
                seqs_of(parts@) == split_on(spec@.skip(i + 1), ','),
                parse_argnums(seqs_of(parts@).take(j as int)) == Some((positions@, context)),
            decreases parts@.len() - j,
        {
            assert(seqs_of(parts@).take(j + 1).drop_last() == seqs_of(parts@).take(j as int));
            assert(seqs_of(parts@).take(j + 1).last() == parts@[j as int]@);
            let part = trim(parts[j].as_slice());
            if part.len() == 0 {
            } else if part[part.len() - 1] == 'c' {
                let num = &part[0..part.len() - 1];
                assert(num@ == part@.drop_last());
                match parse_usize(num) {
                    Some(n) => {
                        context = Some(n);
                    },
                    None => {
                        proof {
                            lemma_argnums_failure_spreads(seqs_of(parts@), j + 1);
                        }
                        return None;
                    },
                }
            } else if part[part.len() - 1] == 't' {
                let num = &part[0..part.len() - 1];
                assert(num@ == part@.drop_last());
                match parse_usize(num) {
                    Some(_) => {},
                    None => {
                        proof {
                            lemma_argnums_failure_spreads(seqs_of(parts@), j + 1);
                        }
                        return None;
                    },
                }
            } else {
                match parse_usize(part) {
                    Some(n) => {
                        positions.push(n);
                    },
                    None => {
                        proof {
                            lemma_argnums_failure_spreads(seqs_of(parts@), j + 1);
                        }
                        return None;
                    },
                }
            }
            j += 1;
        }
        assert(seqs_of(parts@).take(parts@.len() as int) == seqs_of(parts@));
        if positions.len() == 0 {
            return None;
        }
        let name_chars = &spec[0..i];
        assert(name_chars@ == spec@.take(i as int));
        let plural = if positions.len() > 1 {
            Some(positions[1])
        } else {
            None
        };
        Some(Keyword { name: string_of(name_chars), msgid: positions[0], plural, context })
    }
}

/// The argnums xgettext is told to use for each gettext function Django
/// exposes.
pub open spec fn argnums_spec(function: Seq<char>) -> Option<Seq<char>> {
    if function == "gettext"@ || function == "gettext_lazy"@ || function == "gettext_noop"@ {
        Some("1"@)
    } else if function == "ngettext"@ || function == "ngettext_lazy"@ {
        Some("1,2"@)
    } else if function == "npgettext"@ || function == "npgettext_lazy"@ {
        Some("1c,2,3"@)
    } else if function == "pgettext"@ || function == "pgettext_lazy"@ {
        Some("1c,2"@)
    } else {
        None
    }
}

fn is_named(f: &[char], name: &str) -> (r: bool)
    ensures
        r == (f@ == name@),
{
    let n = chars_of(name);
    chars_eq(f, &n)
}

pub fn argnums_for(function: &str) -> (r: Option<&'static str>)
    ensures
        match r {
            Some(a) => argnums_spec(function@) == Some(a@),
            None => argnums_spec(function@) is None,
        },
{
    let f = chars_of(function);
    argnums_for_chars(&f)
}

pub fn argnums_for_chars(f: &[char]) -> (r: Option<&'static str>)
    ensures
        match r {
            Some(a) => argnums_spec(f@) == Some(a@),
            None => argnums_spec(f@) is None,
        },
{
    if is_named(f, "gettext") || is_named(f, "gettext_lazy") || is_named(f, "gettext_noop") {
        Some("1")
    } else if is_named(f, "ngettext") || is_named(f, "ngettext_lazy") {
        Some("1,2")
    } else if is_named(f, "npgettext") || is_named(f, "npgettext_lazy") {
        Some("1c,2,3")
    } else if is_named(f, "pgettext") || is_named(f, "pgettext_lazy") {
        Some("1c,2")
    } else {
        None
    }
}

/// The keywordspecs Django passes to xgettext, plus xgettext's built-ins.
pub open spec fn default_specs(domain_is_js: bool) -> Seq<Seq<char>> {
    let base = seq![
        "gettext"@,
        "_"@,
        "gettext_noop"@,
        "gettext_lazy"@,
        "ngettext:1,2"@,
        "ngettext_lazy:1,2"@,
        "pgettext:1c,2"@,
        "npgettext:1c,2,3"@,
    ];
    if domain_is_js {
        base
    } else {
        base + seq!["pgettext_lazy:1c,2"@, "npgettext_lazy:1c,2,3"@]
    }
}

/// The keywords that parse, in order.
pub open spec fn parse_all(specs: Seq<Seq<char>>) -> Seq<KeywordView>
    decreases specs.len(),
{
    if specs.len() == 0 {
        seq![]
    } else {
        parse_all(specs.drop_last()) + match parse_keyword(specs.last()) {
            Some(k) => seq![k],
            None => seq![],
        }
    }
}

/// Django's own defaults: the keywords it passes to xgettext plus xgettext's
/// built-ins (`gettext`, `_`, `ngettext:1,2`), which Django relies on.
pub fn default_keywords(domain_is_js: bool) -> (r: Vec<Keyword>)
    ensures
        keyword_views(r@) == parse_all(default_specs(domain_is_js)),
{
    let mut specs: Vec<&str> = vec![
        "gettext",
        "_",
        "gettext_noop",
        "gettext_lazy",
        "ngettext:1,2",
        "ngettext_lazy:1,2",
        "pgettext:1c,2",
        "npgettext:1c,2,3",
    ];
    // Django omits the _lazy context variants for the djangojs domain.
    if !domain_is_js {
        specs.push("pgettext_lazy:1c,2");
        specs.push("npgettext_lazy:1c,2,3");
    }
    let ghost views = specs@.map_values(|s: &str| s@);
    assert(views =~= default_specs(domain_is_js));
    let mut out: Vec<Keyword> = Vec::new();
    let mut i: usize = 0;
    assert(views.take(0) =~= Seq::<Seq<char>>::empty());
    while i < specs.len()
        invariant
            i <= specs@.len(),
            views == specs@.map_values(|s: &str| s@),
            keyword_views(out@) == parse_all(views.take(i as int)),
        decreases specs@.len() - i,
    {
        assert(views.take(i + 1).drop_last() == views.take(i as int));
        let ghost before = out@;
        match Keyword::parse(specs[i]) {
            Some(k) => {
                out.push(k);
                assert(keyword_views(out@) == keyword_views(before).push(k@));
            },
            None => {},
        }
        i += 1;
    }
    assert(views.take(specs@.len() as int) == views);
    out
}

/// `from django.utils.translation import gettext as _, ngettext as ng`.
/// Only direct imports from that module count.
pub const IMPORT_PATTERN: &'static str = r"(?s)from\s+django\.utils\.translation\s+import\s+(\(.*?\)|[^\n]*(?:\\\n[^\n]*)*)";

/// `s` without every leading occurrence of `c`.
pub open spec fn strip_leading(s: Seq<char>, c: char) -> Seq<char>
    decreases s.len(),
{
    if s.len() > 0 && s[0] == c {
        strip_leading(s.drop_first(), c)
    } else {
        s
    }
}

/// `s` without every trailing occurrence of `c`.
pub open spec fn strip_trailing(s: Seq<char>, c: char) -> Seq<char>
    decreases s.len(),
{
    if s.len() > 0 && s.last() == c {
        strip_trailing(s.drop_last(), c)
    } else {
        s
    }
}

pub fn strip_leading_char(s: &[char], c: char) -> (r: &[char])
    ensures
        r@ == strip_leading(s@, c),
{
    let mut i: usize = 0;
    assert(s@.skip(0) == s@);
    while i < s.len() && s[i] == c
        invariant
            i <= s@.len(),
            strip_leading(s@, c) == strip_leading(s@.skip(i as int), c),
        decreases s@.len() - i,
    {
        assert(s@.skip(i as int).drop_first() == s@.skip(i + 1));
        i += 1;
    }
    let r = &s[i..s.len()];
    assert(r@ == s@.skip(i as int));
    r
}

pub fn strip_trailing_char(s: &[char], c: char) -> (r: &[char])
    ensures
        r@ == strip_trailing(s@, c),
{
    let mut j: usize = s.len();
    assert(s@.take(s@.len() as int) == s@);
    while j > 0 && s[j - 1] == c
        invariant
            j <= s@.len(),
            strip_trailing(s@, c) == strip_trailing(s@.take(j as int), c),
        decreases j,
    {
        assert(s@.take(j as int).drop_last() == s@.take(j - 1));
        j -= 1;
    }
    let r = &s[0..j];
    assert(r@ == s@.take(j as int));
    r
}

/// The keyword one `name as alias` item of an import list yields.
pub open spec fn alias_of_item(item: Seq<char>) -> Option<KeywordView> {
    let words = words_of(replace_seq(item, seq!['\\'], seq![' ']));
    if words.len() < 3 || words[1] != "as"@ {
        None
    } else {
        match argnums_spec(words[0]) {
            None => None,
            Some(argnums) => parse_keyword(words[2] + seq![':'] + argnums),
        }
    }
}

/// The keywords of the items of an import list, in order.
pub open spec fn aliases_of_items(items: Seq<Seq<char>>) -> Seq<KeywordView>
    decreases items.len(),
{
    if items.len() == 0 {
        seq![]
    } else {
        aliases_of_items(items.drop_last()) + match alias_of_item(items.last()) {
            Some(k) => seq![k],
            None => seq![],
        }
    }
}

/// The text of capture group `g` of a match, or nothing when the group is
/// absent.
pub open spec fn group_text(content: Seq<char>, row: Seq<Option<(usize, usize)>>, g: int) -> Seq<
    char,
> {
    if g < row.len() {
        match row[g] {
            Some(span) => match char_span(content, span) {
                Some((a, b)) => content.subrange(a, b),
                None => seq![],
            },
            None => seq![],
        }
    } else {
        seq![]
    }
}

/// The keywords that one import statement's captured name list declares.
pub open spec fn aliases_of_list(list: Seq<char>) -> Seq<KeywordView> {
    let l = strip_trailing(strip_leading(trim_seq(list), '('), ')');
    aliases_of_items(split_on(l, ','))
}

/// All keywords declared by the import statements found in `content`.
pub open spec fn aliases_of_matches(content: Seq<char>, rows: Seq<Seq<Option<(usize, usize)>>>) -> Seq<
    KeywordView,
>
    decreases rows.len(),
{
    if rows.len() == 0 {
        seq![]
    } else {
        aliases_of_matches(content, rows.drop_last()) + aliases_of_list(
            group_text(content, rows.last(), 1),
        )
    }
}

/// The text of group `g` of a captured match.
pub fn group_slice<'a>(
    content: &'a [char],
    pos: &CharPositions,
    row: &Vec<Option<(usize, usize)>>,
    g: usize,
) -> (r: &'a [char])
    requires
        pos.describes(content@),
    ensures
        r@ == group_text(content@, row@, g as int),
{
    if g < row.len() {
        match row[g] {
            Some(span) => match pos.span(content, span) {
                Some((a, b)) => &content[a..b],
                None => &content[0..0],
            },
            None => &content[0..0],
        }
    } else {
        &content[0..0]
    }
}

fn alias_of_item_exec(item: &[char]) -> (r: Option<Keyword>)
    ensures
        match r {
            Some(k) => alias_of_item(item@) == Some(k@),
            None => alias_of_item(item@) is None,
        },
{
    let backslash: Vec<char> = vec!['\\'];
    let space: Vec<char> = vec![' '];
    assert(backslash@ =~= seq!['\\']);
    assert(space@ =~= seq![' ']);
    let cleaned = replace(item, backslash.as_slice(), space.as_slice());
    let words = split_whitespace(&cleaned);
    let ghost ws = seqs_of(words@);
    assert(ws == words_of(replace_seq(item@, seq!['\\'], seq![' '])));
    if words.len() < 3 {
        return None;
    }
    let as_word = chars_of("as");
    assert(ws[1] == words@[1]@);
    assert(ws[0] == words@[0]@);
    assert(ws[2] == words@[2]@);
    if !chars_eq(words[1].as_slice(), &as_word) {
        return None;
    }
    match argnums_for_chars(words[0].as_slice()) {
        None => None,
        Some(argnums) => {
            let mut spec: Vec<char> = vstd::slice::slice_to_vec(words[2].as_slice());
            spec.push(':');
            let a = chars_of(argnums);
            let mut k: usize = 0;
            let ghost base = spec@;
            while k < a.len()
                invariant
                    k <= a@.len(),
                    spec@ == base + a@.take(k as int),
                decreases a@.len() - k,
            {
                spec.push(a[k]);
                assert(a@.take(k + 1) == a@.take(k as int).push(a@[k as int]));
                k += 1;
            }
            assert(a@.take(a@.len() as int) == a@);
            assert(spec@ == ws[2] + seq![':'] + a@);
            Keyword::parse_chars(&spec)
        },
    }
}

/// The keywords that one captured import name list declares.
pub fn aliases_of_list_exec(list: &[char]) -> (r: Vec<Keyword>)
    ensures
        keyword_views(r@) == aliases_of_list(list@),
{
    let l = strip_trailing_char(strip_leading_char(trim(list), '('), ')');
    let items = split_char(l, ',');
    let mut out: Vec<Keyword> = Vec::new();
    let mut j: usize = 0;
    assert(seqs_of(items@).take(0) =~= Seq::<Seq<char>>::empty());
    while j < items.len()
        invariant
            j <= items@.len(),
            keyword_views(out@) == aliases_of_items(seqs_of(items@).take(j as int)),
        decreases items@.len() - j,
    {
        assert(seqs_of(items@).take(j + 1).drop_last() == seqs_of(items@).take(j as int));
        assert(seqs_of(items@).take(j + 1).last() == items@[j as int]@);
        let ghost mid = out@;
        match alias_of_item_exec(items[j].as_slice()) {
            Some(k) => {
                out.push(k);
                assert(keyword_views(out@) == keyword_views(mid).push(k@));
            },
            None => {},
        }
        j += 1;
    }
    assert(seqs_of(items@).take(items@.len() as int) == seqs_of(items@));
    out
}

/// The keywords declared by the captured import statements of `content`;
/// `rows` are the capture groups of each match of `IMPORT_PATTERN`.
pub fn aliases_from_captures(content: &[char], rows: &Vec<Vec<Option<(usize, usize)>>>) -> (r: Vec<
    Keyword,
>)
    ensures
        keyword_views(r@) == aliases_of_matches(content@, span_rows(rows@)),
{
    let pos = CharPositions::new(content);
    let mut out: Vec<Keyword> = Vec::new();
    let mut i: usize = 0;
    assert(span_rows(rows@).take(0) =~= Seq::<Seq<Option<(usize, usize)>>>::empty());
    while i < rows.len()
        invariant
            i <= rows@.len(),
            pos.describes(content@),
            keyword_views(out@) == aliases_of_matches(content@, span_rows(rows@).take(i as int)),
        decreases rows@.len() - i,
    {
        assert(span_rows(rows@).take(i + 1).drop_last() == span_rows(rows@).take(i as int));
        assert(span_rows(rows@).take(i + 1).last() == rows@[i as int]@);
        let list = group_slice(content, &pos, &rows[i], 1);
        let mut found = aliases_of_list_exec(list);
        let ghost before = out@;
        let ghost added = found@;
        out.append(&mut found);
        assert(keyword_views(out@) == keyword_views(before) + keyword_views(added));
        i += 1;
    }
    assert(span_rows(rows@).take(rows@.len() as int) == span_rows(rows@));
    out
}

/// Every import list of `content` that the import pattern captures, read for
/// `name as alias` pairs of known gettext functions.
pub open spec fn detect_aliases_spec(content: Seq<char>) -> Seq<KeywordView> {
    match regex_capture_spans(IMPORT_PATTERN@, content) {
        Some(rows) => aliases_of_matches(content, rows),
        None => seq![],
    }
}

/// Extract `name as alias` pairs for known gettext functions, yielding the
/// keywordspec each alias should be scanned with.
pub fn detect_aliases(content: &str) -> (r: Vec<Keyword>)
    ensures
        keyword_views(r@) == detect_aliases_spec(content@),
{
    let chars = chars_of(content);
    match capture_spans(IMPORT_PATTERN, content) {
        Some(rows) => aliases_from_captures(&chars, &rows),
        None => Vec::new(),
    }
}

} // verus!
