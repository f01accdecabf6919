//! Why a value written as a PO string reads back as itself: escaping and
//! unescaping seen character by character, and the quoted lines of a
//! multi-line string seen line by line.
use vstd::prelude::*;
use crate::text::{
    find_seq, has_prefix, lemma_index_of, lemma_index_of_unique, lines_of, replace_seq,
    split_seq, strip_cr, trim_end_seq, trim_start_seq, is_ws,
};
use crate::po::{escape_po_seq, format_po_string_spec, parse_po_string_spec, po_string_lines, quoted_concat, quoted_inner};

verus! {

/// Each character replaced by the text `f` gives for it.
pub open spec fn flat_map_chars(s: Seq<char>, f: spec_fn(char) -> Seq<char>) -> Seq<char>
    decreases s.len(),
{
    if s.len() == 0 {
        seq![]
    } else {
        f(s[0]) + flat_map_chars(s.drop_first(), f)
    }
}

proof fn lemma_flat_concat(a: Seq<char>, b: Seq<char>, f: spec_fn(char) -> Seq<char>)
    ensures
        flat_map_chars(a + b, f) == flat_map_chars(a, f) + flat_map_chars(b, f),
    decreases a.len(),
{
    if a.len() == 0 {
        assert(a + b =~= b);
    } else {
        assert((a + b).drop_first() =~= a.drop_first() + b);
        lemma_flat_concat(a.drop_first(), b, f);
        assert((a + b)[0] == a[0]);
    }
}

proof fn lemma_flat_compose(s: Seq<char>, f: spec_fn(char) -> Seq<char>, g: spec_fn(char) -> Seq<char>)
    ensures
        flat_map_chars(flat_map_chars(s, f), g) == flat_map_chars(
            s,
            |x: char| flat_map_chars(f(x), g),
        ),
    decreases s.len(),
{
    if s.len() > 0 {
        lemma_flat_compose(s.drop_first(), f, g);
        lemma_flat_concat(f(s[0]), flat_map_chars(s.drop_first(), f), g);
    }
}

proof fn lemma_flat_same(s: Seq<char>, f: spec_fn(char) -> Seq<char>, g: spec_fn(char) -> Seq<char>)
    requires
        forall|i: int| 0 <= i < s.len() ==> f(s[i]) == g(s[i]),
    ensures
        flat_map_chars(s, f) == flat_map_chars(s, g),
    decreases s.len(),
{
    if s.len() > 0 {
        assert forall|i: int| 0 <= i < s.drop_first().len() implies f(s.drop_first()[i]) == g(
            s.drop_first()[i],
        ) by {
            assert(s.drop_first()[i] == s[i + 1]);
        }
        lemma_flat_same(s.drop_first(), f, g);
        assert(f(s[0]) == g(s[0]));
    }
}

proof fn lemma_flat_identity(s: Seq<char>)
    ensures
        flat_map_chars(s, |x: char| seq![x]) == s,
    decreases s.len(),
{
    if s.len() > 0 {
        lemma_flat_identity(s.drop_first());
        assert(seq![s[0]] + s.drop_first() =~= s);
    }
}

/// Replacing one character is a character-by-character map.
proof fn lemma_replace_char(s: Seq<char>, c: char, r: Seq<char>, f: spec_fn(char) -> Seq<char>)
    requires
        forall|x: char| #[trigger] f(x) == (if x == c {
            r
        } else {
            seq![x]
        }),
    ensures
        replace_seq(s, seq![c], r) == flat_map_chars(s, f),
    decreases s.len(),
{
    if s.len() > 0 {
        lemma_replace_char(s.drop_first(), c, r, f);
        assert(has_prefix(s, seq![c]) <==> s[0] == c) by {
            if s[0] == c {
                assert(s.take(1) =~= seq![c]);
            }
            if has_prefix(s, seq![c]) {
                assert(s.take(1)[0] == s[0]);
            }
        }
        assert(s.skip(1) == s.drop_first());
        assert(f(s[0]) == (if s[0] == c {
            r
        } else {
            seq![s[0]]
        }));
    }
}

/// How a character is written inside a PO string.
pub open spec fn po_escape_char(c: char) -> Seq<char> {
    if c == '\\' {
        seq!['\\', '\\']
    } else if c == '"' {
        seq!['\\', '"']
    } else if c == '\n' {
        seq!['\\', 'n']
    } else if c == '\t' {
        seq!['\\', 't']
    } else {
        seq![c]
    }
}

pub proof fn lemma_escape_is_charwise(v: Seq<char>)
    ensures
        escape_po_seq(v) == flat_map_chars(v, |x: char| po_escape_char(x)),
{
    let f1 = |x: char| if x == '\\' { seq!['\\', '\\'] } else { seq![x] };
    let f2 = |x: char| if x == '"' { seq!['\\', '"'] } else { seq![x] };
    let f3 = |x: char| if x == '\n' { seq!['\\', 'n'] } else { seq![x] };
    let f4 = |x: char| if x == '\t' { seq!['\\', 't'] } else { seq![x] };
    lemma_replace_char(v, '\\', seq!['\\', '\\'], f1);
    let a = flat_map_chars(v, f1);
    lemma_replace_char(a, '"', seq!['\\', '"'], f2);
    let b = flat_map_chars(a, f2);
    lemma_flat_compose(v, f1, f2);
    let f12 = |x: char| flat_map_chars(f1(x), f2);
    lemma_replace_char(b, '\n', seq!['\\', 'n'], f3);
    let c = flat_map_chars(b, f3);
    lemma_flat_compose(v, f12, f3);
    let f123 = |x: char| flat_map_chars(f12(x), f3);
    lemma_replace_char(c, '\t', seq!['\\', 't'], f4);
    lemma_flat_compose(v, f123, f4);
    let f1234 = |x: char| flat_map_chars(f123(x), f4);
    assert forall|i: int| 0 <= i < v.len() implies f1234(v[i]) == po_escape_char(v[i]) by {
        let x = v[i];
        reveal_with_fuel(flat_map_chars, 3);
        if x == '\\' {
            assert(f12(x) =~= seq!['\\', '\\']);
            assert(f123(x) =~= seq!['\\', '\\']);
            assert(f1234(x) =~= seq!['\\', '\\']);
        } else if x == '"' {
            assert(f12(x) =~= seq!['\\', '"']);
            assert(f123(x) =~= seq!['\\', '"']);
            assert(f1234(x) =~= seq!['\\', '"']);
        } else if x == '\n' {
            assert(f12(x) =~= seq![x]);
            assert(f123(x) =~= seq!['\\', 'n']);
            assert(f1234(x) =~= seq!['\\', 'n']);
        } else if x == '\t' {
            assert(f12(x) =~= seq![x]);
            assert(f123(x) =~= seq![x]);
            assert(f1234(x) =~= seq!['\\', 't']);
        } else {
            assert(f12(x) =~= seq![x]);
            assert(f123(x) =~= seq![x]);
            assert(f1234(x) =~= seq![x]);
        }
    }
    lemma_flat_same(v, f1234, |x: char| po_escape_char(x));
    assert(replace_seq(v, seq!['\\'], seq!['\\', '\\']) == a);
    assert(replace_seq(a, seq!['"'], seq!['\\', '"']) == b);
    assert(replace_seq(b, seq!['\n'], seq!['\\', 'n']) == c);
    assert(flat_map_chars(c, f4) == flat_map_chars(v, f1234));
}


/// Unescaping the escaped form of text gives the text back.
proof fn lemma_unescape_escaped(v: Seq<char>)
    ensures
        crate::po::unescape_po(flat_map_chars(v, |x: char| po_escape_char(x))) == v,
    decreases v.len(),
{
    if v.len() > 0 {
        let f = |x: char| po_escape_char(x);
        let rest = flat_map_chars(v.drop_first(), f);
        lemma_unescape_escaped(v.drop_first());
        let c = v[0];
        let u = po_escape_char(c);
        let t = u + rest;
        assert(flat_map_chars(v, f) == t);
        if u.len() == 2 {
            assert(t[0] == '\\' && t[1] == u[1]);
            assert(t.skip(2) =~= rest);
            assert(crate::po::escaped_char(u[1]) == Some(c));
        } else {
            assert(u == seq![c]);
            assert(c != '\\');
            assert(t.drop_first() =~= rest);
        }
        assert(seq![c] + v.drop_first() =~= v);
    }
}

/// No character of `s` is a newline.
pub open spec fn no_newline(s: Seq<char>) -> bool {
    forall|i: int| 0 <= i < s.len() ==> s[i] != '\n'
}

pub proof fn lemma_escaped_no_newline(v: Seq<char>)
    ensures
        no_newline(flat_map_chars(v, |x: char| po_escape_char(x))),
    decreases v.len(),
{
    if v.len() > 0 {
        lemma_escaped_no_newline(v.drop_first());
        let u = po_escape_char(v[0]);
        let rest = flat_map_chars(v.drop_first(), |x: char| po_escape_char(x));
        assert(no_newline(u));
        assert forall|i: int| 0 <= i < (u + rest).len() implies (u + rest)[i] != '\n' by {
            if i >= u.len() {
                assert((u + rest)[i] == rest[i - u.len()]);
            }
        }
    }
}

/// A line, a newline, then the rest: the line comes first among the lines.
pub proof fn lemma_lines_cons(l: Seq<char>, rest: Seq<char>)
    requires
        no_newline(l),
        l.len() == 0 || l.last() != '\r',
    ensures
        lines_of(l + seq!['\n'] + rest) == seq![l] + lines_of(rest),
{
    let s = l + seq!['\n'] + rest;
    assert(s[l.len() as int] == '\n');
    assert forall|k: int| 0 <= k < l.len() implies s[k] != '\n' by {
        assert(s[k] == l[k]);
    }
    lemma_index_of_unique(s, '\n', l.len() as int);
    assert(s.take(l.len() as int) =~= l);
    assert(s.skip(l.len() as int + 1) =~= rest);
    assert(strip_cr(l) == l);
}

pub proof fn lemma_lines_single(l: Seq<char>)
    requires
        no_newline(l),
        l.len() > 0,
    ensures
        lines_of(l) == seq![l],
{
    lemma_index_of(l, '\n');
}

pub proof fn lemma_quoted_concat_append(a: Seq<Seq<char>>, b: Seq<Seq<char>>)
    ensures
        quoted_concat(a + b) == quoted_concat(a) + quoted_concat(b),
    decreases b.len(),
{
    if b.len() == 0 {
        assert(a + b =~= a);
    } else {
        lemma_quoted_concat_append(a, b.drop_last());
        assert((a + b).drop_last() =~= a + b.drop_last());
        assert((a + b).last() == b.last());
    }
}

/// `"` is not whitespace.
pub proof fn lemma_quote_not_ws()
    ensures
        !is_ws('"'),
{
    assert(('"' as u32) == 34);
}

pub proof fn lemma_quoted_inner(m: Seq<char>)
    ensures
        quoted_inner(seq!['"'] + m + seq!['"']) == Some(m),
{
    let l = seq!['"'] + m + seq!['"'];
    lemma_quote_not_ws();
    assert(l[0] == '"');
    assert(l.last() == '"');
    assert(trim_start_seq(l) == l);
    assert(trim_end_seq(l) == l);
    assert(l.subrange(1, l.len() - 1) =~= m);
}

/// The two characters `\n` that stand for a newline in a PO string.
pub open spec fn esc_nl() -> Seq<char> {
    seq!['\\', 'n']
}

/// The pieces put back together with `\n` between them.
pub open spec fn rejoin(ps: Seq<Seq<char>>) -> Seq<char>
    decreases ps.len(),
{
    if ps.len() == 0 {
        seq![]
    } else if ps.len() == 1 {
        ps[0]
    } else {
        ps[0] + esc_nl() + rejoin(ps.drop_first())
    }
}

pub proof fn lemma_split_rejoin(e: Seq<char>)
    ensures
        rejoin(split_seq(e, esc_nl())) == e,
        split_seq(e, esc_nl()).len() >= 1,
        find_seq(e, esc_nl()) >= 0 ==> split_seq(e, esc_nl()).len() >= 2,
        forall|i: int|
            0 <= i < split_seq(e, esc_nl()).len() ==> no_newline(e) ==> no_newline(
                #[trigger] split_seq(e, esc_nl())[i],
            ),
    decreases e.len(),
{
    let p = esc_nl();
    crate::text::lemma_find_seq(e, p);
    let i = find_seq(e, p);
    if i >= 0 {
        let rest = e.skip(i + 2);
        assert(e.skip(i).take(2) == p);
        lemma_split_rejoin(rest);
        let ps = split_seq(e, p);
        assert(ps == seq![e.take(i)] + split_seq(rest, p));
        assert(ps.drop_first() =~= split_seq(rest, p));
        assert(ps[0] == e.take(i));
        assert(e =~= e.take(i) + p + rest) by {
            assert forall|k: int| 0 <= k < e.len() implies e[k] == (e.take(i) + p + rest)[k] by {
                if i <= k < i + 2 {
                    assert(e.skip(i).take(2)[k - i] == e[k]);
                }
            }
        }
        assert forall|j: int| 0 <= j < ps.len() && no_newline(e) implies no_newline(
            #[trigger] ps[j],
        ) by {
            if j == 0 {
                assert forall|k: int| 0 <= k < ps[0].len() implies ps[0][k] != '\n' by {
                    assert(ps[0][k] == e[k]);
                }
            } else {
                assert(no_newline(rest)) by {
                    assert forall|k: int| 0 <= k < rest.len() implies rest[k] != '\n' by {
                        assert(rest[k] == e[k + i + 2]);
                    }
                }
                assert(ps[j] == split_seq(rest, p)[j - 1]);
            }
        }
    }
}


proof fn lemma_quoted_concat_one(l: Seq<char>, m: Seq<char>)
    requires
        quoted_inner(l) == Some(m),
    ensures
        quoted_concat(seq![l]) == m,
{
    let ls = seq![l];
    assert(ls.drop_last() =~= Seq::<Seq<char>>::empty());
    assert(ls.last() == l);
    assert(quoted_concat(ls.drop_last()) == Seq::<char>::empty());
    assert(Seq::<char>::empty() + m =~= m);
}

pub proof fn lemma_quoted_lines(parts: Seq<Seq<char>>, i: int)
    requires
        0 <= i < parts.len(),
        forall|j: int| 0 <= j < parts.len() ==> no_newline(#[trigger] parts[j]),
    ensures
        ({
            let t = po_string_lines(parts, i);
            &&& t.len() > 0 ==> t.last() == '\n' && t.drop_last().len() > 0 && t.drop_last().last()
                == '"' && quoted_concat(lines_of(t.drop_last())) == rejoin(parts.skip(i))
            &&& t.len() == 0 ==> i == parts.len() - 1 && parts[i].len() == 0
            &&& i < parts.len() - 1 ==> t.len() > 0
        }),
    decreases parts.len() - i,
{
    let t = po_string_lines(parts, i);
    let pi = parts[i];
    assert(no_newline(pi));
    if i < parts.len() - 1 {
        lemma_quoted_lines(parts, i + 1);
        let t1 = po_string_lines(parts, i + 1);
        let l = seq!['"'] + pi + seq!['\\', 'n', '"'];
        assert(t =~= l + seq!['\n'] + t1);
        assert(no_newline(l)) by {
            assert forall|k: int| 0 <= k < l.len() implies l[k] != '\n' by {
                if 1 <= k < 1 + pi.len() {
                    assert(l[k] == pi[k - 1]);
                }
            }
        }
        assert(l.last() == '"');
        lemma_quoted_inner(pi + esc_nl());
        assert(l =~= seq!['"'] + (pi + esc_nl()) + seq!['"']);
        assert(parts.skip(i).len() >= 2);
        assert(parts.skip(i)[0] == pi);
        assert(parts.skip(i).drop_first() =~= parts.skip(i + 1));
        assert(rejoin(parts.skip(i)) == pi + esc_nl() + rejoin(parts.skip(i + 1)));
        if t1.len() > 0 {
            assert(t.drop_last() =~= l + seq!['\n'] + t1.drop_last());
            lemma_lines_cons(l, t1.drop_last());
            lemma_quoted_concat_append(seq![l], lines_of(t1.drop_last()));
            lemma_quoted_concat_one(l, pi + esc_nl());
        } else {
            assert(t.drop_last() =~= l);
            lemma_lines_single(l);
            lemma_quoted_concat_one(l, pi + esc_nl());
            assert(parts.skip(i + 1) =~= seq![parts[i + 1]]);
            assert(pi + esc_nl() + Seq::<char>::empty() =~= pi + esc_nl());
        }
    } else {
        assert(po_string_lines(parts, i + 1) == Seq::<char>::empty());
        if pi.len() > 0 {
            let l = seq!['"'] + pi + seq!['"'];
            assert(t =~= l + seq!['\n']);
            assert(t.drop_last() =~= l);
            assert(no_newline(l)) by {
                assert forall|k: int| 0 <= k < l.len() implies l[k] != '\n' by {
                    if 1 <= k < 1 + pi.len() {
                        assert(l[k] == pi[k - 1]);
                    }
                }
            }
            lemma_lines_single(l);
            lemma_quoted_inner(pi);
            lemma_quoted_concat_one(l, pi);
            assert(parts.skip(i) =~= seq![pi]);
        }
    }
}

/// A value written as a PO string after its keyword and a space reads back
/// as itself.
pub proof fn law_po_string_round_trip(key: Seq<char>, value: Seq<char>)
    ensures
        parse_po_string_spec(format_po_string_spec(key, value).skip(key.len() as int + 1)) == value,
{
    let pe = |x: char| po_escape_char(x);
    lemma_escape_is_charwise(value);
    let e = escape_po_seq(value);
    assert(e == flat_map_chars(value, pe));
    lemma_escaped_no_newline(value);
    lemma_unescape_escaped(value);
    let f = format_po_string_spec(key, value);
    let raw = f.skip(key.len() as int + 1);
    lemma_quote_not_ws();
    if find_seq(e, esc_nl()) >= 0 && e != esc_nl() {
        lemma_split_rejoin(e);
        let parts = split_seq(e, esc_nl());
        assert forall|j: int| 0 <= j < parts.len() implies no_newline(#[trigger] parts[j]) by {}
        lemma_quoted_lines(parts, 0);
        let t = po_string_lines(parts, 0);
        let full = key + seq![' ', '"', '"', '\n'] + t;
        assert(f == trim_end_seq(full));
        assert(full.last() == '\n');
        assert(full.drop_last() =~= key + seq![' ', '"', '"', '\n'] + t.drop_last());
        assert(full.drop_last().last() == '"');
        assert(is_ws('\n'));
        assert(trim_end_seq(full.drop_last()) == full.drop_last());
        assert(f == full.drop_last());
        let q = seq!['"', '"'];
        assert(raw =~= q + seq!['\n'] + t.drop_last());
        assert(no_newline(q));
        lemma_lines_cons(q, t.drop_last());
        lemma_quoted_concat_append(seq![q], lines_of(t.drop_last()));
        lemma_quoted_inner(Seq::<char>::empty());
        assert(q =~= seq!['"'] + Seq::<char>::empty() + seq!['"']);
        lemma_quoted_concat_one(q, Seq::<char>::empty());
        assert(parts.skip(0) == parts);
        assert(quoted_concat(lines_of(raw)) =~= e);
    } else {
        let l = seq!['"'] + e + seq!['"'];
        assert(f == key + seq![' ', '"'] + e + seq!['"']);
        assert(raw =~= l);
        assert(no_newline(l)) by {
            assert forall|k: int| 0 <= k < l.len() implies l[k] != '\n' by {
                if 1 <= k < 1 + e.len() {
                    assert(l[k] == e[k - 1]);
                }
            }
        }
        lemma_lines_single(l);
        lemma_quoted_inner(e);
        lemma_quoted_concat_one(l, e);
    }
}

} // verus!
