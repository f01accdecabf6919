//! Why catalog entries written out read back as themselves: the text of an
//! entry seen as its physical lines, the reader's steps over them, and a
//! run of entries each followed by a blank line.
use vstd::prelude::*;
use crate::text::{decimal, split_on, index_of, lemma_index_of, lemma_index_of_unique, find_seq, has_prefix, words_of, ws_index, lemma_ws_index, join_seq, lines_of, split_seq, trim_end_seq, trim_seq, trim_start_seq, is_ws};
use crate::po::{entry_lines, format_entry_spec, msgstr_lines, kept_flags, PoEntryView, LocationMode, PoOptionsView, reference_lines, wrap_from, escape_po_seq, format_po_string_spec, parse_po_string_spec, po_string_lines};
use crate::catalog::{
    after_bracket, continuation, msgstr_head, obsolete_marks, parse_from, parse_po_file_spec,
    read_comments, read_entry, read_msgstrs, unwrap_line, unwrapped_lines,
};
use crate::po::entry_key_spec;
use crate::catalog::{
    as_obsolete, entries_text, law_obsolete_entries_come_from_vanished, obsolete_entries,
};
use crate::keyed::{insert_entry, key_index, lemma_key_index};
use crate::quoting::{
    esc_nl, lemma_escape_is_charwise, lemma_escaped_no_newline, lemma_lines_cons, lemma_lines_single,
    lemma_quote_not_ws, lemma_split_rejoin, no_newline,
};

verus! {

/// A physical line: not empty, without a newline, not ending in a carriage
/// return.
pub open spec fn phys_ok(l: Seq<char>) -> bool {
    &&& l.len() > 0
    &&& no_newline(l)
    &&& l.last() != '\r'
}

/// Joined lines: the first, the separator, then the rest joined.
pub proof fn lemma_join_front(pls: Seq<Seq<char>>, sep: Seq<char>)
    requires
        pls.len() >= 2,
    ensures
        join_seq(pls, sep) == pls[0] + sep + join_seq(pls.drop_first(), sep),
    decreases pls.len(),
{
    if pls.len() == 2 {
        assert(pls.drop_last() =~= seq![pls[0]]);
        assert(pls.drop_first() =~= seq![pls[1]]);
        assert(join_seq(pls.drop_last(), sep) == pls[0]);
        assert(join_seq(pls.drop_first(), sep) == pls[1]);
        assert(pls.last() == pls[1]);
    } else {
        lemma_join_front(pls.drop_last(), sep);
        let dl = pls.drop_last();
        let df = pls.drop_first();
        assert(dl.drop_first() =~= df.drop_last());
        assert(df.last() == pls.last());
        assert(dl[0] == pls[0]);
        assert(join_seq(pls, sep) == join_seq(dl, sep) + sep + pls.last());
        assert(join_seq(df, sep) == join_seq(df.drop_last(), sep) + sep + df.last());
        assert(join_seq(pls, sep) =~= pls[0] + sep + join_seq(df, sep));
    }
}

/// Joining two runs of lines: each joined, with the separator between.
pub proof fn lemma_join_append(a: Seq<Seq<char>>, b: Seq<Seq<char>>, sep: Seq<char>)
    requires
        a.len() > 0,
        b.len() > 0,
    ensures
        join_seq(a + b, sep) == join_seq(a, sep) + sep + join_seq(b, sep),
    decreases b.len(),
{
    if b.len() == 1 {
        assert((a + b).drop_last() =~= a);
        assert((a + b).last() == b[0]);
    } else {
        lemma_join_append(a, b.drop_last(), sep);
        assert((a + b).drop_last() =~= a + b.drop_last());
        assert((a + b).last() == b.last());
    }
}

/// Physical lines joined by newlines split back into the same lines.
pub proof fn lemma_lines_of_join(pls: Seq<Seq<char>>)
    requires
        forall|i: int| 0 <= i < pls.len() ==> phys_ok(#[trigger] pls[i]),
    ensures
        lines_of(join_seq(pls, seq!['\n'])) == pls,
    decreases pls.len(),
{
    if pls.len() == 0 {
        assert(lines_of(Seq::<char>::empty()) == Seq::<Seq<char>>::empty());
    } else if pls.len() == 1 {
        assert(phys_ok(pls[0]));
        lemma_lines_single(pls[0]);
        assert(seq![pls[0]] =~= pls);
    } else {
        lemma_join_front(pls, seq!['\n']);
        assert(phys_ok(pls[0]));
        assert forall|i: int| 0 <= i < pls.drop_first().len() implies phys_ok(
            #[trigger] pls.drop_first()[i],
        ) by {
            assert(pls.drop_first()[i] == pls[i + 1]);
        }
        lemma_lines_of_join(pls.drop_first());
        lemma_lines_cons(pls[0], join_seq(pls.drop_first(), seq!['\n']));
        assert(seq![pls[0]] + pls.drop_first() =~= pls);
    }
}


/// A text that neither starts nor ends in whitespace trims to itself.
pub proof fn lemma_trim_noop(l: Seq<char>)
    requires
        l.len() > 0,
        !is_ws(l[0]),
        !is_ws(l.last()),
    ensures
        trim_seq(l) == l,
        trim_start_seq(l) == l,
{
}

/// The quoted lines of a multi-line PO string, from piece `i` on.
pub open spec fn quoted_phys(parts: Seq<Seq<char>>, i: int) -> Seq<Seq<char>>
    decreases parts.len() - i,
{
    if i < 0 || i >= parts.len() {
        seq![]
    } else if i < parts.len() - 1 {
        seq![seq!['"'] + parts[i] + seq!['\\', 'n', '"']] + quoted_phys(parts, i + 1)
    } else if parts[i].len() > 0 {
        seq![seq!['"'] + parts[i] + seq!['"']]
    } else {
        seq![]
    }
}

/// The physical lines of `key "value"` as a PO string.
pub open spec fn po_string_phys(key: Seq<char>, v: Seq<char>) -> Seq<Seq<char>> {
    let e = escape_po_seq(v);
    if find_seq(e, esc_nl()) >= 0 && e != esc_nl() {
        seq![key + seq![' ', '"', '"']] + quoted_phys(split_seq(e, esc_nl()), 0)
    } else {
        seq![key + seq![' ', '"'] + e + seq!['"']]
    }
}

proof fn lemma_quoted_phys(parts: Seq<Seq<char>>, i: int)
    requires
        0 <= i < parts.len(),
        forall|j: int| 0 <= j < parts.len() ==> no_newline(#[trigger] parts[j]),
    ensures
        po_string_lines(parts, i) == (if quoted_phys(parts, i).len() > 0 {
            join_seq(quoted_phys(parts, i), seq!['\n']) + seq!['\n']
        } else {
            Seq::<char>::empty()
        }),
        i < parts.len() - 1 ==> quoted_phys(parts, i).len() > 0,
        forall|j: int|
            0 <= j < quoted_phys(parts, i).len() ==> phys_ok(#[trigger] quoted_phys(parts, i)[j])
                && quoted_phys(parts, i)[j][0] == '"' && quoted_phys(parts, i)[j].last() == '"',
    decreases parts.len() - i,
{
    let pi = parts[i];
    assert(no_newline(pi));
    if i < parts.len() - 1 {
        lemma_quoted_phys(parts, i + 1);
        let l = seq!['"'] + pi + seq!['\\', 'n', '"'];
        let q1 = quoted_phys(parts, i + 1);
        let q = quoted_phys(parts, i);
        assert(q == seq![l] + q1);
        assert(phys_ok(l)) by {
            assert forall|k: int| 0 <= k < l.len() implies l[k] != '\n' by {
                if 1 <= k < 1 + pi.len() {
                    assert(l[k] == pi[k - 1]);
                }
            }
        }
        assert forall|j: int| 0 <= j < q.len() implies phys_ok(#[trigger] q[j]) && q[j][0] == '"'
            && q[j].last() == '"' by {
            if j > 0 {
                assert(q[j] == q1[j - 1]);
            }
        }
        if q1.len() > 0 {
            lemma_join_front(q, seq!['\n']);
            assert(q.drop_first() =~= q1);
            assert(po_string_lines(parts, i) =~= join_seq(q, seq!['\n']) + seq!['\n']);
        } else {
            assert(q =~= seq![l]);
            assert(join_seq(q, seq!['\n']) == l);
            assert(po_string_lines(parts, i) =~= l + seq!['\n']);
        }
    } else {
        assert(po_string_lines(parts, i + 1) == Seq::<char>::empty());
        if pi.len() > 0 {
            let l = seq!['"'] + pi + seq!['"'];
            assert(quoted_phys(parts, i) =~= seq![l]);
            assert(join_seq(seq![l], seq!['\n']) == l);
            assert(phys_ok(l)) by {
                assert forall|k: int| 0 <= k < l.len() implies l[k] != '\n' by {
                    if 1 <= k < 1 + pi.len() {
                        assert(l[k] == pi[k - 1]);
                    }
                }
            }
            assert(po_string_lines(parts, i) =~= l + seq!['\n']);
        }
    }
}

/// The physical lines of a PO string, and what they hold.
pub proof fn lemma_po_string_phys(key: Seq<char>, v: Seq<char>)
    requires
        key.len() > 0,
        no_newline(key),
        !is_ws(key[0]),
    ensures
        format_po_string_spec(key, v) == join_seq(po_string_phys(key, v), seq!['\n']),
        po_string_phys(key, v).len() > 0,
        has_prefix(po_string_phys(key, v)[0], key + seq![' ', '"']),
        forall|j: int|
            0 <= j < po_string_phys(key, v).len() ==> phys_ok(#[trigger] po_string_phys(key, v)[j])
                && trim_seq(po_string_phys(key, v)[j]) == po_string_phys(key, v)[j]
                && po_string_phys(key, v)[j].last() == '"',
        forall|j: int|
            1 <= j < po_string_phys(key, v).len() ==> #[trigger] po_string_phys(key, v)[j][0] == '"',
{
    let e = escape_po_seq(v);
    lemma_escape_is_charwise(v);
    lemma_escaped_no_newline(v);
    lemma_quote_not_ws();
    let ph = po_string_phys(key, v);
    if find_seq(e, esc_nl()) >= 0 && e != esc_nl() {
        lemma_split_rejoin(e);
        let parts = split_seq(e, esc_nl());
        assert forall|j: int| 0 <= j < parts.len() implies no_newline(#[trigger] parts[j]) by {}
        lemma_quoted_phys(parts, 0);
        let q = quoted_phys(parts, 0);
        let first = key + seq![' ', '"', '"'];
        assert(ph == seq![first] + q);
        assert(q.len() > 0);
        lemma_join_front(ph, seq!['\n']);
        assert(ph.drop_first() =~= q);
        let t = po_string_lines(parts, 0);
        let full = key + seq![' ', '"', '"', '\n'] + t;
        assert(full =~= first + seq!['\n'] + join_seq(q, seq!['\n']) + seq!['\n']);
        assert(full.last() == '\n');
        assert(is_ws('\n'));
        assert(full.drop_last() =~= first + seq!['\n'] + join_seq(q, seq!['\n']));
        assert(join_seq(q, seq!['\n']).last() == '"') by {
            if q.len() == 1 {
                assert(join_seq(q, seq!['\n']) == q[0]);
            } else {
                assert(join_seq(q, seq!['\n']) == join_seq(q.drop_last(), seq!['\n']) + seq!['\n']
                    + q.last());
            }
        }
        assert(full.drop_last().last() == '"');
        assert(trim_end_seq(full.drop_last()) == full.drop_last());
        assert(format_po_string_spec(key, v) == full.drop_last());
        assert(phys_ok(first)) by {
            assert forall|k: int| 0 <= k < first.len() implies first[k] != '\n' by {
                if k < key.len() {
                    assert(first[k] == key[k]);
                }
            }
        }
        assert(first.take(key.len() as int + 2) =~= key + seq![' ', '"']);
        assert forall|j: int| 0 <= j < ph.len() implies phys_ok(#[trigger] ph[j]) && trim_seq(ph[j])
            == ph[j] && ph[j].last() == '"' by {
            if j == 0 {
                lemma_trim_noop(first);
            } else {
                assert(ph[j] == q[j - 1]);
                lemma_trim_noop(ph[j]);
            }
        }
        assert forall|j: int| 1 <= j < ph.len() implies #[trigger] ph[j][0] == '"' by {
            assert(ph[j] == q[j - 1]);
        }
    } else {
        let l = key + seq![' ', '"'] + e + seq!['"'];
        assert(ph == seq![l]);
        assert(join_seq(ph, seq!['\n']) == l);
        assert(phys_ok(l)) by {
            assert forall|k: int| 0 <= k < l.len() implies l[k] != '\n' by {
                if k < key.len() {
                    assert(l[k] == key[k]);
                } else if key.len() + 2 <= k < key.len() + 2 + e.len() {
                    assert(l[k] == e[k - key.len() - 2]);
                }
            }
        }
        assert(l.take(key.len() as int + 2) =~= key + seq![' ', '"']);
        lemma_trim_noop(l);
    }
}


/// Each line behind a newline, all concatenated.
pub open spec fn nl_joined(pls: Seq<Seq<char>>) -> Seq<char>
    decreases pls.len(),
{
    if pls.len() == 0 {
        seq![]
    } else {
        seq!['\n'] + pls[0] + nl_joined(pls.drop_first())
    }
}

pub proof fn lemma_join_nl_joined(pls: Seq<Seq<char>>)
    requires
        pls.len() > 0,
    ensures
        join_seq(pls, seq!['\n']) == pls[0] + nl_joined(pls.drop_first()),
    decreases pls.len(),
{
    if pls.len() == 1 {
        assert(pls.drop_first() =~= Seq::<Seq<char>>::empty());
        assert(pls[0] + Seq::<char>::empty() =~= pls[0]);
    } else {
        lemma_join_front(pls, seq!['\n']);
        lemma_join_nl_joined(pls.drop_first());
        assert(pls.drop_first()[0] == pls[1]);
        assert(nl_joined(pls.drop_first()) == seq!['\n'] + pls.drop_first()[0] + nl_joined(
            pls.drop_first().drop_first(),
        ));
        assert(join_seq(pls, seq!['\n']) =~= pls[0] + nl_joined(pls.drop_first()));
    }
}

/// Quoted continuation lines are read one by one, each after a newline.
pub proof fn lemma_continuation(ls: Seq<Seq<char>>, k: int, raw: Seq<char>, pls: Seq<Seq<char>>)
    requires
        0 <= k,
        k + pls.len() <= ls.len(),
        forall|j: int| 0 <= j < pls.len() ==> ls[k + j] == #[trigger] pls[j],
        forall|j: int|
            0 <= j < pls.len() ==> trim_seq(#[trigger] pls[j]) == pls[j] && has_prefix(
                pls[j],
                seq!['"'],
            ),
        k + pls.len() < ls.len() ==> !has_prefix(trim_seq(ls[k + pls.len()]), seq!['"']),
    ensures
        continuation(ls, k, raw) == (raw + nl_joined(pls), k + pls.len()),
    decreases pls.len(),
{
    if pls.len() == 0 {
        assert(raw + Seq::<char>::empty() =~= raw);
    } else {
        assert(ls[k + 0] == pls[0]);
        let rest = pls.drop_first();
        assert forall|j: int| 0 <= j < rest.len() implies ls[(k + 1) + j] == #[trigger] rest[j] by {
            assert(rest[j] == pls[j + 1]);
            assert(ls[k + (j + 1)] == pls[j + 1]);
        }
        assert forall|j: int|
            0 <= j < rest.len() implies trim_seq(#[trigger] rest[j]) == rest[j] && has_prefix(
            rest[j],
            seq!['"'],
        ) by {
            assert(rest[j] == pls[j + 1]);
        }
        lemma_continuation(ls, k + 1, raw + seq!['\n'] + pls[0], rest);
        assert(raw + seq!['\n'] + pls[0] + nl_joined(rest) =~= raw + nl_joined(pls));
    }
}

/// A PO string written at line `k` reads back as its value: its first line
/// starts with the keyword and a space, the rest follows as continuation.
pub proof fn lemma_read_po_string(ls: Seq<Seq<char>>, k: int, key: Seq<char>, v: Seq<char>)
    requires
        key.len() > 0,
        no_newline(key),
        !is_ws(key[0]),
        0 <= k,
        k + po_string_phys(key, v).len() <= ls.len(),
        forall|j: int|
            0 <= j < po_string_phys(key, v).len() ==> ls[k + j] == #[trigger] po_string_phys(
                key,
                v,
            )[j],
        k + po_string_phys(key, v).len() < ls.len() ==> !has_prefix(
            trim_seq(ls[k + po_string_phys(key, v).len()]),
            seq!['"'],
        ),
    ensures
        trim_seq(ls[k]) == po_string_phys(key, v)[0],
        has_prefix(trim_seq(ls[k]), key + seq![' ', '"']),
        continuation(ls, k + 1, trim_seq(ls[k]).skip(key.len() as int + 1)) == (
            format_po_string_spec(key, v).skip(key.len() as int + 1),
            k + po_string_phys(key, v).len(),
        ),
        parse_po_string_spec(format_po_string_spec(key, v).skip(key.len() as int + 1)) == v,
{
    lemma_po_string_phys(key, v);
    crate::quoting::law_po_string_round_trip(key, v);
    let ph = po_string_phys(key, v);
    assert(ls[k + 0] == ph[0]);
    let rest = ph.drop_first();
    assert forall|j: int| 0 <= j < rest.len() implies ls[(k + 1) + j] == #[trigger] rest[j] by {
        assert(rest[j] == ph[j + 1]);
        assert(ls[k + (j + 1)] == ph[j + 1]);
    }
    assert forall|j: int|
        0 <= j < rest.len() implies trim_seq(#[trigger] rest[j]) == rest[j] && has_prefix(
        rest[j],
        seq!['"'],
    ) by {
        assert(rest[j] == ph[j + 1]);
        assert(rest[j].take(1) =~= seq!['"']);
    }
    let first = ph[0].skip(key.len() as int + 1);
    lemma_continuation(ls, k + 1, first, rest);
    lemma_join_nl_joined(ph);
    assert(ph[0].take(key.len() as int + 2).len() == key.len() + 2);
    assert(ph[0].len() >= key.len() + 1);
    assert(format_po_string_spec(key, v).skip(key.len() as int + 1) =~= first + nl_joined(rest));
}


/// Not empty, and without whitespace.
pub open spec fn word_ok(w: Seq<char>) -> bool {
    w.len() > 0 && forall|k: int| 0 <= k < w.len() ==> !is_ws(#[trigger] w[k])
}

/// A reference that keeps its `#:` line one trimmed physical line: not
/// empty, without a newline, not ending in whitespace (it may hold spaces).
pub open spec fn ref_safe(r: Seq<char>) -> bool {
    &&& r.len() > 0
    &&& no_newline(r)
    &&& !is_ws(r.last())
}

pub open spec fn all_words(ws: Seq<Seq<char>>) -> bool {
    forall|k: int| 0 <= k < ws.len() ==> word_ok(#[trigger] ws[k])
}

pub open spec fn all_ref_safe(ws: Seq<Seq<char>>) -> bool {
    forall|k: int| 0 <= k < ws.len() ==> ref_safe(#[trigger] ws[k])
}

/// A word is a safe reference.
pub proof fn lemma_word_safe(w: Seq<char>)
    requires
        word_ok(w),
    ensures
        ref_safe(w),
{
    assert(is_ws('\n'));
    assert forall|k: int| 0 <= k < w.len() implies w[k] != '\n' by {
        assert(!is_ws(w[k]));
    }
    assert(!is_ws(w[w.len() - 1]));
}

pub proof fn lemma_words_safe(ws: Seq<Seq<char>>)
    requires
        all_words(ws),
    ensures
        all_ref_safe(ws),
{
    assert forall|k: int| 0 <= k < ws.len() implies ref_safe(#[trigger] ws[k]) by {
        lemma_word_safe(ws[k]);
    }
}

/// Spacing strings puts a space before their join.
proof fn lemma_spaced_join(ws: Seq<Seq<char>>)
    requires
        ws.len() > 0,
    ensures
        spaced(ws) == seq![' '] + join_seq(ws, seq![' ']),
    decreases ws.len(),
{
    if ws.len() == 1 {
        assert(ws.drop_last() =~= Seq::<Seq<char>>::empty());
        assert(spaced(ws.drop_last()) == Seq::<char>::empty());
        assert(ws.last() == ws[0]);
        assert(spaced(ws) =~= seq![' '] + ws[0]);
        assert(join_seq(ws, seq![' ']) == ws[0]);
    } else {
        lemma_spaced_join(ws.drop_last());
        assert(spaced(ws) =~= seq![' '] + join_seq(ws, seq![' ']));
    }
}

/// Words separated by single spaces split back into the same words.
pub proof fn lemma_words_of_join(ws: Seq<Seq<char>>)
    requires
        ws.len() > 0,
        forall|i: int| 0 <= i < ws.len() ==> word_ok(#[trigger] ws[i]),
    ensures
        words_of(join_seq(ws, seq![' '])) == ws,
    decreases ws.len(),
{
    let w0 = ws[0];
    assert(word_ok(w0));
    if ws.len() == 1 {
        assert(join_seq(ws, seq![' ']) == w0);
        assert(trim_start_seq(w0) == w0);
        lemma_ws_index(w0);
        assert(ws_index(w0) < 0);
        assert(seq![w0] =~= ws);
    } else {
        lemma_join_front(ws, seq![' ']);
        let rest = ws.drop_first();
        assert forall|i: int| 0 <= i < rest.len() implies word_ok(#[trigger] rest[i]) by {
            assert(rest[i] == ws[i + 1]);
        }
        lemma_words_of_join(rest);
        let jr = join_seq(rest, seq![' ']);
        let s = w0 + seq![' '] + jr;
        assert(s[0] == w0[0]);
        assert(trim_start_seq(s) == s);
        lemma_ws_index(s);
        assert(is_ws(' '));
        assert(s[w0.len() as int] == ' ');
        assert forall|k: int| 0 <= k < w0.len() implies !is_ws(s[k]) by {
            assert(s[k] == w0[k]);
        }
        assert(ws_index(s) == w0.len());
        assert(s.take(w0.len() as int) =~= w0);
        let tail = s.skip(w0.len() as int);
        assert(tail =~= seq![' '] + jr);
        assert(trim_start_seq(tail) == trim_start_seq(tail.drop_first()));
        assert(tail.drop_first() =~= jr);
        assert(words_of(tail) == words_of(jr));
        assert(seq![w0] + rest =~= ws);
    }
}

/// Words each behind a space.
pub open spec fn spaced(ws: Seq<Seq<char>>) -> Seq<char>
    decreases ws.len(),
{
    if ws.len() == 0 {
        seq![]
    } else {
        spaced(ws.drop_last()) + seq![' '] + ws.last()
    }
}

proof fn lemma_spaced_trim(ws: Seq<Seq<char>>)
    requires
        ws.len() > 0,
        forall|i: int| 0 <= i < ws.len() ==> word_ok(#[trigger] ws[i]),
    ensures
        trim_seq(spaced(ws)) == join_seq(ws, seq![' ']),
        spaced(ws) == seq![' '] + join_seq(ws, seq![' ']),
    decreases ws.len(),
{
    if ws.len() == 1 {
        assert(ws.drop_last() =~= Seq::<Seq<char>>::empty());
        assert(spaced(ws.drop_last()) == Seq::<char>::empty());
        assert(ws.last() == ws[0]);
        assert(spaced(ws) =~= seq![' '] + ws[0]);
        assert(join_seq(ws, seq![' ']) == ws[0]);
    } else {
        assert forall|i: int| 0 <= i < ws.drop_last().len() implies word_ok(
            #[trigger] ws.drop_last()[i],
        ) by {
            assert(ws.drop_last()[i] == ws[i]);
        }
        lemma_spaced_trim(ws.drop_last());
        assert(spaced(ws) =~= seq![' '] + join_seq(ws, seq![' ']));
    }
    let j = join_seq(ws, seq![' ']);
    let sp = seq![' '] + j;
    assert(word_ok(ws[0]));
    assert(word_ok(ws.last()));
    assert(j.len() > 0 && j[0] == ws[0][0]) by {
        if ws.len() >= 2 {
            lemma_join_front(ws, seq![' ']);
        }
    }
    assert(j.last() == ws.last().last());
    assert(is_ws(' '));
    assert(trim_start_seq(sp) == trim_start_seq(sp.drop_first()));
    assert(sp.drop_first() =~= j);
    assert(!is_ws(j[0]));
    assert(!is_ws(j.last())) by {
        assert(ws.last()[ws.last().len() - 1] == ws.last().last());
    }
    lemma_trim_noop(j);
}


/// The references the reader takes from `#:` lines, in order.
pub open spec fn ref_words(ls: Seq<Seq<char>>) -> Seq<Seq<char>>
    decreases ls.len(),
{
    if ls.len() == 0 {
        seq![]
    } else {
        words_of(trim_seq(ls[0].skip(2))) + ref_words(ls.drop_first())
    }
}

/// A `#:` line as the writer makes it.
pub open spec fn ref_line_ok(l: Seq<char>) -> bool {
    &&& phys_ok(l)
    &&& has_prefix(l, seq!['#', ':'])
    &&& trim_seq(l) == l
}

pub proof fn lemma_join_no_newline(b: Seq<Seq<char>>, sep: Seq<char>)
    requires
        forall|i: int| 0 <= i < b.len() ==> no_newline(#[trigger] b[i]),
        no_newline(sep),
    ensures
        no_newline(join_seq(b, sep)),
    decreases b.len(),
{
    if b.len() == 1 {
        assert(no_newline(b[0]));
    } else if b.len() > 1 {
        assert forall|i: int| 0 <= i < b.drop_last().len() implies no_newline(
            #[trigger] b.drop_last()[i],
        ) by {
            assert(b.drop_last()[i] == b[i]);
        }
        lemma_join_no_newline(b.drop_last(), sep);
        let x = join_seq(b.drop_last(), sep);
        let t = x + sep + b.last();
        assert(no_newline(b.last()));
        assert forall|k: int| 0 <= k < t.len() implies t[k] != '\n' by {
            if k < x.len() {
                assert(t[k] == x[k]);
            } else if k < x.len() + sep.len() {
                assert(t[k] == sep[k - x.len()]);
            } else {
                assert(t[k] == b.last()[k - x.len() - sep.len()]);
            }
        }
    }
}

pub proof fn lemma_join_last(b: Seq<Seq<char>>, sep: Seq<char>)
    requires
        b.len() > 0,
        b.last().len() > 0,
    ensures
        join_seq(b, sep).len() > 0,
        join_seq(b, sep).last() == b.last().last(),
{
}

proof fn lemma_ref_line(b: Seq<Seq<char>>)
    requires
        all_ref_safe(b),
    ensures
        ref_line_ok(seq!['#', ':'] + spaced(b)),
        all_words(b) ==> words_of(trim_seq((seq!['#', ':'] + spaced(b)).skip(2))) == b,
{
    let l = seq!['#', ':'] + spaced(b);
    assert(l.skip(2) =~= spaced(b));
    assert(l.take(2) =~= seq!['#', ':']);
    assert(('#' as u32) == 35);
    assert((':' as u32) == 58);
    assert(!is_ws('#') && !is_ws(':'));
    assert(is_ws('\r'));
    if b.len() == 0 {
        assert(spaced(b) == Seq::<char>::empty());
        assert(l =~= seq!['#', ':']);
        lemma_trim_noop(l);
        assert(trim_seq(Seq::<char>::empty()) == Seq::<char>::empty());
        assert(words_of(Seq::<char>::empty()) == Seq::<Seq<char>>::empty());
        assert(b =~= Seq::<Seq<char>>::empty());
        assert(no_newline(l)) by {
            assert forall|k: int| 0 <= k < l.len() implies l[k] != '\n' by {}
        }
    } else {
        lemma_spaced_join(b);
        let j = join_seq(b, seq![' ']);
        assert(l =~= seq!['#', ':', ' '] + j);
        assert(ref_safe(b[b.len() - 1]));
        lemma_join_last(b, seq![' ']);
        assert(!is_ws(b.last()[b.last().len() - 1]));
        assert(l.last() == j.last());
        lemma_trim_noop(l);
        assert forall|i: int| 0 <= i < b.len() implies no_newline(#[trigger] b[i]) by {
            assert(ref_safe(b[i]));
        }
        assert(no_newline(seq![' '])) by {
            assert forall|k: int| 0 <= k < 1 implies seq![' '][k] != '\n' by {}
        }
        lemma_join_no_newline(b, seq![' ']);
        assert forall|k: int| 0 <= k < l.len() implies l[k] != '\n' by {
            if k >= 3 {
                assert(l[k] == j[k - 3]);
            }
        }
        if all_words(b) {
            lemma_spaced_trim(b);
            lemma_words_of_join(b);
        }
    }
}

pub open spec fn all_ref_lines_ok(ls: Seq<Seq<char>>) -> bool {
    forall|i: int| 0 <= i < ls.len() ==> ref_line_ok(#[trigger] ls[i])
}

proof fn lemma_ref_words_cons(l: Seq<char>, rest: Seq<Seq<char>>)
    ensures
        ref_words(seq![l] + rest) == words_of(trim_seq(l.skip(2))) + ref_words(rest),
{
    assert((seq![l] + rest).drop_first() =~= rest);
    assert((seq![l] + rest)[0] == l);
}

proof fn lemma_wrap_from(refs: Seq<Seq<char>>, i: int, b: Seq<Seq<char>>, w: int)
    requires
        0 <= i <= refs.len(),
        all_ref_safe(refs),
        all_ref_safe(b),
    ensures
        all_words(refs) && all_words(b) ==> ref_words(
            wrap_from(refs, i, seq!['#', ':'] + spaced(b), w),
        ) == b + refs.skip(i),
        all_ref_lines_ok(wrap_from(refs, i, seq!['#', ':'] + spaced(b), w)),
    decreases refs.len() - i,
{
    let line = seq!['#', ':'] + spaced(b);
    lemma_ref_line(b);
    if i >= refs.len() {
        assert(wrap_from(refs, i, line, w) == seq![line]);
        lemma_ref_words_cons(line, Seq::<Seq<char>>::empty());
        assert(refs.skip(i) =~= Seq::<Seq<char>>::empty());
        assert(b + refs.skip(i) =~= b);
        if all_words(b) {
            assert(words_of(trim_seq(line.skip(2))) + Seq::<Seq<char>>::empty() =~= b);
        }
    } else if crate::matching::byte_len(line) > 2 && crate::matching::byte_len(line) + 1
        + crate::matching::byte_len(refs[i]) >= w {
        let nb = seq![refs[i]];
        assert(spaced(nb) =~= seq![' '] + refs[i]) by {
            assert(nb.drop_last() =~= Seq::<Seq<char>>::empty());
            assert(spaced(nb.drop_last()) == Seq::<char>::empty());
            assert(nb.last() == refs[i]);
        }
        assert(seq!['#', ':', ' '] + refs[i] =~= seq!['#', ':'] + spaced(nb));
        assert forall|k: int| 0 <= k < nb.len() implies ref_safe(#[trigger] nb[k]) by {}
        lemma_wrap_from(refs, i + 1, nb, w);
        let rest = wrap_from(refs, i + 1, seq!['#', ':'] + spaced(nb), w);
        assert(wrap_from(refs, i, line, w) == seq![line] + rest);
        lemma_ref_words_cons(line, rest);
        assert(refs.skip(i) =~= nb + refs.skip(i + 1));
        if all_words(refs) && all_words(b) {
            assert forall|k: int| 0 <= k < nb.len() implies word_ok(#[trigger] nb[k]) by {}
        }
        assert forall|k: int| 0 <= k < (seq![line] + rest).len() implies ref_line_ok(
            #[trigger] (seq![line] + rest)[k],
        ) by {
            if k > 0 {
                assert((seq![line] + rest)[k] == rest[k - 1]);
            }
        }
    } else {
        let nb = b.push(refs[i]);
        assert(spaced(nb) == spaced(b) + seq![' '] + refs[i]) by {
            assert(nb.drop_last() =~= b);
        }
        assert(line + seq![' '] + refs[i] =~= seq!['#', ':'] + spaced(nb));
        assert forall|k: int| 0 <= k < nb.len() implies ref_safe(#[trigger] nb[k]) by {
            if k < b.len() {
                assert(nb[k] == b[k]);
            }
        }
        if all_words(refs) && all_words(b) {
            assert forall|k: int| 0 <= k < nb.len() implies word_ok(#[trigger] nb[k]) by {
                if k < b.len() {
                    assert(nb[k] == b[k]);
                }
            }
        }
        lemma_wrap_from(refs, i + 1, nb, w);
        assert(refs.skip(i) =~= seq![refs[i]] + refs.skip(i + 1));
        assert(b + refs.skip(i) =~= nb + refs.skip(i + 1));
    }
}

/// The references as the `#:` lines give them: the file parts, each run of
/// equal ones once, when only files are written; sorted when the output is
/// sorted.
pub open spec fn refs_in_order(refs: Seq<Seq<char>>, o: PoOptionsView) -> Seq<Seq<char>> {
    let r1 = if o.location_mode == LocationMode::File {
        crate::po::dedup_seq(crate::po::file_parts(refs))
    } else {
        refs
    };
    if o.sort_output {
        crate::po::sort_strs(r1)
    } else {
        r1
    }
}

/// Reducing runs keeps some of the strings, and only them.
pub proof fn lemma_dedup_members(s: Seq<Seq<char>>)
    ensures
        s.len() > 0 ==> crate::po::dedup_seq(s).len() > 0,
        forall|i: int|
            0 <= i < crate::po::dedup_seq(s).len() ==> s.contains(
                #[trigger] crate::po::dedup_seq(s)[i],
            ),
    decreases s.len(),
{
    if s.len() > 0 {
        let d = s.drop_last();
        lemma_dedup_members(d);
        let r = crate::po::dedup_seq(s);
        let t = crate::po::dedup_seq(d);
        assert forall|i: int| 0 <= i < r.len() implies s.contains(#[trigger] r[i]) by {
            if i < t.len() {
                assert(r[i] == t[i]);
                assert(d.contains(t[i]));
                let k = choose|k: int| 0 <= k < d.len() && d[k] == t[i];
                assert(s[k] == d[k]);
            } else {
                assert(r[i] == s.last());
                assert(s[s.len() - 1] == s.last());
            }
        }
    }
}

/// Sorting keeps the strings, and only them.
pub proof fn lemma_sort_strs_members(s: Seq<Seq<char>>)
    ensures
        crate::po::sort_strs(s).len() == s.len(),
        forall|i: int| 0 <= i < s.len() ==> s.contains(#[trigger] crate::po::sort_strs(s)[i]),
    decreases s.len(),
{
    if s.len() > 0 {
        let d = s.drop_last();
        lemma_sort_strs_members(d);
        let t = crate::po::sort_strs(d);
        crate::po::lemma_str_insert_pos_bounds(t, s.last());
        let r = crate::po::sort_strs(s);
        let pos = crate::po::str_insert_pos(t, s.last());
        assert(r == t.insert(pos, s.last()));
        assert forall|i: int| 0 <= i < s.len() implies s.contains(#[trigger] r[i]) by {
            if i < pos {
                assert(r[i] == t[i]);
                assert(d.contains(t[i]));
                let k = choose|k: int| 0 <= k < d.len() && d[k] == t[i];
                assert(s[k] == d[k]);
            } else if i == pos {
                assert(s[s.len() - 1] == s.last());
            } else {
                assert(r[i] == t[i - 1]);
                assert(d.contains(t[i - 1]));
                let k = choose|k: int| 0 <= k < d.len() && d[k] == t[i - 1];
                assert(s[k] == d[k]);
            }
        }
    }
}

/// What holds of every reference (or, when only files are written, of every
/// file part) holds of every reference the `#:` lines are made from.
proof fn lemma_in_order_members(refs: Seq<Seq<char>>, o: PoOptionsView, p: spec_fn(Seq<char>) -> bool)
    requires
        o.location_mode == LocationMode::File ==> forall|k: int|
            0 <= k < refs.len() ==> p(crate::po::file_part(#[trigger] refs[k])),
        o.location_mode != LocationMode::File ==> forall|k: int|
            0 <= k < refs.len() ==> p(#[trigger] refs[k]),
    ensures
        forall|k: int| 0 <= k < refs_in_order(refs, o).len() ==> p(#[trigger] refs_in_order(refs, o)[k]),
        refs.len() > 0 ==> refs_in_order(refs, o).len() > 0,
{
    let r1 = if o.location_mode == LocationMode::File {
        crate::po::dedup_seq(crate::po::file_parts(refs))
    } else {
        refs
    };
    assert(forall|k: int| 0 <= k < r1.len() ==> p(#[trigger] r1[k])) by {
        if o.location_mode == LocationMode::File {
            let fp = crate::po::file_parts(refs);
            lemma_dedup_members(fp);
            assert forall|k: int| 0 <= k < r1.len() implies p(#[trigger] r1[k]) by {
                assert(fp.contains(r1[k]));
                let j = choose|j: int| 0 <= j < fp.len() && fp[j] == r1[k];
                assert(fp[j] == crate::po::file_part(refs[j]));
            }
        }
    }
    assert(refs.len() > 0 ==> r1.len() > 0) by {
        if o.location_mode == LocationMode::File {
            lemma_dedup_members(crate::po::file_parts(refs));
        }
    }
    let r = refs_in_order(refs, o);
    lemma_sort_strs_members(r1);
    assert(r.len() == r1.len());
    assert forall|k: int| 0 <= k < r.len() implies p(#[trigger] r[k]) by {
        if o.sort_output {
            assert(r1.contains(crate::po::sort_strs(r1)[k]));
            let j = choose|j: int| 0 <= j < r1.len() && r1[j] == crate::po::sort_strs(r1)[k];
            assert(p(r1[j]));
        }
    }
}

/// The `#:` lines of an entry's references are trimmed physical lines that
/// start with `#:`; when the references (and, when only files are written,
/// their file parts) hold no whitespace, the lines read back as the
/// references written (`refs_in_order`), in the order written.
pub proof fn lemma_reference_lines(refs: Seq<Seq<char>>, o: PoOptionsView)
    requires
        refs.len() > 0,
        all_ref_safe(refs),
        o.location_mode == LocationMode::File ==> forall|k: int|
            0 <= k < refs.len() ==> ref_safe(crate::po::file_part(#[trigger] refs[k])),
        o.location_mode != LocationMode::Never,
    ensures
        all_words(refs) && (o.location_mode == LocationMode::File ==> forall|k: int|
            0 <= k < refs.len() ==> word_ok(crate::po::file_part(#[trigger] refs[k])))
            ==> ref_words(reference_lines(refs, o)) == refs_in_order(refs, o),
        all_ref_lines_ok(reference_lines(refs, o)),
        reference_lines(refs, o).len() > 0,
{
    let r = refs_in_order(refs, o);
    let safe = |x: Seq<char>| ref_safe(x);
    let word = |x: Seq<char>| word_ok(x);
    lemma_in_order_members(refs, o, safe);
    assert(all_ref_safe(r)) by {
        assert forall|k: int| 0 <= k < r.len() implies ref_safe(#[trigger] r[k]) by {
            assert(safe(r[k]));
        }
    }
    let plain_words = all_words(refs) && (o.location_mode == LocationMode::File ==> forall|k: int|
        0 <= k < refs.len() ==> word_ok(crate::po::file_part(#[trigger] refs[k])));
    if plain_words {
        lemma_in_order_members(refs, o, word);
        assert forall|k: int| 0 <= k < r.len() implies word_ok(#[trigger] r[k]) by {
            assert(word(r[k]));
        }
    }
    let w = match o.width {
        Some(w) => w as int,
        None => 80,
    };
    if o.no_wrap || w == 0 {
        lemma_spaced_join(r);
        let l = seq!['#', ':', ' '] + join_seq(r, seq![' ']);
        assert(l =~= seq!['#', ':'] + spaced(r));
        lemma_ref_line(r);
        assert(reference_lines(refs, o) == seq![l]);
        lemma_ref_words_cons(l, Seq::<Seq<char>>::empty());
        if plain_words {
            assert(words_of(trim_seq(l.skip(2))) + Seq::<Seq<char>>::empty() =~= r);
        }
    } else {
        let e = Seq::<Seq<char>>::empty();
        assert(spaced(e) == Seq::<char>::empty());
        assert(seq!['#', ':'] + spaced(e) =~= seq!['#', ':']);
        lemma_wrap_from(r, 0, e, w);
        assert(r.skip(0) == r);
        assert(e + r =~= r);
        assert(wrap_from(r, 0, seq!['#', ':'], w).len() > 0) by {
            lemma_wrap_from_nonempty(r, 0, seq!['#', ':'], w);
        }
    }
}

proof fn lemma_wrap_from_nonempty(refs: Seq<Seq<char>>, i: int, line: Seq<char>, w: int)
    ensures
        wrap_from(refs, i, line, w).len() > 0,
    decreases refs.len() - i,
{
    if 0 <= i < refs.len() {
        if crate::matching::byte_len(line) > 2 && crate::matching::byte_len(line) + 1
            + crate::matching::byte_len(refs[i]) >= w {
            lemma_wrap_from_nonempty(refs, i + 1, seq!['#', ':', ' '] + refs[i], w);
        } else {
            lemma_wrap_from_nonempty(refs, i + 1, line + seq![' '] + refs[i], w);
        }
    }
}


/// A flag the reader gets back: not empty, trimmed, without a comma or a
/// newline.
pub open spec fn flag_ok(f: Seq<char>) -> bool {
    &&& f.len() > 0
    &&& trim_seq(f) == f
    &&& !is_ws(f[0])
    &&& !is_ws(f.last())
    &&& forall|k: int| 0 <= k < f.len() ==> #[trigger] f[k] != ',' && f[k] != '\n'
}

pub open spec fn no_comma(p: Seq<char>) -> bool {
    forall|k: int| 0 <= k < p.len() ==> p[k] != ','
}

proof fn lemma_split_flags(p: Seq<char>, fs: Seq<Seq<char>>)
    requires
        fs.len() > 0,
        no_comma(p),
        forall|i: int| 0 <= i < fs.len() ==> flag_ok(#[trigger] fs[i]),
    ensures
        split_on(p + join_seq(fs, seq![',', ' ']), ',') == seq![p + fs[0]] + fs.drop_first().map_values(
            |f: Seq<char>| seq![' '] + f,
        ),
    decreases fs.len(),
{
    let f0 = fs[0];
    assert(flag_ok(f0));
    if fs.len() == 1 {
        let s = p + f0;
        assert(join_seq(fs, seq![',', ' ']) == f0);
        assert forall|k: int| 0 <= k < s.len() implies s[k] != ',' by {
            if k < p.len() {
                assert(s[k] == p[k]);
            } else {
                assert(s[k] == f0[k - p.len()]);
            }
        }
        lemma_index_of(s, ',');
        assert(fs.drop_first().map_values(|f: Seq<char>| seq![' '] + f) =~= Seq::<Seq<char>>::empty());
        assert(seq![s] + Seq::<Seq<char>>::empty() =~= seq![s]);
    } else {
        lemma_join_front(fs, seq![',', ' ']);
        let rest = fs.drop_first();
        let jr = join_seq(rest, seq![',', ' ']);
        let s = p + join_seq(fs, seq![',', ' ']);
        assert(s =~= (p + f0) + seq![','] + (seq![' '] + jr));
        let pre = p + f0;
        assert forall|k: int| 0 <= k < pre.len() implies pre[k] != ',' by {
            if k < p.len() {
                assert(pre[k] == p[k]);
            } else {
                assert(pre[k] == f0[k - p.len()]);
            }
        }
        assert(s[pre.len() as int] == ',');
        assert forall|k: int| 0 <= k < pre.len() implies s[k] != ',' by {
            assert(s[k] == pre[k]);
        }
        lemma_index_of_unique(s, ',', pre.len() as int);
        assert(s.take(pre.len() as int) =~= pre);
        assert(s.skip(pre.len() as int + 1) =~= seq![' '] + jr);
        assert forall|i: int| 0 <= i < rest.len() implies flag_ok(#[trigger] rest[i]) by {
            assert(rest[i] == fs[i + 1]);
        }
        assert(no_comma(seq![' '])) by {
            assert forall|k: int| 0 <= k < 1 implies seq![' '][k] != ',' by {}
        }
        lemma_split_flags(seq![' '], rest);
        assert(rest[0] == fs[1]);
        assert(fs.drop_first().map_values(|f: Seq<char>| seq![' '] + f) =~= seq![seq![' '] + rest[0]]
            + rest.drop_first().map_values(|f: Seq<char>| seq![' '] + f));
    }
}

proof fn lemma_flag_items(parts: Seq<Seq<char>>, fs: Seq<Seq<char>>)
    requires
        parts.len() == fs.len(),
        forall|i: int| 0 <= i < fs.len() ==> trim_seq(#[trigger] parts[i]) == fs[i] && fs[i].len() > 0,
    ensures
        crate::catalog::flag_items(parts) == fs,
    decreases parts.len(),
{
    if parts.len() > 0 {
        assert forall|i: int| 0 <= i < fs.drop_last().len() implies trim_seq(
            #[trigger] parts.drop_last()[i],
        ) == fs.drop_last()[i] && fs.drop_last()[i].len() > 0 by {
            assert(parts.drop_last()[i] == parts[i]);
        }
        lemma_flag_items(parts.drop_last(), fs.drop_last());
        assert(trim_seq(parts.last()) == fs.last());
        assert(fs.drop_last() + seq![fs.last()] =~= fs);
    } else {
        assert(fs =~= Seq::<Seq<char>>::empty());
    }
}

/// The `#,` line of flags reads back as the flags.
#[verifier::spinoff_prover]
pub proof fn lemma_flags_line(fs: Seq<Seq<char>>)
    requires
        fs.len() > 0,
        forall|i: int| 0 <= i < fs.len() ==> flag_ok(#[trigger] fs[i]),
    ensures
        ({
            let l = seq!['#', ',', ' '] + join_seq(fs, seq![',', ' ']);
            &&& phys_ok(l)
            &&& trim_seq(l) == l
            &&& has_prefix(l, seq!['#', ','])
            &&& crate::catalog::flag_items(split_on(trim_seq(l.skip(2)), ',')) == fs
        }),
{
    let j = join_seq(fs, seq![',', ' ']);
    let l = seq!['#', ',', ' '] + j;
    assert(('#' as u32) == 35);
    assert(!is_ws('#'));
    assert(is_ws(' ') && is_ws('\r') && is_ws('\n'));
    assert(flag_ok(fs.last()));
    lemma_join_last(fs, seq![',', ' ']);
    assert(!is_ws(fs.last()[fs.last().len() - 1]));
    assert(l.last() == j.last());
    lemma_trim_noop(l);
    assert(flag_ok(fs[0]));
    assert(j[0] == fs[0][0]) by {
        if fs.len() >= 2 {
            lemma_join_front(fs, seq![',', ' ']);
        }
    }
    assert(l.skip(2) =~= seq![' '] + j);
    assert(trim_start_seq(seq![' '] + j) == trim_start_seq((seq![' '] + j).drop_first()));
    assert((seq![' '] + j).drop_first() =~= j);
    lemma_trim_noop(j);
    assert(trim_seq(l.skip(2)) == j);
    assert(no_comma(Seq::<char>::empty())) by {}
    lemma_split_flags(Seq::<char>::empty(), fs);
    assert(Seq::<char>::empty() + j =~= j);
    let parts = split_on(j, ',');
    assert(Seq::<char>::empty() + fs[0] =~= fs[0]);
    assert forall|i: int| 0 <= i < fs.len() implies trim_seq(#[trigger] parts[i]) == fs[i]
        && fs[i].len() > 0 by {
        assert(flag_ok(fs[i]));
        if i > 0 {
            assert(parts[i] == seq![' '] + fs[i]);
            assert(trim_start_seq(parts[i]) == trim_start_seq(parts[i].drop_first()));
            assert(parts[i].drop_first() =~= fs[i]);
            lemma_trim_noop(fs[i]);
        }
    }
    lemma_flag_items(parts, fs);
    assert(l.take(2) =~= seq!['#', ',']);
    assert forall|i: int| 0 <= i < fs.len() implies no_newline(#[trigger] fs[i]) by {
        assert(flag_ok(fs[i]));
    }
    assert(no_newline(seq![',', ' '])) by {
        assert forall|k: int| 0 <= k < 2 implies seq![',', ' '][k] != '\n' by {}
    }
    lemma_join_no_newline(fs, seq![',', ' ']);
    assert forall|k: int| 0 <= k < l.len() implies l[k] != '\n' by {
        if k >= 3 {
            assert(l[k] == j[k - 3]);
        }
    }
}


/// The lines of each piece, one piece after the other.
pub open spec fn flatten_lines(qs: Seq<Seq<Seq<char>>>) -> Seq<Seq<char>>
    decreases qs.len(),
{
    if qs.len() == 0 {
        seq![]
    } else {
        qs[0] + flatten_lines(qs.drop_first())
    }
}

/// Each piece's lines joined by newlines.
pub open spec fn joined_pieces(qs: Seq<Seq<Seq<char>>>) -> Seq<Seq<char>> {
    qs.map_values(|q: Seq<Seq<char>>| join_seq(q, seq!['\n']))
}

/// Each line a piece of its own.
pub open spec fn singles(ls: Seq<Seq<char>>) -> Seq<Seq<Seq<char>>> {
    ls.map_values(|l: Seq<char>| seq![l])
}

pub proof fn lemma_flatten_append(a: Seq<Seq<Seq<char>>>, b: Seq<Seq<Seq<char>>>)
    ensures
        flatten_lines(a + b) == flatten_lines(a) + flatten_lines(b),
    decreases a.len(),
{
    if a.len() == 0 {
        assert(a + b =~= b);
    } else {
        assert((a + b).drop_first() =~= a.drop_first() + b);
        lemma_flatten_append(a.drop_first(), b);
        assert((a + b)[0] == a[0]);
    }
}

pub proof fn lemma_flatten_singles(ls: Seq<Seq<char>>)
    ensures
        flatten_lines(singles(ls)) == ls,
        joined_pieces(singles(ls)) == ls,
    decreases ls.len(),
{
    if ls.len() > 0 {
        assert(singles(ls).drop_first() =~= singles(ls.drop_first()));
        lemma_flatten_singles(ls.drop_first());
        assert(singles(ls)[0] == seq![ls[0]]);
        assert(seq![ls[0]] + ls.drop_first() =~= ls);
    }
    assert forall|i: int| 0 <= i < ls.len() implies joined_pieces(singles(ls))[i] == ls[i] by {
        assert(join_seq(seq![ls[i]], seq!['\n']) == ls[i]);
    }
    assert(joined_pieces(singles(ls)) =~= ls);
}

pub proof fn lemma_join_flatten(qs: Seq<Seq<Seq<char>>>)
    requires
        forall|i: int| 0 <= i < qs.len() ==> (#[trigger] qs[i]).len() > 0,
    ensures
        join_seq(joined_pieces(qs), seq!['\n']) == join_seq(flatten_lines(qs), seq!['\n']),
        qs.len() > 0 ==> flatten_lines(qs).len() > 0,
    decreases qs.len(),
{
    if qs.len() == 0 {
        return;
    }
    let rest = qs.drop_first();
    assert forall|i: int| 0 <= i < rest.len() implies (#[trigger] rest[i]).len() > 0 by {
        assert(rest[i] == qs[i + 1]);
    }
    lemma_join_flatten(rest);
    assert(qs[0].len() > 0);
    let jp = joined_pieces(qs);
    assert(jp[0] == join_seq(qs[0], seq!['\n']));
    assert(jp.drop_first() =~= joined_pieces(rest));
    if rest.len() == 0 {
        assert(flatten_lines(qs) =~= qs[0]) by {
            assert(flatten_lines(rest) == Seq::<Seq<char>>::empty());
        }
        assert(jp =~= seq![jp[0]]);
    } else {
        lemma_join_front(jp, seq!['\n']);
        lemma_join_append(qs[0], flatten_lines(rest), seq!['\n']);
    }
}

pub proof fn lemma_flatten_phys(qs: Seq<Seq<Seq<char>>>)
    requires
        forall|i: int, j: int|
            0 <= i < qs.len() && 0 <= j < qs[i].len() ==> phys_ok(#[trigger] qs[i][j]),
    ensures
        forall|k: int| 0 <= k < flatten_lines(qs).len() ==> phys_ok(#[trigger] flatten_lines(qs)[k]),
    decreases qs.len(),
{
    if qs.len() > 0 {
        let rest = qs.drop_first();
        assert forall|i: int, j: int|
            0 <= i < rest.len() && 0 <= j < rest[i].len() implies phys_ok(#[trigger] rest[i][j]) by {
            assert(rest[i] == qs[i + 1]);
        }
        lemma_flatten_phys(rest);
        let f = flatten_lines(qs);
        assert forall|k: int| 0 <= k < f.len() implies phys_ok(#[trigger] f[k]) by {
            if k < qs[0].len() {
                assert(f[k] == qs[0][k]);
            } else {
                assert(f[k] == flatten_lines(rest)[k - qs[0].len()]);
            }
        }
    }
}


/// A `#.` comment that stays one physical line; the reader gets it back
/// trimmed.
pub open spec fn comment_safe(c: Seq<char>) -> bool {
    &&& phys_ok(c)
    &&& has_prefix(c, seq!['#', '.'])
}

/// The comments the reader gets back: each one trimmed.
pub open spec fn comments_read(cs: Seq<Seq<char>>) -> Seq<Seq<char>> {
    cs.map_values(|c: Seq<char>| trim_seq(c))
}

/// The keyword of the `i`-th plural translation.
pub open spec fn msgstr_key(i: int) -> Seq<char> {
    "msgstr["@ + decimal(i as nat) + "]"@
}

/// An entry that keeps to its lines when written with these options: each
/// comment is a `#.` line and each reference (each file part, when only
/// files are written) stays on its line, without a newline (spaces inside
/// are split apart by the reader); the translations match the plural form.
pub open spec fn entry_shaped(e: PoEntryView, o: PoOptionsView) -> bool {
    &&& forall|i: int| 0 <= i < e.comments.len() ==> comment_safe(#[trigger] e.comments[i])
    &&& all_ref_safe(e.references)
    &&& o.location_mode == LocationMode::File ==> forall|i: int|
        0 <= i < e.references.len() ==> ref_safe(crate::po::file_part(#[trigger] e.references[i]))
    &&& (e.msgid.len() > 0 || e.msgctxt is Some)
    &&& (if e.msgid_plural is Some {
        e.msgstr.len() >= 1
    } else {
        e.msgstr.len() == 1
    })
}

/// An entry written with these options reads back (as `read_view` says): it
/// keeps to its lines, and its flags have the shape the reader splits flags
/// by.
pub open spec fn entry_readable(e: PoEntryView, o: PoOptionsView) -> bool {
    &&& entry_shaped(e, o)
    &&& forall|i: int| 0 <= i < e.flags.len() ==> flag_ok(#[trigger] e.flags[i])
}

/// The entry's references are written: locations are, it has some, and it
/// is not obsolete.
pub open spec fn refs_written(e: PoEntryView, o: PoOptionsView) -> bool {
    o.location_mode != LocationMode::Never && e.references.len() > 0 && !e.obsolete
}

/// The references the reader gets back: the words of the `#:` lines
/// written (the references as written when they hold no whitespace; see
/// `law_plain_references_read_back`).
pub open spec fn refs_read(e: PoEntryView, o: PoOptionsView) -> Seq<Seq<char>> {
    if refs_written(e, o) {
        ref_words(reference_lines(e.references, o))
    } else {
        seq![]
    }
}

/// References without whitespace (and, when only files are written, with
/// file parts without whitespace) read back as written: each once, in the
/// order `refs_in_order` gives, when they are written at all.
pub proof fn law_plain_references_read_back(e: PoEntryView, o: PoOptionsView)
    requires
        all_words(e.references),
        o.location_mode == LocationMode::File ==> forall|k: int|
            0 <= k < e.references.len() ==> word_ok(crate::po::file_part(#[trigger] e.references[k])),
    ensures
        refs_read(e, o) == (if refs_written(e, o) {
            refs_in_order(e.references, o)
        } else {
            Seq::<Seq<char>>::empty()
        }),
{
    if refs_written(e, o) {
        lemma_words_safe(e.references);
        if o.location_mode == LocationMode::File {
            assert forall|k: int| 0 <= k < e.references.len() implies ref_safe(
                crate::po::file_part(#[trigger] e.references[k]),
            ) by {
                lemma_word_safe(crate::po::file_part(e.references[k]));
            }
        }
        lemma_reference_lines(e.references, o);
    }
}

/// The flags written, which the reader gets back.
pub open spec fn flags_read(e: PoEntryView, o: PoOptionsView) -> Seq<Seq<char>> {
    if o.no_flags {
        seq![]
    } else {
        kept_flags(e.flags, o.no_flag)
    }
}

/// The entry the reader gets back: its comments trimmed, the references
/// and flags as written, all else as it is.
pub open spec fn read_view(e: PoEntryView, o: PoOptionsView) -> PoEntryView {
    PoEntryView {
        comments: comments_read(e.comments),
        references: refs_read(e, o),
        flags: flags_read(e, o),
        ..e
    }
}

/// The pieces of the plural translations from `i` on, as physical lines.
pub open spec fn msgstr_pieces(ms: Seq<Seq<char>>, i: int) -> Seq<Seq<Seq<char>>>
    decreases ms.len() - i,
{
    if i < 0 || i >= ms.len() {
        seq![]
    } else {
        seq![po_string_phys(msgstr_key(i), ms[i])] + msgstr_pieces(ms, i + 1)
    }
}

pub open spec fn ref_lines_of(e: PoEntryView, o: PoOptionsView) -> Seq<Seq<char>> {
    if refs_written(e, o) {
        reference_lines(e.references, o)
    } else {
        seq![]
    }
}

pub open spec fn flag_lines_of(e: PoEntryView, o: PoOptionsView) -> Seq<Seq<char>> {
    if flags_read(e, o).len() > 0 {
        seq![seq!['#', ',', ' '] + join_seq(flags_read(e, o), seq![',', ' '])]
    } else {
        seq![]
    }
}

pub open spec fn ctx_pieces(e: PoEntryView) -> Seq<Seq<Seq<char>>> {
    match e.msgctxt {
        Some(c) => seq![po_string_phys("msgctxt"@, c)],
        None => seq![],
    }
}

pub open spec fn tail_pieces(e: PoEntryView) -> Seq<Seq<Seq<char>>> {
    match e.msgid_plural {
        Some(p) => seq![po_string_phys("msgid_plural"@, p)] + msgstr_pieces(e.msgstr, 0),
        None => seq![po_string_phys("msgstr"@, e.msgstr[0])],
    }
}

/// An entry's text as pieces of physical lines.
pub open spec fn entry_pieces(e: PoEntryView, o: PoOptionsView) -> Seq<Seq<Seq<char>>> {
    singles(e.comments) + singles(ref_lines_of(e, o)) + singles(flag_lines_of(e, o)) + ctx_pieces(e)
        + seq![po_string_phys("msgid"@, e.msgid)] + tail_pieces(e)
}

proof fn lemma_joined_append(a: Seq<Seq<Seq<char>>>, b: Seq<Seq<Seq<char>>>)
    ensures
        joined_pieces(a + b) == joined_pieces(a) + joined_pieces(b),
{
    assert(joined_pieces(a + b) =~= joined_pieces(a) + joined_pieces(b));
}

pub proof fn lemma_msgstr_key(i: int)
    requires
        i >= 0,
    ensures
        msgstr_key(i).len() > 0,
        msgstr_key(i)[0] == 'm',
        no_newline(msgstr_key(i)),
        !is_ws(msgstr_key(i)[0]),
        index_of(msgstr_key(i), ']') == msgstr_key(i).len() - 1,
        has_prefix(msgstr_key(i), "msgstr["@),
{
    reveal_strlit("msgstr[");
    reveal_strlit("]");
    let d = decimal(i as nat);
    let k = msgstr_key(i);
    lemma_decimal_digits(i as nat);
    assert forall|j: int| 0 <= j < k.len() implies k[j] != '\n' && (j < k.len() - 1 ==> k[j] != ']') by {
        if 7 <= j < 7 + d.len() {
            assert(k[j] == d[j - 7]);
        }
    }
    assert(k[k.len() - 1] == ']');
    lemma_index_of_unique(k, ']', k.len() - 1);
    assert(k.take(7) =~= "msgstr["@);
    assert(('m' as u32) == 109);
}

pub proof fn lemma_decimal_digits(n: nat)
    ensures
        decimal(n).len() > 0,
        forall|j: int| 0 <= j < decimal(n).len() ==> '0' <= #[trigger] decimal(n)[j] <= '9',
    decreases n,
{
    if n >= 10 {
        lemma_decimal_digits(n / 10);
        let d = decimal(n / 10) + seq![crate::text::digit_char((n % 10) as int)];
        assert forall|j: int| 0 <= j < d.len() implies '0' <= #[trigger] d[j] <= '9' by {
            if j < decimal(n / 10).len() {
                assert(d[j] == decimal(n / 10)[j]);
            }
        }
    }
}


/// The flags kept are among the flags.
proof fn lemma_kept_flags_members(flags: Seq<Seq<char>>, no_flag: Seq<Seq<char>>)
    ensures
        forall|i: int|
            0 <= i < kept_flags(flags, no_flag).len() ==> flags.contains(
                #[trigger] kept_flags(flags, no_flag)[i],
            ),
    decreases flags.len(),
{
    if flags.len() > 0 {
        let d = flags.drop_last();
        lemma_kept_flags_members(d, no_flag);
        let k = kept_flags(d, no_flag);
        let r = kept_flags(flags, no_flag);
        assert forall|i: int| 0 <= i < r.len() implies flags.contains(#[trigger] r[i]) by {
            if i < k.len() {
                assert(r[i] == k[i]);
                assert(d.contains(k[i]));
                let j = choose|j: int| 0 <= j < d.len() && d[j] == k[i];
                assert(flags[j] == d[j]);
            } else {
                assert(r[i] == flags.last());
                assert(flags[flags.len() - 1] == flags.last());
            }
        }
    }
}

/// The flags written are flags the reader gets back.
proof fn lemma_flags_read_ok(e: PoEntryView, o: PoOptionsView)
    requires
        entry_readable(e, o),
    ensures
        forall|i: int| 0 <= i < flags_read(e, o).len() ==> flag_ok(#[trigger] flags_read(e, o)[i]),
{
    lemma_kept_flags_members(e.flags, o.no_flag);
    assert forall|i: int| 0 <= i < flags_read(e, o).len() implies flag_ok(
        #[trigger] flags_read(e, o)[i],
    ) by {
        let f = flags_read(e, o)[i];
        assert(e.flags.contains(f));
        let j = choose|j: int| 0 <= j < e.flags.len() && e.flags[j] == f;
        assert(flag_ok(e.flags[j]));
    }
}

proof fn lemma_msgstr_pieces(ms: Seq<Seq<char>>, i: int)
    requires
        0 <= i,
    ensures
        joined_pieces(msgstr_pieces(ms, i)) == msgstr_lines(ms, i),
        forall|j: int| 0 <= j < msgstr_pieces(ms, i).len() ==> (#[trigger] msgstr_pieces(ms, i)[j]).len()
            > 0,
        forall|j: int, k: int|
            0 <= j < msgstr_pieces(ms, i).len() && 0 <= k < msgstr_pieces(ms, i)[j].len() ==> phys_ok(
                #[trigger] msgstr_pieces(ms, i)[j][k],
            ),
    decreases ms.len() - i,
{
    if i < ms.len() {
        lemma_msgstr_pieces(ms, i + 1);
        lemma_msgstr_key(i);
        lemma_po_string_phys(msgstr_key(i), ms[i]);
        let ph = po_string_phys(msgstr_key(i), ms[i]);
        let rest = msgstr_pieces(ms, i + 1);
        let q = msgstr_pieces(ms, i);
        assert(q == seq![ph] + rest);
        lemma_joined_append(seq![ph], rest);
        assert(joined_pieces(seq![ph]) =~= seq![join_seq(ph, seq!['\n'])]);
        assert(msgstr_lines(ms, i) == seq![crate::po::format_po_string_spec(
            "msgstr["@ + decimal(i as nat) + "]"@,
            ms[i],
        )] + msgstr_lines(ms, i + 1));
        assert forall|j: int| 0 <= j < q.len() implies (#[trigger] q[j]).len() > 0 by {
            if j > 0 {
                assert(q[j] == rest[j - 1]);
            }
        }
        assert forall|j: int, k: int| 0 <= j < q.len() && 0 <= k < q[j].len() implies phys_ok(
            #[trigger] q[j][k],
        ) by {
            if j > 0 {
                assert(q[j] == rest[j - 1]);
            }
        }
    } else {
        assert(joined_pieces(Seq::<Seq<Seq<char>>>::empty()) =~= Seq::<Seq<char>>::empty());
    }
}

proof fn lemma_string_key(key: Seq<char>)
    requires
        key == "msgctxt"@ || key == "msgid"@ || key == "msgid_plural"@ || key == "msgstr"@,
    ensures
        key.len() > 0,
        key[0] == 'm',
        no_newline(key),
        !is_ws(key[0]),
{
    reveal_strlit("msgctxt");
    reveal_strlit("msgid");
    reveal_strlit("msgid_plural");
    reveal_strlit("msgstr");
    assert(('m' as u32) == 109);
}

/// The lines of a readable entry's text are its physical lines.
pub proof fn lemma_entry_lines(e: PoEntryView, o: PoOptionsView)
    requires
        entry_readable(e, o),
    ensures
        joined_pieces(entry_pieces(e, o)) == entry_lines(e, o),
        forall|i: int| 0 <= i < entry_pieces(e, o).len() ==> (#[trigger] entry_pieces(e, o)[i]).len() > 0,
        forall|i: int, j: int|
            0 <= i < entry_pieces(e, o).len() && 0 <= j < entry_pieces(e, o)[i].len() ==> phys_ok(
                #[trigger] entry_pieces(e, o)[i][j],
            ),
        !e.obsolete ==> format_entry_spec(e, o) == join_seq(
            flatten_lines(entry_pieces(e, o)),
            seq!['\n'],
        ),
        !e.obsolete ==> lines_of(format_entry_spec(e, o)) == flatten_lines(entry_pieces(e, o)),
        forall|k: int|
            0 <= k < flatten_lines(entry_pieces(e, o)).len() ==> phys_ok(
                #[trigger] flatten_lines(entry_pieces(e, o))[k],
            ),
{
    let qs = entry_pieces(e, o);
    lemma_string_key("msgctxt"@);
    lemma_string_key("msgid"@);
    lemma_string_key("msgid_plural"@);
    lemma_string_key("msgstr"@);
    lemma_flags_read_ok(e, o);
    lemma_po_string_phys("msgid"@, e.msgid);
    let idp = po_string_phys("msgid"@, e.msgid);
    let rl = ref_lines_of(e, o);
    let fl = flag_lines_of(e, o);
    if refs_written(e, o) {
        lemma_reference_lines(e.references, o);
    }
    if flags_read(e, o).len() > 0 {
        lemma_flags_line(flags_read(e, o));
    }
    let cq = ctx_pieces(e);
    let tq = tail_pieces(e);
    match e.msgctxt {
        Some(c) => {
            lemma_po_string_phys("msgctxt"@, c);
        },
        None => {},
    }
    lemma_msgstr_pieces(e.msgstr, 0);
    match e.msgid_plural {
        Some(p) => {
            lemma_po_string_phys("msgid_plural"@, p);
        },
        None => {
            lemma_po_string_phys("msgstr"@, e.msgstr[0]);
        },
    }
    lemma_flatten_singles(e.comments);
    lemma_flatten_singles(rl);
    lemma_flatten_singles(fl);
    lemma_joined_append(singles(e.comments), singles(rl));
    lemma_joined_append(singles(e.comments) + singles(rl), singles(fl));
    lemma_joined_append(singles(e.comments) + singles(rl) + singles(fl), cq);
    lemma_joined_append(singles(e.comments) + singles(rl) + singles(fl) + cq, seq![idp]);
    lemma_joined_append(singles(e.comments) + singles(rl) + singles(fl) + cq + seq![idp], tq);
    assert(joined_pieces(seq![idp]) =~= seq![join_seq(idp, seq!['\n'])]);
    assert(joined_pieces(cq) == (match e.msgctxt {
        Some(c) => seq![crate::po::format_po_string_spec("msgctxt"@, c)],
        None => Seq::<Seq<char>>::empty(),
    })) by {
        match e.msgctxt {
            Some(c) => {
                assert(joined_pieces(cq) =~= seq![join_seq(po_string_phys("msgctxt"@, c), seq!['\n'])]);
            },
            None => {
                assert(joined_pieces(cq) =~= Seq::<Seq<char>>::empty());
            },
        }
    }
    assert(joined_pieces(tq) == (match e.msgid_plural {
        Some(p) => seq![crate::po::format_po_string_spec("msgid_plural"@, p)] + msgstr_lines(
            e.msgstr,
            0,
        ),
        None => seq![crate::po::format_po_string_spec("msgstr"@, e.msgstr[0])],
    })) by {
        match e.msgid_plural {
            Some(p) => {
                let pp = po_string_phys("msgid_plural"@, p);
                lemma_joined_append(seq![pp], msgstr_pieces(e.msgstr, 0));
                assert(joined_pieces(seq![pp]) =~= seq![join_seq(pp, seq!['\n'])]);
            },
            None => {
                assert(joined_pieces(tq) =~= seq![join_seq(
                    po_string_phys("msgstr"@, e.msgstr[0]),
                    seq!['\n'],
                )]);
            },
        }
    }
    assert(joined_pieces(qs) == entry_lines(e, o));
    assert forall|i: int| 0 <= i < qs.len() implies (#[trigger] qs[i]).len() > 0 by {
        let a = singles(e.comments) + singles(rl) + singles(fl) + cq + seq![idp];
        if i < singles(e.comments).len() {
        } else if i < singles(e.comments).len() + singles(rl).len() {
        } else if i < singles(e.comments).len() + singles(rl).len() + singles(fl).len() {
        } else if i < a.len() {
        } else {
            assert(qs[i] == tq[i - a.len()]);
            match e.msgid_plural {
                Some(p) => {
                    if i - a.len() > 0 {
                        assert(tq[i - a.len()] == msgstr_pieces(e.msgstr, 0)[i - a.len() - 1]);
                    }
                },
                None => {},
            }
        }
    }
    lemma_join_flatten(qs);
    assert forall|i: int, j: int| 0 <= i < qs.len() && 0 <= j < qs[i].len() implies phys_ok(
        #[trigger] qs[i][j],
    ) by {
        let a = singles(e.comments) + singles(rl) + singles(fl) + cq + seq![idp];
        let n1 = singles(e.comments).len();
        let n2 = n1 + singles(rl).len();
        let n3 = n2 + singles(fl).len();
        if i < n1 {
            assert(qs[i] == seq![e.comments[i]]);
            assert(comment_safe(e.comments[i]));
        } else if i < n2 {
            assert(qs[i] == seq![rl[i - n1]]);
            assert(ref_line_ok(rl[i - n1]));
        } else if i < n3 {
            assert(qs[i] == seq![fl[i - n2]]);
        } else if i < a.len() - 1 {
            assert(qs[i] == cq[i - n3]);
        } else if i == a.len() - 1 {
            assert(qs[i] == idp);
        } else {
            assert(qs[i] == tq[i - a.len()]);
            match e.msgid_plural {
                Some(p) => {
                    if i - a.len() > 0 {
                        assert(tq[i - a.len()] == msgstr_pieces(e.msgstr, 0)[i - a.len() - 1]);
                    }
                },
                None => {},
            }
        }
    }
    lemma_flatten_phys(qs);
    lemma_lines_of_join(flatten_lines(qs));
}

/// A line as the writer makes it, which the reader neither unwraps nor skips:
/// trimmed, and starting with a keyword, a quote, or a `#.`, `#:` or `#,`
/// marker.
pub open spec fn plain(l: Seq<char>) -> bool {
    &&& l.len() > 0
    &&& (l[0] == 'm' || l[0] == '"' || (l.len() >= 2 && l[0] == '#' && (l[1] == '.' || l[1] == ':'
        || l[1] == ',')))
}

/// Every line is plain.
pub open spec fn all_plain(ls: Seq<Seq<char>>) -> bool {
    forall|t: int| 0 <= t < ls.len() ==> plain(#[trigger] ls[t])
}

/// The next line, if any, starts with a keyword.
pub open spec fn keyword_next(rest: Seq<Seq<char>>) -> bool {
    rest.len() > 0 ==> (trim_seq(rest[0]) == rest[0] && rest[0].len() > 0 && rest[0][0] == 'm')
}

/// The next line, if any, does not continue a quoted string.
pub open spec fn no_quote_next(rest: Seq<Seq<char>>) -> bool {
    rest.len() > 0 ==> !has_prefix(trim_seq(rest[0]), seq!['"'])
}

/// The next line, if any, is blank.
pub open spec fn blank_next(rest: Seq<Seq<char>>) -> bool {
    rest.len() > 0 ==> rest[0].len() == 0
}

/// What follows `a` and then `b`: a keyword line when `a` has one, else what
/// follows `b`.
pub proof fn lemma_next_after(a: Seq<Seq<char>>, b: Seq<Seq<char>>)
    requires
        keyword_next(a),
        a.len() == 0 ==> (blank_next(b) || keyword_next(b)),
    ensures
        no_quote_next(a + b),
        a.len() > 0 ==> keyword_next(a + b),
        a.len() == 0 ==> (blank_next(a + b) || keyword_next(a + b)),
{
    assert(('m' as u32) == 109);
    if a.len() > 0 {
        assert((a + b)[0] == a[0]);
        if has_prefix(a[0], seq!['"']) {
            lemma_prefix_char(a[0], seq!['"'], 0);
        }
    } else {
        assert(a + b =~= b);
        if b.len() > 0 {
            if blank_next(b) {
                assert(trim_seq(b[0]) =~= Seq::<char>::empty()) by {
                    assert(trim_start_seq(b[0]) == b[0]);
                }
            } else if has_prefix(trim_seq(b[0]), seq!['"']) {
                lemma_prefix_char(b[0], seq!['"'], 0);
            }
        }
    }
}

/// A text with a prefix holds the prefix's characters at its start.
pub proof fn lemma_prefix_char(s: Seq<char>, p: Seq<char>, i: int)
    requires
        has_prefix(s, p),
        0 <= i < p.len(),
    ensures
        s[i] == p[i],
{
    assert(s.take(p.len() as int)[i] == s[i]);
}

/// A plain line is read as it is, and not skipped.
pub proof fn lemma_plain_unwrap(l: Seq<char>)
    requires
        plain(l),
    ensures
        unwrap_line(l) == (false, l),
        !crate::catalog::is_skipped(trim_seq(l)),
{
    assert(('m' as u32) == 109 && ('"' as u32) == 34 && ('#' as u32) == 35);
    assert(('.' as u32) == 46 && (':' as u32) == 58 && (',' as u32) == 44);
    assert(!is_ws(l[0]));
    assert(trim_start_seq(l) == l);
    let hd = if l[0] == '#' {
        l.take(2)
    } else {
        l.take(1)
    };
    assert forall|k: int| 0 <= k < hd.len() implies !is_ws(#[trigger] hd[k]) by {
        assert(hd[k] == l[k]);
    }
    crate::text::lemma_trim_keeps_prefix(l, hd);
    let t = trim_seq(l);
    assert(t[0] == hd[0]);
    if l[0] == '#' {
        assert(t[1] == hd[1]);
        assert(t.take(2) =~= l.take(2));
    }
    if has_prefix(t, seq!['#']) {
        lemma_prefix_char(t, seq!['#'], 0);
    }
    if has_prefix(l, seq!['#', '~']) {
        lemma_prefix_char(l, seq!['#', '~'], 0);
        lemma_prefix_char(l, seq!['#', '~'], 1);
    }
    if l[0] == '#' {
        if l[1] == '.' {
            assert(l.take(2) =~= seq!['#', '.']);
        } else if l[1] == ':' {
            assert(l.take(2) =~= seq!['#', ':']);
        } else {
            assert(l.take(2) =~= seq!['#', ',']);
        }
    } else {
        if has_prefix(l, seq!['#']) {
            lemma_prefix_char(l, seq!['#'], 0);
        }
    }
}

pub proof fn lemma_all_plain_append(a: Seq<Seq<char>>, b: Seq<Seq<char>>)
    requires
        all_plain(a),
        all_plain(b),
    ensures
        all_plain(a + b),
{
    assert forall|t: int| 0 <= t < (a + b).len() implies plain(#[trigger] (a + b)[t]) by {
        if t < a.len() {
            assert((a + b)[t] == a[t]);
        } else {
            assert((a + b)[t] == b[t - a.len()]);
        }
    }
}

/// Where `x` stands at `k` in `ls`, followed by `rest`.
pub proof fn lemma_at(ls: Seq<Seq<char>>, k: int, x: Seq<Seq<char>>, rest: Seq<Seq<char>>)
    requires
        0 <= k <= ls.len(),
        ls.skip(k) == x + rest,
    ensures
        k + x.len() + rest.len() == ls.len(),
        forall|j: int| 0 <= j < x.len() ==> ls[k + j] == #[trigger] x[j],
        ls.skip(k + x.len()) == rest,
        rest.len() > 0 ==> ls[k + x.len()] == rest[0],
{
    assert(ls.skip(k).len() == ls.len() - k);
    assert((x + rest).len() == x.len() + rest.len());
    assert forall|j: int| 0 <= j < x.len() implies ls[k + j] == #[trigger] x[j] by {
        assert(ls.skip(k)[j] == ls[k + j]);
        assert((x + rest)[j] == x[j]);
    }
    assert forall|t: int| 0 <= t < rest.len() implies ls.skip(k + x.len())[t] == rest[t] by {
        assert(ls.skip(k)[x.len() + t] == ls[k + x.len() + t]);
        assert((x + rest)[x.len() + t] == rest[t]);
    }
    assert(ls.skip(k + x.len()) =~= rest);
}

proof fn lemma_comment_plain(cs: Seq<Seq<char>>)
    requires
        forall|i: int| 0 <= i < cs.len() ==> comment_safe(#[trigger] cs[i]),
    ensures
        all_plain(cs),
{
    assert forall|t: int| 0 <= t < cs.len() implies plain(#[trigger] cs[t]) by {
        assert(comment_safe(cs[t]));
        lemma_prefix_char(cs[t], seq!['#', '.'], 0);
        lemma_prefix_char(cs[t], seq!['#', '.'], 1);
    }
}

proof fn lemma_ref_plain(rs: Seq<Seq<char>>)
    requires
        all_ref_lines_ok(rs),
    ensures
        all_plain(rs),
{
    assert forall|t: int| 0 <= t < rs.len() implies plain(#[trigger] rs[t]) by {
        assert(ref_line_ok(rs[t]));
        lemma_prefix_char(rs[t], seq!['#', ':'], 0);
        lemma_prefix_char(rs[t], seq!['#', ':'], 1);
    }
}

/// `#.` lines from `j` on are taken as comments, one by one, trimmed.
pub proof fn lemma_read_comment_block(
    ls: Seq<Seq<char>>,
    j: int,
    cs: Seq<Seq<char>>,
    comments: Seq<Seq<char>>,
    refs: Seq<Seq<char>>,
    flags: Seq<Seq<char>>,
)
    requires
        0 <= j,
        j + cs.len() <= ls.len(),
        forall|t: int| 0 <= t < cs.len() ==> ls[j + t] == #[trigger] cs[t],
        forall|i: int| 0 <= i < cs.len() ==> comment_safe(#[trigger] cs[i]),
    ensures
        read_comments(ls, j, comments, refs, flags) == read_comments(
            ls,
            j + cs.len(),
            comments + comments_read(cs),
            refs,
            flags,
        ),
    decreases cs.len(),
{
    if cs.len() == 0 {
        assert(comments + comments_read(cs) =~= comments);
    } else {
        assert(ls[j + 0] == cs[0]);
        assert(comment_safe(cs[0]));
        assert(('#' as u32) == 35);
        assert(('.' as u32) == 46);
        let hd = seq!['#', '.'];
        assert forall|k: int| 0 <= k < 2 implies !is_ws(#[trigger] hd[k]) by {}
        crate::text::lemma_trim_keeps_prefix(cs[0], hd);
        let rest = cs.drop_first();
        assert forall|t: int| 0 <= t < rest.len() implies ls[(j + 1) + t] == #[trigger] rest[t] by {
            assert(ls[j + (t + 1)] == cs[t + 1]);
        }
        assert forall|i: int| 0 <= i < rest.len() implies comment_safe(#[trigger] rest[i]) by {
            assert(rest[i] == cs[i + 1]);
        }
        lemma_read_comment_block(ls, j + 1, rest, comments.push(trim_seq(cs[0])), refs, flags);
        assert(comments.push(trim_seq(cs[0])) + comments_read(rest) =~= comments + comments_read(cs));
    }
}

/// `#:` lines from `j` on add their words to the references.
pub proof fn lemma_read_ref_block(
    ls: Seq<Seq<char>>,
    j: int,
    rs: Seq<Seq<char>>,
    comments: Seq<Seq<char>>,
    refs: Seq<Seq<char>>,
    flags: Seq<Seq<char>>,
)
    requires
        0 <= j,
        j + rs.len() <= ls.len(),
        forall|t: int| 0 <= t < rs.len() ==> ls[j + t] == #[trigger] rs[t],
        all_ref_lines_ok(rs),
    ensures
        read_comments(ls, j, comments, refs, flags) == read_comments(
            ls,
            j + rs.len(),
            comments,
            refs + ref_words(rs),
            flags,
        ),
    decreases rs.len(),
{
    if rs.len() == 0 {
        assert(refs + ref_words(rs) =~= refs);
    } else {
        assert(ls[j + 0] == rs[0]);
        let l = rs[0];
        assert(ref_line_ok(l));
        lemma_prefix_char(l, seq!['#', ':'], 1);
        if has_prefix(l, seq!['#', '.']) {
            lemma_prefix_char(l, seq!['#', '.'], 1);
        }
        let rest = rs.drop_first();
        assert forall|t: int| 0 <= t < rest.len() implies ls[(j + 1) + t] == #[trigger] rest[t] by {
            assert(ls[j + (t + 1)] == rs[t + 1]);
        }
        assert forall|i: int| 0 <= i < rest.len() implies ref_line_ok(#[trigger] rest[i]) by {
            assert(rest[i] == rs[i + 1]);
        }
        let w = words_of(trim_seq(l.skip(2)));
        lemma_read_ref_block(ls, j + 1, rest, comments, refs + w, flags);
        lemma_ref_words_cons(l, rest);
        assert(seq![l] + rest =~= rs);
        assert(refs + w + ref_words(rest) =~= refs + ref_words(rs));
    }
}

/// Reading comments stops at a line that starts with a keyword.
pub proof fn lemma_read_comments_stop(
    ls: Seq<Seq<char>>,
    j: int,
    comments: Seq<Seq<char>>,
    refs: Seq<Seq<char>>,
    flags: Seq<Seq<char>>,
)
    requires
        0 <= j <= ls.len(),
        keyword_next(ls.skip(j)),
    ensures
        read_comments(ls, j, comments, refs, flags) == (comments, refs, flags, j),
{
    if j < ls.len() {
        assert(ls.skip(j)[0] == ls[j]);
        let l = trim_seq(ls[j]);
        assert(l == ls[j]);
        assert(l[0] == 'm');
        if has_prefix(l, seq!['#', '.']) {
            lemma_prefix_char(l, seq!['#', '.'], 0);
        }
        if has_prefix(l, seq!['#', ':']) {
            lemma_prefix_char(l, seq!['#', ':'], 0);
        }
        if has_prefix(l, seq!['#', ',']) {
            lemma_prefix_char(l, seq!['#', ','], 0);
        }
        if has_prefix(l, seq!['#', '|']) {
            lemma_prefix_char(l, seq!['#', '|'], 0);
        }
        if has_prefix(l, seq!['#', ' ']) {
            lemma_prefix_char(l, seq!['#', ' '], 0);
        }
        if l == seq!['#'] {
            assert(l[0] == '#');
        }
    }
}

/// The lines of a PO string are plain, and the first starts with the keyword.
pub proof fn lemma_phys_plain(key: Seq<char>, v: Seq<char>)
    requires
        key.len() > 0,
        no_newline(key),
        key[0] == 'm',
    ensures
        all_plain(po_string_phys(key, v)),
        keyword_next(po_string_phys(key, v)),
        po_string_phys(key, v).len() > 0,
{
    assert(('m' as u32) == 109);
    lemma_po_string_phys(key, v);
    let ph = po_string_phys(key, v);
    lemma_prefix_char(ph[0], key + seq![' ', '"'], 0);
    assert forall|t: int| 0 <= t < ph.len() implies plain(#[trigger] ph[t]) by {
        assert(phys_ok(ph[t]));
        if t > 0 {
            assert(ph[t][0] == '"');
        }
    }
}

/// A PO string at `k`, followed by `rest`, reads back as its value.
pub proof fn lemma_read_string_at(
    ls: Seq<Seq<char>>,
    k: int,
    key: Seq<char>,
    v: Seq<char>,
    rest: Seq<Seq<char>>,
)
    requires
        key.len() > 0,
        no_newline(key),
        key[0] == 'm',
        0 <= k <= ls.len(),
        ls.skip(k) == po_string_phys(key, v) + rest,
        no_quote_next(rest),
    ensures
        k < ls.len(),
        trim_seq(ls[k]) == po_string_phys(key, v)[0],
        has_prefix(trim_seq(ls[k]), key + seq![' ', '"']),
        trim_seq(ls[k]).len() >= key.len() + 2,
        trim_seq(ls[k]).last() == '"',
        continuation(ls, k + 1, trim_seq(ls[k]).skip(key.len() as int + 1)) == (
            format_po_string_spec(key, v).skip(key.len() as int + 1),
            k + po_string_phys(key, v).len(),
        ),
        parse_po_string_spec(format_po_string_spec(key, v).skip(key.len() as int + 1)) == v,
        ls.skip(k + po_string_phys(key, v).len()) == rest,
        k + po_string_phys(key, v).len() + rest.len() == ls.len(),
{
    lemma_po_string_phys(key, v);
    let ph = po_string_phys(key, v);
    lemma_at(ls, k, ph, rest);
    if k + ph.len() < ls.len() {
        assert(ls[k + ph.len()] == rest[0]);
    }
    lemma_read_po_string(ls, k, key, v);
    assert(ls[k + 0] == ph[0]);
}

/// The lines of the plural translations from `i` on: the first piece's
/// lines, then the rest.
proof fn lemma_msgstr_flat(ms: Seq<Seq<char>>, i: int)
    requires
        0 <= i < ms.len(),
    ensures
        flatten_lines(msgstr_pieces(ms, i)) == po_string_phys(msgstr_key(i), ms[i]) + flatten_lines(
            msgstr_pieces(ms, i + 1),
        ),
{
    let q = msgstr_pieces(ms, i);
    assert(q[0] == po_string_phys(msgstr_key(i), ms[i]));
    assert(q.drop_first() =~= msgstr_pieces(ms, i + 1));
}

/// The lines of the plural translations are plain and open with a keyword.
proof fn lemma_msgstr_plain(ms: Seq<Seq<char>>, i: int)
    requires
        0 <= i,
    ensures
        all_plain(flatten_lines(msgstr_pieces(ms, i))),
        keyword_next(flatten_lines(msgstr_pieces(ms, i))),
        i < ms.len() ==> flatten_lines(msgstr_pieces(ms, i)).len() > 0,
    decreases ms.len() - i,
{
    if i < ms.len() {
        lemma_msgstr_flat(ms, i);
        lemma_msgstr_plain(ms, i + 1);
        lemma_msgstr_key(i);
        lemma_phys_plain(msgstr_key(i), ms[i]);
        let ph = po_string_phys(msgstr_key(i), ms[i]);
        lemma_all_plain_append(ph, flatten_lines(msgstr_pieces(ms, i + 1)));
        assert((ph + flatten_lines(msgstr_pieces(ms, i + 1)))[0] == ph[0]);
    } else {
        assert(flatten_lines(msgstr_pieces(ms, i)) == Seq::<Seq<char>>::empty());
    }
}

/// The plural translations written from `k` on are read back, up to the
/// blank line or the end that follows them.
proof fn lemma_read_msgstr_pieces(
    ls: Seq<Seq<char>>,
    k: int,
    ms: Seq<Seq<char>>,
    i: int,
    acc: Seq<Seq<char>>,
    rest: Seq<Seq<char>>,
)
    requires
        0 <= i <= ms.len(),
        0 <= k <= ls.len(),
        ls.skip(k) == flatten_lines(msgstr_pieces(ms, i)) + rest,
        blank_next(rest),
    ensures
        read_msgstrs(ls, k, acc) == (acc + ms.subrange(i, ms.len() as int), ls.len() - rest.len()),
    decreases ms.len() - i,
{
    if i == ms.len() {
        assert(flatten_lines(msgstr_pieces(ms, i)) == Seq::<Seq<char>>::empty());
        assert(ls.skip(k).len() == ls.len() - k);
        assert(ls.skip(k) =~= rest);
        assert(acc + ms.subrange(i, ms.len() as int) =~= acc);
        reveal_strlit("msgstr");
        if k < ls.len() {
            assert(ls[k] == ls.skip(k)[0]);
            assert(trim_seq(ls[k]) =~= Seq::<char>::empty()) by {
                assert(trim_start_seq(ls[k]) == ls[k]);
            }
        }
    } else {
        let key = msgstr_key(i);
        lemma_msgstr_key(i);
        lemma_msgstr_flat(ms, i);
        lemma_msgstr_plain(ms, i + 1);
        let ph = po_string_phys(key, ms[i]);
        let more = flatten_lines(msgstr_pieces(ms, i + 1));
        lemma_next_after(more, rest);
        assert(ls.skip(k) =~= ph + (more + rest));
        lemma_read_string_at(ls, k, key, ms[i], more + rest);
        let t = trim_seq(ls[k]);
        reveal_strlit("msgstr");
        reveal_strlit("msgstr[");
        assert(has_prefix(t, "msgstr"@)) by {
            assert forall|c: int| 0 <= c < 6 implies t[c] == "msgstr"@[c] by {
                lemma_prefix_char(t, key + seq![' ', '"'], c);
                lemma_prefix_char(key, "msgstr["@, c);
            }
            assert(t.take(6) =~= "msgstr"@);
        }
        assert(has_prefix(t, "msgstr["@)) by {
            assert forall|c: int| 0 <= c < 7 implies t[c] == "msgstr["@[c] by {
                lemma_prefix_char(t, key + seq![' ', '"'], c);
                lemma_prefix_char(key, "msgstr["@, c);
            }
            assert(t.take(7) =~= "msgstr["@);
        }
        assert forall|c: int| 0 <= c < key.len() implies t[c] == key[c] by {
            lemma_prefix_char(t, key + seq![' ', '"'], c);
        }
        lemma_index_of(key, ']');
        lemma_index_of_unique(t, ']', key.len() - 1);
        lemma_prefix_char(t, key + seq![' ', '"'], key.len() as int);
        lemma_prefix_char(t, key + seq![' ', '"'], key.len() as int + 1);
        let after = t.skip(key.len() as int + 1);
        assert(t.skip(key.len() as int) =~= seq![' '] + after);
        assert(is_ws(' '));
        assert(trim_start_seq(seq![' '] + after) == trim_start_seq((seq![' '] + after).drop_first()));
        assert((seq![' '] + after).drop_first() =~= after);
        assert(('"' as u32) == 34);
        assert(after[0] == '"');
        assert(after.last() == t.last());
        lemma_trim_noop(after);
        assert(after_bracket(t) == after);
        assert(msgstr_head(t) == after);
        let k2 = k + ph.len();
        lemma_read_msgstr_pieces(ls, k2, ms, i + 1, acc.push(ms[i]), rest);
        assert(acc.push(ms[i]) + ms.subrange(i + 1, ms.len() as int) =~= acc + ms.subrange(
            i,
            ms.len() as int,
        ));
    }
}

pub open spec fn ctx_lines(e: PoEntryView) -> Seq<Seq<char>> {
    flatten_lines(ctx_pieces(e))
}

pub open spec fn tail_lines(e: PoEntryView) -> Seq<Seq<char>> {
    flatten_lines(tail_pieces(e))
}

proof fn lemma_flatten_one(x: Seq<Seq<char>>)
    ensures
        flatten_lines(seq![x]) == x,
{
    assert(seq![x].drop_first() =~= Seq::<Seq<Seq<char>>>::empty());
    assert(flatten_lines(seq![x].drop_first()) == Seq::<Seq<char>>::empty());
    assert(x + Seq::<Seq<char>>::empty() =~= x);
}

/// The lines of a readable entry, segment by segment, all plain.
proof fn lemma_entry_segments(e: PoEntryView, o: PoOptionsView)
    requires
        entry_readable(e, o),
    ensures
        flatten_lines(entry_pieces(e, o)) == e.comments + ref_lines_of(e, o) + flag_lines_of(e, o)
            + ctx_lines(e) + po_string_phys("msgid"@, e.msgid) + tail_lines(e),
        all_plain(flatten_lines(entry_pieces(e, o))),
        ctx_lines(e) == (match e.msgctxt {
            Some(c) => po_string_phys("msgctxt"@, c),
            None => Seq::<Seq<char>>::empty(),
        }),
        tail_lines(e) == (match e.msgid_plural {
            Some(p) => po_string_phys("msgid_plural"@, p) + flatten_lines(msgstr_pieces(e.msgstr, 0)),
            None => po_string_phys("msgstr"@, e.msgstr[0]),
        }),
        all_ref_lines_ok(ref_lines_of(e, o)),
        ref_words(ref_lines_of(e, o)) == refs_read(e, o),
        keyword_next(tail_lines(e)),
        tail_lines(e).len() > 0,
{
    let c1 = singles(e.comments);
    let c2 = singles(ref_lines_of(e, o));
    let c3 = singles(flag_lines_of(e, o));
    let cq = ctx_pieces(e);
    let idp = po_string_phys("msgid"@, e.msgid);
    let tq = tail_pieces(e);
    lemma_flatten_append(c1, c2);
    lemma_flatten_append(c1 + c2, c3);
    lemma_flatten_append(c1 + c2 + c3, cq);
    lemma_flatten_append(c1 + c2 + c3 + cq, seq![idp]);
    lemma_flatten_append(c1 + c2 + c3 + cq + seq![idp], tq);
    lemma_flatten_singles(e.comments);
    lemma_flatten_singles(ref_lines_of(e, o));
    lemma_flatten_singles(flag_lines_of(e, o));
    lemma_flatten_one(idp);
    lemma_string_key("msgctxt"@);
    lemma_string_key("msgid"@);
    lemma_string_key("msgid_plural"@);
    lemma_string_key("msgstr"@);
    match e.msgctxt {
        Some(c) => {
            lemma_flatten_one(po_string_phys("msgctxt"@, c));
            lemma_phys_plain("msgctxt"@, c);
        },
        None => {
            assert(flatten_lines(cq) =~= Seq::<Seq<char>>::empty());
        },
    }
    match e.msgid_plural {
        Some(p) => {
            let pp = po_string_phys("msgid_plural"@, p);
            lemma_flatten_append(seq![pp], msgstr_pieces(e.msgstr, 0));
            lemma_flatten_one(pp);
            lemma_phys_plain("msgid_plural"@, p);
            lemma_msgstr_plain(e.msgstr, 0);
            lemma_all_plain_append(pp, flatten_lines(msgstr_pieces(e.msgstr, 0)));
            assert((pp + flatten_lines(msgstr_pieces(e.msgstr, 0)))[0] == pp[0]);
        },
        None => {
            let mp = po_string_phys("msgstr"@, e.msgstr[0]);
            lemma_flatten_one(mp);
            lemma_phys_plain("msgstr"@, e.msgstr[0]);
        },
    }
    lemma_phys_plain("msgid"@, e.msgid);
    lemma_comment_plain(e.comments);
    if refs_written(e, o) {
        lemma_reference_lines(e.references, o);
    } else {
        assert(ref_words(ref_lines_of(e, o)) =~= refs_read(e, o));
    }
    lemma_ref_plain(ref_lines_of(e, o));
    lemma_flags_read_ok(e, o);
    if flags_read(e, o).len() > 0 {
        lemma_flags_line(flags_read(e, o));
        let l = flag_lines_of(e, o)[0];
        lemma_prefix_char(l, seq!['#', ','], 0);
        lemma_prefix_char(l, seq!['#', ','], 1);
    }
    assert(all_plain(flag_lines_of(e, o)));
    let f = flatten_lines(entry_pieces(e, o));
    lemma_all_plain_append(e.comments, ref_lines_of(e, o));
    lemma_all_plain_append(e.comments + ref_lines_of(e, o), flag_lines_of(e, o));
    lemma_all_plain_append(e.comments + ref_lines_of(e, o) + flag_lines_of(e, o), ctx_lines(e));
    lemma_all_plain_append(
        e.comments + ref_lines_of(e, o) + flag_lines_of(e, o) + ctx_lines(e),
        idp,
    );
    lemma_all_plain_append(
        e.comments + ref_lines_of(e, o) + flag_lines_of(e, o) + ctx_lines(e) + idp,
        tail_lines(e),
    );
}

/// The plural form and the translations, read from where they are written
/// up to the blank line or the end that follows them.
proof fn lemma_read_tail(ls: Seq<Seq<char>>, k2: int, e: PoEntryView, rest: Seq<Seq<char>>)
    requires
        0 <= k2 <= ls.len(),
        ls.skip(k2) == tail_lines(e) + rest,
        blank_next(rest),
        tail_lines(e) == (match e.msgid_plural {
            Some(p) => po_string_phys("msgid_plural"@, p) + flatten_lines(msgstr_pieces(e.msgstr, 0)),
            None => po_string_phys("msgstr"@, e.msgstr[0]),
        }),
        if e.msgid_plural is Some {
            e.msgstr.len() >= 1
        } else {
            e.msgstr.len() == 1
        },
    ensures
        ({
            let (plural, k3) = if 0 <= k2 < ls.len() && has_prefix(
                trim_seq(ls[k2]),
                "msgid_plural "@,
            ) {
                let (r, k3) = continuation(ls, k2 + 1, trim_seq(ls[k2]).skip(13));
                (Some(parse_po_string_spec(r)), k3)
            } else {
                (None, k2)
            };
            let (ms, k4) = read_msgstrs(ls, k3, seq![]);
            &&& plural == e.msgid_plural
            &&& ms == e.msgstr
            &&& k4 == ls.len() - rest.len()
        }),
{
    lemma_string_key("msgid_plural"@);
    lemma_string_key("msgstr"@);
    reveal_strlit("msgid_plural");
    reveal_strlit("msgid_plural ");
    reveal_strlit("msgstr");
    reveal_strlit("msgstr ");
    reveal_strlit("msgstr[");
    match e.msgid_plural {
        Some(p) => {
            let key = "msgid_plural"@;
            let m = flatten_lines(msgstr_pieces(e.msgstr, 0));
            lemma_msgstr_plain(e.msgstr, 0);
            lemma_next_after(m, rest);
            assert(ls.skip(k2) =~= po_string_phys(key, p) + (m + rest));
            lemma_read_string_at(ls, k2, key, p, m + rest);
            let t = trim_seq(ls[k2]);
            assert(t.take(13) =~= "msgid_plural "@) by {
                assert forall|c: int| 0 <= c < 13 implies t[c] == "msgid_plural "@[c] by {
                    lemma_prefix_char(t, key + seq![' ', '"'], c);
                }
            }
            let k3 = k2 + po_string_phys(key, p).len();
            lemma_read_msgstr_pieces(ls, k3, e.msgstr, 0, seq![], rest);
            assert(Seq::<Seq<char>>::empty() + e.msgstr.subrange(0, e.msgstr.len() as int)
                =~= e.msgstr);
        },
        None => {
            let key = "msgstr"@;
            let m0 = e.msgstr[0];
            lemma_next_after(Seq::<Seq<char>>::empty(), rest);
            assert(Seq::<Seq<char>>::empty() + rest =~= rest);
            lemma_read_string_at(ls, k2, key, m0, rest);
            let t = trim_seq(ls[k2]);
            if has_prefix(t, "msgid_plural "@) {
                lemma_prefix_char(t, "msgid_plural "@, 4);
                lemma_prefix_char(t, key + seq![' ', '"'], 4);
            }
            assert(t.take(6) =~= "msgstr"@) by {
                assert forall|c: int| 0 <= c < 6 implies t[c] == "msgstr"@[c] by {
                    lemma_prefix_char(t, key + seq![' ', '"'], c);
                }
            }
            assert(t.take(7) =~= "msgstr "@) by {
                assert forall|c: int| 0 <= c < 7 implies t[c] == "msgstr "@[c] by {
                    lemma_prefix_char(t, key + seq![' ', '"'], c);
                }
            }
            if has_prefix(t, "msgstr["@) {
                lemma_prefix_char(t, "msgstr["@, 6);
                lemma_prefix_char(t, key + seq![' ', '"'], 6);
            }
            assert(msgstr_head(t) == t.skip(7));
            let k4 = k2 + po_string_phys(key, m0).len();
            assert(k4 == ls.len() - rest.len());
            if k4 < ls.len() {
                assert(ls[k4] == rest[0]);
                if has_prefix(trim_seq(ls[k4]), "msgstr"@) {
                    assert(trim_start_seq(ls[k4]) == ls[k4]);
                }
            }
            assert(read_msgstrs(ls, k4, seq![m0]) == (seq![m0], k4));
            assert(read_msgstrs(ls, k2, seq![]) == read_msgstrs(ls, k4, seq![].push(m0)));
            assert(seq![m0] =~= e.msgstr);
            assert(Seq::<Seq<char>>::empty().push(m0) =~= seq![m0]);
        },
    }
}

/// The comment lines, read from where the entry starts up to its context or
/// its msgid.
proof fn lemma_read_comment_lines(
    ls: Seq<Seq<char>>,
    p: int,
    e: PoEntryView,
    o: PoOptionsView,
    rest: Seq<Seq<char>>,
)
    requires
        entry_readable(e, o),
        0 <= p <= ls.len(),
        ls.skip(p) == flatten_lines(entry_pieces(e, o)) + rest,
    ensures
        ({
            let j = p + e.comments.len() + ref_lines_of(e, o).len() + flag_lines_of(e, o).len();
            &&& read_comments(ls, p, seq![], seq![], seq![]) == (
                comments_read(e.comments),
                refs_read(e, o),
                flags_read(e, o),
                j,
            )
            &&& 0 <= j <= ls.len()
            &&& ls.skip(j) == ctx_lines(e) + po_string_phys("msgid"@, e.msgid) + (tail_lines(e) + rest)
        }),
{
    lemma_entry_segments(e, o);
    lemma_string_key("msgctxt"@);
    lemma_string_key("msgid"@);
    let cs = e.comments;
    let rl = ref_lines_of(e, o);
    let fl = flag_lines_of(e, o);
    let x = ctx_lines(e);
    let idp = po_string_phys("msgid"@, e.msgid);
    let tl = tail_lines(e) + rest;
    let e0 = Seq::<Seq<char>>::empty();
    lemma_phys_plain("msgid"@, e.msgid);
    assert(ls.skip(p) =~= cs + (rl + fl + x + idp + tl));
    lemma_at(ls, p, cs, rl + fl + x + idp + tl);
    lemma_read_comment_block(ls, p, cs, e0, e0, e0);
    let tc = comments_read(cs);
    assert(e0 + tc =~= tc);
    let n1 = p + cs.len();
    assert(ls.skip(n1) =~= rl + (fl + x + idp + tl));
    lemma_at(ls, n1, rl, fl + x + idp + tl);
    lemma_read_ref_block(ls, n1, rl, tc, e0, e0);
    assert(e0 + ref_words(rl) =~= refs_read(e, o));
    let n2 = n1 + rl.len();
    assert(ls.skip(n2) =~= fl + (x + idp + tl));
    lemma_at(ls, n2, fl, x + idp + tl);
    let j = n2 + fl.len();
    let after = x + idp + tl;
    assert(keyword_next(after)) by {
        match e.msgctxt {
            Some(c) => {
                lemma_phys_plain("msgctxt"@, c);
                assert(after[0] == x[0]);
            },
            None => {
                assert(after[0] == idp[0]);
            },
        }
    }
    let rr = refs_read(e, o);
    let fr = flags_read(e, o);
    lemma_read_comments_stop(ls, j, tc, rr, fr);
    lemma_flags_read_ok(e, o);
    if fr.len() > 0 {
        lemma_flags_line(fr);
        let l = fl[0];
        assert(ls[n2 + 0] == l);
        assert(trim_seq(ls[n2]) == l);
        lemma_prefix_char(l, seq!['#', ','], 1);
        if has_prefix(l, seq!['#', '.']) {
            lemma_prefix_char(l, seq!['#', '.'], 1);
        }
        if has_prefix(l, seq!['#', ':']) {
            lemma_prefix_char(l, seq!['#', ':'], 1);
        }
        assert(e0 + fr =~= fr);
        assert(read_comments(ls, n2, tc, rr, e0) == read_comments(ls, n2 + 1, tc, rr, e0 + fr));
    } else {
        assert(fl.len() == 0);
        assert(e0 =~= fr);
    }
}

/// The context, if any, read where the comment lines end.
proof fn lemma_read_ctx(ls: Seq<Seq<char>>, j: int, e: PoEntryView, tl: Seq<Seq<char>>)
    requires
        0 <= j <= ls.len(),
        ls.skip(j) == ctx_lines(e) + po_string_phys("msgid"@, e.msgid) + tl,
        ctx_lines(e) == (match e.msgctxt {
            Some(c) => po_string_phys("msgctxt"@, c),
            None => Seq::<Seq<char>>::empty(),
        }),
        keyword_next(tl),
    ensures
        ({
            let (ctx, k) = if 0 <= j < ls.len() && has_prefix(trim_seq(ls[j]), "msgctxt "@) {
                let (raw, k) = continuation(ls, j + 1, trim_seq(ls[j]).skip(8));
                (Some(parse_po_string_spec(raw)), k)
            } else {
                (None, j)
            };
            &&& ctx == e.msgctxt
            &&& 0 <= k <= ls.len()
            &&& ls.skip(k) == po_string_phys("msgid"@, e.msgid) + tl
        }),
{
    lemma_string_key("msgctxt"@);
    lemma_string_key("msgid"@);
    reveal_strlit("msgctxt");
    reveal_strlit("msgctxt ");
    reveal_strlit("msgid");
    let idp = po_string_phys("msgid"@, e.msgid);
    lemma_phys_plain("msgid"@, e.msgid);
    lemma_next_after(idp, tl);
    match e.msgctxt {
        Some(c) => {
            let key = "msgctxt"@;
            let x = po_string_phys(key, c);
            assert(ls.skip(j) =~= x + (idp + tl));
            lemma_read_string_at(ls, j, key, c, idp + tl);
            let t = trim_seq(ls[j]);
            assert(t.take(8) =~= "msgctxt "@) by {
                assert forall|q: int| 0 <= q < 8 implies t[q] == "msgctxt "@[q] by {
                    lemma_prefix_char(t, key + seq![' ', '"'], q);
                }
            }
        },
        None => {
            assert(ls.skip(j) =~= idp + tl);
            lemma_next_after(tl, Seq::<Seq<char>>::empty());
            assert(tl + Seq::<Seq<char>>::empty() =~= tl);
            lemma_read_string_at(ls, j, "msgid"@, e.msgid, tl);
            let t = trim_seq(ls[j]);
            if has_prefix(t, "msgctxt "@) {
                lemma_prefix_char(t, "msgctxt "@, 3);
                lemma_prefix_char(t, "msgid"@ + seq![' ', '"'], 3);
            }
        },
    }
}

/// The entry written at line `p`, followed by a blank line or the end, read
/// back whole.
#[verifier::spinoff_prover]
#[verifier::rlimit(60)]
proof fn lemma_read_entry(
    ls: Seq<Seq<char>>,
    obs: Seq<bool>,
    p: int,
    e: PoEntryView,
    o: PoOptionsView,
    rest: Seq<Seq<char>>,
)
    requires
        entry_readable(e, o),
        0 <= p < obs.len(),
        p <= ls.len(),
        ls.skip(p) == flatten_lines(entry_pieces(e, o)) + rest,
        blank_next(rest),
        obs[p] == e.obsolete,
    ensures
        read_entry(ls, obs, p) == (
            Some((entry_key_spec(e.msgctxt, e.msgid), read_view(e, o))),
            ls.len() - rest.len(),
        ),
{
    lemma_entry_segments(e, o);
    lemma_read_comment_lines(ls, p, e, o, rest);
    let j = p + e.comments.len() + ref_lines_of(e, o).len() + flag_lines_of(e, o).len();
    let tl = tail_lines(e) + rest;
    lemma_next_after(tail_lines(e), rest);
    lemma_read_ctx(ls, j, e, tl);
    let (ctx, k) = if 0 <= j < ls.len() && has_prefix(trim_seq(ls[j]), "msgctxt "@) {
        let (raw, k) = continuation(ls, j + 1, trim_seq(ls[j]).skip(8));
        (Some(parse_po_string_spec(raw)), k)
    } else {
        (None, j)
    };
    lemma_string_key("msgid"@);
    reveal_strlit("msgid");
    reveal_strlit("msgid ");
    lemma_read_string_at(ls, k, "msgid"@, e.msgid, tl);
    let t = trim_seq(ls[k]);
    assert(t.take(6) =~= "msgid "@) by {
        assert forall|q: int| 0 <= q < 6 implies t[q] == "msgid "@[q] by {
            lemma_prefix_char(t, "msgid"@ + seq![' ', '"'], q);
        }
    }
    let k2 = k + po_string_phys("msgid"@, e.msgid).len();
    lemma_read_tail(ls, k2, e, rest);
    let (idraw, kk) = continuation(ls, k + 1, trim_seq(ls[k]).skip(6));
    assert(kk == k2);
    assert(parse_po_string_spec(idraw) == e.msgid);
    let (plural, k3) = if 0 <= k2 < ls.len() && has_prefix(trim_seq(ls[k2]), "msgid_plural "@) {
        let (r, k3) = continuation(ls, k2 + 1, trim_seq(ls[k2]).skip(13));
        (Some(parse_po_string_spec(r)), k3)
    } else {
        (None, k2)
    };
    let (ms, k4) = read_msgstrs(ls, k3, seq![]);
    assert(ms.len() > 0);
    let built = PoEntryView {
        comments: comments_read(e.comments),
        references: refs_read(e, o),
        flags: flags_read(e, o),
        msgctxt: e.msgctxt,
        msgid: e.msgid,
        msgid_plural: e.msgid_plural,
        msgstr: e.msgstr,
        obsolete: e.obsolete,
    };
    assert(built == read_view(e, o));
}

/// Each line behind `#~ `.
pub open spec fn obsolete_prefixed(ls: Seq<Seq<char>>) -> Seq<Seq<char>> {
    ls.map_values(|l: Seq<char>| seq!['#', '~', ' '] + l)
}

proof fn lemma_obsolete_lines(qs: Seq<Seq<Seq<char>>>)
    requires
        forall|i: int| 0 <= i < qs.len() ==> (#[trigger] qs[i]).len() > 0,
        forall|i: int, j: int| 0 <= i < qs.len() && 0 <= j < qs[i].len() ==> phys_ok(#[trigger] qs[i][j]),
    ensures
        crate::po::obsolete_lines(joined_pieces(qs)) == obsolete_prefixed(flatten_lines(qs)),
    decreases qs.len(),
{
    if qs.len() == 0 {
        assert(joined_pieces(qs) =~= Seq::<Seq<char>>::empty());
        assert(flatten_lines(qs) == Seq::<Seq<char>>::empty());
        assert(obsolete_prefixed(flatten_lines(qs)) =~= Seq::<Seq<char>>::empty());
    } else {
        let d = qs.drop_last();
        let x = qs.last();
        assert forall|i: int| 0 <= i < d.len() implies (#[trigger] d[i]).len() > 0 by {
            assert(d[i] == qs[i]);
        }
        assert forall|i: int, j: int| 0 <= i < d.len() && 0 <= j < d[i].len() implies phys_ok(
            #[trigger] d[i][j],
        ) by {
            assert(d[i] == qs[i]);
        }
        lemma_obsolete_lines(d);
        let jp = joined_pieces(qs);
        assert(jp.drop_last() =~= joined_pieces(d));
        assert(jp.last() == join_seq(x, seq!['\n']));
        assert forall|j: int| 0 <= j < x.len() implies phys_ok(#[trigger] x[j]) by {
            assert(qs[qs.len() - 1] == x);
        }
        lemma_lines_of_join(x);
        lemma_flatten_append(d, seq![x]);
        lemma_flatten_one(x);
        assert(d + seq![x] =~= qs);
        assert(obsolete_prefixed(flatten_lines(d) + x) =~= obsolete_prefixed(flatten_lines(d))
            + x.map_values(|l: Seq<char>| seq!['#', '~', ' '] + l));
    }
}

/// The physical lines of an entry's text: its lines, each behind `#~ ` when
/// the entry is obsolete.
pub open spec fn written_lines(e: PoEntryView, o: PoOptionsView) -> Seq<Seq<char>> {
    if e.obsolete {
        obsolete_prefixed(flatten_lines(entry_pieces(e, o)))
    } else {
        flatten_lines(entry_pieces(e, o))
    }
}

/// A plain line behind `#~ ` is read as that line, marked obsolete.
proof fn lemma_unwrap_prefixed(l: Seq<char>)
    requires
        plain(l),
    ensures
        unwrap_line(seq!['#', '~', ' '] + l) == (true, l),
        phys_ok(l) ==> phys_ok(seq!['#', '~', ' '] + l),
{
    assert(('m' as u32) == 109 && ('"' as u32) == 34 && ('#' as u32) == 35);
    assert(is_ws(' '));
    let t = seq!['#', '~', ' '] + l;
    assert(!is_ws(t[0]));
    assert(trim_start_seq(t) == t);
    assert(t.take(2) =~= seq!['#', '~']);
    assert(t.skip(2) =~= seq![' '] + l);
    assert(trim_start_seq(seq![' '] + l) == trim_start_seq((seq![' '] + l).drop_first()));
    assert((seq![' '] + l).drop_first() =~= l);
    assert(!is_ws(l[0]));
    assert(trim_start_seq(l) == l);
    if phys_ok(l) {
        assert forall|k: int| 0 <= k < t.len() implies t[k] != '\n' by {
            if k >= 3 {
                assert(t[k] == l[k - 3]);
            }
        }
        assert(t.last() == l.last());
    }
}

/// The physical lines of a readable entry's text, what the reader makes of
/// each, and that they are lines.
pub proof fn lemma_written_lines(e: PoEntryView, o: PoOptionsView)
    requires
        entry_readable(e, o),
    ensures
        lines_of(format_entry_spec(e, o)) == written_lines(e, o),
        format_entry_spec(e, o) == join_seq(written_lines(e, o), seq!['\n']),
        written_lines(e, o).len() == flatten_lines(entry_pieces(e, o)).len(),
        written_lines(e, o).len() > 0,
        forall|t: int|
            0 <= t < written_lines(e, o).len() ==> phys_ok(#[trigger] written_lines(e, o)[t])
                && unwrap_line(written_lines(e, o)[t]) == (
                e.obsolete,
                flatten_lines(entry_pieces(e, o))[t],
            ),
{
    lemma_entry_lines(e, o);
    lemma_entry_segments(e, o);
    let qs = entry_pieces(e, o);
    let flat = flatten_lines(qs);
    lemma_flatten_phys(qs);
    assert(flat.len() > 0) by {
        lemma_string_key("msgid"@);
        lemma_phys_plain("msgid"@, e.msgid);
    }
    let w = written_lines(e, o);
    if e.obsolete {
        lemma_obsolete_lines(qs);
        assert forall|t: int| 0 <= t < w.len() implies phys_ok(#[trigger] w[t]) && unwrap_line(w[t])
            == (e.obsolete, flat[t]) by {
            assert(w[t] == seq!['#', '~', ' '] + flat[t]);
            assert(plain(flat[t]));
            lemma_unwrap_prefixed(flat[t]);
        }
        lemma_lines_of_join(w);
    } else {
        assert forall|t: int| 0 <= t < w.len() implies phys_ok(#[trigger] w[t]) && unwrap_line(w[t])
            == (e.obsolete, flat[t]) by {
            assert(plain(flat[t]));
            lemma_plain_unwrap(flat[t]);
        }
    }
}

/// A catalog entry written out reads back under its key as `read_view`
/// says: context, msgid, plural form, translations and whether it is
/// obsolete as they are; comments trimmed; references as the words of the
/// `#:` lines (the references as written, sorted, reduced to their files or
/// left out as the options say, when they hold no whitespace: see
/// `law_plain_references_read_back`); flags as written (or left out). This
/// holds for entries that keep to their lines and whose flags have the shape
/// the reader splits flags by (`entry_readable`).
pub proof fn law_entry_reads_back(e: PoEntryView, o: PoOptionsView)
    requires
        entry_readable(e, o),
    ensures
        parse_po_file_spec(format_entry_spec(e, o)) == seq![
            (entry_key_spec(e.msgctxt, e.msgid), read_view(e, o)),
        ],
{
    let content = format_entry_spec(e, o);
    lemma_written_lines(e, o);
    lemma_entry_segments(e, o);
    let flat = flatten_lines(entry_pieces(e, o));
    let w = written_lines(e, o);
    let ls = unwrapped_lines(content);
    let obs = obsolete_marks(content);
    assert forall|t: int| 0 <= t < flat.len() implies ls[t] == flat[t] && obs[t] == e.obsolete by {
        assert(unwrap_line(w[t]) == (e.obsolete, flat[t]));
    }
    assert(ls =~= flat);
    assert(plain(flat[0]));
    lemma_plain_unwrap(flat[0]);
    let e0 = Seq::<Seq<char>>::empty();
    assert(ls.skip(0) =~= flat + e0);
    lemma_read_entry(ls, obs, 0, e, o, e0);
    let key = entry_key_spec(e.msgctxt, e.msgid);
    let acc = insert_entry(Seq::<(Seq<char>, PoEntryView)>::empty(), key, read_view(e, o));
    assert(acc == seq![(key, read_view(e, o))]);
    assert(parse_from(ls, obs, ls.len() as int, acc) == acc);
    assert(parse_from(ls, obs, 0, seq![]) == parse_from(ls, obs, ls.len() as int, acc));
}

/// Lines split at a newline that ends `a` are those of `a`, then those of `b`.
pub proof fn lemma_lines_append(a: Seq<char>, b: Seq<char>)
    requires
        a.len() == 0 || a.last() == '\n',
    ensures
        lines_of(a + b) == lines_of(a) + lines_of(b),
    decreases a.len(),
{
    if a.len() == 0 {
        assert(a + b =~= b);
        assert(lines_of(a) == Seq::<Seq<char>>::empty());
        assert(lines_of(a) + lines_of(b) =~= lines_of(b));
    } else {
        lemma_index_of(a, '\n');
        assert(a[a.len() - 1] == '\n');
        let i = index_of(a, '\n');
        assert(0 <= i < a.len());
        let s = a + b;
        assert forall|k: int| 0 <= k < i implies s[k] != '\n' by {
            assert(s[k] == a[k]);
        }
        assert(s[i] == a[i]);
        lemma_index_of_unique(s, '\n', i);
        assert(s.take(i) =~= a.take(i));
        assert(s.skip(i + 1) =~= a.skip(i + 1) + b);
        let a2 = a.skip(i + 1);
        assert(a2.len() == 0 || a2.last() == '\n') by {
            if a2.len() > 0 {
                assert(a2.last() == a.last());
            }
        }
        lemma_lines_append(a2, b);
        assert(lines_of(s) == seq![crate::text::strip_cr(a.take(i))] + lines_of(a2 + b));
        assert(lines_of(a) == seq![crate::text::strip_cr(a.take(i))] + lines_of(a2));
        assert(lines_of(s) =~= lines_of(a) + lines_of(b));
    }
}

/// Physical lines joined by newlines, then a newline, then more text.
proof fn lemma_lines_of_join_nl(pls: Seq<Seq<char>>, rest: Seq<char>)
    requires
        pls.len() > 0,
        forall|i: int| 0 <= i < pls.len() ==> phys_ok(#[trigger] pls[i]),
    ensures
        lines_of(join_seq(pls, seq!['\n']) + seq!['\n'] + rest) == pls + lines_of(rest),
    decreases pls.len(),
{
    assert(phys_ok(pls[0]));
    if pls.len() == 1 {
        assert(join_seq(pls, seq!['\n']) == pls[0]);
        lemma_lines_cons(pls[0], rest);
        assert(seq![pls[0]] =~= pls);
    } else {
        lemma_join_front(pls, seq!['\n']);
        let tail = pls.drop_first();
        assert forall|i: int| 0 <= i < tail.len() implies phys_ok(#[trigger] tail[i]) by {
            assert(tail[i] == pls[i + 1]);
        }
        lemma_lines_of_join_nl(tail, rest);
        let jt = join_seq(tail, seq!['\n']);
        assert(join_seq(pls, seq!['\n']) + seq!['\n'] + rest =~= pls[0] + seq!['\n'] + (jt + seq![
            '\n',
        ] + rest));
        lemma_lines_cons(pls[0], jt + seq!['\n'] + rest);
        assert(seq![pls[0]] + tail =~= pls);
    }
}

/// The physical lines of an entry's text followed by a blank line.
pub open spec fn raw_block(e: PoEntryView, o: PoOptionsView) -> Seq<Seq<char>> {
    written_lines(e, o) + seq![Seq::<char>::empty()]
}

/// The lines the reader makes of them.
pub open spec fn entry_block(e: PoEntryView, o: PoOptionsView) -> Seq<Seq<char>> {
    flatten_lines(entry_pieces(e, o)) + seq![Seq::<char>::empty()]
}

/// And whether it marks each obsolete.
pub open spec fn block_marks(e: PoEntryView, o: PoOptionsView) -> Seq<bool> {
    Seq::new(flatten_lines(entry_pieces(e, o)).len(), |t: int| e.obsolete) + seq![false]
}

/// An entry's text and a blank line split into the entry's lines and an
/// empty one.
proof fn lemma_raw_block_lines(e: PoEntryView, o: PoOptionsView)
    requires
        entry_readable(e, o),
    ensures
        lines_of(format_entry_spec(e, o) + seq!['\n', '\n']) == raw_block(e, o),
{
    lemma_written_lines(e, o);
    let w = written_lines(e, o);
    lemma_lines_of_join_nl(w, seq!['\n']);
    assert(format_entry_spec(e, o) + seq!['\n', '\n'] =~= join_seq(w, seq!['\n']) + seq!['\n']
        + seq!['\n']);
    let nl = seq!['\n'];
    lemma_index_of_unique(nl, '\n', 0);
    assert(lines_of(nl.skip(1)) == Seq::<Seq<char>>::empty());
    assert(crate::text::strip_cr(nl.take(0)) =~= Seq::<char>::empty());
    assert(lines_of(nl) == seq![crate::text::strip_cr(nl.take(0))] + lines_of(nl.skip(1)));
    assert(lines_of(nl) =~= seq![Seq::<char>::empty()]);
}

/// The lines as the reader takes them, `#~ ` markers removed.
pub open spec fn unwrapped_of(ls: Seq<Seq<char>>) -> Seq<Seq<char>> {
    ls.map_values(|l: Seq<char>| unwrap_line(l).1)
}

/// Which lines the reader marks obsolete.
pub open spec fn marks_of(ls: Seq<Seq<char>>) -> Seq<bool> {
    ls.map_values(|l: Seq<char>| unwrap_line(l).0)
}

proof fn lemma_raw_block_unwrap(e: PoEntryView, o: PoOptionsView)
    requires
        entry_readable(e, o),
    ensures
        unwrapped_of(raw_block(e, o)) == entry_block(e, o),
        marks_of(raw_block(e, o)) == block_marks(e, o),
{
    lemma_written_lines(e, o);
    let w = written_lines(e, o);
    let r = raw_block(e, o);
    let e0 = Seq::<char>::empty();
    assert(trim_start_seq(e0) == e0);
    assert(unwrap_line(e0) == (false, e0)) by {
        if has_prefix(e0, seq!['#', '~']) {
        }
    }
    assert forall|t: int| 0 <= t < r.len() implies unwrapped_of(r)[t] == entry_block(e, o)[t]
        && marks_of(r)[t] == block_marks(e, o)[t] by {
        if t < w.len() {
            assert(r[t] == w[t]);
        } else {
            assert(r[t] == e0);
        }
    }
    assert(unwrapped_of(r) =~= entry_block(e, o));
    assert(marks_of(r) =~= block_marks(e, o));
}

/// The physical lines of entries written one after another, each followed by
/// a blank line.
pub open spec fn raw_body(es: Seq<PoEntryView>, o: PoOptionsView) -> Seq<Seq<char>>
    decreases es.len(),
{
    if es.len() == 0 {
        seq![]
    } else {
        raw_body(es.drop_last(), o) + raw_block(es.last(), o)
    }
}

/// The lines the reader makes of them.
pub open spec fn body_lines(es: Seq<PoEntryView>, o: PoOptionsView) -> Seq<Seq<char>>
    decreases es.len(),
{
    if es.len() == 0 {
        seq![]
    } else {
        body_lines(es.drop_last(), o) + entry_block(es.last(), o)
    }
}

/// And which of them it marks obsolete.
pub open spec fn body_marks(es: Seq<PoEntryView>, o: PoOptionsView) -> Seq<bool>
    decreases es.len(),
{
    if es.len() == 0 {
        seq![]
    } else {
        body_marks(es.drop_last(), o) + block_marks(es.last(), o)
    }
}

/// Every entry reads back alone when written with these options.
pub open spec fn all_readable(es: Seq<PoEntryView>, o: PoOptionsView) -> bool {
    forall|i: int| 0 <= i < es.len() ==> entry_readable(#[trigger] es[i], o)
}

/// Every entry keeps to its lines when written with these options.
pub open spec fn all_shaped(es: Seq<PoEntryView>, o: PoOptionsView) -> bool {
    forall|i: int| 0 <= i < es.len() ==> entry_shaped(#[trigger] es[i], o)
}

/// Every part of a run of readable entries is readable.
pub proof fn lemma_readable_drop_last(es: Seq<PoEntryView>, o: PoOptionsView)
    requires
        all_readable(es, o),
        es.len() > 0,
    ensures
        all_readable(es.drop_last(), o),
        all_readable(es.drop_first(), o),
        entry_readable(es.last(), o),
        entry_readable(es[0], o),
{
    let d = es.drop_last();
    assert forall|i: int| 0 <= i < d.len() implies entry_readable(#[trigger] d[i], o) by {
        assert(d[i] == es[i]);
    }
    let f = es.drop_first();
    assert forall|i: int| 0 <= i < f.len() implies entry_readable(#[trigger] f[i], o) by {
        assert(f[i] == es[i + 1]);
    }
    assert(entry_readable(es[es.len() - 1], o));
}

/// The lines of entries written one after another, and what the reader
/// makes of them.
pub proof fn lemma_raw_body(es: Seq<PoEntryView>, o: PoOptionsView)
    requires
        all_readable(es, o),
    ensures
        lines_of(entries_text(es, o)) == raw_body(es, o),
        unwrapped_of(raw_body(es, o)) == body_lines(es, o),
        marks_of(raw_body(es, o)) == body_marks(es, o),
    decreases es.len(),
{
    if es.len() == 0 {
        assert(lines_of(Seq::<char>::empty()) == Seq::<Seq<char>>::empty());
        assert(unwrapped_of(raw_body(es, o)) =~= Seq::<Seq<char>>::empty());
        assert(marks_of(raw_body(es, o)) =~= Seq::<bool>::empty());
    } else {
        let d = es.drop_last();
        lemma_readable_drop_last(es, o);
        lemma_raw_body(d, o);
        lemma_raw_block_lines(es.last(), o);
        lemma_raw_block_unwrap(es.last(), o);
        let blk = format_entry_spec(es.last(), o) + seq!['\n', '\n'];
        assert(entries_text(es, o) =~= entries_text(d, o) + blk);
        assert(entries_text(d, o).len() == 0 || entries_text(d, o).last() == '\n');
        lemma_lines_append(entries_text(d, o), blk);
        let a = raw_body(d, o);
        let b = raw_block(es.last(), o);
        assert(unwrapped_of(a + b) =~= unwrapped_of(a) + unwrapped_of(b));
        assert(marks_of(a + b) =~= marks_of(a) + marks_of(b));
    }
}

/// The same lines and marks, seen from the first entry.
proof fn lemma_body_front(xs: Seq<PoEntryView>, o: PoOptionsView)
    requires
        xs.len() > 0,
    ensures
        body_lines(xs, o) == entry_block(xs[0], o) + body_lines(xs.drop_first(), o),
        body_marks(xs, o) == block_marks(xs[0], o) + body_marks(xs.drop_first(), o),
    decreases xs.len(),
{
    if xs.len() == 1 {
        assert(xs.drop_last() =~= Seq::<PoEntryView>::empty());
        assert(xs.drop_first() =~= Seq::<PoEntryView>::empty());
        assert(body_lines(Seq::<PoEntryView>::empty(), o) == Seq::<Seq<char>>::empty());
        assert(body_marks(Seq::<PoEntryView>::empty(), o) == Seq::<bool>::empty());
        assert(xs.last() == xs[0]);
        assert(body_lines(xs, o) =~= entry_block(xs[0], o) + body_lines(xs.drop_first(), o));
        assert(body_marks(xs, o) =~= block_marks(xs[0], o) + body_marks(xs.drop_first(), o));
    } else {
        let d = xs.drop_last();
        lemma_body_front(d, o);
        assert(d[0] == xs[0]);
        assert(d.drop_first() =~= xs.drop_first().drop_last());
        assert(xs.drop_first().last() == xs.last());
        assert(body_lines(xs.drop_first(), o) == body_lines(xs.drop_first().drop_last(), o)
            + entry_block(xs.drop_first().last(), o));
        assert(body_marks(xs.drop_first(), o) == body_marks(xs.drop_first().drop_last(), o)
            + block_marks(xs.drop_first().last(), o));
        assert(body_lines(xs, o) =~= entry_block(xs[0], o) + body_lines(xs.drop_first(), o));
        assert(body_marks(xs, o) =~= block_marks(xs[0], o) + body_marks(xs.drop_first(), o));
    }
}

/// Each entry inserted under its key, one after another.
pub open spec fn insert_all(acc: Seq<(Seq<char>, PoEntryView)>, xs: Seq<PoEntryView>) -> Seq<
    (Seq<char>, PoEntryView),
>
    decreases xs.len(),
{
    if xs.len() == 0 {
        acc
    } else {
        insert_all(
            insert_entry(acc, entry_key_spec(xs[0].msgctxt, xs[0].msgid), xs[0]),
            xs.drop_first(),
        )
    }
}

/// Each entry as the reader gets it back.
pub open spec fn read_views(es: Seq<PoEntryView>, o: PoOptionsView) -> Seq<PoEntryView> {
    es.map_values(|e: PoEntryView| read_view(e, o))
}

/// The lines the reader works on, read from `p` on, give each entry under its
/// key, one after another.
proof fn lemma_parse_entries(
    ls: Seq<Seq<char>>,
    obs: Seq<bool>,
    p: int,
    xs: Seq<PoEntryView>,
    acc: Seq<(Seq<char>, PoEntryView)>,
    o: PoOptionsView,
)
    requires
        0 <= p <= ls.len(),
        obs.len() == ls.len(),
        ls.skip(p) == body_lines(xs, o),
        obs.skip(p) == body_marks(xs, o),
        all_readable(xs, o),
    ensures
        parse_from(ls, obs, p, acc) == insert_all(acc, read_views(xs, o)),
    decreases xs.len(),
{
    if xs.len() == 0 {
        assert(ls.skip(p).len() == ls.len() - p);
        assert(p == ls.len());
        assert(read_views(xs, o) =~= Seq::<PoEntryView>::empty());
    } else {
        let x = xs[0];
        let rest = xs.drop_first();
        lemma_readable_drop_last(xs, o);
        lemma_body_front(xs, o);
        lemma_parse_block(ls, obs, p, x, o, body_lines(rest, o), body_marks(rest, o), acc);
        let q = p + entry_block(x, o).len();
        let v = read_view(x, o);
        let acc1 = insert_entry(acc, entry_key_spec(v.msgctxt, v.msgid), v);
        lemma_parse_entries(ls, obs, q, rest, acc1, o);
        assert(read_views(xs, o).drop_first() =~= read_views(rest, o));
        assert(read_views(xs, o)[0] == v);
    }
}

/// The keys of the entries are all different.
pub open spec fn distinct_keys(es: Seq<PoEntryView>) -> bool {
    forall|i: int, j: int|
        #![trigger es[i], es[j]]
        0 <= i < j < es.len() ==> entry_key_spec(es[i].msgctxt, es[i].msgid) != entry_key_spec(
            es[j].msgctxt,
            es[j].msgid,
        )
}

/// Each entry under its key.
pub open spec fn keyed_entries(es: Seq<PoEntryView>) -> Seq<(Seq<char>, PoEntryView)> {
    es.map_values(|e: PoEntryView| (entry_key_spec(e.msgctxt, e.msgid), e))
}

/// Inserting entries with keys new to the catalog appends them, in order.
pub proof fn lemma_insert_all_distinct(acc: Seq<(Seq<char>, PoEntryView)>, xs: Seq<PoEntryView>)
    requires
        distinct_keys(xs),
        forall|a: int, j: int|
            #![trigger acc[a], xs[j]]
            0 <= a < acc.len() && 0 <= j < xs.len() ==> acc[a].0 != entry_key_spec(
                xs[j].msgctxt,
                xs[j].msgid,
            ),
    ensures
        insert_all(acc, xs) == acc + keyed_entries(xs),
    decreases xs.len(),
{
    if xs.len() == 0 {
        assert(acc + keyed_entries(xs) =~= acc);
    } else {
        let x = xs[0];
        let k = entry_key_spec(x.msgctxt, x.msgid);
        lemma_key_index(acc, k);
        if key_index(acc, k) >= 0 {
            let a = key_index(acc, k);
            assert(acc[a].0 != entry_key_spec(xs[0].msgctxt, xs[0].msgid));
        }
        let acc1 = acc.push((k, x));
        assert(insert_entry(acc, k, x) == acc1);
        let rest = xs.drop_first();
        assert forall|i: int, j: int|
            #![trigger rest[i], rest[j]]
            0 <= i < j < rest.len() implies entry_key_spec(rest[i].msgctxt, rest[i].msgid)
            != entry_key_spec(rest[j].msgctxt, rest[j].msgid) by {
            assert(rest[i] == xs[i + 1]);
            assert(rest[j] == xs[j + 1]);
        }
        assert forall|a: int, j: int|
            #![trigger acc1[a], rest[j]]
            0 <= a < acc1.len() && 0 <= j < rest.len() implies acc1[a].0 != entry_key_spec(
            rest[j].msgctxt,
            rest[j].msgid,
        ) by {
            assert(rest[j] == xs[j + 1]);
            if a < acc.len() {
                assert(acc1[a] == acc[a]);
            } else {
                assert(acc1[a].0 == k);
            }
        }
        lemma_insert_all_distinct(acc1, rest);
        assert(keyed_entries(xs) =~= seq![(k, x)] + keyed_entries(rest));
        assert(acc1 + keyed_entries(rest) =~= acc + keyed_entries(xs));
    }
}

/// A catalog's entries written one after another, each followed by a blank
/// line, read back as those entries (as `read_view` says), in order, each
/// under its key, obsolete ones included: for entries that each read back
/// alone (see `law_entry_reads_back`) and whose keys differ.
pub proof fn law_entries_read_back(es: Seq<PoEntryView>, o: PoOptionsView)
    requires
        all_readable(es, o),
        distinct_keys(es),
    ensures
        parse_po_file_spec(entries_text(es, o)) == keyed_entries(read_views(es, o)),
{
    let content = entries_text(es, o);
    lemma_raw_body(es, o);
    let ls = unwrapped_lines(content);
    let obs = obsolete_marks(content);
    assert(ls =~= body_lines(es, o));
    assert(obs =~= body_marks(es, o));
    assert(ls.skip(0) =~= ls);
    assert(obs.skip(0) =~= obs);
    let e0 = Seq::<(Seq<char>, PoEntryView)>::empty();
    lemma_parse_entries(ls, obs, 0, es, e0, o);
    lemma_views_distinct(es, o);
    lemma_insert_all_distinct(e0, read_views(es, o));
    assert(e0 + keyed_entries(read_views(es, o)) =~= keyed_entries(read_views(es, o)));
}

/// The entries as read back have the same keys.
pub proof fn lemma_views_distinct(es: Seq<PoEntryView>, o: PoOptionsView)
    requires
        distinct_keys(es),
    ensures
        distinct_keys(read_views(es, o)),
        read_views(es, o).len() == es.len(),
{
    let v = read_views(es, o);
    assert forall|i: int, j: int| #![trigger v[i], v[j]] 0 <= i < j < v.len() implies entry_key_spec(
        v[i].msgctxt,
        v[i].msgid,
    ) != entry_key_spec(v[j].msgctxt, v[j].msgid) by {
        assert(es[i].msgctxt == v[i].msgctxt && es[i].msgid == v[i].msgid);
        assert(es[j].msgctxt == v[j].msgctxt && es[j].msgid == v[j].msgid);
    }
}

/// Each entry of a catalog stands under its own key.
pub open spec fn well_keyed(cat: Seq<(Seq<char>, PoEntryView)>) -> bool {
    forall|j: int|
        0 <= j < cat.len() ==> (#[trigger] cat[j]).0 == entry_key_spec(cat[j].1.msgctxt, cat[j].1.msgid)
}

/// No two entries of a catalog share a key.
pub open spec fn distinct_pair_keys(cat: Seq<(Seq<char>, PoEntryView)>) -> bool {
    forall|a: int, b: int| #![trigger cat[a], cat[b]] 0 <= a < b < cat.len() ==> cat[a].0 != cat[b].0
}

/// The obsolete entries of a catalog whose entries stand under their own,
/// different keys have different keys too: none is written twice.
pub proof fn law_obsolete_entries_distinct(
    existing: Seq<(Seq<char>, PoEntryView)>,
    new: Seq<(Seq<char>, PoEntryView)>,
)
    requires
        well_keyed(existing),
        distinct_pair_keys(existing),
    ensures
        distinct_keys(obsolete_entries(existing, new)),
    decreases existing.len(),
{
    if existing.len() > 0 {
        let d = existing.drop_last();
        assert forall|j: int| 0 <= j < d.len() implies (#[trigger] d[j]).0 == entry_key_spec(
            d[j].1.msgctxt,
            d[j].1.msgid,
        ) by {
            assert(d[j] == existing[j]);
        }
        assert forall|a: int, b: int| #![trigger d[a], d[b]] 0 <= a < b < d.len() implies d[a].0
            != d[b].0 by {
            assert(d[a] == existing[a] && d[b] == existing[b]);
        }
        law_obsolete_entries_distinct(d, new);
        let rest = obsolete_entries(d, new);
        let r = obsolete_entries(existing, new);
        let last = existing.last();
        if r.len() > rest.len() {
            assert(r == rest.push(as_obsolete(last.1)));
            assert forall|a: int, b: int| #![trigger r[a], r[b]] 0 <= a < b < r.len() implies
                entry_key_spec(r[a].msgctxt, r[a].msgid) != entry_key_spec(r[b].msgctxt, r[b].msgid) by {
                if b < rest.len() {
                    assert(r[a] == rest[a] && r[b] == rest[b]);
                } else {
                    assert(r[a] == rest[a]);
                    law_obsolete_entries_come_from_vanished(d, new, a);
                    let j = choose|j: int|
                        0 <= j < d.len() && key_index(new, d[j].0) < 0 && !crate::catalog::all_empty(
                            d[j].1.msgstr,
                        ) && rest[a] == as_obsolete(#[trigger] d[j].1);
                    assert(d[j] == existing[j]);
                    assert(existing[existing.len() - 1] == last);
                    assert(existing[j].0 != existing[existing.len() - 1].0);
                }
            }
        } else {
            assert(r == rest);
        }
    }
}

/// Reading one entry's block at `p`, whatever follows it.
proof fn lemma_parse_block(
    ls: Seq<Seq<char>>,
    obs: Seq<bool>,
    p: int,
    x: PoEntryView,
    o: PoOptionsView,
    more: Seq<Seq<char>>,
    marks: Seq<bool>,
    acc: Seq<(Seq<char>, PoEntryView)>,
)
    requires
        0 <= p <= ls.len(),
        obs.len() == ls.len(),
        entry_readable(x, o),
        ls.skip(p) == entry_block(x, o) + more,
        obs.skip(p) == block_marks(x, o) + marks,
    ensures
        ({
            let q = p + entry_block(x, o).len();
            &&& q <= ls.len()
            &&& ls.skip(q) == more
            &&& obs.skip(q) == marks
            &&& parse_from(ls, obs, p, acc) == parse_from(
                ls,
                obs,
                q,
                insert_entry(acc, entry_key_spec(x.msgctxt, x.msgid), read_view(x, o)),
            )
        }),
{
    let flat = flatten_lines(entry_pieces(x, o));
    let rest = seq![Seq::<char>::empty()] + more;
    assert(ls.skip(p) =~= flat + rest);
    lemma_entry_segments(x, o);
    assert(flat.len() > 0) by {
        lemma_string_key("msgid"@);
        lemma_phys_plain("msgid"@, x.msgid);
    }
    lemma_at(ls, p, flat, rest);
    assert(obs.skip(p).len() == obs.len() - p);
    assert(obs[p] == obs.skip(p)[0]);
    assert(block_marks(x, o)[0] == x.obsolete);
    lemma_read_entry(ls, obs, p, x, o, rest);
    assert(ls[p + 0] == flat[0]);
    lemma_plain_unwrap(flat[0]);
    let q = p + flat.len();
    let acc1 = insert_entry(acc, entry_key_spec(x.msgctxt, x.msgid), read_view(x, o));
    assert(q < ls.len());
    assert(parse_from(ls, obs, p, acc) == parse_from(ls, obs, q, acc1));
    assert(ls[q] == rest[0]);
    assert(trim_seq(ls[q]) =~= Seq::<char>::empty()) by {
        assert(trim_start_seq(ls[q]) == ls[q]);
    }
    assert(parse_from(ls, obs, q, acc1) == parse_from(ls, obs, q + 1, acc1));
    lemma_at(ls, q, seq![Seq::<char>::empty()], more);
    let bm = block_marks(x, o);
    assert(bm.len() == flat.len() + 1);
    assert forall|t: int| 0 <= t < marks.len() implies obs.skip(q + 1)[t] == marks[t] by {
        assert(obs.skip(q + 1)[t] == obs[q + 1 + t]);
        assert(obs.skip(p)[bm.len() + t] == obs[p + bm.len() + t]);
        assert((bm + marks)[bm.len() + t] == marks[t]);
    }
    assert(obs.skip(p).len() == bm.len() + marks.len());
    assert(obs.skip(q + 1) =~= marks);
}

/// The same as `lemma_parse_entries`, where the text ends right after the
/// last entry, without its blank line.
pub proof fn lemma_parse_entries_trimmed(
    ls: Seq<Seq<char>>,
    obs: Seq<bool>,
    p: int,
    xs: Seq<PoEntryView>,
    acc: Seq<(Seq<char>, PoEntryView)>,
    o: PoOptionsView,
)
    requires
        xs.len() > 0,
        0 <= p <= ls.len(),
        obs.len() == ls.len(),
        ls.skip(p) == body_lines(xs, o).drop_last(),
        obs.skip(p) == body_marks(xs, o).drop_last(),
        all_readable(xs, o),
    ensures
        parse_from(ls, obs, p, acc) == insert_all(acc, read_views(xs, o)),
    decreases xs.len(),
{
    let x = xs[0];
    lemma_readable_drop_last(xs, o);
    lemma_body_front(xs, o);
    let rest = xs.drop_first();
    let acc1 = insert_entry(acc, entry_key_spec(x.msgctxt, x.msgid), read_view(x, o));
    assert(read_views(xs, o).drop_first() =~= read_views(rest, o));
    assert(read_views(xs, o)[0] == read_view(x, o));
    if xs.len() == 1 {
        assert(rest =~= Seq::<PoEntryView>::empty());
        assert(body_lines(rest, o) == Seq::<Seq<char>>::empty());
        assert(body_marks(rest, o) == Seq::<bool>::empty());
        let flat = flatten_lines(entry_pieces(x, o));
        let e0 = Seq::<Seq<char>>::empty();
        assert(ls.skip(p) =~= flat + e0);
        lemma_entry_segments(x, o);
        assert(flat.len() > 0) by {
            lemma_string_key("msgid"@);
            lemma_phys_plain("msgid"@, x.msgid);
        }
        lemma_at(ls, p, flat, e0);
        assert(obs.skip(p).len() == obs.len() - p);
        assert(obs[p] == obs.skip(p)[0]);
        assert(block_marks(x, o)[0] == x.obsolete);
        lemma_read_entry(ls, obs, p, x, o, e0);
        assert(ls[p + 0] == flat[0]);
        lemma_plain_unwrap(flat[0]);
        assert(parse_from(ls, obs, p, acc) == parse_from(ls, obs, ls.len() as int, acc1));
        assert(read_views(rest, o) =~= Seq::<PoEntryView>::empty());
        assert(insert_all(acc, read_views(xs, o)) == insert_all(acc1, read_views(rest, o)));
    } else {
        lemma_body_front(rest, o);
        let more = body_lines(rest, o).drop_last();
        let marks = body_marks(rest, o).drop_last();
        assert(ls.skip(p) =~= entry_block(x, o) + more);
        assert(obs.skip(p) =~= block_marks(x, o) + marks);
        lemma_parse_block(ls, obs, p, x, o, more, marks, acc);
        let q = p + entry_block(x, o).len();
        lemma_parse_entries_trimmed(ls, obs, q, rest, acc1, o);
    }
}

proof fn lemma_msgstr_quoted(ms: Seq<Seq<char>>, i: int)
    requires
        0 <= i,
    ensures
        forall|t: int|
            0 <= t < flatten_lines(msgstr_pieces(ms, i)).len() ==> (#[trigger] flatten_lines(
                msgstr_pieces(ms, i),
            )[t]).last() == '"',
    decreases ms.len() - i,
{
    if i < ms.len() {
        lemma_msgstr_flat(ms, i);
        lemma_msgstr_quoted(ms, i + 1);
        lemma_msgstr_key(i);
        lemma_po_string_phys(msgstr_key(i), ms[i]);
        let ph = po_string_phys(msgstr_key(i), ms[i]);
        let r = flatten_lines(msgstr_pieces(ms, i + 1));
        assert forall|t: int| 0 <= t < (ph + r).len() implies (#[trigger] (ph + r)[t]).last() == '"' by {
            if t < ph.len() {
                assert((ph + r)[t] == ph[t]);
            } else {
                assert((ph + r)[t] == r[t - ph.len()]);
            }
        }
    } else {
        assert(flatten_lines(msgstr_pieces(ms, i)) == Seq::<Seq<char>>::empty());
    }
}

/// The text of a readable entry ends with the closing quote of its last
/// translation.
pub proof fn lemma_entry_text_ends(e: PoEntryView, o: PoOptionsView)
    requires
        entry_readable(e, o),
    ensures
        format_entry_spec(e, o).len() > 0,
        format_entry_spec(e, o).last() == '"',
{
    lemma_written_lines(e, o);
    lemma_entry_segments(e, o);
    let flat = flatten_lines(entry_pieces(e, o));
    let tl = tail_lines(e);
    lemma_string_key("msgid_plural"@);
    lemma_string_key("msgstr"@);
    assert(forall|t: int| 0 <= t < tl.len() ==> (#[trigger] tl[t]).last() == '"') by {
        match e.msgid_plural {
            Some(p) => {
                lemma_po_string_phys("msgid_plural"@, p);
                lemma_msgstr_quoted(e.msgstr, 0);
                let pp = po_string_phys("msgid_plural"@, p);
                let m = flatten_lines(msgstr_pieces(e.msgstr, 0));
                assert forall|t: int| 0 <= t < tl.len() implies (#[trigger] tl[t]).last() == '"' by {
                    if t < pp.len() {
                        assert(tl[t] == pp[t]);
                    } else {
                        assert(tl[t] == m[t - pp.len()]);
                    }
                }
            },
            None => {
                lemma_po_string_phys("msgstr"@, e.msgstr[0]);
            },
        }
    }
    assert(flat.last() == tl.last());
    let w = written_lines(e, o);
    assert(w.last().last() == '"') by {
        if e.obsolete {
            assert(w.last() == seq!['#', '~', ' '] + flat.last());
            assert(phys_ok(flat[flat.len() - 1])) by {
                lemma_entry_lines(e, o);
            }
        }
    }
    assert(phys_ok(w[w.len() - 1]));
    lemma_join_last(w, seq!['\n']);
}

/// Entries written one run after another are the run of all of them.
pub proof fn lemma_entries_text_append(a: Seq<PoEntryView>, b: Seq<PoEntryView>, o: PoOptionsView)
    ensures
        entries_text(a, o) + entries_text(b, o) == entries_text(a + b, o),
    decreases b.len(),
{
    if b.len() == 0 {
        assert(a + b =~= a);
        assert(entries_text(a, o) + entries_text(b, o) =~= entries_text(a, o));
    } else {
        lemma_entries_text_append(a, b.drop_last(), o);
        assert((a + b).drop_last() =~= a + b.drop_last());
        assert((a + b).last() == b.last());
        assert(entries_text(a, o) + entries_text(b, o) =~= entries_text(a + b, o));
    }
}

/// Inserting an entry under its own key keeps every entry under its own key,
/// and no key twice.
proof fn lemma_insert_keyed(acc: Seq<(Seq<char>, PoEntryView)>, x: PoEntryView)
    requires
        well_keyed(acc),
        distinct_pair_keys(acc),
    ensures
        well_keyed(insert_entry(acc, entry_key_spec(x.msgctxt, x.msgid), x)),
        distinct_pair_keys(insert_entry(acc, entry_key_spec(x.msgctxt, x.msgid), x)),
{
    let k = entry_key_spec(x.msgctxt, x.msgid);
    lemma_key_index(acc, k);
    let r = insert_entry(acc, k, x);
    let i = key_index(acc, k);
    if i >= 0 {
        assert(r == acc.update(i, (k, x)));
        assert forall|a: int, b: int| #![trigger r[a], r[b]] 0 <= a < b < r.len() implies r[a].0
            != r[b].0 by {
            assert(acc[a].0 != acc[b].0);
        }
    } else {
        assert(r == acc.push((k, x)));
        assert forall|a: int, b: int| #![trigger r[a], r[b]] 0 <= a < b < r.len() implies r[a].0
            != r[b].0 by {
            if b < acc.len() {
                assert(acc[a].0 != acc[b].0);
            } else {
                assert(r[a] == acc[a]);
            }
        }
    }
}

/// Every entry read from a catalog stands under its own key, and no key
/// occurs twice.
pub proof fn lemma_parse_keyed(
    ls: Seq<Seq<char>>,
    obs: Seq<bool>,
    i: int,
    acc: Seq<(Seq<char>, PoEntryView)>,
)
    requires
        well_keyed(acc),
        distinct_pair_keys(acc),
    ensures
        well_keyed(parse_from(ls, obs, i, acc)),
        distinct_pair_keys(parse_from(ls, obs, i, acc)),
    decreases ls.len() - i,
{
    if 0 <= i < ls.len() {
        if crate::catalog::is_skipped(trim_seq(ls[i])) {
            lemma_parse_keyed(ls, obs, i + 1, acc);
        } else {
            let r = read_entry(ls, obs, i);
            crate::catalog::lemma_read_entry_advances(ls, obs, i);
            let next = if r.1 < ls.len() {
                r.1
            } else {
                ls.len() as int
            };
            match r.0 {
                Some((k, v)) => {
                    assert(k == entry_key_spec(v.msgctxt, v.msgid));
                    lemma_insert_keyed(acc, v);
                    lemma_parse_keyed(ls, obs, next, insert_entry(acc, k, v));
                },
                None => {
                    lemma_parse_keyed(ls, obs, next, acc);
                },
            }
        }
    }
}

/// An entry the reader takes: not the header (its msgid or its context is
/// there), with at least one translation.
pub open spec fn read_entry_ok(v: PoEntryView) -> bool {
    &&& (v.msgid.len() > 0 || v.msgctxt is Some)
    &&& v.msgstr.len() >= 1
}

/// Every entry of a catalog is one the reader takes.
pub open spec fn all_read_ok(cat: Seq<(Seq<char>, PoEntryView)>) -> bool {
    forall|j: int| 0 <= j < cat.len() ==> read_entry_ok(#[trigger] cat[j].1)
}

proof fn lemma_parse_entries_ok(
    ls: Seq<Seq<char>>,
    obs: Seq<bool>,
    i: int,
    acc: Seq<(Seq<char>, PoEntryView)>,
)
    requires
        all_read_ok(acc),
    ensures
        all_read_ok(parse_from(ls, obs, i, acc)),
    decreases ls.len() - i,
{
    if 0 <= i < ls.len() {
        if crate::catalog::is_skipped(trim_seq(ls[i])) {
            lemma_parse_entries_ok(ls, obs, i + 1, acc);
        } else {
            let r = read_entry(ls, obs, i);
            crate::catalog::lemma_read_entry_advances(ls, obs, i);
            let next = if r.1 < ls.len() {
                r.1
            } else {
                ls.len() as int
            };
            match r.0 {
                Some((k, v)) => {
                    assert(read_entry_ok(v));
                    let n = insert_entry(acc, k, v);
                    assert(all_read_ok(n)) by {
                        let ki = crate::keyed::key_index(acc, k);
                        lemma_key_index(acc, k);
                        assert forall|j: int| 0 <= j < n.len() implies read_entry_ok(
                            #[trigger] n[j].1,
                        ) by {
                            if ki >= 0 {
                                if j != ki {
                                    assert(n[j] == acc[j]);
                                }
                            } else if j < acc.len() {
                                assert(n[j] == acc[j]);
                            }
                        }
                    }
                    lemma_parse_entries_ok(ls, obs, next, n);
                },
                None => {
                    lemma_parse_entries_ok(ls, obs, next, acc);
                },
            }
        }
    }
}

/// Each comment is trimmed.
pub open spec fn comments_trimmed(v: PoEntryView) -> bool {
    comments_read(v.comments) == v.comments
}

/// Every entry's comments are trimmed.
pub open spec fn all_comments_trimmed(cat: Seq<(Seq<char>, PoEntryView)>) -> bool {
    forall|j: int| 0 <= j < cat.len() ==> comments_trimmed(#[trigger] cat[j].1)
}

proof fn lemma_read_comments_trimmed(
    ls: Seq<Seq<char>>,
    j: int,
    comments: Seq<Seq<char>>,
    refs: Seq<Seq<char>>,
    flags: Seq<Seq<char>>,
)
    requires
        comments_read(comments) == comments,
    ensures
        comments_read(read_comments(ls, j, comments, refs, flags).0) == read_comments(
            ls,
            j,
            comments,
            refs,
            flags,
        ).0,
    decreases ls.len() - j,
{
    if 0 <= j < ls.len() {
        let l = trim_seq(ls[j]);
        if has_prefix(l, seq!['#', '.']) {
            crate::text::lemma_trim_idem(ls[j]);
            assert(comments_read(comments.push(l)) =~= comments.push(l)) by {
                assert forall|k: int| 0 <= k < comments.len() implies trim_seq(comments[k])
                    == comments[k] by {
                    assert(comments_read(comments)[k] == comments[k]);
                }
            }
            lemma_read_comments_trimmed(ls, j + 1, comments.push(l), refs, flags);
        } else if has_prefix(l, seq!['#', ':']) {
            lemma_read_comments_trimmed(
                ls,
                j + 1,
                comments,
                refs + words_of(trim_seq(l.skip(2))),
                flags,
            );
        } else if has_prefix(l, seq!['#', ',']) {
            lemma_read_comments_trimmed(
                ls,
                j + 1,
                comments,
                refs,
                flags + crate::catalog::flag_items(split_on(trim_seq(l.skip(2)), ',')),
            );
        } else if has_prefix(l, seq!['#', '|']) || has_prefix(l, seq!['#', ' ']) || l == seq!['#'] {
            lemma_read_comments_trimmed(ls, j + 1, comments, refs, flags);
        }
    }
}

proof fn lemma_parse_comments_trimmed(
    ls: Seq<Seq<char>>,
    obs: Seq<bool>,
    i: int,
    acc: Seq<(Seq<char>, PoEntryView)>,
)
    requires
        all_comments_trimmed(acc),
    ensures
        all_comments_trimmed(parse_from(ls, obs, i, acc)),
    decreases ls.len() - i,
{
    if 0 <= i < ls.len() {
        if crate::catalog::is_skipped(trim_seq(ls[i])) {
            lemma_parse_comments_trimmed(ls, obs, i + 1, acc);
        } else {
            let r = read_entry(ls, obs, i);
            crate::catalog::lemma_read_entry_advances(ls, obs, i);
            let e0 = Seq::<Seq<char>>::empty();
            assert(comments_read(e0) =~= e0);
            lemma_read_comments_trimmed(ls, i, e0, e0, e0);
            let next = if r.1 < ls.len() {
                r.1
            } else {
                ls.len() as int
            };
            match r.0 {
                Some((k, v)) => {
                    assert(comments_trimmed(v));
                    let n = insert_entry(acc, k, v);
                    assert(all_comments_trimmed(n)) by {
                        let ki = crate::keyed::key_index(acc, k);
                        lemma_key_index(acc, k);
                        assert forall|j: int| 0 <= j < n.len() implies comments_trimmed(
                            #[trigger] n[j].1,
                        ) by {
                            if ki >= 0 {
                                if j != ki {
                                    assert(n[j] == acc[j]);
                                }
                            } else if j < acc.len() {
                                assert(n[j] == acc[j]);
                            }
                        }
                    }
                    lemma_parse_comments_trimmed(ls, obs, next, n);
                },
                None => {
                    lemma_parse_comments_trimmed(ls, obs, next, acc);
                },
            }
        }
    }
}

/// Each flag has the shape the reader splits flags by.
pub open spec fn flags_ok(v: PoEntryView) -> bool {
    forall|i: int| 0 <= i < v.flags.len() ==> flag_ok(#[trigger] v.flags[i])
}

/// Every entry's flags have that shape.
pub open spec fn all_flags_ok(cat: Seq<(Seq<char>, PoEntryView)>) -> bool {
    forall|j: int| 0 <= j < cat.len() ==> flags_ok(#[trigger] cat[j].1)
}

/// Each comment is a `#.` line that stays one physical line.
pub open spec fn comments_safe(v: PoEntryView) -> bool {
    forall|i: int| 0 <= i < v.comments.len() ==> comment_safe(#[trigger] v.comments[i])
}

/// Every entry's comments are such lines.
pub open spec fn all_comments_safe(cat: Seq<(Seq<char>, PoEntryView)>) -> bool {
    forall|j: int| 0 <= j < cat.len() ==> comments_safe(#[trigger] cat[j].1)
}

/// A line without a newline, trimmed, is a physical line when something is
/// left.
proof fn lemma_trim_phys(s: Seq<char>)
    requires
        crate::text::lacks(s, '\n'),
        trim_seq(s).len() > 0,
    ensures
        phys_ok(trim_seq(s)),
{
    crate::text::lemma_trim_lacks(s, '\n');
    crate::text::lemma_trim_end_shape(trim_start_seq(s));
    assert(is_ws('\r'));
    let t = trim_seq(s);
    assert(t.last() == t[t.len() - 1]);
}

/// The items of a flag list without commas or newlines are flags the reader
/// gets back.
proof fn lemma_flag_items_ok(parts: Seq<Seq<char>>)
    requires
        forall|i: int| 0 <= i < parts.len() ==> crate::text::lacks(#[trigger] parts[i], ',')
            && crate::text::lacks(parts[i], '\n'),
    ensures
        forall|i: int| 0 <= i < crate::catalog::flag_items(parts).len() ==> flag_ok(
            #[trigger] crate::catalog::flag_items(parts)[i],
        ),
    decreases parts.len(),
{
    if parts.len() > 0 {
        let d = parts.drop_last();
        assert forall|i: int| 0 <= i < d.len() implies crate::text::lacks(#[trigger] d[i], ',')
            && crate::text::lacks(d[i], '\n') by {
            assert(d[i] == parts[i]);
        }
        lemma_flag_items_ok(d);
        let p = parts.last();
        assert(crate::text::lacks(parts[parts.len() - 1], ','));
        assert(crate::text::lacks(parts[parts.len() - 1], '\n'));
        let f = trim_seq(p);
        if f.len() > 0 {
            crate::text::lemma_trim_lacks(p, ',');
            crate::text::lemma_trim_lacks(p, '\n');
            crate::text::lemma_trim_idem(p);
            crate::text::lemma_trim_start_shape(p);
            let a = trim_start_seq(p);
            crate::text::lemma_trim_end_shape(a);
            assert(f[0] == a[0]);
            let r = crate::catalog::flag_items(parts);
            let r0 = crate::catalog::flag_items(d);
            assert(r == r0.push(f));
            assert forall|i: int| 0 <= i < r.len() implies flag_ok(#[trigger] r[i]) by {
                if i < r0.len() {
                    assert(r[i] == r0[i]);
                } else {
                    assert(r[i] == f);
                    assert forall|k: int| 0 <= k < f.len() implies #[trigger] f[k] != ',' && f[k]
                        != '\n' by {}
                }
            }
        } else {
            assert(crate::catalog::flag_items(parts) == crate::catalog::flag_items(d) + Seq::<
                Seq<char>,
            >::empty());
            assert(crate::catalog::flag_items(parts) =~= crate::catalog::flag_items(d));
        }
    }
}

proof fn lemma_read_comments_flags(
    ls: Seq<Seq<char>>,
    j: int,
    comments: Seq<Seq<char>>,
    refs: Seq<Seq<char>>,
    flags: Seq<Seq<char>>,
)
    requires
        forall|q: int| 0 <= q < ls.len() ==> crate::text::lacks(#[trigger] ls[q], '\n'),
        forall|i: int| 0 <= i < flags.len() ==> flag_ok(#[trigger] flags[i]),
        forall|i: int| 0 <= i < comments.len() ==> comment_safe(#[trigger] comments[i]),
    ensures
        forall|i: int|
            0 <= i < read_comments(ls, j, comments, refs, flags).2.len() ==> flag_ok(
                #[trigger] read_comments(ls, j, comments, refs, flags).2[i],
            ),
        forall|i: int|
            0 <= i < read_comments(ls, j, comments, refs, flags).0.len() ==> comment_safe(
                #[trigger] read_comments(ls, j, comments, refs, flags).0[i],
            ),
    decreases ls.len() - j,
{
    if 0 <= j < ls.len() {
        let l = trim_seq(ls[j]);
        if has_prefix(l, seq!['#', '.']) {
            assert(crate::text::lacks(ls[j], '\n'));
            assert(l.len() >= 2);
            lemma_trim_phys(ls[j]);
            let nc = comments.push(l);
            assert forall|i: int| 0 <= i < nc.len() implies comment_safe(#[trigger] nc[i]) by {
                if i < comments.len() {
                    assert(nc[i] == comments[i]);
                }
            }
            lemma_read_comments_flags(ls, j + 1, comments.push(l), refs, flags);
            assert(read_comments(ls, j, comments, refs, flags) == read_comments(
                ls,
                j + 1,
                comments.push(l),
                refs,
                flags,
            ));
        } else if has_prefix(l, seq!['#', ':']) {
            lemma_read_comments_flags(
                ls,
                j + 1,
                comments,
                refs + words_of(trim_seq(l.skip(2))),
                flags,
            );
            assert(read_comments(ls, j, comments, refs, flags) == read_comments(
                ls,
                j + 1,
                comments,
                refs + words_of(trim_seq(l.skip(2))),
                flags,
            ));
        } else if has_prefix(l, seq!['#', ',']) {
            let t = trim_seq(l.skip(2));
            assert(crate::text::lacks(ls[j], '\n'));
            crate::text::lemma_trim_lacks(ls[j], '\n');
            let sk = l.skip(2);
            assert forall|k: int| 0 <= k < sk.len() implies #[trigger] sk[k] != '\n' by {
                assert(sk[k] == l[k + 2]);
            }
            crate::text::lemma_trim_lacks(sk, '\n');
            crate::text::lemma_split_on_lacks(t, ',', '\n');
            let items = crate::catalog::flag_items(split_on(t, ','));
            lemma_flag_items_ok(split_on(t, ','));
            let nf = flags + items;
            assert forall|i: int| 0 <= i < nf.len() implies flag_ok(#[trigger] nf[i]) by {
                if i < flags.len() {
                    assert(nf[i] == flags[i]);
                } else {
                    assert(nf[i] == items[i - flags.len()]);
                }
            }
            lemma_read_comments_flags(ls, j + 1, comments, refs, nf);
            assert(read_comments(ls, j, comments, refs, flags) == read_comments(
                ls,
                j + 1,
                comments,
                refs,
                nf,
            ));
        } else if has_prefix(l, seq!['#', '|']) || has_prefix(l, seq!['#', ' ']) || l == seq!['#'] {
            lemma_read_comments_flags(ls, j + 1, comments, refs, flags);
            assert(read_comments(ls, j, comments, refs, flags) == read_comments(
                ls,
                j + 1,
                comments,
                refs,
                flags,
            ));
        } else {
            assert(read_comments(ls, j, comments, refs, flags).2 == flags);
            assert(read_comments(ls, j, comments, refs, flags).0 == comments);
        }
    } else {
        assert(read_comments(ls, j, comments, refs, flags).2 == flags);
        assert(read_comments(ls, j, comments, refs, flags).0 == comments);
    }
}

proof fn lemma_parse_flags_ok(
    ls: Seq<Seq<char>>,
    obs: Seq<bool>,
    i: int,
    acc: Seq<(Seq<char>, PoEntryView)>,
)
    requires
        forall|q: int| 0 <= q < ls.len() ==> crate::text::lacks(#[trigger] ls[q], '\n'),
        all_flags_ok(acc),
        all_comments_safe(acc),
    ensures
        all_flags_ok(parse_from(ls, obs, i, acc)),
        all_comments_safe(parse_from(ls, obs, i, acc)),
    decreases ls.len() - i,
{
    if 0 <= i < ls.len() {
        if crate::catalog::is_skipped(trim_seq(ls[i])) {
            lemma_parse_flags_ok(ls, obs, i + 1, acc);
        } else {
            let r = read_entry(ls, obs, i);
            crate::catalog::lemma_read_entry_advances(ls, obs, i);
            let e0 = Seq::<Seq<char>>::empty();
            lemma_read_comments_flags(ls, i, e0, e0, e0);
            let next = if r.1 < ls.len() {
                r.1
            } else {
                ls.len() as int
            };
            match r.0 {
                Some((k, v)) => {
                    assert(flags_ok(v));
                    assert(comments_safe(v));
                    let n = insert_entry(acc, k, v);
                    assert(all_flags_ok(n) && all_comments_safe(n)) by {
                        let ki = crate::keyed::key_index(acc, k);
                        lemma_key_index(acc, k);
                        assert forall|j: int| 0 <= j < n.len() implies flags_ok(#[trigger] n[j].1)
                            && comments_safe(n[j].1) by {
                            if ki >= 0 {
                                if j != ki {
                                    assert(n[j] == acc[j]);
                                }
                            } else if j < acc.len() {
                                assert(n[j] == acc[j]);
                            }
                        }
                    }
                    lemma_parse_flags_ok(ls, obs, next, n);
                },
                None => {
                    lemma_parse_flags_ok(ls, obs, next, acc);
                },
            }
        }
    }
}

/// The lines the reader works on hold no newline.
proof fn lemma_unwrapped_lack_newline(content: Seq<char>)
    ensures
        forall|q: int|
            0 <= q < crate::catalog::unwrapped_lines(content).len() ==> crate::text::lacks(
                #[trigger] crate::catalog::unwrapped_lines(content)[q],
                '\n',
            ),
{
    let raw = lines_of(content);
    crate::text::lemma_lines_lack_newline(content);
    let ls = crate::catalog::unwrapped_lines(content);
    assert forall|q: int| 0 <= q < ls.len() implies crate::text::lacks(#[trigger] ls[q], '\n') by {
        let l = raw[q];
        assert(crate::text::lacks(l, '\n'));
        assert(ls[q] == crate::catalog::unwrap_line(l).1);
        crate::text::lemma_trim_lacks(l, '\n');
        let t = trim_start_seq(l);
        if has_prefix(t, seq!['#', '~']) {
            let sk = t.skip(2);
            assert forall|k: int| 0 <= k < sk.len() implies #[trigger] sk[k] != '\n' by {
                assert(sk[k] == t[k + 2]);
            }
            crate::text::lemma_trim_lacks(sk, '\n');
        }
    }
}

/// What the reader makes of any text: each entry stands under its own key
/// (context and msgid), no key twice; the header (empty msgid, no context)
/// is never among them; every entry has at least one translation (an empty
/// one when its block has no `msgstr` line); every comment is a trimmed
/// `#.` line; and every flag has the shape the reader splits flags by.
pub proof fn law_parsed_entries(content: Seq<char>)
    ensures
        well_keyed(parse_po_file_spec(content)),
        distinct_pair_keys(parse_po_file_spec(content)),
        all_read_ok(parse_po_file_spec(content)),
        all_comments_trimmed(parse_po_file_spec(content)),
        all_flags_ok(parse_po_file_spec(content)),
        all_comments_safe(parse_po_file_spec(content)),
{
    lemma_unwrapped_lack_newline(content);
    lemma_parse_flags_ok(
        crate::catalog::unwrapped_lines(content),
        crate::catalog::obsolete_marks(content),
        0,
        Seq::<(Seq<char>, PoEntryView)>::empty(),
    );
    lemma_parse_comments_trimmed(
        crate::catalog::unwrapped_lines(content),
        crate::catalog::obsolete_marks(content),
        0,
        Seq::<(Seq<char>, PoEntryView)>::empty(),
    );
    let e0 = Seq::<(Seq<char>, PoEntryView)>::empty();
    lemma_parse_keyed(
        crate::catalog::unwrapped_lines(content),
        crate::catalog::obsolete_marks(content),
        0,
        e0,
    );
    lemma_parse_entries_ok(
        crate::catalog::unwrapped_lines(content),
        crate::catalog::obsolete_marks(content),
        0,
        e0,
    );
}

} // verus!
