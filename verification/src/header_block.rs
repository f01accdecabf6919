//! Why the reader passes over any header block: `#` lines, an entry with an
//! empty msgid, its translation and continuation lines, then a blank line.
use vstd::prelude::*;
use crate::catalog::{
    continuation, entries_text, is_skipped, obsolete_marks, parse_from, parse_po_file_spec,
    read_comments, read_entry, read_msgstrs, unwrapped_lines,
};
use crate::catalog_file::{
    header_line_ok, lemma_header_line_ok, lemma_lines_text, lemma_trim_blank_lines, lines_text,
    nl,
};
use crate::po::{parse_po_string_spec, PoEntryView, PoOptionsView};
use crate::quoting::no_newline;
use crate::readback::{
    all_readable, blank_next, body_lines, body_marks, distinct_keys, keyed_entries,
    lemma_prefix_char, marks_of, phys_ok, raw_body, read_views, unwrapped_of,
};
use crate::text::{has_prefix, is_ws, join_seq, lines_of, trim_end_seq, trim_seq, trim_start_seq};

verus! {

/// A line the comment reader takes in: `#.`, `#:`, `#,`, `#|`, `# ` or a
/// bare `#`.
pub open spec fn comment_read(t: Seq<char>) -> bool {
    ||| has_prefix(t, seq!['#', '.'])
    ||| has_prefix(t, seq!['#', ':'])
    ||| has_prefix(t, seq!['#', ','])
    ||| has_prefix(t, seq!['#', '|'])
    ||| has_prefix(t, seq!['#', ' '])
    ||| t == seq!['#']
}

/// The lines of a header block: `#` lines, then at line `c` a `msgid` whose
/// value reads as empty, a `msgstr` line, and quoted continuation lines;
/// each line trimmed, on its own, and not marked obsolete; the last ending
/// in a closing quote.
pub open spec fn header_block_lines(hl: Seq<Seq<char>>, c: int) -> bool {
    &&& 0 <= c && c + 2 <= hl.len()
    &&& forall|i: int| 0 <= i < hl.len() ==> header_line_ok(#[trigger] hl[i])
    &&& forall|i: int| 0 <= i < c ==> (#[trigger] hl[i])[0] == '#'
    &&& has_prefix(hl[c], "msgid "@)
    &&& parse_po_string_spec(hl[c].skip(6)).len() == 0
    &&& has_prefix(hl[c + 1], "msgstr"@)
    &&& forall|i: int| c + 1 < i < hl.len() ==> (#[trigger] hl[i])[0] == '"'
    &&& hl[hl.len() - 1].last() == '"'
}

/// A header's text made of block lines, each but the last followed by a
/// newline.
pub open spec fn header_block(h: Seq<char>, hl: Seq<Seq<char>>, c: int) -> bool {
    header_block_lines(hl, c) && h + nl() == lines_text(hl)
}

/// A header block's text is its lines joined by newlines, and ends with a
/// closing quote.
pub proof fn lemma_block_text(h: Seq<char>, hl: Seq<Seq<char>>, c: int)
    requires
        header_block(h, hl, c),
    ensures
        h == join_seq(hl, seq!['\n']),
        lines_of(h) == hl,
        h.len() > 0,
        h.last() == '"',
        forall|i: int| 0 <= i < hl.len() ==> phys_ok(#[trigger] hl[i]),
{
    let n = hl.len() as int;
    assert forall|i: int| 0 <= i < hl.len() implies phys_ok(#[trigger] hl[i]) by {
        assert(header_line_ok(hl[i]));
    }
    crate::catalog_file::lemma_lines_text_join(hl);
    let j = join_seq(hl, seq!['\n']);
    assert(h + nl() == j + nl());
    assert(h =~= j) by {
        assert((h + nl()).len() == (j + nl()).len());
        assert(h.len() == j.len());
        assert forall|k: int| 0 <= k < h.len() implies h[k] == j[k] by {
            assert((h + nl())[k] == (j + nl())[k]);
        }
    }
    crate::readback::lemma_lines_of_join(hl);
    assert(header_line_ok(hl[n - 1]));
    assert(hl.last() == hl[n - 1]);
    crate::readback::lemma_join_last(hl, seq!['\n']);
}

/// Where the comment reader stops: after the lines it takes in, at the first
/// it does not.
pub proof fn lemma_read_comments_end(
    ls: Seq<Seq<char>>,
    j: int,
    cm: Seq<Seq<char>>,
    rf: Seq<Seq<char>>,
    fl: Seq<Seq<char>>,
)
    requires
        0 <= j,
    ensures
        j <= read_comments(ls, j, cm, rf, fl).3,
        read_comments(ls, j, cm, rf, fl).3 <= ls.len() || read_comments(ls, j, cm, rf, fl).3 == j,
        forall|idx: int|
            j <= idx < read_comments(ls, j, cm, rf, fl).3 ==> idx < ls.len() && comment_read(
                trim_seq(#[trigger] ls[idx]),
            ),
        read_comments(ls, j, cm, rf, fl).3 < ls.len() ==> !comment_read(
            trim_seq(ls[read_comments(ls, j, cm, rf, fl).3]),
        ),
    decreases ls.len() - j,
{
    if j < ls.len() {
        let l = trim_seq(ls[j]);
        if has_prefix(l, seq!['#', '.']) {
            lemma_read_comments_end(ls, j + 1, cm.push(l), rf, fl);
        } else if has_prefix(l, seq!['#', ':']) {
            lemma_read_comments_end(
                ls,
                j + 1,
                cm,
                rf + crate::text::words_of(trim_seq(l.skip(2))),
                fl,
            );
        } else if has_prefix(l, seq!['#', ',']) {
            lemma_read_comments_end(
                ls,
                j + 1,
                cm,
                rf,
                fl + crate::catalog::flag_items(crate::text::split_on(trim_seq(l.skip(2)), ',')),
            );
        } else if has_prefix(l, seq!['#', '|']) || has_prefix(l, seq!['#', ' ']) || l == seq!['#'] {
            lemma_read_comments_end(ls, j + 1, cm, rf, fl);
        }
    }
}

/// Quoted lines are taken in up to the first line that is not one.
proof fn lemma_continuation_end(ls: Seq<Seq<char>>, k: int, raw: Seq<char>, m: int)
    requires
        0 <= k <= m <= ls.len(),
        forall|idx: int| k <= idx < m ==> has_prefix(trim_seq(#[trigger] ls[idx]), seq!['"']),
        m < ls.len() ==> !has_prefix(trim_seq(ls[m]), seq!['"']),
    ensures
        continuation(ls, k, raw).1 == m,
    decreases m - k,
{
    if k < m {
        lemma_continuation_end(ls, k + 1, raw + seq!['\n'] + trim_seq(ls[k]), m);
    }
}

/// A header line starts with its first character.
proof fn lemma_line_start(l: Seq<char>, p: Seq<char>)
    requires
        header_line_ok(l),
        p.len() > 0,
        l[0] != p[0],
    ensures
        trim_seq(l) == l,
        !has_prefix(l, p),
{
    lemma_header_line_ok(l);
    if has_prefix(l, p) {
        lemma_prefix_char(l, p, 0);
    }
}

/// The entry read from line `i` when the comment reader stops at the block's
/// `msgid` line: it has an empty msgid and no context, so none is taken, and
/// reading goes on after the blank line that ends the block.
proof fn lemma_block_entry(
    ls: Seq<Seq<char>>,
    obs: Seq<bool>,
    hl: Seq<Seq<char>>,
    c: int,
    rest: Seq<Seq<char>>,
    i: int,
)
    requires
        ls == hl + rest,
        header_block_lines(hl, c),
        blank_next(rest),
        0 <= i <= c,
        read_comments(ls, i, seq![], seq![], seq![]).3 == c,
    ensures
        read_entry(ls, obs, i).0 is None,
        read_entry(ls, obs, i).1 == hl.len() + 1,
{
    reveal_strlit("msgctxt ");
    reveal_strlit("msgid ");
    reveal_strlit("msgid_plural ");
    reveal_strlit("msgstr");
    let l0 = ls[c];
    let l1 = ls[c + 1];
    assert(l0 == hl[c] && l1 == hl[c + 1]);
    assert(header_line_ok(hl[c]) && header_line_ok(hl[c + 1]));
    lemma_header_line_ok(l0);
    lemma_header_line_ok(l1);
    if has_prefix(l0, "msgctxt "@) {
        lemma_prefix_char(l0, "msgctxt "@, 3);
        lemma_prefix_char(l0, "msgid "@, 3);
    }
    lemma_prefix_char(l1, "msgstr"@, 0);
    assert(!has_prefix(l1, seq!['"'])) by {
        if has_prefix(l1, seq!['"']) {
            lemma_prefix_char(l1, seq!['"'], 0);
        }
    }
    let idraw = l0.skip(6);
    assert(continuation(ls, c + 1, idraw) == (idraw, c + 1));
    if has_prefix(l1, "msgid_plural "@) {
        lemma_prefix_char(l1, "msgid_plural "@, 4);
        lemma_prefix_char(l1, "msgstr"@, 4);
    }
    let n = hl.len() as int;
    assert forall|idx: int| c + 2 <= idx < n implies has_prefix(trim_seq(#[trigger] ls[idx]), seq!['"']) by {
        assert(ls[idx] == hl[idx]);
        assert(header_line_ok(hl[idx]));
        lemma_header_line_ok(hl[idx]);
        assert(hl[idx].take(1) =~= seq!['"']);
    }
    if n < ls.len() {
        assert(ls[n] == rest[0]);
        assert(trim_seq(ls[n]) == Seq::<char>::empty()) by {
            assert(rest[0].len() == 0);
            assert(crate::text::trim_start_seq(rest[0]) == rest[0]);
        }
    }
    let head = crate::catalog::msgstr_head(trim_seq(l1));
    lemma_continuation_end(ls, c + 2, head, n);
    let (raw, k2) = continuation(ls, c + 2, head);
    assert(k2 == n);
    let x = parse_po_string_spec(raw);
    assert(!(0 <= n < ls.len() && has_prefix(trim_seq(ls[n]), "msgstr"@)));
    assert(read_msgstrs(ls, n, seq![x]) == (seq![x], n));
    assert(read_msgstrs(ls, c + 1, seq![]) == (seq![x], n));
}

/// From any line of a header block up to its `msgid` line, reading passes
/// over the block and the blank line after it, taking no entry.
pub proof fn lemma_block_pass(
    ls: Seq<Seq<char>>,
    obs: Seq<bool>,
    hl: Seq<Seq<char>>,
    c: int,
    rest: Seq<Seq<char>>,
    acc: Seq<(Seq<char>, PoEntryView)>,
    i: int,
)
    requires
        ls == hl + rest,
        header_block_lines(hl, c),
        blank_next(rest),
        0 <= i <= c,
    ensures
        parse_from(ls, obs, i, acc) == parse_from(
            ls,
            obs,
            if rest.len() > 0 {
                hl.len() as int + 1
            } else {
                hl.len() as int
            },
            acc,
        ),
    decreases c - i,
{
    let e0 = Seq::<Seq<char>>::empty();
    let n = hl.len() as int;
    let target = if rest.len() > 0 {
        n + 1
    } else {
        n
    };
    lemma_read_comments_end(ls, i, e0, e0, e0);
    let j = read_comments(ls, i, e0, e0, e0).3;
    assert(ls[c] == hl[c]);
    assert(header_line_ok(hl[c]));
    reveal_strlit("msgid ");
    lemma_prefix_char(hl[c], "msgid "@, 0);
    lemma_line_start(hl[c], seq!['#']);
    assert(!comment_read(trim_seq(ls[c]))) by {
        if comment_read(trim_seq(ls[c])) {
            assert(trim_seq(ls[c]) == hl[c]);
            if hl[c] == seq!['#'] {
                assert(hl[c][0] == '#');
            } else {
                assert(has_prefix(hl[c], seq!['#', '.']) || has_prefix(hl[c], seq!['#', ':'])
                    || has_prefix(hl[c], seq!['#', ',']) || has_prefix(hl[c], seq!['#', '|'])
                    || has_prefix(hl[c], seq!['#', ' ']));
                assert(hl[c].take(2)[0] == hl[c][0]);
            }
        }
    }
    assert(j <= c) by {
        if j > c {
            assert(comment_read(trim_seq(ls[c])));
        }
    }
    assert(!is_skipped(trim_seq(ls[c]))) by {
        assert(trim_seq(ls[c]) == hl[c]);
        assert(hl[c].len() > 0);
    }
    if i == c {
        lemma_block_entry(ls, obs, hl, c, rest, c);
    } else {
        assert(ls[i] == hl[i]);
        assert(header_line_ok(hl[i]));
        lemma_header_line_ok(hl[i]);
        let t = trim_seq(ls[i]);
        assert(t == hl[i]);
        if is_skipped(t) {
            lemma_block_pass(ls, obs, hl, c, rest, acc, i + 1);
        } else if j == c {
            lemma_block_entry(ls, obs, hl, c, rest, i);
        } else {
            assert(i <= j < c);
            assert(ls[j] == hl[j]);
            assert(header_line_ok(hl[j]));
            lemma_header_line_ok(hl[j]);
            assert(hl[j][0] == '#');
            reveal_strlit("msgctxt ");
            lemma_line_start(hl[j], "msgctxt "@);
            lemma_line_start(hl[j], "msgid "@);
            assert(read_entry(ls, obs, i) == (None::<(Seq<char>, PoEntryView)>, j + 1));
            lemma_block_pass(ls, obs, hl, c, rest, acc, j + 1);
        }
    }
}

/// Blank lines after text that ends in other than whitespace are cut.
proof fn lemma_trim_blank_end(t: Seq<char>)
    requires
        t.len() > 0,
        !is_ws(t.last()),
    ensures
        trim_end_seq(t + seq!['\n', '\n']) == t,
{
    assert(is_ws('\n'));
    let t2 = t + seq!['\n', '\n'];
    assert(t2.drop_last() =~= t + seq!['\n']);
    assert((t + seq!['\n']).drop_last() =~= t);
    assert(trim_end_seq(t) == t);
    assert(trim_end_seq(t + seq!['\n']) == trim_end_seq(t));
    assert(trim_end_seq(t2) == trim_end_seq(t + seq!['\n']));
}

/// The lines of a catalog of a header block and entries, as the reader sees
/// them, and whether it marks them obsolete.
#[verifier::spinoff_prover]
#[verifier::rlimit(40)]
proof fn lemma_block_file_lines(
    h: Seq<char>,
    hl: Seq<Seq<char>>,
    c: int,
    es: Seq<PoEntryView>,
    o: PoOptionsView,
)
    requires
        header_block(h, hl, c),
        es.len() > 0,
        all_readable(es, o),
    ensures
        ({
            let text = trim_end_seq(h + seq!['\n', '\n'] + entries_text(es, o));
            let rest = seq![Seq::<char>::empty()] + body_lines(es, o).drop_last();
            &&& unwrapped_lines(text) == hl + rest
            &&& obsolete_marks(text).len() == unwrapped_lines(text).len()
            &&& obsolete_marks(text).skip(hl.len() as int + 1) == body_marks(es, o).drop_last()
        }),
{
    let n = hl.len() as int;
    let d = es.drop_last();
    let x = es.last();
    crate::readback::lemma_readable_drop_last(es, o);
    crate::readback::lemma_entry_text_ends(x, o);
    crate::readback::lemma_written_lines(x, o);
    crate::readback::lemma_raw_body(d, o);
    crate::readback::lemma_raw_body(es, o);
    let ed = entries_text(d, o);
    let e1 = ed + crate::po::format_entry_spec(x, o);
    assert(entries_text(es, o) == e1 + seq!['\n', '\n']);
    lemma_trim_blank_lines(h + seq!['\n', '\n'] + e1);
    let text = trim_end_seq(h + seq!['\n', '\n'] + entries_text(es, o));
    assert(h + seq!['\n', '\n'] + entries_text(es, o) =~= (h + seq!['\n', '\n'] + e1) + seq![
        '\n',
        '\n',
    ]);
    assert(text == h + seq!['\n', '\n'] + e1);
    assert forall|i: int| 0 <= i < hl.len() implies phys_ok(#[trigger] hl[i]) by {
        assert(header_line_ok(hl[i]));
    }
    let tail = seq!['\n'] + e1;
    assert(text =~= lines_text(hl) + tail);
    lemma_lines_text(hl, tail);
    assert(no_newline(Seq::<char>::empty()));
    assert(tail =~= Seq::<char>::empty() + seq!['\n'] + e1);
    crate::quoting::lemma_lines_cons(Seq::<char>::empty(), e1);
    assert(ed.len() == 0 || ed.last() == '\n');
    crate::readback::lemma_lines_append(ed, crate::po::format_entry_spec(x, o));
    let rb = raw_body(es, o);
    assert(rb == raw_body(d, o) + crate::readback::raw_block(x, o));
    assert(lines_of(e1) =~= rb.drop_last());
    let raw = lines_of(text);
    assert(raw == hl + (seq![Seq::<char>::empty()] + rb.drop_last()));
    let ls = unwrapped_lines(text);
    let obs = obsolete_marks(text);
    let rest = seq![Seq::<char>::empty()] + body_lines(es, o).drop_last();
    assert(unwrapped_of(rb) == body_lines(es, o));
    assert(marks_of(rb) == body_marks(es, o));
    assert forall|i: int| 0 <= i < raw.len() implies ls[i] == (hl + rest)[i] by {
        if i < n {
            assert(raw[i] == hl[i]);
            assert(header_line_ok(hl[i]));
            lemma_header_line_ok(hl[i]);
        } else if i == n {
            assert(raw[i] == Seq::<char>::empty());
            assert(trim_start_seq(Seq::<char>::empty()) == Seq::<char>::empty());
        } else {
            assert(raw[i] == rb[i - n - 1]);
            assert(unwrapped_of(rb)[i - n - 1] == crate::catalog::unwrap_line(rb[i - n - 1]).1);
        }
    }
    assert(ls =~= hl + rest);
    assert forall|t: int| 0 <= t < obs.len() - (n + 1) implies obs.skip(n + 1)[t] == body_marks(
        es,
        o,
    ).drop_last()[t] by {
        assert(obs.skip(n + 1)[t] == obs[n + 1 + t]);
        assert(raw[n + 1 + t] == rb[t]);
        assert(marks_of(rb)[t] == crate::catalog::unwrap_line(rb[t]).0);
    }
    assert(obs.skip(n + 1) =~= body_marks(es, o).drop_last());
}

/// A catalog made of a header block, a blank line and entries reads back as
/// those entries (as `read_view` says), in order, each under its key: for
/// entries that each read back alone and whose keys differ.
pub proof fn lemma_block_reads_back(
    h: Seq<char>,
    hl: Seq<Seq<char>>,
    c: int,
    w: Seq<PoEntryView>,
    o: PoOptionsView,
)
    requires
        header_block(h, hl, c),
        all_readable(w, o),
        distinct_keys(w),
    ensures
        parse_po_file_spec(trim_end_seq(h + seq!['\n', '\n'] + entries_text(w, o)))
            == keyed_entries(read_views(w, o)),
{
    let e0 = Seq::<(Seq<char>, PoEntryView)>::empty();
    let n = hl.len() as int;
    if w.len() == 0 {
        assert(entries_text(w, o) == Seq::<char>::empty());
        assert(h + seq!['\n', '\n'] + entries_text(w, o) =~= h + seq!['\n', '\n']);
        lemma_block_text(h, hl, c);
        lemma_trim_blank_end(h);
        let ls = unwrapped_lines(h);
        let obs = obsolete_marks(h);
        assert forall|i: int| 0 <= i < hl.len() implies ls[i] == hl[i] by {
            assert(header_line_ok(hl[i]));
            lemma_header_line_ok(hl[i]);
        }
        assert(ls =~= hl + Seq::<Seq<char>>::empty());
        lemma_block_pass(ls, obs, hl, c, Seq::<Seq<char>>::empty(), e0, 0);
        assert(parse_from(ls, obs, n, e0) == e0);
        assert(keyed_entries(read_views(w, o)) =~= e0);
    } else {
        let text = trim_end_seq(h + seq!['\n', '\n'] + entries_text(w, o));
        lemma_block_file_lines(h, hl, c, w, o);
        let ls = unwrapped_lines(text);
        let obs = obsolete_marks(text);
        let rest = seq![Seq::<char>::empty()] + body_lines(w, o).drop_last();
        lemma_block_pass(ls, obs, hl, c, rest, e0, 0);
        assert(ls.skip(n + 1) =~= body_lines(w, o).drop_last());
        crate::readback::lemma_parse_entries_trimmed(ls, obs, n + 1, w, e0, o);
        crate::readback::lemma_views_distinct(w, o);
        crate::readback::lemma_insert_all_distinct(e0, read_views(w, o));
        assert(e0 + keyed_entries(read_views(w, o)) =~= keyed_entries(read_views(w, o)));
    }
}

/// A fresh header is a header block, its `msgid` on line 6.
pub proof fn lemma_fresh_block(locale: Seq<char>, secs: int)
    requires
        no_newline(locale),
    ensures
        header_block(
            crate::po::header_spec(locale, secs),
            crate::catalog_file::header_lines(locale, secs),
            6,
        ),
{
    let hl = crate::catalog_file::header_lines(locale, secs);
    crate::catalog_file::lemma_header_lines_ok(locale, secs);
    crate::catalog_file::lemma_header_text(locale, secs);
    reveal_strlit("# SOME DESCRIPTIVE TITLE.");
    reveal_strlit("# Copyright (C) YEAR THE PACKAGE'S COPYRIGHT HOLDER");
    reveal_strlit("# This file is distributed under the same license as the PACKAGE package.");
    reveal_strlit("# FIRST AUTHOR <EMAIL@ADDRESS>, YEAR.");
    reveal_strlit("#");
    reveal_strlit("#, fuzzy");
    reveal_strlit(r#"msgid """#);
    reveal_strlit(r#"msgstr """#);
    reveal_strlit("msgid ");
    reveal_strlit("msgstr");
    assert forall|i: int| 0 <= i < 6 implies (#[trigger] hl[i])[0] == '#' by {
        assert(hl[i] == crate::catalog_file::header_fixed(i));
    }
    assert(hl[6] == crate::catalog_file::header_fixed(6));
    assert(hl[7] == crate::catalog_file::header_fixed(7));
    assert(hl[6].take(6) =~= "msgid "@);
    assert(hl[6].skip(6) =~= seq!['"', '"']);
    crate::catalog_file::lemma_empty_po_string();
    assert(hl[7].take(6) =~= "msgstr"@);
    assert(hl[18].last() == '"') by {
        crate::catalog_file::lemma_header_middle();
        assert(hl[18] == crate::catalog_file::header_line(18, locale, secs));
    }
}

} // verus!
