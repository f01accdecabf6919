//! Reading PO catalogs into ordered maps of entries, and merging freshly
//! extracted messages into an existing catalog.
use vstd::prelude::*;
use indexmap::IndexMap;
use crate::text::{
    chars_eq, chars_of, has_prefix, index_of, lemma_index_of, lines, lines_of, seqs_of,
    split_char, split_on, split_whitespace, starts_with, starts_with_str, string_of, trim, trim_seq,
    trim_start, trim_start_seq, words_of,
};
use crate::extractor::{opt_view, strings_of, strings_view};
use crate::keyed::{
    index_entries, index_get, index_insert, index_new, insert_entry, key_index, lemma_key_index,
    lemma_key_index_same_keys, map_pair_values, lemma_sort_pairs_map, lemma_sort_pairs_members,
    index_sort_keys,
};
use crate::po::{
    entry_key_spec, format_entry_spec, header_spec, parse_po_string, parse_po_string_spec, PoEntry,
    PoEntryView, PoOptionsView,
};
use crate::extractor::{EntryView, TranslationEntry};
use crate::keyed::sort_pairs;
use crate::matching::{char_span, find_spans, regex_find_spans, CharPositions};
use crate::keyed::{index_pairs, pairs_view, pair_insert_pos, lemma_sort_pairs_len};
use crate::po::{str_lt_exec, format_entry, PoFileOptions};
use crate::text::trim_end_seq;

verus! {

/// A line as the catalog reader sees it: lines marked `#~` are read as the
/// entry lines they comment out.
pub open spec fn unwrap_line(l: Seq<char>) -> (bool, Seq<char>) {
    let t = trim_start_seq(l);
    if has_prefix(t, seq!['#', '~']) {
        (true, trim_start_seq(t.skip(2)))
    } else {
        (false, l)
    }
}

pub open spec fn unwrapped_lines(content: Seq<char>) -> Seq<Seq<char>> {
    lines_of(content).map_values(|l: Seq<char>| unwrap_line(l).1)
}

pub open spec fn obsolete_marks(content: Seq<char>) -> Seq<bool> {
    lines_of(content).map_values(|l: Seq<char>| unwrap_line(l).0)
}

/// A line that separates entries or is a comment the reader ignores.
pub open spec fn is_skipped(t: Seq<char>) -> bool {
    t.len() == 0 || (has_prefix(t, seq!['#']) && !has_prefix(t, seq!['#', ':']) && !has_prefix(
        t,
        seq!['#', ','],
    ) && !has_prefix(t, seq!['#', '.']))
}

/// The non-empty trimmed items of a `#,` flag list.
pub open spec fn flag_items(parts: Seq<Seq<char>>) -> Seq<Seq<char>>
    decreases parts.len(),
{
    if parts.len() == 0 {
        seq![]
    } else {
        let f = trim_seq(parts.last());
        flag_items(parts.drop_last()) + if f.len() > 0 {
            seq![f]
        } else {
            seq![]
        }
    }
}

/// The `#.`, `#:` and `#,` lines from index `j` on, and where they end.
pub open spec fn read_comments(
    ls: Seq<Seq<char>>,
    j: int,
    comments: Seq<Seq<char>>,
    refs: Seq<Seq<char>>,
    flags: Seq<Seq<char>>,
) -> (Seq<Seq<char>>, Seq<Seq<char>>, Seq<Seq<char>>, int)
    decreases ls.len() - j,
{
    if j < 0 || j >= ls.len() {
        (comments, refs, flags, j)
    } else {
        let l = trim_seq(ls[j]);
        if has_prefix(l, seq!['#', '.']) {
            read_comments(ls, j + 1, comments.push(l), refs, flags)
        } else if has_prefix(l, seq!['#', ':']) {
            read_comments(ls, j + 1, comments, refs + words_of(trim_seq(l.skip(2))), flags)
        } else if has_prefix(l, seq!['#', ',']) {
            read_comments(
                ls,
                j + 1,
                comments,
                refs,
                flags + flag_items(split_on(trim_seq(l.skip(2)), ',')),
            )
        } else if has_prefix(l, seq!['#', '|']) || has_prefix(l, seq!['#', ' ']) || l == seq!['#'] {
            read_comments(ls, j + 1, comments, refs, flags)
        } else {
            (comments, refs, flags, j)
        }
    }
}

/// The quoted continuation lines from index `k` on, each appended to `raw`
/// after a newline, and where they end.
pub open spec fn continuation(ls: Seq<Seq<char>>, k: int, raw: Seq<char>) -> (Seq<char>, int)
    decreases ls.len() - k,
{
    if 0 <= k < ls.len() && has_prefix(trim_seq(ls[k]), seq!['"']) {
        continuation(ls, k + 1, raw + seq!['\n'] + trim_seq(ls[k]))
    } else {
        (raw, k)
    }
}

pub proof fn lemma_continuation_advances(ls: Seq<Seq<char>>, k: int, raw: Seq<char>)
    ensures
        continuation(ls, k, raw).1 >= k,
        0 <= k ==> continuation(ls, k, raw).1 <= ls.len() || continuation(ls, k, raw).1 == k,
    decreases ls.len() - k,
{
    if 0 <= k < ls.len() && has_prefix(trim_seq(ls[k]), seq!['"']) {
        lemma_continuation_advances(ls, k + 1, raw + seq!['\n'] + trim_seq(ls[k]));
    }
}

/// The value part of a `msgstr[n]` line: the trimmed text after its `]`.
pub open spec fn after_bracket(t: Seq<char>) -> Seq<char> {
    let b = index_of(t, ']');
    if b >= 0 {
        trim_seq(t.skip(b + 1))
    } else {
        seq![]
    }
}

/// The start of a `msgstr` value on its first line.
pub open spec fn msgstr_head(t: Seq<char>) -> Seq<char> {
    if has_prefix(t, "msgstr["@) {
        after_bracket(t)
    } else if has_prefix(t, "msgstr "@) {
        t.skip(7)
    } else {
        seq![]
    }
}

/// The `msgstr` values from index `k` on, and where they end.
pub open spec fn read_msgstrs(ls: Seq<Seq<char>>, k: int, acc: Seq<Seq<char>>) -> (
    Seq<Seq<char>>,
    int,
)
    decreases ls.len() - k,
{
    if 0 <= k < ls.len() && has_prefix(trim_seq(ls[k]), "msgstr"@) {
        let (raw, k2) = continuation(ls, k + 1, msgstr_head(trim_seq(ls[k])));
        proof {
            lemma_continuation_advances(ls, k + 1, msgstr_head(trim_seq(ls[k])));
        }
        read_msgstrs(ls, k2, acc.push(parse_po_string_spec(raw)))
    } else {
        (acc, k)
    }
}

/// The entry that starts at line index `i` (which is not skipped), or none
/// when it has no msgid, and where reading goes on.
pub open spec fn read_entry(ls: Seq<Seq<char>>, obs: Seq<bool>, i: int) -> (
    Option<(Seq<char>, PoEntryView)>,
    int,
) {
    let (comments, refs, flags, j) = read_comments(ls, i, seq![], seq![], seq![]);
    let (ctx, k) = if 0 <= j < ls.len() && has_prefix(trim_seq(ls[j]), "msgctxt "@) {
        let (raw, k) = continuation(ls, j + 1, trim_seq(ls[j]).skip(8));
        (Some(parse_po_string_spec(raw)), k)
    } else {
        (None, j)
    };
    if k < 0 || k >= ls.len() || !has_prefix(trim_seq(ls[k]), "msgid "@) {
        (None, k + 1)
    } else {
        let (idraw, k2) = continuation(ls, k + 1, trim_seq(ls[k]).skip(6));
        let msgid = parse_po_string_spec(idraw);
        let (plural, k3) = if 0 <= k2 < ls.len() && has_prefix(
            trim_seq(ls[k2]),
            "msgid_plural "@,
        ) {
            let (r, k3) = continuation(ls, k2 + 1, trim_seq(ls[k2]).skip(13));
            (Some(parse_po_string_spec(r)), k3)
        } else {
            (None, k2)
        };
        let (ms, k4) = read_msgstrs(ls, k3, seq![]);
        let msgstr = if ms.len() == 0 {
            seq![seq![]]
        } else {
            ms
        };
        if msgid.len() == 0 && ctx is None {
            (None, k4 + 1)
        } else {
            (
                Some(
                    (
                        entry_key_spec(ctx, msgid),
                        PoEntryView {
                            comments,
                            references: refs,
                            flags,
                            msgctxt: ctx,
                            msgid,
                            msgid_plural: plural,
                            msgstr,
                            obsolete: if 0 <= i < obs.len() {
                                obs[i]
                            } else {
                                false
                            },
                        },
                    ),
                ),
                k4,
            )
        }
    }
}


pub proof fn lemma_read_comments_advances(
    ls: Seq<Seq<char>>,
    j: int,
    comments: Seq<Seq<char>>,
    refs: Seq<Seq<char>>,
    flags: Seq<Seq<char>>,
)
    ensures
        read_comments(ls, j, comments, refs, flags).3 >= j,
    decreases ls.len() - j,
{
    if 0 <= j < ls.len() {
        let l = trim_seq(ls[j]);
        if has_prefix(l, seq!['#', '.']) {
            lemma_read_comments_advances(ls, j + 1, comments.push(l), refs, flags);
        } else if has_prefix(l, seq!['#', ':']) {
            lemma_read_comments_advances(
                ls,
                j + 1,
                comments,
                refs + words_of(trim_seq(l.skip(2))),
                flags,
            );
        } else if has_prefix(l, seq!['#', ',']) {
            lemma_read_comments_advances(
                ls,
                j + 1,
                comments,
                refs,
                flags + flag_items(split_on(trim_seq(l.skip(2)), ',')),
            );
        } else if has_prefix(l, seq!['#', '|']) || has_prefix(l, seq!['#', ' ']) || l == seq!['#'] {
            lemma_read_comments_advances(ls, j + 1, comments, refs, flags);
        }
    }
}

pub proof fn lemma_read_msgstrs_advances(ls: Seq<Seq<char>>, k: int, acc: Seq<Seq<char>>)
    ensures
        read_msgstrs(ls, k, acc).1 >= k,
    decreases ls.len() - k,
{
    if 0 <= k < ls.len() && has_prefix(trim_seq(ls[k]), "msgstr"@) {
        let (raw, k2) = continuation(ls, k + 1, msgstr_head(trim_seq(ls[k])));
        lemma_continuation_advances(ls, k + 1, msgstr_head(trim_seq(ls[k])));
        lemma_read_msgstrs_advances(ls, k2, acc.push(parse_po_string_spec(raw)));
    }
}

pub proof fn lemma_read_entry_advances(ls: Seq<Seq<char>>, obs: Seq<bool>, i: int)
    ensures
        read_entry(ls, obs, i).1 > i,
{
    lemma_read_comments_advances(ls, i, seq![], seq![], seq![]);
    let (comments, refs, flags, j) = read_comments(ls, i, seq![], seq![], seq![]);
    if 0 <= j < ls.len() && has_prefix(trim_seq(ls[j]), "msgctxt "@) {
        lemma_continuation_advances(ls, j + 1, trim_seq(ls[j]).skip(8));
    }
    let (ctx, k) = if 0 <= j < ls.len() && has_prefix(trim_seq(ls[j]), "msgctxt "@) {
        let (raw, k) = continuation(ls, j + 1, trim_seq(ls[j]).skip(8));
        (Some(parse_po_string_spec(raw)), k)
    } else {
        (None, j)
    };
    if !(k < 0 || k >= ls.len() || !has_prefix(trim_seq(ls[k]), "msgid "@)) {
        lemma_continuation_advances(ls, k + 1, trim_seq(ls[k]).skip(6));
        let (idraw, k2) = continuation(ls, k + 1, trim_seq(ls[k]).skip(6));
        if 0 <= k2 < ls.len() && has_prefix(trim_seq(ls[k2]), "msgid_plural "@) {
            lemma_continuation_advances(ls, k2 + 1, trim_seq(ls[k2]).skip(13));
        }
        let (plural, k3) = if 0 <= k2 < ls.len() && has_prefix(
            trim_seq(ls[k2]),
            "msgid_plural "@,
        ) {
            let (r, k3) = continuation(ls, k2 + 1, trim_seq(ls[k2]).skip(13));
            (Some(parse_po_string_spec(r)), k3)
        } else {
            (None, k2)
        };
        lemma_read_msgstrs_advances(ls, k3, seq![]);
    }
}

/// The catalog's `(key, entry)` pairs after reading from line index `i` on,
/// starting from `acc`; a repeated key keeps its first place and takes the
/// later entry.
pub open spec fn parse_from(
    ls: Seq<Seq<char>>,
    obs: Seq<bool>,
    i: int,
    acc: Seq<(Seq<char>, PoEntryView)>,
) -> Seq<(Seq<char>, PoEntryView)>
    decreases ls.len() - i,
{
    if i < 0 || i >= ls.len() {
        acc
    } else if is_skipped(trim_seq(ls[i])) {
        parse_from(ls, obs, i + 1, acc)
    } else {
        let r = read_entry(ls, obs, i);
        proof {
            lemma_read_entry_advances(ls, obs, i);
        }
        parse_from(
            ls,
            obs,
            if r.1 < ls.len() {
                r.1
            } else {
                ls.len() as int
            },
            match r.0 {
                Some((k, v)) => insert_entry(acc, k, v),
                None => acc,
            },
        )
    }
}

/// The entries of a PO file, keyed by context and msgid, in file order; the
/// header (empty msgid, no context) is left out.
pub open spec fn parse_po_file_spec(content: Seq<char>) -> Seq<(Seq<char>, PoEntryView)> {
    parse_from(unwrapped_lines(content), obsolete_marks(content), 0, seq![])
}


pub fn unwrap_lines_exec(content: &[char]) -> (r: (Vec<Vec<char>>, Vec<bool>))
    ensures
        seqs_of(r.0@) == unwrapped_lines(content@),
        r.1@ == obsolete_marks(content@),
{
    let raw = lines(content);
    let ghost rv = seqs_of(raw@);
    let mut out: Vec<Vec<char>> = Vec::new();
    let mut marks: Vec<bool> = Vec::new();
    let mut i: usize = 0;
    while i < raw.len()
        invariant
            i <= raw@.len(),
            rv == seqs_of(raw@),
            rv == lines_of(content@),
            seqs_of(out@) == rv.take(i as int).map_values(|l: Seq<char>| unwrap_line(l).1),
            marks@ == rv.take(i as int).map_values(|l: Seq<char>| unwrap_line(l).0),
        decreases raw@.len() - i,
    {
        let l = raw[i].as_slice();
        assert(rv[i as int] == l@);
        let t = trim_start(l);
        let ghost before = out@;
        if t.len() >= 2 && t[0] == '#' && t[1] == '~' {
            assert(has_prefix(t@, seq!['#', '~'])) by {
                assert(t@.take(2) =~= seq!['#', '~']);
            }
            let rest = &t[2..t.len()];
            assert(rest@ == t@.skip(2));
            let u = trim_start(rest);
            out.push(vstd::slice::slice_to_vec(u));
            marks.push(true);
            assert(seqs_of(out@) == seqs_of(before).push(u@));
        } else {
            assert(!has_prefix(t@, seq!['#', '~'])) by {
                if t@.len() >= 2 {
                    assert(t@.take(2)[0] == t@[0] && t@.take(2)[1] == t@[1]);
                }
            }
            out.push(vstd::slice::slice_to_vec(l));
            marks.push(false);
            assert(seqs_of(out@) == seqs_of(before).push(l@));
        }
        assert(rv.take(i + 1) == rv.take(i as int).push(rv[i as int]));
        assert(rv.take(i + 1).map_values(|l: Seq<char>| unwrap_line(l).1) =~= rv.take(
            i as int,
        ).map_values(|l: Seq<char>| unwrap_line(l).1).push(unwrap_line(rv[i as int]).1));
        assert(rv.take(i + 1).map_values(|l: Seq<char>| unwrap_line(l).0) =~= rv.take(
            i as int,
        ).map_values(|l: Seq<char>| unwrap_line(l).0).push(unwrap_line(rv[i as int]).0));
        i += 1;
    }
    assert(rv.take(raw@.len() as int) == rv);
    (out, marks)
}

fn is_skipped_exec(t: &[char]) -> (r: bool)
    ensures
        r == is_skipped(t@),
{
    let hash: Vec<char> = vec!['#'];
    let hc: Vec<char> = vec!['#', ':'];
    let hk: Vec<char> = vec!['#', ','];
    let hd: Vec<char> = vec!['#', '.'];
    assert(hash@ =~= seq!['#'] && hc@ =~= seq!['#', ':'] && hk@ =~= seq!['#', ','] && hd@
        =~= seq!['#', '.']);
    t.len() == 0 || (starts_with(t, hash.as_slice()) && !starts_with(t, hc.as_slice())
        && !starts_with(t, hk.as_slice()) && !starts_with(t, hd.as_slice()))
}

fn flag_items_exec(parts: &Vec<Vec<char>>) -> (r: Vec<Vec<char>>)
    ensures
        seqs_of(r@) == flag_items(seqs_of(parts@)),
{
    let mut out: Vec<Vec<char>> = Vec::new();
    let mut i: usize = 0;
    assert(seqs_of(parts@).take(0) =~= Seq::<Seq<char>>::empty());
    while i < parts.len()
        invariant
            i <= parts@.len(),
            seqs_of(out@) == flag_items(seqs_of(parts@).take(i as int)),
        decreases parts@.len() - i,
    {
        let ghost t = seqs_of(parts@).take(i + 1);
        assert(t.drop_last() == seqs_of(parts@).take(i as int));
        assert(t.last() == parts@[i as int]@);
        let f = trim(parts[i].as_slice());
        let ghost before = out@;
        if f.len() > 0 {
            out.push(vstd::slice::slice_to_vec(f));
            assert(seqs_of(out@) == seqs_of(before) + seq![f@]);
        } else {
            assert(seqs_of(out@) == seqs_of(before) + Seq::<Seq<char>>::empty());
        }
        i += 1;
    }
    assert(seqs_of(parts@).take(parts@.len() as int) == seqs_of(parts@));
    out
}

fn append_vecs(out: &mut Vec<Vec<char>>, more: Vec<Vec<char>>)
    ensures
        seqs_of(final(out)@) == seqs_of(old(out)@) + seqs_of(more@),
{
    let mut m = more;
    let ghost a = old(out)@;
    let ghost b = m@;
    out.append(&mut m);
    assert(seqs_of(out@) =~= seqs_of(a) + seqs_of(b));
}

pub fn read_comments_exec(ls: &Vec<Vec<char>>, j0: usize) -> (r: (
    Vec<Vec<char>>,
    Vec<Vec<char>>,
    Vec<Vec<char>>,
    usize,
))
    requires
        j0 <= ls@.len(),
    ensures
        (seqs_of(r.0@), seqs_of(r.1@), seqs_of(r.2@), r.3 as int) == read_comments(
            seqs_of(ls@),
            j0 as int,
            seq![],
            seq![],
            seq![],
        ),
        r.3 <= ls@.len(),
{
    let ghost lv = seqs_of(ls@);
    let mut comments: Vec<Vec<char>> = Vec::new();
    let mut refs: Vec<Vec<char>> = Vec::new();
    let mut flags: Vec<Vec<char>> = Vec::new();
    let mut j = j0;
    let hd: Vec<char> = vec!['#', '.'];
    let hc: Vec<char> = vec!['#', ':'];
    let hk: Vec<char> = vec!['#', ','];
    let hp: Vec<char> = vec!['#', '|'];
    let hs: Vec<char> = vec!['#', ' '];
    let h: Vec<char> = vec!['#'];
    assert(hd@ =~= seq!['#', '.'] && hc@ =~= seq!['#', ':'] && hk@ =~= seq!['#', ',']);
    assert(hp@ =~= seq!['#', '|'] && hs@ =~= seq!['#', ' '] && h@ =~= seq!['#']);
    assert(seqs_of(comments@) =~= Seq::<Seq<char>>::empty());
    assert(seqs_of(refs@) =~= Seq::<Seq<char>>::empty());
    assert(seqs_of(flags@) =~= Seq::<Seq<char>>::empty());
    while j < ls.len()
        invariant
            j0 <= j <= ls@.len(),
            lv == seqs_of(ls@),
            hd@ == seq!['#', '.'] && hc@ == seq!['#', ':'] && hk@ == seq!['#', ','],
            hp@ == seq!['#', '|'] && hs@ == seq!['#', ' '] && h@ == seq!['#'],
            read_comments(lv, j0 as int, seq![], seq![], seq![]) == read_comments(
                lv,
                j as int,
                seqs_of(comments@),
                seqs_of(refs@),
                seqs_of(flags@),
            ),
        decreases ls@.len() - j,
    {
        let l = trim(ls[j].as_slice());
        assert(l@ == trim_seq(lv[j as int]));
        if starts_with(l, hd.as_slice()) {
            let ghost before = comments@;
            comments.push(vstd::slice::slice_to_vec(l));
            assert(seqs_of(comments@) == seqs_of(before).push(l@));
        } else if starts_with(l, hc.as_slice()) {
            let rest = &l[2..l.len()];
            assert(rest@ == l@.skip(2));
            let ws = split_whitespace(trim(rest));
            append_vecs(&mut refs, ws);
        } else if starts_with(l, hk.as_slice()) {
            let rest = &l[2..l.len()];
            assert(rest@ == l@.skip(2));
            let parts = split_char(trim(rest), ',');
            let items = flag_items_exec(&parts);
            append_vecs(&mut flags, items);
        } else if starts_with(l, hp.as_slice()) || starts_with(l, hs.as_slice()) || chars_eq(
            l,
            h.as_slice(),
        ) {
        } else {
            return (comments, refs, flags, j);
        }
        j += 1;
    }
    (comments, refs, flags, j)
}

pub fn continuation_exec(ls: &Vec<Vec<char>>, k0: usize, raw0: Vec<char>) -> (r: (Vec<char>, usize))
    requires
        k0 <= ls@.len(),
    ensures
        (r.0@, r.1 as int) == continuation(seqs_of(ls@), k0 as int, raw0@),
        k0 <= r.1 <= ls@.len(),
{
    let ghost lv = seqs_of(ls@);
    let mut raw = raw0;
    let mut k = k0;
    while k < ls.len()
        invariant
            k0 <= k <= ls@.len(),
            lv == seqs_of(ls@),
            continuation(lv, k0 as int, raw0@) == continuation(lv, k as int, raw@),
        decreases ls@.len() - k,
    {
        let t = trim(ls[k].as_slice());
        assert(t@ == trim_seq(lv[k as int]));
        if t.len() > 0 && t[0] == '"' {
            assert(has_prefix(t@, seq!['"'])) by {
                assert(t@.take(1) =~= seq!['"']);
            }
            let ghost old_raw = raw@;
            raw.push('\n');
            raw.extend_from_slice(t);
            assert(raw@ =~= old_raw + seq!['\n'] + t@);
            k += 1;
        } else {
            assert(!has_prefix(t@, seq!['"'])) by {
                if t@.len() > 0 {
                    assert(t@.take(1)[0] == t@[0]);
                }
            }
            return (raw, k);
        }
    }
    (raw, k)
}

fn after_bracket_exec(t: &[char]) -> (r: &[char])
    ensures
        r@ == after_bracket(t@),
{
    match crate::text::find_char(t, ']') {
        Some(b) => {
            proof {
                lemma_index_of(t@, ']');
            }
            let len = t.len();
            assert(b < len);
            let rest = &t[b + 1..len];
            assert(rest@ == t@.skip(b + 1));
            trim(rest)
        },
        None => &t[0..0],
    }
}

fn msgstr_head_exec(t: &[char]) -> (r: &[char])
    ensures
        r@ == msgstr_head(t@),
{
    if starts_with_str(t, "msgstr[") {
        after_bracket_exec(t)
    } else if starts_with_str(t, "msgstr ") {
        proof {
            reveal_strlit("msgstr ");
        }
        let rest = &t[7..t.len()];
        assert(rest@ == t@.skip(7));
        rest
    } else {
        &t[0..0]
    }
}

pub fn read_msgstrs_exec(ls: &Vec<Vec<char>>, k0: usize) -> (r: (Vec<Vec<char>>, usize))
    requires
        k0 <= ls@.len(),
    ensures
        (seqs_of(r.0@), r.1 as int) == read_msgstrs(seqs_of(ls@), k0 as int, seq![]),
        k0 <= r.1 <= ls@.len(),
{
    let ghost lv = seqs_of(ls@);
    let mut acc: Vec<Vec<char>> = Vec::new();
    let mut k = k0;
    assert(seqs_of(acc@) =~= Seq::<Seq<char>>::empty());
    while k < ls.len()
        invariant
            k0 <= k <= ls@.len(),
            lv == seqs_of(ls@),
            read_msgstrs(lv, k0 as int, seq![]) == read_msgstrs(lv, k as int, seqs_of(acc@)),
        decreases ls@.len() - k,
    {
        let t = trim(ls[k].as_slice());
        assert(t@ == trim_seq(lv[k as int]));
        if !starts_with_str(t, "msgstr") {
            return (acc, k);
        }
        let head = msgstr_head_exec(t);
        let (raw, k2) = continuation_exec(ls, k + 1, vstd::slice::slice_to_vec(head));
        let v = parse_po_string(raw.as_slice());
        let ghost before = acc@;
        acc.push(v);
        assert(seqs_of(acc@) == seqs_of(before).push(v@));
        k = k2;
    }
    (acc, k)
}


/// Where reading goes on after an entry, never past the last line.
pub open spec fn clamp_next(next: int, len: int) -> int {
    if next < len {
        next
    } else {
        len
    }
}

pub open spec fn entry_pair_view(o: Option<(String, PoEntry)>) -> Option<(Seq<char>, PoEntryView)> {
    match o {
        Some((k, e)) => Some((k@, e@)),
        None => None,
    }
}

/// The entry that starts at line index `i`, and where reading goes on.
pub fn read_entry_exec(ls: &Vec<Vec<char>>, obs: &Vec<bool>, i: usize) -> (r: (
    Option<(String, PoEntry)>,
    usize,
))
    requires
        i < ls@.len(),
        obs@.len() == ls@.len(),
    ensures
        entry_pair_view(r.0) == read_entry(seqs_of(ls@), obs@, i as int).0,
        r.1 as int == clamp_next(read_entry(seqs_of(ls@), obs@, i as int).1, ls@.len() as int),
{
    let ghost lv = seqs_of(ls@);
    let n = ls.len();
    let (comments, refs, flags, j) = read_comments_exec(ls, i);
    let mut ctx: Option<Vec<char>> = None;
    let mut k = j;
    if j < n && starts_with_str(trim(ls[j].as_slice()), "msgctxt ") {
        proof {
            reveal_strlit("msgctxt ");
        }
        let t = trim(ls[j].as_slice());
        assert(t@ == trim_seq(lv[j as int]));
        let rest = &t[8..t.len()];
        assert(rest@ == t@.skip(8));
        let (raw, k1) = continuation_exec(ls, j + 1, vstd::slice::slice_to_vec(rest));
        ctx = Some(parse_po_string(raw.as_slice()));
        k = k1;
    }
    let ghost ctxv = crate::po::opt_chars(ctx);
    let is_msgid = k < n && starts_with_str(trim(ls[k].as_slice()), "msgid ");
    if !is_msgid {
        let next = if k < n {
            k + 1
        } else {
            n
        };
        return (None, next);
    }
    proof {
        reveal_strlit("msgid ");
    }
    let t = trim(ls[k].as_slice());
    assert(t@ == trim_seq(lv[k as int]));
    let rest = &t[6..t.len()];
    assert(rest@ == t@.skip(6));
    let (idraw, k2) = continuation_exec(ls, k + 1, vstd::slice::slice_to_vec(rest));
    let msgid = parse_po_string(idraw.as_slice());
    let mut plural: Option<Vec<char>> = None;
    let mut k3 = k2;
    if k2 < n && starts_with_str(trim(ls[k2].as_slice()), "msgid_plural ") {
        proof {
            reveal_strlit("msgid_plural ");
        }
        let t2 = trim(ls[k2].as_slice());
        assert(t2@ == trim_seq(lv[k2 as int]));
        let rest2 = &t2[13..t2.len()];
        assert(rest2@ == t2@.skip(13));
        let (r, kk) = continuation_exec(ls, k2 + 1, vstd::slice::slice_to_vec(rest2));
        plural = Some(parse_po_string(r.as_slice()));
        k3 = kk;
    }
    let (ms, k4) = read_msgstrs_exec(ls, k3);
    let mut msgstr: Vec<Vec<char>> = ms;
    if msgstr.len() == 0 {
        msgstr.push(Vec::new());
        assert(seqs_of(msgstr@) =~= seq![Seq::<char>::empty()]);
    }
    let no_ctx = match &ctx {
        Some(_) => false,
        None => true,
    };
    if msgid.len() == 0 && no_ctx {
        let next = if k4 < n {
            k4 + 1
        } else {
            n
        };
        return (None, next);
    }
    let ctx_string: Option<String> = match &ctx {
        Some(c) => Some(string_of(c.as_slice())),
        None => None,
    };
    let key = crate::po::entry_key(&ctx_string, string_of(msgid.as_slice()).as_str());
    let entry = PoEntry {
        comments: strings_of(comments.as_slice()),
        references: strings_of(refs.as_slice()),
        flags: strings_of(flags.as_slice()),
        msgctxt: ctx_string,
        msgid: string_of(msgid.as_slice()),
        msgid_plural: match &plural {
            Some(p) => Some(string_of(p.as_slice())),
            None => None,
        },
        msgstr: strings_of(msgstr.as_slice()),
        obsolete: obs[i],
    };
    (Some((key, entry)), k4)
}

/// The entries of a catalog: a map from each key to the position of its
/// entry.
pub struct Catalog {
    pub index: IndexMap<String, usize>,
    pub entries: Vec<PoEntry>,
}

impl Catalog {
    /// The `(key, entry)` pairs, in the map's order.
    pub open spec fn pairs(&self) -> Seq<(Seq<char>, PoEntryView)> {
        map_pair_values(index_entries(self.index), |i: usize| self.entries@[i as int]@)
    }

    /// Every position the map holds names an entry.
    pub open spec fn wf(&self) -> bool {
        forall|k: int|
            0 <= k < index_entries(self.index).len() ==> (#[trigger] index_entries(self.index)[k]).1
                < self.entries@.len()
    }

    /// The map's positions are the entries' own order.
    pub open spec fn in_order(&self) -> bool {
        &&& index_entries(self.index).len() == self.entries@.len()
        &&& forall|k: int|
            0 <= k < index_entries(self.index).len() ==> (#[trigger] index_entries(self.index)[k]).1
                == k
    }

    pub fn new() -> (c: Catalog)
        ensures
            c.pairs() == Seq::<(Seq<char>, PoEntryView)>::empty(),
            c.in_order(),
            c.wf(),
    {
        let c = Catalog { index: index_new(), entries: Vec::new() };
        assert(c.pairs() =~= Seq::<(Seq<char>, PoEntryView)>::empty());
        c
    }

    /// Number of entries.
    pub fn len(&self) -> (n: usize)
        requires
            self.in_order(),
        ensures
            n == self.pairs().len(),
    {
        self.entries.len()
    }

    /// The entry stored under `key`.
    pub fn get(&self, key: &str) -> (r: Option<&PoEntry>)
        requires
            self.wf(),
        ensures
            match r {
                Some(e) => key_index(self.pairs(), key@) >= 0 && self.pairs()[key_index(
                    self.pairs(),
                    key@,
                )].1 == e@,
                None => key_index(self.pairs(), key@) < 0,
            },
    {
        proof {
            lemma_key_index_same_keys(index_entries(self.index), self.pairs(), key@);
            lemma_key_index(index_entries(self.index), key@);
        }
        match index_get(&self.index, key) {
            Some(p) => Some(&self.entries[p]),
            None => None,
        }
    }

    /// Position of `key` among the pairs.
    pub fn position(&self, key: &str) -> (r: Option<usize>)
        requires
            self.in_order(),
        ensures
            match r {
                Some(p) => key_index(self.pairs(), key@) == p as int,
                None => key_index(self.pairs(), key@) < 0,
            },
            r matches Some(p) ==> p < self.entries@.len(),
    {
        proof {
            lemma_key_index_same_keys(index_entries(self.index), self.pairs(), key@);
            lemma_key_index(index_entries(self.index), key@);
        }
        index_get(&self.index, key)
    }

    /// Replaces the entry at position `p`, keeping its key.
    pub fn update_at(&mut self, p: usize, entry: PoEntry)
        requires
            old(self).in_order(),
            p < old(self).entries@.len(),
        ensures
            final(self).in_order(),
            final(self).wf(),
            final(self).pairs() == old(self).pairs().update(
                p as int,
                (old(self).pairs()[p as int].0, entry@),
            ),
    {
        let ghost before = self.pairs();
        let ghost e = entry@;
        self.entries.set(p, entry);
        assert(self.pairs() =~= before.update(p as int, (before[p as int].0, e)));
    }

    /// Sorts the pairs by key.
    pub fn sort_keys(&mut self)
        requires
            old(self).wf(),
        ensures
            final(self).wf(),
            final(self).pairs() == sort_pairs(old(self).pairs()),
            final(self).entries@ == old(self).entries@,
    {
        let ghost ie = index_entries(self.index);
        let ghost f = |i: usize| self.entries@[i as int]@;
        index_sort_keys(&mut self.index);
        proof {
            lemma_sort_pairs_map(ie, f);
            assert(self.pairs() =~= map_pair_values(sort_pairs(ie), f));
            assert forall|k: int|
                0 <= k < index_entries(self.index).len() implies (#[trigger] index_entries(
                self.index,
            )[k]).1 < self.entries@.len() by {
                lemma_sort_pairs_members(ie, k);
            }
        }
    }

    /// Inserts `entry` under `key`: a key already present keeps its place and
    /// takes the new entry; a new key goes last.
    pub fn insert(&mut self, key: String, entry: PoEntry)
        requires
            old(self).in_order(),
        ensures
            final(self).in_order(),
            final(self).wf(),
            final(self).pairs() == insert_entry(old(self).pairs(), key@, entry@),
    {
        let ghost before = self.pairs();
        let ghost ie = index_entries(self.index);
        proof {
            lemma_key_index_same_keys(ie, before, key@);
            lemma_key_index(ie, key@);
        }
        match index_get(&self.index, key.as_str()) {
            Some(p) => {
                let ghost e = entry@;
                self.entries.set(p, entry);
                assert(self.pairs() =~= before.update(p as int, (key@, e)));
            },
            None => {
                let n = self.entries.len();
                let ghost e = entry@;
                index_insert(&mut self.index, key, n);
                self.entries.push(entry);
                assert(index_entries(self.index) == ie.push((key@, n)));
                assert(self.pairs() =~= before.push((key@, e)));
            },
        }
    }
}

/// Read a PO file into its entries, keyed by context and msgid.
pub fn parse_po_file(content: &str) -> (r: Catalog)
    ensures
        r.pairs() == parse_po_file_spec(content@),
        r.in_order(),
        r.wf(),
{
    let chars = chars_of(content);
    let (ls, obs) = unwrap_lines_exec(chars.as_slice());
    let ghost lv = seqs_of(ls@);
    assert(seqs_of(ls@).len() == ls@.len());
    assert(unwrapped_lines(chars@).len() == lines_of(chars@).len());
    assert(obsolete_marks(chars@).len() == lines_of(chars@).len());
    assert(obs@.len() == ls@.len());
    let mut cat = Catalog::new();
    let mut i: usize = 0;
    while i < ls.len()
        invariant
            i <= ls@.len(),
            lv == seqs_of(ls@),
            lv == unwrapped_lines(content@),
            obs@ == obsolete_marks(content@),
            obs@.len() == ls@.len(),
            cat.in_order(),
            cat.wf(),
            parse_po_file_spec(content@) == parse_from(lv, obs@, i as int, cat.pairs()),
        decreases ls@.len() - i,
    {
        if is_skipped_exec(trim(ls[i].as_slice())) {
            i += 1;
        } else {
            let (e, next) = read_entry_exec(&ls, &obs, i);
            proof {
                lemma_read_entry_advances(lv, obs@, i as int);
            }
            match e {
                Some((k, v)) => {
                    cat.insert(k, v);
                },
                None => {},
            }
            i = next;
        }
    }
    cat
}


/// The header pattern: an empty msgid and its msgstr with its continuation
/// lines.
pub const PO_HEADER_PATTERN: &'static str = r#"(?ms)^msgid\s+""\nmsgstr\s+"[^"]*"(?:\n\s*"[^"]*")*"#;

/// An extracted message's translator comments as `#.` lines.
pub open spec fn extracted_comments_spec(e: EntryView) -> Seq<Seq<char>> {
    e.comments.map_values(|c: Seq<char>| seq!['#', '.', ' '] + c)
}

/// `cs` with every item of `new` not yet in it appended, in order.
pub open spec fn add_missing(cs: Seq<Seq<char>>, new: Seq<Seq<char>>) -> Seq<Seq<char>>
    decreases new.len(),
{
    if new.len() == 0 {
        cs
    } else {
        let a = add_missing(cs, new.drop_last());
        if a.contains(new.last()) {
            a
        } else {
            a.push(new.last())
        }
    }
}

/// The flags other than `f`.
pub open spec fn without_flag(flags: Seq<Seq<char>>, f: Seq<char>) -> Seq<Seq<char>>
    decreases flags.len(),
{
    if flags.len() == 0 {
        flags
    } else {
        let w = without_flag(flags.drop_last(), f);
        if flags.last() == f {
            w
        } else {
            w.push(flags.last())
        }
    }
}

/// A catalog entry for a message seen for the first time.
pub open spec fn fresh_entry(e: EntryView) -> PoEntryView {
    PoEntryView {
        comments: extracted_comments_spec(e),
        references: e.references,
        flags: seq![],
        msgctxt: e.msgctxt,
        msgid: e.msgid,
        msgid_plural: e.msgid_plural,
        msgstr: if e.msgid_plural is Some {
            seq![seq![], seq![]]
        } else {
            seq![seq![]]
        },
        obsolete: false,
    }
}

/// The new catalog after taking in one extracted message: a repeat adds its
/// references and any new comments; a message the old catalog knows keeps its
/// translation, takes the new references and comments, loses `fuzzy` and is
/// active again if it was obsolete; any other message starts fresh.
pub open spec fn merge_step(
    acc: Seq<(Seq<char>, PoEntryView)>,
    existing: Seq<(Seq<char>, PoEntryView)>,
    e: EntryView,
) -> Seq<(Seq<char>, PoEntryView)> {
    let key = entry_key_spec(e.msgctxt, e.msgid);
    let ai = key_index(acc, key);
    if ai >= 0 {
        let cur = acc[ai].1;
        acc.update(
            ai,
            (
                key,
                PoEntryView {
                    references: cur.references + e.references,
                    comments: add_missing(cur.comments, extracted_comments_spec(e)),
                    ..cur
                },
            ),
        )
    } else {
        let xi = key_index(existing, key);
        if xi >= 0 {
            let x = existing[xi].1;
            acc.push(
                (
                    key,
                    PoEntryView {
                        references: e.references,
                        flags: without_flag(x.flags, "fuzzy"@),
                        comments: extracted_comments_spec(e),
                        obsolete: false,
                        ..x
                    },
                ),
            )
        } else {
            acc.push((key, fresh_entry(e)))
        }
    }
}

/// The new catalog built from the extracted messages, in order.
pub open spec fn merged_entries(
    extracted: Seq<EntryView>,
    existing: Seq<(Seq<char>, PoEntryView)>,
) -> Seq<(Seq<char>, PoEntryView)>
    decreases extracted.len(),
{
    if extracted.len() == 0 {
        seq![]
    } else {
        merge_step(merged_entries(extracted.drop_last(), existing), existing, extracted.last())
    }
}

/// Every translation is empty.
pub open spec fn all_empty(ms: Seq<Seq<char>>) -> bool {
    forall|i: int| 0 <= i < ms.len() ==> ms[i].len() == 0
}

/// The old entries the new catalog lacks and that carry a translation, marked
/// obsolete and without references.
pub open spec fn obsolete_entries(
    existing: Seq<(Seq<char>, PoEntryView)>,
    new: Seq<(Seq<char>, PoEntryView)>,
) -> Seq<PoEntryView>
    decreases existing.len(),
{
    if existing.len() == 0 {
        seq![]
    } else {
        let rest = obsolete_entries(existing.drop_last(), new);
        let (k, x) = existing.last();
        if key_index(new, k) >= 0 || all_empty(x.msgstr) {
            rest
        } else {
            rest.push(PoEntryView { obsolete: true, references: seq![], ..x })
        }
    }
}

/// Entries stably sorted by their keys.
pub open spec fn sort_entries_by_key(es: Seq<PoEntryView>) -> Seq<PoEntryView> {
    sort_pairs(es.map_values(|e: PoEntryView| (entry_key_spec(e.msgctxt, e.msgid), e))).map_values(
        |p: (Seq<char>, PoEntryView)| p.1,
    )
}

/// The `#` lines before the header, each with its newline.
pub open spec fn comment_lines_before(ls: Seq<Seq<char>>) -> Seq<char>
    decreases ls.len(),
{
    if ls.len() == 0 {
        seq![]
    } else {
        comment_lines_before(ls.drop_last()) + if has_prefix(ls.last(), seq!['#']) {
            ls.last() + seq!['\n']
        } else {
            seq![]
        }
    }
}

/// The existing header kept, with the comment lines above it, when the first
/// match of the header pattern is given.
pub open spec fn kept_header(content: Seq<char>, spans: Seq<(usize, usize)>) -> Option<Seq<char>> {
    if spans.len() == 0 {
        None
    } else {
        match char_span(content, spans[0]) {
            Some((a, b)) => Some(
                comment_lines_before(lines_of(content.take(a))) + content.subrange(a, b),
            ),
            None => None,
        }
    }
}

/// Each entry's text followed by a blank line.
pub open spec fn entries_text(es: Seq<PoEntryView>, o: PoOptionsView) -> Seq<char>
    decreases es.len(),
{
    if es.len() == 0 {
        seq![]
    } else {
        entries_text(es.drop_last(), o) + format_entry_spec(es.last(), o) + seq!['\n', '\n']
    }
}

/// The merged catalog's text, given the header pattern's matches in the
/// existing catalog and the time a fresh header is dated with.
pub open spec fn merge_spec(
    extracted: Seq<EntryView>,
    existing_content: Option<Seq<char>>,
    locale: Seq<char>,
    o: PoOptionsView,
    header_spans: Seq<(usize, usize)>,
    secs: int,
) -> Seq<char> {
    let existing = match existing_content {
        Some(c) => parse_po_file_spec(c),
        None => seq![],
    };
    let kept = match existing_content {
        Some(c) => if o.keep_header {
            kept_header(c, header_spans)
        } else {
            None
        },
        None => None,
    };
    let new0 = merged_entries(extracted, existing);
    let new = if o.sort_output {
        sort_pairs(new0)
    } else {
        new0
    };
    let obs0 = if o.no_obsolete {
        seq![]
    } else {
        obsolete_entries(existing, new)
    };
    let obs = if o.sort_output && !o.no_obsolete {
        sort_entries_by_key(obs0)
    } else {
        obs0
    };
    let header = match kept {
        Some(h) => h,
        None => header_spec(locale, secs),
    };
    trim_end_seq(
        header + seq!['\n', '\n'] + entries_text(
            new.map_values(|p: (Seq<char>, PoEntryView)| p.1),
            o,
        ) + entries_text(obs, o),
    )
}


/// A copy of each string.
pub fn clone_strings(v: &Vec<String>) -> (r: Vec<String>)
    ensures
        r@ == v@,
{
    let mut out: Vec<String> = Vec::new();
    let mut i: usize = 0;
    while i < v.len()
        invariant
            i <= v@.len(),
            out@ == v@.take(i as int),
        decreases v@.len() - i,
    {
        out.push(v[i].clone());
        assert(v@.take(i + 1) == v@.take(i as int).push(v@[i as int]));
        i += 1;
    }
    assert(v@.take(v@.len() as int) == v@);
    out
}

fn clone_opt_string(o: &Option<String>) -> (r: Option<String>)
    ensures
        r == *o,
{
    match o {
        Some(s) => Some(s.clone()),
        None => None,
    }
}

/// A copy of an entry.
pub fn clone_entry(e: &PoEntry) -> (r: PoEntry)
    ensures
        r@ == e@,
{
    PoEntry {
        comments: clone_strings(&e.comments),
        references: clone_strings(&e.references),
        flags: clone_strings(&e.flags),
        msgctxt: clone_opt_string(&e.msgctxt),
        msgid: e.msgid.clone(),
        msgid_plural: clone_opt_string(&e.msgid_plural),
        msgstr: clone_strings(&e.msgstr),
        obsolete: e.obsolete,
    }
}

/// An extracted message's translator comments as `#.` lines.
pub fn extracted_comments(entry: &TranslationEntry) -> (r: Vec<String>)
    ensures
        strings_view(r@) == extracted_comments_spec(entry@),
{
    let mut out: Vec<String> = Vec::new();
    let mut i: usize = 0;
    let ghost cs = strings_view(entry.comments@);
    while i < entry.comments.len()
        invariant
            i <= entry.comments@.len(),
            cs == strings_view(entry.comments@),
            strings_view(out@) == cs.take(i as int).map_values(
                |c: Seq<char>| seq!['#', '.', ' '] + c,
            ),
        decreases entry.comments@.len() - i,
    {
        let mut l: Vec<char> = vec!['#', '.', ' '];
        crate::text::push_str(&mut l, entry.comments[i].as_str());
        assert(l@ =~= seq!['#', '.', ' '] + cs[i as int]);
        let ghost before = out@;
        out.push(string_of(l.as_slice()));
        assert(strings_view(out@) == strings_view(before).push(l@));
        assert(cs.take(i + 1).map_values(|c: Seq<char>| seq!['#', '.', ' '] + c) =~= cs.take(
            i as int,
        ).map_values(|c: Seq<char>| seq!['#', '.', ' '] + c).push(seq!['#', '.', ' '] + cs[i as int]));
        i += 1;
    }
    assert(cs.take(cs.len() as int) == cs);
    out
}

fn contains_string(v: &Vec<String>, x: &String) -> (r: bool)
    ensures
        r == strings_view(v@).contains(x@),
{
    let mut i: usize = 0;
    while i < v.len()
        invariant
            i <= v@.len(),
            forall|k: int| 0 <= k < i ==> v@[k]@ != x@,
        decreases v@.len() - i,
    {
        if v[i] == *x {
            assert(strings_view(v@)[i as int] == x@);
            return true;
        }
        i += 1;
    }
    assert forall|k: int| 0 <= k < strings_view(v@).len() implies strings_view(v@)[k] != x@ by {
        assert(strings_view(v@)[k] == v@[k]@);
    }
    false
}

/// Appends each item of `new` not yet present.
pub fn add_missing_exec(cs: &mut Vec<String>, new: Vec<String>)
    ensures
        strings_view(final(cs)@) == add_missing(strings_view(old(cs)@), strings_view(new@)),
{
    let ghost start = strings_view(cs@);
    let ghost nv = strings_view(new@);
    let mut i: usize = 0;
    assert(nv.take(0) =~= Seq::<Seq<char>>::empty());
    while i < new.len()
        invariant
            i <= new@.len(),
            nv == strings_view(new@),
            strings_view(cs@) == add_missing(start, nv.take(i as int)),
        decreases new@.len() - i,
    {
        assert(nv.take(i + 1).drop_last() == nv.take(i as int));
        assert(nv.take(i + 1).last() == new@[i as int]@);
        if !contains_string(cs, &new[i]) {
            let ghost before = cs@;
            cs.push(new[i].clone());
            assert(strings_view(cs@) == strings_view(before).push(new@[i as int]@));
        }
        i += 1;
    }
    assert(nv.take(new@.len() as int) == nv);
}

/// The flags other than `f`.
pub fn without_flag_exec(flags: &Vec<String>, f: &str) -> (r: Vec<String>)
    ensures
        strings_view(r@) == without_flag(strings_view(flags@), f@),
{
    let fc = chars_of(f);
    let ghost fv = strings_view(flags@);
    let mut out: Vec<String> = Vec::new();
    let mut i: usize = 0;
    assert(fv.take(0) =~= Seq::<Seq<char>>::empty());
    while i < flags.len()
        invariant
            i <= flags@.len(),
            fv == strings_view(flags@),
            fc@ == f@,
            strings_view(out@) == without_flag(fv.take(i as int), f@),
        decreases flags@.len() - i,
    {
        assert(fv.take(i + 1).drop_last() == fv.take(i as int));
        assert(fv.take(i + 1).last() == flags@[i as int]@);
        let cur = chars_of(flags[i].as_str());
        if !chars_eq(cur.as_slice(), fc.as_slice()) {
            let ghost before = out@;
            out.push(flags[i].clone());
            assert(strings_view(out@) == strings_view(before).push(flags@[i as int]@));
        }
        i += 1;
    }
    assert(fv.take(flags@.len() as int) == fv);
    out
}

/// A catalog entry for a message seen for the first time.
pub fn fresh_entry_exec(e: &TranslationEntry) -> (r: PoEntry)
    ensures
        r@ == fresh_entry(e@),
{
    let msgstr: Vec<String> = match &e.msgid_plural {
        Some(_) => {
            let mut v: Vec<String> = Vec::new();
            v.push(String::new());
            v.push(String::new());
            assert(strings_view(v@) =~= seq![Seq::<char>::empty(), Seq::<char>::empty()]);
            v
        },
        None => {
            let mut v: Vec<String> = Vec::new();
            v.push(String::new());
            assert(strings_view(v@) =~= seq![Seq::<char>::empty()]);
            v
        },
    };
    let flags: Vec<String> = Vec::new();
    assert(strings_view(flags@) =~= Seq::<Seq<char>>::empty());
    PoEntry {
        comments: extracted_comments(e),
        references: clone_strings(&e.references),
        flags,
        msgctxt: clone_opt_string(&e.msgctxt),
        msgid: e.msgid.clone(),
        msgid_plural: clone_opt_string(&e.msgid_plural),
        msgstr,
        obsolete: false,
    }
}


/// The new catalog after taking in every extracted message, in order.
pub fn merge_into_new(extracted: &[TranslationEntry], existing: &Catalog) -> (r: Catalog)
    requires
        existing.wf(),
    ensures
        r.pairs() == merged_entries(crate::extractor::entry_views(extracted@), existing.pairs()),
        r.in_order(),
        r.wf(),
{
    let ghost ev = crate::extractor::entry_views(extracted@);
    let ghost ex = existing.pairs();
    let mut new = Catalog::new();
    let mut i: usize = 0;
    assert(ev.take(0) =~= Seq::<EntryView>::empty());
    while i < extracted.len()
        invariant
            i <= extracted@.len(),
            ev == crate::extractor::entry_views(extracted@),
            ex == existing.pairs(),
            existing.wf(),
            new.in_order(),
            new.wf(),
            new.pairs() == merged_entries(ev.take(i as int), ex),
        decreases extracted@.len() - i,
    {
        let e = &extracted[i];
        assert(ev.take(i + 1).drop_last() == ev.take(i as int));
        assert(ev.take(i + 1).last() == e@);
        let key = crate::po::entry_key(&e.msgctxt, e.msgid.as_str());
        let ghost acc = new.pairs();
        match new.position(key.as_str()) {
            Some(p) => {
                let mut cur = clone_entry(&new.entries[p]);
                let ghost c0 = cur@;
                assert(c0 == acc[p as int].1);
                let mut refs = clone_strings(&e.references);
                cur.references.append(&mut refs);
                assert(strings_view(cur.references@) =~= c0.references + e@.references);
                add_missing_exec(&mut cur.comments, extracted_comments(e));
                let ghost c1 = cur@;
                assert(c1 == PoEntryView {
                    references: c0.references + e@.references,
                    comments: add_missing(c0.comments, extracted_comments_spec(e@)),
                    ..c0
                });
                proof {
                    lemma_key_index(acc, key@);
                }
                new.update_at(p, cur);
            },
            None => {
                match existing.get(key.as_str()) {
                    Some(x) => {
                        let mut merged = clone_entry(x);
                        merged.references = clone_strings(&e.references);
                        merged.flags = without_flag_exec(&x.flags, "fuzzy");
                        merged.comments = extracted_comments(e);
                        merged.obsolete = false;
                        new.insert(key, merged);
                    },
                    None => {
                        let fresh = fresh_entry_exec(e);
                        new.insert(key, fresh);
                    },
                }
                proof {
                    crate::keyed::lemma_key_index(acc, key@);
                }
            },
        }
        i += 1;
    }
    assert(ev.take(extracted@.len() as int) == ev);
    new
}


/// The views of a list of entries.
pub open spec fn po_entry_views(v: Seq<PoEntry>) -> Seq<PoEntryView> {
    v.map_values(|e: PoEntry| e@)
}

fn all_empty_exec(ms: &Vec<String>) -> (r: bool)
    ensures
        r == all_empty(strings_view(ms@)),
{
    let mut i: usize = 0;
    while i < ms.len()
        invariant
            i <= ms@.len(),
            forall|k: int| 0 <= k < i ==> (#[trigger] ms@[k])@.len() == 0,
        decreases ms@.len() - i,
    {
        if !ms[i].as_str().is_empty() {
            assert(strings_view(ms@)[i as int] == ms@[i as int]@);
            return false;
        }
        i += 1;
    }
    assert forall|k: int| 0 <= k < strings_view(ms@).len() implies strings_view(ms@)[k].len()
        == 0 by {
        assert(strings_view(ms@)[k] == ms@[k]@);
    }
    true
}

/// The old entries that the new catalog lacks and that carry a translation,
/// marked obsolete and without references.
pub fn obsolete_exec(existing: &Catalog, new: &Catalog) -> (r: Vec<PoEntry>)
    requires
        existing.wf(),
        new.wf(),
    ensures
        po_entry_views(r@) == obsolete_entries(existing.pairs(), new.pairs()),
{
    let ps = index_pairs(&existing.index);
    let ghost ie = index_entries(existing.index);
    let ghost ex = existing.pairs();
    let mut out: Vec<PoEntry> = Vec::new();
    let mut i: usize = 0;
    assert(ex.take(0) =~= Seq::<(Seq<char>, PoEntryView)>::empty());
    while i < ps.len()
        invariant
            i <= ps@.len(),
            pairs_view(ps@) == ie,
            ie == index_entries(existing.index),
            ex == existing.pairs(),
            existing.wf(),
            new.wf(),
            po_entry_views(out@) == obsolete_entries(ex.take(i as int), new.pairs()),
        decreases ps@.len() - i,
    {
        let k = &ps[i].0;
        let p = ps[i].1;
        assert(ie[i as int] == (k@, p));
        assert(p < existing.entries@.len());
        assert(ex[i as int] == (k@, existing.entries@[p as int]@));
        assert(ex.take(i + 1).drop_last() == ex.take(i as int));
        assert(ex.take(i + 1).last() == ex[i as int]);
        let present = match new.get(k.as_str()) {
            Some(_) => true,
            None => false,
        };
        let x = &existing.entries[p];
        if !present && !all_empty_exec(&x.msgstr) {
            let mut e = clone_entry(x);
            e.obsolete = true;
            e.references = Vec::new();
            let ghost before = out@;
            assert(strings_view(e.references@) =~= Seq::<Seq<char>>::empty());
            out.push(e);
            assert(po_entry_views(out@) == po_entry_views(before).push(e@));
        }
        i += 1;
    }
    assert(ex.take(ps@.len() as int) == ex);
    out
}

/// Keys and entries side by side.
pub open spec fn keyed_views(keys: Seq<Vec<char>>, es: Seq<PoEntry>) -> Seq<(Seq<char>, PoEntryView)> {
    Seq::new(es.len(), |k: int| (keys[k]@, es[k]@))
}

/// The entries stably sorted by key.
pub fn sort_entries_exec(es: &Vec<PoEntry>) -> (r: Vec<PoEntry>)
    ensures
        po_entry_views(r@) == sort_entries_by_key(po_entry_views(es@)),
{
    let ghost m = po_entry_views(es@).map_values(
        |e: PoEntryView| (entry_key_spec(e.msgctxt, e.msgid), e),
    );
    let mut keys: Vec<Vec<char>> = Vec::new();
    let mut out: Vec<PoEntry> = Vec::new();
    let mut i: usize = 0;
    assert(m.take(0) =~= Seq::<(Seq<char>, PoEntryView)>::empty());
    assert(keyed_views(keys@, out@) =~= Seq::<(Seq<char>, PoEntryView)>::empty());
    while i < es.len()
        invariant
            i <= es@.len(),
            m == po_entry_views(es@).map_values(
                |e: PoEntryView| (entry_key_spec(e.msgctxt, e.msgid), e),
            ),
            keys@.len() == out@.len(),
            keyed_views(keys@, out@) == sort_pairs(m.take(i as int)),
        decreases es@.len() - i,
    {
        let ghost t = m.take(i + 1);
        assert(t.drop_last() == m.take(i as int));
        let e = clone_entry(&es[i]);
        let key = crate::po::entry_key(&e.msgctxt, e.msgid.as_str());
        let kc = chars_of(key.as_str());
        assert(t.last() == (kc@, e@));
        let ghost so = keyed_views(keys@, out@);
        let mut k: usize = 0;
        assert(so.skip(0) == so);
        while k < out.len() && !str_lt_exec(kc.as_slice(), keys[k].as_slice())
            invariant
                so == keyed_views(keys@, out@),
                keys@.len() == out@.len(),
                k <= out@.len(),
                pair_insert_pos(so, kc@) == k + pair_insert_pos(so.skip(k as int), kc@),
            decreases out@.len() - k,
        {
            assert(so.skip(k as int)[0] == so[k as int]);
            assert(so.skip(k as int).drop_first() == so.skip(k + 1));
            k += 1;
        }
        proof {
            if k < out@.len() {
                assert(so.skip(k as int)[0] == so[k as int]);
            }
        }
        let ghost ev = e@;
        keys.insert(k, kc);
        out.insert(k, e);
        assert(keyed_views(keys@, out@) =~= so.insert(k as int, (key@, ev)));
        i += 1;
    }
    assert(m.take(es@.len() as int) == m);
    proof {
        lemma_sort_pairs_len(m);
    }
    assert(po_entry_views(out@) =~= sort_pairs(m).map_values(|p: (Seq<char>, PoEntryView)| p.1));
    out
}

/// The `#` lines among `ls`, each followed by a newline, appended to `out`.
fn push_comment_lines(out: &mut Vec<char>, ls: &Vec<Vec<char>>)
    ensures
        final(out)@ == old(out)@ + comment_lines_before(seqs_of(ls@)),
{
    let ghost start = out@;
    let ghost lv = seqs_of(ls@);
    let mut j: usize = 0;
    assert(lv.take(0) =~= Seq::<Seq<char>>::empty());
    assert(out@ =~= start + comment_lines_before(lv.take(0)));
    while j < ls.len()
        invariant
            j <= ls@.len(),
            lv == seqs_of(ls@),
            out@ == start + comment_lines_before(lv.take(j as int)),
        decreases ls@.len() - j,
    {
        assert(lv.take(j + 1).drop_last() == lv.take(j as int));
        assert(lv.take(j + 1).last() == ls@[j as int]@);
        let l = ls[j].as_slice();
        let hash: [char; 1] = ['#'];
        assert(hash@ =~= seq!['#']);
        if starts_with(l, hash.as_slice()) {
            out.extend_from_slice(l);
            out.push('\n');
            assert(out@ =~= start + comment_lines_before(lv.take(j + 1)));
        } else {
            assert(out@ =~= start + comment_lines_before(lv.take(j + 1)));
        }
        j += 1;
    }
    assert(lv.take(ls@.len() as int) == lv);
}

/// The existing header, with the comment lines above it, when the header
/// pattern matched.
pub fn kept_header_exec(content: &str, spans: &Vec<(usize, usize)>) -> (r: Option<String>)
    ensures
        opt_view(r) == kept_header(content@, spans@),
{
    if spans.len() == 0 {
        return None;
    }
    let chars = chars_of(content);
    let pos = CharPositions::new(chars.as_slice());
    match pos.span(chars.as_slice(), spans[0]) {
        Some((a, b)) => {
            let head = &chars[0..a];
            assert(head@ == chars@.take(a as int));
            let ls = lines(head);
            let mut out: Vec<char> = Vec::new();
            push_comment_lines(&mut out, &ls);
            let body = &chars[a..b];
            assert(body@ == chars@.subrange(a as int, b as int));
            out.extend_from_slice(body);
            assert(out@ =~= comment_lines_before(lines_of(content@.take(a as int)))
                + content@.subrange(a as int, b as int));
            Some(string_of(out.as_slice()))
        },
        None => None,
    }
}

/// Each entry's text followed by a blank line, appended to `out`.
fn push_entries_text(out: &mut Vec<char>, es: &Vec<PoEntry>, o: &PoFileOptions)
    ensures
        final(out)@ == old(out)@ + entries_text(po_entry_views(es@), o@),
{
    let ghost start = out@;
    let ghost ev = po_entry_views(es@);
    let mut i: usize = 0;
    assert(ev.take(0) =~= Seq::<PoEntryView>::empty());
    assert(out@ =~= start + entries_text(ev.take(0), o@));
    while i < es.len()
        invariant
            i <= es@.len(),
            ev == po_entry_views(es@),
            out@ == start + entries_text(ev.take(i as int), o@),
        decreases es@.len() - i,
    {
        assert(ev.take(i + 1).drop_last() == ev.take(i as int));
        assert(ev.take(i + 1).last() == es@[i as int]@);
        let t = format_entry(&es[i], o);
        crate::text::push_str(out, t.as_str());
        out.push('\n');
        out.push('\n');
        assert(out@ =~= start + entries_text(ev.take(i + 1), o@));
        i += 1;
    }
    assert(ev.take(es@.len() as int) == ev);
}

/// The text of a catalog's entries in the map's order, appended to `out`.
fn push_catalog_text(out: &mut Vec<char>, cat: &Catalog, o: &PoFileOptions)
    requires
        cat.wf(),
    ensures
        final(out)@ == old(out)@ + entries_text(
            cat.pairs().map_values(|p: (Seq<char>, PoEntryView)| p.1),
            o@,
        ),
{
    let ps = index_pairs(&cat.index);
    let ghost ie = index_entries(cat.index);
    let ghost ev = cat.pairs().map_values(|p: (Seq<char>, PoEntryView)| p.1);
    let ghost start = out@;
    let mut i: usize = 0;
    assert(ev.take(0) =~= Seq::<PoEntryView>::empty());
    assert(out@ =~= start + entries_text(ev.take(0), o@));
    while i < ps.len()
        invariant
            i <= ps@.len(),
            pairs_view(ps@) == ie,
            ie == index_entries(cat.index),
            cat.wf(),
            ev == cat.pairs().map_values(|p: (Seq<char>, PoEntryView)| p.1),
            out@ == start + entries_text(ev.take(i as int), o@),
        decreases ps@.len() - i,
    {
        let p = ps[i].1;
        assert(ie[i as int].1 == p);
        assert(p < cat.entries@.len());
        assert(ev[i as int] == cat.entries@[p as int]@);
        assert(ev.take(i + 1).drop_last() == ev.take(i as int));
        assert(ev.take(i + 1).last() == ev[i as int]);
        let t = format_entry(&cat.entries[p], o);
        crate::text::push_str(out, t.as_str());
        out.push('\n');
        out.push('\n');
        assert(out@ =~= start + entries_text(ev.take(i + 1), o@));
        i += 1;
    }
    assert(ev.take(ps@.len() as int) == ev);
}

/// The view of an optional text.
pub open spec fn opt_str_view(o: Option<&str>) -> Option<Seq<char>> {
    match o {
        Some(c) => Some(c@),
        None => None,
    }
}

/// Merges extracted messages into an existing catalog and writes the result,
/// given the header pattern's matches in the existing text and the time a
/// fresh header is dated with.
pub fn merge_entries_at(
    extracted: &[TranslationEntry],
    existing_content: Option<&str>,
    locale: &str,
    options: &PoFileOptions,
    header_spans: &Vec<(usize, usize)>,
    secs: i64,
) -> (r: String)
    ensures
        r@ == merge_spec(
            crate::extractor::entry_views(extracted@),
            opt_str_view(existing_content),
            locale@,
            options@,
            header_spans@,
            secs as int,
        ),
{
    let existing = match existing_content {
        Some(c) => parse_po_file(c),
        None => Catalog::new(),
    };
    let kept: Option<String> = match existing_content {
        Some(c) => if options.keep_header {
            kept_header_exec(c, header_spans)
        } else {
            None
        },
        None => None,
    };
    let mut new = merge_into_new(extracted, &existing);
    if options.sort_output {
        new.sort_keys();
    }
    let obs0: Vec<PoEntry> = if options.no_obsolete {
        Vec::new()
    } else {
        obsolete_exec(&existing, &new)
    };
    let obs: Vec<PoEntry> = if options.sort_output && !options.no_obsolete {
        sort_entries_exec(&obs0)
    } else {
        obs0
    };
    assert(po_entry_views(Seq::<PoEntry>::empty()) =~= Seq::<PoEntryView>::empty());
    let header: String = match kept {
        Some(h) => h,
        None => crate::po::generate_header_at(locale, secs),
    };
    let ghost ev = crate::extractor::entry_views(extracted@);
    let ghost ec = opt_str_view(existing_content);
    let ghost ex = match ec {
        Some(c) => parse_po_file_spec(c),
        None => seq![],
    };
    assert(existing.pairs() == ex);
    let ghost kept_v = match ec {
        Some(c) => if options@.keep_header {
            kept_header(c, header_spans@)
        } else {
            None
        },
        None => None,
    };
    let ghost new_v = if options@.sort_output {
        sort_pairs(merged_entries(ev, ex))
    } else {
        merged_entries(ev, ex)
    };
    assert(new.pairs() == new_v);
    let ghost obs0_v = if options@.no_obsolete {
        seq![]
    } else {
        obsolete_entries(ex, new_v)
    };
    assert(po_entry_views(obs0@) == obs0_v);
    let ghost obs_v = if options@.sort_output && !options@.no_obsolete {
        sort_entries_by_key(obs0_v)
    } else {
        obs0_v
    };
    assert(po_entry_views(obs@) == obs_v);
    let ghost header_v = match kept_v {
        Some(h) => h,
        None => header_spec(locale@, secs as int),
    };
    assert(header@ == header_v);
    let mut out = chars_of(header.as_str());
    out.push('\n');
    out.push('\n');
    push_catalog_text(&mut out, &new, options);
    push_entries_text(&mut out, &obs, options);
    assert(out@ =~= header_v + seq!['\n', '\n'] + entries_text(
        new_v.map_values(|p: (Seq<char>, PoEntryView)| p.1),
        options@,
    ) + entries_text(obs_v, options@));
    let t = crate::text::trim_end(out.as_slice());
    string_of(t)
}

/// Where the header pattern matches an existing catalog's text (no match when
/// the pattern does not compile).
pub open spec fn header_matches(content: Seq<char>) -> Seq<(usize, usize)> {
    match regex_find_spans(PO_HEADER_PATTERN@, content) {
        Some(v) => v,
        None => seq![],
    }
}

/// The header pattern's matches in the existing text, if there is one.
pub open spec fn existing_header_matches(o: Option<&str>) -> Seq<(usize, usize)> {
    match o {
        Some(c) => header_matches(c@),
        None => seq![],
    }
}

/// Merges extracted messages into an existing catalog (or a fresh one) and
/// writes the result; a fresh header is dated with the clock's reading.
pub fn merge_entries(
    extracted: &[TranslationEntry],
    existing_content: Option<&str>,
    locale: &str,
    options: &PoFileOptions,
) -> (r: String)
    ensures
        exists|secs: i64|
            r@ == #[trigger] merge_spec(
                crate::extractor::entry_views(extracted@),
                opt_str_view(existing_content),
                locale@,
                options@,
                existing_header_matches(existing_content),
                secs as int,
            ),
{
    let spans: Vec<(usize, usize)> = match existing_content {
        Some(c) => if options.keep_header {
            match find_spans(PO_HEADER_PATTERN, c) {
                Some(v) => v,
                None => Vec::new(),
            }
        } else {
            Vec::new()
        },
        None => Vec::new(),
    };
    let secs = crate::po::unix_now();
    let r = merge_entries_at(extracted, existing_content, locale, options, &spans, secs);
    assert(r@ == merge_spec(
        crate::extractor::entry_views(extracted@),
        opt_str_view(existing_content),
        locale@,
        options@,
        existing_header_matches(existing_content),
        secs as int,
    ));
    r
}


/// The key of an extracted message.
pub open spec fn extracted_key(e: EntryView) -> Seq<char> {
    entry_key_spec(e.msgctxt, e.msgid)
}

/// What an entry of the new catalog keeps of the old entry under its key:
/// the message and its translation; of the flags all but `fuzzy`. It is
/// active, even where the old entry was obsolete.
pub open spec fn keeps_old(e: PoEntryView, x: PoEntryView) -> bool {
    &&& e.msgid == x.msgid
    &&& e.msgctxt == x.msgctxt
    &&& e.msgid_plural == x.msgid_plural
    &&& e.msgstr == x.msgstr
    &&& !e.obsolete
    &&& e.flags == without_flag(x.flags, "fuzzy"@)
}

/// A message new to the catalog starts untranslated (one empty form, two
/// for a plural message), without flags, not obsolete.
pub open spec fn starts_fresh(e: PoEntryView) -> bool {
    &&& e.msgstr == (if e.msgid_plural is Some {
        seq![Seq::<char>::empty(), Seq::<char>::empty()]
    } else {
        seq![Seq::<char>::empty()]
    })
    &&& e.flags.len() == 0
    &&& !e.obsolete
}

/// The references of every extracted message with key `k`, in order.
pub open spec fn references_for(extracted: Seq<EntryView>, k: Seq<char>) -> Seq<Seq<char>>
    decreases extracted.len(),
{
    if extracted.len() == 0 {
        seq![]
    } else {
        references_for(extracted.drop_last(), k) + if extracted_key(extracted.last()) == k {
            extracted.last().references
        } else {
            seq![]
        }
    }
}

/// Every extracted message's key is among the entries, every entry's key is
/// that of an extracted message, and no key occurs twice.
pub open spec fn keys_match(m: Seq<(Seq<char>, PoEntryView)>, extracted: Seq<EntryView>) -> bool {
    &&& forall|j1: int, j2: int|
        0 <= j1 < j2 < m.len() ==> (#[trigger] m[j1]).0 != (#[trigger] m[j2]).0
    &&& forall|j: int|
        0 <= j < m.len() ==> exists|i: int|
            0 <= i < extracted.len() && #[trigger] extracted_key(extracted[i]) == (#[trigger] m[j]).0
    &&& forall|i: int|
        0 <= i < extracted.len() ==> key_index(m, #[trigger] extracted_key(extracted[i])) >= 0
}

/// The facts that hold of the new catalog after each extracted message.
pub open spec fn merged_facts(
    acc: Seq<(Seq<char>, PoEntryView)>,
    extracted: Seq<EntryView>,
    existing: Seq<(Seq<char>, PoEntryView)>,
) -> bool {
    &&& keys_match(acc, extracted)
    &&& forall|j: int|
        0 <= j < acc.len() && key_index(existing, (#[trigger] acc[j]).0) >= 0 ==> keeps_old(
            acc[j].1,
            existing[key_index(existing, acc[j].0)].1,
        )
    &&& forall|j: int|
        0 <= j < acc.len() && key_index(existing, (#[trigger] acc[j]).0) < 0 ==> starts_fresh(
            acc[j].1,
        )
    &&& forall|j: int|
        0 <= j < acc.len() ==> (#[trigger] acc[j]).1.references == references_for(extracted, acc[j].0)
}

proof fn lemma_references_for_none(extracted: Seq<EntryView>, k: Seq<char>)
    requires
        forall|i: int| 0 <= i < extracted.len() ==> extracted_key(extracted[i]) != k,
    ensures
        references_for(extracted, k) == Seq::<Seq<char>>::empty(),
    decreases extracted.len(),
{
    if extracted.len() > 0 {
        lemma_references_for_none(extracted.drop_last(), k);
    }
}

pub proof fn lemma_merged_facts(extracted: Seq<EntryView>, existing: Seq<(Seq<char>, PoEntryView)>)
    ensures
        merged_facts(merged_entries(extracted, existing), extracted, existing),
    decreases extracted.len(),
{
    if extracted.len() == 0 {
        return;
    }
    let prev = extracted.drop_last();
    lemma_merged_facts(prev, existing);
    let acc = merged_entries(prev, existing);
    let e = extracted.last();
    let key = extracted_key(e);
    let m = merged_entries(extracted, existing);
    assert(m == merge_step(acc, existing, e));
    lemma_key_index(acc, key);
    let ai = key_index(acc, key);
    assert forall|i: int| 0 <= i < prev.len() implies extracted[i] == #[trigger] prev[i] by {}
    if ai >= 0 {
        let cur = acc[ai].1;
        let nv = PoEntryView {
            references: cur.references + e.references,
            comments: add_missing(cur.comments, extracted_comments_spec(e)),
            ..cur
        };
        assert(m == acc.update(ai, (key, nv)));
        assert forall|j: int| 0 <= j < acc.len() implies (#[trigger] m[j]).0 == acc[j].0 by {}
        assert forall|k: Seq<char>| key_index(m, k) == key_index(acc, k) by {
            lemma_key_index_same_keys(m, acc, k);
        }
        assert forall|j: int|
            0 <= j < m.len() implies exists|i: int|
                0 <= i < extracted.len() && #[trigger] extracted_key(extracted[i]) == (
                #[trigger] m[j]).0 by {
            let i = choose|i: int| 0 <= i < prev.len() && extracted_key(prev[i]) == acc[j].0;
            assert(extracted[i] == prev[i]);
        }
        assert forall|i: int|
            0 <= i < extracted.len() implies key_index(m, #[trigger] extracted_key(extracted[i]))
            >= 0 by {
            if i < prev.len() {
                assert(extracted[i] == prev[i]);
            }
        }
        assert forall|j: int|
            0 <= j < m.len() implies (#[trigger] m[j]).1.references == references_for(
            extracted,
            m[j].0,
        ) by {
            if j != ai {
                assert(acc[j].0 != key);
            }
        }
    } else {
        let xi = key_index(existing, key);
        lemma_key_index(existing, key);
        let nv = if xi >= 0 {
            let x = existing[xi].1;
            PoEntryView {
                references: e.references,
                flags: without_flag(x.flags, "fuzzy"@),
                comments: extracted_comments_spec(e),
                obsolete: false,
                ..x
            }
        } else {
            fresh_entry(e)
        };
        assert(m == acc.push((key, nv)));
        assert forall|k: Seq<char>| key_index(acc, k) >= 0 implies key_index(m, k) == key_index(
            acc,
            k,
        ) by {
            crate::keyed::lemma_key_index_after_push(acc, (key, nv), k);
        }
        crate::keyed::lemma_key_index_after_push(acc, (key, nv), key);
        assert forall|i: int| 0 <= i < prev.len() implies extracted_key(
            #[trigger] prev[i],
        ) != key by {}
        lemma_references_for_none(prev, key);
        assert forall|j: int|
            0 <= j < m.len() implies exists|i: int|
                0 <= i < extracted.len() && #[trigger] extracted_key(extracted[i]) == (
                #[trigger] m[j]).0 by {
            if j < acc.len() {
                let i = choose|i: int| 0 <= i < prev.len() && extracted_key(prev[i]) == acc[j].0;
                assert(extracted[i] == prev[i]);
            } else {
                assert(extracted_key(extracted[extracted.len() - 1]) == m[j].0);
            }
        }
        assert forall|i: int|
            0 <= i < extracted.len() implies key_index(m, #[trigger] extracted_key(extracted[i]))
            >= 0 by {
            if i < prev.len() {
                assert(extracted[i] == prev[i]);
                assert(key_index(acc, extracted_key(prev[i])) >= 0);
            }
        }
        assert forall|j: int|
            0 <= j < m.len() implies (#[trigger] m[j]).1.references == references_for(
            extracted,
            m[j].0,
        ) by {
            if j < acc.len() {
                assert(acc[j].0 != key);
            }
        }
    }
}

/// Merging keeps, for every message still in the source, the translation
/// the old catalog had for it (and its flags but `fuzzy`), the entry active
/// again if it was obsolete; a message the old catalog lacks starts
/// untranslated.
pub proof fn law_merge_keeps_translations(
    extracted: Seq<EntryView>,
    existing: Seq<(Seq<char>, PoEntryView)>,
    k: Seq<char>,
)
    requires
        key_index(merged_entries(extracted, existing), k) >= 0,
    ensures
        ({
            let m = merged_entries(extracted, existing);
            let e = m[key_index(m, k)].1;
            &&& key_index(existing, k) >= 0 ==> keeps_old(e, existing[key_index(existing, k)].1)
            &&& key_index(existing, k) < 0 ==> starts_fresh(e)
        }),
{
    lemma_merged_facts(extracted, existing);
    lemma_key_index(merged_entries(extracted, existing), k);
}

/// The new catalog holds each extracted message's key exactly once and no
/// other key.
pub proof fn law_merge_keys(extracted: Seq<EntryView>, existing: Seq<(Seq<char>, PoEntryView)>)
    ensures
        keys_match(merged_entries(extracted, existing), extracted),
{
    lemma_merged_facts(extracted, existing);
}

/// An entry's references are those of the extracted messages with its key,
/// in source order: the old catalog's references are dropped.
pub proof fn law_merge_references(
    extracted: Seq<EntryView>,
    existing: Seq<(Seq<char>, PoEntryView)>,
    j: int,
)
    requires
        0 <= j < merged_entries(extracted, existing).len(),
    ensures
        merged_entries(extracted, existing)[j].1.references == references_for(
            extracted,
            merged_entries(extracted, existing)[j].0,
        ),
{
    lemma_merged_facts(extracted, existing);
}


/// What an old entry becomes once its message has left the source.
pub open spec fn as_obsolete(x: PoEntryView) -> PoEntryView {
    PoEntryView { obsolete: true, references: seq![], ..x }
}

/// An old entry that carries a translation and whose message has left the
/// source survives, as an obsolete entry without references.
pub proof fn law_vanished_translations_survive(
    existing: Seq<(Seq<char>, PoEntryView)>,
    new: Seq<(Seq<char>, PoEntryView)>,
    j: int,
)
    requires
        0 <= j < existing.len(),
        key_index(new, existing[j].0) < 0,
        !all_empty(existing[j].1.msgstr),
    ensures
        obsolete_entries(existing, new).contains(as_obsolete(existing[j].1)),
    decreases existing.len(),
{
    let rest = obsolete_entries(existing.drop_last(), new);
    if j < existing.len() - 1 {
        assert(existing.drop_last()[j] == existing[j]);
        law_vanished_translations_survive(existing.drop_last(), new, j);
        let w = choose|w: int| 0 <= w < rest.len() && rest[w] == as_obsolete(existing[j].1);
        let o = obsolete_entries(existing, new);
        assert(o[w] == rest[w]);
    } else {
        let o = obsolete_entries(existing, new);
        assert(o[o.len() - 1] == as_obsolete(existing[j].1));
    }
}

/// Every obsolete entry written is an old entry with a translation whose
/// message has left the source.
pub proof fn law_obsolete_entries_come_from_vanished(
    existing: Seq<(Seq<char>, PoEntryView)>,
    new: Seq<(Seq<char>, PoEntryView)>,
    i: int,
)
    requires
        0 <= i < obsolete_entries(existing, new).len(),
    ensures
        exists|j: int|
            0 <= j < existing.len() && key_index(new, existing[j].0) < 0 && !all_empty(
                existing[j].1.msgstr,
            ) && obsolete_entries(existing, new)[i] == as_obsolete(#[trigger] existing[j].1),
    decreases existing.len(),
{
    let rest = obsolete_entries(existing.drop_last(), new);
    let o = obsolete_entries(existing, new);
    if i < rest.len() {
        law_obsolete_entries_come_from_vanished(existing.drop_last(), new, i);
        let j = choose|j: int|
            0 <= j < existing.drop_last().len() && key_index(new, existing.drop_last()[j].0) < 0
                && !all_empty(existing.drop_last()[j].1.msgstr) && rest[i] == as_obsolete(
                #[trigger] existing.drop_last()[j].1,
            );
        assert(existing.drop_last()[j] == existing[j]);
        assert(o[i] == rest[i]);
    } else {
        let j = existing.len() - 1;
        assert(o[i] == as_obsolete(existing[j].1));
    }
}

} // verus!
