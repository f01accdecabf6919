//! Why a second run over the same sources finds the catalog it wrote in
//! sync: merging the same messages again changes no entry, the obsolete
//! entries stay as they are, and the file comes out the same.
use vstd::prelude::*;
use crate::catalog::{
    all_empty, as_obsolete, entries_text, extracted_comments_spec,
    law_obsolete_entries_come_from_vanished, law_vanished_translations_survive, merge_spec,
    merge_step, merged_entries, obsolete_entries, obsolete_marks, parse_po_file_spec,
    sort_entries_by_key, unwrapped_lines, without_flag,
};
use crate::catalog_file::{
    existing_pairs, header_used, law_catalog_reads_back, lemma_catalog_text_end,
    lemma_existing_keyed, lemma_kept_block, lemma_merge_text_any, lines_text, written_entries,
};
use crate::header_block::header_block;
use crate::extractor::EntryView;
use crate::keyed::{key_index, lemma_key_index, pair_insert_pos, sort_pairs, sorted_by_key};
use crate::po::{
    entry_key_spec, entry_lines, format_entry_spec, header_spec, kept_flags, str_lt, PoEntryView,
    PoOptionsView,
};
use crate::readback::{
    all_comments_safe, all_comments_trimmed, all_flags_ok, all_read_ok, all_readable,
    all_ref_safe, all_shaped, comment_safe, comments_trimmed, distinct_keys, entry_shaped,
    flag_ok, flags_ok, flags_read, keyed_entries, law_obsolete_entries_distinct, read_entry_ok,
    read_view, read_views, ref_safe, refs_written, well_keyed,
};
use crate::run::{file_text_spec, out_of_sync_spec};
use crate::text::{index_of, lemma_index_of, lemma_index_of_unique, lines_of, strip_cr, trim_end_seq};

verus! {

/// Dropping a flag twice drops it once.
proof fn lemma_without_flag_twice(flags: Seq<Seq<char>>, f: Seq<char>)
    ensures
        without_flag(without_flag(flags, f), f) == without_flag(flags, f),
    decreases flags.len(),
{
    if flags.len() > 0 {
        let w = without_flag(flags.drop_last(), f);
        lemma_without_flag_twice(flags.drop_last(), f);
        if flags.last() != f {
            let wp = w.push(flags.last());
            assert(wp.drop_last() =~= w);
            assert(wp.last() == flags.last());
        }
    }
}

/// What an entry keeps when the same message is merged into it again: its
/// message, plural form, translations, state, and its flags but `fuzzy`.
pub open spec fn kept_fields(v: PoEntryView) -> (
    Option<Seq<char>>,
    Seq<char>,
    Option<Seq<char>>,
    Seq<Seq<char>>,
    bool,
    Seq<Seq<char>>,
) {
    (v.msgctxt, v.msgid, v.msgid_plural, v.msgstr, v.obsolete, without_flag(v.flags, "fuzzy"@))
}

/// One merge step keeps the keys and kept fields of the entries already
/// there, at their places.
proof fn lemma_step_keeps(
    acc: Seq<(Seq<char>, PoEntryView)>,
    existing: Seq<(Seq<char>, PoEntryView)>,
    e: EntryView,
)
    ensures
        merge_step(acc, existing, e).len() >= acc.len(),
        forall|j: int|
            0 <= j < acc.len() ==> (#[trigger] merge_step(acc, existing, e)[j]).0 == acc[j].0
                && kept_fields(merge_step(acc, existing, e)[j].1) == kept_fields(acc[j].1),
{
    let key = entry_key_spec(e.msgctxt, e.msgid);
    lemma_key_index(acc, key);
}

/// The merged entries after the first `n` messages keep their keys and kept
/// fields, at their places, to the end.
proof fn lemma_prefix_keeps(extracted: Seq<EntryView>, existing: Seq<(Seq<char>, PoEntryView)>, n: int)
    requires
        0 <= n <= extracted.len(),
    ensures
        merged_entries(extracted, existing).len() >= merged_entries(extracted.take(n), existing).len(),
        forall|j: int|
            0 <= j < merged_entries(extracted.take(n), existing).len() ==> (
            #[trigger] merged_entries(extracted, existing)[j]).0 == merged_entries(
                extracted.take(n),
                existing,
            )[j].0 && kept_fields(merged_entries(extracted, existing)[j].1) == kept_fields(
                merged_entries(extracted.take(n), existing)[j].1,
            ),
    decreases extracted.len() - n,
{
    if n == extracted.len() {
        assert(extracted.take(n) =~= extracted);
    } else {
        let d = extracted.drop_last();
        assert(d.take(n) =~= extracted.take(n));
        lemma_prefix_keeps(d, existing, n);
        lemma_step_keeps(merged_entries(d, existing), existing, extracted.last());
    }
}

/// Merging into a catalog whose entries stand under their own keys gives
/// entries that stand under their own keys.
proof fn lemma_merged_keyed(extracted: Seq<EntryView>, existing: Seq<(Seq<char>, PoEntryView)>)
    requires
        well_keyed(existing),
    ensures
        well_keyed(merged_entries(extracted, existing)),
    decreases extracted.len(),
{
    if extracted.len() > 0 {
        let d = extracted.drop_last();
        lemma_merged_keyed(d, existing);
        let acc = merged_entries(d, existing);
        let e = extracted.last();
        let key = entry_key_spec(e.msgctxt, e.msgid);
        lemma_key_index(acc, key);
        lemma_key_index(existing, key);
        let m = merged_entries(extracted, existing);
        assert forall|j: int| 0 <= j < m.len() implies (#[trigger] m[j]).0 == entry_key_spec(
            m[j].1.msgctxt,
            m[j].1.msgid,
        ) by {
            if j < acc.len() {
                assert(acc[j].0 == entry_key_spec(acc[j].1.msgctxt, acc[j].1.msgid));
            }
            let xi = key_index(existing, key);
            if xi >= 0 {
                assert(existing[xi].0 == entry_key_spec(existing[xi].1.msgctxt, existing[xi].1.msgid));
            }
        }
    }
}

/// The catalog holds each entry of `m` under its key, with the fields a merge
/// keeps.
pub open spec fn holds_kept(ex: Seq<(Seq<char>, PoEntryView)>, m: Seq<(Seq<char>, PoEntryView)>) -> bool {
    forall|j: int|
        0 <= j < m.len() ==> key_index(ex, (#[trigger] m[j]).0) >= 0 && kept_fields(
            ex[key_index(ex, m[j].0)].1,
        ) == kept_fields(m[j].1)
}

/// Merging the same messages into a catalog that holds what the first merge
/// gave goes through the same steps.
proof fn lemma_merge_again_prefix(
    extracted: Seq<EntryView>,
    ex1: Seq<(Seq<char>, PoEntryView)>,
    ex2: Seq<(Seq<char>, PoEntryView)>,
    n: int,
)
    requires
        holds_kept(ex2, merged_entries(extracted, ex1)),
        0 <= n <= extracted.len(),
    ensures
        merged_entries(extracted.take(n), ex2) == merged_entries(extracted.take(n), ex1),
    decreases n,
{
    if n > 0 {
        let m1 = merged_entries(extracted, ex1);
        lemma_merge_again_prefix(extracted, ex1, ex2, n - 1);
        let t = extracted.take(n);
        assert(t.drop_last() =~= extracted.take(n - 1));
        let e = t.last();
        assert(e == extracted[n - 1]);
        let acc = merged_entries(extracted.take(n - 1), ex1);
        let key = entry_key_spec(e.msgctxt, e.msgid);
        lemma_key_index(acc, key);
        if key_index(acc, key) < 0 {
            let xi = key_index(ex1, key);
            lemma_key_index(ex1, key);
            let c1 = merge_step(acc, ex1, e)[acc.len() as int].1;
            lemma_prefix_keeps(extracted, ex1, n);
            assert(merged_entries(t, ex1) == merge_step(acc, ex1, e));
            let p = acc.len() as int;
            assert(m1[p].0 == key);
            assert(kept_fields(m1[p].1) == kept_fields(c1));
            let yi = key_index(ex2, m1[p].0);
            lemma_key_index(ex2, key);
            let y = ex2[yi].1;
            assert(kept_fields(y) == kept_fields(c1));
            if xi >= 0 {
                lemma_without_flag_twice(ex1[xi].1.flags, "fuzzy"@);
            } else {
                assert(without_flag(Seq::<Seq<char>>::empty(), "fuzzy"@) == Seq::<Seq<char>>::empty());
            }
            assert(without_flag(y.flags, "fuzzy"@) == c1.flags);
            let c2 = PoEntryView {
                references: e.references,
                flags: without_flag(y.flags, "fuzzy"@),
                comments: extracted_comments_spec(e),
                obsolete: false,
                ..y
            };
            assert(c2 == c1);
            assert(merge_step(acc, ex2, e) == acc.push((key, c2)));
        }
    }
}

/// Merging the same messages again into a catalog that holds each entry a
/// merge gave, under its key and with the fields a merge keeps, gives those
/// same entries: a second run over the same sources changes no entry.
pub proof fn law_merge_again(
    extracted: Seq<EntryView>,
    ex1: Seq<(Seq<char>, PoEntryView)>,
    ex2: Seq<(Seq<char>, PoEntryView)>,
)
    requires
        holds_kept(ex2, merged_entries(extracted, ex1)),
    ensures
        merged_entries(extracted, ex2) == merged_entries(extracted, ex1),
{
    lemma_merge_again_prefix(extracted, ex1, ex2, extracted.len() as int);
    assert(extracted.take(extracted.len() as int) =~= extracted);
}

/// An obsolete entry as written: obsolete already, without references, with
/// a translation.
pub open spec fn written_obsolete(x: PoEntryView) -> bool {
    as_obsolete(x) == x && !all_empty(x.msgstr)
}

/// Entries under keys of the new catalog are none of them obsolete.
proof fn lemma_obsolete_of_own(
    a: Seq<(Seq<char>, PoEntryView)>,
    m: Seq<(Seq<char>, PoEntryView)>,
    k: int,
)
    requires
        forall|j: int| 0 <= j < a.len() ==> key_index(m, (#[trigger] a[j]).0) >= 0,
        0 <= k <= a.len(),
    ensures
        obsolete_entries(a.take(k), m) == Seq::<PoEntryView>::empty(),
    decreases k,
{
    if k > 0 {
        let t = a.take(k);
        assert(t.drop_last() =~= a.take(k - 1));
        lemma_obsolete_of_own(a, m, k - 1);
        assert(t.last() == a[k - 1]);
    }
}

/// Reading back entries under the new catalog's keys and then obsolete
/// entries, the same new catalog marks those same entries obsolete.
proof fn lemma_obsolete_again(
    a: Seq<(Seq<char>, PoEntryView)>,
    m: Seq<(Seq<char>, PoEntryView)>,
    obs: Seq<PoEntryView>,
)
    requires
        forall|j: int| 0 <= j < a.len() ==> key_index(m, (#[trigger] a[j]).0) >= 0,
        forall|i: int| 0 <= i < obs.len() ==> key_index(
            m,
            entry_key_spec((#[trigger] obs[i]).msgctxt, obs[i].msgid),
        ) < 0 && written_obsolete(obs[i]),
    ensures
        obsolete_entries(a + keyed_entries(obs), m) == obs,
    decreases obs.len(),
{
    if obs.len() == 0 {
        assert(keyed_entries(obs) =~= Seq::<(Seq<char>, PoEntryView)>::empty());
        assert(a + keyed_entries(obs) =~= a.take(a.len() as int));
        lemma_obsolete_of_own(a, m, a.len() as int);
    } else {
        let d = obs.drop_last();
        assert forall|i: int| 0 <= i < d.len() implies key_index(
            m,
            entry_key_spec((#[trigger] d[i]).msgctxt, d[i].msgid),
        ) < 0 && written_obsolete(d[i]) by {
            assert(d[i] == obs[i]);
        }
        lemma_obsolete_again(a, m, d);
        let all = a + keyed_entries(obs);
        assert(all.drop_last() =~= a + keyed_entries(d));
        let x = obs.last();
        assert(written_obsolete(obs[obs.len() - 1]));
        assert(all.last() == (entry_key_spec(x.msgctxt, x.msgid), x));
        assert(d.push(x) =~= obs);
    }
}

/// Keeping the flags not named twice keeps them once.
proof fn lemma_kept_flags_twice(flags: Seq<Seq<char>>, no_flag: Seq<Seq<char>>)
    ensures
        kept_flags(kept_flags(flags, no_flag), no_flag) == kept_flags(flags, no_flag),
    decreases flags.len(),
{
    if flags.len() > 0 {
        let k = kept_flags(flags.drop_last(), no_flag);
        lemma_kept_flags_twice(flags.drop_last(), no_flag);
        if !no_flag.contains(flags.last()) {
            let kp = k.push(flags.last());
            assert(kp.drop_last() =~= k);
            assert(kp.last() == flags.last());
        }
    }
}

/// Keeping the flags not named and dropping one flag can go in either
/// order.
proof fn lemma_kept_without_commute(flags: Seq<Seq<char>>, no_flag: Seq<Seq<char>>, f: Seq<char>)
    ensures
        kept_flags(without_flag(flags, f), no_flag) == without_flag(kept_flags(flags, no_flag), f),
    decreases flags.len(),
{
    if flags.len() > 0 {
        let d = flags.drop_last();
        let x = flags.last();
        lemma_kept_without_commute(d, no_flag, f);
        let w = without_flag(d, f);
        let k = kept_flags(d, no_flag);
        if x != f {
            let wp = w.push(x);
            assert(wp.drop_last() =~= w);
            assert(wp.last() == x);
        }
        if !no_flag.contains(x) {
            let kp = k.push(x);
            assert(kp.drop_last() =~= k);
            assert(kp.last() == x);
        }
    }
}

/// The flags an entry reads back with hold no `fuzzy` when its own flags
/// hold none.
proof fn lemma_read_flags_unfuzzy(v: PoEntryView, o: PoOptionsView)
    requires
        without_flag(v.flags, "fuzzy"@) == v.flags,
    ensures
        without_flag(flags_read(v, o), "fuzzy"@) == flags_read(v, o),
{
    if !o.no_flags {
        lemma_kept_without_commute(v.flags, o.no_flag, "fuzzy"@);
    }
}

/// An entry as read back, written again, gives the same text, when its
/// references are not written and its comments are trimmed.
proof fn lemma_view_writes_same(e: PoEntryView, o: PoOptionsView)
    requires
        !refs_written(e, o),
        comments_trimmed(e),
    ensures
        format_entry_spec(read_view(e, o), o) == format_entry_spec(e, o),
{
    let v = read_view(e, o);
    lemma_kept_flags_twice(e.flags, o.no_flag);
    assert(v.references.len() == 0);
    assert(entry_lines(v, o) =~= entry_lines(e, o));
}

/// Entries as read back, written again, give the same text.
proof fn lemma_views_write_same(es: Seq<PoEntryView>, o: PoOptionsView)
    requires
        forall|i: int| 0 <= i < es.len() ==> !refs_written(#[trigger] es[i], o),
        forall|i: int| 0 <= i < es.len() ==> comments_trimmed(#[trigger] es[i]),
    ensures
        entries_text(read_views(es, o), o) == entries_text(es, o),
    decreases es.len(),
{
    if es.len() > 0 {
        let d = es.drop_last();
        assert forall|i: int| 0 <= i < d.len() implies !refs_written(#[trigger] d[i], o) by {
            assert(d[i] == es[i]);
        }
        assert forall|i: int| 0 <= i < d.len() implies comments_trimmed(#[trigger] d[i]) by {
            assert(d[i] == es[i]);
        }
        lemma_views_write_same(d, o);
        assert(read_views(es, o).drop_last() =~= read_views(d, o));
        assert(read_views(es, o).last() == read_view(es.last(), o));
        assert(!refs_written(es[es.len() - 1], o));
        assert(comments_trimmed(es[es.len() - 1]));
        lemma_view_writes_same(es.last(), o);
    }
}

/// Dropping a flag keeps only flags that were there.
proof fn lemma_without_flag_members(flags: Seq<Seq<char>>, f: Seq<char>)
    ensures
        forall|i: int|
            0 <= i < without_flag(flags, f).len() ==> flags.contains(
                #[trigger] without_flag(flags, f)[i],
            ),
    decreases flags.len(),
{
    if flags.len() > 0 {
        let d = flags.drop_last();
        lemma_without_flag_members(d, f);
        let w = without_flag(d, f);
        let r = without_flag(flags, f);
        assert forall|i: int| 0 <= i < r.len() implies flags.contains(#[trigger] r[i]) by {
            if i < w.len() {
                assert(r[i] == w[i]);
                assert(d.contains(w[i]));
                let k = choose|k: int| 0 <= k < d.len() && d[k] == w[i];
                assert(flags[k] == d[k]);
            } else {
                assert(r[i] == flags.last());
                assert(flags[flags.len() - 1] == flags.last());
            }
        }
    }
}

/// Merging keeps flags of the shape the reader splits flags by: each comes
/// from an old entry.
proof fn lemma_merged_flags_ok(extracted: Seq<EntryView>, existing: Seq<(Seq<char>, PoEntryView)>)
    requires
        all_flags_ok(existing),
    ensures
        all_flags_ok(merged_entries(extracted, existing)),
    decreases extracted.len(),
{
    if extracted.len() > 0 {
        let d = extracted.drop_last();
        lemma_merged_flags_ok(d, existing);
        let acc = merged_entries(d, existing);
        let e = extracted.last();
        let key = entry_key_spec(e.msgctxt, e.msgid);
        lemma_key_index(acc, key);
        lemma_key_index(existing, key);
        let ai = key_index(acc, key);
        let n = merged_entries(extracted, existing);
        assert(n == merge_step(acc, existing, e));
        if ai >= 0 {
            assert forall|j: int| 0 <= j < n.len() implies flags_ok(#[trigger] n[j].1) by {
                assert(flags_ok(acc[ai].1));
                if j != ai {
                    assert(n[j] == acc[j]);
                }
            }
        } else {
            let xi = key_index(existing, key);
            if xi >= 0 {
                let x = existing[xi].1;
                assert(flags_ok(x));
                lemma_without_flag_members(x.flags, "fuzzy"@);
                let wf = without_flag(x.flags, "fuzzy"@);
                assert forall|j: int| 0 <= j < n.len() implies flags_ok(#[trigger] n[j].1) by {
                    if j < acc.len() {
                        assert(n[j] == acc[j]);
                    } else {
                        assert(n[j].1.flags == wf);
                        assert forall|t: int| 0 <= t < wf.len() implies flag_ok(#[trigger] wf[t]) by {
                            assert(x.flags.contains(wf[t]));
                            let k = choose|k: int| 0 <= k < x.flags.len() && x.flags[k] == wf[t];
                            assert(flag_ok(x.flags[k]));
                        }
                    }
                }
            } else {
                assert forall|j: int| 0 <= j < n.len() implies flags_ok(#[trigger] n[j].1) by {
                    if j < acc.len() {
                        assert(n[j] == acc[j]);
                    }
                }
            }
        }
    }
}

/// The entries a run writes keep flags of the shape the reader splits flags
/// by, so they read back when they keep to their lines.
pub proof fn lemma_written_readable(
    extracted: Seq<EntryView>,
    existing_content: Option<Seq<char>>,
    o: PoOptionsView,
)
    requires
        all_shaped(written_entries(extracted, existing_content, o), o),
    ensures
        all_readable(written_entries(extracted, existing_content, o), o),
{
    let ex1 = existing_pairs(existing_content);
    match existing_content {
        Some(c) => {
            crate::readback::law_parsed_entries(c);
        },
        None => {},
    }
    assert(all_flags_ok(ex1));
    let m1 = merged_entries(extracted, ex1);
    lemma_merged_flags_ok(extracted, ex1);
    let n1 = new_in_order(m1, o);
    lemma_new_in_order(m1, o);
    let obs1 = obsolete_in_order(ex1, n1, o);
    let vals = n1.map_values(|p: (Seq<char>, PoEntryView)| p.1);
    let w = written_entries(extracted, existing_content, o);
    assert(w == vals + obs1);
    assert forall|i: int| 0 <= i < w.len() implies flags_ok(#[trigger] w[i]) by {
        if i < vals.len() {
            assert(w[i] == n1[i].1);
            assert(m1.contains(n1[i]));
            let j = choose|j: int| 0 <= j < m1.len() && m1[j] == n1[i];
            assert(flags_ok(m1[j].1));
        } else {
            let q = i - vals.len();
            assert(w[i] == obs1[q]);
            let o1 = obsolete_entries(ex1, n1);
            lemma_sorted_entries(o1, o);
            assert(o1.contains(obs1[q]));
            let i1 = choose|i1: int| 0 <= i1 < o1.len() && o1[i1] == obs1[q];
            law_obsolete_entries_come_from_vanished(ex1, n1, i1);
            let j = choose|j: int|
                0 <= j < ex1.len() && key_index(n1, ex1[j].0) < 0 && !all_empty(ex1[j].1.msgstr)
                    && o1[i1] == as_obsolete(#[trigger] ex1[j].1);
            assert(flags_ok(ex1[j].1));
        }
    }
}

/// A translator comment that stays on its `#.` line: no newline, and no
/// carriage return at its end.
pub open spec fn comment_text_safe(c: Seq<char>) -> bool {
    &&& crate::text::lacks(c, '\n')
    &&& (c.len() == 0 || c.last() != '\r')
}

/// An extracted message whose catalog entry keeps to its lines: its
/// references (their file parts, when only files are written) and comments
/// stay on their lines, and it has a msgid or a context.
pub open spec fn message_shaped(e: EntryView, o: PoOptionsView) -> bool {
    &&& all_ref_safe(e.references)
    &&& o.location_mode == crate::po::LocationMode::File ==> forall|k: int|
        0 <= k < e.references.len() ==> ref_safe(crate::po::file_part(#[trigger] e.references[k]))
    &&& forall|i: int| 0 <= i < e.comments.len() ==> comment_text_safe(#[trigger] e.comments[i])
    &&& (e.msgid.len() > 0 || e.msgctxt is Some)
}

pub open spec fn all_messages_shaped(es: Seq<EntryView>, o: PoOptionsView) -> bool {
    forall|i: int| 0 <= i < es.len() ==> message_shaped(#[trigger] es[i], o)
}

/// An entry with one translation, or at least one when it has a plural form.
pub open spec fn plural_shaped(v: PoEntryView) -> bool {
    if v.msgid_plural is Some {
        v.msgstr.len() >= 1
    } else {
        v.msgstr.len() == 1
    }
}

pub open spec fn all_plural_shaped(cat: Seq<(Seq<char>, PoEntryView)>) -> bool {
    forall|j: int| 0 <= j < cat.len() ==> plural_shaped(#[trigger] cat[j].1)
}

proof fn lemma_extracted_comments_safe(e: EntryView)
    requires
        forall|i: int| 0 <= i < e.comments.len() ==> comment_text_safe(#[trigger] e.comments[i]),
    ensures
        forall|i: int|
            0 <= i < extracted_comments_spec(e).len() ==> comment_safe(
                #[trigger] extracted_comments_spec(e)[i],
            ),
{
    let cs = extracted_comments_spec(e);
    assert forall|i: int| 0 <= i < cs.len() implies comment_safe(#[trigger] cs[i]) by {
        let c = e.comments[i];
        assert(comment_text_safe(c));
        let l = seq!['#', '.', ' '] + c;
        assert(cs[i] == l);
        assert(l.take(2) =~= seq!['#', '.']);
        assert forall|k: int| 0 <= k < l.len() implies l[k] != '\n' by {
            if k >= 3 {
                assert(l[k] == c[k - 3]);
            }
        }
        if c.len() > 0 {
            assert(l.last() == c.last());
        }
    }
}

/// Adding the missing items keeps only items of either list.
proof fn lemma_add_missing_members(cs: Seq<Seq<char>>, new: Seq<Seq<char>>)
    ensures
        forall|i: int|
            0 <= i < crate::catalog::add_missing(cs, new).len() ==> cs.contains(
                #[trigger] crate::catalog::add_missing(cs, new)[i],
            ) || new.contains(crate::catalog::add_missing(cs, new)[i]),
    decreases new.len(),
{
    if new.len() > 0 {
        let d = new.drop_last();
        lemma_add_missing_members(cs, d);
        let a = crate::catalog::add_missing(cs, d);
        let r = crate::catalog::add_missing(cs, new);
        assert forall|i: int| 0 <= i < r.len() implies cs.contains(#[trigger] r[i]) || new.contains(
            r[i],
        ) by {
            if i < a.len() {
                assert(r[i] == a[i]);
                if d.contains(a[i]) {
                    let k = choose|k: int| 0 <= k < d.len() && d[k] == a[i];
                    assert(new[k] == d[k]);
                }
            } else {
                assert(r[i] == new.last());
                assert(new[new.len() - 1] == new.last());
            }
        }
    }
}

/// The new catalog's entries keep to their lines when the extracted messages
/// do and the old entries have a msgid (or a context) and their translations
/// match their plural forms.
proof fn lemma_merged_shaped(
    extracted: Seq<EntryView>,
    existing: Seq<(Seq<char>, PoEntryView)>,
    o: PoOptionsView,
)
    requires
        all_messages_shaped(extracted, o),
        all_read_ok(existing),
        all_plural_shaped(existing),
    ensures
        forall|j: int|
            0 <= j < merged_entries(extracted, existing).len() ==> entry_shaped(
                #[trigger] merged_entries(extracted, existing)[j].1,
                o,
            ),
    decreases extracted.len(),
{
    if extracted.len() > 0 {
        let d = extracted.drop_last();
        assert forall|i: int| 0 <= i < d.len() implies message_shaped(#[trigger] d[i], o) by {
            assert(d[i] == extracted[i]);
        }
        lemma_merged_shaped(d, existing, o);
        let acc = merged_entries(d, existing);
        let e = extracted.last();
        assert(message_shaped(extracted[extracted.len() - 1], o));
        lemma_extracted_comments_safe(e);
        let ec = extracted_comments_spec(e);
        let key = entry_key_spec(e.msgctxt, e.msgid);
        lemma_key_index(acc, key);
        lemma_key_index(existing, key);
        let ai = key_index(acc, key);
        let n = merged_entries(extracted, existing);
        assert(n == merge_step(acc, existing, e));
        if ai >= 0 {
            let cur = acc[ai].1;
            assert(entry_shaped(cur, o));
            assert forall|j: int| 0 <= j < n.len() implies entry_shaped(#[trigger] n[j].1, o) by {
                if j != ai {
                    assert(n[j] == acc[j]);
                } else {
                    let v = n[j].1;
                    let rs = cur.references + e.references;
                    assert(v.references == rs);
                    assert forall|k: int| 0 <= k < rs.len() implies ref_safe(#[trigger] rs[k]) by {
                        if k < cur.references.len() {
                            assert(rs[k] == cur.references[k]);
                        } else {
                            assert(rs[k] == e.references[k - cur.references.len()]);
                        }
                    }
                    if o.location_mode == crate::po::LocationMode::File {
                        assert forall|k: int| 0 <= k < rs.len() implies ref_safe(
                            crate::po::file_part(#[trigger] rs[k]),
                        ) by {
                            if k < cur.references.len() {
                                assert(rs[k] == cur.references[k]);
                            } else {
                                assert(rs[k] == e.references[k - cur.references.len()]);
                            }
                        }
                    }
                    lemma_add_missing_members(cur.comments, ec);
                    let cm = crate::catalog::add_missing(cur.comments, ec);
                    assert(v.comments == cm);
                    assert forall|k: int| 0 <= k < cm.len() implies comment_safe(#[trigger] cm[k]) by {
                        if cur.comments.contains(cm[k]) {
                            let t = choose|t: int| 0 <= t < cur.comments.len() && cur.comments[t] == cm[k];
                            assert(comment_safe(cur.comments[t]));
                        } else {
                            let t = choose|t: int| 0 <= t < ec.len() && ec[t] == cm[k];
                            assert(comment_safe(ec[t]));
                        }
                    }
                }
            }
        } else {
            let xi = key_index(existing, key);
            if xi >= 0 {
                let x = existing[xi].1;
                assert(read_entry_ok(x));
                assert(plural_shaped(x));
            }
            assert forall|j: int| 0 <= j < n.len() implies entry_shaped(#[trigger] n[j].1, o) by {
                if j < acc.len() {
                    assert(n[j] == acc[j]);
                }
            }
        }
    }
}

/// The entries a run writes keep to their lines when every extracted
/// message's references and comments stay on their lines and it has a msgid
/// (or a context), and every entry of the existing file has one
/// translation, or at least one when it has a plural form: the first run's
/// comments are the extracted ones, its flags and translations come from the
/// existing file, and its obsolete entries are read from that file.
pub proof fn law_written_entries_shaped(
    extracted: Seq<EntryView>,
    existing_content: Option<Seq<char>>,
    o: PoOptionsView,
)
    requires
        all_messages_shaped(extracted, o),
        all_plural_shaped(existing_pairs(existing_content)),
    ensures
        all_shaped(written_entries(extracted, existing_content, o), o),
{
    let ex1 = existing_pairs(existing_content);
    match existing_content {
        Some(c) => {
            crate::readback::law_parsed_entries(c);
        },
        None => {},
    }
    assert(all_read_ok(ex1) && all_comments_safe(ex1));
    let m1 = merged_entries(extracted, ex1);
    lemma_merged_shaped(extracted, ex1, o);
    let n1 = new_in_order(m1, o);
    lemma_new_in_order(m1, o);
    let obs1 = obsolete_in_order(ex1, n1, o);
    let vals = n1.map_values(|p: (Seq<char>, PoEntryView)| p.1);
    let w = written_entries(extracted, existing_content, o);
    assert(w == vals + obs1);
    assert forall|i: int| 0 <= i < w.len() implies entry_shaped(#[trigger] w[i], o) by {
        if i < vals.len() {
            assert(w[i] == n1[i].1);
            assert(m1.contains(n1[i]));
            let j = choose|j: int| 0 <= j < m1.len() && m1[j] == n1[i];
            assert(entry_shaped(m1[j].1, o));
        } else {
            let q = i - vals.len();
            assert(w[i] == obs1[q]);
            let o1 = obsolete_entries(ex1, n1);
            lemma_sorted_entries(o1, o);
            assert(o1.contains(obs1[q]));
            let i1 = choose|i1: int| 0 <= i1 < o1.len() && o1[i1] == obs1[q];
            law_obsolete_entries_come_from_vanished(ex1, n1, i1);
            let j = choose|j: int|
                0 <= j < ex1.len() && key_index(n1, ex1[j].0) < 0 && !all_empty(ex1[j].1.msgstr)
                    && o1[i1] == as_obsolete(#[trigger] ex1[j].1);
            assert(read_entry_ok(ex1[j].1));
            assert(plural_shaped(ex1[j].1));
            assert(crate::readback::comments_safe(ex1[j].1));
            assert(w[i].references.len() == 0);
        }
    }
}

/// The comments a run reads from the existing file are trimmed.
proof fn lemma_existing_trimmed(existing_content: Option<Seq<char>>)
    ensures
        all_comments_trimmed(existing_pairs(existing_content)),
{
    match existing_content {
        Some(c) => {
            crate::readback::law_parsed_entries(c);
        },
        None => {},
    }
}

/// A newline after the last line adds no line.
pub proof fn lemma_lines_trailing_newline(s: Seq<char>)
    requires
        s.len() > 0,
        s.last() != '\n',
        s.last() != '\r',
    ensures
        lines_of(s + seq!['\n']) == lines_of(s),
    decreases s.len(),
{
    let t = s + seq!['\n'];
    lemma_index_of(s, '\n');
    let i = index_of(s, '\n');
    if i < 0 {
        assert forall|k: int| 0 <= k < s.len() implies t[k] != '\n' by {
            assert(t[k] == s[k]);
        }
        lemma_index_of_unique(t, '\n', s.len() as int);
        assert(t.take(s.len() as int) =~= s);
        assert(t.skip(s.len() as int + 1) =~= Seq::<char>::empty());
        assert(lines_of(t.skip(s.len() as int + 1)) == Seq::<Seq<char>>::empty());
        assert(strip_cr(s) == s);
        assert(lines_of(t) =~= seq![s]);
    } else {
        assert(i < s.len() - 1);
        assert forall|k: int| 0 <= k < i implies t[k] != '\n' by {
            assert(t[k] == s[k]);
        }
        assert(t[i] == s[i]);
        lemma_index_of_unique(t, '\n', i);
        assert(t.take(i) =~= s.take(i));
        let r = s.skip(i + 1);
        assert(t.skip(i + 1) =~= r + seq!['\n']);
        assert(r.last() == s.last());
        lemma_lines_trailing_newline(r);
    }
}

/// A catalog file, with its final newline, reads as the catalog text.
proof fn lemma_file_reads_as_text(f: Seq<char>)
    requires
        f.len() > 0,
        f.last() == '"',
    ensures
        parse_po_file_spec(file_text_spec(f)) == parse_po_file_spec(f),
{
    assert(('"' as u32) == 34);
    lemma_lines_trailing_newline(f);
    assert(unwrapped_lines(file_text_spec(f)) == unwrapped_lines(f));
    assert(obsolete_marks(file_text_spec(f)) == obsolete_marks(f));
}

/// The new catalog a run writes: sorted by key when the output is sorted.
pub open spec fn new_in_order(m: Seq<(Seq<char>, PoEntryView)>, o: PoOptionsView) -> Seq<
    (Seq<char>, PoEntryView),
> {
    if o.sort_output {
        sort_pairs(m)
    } else {
        m
    }
}

/// The obsolete entries a run writes after the new catalog `new`.
pub open spec fn obsolete_in_order(
    ex: Seq<(Seq<char>, PoEntryView)>,
    new: Seq<(Seq<char>, PoEntryView)>,
    o: PoOptionsView,
) -> Seq<PoEntryView> {
    if o.no_obsolete {
        seq![]
    } else if o.sort_output {
        sort_entries_by_key(obsolete_entries(ex, new))
    } else {
        obsolete_entries(ex, new)
    }
}

/// The new catalog in the order written holds the same entries.
proof fn lemma_new_in_order(m: Seq<(Seq<char>, PoEntryView)>, o: PoOptionsView)
    ensures
        new_in_order(m, o).len() == m.len(),
        forall|j: int| 0 <= j < m.len() ==> new_in_order(m, o).contains(#[trigger] m[j]),
        forall|q: int| 0 <= q < m.len() ==> m.contains(#[trigger] new_in_order(m, o)[q]),
        forall|k: Seq<char>|
            #[trigger] key_index(new_in_order(m, o), k) >= 0 <==> key_index(m, k) >= 0,
{
    crate::keyed::lemma_sort_pairs_len(m);
    let n = new_in_order(m, o);
    assert forall|j: int| 0 <= j < m.len() implies n.contains(#[trigger] m[j]) by {
        if o.sort_output {
            lemma_sort_keeps(m, j);
        } else {
            assert(n[j] == m[j]);
        }
    }
    assert forall|q: int| 0 <= q < m.len() implies m.contains(#[trigger] n[q]) by {
        if o.sort_output {
            crate::keyed::lemma_sort_pairs_members(m, q);
        } else {
            assert(m[q] == n[q]);
        }
    }
    assert forall|k: Seq<char>| #[trigger] key_index(n, k) >= 0 <==> key_index(m, k) >= 0 by {
        if o.sort_output {
            lemma_sort_same_keys(m, k);
        }
    }
}

/// The second run's catalog marks obsolete the entries the first run wrote
/// as obsolete, as read back.
proof fn lemma_second_obsolete(
    extracted: Seq<EntryView>,
    ex1: Seq<(Seq<char>, PoEntryView)>,
    o: PoOptionsView,
)
    requires
        well_keyed(ex1),
    ensures
        ({
            let m1 = merged_entries(extracted, ex1);
            let n1 = new_in_order(m1, o);
            let obs1 = obsolete_in_order(ex1, n1, o);
            let w1 = n1.map_values(|p: (Seq<char>, PoEntryView)| p.1) + obs1;
            let ex2 = keyed_entries(read_views(w1, o));
            obsolete_in_order(ex2, n1, o) == read_views(obs1, o)
        }),
{
    let m1 = merged_entries(extracted, ex1);
    let n1 = new_in_order(m1, o);
    let obs1 = obsolete_in_order(ex1, n1, o);
    let vals = n1.map_values(|p: (Seq<char>, PoEntryView)| p.1);
    let w1 = vals + obs1;
    let ex2 = keyed_entries(read_views(w1, o));
    lemma_merged_keyed(extracted, ex1);
    lemma_new_in_order(m1, o);
    let a = keyed_entries(read_views(vals, o));
    let vobs = read_views(obs1, o);
    assert(read_views(w1, o) =~= read_views(vals, o) + vobs);
    assert(ex2 =~= a + keyed_entries(vobs));
    if !o.no_obsolete {
        lemma_obsolete_same_keys(ex1, n1, m1);
        lemma_obsolete_same_keys(ex2, n1, m1);
        let o1 = obsolete_entries(ex1, m1);
        lemma_sorted_entries(o1, o);
        assert forall|j: int| 0 <= j < a.len() implies key_index(m1, (#[trigger] a[j]).0) >= 0 by {
            assert(m1.contains(n1[j]));
            let i = choose|i: int| 0 <= i < m1.len() && m1[i] == n1[j];
            assert(m1[i].0 == entry_key_spec(m1[i].1.msgctxt, m1[i].1.msgid));
            lemma_key_index(m1, m1[i].0);
        }
        assert forall|i: int| 0 <= i < vobs.len() implies key_index(
            m1,
            entry_key_spec((#[trigger] vobs[i]).msgctxt, vobs[i].msgid),
        ) < 0 && written_obsolete(vobs[i]) by {
            assert(o1.contains(obs1[i]));
            let i1 = choose|i1: int| 0 <= i1 < o1.len() && o1[i1] == obs1[i];
            law_obsolete_entries_come_from_vanished(ex1, m1, i1);
            let j = choose|j: int|
                0 <= j < ex1.len() && key_index(m1, ex1[j].0) < 0 && !all_empty(ex1[j].1.msgstr)
                    && o1[i1] == as_obsolete(#[trigger] ex1[j].1);
            assert(ex1[j].0 == entry_key_spec(ex1[j].1.msgctxt, ex1[j].1.msgid));
            assert(vobs[i] == read_view(obs1[i], o));
        }
        lemma_obsolete_again(a, m1, vobs);
    } else {
        assert(vobs =~= Seq::<PoEntryView>::empty());
    }
}

/// The second run writes the first run's header, a block of lines `hl` with
/// its msgid on line `c`, again: it keeps the header, and the header
/// pattern's first match in the file is the block from its msgid line on; or
/// it writes a fresh header dated the same minute.
pub open spec fn same_header_again(
    o: PoOptionsView,
    file: Seq<char>,
    spans2: Seq<(usize, usize)>,
    hl: Seq<Seq<char>>,
    c: int,
    secs: int,
    secs2: int,
) -> bool {
    if o.keep_header {
        spans2.len() > 0 && crate::matching::char_span(file, spans2[0]) == Some(
            (lines_text(hl.take(c)).len() as int, lines_text(hl).len() - 1),
        )
    } else {
        crate::po::creation_date_text(secs2) == crate::po::creation_date_text(secs)
    }
}

/// Run twice over the same sources, the second run writes exactly the
/// catalog the first one wrote, so a check run finds the catalog in sync:
/// when the first run's header, fresh or kept, is a header block and the
/// second run writes it again (see `same_header_again`), and the entries
/// written keep to their lines (see `entry_shaped`, and
/// `law_written_entries_shaped` for when they do). References that hold
/// spaces and comments that are not trimmed read back otherwise than
/// written, and that changes nothing: the second run takes both from the
/// sources again.
#[verifier::rlimit(40)]
#[verifier::spinoff_prover]
pub proof fn law_rerun_in_sync(
    extracted: Seq<EntryView>,
    existing_content: Option<Seq<char>>,
    locale: Seq<char>,
    o: PoOptionsView,
    spans: Seq<(usize, usize)>,
    secs: int,
    spans2: Seq<(usize, usize)>,
    secs2: int,
    hl: Seq<Seq<char>>,
    c: int,
)
    requires
        header_block(header_used(existing_content, o, spans, locale, secs), hl, c),
        same_header_again(
            o,
            file_text_spec(merge_spec(extracted, existing_content, locale, o, spans, secs)),
            spans2,
            hl,
            c,
            secs,
            secs2,
        ),
        all_shaped(written_entries(extracted, existing_content, o), o),
    ensures
        ({
            let f1 = merge_spec(extracted, existing_content, locale, o, spans, secs);
            let file = file_text_spec(f1);
            let f2 = merge_spec(extracted, Some(file), locale, o, spans2, secs2);
            &&& f2 == f1
            &&& !out_of_sync_spec(Some(file), file_text_spec(f2))
        }),
{
    lemma_written_readable(extracted, existing_content, o);
    lemma_written_distinct(extracted, existing_content, o);
    let w1 = written_entries(extracted, existing_content, o);
    let f1 = merge_spec(extracted, existing_content, locale, o, spans, secs);
    let file = file_text_spec(f1);
    let h = header_used(existing_content, o, spans, locale, secs);
    lemma_catalog_text_end(extracted, existing_content, locale, o, spans, secs, hl, c);
    lemma_file_reads_as_text(f1);
    law_catalog_reads_back(extracted, existing_content, locale, o, spans, secs, hl, c);
    let ex1 = existing_pairs(existing_content);
    let ex2 = existing_pairs(Some(file));
    assert(ex2 == keyed_entries(read_views(w1, o)));
    let m1 = merged_entries(extracted, ex1);
    let n1 = new_in_order(m1, o);
    let obs1 = obsolete_in_order(ex1, n1, o);
    let vals = n1.map_values(|p: (Seq<char>, PoEntryView)| p.1);
    assert(w1 == vals + obs1);
    lemma_existing_keyed(existing_content);
    lemma_existing_trimmed(existing_content);
    lemma_second_written(extracted, ex1, o);
    let w2 = written_entries(extracted, Some(file), o);
    assert(entries_text(w2, o) == entries_text(w1, o));
    lemma_merge_text_any(extracted, existing_content, locale, o, spans, secs);
    lemma_merge_text_any(extracted, Some(file), locale, o, spans2, secs2);
    if o.keep_header {
        let tail = file.skip(h.len() as int);
        assert(file =~= h + tail) by {
            assert(file.take(h.len() as int) == f1.take(h.len() as int));
        }
        assert(lines_text(hl).len() - 1 == h.len());
        lemma_kept_block(h, hl, c, tail, spans2);
    } else {
        assert(h == header_spec(locale, secs));
        assert(header_spec(locale, secs2) == header_spec(locale, secs));
    }
    assert(header_used(Some(file), o, spans2, locale, secs2) == h);
}

/// An obsolete entry that one run writes survives the next run over the same
/// messages: the catalog file the run wrote is read back and merged again,
/// and the entry, as read back, is among the obsolete entries once more, and
/// no other obsolete entry shares its key. This holds when obsolete entries
/// are kept and the file reads back (under the conditions of
/// `law_catalog_reads_back`).
pub proof fn law_obsolete_survives_rerun(
    extracted: Seq<EntryView>,
    existing_content: Option<Seq<char>>,
    locale: Seq<char>,
    o: PoOptionsView,
    spans: Seq<(usize, usize)>,
    secs: int,
    hl: Seq<Seq<char>>,
    c: int,
    i: int,
)
    requires
        header_block(header_used(existing_content, o, spans, locale, secs), hl, c),
        !o.no_obsolete,
        all_shaped(written_entries(extracted, existing_content, o), o),
        0 <= i < obsolete_entries(
            existing_pairs(existing_content),
            merged_entries(extracted, existing_pairs(existing_content)),
        ).len(),
    ensures
        ({
            let ex1 = existing_pairs(existing_content);
            let ex2 = parse_po_file_spec(
                file_text_spec(merge_spec(extracted, existing_content, locale, o, spans, secs)),
            );
            let o2 = obsolete_entries(ex2, merged_entries(extracted, ex2));
            &&& o2.contains(read_view(obsolete_entries(ex1, merged_entries(extracted, ex1))[i], o))
            &&& distinct_keys(o2)
        }),
{
    lemma_written_readable(extracted, existing_content, o);
    lemma_written_distinct(extracted, existing_content, o);
    let ex1 = existing_pairs(existing_content);
    let m1 = merged_entries(extracted, ex1);
    let o1 = obsolete_entries(ex1, m1);
    let es = written_entries(extracted, existing_content, o);
    law_catalog_reads_back(extracted, existing_content, locale, o, spans, secs, hl, c);
    let f1 = merge_spec(extracted, existing_content, locale, o, spans, secs);
    lemma_catalog_text_end(extracted, existing_content, locale, o, spans, secs, hl, c);
    lemma_file_reads_as_text(f1);
    let ex2 = parse_po_file_spec(file_text_spec(f1));
    let vs = read_views(es, o);
    assert(ex2 == keyed_entries(vs));
    lemma_existing_keyed(existing_content);
    let n1 = new_in_order(m1, o);
    let obs1 = obsolete_in_order(ex1, n1, o);
    let vals = n1.map_values(|p: (Seq<char>, PoEntryView)| p.1);
    assert(es == vals + obs1);
    let m2 = merged_entries(extracted, ex2);
    lemma_second_merge(extracted, ex1, o, obs1);
    assert(m2 == reflagged(m1, o));
    lemma_new_in_order(m1, o);
    lemma_obsolete_same_keys(ex1, n1, m1);
    lemma_sorted_entries(o1, o);
    let x = o1[i];
    assert(obs1.contains(x));
    let q = choose|q: int| 0 <= q < obs1.len() && obs1[q] == x;
    let t = vals.len() + q;
    assert(es[t] == x);
    let v = read_view(x, o);
    assert(vs[t] == v);
    assert(ex2[t] == (entry_key_spec(v.msgctxt, v.msgid), v));
    law_obsolete_entries_come_from_vanished(ex1, m1, i);
    let j = choose|j: int|
        0 <= j < ex1.len() && key_index(m1, ex1[j].0) < 0 && !all_empty(ex1[j].1.msgstr) && o1[i]
            == as_obsolete(#[trigger] ex1[j].1);
    assert(ex1[j].0 == entry_key_spec(ex1[j].1.msgctxt, ex1[j].1.msgid));
    crate::keyed::lemma_key_index_same_keys(reflagged(m1, o), m1, ex1[j].0);
    law_vanished_translations_survive(ex2, m2, t);
    assert(as_obsolete(ex2[t].1) == v);
    assert(well_keyed(ex2));
    crate::readback::lemma_views_distinct(es, o);
    assert forall|a: int, b: int| #![trigger ex2[a], ex2[b]] 0 <= a < b < ex2.len() implies ex2[a].0
        != ex2[b].0 by {
        assert(ex2[a].0 == entry_key_spec(vs[a].msgctxt, vs[a].msgid));
        assert(ex2[b].0 == entry_key_spec(vs[b].msgctxt, vs[b].msgid));
    }
    law_obsolete_entries_distinct(ex2, m2);
}

/// A key after every key of `t` goes at the end.
proof fn lemma_insert_pos_end<V>(t: Seq<(Seq<char>, V)>, x: Seq<char>)
    requires
        forall|i: int| 0 <= i < t.len() ==> !str_lt(x, (#[trigger] t[i]).0),
    ensures
        pair_insert_pos(t, x) == t.len(),
    decreases t.len(),
{
    if t.len() > 0 {
        assert(!str_lt(x, t[0].0));
        assert forall|i: int| 0 <= i < t.drop_first().len() implies !str_lt(
            x,
            (#[trigger] t.drop_first()[i]).0,
        ) by {
            assert(t.drop_first()[i] == t[i + 1]);
        }
        lemma_insert_pos_end(t.drop_first(), x);
    }
}

/// Sorting pairs already in order changes nothing.
pub proof fn lemma_sort_sorted<V>(s: Seq<(Seq<char>, V)>)
    requires
        sorted_by_key(s),
    ensures
        sort_pairs(s) == s,
    decreases s.len(),
{
    if s.len() > 0 {
        let d = s.drop_last();
        assert forall|i: int, j: int| 0 <= i < j < d.len() implies !str_lt(
            (#[trigger] d[j]).0,
            (#[trigger] d[i]).0,
        ) by {
            assert(d[i] == s[i] && d[j] == s[j]);
        }
        lemma_sort_sorted(d);
        assert forall|i: int| 0 <= i < d.len() implies !str_lt(s.last().0, (#[trigger] d[i]).0) by {
            assert(d[i] == s[i]);
            assert(s.last() == s[s.len() - 1]);
        }
        lemma_insert_pos_end(d, s.last().0);
        assert(d.insert(d.len() as int, s.last()) =~= s);
    }
}

/// Sorting keeps every pair.
proof fn lemma_sort_keeps(s: Seq<(Seq<char>, PoEntryView)>, j: int)
    requires
        0 <= j < s.len(),
    ensures
        sort_pairs(s).contains(s[j]),
{
    crate::keyed::law_sort_pairs(s);
    vstd::seq_lib::to_multiset_contains(s, s[j]);
    vstd::seq_lib::to_multiset_contains(sort_pairs(s), s[j]);
    assert(s.contains(s[j]));
}

/// Sorted or not, a catalog has the same keys.
proof fn lemma_sort_same_keys(m: Seq<(Seq<char>, PoEntryView)>, k: Seq<char>)
    ensures
        key_index(sort_pairs(m), k) >= 0 <==> key_index(m, k) >= 0,
{
    lemma_key_index(m, k);
    lemma_key_index(sort_pairs(m), k);
    crate::keyed::lemma_sort_pairs_len(m);
    if key_index(m, k) >= 0 {
        lemma_sort_keeps(m, key_index(m, k));
        let q = choose|q: int| 0 <= q < sort_pairs(m).len() && sort_pairs(m)[q] == m[key_index(m, k)];
        assert(sort_pairs(m)[q].0 == k);
    }
    if key_index(sort_pairs(m), k) >= 0 {
        crate::keyed::lemma_sort_pairs_members(m, key_index(sort_pairs(m), k));
        let j = choose|j: int| 0 <= j < m.len() && m[j] == sort_pairs(m)[key_index(sort_pairs(m), k)];
        assert(m[j].0 == k);
    }
}

/// Which old entries are obsolete depends only on the new catalog's keys.
proof fn lemma_obsolete_same_keys(
    ex: Seq<(Seq<char>, PoEntryView)>,
    a: Seq<(Seq<char>, PoEntryView)>,
    b: Seq<(Seq<char>, PoEntryView)>,
)
    requires
        forall|k: Seq<char>| #[trigger] key_index(a, k) >= 0 <==> key_index(b, k) >= 0,
    ensures
        obsolete_entries(ex, a) == obsolete_entries(ex, b),
    decreases ex.len(),
{
    if ex.len() > 0 {
        lemma_obsolete_same_keys(ex.drop_last(), a, b);
        assert(key_index(a, ex.last().0) >= 0 <==> key_index(b, ex.last().0) >= 0);
    }
}

/// Entries sorted by key: the same entries, keyed in ascending order, and
/// sorting them as read back changes nothing.
proof fn lemma_sorted_entries(es: Seq<PoEntryView>, o: PoOptionsView)
    ensures
        sort_entries_by_key(es).len() == es.len(),
        forall|q: int|
            0 <= q < es.len() ==> es.contains(#[trigger] sort_entries_by_key(es)[q]),
        forall|i: int| 0 <= i < es.len() ==> sort_entries_by_key(es).contains(#[trigger] es[i]),
        sort_entries_by_key(read_views(sort_entries_by_key(es), o)) == read_views(
            sort_entries_by_key(es),
            o,
        ),
{
    let kd = keyed_entries(es);
    let sp = sort_pairs(kd);
    let st = sort_entries_by_key(es);
    crate::keyed::law_sort_pairs(kd);
    crate::keyed::lemma_sort_pairs_len(kd);
    assert(st.len() == es.len());
    assert forall|q: int| 0 <= q < es.len() implies es.contains(#[trigger] st[q]) && sp[q] == (
        entry_key_spec(st[q].msgctxt, st[q].msgid),
        st[q],
    ) by {
        crate::keyed::lemma_sort_pairs_members(kd, q);
        let j = choose|j: int| 0 <= j < kd.len() && kd[j] == sp[q];
        assert(kd[j] == (entry_key_spec(es[j].msgctxt, es[j].msgid), es[j]));
    }
    assert forall|i: int| 0 <= i < es.len() implies st.contains(#[trigger] es[i]) by {
        lemma_sort_keeps(kd, i);
        let q = choose|q: int| 0 <= q < sp.len() && sp[q] == kd[i];
        assert(st[q] == es[i]);
    }
    let rv = read_views(st, o);
    let kr = keyed_entries(rv);
    assert forall|i: int, j: int| 0 <= i < j < kr.len() implies !str_lt(
        (#[trigger] kr[j]).0,
        (#[trigger] kr[i]).0,
    ) by {
        assert(kr[i].0 == sp[i].0);
        assert(kr[j].0 == sp[j].0);
    }
    lemma_sort_sorted(kr);
    assert(sort_entries_by_key(rv) =~= rv);
}

/// The entry with the flags it reads back with.
pub open spec fn reflag(v: PoEntryView, o: PoOptionsView) -> PoEntryView {
    PoEntryView { flags: flags_read(v, o), ..v }
}

/// The entries of a catalog with the flags they read back with.
pub open spec fn reflagged(m: Seq<(Seq<char>, PoEntryView)>, o: PoOptionsView) -> Seq<
    (Seq<char>, PoEntryView),
> {
    crate::keyed::map_pair_values(m, |v: PoEntryView| reflag(v, o))
}

/// Merging the same messages into a catalog that holds what the first merge
/// gave, with the flags as read back, goes through the same steps, with the
/// flags as read back.
proof fn lemma_merge_again_reflagged_prefix(
    extracted: Seq<EntryView>,
    ex1: Seq<(Seq<char>, PoEntryView)>,
    ex2: Seq<(Seq<char>, PoEntryView)>,
    o: PoOptionsView,
    n: int,
)
    requires
        holds_kept(ex2, reflagged(merged_entries(extracted, ex1), o)),
        0 <= n <= extracted.len(),
    ensures
        merged_entries(extracted.take(n), ex2) == reflagged(
            merged_entries(extracted.take(n), ex1),
            o,
        ),
    decreases n,
{
    if n == 0 {
        assert(reflagged(merged_entries(extracted.take(0), ex1), o) =~= Seq::<
            (Seq<char>, PoEntryView),
        >::empty());
    } else {
        let m1 = merged_entries(extracted, ex1);
        let cm = reflagged(m1, o);
        lemma_merge_again_reflagged_prefix(extracted, ex1, ex2, o, n - 1);
        let t = extracted.take(n);
        assert(t.drop_last() =~= extracted.take(n - 1));
        let e = t.last();
        assert(e == extracted[n - 1]);
        let acc = merged_entries(extracted.take(n - 1), ex1);
        let acc2 = merged_entries(extracted.take(n - 1), ex2);
        assert(acc2 == reflagged(acc, o));
        let key = entry_key_spec(e.msgctxt, e.msgid);
        lemma_key_index(acc, key);
        crate::keyed::lemma_key_index_same_keys(acc2, acc, key);
        let r1 = merge_step(acc, ex1, e);
        let r2 = merge_step(acc2, ex2, e);
        if key_index(acc, key) >= 0 {
            assert(r2 =~= reflagged(r1, o));
        } else {
            let xi = key_index(ex1, key);
            lemma_key_index(ex1, key);
            let c1 = r1[acc.len() as int].1;
            lemma_prefix_keeps(extracted, ex1, n);
            assert(merged_entries(t, ex1) == r1);
            let p = acc.len() as int;
            assert(m1[p].0 == key);
            assert(kept_fields(m1[p].1) == kept_fields(c1));
            assert(cm[p] == (m1[p].0, reflag(m1[p].1, o)));
            let yi = key_index(ex2, cm[p].0);
            lemma_key_index(ex2, key);
            let y = ex2[yi].1;
            assert(kept_fields(y) == kept_fields(reflag(m1[p].1, o)));
            assert(without_flag(c1.flags, "fuzzy"@) == c1.flags) by {
                if xi >= 0 {
                    lemma_without_flag_twice(ex1[xi].1.flags, "fuzzy"@);
                } else {
                    assert(without_flag(Seq::<Seq<char>>::empty(), "fuzzy"@) == Seq::<
                        Seq<char>,
                    >::empty());
                }
            }
            lemma_read_flags_unfuzzy(c1, o);
            lemma_kept_without_commute(m1[p].1.flags, o.no_flag, "fuzzy"@);
            assert(without_flag(flags_read(m1[p].1, o), "fuzzy"@) == flags_read(c1, o));
            let c2 = PoEntryView {
                references: e.references,
                flags: without_flag(y.flags, "fuzzy"@),
                comments: extracted_comments_spec(e),
                obsolete: false,
                ..y
            };
            assert(c2 == reflag(c1, o));
            assert(r2 == acc2.push((key, c2)));
            assert(r2 =~= reflagged(r1, o));
        }
    }
}

/// The second run's catalog holds what the first merge gave, with the flags
/// as read back, so the second merge gives the same, with the flags as read
/// back.
proof fn lemma_second_merge(
    extracted: Seq<EntryView>,
    ex1: Seq<(Seq<char>, PoEntryView)>,
    o: PoOptionsView,
    obs1: Seq<PoEntryView>,
)
    requires
        well_keyed(ex1),
        distinct_keys(
            new_in_order(merged_entries(extracted, ex1), o).map_values(
                |p: (Seq<char>, PoEntryView)| p.1,
            ) + obs1,
        ),
    ensures
        ({
            let m1 = merged_entries(extracted, ex1);
            let w1 = new_in_order(m1, o).map_values(|p: (Seq<char>, PoEntryView)| p.1) + obs1;
            merged_entries(extracted, keyed_entries(read_views(w1, o))) == reflagged(m1, o)
        }),
{
    let m1 = merged_entries(extracted, ex1);
    let cm = reflagged(m1, o);
    let n1 = new_in_order(m1, o);
    let vals = n1.map_values(|p: (Seq<char>, PoEntryView)| p.1);
    let w1 = vals + obs1;
    let v1 = read_views(w1, o);
    let ex2 = keyed_entries(v1);
    lemma_merged_keyed(extracted, ex1);
    lemma_new_in_order(m1, o);
    crate::readback::lemma_views_distinct(w1, o);
    assert forall|j: int| 0 <= j < cm.len() implies key_index(ex2, (#[trigger] cm[j]).0) >= 0
        && kept_fields(ex2[key_index(ex2, cm[j].0)].1) == kept_fields(cm[j].1) by {
        let k = m1[j].0;
        assert(cm[j] == (m1[j].0, reflag(m1[j].1, o)));
        assert(n1.contains(m1[j]));
        let q = choose|q: int| 0 <= q < n1.len() && n1[q] == m1[j];
        assert(w1[q] == m1[j].1);
        assert(v1[q] == read_view(m1[j].1, o));
        assert(m1[j].0 == entry_key_spec(m1[j].1.msgctxt, m1[j].1.msgid));
        assert(ex2[q].0 == k);
        lemma_key_index(ex2, k);
        let ki = key_index(ex2, k);
        if ki != q {
            assert(ex2[ki].0 == entry_key_spec(v1[ki].msgctxt, v1[ki].msgid));
            assert(ex2[q].0 == entry_key_spec(v1[q].msgctxt, v1[q].msgid));
        }
    }
    lemma_merge_again_reflagged_prefix(extracted, ex1, ex2, o, extracted.len() as int);
    assert(extracted.take(extracted.len() as int) =~= extracted);
}

/// An entry and the same entry with the flags it reads back with write the
/// same text.
proof fn lemma_reflagged_writes_same(es: Seq<(Seq<char>, PoEntryView)>, o: PoOptionsView)
    ensures
        entries_text(reflagged(es, o).map_values(|p: (Seq<char>, PoEntryView)| p.1), o)
            == entries_text(es.map_values(|p: (Seq<char>, PoEntryView)| p.1), o),
    decreases es.len(),
{
    if es.len() > 0 {
        let d = es.drop_last();
        lemma_reflagged_writes_same(d, o);
        let a = reflagged(es, o).map_values(|p: (Seq<char>, PoEntryView)| p.1);
        let b = es.map_values(|p: (Seq<char>, PoEntryView)| p.1);
        assert(a.drop_last() =~= reflagged(d, o).map_values(|p: (Seq<char>, PoEntryView)| p.1));
        assert(b.drop_last() =~= d.map_values(|p: (Seq<char>, PoEntryView)| p.1));
        let x = es.last().1;
        assert(a.last() == reflag(x, o));
        assert(b.last() == x);
        lemma_kept_flags_twice(x.flags, o.no_flag);
        assert(entry_lines(reflag(x, o), o) =~= entry_lines(x, o));
    }
}

/// What the second run writes after the header is the text the first run
/// wrote there.
proof fn lemma_second_written(
    extracted: Seq<EntryView>,
    ex1: Seq<(Seq<char>, PoEntryView)>,
    o: PoOptionsView,
)
    requires
        well_keyed(ex1),
        all_comments_trimmed(ex1),
        distinct_keys(
            new_in_order(merged_entries(extracted, ex1), o).map_values(
                |p: (Seq<char>, PoEntryView)| p.1,
            ) + obsolete_in_order(ex1, new_in_order(merged_entries(extracted, ex1), o), o),
        ),
    ensures
        ({
            let m1 = merged_entries(extracted, ex1);
            let n1 = new_in_order(m1, o);
            let w1 = n1.map_values(|p: (Seq<char>, PoEntryView)| p.1) + obsolete_in_order(
                ex1,
                n1,
                o,
            );
            let ex2 = keyed_entries(read_views(w1, o));
            let n2 = new_in_order(merged_entries(extracted, ex2), o);
            let w2 = n2.map_values(|p: (Seq<char>, PoEntryView)| p.1) + obsolete_in_order(
                ex2,
                n2,
                o,
            );
            entries_text(w2, o) == entries_text(w1, o)
        }),
{
    let m1 = merged_entries(extracted, ex1);
    let n1 = new_in_order(m1, o);
    let obs1 = obsolete_in_order(ex1, n1, o);
    let vals = n1.map_values(|p: (Seq<char>, PoEntryView)| p.1);
    let w1 = vals + obs1;
    let ex2 = keyed_entries(read_views(w1, o));
    let n2 = new_in_order(merged_entries(extracted, ex2), o);
    let w2 = n2.map_values(|p: (Seq<char>, PoEntryView)| p.1) + obsolete_in_order(ex2, n2, o);
    lemma_second_obsolete(extracted, ex1, o);
    let vobs = read_views(obs1, o);
    lemma_second_merge(extracted, ex1, o, obs1);
    let m2 = merged_entries(extracted, ex2);
    assert(m2 == reflagged(m1, o));
    assert(n2 == reflagged(n1, o)) by {
        if o.sort_output {
            crate::keyed::lemma_sort_pairs_map(m1, |v: PoEntryView| reflag(v, o));
        }
    }
    assert forall|k: Seq<char>| #[trigger] key_index(n2, k) >= 0 <==> key_index(n1, k) >= 0 by {
        crate::keyed::lemma_key_index_same_keys(n2, n1, k);
    }
    lemma_obsolete_same_keys(ex2, n2, n1);
    let vals2 = n2.map_values(|p: (Seq<char>, PoEntryView)| p.1);
    assert(w2 == vals2 + vobs);
    lemma_reflagged_writes_same(n1, o);
    crate::readback::lemma_entries_text_append(vals2, vobs, o);
    assert forall|i: int| 0 <= i < obs1.len() implies !refs_written(#[trigger] obs1[i], o)
        && comments_trimmed(obs1[i]) by {
        if !o.no_obsolete {
            let o1 = obsolete_entries(ex1, n1);
            lemma_sorted_entries(o1, o);
            assert(o1.contains(obs1[i]));
            let i1 = choose|i1: int| 0 <= i1 < o1.len() && o1[i1] == obs1[i];
            law_obsolete_entries_come_from_vanished(ex1, n1, i1);
            let j = choose|j: int|
                0 <= j < ex1.len() && key_index(n1, ex1[j].0) < 0 && !all_empty(ex1[j].1.msgstr)
                    && o1[i1] == as_obsolete(#[trigger] ex1[j].1);
            assert(comments_trimmed(ex1[j].1));
        }
    }
    lemma_views_write_same(obs1, o);
    crate::readback::lemma_entries_text_append(vals, obs1, o);
}

/// Every obsolete entry is marked obsolete.
proof fn lemma_obsolete_marked(existing: Seq<(Seq<char>, PoEntryView)>, new: Seq<(Seq<char>, PoEntryView)>)
    ensures
        forall|i: int|
            0 <= i < obsolete_entries(existing, new).len() ==> (#[trigger] obsolete_entries(
                existing,
                new,
            )[i]).obsolete,
    decreases existing.len(),
{
    if existing.len() > 0 {
        lemma_obsolete_marked(existing.drop_last(), new);
    }
}

/// The catalog a run writes: the header (kept from the existing file, or
/// fresh), a blank line and the entries, the trailing blank line cut. The
/// entries are first those of the new catalog, each active, every merged
/// message among them; then, unless obsolete entries are dropped, every old
/// entry with a translation whose message left the source, written as an
/// obsolete (`#~`) block.
pub proof fn law_catalog_text(
    extracted: Seq<EntryView>,
    existing_content: Option<Seq<char>>,
    locale: Seq<char>,
    o: PoOptionsView,
    spans: Seq<(usize, usize)>,
    secs: int,
)
    ensures
        ({
            let w = written_entries(extracted, existing_content, o);
            let ex = existing_pairs(existing_content);
            let m = merged_entries(extracted, ex);
            let ob = obsolete_entries(ex, m);
            &&& merge_spec(extracted, existing_content, locale, o, spans, secs) == trim_end_seq(
                header_used(existing_content, o, spans, locale, secs) + seq!['\n', '\n']
                    + entries_text(w, o),
            )
            &&& forall|j: int| 0 <= j < w.len() ==> (j < m.len() <==> !(#[trigger] w[j]).obsolete)
            &&& forall|j: int| 0 <= j < m.len() ==> w.take(m.len() as int).contains(#[trigger] m[j].1)
            &&& !o.no_obsolete ==> forall|i: int| 0 <= i < ob.len() ==> w.contains(#[trigger] ob[i])
        }),
{
    let ex = existing_pairs(existing_content);
    let m = merged_entries(extracted, ex);
    let n = new_in_order(m, o);
    let obs = obsolete_in_order(ex, n, o);
    let vals = n.map_values(|p: (Seq<char>, PoEntryView)| p.1);
    let w = written_entries(extracted, existing_content, o);
    lemma_merge_text_any(extracted, existing_content, locale, o, spans, secs);
    assert(w == vals + obs);
    lemma_new_in_order(m, o);
    crate::catalog::lemma_merged_facts(extracted, ex);
    lemma_obsolete_same_keys(ex, n, m);
    let ob = obsolete_entries(ex, m);
    lemma_obsolete_marked(ex, m);
    lemma_sorted_entries(ob, o);
    assert forall|j: int| 0 <= j < m.len() implies !(#[trigger] m[j]).1.obsolete by {
        crate::keyed::lemma_key_index(ex, m[j].0);
    }
    assert forall|j: int| 0 <= j < w.len() implies (j < m.len() <==> !(#[trigger] w[j]).obsolete) by {
        if j < vals.len() {
            assert(w[j] == n[j].1);
            assert(m.contains(n[j]));
        } else {
            assert(w[j] == obs[j - vals.len()]);
            if !o.no_obsolete {
                assert(ob.contains(obs[j - vals.len()]));
            }
        }
    }
    assert(w.take(m.len() as int) =~= vals);
    assert forall|j: int| 0 <= j < m.len() implies w.take(m.len() as int).contains(#[trigger] m[j].1) by {
        assert(n.contains(m[j]));
        let q = choose|q: int| 0 <= q < n.len() && n[q] == m[j];
        assert(vals[q] == m[j].1);
    }
    if !o.no_obsolete {
        assert forall|i: int| 0 <= i < ob.len() implies w.contains(#[trigger] ob[i]) by {
            assert(obs.contains(ob[i]));
            let q = choose|q: int| 0 <= q < obs.len() && obs[q] == ob[i];
            assert(w[vals.len() + q] == ob[i]);
        }
    }
}

/// Sorting pairs whose keys differ gives pairs whose keys differ.
proof fn lemma_sort_pairs_distinct(s: Seq<(Seq<char>, PoEntryView)>)
    requires
        crate::readback::distinct_pair_keys(s),
    ensures
        crate::readback::distinct_pair_keys(sort_pairs(s)),
    decreases s.len(),
{
    if s.len() > 0 {
        let d = s.drop_last();
        assert(crate::readback::distinct_pair_keys(d)) by {
            assert forall|a: int, b: int| #![trigger d[a], d[b]] 0 <= a < b < d.len() implies d[a].0
                != d[b].0 by {
                assert(d[a] == s[a] && d[b] == s[b]);
            }
        }
        lemma_sort_pairs_distinct(d);
        let t = sort_pairs(d);
        let x = s.last();
        crate::keyed::lemma_pair_insert_pos_bound(t, x.0);
        crate::keyed::lemma_sort_pairs_len(d);
        let k = pair_insert_pos(t, x.0);
        let u = t.insert(k, x);
        assert forall|q: int| 0 <= q < t.len() implies (#[trigger] t[q]).0 != x.0 by {
            crate::keyed::lemma_sort_pairs_members(d, q);
            let j = choose|j: int| 0 <= j < d.len() && d[j] == t[q];
            assert(s[j] == d[j]);
            assert(s[s.len() - 1] == x);
        }
        assert forall|a: int, b: int| #![trigger u[a], u[b]] 0 <= a < b < u.len() implies u[a].0
            != u[b].0 by {
            if a < k {
                assert(u[a] == t[a]);
                if b < k {
                    assert(u[b] == t[b]);
                } else if b == k {
                    assert(u[b] == x);
                } else {
                    assert(u[b] == t[b - 1]);
                }
            } else if a == k {
                assert(u[a] == x);
                assert(u[b] == t[b - 1]);
            } else {
                assert(u[a] == t[a - 1]);
                assert(u[b] == t[b - 1]);
            }
        }
    }
}

/// An obsolete entry's key is not a key of the new catalog.
proof fn lemma_obsolete_outside(existing: Seq<(Seq<char>, PoEntryView)>, new: Seq<(Seq<char>, PoEntryView)>)
    requires
        well_keyed(existing),
    ensures
        forall|r: int|
            0 <= r < obsolete_entries(existing, new).len() ==> key_index(
                new,
                entry_key_spec(
                    (#[trigger] obsolete_entries(existing, new)[r]).msgctxt,
                    obsolete_entries(existing, new)[r].msgid,
                ),
            ) < 0,
    decreases existing.len(),
{
    if existing.len() > 0 {
        let d = existing.drop_last();
        assert(well_keyed(d)) by {
            assert forall|j: int| 0 <= j < d.len() implies (#[trigger] d[j]).0 == entry_key_spec(
                d[j].1.msgctxt,
                d[j].1.msgid,
            ) by {
                assert(d[j] == existing[j]);
            }
        }
        lemma_obsolete_outside(d, new);
        assert(existing.last() == existing[existing.len() - 1]);
    }
}

/// Entries whose keys differ still differ in key once sorted by key.
proof fn lemma_sort_entries_distinct(es: Seq<PoEntryView>)
    requires
        distinct_keys(es),
    ensures
        distinct_keys(sort_entries_by_key(es)),
{
    let kd = keyed_entries(es);
    assert(crate::readback::distinct_pair_keys(kd)) by {
        assert forall|a: int, b: int| #![trigger kd[a], kd[b]] 0 <= a < b < kd.len() implies kd[a].0
            != kd[b].0 by {
            assert(kd[a].0 == entry_key_spec(es[a].msgctxt, es[a].msgid));
            assert(kd[b].0 == entry_key_spec(es[b].msgctxt, es[b].msgid));
        }
    }
    lemma_sort_pairs_distinct(kd);
    let sp = sort_pairs(kd);
    let st = sort_entries_by_key(es);
    crate::keyed::lemma_sort_pairs_len(kd);
    assert forall|q: int| 0 <= q < sp.len() implies (#[trigger] sp[q]).0 == entry_key_spec(
        sp[q].1.msgctxt,
        sp[q].1.msgid,
    ) by {
        crate::keyed::lemma_sort_pairs_members(kd, q);
        let j = choose|j: int| 0 <= j < kd.len() && kd[j] == sp[q];
    }
    assert forall|a: int, b: int| #![trigger st[a], st[b]] 0 <= a < b < st.len() implies entry_key_spec(
        st[a].msgctxt,
        st[a].msgid,
    ) != entry_key_spec(st[b].msgctxt, st[b].msgid) by {
        assert(st[a] == sp[a].1 && st[b] == sp[b].1);
        assert(sp[a].0 != sp[b].0);
    }
}

/// The entries a run writes stand under keys that differ: the new catalog
/// has each key once, and an obsolete entry's key is neither in it nor
/// repeated.
pub proof fn lemma_written_distinct(
    extracted: Seq<EntryView>,
    existing_content: Option<Seq<char>>,
    o: PoOptionsView,
)
    ensures
        distinct_keys(written_entries(extracted, existing_content, o)),
{
    let ex = existing_pairs(existing_content);
    lemma_existing_keyed(existing_content);
    let m = merged_entries(extracted, ex);
    lemma_merged_keyed(extracted, ex);
    crate::catalog::law_merge_keys(extracted, ex);
    assert(crate::readback::distinct_pair_keys(m));
    let n = new_in_order(m, o);
    lemma_new_in_order(m, o);
    if o.sort_output {
        lemma_sort_pairs_distinct(m);
    }
    assert(crate::readback::distinct_pair_keys(n));
    let obs = obsolete_in_order(ex, n, o);
    let vals = n.map_values(|p: (Seq<char>, PoEntryView)| p.1);
    let w = written_entries(extracted, existing_content, o);
    assert(w == vals + obs);
    lemma_obsolete_same_keys(ex, n, m);
    let ob = obsolete_entries(ex, m);
    law_obsolete_entries_distinct(ex, m);
    lemma_sorted_entries(ob, o);
    // keys of the new entries
    assert forall|q: int| 0 <= q < vals.len() implies entry_key_spec(
        (#[trigger] vals[q]).msgctxt,
        vals[q].msgid,
    ) == n[q].0 by {
        assert(m.contains(n[q]));
        let j = choose|j: int| 0 <= j < m.len() && m[j] == n[q];
        assert(m[j].0 == entry_key_spec(m[j].1.msgctxt, m[j].1.msgid));
    }
    // obsolete entries' keys are not keys of the new catalog
    lemma_obsolete_outside(ex, m);
    assert forall|r: int| 0 <= r < obs.len() implies key_index(
        m,
        entry_key_spec((#[trigger] obs[r]).msgctxt, obs[r].msgid),
    ) < 0 by {
        if !o.no_obsolete {
            assert(ob.contains(obs[r]));
        }
    }
    // obsolete entries among themselves
    assert(distinct_keys(obs)) by {
        if o.sort_output && !o.no_obsolete {
            lemma_sort_entries_distinct(ob);
        }
    }
    assert forall|a: int, b: int| #![trigger w[a], w[b]] 0 <= a < b < w.len() implies entry_key_spec(
        w[a].msgctxt,
        w[a].msgid,
    ) != entry_key_spec(w[b].msgctxt, w[b].msgid) by {
        if b < vals.len() {
            assert(w[a] == vals[a] && w[b] == vals[b]);
            assert(n[a].0 != n[b].0);
        } else if a < vals.len() {
            let r = b - vals.len();
            assert(w[b] == obs[r]);
            assert(w[a] == vals[a]);
            assert(m.contains(n[a]));
            let j = choose|j: int| 0 <= j < m.len() && m[j] == n[a];
            crate::keyed::lemma_key_index(m, n[a].0);
        } else {
            assert(w[a] == obs[a - vals.len()] && w[b] == obs[b - vals.len()]);
        }
    }
}

} // verus!
