//! How an entry and a fresh header are laid out in a catalog: which lines
//! an entry has, in which order, how its references are packed into `#:`
//! lines, and how an obsolete entry is written.
use vstd::prelude::*;
use crate::matching::byte_len;
use crate::po::{
    entry_lines, format_entry_spec, format_po_string_spec, kept_flags, msgstr_lines,
    obsolete_lines, reference_lines, wrap_from, LocationMode, PoEntryView, PoOptionsView,
};
use crate::readback::{all_ref_lines_ok, ref_words, refs_in_order, spaced, word_ok};
use crate::text::{join_seq, lines_of};

verus! {

/// The `#:` lines an entry is written with: none when locations are not
/// written, the entry has no references or is obsolete; else its reference
/// lines.
pub open spec fn written_ref_lines(e: PoEntryView, o: PoOptionsView) -> Seq<Seq<char>> {
    if o.location_mode == LocationMode::Never || e.references.len() == 0 || e.obsolete {
        seq![]
    } else {
        reference_lines(e.references, o)
    }
}

/// The `#,` line an entry is written with: none when flags are not written
/// or none is left once the `--no-flag` ones are dropped; else one line of
/// the flags left, in order, separated by `, `.
pub open spec fn written_flag_lines(e: PoEntryView, o: PoOptionsView) -> Seq<Seq<char>> {
    let k = kept_flags(e.flags, o.no_flag);
    if o.no_flags || k.len() == 0 {
        seq![]
    } else {
        seq![seq!['#', ',', ' '] + join_seq(k, seq![',', ' '])]
    }
}

/// An entry's lines come in this order: its comments, its `#:` lines, its
/// `#,` line, its context, its msgid, then its plural form and translations
/// (one `msgstr` line for a singular message).
pub proof fn law_entry_layout(e: PoEntryView, o: PoOptionsView)
    ensures
        entry_lines(e, o) == e.comments + written_ref_lines(e, o) + written_flag_lines(e, o) + (
        match e.msgctxt {
            Some(c) => seq![format_po_string_spec("msgctxt"@, c)],
            None => Seq::<Seq<char>>::empty(),
        }) + seq![format_po_string_spec("msgid"@, e.msgid)] + (match e.msgid_plural {
            Some(p) => seq![format_po_string_spec("msgid_plural"@, p)] + msgstr_lines(e.msgstr, 0),
            None => seq![
                format_po_string_spec(
                    "msgstr"@,
                    if e.msgstr.len() > 0 {
                        e.msgstr[0]
                    } else {
                        seq![]
                    },
                ),
            ],
        }),
{
}

/// With wrapping off (`--no-wrap`, or width 0), an entry whose references
/// are written has exactly one `#:` line: `#: ` and the references (as
/// written: reduced to files, sorted, as the options say) separated by
/// spaces.
pub proof fn law_one_reference_line_unwrapped(e: PoEntryView, o: PoOptionsView)
    requires
        o.no_wrap || o.width == Some(0usize),
        o.location_mode != LocationMode::Never,
        e.references.len() > 0,
        !e.obsolete,
    ensures
        written_ref_lines(e, o) == seq![
            seq!['#', ':', ' '] + join_seq(refs_in_order(e.references, o), seq![' ']),
        ],
{
}

/// The `#:` lines hold the references as written, each once, in order: the
/// words of the lines, read one line after another, are the references
/// (reduced to their files, or sorted, as the options say); each line starts
/// with `#:`. This holds for references without whitespace (and, when only
/// files are written, whose file parts have none).
pub proof fn law_reference_lines_hold_references(refs: Seq<Seq<char>>, o: PoOptionsView)
    requires
        refs.len() > 0,
        forall|k: int| 0 <= k < refs.len() ==> word_ok(#[trigger] refs[k]),
        o.location_mode == LocationMode::File ==> forall|k: int|
            0 <= k < refs.len() ==> word_ok(crate::po::file_part(#[trigger] refs[k])),
        o.location_mode != LocationMode::Never,
    ensures
        ref_words(reference_lines(refs, o)) == refs_in_order(refs, o),
        all_ref_lines_ok(reference_lines(refs, o)),
        reference_lines(refs, o).len() > 0,
{
    crate::readback::lemma_words_safe(refs);
    if o.location_mode == LocationMode::File {
        assert forall|k: int| 0 <= k < refs.len() implies crate::readback::ref_safe(
            crate::po::file_part(#[trigger] refs[k]),
        ) by {
            crate::readback::lemma_word_safe(crate::po::file_part(refs[k]));
        }
    }
    crate::readback::lemma_reference_lines(refs, o);
}

/// An obsolete entry is written as the same entry, active and without
/// references, with every line behind `#~ `: no `#:` line, nothing else
/// changed.
pub proof fn law_obsolete_block(e: PoEntryView, o: PoOptionsView)
    requires
        e.obsolete,
    ensures
        ({
            let a = PoEntryView { obsolete: false, references: seq![], ..e };
            &&& format_entry_spec(e, o) == join_seq(obsolete_lines(entry_lines(a, o)), seq!['\n'])
            &&& format_entry_spec(a, o) == join_seq(entry_lines(a, o), seq!['\n'])
            &&& written_ref_lines(e, o).len() == 0
        }),
{
    let a = PoEntryView { obsolete: false, references: seq![], ..e };
    assert(entry_lines(a, o) =~= entry_lines(e, o));
}

/// A fresh header's lines: the `Language` line names the locale and the
/// `Plural-Forms` line gives the locale's plural forms.
pub proof fn law_fresh_header_lines(locale: Seq<char>, secs: int)
    requires
        crate::quoting::no_newline(locale),
    ensures
        lines_of(crate::po::header_spec(locale, secs)) == crate::catalog_file::header_lines(
            locale,
            secs,
        ),
        lines_of(crate::po::header_spec(locale, secs))[14] == "\"Language: "@ + locale
            + crate::po::HEADER_END@,
        lines_of(crate::po::header_spec(locale, secs))[18] == "\"Plural-Forms: "@
            + crate::plural_forms::plural_forms_spec(locale) + crate::po::HEADER_END@,
{
    crate::header_block::lemma_fresh_block(locale, secs);
    crate::header_block::lemma_block_text(
        crate::po::header_spec(locale, secs),
        crate::catalog_file::header_lines(locale, secs),
        6,
    );
    let hl = crate::catalog_file::header_lines(locale, secs);
    assert(hl[14] == crate::catalog_file::header_line(14, locale, secs));
    assert(hl[18] == crate::catalog_file::header_line(18, locale, secs));
}

/// Bytes of text put together are the bytes of each part.
proof fn lemma_byte_len_concat(a: Seq<char>, b: Seq<char>)
    ensures
        byte_len(a + b) == byte_len(a) + byte_len(b),
    decreases b.len(),
{
    if b.len() > 0 {
        lemma_byte_len_concat(a, b.drop_last());
        assert((a + b).drop_last() =~= a + b.drop_last());
        assert((a + b).last() == b.last());
    } else {
        assert(a + b =~= a);
    }
}

/// The references of each `#:` line that `wrap_from` writes, from reference
/// `i` on, the current line holding `b`.
pub open spec fn wrap_runs(refs: Seq<Seq<char>>, i: int, b: Seq<Seq<char>>, w: int) -> Seq<
    Seq<Seq<char>>,
>
    decreases refs.len() - i,
{
    let line = seq!['#', ':'] + spaced(b);
    if i < 0 || i >= refs.len() {
        seq![b]
    } else if byte_len(line) > 2 && byte_len(line) + 1 + byte_len(refs[i]) >= w {
        seq![b] + wrap_runs(refs, i + 1, seq![refs[i]], w)
    } else {
        wrap_runs(refs, i + 1, b.push(refs[i]), w)
    }
}

/// The facts about the lines `ls` and runs `rs` of a wrapping.
pub open spec fn packed(ls: Seq<Seq<char>>, rs: Seq<Seq<Seq<char>>>, w: int) -> bool {
    &&& ls.len() == rs.len()
    &&& rs.len() > 0
    &&& forall|j: int| 0 <= j < ls.len() ==> #[trigger] ls[j] == seq!['#', ':'] + spaced(rs[j])
    &&& forall|j: int| 0 <= j < ls.len() && (#[trigger] rs[j]).len() >= 2 ==> byte_len(ls[j]) < w
    &&& forall|j: int|
        0 <= j < ls.len() - 1 ==> (#[trigger] rs[j + 1]).len() > 0 && byte_len(ls[j]) + 1
            + byte_len(rs[j + 1][0]) >= w
}

proof fn lemma_wrap_runs(refs: Seq<Seq<char>>, i: int, b: Seq<Seq<char>>, w: int)
    requires
        0 <= i,
        b.len() >= 2 ==> byte_len(seq!['#', ':'] + spaced(b)) < w,
    ensures
        packed(wrap_from(refs, i, seq!['#', ':'] + spaced(b), w), wrap_runs(refs, i, b, w), w),
        b.len() > 0 ==> wrap_runs(refs, i, b, w)[0].len() > 0 && wrap_runs(refs, i, b, w)[0][0]
            == b[0],
        b.len() == 0 && i < refs.len() ==> wrap_runs(refs, i, b, w)[0].len() > 0
            && wrap_runs(refs, i, b, w)[0][0] == refs[i],
    decreases refs.len() - i,
{
    let line = seq!['#', ':'] + spaced(b);
    let ls = wrap_from(refs, i, line, w);
    let rs = wrap_runs(refs, i, b, w);
    if i >= refs.len() {
        assert(ls == seq![line]);
        assert(rs == seq![b]);
        return;
    }
    let r = refs[i];
    if b.len() == 0 {
        assert(spaced(b) == Seq::<char>::empty());
        let h = seq!['#', ':'];
        assert(line =~= h);
        assert(h.drop_last() =~= seq!['#']);
        assert(seq!['#'].drop_last() =~= Seq::<char>::empty());
        assert(('#' as u32) == 35 && (':' as u32) == 58);
        assert(byte_len(Seq::<char>::empty()) == 0);
        assert(byte_len(seq!['#']) == 1);
        assert(byte_len(h) == 2);
    }
    if byte_len(line) > 2 && byte_len(line) + 1 + byte_len(r) >= w {
        let nb = seq![r];
        assert(spaced(nb) == spaced(Seq::<Seq<char>>::empty()) + seq![' '] + r) by {
            assert(nb.drop_last() =~= Seq::<Seq<char>>::empty());
        }
        assert(spaced(Seq::<Seq<char>>::empty()) == Seq::<char>::empty());
        assert(seq!['#', ':', ' '] + r =~= seq!['#', ':'] + spaced(nb));
        lemma_wrap_runs(refs, i + 1, nb, w);
        let ls2 = wrap_from(refs, i + 1, seq!['#', ':'] + spaced(nb), w);
        let rs2 = wrap_runs(refs, i + 1, nb, w);
        assert(ls == seq![line] + ls2);
        assert(rs == seq![b] + rs2);
        assert(nb[0] == r);
        assert forall|j: int| 0 <= j < ls.len() implies #[trigger] ls[j] == seq!['#', ':'] + spaced(
            rs[j],
        ) by {
            if j > 0 {
                assert(ls[j] == ls2[j - 1]);
                assert(rs[j] == rs2[j - 1]);
            }
        }
        assert forall|j: int| 0 <= j < ls.len() && (#[trigger] rs[j]).len() >= 2 implies byte_len(
            ls[j],
        ) < w by {
            if j > 0 {
                assert(ls[j] == ls2[j - 1]);
                assert(rs[j] == rs2[j - 1]);
            }
        }
        assert forall|j: int| 0 <= j < ls.len() - 1 implies (#[trigger] rs[j + 1]).len() > 0
            && byte_len(ls[j]) + 1 + byte_len(rs[j + 1][0]) >= w by {
            if j > 0 {
                let k = j - 1;
                assert(ls[j] == ls2[k]);
                assert(rs[j + 1] == rs2[k + 1]);
                assert(0 <= k < ls2.len() - 1);
            } else {
                assert(rs[1] == rs2[0]);
                assert(ls[0] == line);
            }
        }
    } else {
        let nb = b.push(r);
        assert(spaced(nb) == spaced(b) + seq![' '] + r) by {
            assert(nb.drop_last() =~= b);
        }
        assert(line + seq![' '] + r =~= seq!['#', ':'] + spaced(nb));
        if b.len() > 0 {
            assert(spaced(b).len() > 0) by {
                assert(spaced(b) == spaced(b.drop_last()) + seq![' '] + b.last());
            }
            assert(line.len() >= 3);
            crate::template::lemma_blank_len(line);
            assert(byte_len(line) > 2);
            lemma_byte_len_concat(line, seq![' ']);
            lemma_byte_len_concat(line + seq![' '], r);
            let sp = seq![' '];
            assert(sp.drop_last() =~= Seq::<char>::empty());
            assert(sp.last() == ' ');
            assert((' ' as u32) == 32);
            assert(crate::matching::utf8_width(' ') == 1);
            assert(byte_len(Seq::<char>::empty()) == 0);
            assert(byte_len(sp) == byte_len(sp.drop_last()) + crate::matching::utf8_width(sp.last()));
            assert(byte_len(sp) == 1);
            assert(nb[0] == b[0]);
        } else {
            assert(nb[0] == r);
        }
        lemma_wrap_runs(refs, i + 1, nb, w);
    }
}

/// How references are packed into `#:` lines when wrapping: each line is
/// `#:` and a run of the references, one space before each; a line with
/// two references or more is shorter than the width (in bytes); and a line
/// is ended only when the next reference would bring it to the width or
/// beyond.
pub proof fn law_reference_packing(refs: Seq<Seq<char>>, w: int)
    ensures
        packed(
            wrap_from(refs, 0, seq!['#', ':'], w),
            wrap_runs(refs, 0, Seq::<Seq<char>>::empty(), w),
            w,
        ),
{
    let e = Seq::<Seq<char>>::empty();
    assert(spaced(e) == Seq::<char>::empty());
    assert(seq!['#', ':'] + spaced(e) =~= seq!['#', ':']);
    lemma_wrap_runs(refs, 0, e, w);
}

/// A line of `#:` lines so far, and a reference put after it with a space:
/// its bytes add up.
proof fn lemma_append_bytes(l: Seq<char>, r: Seq<char>)
    ensures
        byte_len(l + seq![' '] + r) == byte_len(l) + 1 + byte_len(r),
        byte_len(seq!['#', ':', ' '] + r) == 3 + byte_len(r),
        byte_len(seq!['#', ':']) == 2,
{
    lemma_byte_len_concat(l, seq![' ']);
    lemma_byte_len_concat(l + seq![' '], r);
    let sp = seq![' '];
    assert(sp.drop_last() =~= Seq::<char>::empty());
    assert((' ' as u32) == 32);
    assert(byte_len(Seq::<char>::empty()) == 0);
    assert(byte_len(sp) == byte_len(sp.drop_last()) + crate::matching::utf8_width(sp.last()));
    let h = seq!['#', ':', ' '];
    assert(h.drop_last() =~= seq!['#', ':']);
    assert(seq!['#', ':'].drop_last() =~= seq!['#']);
    assert(seq!['#'].drop_last() =~= Seq::<char>::empty());
    assert(('#' as u32) == 35 && (':' as u32) == 58);
    assert(byte_len(seq!['#']) == 1);
    assert(byte_len(seq!['#', ':']) == 2);
    assert(byte_len(h) == 3);
    lemma_byte_len_concat(h, r);
}

/// Wrapping at a width no smaller gives no more lines, `d` being how many
/// more lines the narrower wrapping has written so far.
proof fn lemma_wider_fewer(
    refs: Seq<Seq<char>>,
    i: int,
    l1: Seq<char>,
    l2: Seq<char>,
    w1: int,
    w2: int,
    d: int,
)
    requires
        0 <= i,
        w2 <= w1,
        byte_len(l1) >= 2,
        byte_len(l2) >= 2,
        d >= 0,
        d == 0 ==> byte_len(l1) <= byte_len(l2),
    ensures
        wrap_from(refs, i, l1, w1).len() <= wrap_from(refs, i, l2, w2).len() + d,
    decreases refs.len() - i,
{
    if i >= refs.len() {
        return;
    }
    let r = refs[i];
    let b1 = byte_len(l1) > 2 && byte_len(l1) + 1 + byte_len(r) >= w1;
    let b2 = byte_len(l2) > 2 && byte_len(l2) + 1 + byte_len(r) >= w2;
    let f = seq!['#', ':', ' '] + r;
    let a1 = l1 + seq![' '] + r;
    let a2 = l2 + seq![' '] + r;
    lemma_append_bytes(l1, r);
    lemma_append_bytes(l2, r);
    if b1 && b2 {
        lemma_wider_fewer(refs, i + 1, f, f, w1, w2, d);
    } else if b1 {
        assert(d > 0);
        lemma_wider_fewer(refs, i + 1, f, a2, w1, w2, d - 1);
    } else if b2 {
        lemma_wider_fewer(refs, i + 1, a1, f, w1, w2, d + 1);
    } else {
        lemma_wider_fewer(refs, i + 1, a1, a2, w1, w2, d);
    }
}

/// Wrapping references at a wider width never writes more `#:` lines.
pub proof fn law_wider_width_fewer_lines(refs: Seq<Seq<char>>, w1: int, w2: int)
    requires
        w2 <= w1,
    ensures
        wrap_from(refs, 0, seq!['#', ':'], w1).len() <= wrap_from(refs, 0, seq!['#', ':'], w2).len(),
{
    lemma_append_bytes(seq!['#', ':'], Seq::<char>::empty());
    assert(byte_len(seq!['#', ':']) == 2);
    lemma_wider_fewer(refs, 0, seq!['#', ':'], seq!['#', ':'], w1, w2, 0);
}

/// The width an entry's `#:` lines are wrapped at: the one given, else 80.
pub open spec fn wrap_width(o: PoOptionsView) -> int {
    match o.width {
        Some(w) => w as int,
        None => 80,
    }
}

/// Written with wrapping on, an entry has no more `#:` lines at a wider
/// width than at a narrower one, the other options the same: e.g. twelve
/// references take three lines at width 40 and two at the default 80.
pub proof fn law_wider_width_fewer_entry_reference_lines(
    e: PoEntryView,
    o1: PoOptionsView,
    o2: PoOptionsView,
)
    requires
        o2 == (PoOptionsView { width: o2.width, ..o1 }),
        !o1.no_wrap,
        0 < wrap_width(o1) <= wrap_width(o2),
    ensures
        written_ref_lines(e, o2).len() <= written_ref_lines(e, o1).len(),
{
    if !(o1.location_mode == LocationMode::Never || e.references.len() == 0 || e.obsolete) {
        let r1 = if o1.location_mode == LocationMode::File {
            crate::po::dedup_seq(crate::po::file_parts(e.references))
        } else {
            e.references
        };
        let r2 = if o1.sort_output {
            crate::po::sort_strs(r1)
        } else {
            r1
        };
        assert(reference_lines(e.references, o1) == wrap_from(r2, 0, seq!['#', ':'], wrap_width(o1)));
        assert(reference_lines(e.references, o2) == wrap_from(r2, 0, seq!['#', ':'], wrap_width(o2)));
        law_wider_width_fewer_lines(r2, wrap_width(o2), wrap_width(o1));
    }
}

proof fn lemma_msgstr_lines_keys(ms: Seq<Seq<char>>, j: int)
    requires
        0 <= j <= ms.len(),
    ensures
        msgstr_lines(ms, j).len() == ms.len() - j,
        forall|k: int|
            0 <= k < ms.len() - j ==> #[trigger] msgstr_lines(ms, j)[k] == format_po_string_spec(
                "msgstr["@ + crate::text::decimal((j + k) as nat) + "]"@,
                ms[j + k],
            ),
    decreases ms.len() - j,
{
    if j < ms.len() {
        lemma_msgstr_lines_keys(ms, j + 1);
        let rest = msgstr_lines(ms, j + 1);
        assert forall|k: int| 0 <= k < ms.len() - j implies #[trigger] msgstr_lines(ms, j)[k]
            == format_po_string_spec(
            "msgstr["@ + crate::text::decimal((j + k) as nat) + "]"@,
            ms[j + k],
        ) by {
            if k > 0 {
                assert(msgstr_lines(ms, j)[k] == rest[k - 1]);
                assert(j + 1 + (k - 1) == j + k);
            }
        }
    }
}

/// A plural entry ends with one line per translation, in order, the `i`-th
/// keyed `msgstr[i]`: the index written is the form's position, so no two
/// forms share a key.
pub proof fn law_plural_translations_numbered(e: PoEntryView, o: PoOptionsView)
    requires
        e.msgid_plural is Some,
    ensures
        ({
            let ls = entry_lines(e, o);
            let n = e.msgstr.len();
            &&& ls.len() >= n + 2
            &&& forall|i: int|
                0 <= i < n ==> #[trigger] ls[ls.len() - n + i] == format_po_string_spec(
                    "msgstr["@ + crate::text::decimal(i as nat) + "]"@,
                    e.msgstr[i],
                )
        }),
{
    let ms = e.msgstr;
    lemma_msgstr_lines_keys(ms, 0);
    let ls = entry_lines(e, o);
    let m = msgstr_lines(ms, 0);
    let pre = ls.take(ls.len() - m.len());
    assert(ls =~= pre + m) by {
        assert(ls.len() >= m.len());
    }
    assert forall|i: int| 0 <= i < ms.len() implies #[trigger] ls[ls.len() - ms.len() + i]
        == format_po_string_spec("msgstr["@ + crate::text::decimal(i as nat) + "]"@, ms[i]) by {
        assert(ls[ls.len() - ms.len() + i] == m[i]);
        assert(0 + i == i);
    }
}

} // verus!
