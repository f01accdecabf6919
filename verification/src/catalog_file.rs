//! Why a catalog file a run writes reads back as the entries written after
//! its header: the fresh header's lines, the header kept from an existing
//! file, and the text of the whole file.
use vstd::prelude::*;
use crate::catalog::{
    entries_text, kept_header, merge_spec, merged_entries, obsolete_entries, obsolete_marks,
    parse_po_file_spec, sort_entries_by_key, unwrap_line, unwrapped_lines,
};
use crate::extractor::EntryView;
use crate::keyed::sort_pairs;
use crate::plural_forms::{plural_forms_spec, table_lookup, PLURAL_FORMS};
use crate::po::{
    header_spec, parse_po_string_spec, PoEntryView, PoOptionsView, HEADER_END, HEADER_LANGUAGE,
    HEADER_PLURAL_FORMS, HEADER_START,
};
use crate::quoting::no_newline;
use crate::readback::{
    all_readable, all_shaped, distinct_keys, distinct_pair_keys, keyed_entries, lemma_parse_keyed, phys_ok,
    read_views, well_keyed,
};
use crate::text::{has_prefix, is_ws, join_seq, lines_of, trim_end_seq, trim_seq, trim_start_seq};
use crate::header_block::header_block;

verus! {

/// The newline character as a text.
pub open spec fn nl() -> Seq<char> {
    seq!['\n']
}

/// The fixed lines of a fresh header, and the openings of the three lines
/// that carry the creation date, the language and the plural forms.
pub open spec fn header_fixed(i: int) -> Seq<char> {
    if i == 0 {
        "# SOME DESCRIPTIVE TITLE."@
    } else if i == 1 {
        "# Copyright (C) YEAR THE PACKAGE'S COPYRIGHT HOLDER"@
    } else if i == 2 {
        "# This file is distributed under the same license as the PACKAGE package."@
    } else if i == 3 {
        "# FIRST AUTHOR <EMAIL@ADDRESS>, YEAR."@
    } else if i == 4 {
        "#"@
    } else if i == 5 {
        "#, fuzzy"@
    } else if i == 6 {
        r#"msgid """#@
    } else if i == 7 {
        r#"msgstr """#@
    } else if i == 8 {
        r#""Project-Id-Version: PACKAGE VERSION\n""#@
    } else if i == 9 {
        r#""Report-Msgid-Bugs-To: \n""#@
    } else if i == 10 {
        r#""POT-Creation-Date: "#@
    } else if i == 11 {
        r#""PO-Revision-Date: YEAR-MO-DA HO:MI+ZONE\n""#@
    } else if i == 12 {
        r#""Last-Translator: FULL NAME <EMAIL@ADDRESS>\n""#@
    } else if i == 13 {
        r#""Language-Team: LANGUAGE <LL@li.org>\n""#@
    } else if i == 14 {
        r#""Language: "#@
    } else if i == 15 {
        r#""MIME-Version: 1.0\n""#@
    } else if i == 16 {
        r#""Content-Type: text/plain; charset=UTF-8\n""#@
    } else if i == 17 {
        r#""Content-Transfer-Encoding: 8bit\n""#@
    } else {
        r#""Plural-Forms: "#@
    }
}

/// The start of a fresh header, line by line.
pub proof fn lemma_header_start()
    ensures
        HEADER_START@ == header_fixed(0) + nl() + header_fixed(1) + nl() + header_fixed(2) + nl()
            + header_fixed(3) + nl() + header_fixed(4) + nl() + header_fixed(5) + nl()
            + header_fixed(6) + nl() + header_fixed(7) + nl() + header_fixed(8) + nl()
            + header_fixed(9) + nl() + header_fixed(10),
{
    reveal_strlit(r#"# SOME DESCRIPTIVE TITLE.
# Copyright (C) YEAR THE PACKAGE'S COPYRIGHT HOLDER
# This file is distributed under the same license as the PACKAGE package.
# FIRST AUTHOR <EMAIL@ADDRESS>, YEAR.
#
#, fuzzy
msgid ""
msgstr ""
"Project-Id-Version: PACKAGE VERSION\n"
"Report-Msgid-Bugs-To: \n"
"POT-Creation-Date: "#);
    reveal_strlit("# SOME DESCRIPTIVE TITLE.");
    reveal_strlit("# Copyright (C) YEAR THE PACKAGE'S COPYRIGHT HOLDER");
    reveal_strlit("# This file is distributed under the same license as the PACKAGE package.");
    reveal_strlit("# FIRST AUTHOR <EMAIL@ADDRESS>, YEAR.");
    reveal_strlit("#");
    reveal_strlit("#, fuzzy");
    reveal_strlit(r#"msgid """#);
    reveal_strlit(r#"msgstr """#);
    reveal_strlit(r#""Project-Id-Version: PACKAGE VERSION\n""#);
    reveal_strlit(r#""Report-Msgid-Bugs-To: \n""#);
    reveal_strlit(r#""POT-Creation-Date: "#);
    assert(HEADER_START@ =~= header_fixed(0) + nl() + header_fixed(1) + nl() + header_fixed(2)
        + nl() + header_fixed(3) + nl() + header_fixed(4) + nl() + header_fixed(5) + nl()
        + header_fixed(6) + nl() + header_fixed(7) + nl() + header_fixed(8) + nl()
        + header_fixed(9) + nl() + header_fixed(10));
}

/// The middle parts and the end of a fresh header, line by line.
pub proof fn lemma_header_middle()
    ensures
        HEADER_LANGUAGE@ == HEADER_END@ + nl() + header_fixed(11) + nl() + header_fixed(12) + nl()
            + header_fixed(13) + nl() + header_fixed(14),
        HEADER_PLURAL_FORMS@ == HEADER_END@ + nl() + header_fixed(15) + nl() + header_fixed(16)
            + nl() + header_fixed(17) + nl() + header_fixed(18),
        HEADER_END@ == seq!['\\', 'n', '"'],
{
    reveal_strlit(r#"\n"
"PO-Revision-Date: YEAR-MO-DA HO:MI+ZONE\n"
"Last-Translator: FULL NAME <EMAIL@ADDRESS>\n"
"Language-Team: LANGUAGE <LL@li.org>\n"
"Language: "#);
    reveal_strlit(r#"\n"
"MIME-Version: 1.0\n"
"Content-Type: text/plain; charset=UTF-8\n"
"Content-Transfer-Encoding: 8bit\n"
"Plural-Forms: "#);
    reveal_strlit(r#"\n""#);
    reveal_strlit(r#""PO-Revision-Date: YEAR-MO-DA HO:MI+ZONE\n""#);
    reveal_strlit(r#""Last-Translator: FULL NAME <EMAIL@ADDRESS>\n""#);
    reveal_strlit(r#""Language-Team: LANGUAGE <LL@li.org>\n""#);
    reveal_strlit(r#""Language: "#);
    reveal_strlit(r#""MIME-Version: 1.0\n""#);
    reveal_strlit(r#""Content-Type: text/plain; charset=UTF-8\n""#);
    reveal_strlit(r#""Content-Transfer-Encoding: 8bit\n""#);
    reveal_strlit(r#""Plural-Forms: "#);
    assert(HEADER_END@ =~= seq!['\\', 'n', '"']);
    assert(HEADER_LANGUAGE@ =~= HEADER_END@ + nl() + header_fixed(11) + nl() + header_fixed(12)
        + nl() + header_fixed(13) + nl() + header_fixed(14));
    assert(HEADER_PLURAL_FORMS@ =~= HEADER_END@ + nl() + header_fixed(15) + nl() + header_fixed(16)
        + nl() + header_fixed(17) + nl() + header_fixed(18));
}

/// The lines of a fresh header for `locale`, created at Unix time `secs`.
pub open spec fn header_line(i: int, locale: Seq<char>, secs: int) -> Seq<char> {
    if i == 10 {
        header_fixed(10) + crate::po::creation_date_text(secs) + HEADER_END@
    } else if i == 14 {
        header_fixed(14) + locale + HEADER_END@
    } else if i == 18 {
        header_fixed(18) + crate::plural_forms::plural_forms_spec(locale) + HEADER_END@
    } else {
        header_fixed(i)
    }
}

/// All nineteen lines of a fresh header.
pub open spec fn header_lines(locale: Seq<char>, secs: int) -> Seq<Seq<char>> {
    Seq::new(19, |i: int| header_line(i, locale, secs))
}

/// Lines, each followed by a newline.
pub open spec fn lines_text(pls: Seq<Seq<char>>) -> Seq<char>
    decreases pls.len(),
{
    if pls.len() == 0 {
        seq![]
    } else {
        pls[0] + nl() + lines_text(pls.drop_first())
    }
}

proof fn lemma_lines_text_step(pls: Seq<Seq<char>>, k: int)
    requires
        0 <= k < pls.len(),
    ensures
        lines_text(pls.skip(k)) == pls[k] + nl() + lines_text(pls.skip(k + 1)),
{
    assert(pls.skip(k).drop_first() =~= pls.skip(k + 1));
    assert(pls.skip(k)[0] == pls[k]);
}

#[verifier::spinoff_prover]
proof fn lemma_header_tail(locale: Seq<char>, secs: int)
    ensures
        lines_text(header_lines(locale, secs).skip(15)) == header_fixed(15) + nl() + header_fixed(16)
            + nl() + header_fixed(17) + nl() + header_fixed(18)
            + crate::plural_forms::plural_forms_spec(locale) + HEADER_END@ + nl(),
{
    let hl = header_lines(locale, secs);
    lemma_lines_text_step(hl, 15);
    lemma_lines_text_step(hl, 16);
    lemma_lines_text_step(hl, 17);
    lemma_lines_text_step(hl, 18);
    assert(hl.skip(19) =~= Seq::<Seq<char>>::empty());
    assert(lines_text(hl.skip(19)) == Seq::<char>::empty());
    assert(lines_text(hl.skip(15)) =~= header_fixed(15) + nl() + header_fixed(16) + nl()
        + header_fixed(17) + nl() + header_fixed(18) + crate::plural_forms::plural_forms_spec(locale)
        + HEADER_END@ + nl());
}

#[verifier::spinoff_prover]
proof fn lemma_header_language(locale: Seq<char>, secs: int)
    ensures
        lines_text(header_lines(locale, secs).skip(11)) == header_fixed(11) + nl() + header_fixed(12)
            + nl() + header_fixed(13) + nl() + header_fixed(14) + locale + HEADER_END@ + nl()
            + lines_text(header_lines(locale, secs).skip(15)),
{
    let hl = header_lines(locale, secs);
    lemma_lines_text_step(hl, 11);
    lemma_lines_text_step(hl, 12);
    lemma_lines_text_step(hl, 13);
    lemma_lines_text_step(hl, 14);
    assert(lines_text(hl.skip(11)) =~= header_fixed(11) + nl() + header_fixed(12) + nl()
        + header_fixed(13) + nl() + header_fixed(14) + locale + HEADER_END@ + nl() + lines_text(
        hl.skip(15),
    ));
}

#[verifier::spinoff_prover]
proof fn lemma_header_date(locale: Seq<char>, secs: int)
    ensures
        lines_text(header_lines(locale, secs).skip(5)) == header_fixed(5) + nl() + header_fixed(6)
            + nl() + header_fixed(7) + nl() + header_fixed(8) + nl() + header_fixed(9) + nl()
            + header_fixed(10) + crate::po::creation_date_text(secs) + HEADER_END@ + nl()
            + lines_text(header_lines(locale, secs).skip(11)),
{
    let hl = header_lines(locale, secs);
    lemma_lines_text_step(hl, 5);
    lemma_lines_text_step(hl, 6);
    lemma_lines_text_step(hl, 7);
    lemma_lines_text_step(hl, 8);
    lemma_lines_text_step(hl, 9);
    lemma_lines_text_step(hl, 10);
    assert(lines_text(hl.skip(5)) =~= header_fixed(5) + nl() + header_fixed(6) + nl()
        + header_fixed(7) + nl() + header_fixed(8) + nl() + header_fixed(9) + nl()
        + header_fixed(10) + crate::po::creation_date_text(secs) + HEADER_END@ + nl() + lines_text(
        hl.skip(11),
    ));
}

#[verifier::spinoff_prover]
proof fn lemma_header_head(locale: Seq<char>, secs: int)
    ensures
        lines_text(header_lines(locale, secs)) == header_fixed(0) + nl() + header_fixed(1) + nl()
            + header_fixed(2) + nl() + header_fixed(3) + nl() + header_fixed(4) + nl() + lines_text(
            header_lines(locale, secs).skip(5),
        ),
{
    let hl = header_lines(locale, secs);
    lemma_lines_text_step(hl, 0);
    lemma_lines_text_step(hl, 1);
    lemma_lines_text_step(hl, 2);
    lemma_lines_text_step(hl, 3);
    lemma_lines_text_step(hl, 4);
    assert(hl.skip(0) =~= hl);
    assert(lines_text(hl) =~= header_fixed(0) + nl() + header_fixed(1) + nl() + header_fixed(2)
        + nl() + header_fixed(3) + nl() + header_fixed(4) + nl() + lines_text(hl.skip(5)));
}

/// A fresh header followed by a newline is its lines, each followed by a
/// newline.
#[verifier::spinoff_prover]
pub proof fn lemma_header_text(locale: Seq<char>, secs: int)
    ensures
        crate::po::header_spec(locale, secs) + nl() == lines_text(header_lines(locale, secs)),
{
    lemma_header_start();
    lemma_header_middle();
    lemma_header_head(locale, secs);
    lemma_header_date(locale, secs);
    lemma_header_language(locale, secs);
    lemma_header_tail(locale, secs);
    let hl = header_lines(locale, secs);
    let d = crate::po::creation_date_text(secs);
    let l = locale;
    let p = crate::plural_forms::plural_forms_spec(locale);
    let e = HEADER_END@;
    let n = nl();
    let a1 = header_fixed(0) + n + header_fixed(1) + n + header_fixed(2) + n + header_fixed(3) + n
        + header_fixed(4) + n;
    let a2 = header_fixed(5) + n + header_fixed(6) + n + header_fixed(7) + n + header_fixed(8) + n
        + header_fixed(9) + n;
    let b = header_fixed(11) + n + header_fixed(12) + n + header_fixed(13) + n;
    let c = header_fixed(15) + n + header_fixed(16) + n + header_fixed(17) + n;
    let f10 = header_fixed(10);
    let f14 = header_fixed(14);
    let f18 = header_fixed(18);
    let hs = HEADER_START@;
    let hlang = HEADER_LANGUAGE@;
    let hp = HEADER_PLURAL_FORMS@;
    assert(hs == a1 + a2 + f10) by {
        assert(hs =~= a1 + a2 + f10);
    }
    assert(hlang == e + n + b + f14) by {
        assert(hlang =~= e + n + b + f14);
    }
    assert(hp == e + n + c + f18) by {
        assert(hp =~= e + n + c + f18);
    }
    let x3 = c + f18 + p + e + n;
    assert(lines_text(hl.skip(15)) == x3);
    let x2 = b + f14 + l + e + n + x3;
    assert(lines_text(hl.skip(11)) == x2);
    let x1 = a2 + f10 + d + e + n + x2;
    assert(lines_text(hl.skip(5)) == x1) by {
        assert(a2 + f10 + d + e + n + lines_text(hl.skip(11)) =~= x1);
    }
    assert(lines_text(hl) == a1 + x1) by {
        assert(a1 + lines_text(hl.skip(5)) =~= a1 + x1);
    }
    let s3 = hp + p + e + n;
    assert(s3 == e + n + x3) by {
        assert(s3 =~= e + n + x3);
    }
    let s2 = hlang + l + s3;
    assert(s2 == e + n + x2) by {
        assert(s2 =~= e + n + x2);
    }
    let s1 = hs + d + s2;
    assert(s1 == a1 + x1) by {
        assert(s1 =~= a1 + x1);
    }
    assert(crate::po::header_spec(locale, secs) + n == s1) by {
        assert(crate::po::header_spec(locale, secs) + n =~= s1);
    }
}

#[verifier::spinoff_prover]
proof fn lemma_plural_forms_table()
    ensures
        PLURAL_FORMS@.len() == 98,
        forall|i: int| 0 <= i < PLURAL_FORMS@.len() ==> no_newline(#[trigger] PLURAL_FORMS@[i].1@),
{
    reveal_strlit("nplurals=2; plural=(n != 1);");
    reveal_strlit("nplurals=6; plural=n==0 ? 0 : n==1 ? 1 : n==2 ? 2 : n%100>=3 && n%100<=10 ? 3 : n%100>=11 && n%100<=99 ? 4 : 5;");
    reveal_strlit("nplurals=4; plural=(n%10==1 && n%100!=11 ? 0 : n%10>=2 && n%10<=4 && (n%100<12 || n%100>14) ? 1 : n%10==0 || (n%10>=5 && n%10<=9) || (n%100>=11 && n%100<=14)? 2 : 3);");
    reveal_strlit("nplurals=5; plural=((n%10 == 1) && (n%100 != 11) && (n%100 !=71) && (n%100 !=91) ? 0 :(n%10 == 2) && (n%100 != 12) && (n%100 !=72) && (n%100 !=92) ? 1 :(n%10 ==3 || n%10==4 || n%10==9) && (n%100 < 10 || n% 100 > 19) && (n%100 < 70 || n%100 > 79) && (n%100 < 90 || n%100 > 99) ? 2 :(n != 0 && n % 1000000 == 0) ? 3 : 4);");
    reveal_strlit("nplurals=3; plural=(n%10==1 && n%100!=11 ? 0 : n%10>=2 && n%10<=4 && (n%100<10 || n%100>=20) ? 1 : 2);");
    reveal_strlit("nplurals=4; plural=(n == 1 && n % 1 == 0) ? 0 : (n >= 2 && n <= 4 && n % 1 == 0) ? 1: (n % 1 != 0 ) ? 2 : 3;");
    reveal_strlit("nplurals=4; plural=(n==1) ? 0 : (n==2) ? 1 : (n != 8 && n != 11) ? 2 : 3;");
    reveal_strlit("nplurals=4; plural=(n%100==1 ? 0 : n%100==2 ? 1 : n%100==3 || n%100==4 ? 2 : 3);");
    reveal_strlit("nplurals=2; plural=(n > 1);");
    reveal_strlit("nplurals=5; plural=(n==1 ? 0 : n==2 ? 1 : n<7 ? 2 : n<11 ? 3 : 4);");
    reveal_strlit("nplurals=4; plural=(n==1 || n==11) ? 0 : (n==2 || n==12) ? 1 : (n > 2 && n < 20) ? 2 : 3;");
    reveal_strlit("nplurals=3; plural=(n == 1 && n % 1 == 0) ? 0 : (n == 2 && n % 1 == 0) ? 1: 2;");
    reveal_strlit("nplurals=3; plural=n%10==1 && n%100!=11 ? 0 : n%10>=2 && n%10<=4 && (n%100<10 || n%100>=20) ? 1 : 2;");
    reveal_strlit("nplurals=1; plural=0;");
    reveal_strlit("nplurals=2; plural=(n % 10 != 1 || n % 100 == 11);");
    reveal_strlit("nplurals=2; plural=(n!=1);");
    reveal_strlit("nplurals=4; plural=(n % 10 == 1 && (n % 100 > 19 || n % 100 < 11) ? 0 : (n % 10 >= 2 && n % 10 <=9) && (n % 100 > 19 || n % 100 < 11) ? 1 : n % 1 != 0 ? 2: 3);");
    reveal_strlit("nplurals=3; plural=(n%10==1 && n%100!=11 ? 0 : n != 0 ? 1 : 2);");
    reveal_strlit("nplurals=2; plural=(n % 10 == 1 && n % 100 != 11) ? 0 : 1;");
    reveal_strlit("nplurals=4; plural=(n==1 ? 0 : (n%10>=2 && n%10<=4) && (n%100<12 || n%100>14) ? 1 : n!=1 && (n%10>=0 && n%10<=1) || (n%10>=5 && n%10<=9) || (n%100>=12 && n%100<=14) ? 2 : 3);");
    reveal_strlit("nplurals=3; plural=(n==1?0:(((n%100>19)||((n%100==0)&&(n!=0)))?2:1));");
    reveal_strlit("nplurals=4; plural=(n % 1 == 0 && n == 1 ? 0 : n % 1 == 0 && n >= 2 && n <= 4 ? 1 : n % 1 != 0 ? 2: 3);");
    reveal_strlit("nplurals=4; plural=(n % 1 == 0 && n % 10 == 1 && n % 100 != 11 ? 0 : n % 1 == 0 && n % 10 >= 2 && n % 10 <= 4 && (n % 100 < 12 || n % 100 > 14) ? 1 : n % 1 == 0 && (n % 10 ==0 || (n % 10 >=5 && n % 10 <=9) || (n % 100 >=11 && n % 100 <=14 )) ? 2: 3);");
    assert forall|i: int| 0 <= i < 98 implies no_newline(#[trigger] PLURAL_FORMS@[i].1@) by {
        if i == 0 {
        } else if i == 1 {
        } else if i == 2 {
        } else if i == 3 {
        } else if i == 4 {
        } else if i == 5 {
        } else if i == 6 {
        } else if i == 7 {
        } else if i == 8 {
        } else if i == 9 {
        } else if i == 10 {
        } else if i == 11 {
        } else if i == 12 {
        } else if i == 13 {
        } else if i == 14 {
        } else if i == 15 {
        } else if i == 16 {
        } else if i == 17 {
        } else if i == 18 {
        } else if i == 19 {
        } else if i == 20 {
        } else if i == 21 {
        } else if i == 22 {
        } else if i == 23 {
        } else if i == 24 {
        } else if i == 25 {
        } else if i == 26 {
        } else if i == 27 {
        } else if i == 28 {
        } else if i == 29 {
        } else if i == 30 {
        } else if i == 31 {
        } else if i == 32 {
        } else if i == 33 {
        } else if i == 34 {
        } else if i == 35 {
        } else if i == 36 {
        } else if i == 37 {
        } else if i == 38 {
        } else if i == 39 {
        } else if i == 40 {
        } else if i == 41 {
        } else if i == 42 {
        } else if i == 43 {
        } else if i == 44 {
        } else if i == 45 {
        } else if i == 46 {
        } else if i == 47 {
        } else if i == 48 {
        } else if i == 49 {
        } else if i == 50 {
        } else if i == 51 {
        } else if i == 52 {
        } else if i == 53 {
        } else if i == 54 {
        } else if i == 55 {
        } else if i == 56 {
        } else if i == 57 {
        } else if i == 58 {
        } else if i == 59 {
        } else if i == 60 {
        } else if i == 61 {
        } else if i == 62 {
        } else if i == 63 {
        } else if i == 64 {
        } else if i == 65 {
        } else if i == 66 {
        } else if i == 67 {
        } else if i == 68 {
        } else if i == 69 {
        } else if i == 70 {
        } else if i == 71 {
        } else if i == 72 {
        } else if i == 73 {
        } else if i == 74 {
        } else if i == 75 {
        } else if i == 76 {
        } else if i == 77 {
        } else if i == 78 {
        } else if i == 79 {
        } else if i == 80 {
        } else if i == 81 {
        } else if i == 82 {
        } else if i == 83 {
        } else if i == 84 {
        } else if i == 85 {
        } else if i == 86 {
        } else if i == 87 {
        } else if i == 88 {
        } else if i == 89 {
        } else if i == 90 {
        } else if i == 91 {
        } else if i == 92 {
        } else if i == 93 {
        } else if i == 94 {
        } else if i == 95 {
        } else if i == 96 {
        } else {
        }
    }
}

proof fn lemma_table_lookup_in(table: Seq<(&'static str, &'static str)>, key: Seq<char>)
    requires
        table_lookup(table, key) is Some,
    ensures
        exists|i: int| 0 <= i < table.len() && table[i].1 == table_lookup(table, key)->0,
    decreases table.len(),
{
    if table[0].0@ != key {
        lemma_table_lookup_in(table.drop_first(), key);
        let i = choose|i: int|
            0 <= i < table.drop_first().len() && table.drop_first()[i].1 == table_lookup(
                table.drop_first(),
                key,
            )->0;
        assert(table[i + 1] == table.drop_first()[i]);
    } else {
        assert(table[0].1 == table_lookup(table, key)->0);
    }
}

/// The Plural-Forms value of any locale fits on one line.
pub proof fn lemma_plural_forms_one_line(locale: Seq<char>)
    ensures
        no_newline(plural_forms_spec(locale)),
{
    lemma_plural_forms_table();
    reveal_strlit("nplurals=2; plural=(n != 1);");
    let t = PLURAL_FORMS@;
    if table_lookup(t, locale) is Some {
        lemma_table_lookup_in(t, locale);
    } else {
        let i = crate::text::index_of(locale, '_');
        if i >= 0 && table_lookup(t, locale.take(i)) is Some {
            lemma_table_lookup_in(t, locale.take(i));
        }
    }
}

/// Two texts without a newline make one without a newline.
pub proof fn lemma_no_newline_concat(a: Seq<char>, b: Seq<char>)
    requires
        no_newline(a),
        no_newline(b),
    ensures
        no_newline(a + b),
{
    assert forall|k: int| 0 <= k < (a + b).len() implies (a + b)[k] != '\n' by {
        if k < a.len() {
            assert((a + b)[k] == a[k]);
        } else {
            assert((a + b)[k] == b[k - a.len()]);
        }
    }
}

proof fn lemma_zero_padded_one_line(n: nat, w: nat)
    ensures
        no_newline(crate::po::zero_padded(n, w)),
{
    crate::readback::lemma_decimal_digits(n);
    let d = crate::text::decimal(n);
    assert(no_newline(d)) by {
        assert forall|k: int| 0 <= k < d.len() implies d[k] != '\n' by {
            assert('0' <= d[k] <= '9');
        }
    }
    if d.len() < w {
        let z = Seq::new((w - d.len()) as nat, |i: int| '0');
        assert(no_newline(z));
        lemma_no_newline_concat(z, d);
    }
}

/// The creation date fits on one line.
pub proof fn lemma_date_one_line(secs: int)
    ensures
        no_newline(crate::po::creation_date_text(secs)),
{
    let (y, mo, d, h, mi) = crate::po::civil_spec(secs);
    let yt = crate::po::year_text(y);
    if y < 0 {
        lemma_zero_padded_one_line((-y) as nat, 3);
        assert(no_newline(seq!['-']));
        lemma_no_newline_concat(seq!['-'], crate::po::zero_padded((-y) as nat, 3));
    } else {
        lemma_zero_padded_one_line(y as nat, 4);
    }
    lemma_zero_padded_one_line(mo as nat, 2);
    lemma_zero_padded_one_line(d as nat, 2);
    lemma_zero_padded_one_line(h as nat, 2);
    lemma_zero_padded_one_line(mi as nat, 2);
    reveal_strlit("+0000");
    let z = "+0000"@;
    assert(no_newline(z));
    assert(no_newline(seq!['-']));
    assert(no_newline(seq![' ']));
    assert(no_newline(seq![':']));
    let p1 = yt + seq!['-'];
    lemma_no_newline_concat(yt, seq!['-']);
    let p2 = p1 + crate::po::zero_padded(mo as nat, 2);
    lemma_no_newline_concat(p1, crate::po::zero_padded(mo as nat, 2));
    let p3 = p2 + seq!['-'];
    lemma_no_newline_concat(p2, seq!['-']);
    let p4 = p3 + crate::po::zero_padded(d as nat, 2);
    lemma_no_newline_concat(p3, crate::po::zero_padded(d as nat, 2));
    let p5 = p4 + seq![' '];
    lemma_no_newline_concat(p4, seq![' ']);
    let p6 = p5 + crate::po::zero_padded(h as nat, 2);
    lemma_no_newline_concat(p5, crate::po::zero_padded(h as nat, 2));
    let p7 = p6 + seq![':'];
    lemma_no_newline_concat(p6, seq![':']);
    let p8 = p7 + crate::po::zero_padded(mi as nat, 2);
    lemma_no_newline_concat(p7, crate::po::zero_padded(mi as nat, 2));
    lemma_no_newline_concat(p8, z);
}

/// A header line as the reader meets it: a line, not starting or ending in
/// whitespace, and not an obsolete marker.
pub open spec fn header_line_ok(l: Seq<char>) -> bool {
    &&& crate::readback::phys_ok(l)
    &&& !is_ws(l[0])
    &&& !is_ws(l.last())
    &&& (l[0] == '#' ==> (l.len() == 1 || l[1] != '~'))
}

pub proof fn lemma_header_line_ok(l: Seq<char>)
    requires
        header_line_ok(l),
    ensures
        trim_seq(l) == l,
        unwrap_line(l) == (false, l),
{
    assert(trim_start_seq(l) == l);
    if has_prefix(l, seq!['#', '~']) {
        crate::readback::lemma_prefix_char(l, seq!['#', '~'], 0);
        crate::readback::lemma_prefix_char(l, seq!['#', '~'], 1);
    }
}

/// A line of a fresh header: the opening, a middle on one line, and the end.
proof fn lemma_framed_line_ok(f: Seq<char>, mid: Seq<char>)
    requires
        f.len() > 0,
        f[0] == '"',
        no_newline(f),
        no_newline(mid),
    ensures
        header_line_ok(f + mid + HEADER_END@),
        (f + mid + HEADER_END@)[0] == '"',
{
    lemma_header_middle();
    assert(no_newline(HEADER_END@)) by {
        assert forall|k: int| 0 <= k < 3 implies HEADER_END@[k] != '\n' by {}
    }
    lemma_no_newline_concat(f, mid);
    lemma_no_newline_concat(f + mid, HEADER_END@);
    let l = f + mid + HEADER_END@;
    assert(l[0] == f[0]);
    assert(l.last() == '"');
    assert(('"' as u32) == 34);
}

/// Every line of a fresh header is a line the reader meets as it is, and
/// those from the first translation on open with a quote.
#[verifier::spinoff_prover]
pub proof fn lemma_header_lines_ok(locale: Seq<char>, secs: int)
    requires
        no_newline(locale),
    ensures
        forall|i: int| 0 <= i < 19 ==> header_line_ok(#[trigger] header_lines(locale, secs)[i]),
        forall|i: int| 8 <= i < 19 ==> (#[trigger] header_lines(locale, secs)[i])[0] == '"',
        header_lines(locale, secs).len() == 19,
{
    reveal_strlit("# SOME DESCRIPTIVE TITLE.");
    reveal_strlit("# Copyright (C) YEAR THE PACKAGE'S COPYRIGHT HOLDER");
    reveal_strlit("# This file is distributed under the same license as the PACKAGE package.");
    reveal_strlit("# FIRST AUTHOR <EMAIL@ADDRESS>, YEAR.");
    reveal_strlit("#");
    reveal_strlit("#, fuzzy");
    reveal_strlit(r#"msgid """#);
    reveal_strlit(r#"msgstr """#);
    reveal_strlit(r#""Project-Id-Version: PACKAGE VERSION\n""#);
    reveal_strlit(r#""Report-Msgid-Bugs-To: \n""#);
    reveal_strlit(r#""POT-Creation-Date: "#);
    reveal_strlit(r#""PO-Revision-Date: YEAR-MO-DA HO:MI+ZONE\n""#);
    reveal_strlit(r#""Last-Translator: FULL NAME <EMAIL@ADDRESS>\n""#);
    reveal_strlit(r#""Language-Team: LANGUAGE <LL@li.org>\n""#);
    reveal_strlit(r#""Language: "#);
    reveal_strlit(r#""MIME-Version: 1.0\n""#);
    reveal_strlit(r#""Content-Type: text/plain; charset=UTF-8\n""#);
    reveal_strlit(r#""Content-Transfer-Encoding: 8bit\n""#);
    reveal_strlit(r#""Plural-Forms: "#);
    assert(('"' as u32) == 34 && ('#' as u32) == 35 && ('m' as u32) == 109);
    lemma_date_one_line(secs);
    lemma_plural_forms_one_line(locale);
    lemma_framed_line_ok(header_fixed(10), crate::po::creation_date_text(secs));
    lemma_framed_line_ok(header_fixed(14), locale);
    lemma_framed_line_ok(header_fixed(18), plural_forms_spec(locale));
    let hl = header_lines(locale, secs);
    assert forall|i: int| 0 <= i < 19 implies header_line_ok(#[trigger] hl[i]) && (8 <= i ==> hl[i][0]
        == '"') by {
        if i == 10 || i == 14 || i == 18 {
        } else {
            assert(hl[i] == header_fixed(i));
            assert(no_newline(hl[i]));
        }
    }
}

/// Lines each followed by a newline, then more text, split back into the
/// lines and the lines of the rest.
pub proof fn lemma_lines_text(pls: Seq<Seq<char>>, rest: Seq<char>)
    requires
        forall|i: int| 0 <= i < pls.len() ==> phys_ok(#[trigger] pls[i]),
    ensures
        lines_of(lines_text(pls) + rest) == pls + lines_of(rest),
    decreases pls.len(),
{
    if pls.len() == 0 {
        assert(lines_text(pls) + rest =~= rest);
        assert(pls + lines_of(rest) =~= lines_of(rest));
    } else {
        let tail = pls.drop_first();
        assert forall|i: int| 0 <= i < tail.len() implies phys_ok(#[trigger] tail[i]) by {
            assert(tail[i] == pls[i + 1]);
        }
        lemma_lines_text(tail, rest);
        assert(phys_ok(pls[0]));
        assert(lines_text(pls) + rest =~= pls[0] + seq!['\n'] + (lines_text(tail) + rest));
        crate::quoting::lemma_lines_cons(pls[0], lines_text(tail) + rest);
        assert(seq![pls[0]] + (tail + lines_of(rest)) =~= pls + lines_of(rest));
    }
}

/// Lines each followed by a newline are the lines joined, and a newline.
pub proof fn lemma_lines_text_join(pls: Seq<Seq<char>>)
    requires
        pls.len() > 0,
    ensures
        lines_text(pls) == join_seq(pls, seq!['\n']) + nl(),
    decreases pls.len(),
{
    if pls.len() == 1 {
        assert(pls.drop_first() =~= Seq::<Seq<char>>::empty());
        assert(lines_text(pls.drop_first()) == Seq::<char>::empty());
        assert(join_seq(pls, seq!['\n']) == pls[0]);
        assert(lines_text(pls) =~= pls[0] + nl());
    } else {
        lemma_lines_text_join(pls.drop_first());
        crate::readback::lemma_join_front(pls, seq!['\n']);
        assert(lines_text(pls) =~= join_seq(pls, seq!['\n']) + nl());
    }
}

/// The empty PO string `""` reads as the empty text.
pub proof fn lemma_empty_po_string()
    ensures
        parse_po_string_spec(seq!['"', '"']) == Seq::<char>::empty(),
{
    let q = seq!['"', '"'];
    assert(('"' as u32) == 34);
    assert(no_newline(q)) by {
        assert forall|k: int| 0 <= k < 2 implies q[k] != '\n' by {}
    }
    crate::quoting::lemma_lines_single(q);
    assert(trim_start_seq(q) == q);
    assert(trim_seq(q) == q);
    assert(crate::po::quoted_inner(q) == Some(q.subrange(1, 1)));
    assert(q.subrange(1, 1) =~= Seq::<char>::empty());
    let ls = seq![q];
    assert(ls.drop_last() =~= Seq::<Seq<char>>::empty());
    assert(ls.last() == q);
    assert(crate::po::quoted_concat(ls.drop_last()) == Seq::<char>::empty());
    assert(crate::po::quoted_concat(ls) =~= Seq::<char>::empty());
    assert(lines_of(q) == ls);
}

/// The catalog entries a run reads from the existing file, if any.
pub open spec fn existing_pairs(existing_content: Option<Seq<char>>) -> Seq<
    (Seq<char>, PoEntryView),
> {
    match existing_content {
        Some(c) => parse_po_file_spec(c),
        None => seq![],
    }
}

/// The entries a run writes after the header, in the order written: the new
/// catalog's entries, then the obsolete ones.
pub open spec fn written_entries(
    extracted: Seq<EntryView>,
    existing_content: Option<Seq<char>>,
    o: PoOptionsView,
) -> Seq<PoEntryView> {
    let existing = existing_pairs(existing_content);
    let new0 = merged_entries(extracted, existing);
    let new = if o.sort_output {
        sort_pairs(new0)
    } else {
        new0
    };
    let obs0 = if o.no_obsolete {
        seq![]
    } else {
        obsolete_entries(existing, new)
    };
    let obs = if o.sort_output && !o.no_obsolete {
        sort_entries_by_key(obs0)
    } else {
        obs0
    };
    new.map_values(|p: (Seq<char>, PoEntryView)| p.1) + obs
}

/// Whitespace after a closing quote is cut, the quote kept.
pub proof fn lemma_trim_blank_lines(t: Seq<char>)
    requires
        t.len() > 0,
        t.last() == '"',
    ensures
        trim_end_seq(t + seq!['\n', '\n']) == t,
        trim_end_seq(t) == t,
{
    assert(is_ws('\n'));
    assert(('"' as u32) == 34);
    let t2 = t + seq!['\n', '\n'];
    assert(t2.drop_last() =~= t + seq!['\n']);
    assert((t + seq!['\n']).drop_last() =~= t);
    assert(trim_end_seq(t) == t);
    assert(trim_end_seq(t + seq!['\n']) == trim_end_seq(t));
    assert(trim_end_seq(t2) == trim_end_seq(t + seq!['\n']));
}

/// A catalog file a run writes reads back as the entries written after the
/// header (as `read_view` says), in order, each under its key, obsolete ones
/// included: when the header written, fresh (see `lemma_fresh_block`) or
/// kept from the existing file, is a header block (see `header_block`), and
/// the entries keep to their lines (see `entry_shaped`; their flags, which
/// come from the existing file, always have the shape the reader splits
/// them by); their keys always differ (see `lemma_written_distinct`).
pub proof fn law_catalog_reads_back(
    extracted: Seq<EntryView>,
    existing_content: Option<Seq<char>>,
    locale: Seq<char>,
    o: PoOptionsView,
    spans: Seq<(usize, usize)>,
    secs: int,
    hl: Seq<Seq<char>>,
    c: int,
)
    requires
        header_block(header_used(existing_content, o, spans, locale, secs), hl, c),
        all_shaped(written_entries(extracted, existing_content, o), o),
    ensures
        parse_po_file_spec(merge_spec(extracted, existing_content, locale, o, spans, secs))
            == keyed_entries(read_views(written_entries(extracted, existing_content, o), o)),
{
    crate::rerun::lemma_written_readable(extracted, existing_content, o);
    let w = written_entries(extracted, existing_content, o);
    lemma_merge_text_any(extracted, existing_content, locale, o, spans, secs);
    let h = header_used(existing_content, o, spans, locale, secs);
    crate::rerun::lemma_written_distinct(extracted, existing_content, o);
    crate::header_block::lemma_block_reads_back(h, hl, c, w, o);
}

/// What a catalog file reads as is keyed by each entry's own key, no key
/// twice.
pub proof fn lemma_existing_keyed(existing_content: Option<Seq<char>>)
    ensures
        well_keyed(existing_pairs(existing_content)),
        distinct_pair_keys(existing_pairs(existing_content)),
{
    let e0 = Seq::<(Seq<char>, PoEntryView)>::empty();
    match existing_content {
        Some(c) => {
            lemma_parse_keyed(unwrapped_lines(c), obsolete_marks(c), 0, e0);
        },
        None => {},
    }
}

/// A catalog whose header is a header block begins with that header and
/// ends with a closing quote: that of the header, or of the last entry's last
/// translation.
pub proof fn lemma_catalog_text_end(
    extracted: Seq<EntryView>,
    existing_content: Option<Seq<char>>,
    locale: Seq<char>,
    o: PoOptionsView,
    spans: Seq<(usize, usize)>,
    secs: int,
    hl: Seq<Seq<char>>,
    c: int,
)
    requires
        header_block(header_used(existing_content, o, spans, locale, secs), hl, c),
        all_readable(written_entries(extracted, existing_content, o), o),
    ensures
        ({
            let f = merge_spec(extracted, existing_content, locale, o, spans, secs);
            let h = header_used(existing_content, o, spans, locale, secs);
            &&& f.len() > 0
            &&& f.last() == '"'
            &&& f.len() >= h.len()
            &&& f.take(h.len() as int) == h
            &&& written_entries(extracted, existing_content, o).len() == 0 ==> f == h
            &&& written_entries(extracted, existing_content, o).len() > 0 ==> has_prefix(
                f,
                h + seq!['\n', '\n'],
            )
        }),
{
    let w = written_entries(extracted, existing_content, o);
    lemma_merge_text_any(extracted, existing_content, locale, o, spans, secs);
    let h = header_used(existing_content, o, spans, locale, secs);
    crate::header_block::lemma_block_text(h, hl, c);
    if w.len() == 0 {
        assert(entries_text(w, o) == Seq::<char>::empty());
        assert(h + seq!['\n', '\n'] + entries_text(w, o) =~= h + seq!['\n', '\n']);
        lemma_trim_blank_lines(h);
        assert(h.take(h.len() as int) =~= h);
    } else {
        let d = w.drop_last();
        let x = w.last();
        crate::readback::lemma_readable_drop_last(w, o);
        crate::readback::lemma_entry_text_ends(x, o);
        let e1 = entries_text(d, o) + crate::po::format_entry_spec(x, o);
        assert(entries_text(w, o) == e1 + seq!['\n', '\n']);
        lemma_trim_blank_lines(h + seq!['\n', '\n'] + e1);
        assert(h + seq!['\n', '\n'] + entries_text(w, o) =~= (h + seq!['\n', '\n'] + e1) + seq![
            '\n',
            '\n',
        ]);
        assert((h + seq!['\n', '\n'] + e1).take(h.len() as int) =~= h);
        assert((h + seq!['\n', '\n'] + e1).take(h.len() as int + 2) =~= h + seq!['\n', '\n']);
    }
}

/// The catalog a run writes is its header alone, when no entry is written,
/// or starts with its header and a blank line: when the header, fresh or
/// kept, is a header block and the entries keep to their lines.
pub proof fn law_header_then_entries(
    extracted: Seq<EntryView>,
    existing_content: Option<Seq<char>>,
    locale: Seq<char>,
    o: PoOptionsView,
    spans: Seq<(usize, usize)>,
    secs: int,
    hl: Seq<Seq<char>>,
    c: int,
)
    requires
        header_block(header_used(existing_content, o, spans, locale, secs), hl, c),
        all_shaped(written_entries(extracted, existing_content, o), o),
    ensures
        ({
            let f = merge_spec(extracted, existing_content, locale, o, spans, secs);
            let h = header_used(existing_content, o, spans, locale, secs);
            f == h || has_prefix(f, h + seq!['\n', '\n'])
        }),
{
    crate::rerun::lemma_written_readable(extracted, existing_content, o);
    lemma_catalog_text_end(extracted, existing_content, locale, o, spans, secs, hl, c);
}

/// The header a run writes: the existing one kept, or a fresh one.
pub open spec fn header_used(
    existing_content: Option<Seq<char>>,
    o: PoOptionsView,
    spans: Seq<(usize, usize)>,
    locale: Seq<char>,
    secs: int,
) -> Seq<char> {
    let kept = match existing_content {
        Some(c) => if o.keep_header {
            kept_header(c, spans)
        } else {
            None
        },
        None => None,
    };
    match kept {
        Some(h) => h,
        None => header_spec(locale, secs),
    }
}

/// The catalog a run writes: its header, a blank line, and the entries,
/// with the trailing blank line cut.
pub proof fn lemma_merge_text_any(
    extracted: Seq<EntryView>,
    existing_content: Option<Seq<char>>,
    locale: Seq<char>,
    o: PoOptionsView,
    spans: Seq<(usize, usize)>,
    secs: int,
)
    ensures
        merge_spec(extracted, existing_content, locale, o, spans, secs) == trim_end_seq(
            header_used(existing_content, o, spans, locale, secs) + seq!['\n', '\n']
                + entries_text(written_entries(extracted, existing_content, o), o),
        ),
{
    let existing = existing_pairs(existing_content);
    let new0 = merged_entries(extracted, existing);
    let new = if o.sort_output {
        sort_pairs(new0)
    } else {
        new0
    };
    let obs0 = if o.no_obsolete {
        seq![]
    } else {
        obsolete_entries(existing, new)
    };
    let obs = if o.sort_output && !o.no_obsolete {
        sort_entries_by_key(obs0)
    } else {
        obs0
    };
    let vals = new.map_values(|p: (Seq<char>, PoEntryView)| p.1);
    crate::readback::lemma_entries_text_append(vals, obs, o);
    assert(written_entries(extracted, existing_content, o) == vals + obs);
    let h = header_used(existing_content, o, spans, locale, secs);
    assert(h + seq!['\n', '\n'] + entries_text(vals, o) + entries_text(obs, o) =~= h + seq![
        '\n',
        '\n',
    ] + entries_text(vals + obs, o));
}

/// Lines each followed by a newline, split before the last.
proof fn lemma_lines_text_last(ls: Seq<Seq<char>>)
    requires
        ls.len() > 0,
    ensures
        lines_text(ls) == lines_text(ls.drop_last()) + ls.last() + nl(),
    decreases ls.len(),
{
    if ls.len() == 1 {
        assert(ls.drop_last() =~= Seq::<Seq<char>>::empty());
        assert(ls.drop_first() =~= Seq::<Seq<char>>::empty());
        assert(lines_text(ls.drop_first()) == Seq::<char>::empty());
        assert(lines_text(ls.drop_last()) == Seq::<char>::empty());
        assert(lines_text(ls) =~= lines_text(ls.drop_last()) + ls.last() + nl());
    } else {
        lemma_lines_text_last(ls.drop_first());
        assert(ls.drop_first().drop_last() =~= ls.drop_last().drop_first());
        assert(ls.drop_last()[0] == ls[0]);
        assert(ls.drop_first().last() == ls.last());
        assert(lines_text(ls) =~= lines_text(ls.drop_last()) + ls.last() + nl());
    }
}

/// Comment lines, each kept with its newline, are the lines' text.
proof fn lemma_comment_lines_before(ls: Seq<Seq<char>>)
    requires
        forall|i: int| 0 <= i < ls.len() ==> has_prefix(#[trigger] ls[i], seq!['#']),
    ensures
        crate::catalog::comment_lines_before(ls) == lines_text(ls),
    decreases ls.len(),
{
    if ls.len() > 0 {
        let d = ls.drop_last();
        assert forall|i: int| 0 <= i < d.len() implies has_prefix(#[trigger] d[i], seq!['#']) by {
            assert(d[i] == ls[i]);
        }
        lemma_comment_lines_before(d);
        lemma_lines_text_last(ls);
        assert(has_prefix(ls[ls.len() - 1], seq!['#']));
        assert(crate::catalog::comment_lines_before(ls) =~= lines_text(ls));
    } else {
        assert(lines_text(ls) == Seq::<char>::empty());
    }
}

/// Lines each followed by a newline, split at any line.
proof fn lemma_lines_text_split(ls: Seq<Seq<char>>, k: int)
    requires
        0 <= k <= ls.len(),
    ensures
        lines_text(ls) == lines_text(ls.take(k)) + lines_text(ls.skip(k)),
    decreases k,
{
    if k == 0 {
        assert(ls.take(0) =~= Seq::<Seq<char>>::empty());
        assert(ls.skip(0) =~= ls);
        assert(lines_text(ls.take(0)) == Seq::<char>::empty());
        assert(lines_text(ls) =~= lines_text(ls.take(0)) + lines_text(ls.skip(0)));
    } else {
        lemma_lines_text_split(ls.drop_first(), k - 1);
        assert(ls.drop_first().take(k - 1) =~= ls.take(k).drop_first());
        assert(ls.drop_first().skip(k - 1) =~= ls.skip(k));
        assert(ls.take(k)[0] == ls[0]);
        assert(lines_text(ls) =~= lines_text(ls.take(k)) + lines_text(ls.skip(k)));
    }
}

/// When the header pattern's first match is the entry of a header block at
/// the start of a text, the header kept is that block, comment lines
/// included.
pub proof fn lemma_kept_block(
    h: Seq<char>,
    hl: Seq<Seq<char>>,
    c: int,
    tail: Seq<char>,
    spans: Seq<(usize, usize)>,
)
    requires
        header_block(h, hl, c),
        spans.len() > 0,
        crate::matching::char_span(h + tail, spans[0]) == Some(
            (lines_text(hl.take(c)).len() as int, h.len() as int),
        ),
    ensures
        kept_header(h + tail, spans) == Some(h),
{
    let t = h + tail;
    let p = lines_text(hl.take(c)).len() as int;
    lemma_lines_text_split(hl, c);
    let first = hl.take(c);
    lemma_lines_text_step(hl, c);
    assert(header_line_ok(hl[c]));
    assert(lines_text(hl.skip(c)).len() >= hl[c].len() + 1);
    assert(lines_text(hl).len() == h.len() + 1);
    assert(lines_text(hl).len() == p + lines_text(hl.skip(c)).len());
    assert(p < h.len());
    assert(t.take(p) =~= lines_text(first)) by {
        assert forall|k: int| 0 <= k < p implies t.take(p)[k] == lines_text(first)[k] by {
            assert((h + nl())[k] == lines_text(hl)[k]);
            assert(t[k] == h[k]);
        }
    }
    assert forall|i: int| 0 <= i < first.len() implies phys_ok(#[trigger] first[i]) by {
        assert(first[i] == hl[i]);
        assert(header_line_ok(hl[i]));
    }
    lemma_lines_text(first, Seq::<char>::empty());
    assert(lines_text(first) + Seq::<char>::empty() =~= lines_text(first));
    assert(lines_of(Seq::<char>::empty()) == Seq::<Seq<char>>::empty());
    assert(first + Seq::<Seq<char>>::empty() =~= first);
    assert forall|i: int| 0 <= i < first.len() implies has_prefix(#[trigger] first[i], seq!['#']) by {
        assert(first[i] == hl[i]);
        assert(hl[i][0] == '#');
        assert(first[i].take(1) =~= seq!['#']);
    }
    lemma_comment_lines_before(first);
    assert(t.subrange(p, h.len() as int) =~= h.subrange(p, h.len() as int));
    assert(lines_text(first) + h.subrange(p, h.len() as int) =~= h) by {
        assert forall|k: int| 0 <= k < p implies h[k] == lines_text(first)[k] by {
            assert((h + nl())[k] == lines_text(hl)[k]);
        }
    }
}

} // verus!
