//! Locale names: Django's validity rule, the suggestion offered for a
//! mistyped name, and the choice of locales a run processes.
use vstd::prelude::*;
use crate::text::{chars_of, index_of, lemma_index_of, find_char, push_str, seqs_of, string_of};
use crate::extractor::{strings_of, strings_view};
use crate::po::{sort_strs, sort_strs_exec};

verus! {

pub open spec fn is_ascii_lower(c: char) -> bool {
    'a' <= c && c <= 'z'
}

pub open spec fn is_ascii_upper(c: char) -> bool {
    'A' <= c && c <= 'Z'
}

pub open spec fn is_ascii_digit(c: char) -> bool {
    '0' <= c && c <= '9'
}

pub open spec fn is_ascii_alpha(c: char) -> bool {
    is_ascii_lower(c) || is_ascii_upper(c)
}

/// Every character is an ASCII lowercase letter.
pub open spec fn all_ascii_lower(s: Seq<char>) -> bool {
    forall|k: int| 0 <= k < s.len() ==> is_ascii_lower(#[trigger] s[k])
}

/// The language part of a locale: what precedes its first `_`.
pub open spec fn locale_lang(l: Seq<char>) -> Seq<char> {
    let i = index_of(l, '_');
    if i < 0 {
        l
    } else {
        l.take(i)
    }
}

/// Django's `is_valid_locale`: `^[a-z]+$` or `^[a-z]+_[A-Z0-9].*$`.
pub open spec fn valid_locale(l: Seq<char>) -> bool {
    let i = index_of(l, '_');
    &&& locale_lang(l).len() > 0
    &&& all_ascii_lower(locale_lang(l))
    &&& i >= 0 ==> (i + 1 < l.len() && (is_ascii_upper(l[i + 1]) || is_ascii_digit(l[i + 1])))
}

pub fn is_valid_locale(locale: &str) -> (r: bool)
    ensures
        r == valid_locale(locale@),
{
    let l = chars_of(locale);
    let i = find_char(l.as_slice(), '_');
    proof {
        lemma_index_of(l@, '_');
    }
    let n: usize = match i {
        Some(i) => i,
        None => l.len(),
    };
    let ghost lang = locale_lang(l@);
    assert(lang == l@.take(n as int));
    if n == 0 {
        return false;
    }
    let mut k: usize = 0;
    while k < n
        invariant
            n <= l@.len(),
            l@ == locale@,
            lang == l@.take(n as int),
            lang == locale_lang(l@),
            k <= n,
            forall|j: int| 0 <= j < k ==> is_ascii_lower(#[trigger] l@[j]),
        decreases n - k,
    {
        if !('a' <= l[k] && l[k] <= 'z') {
            assert(lang[k as int] == l@[k as int]);
            assert(!is_ascii_lower(lang[k as int]));
            assert(!valid_locale(locale@));
            return false;
        }
        k += 1;
    }
    assert forall|j: int| 0 <= j < n implies is_ascii_lower(#[trigger] l@.take(n as int)[j]) by {
        assert(l@.take(n as int)[j] == l@[j]);
    }
    assert(l@.take(l@.len() as int) == l@);
    match i {
        None => true,
        Some(i) => {
            if i < l.len() && i + 1 < l.len() {
                let c = l[i + 1];
                ('A' <= c && c <= 'Z') || ('0' <= c && c <= '9')
            } else {
                false
            }
        },
    }
}

/// Index of the first character that is not an ASCII letter, or -1.
pub open spec fn first_non_alpha(s: Seq<char>) -> int
    decreases s.len(),
{
    if s.len() == 0 {
        -1
    } else if !is_ascii_alpha(s[0]) {
        0
    } else {
        let k = first_non_alpha(s.drop_first());
        if k < 0 {
            -1
        } else {
            k + 1
        }
    }
}

pub proof fn lemma_first_non_alpha(s: Seq<char>)
    ensures
        -1 <= first_non_alpha(s) < s.len(),
        first_non_alpha(s) >= 0 ==> !is_ascii_alpha(s[first_non_alpha(s)]),
        forall|k: int|
            0 <= k < s.len() && (first_non_alpha(s) < 0 || k < first_non_alpha(s)) ==> is_ascii_alpha(
                s[k],
            ),
    decreases s.len(),
{
    if s.len() > 0 && is_ascii_alpha(s[0]) {
        lemma_first_non_alpha(s.drop_first());
        assert forall|k: int|
            0 <= k < s.len() && (first_non_alpha(s) < 0 || k < first_non_alpha(s)) implies is_ascii_alpha(
            s[k],
        ) by {
            if k > 0 {
                assert(s[k] == s.drop_first()[k - 1]);
            }
        }
    }
}

/// What `char::to_uppercase` yields for `c`.
pub uninterp spec fn char_uppercase(c: char) -> Seq<char>;

/// Wraps `char::to_uppercase`: the characters of `c`'s uppercase mapping.
/// The contract gives them by name, and spells them out for ASCII only: a
/// lowercase letter becomes its capital, any other ASCII character stays.
#[verifier::external_body]
fn uppercase_chars(c: char) -> (r: Vec<char>)
    ensures
        r@ == char_uppercase(c),
        is_ascii_lower(c) ==> r@ == seq![((c as u32) - 32) as char],
        ((c as u32) < 128 && !is_ascii_lower(c)) ==> r@ == seq![c],
{
    c.to_uppercase().collect()
}

/// The uppercase mapping of `c`: for ASCII, a lowercase letter's capital,
/// or `c` itself; beyond ASCII, what `char::to_uppercase` yields.
pub open spec fn upper_of(c: char) -> Seq<char> {
    if is_ascii_lower(c) {
        seq![((c as u32) - 32) as char]
    } else if (c as u32) < 128 {
        seq![c]
    } else {
        char_uppercase(c)
    }
}

/// The characters of each item's uppercase mapping, in order.
pub open spec fn uppercased(s: Seq<char>) -> Seq<char>
    decreases s.len(),
{
    if s.len() == 0 {
        seq![]
    } else {
        uppercased(s.drop_last()) + upper_of(s.last())
    }
}

/// ASCII letters made lowercase.
pub open spec fn ascii_lowercased(s: Seq<char>) -> Seq<char> {
    s.map_values(|c: char| if is_ascii_upper(c) { ((c as u32) + 32) as char } else { c })
}

/// The suggestion for a mistyped locale: the language lowercased, `_`, then
/// the rest after the first non-letter, its first two characters uppercased;
/// none when either part is empty.
pub open spec fn suggestion(l: Seq<char>) -> Option<Seq<char>> {
    let k = first_non_alpha(l);
    if k < 0 {
        None
    } else {
        let lang = l.take(k);
        let territory = l.skip(k + 1);
        if lang.len() == 0 || territory.len() == 0 {
            None
        } else {
            let h = if territory.len() < 2 {
                territory.len() as int
            } else {
                2
            };
            Some(ascii_lowercased(lang) + seq!['_'] + uppercased(territory.take(h)) + territory.skip(h))
        }
    }
}

/// The separator before the territory is one byte long, so the text after it
/// starts on a character boundary (else the suggestion cannot be cut).
pub open spec fn suggestion_defined(l: Seq<char>) -> bool {
    let k = first_non_alpha(l);
    k >= 0 ==> (l[k] as u32) < 128
}

/// Whether a suggestion can be made for `locale` at all: the character after
/// its leading letters, if any, is one byte long.
pub fn suggestion_is_defined(locale: &str) -> (r: bool)
    ensures
        r == suggestion_defined(locale@),
{
    let l = chars_of(locale);
    proof {
        lemma_first_non_alpha(l@);
    }
    let mut k: usize = 0;
    while k < l.len() && ('a' <= l[k] && l[k] <= 'z' || 'A' <= l[k] && l[k] <= 'Z')
        invariant
            k <= l@.len(),
            l@ == locale@,
            first_non_alpha(l@) < 0 || k <= first_non_alpha(l@),
            -1 <= first_non_alpha(l@) < l@.len(),
            first_non_alpha(l@) >= 0 ==> !is_ascii_alpha(l@[first_non_alpha(l@)]),
            forall|j: int| 0 <= j < k ==> is_ascii_alpha(#[trigger] l@[j]),
        decreases l@.len() - k,
    {
        k += 1;
    }
    if k == l.len() {
        assert(first_non_alpha(l@) < 0);
        true
    } else {
        assert(first_non_alpha(l@) == k);
        (l[k] as u32) < 128
    }
}

/// Django's suggestion for a mistyped locale, e.g. `en-gb` becomes `en_GB`.
pub fn suggest_locale(locale: &str) -> (r: Option<String>)
    requires
        suggestion_defined(locale@),
    ensures
        match r {
            Some(s) => suggestion(locale@) == Some(s@),
            None => suggestion(locale@) is None,
        },
{
    let l = chars_of(locale);
    proof {
        lemma_first_non_alpha(l@);
    }
    let mut k: usize = 0;
    while k < l.len() && ('a' <= l[k] && l[k] <= 'z' || 'A' <= l[k] && l[k] <= 'Z')
        invariant
            k <= l@.len(),
            l@ == locale@,
            first_non_alpha(l@) < 0 || k <= first_non_alpha(l@),
            -1 <= first_non_alpha(l@) < l@.len(),
            first_non_alpha(l@) >= 0 ==> !is_ascii_alpha(l@[first_non_alpha(l@)]),
            forall|j: int| 0 <= j < k ==> is_ascii_alpha(#[trigger] l@[j]),
        decreases l@.len() - k,
    {
        k += 1;
    }
    proof {
        lemma_first_non_alpha(l@);
    }
    if k == l.len() {
        assert(first_non_alpha(l@) < 0);
        return None;
    }
    assert(first_non_alpha(l@) == k);
    if k == 0 || k + 1 == l.len() {
        return None;
    }
    let mut out: Vec<char> = Vec::new();
    let mut j: usize = 0;
    while j < k
        invariant
            j <= k < l@.len(),
            out@ == ascii_lowercased(l@.take(j as int)),
        decreases k - j,
    {
        let c = l[j];
        let d = if 'A' <= c && c <= 'Z' {
            ((c as u32) + 32) as u8 as char
        } else {
            c
        };
        assert(d == (if is_ascii_upper(c) {
            ((c as u32) + 32) as char
        } else {
            c
        })) by {
            if is_ascii_upper(c) {
                assert(((c as u32) + 32) < 256);
            }
        }
        out.push(d);
        assert(ascii_lowercased(l@.take(j + 1)) =~= ascii_lowercased(l@.take(j as int)).push(d));
        j += 1;
    }
    out.push('_');
    let t = &l.as_slice()[k + 1..l.len()];
    assert(t@ == l@.skip(k + 1));
    let m: usize = if t.len() < 2 {
        t.len()
    } else {
        2
    };
    let ghost head_start = out@;
    let mut i: usize = 0;
    assert(t@.take(0) =~= Seq::<char>::empty());
    while i < m
        invariant
            i <= m <= t@.len(),
            m <= 2,
            out@ == head_start + uppercased(t@.take(i as int)),
        decreases m - i,
    {
        let u = uppercase_chars(t[i]);
        assert(u@ == upper_of(t@[i as int]));
        out.extend_from_slice(u.as_slice());
        assert(t@.take(i + 1).drop_last() == t@.take(i as int));
        assert(t@.take(i + 1).last() == t@[i as int]);
        i += 1;
    }
    let rest = &t[m..t.len()];
    assert(rest@ == t@.skip(m as int));
    out.extend_from_slice(rest);
    Some(string_of(out.as_slice()))
}

/// The names that begin with two ASCII lowercase letters, as Django's
/// `[a-z]{2}` test of locale directories.
pub open spec fn locale_like(n: Seq<char>) -> bool {
    n.len() >= 2 && is_ascii_lower(n[0]) && is_ascii_lower(n[1])
}

/// The names that look like locales.
pub open spec fn locale_like_names(ns: Seq<Seq<char>>) -> Seq<Seq<char>>
    decreases ns.len(),
{
    if ns.len() == 0 {
        seq![]
    } else {
        let r = locale_like_names(ns.drop_last());
        if locale_like(ns.last()) {
            r.push(ns.last())
        } else {
            r
        }
    }
}

/// The locales present among the names of a locale directory's
/// subdirectories, sorted.
pub fn existing_locales(dir_names: &Vec<String>) -> (r: Vec<String>)
    ensures
        strings_view(r@) == sort_strs(locale_like_names(strings_view(dir_names@))),
{
    let ghost nv = strings_view(dir_names@);
    let mut keep: Vec<Vec<char>> = Vec::new();
    let mut i: usize = 0;
    assert(nv.take(0) =~= Seq::<Seq<char>>::empty());
    while i < dir_names.len()
        invariant
            i <= dir_names@.len(),
            nv == strings_view(dir_names@),
            seqs_of(keep@) == locale_like_names(nv.take(i as int)),
        decreases dir_names@.len() - i,
    {
        assert(nv.take(i + 1).drop_last() == nv.take(i as int));
        assert(nv.take(i + 1).last() == dir_names@[i as int]@);
        let n = chars_of(dir_names[i].as_str());
        if n.len() >= 2 && 'a' <= n[0] && n[0] <= 'z' && 'a' <= n[1] && n[1] <= 'z' {
            let ghost before = keep@;
            keep.push(n);
            assert(seqs_of(keep@) == seqs_of(before).push(dir_names@[i as int]@));
        }
        i += 1;
    }
    assert(nv.take(dir_names@.len() as int) == nv);
    let sorted = sort_strs_exec(&keep);
    strings_of(sorted.as_slice())
}

/// The items of `base` that `exclude` does not hold, in order.
pub open spec fn without_excluded(base: Seq<Seq<char>>, exclude: Seq<Seq<char>>) -> Seq<Seq<char>>
    decreases base.len(),
{
    if base.len() == 0 {
        seq![]
    } else {
        let r = without_excluded(base.drop_last(), exclude);
        if exclude.contains(base.last()) {
            r
        } else {
            r.push(base.last())
        }
    }
}

/// The locales a run is asked for: every existing one under `--all` (which
/// drops `--exclude`, as Django does); else those named, or every existing
/// one when none is named, less the excluded ones.
pub open spec fn selected_locales(
    all: bool,
    locales: Seq<Seq<char>>,
    exclude: Seq<Seq<char>>,
    existing: Seq<Seq<char>>,
) -> Seq<Seq<char>> {
    if all {
        existing
    } else {
        without_excluded(
            if locales.len() == 0 {
                existing
            } else {
                locales
            },
            exclude,
        )
    }
}

/// The selected locales that are valid, in order.
pub open spec fn valid_ones(ls: Seq<Seq<char>>) -> Seq<Seq<char>>
    decreases ls.len(),
{
    if ls.len() == 0 {
        seq![]
    } else {
        let r = valid_ones(ls.drop_last());
        if valid_locale(ls.last()) {
            r.push(ls.last())
        } else {
            r
        }
    }
}

/// The warning for an invalid locale, with the suggestion when that one is
/// valid.
pub open spec fn locale_warning(l: Seq<char>) -> Seq<char> {
    match suggestion(l) {
        Some(s) => if valid_locale(s) {
            "invalid locale "@ + l + ", did you mean "@ + s + "?"@
        } else {
            "invalid locale "@ + l
        },
        None => "invalid locale "@ + l,
    }
}

/// A warning for each invalid locale, in order.
pub open spec fn locale_warnings(ls: Seq<Seq<char>>) -> Seq<Seq<char>>
    decreases ls.len(),
{
    if ls.len() == 0 {
        seq![]
    } else {
        let r = locale_warnings(ls.drop_last());
        if valid_locale(ls.last()) {
            r
        } else {
            r.push(locale_warning(ls.last()))
        }
    }
}

fn contains_str(v: &Vec<String>, x: &str) -> (r: bool)
    ensures
        r == strings_view(v@).contains(x@),
{
    let xc = chars_of(x);
    let mut i: usize = 0;
    while i < v.len()
        invariant
            i <= v@.len(),
            xc@ == x@,
            forall|k: int| 0 <= k < i ==> v@[k]@ != x@,
        decreases v@.len() - i,
    {
        let c = chars_of(v[i].as_str());
        if crate::text::chars_eq(c.as_slice(), xc.as_slice()) {
            assert(strings_view(v@)[i as int] == x@);
            return true;
        }
        i += 1;
    }
    assert forall|k: int| 0 <= k < strings_view(v@).len() implies strings_view(v@)[k] != x@ by {
        assert(strings_view(v@)[k] == v@[k]@);
    }
    false
}

fn warning_for(l: &str) -> (r: String)
    requires
        !valid_locale(l@),
        suggestion_defined(l@),
    ensures
        r@ == locale_warning(l@),
{
    let mut out: Vec<char> = chars_of("invalid locale ");
    push_str(&mut out, l);
    match suggest_locale(l) {
        Some(s) => {
            if is_valid_locale(s.as_str()) {
                push_str(&mut out, ", did you mean ");
                push_str(&mut out, s.as_str());
                push_str(&mut out, "?");
            }
        },
        None => {},
    }
    string_of(out.as_slice())
}

/// The locales a run selects, in order: every existing one with `--all`,
/// else those given (or the existing ones when none is given) less the
/// excluded ones.
pub fn select_locales(
    all: bool,
    locales: &Vec<String>,
    exclude: &Vec<String>,
    existing: &Vec<String>,
) -> (r: Vec<String>)
    ensures
        strings_view(r@) == selected_locales(
            all,
            strings_view(locales@),
            strings_view(exclude@),
            strings_view(existing@),
        ),
{
    let base: &Vec<String> = if all {
        existing
    } else if locales.len() == 0 {
        existing
    } else {
        locales
    };
    let mut selected: Vec<String> = Vec::new();
    let ghost bv = strings_view(base@);
    let mut i: usize = 0;
    assert(bv.take(0) =~= Seq::<Seq<char>>::empty());
    while i < base.len()
        invariant
            i <= base@.len(),
            bv == strings_view(base@),
            all ==> strings_view(selected@) == bv.take(i as int),
            !all ==> strings_view(selected@) == without_excluded(
                bv.take(i as int),
                strings_view(exclude@),
            ),
        decreases base@.len() - i,
    {
        assert(bv.take(i + 1).drop_last() == bv.take(i as int));
        assert(bv.take(i + 1).last() == base@[i as int]@);
        let ghost before = selected@;
        if all || !contains_str(exclude, base[i].as_str()) {
            selected.push(base[i].clone());
            assert(strings_view(selected@) == strings_view(before).push(base@[i as int]@));
        }
        i += 1;
    }
    assert(bv.take(base@.len() as int) == bv);
    selected
}

/// The locales to process and a warning for each invalid one among those
/// selected, both in order.
pub fn resolve_locales(
    all: bool,
    locales: &Vec<String>,
    exclude: &Vec<String>,
    existing: &Vec<String>,
) -> (r: (Vec<String>, Vec<String>))
    requires
        forall|k: int|
            0 <= k < selected_locales(
                all,
                strings_view(locales@),
                strings_view(exclude@),
                strings_view(existing@),
            ).len() && !valid_locale(
                #[trigger] selected_locales(
                    all,
                    strings_view(locales@),
                    strings_view(exclude@),
                    strings_view(existing@),
                )[k],
            ) ==> suggestion_defined(
                selected_locales(
                    all,
                    strings_view(locales@),
                    strings_view(exclude@),
                    strings_view(existing@),
                )[k],
            ),
    ensures
        ({
            let sel = selected_locales(
                all,
                strings_view(locales@),
                strings_view(exclude@),
                strings_view(existing@),
            );
            &&& strings_view(r.0@) == valid_ones(sel)
            &&& strings_view(r.1@) == locale_warnings(sel)
        }),
{
    let ghost sel = selected_locales(
        all,
        strings_view(locales@),
        strings_view(exclude@),
        strings_view(existing@),
    );
    let selected = select_locales(all, locales, exclude, existing);
    let mut valid: Vec<String> = Vec::new();
    let mut warnings: Vec<String> = Vec::new();
    let mut j: usize = 0;
    assert(sel.take(0) =~= Seq::<Seq<char>>::empty());
    while j < selected.len()
        invariant
            j <= selected@.len(),
            strings_view(selected@) == sel,
            forall|k: int| 0 <= k < sel.len() && !valid_locale(#[trigger] sel[k]) ==> suggestion_defined(
                sel[k],
            ),
            strings_view(valid@) == valid_ones(sel.take(j as int)),
            strings_view(warnings@) == locale_warnings(sel.take(j as int)),
        decreases selected@.len() - j,
    {
        assert(sel.take(j + 1).drop_last() == sel.take(j as int));
        assert(sel.take(j + 1).last() == selected@[j as int]@);
        assert(sel[j as int] == selected@[j as int]@);
        if is_valid_locale(selected[j].as_str()) {
            let ghost before = valid@;
            valid.push(selected[j].clone());
            assert(strings_view(valid@) == strings_view(before).push(selected@[j as int]@));
        } else {
            let w = warning_for(selected[j].as_str());
            let ghost before = warnings@;
            warnings.push(w);
            assert(strings_view(warnings@) == strings_view(before).push(w@));
        }
        j += 1;
    }
    assert(sel.take(selected@.len() as int) == sel);
    (valid, warnings)
}


proof fn lemma_push_contains(r: Seq<Seq<char>>, x: Seq<char>, l: Seq<char>)
    ensures
        r.push(x).contains(l) <==> (r.contains(l) || x == l),
{
    if r.contains(l) {
        let w = choose|w: int| 0 <= w < r.len() && r[w] == l;
        assert(r.push(x)[w] == l);
    }
    if x == l {
        assert(r.push(x)[r.len() as int] == l);
    }
    if r.push(x).contains(l) && x != l {
        let w = choose|w: int| 0 <= w < r.push(x).len() && r.push(x)[w] == l;
        assert(w < r.len());
        assert(r[w] == l);
    }
}

proof fn lemma_last_contains(s: Seq<Seq<char>>, l: Seq<char>)
    requires
        s.len() > 0,
    ensures
        s.contains(l) <==> (s.drop_last().contains(l) || s.last() == l),
{
    lemma_push_contains(s.drop_last(), s.last(), l);
    assert(s.drop_last().push(s.last()) =~= s);
}

proof fn lemma_without_excluded(base: Seq<Seq<char>>, exclude: Seq<Seq<char>>, l: Seq<char>)
    ensures
        without_excluded(base, exclude).contains(l) <==> (base.contains(l) && !exclude.contains(l)),
    decreases base.len(),
{
    if base.len() > 0 {
        lemma_without_excluded(base.drop_last(), exclude, l);
        lemma_last_contains(base, l);
        lemma_push_contains(without_excluded(base.drop_last(), exclude), base.last(), l);
    }
}

/// Without `--all`, an excluded locale is never processed; a named one that
/// is not excluded is selected.
pub proof fn law_exclude_skips_locales(
    locales: Seq<Seq<char>>,
    exclude: Seq<Seq<char>>,
    existing: Seq<Seq<char>>,
    l: Seq<char>,
)
    ensures
        exclude.contains(l) ==> !selected_locales(false, locales, exclude, existing).contains(l),
        locales.contains(l) && !exclude.contains(l) ==> selected_locales(
            false,
            locales,
            exclude,
            existing,
        ).contains(l),
{
    let base = if locales.len() == 0 {
        existing
    } else {
        locales
    };
    lemma_without_excluded(base, exclude, l);
}

/// `--all` takes every existing locale, whatever `--exclude` says.
pub proof fn law_all_takes_every_locale(
    locales: Seq<Seq<char>>,
    exclude: Seq<Seq<char>>,
    existing: Seq<Seq<char>>,
)
    ensures
        selected_locales(true, locales, exclude, existing) == existing,
{
}

/// The locales processed are exactly the valid ones among those selected.
pub proof fn law_only_valid_locales(ls: Seq<Seq<char>>, l: Seq<char>)
    ensures
        valid_ones(ls).contains(l) <==> (ls.contains(l) && valid_locale(l)),
    decreases ls.len(),
{
    if ls.len() > 0 {
        law_only_valid_locales(ls.drop_last(), l);
        lemma_last_contains(ls, l);
        lemma_push_contains(valid_ones(ls.drop_last()), ls.last(), l);
    }
}

} // verus!
