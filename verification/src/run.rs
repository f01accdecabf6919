//! The decisions a run makes around extraction and merging: which options
//! are accepted, the defaults Django applies, where references point, how
//! messages are grouped per catalog, and whether a catalog changes.
use vstd::prelude::*;
use crate::text::{chars_eq, chars_of, push_str, replace, replace_seq, seqs_of, string_of};
use crate::extractor::{entry_views, strings_view, EntryView, TranslationEntry};
use crate::po::LocationMode;
use crate::walker::{components, components_exec, is_prefix_of, path_lt};
use crate::text::join_seq;

verus! {

/// The error when no locale is selected.
pub const NO_SELECTOR_ERROR: &'static str = "specify at least one of --locale, --exclude or --all";

/// The error for a domain other than `django` and `djangojs`.
pub const DOMAIN_ERROR: &'static str = "currently only the 'django' and 'djangojs' domains are supported";

/// A run must name locales, exclude some, or ask for all of them.
pub open spec fn selector_given(n_locales: nat, n_exclude: nat, all: bool) -> bool {
    n_locales > 0 || n_exclude > 0 || all
}

pub open spec fn domain_supported(domain: Seq<char>) -> bool {
    domain == "django"@ || domain == "djangojs"@
}

/// Checks the options that decide whether a run can start: `Err` carries the
/// message when no locale is selected, or else when the domain is unknown.
pub fn check_run_options(locales: &Vec<String>, exclude: &Vec<String>, all: bool, domain: &str) -> (r:
    Result<(), String>)
    ensures
        match r {
            Ok(()) => selector_given(locales@.len(), exclude@.len(), all) && domain_supported(
                domain@,
            ),
            Err(e) => if !selector_given(locales@.len(), exclude@.len(), all) {
                e@ == NO_SELECTOR_ERROR@
            } else {
                !domain_supported(domain@) && e@ == DOMAIN_ERROR@
            },
        },
{
    if locales.len() == 0 && exclude.len() == 0 && !all {
        return Err(NO_SELECTOR_ERROR.to_string());
    }
    let d = chars_of(domain);
    let dj = chars_of("django");
    let djs = chars_of("djangojs");
    if !(chars_eq(d.as_slice(), dj.as_slice()) || chars_eq(d.as_slice(), djs.as_slice())) {
        return Err(DOMAIN_ERROR.to_string());
    }
    Ok(())
}

/// The extensions examined: those given, else `js` for `djangojs` and
/// `html`, `txt`, `py` otherwise.
pub open spec fn extensions_spec(domain: Seq<char>, given: Seq<Seq<char>>) -> Seq<Seq<char>> {
    if given.len() > 0 {
        given
    } else if domain == "djangojs"@ {
        seq!["js"@]
    } else {
        seq!["html"@, "txt"@, "py"@]
    }
}

pub fn extensions_for(domain: &str, given: &Vec<String>) -> (r: Vec<String>)
    ensures
        strings_view(r@) == extensions_spec(domain@, strings_view(given@)),
{
    if given.len() > 0 {
        return crate::catalog::clone_strings(given);
    }
    let d = chars_of(domain);
    let djs = chars_of("djangojs");
    let mut out: Vec<String> = Vec::new();
    if chars_eq(d.as_slice(), djs.as_slice()) {
        out.push("js".to_string());
        assert(strings_view(out@) =~= seq!["js"@]);
    } else {
        out.push("html".to_string());
        out.push("txt".to_string());
        out.push("py".to_string());
        assert(strings_view(out@) =~= seq!["html"@, "txt"@, "py"@]);
    }
    out
}

/// `items` with each of `more` not yet among them appended, in order.
pub open spec fn with_missing(items: Seq<Seq<char>>, more: Seq<Seq<char>>) -> Seq<Seq<char>>
    decreases more.len(),
{
    if more.len() == 0 {
        items
    } else {
        let r = with_missing(items, more.drop_last());
        if r.contains(more.last()) {
            r
        } else {
            r.push(more.last())
        }
    }
}

/// Django's default ignore patterns.
pub open spec fn default_ignores() -> Seq<Seq<char>> {
    seq!["CVS"@, ".*"@, "*~"@, "*.pyc"@]
}

fn contains_string(v: &Vec<String>, x: &str) -> (r: bool)
    ensures
        r == strings_view(v@).contains(x@),
{
    let xc = chars_of(x);
    let mut i: usize = 0;
    while i < v.len()
        invariant
            i <= v@.len(),
            xc@ == x@,
            forall|k: int| 0 <= k < i ==> v@[k]@ != x@,
        decreases v@.len() - i,
    {
        let c = chars_of(v[i].as_str());
        if chars_eq(c.as_slice(), xc.as_slice()) {
            assert(strings_view(v@)[i as int] == x@);
            return true;
        }
        i += 1;
    }
    assert forall|k: int| 0 <= k < strings_view(v@).len() implies strings_view(v@)[k] != x@ by {
        assert(strings_view(v@)[k] == v@[k]@);
    }
    false
}

/// Appends each of `more` that `items` does not hold yet.
pub fn add_missing_strings(items: &mut Vec<String>, more: &Vec<String>)
    ensures
        strings_view(final(items)@) == with_missing(strings_view(old(items)@), strings_view(more@)),
{
    let ghost start = strings_view(items@);
    let ghost mv = strings_view(more@);
    let mut i: usize = 0;
    assert(mv.take(0) =~= Seq::<Seq<char>>::empty());
    while i < more.len()
        invariant
            i <= more@.len(),
            mv == strings_view(more@),
            strings_view(items@) == with_missing(start, mv.take(i as int)),
        decreases more@.len() - i,
    {
        assert(mv.take(i + 1).drop_last() == mv.take(i as int));
        assert(mv.take(i + 1).last() == more@[i as int]@);
        if !contains_string(items, more[i].as_str()) {
            let ghost before = items@;
            items.push(more[i].clone());
            assert(strings_view(items@) == strings_view(before).push(more@[i as int]@));
        }
        i += 1;
    }
    assert(mv.take(more@.len() as int) == mv);
}

/// The ignore patterns of a run: those given, then Django's defaults not
/// already given, unless the defaults are turned off.
pub fn ignore_patterns_for(given: &Vec<String>, no_default_ignore: bool) -> (r: Vec<String>)
    ensures
        strings_view(r@) == if no_default_ignore {
            strings_view(given@)
        } else {
            with_missing(strings_view(given@), default_ignores())
        },
{
    let mut out = crate::catalog::clone_strings(given);
    if !no_default_ignore {
        let mut d: Vec<String> = Vec::new();
        d.push("CVS".to_string());
        d.push(".*".to_string());
        d.push("*~".to_string());
        d.push("*.pyc".to_string());
        assert(strings_view(d@) =~= default_ignores());
        add_missing_strings(&mut out, &d);
    }
    out
}

/// How `#:` lines are written: never under `--no-location`, else as
/// `--add-location` says, in full by default.
pub open spec fn location_mode_spec(no_location: bool, add_location: Option<LocationMode>) -> LocationMode {
    if no_location {
        LocationMode::Never
    } else {
        match add_location {
            Some(m) => m,
            None => LocationMode::Full,
        }
    }
}

pub fn location_mode_for(no_location: bool, add_location: Option<LocationMode>) -> (r: LocationMode)
    ensures
        r == location_mode_spec(no_location, add_location),
{
    if no_location {
        LocationMode::Never
    } else {
        match add_location {
            Some(m) => m,
            None => LocationMode::Full,
        }
    }
}

/// The text written to a catalog file: the merged catalog and a newline.
pub open spec fn file_text_spec(merged: Seq<char>) -> Seq<char> {
    merged + seq!['\n']
}

pub fn catalog_file_text(merged: &str) -> (r: String)
    ensures
        r@ == file_text_spec(merged@),
{
    let mut out = chars_of(merged);
    out.push('\n');
    string_of(out.as_slice())
}

/// A catalog is out of sync when its file (empty when missing) differs from
/// what would be written.
pub open spec fn out_of_sync_spec(existing: Option<Seq<char>>, new_text: Seq<char>) -> bool {
    match existing {
        Some(e) => e != new_text,
        None => new_text.len() != 0,
    }
}

pub fn out_of_sync(existing: Option<&str>, new_text: &str) -> (r: bool)
    ensures
        r == out_of_sync_spec(crate::catalog::opt_str_view(existing), new_text@),
{
    let n = chars_of(new_text);
    match existing {
        Some(e) => {
            let ec = chars_of(e);
            !chars_eq(ec.as_slice(), n.as_slice())
        },
        None => n.len() != 0,
    }
}

/// A catalog is written when it has messages, or when `--force-po` asks.
pub fn should_write(n_entries: usize, force_po: bool) -> (r: bool)
    ensures
        r == (n_entries > 0 || force_po),
{
    n_entries > 0 || force_po
}

/// A path's components after those of `root`, joined by `/`; the path
/// unchanged when `root` does not enclose it.
pub open spec fn relative_path_spec(path: Seq<char>, root: Seq<char>) -> Seq<char> {
    let pc = components(path);
    let rc = components(root);
    if is_prefix_of(rc, pc) {
        join_seq(pc.skip(rc.len() as int), seq!['/'])
    } else {
        path
    }
}

/// Each reference with the file's full path written as its path relative to
/// the root.
pub open spec fn relative_entry(e: EntryView, full: Seq<char>, rel: Seq<char>) -> EntryView {
    EntryView {
        references: e.references.map_values(|r: Seq<char>| replace_seq(r, full, rel)),
        ..e
    }
}

pub open spec fn relative_entries(es: Seq<EntryView>, path: Seq<char>, root: Seq<char>) -> Seq<
    EntryView,
> {
    es.map_values(|e: EntryView| relative_entry(e, path, relative_path_spec(path, root)))
}

fn relative_path_exec(path: &[char], root: &str) -> (r: Vec<char>)
    ensures
        r@ == relative_path_spec(path@, root@),
{
    let pc = components_exec(path);
    let rcs = chars_of(root);
    let rc = components_exec(rcs.as_slice());
    if rc.len() > pc.len() {
        return vstd::slice::slice_to_vec(path);
    }
    let mut i: usize = 0;
    while i < rc.len()
        invariant
            rc@.len() <= pc@.len(),
            seqs_of(pc@) == components(path@),
            seqs_of(rc@) == components(root@),
            i <= rc@.len(),
            forall|k: int| 0 <= k < i ==> rc@[k]@ == pc@[k]@,
        decreases rc@.len() - i,
    {
        if !chars_eq(rc[i].as_slice(), pc[i].as_slice()) {
            assert(seqs_of(pc@).take(rc@.len() as int)[i as int] != seqs_of(rc@)[i as int]);
            return vstd::slice::slice_to_vec(path);
        }
        i += 1;
    }
    assert(seqs_of(pc@).take(rc@.len() as int) =~= seqs_of(rc@));
    let rest = &pc.as_slice()[rc.len()..pc.len()];
    assert(seqs_of(rest@) =~= seqs_of(pc@).skip(rc@.len() as int));
    let sep: [char; 1] = ['/'];
    assert(sep@ =~= seq!['/']);
    crate::text::join(rest, sep.as_slice())
}

/// The messages of one file with their references made relative to the
/// root.
pub fn relative_references(entries: Vec<TranslationEntry>, path: &str, root: &str) -> (r: Vec<
    TranslationEntry,
>)
    ensures
        entry_views(r@) == relative_entries(entry_views(entries@), path@, root@),
{
    let full = chars_of(path);
    let rel = relative_path_exec(full.as_slice(), root);
    let ghost ev = entry_views(entries@);
    let mut out: Vec<TranslationEntry> = Vec::new();
    let mut rest = entries;
    let ghost mut taken: Seq<EntryView> = Seq::empty();
    assert(ev =~= taken + entry_views(rest@));
    assert(entry_views(out@) =~= relative_entries(taken, path@, root@));
    while rest.len() > 0
        invariant
            ev == taken + entry_views(rest@),
            rel@ == relative_path_spec(path@, root@),
            full@ == path@,
            entry_views(out@) == relative_entries(taken, path@, root@),
        decreases rest@.len(),
    {
        let ghost old_rest = entry_views(rest@);
        let mut e = rest.remove(0);
        let ghost ev0 = e@;
        assert(old_rest =~= seq![ev0] + entry_views(rest@));
        let mut refs: Vec<String> = Vec::new();
        let mut k: usize = 0;
        while k < e.references.len()
            invariant
                k <= e.references@.len(),
                e@ == ev0,
                rel@ == relative_path_spec(path@, root@),
                full@ == path@,
                strings_view(refs@) == strings_view(e.references@).take(k as int).map_values(
                    |r: Seq<char>| replace_seq(r, path@, rel@),
                ),
            decreases e.references@.len() - k,
        {
            let rc = chars_of(e.references[k].as_str());
            let nr = if full.len() == 0 {
                rc
            } else {
                replace(rc.as_slice(), full.as_slice(), rel.as_slice())
            };
            let ghost before = refs@;
            refs.push(string_of(nr.as_slice()));
            assert(strings_view(refs@) == strings_view(before).push(nr@));
            assert(strings_view(e.references@).take(k + 1).map_values(
                |r: Seq<char>| replace_seq(r, path@, rel@),
            ) =~= strings_view(e.references@).take(k as int).map_values(
                |r: Seq<char>| replace_seq(r, path@, rel@),
            ).push(replace_seq(e.references@[k as int]@, path@, rel@)));
            k += 1;
        }
        assert(strings_view(e.references@).take(e.references@.len() as int) == strings_view(
            e.references@,
        ));
        e.references = refs;
        assert(e@ == relative_entry(ev0, path@, relative_path_spec(path@, root@)));
        let ghost before = entry_views(out@);
        out.push(e);
        proof {
            taken = taken.push(ev0);
        }
        assert(entry_views(out@) =~= relative_entries(taken, path@, root@)) by {
            assert(entry_views(out@) =~= before.push(e@));
        }
        assert(ev =~= taken + entry_views(rest@));
    }
    assert(entry_views(rest@) =~= Seq::<EntryView>::empty());
    assert(ev =~= taken);
    out
}


/// Position of the group whose dir is the same path as `dir`, or -1.
pub open spec fn group_index(groups: Seq<(Seq<char>, Seq<EntryView>)>, dir: Seq<char>) -> int
    decreases groups.len(),
{
    if groups.len() == 0 {
        -1
    } else if components(groups[0].0) == components(dir) {
        0
    } else {
        let k = group_index(groups.drop_first(), dir);
        if k < 0 {
            -1
        } else {
            k + 1
        }
    }
}

/// Where a new dir goes among groups ordered by path: before the first
/// greater one.
pub open spec fn group_pos(groups: Seq<(Seq<char>, Seq<EntryView>)>, dir: Seq<char>) -> int
    decreases groups.len(),
{
    if groups.len() == 0 {
        0
    } else if path_lt(dir, groups[0].0) {
        0
    } else {
        1 + group_pos(groups.drop_first(), dir)
    }
}

pub proof fn lemma_group_index(groups: Seq<(Seq<char>, Seq<EntryView>)>, dir: Seq<char>)
    ensures
        -1 <= group_index(groups, dir) < groups.len(),
        0 <= group_pos(groups, dir) <= groups.len(),
    decreases groups.len(),
{
    if groups.len() > 0 {
        lemma_group_index(groups.drop_first(), dir);
    }
}

/// The groups after taking in one file's messages: a dir already present
/// (as the same path) gets them appended; a new dir takes its place in path
/// order.
pub open spec fn add_to_groups(
    groups: Seq<(Seq<char>, Seq<EntryView>)>,
    dir: Seq<char>,
    es: Seq<EntryView>,
) -> Seq<(Seq<char>, Seq<EntryView>)> {
    let i = group_index(groups, dir);
    if i >= 0 {
        groups.update(i, (groups[i].0, groups[i].1 + es))
    } else {
        groups.insert(group_pos(groups, dir), (dir, es))
    }
}

/// Messages grouped by catalog dir, in path order; each group keeps the
/// order in which they came.
pub open spec fn grouped(pairs: Seq<(Seq<char>, Seq<EntryView>)>) -> Seq<(Seq<char>, Seq<EntryView>)>
    decreases pairs.len(),
{
    if pairs.len() == 0 {
        seq![]
    } else {
        add_to_groups(grouped(pairs.drop_last()), pairs.last().0, pairs.last().1)
    }
}

pub open spec fn group_views(g: Seq<(String, Vec<TranslationEntry>)>) -> Seq<
    (Seq<char>, Seq<EntryView>),
> {
    g.map_values(|p: (String, Vec<TranslationEntry>)| (p.0@, entry_views(p.1@)))
}

fn same_path(a: &[char], b: &[char]) -> (r: bool)
    ensures
        r == (components(a@) == components(b@)),
{
    let ca = components_exec(a);
    let cb = components_exec(b);
    if ca.len() != cb.len() {
        assert(seqs_of(ca@).len() != seqs_of(cb@).len());
        return false;
    }
    let mut i: usize = 0;
    while i < ca.len()
        invariant
            ca@.len() == cb@.len(),
            seqs_of(ca@) == components(a@),
            seqs_of(cb@) == components(b@),
            i <= ca@.len(),
            forall|k: int| 0 <= k < i ==> ca@[k]@ == cb@[k]@,
        decreases ca@.len() - i,
    {
        if !chars_eq(ca[i].as_slice(), cb[i].as_slice()) {
            assert(seqs_of(ca@)[i as int] != seqs_of(cb@)[i as int]);
            return false;
        }
        i += 1;
    }
    assert(seqs_of(ca@) =~= seqs_of(cb@));
    true
}

/// Groups the messages of each file by the catalog dir it was assigned,
/// dirs in path order, each group's messages in the order given.
pub fn group_by_locale_dir(pairs: Vec<(String, Vec<TranslationEntry>)>) -> (r: Vec<
    (String, Vec<TranslationEntry>),
>)
    ensures
        group_views(r@) == grouped(group_views(pairs@)),
{
    let ghost pv = group_views(pairs@);
    let mut groups: Vec<(String, Vec<TranslationEntry>)> = Vec::new();
    let mut rest = pairs;
    let ghost mut taken: Seq<(Seq<char>, Seq<EntryView>)> = Seq::empty();
    assert(pv =~= taken + group_views(rest@));
    assert(group_views(groups@) =~= grouped(taken));
    while rest.len() > 0
        invariant
            pv == taken + group_views(rest@),
            group_views(groups@) == grouped(taken),
        decreases rest@.len(),
    {
        let ghost old_rest = group_views(rest@);
        let (dir, mut es) = rest.remove(0);
        let ghost item = (dir@, entry_views(es@));
        assert(old_rest =~= seq![item] + group_views(rest@));
        let ghost gv = group_views(groups@);
        proof {
            lemma_group_index(gv, dir@);
        }
        let dc = chars_of(dir.as_str());
        let mut j: usize = 0;
        assert(gv.skip(0) == gv);
        while j < groups.len() && !same_path(chars_of(groups[j].0.as_str()).as_slice(), dc.as_slice())
            invariant
                gv == group_views(groups@),
                dc@ == dir@,
                j <= groups@.len(),
                group_index(gv, dir@) == if group_index(gv.skip(j as int), dir@) < 0 {
                    -1
                } else {
                    j + group_index(gv.skip(j as int), dir@)
                },
            decreases groups@.len() - j,
        {
            assert(gv.skip(j as int)[0] == gv[j as int]);
            assert(gv.skip(j as int).drop_first() == gv.skip(j + 1));
            j += 1;
        }
        if j < groups.len() {
            assert(gv.skip(j as int)[0] == gv[j as int]);
            assert(group_index(gv, dir@) == j);
            let (gd, mut ges) = groups.remove(j);
            let ghost g0 = entry_views(ges@);
            assert(gv[j as int] == (gd@, g0));
            let ghost e0 = entry_views(es@);
            ges.append(&mut es);
            assert(entry_views(ges@) =~= g0 + e0);
            groups.insert(j, (gd, ges));
            assert(group_views(groups@) =~= gv.update(j as int, (gv[j as int].0, gv[j as int].1 + e0)));
        } else {
            assert(gv.skip(j as int) =~= Seq::<(Seq<char>, Seq<EntryView>)>::empty());
            assert(group_index(gv, dir@) == -1);
            let mut k: usize = 0;
            assert(gv.skip(0) == gv);
            while k < groups.len() && !crate::walker::path_lt_exec(
                dc.as_slice(),
                chars_of(groups[k].0.as_str()).as_slice(),
            )
                invariant
                    gv == group_views(groups@),
                    dc@ == dir@,
                    k <= groups@.len(),
                    group_pos(gv, dir@) == k + group_pos(gv.skip(k as int), dir@),
                decreases groups@.len() - k,
            {
                assert(gv.skip(k as int)[0] == gv[k as int]);
                assert(gv.skip(k as int).drop_first() == gv.skip(k + 1));
                k += 1;
            }
            proof {
                if k < groups@.len() {
                    assert(gv.skip(k as int)[0] == gv[k as int]);
                }
            }
            groups.insert(k, (dir, es));
            assert(group_views(groups@) =~= gv.insert(k as int, item));
        }
        proof {
            assert(taken.push(item).drop_last() == taken);
            taken = taken.push(item);
        }
        assert(pv =~= taken + group_views(rest@));
    }
    assert(group_views(rest@) =~= Seq::<(Seq<char>, Seq<EntryView>)>::empty());
    assert(pv =~= taken);
    groups
}

/// Where a catalog lives: `dir/locale/LC_MESSAGES/domain.po`.
pub open spec fn catalog_path_spec(dir: Seq<char>, locale: Seq<char>, domain: Seq<char>) -> Seq<char> {
    crate::walker::join_path(
        crate::walker::join_path(crate::walker::join_path(dir, locale), "LC_MESSAGES"@),
        domain + ".po"@,
    )
}

pub fn catalog_path(dir: &str, locale: &str, domain: &str) -> (r: String)
    ensures
        r@ == catalog_path_spec(dir@, locale@, domain@),
{
    let a = crate::walker::join_path_exec(dir, locale);
    let a = string_of(a.as_slice());
    let b = crate::walker::join_path_exec(a.as_str(), "LC_MESSAGES");
    let b = string_of(b.as_slice());
    let mut name = chars_of(domain);
    push_str(&mut name, ".po");
    let name = string_of(name.as_slice());
    let c = crate::walker::join_path_exec(b.as_str(), name.as_str());
    string_of(c.as_slice())
}

} // verus!
