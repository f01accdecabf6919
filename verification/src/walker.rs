//! The files a run examines and the locale directory each one's messages go
//! to. Paths are `/`-separated text, as the directory walk reports them
//! (absolute, without `.` or `..` pieces); the walk itself is I/O and is made
//! by the caller, which hands over what it saw.
use vstd::prelude::*;
use crate::text::{chars_of, has_prefix, has_suffix, push_str, seqs_of, split_char, split_on, string_of};
use crate::po::{str_lt, str_lt_exec};
use crate::extractor::strings_view;

verus! {

/// A source file paired with the locale directory its messages belong to.
pub struct TranslatableFile {
    pub path: String,
    pub locale_dir: String,
}

/// What the walk of a project looks at, and where catalogs may live.
pub struct FileWalker {
    pub root: String,
    pub extensions: Vec<String>,
    pub ignore_patterns: Vec<String>,
    /// Locale dirs given up front (`--locale-dir`, and Django's LOCALE_PATHS).
    pub locale_paths: Vec<String>,
    /// Discover `locale/` dirs during the walk, the way Django does.
    pub discover_locale_dirs: bool,
    pub follow_symlinks: bool,
}

/// What a walked path is.
#[derive(Clone, Copy, PartialEq, Eq, Debug)]
pub enum EntryKind {
    Dir,
    File,
    Other,
}

/// One path the walk reported.
pub struct WalkedEntry {
    pub path: String,
    pub kind: EntryKind,
}

/// The component standing for the root of an absolute path.
pub open spec fn root_component() -> Seq<char> {
    seq!['/']
}

/// The non-empty pieces.
pub open spec fn nonempty_pieces(ps: Seq<Seq<char>>) -> Seq<Seq<char>>
    decreases ps.len(),
{
    if ps.len() == 0 {
        seq![]
    } else {
        let r = nonempty_pieces(ps.drop_last());
        if ps.last().len() > 0 {
            r.push(ps.last())
        } else {
            r
        }
    }
}

/// The components of a path: the root of an absolute path, then the
/// non-empty pieces between separators.
pub open spec fn components(p: Seq<char>) -> Seq<Seq<char>> {
    let pieces = nonempty_pieces(split_on(p, '/'));
    if has_prefix(p, seq!['/']) {
        seq![root_component()] + pieces
    } else {
        pieces
    }
}

/// Order of components: the root first, then names by their text.
pub open spec fn component_lt(a: Seq<char>, b: Seq<char>) -> bool {
    if a == root_component() {
        b != root_component()
    } else if b == root_component() {
        false
    } else {
        str_lt(a, b)
    }
}

/// `Path`'s order: its components compared one by one.
pub open spec fn components_lt(a: Seq<Seq<char>>, b: Seq<Seq<char>>) -> bool
    decreases a.len(),
{
    if a.len() == 0 {
        b.len() > 0
    } else if b.len() == 0 {
        false
    } else if a[0] != b[0] {
        component_lt(a[0], b[0])
    } else {
        components_lt(a.drop_first(), b.drop_first())
    }
}

pub open spec fn path_lt(a: Seq<char>, b: Seq<char>) -> bool {
    components_lt(components(a), components(b))
}

/// Where `x` goes among sorted paths: after every path not greater.
pub open spec fn path_insert_pos(s: Seq<Seq<char>>, x: Seq<char>) -> int
    decreases s.len(),
{
    if s.len() == 0 {
        0
    } else if path_lt(x, s[0]) {
        0
    } else {
        1 + path_insert_pos(s.drop_first(), x)
    }
}

/// The paths stably sorted in `Path`'s order.
pub open spec fn sort_paths(s: Seq<Seq<char>>) -> Seq<Seq<char>>
    decreases s.len(),
{
    if s.len() == 0 {
        s
    } else {
        let t = sort_paths(s.drop_last());
        t.insert(path_insert_pos(t, s.last()), s.last())
    }
}

/// Where `x` goes among paths ordered deepest first: after every path at
/// least as deep.
pub open spec fn depth_insert_pos(s: Seq<Seq<char>>, x: Seq<char>) -> int
    decreases s.len(),
{
    if s.len() == 0 {
        0
    } else if components(s[0]).len() < components(x).len() {
        0
    } else {
        1 + depth_insert_pos(s.drop_first(), x)
    }
}

/// The paths stably sorted deepest first.
pub open spec fn sort_deepest_first(s: Seq<Seq<char>>) -> Seq<Seq<char>>
    decreases s.len(),
{
    if s.len() == 0 {
        s
    } else {
        let t = sort_deepest_first(s.drop_last());
        t.insert(depth_insert_pos(t, s.last()), s.last())
    }
}

/// The components of the directory holding a path; none for a path without
/// components or the root alone.
pub open spec fn parent_components(p: Seq<char>) -> Option<Seq<Seq<char>>> {
    let cs = components(p);
    if cs.len() == 0 || cs == seq![root_component()] {
        None
    } else {
        Some(cs.drop_last())
    }
}

pub open spec fn is_prefix_of(a: Seq<Seq<char>>, b: Seq<Seq<char>>) -> bool {
    a.len() <= b.len() && b.take(a.len() as int) == a
}

/// The first locale dir of `search` whose parent encloses the file's
/// directory: the `locale/` of the app the file belongs to.
pub open spec fn locale_dir_for_spec(file: Seq<char>, search: Seq<Seq<char>>) -> Option<Seq<char>>
    decreases search.len(),
{
    match parent_components(file) {
        None => None,
        Some(dir) => if search.len() == 0 {
            None
        } else {
            let c = search[0];
            if parent_components(c) matches Some(p) && is_prefix_of(p, dir) {
                Some(c)
            } else {
                locale_dir_for_spec(file, search.drop_first())
            }
        },
    }
}

/// `Path::join` with a relative name.
pub open spec fn join_path(base: Seq<char>, name: Seq<char>) -> Seq<char> {
    if base.len() == 0 || has_suffix(base, seq!['/']) {
        base + name
    } else {
        base + seq!['/'] + name
    }
}

pub open spec fn walked_views(v: Seq<WalkedEntry>) -> Seq<(Seq<char>, EntryKind)> {
    v.map_values(|e: WalkedEntry| (e.path@, e.kind))
}

/// The `locale/` directories the walk came across, in walk order, when they
/// are looked for.
pub open spec fn discovered_dirs(es: Seq<(Seq<char>, EntryKind)>, discover: bool) -> Seq<Seq<char>>
    decreases es.len(),
{
    if es.len() == 0 {
        seq![]
    } else {
        let r = discovered_dirs(es.drop_last(), discover);
        let (p, k) = es.last();
        let cs = components(p);
        if discover && k == EntryKind::Dir && cs.len() > 0 && cs.last() == "locale"@ {
            r.push(p)
        } else {
            r
        }
    }
}

/// The files the walk came across, in walk order; when locale dirs are
/// looked for, none inside one.
pub open spec fn walked_files(es: Seq<(Seq<char>, EntryKind)>, discover: bool) -> Seq<Seq<char>>
    decreases es.len(),
{
    if es.len() == 0 {
        seq![]
    } else {
        let r = walked_files(es.drop_last(), discover);
        let (p, k) = es.last();
        if k == EntryKind::File && !(discover && components(p).contains("locale"@)) {
            r.push(p)
        } else {
            r
        }
    }
}

pub struct WalkerView {
    pub root: Seq<char>,
    pub extensions: Seq<Seq<char>>,
    pub ignore_patterns: Seq<Seq<char>>,
    pub locale_paths: Seq<Seq<char>>,
    pub discover_locale_dirs: bool,
    pub follow_symlinks: bool,
}

impl View for FileWalker {
    type V = WalkerView;

    open spec fn view(&self) -> WalkerView {
        WalkerView {
            root: self.root@,
            extensions: strings_view(self.extensions@),
            ignore_patterns: strings_view(self.ignore_patterns@),
            locale_paths: strings_view(self.locale_paths@),
            discover_locale_dirs: self.discover_locale_dirs,
            follow_symlinks: self.follow_symlinks,
        }
    }
}

/// The locale dirs searched, nearest first: the discovered ones deepest
/// first, then those given.
pub open spec fn search_dirs(w: WalkerView, es: Seq<(Seq<char>, EntryKind)>) -> Seq<Seq<char>> {
    sort_deepest_first(discovered_dirs(es, w.discover_locale_dirs)) + w.locale_paths
}

/// Where messages go when no locale dir encloses a file: the first given
/// locale dir, else `locale` under the root.
pub open spec fn default_locale_dir(w: WalkerView) -> Seq<char> {
    if w.locale_paths.len() > 0 {
        w.locale_paths[0]
    } else {
        join_path(w.root, "locale"@)
    }
}

/// Each walked file, sorted, with its locale dir.
pub open spec fn assigned_files(w: WalkerView, es: Seq<(Seq<char>, EntryKind)>) -> Seq<
    (Seq<char>, Seq<char>),
> {
    let search = search_dirs(w, es);
    sort_paths(walked_files(es, w.discover_locale_dirs)).map_values(
        |f: Seq<char>|
            (
                f,
                match locale_dir_for_spec(f, search) {
                    Some(d) => d,
                    None => default_locale_dir(w),
                },
            ),
    )
}

pub open spec fn file_views(v: Seq<TranslatableFile>) -> Seq<(Seq<char>, Seq<char>)> {
    v.map_values(|t: TranslatableFile| (t.path@, t.locale_dir@))
}

/// The components of a path.
pub fn components_exec(p: &[char]) -> (r: Vec<Vec<char>>)
    ensures
        seqs_of(r@) == components(p@),
{
    let pieces = split_char(p, '/');
    let ghost pv = seqs_of(pieces@);
    let mut out: Vec<Vec<char>> = Vec::new();
    let slash: [char; 1] = ['/'];
    assert(slash@ =~= seq!['/']);
    let absolute = crate::text::starts_with(p, slash.as_slice());
    if absolute {
        out.push(vec!['/']);
        assert(seqs_of(out@) =~= seq![root_component()]);
    }
    let ghost start = seqs_of(out@);
    let mut i: usize = 0;
    assert(pv.take(0) =~= Seq::<Seq<char>>::empty());
    assert(seqs_of(out@) =~= start + nonempty_pieces(pv.take(0)));
    while i < pieces.len()
        invariant
            i <= pieces@.len(),
            pv == seqs_of(pieces@),
            seqs_of(out@) == start + nonempty_pieces(pv.take(i as int)),
        decreases pieces@.len() - i,
    {
        assert(pv.take(i + 1).drop_last() == pv.take(i as int));
        assert(pv.take(i + 1).last() == pieces@[i as int]@);
        if pieces[i].len() > 0 {
            let ghost before = out@;
            out.push(vstd::slice::slice_to_vec(pieces[i].as_slice()));
            assert(seqs_of(out@) =~= seqs_of(before).push(pieces@[i as int]@));
        }
        assert(seqs_of(out@) =~= start + nonempty_pieces(pv.take(i + 1)));
        i += 1;
    }
    assert(pv.take(pieces@.len() as int) == pv);
    out
}

fn is_root(c: &[char]) -> (r: bool)
    ensures
        r == (c@ == root_component()),
{
    if c.len() == 1 && c[0] == '/' {
        assert(c@ =~= root_component());
        true
    } else {
        false
    }
}

fn component_lt_exec(a: &[char], b: &[char]) -> (r: bool)
    ensures
        r == component_lt(a@, b@),
{
    if is_root(a) {
        !is_root(b)
    } else if is_root(b) {
        false
    } else {
        str_lt_exec(a, b)
    }
}

fn components_lt_exec(a: &Vec<Vec<char>>, b: &Vec<Vec<char>>) -> (r: bool)
    ensures
        r == components_lt(seqs_of(a@), seqs_of(b@)),
{
    let ghost av = seqs_of(a@);
    let ghost bv = seqs_of(b@);
    let mut i: usize = 0;
    assert(av.skip(0) == av && bv.skip(0) == bv);
    loop
        invariant
            i <= a@.len(),
            i <= b@.len(),
            av == seqs_of(a@),
            bv == seqs_of(b@),
            components_lt(av, bv) == components_lt(av.skip(i as int), bv.skip(i as int)),
        decreases a@.len() - i,
    {
        if i == a.len() {
            return i < b.len();
        }
        if i == b.len() {
            return false;
        }
        assert(av.skip(i as int)[0] == a@[i as int]@);
        assert(bv.skip(i as int)[0] == b@[i as int]@);
        if !crate::text::chars_eq(a[i].as_slice(), b[i].as_slice()) {
            return component_lt_exec(a[i].as_slice(), b[i].as_slice());
        }
        assert(av.skip(i as int).drop_first() == av.skip(i + 1));
        assert(bv.skip(i as int).drop_first() == bv.skip(i + 1));
        i += 1;
    }
}

pub fn path_lt_exec(a: &[char], b: &[char]) -> (r: bool)
    ensures
        r == path_lt(a@, b@),
{
    let ca = components_exec(a);
    let cb = components_exec(b);
    components_lt_exec(&ca, &cb)
}

fn sort_paths_exec(v: &Vec<Vec<char>>) -> (r: Vec<Vec<char>>)
    ensures
        seqs_of(r@) == sort_paths(seqs_of(v@)),
{
    let mut out: Vec<Vec<char>> = Vec::new();
    let mut i: usize = 0;
    assert(seqs_of(v@).take(0) =~= Seq::<Seq<char>>::empty());
    while i < v.len()
        invariant
            i <= v@.len(),
            seqs_of(out@) == sort_paths(seqs_of(v@).take(i as int)),
        decreases v@.len() - i,
    {
        let ghost t = seqs_of(v@).take(i + 1);
        assert(t.drop_last() == seqs_of(v@).take(i as int));
        assert(t.last() == v@[i as int]@);
        let ghost so = seqs_of(out@);
        let x = v[i].as_slice();
        let mut k: usize = 0;
        assert(so.skip(0) == so);
        while k < out.len() && !path_lt_exec(x, out[k].as_slice())
            invariant
                so == seqs_of(out@),
                k <= out@.len(),
                path_insert_pos(so, x@) == k + path_insert_pos(so.skip(k as int), x@),
            decreases out@.len() - k,
        {
            assert(so.skip(k as int)[0] == out@[k as int]@);
            assert(so.skip(k as int).drop_first() == so.skip(k + 1));
            k += 1;
        }
        proof {
            if k < out@.len() {
                assert(so.skip(k as int)[0] == out@[k as int]@);
            }
        }
        out.insert(k, vstd::slice::slice_to_vec(x));
        assert(seqs_of(out@) =~= so.insert(k as int, x@));
        i += 1;
    }
    assert(seqs_of(v@).take(v@.len() as int) == seqs_of(v@));
    out
}

fn sort_deepest_first_exec(v: &Vec<Vec<char>>) -> (r: Vec<Vec<char>>)
    ensures
        seqs_of(r@) == sort_deepest_first(seqs_of(v@)),
{
    let mut out: Vec<Vec<char>> = Vec::new();
    let mut depths: Vec<usize> = Vec::new();
    let mut i: usize = 0;
    assert(seqs_of(v@).take(0) =~= Seq::<Seq<char>>::empty());
    while i < v.len()
        invariant
            i <= v@.len(),
            depths@.len() == out@.len(),
            forall|j: int| 0 <= j < out@.len() ==> depths@[j] == components(#[trigger] out@[j]@).len(),
            seqs_of(out@) == sort_deepest_first(seqs_of(v@).take(i as int)),
        decreases v@.len() - i,
    {
        let ghost t = seqs_of(v@).take(i + 1);
        assert(t.drop_last() == seqs_of(v@).take(i as int));
        assert(t.last() == v@[i as int]@);
        let ghost so = seqs_of(out@);
        let x = v[i].as_slice();
        let d = components_exec(x).len();
        let mut k: usize = 0;
        assert(so.skip(0) == so);
        while k < out.len() && !(depths[k] < d)
            invariant
                so == seqs_of(out@),
                depths@.len() == out@.len(),
                forall|j: int| 0 <= j < out@.len() ==> depths@[j] == components(#[trigger] out@[j]@).len(),
                d == components(x@).len(),
                k <= out@.len(),
                depth_insert_pos(so, x@) == k + depth_insert_pos(so.skip(k as int), x@),
            decreases out@.len() - k,
        {
            assert(so.skip(k as int)[0] == out@[k as int]@);
            assert(so.skip(k as int).drop_first() == so.skip(k + 1));
            k += 1;
        }
        proof {
            if k < out@.len() {
                assert(so.skip(k as int)[0] == out@[k as int]@);
            }
        }
        let ghost ob = out@;
        let ghost db = depths@;
        out.insert(k, vstd::slice::slice_to_vec(x));
        depths.insert(k, d);
        assert(seqs_of(out@) =~= so.insert(k as int, x@));
        assert forall|j: int| 0 <= j < out@.len() implies depths@[j] == components(
            #[trigger] out@[j]@,
        ).len() by {
            if j < k {
                assert(out@[j] == ob[j] && depths@[j] == db[j]);
            } else if j > k {
                assert(out@[j] == ob[j - 1] && depths@[j] == db[j - 1]);
            }
        }
        i += 1;
    }
    assert(seqs_of(v@).take(v@.len() as int) == seqs_of(v@));
    out
}


fn parent_components_exec(p: &[char]) -> (r: Option<Vec<Vec<char>>>)
    ensures
        match r {
            Some(v) => parent_components(p@) == Some(seqs_of(v@)),
            None => parent_components(p@) is None,
        },
{
    let mut cs = components_exec(p);
    if cs.len() == 0 {
        return None;
    }
    if cs.len() == 1 && is_root(cs[0].as_slice()) {
        assert(seqs_of(cs@) =~= seq![root_component()]);
        return None;
    }
    proof {
        if seqs_of(cs@) == seq![root_component()] {
            assert(seqs_of(cs@)[0] == cs@[0]@);
        }
    }
    let ghost before = seqs_of(cs@);
    cs.pop();
    assert(seqs_of(cs@) =~= before.drop_last());
    Some(cs)
}

fn is_prefix_exec(a: &Vec<Vec<char>>, b: &Vec<Vec<char>>) -> (r: bool)
    ensures
        r == is_prefix_of(seqs_of(a@), seqs_of(b@)),
{
    if a.len() > b.len() {
        return false;
    }
    let mut i: usize = 0;
    while i < a.len()
        invariant
            a@.len() <= b@.len(),
            i <= a@.len(),
            forall|k: int| 0 <= k < i ==> a@[k]@ == b@[k]@,
        decreases a@.len() - i,
    {
        if !crate::text::chars_eq(a[i].as_slice(), b[i].as_slice()) {
            assert(seqs_of(b@).take(a@.len() as int)[i as int] != seqs_of(a@)[i as int]);
            return false;
        }
        i += 1;
    }
    assert(seqs_of(b@).take(a@.len() as int) =~= seqs_of(a@));
    true
}

/// The first locale dir of `search` whose parent encloses the file's
/// directory: the `locale/` of the app the file belongs to.
pub fn locale_dir_for(file: &[char], search: &Vec<Vec<char>>) -> (r: Option<Vec<char>>)
    ensures
        match r {
            Some(d) => locale_dir_for_spec(file@, seqs_of(search@)) == Some(d@),
            None => locale_dir_for_spec(file@, seqs_of(search@)) is None,
        },
{
    let dir = match parent_components_exec(file) {
        Some(d) => d,
        None => return None,
    };
    let ghost sv = seqs_of(search@);
    let mut i: usize = 0;
    assert(sv.skip(0) == sv);
    while i < search.len()
        invariant
            i <= search@.len(),
            sv == seqs_of(search@),
            parent_components(file@) == Some(seqs_of(dir@)),
            locale_dir_for_spec(file@, sv) == locale_dir_for_spec(file@, sv.skip(i as int)),
        decreases search@.len() - i,
    {
        assert(sv.skip(i as int)[0] == search@[i as int]@);
        assert(sv.skip(i as int).drop_first() == sv.skip(i + 1));
        match parent_components_exec(search[i].as_slice()) {
            Some(p) => {
                if is_prefix_exec(&p, &dir) {
                    return Some(search[i].clone());
                }
            },
            None => {},
        }
        i += 1;
    }
    assert(sv.skip(search@.len() as int) =~= Seq::<Seq<char>>::empty());
    None
}

pub fn join_path_exec(base: &str, name: &str) -> (r: Vec<char>)
    ensures
        r@ == join_path(base@, name@),
{
    let mut out = chars_of(base);
    let slash: [char; 1] = ['/'];
    assert(slash@ =~= seq!['/']);
    if !(out.len() == 0 || crate::text::ends_with(out.as_slice(), slash.as_slice())) {
        out.push('/');
    }
    push_str(&mut out, name);
    out
}

fn contains_component(cs: &Vec<Vec<char>>, name: &[char]) -> (r: bool)
    ensures
        r == seqs_of(cs@).contains(name@),
{
    let mut k: usize = 0;
    while k < cs.len()
        invariant
            k <= cs@.len(),
            forall|j: int| 0 <= j < k ==> seqs_of(cs@)[j] != name@,
        decreases cs@.len() - k,
    {
        if crate::text::chars_eq(cs[k].as_slice(), name) {
            assert(seqs_of(cs@)[k as int] == name@);
            return true;
        }
        k += 1;
    }
    false
}

impl FileWalker {
    pub fn new(
        root: String,
        extensions: Vec<String>,
        ignore_patterns: Vec<String>,
        locale_paths: Vec<String>,
        discover_locale_dirs: bool,
        follow_symlinks: bool,
    ) -> (w: Self)
        ensures
            w.root == root,
            w.extensions == extensions,
            w.ignore_patterns == ignore_patterns,
            w.locale_paths == locale_paths,
            w.discover_locale_dirs == discover_locale_dirs,
            w.follow_symlinks == follow_symlinks,
    {
        FileWalker {
            root,
            extensions,
            ignore_patterns,
            locale_paths,
            discover_locale_dirs,
            follow_symlinks,
        }
    }

    /// The files of a walk, sorted, each with the locale dir its messages
    /// go to, from what the walk reported in the order it reported it.
    pub fn assign(&self, entries: &Vec<WalkedEntry>) -> (r: Vec<TranslatableFile>)
        ensures
            file_views(r@) == assigned_files(self@, walked_views(entries@)),
    {
        let ghost ev = walked_views(entries@);
        let discover = self.discover_locale_dirs;
        let mut files: Vec<Vec<char>> = Vec::new();
        let mut found: Vec<Vec<char>> = Vec::new();
        let mut i: usize = 0;
        assert(ev.take(0) =~= Seq::<(Seq<char>, EntryKind)>::empty());
        let locale = chars_of("locale");
        while i < entries.len()
            invariant
                i <= entries@.len(),
                ev == walked_views(entries@),
                discover == self.discover_locale_dirs,
                locale@ == "locale"@,
                seqs_of(files@) == walked_files(ev.take(i as int), discover),
                seqs_of(found@) == discovered_dirs(ev.take(i as int), discover),
            decreases entries@.len() - i,
        {
            assert(ev.take(i + 1).drop_last() == ev.take(i as int));
            assert(ev.take(i + 1).last() == (entries@[i as int].path@, entries@[i as int].kind));
            let p = chars_of(entries[i].path.as_str());
            let cs = components_exec(p.as_slice());
            let ghost csv = seqs_of(cs@);
            match entries[i].kind {
                EntryKind::Dir => {
                    if discover && cs.len() > 0 && crate::text::chars_eq(
                        cs[cs.len() - 1].as_slice(),
                        locale.as_slice(),
                    ) {
                        let ghost before = found@;
                        found.push(p);
                        assert(seqs_of(found@) == seqs_of(before).push(entries@[i as int].path@));
                    }
                },
                EntryKind::File => {
                    let inside = discover && contains_component(&cs, locale.as_slice());
                    if !inside {
                        let ghost before = files@;
                        files.push(p);
                        assert(seqs_of(files@) == seqs_of(before).push(entries@[i as int].path@));
                    }
                },
                EntryKind::Other => {},
            }
            i += 1;
        }
        assert(ev.take(entries@.len() as int) == ev);
        let sorted = sort_paths_exec(&files);
        let mut search = sort_deepest_first_exec(&found);
        let mut j: usize = 0;
        let ghost s0 = seqs_of(search@);
        let ghost lp = strings_view(self.locale_paths@);
        while j < self.locale_paths.len()
            invariant
                j <= self.locale_paths@.len(),
                lp == strings_view(self.locale_paths@),
                seqs_of(search@) == s0 + lp.take(j as int),
            decreases self.locale_paths@.len() - j,
        {
            let ghost before = seqs_of(search@);
            let c = chars_of(self.locale_paths[j].as_str());
            assert(c@ == lp[j as int]);
            search.push(c);
            assert(seqs_of(search@) == before.push(c@));
            assert(lp.take(j + 1) == lp.take(j as int).push(lp[j as int]));
            assert(seqs_of(search@) =~= s0 + lp.take(j + 1));
            j += 1;
        }
        assert(lp.take(lp.len() as int) == lp);
        assert(seqs_of(search@) == search_dirs(self@, ev));
        let default_dir: Vec<char> = if self.locale_paths.len() > 0 {
            chars_of(self.locale_paths[0].as_str())
        } else {
            join_path_exec(self.root.as_str(), "locale")
        };
        let ghost sv = seqs_of(sorted@);
        let mut out: Vec<TranslatableFile> = Vec::new();
        let mut k: usize = 0;
        while k < sorted.len()
            invariant
                k <= sorted@.len(),
                sv == seqs_of(sorted@),
                seqs_of(search@) == search_dirs(self@, ev),
                default_dir@ == default_locale_dir(self@),
                file_views(out@) == assigned_files(self@, ev).take(k as int),
                sv == sort_paths(walked_files(ev, self.discover_locale_dirs)),
            decreases sorted@.len() - k,
        {
            let d = match locale_dir_for(sorted[k].as_slice(), &search) {
                Some(d) => d,
                None => vstd::slice::slice_to_vec(default_dir.as_slice()),
            };
            assert(assigned_files(self@, ev).len() == sv.len());
            assert(assigned_files(self@, ev)[k as int] == (sorted@[k as int]@, d@));
            let t = TranslatableFile { path: string_of(sorted[k].as_slice()), locale_dir: string_of(d.as_slice()) };
            let ghost before = file_views(out@);
            let ghost tv = (t.path@, t.locale_dir@);
            assert(tv == (sorted@[k as int]@, d@));
            out.push(t);
            assert(file_views(out@) == before.push(tv));
            assert(assigned_files(self@, ev).take(k + 1) == assigned_files(self@, ev).take(
                k as int,
            ).push(assigned_files(self@, ev)[k as int]));
            assert(file_views(out@) =~= assigned_files(self@, ev).take(k + 1));
            k += 1;
        }
        assert(assigned_files(self@, ev).take(sorted@.len() as int) =~= assigned_files(self@, ev));
        out
    }
}


/// The parent of locale dir `c` encloses the directory of `file`.
pub open spec fn encloses(c: Seq<char>, file: Seq<char>) -> bool {
    &&& parent_components(file) is Some
    &&& parent_components(c) is Some
    &&& is_prefix_of(parent_components(c)->0, parent_components(file)->0)
}

/// A file goes to the first locale dir, in search order, whose parent
/// encloses the file's directory; to none when no such dir exists.
pub proof fn law_locale_dir_for(file: Seq<char>, search: Seq<Seq<char>>)
    ensures
        match locale_dir_for_spec(file, search) {
            Some(d) => exists|i: int|
                0 <= i < search.len() && search[i] == d && encloses(search[i], file) && forall|j: int|
                    0 <= j < i ==> !encloses(#[trigger] search[j], file),
            None => forall|j: int| 0 <= j < search.len() ==> !encloses(#[trigger] search[j], file),
        },
    decreases search.len(),
{
    if parent_components(file) is None || search.len() == 0 {
        return;
    }
    let c = search[0];
    if encloses(c, file) {
        assert(search[0] == c);
        return;
    }
    law_locale_dir_for(file, search.drop_first());
    match locale_dir_for_spec(file, search.drop_first()) {
        Some(d) => {
            let i = choose|i: int|
                0 <= i < search.drop_first().len() && search.drop_first()[i] == d && encloses(
                    search.drop_first()[i],
                    file,
                ) && forall|j: int|
                    0 <= j < i ==> !encloses(#[trigger] search.drop_first()[j], file);
            assert(search[i + 1] == d);
            assert forall|j: int| 0 <= j < i + 1 implies !encloses(#[trigger] search[j], file) by {
                if j > 0 {
                    assert(search[j] == search.drop_first()[j - 1]);
                }
            }
        },
        None => {
            assert forall|j: int| 0 <= j < search.len() implies !encloses(
                #[trigger] search[j],
                file,
            ) by {
                if j > 0 {
                    assert(search[j] == search.drop_first()[j - 1]);
                }
            }
        },
    }
}

/// No path is shallower than a path after it.
pub open spec fn deepest_first(s: Seq<Seq<char>>) -> bool {
    forall|i: int, j: int|
        0 <= i < j < s.len() ==> components(#[trigger] s[i]).len() >= components(#[trigger] s[j]).len()
}

proof fn lemma_depth_insert_pos_facts(t: Seq<Seq<char>>, x: Seq<char>)
    ensures
        forall|i: int|
            0 <= i < depth_insert_pos(t, x) ==> components(#[trigger] t[i]).len() >= components(x).len(),
        depth_insert_pos(t, x) < t.len() ==> components(t[depth_insert_pos(t, x)]).len() < components(
            x,
        ).len(),
        0 <= depth_insert_pos(t, x) <= t.len(),
    decreases t.len(),
{
    if t.len() > 0 && !(components(t[0]).len() < components(x).len()) {
        lemma_depth_insert_pos_facts(t.drop_first(), x);
        assert forall|i: int|
            0 <= i < depth_insert_pos(t, x) implies components(#[trigger] t[i]).len() >= components(
            x,
        ).len() by {
            if i > 0 {
                assert(t[i] == t.drop_first()[i - 1]);
            }
        }
    }
}

/// The discovered locale dirs are searched deepest first, so the nearest
/// enclosing one wins; none is lost or repeated.
pub proof fn law_sort_deepest_first(s: Seq<Seq<char>>)
    ensures
        deepest_first(sort_deepest_first(s)),
        sort_deepest_first(s).to_multiset() == s.to_multiset(),
    decreases s.len(),
{
    if s.len() > 0 {
        law_sort_deepest_first(s.drop_last());
        let t = sort_deepest_first(s.drop_last());
        let x = s.last();
        let k = depth_insert_pos(t, x);
        lemma_depth_insert_pos_facts(t, x);
        let u = t.insert(k, x);
        assert forall|i: int, j: int| 0 <= i < j < u.len() implies components(#[trigger] u[i]).len()
            >= components(#[trigger] u[j]).len() by {
            if i < k && j == k {
                assert(u[i] == t[i]);
            } else if i == k && j > k {
                assert(u[j] == t[j - 1]);
                assert(components(t[k]).len() >= components(t[j - 1]).len());
            } else if j < k {
                assert(u[i] == t[i] && u[j] == t[j]);
            } else if i < k && j > k {
                assert(u[i] == t[i] && u[j] == t[j - 1]);
            } else {
                assert(u[i] == t[i - 1] && u[j] == t[j - 1]);
            }
        }
        vstd::seq_lib::to_multiset_insert(t, k, x);
        vstd::seq_lib::to_multiset_build(s.drop_last(), x);
        assert(s.drop_last().push(x) =~= s);
    } else {
        assert(sort_deepest_first(s).to_multiset() =~= s.to_multiset());
    }
}

proof fn lemma_path_insert_pos_bounds(s: Seq<Seq<char>>, x: Seq<char>)
    ensures
        0 <= path_insert_pos(s, x) <= s.len(),
    decreases s.len(),
{
    if s.len() > 0 && !path_lt(x, s[0]) {
        lemma_path_insert_pos_bounds(s.drop_first(), x);
    }
}

/// Sorting paths keeps each path, as often as it occurs.
pub proof fn lemma_sort_paths_multiset(s: Seq<Seq<char>>)
    ensures
        sort_paths(s).to_multiset() == s.to_multiset(),
        sort_paths(s).len() == s.len(),
    decreases s.len(),
{
    broadcast use vstd::seq_lib::group_to_multiset_ensures;
    if s.len() > 0 {
        lemma_sort_paths_multiset(s.drop_last());
        let t = sort_paths(s.drop_last());
        let x = s.last();
        let k = path_insert_pos(t, x);
        lemma_path_insert_pos_bounds(t, x);
        let u = t.insert(k, x);
        assert(u =~= t.take(k) + seq![x] + t.skip(k));
        assert(t =~= t.take(k) + t.skip(k));
        vstd::seq_lib::lemma_multiset_commutative(t.take(k) + seq![x], t.skip(k));
        vstd::seq_lib::lemma_multiset_commutative(t.take(k), seq![x]);
        vstd::seq_lib::lemma_multiset_commutative(t.take(k), t.skip(k));
        assert(s =~= s.drop_last().push(x));
    }
}

/// What a walk gives: every file the walk reported (those inside a `locale`
/// directory left out when locale dirs are discovered), each once per
/// report, in path order; each with the first enclosing locale dir found
/// (deepest first), else the default one.
pub proof fn law_assigned_files(w: WalkerView, es: Seq<(Seq<char>, EntryKind)>)
    ensures
        assigned_files(w, es).map_values(|p: (Seq<char>, Seq<char>)| p.0).to_multiset()
            == walked_files(es, w.discover_locale_dirs).to_multiset(),
        forall|j: int|
            0 <= j < assigned_files(w, es).len() ==> (#[trigger] assigned_files(w, es)[j]).1 == match locale_dir_for_spec(
                assigned_files(w, es)[j].0,
                search_dirs(w, es),
            ) {
                Some(d) => d,
                None => default_locale_dir(w),
            },
{
    let f = walked_files(es, w.discover_locale_dirs);
    lemma_sort_paths_multiset(f);
    let a = assigned_files(w, es);
    assert(a.map_values(|p: (Seq<char>, Seq<char>)| p.0) =~= sort_paths(f));
}

} // verus!
