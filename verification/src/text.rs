//! Character-sequence utilities that mirror the `str` operations the
//! catalog code relies on, each tied to a specification over `Seq<char>`.
use vstd::prelude::*;

verus! {

/// Unicode `White_Space`, the property behind `char::is_whitespace`.
pub open spec fn is_ws(c: char) -> bool {
    let v = c as u32;
    ||| (0x09 <= v && v <= 0x0d)
    ||| v == 0x20
    ||| v == 0x85
    ||| v == 0xa0
    ||| v == 0x1680
    ||| (0x2000 <= v && v <= 0x200a)
    ||| v == 0x2028
    ||| v == 0x2029
    ||| v == 0x202f
    ||| v == 0x205f
    ||| v == 0x3000
}

pub fn is_whitespace(c: char) -> (r: bool)
    ensures
        r == is_ws(c),
{
    let v = c as u32;
    (0x09 <= v && v <= 0x0d) || v == 0x20 || v == 0x85 || v == 0xa0 || v == 0x1680 || (0x2000
        <= v && v <= 0x200a) || v == 0x2028 || v == 0x2029 || v == 0x202f || v == 0x205f || v
        == 0x3000
}

/// The characters of a string, in order.
pub fn chars_of(s: &str) -> (v: Vec<char>)
    ensures
        v@ == s@,
{
    let mut v: Vec<char> = Vec::new();
    for c in it: s.chars()
        invariant
            v@ == it.seq().take(it.index() as int),
            it.seq() == s@,
    {
        v.push(c);
    }
    v
}

/// Builds an owned string from characters (`FromIterator<&char> for String`).
#[verifier::external_body]
pub(crate) fn string_of(v: &[char]) -> (s: String)
    ensures
        s@ == v@,
{
    v.iter().collect()
}


pub open spec fn trim_start_seq(s: Seq<char>) -> Seq<char>
    decreases s.len(),
{
    if s.len() > 0 && is_ws(s[0]) {
        trim_start_seq(s.drop_first())
    } else {
        s
    }
}

pub open spec fn trim_end_seq(s: Seq<char>) -> Seq<char>
    decreases s.len(),
{
    if s.len() > 0 && is_ws(s.last()) {
        trim_end_seq(s.drop_last())
    } else {
        s
    }
}

/// `str::trim`: whitespace removed from both ends.
pub open spec fn trim_seq(s: Seq<char>) -> Seq<char> {
    trim_end_seq(trim_start_seq(s))
}

pub fn trim_start(s: &[char]) -> (r: &[char])
    ensures
        r@ == trim_start_seq(s@),
{
    let mut i: usize = 0;
    assert(s@.skip(0) == s@);
    while i < s.len() && is_whitespace(s[i])
        invariant
            i <= s@.len(),
            trim_start_seq(s@) == trim_start_seq(s@.skip(i as int)),
        decreases s@.len() - i,
    {
        assert(s@.skip(i as int).drop_first() == s@.skip(i + 1));
        i += 1;
    }
    let r = &s[i..s.len()];
    assert(r@ == s@.skip(i as int));
    r
}

pub fn trim_end(s: &[char]) -> (r: &[char])
    ensures
        r@ == trim_end_seq(s@),
{
    let mut j: usize = s.len();
    assert(s@.take(s@.len() as int) == s@);
    while j > 0 && is_whitespace(s[j - 1])
        invariant
            j <= s@.len(),
            trim_end_seq(s@) == trim_end_seq(s@.take(j as int)),
        decreases j,
    {
        assert(s@.take(j as int).drop_last() == s@.take(j - 1));
        j -= 1;
    }
    let r = &s[0..j];
    assert(r@ == s@.take(j as int));
    r
}

pub fn trim(s: &[char]) -> (r: &[char])
    ensures
        r@ == trim_seq(s@),
{
    trim_end(trim_start(s))
}

/// `s` begins with `p`.
pub open spec fn has_prefix(s: Seq<char>, p: Seq<char>) -> bool {
    p.len() <= s.len() && s.take(p.len() as int) == p
}

/// `s` ends with `p`.
pub open spec fn has_suffix(s: Seq<char>, p: Seq<char>) -> bool {
    p.len() <= s.len() && s.skip(s.len() - p.len()) == p
}

pub fn starts_with(s: &[char], p: &[char]) -> (r: bool)
    ensures
        r == has_prefix(s@, p@),
{
    if p.len() > s.len() {
        return false;
    }
    let mut i: usize = 0;
    while i < p.len()
        invariant
            p@.len() <= s@.len(),
            i <= p@.len(),
            forall|k: int| 0 <= k < i ==> s@[k] == p@[k],
        decreases p@.len() - i,
    {
        if s[i] != p[i] {
            assert(s@.take(p@.len() as int)[i as int] != p@[i as int]);
            return false;
        }
        i += 1;
    }
    assert(s@.take(p@.len() as int) =~= p@);
    true
}

pub fn ends_with(s: &[char], p: &[char]) -> (r: bool)
    ensures
        r == has_suffix(s@, p@),
{
    if p.len() > s.len() {
        return false;
    }
    let off = s.len() - p.len();
    let mut i: usize = 0;
    while i < p.len()
        invariant
            p@.len() <= s@.len(),
            off + p.len() == s.len(),
            i <= p@.len(),
            forall|k: int| 0 <= k < i ==> s@[off + k] == p@[k],
        decreases p@.len() - i,
    {
        if s[off + i] != p[i] {
            assert(s@.skip(off as int)[i as int] != p@[i as int]);
            return false;
        }
        i += 1;
    }
    assert(s@.skip(off as int) =~= p@);
    true
}

/// Character-wise equality of two sequences.
pub fn chars_eq(a: &[char], b: &[char]) -> (r: bool)
    ensures
        r == (a@ == b@),
{
    if a.len() != b.len() {
        return false;
    }
    let r = starts_with(a, b);
    assert(a@.take(b@.len() as int) =~= a@);
    r
}

/// Index of the first occurrence of `c` in `s`, or -1.
pub open spec fn index_of(s: Seq<char>, c: char) -> int
    decreases s.len(),
{
    if s.len() == 0 {
        -1
    } else if s[0] == c {
        0
    } else {
        let k = index_of(s.drop_first(), c);
        if k < 0 {
            -1
        } else {
            k + 1
        }
    }
}

pub proof fn lemma_index_of(s: Seq<char>, c: char)
    ensures
        -1 <= index_of(s, c) < s.len(),
        index_of(s, c) >= 0 ==> s[index_of(s, c)] == c,
        forall|k: int| 0 <= k < s.len() && (index_of(s, c) < 0 || k < index_of(s, c)) ==> s[k] != c,
    decreases s.len(),
{
    if s.len() > 0 && s[0] != c {
        lemma_index_of(s.drop_first(), c);
        assert forall|k: int| 0 <= k < s.len() && (index_of(s, c) < 0 || k < index_of(s, c)) implies s[k] != c by {
            if k > 0 {
                assert(s[k] == s.drop_first()[k - 1]);
            }
        }
    }
}

pub proof fn lemma_index_of_unique(s: Seq<char>, c: char, i: int)
    requires
        0 <= i < s.len(),
        s[i] == c,
        forall|k: int| 0 <= k < i ==> s[k] != c,
    ensures
        index_of(s, c) == i,
{
    lemma_index_of(s, c);
}

pub proof fn lemma_index_of_none(s: Seq<char>, c: char)
    requires
        forall|k: int| 0 <= k < s.len() ==> s[k] != c,
    ensures
        index_of(s, c) == -1,
{
    lemma_index_of(s, c);
}

pub fn find_char(s: &[char], c: char) -> (r: Option<usize>)
    ensures
        match r {
            Some(i) => index_of(s@, c) == i,
            None => index_of(s@, c) == -1,
        },
{
    let mut i: usize = 0;
    while i < s.len()
        invariant
            i <= s@.len(),
            forall|k: int| 0 <= k < i ==> s@[k] != c,
        decreases s@.len() - i,
    {
        if s[i] == c {
            proof {
                lemma_index_of_unique(s@, c, i as int);
            }
            return Some(i);
        }
        i += 1;
    }
    proof {
        lemma_index_of_none(s@, c);
    }
    None
}

/// Number of occurrences of `c` in `s`.
pub open spec fn count_of(s: Seq<char>, c: char) -> nat
    decreases s.len(),
{
    if s.len() == 0 {
        0
    } else {
        count_of(s.drop_last(), c) + if s.last() == c {
            1nat
        } else {
            0nat
        }
    }
}

pub fn count_char(s: &[char], c: char) -> (r: usize)
    ensures
        r == count_of(s@, c),
{
    let mut n: usize = 0;
    let mut i: usize = 0;
    while i < s.len()
        invariant
            i <= s@.len(),
            n == count_of(s@.take(i as int), c),
            n <= i,
        decreases s@.len() - i,
    {
        assert(s@.take(i + 1).drop_last() == s@.take(i as int));
        if s[i] == c {
            n += 1;
        }
        i += 1;
    }
    assert(s@.take(s@.len() as int) == s@);
    n
}


/// The views of a vector of character vectors.
pub open spec fn seqs_of(v: Seq<Vec<char>>) -> Seq<Seq<char>> {
    v.map_values(|x: Vec<char>| x@)
}

/// A line without its trailing carriage return.
pub open spec fn strip_cr(l: Seq<char>) -> Seq<char> {
    if l.len() > 0 && l.last() == '\r' {
        l.drop_last()
    } else {
        l
    }
}

/// `str::lines`: pieces ended by `\n` (a `\r` right before it is dropped);
/// the text after the last `\n` is a line only when it is not empty.
pub open spec fn lines_of(s: Seq<char>) -> Seq<Seq<char>>
    decreases s.len(),
{
    if s.len() == 0 {
        seq![]
    } else {
        let i = index_of(s, '\n');
        if i < 0 {
            seq![s]
        } else {
            proof {
                lemma_index_of(s, '\n');
            }
            seq![strip_cr(s.take(i))] + lines_of(s.skip(i + 1))
        }
    }
}

pub fn strip_cr_slice(l: &[char]) -> (r: &[char])
    ensures
        r@ == strip_cr(l@),
{
    if l.len() > 0 && l[l.len() - 1] == '\r' {
        let r = &l[0..l.len() - 1];
        assert(r@ == l@.drop_last());
        r
    } else {
        l
    }
}

pub fn lines(s: &[char]) -> (r: Vec<Vec<char>>)
    ensures
        seqs_of(r@) == lines_of(s@),
{
    let mut out: Vec<Vec<char>> = Vec::new();
    let mut start: usize = 0;
    assert(s@.skip(0) == s@);
    while start < s.len()
        invariant
            start <= s@.len(),
            lines_of(s@) == seqs_of(out@) + lines_of(s@.skip(start as int)),
        decreases s@.len() - start,
    {
        let rest = &s[start..s.len()];
        assert(rest@ == s@.skip(start as int));
        match find_char(rest, '\n') {
            Some(i) => {
                proof {
                    lemma_index_of(rest@, '\n');
                }
                let line = strip_cr_slice(&rest[0..i]);
                assert(rest@.subrange(0, i as int) == rest@.take(i as int));
                let ghost before = out@;
                out.push(vstd::slice::slice_to_vec(line));
                assert(seqs_of(out@) == seqs_of(before).push(line@));
                assert(rest@.skip(i + 1) == s@.skip(start + i + 1));
                start = start + i + 1;
            },
            None => {
                let ghost before = out@;
                out.push(vstd::slice::slice_to_vec(rest));
                assert(seqs_of(out@) == seqs_of(before).push(rest@));
                assert(s@.skip(s@.len() as int) =~= Seq::<char>::empty());
                start = s.len();
            },
        }
    }
    assert(seqs_of(out@) + lines_of(s@.skip(start as int)) == seqs_of(out@)) by {
        assert(s@.skip(start as int) =~= Seq::<char>::empty());
    }
    out
}

/// `str::split` on one character: always one more piece than separators.
pub open spec fn split_on(s: Seq<char>, c: char) -> Seq<Seq<char>>
    decreases s.len(),
{
    let i = index_of(s, c);
    if i < 0 {
        seq![s]
    } else {
        proof {
            lemma_index_of(s, c);
        }
        seq![s.take(i)] + split_on(s.skip(i + 1), c)
    }
}

pub fn split_char(s: &[char], c: char) -> (r: Vec<Vec<char>>)
    ensures
        seqs_of(r@) == split_on(s@, c),
{
    let mut out: Vec<Vec<char>> = Vec::new();
    let mut start: usize = 0;
    assert(s@.skip(0) == s@);
    loop
        invariant
            start <= s@.len(),
            split_on(s@, c) == seqs_of(out@) + split_on(s@.skip(start as int), c),
        decreases s@.len() - start,
    {
        let rest = &s[start..s.len()];
        assert(rest@ == s@.skip(start as int));
        let ghost before = out@;
        match find_char(rest, c) {
            Some(i) => {
                proof {
                    lemma_index_of(rest@, c);
                }
                let piece = &rest[0..i];
                assert(piece@ == rest@.take(i as int));
                out.push(vstd::slice::slice_to_vec(piece));
                assert(seqs_of(out@) == seqs_of(before).push(piece@));
                assert(rest@.skip(i + 1) == s@.skip(start + i + 1));
                start = start + i + 1;
            },
            None => {
                out.push(vstd::slice::slice_to_vec(rest));
                assert(seqs_of(out@) == seqs_of(before).push(rest@));
                return out;
            },
        }
    }
}

/// Index of the first whitespace character, or -1.
pub open spec fn ws_index(s: Seq<char>) -> int
    decreases s.len(),
{
    if s.len() == 0 {
        -1
    } else if is_ws(s[0]) {
        0
    } else {
        let k = ws_index(s.drop_first());
        if k < 0 {
            -1
        } else {
            k + 1
        }
    }
}

pub proof fn lemma_ws_index(s: Seq<char>)
    ensures
        -1 <= ws_index(s) < s.len(),
        ws_index(s) >= 0 ==> is_ws(s[ws_index(s)]),
        forall|k: int| 0 <= k < s.len() && (ws_index(s) < 0 || k < ws_index(s)) ==> !is_ws(s[k]),
    decreases s.len(),
{
    if s.len() > 0 && !is_ws(s[0]) {
        lemma_ws_index(s.drop_first());
        assert forall|k: int| 0 <= k < s.len() && (ws_index(s) < 0 || k < ws_index(s)) implies !is_ws(s[k]) by {
            if k > 0 {
                assert(s[k] == s.drop_first()[k - 1]);
            }
        }
    }
}

pub proof fn lemma_ws_index_unique(s: Seq<char>, i: int)
    requires
        0 <= i <= s.len(),
        i < s.len() ==> is_ws(s[i]),
        forall|k: int| 0 <= k < i ==> !is_ws(s[k]),
    ensures
        ws_index(s) == if i < s.len() { i } else { -1 },
{
    lemma_ws_index(s);
}

pub proof fn lemma_trim_start_shape(s: Seq<char>)
    ensures
        trim_start_seq(s).len() <= s.len(),
        trim_start_seq(s) == s.skip(s.len() - trim_start_seq(s).len()),
        trim_start_seq(s).len() > 0 ==> !is_ws(trim_start_seq(s)[0]),
    decreases s.len(),
{
    if s.len() > 0 && is_ws(s[0]) {
        lemma_trim_start_shape(s.drop_first());
        assert(s.drop_first().skip(s.drop_first().len() - trim_start_seq(s).len()) =~= s.skip(
            s.len() - trim_start_seq(s).len(),
        ));
    } else {
        assert(s.skip(0) =~= s);
    }
}

pub proof fn lemma_trim_end_shape(s: Seq<char>)
    ensures
        trim_end_seq(s).len() <= s.len(),
        trim_end_seq(s) == s.take(trim_end_seq(s).len() as int),
        trim_end_seq(s).len() > 0 ==> !is_ws(trim_end_seq(s).last()),
        forall|k: int| trim_end_seq(s).len() <= k < s.len() ==> is_ws(#[trigger] s[k]),
    decreases s.len(),
{
    if s.len() > 0 && is_ws(s.last()) {
        let d = s.drop_last();
        lemma_trim_end_shape(d);
        let t = trim_end_seq(s);
        assert(d.take(t.len() as int) =~= s.take(t.len() as int));
        assert forall|k: int| t.len() <= k < s.len() implies is_ws(#[trigger] s[k]) by {
            if k < s.len() - 1 {
                assert(s[k] == d[k]);
            }
        }
    } else {
        assert(s.take(s.len() as int) =~= s);
    }
}

/// Trimming twice trims no more than once.
pub proof fn lemma_trim_idem(s: Seq<char>)
    ensures
        trim_seq(trim_seq(s)) == trim_seq(s),
{
    let a = trim_start_seq(s);
    lemma_trim_start_shape(s);
    lemma_trim_end_shape(a);
    let t = trim_end_seq(a);
    if t.len() > 0 {
        assert(t[0] == a[0]);
        assert(trim_start_seq(t) == t);
        assert(trim_end_seq(t) == t);
    } else {
        assert(trim_start_seq(t) == t);
        assert(trim_end_seq(t) == t);
    }
}

/// Trimming keeps a prefix of non-whitespace characters.
pub proof fn lemma_trim_keeps_prefix(s: Seq<char>, p: Seq<char>)
    requires
        has_prefix(s, p),
        p.len() > 0,
        forall|k: int| 0 <= k < p.len() ==> !is_ws(#[trigger] p[k]),
    ensures
        has_prefix(trim_seq(s), p),
        trim_start_seq(s) == s,
{
    assert(s[0] == s.take(p.len() as int)[0]);
    assert(!is_ws(p[0]));
    assert(trim_start_seq(s) == s);
    lemma_trim_end_shape(s);
    let t = trim_end_seq(s);
    let n = p.len() - 1;
    assert(s[n] == s.take(p.len() as int)[n]);
    assert(!is_ws(p[n]));
    assert(t.len() > n);
    assert(t.take(p.len() as int) =~= s.take(p.len() as int));
}

/// No character of `s` is `c`.
pub open spec fn lacks(s: Seq<char>, c: char) -> bool {
    forall|k: int| 0 <= k < s.len() ==> #[trigger] s[k] != c
}

/// Trimming adds no character.
pub proof fn lemma_trim_lacks(s: Seq<char>, c: char)
    requires
        lacks(s, c),
    ensures
        lacks(trim_start_seq(s), c),
        lacks(trim_seq(s), c),
{
    lemma_trim_start_shape(s);
    let a = trim_start_seq(s);
    assert forall|k: int| 0 <= k < a.len() implies #[trigger] a[k] != c by {
        assert(a[k] == s[s.len() - a.len() + k]);
    }
    lemma_trim_end_shape(a);
    let t = trim_end_seq(a);
    assert forall|k: int| 0 <= k < t.len() implies #[trigger] t[k] != c by {
        assert(t[k] == a[k]);
    }
}

/// The lines of a text hold no newline.
pub proof fn lemma_lines_lack_newline(s: Seq<char>)
    ensures
        forall|i: int| 0 <= i < lines_of(s).len() ==> lacks(#[trigger] lines_of(s)[i], '\n'),
    decreases s.len(),
{
    if s.len() > 0 {
        let i = index_of(s, '\n');
        lemma_index_of(s, '\n');
        if i < 0 {
            assert(lines_of(s) == seq![s]);
            assert(lacks(s, '\n'));
        } else {
            let first = strip_cr(s.take(i));
            assert forall|k: int| 0 <= k < first.len() implies #[trigger] first[k] != '\n' by {
                assert(first[k] == s[k]);
            }
            lemma_lines_lack_newline(s.skip(i + 1));
            let ls = lines_of(s);
            assert(ls == seq![first] + lines_of(s.skip(i + 1)));
            assert forall|q: int| 0 <= q < ls.len() implies lacks(#[trigger] ls[q], '\n') by {
                if q > 0 {
                    assert(ls[q] == lines_of(s.skip(i + 1))[q - 1]);
                }
            }
        }
    }
}

/// The pieces of `s` split on `c` hold no `c`, and no character `s` lacks.
pub proof fn lemma_split_on_lacks(s: Seq<char>, c: char, d: char)
    requires
        lacks(s, d),
    ensures
        forall|i: int| 0 <= i < split_on(s, c).len() ==> lacks(#[trigger] split_on(s, c)[i], c)
            && lacks(split_on(s, c)[i], d),
    decreases s.len(),
{
    let i = index_of(s, c);
    lemma_index_of(s, c);
    if i < 0 {
        assert(split_on(s, c) == seq![s]);
        assert(lacks(s, c));
    } else {
        let first = s.take(i);
        let rest = s.skip(i + 1);
        assert forall|k: int| 0 <= k < rest.len() implies #[trigger] rest[k] != d by {
            assert(rest[k] == s[i + 1 + k]);
        }
        lemma_split_on_lacks(rest, c, d);
        let ps = split_on(s, c);
        assert(ps == seq![first] + split_on(rest, c));
        assert forall|q: int| 0 <= q < ps.len() implies lacks(#[trigger] ps[q], c) && lacks(
            ps[q],
            d,
        ) by {
            if q > 0 {
                assert(ps[q] == split_on(rest, c)[q - 1]);
            } else {
                assert forall|k: int| 0 <= k < first.len() implies #[trigger] first[k] != c
                    && first[k] != d by {
                    assert(first[k] == s[k]);
                }
            }
        }
    }
}

/// `str::split_whitespace`: the maximal runs of non-whitespace characters.
pub open spec fn words_of(s: Seq<char>) -> Seq<Seq<char>>
    decreases s.len(),
{
    let t = trim_start_seq(s);
    if t.len() == 0 {
        seq![]
    } else {
        let k = ws_index(t);
        proof {
            lemma_trim_start_shape(s);
            lemma_ws_index(t);
        }
        if k < 0 {
            seq![t]
        } else {
            seq![t.take(k)] + words_of(t.skip(k))
        }
    }
}

pub fn split_whitespace(s: &[char]) -> (r: Vec<Vec<char>>)
    ensures
        seqs_of(r@) == words_of(s@),
{
    let mut out: Vec<Vec<char>> = Vec::new();
    let mut cur: &[char] = s;
    loop
        invariant
            words_of(s@) == seqs_of(out@) + words_of(cur@),
        decreases cur@.len(),
    {
        let t = trim_start(cur);
        proof {
            lemma_trim_start_shape(cur@);
        }
        if t.len() == 0 {
            assert(words_of(cur@) == Seq::<Seq<char>>::empty());
            assert(seqs_of(out@) + Seq::<Seq<char>>::empty() == seqs_of(out@));
            return out;
        }
        let mut k: usize = 0;
        while k < t.len() && !is_whitespace(t[k])
            invariant
                k <= t@.len(),
                forall|j: int| 0 <= j < k ==> !is_ws(t@[j]),
            decreases t@.len() - k,
        {
            k += 1;
        }
        proof {
            lemma_ws_index_unique(t@, k as int);
            lemma_ws_index(t@);
        }
        let ghost before = out@;
        let word = &t[0..k];
        out.push(vstd::slice::slice_to_vec(word));
        assert(seqs_of(out@) == seqs_of(before).push(word@));
        if k == t.len() {
            assert(word@ == t@);
            assert(words_of(cur@) == seq![t@]);
            assert(seqs_of(out@) == seqs_of(before) + seq![t@]);
            return out;
        }
        assert(word@ == t@.take(k as int));
        let next = &t[k..t.len()];
        assert(next@ == t@.skip(k as int));
        cur = next;
    }
}

/// `str::replace`: every non-overlapping occurrence of `from`, scanning left
/// to right, is replaced by `to`.
pub open spec fn replace_seq(s: Seq<char>, from: Seq<char>, to: Seq<char>) -> Seq<char>
    recommends
        from.len() > 0,
    decreases s.len(),
{
    if s.len() == 0 || from.len() == 0 {
        s
    } else if has_prefix(s, from) {
        to + replace_seq(s.skip(from.len() as int), from, to)
    } else {
        seq![s[0]] + replace_seq(s.drop_first(), from, to)
    }
}

pub fn replace(s: &[char], from: &[char], to: &[char]) -> (r: Vec<char>)
    requires
        from@.len() > 0,
    ensures
        r@ == replace_seq(s@, from@, to@),
{
    let mut out: Vec<char> = Vec::new();
    let mut i: usize = 0;
    assert(s@.skip(0) == s@);
    while i < s.len()
        invariant
            from@.len() > 0,
            i <= s@.len(),
            replace_seq(s@, from@, to@) == out@ + replace_seq(s@.skip(i as int), from@, to@),
        decreases s@.len() - i,
    {
        let rest = &s[i..s.len()];
        assert(rest@ == s@.skip(i as int));
        if starts_with(rest, from) {
            out.extend_from_slice(to);
            assert(rest@.skip(from@.len() as int) == s@.skip(i + from@.len()));
            i = i + from.len();
        } else {
            out.push(s[i]);
            assert(rest@.drop_first() == s@.skip(i + 1));
            i = i + 1;
        }
    }
    assert(s@.skip(i as int) =~= Seq::<char>::empty());
    out
}

/// Index of the first occurrence of `p` in `s`, or -1 (`str::find`).
pub open spec fn find_seq(s: Seq<char>, p: Seq<char>) -> int
    decreases s.len(),
{
    if has_prefix(s, p) {
        0
    } else if s.len() == 0 {
        -1
    } else {
        let k = find_seq(s.drop_first(), p);
        if k < 0 {
            -1
        } else {
            k + 1
        }
    }
}

pub proof fn lemma_find_seq(s: Seq<char>, p: Seq<char>)
    ensures
        -1 <= find_seq(s, p) <= s.len(),
        find_seq(s, p) >= 0 ==> has_prefix(s.skip(find_seq(s, p)), p),
        forall|k: int|
            0 <= k <= s.len() && (find_seq(s, p) < 0 || k < find_seq(s, p)) ==> !has_prefix(
                s.skip(k),
                p,
            ),
    decreases s.len(),
{
    assert(s.skip(0) == s);
    if !has_prefix(s, p) && s.len() > 0 {
        lemma_find_seq(s.drop_first(), p);
        assert forall|k: int|
            0 <= k <= s.len() && (find_seq(s, p) < 0 || k < find_seq(s, p)) implies !has_prefix(
            s.skip(k),
            p,
        ) by {
            if k > 0 {
                assert(s.skip(k) == s.drop_first().skip(k - 1));
            }
        }
        if find_seq(s, p) >= 0 {
            assert(s.skip(find_seq(s, p)) == s.drop_first().skip(find_seq(s, p) - 1));
        }
    }
    if !has_prefix(s, p) && s.len() == 0 {
        assert forall|k: int|
            0 <= k <= s.len() && (find_seq(s, p) < 0 || k < find_seq(s, p)) implies !has_prefix(
            s.skip(k),
            p,
        ) by {
            assert(s.skip(k) == s);
        }
    }
}

pub proof fn lemma_find_seq_unique(s: Seq<char>, p: Seq<char>, i: int)
    requires
        0 <= i <= s.len(),
        has_prefix(s.skip(i), p),
        forall|k: int| 0 <= k < i ==> !has_prefix(s.skip(k), p),
    ensures
        find_seq(s, p) == i,
{
    lemma_find_seq(s, p);
}

pub fn find_sub(s: &[char], p: &[char]) -> (r: Option<usize>)
    ensures
        match r {
            Some(i) => find_seq(s@, p@) == i,
            None => find_seq(s@, p@) == -1,
        },
{
    let mut i: usize = 0;
    while i <= s.len()
        invariant
            i <= s@.len() + 1,
            forall|k: int| 0 <= k < i ==> !has_prefix(s@.skip(k), p@),
        decreases s@.len() + 1 - i,
    {
        let rest = &s[i..s.len()];
        assert(rest@ == s@.skip(i as int));
        if starts_with(rest, p) {
            proof {
                lemma_find_seq_unique(s@, p@, i as int);
            }
            return Some(i);
        }
        if i == s.len() {
            proof {
                lemma_find_seq(s@, p@);
            }
            return None;
        }
        i += 1;
    }
    proof {
        lemma_find_seq(s@, p@);
    }
    None
}

/// Index of the last occurrence of `p` in `s`, or -1 (`str::rfind`).
pub open spec fn rfind_seq(s: Seq<char>, p: Seq<char>) -> int
    decreases s.len(),
{
    if has_suffix(s, p) {
        s.len() - p.len()
    } else if s.len() == 0 {
        -1
    } else {
        rfind_seq(s.drop_last(), p)
    }
}

pub fn rfind_sub(s: &[char], p: &[char]) -> (r: Option<usize>)
    ensures
        match r {
            Some(i) => rfind_seq(s@, p@) == i && i + p@.len() <= s@.len(),
            None => rfind_seq(s@, p@) == -1,
        },
{
    let mut j: usize = s.len();
    assert(s@.take(s@.len() as int) == s@);
    loop
        invariant
            j <= s@.len(),
            rfind_seq(s@, p@) == rfind_seq(s@.take(j as int), p@),
        decreases j,
    {
        let pre = &s[0..j];
        assert(pre@ == s@.take(j as int));
        if ends_with(pre, p) {
            return Some(j - p.len());
        }
        if j == 0 {
            return None;
        }
        assert(s@.take(j as int).drop_last() == s@.take(j - 1));
        j -= 1;
    }
}


/// The ten decimal digits, in order.
pub open spec fn digit_chars() -> Seq<char> {
    seq!['0', '1', '2', '3', '4', '5', '6', '7', '8', '9']
}

/// The character of a decimal digit value.
pub open spec fn digit_char(d: int) -> char {
    digit_chars()[d]
}

/// Decimal rendering of a natural number, as `format!("{n}")` writes it.
pub open spec fn decimal(n: nat) -> Seq<char>
    decreases n,
{
    if n < 10 {
        seq![digit_char(n as int)]
    } else {
        decimal(n / 10) + seq![digit_char((n % 10) as int)]
    }
}

pub fn push_decimal(out: &mut Vec<char>, n: u64)
    ensures
        final(out)@ == old(out)@ + decimal(n as nat),
    decreases n,
{
    let digits: [char; 10] = ['0', '1', '2', '3', '4', '5', '6', '7', '8', '9'];
    assert(digits@ == digit_chars());
    if n >= 10 {
        push_decimal(out, n / 10);
    }
    out.push(digits[(n % 10) as usize]);
    proof {
        if n < 10 {
            assert(n % 10 == n);
        }
    }
}

/// Whether `c` is an ASCII decimal digit.
pub open spec fn is_digit(c: char) -> bool {
    '0' <= c && c <= '9'
}

pub open spec fn digit_value(c: char) -> int {
    c as int - '0' as int
}

/// Value of a run of decimal digits.
pub open spec fn digits_value(s: Seq<char>) -> int
    decreases s.len(),
{
    if s.len() == 0 {
        0
    } else {
        digits_value(s.drop_last()) * 10 + digit_value(s.last())
    }
}

pub open spec fn all_digits(s: Seq<char>) -> bool {
    forall|i: int| 0 <= i < s.len() ==> is_digit(#[trigger] s[i])
}

/// The text after an optional leading `+` sign.
pub open spec fn unsigned_digits_part(s: Seq<char>) -> Seq<char> {
    if s.len() > 1 && s[0] == '+' {
        s.drop_first()
    } else {
        s
    }
}

/// `usize::from_str`: an optional leading `+`, then one or more ASCII digits
/// whose value fits in `usize`.
pub open spec fn parse_usize_spec(s: Seq<char>) -> Option<usize> {
    let d = unsigned_digits_part(s);
    if d.len() > 0 && all_digits(d) && digits_value(d) <= usize::MAX {
        Some(digits_value(d) as usize)
    } else {
        None
    }
}

pub proof fn lemma_digits_value_prefix(s: Seq<char>, k: int)
    requires
        all_digits(s),
        0 <= k <= s.len(),
    ensures
        0 <= digits_value(s.take(k)) <= digits_value(s),
    decreases s.len(),
{
    if s.len() == 0 {
        assert(s.take(k) == s);
    } else if k == s.len() {
        assert(s.take(k) == s);
        lemma_digits_value_prefix(s.drop_last(), k - 1);
    } else {
        assert(all_digits(s.drop_last()));
        lemma_digits_value_prefix(s.drop_last(), k);
        assert(s.drop_last().take(k) == s.take(k));
        lemma_digits_value_prefix(s.drop_last(), s.len() - 1);
        assert(s.drop_last().take(s.len() - 1) == s.drop_last());
    }
}

pub fn parse_usize(s: &[char]) -> (r: Option<usize>)
    ensures
        r == parse_usize_spec(s@),
{
    let d: &[char] = if s.len() > 1 && s[0] == '+' {
        &s[1..s.len()]
    } else {
        s
    };
    assert(d@ == unsigned_digits_part(s@));
    if d.len() == 0 {
        return None;
    }
    let mut i: usize = 0;
    while i < d.len()
        invariant
            i <= d@.len(),
            d@ == unsigned_digits_part(s@),
            forall|k: int| 0 <= k < i ==> is_digit(#[trigger] d@[k]),
        decreases d@.len() - i,
    {
        if !(d[i] >= '0' && d[i] <= '9') {
            assert(!is_digit(d@[i as int]));
            return None;
        }
        i += 1;
    }
    assert(all_digits(d@));
    let mut acc: usize = 0;
    let mut j: usize = 0;
    assert(d@.take(0) =~= Seq::<char>::empty());
    while j < d.len()
        invariant
            j <= d@.len(),
            d@ == unsigned_digits_part(s@),
            all_digits(d@),
            acc == digits_value(d@.take(j as int)),
        decreases d@.len() - j,
    {
        assert(d@.take(j + 1).drop_last() == d@.take(j as int));
        assert(is_digit(d@[j as int]));
        let dv = (d[j] as u32 - '0' as u32) as usize;
        assert(dv == digit_value(d@[j as int]));
        assert(digits_value(d@.take(j + 1)) == acc * 10 + dv) by {
            assert(d@.take(j + 1).last() == d@[j as int]);
        }
        match acc.checked_mul(10) {
            Some(m) => match m.checked_add(dv) {
                Some(v) => {
                    acc = v;
                },
                None => {
                    proof {
                        lemma_digits_value_prefix(d@, j + 1);
                    }
                    return None;
                },
            },
            None => {
                proof {
                    lemma_digits_value_prefix(d@, j + 1);
                }
                return None;
            },
        }
        j += 1;
    }
    assert(d@.take(d@.len() as int) == d@);
    Some(acc)
}


/// `str::split` on a non-empty string pattern.
pub open spec fn split_seq(s: Seq<char>, p: Seq<char>) -> Seq<Seq<char>>
    decreases s.len(),
{
    let i = find_seq(s, p);
    if i < 0 || p.len() == 0 {
        seq![s]
    } else {
        proof {
            lemma_find_seq(s, p);
        }
        seq![s.take(i)] + split_seq(s.skip(i + p.len()), p)
    }
}

pub fn split_sub(s: &[char], p: &[char]) -> (r: Vec<Vec<char>>)
    requires
        p@.len() > 0,
    ensures
        seqs_of(r@) == split_seq(s@, p@),
{
    let mut out: Vec<Vec<char>> = Vec::new();
    let mut start: usize = 0;
    assert(s@.skip(0) == s@);
    loop
        invariant
            p@.len() > 0,
            start <= s@.len(),
            split_seq(s@, p@) == seqs_of(out@) + split_seq(s@.skip(start as int), p@),
        decreases s@.len() - start,
    {
        let rest = &s[start..s.len()];
        assert(rest@ == s@.skip(start as int));
        let ghost before = out@;
        match find_sub(rest, p) {
            Some(i) => {
                proof {
                    lemma_find_seq(rest@, p@);
                }
                let piece = &rest[0..i];
                assert(piece@ == rest@.take(i as int));
                out.push(vstd::slice::slice_to_vec(piece));
                assert(seqs_of(out@) == seqs_of(before).push(piece@));
                assert(rest@.skip(i + p@.len()) == s@.skip(start + i + p@.len()));
                start = start + i + p.len();
            },
            None => {
                out.push(vstd::slice::slice_to_vec(rest));
                assert(seqs_of(out@) == seqs_of(before).push(rest@));
                return out;
            },
        }
    }
}

/// The pieces joined with `sep` between them (`[T]::join`).
pub open spec fn join_seq(parts: Seq<Seq<char>>, sep: Seq<char>) -> Seq<char>
    decreases parts.len(),
{
    if parts.len() == 0 {
        seq![]
    } else if parts.len() == 1 {
        parts[0]
    } else {
        join_seq(parts.drop_last(), sep) + sep + parts.last()
    }
}

pub fn join(parts: &[Vec<char>], sep: &[char]) -> (r: Vec<char>)
    ensures
        r@ == join_seq(seqs_of(parts@), sep@),
{
    let mut out: Vec<char> = Vec::new();
    let mut i: usize = 0;
    assert(seqs_of(parts@).take(0) =~= Seq::<Seq<char>>::empty());
    while i < parts.len()
        invariant
            i <= parts@.len(),
            out@ == join_seq(seqs_of(parts@).take(i as int), sep@),
        decreases parts@.len() - i,
    {
        let ghost t = seqs_of(parts@).take(i + 1);
        assert(t.drop_last() == seqs_of(parts@).take(i as int));
        assert(t.last() == parts@[i as int]@);
        if i > 0 {
            out.extend_from_slice(sep);
        } else {
            assert(t.len() == 1);
        }
        out.extend_from_slice(parts[i].as_slice());
        i += 1;
    }
    assert(seqs_of(parts@).take(parts@.len() as int) == seqs_of(parts@));
    out
}

/// Appends a string's characters.
pub fn push_str(out: &mut Vec<char>, s: &str)
    ensures
        final(out)@ == old(out)@ + s@,
{
    let c = chars_of(s);
    out.extend_from_slice(c.as_slice());
}


/// Whether the characters begin with the string `p`.
pub fn starts_with_str(t: &[char], p: &str) -> (r: bool)
    ensures
        r == has_prefix(t@, p@),
{
    let pc = chars_of(p);
    starts_with(t, pc.as_slice())
}

} // verus!
