//! Regular-expression searches, made through the `regex` and `fancy_regex`
//! crates, and the translation of their byte offsets into character
//! positions of the searched text.
use vstd::prelude::*;

verus! {

/// What `regex::Regex::new(pattern)` followed by `find_iter(haystack)` yields:
/// the `(start, end)` byte offsets of each match, or `None` when the pattern
/// does not compile.
pub uninterp spec fn regex_find_spans(pattern: Seq<char>, haystack: Seq<char>) -> Option<
    Seq<(usize, usize)>,
>;

/// What `regex::Regex::new(pattern)` followed by `captures_iter(haystack)`
/// yields: for each match, the byte span of every group (group 0 first), or
/// `None` when the pattern does not compile.
pub uninterp spec fn regex_capture_spans(pattern: Seq<char>, haystack: Seq<char>) -> Option<
    Seq<Seq<Option<(usize, usize)>>>,
>;

/// What `regex::Regex::new(pattern)` followed by `is_match(haystack)` yields.
pub uninterp spec fn regex_is_match(pattern: Seq<char>, haystack: Seq<char>) -> Option<bool>;

/// What `regex::Regex::new(pattern)` followed by
/// `replace_all(haystack, replacement)` yields.
pub uninterp spec fn regex_replace_all(
    pattern: Seq<char>,
    haystack: Seq<char>,
    replacement: Seq<char>,
) -> Option<Seq<char>>;

/// What `fancy_regex::Regex::new(pattern)` followed by `find_iter(haystack)`
/// yields: per match, its byte span, or `None` where the search reported an
/// error (such as its backtracking limit).
pub uninterp spec fn fancy_find_spans(pattern: Seq<char>, haystack: Seq<char>) -> Option<
    Seq<Option<(usize, usize)>>,
>;

pub open spec fn span_rows(v: Seq<Vec<Option<(usize, usize)>>>) -> Seq<Seq<Option<(usize, usize)>>> {
    v.map_values(|x: Vec<Option<(usize, usize)>>| x@)
}

/// Wraps `regex::Regex::new` and `Regex::find_iter`: the contract claims only
/// that the spans are the crate's answer for this pattern and haystack.
#[verifier::external_body]
pub(crate) fn find_spans(pattern: &str, haystack: &str) -> (r: Option<Vec<(usize, usize)>>)
    ensures
        match r {
            Some(v) => regex_find_spans(pattern@, haystack@) == Some(v@),
            None => regex_find_spans(pattern@, haystack@) is None,
        },
{
    match regex::Regex::new(pattern) {
        Ok(re) => Some(re.find_iter(haystack).map(|m| (m.start(), m.end())).collect()),
        Err(_) => None,
    }
}

/// Wraps `regex::Regex::new` and `Regex::captures_iter`: each row lists the
/// spans of groups 0..n of one match, `None` for a group that did not take
/// part; the contract claims only that this is the crate's answer.
#[verifier::external_body]
pub(crate) fn capture_spans(pattern: &str, haystack: &str) -> (r: Option<
    Vec<Vec<Option<(usize, usize)>>>,
>)
    ensures
        match r {
            Some(v) => regex_capture_spans(pattern@, haystack@) == Some(span_rows(v@)),
            None => regex_capture_spans(pattern@, haystack@) is None,
        },
{
    match regex::Regex::new(pattern) {
        Ok(re) => Some(
            re.captures_iter(haystack).map(
                |c| c.iter().map(|g| g.map(|m| (m.start(), m.end()))).collect(),
            ).collect(),
        ),
        Err(_) => None,
    }
}

/// Wraps `regex::Regex::new` and `Regex::is_match`.
#[verifier::external_body]
pub(crate) fn is_match(pattern: &str, haystack: &str) -> (r: Option<bool>)
    ensures
        r == regex_is_match(pattern@, haystack@),
{
    match regex::Regex::new(pattern) {
        Ok(re) => Some(re.is_match(haystack)),
        Err(_) => None,
    }
}

/// Wraps `regex::Regex::new` and `Regex::replace_all` with a `$n` template.
#[verifier::external_body]
pub(crate) fn replace_all(pattern: &str, haystack: &str, replacement: &str) -> (r: Option<String>)
    ensures
        match r {
            Some(s) => regex_replace_all(pattern@, haystack@, replacement@) == Some(s@),
            None => regex_replace_all(pattern@, haystack@, replacement@) is None,
        },
{
    match regex::Regex::new(pattern) {
        Ok(re) => Some(re.replace_all(haystack, replacement).into_owned()),
        Err(_) => None,
    }
}

/// Wraps `fancy_regex::Regex::new` and `Regex::find_iter`; a match that the
/// crate reports as an error comes back as `None`.
#[verifier::external_body]
pub(crate) fn fancy_find(pattern: &str, haystack: &str) -> (r: Option<Vec<Option<(usize, usize)>>>)
    ensures
        match r {
            Some(v) => fancy_find_spans(pattern@, haystack@) == Some(v@),
            None => fancy_find_spans(pattern@, haystack@) is None,
        },
{
    match fancy_regex::Regex::new(pattern) {
        Ok(re) => Some(
            re.find_iter(haystack).map(|m| m.ok().map(|m| (m.start(), m.end()))).collect(),
        ),
        Err(_) => None,
    }
}

/// Number of bytes in the UTF-8 encoding of `c`.
pub open spec fn utf8_width(c: char) -> nat {
    let v = c as u32;
    if v < 0x80 {
        1
    } else if v < 0x800 {
        2
    } else if v < 0x10000 {
        3
    } else {
        4
    }
}

/// Length in bytes of the UTF-8 encoding of `s`.
pub open spec fn byte_len(s: Seq<char>) -> nat
    decreases s.len(),
{
    if s.len() == 0 {
        0
    } else {
        byte_len(s.drop_last()) + utf8_width(s.last())
    }
}

/// The character index at which byte offset `b` of `s` falls, when `b` lies
/// on a character boundary.
pub open spec fn char_at_byte(s: Seq<char>, b: int) -> Option<int> {
    if exists|k: int| 0 <= k <= s.len() && byte_len(s.take(k)) == b {
        Some(choose|k: int| 0 <= k <= s.len() && byte_len(s.take(k)) == b)
    } else {
        None
    }
}

/// A match span in character positions: both ends on boundaries, in order.
pub open spec fn char_span(s: Seq<char>, span: (usize, usize)) -> Option<(int, int)> {
    match (char_at_byte(s, span.0 as int), char_at_byte(s, span.1 as int)) {
        (Some(a), Some(b)) => if a <= b {
            Some((a, b))
        } else {
            None
        },
        _ => None,
    }
}

pub proof fn lemma_byte_len_strictly_increasing(s: Seq<char>, i: int, j: int)
    requires
        0 <= i < j <= s.len(),
    ensures
        byte_len(s.take(i)) < byte_len(s.take(j)),
    decreases j - i,
{
    assert(s.take(j).drop_last() == s.take(j - 1));
    if i < j - 1 {
        lemma_byte_len_strictly_increasing(s, i, j - 1);
    }
}

pub proof fn lemma_char_at_byte(s: Seq<char>, k: int)
    requires
        0 <= k <= s.len(),
    ensures
        char_at_byte(s, byte_len(s.take(k)) as int) == Some(k),
{
    let b = byte_len(s.take(k)) as int;
    let c = choose|j: int| 0 <= j <= s.len() && byte_len(s.take(j)) == b;
    if c < k {
        lemma_byte_len_strictly_increasing(s, c, k);
    }
    if k < c {
        lemma_byte_len_strictly_increasing(s, k, c);
    }
}

/// Byte offsets of every character boundary of a text.
pub struct CharPositions {
    pub offsets: Vec<u128>,
}

impl CharPositions {
    pub open spec fn describes(&self, s: Seq<char>) -> bool {
        &&& self.offsets@.len() == s.len() + 1
        &&& forall|k: int| 0 <= k <= s.len() ==> self.offsets@[k] == byte_len(s.take(k))
    }

    pub fn new(s: &[char]) -> (r: CharPositions)
        ensures
            r.describes(s@),
    {
        let mut offsets: Vec<u128> = Vec::new();
        let mut acc: u128 = 0;
        offsets.push(0);
        assert(s@.take(0) =~= Seq::<char>::empty());
        let mut i: usize = 0;
        while i < s.len()
            invariant
                i <= s@.len(),
                offsets@.len() == i + 1,
                acc == byte_len(s@.take(i as int)),
                acc <= 4 * i,
                forall|k: int| 0 <= k <= i ==> offsets@[k] == byte_len(s@.take(k)),
            decreases s@.len() - i,
        {
            let v = s[i] as u32;
            let w: u128 = if v < 0x80 {
                1
            } else if v < 0x800 {
                2
            } else if v < 0x10000 {
                3
            } else {
                4
            };
            assert(s@.take(i + 1).drop_last() == s@.take(i as int));
            acc = acc + w;
            offsets.push(acc);
            i += 1;
        }
        CharPositions { offsets }
    }

    /// The character index of byte offset `b`, if `b` is a boundary.
    pub fn char_index(&self, s: &[char], b: usize) -> (r: Option<usize>)
        requires
            self.describes(s@),
        ensures
            match r {
                Some(k) => char_at_byte(s@, b as int) == Some(k as int),
                None => char_at_byte(s@, b as int) is None,
            },
    {
        let target = b as u128;
        let mut lo: usize = 0;
        let mut hi: usize = self.offsets.len();
        while lo < hi
            invariant
                self.describes(s@),
                target as int == b as int,
                0 <= lo <= hi <= s@.len() + 1,
                forall|k: int| 0 <= k < lo ==> self.offsets@[k] < target,
                forall|k: int| hi <= k <= s@.len() ==> self.offsets@[k] > target,
            decreases hi - lo,
        {
            let mid = lo + (hi - lo) / 2;
            let o = self.offsets[mid];
            if o == target {
                proof {
                    assert(o == self.offsets@[mid as int]);
                    assert(target as int == b as int);
                    assert(self.offsets@[mid as int] == byte_len(s@.take(mid as int)));
                    assert(byte_len(s@.take(mid as int)) == b as int);
                    lemma_char_at_byte(s@, mid as int);
                }
                return Some(mid);
            } else if o < target {
                proof {
                    assert forall|k: int| 0 <= k < mid + 1 implies self.offsets@[k] < target by {
                        if k < mid {
                            lemma_byte_len_strictly_increasing(s@, k, mid as int);
                        }
                    }
                }
                lo = mid + 1;
            } else {
                proof {
                    assert forall|k: int| mid <= k <= s@.len() implies self.offsets@[k] > target by {
                        if k > mid {
                            lemma_byte_len_strictly_increasing(s@, mid as int, k);
                        }
                    }
                }
                hi = mid;
            }
        }
        proof {
            if exists|k: int| 0 <= k <= s@.len() && byte_len(s@.take(k)) == b {
                let k = choose|k: int| 0 <= k <= s@.len() && byte_len(s@.take(k)) == b;
                assert(self.offsets@[k] == target);
            }
        }
        None
    }

    /// A match span translated into character positions.
    pub fn span(&self, s: &[char], span: (usize, usize)) -> (r: Option<(usize, usize)>)
        requires
            self.describes(s@),
        ensures
            match r {
                Some((a, b)) => char_span(s@, span) == Some((a as int, b as int)) && b <= s@.len(),
                None => char_span(s@, span) is None,
            },
    {
        match (self.char_index(s, span.0), self.char_index(s, span.1)) {
            (Some(a), Some(b)) => {
                if a <= b {
                    Some((a, b))
                } else {
                    None
                }
            },
            _ => None,
        }
    }
}

} // verus!
