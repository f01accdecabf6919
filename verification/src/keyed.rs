//! An insertion-ordered map from message keys to positions, kept in an
//! `indexmap::IndexMap`, whose behaviour here is stated over the sequence of
//! its `(key, value)` pairs in order.
use vstd::prelude::*;
use indexmap::IndexMap;
use crate::po::str_lt;

verus! {

#[verifier::external_type_specification]
#[verifier::external_body]
#[verifier::reject_recursive_types(K)]
#[verifier::reject_recursive_types(V)]
#[verifier::reject_recursive_types(S)]
pub struct ExIndexMap<K, V, S>(IndexMap<K, V, S>);

/// The `(key, value)` pairs of a map, in the map's order.
pub uninterp spec fn index_entries(m: IndexMap<String, usize>) -> Seq<(Seq<char>, usize)>;

/// Position of the pair with key `k`, or -1.
pub open spec fn key_index<V>(es: Seq<(Seq<char>, V)>, k: Seq<char>) -> int
    decreases es.len(),
{
    if es.len() == 0 {
        -1
    } else if es[0].0 == k {
        0
    } else {
        let i = key_index(es.drop_first(), k);
        if i < 0 {
            -1
        } else {
            i + 1
        }
    }
}

pub proof fn lemma_key_index<V>(es: Seq<(Seq<char>, V)>, k: Seq<char>)
    ensures
        -1 <= key_index(es, k) < es.len(),
        key_index(es, k) >= 0 ==> es[key_index(es, k)].0 == k,
        key_index(es, k) < 0 ==> forall|j: int| 0 <= j < es.len() ==> es[j].0 != k,
    decreases es.len(),
{
    if es.len() > 0 && es[0].0 != k {
        lemma_key_index(es.drop_first(), k);
        if key_index(es, k) < 0 {
            assert forall|j: int| 0 <= j < es.len() implies es[j].0 != k by {
                if j > 0 {
                    assert(es[j] == es.drop_first()[j - 1]);
                }
            }
        }
    }
}

/// The pairs after inserting `(k, v)`: an existing key keeps its place and
/// takes the new value; a new key goes last.
pub open spec fn insert_entry<V>(es: Seq<(Seq<char>, V)>, k: Seq<char>, v: V) -> Seq<
    (Seq<char>, V),
> {
    let i = key_index(es, k);
    if i >= 0 {
        es.update(i, (k, v))
    } else {
        es.push((k, v))
    }
}

/// Positions of keys do not depend on what the pairs carry besides them.
pub proof fn lemma_key_index_same_keys<V, W>(a: Seq<(Seq<char>, V)>, b: Seq<(Seq<char>, W)>, k: Seq<char>)
    requires
        a.len() == b.len(),
        forall|j: int| 0 <= j < a.len() ==> a[j].0 == b[j].0,
    ensures
        key_index(a, k) == key_index(b, k),
    decreases a.len(),
{
    if a.len() > 0 {
        lemma_key_index_same_keys(a.drop_first(), b.drop_first(), k);
    }
}

/// Where a pair goes among pairs sorted by key: after every pair whose key is
/// not greater.
pub open spec fn pair_insert_pos<V>(s: Seq<(Seq<char>, V)>, x: Seq<char>) -> int
    decreases s.len(),
{
    if s.len() == 0 {
        0
    } else if str_lt(x, s[0].0) {
        0
    } else {
        1 + pair_insert_pos(s.drop_first(), x)
    }
}

/// The pairs stably sorted by key.
pub open spec fn sort_pairs<V>(s: Seq<(Seq<char>, V)>) -> Seq<(Seq<char>, V)>
    decreases s.len(),
{
    if s.len() == 0 {
        s
    } else {
        let t = sort_pairs(s.drop_last());
        t.insert(pair_insert_pos(t, s.last().0), s.last())
    }
}

/// The pairs with `f` applied to each value.
pub open spec fn map_pair_values<V, W>(s: Seq<(Seq<char>, V)>, f: spec_fn(V) -> W) -> Seq<
    (Seq<char>, W),
> {
    s.map_values(|p: (Seq<char>, V)| (p.0, f(p.1)))
}

pub proof fn lemma_pair_insert_pos_map<V, W>(t: Seq<(Seq<char>, V)>, f: spec_fn(V) -> W, x: Seq<char>)
    ensures
        pair_insert_pos(map_pair_values(t, f), x) == pair_insert_pos(t, x),
        0 <= pair_insert_pos(t, x) <= t.len(),
    decreases t.len(),
{
    if t.len() > 0 {
        assert(map_pair_values(t, f).drop_first() =~= map_pair_values(t.drop_first(), f));
        lemma_pair_insert_pos_map(t.drop_first(), f, x);
    }
}

/// Sorting by key and changing the values commute.
pub proof fn lemma_sort_pairs_map<V, W>(s: Seq<(Seq<char>, V)>, f: spec_fn(V) -> W)
    ensures
        sort_pairs(map_pair_values(s, f)) == map_pair_values(sort_pairs(s), f),
        sort_pairs(s).len() == s.len(),
    decreases s.len(),
{
    if s.len() > 0 {
        let ms = map_pair_values(s, f);
        assert(ms.drop_last() =~= map_pair_values(s.drop_last(), f));
        lemma_sort_pairs_map(s.drop_last(), f);
        let t = sort_pairs(s.drop_last());
        lemma_pair_insert_pos_map(t, f, s.last().0);
        let p = pair_insert_pos(t, s.last().0);
        assert(map_pair_values(t, f).insert(p, (s.last().0, f(s.last().1))) =~= map_pair_values(
            t.insert(p, s.last()),
            f,
        ));
    } else {
        assert(map_pair_values(s, f) =~= s.map_values(|p: (Seq<char>, V)| (p.0, f(p.1))));
        assert(sort_pairs(map_pair_values(s, f)) =~= map_pair_values(sort_pairs(s), f));
    }
}

/// Every pair of the sorted sequence is a pair of the unsorted one.
pub proof fn lemma_sort_pairs_members<V>(s: Seq<(Seq<char>, V)>, k: int)
    requires
        0 <= k < sort_pairs(s).len(),
    ensures
        exists|j: int| 0 <= j < s.len() && s[j] == sort_pairs(s)[k],
        sort_pairs(s).len() == s.len(),
    decreases s.len(),
{
    if s.len() > 0 {
        let t = sort_pairs(s.drop_last());
        lemma_pair_insert_pos_bound(t, s.last().0);
        let p = pair_insert_pos(t, s.last().0);
        lemma_sort_pairs_len(s.drop_last());
        if k == p {
            assert(s[s.len() - 1] == sort_pairs(s)[k]);
        } else {
            let k2 = if k < p {
                k
            } else {
                k - 1
            };
            lemma_sort_pairs_members(s.drop_last(), k2);
            let j = choose|j: int| 0 <= j < s.drop_last().len() && s.drop_last()[j] == t[k2];
            assert(s[j] == sort_pairs(s)[k]);
        }
    }
}

pub proof fn lemma_pair_insert_pos_bound<V>(t: Seq<(Seq<char>, V)>, x: Seq<char>)
    ensures
        0 <= pair_insert_pos(t, x) <= t.len(),
    decreases t.len(),
{
    if t.len() > 0 {
        lemma_pair_insert_pos_bound(t.drop_first(), x);
    }
}

pub proof fn lemma_sort_pairs_len<V>(s: Seq<(Seq<char>, V)>)
    ensures
        sort_pairs(s).len() == s.len(),
    decreases s.len(),
{
    if s.len() > 0 {
        lemma_sort_pairs_len(s.drop_last());
        lemma_pair_insert_pos_bound(sort_pairs(s.drop_last()), s.last().0);
    }
}

/// After inserting `v` under `k`, looking `k` up gives `v`, and every other
/// key gives what it gave before.
pub proof fn law_insert_then_lookup<V>(es: Seq<(Seq<char>, V)>, k: Seq<char>, v: V, other: Seq<char>)
    ensures
        key_index(insert_entry(es, k, v), k) >= 0,
        insert_entry(es, k, v)[key_index(insert_entry(es, k, v), k)].1 == v,
        other != k ==> (key_index(insert_entry(es, k, v), other) >= 0 <==> key_index(es, other)
            >= 0),
        other != k && key_index(es, other) >= 0 ==> insert_entry(es, k, v)[key_index(
            insert_entry(es, k, v),
            other,
        )].1 == es[key_index(es, other)].1,
{
    lemma_key_index(es, k);
    lemma_key_index(es, other);
    let n = insert_entry(es, k, v);
    let i = key_index(es, k);
    if i >= 0 {
        lemma_key_index_same_keys(n, es, k);
        lemma_key_index_same_keys(n, es, other);
    } else {
        lemma_key_index_after_push(es, (k, v), k);
        lemma_key_index_after_push(es, (k, v), other);
    }
    lemma_key_index(n, k);
    lemma_key_index(n, other);
}

pub proof fn lemma_key_index_after_push<V>(s: Seq<(Seq<char>, V)>, x: (Seq<char>, V), k: Seq<char>)
    ensures
        key_index(s, k) >= 0 ==> key_index(s.push(x), k) == key_index(s, k),
        key_index(s, k) < 0 && x.0 == k ==> key_index(s.push(x), k) == s.len(),
        key_index(s, k) < 0 && x.0 != k ==> key_index(s.push(x), k) < 0,
    decreases s.len(),
{
    if s.len() > 0 {
        assert(s.push(x).drop_first() =~= s.drop_first().push(x));
        assert(s.push(x)[0] == s[0]);
        lemma_key_index_after_push(s.drop_first(), x, k);
    } else {
        assert(s.push(x).drop_first() =~= Seq::<(Seq<char>, V)>::empty());
        assert(s.push(x)[0] == x);
        assert(key_index(s.push(x).drop_first(), k) == -1);
    }
}

/// The pairs are in ascending order of key.
pub open spec fn sorted_by_key<V>(s: Seq<(Seq<char>, V)>) -> bool {
    forall|i: int, j: int| 0 <= i < j < s.len() ==> !str_lt((#[trigger] s[j]).0, (#[trigger] s[i]).0)
}

proof fn lemma_pair_insert_pos_facts<V>(t: Seq<(Seq<char>, V)>, x: Seq<char>)
    ensures
        forall|i: int| 0 <= i < pair_insert_pos(t, x) ==> !str_lt(x, (#[trigger] t[i]).0),
        pair_insert_pos(t, x) < t.len() ==> str_lt(x, t[pair_insert_pos(t, x)].0),
        0 <= pair_insert_pos(t, x) <= t.len(),
    decreases t.len(),
{
    if t.len() > 0 && !str_lt(x, t[0].0) {
        lemma_pair_insert_pos_facts(t.drop_first(), x);
        assert forall|i: int| 0 <= i < pair_insert_pos(t, x) implies !str_lt(x, (#[trigger] t[i]).0) by {
            if i > 0 {
                assert(t[i] == t.drop_first()[i - 1]);
            }
        }
    }
}

proof fn lemma_insert_sorted<V>(t: Seq<(Seq<char>, V)>, p: (Seq<char>, V))
    requires
        sorted_by_key(t),
    ensures
        sorted_by_key(t.insert(pair_insert_pos(t, p.0), p)),
{
    let k = pair_insert_pos(t, p.0);
    lemma_pair_insert_pos_facts(t, p.0);
    let u = t.insert(k, p);
    assert forall|i: int, j: int| 0 <= i < j < u.len() implies !str_lt(
        (#[trigger] u[j]).0,
        (#[trigger] u[i]).0,
    ) by {
        if i < k && j == k {
            assert(u[i] == t[i]);
            crate::po::lemma_str_lt_total(p.0, t[i].0);
        } else if i == k && j > k {
            assert(u[j] == t[j - 1]);
            assert(str_lt(p.0, t[k].0));
            if j - 1 > k {
                assert(!str_lt(t[j - 1].0, t[k].0));
                crate::po::lemma_str_lt_total(t[j - 1].0, t[k].0);
                if str_lt(t[k].0, t[j - 1].0) {
                    crate::po::lemma_str_lt_transitive(p.0, t[k].0, t[j - 1].0);
                }
            }
            crate::po::lemma_str_lt_total(t[j - 1].0, p.0);
        } else if j < k {
            assert(u[i] == t[i] && u[j] == t[j]);
        } else if i < k && j > k {
            assert(u[i] == t[i] && u[j] == t[j - 1]);
        } else {
            assert(u[i] == t[i - 1] && u[j] == t[j - 1]);
        }
    }
}

/// Sorting by key puts the pairs in ascending order of key and keeps every
/// pair, as often as it occurs.
pub proof fn law_sort_pairs<V>(s: Seq<(Seq<char>, V)>)
    ensures
        sorted_by_key(sort_pairs(s)),
        sort_pairs(s).to_multiset() == s.to_multiset(),
    decreases s.len(),
{
    if s.len() > 0 {
        law_sort_pairs(s.drop_last());
        let t = sort_pairs(s.drop_last());
        lemma_insert_sorted(t, s.last());
        lemma_pair_insert_pos_bound(t, s.last().0);
        vstd::seq_lib::to_multiset_insert(t, pair_insert_pos(t, s.last().0), s.last());
        vstd::seq_lib::to_multiset_build(s.drop_last(), s.last());
        assert(s.drop_last().push(s.last()) =~= s);
    } else {
        assert(sort_pairs(s).to_multiset() =~= s.to_multiset());
    }
}

pub open spec fn pairs_view(v: Seq<(String, usize)>) -> Seq<(Seq<char>, usize)> {
    v.map_values(|p: (String, usize)| (p.0@, p.1))
}

/// Wraps `IndexMap::new`: an empty map.
#[verifier::external_body]
pub(crate) fn index_new() -> (m: IndexMap<String, usize>)
    ensures
        index_entries(m) == Seq::<(Seq<char>, usize)>::empty(),
{
    IndexMap::new()
}

/// Wraps `IndexMap::get`: the value stored under `key`, if any.
#[verifier::external_body]
pub(crate) fn index_get(m: &IndexMap<String, usize>, key: &str) -> (r: Option<usize>)
    ensures
        match r {
            Some(v) => key_index(index_entries(*m), key@) >= 0 && index_entries(*m)[key_index(
                index_entries(*m),
                key@,
            )].1 == v,
            None => key_index(index_entries(*m), key@) < 0,
        },
{
    m.get(key).copied()
}

/// Wraps `IndexMap::insert`: an existing key keeps its place in the order and
/// takes the new value; a new key is appended.
#[verifier::external_body]
pub(crate) fn index_insert(m: &mut IndexMap<String, usize>, key: String, value: usize)
    ensures
        index_entries(*final(m)) == insert_entry(index_entries(*old(m)), key@, value),
{
    m.insert(key, value);
}

/// Wraps `IndexMap::sort_keys`, a stable sort of the pairs by the keys'
/// `Ord`, which orders strings as `str_lt` does.
#[verifier::external_body]
pub(crate) fn index_sort_keys(m: &mut IndexMap<String, usize>)
    ensures
        index_entries(*final(m)) == sort_pairs(index_entries(*old(m))),
{
    m.sort_keys();
}

/// Wraps `IndexMap::iter`: the pairs in the map's order.
#[verifier::external_body]
pub(crate) fn index_pairs(m: &IndexMap<String, usize>) -> (r: Vec<(String, usize)>)
    ensures
        pairs_view(r@) == index_entries(*m),
{
    m.iter().map(|(k, v)| (k.clone(), *v)).collect()
}

} // verus!
