//! The insertion-ordered map that holds resolved options, modelled as a
//! sequence of key/value pairs in insertion order.

use vstd::prelude::*;
use ordermap::OrderMap;

verus! {

#[verifier::external_type_specification]
#[verifier::external_body]
#[verifier::reject_recursive_types(K)]
#[verifier::reject_recursive_types(V)]
#[verifier::reject_recursive_types(S)]
pub struct ExOrderMap<K, V, S>(OrderMap<K, V, S>);

/// The key/value pairs of `m`, in their insertion order.
pub uninterp spec fn omap_entries(m: OrderMap<String, String>) -> Seq<(Seq<char>, Seq<char>)>;

/// First index whose key is `k`, or `-1`.
pub open spec fn entry_index(es: Seq<(Seq<char>, Seq<char>)>, k: Seq<char>) -> int
    decreases es.len(),
{
    if es.len() == 0 {
        -1
    } else if es[0].0 == k {
        0
    } else {
        let r = entry_index(es.skip(1), k);
        if r == -1 {
            -1
        } else {
            r + 1
        }
    }
}

pub open spec fn entries_has_key(es: Seq<(Seq<char>, Seq<char>)>, k: Seq<char>) -> bool {
    exists|i: int| 0 <= i < es.len() && es[i].0 == k
}

/// The value under the first occurrence of `k`, if any.
pub open spec fn value_of(es: Seq<(Seq<char>, Seq<char>)>, k: Seq<char>) -> Option<Seq<char>> {
    if entry_index(es, k) >= 0 {
        Some(es[entry_index(es, k)].1)
    } else {
        None
    }
}

/// What an insertion does to the entries: a present key keeps its place
/// and takes the new value, an absent key is appended last.
pub open spec fn entries_insert(
    es: Seq<(Seq<char>, Seq<char>)>,
    k: Seq<char>,
    v: Seq<char>,
) -> Seq<(Seq<char>, Seq<char>)> {
    let i = entry_index(es, k);
    if i == -1 {
        es.push((k, v))
    } else {
        es.update(i, (k, v))
    }
}

pub proof fn lemma_entry_index(es: Seq<(Seq<char>, Seq<char>)>, k: Seq<char>)
    ensures
        entry_index(es, k) >= -1,
        entry_index(es, k) == -1 ==> !entries_has_key(es, k),
        entry_index(es, k) >= 0 ==> 0 <= entry_index(es, k) < es.len() && es[entry_index(
            es,
            k,
        )].0 == k && (forall|j: int| 0 <= j < entry_index(es, k) ==> es[j].0 != k),
    decreases es.len(),
{
    if es.len() > 0 && es[0].0 != k {
        lemma_entry_index(es.skip(1), k);
        let r = entry_index(es.skip(1), k);
        if r == -1 {
            assert forall|i: int| 0 <= i < es.len() implies es[i].0 != k by {
                if i > 0 {
                    assert(es.skip(1)[i - 1] == es[i]);
                }
            }
        } else {
            assert(0 <= r < es.skip(1).len());
            assert(es.skip(1)[r] == es[r + 1]);
            assert forall|j: int| 0 <= j < r + 1 implies es[j].0 != k by {
                if j > 0 {
                    assert(es.skip(1)[j - 1] == es[j]);
                }
            }
        }
    }
    if es.len() > 0 && es[0].0 == k {
        assert(es[0].0 == k);
    }
}

/// How appending one pair moves the first index of each key.
pub proof fn lemma_entry_index_push(
    es: Seq<(Seq<char>, Seq<char>)>,
    p: (Seq<char>, Seq<char>),
    q: Seq<char>,
)
    ensures
        entry_index(es.push(p), q) == if entry_index(es, q) >= 0 {
            entry_index(es, q)
        } else if p.0 == q {
            es.len() as int
        } else {
            -1
        },
    decreases es.len(),
{
    lemma_entry_index(es, q);
    if es.len() == 0 {
        assert(es.push(p).skip(1) =~= Seq::<(Seq<char>, Seq<char>)>::empty());
        assert(es.push(p)[0] == p);
        assert(entry_index(Seq::<(Seq<char>, Seq<char>)>::empty(), q) == -1);
        if p.0 == q {
            assert(entry_index(es.push(p), q) == 0);
        } else {
            assert(entry_index(es.push(p), q) == -1);
        }
    } else {
        assert(es.push(p)[0] == es[0]);
        if es[0].0 != q {
            assert(es.push(p).skip(1) =~= es.skip(1).push(p));
            lemma_entry_index_push(es.skip(1), p, q);
            lemma_entry_index(es.skip(1), q);
            let r1 = entry_index(es.skip(1).push(p), q);
            assert(entry_index(es.push(p), q) == if r1 == -1 {
                -1int
            } else {
                r1 + 1
            });
            let r0 = entry_index(es.skip(1), q);
            assert(entry_index(es, q) == if r0 == -1 {
                -1int
            } else {
                r0 + 1
            });
        } else {
            assert(entry_index(es.push(p), q) == 0);
            assert(entry_index(es, q) == 0);
        }
    }
}

/// Relies on ordermap::OrderMap::new: a new map is empty.
#[verifier::external_body]
pub(crate) fn omap_new() -> (m: OrderMap<String, String>)
    ensures
        omap_entries(m) == Seq::<(Seq<char>, Seq<char>)>::empty(),
{
    OrderMap::new()
}

/// Relies on ordermap::OrderMap::insert: an existing key retains its
/// place in the order and its value is updated; a new key is inserted
/// last in order.
#[verifier::external_body]
pub(crate) fn omap_insert(m: &mut OrderMap<String, String>, k: String, v: String)
    ensures
        omap_entries(*final(m)) == entries_insert(omap_entries(*old(m)), k@, v@),
{
    m.insert(k, v);
}

/// Relies on ordermap::OrderMap::contains_key.
#[verifier::external_body]
pub(crate) fn omap_contains(m: &OrderMap<String, String>, k: &str) -> (r: bool)
    ensures
        r == entries_has_key(omap_entries(*m), k@),
{
    m.contains_key(k)
}

/// Relies on ordermap::OrderMap::get: the value under an equivalent key.
#[verifier::external_body]
pub(crate) fn omap_get<'a>(m: &'a OrderMap<String, String>, k: &str) -> (r: Option<&'a String>)
    ensures
        match r {
            Some(v) => value_of(omap_entries(*m), k@) == Some(v@),
            None => value_of(omap_entries(*m), k@) is None,
        },
{
    m.get(k)
}

/// View of cloned pairs.
pub open spec fn pairs_view(v: Seq<(String, String)>) -> Seq<(Seq<char>, Seq<char>)> {
    Seq::new(v.len(), |i: int| (v[i].0@, v[i].1@))
}

/// Relies on ordermap::OrderMap::iter: the pairs come in their order.
#[verifier::external_body]
pub(crate) fn omap_pairs(m: &OrderMap<String, String>) -> (r: Vec<(String, String)>)
    ensures
        pairs_view(r@) == omap_entries(*m),
{
    m.iter().map(|(k, v)| (k.clone(), v.clone())).collect()
}

} // verus!
