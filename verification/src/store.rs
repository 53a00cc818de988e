//! The primary store: an insertion-ordered keyed collection of documents,
//! held in an `IndexMap` behind trusted wrappers.

use vstd::prelude::*;
use crate::jsonval::val_view;
use crate::model::SpecVal;

verus! {

#[verifier::external_type_specification]
#[verifier::external_body]
#[verifier::reject_recursive_types(K)]
#[verifier::reject_recursive_types(V)]
#[verifier::reject_recursive_types(S)]
pub struct ExIndexMap<K, V, S>(indexmap::map::IndexMap<K, V, S>);

/// The concrete map type of the primary store.
pub type StoreMap = indexmap::map::IndexMap<
    String,
    serde_json::Value,
    std::collections::hash_map::RandomState,
>;

/// The entries of the store in insertion order, each as the key's characters
/// and the document's content.
pub uninterp spec fn store_entries(m: StoreMap) -> Seq<(Seq<char>, SpecVal)>;

/// The first position holding the key, or `-1`.
pub open spec fn sfind(s: Seq<(Seq<char>, SpecVal)>, k: Seq<char>) -> int
    decreases s.len(),
{
    if s.len() == 0 {
        -1
    } else if s[0].0 == k {
        0
    } else {
        let r = sfind(s.drop_first(), k);
        if r < 0 {
            -1
        } else {
            r + 1
        }
    }
}

/// Whether every key occurs at most once.
pub open spec fn skeys_uniq(s: Seq<(Seq<char>, SpecVal)>) -> bool {
    forall|i: int, j: int| 0 <= i < j < s.len() ==> s[i].0 != s[j].0
}

/// What `sfind` finds: a position of the key, or evidence of its absence.
pub proof fn lemma_sfind(s: Seq<(Seq<char>, SpecVal)>, k: Seq<char>)
    ensures
        -1 <= sfind(s, k) < s.len(),
        sfind(s, k) >= 0 ==> s[sfind(s, k)].0 == k,
        sfind(s, k) < 0 ==> forall|i: int| 0 <= i < s.len() ==> s[i].0 != k,
        sfind(s, k) >= 0 ==> forall|i: int| 0 <= i < sfind(s, k) ==> s[i].0 != k,
    decreases s.len(),
{
    if s.len() > 0 && s[0].0 != k {
        lemma_sfind(s.drop_first(), k);
        assert forall|i: int| 0 <= i < s.len() && sfind(s, k) < 0 implies s[i].0 != k by {
            if i > 0 {
                assert(s.drop_first()[i - 1] == s[i]);
            }
        }
        assert forall|i: int| 0 <= i < sfind(s, k) implies s[i].0 != k by {
            if i > 0 {
                assert(s.drop_first()[i - 1] == s[i]);
            }
        }
    }
}

/// The first position holding the key is the one `sfind` finds.
pub proof fn lemma_sfind_unique_keys(s: Seq<(Seq<char>, SpecVal)>, k: Seq<char>, i: int)
    requires
        0 <= i < s.len(),
        s[i].0 == k,
        forall|t: int| 0 <= t < i ==> (#[trigger] s[t]).0 != k,
    ensures
        sfind(s, k) == i,
{
    lemma_sfind(s, k);
}

/// With unique keys, any position holding the key is the one `sfind` finds.
pub proof fn lemma_sfind_unique(s: Seq<(Seq<char>, SpecVal)>, k: Seq<char>, i: int)
    requires
        skeys_uniq(s),
        0 <= i < s.len(),
        s[i].0 == k,
    ensures
        sfind(s, k) == i,
{
    lemma_sfind(s, k);
}

/// Pushing an entry moves no earlier key and files the new one last.
pub proof fn lemma_sfind_push(s: Seq<(Seq<char>, SpecVal)>, e: (Seq<char>, SpecVal), k: Seq<char>)
    ensures
        k != e.0 ==> sfind(s.push(e), k) == sfind(s, k),
        k == e.0 && sfind(s, k) < 0 ==> sfind(s.push(e), k) == s.len(),
        k == e.0 && sfind(s, k) >= 0 ==> sfind(s.push(e), k) == sfind(s, k),
    decreases s.len(),
{
    lemma_sfind(s, k);
    if s.len() == 0 {
        assert(s.push(e)[0] == e);
        assert(s.push(e).drop_first() =~= Seq::<(Seq<char>, SpecVal)>::empty());
        assert(sfind(Seq::<(Seq<char>, SpecVal)>::empty(), k) == -1);
        assert(sfind(s, k) == -1);
    } else {
        assert(s.push(e)[0] == s[0]);
        assert(s.push(e).drop_first() =~= s.drop_first().push(e));
        lemma_sfind_push(s.drop_first(), e, k);
    }
}

/// Replacing an entry under the same key moves nothing.
pub proof fn lemma_sfind_update(
    s: Seq<(Seq<char>, SpecVal)>,
    i: int,
    e: (Seq<char>, SpecVal),
    k: Seq<char>,
)
    requires
        0 <= i < s.len(),
        e.0 == s[i].0,
    ensures
        sfind(s.update(i, e), k) == sfind(s, k),
    decreases s.len(),
{
    if i == 0 {
        assert(s.update(0, e)[0].0 == s[0].0);
        assert(s.update(0, e).drop_first() =~= s.drop_first());
    } else {
        assert(s.update(i, e)[0] == s[0]);
        assert(s.update(i, e).drop_first() =~= s.drop_first().update(i - 1, e));
        lemma_sfind_update(s.drop_first(), i - 1, e, k);
    }
}

/// What removal by swapping with the last entry does to lookups: the
/// removed key is gone, every other key keeps its value.
pub proof fn lemma_entries_swapremove(s: Seq<(Seq<char>, SpecVal)>, i: int, k: Seq<char>)
    requires
        skeys_uniq(s),
        0 <= i < s.len(),
    ensures
        ({
            let s2 = s.update(i, s.last()).drop_last();
            &&& skeys_uniq(s2)
            &&& sfind(s2, s[i].0) < 0
            &&& (k != s[i].0 ==> ((sfind(s2, k) >= 0) == (sfind(s, k) >= 0)))
            &&& (k != s[i].0 && sfind(s, k) >= 0 ==> sfind(s2, k) >= 0 && s2[sfind(s2, k)].1
                == s[sfind(s, k)].1)
        }),
{
    let s2 = s.update(i, s.last()).drop_last();
    let n = s.len() as int;
    assert forall|t: int| 0 <= t < s2.len() implies s2[t] == (if t == i && i < n - 1 {
        s[n - 1]
    } else {
        s[t]
    }) by {}
    assert(skeys_uniq(s2));
    lemma_sfind(s, k);
    lemma_sfind(s2, k);
    lemma_sfind(s2, s[i].0);
    if sfind(s2, s[i].0) >= 0 {
        let t = sfind(s2, s[i].0);
        assert(s2[t].0 == s[i].0);
        if t == i && i < n - 1 {
            assert(s[n - 1].0 == s[i].0);
            assert(false);
        } else {
            assert(s[t].0 == s[i].0);
            assert(t == i);
            assert(i == n - 1 && t < n - 1);
            assert(false);
        }
    }
    if k != s[i].0 {
        if sfind(s, k) >= 0 {
            let t = sfind(s, k);
            assert(t != i);
            if t == n - 1 {
                assert(i < n - 1);
                assert(s2[i] == s[n - 1]);
                assert(sfind(s2, k) >= 0);
            } else {
                assert(s2[t] == s[t]);
                assert(sfind(s2, k) >= 0);
            }
            let t2 = sfind(s2, k);
            assert(s2[t2].0 == k);
            if t2 == i && i < n - 1 {
                assert(s2[t2] == s[n - 1]);
                assert(t == n - 1);
            } else {
                assert(s2[t2] == s[t2]);
                assert(t2 == t);
            }
        } else {
            if sfind(s2, k) >= 0 {
                let t2 = sfind(s2, k);
                if t2 == i && i < n - 1 {
                    assert(s[n - 1].0 == k);
                } else {
                    assert(s[t2].0 == k);
                }
                assert(false);
            }
        }
    }
}

/// An entry keyed anew replaces its key's entry in place or lands at the
/// end.
pub open spec fn sput(s: Seq<(Seq<char>, SpecVal)>, k: Seq<char>, v: SpecVal) -> Seq<
    (Seq<char>, SpecVal),
> {
    let i = sfind(s, k);
    if i >= 0 {
        s.update(i, (k, v))
    } else {
        s.push((k, v))
    }
}

/// Replacing or appending under a fresh key keeps keys unique, and every
/// entry is an old entry or the new one.
pub proof fn lemma_sput_uniq(s: Seq<(Seq<char>, SpecVal)>, k: Seq<char>, v: SpecVal)
    requires
        skeys_uniq(s),
    ensures
        skeys_uniq(sput(s, k, v)),
        forall|t: int|
            0 <= t < sput(s, k, v).len() ==> (#[trigger] sput(s, k, v)[t]) == (k, v) || (t < s.len()
                && sput(s, k, v)[t] == s[t]),
{
    lemma_sfind(s, k);
    let s2 = sput(s, k, v);
    if sfind(s, k) >= 0 {
        assert(skeys_uniq(s2));
    } else {
        assert forall|a: int, b: int| 0 <= a < b < s2.len() implies s2[a].0 != s2[b].0 by {
            if b == s2.len() - 1 {
                assert(s2[a] == s[a]);
            } else {
                assert(s2[a] == s[a] && s2[b] == s[b]);
            }
        }
    }
}

/// Relies on `IndexMap::new`: the empty map.
#[verifier::external_body]
pub fn store_new() -> (m: StoreMap)
    ensures
        store_entries(m).len() == 0,
{
    indexmap::map::IndexMap::new()
}

/// Relies on `IndexMap::len`: the number of entries.
#[verifier::external_body]
pub fn store_len(m: &StoreMap) -> (n: usize)
    ensures
        n as int == store_entries(*m).len(),
{
    m.len()
}

/// Relies on `IndexMap::contains_key`: whether the key is present.
#[verifier::external_body]
pub fn store_contains(m: &StoreMap, k: &str) -> (r: bool)
    ensures
        r == (sfind(store_entries(*m), k@) >= 0),
{
    m.contains_key(k)
}

/// Relies on `IndexMap::insert`: an existing key keeps its place and gets
/// the new value, a new key is appended last.
#[verifier::external_body]
pub fn store_insert(m: &mut StoreMap, k: String, v: serde_json::Value) -> (r: Option<
    serde_json::Value,
>)
    ensures
        ({
            let e = store_entries(*old(m));
            let i = sfind(e, k@);
            if i >= 0 {
                &&& store_entries(*final(m)) == e.update(i, (k@, val_view(v)))
                &&& r matches Some(ov) && val_view(ov) == e[i].1
            } else {
                &&& store_entries(*final(m)) == e.push((k@, val_view(v)))
                &&& r is None
            }
        }),
{
    m.insert(k, v)
}

/// Relies on `IndexMap::swap_remove`: the removed entry's place is filled by
/// the last entry.
#[verifier::external_body]
pub fn store_swap_remove(m: &mut StoreMap, k: &str) -> (r: Option<serde_json::Value>)
    ensures
        ({
            let e = store_entries(*old(m));
            let i = sfind(e, k@);
            if i >= 0 {
                &&& r matches Some(v) && val_view(v) == e[i].1
                &&& store_entries(*final(m)) == e.update(i, e.last()).drop_last()
            } else {
                &&& store_entries(*final(m)) == e
                &&& r is None
            }
        }),
{
    m.swap_remove(k)
}

/// Relies on `IndexMap::iter`: the entries in order, keys and documents
/// copied.
#[verifier::external_body]
pub fn store_items(m: &StoreMap) -> (r: Vec<(String, serde_json::Value)>)
    ensures
        r@.len() == store_entries(*m).len(),
        forall|i: int|
            0 <= i < r@.len() ==> r@[i].0@ == store_entries(*m)[i].0 && val_view(r@[i].1)
                == store_entries(*m)[i].1,
{
    m.iter().map(|(k, v)| (k.clone(), v.clone())).collect()
}

} // verus!
