//! The executable composite comparator and the sort it drives.

use vstd::prelude::*;
use vstd::seq_lib::lemma_multiset_commutative;
use core::cmp::Ordering;
use crate::config::{cfg_view, IndexOrd, Indexer};
use crate::jsonval::{dot_get_value, num_cmp, val_view};
use crate::model::{
    dir3, doc_cmp, int_coerce, json_cmp, lemma_doc_cmp_flip, pair_cmp, str_coerce,
};
use crate::tree::Rec;

verus! {

/// An ordering adjusted for a sort direction.
fn apply_dir(o: Ordering, d: IndexOrd) -> (r: Ordering)
    ensures
        r == dir3(o, d),
{
    match d {
        IndexOrd::ASC => o,
        IndexOrd::DESC => match o {
            Ordering::Less => Ordering::Greater,
            Ordering::Equal => Ordering::Equal,
            Ordering::Greater => Ordering::Less,
        },
    }
}

/// How two extracted values compare, before any direction applies.
fn scalar_pair_cmp(la: &serde_json::Value, lb: &serde_json::Value) -> (r: Ordering)
    ensures
        r == pair_cmp(val_view(*la), val_view(*lb)),
{
    if la.is_string() && lb.is_string() {
        let sa = match la.as_str() {
            Some(s) => s,
            None => "",
        };
        let sb = match lb.as_str() {
            Some(s) => s,
            None => "",
        };
        crate::model::str_compare(sa, sb)
    } else if la.is_number() && lb.is_number() {
        num_cmp(la, lb)
    } else {
        Ordering::Equal
    }
}

/// Compares two documents as the configuration directs: the composite path
/// order for a `Json` index, the coerced scalar order for the others.
pub fn doc_compare(c: &Indexer, a: &serde_json::Value, b: &serde_json::Value) -> (r: Ordering)
    ensures
        r == doc_cmp(cfg_view(*c), val_view(*a), val_view(*b)),
{
    let ghost av = val_view(*a);
    let ghost bv = val_view(*b);
    match c {
        Indexer::Json(j) => {
            proof {
                assert(*c == Indexer::Json(*j));
            }
            let ghost pos = cfg_view(*c)->Json_0;
            let n = j.path_orders.len();
            let mut i: usize = 0;
            proof {
                assert(pos.skip(0) =~= pos);
            }
            while i < n
                invariant
                    i <= n,
                    n == j.path_orders@.len(),
                    *c == Indexer::Json(*j),
                    cfg_view(*c) == crate::config::CfgView::Json(pos),
                    pos.len() == n,
                    av == val_view(*a),
                    bv == val_view(*b),
                    json_cmp(pos, av, bv) == json_cmp(pos.skip(i as int), av, bv),
                decreases n - i,
            {
                let la = dot_get_value(a, j.path_orders[i].path.as_str());
                let lb = dot_get_value(b, j.path_orders[i].path.as_str());
                let pc = scalar_pair_cmp(&la, &lb);
                let pcd = apply_dir(pc, j.path_orders[i].ordering);
                proof {
                    assert(pos[i as int] == (
                        j.path_orders@[i as int].path@,
                        j.path_orders@[i as int].ordering,
                    ));
                    assert(pos.skip(i as int)[0] == pos[i as int]);
                    assert(pos.skip(i as int).drop_first() =~= pos.skip(i as int + 1));
                }
                if !matches!(pcd, Ordering::Equal) {
                    proof {
                        let iv = i as int;
                        assert(val_view(la) == crate::model::resolve(av, pos[iv].0));
                        assert(val_view(lb) == crate::model::resolve(bv, pos[iv].0));
                        assert(crate::model::path_cmp(
                            crate::model::resolve(av, pos.skip(iv)[0].0),
                            crate::model::resolve(bv, pos.skip(iv)[0].0),
                            pos.skip(iv)[0].1,
                        ) == pcd);
                        assert(json_cmp(pos.skip(iv), av, bv) == pcd);
                        assert(doc_cmp(cfg_view(*c), av, bv) == json_cmp(pos, av, bv));
                    }
                    return pcd;
                }
                i = i + 1;
            }
            proof {
                assert(pos.skip(n as int) =~= Seq::<(Seq<char>, IndexOrd)>::empty());
                assert(doc_cmp(cfg_view(*c), av, bv) == json_cmp(pos, av, bv));
            }
            Ordering::Equal
        },
        Indexer::Integer(s) => {
            let xa = match a.as_i64() {
                Some(v) => v,
                None => 0,
            };
            let xb = match b.as_i64() {
                Some(v) => v,
                None => 0,
            };
            proof {
                assert(xa as int == int_coerce(av));
                assert(xb as int == int_coerce(bv));
            }
            let o = if xa < xb {
                Ordering::Less
            } else if xa == xb {
                Ordering::Equal
            } else {
                Ordering::Greater
            };
            apply_dir(o, s.ordering)
        },
        Indexer::Float(s) => apply_dir(num_cmp(a, b), s.ordering),
        Indexer::String(s) => {
            let sa = match a.as_str() {
                Some(v) => v,
                None => "",
            };
            let sb = match b.as_str() {
                Some(v) => v,
                None => "",
            };
            proof {
                reveal_strlit("");
                assert(""@ =~= Seq::<char>::empty());
                assert(sa@ == str_coerce(av));
                assert(sb@ == str_coerce(bv));
            }
            apply_dir(crate::model::str_compare(sa, sb), s.ordering)
        },
    }
}

/// Whether one record may stand before another under the configuration's
/// comparator.  Opaque, so quantified sortedness statements stay small.
#[verifier::opaque]
pub open spec fn rec_le(c: crate::config::CfgView, a: Rec, b: Rec) -> bool {
    doc_cmp(c, val_view(a.1), val_view(b.1)) != Ordering::Greater
}

/// Whether every record stands no later than its immediate successor under
/// the configuration's comparator.
pub open spec fn sorted_adj(c: crate::config::CfgView, s: Seq<Rec>) -> bool {
    forall|i: int| 0 <= i < s.len() - 1 ==> rec_le(c, #[trigger] s[i], s[i + 1])
}

/// Inserting an element anywhere adds it to the sequence's multiset.
proof fn lemma_insert_multiset<T>(s: Seq<T>, k: int, x: T)
    requires
        0 <= k <= s.len(),
    ensures
        s.insert(k, x).to_multiset() == s.to_multiset().insert(x),
{
    broadcast use vstd::seq_lib::group_to_multiset_ensures;

    assert(s.insert(k, x) =~= s.take(k) + (seq![x] + s.skip(k)));
    lemma_multiset_commutative(s.take(k), seq![x] + s.skip(k));
    lemma_multiset_commutative(seq![x], s.skip(k));
    assert(s =~= s.take(k) + s.skip(k));
    lemma_multiset_commutative(s.take(k), s.skip(k));
    assert(seq![x] =~= Seq::<T>::empty().push(x));
    assert(Seq::<T>::empty().push(x).to_multiset() =~= Seq::<T>::empty().to_multiset().insert(x));
    assert(Seq::<T>::empty().to_multiset() =~= vstd::multiset::Multiset::<T>::empty()) by {
        assert(Seq::<T>::empty().to_multiset().len() == 0);
    }
    assert(s.insert(k, x).to_multiset() =~= s.to_multiset().insert(x));
}

/// Moving an element one place to the left keeps the sequence's multiset.
proof fn lemma_swap_multiset<T>(s: Seq<T>, j: int)
    requires
        1 <= j < s.len(),
    ensures
        s.remove(j - 1).insert(j, s[j - 1]).to_multiset() == s.to_multiset(),
{
    broadcast use vstd::multiset::group_multiset_axioms;

    s.to_multiset_ensures();
    lemma_insert_multiset(s.remove(j - 1), j, s[j - 1]);
    assert(s.to_multiset().count(s[j - 1]) > 0) by {
        assert(s.contains(s[j - 1]));
    }
    assert(s.to_multiset().remove(s[j - 1]).insert(s[j - 1]) =~= s.to_multiset());
}

/// One bubbling step of the sort: the record at `j - 1` ranked above its
/// neighbour and moved one place right; the disturbance migrates one pair
/// to the left.
#[verifier::rlimit(100)]
#[verifier::spinoff_prover]
proof fn lemma_bubble_step(cv: crate::config::CfgView, before: Seq<Rec>, after: Seq<Rec>, i: int, j: int)
    requires
        1 <= j <= i < before.len(),
        after == before.remove(j - 1).insert(j, before[j - 1]),
        forall|t: int| 0 <= t < i && t != j - 1 ==> rec_le(cv, #[trigger] before[t], before[t + 1]),
        0 < j < i ==> rec_le(cv, before[j - 1], before[j + 1]),
        !rec_le(cv, before[j - 1], before[j]),
    ensures
        after.len() == before.len(),
        after.to_multiset() == before.to_multiset(),
        forall|t: int| 0 <= t < i && t != j - 2 ==> rec_le(cv, #[trigger] after[t], after[t + 1]),
        0 < j - 1 < i ==> rec_le(cv, after[j - 2], after[j]),
{
    reveal(rec_le);
    assert(after =~= before.update(j - 1, before[j]).update(j, before[j - 1]));
    lemma_swap_multiset(before, j);
    lemma_doc_cmp_flip(cv, val_view(before[j - 1].1), val_view(before[j].1));
    assert forall|t: int|
        0 <= t < i && t != j - 2 implies rec_le(cv, #[trigger] after[t], after[t + 1]) by {
        if t < j - 2 || t > j {
            assert(after[t] == before[t] && after[t + 1] == before[t + 1]);
            assert(rec_le(cv, before[t], before[t + 1]));
        } else if t == j - 1 {
            assert(after[t].1 == before[j].1 && after[t + 1].1 == before[j - 1].1);
        } else if t == j {
            // The displaced record meets its new right neighbour, which was
            // adjacent to it before the bubbling began.
            assert(after[t].1 == before[j - 1].1 && after[t + 1].1 == before[t + 1].1);
            assert(rec_le(cv, before[j - 1], before[j + 1]));
        }
    }
    if 0 < j - 1 < i {
        assert(after[j - 2] == before[j - 2]);
        assert(after[j].1 == before[j - 1].1);
        assert(rec_le(cv, before[j - 2], before[j - 1]));
    }
}

/// Moves the record at `i` leftward until it no longer ranks below its
/// left neighbour, keeping every other adjacency intact.
#[verifier::rlimit(50)]
#[verifier::spinoff_prover]
fn bubble_down(c: &Indexer, v: &mut Vec<Rec>, i: usize)
    requires
        0 < i < old(v)@.len(),
        forall|t: int|
            0 <= t < i as int - 1 ==> rec_le(cfg_view(*c), #[trigger] old(v)@[t], old(v)@[t + 1]),
    ensures
        final(v)@.len() == old(v)@.len(),
        final(v)@.to_multiset() == old(v)@.to_multiset(),
        forall|t: int|
            0 <= t < i as int ==> rec_le(cfg_view(*c), #[trigger] final(v)@[t], final(v)@[t + 1]),
{
    let ghost cv = cfg_view(*c);
    let ghost m0 = old(v)@.to_multiset();
    let n = v.len();
    let mut j: usize = i;
    while j > 0
        invariant_except_break
            0 <= j <= i < n,
            n == v@.len(),
            cv == cfg_view(*c),
            v@.to_multiset() == m0,
            forall|t: int|
                0 <= t < i as int && t != j as int - 1 ==> rec_le(cv, #[trigger] v@[t], v@[t + 1]),
            0 < j < i ==> rec_le(cv, v@[j as int - 1], v@[j as int + 1]),
        ensures
            n == v@.len(),
            v@.to_multiset() == m0,
            forall|t: int| 0 <= t < i as int ==> rec_le(cv, #[trigger] v@[t], v@[t + 1]),
        decreases j,
    {
        let cmp = doc_compare(c, &v[j - 1].1, &v[j].1);
        proof {
            reveal(rec_le);
            assert(rec_le(cv, v@[j as int - 1], v@[j as int]) == !matches!(cmp, Ordering::Greater));
        }
        if !matches!(cmp, Ordering::Greater) {
            break ;
        }
        let ghost before = v@;
        let x = v.remove(j - 1);
        v.insert(j, x);
        proof {
            lemma_bubble_step(cv, before, v@, i as int, j as int);
        }
        j = j - 1;
    }
}

/// Sorts records in place by the configuration's comparator: the result is
/// a rearrangement in which no record ranks above its successor.
pub fn sort_records(c: &Indexer, v: &mut Vec<Rec>)
    ensures
        final(v)@.to_multiset() == old(v)@.to_multiset(),
        final(v)@.len() == old(v)@.len(),
        sorted_adj(cfg_view(*c), final(v)@),
{
    let ghost m0 = old(v)@.to_multiset();
    let ghost cv = cfg_view(*c);
    let n = v.len();
    if n == 0 {
        return ;
    }
    let mut i: usize = 1;
    while i < n
        invariant
            1 <= i <= n,
            n == v@.len(),
            cv == cfg_view(*c),
            v@.to_multiset() == m0,
            forall|t: int| 0 <= t < i as int - 1 ==> rec_le(cv, #[trigger] v@[t], v@[t + 1]),
        decreases n - i,
    {
        bubble_down(c, v, i);
        i = i + 1;
    }
}

} // verus!
