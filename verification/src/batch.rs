//! Batched mutation: inserts, updates and deletes staged together, applied
//! as one unit and followed by a full rebuild of the trees.

use vstd::prelude::*;
use crate::config::{cfg_view, Indexer};
use crate::index::{passes_filter, Index};
use crate::jsonval::val_view;
use crate::model::{accepts, SpecVal};
use crate::query::recs_view;
use crate::store::{
    lemma_entries_swapremove, lemma_sfind, lemma_sput_uniq, sfind, skeys_uniq, sput,
    store_contains, store_insert, store_swap_remove,
};
use crate::tree::Rec;

verus! {

/// The store after the staged inserts, applied first to last.
pub open spec fn fold_upserts(
    s: Seq<(Seq<char>, SpecVal)>,
    ps: Seq<(Seq<char>, SpecVal)>,
) -> Seq<(Seq<char>, SpecVal)>
    decreases ps.len(),
{
    if ps.len() == 0 {
        s
    } else {
        fold_upserts(sput(s, ps[0].0, ps[0].1), ps.drop_first())
    }
}

/// The store after the staged updates: each lands only where its key is
/// already present.
pub open spec fn fold_updates(
    s: Seq<(Seq<char>, SpecVal)>,
    ps: Seq<(Seq<char>, SpecVal)>,
) -> Seq<(Seq<char>, SpecVal)>
    decreases ps.len(),
{
    if ps.len() == 0 {
        s
    } else {
        let s2 = if sfind(s, ps[0].0) >= 0 {
            sput(s, ps[0].0, ps[0].1)
        } else {
            s
        };
        fold_updates(s2, ps.drop_first())
    }
}

/// The store after the staged deletes, each removed by the swap rule;
/// absent keys fall through.
pub open spec fn fold_deletes(s: Seq<(Seq<char>, SpecVal)>, ks: Seq<Seq<char>>) -> Seq<
    (Seq<char>, SpecVal),
>
    decreases ks.len(),
{
    if ks.len() == 0 {
        s
    } else {
        let i = sfind(s, ks[0]);
        let s2 = if i >= 0 {
            s.update(i, s.last()).drop_last()
        } else {
            s
        };
        fold_deletes(s2, ks.drop_first())
    }
}

/// The keys a list of staged deletes names.
pub open spec fn keys_view(ks: Seq<String>) -> Seq<Seq<char>> {
    ks.map_values(|k: String| k@)
}

/// A staged group of mutations, bound to one configuration's acceptance
/// rule and applied to an index in one commit.
pub struct Batch {
    pub indexer: Indexer,
    pub inserts: Vec<Rec>,
    pub updates: Vec<Rec>,
    pub deletes: Vec<String>,
}

/// The staging API of a batch, as an index's callers see it.
pub trait BatchTransaction: Sized {
    /// Whether the staged state is in order.
    spec fn binv(&self) -> bool;

    /// Whether the batch fits the index it will commit to.
    spec fn fits(&self, idx: &Index) -> bool;

    fn insert(&mut self, k: &str, v: serde_json::Value)
        requires
            old(self).binv(),
        ensures
            final(self).binv(),
    ;

    fn update(&mut self, k: &str, v: serde_json::Value)
        requires
            old(self).binv(),
        ensures
            final(self).binv(),
    ;

    fn delete(&mut self, k: &str)
        requires
            old(self).binv(),
        ensures
            final(self).binv(),
    ;

    fn commit(&mut self, idx: &mut Index)
        requires
            old(self).binv(),
            old(self).fits(old(idx)),
            old(idx).wf(),
        ensures
            final(self).binv(),
            final(idx).wf(),
            final(idx).indexer == old(idx).indexer,
    ;
}

impl Batch {
    /// Keys staged once each, every staged document accepted.
    pub open spec fn wf(self) -> bool {
        &&& skeys_uniq(recs_view(self.inserts@))
        &&& skeys_uniq(recs_view(self.updates@))
        &&& forall|i: int|
            0 <= i < self.inserts@.len() ==> accepts(
                cfg_view(self.indexer),
                val_view((#[trigger] self.inserts@[i]).1),
            )
        &&& forall|i: int|
            0 <= i < self.updates@.len() ==> accepts(
                cfg_view(self.indexer),
                val_view((#[trigger] self.updates@[i]).1),
            )
        &&& forall|i: int, j: int|
            0 <= i < j < self.deletes@.len() ==> (#[trigger] self.deletes@[i])@ != (
            #[trigger] self.deletes@[j])@
    }

    /// An empty batch for the configuration.
    pub fn new(indexer: Indexer) -> (r: Batch)
        ensures
            r.wf(),
            cfg_view(r.indexer) == cfg_view(indexer),
            r.inserts@.len() == 0,
            r.updates@.len() == 0,
            r.deletes@.len() == 0,
    {
        Batch { indexer, inserts: Vec::new(), updates: Vec::new(), deletes: Vec::new() }
    }

    /// Replaces a record's staging or appends it.
    fn put_staged(rs: &mut Vec<Rec>, k: &str, v: serde_json::Value)
        ensures
            recs_view(final(rs)@) == sput(recs_view(old(rs)@), k@, val_view(v)),
    {
        let ghost rv0 = recs_view(old(rs)@);
        let n = rs.len();
        let mut i: usize = 0;
        while i < n
            invariant
                i <= n,
                n == rs@.len(),
                rs@ == old(rs)@,
                rv0 == recs_view(rs@),
                forall|t: int| 0 <= t < i as int ==> (#[trigger] rs@[t]).0@ != k@,
            decreases n - i,
        {
            if crate::model::str_eq(rs[i].0.as_str(), k) {
                let ghost before = rs@;
                rs.remove(i);
                rs.insert(i, (k.to_owned(), v));
                proof {
                    lemma_sfind(rv0, k@);
                    crate::store::lemma_sfind_unique_keys(rv0, k@, i as int);
                    assert(recs_view(rs@) =~= sput(rv0, k@, val_view(v))) by {
                        assert(forall|t: int|
                            0 <= t < rs@.len() && t != i as int ==> rs@[t] == before[t]);
                    }
                }
                return ;
            }
            i = i + 1;
        }
        rs.push((k.to_owned(), v));
        proof {
            lemma_sfind(rv0, k@);
            if sfind(rv0, k@) >= 0 {
                assert(rv0[sfind(rv0, k@)].0 == k@);
                assert(rs@[sfind(rv0, k@)].0@ == k@);
                assert(false);
            }
            assert(recs_view(rs@) =~= rv0.push((k@, val_view(v))));
        }
    }
}

impl Batch {
    /// Stages an insert; a document the filter rejects is dropped.
    pub fn stage_insert(&mut self, k: &str, v: serde_json::Value)
        ensures
            final(self).indexer == old(self).indexer,
            final(self).updates == old(self).updates,
            final(self).deletes == old(self).deletes,
            accepts(cfg_view(old(self).indexer), val_view(v)) ==> recs_view(final(self).inserts@)
                == sput(recs_view(old(self).inserts@), k@, val_view(v)),
            !accepts(cfg_view(old(self).indexer), val_view(v)) ==> final(self).inserts == old(
                self,
            ).inserts,
            old(self).wf() ==> final(self).wf(),
    {
        if !passes_filter(&self.indexer, &v) {
            return ;
        }
        let ghost rv0 = recs_view(self.inserts@);
        Self::put_staged(&mut self.inserts, k, v);
        proof {
            if old(self).wf() {
                lemma_sput_uniq(rv0, k@, val_view(v));
                assert forall|i: int|
                    0 <= i < self.inserts@.len() implies accepts(
                    cfg_view(self.indexer),
                    val_view((#[trigger] self.inserts@[i]).1),
                ) by {
                    assert(recs_view(self.inserts@)[i] == (self.inserts@[i].0@, val_view(
                        self.inserts@[i].1,
                    )));
                    assert(recs_view(self.inserts@)[i] == (k@, val_view(v)) || (i < rv0.len()
                        && recs_view(self.inserts@)[i] == rv0[i]));
                    if recs_view(self.inserts@)[i] != (k@, val_view(v)) {
                        assert(rv0[i] == (old(self).inserts@[i].0@, val_view(
                            old(self).inserts@[i].1,
                        )));
                    }
                }
            }
        }
    }

    /// Stages an update; a document the filter rejects is dropped.
    pub fn stage_update(&mut self, k: &str, v: serde_json::Value)
        ensures
            final(self).indexer == old(self).indexer,
            final(self).inserts == old(self).inserts,
            final(self).deletes == old(self).deletes,
            accepts(cfg_view(old(self).indexer), val_view(v)) ==> recs_view(final(self).updates@)
                == sput(recs_view(old(self).updates@), k@, val_view(v)),
            !accepts(cfg_view(old(self).indexer), val_view(v)) ==> final(self).updates == old(
                self,
            ).updates,
            old(self).wf() ==> final(self).wf(),
    {
        if !passes_filter(&self.indexer, &v) {
            return ;
        }
        let ghost rv0 = recs_view(self.updates@);
        Self::put_staged(&mut self.updates, k, v);
        proof {
            if old(self).wf() {
                lemma_sput_uniq(rv0, k@, val_view(v));
                assert forall|i: int|
                    0 <= i < self.updates@.len() implies accepts(
                    cfg_view(self.indexer),
                    val_view((#[trigger] self.updates@[i]).1),
                ) by {
                    assert(recs_view(self.updates@)[i] == (self.updates@[i].0@, val_view(
                        self.updates@[i].1,
                    )));
                    assert(recs_view(self.updates@)[i] == (k@, val_view(v)) || (i < rv0.len()
                        && recs_view(self.updates@)[i] == rv0[i]));
                    if recs_view(self.updates@)[i] != (k@, val_view(v)) {
                        assert(rv0[i] == (old(self).updates@[i].0@, val_view(
                            old(self).updates@[i].1,
                        )));
                    }
                }
            }
        }
    }

    /// Stages a delete, unconditionally; staging the same key again is a
    /// no-op.
    pub fn stage_delete(&mut self, k: &str)
        ensures
            final(self).indexer == old(self).indexer,
            final(self).inserts == old(self).inserts,
            final(self).updates == old(self).updates,
            keys_view(final(self).deletes@) == (if keys_view(old(self).deletes@).contains(k@) {
                keys_view(old(self).deletes@)
            } else {
                keys_view(old(self).deletes@).push(k@)
            }),
            old(self).wf() ==> final(self).wf(),
    {
        let ghost kv0 = keys_view(self.deletes@);
        let n = self.deletes.len();
        let mut i: usize = 0;
        while i < n
            invariant
                i <= n,
                n == self.deletes@.len(),
                self.deletes == old(self).deletes,
                kv0 == keys_view(self.deletes@),
                forall|t: int| 0 <= t < i as int ==> (#[trigger] self.deletes@[t])@ != k@,
            decreases n - i,
        {
            if crate::model::str_eq(self.deletes[i].as_str(), k) {
                proof {
                    assert(kv0[i as int] == k@);
                    assert(kv0.contains(k@));
                }
                return ;
            }
            i = i + 1;
        }
        self.deletes.push(k.to_owned());
        proof {
            if kv0.contains(k@) {
                let t = choose|t: int| 0 <= t < kv0.len() && kv0[t] == k@;
                assert(old(self).deletes@[t]@ == k@);
                assert(false);
            }
            assert(keys_view(self.deletes@) =~= kv0.push(k@));
            if old(self).wf() {
                assert forall|a: int, b: int|
                    0 <= a < b < self.deletes@.len() implies (#[trigger] self.deletes@[a])@ != (
                    #[trigger] self.deletes@[b])@ by {
                    if b == self.deletes@.len() - 1 {
                        assert(self.deletes@[a] == old(self).deletes@[a]);
                    }
                }
            }
        }
    }

    /// Applies the staged inserts, then the staged updates where their keys
    /// exist, then the staged deletes, clears the staging and rebuilds the
    /// trees.  The phases touch the live store one by one.
    pub fn commit_into(&mut self, idx: &mut Index)
        requires
            old(self).wf(),
            old(idx).wf(),
            cfg_view(old(self).indexer) == cfg_view(old(idx).indexer),
        ensures
            final(idx).wf(),
            final(idx).indexer == old(idx).indexer,
            final(idx).store() == fold_deletes(
                fold_updates(
                    fold_upserts(old(idx).store(), recs_view(old(self).inserts@)),
                    recs_view(old(self).updates@),
                ),
                keys_view(old(self).deletes@),
            ),
            final(self).indexer == old(self).indexer,
            final(self).wf(),
            final(self).inserts@.len() == 0,
            final(self).updates@.len() == 0,
            final(self).deletes@.len() == 0,
    {
        let ghost cfg0 = cfg_view(old(idx).indexer);
        let ghost ins = recs_view(old(self).inserts@);
        let ghost ups = recs_view(old(self).updates@);
        let ghost dels = keys_view(old(self).deletes@);
        let ghost target1 = fold_upserts(old(idx).store(), ins);
        let ghost target2 = fold_updates(target1, ups);
        let ghost target3 = fold_deletes(target2, dels);

        let n1 = self.inserts.len();
        let mut i: usize = 0;
        proof {
            assert(ins.skip(0) =~= ins);
        }
        while i < n1
            invariant
                i <= n1,
                n1 == self.inserts@.len(),
                self.inserts == old(self).inserts,
                ins == recs_view(self.inserts@),
                idx.indexer == old(idx).indexer,
                idx.int_tree == old(idx).int_tree,
                idx.float_tree == old(idx).float_tree,
                idx.str_tree == old(idx).str_tree,
                skeys_uniq(idx.store()),
                forall|t: int|
                    0 <= t < idx.store().len() ==> accepts(cfg0, (#[trigger] idx.store()[t]).1),
                forall|t: int|
                    0 <= t < self.inserts@.len() ==> accepts(
                        cfg0,
                        val_view((#[trigger] self.inserts@[t]).1),
                    ),
                fold_upserts(idx.store(), ins.skip(i as int)) == target1,
            decreases n1 - i,
        {
            let kv = (self.inserts[i].0.clone(), self.inserts[i].1.clone());
            let ghost s0 = idx.store();
            proof {
                assert(ins[i as int] == (self.inserts@[i as int].0@, val_view(
                    self.inserts@[i as int].1,
                )));
                assert(ins.skip(i as int)[0] == ins[i as int]);
                assert(ins.skip(i as int).drop_first() =~= ins.skip(i as int + 1));
                lemma_sfind(s0, kv.0@);
            }
            store_insert(&mut idx.items, kv.0, kv.1);
            proof {
                lemma_sput_uniq(s0, ins[i as int].0, ins[i as int].1);
                assert(idx.store() == sput(s0, ins[i as int].0, ins[i as int].1));
                assert forall|t: int|
                    0 <= t < idx.store().len() implies accepts(
                    cfg0,
                    (#[trigger] idx.store()[t]).1,
                ) by {
                    assert(idx.store()[t] == (ins[i as int].0, ins[i as int].1) || (t < s0.len()
                        && idx.store()[t] == s0[t]));
                }
            }
            i = i + 1;
        }
        proof {
            assert(ins.skip(n1 as int) =~= Seq::<(Seq<char>, SpecVal)>::empty());
        }

        let n2 = self.updates.len();
        let mut u: usize = 0;
        proof {
            assert(ups.skip(0) =~= ups);
        }
        while u < n2
            invariant
                u <= n2,
                n2 == self.updates@.len(),
                self.updates == old(self).updates,
                ups == recs_view(self.updates@),
                idx.indexer == old(idx).indexer,
                idx.int_tree == old(idx).int_tree,
                idx.float_tree == old(idx).float_tree,
                idx.str_tree == old(idx).str_tree,
                skeys_uniq(idx.store()),
                forall|t: int|
                    0 <= t < idx.store().len() ==> accepts(cfg0, (#[trigger] idx.store()[t]).1),
                forall|t: int|
                    0 <= t < self.updates@.len() ==> accepts(
                        cfg0,
                        val_view((#[trigger] self.updates@[t]).1),
                    ),
                fold_updates(idx.store(), ups.skip(u as int)) == target2,
            decreases n2 - u,
        {
            let ghost s0 = idx.store();
            proof {
                assert(ups[u as int] == (self.updates@[u as int].0@, val_view(
                    self.updates@[u as int].1,
                )));
                assert(ups.skip(u as int)[0] == ups[u as int]);
                assert(ups.skip(u as int).drop_first() =~= ups.skip(u as int + 1));
                lemma_sfind(s0, self.updates@[u as int].0@);
            }
            if store_contains(&idx.items, self.updates[u].0.as_str()) {
                let kv = (self.updates[u].0.clone(), self.updates[u].1.clone());
                store_insert(&mut idx.items, kv.0, kv.1);
                proof {
                    lemma_sput_uniq(s0, ups[u as int].0, ups[u as int].1);
                    assert(idx.store() == sput(s0, ups[u as int].0, ups[u as int].1));
                    assert forall|t: int|
                        0 <= t < idx.store().len() implies accepts(
                        cfg0,
                        (#[trigger] idx.store()[t]).1,
                    ) by {
                        assert(idx.store()[t] == (ups[u as int].0, ups[u as int].1) || (t
                            < s0.len() && idx.store()[t] == s0[t]));
                    }
                }
            }
            u = u + 1;
        }
        proof {
            assert(ups.skip(n2 as int) =~= Seq::<(Seq<char>, SpecVal)>::empty());
        }

        let n3 = self.deletes.len();
        let mut d: usize = 0;
        proof {
            assert(dels.skip(0) =~= dels);
        }
        while d < n3
            invariant
                d <= n3,
                n3 == self.deletes@.len(),
                self.deletes == old(self).deletes,
                dels == keys_view(self.deletes@),
                idx.indexer == old(idx).indexer,
                idx.int_tree == old(idx).int_tree,
                idx.float_tree == old(idx).float_tree,
                idx.str_tree == old(idx).str_tree,
                skeys_uniq(idx.store()),
                forall|t: int|
                    0 <= t < idx.store().len() ==> accepts(cfg0, (#[trigger] idx.store()[t]).1),
                fold_deletes(idx.store(), dels.skip(d as int)) == target3,
            decreases n3 - d,
        {
            let ghost s0 = idx.store();
            proof {
                assert(dels[d as int] == self.deletes@[d as int]@);
                assert(dels.skip(d as int)[0] == dels[d as int]);
                assert(dels.skip(d as int).drop_first() =~= dels.skip(d as int + 1));
                lemma_sfind(s0, dels[d as int]);
                if sfind(s0, dels[d as int]) >= 0 {
                    lemma_entries_swapremove(s0, sfind(s0, dels[d as int]), dels[d as int]);
                }
            }
            store_swap_remove(&mut idx.items, self.deletes[d].as_str());
            proof {
                if sfind(s0, dels[d as int]) >= 0 {
                    let iv = sfind(s0, dels[d as int]);
                    assert forall|t: int|
                        0 <= t < idx.store().len() implies accepts(
                        cfg0,
                        (#[trigger] idx.store()[t]).1,
                    ) by {
                        if t == iv && iv < s0.len() - 1 {
                            assert(idx.store()[t] == s0[s0.len() - 1]);
                        } else {
                            assert(idx.store()[t] == s0[t]);
                        }
                    }
                }
            }
            d = d + 1;
        }
        proof {
            assert(dels.skip(n3 as int) =~= Seq::<Seq<char>>::empty());
        }

        self.inserts = Vec::new();
        self.updates = Vec::new();
        self.deletes = Vec::new();
        idx.build();
    }
}

impl BatchTransaction for Batch {
    open spec fn binv(&self) -> bool {
        self.wf()
    }

    open spec fn fits(&self, idx: &Index) -> bool {
        cfg_view(self.indexer) == cfg_view(idx.indexer)
    }

    fn insert(&mut self, k: &str, v: serde_json::Value) {
        self.stage_insert(k, v);
    }

    fn update(&mut self, k: &str, v: serde_json::Value) {
        self.stage_update(k, v);
    }

    fn delete(&mut self, k: &str) {
        self.stage_delete(k);
    }

    fn commit(&mut self, idx: &mut Index) {
        self.commit_into(idx);
    }
}

impl Index {
    /// A fresh batch bound to this index's configuration.
    pub fn batch(&self) -> (b: Batch)
        ensures
            b.wf(),
            cfg_view(b.indexer) == self.cfg(),
            b.inserts@.len() == 0,
            b.updates@.len() == 0,
            b.deletes@.len() == 0,
    {
        Batch::new(crate::config::clone_config(&self.indexer))
    }
}


} // verus!
