//! The index: a filtered primary store of documents and the three derived
//! secondary tree families, kept in step by every mutation.

use vstd::prelude::*;
use crate::config::{cfg_view, CfgView, Indexer};
use crate::fields::FieldTrees;
use crate::jsonval::{dot_get_value, val_view};
use crate::model::{
    accepts, derives_float, derives_int, derives_str, has_path, numeric_key, resolve, SpecVal,
};
use crate::store::{
    lemma_entries_swapremove, lemma_sfind, lemma_sfind_push, lemma_sfind_unique,
    lemma_sfind_update, sfind, skeys_uniq, store_entries, store_insert, store_items, store_len,
    store_new, store_swap_remove, StoreMap,
};

verus! {

/// A secondary index: the configuration, the primary store of accepted
/// documents, and one tree family per scalar type.
pub struct Index {
    pub indexer: Indexer,
    pub items: StoreMap,
    pub int_tree: FieldTrees<i64>,
    pub float_tree: FieldTrees<serde_json::Value>,
    pub str_tree: FieldTrees<String>,
}

/// Whether a document passes the configuration's acceptance rule.
pub(crate) fn passes_filter(c: &Indexer, v: &serde_json::Value) -> (r: bool)
    ensures
        r == accepts(cfg_view(*c), val_view(*v)),
{
    match c {
        Indexer::Json(j) => {
            proof {
                assert(*c == Indexer::Json(*j));
            }
            let ghost pos = cfg_view(*c)->Json_0;
            let ghost vv = val_view(*v);
            let n = j.path_orders.len();
            let mut ok = true;
            let mut i: usize = 0;
            while i < n
                invariant
                    i <= n,
                    n == j.path_orders@.len(),
                    *c == Indexer::Json(*j),
                    cfg_view(*c) == CfgView::Json(pos),
                    pos.len() == n,
                    vv == val_view(*v),
                    ok == (forall|t: int|
                        0 <= t < i as int ==> !((#[trigger] resolve(vv, pos[t].0)) is Null)),
                decreases n - i,
            {
                let rv = dot_get_value(v, j.path_orders[i].path.as_str());
                proof {
                    assert(pos[i as int].0 == j.path_orders@[i as int].path@);
                }
                if rv.is_null() {
                    ok = false;
                }
                i = i + 1;
            }
            ok
        },
        Indexer::Integer(_) => v.is_i64(),
        Indexer::Float(_) => v.is_f64(),
        Indexer::String(_) => v.is_string(),
    }
}

impl Index {
    /// The entries of the primary store, in insertion order.
    pub open spec fn store(self) -> Seq<(Seq<char>, SpecVal)> {
        store_entries(self.items)
    }

    /// The content of the configuration.
    pub open spec fn cfg(self) -> CfgView {
        cfg_view(self.indexer)
    }

    /// Keys unique, every stored document accepted by the filter.
    pub open spec fn store_ok(self) -> bool {
        &&& skeys_uniq(self.store())
        &&& forall|i: int|
            0 <= i < self.store().len() ==> accepts(self.cfg(), (#[trigger] self.store()[i]).1)
    }

    /// The three tree families hold exactly the entries the store derives.
    pub open spec fn trees_ok(self) -> bool {
        &&& self.int_tree.wf()
        &&& self.float_tree.wf()
        &&& self.str_tree.wf()
        &&& forall|f: Seq<char>, ka: int, rk: Seq<char>|
            #![trigger self.int_tree.fhas(f, ka, rk)]
            self.int_tree.fhas(f, ka, rk) == (sfind(self.store(), rk) >= 0 && derives_int(
                self.cfg(),
                self.store()[sfind(self.store(), rk)].1,
                f,
                ka,
            ))
        &&& forall|f: Seq<char>, ka: int, rk: Seq<char>|
            #![trigger self.int_tree.fdoc(f, ka, rk)]
            self.int_tree.fhas(f, ka, rk) ==> self.int_tree.fdoc(f, ka, rk) == self.store()[sfind(
                self.store(),
                rk,
            )].1
        &&& forall|f: Seq<char>, ka: int, rk: Seq<char>|
            #![trigger self.float_tree.fhas(f, ka, rk)]
            self.float_tree.fhas(f, ka, rk) == (sfind(self.store(), rk) >= 0 && derives_float(
                self.cfg(),
                self.store()[sfind(self.store(), rk)].1,
                f,
                ka,
            ))
        &&& forall|f: Seq<char>, ka: int, rk: Seq<char>|
            #![trigger self.float_tree.fdoc(f, ka, rk)]
            self.float_tree.fhas(f, ka, rk) ==> self.float_tree.fdoc(f, ka, rk) == self.store()[
                sfind(self.store(), rk)
            ].1
        &&& forall|f: Seq<char>, ka: Seq<char>, rk: Seq<char>|
            #![trigger self.str_tree.fhas(f, ka, rk)]
            self.str_tree.fhas(f, ka, rk) == (sfind(self.store(), rk) >= 0 && derives_str(
                self.cfg(),
                self.store()[sfind(self.store(), rk)].1,
                f,
                ka,
            ))
        &&& forall|f: Seq<char>, ka: Seq<char>, rk: Seq<char>|
            #![trigger self.str_tree.fdoc(f, ka, rk)]
            self.str_tree.fhas(f, ka, rk) ==> self.str_tree.fdoc(f, ka, rk) == self.store()[sfind(
                self.store(),
                rk,
            )].1
    }

    /// The whole index is in step.
    pub open spec fn wf(self) -> bool {
        self.store_ok() && self.trees_ok()
    }

    /// Adds to every tree family the entries one record derives.
    pub(crate) fn add_entries(&mut self, k: &str, v: &serde_json::Value)
        requires
            old(self).int_tree.wf(),
            old(self).float_tree.wf(),
            old(self).str_tree.wf(),
        ensures
            final(self).indexer == old(self).indexer,
            final(self).items == old(self).items,
            final(self).int_tree.wf(),
            final(self).float_tree.wf(),
            final(self).str_tree.wf(),
            forall|f: Seq<char>, ka: int, rk: Seq<char>|
                #![trigger final(self).int_tree.fhas(f, ka, rk)]
                final(self).int_tree.fhas(f, ka, rk) == (old(self).int_tree.fhas(f, ka, rk) || (rk
                    == k@ && derives_int(old(self).cfg(), val_view(*v), f, ka))),
            forall|f: Seq<char>, ka: int, rk: Seq<char>|
                #![trigger final(self).int_tree.fdoc(f, ka, rk)]
                final(self).int_tree.fhas(f, ka, rk) ==> final(self).int_tree.fdoc(f, ka, rk) == (
                if rk == k@ && derives_int(old(self).cfg(), val_view(*v), f, ka) {
                    val_view(*v)
                } else {
                    old(self).int_tree.fdoc(f, ka, rk)
                }),
            forall|f: Seq<char>, ka: int, rk: Seq<char>|
                #![trigger final(self).float_tree.fhas(f, ka, rk)]
                final(self).float_tree.fhas(f, ka, rk) == (old(self).float_tree.fhas(f, ka, rk)
                    || (rk == k@ && derives_float(old(self).cfg(), val_view(*v), f, ka))),
            forall|f: Seq<char>, ka: int, rk: Seq<char>|
                #![trigger final(self).float_tree.fdoc(f, ka, rk)]
                final(self).float_tree.fhas(f, ka, rk) ==> final(self).float_tree.fdoc(f, ka, rk)
                    == (if rk == k@ && derives_float(old(self).cfg(), val_view(*v), f, ka) {
                    val_view(*v)
                } else {
                    old(self).float_tree.fdoc(f, ka, rk)
                }),
            forall|f: Seq<char>, ka: Seq<char>, rk: Seq<char>|
                #![trigger final(self).str_tree.fhas(f, ka, rk)]
                final(self).str_tree.fhas(f, ka, rk) == (old(self).str_tree.fhas(f, ka, rk) || (rk
                    == k@ && derives_str(old(self).cfg(), val_view(*v), f, ka))),
            forall|f: Seq<char>, ka: Seq<char>, rk: Seq<char>|
                #![trigger final(self).str_tree.fdoc(f, ka, rk)]
                final(self).str_tree.fhas(f, ka, rk) ==> final(self).str_tree.fdoc(f, ka, rk) == (
                if rk == k@ && derives_str(old(self).cfg(), val_view(*v), f, ka) {
                    val_view(*v)
                } else {
                    old(self).str_tree.fdoc(f, ka, rk)
                }),
    {
        let ghost vv = val_view(*v);
        let ghost cfg0 = old(self).cfg();
        let indexer = crate::config::clone_config(&self.indexer);
        match &indexer {
            Indexer::Json(j) => {
                proof {
                    assert(cfg_view(indexer) == cfg0);
                }
                let ghost pos = cfg0->Json_0;
                let ghost t0 = *old(self);
                let n = j.path_orders.len();
                let mut i: usize = 0;
                proof {
                    assert(pos.take(0) =~= Seq::<(Seq<char>, crate::config::IndexOrd)>::empty());
                }
                while i < n
                    invariant
                        i <= n,
                        n == j.path_orders@.len(),
                        indexer == Indexer::Json(*j),
                        cfg_view(indexer) == CfgView::Json(pos),
                        cfg0 == CfgView::Json(pos),
                        pos.len() == n,
                        vv == val_view(*v),
                        self.indexer == t0.indexer,
                        self.items == t0.items,
                        self.int_tree.wf(),
                        self.float_tree.wf(),
                        self.str_tree.wf(),
                        forall|f: Seq<char>, ka: int, rk: Seq<char>|
                            #![trigger self.int_tree.fhas(f, ka, rk)]
                            self.int_tree.fhas(f, ka, rk) == (t0.int_tree.fhas(f, ka, rk) || (rk
                                == k@ && derives_int(
                                CfgView::Json(pos.take(i as int)),
                                vv,
                                f,
                                ka,
                            ))),
                        forall|f: Seq<char>, ka: int, rk: Seq<char>|
                            #![trigger self.int_tree.fdoc(f, ka, rk)]
                            self.int_tree.fhas(f, ka, rk) ==> self.int_tree.fdoc(f, ka, rk) == (
                            if rk == k@ && derives_int(CfgView::Json(pos.take(i as int)), vv, f, ka) {
                                vv
                            } else {
                                t0.int_tree.fdoc(f, ka, rk)
                            }),
                        forall|f: Seq<char>, ka: int, rk: Seq<char>|
                            #![trigger self.float_tree.fhas(f, ka, rk)]
                            self.float_tree.fhas(f, ka, rk) == (t0.float_tree.fhas(f, ka, rk) || (
                            rk == k@ && derives_float(
                                CfgView::Json(pos.take(i as int)),
                                vv,
                                f,
                                ka,
                            ))),
                        forall|f: Seq<char>, ka: int, rk: Seq<char>|
                            #![trigger self.float_tree.fdoc(f, ka, rk)]
                            self.float_tree.fhas(f, ka, rk) ==> self.float_tree.fdoc(f, ka, rk)
                                == (if rk == k@ && derives_float(
                                CfgView::Json(pos.take(i as int)),
                                vv,
                                f,
                                ka,
                            ) {
                                vv
                            } else {
                                t0.float_tree.fdoc(f, ka, rk)
                            }),
                        forall|f: Seq<char>, ka: Seq<char>, rk: Seq<char>|
                            #![trigger self.str_tree.fhas(f, ka, rk)]
                            self.str_tree.fhas(f, ka, rk) == (t0.str_tree.fhas(f, ka, rk) || (rk
                                == k@ && derives_str(
                                CfgView::Json(pos.take(i as int)),
                                vv,
                                f,
                                ka,
                            ))),
                        forall|f: Seq<char>, ka: Seq<char>, rk: Seq<char>|
                            #![trigger self.str_tree.fdoc(f, ka, rk)]
                            self.str_tree.fhas(f, ka, rk) ==> self.str_tree.fdoc(f, ka, rk) == (
                            if rk == k@ && derives_str(CfgView::Json(pos.take(i as int)), vv, f, ka) {
                                vv
                            } else {
                                t0.str_tree.fdoc(f, ka, rk)
                            }),
                    decreases n - i,
                {
                    let path = &j.path_orders[i].path;
                    let rv = dot_get_value(v, path.as_str());
                    proof {
                        assert(pos[i as int].0 == j.path_orders@[i as int].path@);
                        assert(val_view(rv) == resolve(vv, pos[i as int].0));
                        assert(pos.take(i as int + 1).drop_last() =~= pos.take(i as int));
                        assert(pos.take(i as int + 1).last() == pos[i as int]);
                        lemma_prefix_extends(pos, i as int, vv);
                    }
                    if let Some(ki) = rv.as_i64() {
                        self.int_tree.insert_at(path.as_str(), ki, k, v);
                    } else if rv.is_f64() {
                        let ghost fkey = numeric_key(val_view(rv));
                        self.float_tree.insert_at(path.as_str(), rv, k, v);
                    } else if rv.is_string() {
                        let skey = match rv.as_str() {
                            Some(s) => s.to_owned(),
                            None => String::new(),
                        };
                        self.str_tree.insert_at(path.as_str(), skey, k, v);
                    }
                    i = i + 1;
                }
                proof {
                    assert(pos.take(n as int) =~= pos);
                }
            },
            Indexer::Integer(_) => {
                proof {
                    assert(cfg_view(indexer) == cfg0);
                }
                if let Some(ki) = v.as_i64() {
                    self.int_tree.insert_at("*", ki, k, v);
                }
            },
            Indexer::Float(_) => {
                proof {
                    assert(cfg_view(indexer) == cfg0);
                }
                if v.is_f64() {
                    self.float_tree.insert_at("*", v.clone(), k, v);
                }
            },
            Indexer::String(_) => {
                proof {
                    assert(cfg_view(indexer) == cfg0);
                }
                if let Some(s) = v.as_str() {
                    let skey = s.to_owned();
                    self.str_tree.insert_at("*", skey, k, v);
                }
            },
        }
    }

    /// Removes from every tree family the entries one record derived.
    pub(crate) fn strip_entries(&mut self, k: &str, ov: &serde_json::Value)
        requires
            old(self).int_tree.wf(),
            old(self).float_tree.wf(),
            old(self).str_tree.wf(),
        ensures
            final(self).indexer == old(self).indexer,
            final(self).items == old(self).items,
            final(self).int_tree.wf(),
            final(self).float_tree.wf(),
            final(self).str_tree.wf(),
            forall|f: Seq<char>, ka: int, rk: Seq<char>|
                #![trigger final(self).int_tree.fhas(f, ka, rk)]
                final(self).int_tree.fhas(f, ka, rk) == (old(self).int_tree.fhas(f, ka, rk) && !(
                rk == k@ && derives_int(old(self).cfg(), val_view(*ov), f, ka))),
            forall|f: Seq<char>, ka: int, rk: Seq<char>|
                #![trigger final(self).int_tree.fdoc(f, ka, rk)]
                final(self).int_tree.fhas(f, ka, rk) ==> final(self).int_tree.fdoc(f, ka, rk)
                    == old(self).int_tree.fdoc(f, ka, rk),
            forall|f: Seq<char>, ka: int, rk: Seq<char>|
                #![trigger final(self).float_tree.fhas(f, ka, rk)]
                final(self).float_tree.fhas(f, ka, rk) == (old(self).float_tree.fhas(f, ka, rk)
                    && !(rk == k@ && derives_float(old(self).cfg(), val_view(*ov), f, ka))),
            forall|f: Seq<char>, ka: int, rk: Seq<char>|
                #![trigger final(self).float_tree.fdoc(f, ka, rk)]
                final(self).float_tree.fhas(f, ka, rk) ==> final(self).float_tree.fdoc(f, ka, rk)
                    == old(self).float_tree.fdoc(f, ka, rk),
            forall|f: Seq<char>, ka: Seq<char>, rk: Seq<char>|
                #![trigger final(self).str_tree.fhas(f, ka, rk)]
                final(self).str_tree.fhas(f, ka, rk) == (old(self).str_tree.fhas(f, ka, rk) && !(
                rk == k@ && derives_str(old(self).cfg(), val_view(*ov), f, ka))),
            forall|f: Seq<char>, ka: Seq<char>, rk: Seq<char>|
                #![trigger final(self).str_tree.fdoc(f, ka, rk)]
                final(self).str_tree.fhas(f, ka, rk) ==> final(self).str_tree.fdoc(f, ka, rk)
                    == old(self).str_tree.fdoc(f, ka, rk),
    {
        let ghost ovv = val_view(*ov);
        let ghost cfg0 = old(self).cfg();
        let indexer = crate::config::clone_config(&self.indexer);
        match &indexer {
            Indexer::Json(j) => {
                proof {
                    assert(cfg_view(indexer) == cfg0);
                }
                let ghost pos = cfg0->Json_0;
                let ghost t0 = *old(self);
                let n = j.path_orders.len();
                let mut i: usize = 0;
                proof {
                    assert(pos.take(0) =~= Seq::<(Seq<char>, crate::config::IndexOrd)>::empty());
                }
                while i < n
                    invariant
                        i <= n,
                        n == j.path_orders@.len(),
                        indexer == Indexer::Json(*j),
                        cfg_view(indexer) == CfgView::Json(pos),
                        cfg0 == CfgView::Json(pos),
                        pos.len() == n,
                        ovv == val_view(*ov),
                        self.indexer == t0.indexer,
                        self.items == t0.items,
                        self.int_tree.wf(),
                        self.float_tree.wf(),
                        self.str_tree.wf(),
                        forall|f: Seq<char>, ka: int, rk: Seq<char>|
                            #![trigger self.int_tree.fhas(f, ka, rk)]
                            self.int_tree.fhas(f, ka, rk) == (t0.int_tree.fhas(f, ka, rk) && !(rk
                                == k@ && derives_int(
                                CfgView::Json(pos.take(i as int)),
                                ovv,
                                f,
                                ka,
                            ))),
                        forall|f: Seq<char>, ka: int, rk: Seq<char>|
                            #![trigger self.int_tree.fdoc(f, ka, rk)]
                            self.int_tree.fhas(f, ka, rk) ==> self.int_tree.fdoc(f, ka, rk)
                                == t0.int_tree.fdoc(f, ka, rk),
                        forall|f: Seq<char>, ka: int, rk: Seq<char>|
                            #![trigger self.float_tree.fhas(f, ka, rk)]
                            self.float_tree.fhas(f, ka, rk) == (t0.float_tree.fhas(f, ka, rk) && !(
                            rk == k@ && derives_float(
                                CfgView::Json(pos.take(i as int)),
                                ovv,
                                f,
                                ka,
                            ))),
                        forall|f: Seq<char>, ka: int, rk: Seq<char>|
                            #![trigger self.float_tree.fdoc(f, ka, rk)]
                            self.float_tree.fhas(f, ka, rk) ==> self.float_tree.fdoc(f, ka, rk)
                                == t0.float_tree.fdoc(f, ka, rk),
                        forall|f: Seq<char>, ka: Seq<char>, rk: Seq<char>|
                            #![trigger self.str_tree.fhas(f, ka, rk)]
                            self.str_tree.fhas(f, ka, rk) == (t0.str_tree.fhas(f, ka, rk) && !(rk
                                == k@ && derives_str(
                                CfgView::Json(pos.take(i as int)),
                                ovv,
                                f,
                                ka,
                            ))),
                        forall|f: Seq<char>, ka: Seq<char>, rk: Seq<char>|
                            #![trigger self.str_tree.fdoc(f, ka, rk)]
                            self.str_tree.fhas(f, ka, rk) ==> self.str_tree.fdoc(f, ka, rk)
                                == t0.str_tree.fdoc(f, ka, rk),
                    decreases n - i,
                {
                    let path = &j.path_orders[i].path;
                    let rv = dot_get_value(ov, path.as_str());
                    proof {
                        assert(pos[i as int].0 == j.path_orders@[i as int].path@);
                        assert(val_view(rv) == resolve(ovv, pos[i as int].0));
                        assert(pos.take(i as int + 1).drop_last() =~= pos.take(i as int));
                        assert(pos.take(i as int + 1).last() == pos[i as int]);
                        lemma_prefix_extends(pos, i as int, ovv);
                    }
                    if let Some(ki) = rv.as_i64() {
                        self.int_tree.remove_at(path.as_str(), &ki, k);
                    } else if rv.is_f64() {
                        self.float_tree.remove_at(path.as_str(), &rv, k);
                    } else if rv.is_string() {
                        let skey = match rv.as_str() {
                            Some(s) => s.to_owned(),
                            None => String::new(),
                        };
                        self.str_tree.remove_at(path.as_str(), &skey, k);
                    }
                    i = i + 1;
                }
                proof {
                    assert(pos.take(n as int) =~= pos);
                }
            },
            Indexer::Integer(_) => {
                proof {
                    assert(cfg_view(indexer) == cfg0);
                }
                if let Some(ki) = ov.as_i64() {
                    self.int_tree.remove_at("*", &ki, k);
                }
            },
            Indexer::Float(_) => {
                proof {
                    assert(cfg_view(indexer) == cfg0);
                }
                if ov.is_f64() {
                    let fk = ov.clone();
                    self.float_tree.remove_at("*", &fk, k);
                }
            },
            Indexer::String(_) => {
                proof {
                    assert(cfg_view(indexer) == cfg0);
                }
                if let Some(s) = ov.as_str() {
                    let skey = s.to_owned();
                    self.str_tree.remove_at("*", &skey, k);
                }
            },
        }
    }

    /// A new, empty index for the configuration.
    pub fn new(indexer: Indexer) -> (r: Index)
        ensures
            r.wf(),
            r.indexer == indexer,
            r.store().len() == 0,
    {
        let r = Index {
            indexer,
            items: store_new(),
            int_tree: FieldTrees::new(),
            float_tree: FieldTrees::new(),
            str_tree: FieldTrees::new(),
        };
        proof {
            assert forall|rk: Seq<char>| sfind(r.store(), rk) < 0 by {
                lemma_sfind(r.store(), rk);
            }
        }
        r
    }

    /// The number of records the index holds.
    pub fn size(&self) -> (n: usize)
        ensures
            n as int == self.store().len(),
    {
        store_len(&self.items)
    }

    /// The number of records the index holds.
    pub fn count(&self) -> (n: usize)
        ensures
            n as int == self.store().len(),
    {
        store_len(&self.items)
    }

    /// Inserts a new record or replaces the record under the key; a
    /// document the filter rejects is silently dropped and nothing changes.
    pub fn insert(&mut self, key: &str, value: serde_json::Value)
        requires
            old(self).wf(),
        ensures
            final(self).wf(),
            final(self).indexer == old(self).indexer,
            !accepts(old(self).cfg(), val_view(value)) ==> *final(self) == *old(self),
            accepts(old(self).cfg(), val_view(value)) ==> final(self).store() == ({
                let e = old(self).store();
                let i = sfind(e, key@);
                if i >= 0 {
                    e.update(i, (key@, val_view(value)))
                } else {
                    e.push((key@, val_view(value)))
                }
            }),
    {
        if !passes_filter(&self.indexer, &value) {
            return ;
        }
        let ghost t0 = *old(self);
        let ghost s0 = old(self).store();
        let ghost vv = val_view(value);
        let ghost i0 = sfind(s0, key@);
        let doc = value.clone();
        let ov = store_insert(&mut self.items, key.to_owned(), value);
        match ov {
            Some(old_doc) => {
                self.strip_entries(key, &old_doc);
                self.add_entries(key, &doc);
                proof {
                    let s1 = self.store();
                    lemma_sfind(s0, key@);
                    assert(s1 == s0.update(i0, (key@, vv)));
                    assert forall|rk: Seq<char>| #![trigger sfind(s1, rk)] sfind(s1, rk) == sfind(
                        s0,
                        rk,
                    ) by {
                        lemma_sfind_update(s0, i0, (key@, vv), rk);
                    }
                    assert(skeys_uniq(s1));
                    assert forall|t: int|
                        0 <= t < s1.len() implies accepts(self.cfg(), (#[trigger] s1[t]).1) by {
                        if t != i0 {
                            assert(s1[t] == s0[t]);
                        }
                    }
                    assert(val_view(old_doc) == s0[i0].1);
                    self.lemma_upsert_trees(t0, key@, s0[i0].1, vv);
                }
            },
            None => {
                self.add_entries(key, &doc);
                proof {
                    let s1 = self.store();
                    lemma_sfind(s0, key@);
                    assert(s1 == s0.push((key@, vv)));
                    assert forall|rk: Seq<char>| #![trigger sfind(s1, rk)] (if rk == key@ {
                        sfind(s1, rk) == s0.len()
                    } else {
                        sfind(s1, rk) == sfind(s0, rk)
                    }) by {
                        lemma_sfind_push(s0, (key@, vv), rk);
                    }
                    assert(skeys_uniq(s1)) by {
                        assert forall|a: int, b: int| 0 <= a < b < s1.len() implies s1[a].0
                            != s1[b].0 by {
                            if b == s1.len() - 1 {
                                lemma_sfind(s0, s0[a].0);
                                if s0[a].0 == key@ {
                                    lemma_sfind_unique(s0, key@, a);
                                }
                            } else {
                                assert(s1[a] == s0[a] && s1[b] == s0[b]);
                            }
                        }
                    }
                    assert forall|t: int|
                        0 <= t < s1.len() implies accepts(self.cfg(), (#[trigger] s1[t]).1) by {
                        if t < s1.len() - 1 {
                            assert(s1[t] == s0[t]);
                        }
                    }
                    self.lemma_fresh_trees(t0, key@, vv);
                }
            },
        }
    }

    /// After replacing the record under a key, the stripped-then-added
    /// trees again derive from the updated store.
    proof fn lemma_upsert_trees(self, t0: Index, k: Seq<char>, ow: SpecVal, vv: SpecVal)
        requires
            t0.wf(),
            sfind(t0.store(), k) >= 0,
            ow == t0.store()[sfind(t0.store(), k)].1,
            self.indexer == t0.indexer,
            self.store() == t0.store().update(sfind(t0.store(), k), (k, vv)),
            forall|rk: Seq<char>|
                #![trigger sfind(self.store(), rk)]
                sfind(self.store(), rk) == sfind(t0.store(), rk),
            self.int_tree.wf(),
            self.float_tree.wf(),
            self.str_tree.wf(),
            forall|f: Seq<char>, ka: int, rk: Seq<char>|
                #![trigger self.int_tree.fhas(f, ka, rk)]
                self.int_tree.fhas(f, ka, rk) == ((t0.int_tree.fhas(f, ka, rk) && !(rk == k
                    && derives_int(t0.cfg(), ow, f, ka))) || (rk == k && derives_int(
                    t0.cfg(),
                    vv,
                    f,
                    ka,
                ))),
            forall|f: Seq<char>, ka: int, rk: Seq<char>|
                #![trigger self.int_tree.fdoc(f, ka, rk)]
                self.int_tree.fhas(f, ka, rk) ==> self.int_tree.fdoc(f, ka, rk) == (if rk == k
                    && derives_int(t0.cfg(), vv, f, ka) {
                    vv
                } else {
                    t0.int_tree.fdoc(f, ka, rk)
                }),
            forall|f: Seq<char>, ka: int, rk: Seq<char>|
                #![trigger self.float_tree.fhas(f, ka, rk)]
                self.float_tree.fhas(f, ka, rk) == ((t0.float_tree.fhas(f, ka, rk) && !(rk == k
                    && derives_float(t0.cfg(), ow, f, ka))) || (rk == k && derives_float(
                    t0.cfg(),
                    vv,
                    f,
                    ka,
                ))),
            forall|f: Seq<char>, ka: int, rk: Seq<char>|
                #![trigger self.float_tree.fdoc(f, ka, rk)]
                self.float_tree.fhas(f, ka, rk) ==> self.float_tree.fdoc(f, ka, rk) == (if rk == k
                    && derives_float(t0.cfg(), vv, f, ka) {
                    vv
                } else {
                    t0.float_tree.fdoc(f, ka, rk)
                }),
            forall|f: Seq<char>, ka: Seq<char>, rk: Seq<char>|
                #![trigger self.str_tree.fhas(f, ka, rk)]
                self.str_tree.fhas(f, ka, rk) == ((t0.str_tree.fhas(f, ka, rk) && !(rk == k
                    && derives_str(t0.cfg(), ow, f, ka))) || (rk == k && derives_str(
                    t0.cfg(),
                    vv,
                    f,
                    ka,
                ))),
            forall|f: Seq<char>, ka: Seq<char>, rk: Seq<char>|
                #![trigger self.str_tree.fdoc(f, ka, rk)]
                self.str_tree.fhas(f, ka, rk) ==> self.str_tree.fdoc(f, ka, rk) == (if rk == k
                    && derives_str(t0.cfg(), vv, f, ka) {
                    vv
                } else {
                    t0.str_tree.fdoc(f, ka, rk)
                }),
        ensures
            self.trees_ok(),
    {
        let s0 = t0.store();
        let s1 = self.store();
        let i0 = sfind(s0, k);
        lemma_sfind(s0, k);
        assert forall|rk: Seq<char>|
            sfind(s0, rk) >= 0 implies (#[trigger] s1[sfind(s1, rk)]) == (if rk == k {
            (k, vv)
        } else {
            s0[sfind(s0, rk)]
        }) by {
            lemma_sfind(s0, rk);
            if rk == k {
                lemma_sfind_unique(s0, k, i0);
            } else {
                assert(sfind(s0, rk) != i0);
            }
        }
    }

    /// After adding a fresh record's entries, the trees again derive from
    /// the extended store.
    proof fn lemma_fresh_trees(self, t0: Index, k: Seq<char>, vv: SpecVal)
        requires
            t0.wf(),
            sfind(t0.store(), k) < 0,
            self.indexer == t0.indexer,
            self.store() == t0.store().push((k, vv)),
            forall|rk: Seq<char>|
                #![trigger sfind(self.store(), rk)]
                (if rk == k {
                    sfind(self.store(), rk) == t0.store().len()
                } else {
                    sfind(self.store(), rk) == sfind(t0.store(), rk)
                }),
            self.int_tree.wf(),
            self.float_tree.wf(),
            self.str_tree.wf(),
            forall|f: Seq<char>, ka: int, rk: Seq<char>|
                #![trigger self.int_tree.fhas(f, ka, rk)]
                self.int_tree.fhas(f, ka, rk) == (t0.int_tree.fhas(f, ka, rk) || (rk == k
                    && derives_int(t0.cfg(), vv, f, ka))),
            forall|f: Seq<char>, ka: int, rk: Seq<char>|
                #![trigger self.int_tree.fdoc(f, ka, rk)]
                self.int_tree.fhas(f, ka, rk) ==> self.int_tree.fdoc(f, ka, rk) == (if rk == k
                    && derives_int(t0.cfg(), vv, f, ka) {
                    vv
                } else {
                    t0.int_tree.fdoc(f, ka, rk)
                }),
            forall|f: Seq<char>, ka: int, rk: Seq<char>|
                #![trigger self.float_tree.fhas(f, ka, rk)]
                self.float_tree.fhas(f, ka, rk) == (t0.float_tree.fhas(f, ka, rk) || (rk == k
                    && derives_float(t0.cfg(), vv, f, ka))),
            forall|f: Seq<char>, ka: int, rk: Seq<char>|
                #![trigger self.float_tree.fdoc(f, ka, rk)]
                self.float_tree.fhas(f, ka, rk) ==> self.float_tree.fdoc(f, ka, rk) == (if rk == k
                    && derives_float(t0.cfg(), vv, f, ka) {
                    vv
                } else {
                    t0.float_tree.fdoc(f, ka, rk)
                }),
            forall|f: Seq<char>, ka: Seq<char>, rk: Seq<char>|
                #![trigger self.str_tree.fhas(f, ka, rk)]
                self.str_tree.fhas(f, ka, rk) == (t0.str_tree.fhas(f, ka, rk) || (rk == k
                    && derives_str(t0.cfg(), vv, f, ka))),
            forall|f: Seq<char>, ka: Seq<char>, rk: Seq<char>|
                #![trigger self.str_tree.fdoc(f, ka, rk)]
                self.str_tree.fhas(f, ka, rk) ==> self.str_tree.fdoc(f, ka, rk) == (if rk == k
                    && derives_str(t0.cfg(), vv, f, ka) {
                    vv
                } else {
                    t0.str_tree.fdoc(f, ka, rk)
                }),
        ensures
            self.trees_ok(),
    {
        let s0 = t0.store();
        let s1 = self.store();
        lemma_sfind(s0, k);
        assert forall|rk: Seq<char>|
            sfind(s0, rk) >= 0 implies (#[trigger] s1[sfind(s1, rk)]) == s0[sfind(s0, rk)] by {
            lemma_sfind(s0, rk);
            assert(rk != k);
        }
        assert(s1[sfind(s1, k)] == (k, vv));
    }

    /// Removes the record under the key, stripping its entries from every
    /// tree; an absent key changes nothing.
    pub fn remove(&mut self, k: &str)
        requires
            old(self).wf(),
        ensures
            final(self).wf(),
            final(self).indexer == old(self).indexer,
            sfind(old(self).store(), k@) < 0 ==> final(self).store() == old(self).store(),
            sfind(old(self).store(), k@) >= 0 ==> final(self).store() == ({
                let e = old(self).store();
                e.update(sfind(e, k@), e.last()).drop_last()
            }),
    {
        let ghost t0 = *old(self);
        let ghost s0 = old(self).store();
        let ghost i0 = sfind(s0, k@);
        let ov = match store_swap_remove(&mut self.items, k) {
            None => {
                proof {
                    assert(self.store() == s0);
                }
                return ;
            },
            Some(ov) => ov,
        };
        self.strip_entries(k, &ov);
        proof {
            let s1 = self.store();
            let ovv = val_view(ov);
            lemma_sfind(s0, k@);
            assert(ovv == s0[i0].1);
            assert forall|rk: Seq<char>| #![trigger sfind(s1, rk)] true implies ({
                &&& rk == k@ ==> sfind(s1, rk) < 0
                &&& rk != k@ ==> (sfind(s1, rk) >= 0) == (sfind(s0, rk) >= 0)
                &&& rk != k@ && sfind(s0, rk) >= 0 ==> sfind(s1, rk) >= 0 && s1[sfind(s1, rk)].1
                    == s0[sfind(s0, rk)].1
            }) by {
                lemma_entries_swapremove(s0, i0, rk);
            }
            assert(skeys_uniq(s1)) by {
                lemma_entries_swapremove(s0, i0, k@);
            }
            assert forall|t: int|
                0 <= t < s1.len() implies accepts(self.cfg(), (#[trigger] s1[t]).1) by {
                if t == i0 && i0 < s0.len() - 1 {
                    assert(s1[t] == s0[s0.len() - 1]);
                } else {
                    assert(s1[t] == s0[t]);
                }
            }
            assert forall|f: Seq<char>, ka: int, rk: Seq<char>|
                #![trigger self.int_tree.fhas(f, ka, rk)]
                self.int_tree.fhas(f, ka, rk) == (sfind(s1, rk) >= 0 && derives_int(
                self.cfg(),
                s1[sfind(s1, rk)].1,
                f,
                ka,
            )) by {
                lemma_entries_swapremove(s0, i0, rk);
                if rk == k@ {
                    lemma_sfind_unique(s0, k@, i0);
                }
            }
            assert forall|f: Seq<char>, ka: int, rk: Seq<char>|
                #![trigger self.float_tree.fhas(f, ka, rk)]
                self.float_tree.fhas(f, ka, rk) == (sfind(s1, rk) >= 0 && derives_float(
                self.cfg(),
                s1[sfind(s1, rk)].1,
                f,
                ka,
            )) by {
                lemma_entries_swapremove(s0, i0, rk);
                if rk == k@ {
                    lemma_sfind_unique(s0, k@, i0);
                }
            }
            assert forall|f: Seq<char>, ka: Seq<char>, rk: Seq<char>|
                #![trigger self.str_tree.fhas(f, ka, rk)]
                self.str_tree.fhas(f, ka, rk) == (sfind(s1, rk) >= 0 && derives_str(
                self.cfg(),
                s1[sfind(s1, rk)].1,
                f,
                ka,
            )) by {
                lemma_entries_swapremove(s0, i0, rk);
                if rk == k@ {
                    lemma_sfind_unique(s0, k@, i0);
                }
            }
            assert forall|f: Seq<char>, ka: int, rk: Seq<char>|
                #![trigger self.int_tree.fdoc(f, ka, rk)]
                self.int_tree.fhas(f, ka, rk) implies self.int_tree.fdoc(f, ka, rk) == s1[sfind(
                s1,
                rk,
            )].1 by {
                lemma_entries_swapremove(s0, i0, rk);
            }
            assert forall|f: Seq<char>, ka: int, rk: Seq<char>|
                #![trigger self.float_tree.fdoc(f, ka, rk)]
                self.float_tree.fhas(f, ka, rk) implies self.float_tree.fdoc(f, ka, rk) == s1[
                sfind(s1, rk)
            ].1 by {
                lemma_entries_swapremove(s0, i0, rk);
            }
            assert forall|f: Seq<char>, ka: Seq<char>, rk: Seq<char>|
                #![trigger self.str_tree.fdoc(f, ka, rk)]
                self.str_tree.fhas(f, ka, rk) implies self.str_tree.fdoc(f, ka, rk) == s1[sfind(
                s1,
                rk,
            )].1 by {
                lemma_entries_swapremove(s0, i0, rk);
            }
        }
    }

    /// Clears the three tree families and refills them from every record of
    /// the store.
    pub(crate) fn build(&mut self)
        requires
            skeys_uniq(old(self).store()),
        ensures
            final(self).indexer == old(self).indexer,
            final(self).items == old(self).items,
            final(self).store() == old(self).store(),
            final(self).trees_ok(),
    {
        self.int_tree = FieldTrees::new();
        self.float_tree = FieldTrees::new();
        self.str_tree = FieldTrees::new();
        let ghost t0 = *old(self);
        let ghost s = old(self).store();
        let recs = store_items(&self.items);
        let n = recs.len();
        let mut t: usize = 0;
        while t < n
            invariant
                t <= n,
                n == recs@.len(),
                n == s.len(),
                skeys_uniq(s),
                self.indexer == t0.indexer,
                self.items == t0.items,
                s == self.store(),
                forall|u: int|
                    0 <= u < n ==> (#[trigger] recs@[u]).0@ == s[u].0 && val_view(recs@[u].1)
                        == s[u].1,
                self.int_tree.wf(),
                self.float_tree.wf(),
                self.str_tree.wf(),
                forall|f: Seq<char>, ka: int, rk: Seq<char>|
                    #![trigger self.int_tree.fhas(f, ka, rk)]
                    self.int_tree.fhas(f, ka, rk) == (exists|u: int|
                        0 <= u < t as int && (#[trigger] s[u]).0 == rk && derives_int(
                            cfg_view(t0.indexer),
                            s[u].1,
                            f,
                            ka,
                        )),
                forall|f: Seq<char>, ka: int, rk: Seq<char>|
                    #![trigger self.int_tree.fdoc(f, ka, rk)]
                    self.int_tree.fhas(f, ka, rk) ==> sfind(s, rk) >= 0 && self.int_tree.fdoc(
                        f,
                        ka,
                        rk,
                    ) == s[sfind(s, rk)].1,
                forall|f: Seq<char>, ka: int, rk: Seq<char>|
                    #![trigger self.float_tree.fhas(f, ka, rk)]
                    self.float_tree.fhas(f, ka, rk) == (exists|u: int|
                        0 <= u < t as int && (#[trigger] s[u]).0 == rk && derives_float(
                            cfg_view(t0.indexer),
                            s[u].1,
                            f,
                            ka,
                        )),
                forall|f: Seq<char>, ka: int, rk: Seq<char>|
                    #![trigger self.float_tree.fdoc(f, ka, rk)]
                    self.float_tree.fhas(f, ka, rk) ==> sfind(s, rk) >= 0 && self.float_tree.fdoc(
                        f,
                        ka,
                        rk,
                    ) == s[sfind(s, rk)].1,
                forall|f: Seq<char>, ka: Seq<char>, rk: Seq<char>|
                    #![trigger self.str_tree.fhas(f, ka, rk)]
                    self.str_tree.fhas(f, ka, rk) == (exists|u: int|
                        0 <= u < t as int && (#[trigger] s[u]).0 == rk && derives_str(
                            cfg_view(t0.indexer),
                            s[u].1,
                            f,
                            ka,
                        )),
                forall|f: Seq<char>, ka: Seq<char>, rk: Seq<char>|
                    #![trigger self.str_tree.fdoc(f, ka, rk)]
                    self.str_tree.fhas(f, ka, rk) ==> sfind(s, rk) >= 0 && self.str_tree.fdoc(
                        f,
                        ka,
                        rk,
                    ) == s[sfind(s, rk)].1,
            decreases n - t,
        {
            let rec_key = recs[t].0.as_str();
            self.add_entries(rec_key, &recs[t].1);
            proof {
                assert(rec_key@ == s[t as int].0);
                assert(val_view(recs@[t as int].1) == s[t as int].1);
                lemma_sfind_unique(s, s[t as int].0, t as int);
            }
            t = t + 1;
        }
        proof {
            assert forall|f: Seq<char>, ka: int, rk: Seq<char>|
                #![trigger self.int_tree.fhas(f, ka, rk)]
                self.int_tree.fhas(f, ka, rk) == (sfind(s, rk) >= 0 && derives_int(
                self.cfg(),
                s[sfind(s, rk)].1,
                f,
                ka,
            )) by {
                lemma_sfind(s, rk);
                if self.int_tree.fhas(f, ka, rk) {
                    let u = choose|u: int|
                        0 <= u < n as int && (#[trigger] s[u]).0 == rk && derives_int(
                            cfg_view(t0.indexer),
                            s[u].1,
                            f,
                            ka,
                        );
                    lemma_sfind_unique(s, rk, u);
                }
            }
            assert forall|f: Seq<char>, ka: int, rk: Seq<char>|
                #![trigger self.float_tree.fhas(f, ka, rk)]
                self.float_tree.fhas(f, ka, rk) == (sfind(s, rk) >= 0 && derives_float(
                self.cfg(),
                s[sfind(s, rk)].1,
                f,
                ka,
            )) by {
                lemma_sfind(s, rk);
                if self.float_tree.fhas(f, ka, rk) {
                    let u = choose|u: int|
                        0 <= u < n as int && (#[trigger] s[u]).0 == rk && derives_float(
                            cfg_view(t0.indexer),
                            s[u].1,
                            f,
                            ka,
                        );
                    lemma_sfind_unique(s, rk, u);
                }
            }
            assert forall|f: Seq<char>, ka: Seq<char>, rk: Seq<char>|
                #![trigger self.str_tree.fhas(f, ka, rk)]
                self.str_tree.fhas(f, ka, rk) == (sfind(s, rk) >= 0 && derives_str(
                self.cfg(),
                s[sfind(s, rk)].1,
                f,
                ka,
            )) by {
                lemma_sfind(s, rk);
                if self.str_tree.fhas(f, ka, rk) {
                    let u = choose|u: int|
                        0 <= u < n as int && (#[trigger] s[u]).0 == rk && derives_str(
                            cfg_view(t0.indexer),
                            s[u].1,
                            f,
                            ka,
                        );
                    lemma_sfind_unique(s, rk, u);
                }
            }
        }
    }

    /// Copies of all records, sorted by the configuration's comparator.
    pub fn get_items(&self) -> (r: Vec<(String, serde_json::Value)>)
        requires
            self.wf(),
        ensures
            r@.len() == self.store().len(),
            crate::order::sorted_adj(self.cfg(), r@),
            forall|j: int|
                0 <= j < r@.len() ==> sfind(self.store(), (#[trigger] r@[j]).0@) >= 0 && val_view(
                    r@[j].1,
                ) == self.store()[sfind(self.store(), r@[j].0@)].1,
            forall|t: int|
                0 <= t < self.store().len() ==> crate::tree::bucket_has(
                    r@,
                    (#[trigger] self.store()[t]).0,
                ),
    {
        let ghost s = self.store();
        let mut r = store_items(&self.items);
        let ghost before = r@;
        crate::order::sort_records(&self.indexer, &mut r);
        proof {
            lemma_permutation_lookup(s, before, r@);
        }
        r
    }
}

/// A rearrangement of the store's records still looks every record up in
/// the store.
#[verifier::rlimit(50)]
proof fn lemma_permutation_lookup(
    s: Seq<(Seq<char>, SpecVal)>,
    before: Seq<(String, serde_json::Value)>,
    after: Seq<(String, serde_json::Value)>,
)
    requires
        skeys_uniq(s),
        before.len() == s.len(),
        forall|u: int|
            0 <= u < before.len() ==> (#[trigger] before[u]).0@ == s[u].0 && val_view(before[u].1)
                == s[u].1,
        after.to_multiset() == before.to_multiset(),
        after.len() == before.len(),
    ensures
        forall|j: int|
            0 <= j < after.len() ==> sfind(s, (#[trigger] after[j]).0@) >= 0 && val_view(
                after[j].1,
            ) == s[sfind(s, after[j].0@)].1,
        forall|t: int|
            0 <= t < s.len() ==> crate::tree::bucket_has(after, (#[trigger] s[t]).0),
{
    before.to_multiset_ensures();
    after.to_multiset_ensures();
    assert forall|j: int|
        0 <= j < after.len() implies sfind(s, (#[trigger] after[j]).0@) >= 0 && val_view(
        after[j].1,
    ) == s[sfind(s, after[j].0@)].1 by {
        assert(after.to_multiset().count(after[j]) > 0) by {
            assert(after.contains(after[j]));
        }
        assert(before.contains(after[j]));
        let u = choose|u: int| 0 <= u < before.len() && before[u] == after[j];
        lemma_sfind_unique(s, s[u].0, u);
    }
    assert forall|t: int|
        0 <= t < s.len() implies crate::tree::bucket_has(after, (#[trigger] s[t]).0) by {
        assert(before.to_multiset().count(before[t]) > 0) by {
            assert(before.contains(before[t]));
        }
        assert(after.contains(before[t]));
        let j = choose|j: int| 0 <= j < after.len() && after[j] == before[t];
        assert(after[j].0@ == s[t].0);
        assert(crate::tree::bucket_has(after, s[t].0));
    }
}

/// Extending the considered prefix of a composite configuration by one path
/// extends the derived entries by at most that path's.
proof fn lemma_prefix_extends(pos: Seq<(Seq<char>, crate::config::IndexOrd)>, i: int, vv: SpecVal)
    requires
        0 <= i < pos.len(),
    ensures
        forall|f: Seq<char>|
            #![trigger has_path(pos.take(i + 1), f)]
            has_path(pos.take(i + 1), f) == (has_path(pos.take(i), f) || f == pos[i].0),
{
    assert forall|f: Seq<char>|
        #![trigger has_path(pos.take(i + 1), f)]
        has_path(pos.take(i + 1), f) == (has_path(pos.take(i), f) || f == pos[i].0) by {
        if has_path(pos.take(i + 1), f) {
            let t = choose|t: int| 0 <= t < pos.take(i + 1).len() && (#[trigger] pos.take(i + 1)[t]).0 == f;
            if t < i {
                assert(pos.take(i)[t].0 == f);
                assert(has_path(pos.take(i), f));
            } else {
                assert(pos.take(i + 1)[i] == pos[i]);
            }
        }
        if has_path(pos.take(i), f) {
            let t = choose|t: int| 0 <= t < pos.take(i).len() && (#[trigger] pos.take(i)[t]).0 == f;
            assert(pos.take(i + 1)[t].0 == f);
            assert(has_path(pos.take(i + 1), f));
        }
        if f == pos[i].0 {
            assert(pos.take(i + 1)[i].0 == f);
            assert(has_path(pos.take(i + 1), f));
        }
    }
}

} // verus!
