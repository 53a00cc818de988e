//! Query results: the snapshot a query returns, its re-indexing and its
//! re-sorting.

use vstd::prelude::*;
use core::cmp::Ordering;
use crate::config::{cfg_view, CfgView, Indexer, Op};
use crate::globpat::{glob_accepts, glob_match, glob_pattern_ok, lit_prefix};
use crate::index::Index;
use crate::jsonval::val_view;
use crate::model::{accepts, lex_cmp, numeric_key, SpecVal};
use crate::order::{sort_records, sorted_adj};
use crate::store::sfind;
use crate::tree::{bucket_has, bucket_uniq, Rec, Tree};

verus! {

/// The store an ordered list of records builds up, inserted first to last,
/// each through the acceptance filter.
pub open spec fn fold_inserts(
    c: CfgView,
    s: Seq<(Seq<char>, SpecVal)>,
    ps: Seq<(Seq<char>, SpecVal)>,
) -> Seq<(Seq<char>, SpecVal)>
    decreases ps.len(),
{
    if ps.len() == 0 {
        s
    } else {
        let s2 = if accepts(c, ps[0].1) {
            let i = sfind(s, ps[0].0);
            if i >= 0 {
                s.update(i, (ps[0].0, ps[0].1))
            } else {
                s.push((ps[0].0, ps[0].1))
            }
        } else {
            s
        };
        fold_inserts(c, s2, ps.drop_first())
    }
}

/// The content of a record list: each record as its key's characters and
/// its document's content.
pub open spec fn recs_view(rs: Seq<Rec>) -> Seq<(Seq<char>, SpecVal)> {
    rs.map_values(|r: Rec| (r.0@, val_view(r.1)))
}

/// An immutable snapshot of a query's matches, carrying the configuration
/// that produced it.
pub struct QueryResult {
    pub matches: Vec<Rec>,
    pub indexer: Indexer,
    pub index: Index,
}

/// A query's matches after an explicit re-sort.
pub struct OrderedResult {
    pub matches: Vec<Rec>,
}

impl QueryResult {
    /// A snapshot of the given matches under the given configuration.
    pub fn new(matches: Vec<Rec>, indexer: Indexer) -> (r: QueryResult)
        ensures
            r.matches == matches,
            cfg_view(r.indexer) == cfg_view(indexer),
            r.index.wf(),
            r.index.store().len() == 0,
            cfg_view(r.index.indexer) == cfg_view(indexer),
    {
        let inner = crate::config::clone_config(&indexer);
        QueryResult { matches, indexer, index: Index::new(inner) }
    }

    /// The number of matches.
    pub fn count(&self) -> (n: usize)
        ensures
            n == self.matches@.len(),
    {
        self.matches.len()
    }

    /// The matches themselves.
    pub fn get(&self) -> (r: &Vec<Rec>)
        ensures
            r == &self.matches,
    {
        &self.matches
    }

    /// Files the matches into the carried index, so the result set can be
    /// queried again.
    pub fn and_then(&mut self) -> (r: &Index)
        requires
            old(self).index.wf(),
        ensures
            final(self).matches == old(self).matches,
            final(self).indexer == old(self).indexer,
            final(self).index.wf(),
            final(self).index.indexer == old(self).index.indexer,
            final(self).index.store() == fold_inserts(
                cfg_view(old(self).index.indexer),
                old(self).index.store(),
                recs_view(old(self).matches@),
            ),
            r == &final(self).index,
    {
        let ghost cfg0 = cfg_view(old(self).index.indexer);
        let ghost ms = recs_view(old(self).matches@);
        let ghost target = fold_inserts(cfg0, old(self).index.store(), ms);
        let n = self.matches.len();
        let mut i: usize = 0;
        proof {
            assert(ms.skip(0) =~= ms);
        }
        while i < n
            invariant
                i <= n,
                n == self.matches@.len(),
                self.matches == old(self).matches,
                self.indexer == old(self).indexer,
                self.index.wf(),
                self.index.indexer == old(self).index.indexer,
                ms == recs_view(self.matches@),
                fold_inserts(cfg_view(self.index.indexer), self.index.store(), ms.skip(i as int))
                    == target,
            decreases n - i,
        {
            let kv = (self.matches[i].0.clone(), self.matches[i].1.clone());
            proof {
                assert(ms[i as int] == (self.matches@[i as int].0@, val_view(
                    self.matches@[i as int].1,
                )));
                assert(ms.skip(i as int)[0] == ms[i as int]);
                assert(ms.skip(i as int).drop_first() =~= ms.skip(i as int + 1));
            }
            self.index.insert(kv.0.as_str(), kv.1);
            i = i + 1;
        }
        proof {
            assert(ms.skip(n as int) =~= Seq::<(Seq<char>, SpecVal)>::empty());
        }
        &self.index
    }

    /// Re-sorts the matches under a configuration, in place, and hands back
    /// an ordered copy.
    pub fn order_by(&mut self, indexer: Indexer) -> (r: OrderedResult)
        ensures
            final(self).indexer == indexer,
            final(self).index == old(self).index,
            final(self).matches@.to_multiset() == old(self).matches@.to_multiset(),
            sorted_adj(cfg_view(indexer), final(self).matches@),
            r.matches@.len() == final(self).matches@.len(),
            forall|j: int|
                0 <= j < r.matches@.len() ==> (#[trigger] r.matches@[j]).0@
                    == final(self).matches@[j].0@ && val_view(r.matches@[j].1) == val_view(
                    final(self).matches@[j].1,
                ),
            sorted_adj(cfg_view(indexer), r.matches@),
    {
        sort_records(&indexer, &mut self.matches);
        self.indexer = indexer;
        let mut out: Vec<Rec> = Vec::new();
        let n = self.matches.len();
        let mut i: usize = 0;
        while i < n
            invariant
                i <= n,
                n == self.matches@.len(),
                out@.len() == i as int,
                forall|j: int|
                    0 <= j < i as int ==> (#[trigger] out@[j]).0@ == self.matches@[j].0@
                        && val_view(out@[j].1) == val_view(self.matches@[j].1),
            decreases n - i,
        {
            let e = (self.matches[i].0.clone(), self.matches[i].1.clone());
            out.push(e);
            i = i + 1;
        }
        proof {
            lemma_sorted_view_copy(cfg_view(self.indexer), self.matches@, out@);
        }
        OrderedResult { matches: out }
    }
}

/// A record-by-record copy with equal keys and documents sorts the same.
proof fn lemma_sorted_view_copy(c: CfgView, a: Seq<Rec>, b: Seq<Rec>)
    requires
        sorted_adj(c, a),
        b.len() == a.len(),
        forall|j: int|
            0 <= j < b.len() ==> (#[trigger] b[j]).0@ == a[j].0@ && val_view(b[j].1) == val_view(
                a[j].1,
            ),
    ensures
        sorted_adj(c, b),
{
    reveal(crate::order::rec_le);
    assert forall|i: int| 0 <= i < b.len() - 1 implies crate::order::rec_le(
        c,
        #[trigger] b[i],
        b[i + 1],
    ) by {
        assert(crate::order::rec_le(c, a[i], a[i + 1]));
    }
}

impl OrderedResult {
    /// The ordered matches.
    pub fn get(&self) -> (r: &Vec<Rec>)
        ensures
            r == &self.matches,
    {
        &self.matches
    }

    /// The number of matches.
    pub fn count(&self) -> (n: usize)
        ensures
            n == self.matches@.len(),
    {
        self.matches.len()
    }

    /// Keeps only the first `size` matches.
    pub fn limit(&mut self, size: usize)
        ensures
            size as int <= old(self).matches@.len() ==> final(self).matches@ == old(
                self,
            ).matches@.take(size as int),
            size as int > old(self).matches@.len() ==> final(self).matches@ == old(
                self,
            ).matches@,
    {
        self.matches.truncate(size);
        proof {
            if size as int > old(self).matches@.len() {
                assert(final(self).matches@ =~= old(self).matches@);
            }
        }
    }
}

// ---------------------------------------------------------------------------
// The query engine
// ---------------------------------------------------------------------------

/// Which records an integer-tree query selects.
pub open spec fn int_hits(idx: Index, f: Seq<char>, n: int, op: Op, rk: Seq<char>) -> bool {
    match op {
        Op::EQ => idx.int_tree.fhas(f, n, rk),
        Op::LT => exists|ka: int| ka < n && #[trigger] idx.int_tree.fhas(f, ka, rk),
        Op::GT => exists|ka: int| ka > n && #[trigger] idx.int_tree.fhas(f, ka, rk),
        Op::LIKE => false,
    }
}

/// Which records a float-tree query selects, by coercion rank.
pub open spec fn float_hits(idx: Index, f: Seq<char>, n: int, op: Op, rk: Seq<char>) -> bool {
    match op {
        Op::EQ => idx.float_tree.fhas(f, n, rk),
        Op::LT => exists|ka: int| ka < n && #[trigger] idx.float_tree.fhas(f, ka, rk),
        Op::GT => exists|ka: int| ka > n && #[trigger] idx.float_tree.fhas(f, ka, rk),
        Op::LIKE => false,
    }
}

/// Which records a string-tree query selects.
pub open spec fn str_hits(idx: Index, f: Seq<char>, q: Seq<char>, op: Op, rk: Seq<char>) -> bool {
    match op {
        Op::EQ => idx.str_tree.fhas(f, q, rk),
        Op::LT => exists|ka: Seq<char>|
            lex_cmp(ka, q) == Ordering::Less && #[trigger] idx.str_tree.fhas(f, ka, rk),
        Op::GT => exists|ka: Seq<char>|
            lex_cmp(q, ka) == Ordering::Less && #[trigger] idx.str_tree.fhas(f, ka, rk),
        Op::LIKE => glob_pattern_ok(q) && exists|ka: Seq<char>|
            glob_accepts(q, ka) && #[trigger] idx.str_tree.fhas(f, ka, rk),
    }
}

/// Which records a query selects: the query value's scalar type picks the
/// tree, the configuration picks how.
pub open spec fn query_hits(idx: Index, f: Seq<char>, op: Op, qv: SpecVal, rk: Seq<char>) -> bool {
    match idx.cfg() {
        CfgView::Json(_) => if qv is Int {
            int_hits(idx, f, qv->Int_0, op, rk)
        } else if qv is Float {
            float_hits(idx, f, numeric_key(qv), op, rk)
        } else if qv is Str {
            str_hits(idx, f, qv->Str_0, op, rk)
        } else {
            false
        },
        CfgView::Integer(_) => int_hits(idx, f, qv->Int_0, op, rk),
        CfgView::Float(_) => float_hits(idx, f, numeric_key(qv), op, rk),
        CfgView::Text(_) => str_hits(idx, f, qv->Str_0, op, rk),
    }
}

impl Index {
    /// No two scalar keys of one field share a record, in any family.
    proof fn lemma_rk_unique(self, f: Seq<char>)
        requires
            self.wf(),
        ensures
            forall|ka1: int, ka2: int, rk: Seq<char>|
                self.int_tree.fhas(f, ka1, rk) && self.int_tree.fhas(f, ka2, rk) ==> ka1 == ka2,
            forall|ka1: int, ka2: int, rk: Seq<char>|
                self.float_tree.fhas(f, ka1, rk) && self.float_tree.fhas(f, ka2, rk) ==> ka1
                    == ka2,
            forall|ka1: Seq<char>, ka2: Seq<char>, rk: Seq<char>|
                self.str_tree.fhas(f, ka1, rk) && self.str_tree.fhas(f, ka2, rk) ==> ka1 == ka2,
    {
    }

    /// Runs an integer query against the field's tree.
    fn query_int_index(&self, field: &str, q: i64, op: &Op) -> (r: Vec<Rec>)
        requires
            self.wf(),
        ensures
            forall|rk: Seq<char>|
                #![trigger bucket_has(r@, rk)]
                bucket_has(r@, rk) == int_hits(*self, field@, q as int, *op, rk),
            forall|j: int|
                0 <= j < r@.len() ==> sfind(self.store(), (#[trigger] r@[j]).0@) >= 0 && val_view(
                    r@[j].1,
                ) == self.store()[sfind(self.store(), r@[j].0@)].1,
            bucket_uniq(r@),
    {
        let t = match self.int_tree.tree_at(field) {
            None => {
                let r: Vec<Rec> = Vec::new();
                proof {
                    assert forall|rk: Seq<char>|
                        #![trigger bucket_has(r@, rk)]
                        bucket_has(r@, rk) == int_hits(*self, field@, q as int, *op, rk) by {
                        if int_hits(*self, field@, q as int, *op, rk) {
                            match *op {
                                Op::LT => {
                                    let ka = choose|ka: int|
                                        ka < q as int && #[trigger] self.int_tree.fhas(
                                            field@,
                                            ka,
                                            rk,
                                        );
                                },
                                Op::GT => {
                                    let ka = choose|ka: int|
                                        ka > q as int && #[trigger] self.int_tree.fhas(
                                            field@,
                                            ka,
                                            rk,
                                        );
                                },
                                _ => {},
                            }
                        }
                    }
                }
                return r;
            },
            Some(t) => t,
        };
        proof {
            self.lemma_rk_unique(field@);
        }
        match op {
            Op::EQ => {
                let r = t.collect_eq(&q);
                proof {
                    self.lemma_query_glue_int(field@, *t, r@);
                }
                r
            },
            Op::LT => {
                let r = t.collect_side(&q, true);
                proof {
                    self.lemma_query_glue_int(field@, *t, r@);
                    self.lemma_side_glue_int(field@, *t, r@, q as int, true);
                }
                r
            },
            Op::GT => {
                let r = t.collect_side(&q, false);
                proof {
                    self.lemma_query_glue_int(field@, *t, r@);
                    self.lemma_side_glue_int(field@, *t, r@, q as int, false);
                }
                r
            },
            Op::LIKE => Vec::new(),
        }
    }

    /// Records collected from a field's integer tree are records of the
    /// store.
    proof fn lemma_query_glue_int(self, f: Seq<char>, t: Tree<i64>, r: Seq<Rec>)
        requires
            self.wf(),
            t.wf(),
            forall|ka: int, rk: Seq<char>|
                (#[trigger] t.has(ka, rk)) == self.int_tree.fhas(f, ka, rk),
            forall|ka: int, rk: Seq<char>|
                (#[trigger] t.has(ka, rk)) ==> t.doc(ka, rk) == self.int_tree.fdoc(f, ka, rk),
            forall|j: int|
                0 <= j < r.len() ==> exists|wi: int|
                    0 <= wi < t.slots@.len() && bucket_has(
                        t.slots@[wi].1@,
                        (#[trigger] r[j]).0@,
                    ) && val_view(r[j].1) == t.doc(<i64 as crate::tree::TreeKey>::abs(t.slots@[wi].0), r[j].0@),
        ensures
            forall|j: int|
                0 <= j < r.len() ==> sfind(self.store(), (#[trigger] r[j]).0@) >= 0 && val_view(
                    r[j].1,
                ) == self.store()[sfind(self.store(), r[j].0@)].1,
    {
        assert forall|j: int|
            0 <= j < r.len() implies sfind(self.store(), (#[trigger] r[j]).0@) >= 0 && val_view(
            r[j].1,
        ) == self.store()[sfind(self.store(), r[j].0@)].1 by {
            let wi = choose|wi: int|
                0 <= wi < t.slots@.len() && bucket_has(t.slots@[wi].1@, (#[trigger] r[j]).0@)
                    && val_view(r[j].1) == t.doc(<i64 as crate::tree::TreeKey>::abs(t.slots@[wi].0), r[j].0@);
            assert(t.has(<i64 as crate::tree::TreeKey>::abs(t.slots@[wi].0), r[j].0@));
            assert(self.int_tree.fhas(f, <i64 as crate::tree::TreeKey>::abs(t.slots@[wi].0), r[j].0@));
        }
    }

    /// Records collected from one side of an integer key are exactly the
    /// strict range's.
    proof fn lemma_side_glue_int(self, f: Seq<char>, t: Tree<i64>, r: Seq<Rec>, n: int, below: bool)
        requires
            self.wf(),
            t.wf(),
            forall|ka: int, rk: Seq<char>|
                (#[trigger] t.has(ka, rk)) == self.int_tree.fhas(f, ka, rk),
            forall|rk: Seq<char>|
                #![trigger bucket_has(r, rk)]
                bucket_has(r, rk) == (exists|wi: int|
                    0 <= wi < t.slots@.len() && crate::tree::side_ok::<i64>(
                        below,
                        #[trigger] <i64 as crate::tree::TreeKey>::abs(t.slots@[wi].0),
                        n,
                    ) && bucket_has(t.slots@[wi].1@, rk)),
        ensures
            below ==> forall|rk: Seq<char>|
                #![trigger bucket_has(r, rk)]
                bucket_has(r, rk) == (exists|ka: int|
                    ka < n && #[trigger] self.int_tree.fhas(f, ka, rk)),
            !below ==> forall|rk: Seq<char>|
                #![trigger bucket_has(r, rk)]
                bucket_has(r, rk) == (exists|ka: int|
                    ka > n && #[trigger] self.int_tree.fhas(f, ka, rk)),
    {
        assert forall|rk: Seq<char>|
            #![trigger bucket_has(r, rk)]
            true implies bucket_has(r, rk) == (exists|ka: int|
            (if below {
                ka < n
            } else {
                ka > n
            }) && #[trigger] self.int_tree.fhas(f, ka, rk)) by {
            if bucket_has(r, rk) {
                let wi = choose|wi: int|
                    0 <= wi < t.slots@.len() && crate::tree::side_ok::<i64>(
                        below,
                        #[trigger] <i64 as crate::tree::TreeKey>::abs(t.slots@[wi].0),
                        n,
                    ) && bucket_has(t.slots@[wi].1@, rk);
                assert(t.has(<i64 as crate::tree::TreeKey>::abs(t.slots@[wi].0), rk));
                assert(self.int_tree.fhas(f, <i64 as crate::tree::TreeKey>::abs(t.slots@[wi].0), rk));
            }
            if exists|ka: int|
                (if below {
                    ka < n
                } else {
                    ka > n
                }) && #[trigger] self.int_tree.fhas(f, ka, rk) {
                let ka = choose|ka: int|
                    (if below {
                        ka < n
                    } else {
                        ka > n
                    }) && #[trigger] self.int_tree.fhas(f, ka, rk);
                assert(t.has(ka, rk));
                let wi = choose|wi: int|
                    0 <= wi < t.slots@.len() && (#[trigger] <i64 as crate::tree::TreeKey>::abs(t.slots@[wi].0)) == ka
                        && bucket_has(t.slots@[wi].1@, rk);
                assert(crate::tree::side_ok::<i64>(below, <i64 as crate::tree::TreeKey>::abs(t.slots@[wi].0), n));
                assert(bucket_has(r, rk));
            }
        }
    }
}

impl Index {
    /// Runs a float query against the field's tree, by coercion rank.
    fn query_float_index(&self, field: &str, q: &serde_json::Value, op: &Op) -> (r: Vec<Rec>)
        requires
            self.wf(),
        ensures
            forall|rk: Seq<char>|
                #![trigger bucket_has(r@, rk)]
                bucket_has(r@, rk) == float_hits(
                    *self,
                    field@,
                    numeric_key(val_view(*q)),
                    *op,
                    rk,
                ),
            forall|j: int|
                0 <= j < r@.len() ==> sfind(self.store(), (#[trigger] r@[j]).0@) >= 0 && val_view(
                    r@[j].1,
                ) == self.store()[sfind(self.store(), r@[j].0@)].1,
            bucket_uniq(r@),
    {
        let ghost n = numeric_key(val_view(*q));
        let t = match self.float_tree.tree_at(field) {
            None => {
                let r: Vec<Rec> = Vec::new();
                proof {
                    assert forall|rk: Seq<char>|
                        #![trigger bucket_has(r@, rk)]
                        bucket_has(r@, rk) == float_hits(*self, field@, n, *op, rk) by {
                        if float_hits(*self, field@, n, *op, rk) {
                            match *op {
                                Op::LT => {
                                    let ka = choose|ka: int|
                                        ka < n && #[trigger] self.float_tree.fhas(field@, ka, rk);
                                },
                                Op::GT => {
                                    let ka = choose|ka: int|
                                        ka > n && #[trigger] self.float_tree.fhas(field@, ka, rk);
                                },
                                _ => {},
                            }
                        }
                    }
                }
                return r;
            },
            Some(t) => t,
        };
        proof {
            self.lemma_rk_unique(field@);
        }
        match op {
            Op::EQ => {
                let r = t.collect_eq(q);
                proof {
                    self.lemma_query_glue_float(field@, *t, r@);
                }
                r
            },
            Op::LT => {
                let r = t.collect_side(q, true);
                proof {
                    self.lemma_query_glue_float(field@, *t, r@);
                    self.lemma_side_glue_float(field@, *t, r@, n, true);
                }
                r
            },
            Op::GT => {
                let r = t.collect_side(q, false);
                proof {
                    self.lemma_query_glue_float(field@, *t, r@);
                    self.lemma_side_glue_float(field@, *t, r@, n, false);
                }
                r
            },
            Op::LIKE => Vec::new(),
        }
    }

    /// Records collected from a field's float tree are records of the
    /// store.
    proof fn lemma_query_glue_float(self, f: Seq<char>, t: Tree<serde_json::Value>, r: Seq<Rec>)
        requires
            self.wf(),
            t.wf(),
            forall|ka: int, rk: Seq<char>|
                (#[trigger] t.has(ka, rk)) == self.float_tree.fhas(f, ka, rk),
            forall|ka: int, rk: Seq<char>|
                (#[trigger] t.has(ka, rk)) ==> t.doc(ka, rk) == self.float_tree.fdoc(f, ka, rk),
            forall|j: int|
                0 <= j < r.len() ==> exists|wi: int|
                    0 <= wi < t.slots@.len() && bucket_has(
                        t.slots@[wi].1@,
                        (#[trigger] r[j]).0@,
                    ) && val_view(r[j].1) == t.doc(
                        <serde_json::Value as crate::tree::TreeKey>::abs(t.slots@[wi].0),
                        r[j].0@,
                    ),
        ensures
            forall|j: int|
                0 <= j < r.len() ==> sfind(self.store(), (#[trigger] r[j]).0@) >= 0 && val_view(
                    r[j].1,
                ) == self.store()[sfind(self.store(), r[j].0@)].1,
    {
        assert forall|j: int|
            0 <= j < r.len() implies sfind(self.store(), (#[trigger] r[j]).0@) >= 0 && val_view(
            r[j].1,
        ) == self.store()[sfind(self.store(), r[j].0@)].1 by {
            let wi = choose|wi: int|
                0 <= wi < t.slots@.len() && bucket_has(t.slots@[wi].1@, (#[trigger] r[j]).0@)
                    && val_view(r[j].1) == t.doc(
                    <serde_json::Value as crate::tree::TreeKey>::abs(t.slots@[wi].0),
                    r[j].0@,
                );
            assert(t.has(<serde_json::Value as crate::tree::TreeKey>::abs(t.slots@[wi].0), r[j].0@));
            assert(self.float_tree.fhas(
                f,
                <serde_json::Value as crate::tree::TreeKey>::abs(t.slots@[wi].0),
                r[j].0@,
            ));
        }
    }

    /// Records collected from one side of a float key are exactly the
    /// strict range's.
    proof fn lemma_side_glue_float(
        self,
        f: Seq<char>,
        t: Tree<serde_json::Value>,
        r: Seq<Rec>,
        n: int,
        below: bool,
    )
        requires
            self.wf(),
            t.wf(),
            forall|ka: int, rk: Seq<char>|
                (#[trigger] t.has(ka, rk)) == self.float_tree.fhas(f, ka, rk),
            forall|rk: Seq<char>|
                #![trigger bucket_has(r, rk)]
                bucket_has(r, rk) == (exists|wi: int|
                    0 <= wi < t.slots@.len() && crate::tree::side_ok::<serde_json::Value>(
                        below,
                        #[trigger] <serde_json::Value as crate::tree::TreeKey>::abs(
                            t.slots@[wi].0,
                        ),
                        n,
                    ) && bucket_has(t.slots@[wi].1@, rk)),
        ensures
            below ==> forall|rk: Seq<char>|
                #![trigger bucket_has(r, rk)]
                bucket_has(r, rk) == (exists|ka: int|
                    ka < n && #[trigger] self.float_tree.fhas(f, ka, rk)),
            !below ==> forall|rk: Seq<char>|
                #![trigger bucket_has(r, rk)]
                bucket_has(r, rk) == (exists|ka: int|
                    ka > n && #[trigger] self.float_tree.fhas(f, ka, rk)),
    {
        assert forall|rk: Seq<char>|
            #![trigger bucket_has(r, rk)]
            true implies bucket_has(r, rk) == (exists|ka: int|
            (if below {
                ka < n
            } else {
                ka > n
            }) && #[trigger] self.float_tree.fhas(f, ka, rk)) by {
            if bucket_has(r, rk) {
                let wi = choose|wi: int|
                    0 <= wi < t.slots@.len() && crate::tree::side_ok::<serde_json::Value>(
                        below,
                        #[trigger] <serde_json::Value as crate::tree::TreeKey>::abs(
                            t.slots@[wi].0,
                        ),
                        n,
                    ) && bucket_has(t.slots@[wi].1@, rk);
                assert(t.has(
                    <serde_json::Value as crate::tree::TreeKey>::abs(t.slots@[wi].0),
                    rk,
                ));
                assert(self.float_tree.fhas(
                    f,
                    <serde_json::Value as crate::tree::TreeKey>::abs(t.slots@[wi].0),
                    rk,
                ));
            }
            if exists|ka: int|
                (if below {
                    ka < n
                } else {
                    ka > n
                }) && #[trigger] self.float_tree.fhas(f, ka, rk) {
                let ka = choose|ka: int|
                    (if below {
                        ka < n
                    } else {
                        ka > n
                    }) && #[trigger] self.float_tree.fhas(f, ka, rk);
                assert(t.has(ka, rk));
                let wi = choose|wi: int|
                    0 <= wi < t.slots@.len() && (
                    #[trigger] <serde_json::Value as crate::tree::TreeKey>::abs(t.slots@[wi].0))
                        == ka && bucket_has(t.slots@[wi].1@, rk);
                assert(crate::tree::side_ok::<serde_json::Value>(
                    below,
                    <serde_json::Value as crate::tree::TreeKey>::abs(t.slots@[wi].0),
                    n,
                ));
                assert(bucket_has(r, rk));
            }
        }
    }
}

/// Whether a character opens a wildcard token of a glob pattern.
fn is_wildcard(c: char) -> (r: bool)
    ensures
        r == (c == '*' || c == '?' || c == '['),
{
    c == '*' || c == '?' || c == '['
}

/// The literal prefix is the characters before the first wildcard.
proof fn lemma_lit_prefix_chars(p: Seq<char>, k: int)
    requires
        0 <= k <= p.len(),
        forall|u: int| 0 <= u < k ==> !((#[trigger] p[u]) == '*' || p[u] == '?' || p[u] == '['),
        k < p.len() ==> (p[k] == '*' || p[k] == '?' || p[k] == '['),
    ensures
        lit_prefix(p) == p.take(k),
    decreases k,
{
    if k == 0 {
        assert(p.take(0) =~= Seq::<char>::empty());
    } else {
        assert(!(p[0] == '*' || p[0] == '?' || p[0] == '['));
        lemma_lit_prefix_chars(p.drop_first(), k - 1);
        assert(p.take(k) =~= seq![p[0]] + p.drop_first().take(k - 1));
    }
}

/// Scans a string tree for keys matching a glob pattern, starting at the
/// pattern's literal prefix and stopping once a key's first character has
/// passed the prefix's, which prunes the scan to the matching range.
#[verifier::rlimit(100)]
fn like_scan(t: &Tree<String>, pattern: &str) -> (r: Vec<Rec>)
    requires
        t.wf(),
        forall|ka1: Seq<char>, ka2: Seq<char>, rk: Seq<char>|
            t.has(ka1, rk) && t.has(ka2, rk) ==> ka1 == ka2,
    ensures
        !glob_pattern_ok(pattern@) ==> r@.len() == 0,
        glob_pattern_ok(pattern@) ==> forall|rk: Seq<char>|
            #![trigger bucket_has(r@, rk)]
            bucket_has(r@, rk) == (exists|wi: int|
                0 <= wi < t.slots@.len() && glob_accepts(pattern@, (#[trigger] t.slots@[wi].0)@)
                    && bucket_has(t.slots@[wi].1@, rk)),
        forall|j: int|
            0 <= j < r@.len() ==> exists|wi: int|
                0 <= wi < t.slots@.len() && bucket_has(t.slots@[wi].1@, (#[trigger] r@[j]).0@)
                    && val_view(r@[j].1) == t.doc(t.slots@[wi].0@, r@[j].0@),
        bucket_uniq(r@),
{
    let mut r: Vec<Rec> = Vec::new();
    let probe = glob_match(pattern, "");
    if probe.is_none() {
        return r;
    }
    // The characters before the first wildcard.
    let plen = pattern.unicode_len();
    let mut cut: usize = 0;
    while cut < plen
        invariant
            cut <= plen,
            plen == pattern@.len(),
            forall|u: int|
                0 <= u < cut as int ==> !((#[trigger] pattern@[u]) == '*' || pattern@[u] == '?'
                    || pattern@[u] == '['),
        ensures
            cut <= plen,
            plen == pattern@.len(),
            forall|u: int|
                0 <= u < cut as int ==> !((#[trigger] pattern@[u]) == '*' || pattern@[u] == '?'
                    || pattern@[u] == '['),
            cut < plen ==> (pattern@[cut as int] == '*' || pattern@[cut as int] == '?'
                || pattern@[cut as int] == '['),
        decreases plen - cut,
    {
        if is_wildcard(pattern.get_char(cut)) {
            break ;
        }
        cut = cut + 1;
    }
    proof {
        lemma_lit_prefix_chars(pattern@, cut as int);
    }
    let pre = pattern.substring_char(0, cut);
    let n = t.slots.len();
    let mut i: usize = 0;
    if cut > 0 {
        while i < n
            invariant
                i <= n,
                n == t.slots@.len(),
                forall|w: int|
                    0 <= w < i as int ==> lex_cmp((#[trigger] t.slots@[w].0)@, pre@)
                        == Ordering::Less,
            ensures
                i <= n,
                n == t.slots@.len(),
                forall|w: int|
                    0 <= w < i as int ==> lex_cmp((#[trigger] t.slots@[w].0)@, pre@)
                        == Ordering::Less,
                i < n ==> lex_cmp(t.slots@[i as int].0@, pre@) != Ordering::Less,
            decreases n - i,
        {
            let c = crate::model::str_compare(t.slots[i].0.as_str(), pre);
            if !matches!(c, Ordering::Less) {
                break ;
            }
            i = i + 1;
        }
    }
    // No skipped key can match: a match starts with the literal prefix.
    proof {
        assert forall|w: int|
            0 <= w < i as int implies !glob_accepts(
            pattern@,
            (#[trigger] t.slots@[w].0)@,
        ) by {
            if glob_accepts(pattern@, t.slots@[w].0@) {
                crate::model::lemma_prefix_not_less(pre@, t.slots@[w].0@);
            }
        }
    }
    let mut stop = false;
    while i < n && !stop
        invariant
            i <= n,
            n == t.slots@.len(),
            t.wf(),
            forall|ka1: Seq<char>, ka2: Seq<char>, rk: Seq<char>|
                t.has(ka1, rk) && t.has(ka2, rk) ==> ka1 == ka2,
            pre@ == lit_prefix(pattern@),
            pre@.len() == cut as int,
            glob_pattern_ok(pattern@),
            cut as int > 0 && i < n && !stop ==> lex_cmp(t.slots@[i as int].0@, pre@)
                != Ordering::Less,
            forall|rk: Seq<char>|
                #![trigger bucket_has(r@, rk)]
                bucket_has(r@, rk) == (exists|wi: int|
                    0 <= wi < i as int && glob_accepts(
                        pattern@,
                        (#[trigger] t.slots@[wi].0)@,
                    ) && bucket_has(t.slots@[wi].1@, rk)),
            forall|j: int|
                0 <= j < r@.len() ==> exists|wi: int|
                    0 <= wi < t.slots@.len() && bucket_has(
                        t.slots@[wi].1@,
                        (#[trigger] r@[j]).0@,
                    ) && val_view(r@[j].1) == t.doc(t.slots@[wi].0@, r@[j].0@),
            bucket_uniq(r@),
            stop ==> forall|w: int|
                i as int <= w < n ==> !glob_accepts(pattern@, (#[trigger] t.slots@[w].0)@),
        decreases n - i, (if stop { 0int } else { 1int }),
    {
        let mut advance = true;
        if cut > 0 {
            proof {
                if t.slots@[i as int].0@.len() == 0 {
                    assert(lex_cmp(t.slots@[i as int].0@, pre@) == Ordering::Less);
                }
            }
            let kc = t.slots[i].0.as_str().get_char(0);
            let pc = pre.get_char(0);
            if (kc as u32) > (pc as u32) {
                stop = true;
                advance = false;
                proof {
                    assert forall|w: int|
                        i as int <= w < n implies !glob_accepts(
                        pattern@,
                        (#[trigger] t.slots@[w].0)@,
                    ) by {
                        let kw = t.slots@[w].0@;
                        if glob_accepts(pattern@, kw) {
                            assert(kw.len() >= pre@.len());
                            assert(kw.take(pre@.len() as int) == pre@);
                            assert(kw[0] == pre@[0]) by {
                                assert(kw.take(pre@.len() as int)[0] == kw[0]);
                            }
                            if w == i as int {
                            } else {
                                assert(lex_cmp(t.slots@[i as int].0@, kw) == Ordering::Less) by {
                                    assert(<String as crate::tree::TreeKey>::abs_lt(
                                        <String as crate::tree::TreeKey>::abs(
                                            t.slots@[i as int].0,
                                        ),
                                        <String as crate::tree::TreeKey>::abs(t.slots@[w].0),
                                    ));
                                }
                                crate::model::lemma_lex_less_first(t.slots@[i as int].0@, kw);
                            }
                        }
                    }
                }
            }
        }
        if advance {
            let m = match glob_match(pattern, t.slots[i].0.as_str()) {
                Some(b) => b,
                None => false,
            };
            if m {
                let ghost r0 = r@;
                let ghost b = t.slots@[i as int].1@;
                let bl = t.slots[i].1.len();
                let mut j: usize = 0;
                while j < bl
                    invariant
                        j <= bl,
                        t.wf(),
                        i < t.slots@.len(),
                        b == t.slots@[i as int].1@,
                        bl == b.len(),
                        r@.len() == r0.len() + j as int,
                        forall|u: int| 0 <= u < r0.len() ==> r@[u] == r0[u],
                        forall|u: int|
                            0 <= u < j as int ==> (#[trigger] r@[r0.len() + u]).0@ == b[u].0@
                                && val_view(r@[r0.len() + u].1) == val_view(b[u].1),
                    decreases bl - j,
                {
                    let e = (t.slots[i].1[j].0.clone(), t.slots[i].1[j].1.clone());
                    r.push(e);
                    j = j + 1;
                }
                proof {
                    let iv = i as int;
                    assert forall|rk: Seq<char>|
                        #![trigger bucket_has(r@, rk)]
                        bucket_has(r@, rk) == (exists|wi: int|
                            0 <= wi < iv + 1 && glob_accepts(
                                pattern@,
                                (#[trigger] t.slots@[wi].0)@,
                            ) && bucket_has(t.slots@[wi].1@, rk)) by {
                        if bucket_has(r@, rk) {
                            let wj = choose|wj: int|
                                0 <= wj < r@.len() && (#[trigger] r@[wj]).0@ == rk;
                            if wj < r0.len() {
                                assert(r0[wj].0@ == rk);
                                assert(bucket_has(r0, rk));
                            } else {
                                assert(r@[r0.len() + (wj - r0.len())].0@ == b[wj - r0.len()].0@);
                                assert(b[wj - r0.len()].0@ == rk);
                                assert(bucket_has(t.slots@[iv].1@, rk));
                            }
                        }
                        if exists|wi: int|
                            0 <= wi < iv + 1 && glob_accepts(
                                pattern@,
                                (#[trigger] t.slots@[wi].0)@,
                            ) && bucket_has(t.slots@[wi].1@, rk) {
                            let wi = choose|wi: int|
                                0 <= wi < iv + 1 && glob_accepts(
                                    pattern@,
                                    (#[trigger] t.slots@[wi].0)@,
                                ) && bucket_has(t.slots@[wi].1@, rk);
                            if wi < iv {
                                assert(bucket_has(r0, rk));
                                let wj = choose|wj: int|
                                    0 <= wj < r0.len() && (#[trigger] r0[wj]).0@ == rk;
                                assert(r@[wj] == r0[wj]);
                                assert(bucket_has(r@, rk));
                            } else {
                                let wj = choose|wj: int|
                                    0 <= wj < b.len() && (#[trigger] b[wj]).0@ == rk;
                                assert(r@[r0.len() + wj].0@ == b[wj].0@);
                                assert(bucket_has(r@, rk));
                            }
                        }
                    }
                    assert forall|j2: int|
                        #![trigger r@[j2]]
                        0 <= j2 < r@.len() implies exists|wi: int|
                        0 <= wi < t.slots@.len() && bucket_has(
                            t.slots@[wi].1@,
                            (#[trigger] r@[j2]).0@,
                        ) && val_view(r@[j2].1) == t.doc(t.slots@[wi].0@, r@[j2].0@) by {
                        if j2 < r0.len() {
                            assert(r@[j2] == r0[j2]);
                        } else {
                            assert(r@[r0.len() + (j2 - r0.len())].0@ == b[j2 - r0.len()].0@);
                            t.lemma_doc_at(iv, j2 - r0.len());
                            assert(0 <= iv < t.slots@.len() && bucket_has(
                                t.slots@[iv].1@,
                                r@[j2].0@,
                            ) && val_view(r@[j2].1) == t.doc(t.slots@[iv].0@, r@[j2].0@));
                        }
                    }
                    assert forall|j1: int, j2: int| 0 <= j1 < j2 < r@.len() implies r@[j1].0@
                        != r@[j2].0@ by {
                        if j2 < r0.len() {
                            assert(r@[j1] == r0[j1]);
                            assert(r@[j2] == r0[j2]);
                        } else if j1 >= r0.len() {
                            assert(r@[r0.len() + (j1 - r0.len())].0@ == b[j1 - r0.len()].0@);
                            assert(r@[r0.len() + (j2 - r0.len())].0@ == b[j2 - r0.len()].0@);
                            assert(b[j1 - r0.len()].0@ != b[j2 - r0.len()].0@);
                        } else {
                            if r@[j1].0@ == r@[j2].0@ {
                                let rk = r@[j1].0@;
                                assert(r@[j1] == r0[j1]);
                                assert(r0[j1].0@ == rk);
                                assert(bucket_has(r0, rk));
                                let wi = choose|wi: int|
                                    0 <= wi < iv && glob_accepts(
                                        pattern@,
                                        (#[trigger] t.slots@[wi].0)@,
                                    ) && bucket_has(t.slots@[wi].1@, rk);
                                assert(r@[r0.len() + (j2 - r0.len())].0@ == b[j2 - r0.len()].0@);
                                assert(bucket_has(b, rk));
                                assert(<String as crate::tree::TreeKey>::abs(t.slots@[wi].0)
                                    == t.slots@[wi].0@);
                                assert(<String as crate::tree::TreeKey>::abs(t.slots@[iv].0)
                                    == t.slots@[iv].0@);
                                assert(t.has(t.slots@[wi].0@, rk));
                                assert(t.has(t.slots@[iv].0@, rk));
                                t.lemma_slot_unique(wi, iv);
                                assert(false);
                            }
                        }
                    }
                }
            } else {
                proof {
                    assert(!glob_accepts(pattern@, t.slots@[i as int].0@));
                }
            }
            proof {
                if cut as int > 0 && i as int + 1 < n as int {
                    let a = t.slots@[i as int].0@;
                    let c = t.slots@[i as int + 1].0@;
                    assert(lex_cmp(a, c) == Ordering::Less) by {
                        assert(<String as crate::tree::TreeKey>::abs_lt(
                            <String as crate::tree::TreeKey>::abs(t.slots@[i as int].0),
                            <String as crate::tree::TreeKey>::abs(t.slots@[i as int + 1].0),
                        ));
                    }
                    if lex_cmp(c, pre@) == Ordering::Less {
                        crate::model::lemma_lex_eq(a, pre@);
                        crate::model::lemma_lex_flip(a, pre@);
                        if lex_cmp(pre@, a) == Ordering::Less {
                            crate::model::lemma_lex_trans(c, pre@, a);
                            crate::model::lemma_lex_flip(a, c);
                        } else {
                            assert(lex_cmp(a, pre@) == Ordering::Equal);
                            crate::model::lemma_lex_eq(a, pre@);
                            assert(a == pre@);
                            crate::model::lemma_lex_flip(a, c);
                        }
                        assert(false);
                    }
                }
            }
            i = i + 1;
        }
    }
    proof {
        assert forall|rk: Seq<char>|
            #![trigger bucket_has(r@, rk)]
            bucket_has(r@, rk) == (exists|wi: int|
                0 <= wi < n as int && glob_accepts(pattern@, (#[trigger] t.slots@[wi].0)@)
                    && bucket_has(t.slots@[wi].1@, rk)) by {
            if exists|wi: int|
                0 <= wi < n as int && glob_accepts(pattern@, (#[trigger] t.slots@[wi].0)@)
                    && bucket_has(t.slots@[wi].1@, rk) {
                let wi = choose|wi: int|
                    0 <= wi < n as int && glob_accepts(pattern@, (#[trigger] t.slots@[wi].0)@)
                        && bucket_has(t.slots@[wi].1@, rk);
                assert(wi < i as int);
            }
        }
    }
    r
}

impl Index {
    /// Runs a string query against the field's tree.
    fn query_string_index(&self, field: &str, q: &str, op: &Op) -> (r: Vec<Rec>)
        requires
            self.wf(),
        ensures
            forall|rk: Seq<char>|
                #![trigger bucket_has(r@, rk)]
                bucket_has(r@, rk) == str_hits(*self, field@, q@, *op, rk),
            forall|j: int|
                0 <= j < r@.len() ==> sfind(self.store(), (#[trigger] r@[j]).0@) >= 0 && val_view(
                    r@[j].1,
                ) == self.store()[sfind(self.store(), r@[j].0@)].1,
            bucket_uniq(r@),
    {
        let t = match self.str_tree.tree_at(field) {
            None => {
                let r: Vec<Rec> = Vec::new();
                proof {
                    assert forall|rk: Seq<char>|
                        #![trigger bucket_has(r@, rk)]
                        bucket_has(r@, rk) == str_hits(*self, field@, q@, *op, rk) by {
                        if str_hits(*self, field@, q@, *op, rk) {
                            match *op {
                                Op::LT => {
                                    let ka = choose|ka: Seq<char>|
                                        lex_cmp(ka, q@) == Ordering::Less
                                            && #[trigger] self.str_tree.fhas(field@, ka, rk);
                                },
                                Op::GT => {
                                    let ka = choose|ka: Seq<char>|
                                        lex_cmp(q@, ka) == Ordering::Less
                                            && #[trigger] self.str_tree.fhas(field@, ka, rk);
                                },
                                Op::LIKE => {
                                    let ka = choose|ka: Seq<char>|
                                        glob_accepts(q@, ka) && #[trigger] self.str_tree.fhas(
                                            field@,
                                            ka,
                                            rk,
                                        );
                                },
                                _ => {},
                            }
                        }
                    }
                }
                return r;
            },
            Some(t) => t,
        };
        proof {
            self.lemma_rk_unique(field@);
        }
        match op {
            Op::EQ => {
                let key = q.to_owned();
                let r = t.collect_eq(&key);
                proof {
                    self.lemma_query_glue_str(field@, *t, r@);
                }
                r
            },
            Op::LT => {
                let key = q.to_owned();
                let r = t.collect_side(&key, true);
                proof {
                    self.lemma_query_glue_str(field@, *t, r@);
                    self.lemma_side_glue_str(field@, *t, r@, q@, true);
                }
                r
            },
            Op::GT => {
                let key = q.to_owned();
                let r = t.collect_side(&key, false);
                proof {
                    self.lemma_query_glue_str(field@, *t, r@);
                    self.lemma_side_glue_str(field@, *t, r@, q@, false);
                }
                r
            },
            Op::LIKE => {
                let r = like_scan(t, q);
                proof {
                    self.lemma_query_glue_str(field@, *t, r@);
                    assert forall|rk: Seq<char>|
                        #![trigger bucket_has(r@, rk)]
                        bucket_has(r@, rk) == str_hits(*self, field@, q@, *op, rk) by {
                        if !glob_pattern_ok(q@) {
                            assert(r@.len() == 0);
                            if bucket_has(r@, rk) {
                                let wj = choose|wj: int|
                                    0 <= wj < r@.len() && (#[trigger] r@[wj]).0@ == rk;
                            }
                        } else {
                            if bucket_has(r@, rk) {
                                let wi = choose|wi: int|
                                    0 <= wi < t.slots@.len() && glob_accepts(
                                        q@,
                                        (#[trigger] t.slots@[wi].0)@,
                                    ) && bucket_has(t.slots@[wi].1@, rk);
                                assert(<String as crate::tree::TreeKey>::abs(t.slots@[wi].0)
                                    == t.slots@[wi].0@);
                                assert(t.has(t.slots@[wi].0@, rk));
                                assert(self.str_tree.fhas(field@, t.slots@[wi].0@, rk));
                            }
                            if str_hits(*self, field@, q@, *op, rk) {
                                let ka = choose|ka: Seq<char>|
                                    glob_accepts(q@, ka) && #[trigger] self.str_tree.fhas(
                                        field@,
                                        ka,
                                        rk,
                                    );
                                assert(t.has(ka, rk));
                                let wi = choose|wi: int|
                                    0 <= wi < t.slots@.len() && (
                                    #[trigger] <String as crate::tree::TreeKey>::abs(
                                        t.slots@[wi].0,
                                    )) == ka && bucket_has(t.slots@[wi].1@, rk);
                                assert(t.slots@[wi].0@ == ka);
                                assert(bucket_has(r@, rk));
                            }
                        }
                    }
                }
                r
            },
        }
    }

    /// Records collected from a field's string tree are records of the
    /// store.
    proof fn lemma_query_glue_str(self, f: Seq<char>, t: Tree<String>, r: Seq<Rec>)
        requires
            self.wf(),
            t.wf(),
            forall|ka: Seq<char>, rk: Seq<char>|
                (#[trigger] t.has(ka, rk)) == self.str_tree.fhas(f, ka, rk),
            forall|ka: Seq<char>, rk: Seq<char>|
                (#[trigger] t.has(ka, rk)) ==> t.doc(ka, rk) == self.str_tree.fdoc(f, ka, rk),
            forall|j: int|
                0 <= j < r.len() ==> exists|wi: int|
                    0 <= wi < t.slots@.len() && bucket_has(
                        t.slots@[wi].1@,
                        (#[trigger] r[j]).0@,
                    ) && val_view(r[j].1) == t.doc(
                        <String as crate::tree::TreeKey>::abs(t.slots@[wi].0),
                        r[j].0@,
                    ),
        ensures
            forall|j: int|
                0 <= j < r.len() ==> sfind(self.store(), (#[trigger] r[j]).0@) >= 0 && val_view(
                    r[j].1,
                ) == self.store()[sfind(self.store(), r[j].0@)].1,
    {
        assert forall|j: int|
            0 <= j < r.len() implies sfind(self.store(), (#[trigger] r[j]).0@) >= 0 && val_view(
            r[j].1,
        ) == self.store()[sfind(self.store(), r[j].0@)].1 by {
            let wi = choose|wi: int|
                0 <= wi < t.slots@.len() && bucket_has(t.slots@[wi].1@, (#[trigger] r[j]).0@)
                    && val_view(r[j].1) == t.doc(
                    <String as crate::tree::TreeKey>::abs(t.slots@[wi].0),
                    r[j].0@,
                );
            assert(t.has(<String as crate::tree::TreeKey>::abs(t.slots@[wi].0), r[j].0@));
            assert(self.str_tree.fhas(
                f,
                <String as crate::tree::TreeKey>::abs(t.slots@[wi].0),
                r[j].0@,
            ));
        }
    }

    /// Records collected from one side of a string key are exactly the
    /// strict range's.
    proof fn lemma_side_glue_str(
        self,
        f: Seq<char>,
        t: Tree<String>,
        r: Seq<Rec>,
        q: Seq<char>,
        below: bool,
    )
        requires
            self.wf(),
            t.wf(),
            forall|ka: Seq<char>, rk: Seq<char>|
                (#[trigger] t.has(ka, rk)) == self.str_tree.fhas(f, ka, rk),
            forall|rk: Seq<char>|
                #![trigger bucket_has(r, rk)]
                bucket_has(r, rk) == (exists|wi: int|
                    0 <= wi < t.slots@.len() && crate::tree::side_ok::<String>(
                        below,
                        #[trigger] <String as crate::tree::TreeKey>::abs(t.slots@[wi].0),
                        q,
                    ) && bucket_has(t.slots@[wi].1@, rk)),
        ensures
            below ==> forall|rk: Seq<char>|
                #![trigger bucket_has(r, rk)]
                bucket_has(r, rk) == (exists|ka: Seq<char>|
                    lex_cmp(ka, q) == Ordering::Less && #[trigger] self.str_tree.fhas(f, ka, rk)),
            !below ==> forall|rk: Seq<char>|
                #![trigger bucket_has(r, rk)]
                bucket_has(r, rk) == (exists|ka: Seq<char>|
                    lex_cmp(q, ka) == Ordering::Less && #[trigger] self.str_tree.fhas(f, ka, rk)),
    {
        assert forall|rk: Seq<char>|
            #![trigger bucket_has(r, rk)]
            true implies bucket_has(r, rk) == (exists|ka: Seq<char>|
            (if below {
                lex_cmp(ka, q) == Ordering::Less
            } else {
                lex_cmp(q, ka) == Ordering::Less
            }) && #[trigger] self.str_tree.fhas(f, ka, rk)) by {
            if bucket_has(r, rk) {
                let wi = choose|wi: int|
                    0 <= wi < t.slots@.len() && crate::tree::side_ok::<String>(
                        below,
                        #[trigger] <String as crate::tree::TreeKey>::abs(t.slots@[wi].0),
                        q,
                    ) && bucket_has(t.slots@[wi].1@, rk);
                assert(t.has(<String as crate::tree::TreeKey>::abs(t.slots@[wi].0), rk));
                assert(self.str_tree.fhas(
                    f,
                    <String as crate::tree::TreeKey>::abs(t.slots@[wi].0),
                    rk,
                ));
            }
            if exists|ka: Seq<char>|
                (if below {
                    lex_cmp(ka, q) == Ordering::Less
                } else {
                    lex_cmp(q, ka) == Ordering::Less
                }) && #[trigger] self.str_tree.fhas(f, ka, rk) {
                let ka = choose|ka: Seq<char>|
                    (if below {
                        lex_cmp(ka, q) == Ordering::Less
                    } else {
                        lex_cmp(q, ka) == Ordering::Less
                    }) && #[trigger] self.str_tree.fhas(f, ka, rk);
                assert(t.has(ka, rk));
                let wi = choose|wi: int|
                    0 <= wi < t.slots@.len() && (
                    #[trigger] <String as crate::tree::TreeKey>::abs(t.slots@[wi].0)) == ka
                        && bucket_has(t.slots@[wi].1@, rk);
                assert(crate::tree::side_ok::<String>(
                    below,
                    <String as crate::tree::TreeKey>::abs(t.slots@[wi].0),
                    q,
                ));
                assert(bucket_has(r, rk));
            }
        }
    }

    /// Queries the index: the operator and the query value's scalar type
    /// select the tree; the matches come back as a fresh snapshot.
    pub fn find_where(&self, field: &str, op: Op, value: &serde_json::Value) -> (r: QueryResult)
        requires
            self.wf(),
            self.cfg() is Integer ==> val_view(*value) is Int,
            self.cfg() is Float ==> val_view(*value).is_number(),
            self.cfg() is Text ==> val_view(*value) is Str,
        ensures
            cfg_view(r.indexer) == self.cfg(),
            r.index.wf(),
            r.index.store().len() == 0,
            cfg_view(r.index.indexer) == self.cfg(),
            forall|rk: Seq<char>|
                #![trigger bucket_has(r.matches@, rk)]
                bucket_has(r.matches@, rk) == query_hits(*self, field@, op, val_view(*value), rk),
            forall|j: int|
                0 <= j < r.matches@.len() ==> sfind(self.store(), (#[trigger] r.matches@[j]).0@)
                    >= 0 && val_view(r.matches@[j].1) == self.store()[sfind(
                    self.store(),
                    r.matches@[j].0@,
                )].1,
            bucket_uniq(r.matches@),
    {
        let indexer = crate::config::clone_config(&self.indexer);
        let matches: Vec<Rec> = match &self.indexer {
            Indexer::Json(_) => {
                if let Some(qi) = value.as_i64() {
                    self.query_int_index(field, qi, &op)
                } else if value.is_f64() {
                    self.query_float_index(field, value, &op)
                } else if value.is_string() {
                    let qs = match value.as_str() {
                        Some(s) => s,
                        None => "",
                    };
                    self.query_string_index(field, qs, &op)
                } else {
                    Vec::new()
                }
            },
            Indexer::Integer(_) => {
                let qi = match value.as_i64() {
                    Some(v) => v,
                    None => 0,
                };
                self.query_int_index(field, qi, &op)
            },
            Indexer::Float(_) => self.query_float_index(field, value, &op),
            Indexer::String(_) => {
                let qs = match value.as_str() {
                    Some(s) => s,
                    None => "",
                };
                self.query_string_index(field, qs, &op)
            },
        };
        QueryResult::new(matches, indexer)
    }
}

impl Index {
    /// An index built from a pre-existing collection: each document is
    /// filtered and filed in turn.
    pub fn from_items(indexer: Indexer, items: Vec<Rec>) -> (r: Index)
        ensures
            r.wf(),
            r.indexer == indexer,
            r.store() == fold_inserts(
                cfg_view(indexer),
                Seq::<(Seq<char>, SpecVal)>::empty(),
                recs_view(items@),
            ),
    {
        let ghost ms = recs_view(items@);
        let mut idx = Index::new(indexer);
        let ghost cfg0 = cfg_view(idx.indexer);
        proof {
            assert(idx.store() =~= Seq::<(Seq<char>, SpecVal)>::empty());
            assert(ms.skip(0) =~= ms);
        }
        let ghost target = fold_inserts(cfg0, idx.store(), ms);
        let n = items.len();
        let mut i: usize = 0;
        while i < n
            invariant
                i <= n,
                n == items@.len(),
                idx.wf(),
                idx.indexer == indexer,
                ms == recs_view(items@),
                fold_inserts(cfg_view(idx.indexer), idx.store(), ms.skip(i as int)) == target,
            decreases n - i,
        {
            let kv = (items[i].0.clone(), items[i].1.clone());
            proof {
                assert(ms[i as int] == (items@[i as int].0@, val_view(items@[i as int].1)));
                assert(ms.skip(i as int)[0] == ms[i as int]);
                assert(ms.skip(i as int).drop_first() =~= ms.skip(i as int + 1));
            }
            idx.insert(kv.0.as_str(), kv.1);
            i = i + 1;
        }
        proof {
            assert(ms.skip(n as int) =~= Seq::<(Seq<char>, SpecVal)>::empty());
        }
        idx
    }
}


} // verus!
