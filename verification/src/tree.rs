//! The ordered multi-valued trees of the secondary index: for each field, a
//! strictly sorted list of scalar keys, each with a bucket of records.

use vstd::prelude::*;
use core::cmp::Ordering;
use crate::jsonval::val_view;
use crate::model::SpecVal;

verus! {

/// A scalar key of a secondary tree, ordered by an abstract projection.
pub trait TreeKey: Sized {
    /// The abstract content by which keys are ordered and identified.
    type Abs;

    /// The abstract content of this key.
    spec fn abs(self) -> Self::Abs;

    /// The strict order on abstract keys.
    spec fn abs_lt(a: Self::Abs, b: Self::Abs) -> bool;

    /// The strict order is total: irreflexive, transitive, connected and
    /// asymmetric.
    proof fn order_laws(a: Self::Abs, b: Self::Abs, c: Self::Abs)
        ensures
            a == b ==> !Self::abs_lt(a, b),
            Self::abs_lt(a, b) && Self::abs_lt(b, c) ==> Self::abs_lt(a, c),
            a != b ==> Self::abs_lt(a, b) || Self::abs_lt(b, a),
            Self::abs_lt(a, b) ==> !Self::abs_lt(b, a),
    ;

    /// Three-way comparison agreeing with the abstract order.
    fn key_cmp(&self, other: &Self) -> (r: Ordering)
        ensures
            (r == Ordering::Less) == Self::abs_lt(self.abs(), other.abs()),
            (r == Ordering::Greater) == Self::abs_lt(other.abs(), self.abs()),
            (r == Ordering::Equal) == (self.abs() == other.abs()),
    ;
}

/// One record of a bucket: the record key and a copy of its document.
pub type Rec = (String, serde_json::Value);

/// Whether a bucket holds the record key.
pub open spec fn bucket_has(b: Seq<Rec>, rk: Seq<char>) -> bool {
    exists|j: int| 0 <= j < b.len() && b[j].0@ == rk
}

/// Whether every record key occurs at most once in a bucket.
pub open spec fn bucket_uniq(b: Seq<Rec>) -> bool {
    forall|j1: int, j2: int| 0 <= j1 < j2 < b.len() ==> b[j1].0@ != b[j2].0@
}

/// An ordered multi-valued map from scalar keys to buckets of records.
pub struct Tree<K> {
    pub slots: Vec<(K, Vec<Rec>)>,
}

impl<K: TreeKey> Tree<K> {
    /// Keys strictly increasing, buckets non-empty with unique record keys.
    pub open spec fn wf(self) -> bool {
        &&& forall|i1: int, i2: int|
            0 <= i1 < i2 < self.slots@.len() ==> K::abs_lt(
                #[trigger] self.slots@[i1].0.abs(),
                #[trigger] self.slots@[i2].0.abs(),
            )
        &&& forall|i: int|
            0 <= i < self.slots@.len() ==> (#[trigger] self.slots@[i].1)@.len() > 0
                && bucket_uniq(self.slots@[i].1@)
    }

    /// Whether the tree holds the record key under the scalar key.
    pub open spec fn has(self, ka: K::Abs, rk: Seq<char>) -> bool {
        exists|i: int|
            0 <= i < self.slots@.len() && (#[trigger] self.slots@[i].0.abs()) == ka && bucket_has(
                self.slots@[i].1@,
                rk,
            )
    }

    /// The position of the slot holding the abstract key, where one exists.
    pub open spec fn slot_ix(self, ka: K::Abs) -> int {
        choose|i: int| 0 <= i < self.slots@.len() && (#[trigger] self.slots@[i].0.abs()) == ka
    }

    /// The position of the record key in a bucket, where one exists.
    pub open spec fn bucket_ix(b: Seq<Rec>, rk: Seq<char>) -> int {
        choose|j: int| 0 <= j < b.len() && (#[trigger] b[j]).0@ == rk
    }

    /// The content of the document stored under the scalar and record keys.
    pub open spec fn doc(self, ka: K::Abs, rk: Seq<char>) -> SpecVal {
        let i = self.slot_ix(ka);
        let j = Self::bucket_ix(self.slots@[i].1@, rk);
        val_view(self.slots@[i].1@[j].1)
    }

    /// At most one slot holds a given abstract key.
    pub proof fn lemma_slot_unique(self, i1: int, i2: int)
        requires
            self.wf(),
            0 <= i1 < self.slots@.len(),
            0 <= i2 < self.slots@.len(),
            self.slots@[i1].0.abs() == self.slots@[i2].0.abs(),
        ensures
            i1 == i2,
    {
        if i1 < i2 || i2 < i1 {
            K::order_laws(self.slots@[i1].0.abs(), self.slots@[i2].0.abs(), self.slots@[i2].0.abs());
        }
    }

    /// What `doc` denotes at a held position.
    pub proof fn lemma_doc_at(self, i: int, j: int)
        requires
            self.wf(),
            0 <= i < self.slots@.len(),
            0 <= j < self.slots@[i].1@.len(),
        ensures
            self.has(self.slots@[i].0.abs(), self.slots@[i].1@[j].0@),
            self.doc(self.slots@[i].0.abs(), self.slots@[i].1@[j].0@) == val_view(
                self.slots@[i].1@[j].1,
            ),
    {
        let ka = self.slots@[i].0.abs();
        let rk = self.slots@[i].1@[j].0@;
        assert(self.has(ka, rk));
        assert(exists|ci: int|
            0 <= ci < self.slots@.len() && (#[trigger] self.slots@[ci].0.abs()) == ka);
        let ci = self.slot_ix(ka);
        self.lemma_slot_unique(ci, i);
        let b = self.slots@[i].1@;
        assert(exists|cj: int| 0 <= cj < b.len() && (#[trigger] b[cj]).0@ == rk);
        let cj = Self::bucket_ix(b, rk);
        assert(cj == j);
    }

    /// An empty tree.
    pub fn new() -> (r: Self)
        ensures
            r.wf(),
            forall|ka: K::Abs, rk: Seq<char>| !r.has(ka, rk),
    {
        Tree { slots: Vec::new() }
    }

    /// The position of the scalar key, if it is present.
    fn find_slot(&self, key: &K) -> (r: Option<usize>)
        requires
            self.wf(),
        ensures
            match r {
                Some(i) => i < self.slots@.len() && self.slots@[i as int].0.abs() == key.abs(),
                None => forall|i: int|
                    0 <= i < self.slots@.len() ==> (#[trigger] self.slots@[i].0.abs())
                        != key.abs(),
            },
    {
        let n = self.slots.len();
        let mut i: usize = 0;
        while i < n
            invariant
                i <= n,
                n == self.slots@.len(),
                self.wf(),
                forall|t: int| 0 <= t < i as int ==> (#[trigger] self.slots@[t].0.abs()) != key.abs(),
            decreases n - i,
        {
            let c = self.slots[i].0.key_cmp(key);
            match c {
                Ordering::Equal => {
                    return Some(i);
                },
                _ => {
                    proof {
                        K::order_laws(self.slots@[i as int].0.abs(), key.abs(), key.abs());
                    }
                },
            }
            i = i + 1;
        }
        None
    }

    /// The position of the record key in the bucket, if it is present.
    fn find_in_bucket(b: &Vec<Rec>, rk: &str) -> (r: Option<usize>)
        ensures
            match r {
                Some(j) => j < b@.len() && b@[j as int].0@ == rk@,
                None => !bucket_has(b@, rk@),
            },
    {
        let m = b.len();
        let mut j: usize = 0;
        while j < m
            invariant
                j <= m,
                m == b@.len(),
                forall|t: int| 0 <= t < j as int ==> (#[trigger] b@[t].0)@ != rk@,
            decreases m - j,
        {
            if crate::model::str_eq(b[j].0.as_str(), rk) {
                return Some(j);
            }
            j = j + 1;
        }
        None
    }

    /// Removes the record key from under the scalar key; a bucket left
    /// empty disappears with its slot.
    pub fn remove_entry(&mut self, key: &K, rk: &str)
        requires
            old(self).wf(),
        ensures
            final(self).wf(),
            forall|ka: K::Abs, rk2: Seq<char>|
                final(self).has(ka, rk2) == (old(self).has(ka, rk2) && !(ka == key.abs() && rk2
                    == rk@)),
            forall|ka: K::Abs, rk2: Seq<char>|
                final(self).has(ka, rk2) ==> final(self).doc(ka, rk2) == old(self).doc(ka, rk2),
    {
        let ghost old_tree = *self;
        let i = match self.find_slot(key) {
            None => {
                return ;
            },
            Some(i) => i,
        };
        let j = match Self::find_in_bucket(&self.slots[i].1, rk) {
            None => {
                proof {
                    assert forall|ka: K::Abs, rk2: Seq<char>|
                        self.has(ka, rk2) implies !(ka == key.abs() && rk2 == rk@) by {
                        if ka == key.abs() && rk2 == rk@ {
                            let wi = choose|wi: int|
                                0 <= wi < self.slots@.len() && (#[trigger] self.slots@[wi].0.abs())
                                    == ka && bucket_has(self.slots@[wi].1@, rk2);
                            self.lemma_slot_unique(wi, i as int);
                        }
                    }
                }
                return ;
            },
            Some(j) => j,
        };
        let (k0, mut b) = self.slots.remove(i);
        let ghost old_b = b@;
        b.swap_remove(j);
        if b.len() == 0 {
            proof {
                self.lemma_remove_gone(old_tree, i as int, key.abs(), rk@, old_b, j as int);
            }
        } else {
            self.slots.insert(i, (k0, b));
            proof {
                self.lemma_remove_kept(old_tree, i as int, key.abs(), rk@, old_b, j as int);
            }
        }
    }

    /// The effect of deleting a slot whose bucket held only the removed
    /// record.
    proof fn lemma_remove_gone(
        self,
        old_tree: Self,
        i: int,
        ka0: K::Abs,
        rk: Seq<char>,
        old_b: Seq<Rec>,
        j: int,
    )
        requires
            old_tree.wf(),
            0 <= i < old_tree.slots@.len(),
            old_tree.slots@[i].0.abs() == ka0,
            old_b == old_tree.slots@[i].1@,
            0 <= j < old_b.len() && old_b[j].0@ == rk,
            old_b.len() == 1,
            self.slots@ == old_tree.slots@.remove(i),
        ensures
            self.wf(),
            forall|ka: K::Abs, rk2: Seq<char>|
                self.has(ka, rk2) == (old_tree.has(ka, rk2) && !(ka == ka0 && rk2 == rk)),
            forall|ka: K::Abs, rk2: Seq<char>|
                self.has(ka, rk2) ==> self.doc(ka, rk2) == old_tree.doc(ka, rk2),
    {
        assert(self.wf());
        assert forall|ka: K::Abs, rk2: Seq<char>| self.has(ka, rk2) == (old_tree.has(ka, rk2) && !(
        ka == ka0 && rk2 == rk)) by {
            if self.has(ka, rk2) {
                let wi = choose|wi: int|
                    0 <= wi < self.slots@.len() && (#[trigger] self.slots@[wi].0.abs()) == ka
                        && bucket_has(self.slots@[wi].1@, rk2);
                let oi = if wi < i {
                    wi
                } else {
                    wi + 1
                };
                assert(self.slots@[wi] == old_tree.slots@[oi]);
                assert(old_tree.has(ka, rk2));
                if ka == ka0 {
                    old_tree.lemma_slot_unique(oi, i);
                }
            }
            if old_tree.has(ka, rk2) && !(ka == ka0 && rk2 == rk) {
                let wi = choose|wi: int|
                    0 <= wi < old_tree.slots@.len() && (#[trigger] old_tree.slots@[wi].0.abs())
                        == ka && bucket_has(old_tree.slots@[wi].1@, rk2);
                if wi == i {
                    // The only record of this bucket is the removed one.
                    let wj = choose|wj: int|
                        0 <= wj < old_b.len() && (#[trigger] old_b[wj]).0@ == rk2;
                    assert(wj == 0 && j == 0);
                    assert(false);
                } else if wi < i {
                    assert(self.slots@[wi] == old_tree.slots@[wi]);
                    assert(self.has(ka, rk2));
                } else {
                    assert(self.slots@[wi - 1] == old_tree.slots@[wi]);
                    assert(self.has(ka, rk2));
                }
            }
        }
        assert forall|ka: K::Abs, rk2: Seq<char>| self.has(ka, rk2) implies self.doc(ka, rk2)
            == old_tree.doc(ka, rk2) by {
            let wi = choose|wi: int|
                0 <= wi < self.slots@.len() && (#[trigger] self.slots@[wi].0.abs()) == ka
                    && bucket_has(self.slots@[wi].1@, rk2);
            let wj = choose|wj: int|
                0 <= wj < self.slots@[wi].1@.len() && (#[trigger] self.slots@[wi].1@[wj]).0@
                    == rk2;
            self.lemma_doc_at(wi, wj);
            let oi = if wi < i {
                wi
            } else {
                wi + 1
            };
            assert(self.slots@[wi] == old_tree.slots@[oi]);
            old_tree.lemma_doc_at(oi, wj);
        }
    }

    /// The effect of removing one record from a bucket that keeps other
    /// records.
    proof fn lemma_remove_kept(
        self,
        old_tree: Self,
        i: int,
        ka0: K::Abs,
        rk: Seq<char>,
        old_b: Seq<Rec>,
        j: int,
    )
        requires
            old_tree.wf(),
            0 <= i < old_tree.slots@.len(),
            old_tree.slots@[i].0.abs() == ka0,
            old_b == old_tree.slots@[i].1@,
            0 <= j < old_b.len() && old_b[j].0@ == rk,
            old_b.len() > 1,
            self.slots@.len() == old_tree.slots@.len(),
            forall|t: int|
                0 <= t < self.slots@.len() && t != i ==> self.slots@[t] == old_tree.slots@[t],
            self.slots@[i].0 == old_tree.slots@[i].0,
            self.slots@[i].1@ == old_b.update(j, old_b.last()).drop_last(),
        ensures
            self.wf(),
            forall|ka: K::Abs, rk2: Seq<char>|
                self.has(ka, rk2) == (old_tree.has(ka, rk2) && !(ka == ka0 && rk2 == rk)),
            forall|ka: K::Abs, rk2: Seq<char>|
                self.has(ka, rk2) ==> self.doc(ka, rk2) == old_tree.doc(ka, rk2),
    {
        let new_b = self.slots@[i].1@;
        assert(bucket_uniq(old_b));
        // Positions of the new bucket map to old positions.
        assert forall|t: int| 0 <= t < new_b.len() implies new_b[t] == old_b[
            (if t == j && j < old_b.len() - 1 {
                old_b.len() - 1
            } else {
                t
            })
        ] by {}
        assert(bucket_uniq(new_b)) by {
            assert forall|j1: int, j2: int| 0 <= j1 < j2 < new_b.len() implies new_b[j1].0@
                != new_b[j2].0@ by {
                let a1 = if j1 == j && j < old_b.len() - 1 {
                    old_b.len() - 1
                } else {
                    j1
                };
                let a2 = if j2 == j && j < old_b.len() - 1 {
                    old_b.len() - 1
                } else {
                    j2
                };
                assert(new_b[j1] == old_b[a1]);
                assert(new_b[j2] == old_b[a2]);
                assert(a1 != a2);
            }
        }
        assert forall|rk2: Seq<char>| bucket_has(new_b, rk2) == (bucket_has(old_b, rk2) && rk2
            != rk) by {
            if bucket_has(new_b, rk2) {
                let wj = choose|wj: int| 0 <= wj < new_b.len() && (#[trigger] new_b[wj]).0@ == rk2;
                let a = if wj == j && j < old_b.len() - 1 {
                    old_b.len() - 1
                } else {
                    wj
                };
                assert(new_b[wj] == old_b[a]);
                assert(bucket_has(old_b, rk2));
                assert(a != j);
            }
            if bucket_has(old_b, rk2) && rk2 != rk {
                let wj = choose|wj: int| 0 <= wj < old_b.len() && (#[trigger] old_b[wj]).0@ == rk2;
                assert(wj != j);
                if wj == old_b.len() - 1 {
                    assert(j < old_b.len() - 1);
                    assert(new_b[j] == old_b[wj]);
                    assert(bucket_has(new_b, rk2));
                } else {
                    assert(new_b[wj] == old_b[wj]);
                    assert(bucket_has(new_b, rk2));
                }
            }
        }
        assert(self.wf());
        assert forall|ka: K::Abs, rk2: Seq<char>| self.has(ka, rk2) == (old_tree.has(ka, rk2) && !(
        ka == ka0 && rk2 == rk)) by {
            if self.has(ka, rk2) {
                let wi = choose|wi: int|
                    0 <= wi < self.slots@.len() && (#[trigger] self.slots@[wi].0.abs()) == ka
                        && bucket_has(self.slots@[wi].1@, rk2);
                if wi == i {
                    assert(bucket_has(old_b, rk2) && rk2 != rk);
                    assert(old_tree.has(ka, rk2));
                } else {
                    assert(old_tree.slots@[wi] == self.slots@[wi]);
                    assert(old_tree.has(ka, rk2));
                    if ka == ka0 {
                        old_tree.lemma_slot_unique(wi, i);
                    }
                }
            }
            if old_tree.has(ka, rk2) && !(ka == ka0 && rk2 == rk) {
                let wi = choose|wi: int|
                    0 <= wi < old_tree.slots@.len() && (#[trigger] old_tree.slots@[wi].0.abs())
                        == ka && bucket_has(old_tree.slots@[wi].1@, rk2);
                if wi == i {
                    assert(rk2 != rk);
                    assert(bucket_has(new_b, rk2));
                    assert(self.has(ka, rk2));
                } else {
                    assert(self.slots@[wi] == old_tree.slots@[wi]);
                    assert(self.has(ka, rk2));
                }
            }
        }
        assert forall|ka: K::Abs, rk2: Seq<char>| self.has(ka, rk2) implies self.doc(ka, rk2)
            == old_tree.doc(ka, rk2) by {
            let wi = choose|wi: int|
                0 <= wi < self.slots@.len() && (#[trigger] self.slots@[wi].0.abs()) == ka
                    && bucket_has(self.slots@[wi].1@, rk2);
            let wj = choose|wj: int|
                0 <= wj < self.slots@[wi].1@.len() && (#[trigger] self.slots@[wi].1@[wj]).0@
                    == rk2;
            self.lemma_doc_at(wi, wj);
            if wi == i {
                let a = if wj == j && j < old_b.len() - 1 {
                    old_b.len() - 1
                } else {
                    wj
                };
                assert(new_b[wj] == old_b[a]);
                old_tree.lemma_doc_at(i, a);
            } else {
                assert(self.slots@[wi] == old_tree.slots@[wi]);
                old_tree.lemma_doc_at(wi, wj);
            }
        }
    }

    /// Adds one record under a scalar key, creating the slot or replacing
    /// the record's previous document under that slot.
    pub fn insert_entry(&mut self, key: K, rk: &str, doc: &serde_json::Value)
        requires
            old(self).wf(),
        ensures
            final(self).wf(),
            forall|ka: K::Abs, rk2: Seq<char>|
                final(self).has(ka, rk2) == (old(self).has(ka, rk2) || (ka == key.abs() && rk2
                    == rk@)),
            final(self).doc(key.abs(), rk@) == val_view(*doc),
            forall|ka: K::Abs, rk2: Seq<char>|
                old(self).has(ka, rk2) && !(ka == key.abs() && rk2 == rk@) ==> final(self).doc(
                    ka,
                    rk2,
                ) == old(self).doc(ka, rk2),
    {
        let ghost old_tree = *self;
        let n = self.slots.len();
        let mut i: usize = 0;
        while i < n
            invariant
                i <= n,
                n == self.slots@.len(),
                self.wf(),
                *self == old_tree,
                forall|t: int|
                    0 <= t < i as int ==> K::abs_lt(
                        (#[trigger] self.slots@[t].0.abs()),
                        key.abs(),
                    ),
            ensures
                i <= n,
                n == self.slots@.len(),
                self.wf(),
                *self == old_tree,
                forall|t: int|
                    0 <= t < i as int ==> K::abs_lt(
                        (#[trigger] self.slots@[t].0.abs()),
                        key.abs(),
                    ),
                i < n ==> !K::abs_lt(self.slots@[i as int].0.abs(), key.abs()),
            decreases n - i,
        {
            let c = self.slots[i].0.key_cmp(&key);
            match c {
                Ordering::Less => {
                },
                _ => {
                    break ;
                },
            }
            i = i + 1;
        }
        // Here every slot before i is strictly below the key.
        if i < self.slots.len() {
            let c = self.slots[i].0.key_cmp(&key);
            if matches!(c, Ordering::Equal) {
                // Replace or append inside the existing bucket.
                let (k0, mut b) = self.slots.remove(i);
                let ghost old_b = b@;
                let m = b.len();
                let mut j: usize = 0;
                let mut found: bool = false;
                while j < m && !found
                    invariant
                        j <= m,
                        m == b@.len(),
                        b@ == old_b,
                        found ==> j < m && b@[j as int].0@ == rk@,
                        !found ==> forall|t: int|
                            0 <= t < j as int ==> (#[trigger] b@[t].0)@ != rk@,
                    decreases m - j, (if found { 0int } else { 1int }),
                {
                    if crate::model::str_eq(b[j].0.as_str(), rk) {
                        found = true;
                    } else {
                        j = j + 1;
                    }
                }
                proof {
                    if !found {
                        assert(!bucket_has(old_b, rk@));
                    }
                }
                if found {
                    b.swap_remove(j);
                }
                b.push((rk.to_owned(), doc.clone()));
                self.slots.insert(i, (k0, b));
                proof {
                    self.lemma_insert_existing(
                        old_tree,
                        i as int,
                        key,
                        rk@,
                        val_view(*doc),
                        old_b,
                        found,
                        j as int,
                    );
                }
                return ;
            }
            proof {
                K::order_laws(self.slots@[i as int].0.abs(), key.abs(), key.abs());
                assert(K::abs_lt(key.abs(), self.slots@[i as int].0.abs()));
            }
        }
        let mut b: Vec<Rec> = Vec::new();
        b.push((rk.to_owned(), doc.clone()));
        self.slots.insert(i, (key, b));
        proof {
            self.lemma_insert_fresh(old_tree, i as int, key, rk@, val_view(*doc));
        }
    }

    /// The effect of inserting a fresh slot at a position that keeps the
    /// order.
    proof fn lemma_insert_fresh(
        self,
        old_tree: Self,
        i: int,
        key: K,
        rk: Seq<char>,
        dv: SpecVal,
    )
        requires
            old_tree.wf(),
            0 <= i <= old_tree.slots@.len(),
            forall|t: int|
                0 <= t < i ==> K::abs_lt((#[trigger] old_tree.slots@[t].0.abs()), key.abs()),
            i < old_tree.slots@.len() ==> K::abs_lt(key.abs(), old_tree.slots@[i].0.abs()),
            self.slots@.len() == old_tree.slots@.len() + 1,
            self.slots@[i].0 == key,
            self.slots@[i].1@.len() == 1,
            self.slots@[i].1@[0].0@ == rk,
            val_view(self.slots@[i].1@[0].1) == dv,
            forall|t: int| 0 <= t < i ==> self.slots@[t] == old_tree.slots@[t],
            forall|t: int|
                i < t < self.slots@.len() ==> self.slots@[t] == old_tree.slots@[t - 1],
        ensures
            self.wf(),
            forall|ka: K::Abs, rk2: Seq<char>|
                self.has(ka, rk2) == (old_tree.has(ka, rk2) || (ka == key.abs() && rk2 == rk)),
            self.doc(key.abs(), rk) == dv,
            forall|ka: K::Abs, rk2: Seq<char>|
                old_tree.has(ka, rk2) && !(ka == key.abs() && rk2 == rk) ==> self.doc(ka, rk2)
                    == old_tree.doc(ka, rk2),
    {
        // Order across the new slot needs transitivity through its
        // neighbours.
        assert forall|i1: int, i2: int| 0 <= i1 < i2 < self.slots@.len() implies K::abs_lt(
            self.slots@[i1].0.abs(),
            self.slots@[i2].0.abs(),
        ) by {
            if i2 < i {
                assert(self.slots@[i1] == old_tree.slots@[i1]);
                assert(self.slots@[i2] == old_tree.slots@[i2]);
            } else if i2 == i {
                assert(self.slots@[i1] == old_tree.slots@[i1]);
                assert(K::abs_lt(old_tree.slots@[i1].0.abs(), key.abs()));
            } else if i1 == i {
                assert(self.slots@[i2] == old_tree.slots@[i2 - 1]);
                if i2 - 1 == i {
                } else {
                    K::order_laws(
                        key.abs(),
                        old_tree.slots@[i].0.abs(),
                        old_tree.slots@[i2 - 1].0.abs(),
                    );
                }
            } else if i1 < i {
                assert(self.slots@[i1] == old_tree.slots@[i1]);
                assert(self.slots@[i2] == old_tree.slots@[i2 - 1]);
                assert(K::abs_lt(old_tree.slots@[i1].0.abs(), key.abs()));
                if i2 - 1 == i {
                    K::order_laws(
                        old_tree.slots@[i1].0.abs(),
                        key.abs(),
                        old_tree.slots@[i].0.abs(),
                    );
                } else {
                    K::order_laws(key.abs(), old_tree.slots@[i].0.abs(), old_tree.slots@[i2 - 1].0.abs());
                    K::order_laws(old_tree.slots@[i1].0.abs(), key.abs(), old_tree.slots@[i2 - 1].0.abs());
                }
            } else {
                assert(self.slots@[i1] == old_tree.slots@[i1 - 1]);
                assert(self.slots@[i2] == old_tree.slots@[i2 - 1]);
            }
        }
        assert(self.wf());
        // No old slot holds the new key.
        assert forall|t: int| 0 <= t < old_tree.slots@.len() implies old_tree.slots@[t].0.abs()
            != key.abs() by {
            K::order_laws(old_tree.slots@[t].0.abs(), key.abs(), key.abs());
            if t >= i && i < old_tree.slots@.len() {
                if t > i {
                    K::order_laws(
                        key.abs(),
                        old_tree.slots@[i].0.abs(),
                        old_tree.slots@[t].0.abs(),
                    );
                }
                K::order_laws(key.abs(), old_tree.slots@[t].0.abs(), key.abs());
            }
        }
        assert forall|ka: K::Abs, rk2: Seq<char>| self.has(ka, rk2) == (old_tree.has(ka, rk2) || (
        ka == key.abs() && rk2 == rk)) by {
            if self.has(ka, rk2) {
                let wi = choose|wi: int|
                    0 <= wi < self.slots@.len() && (#[trigger] self.slots@[wi].0.abs()) == ka
                        && bucket_has(self.slots@[wi].1@, rk2);
                if wi == i {
                    assert(rk2 == rk);
                } else if wi < i {
                    assert(old_tree.slots@[wi] == self.slots@[wi]);
                    assert(old_tree.has(ka, rk2));
                } else {
                    assert(old_tree.slots@[wi - 1] == self.slots@[wi]);
                    assert(old_tree.has(ka, rk2));
                }
            }
            if old_tree.has(ka, rk2) {
                let wi = choose|wi: int|
                    0 <= wi < old_tree.slots@.len() && (#[trigger] old_tree.slots@[wi].0.abs())
                        == ka && bucket_has(old_tree.slots@[wi].1@, rk2);
                if wi < i {
                    assert(self.slots@[wi] == old_tree.slots@[wi]);
                    assert(self.has(ka, rk2));
                } else {
                    assert(self.slots@[wi + 1] == old_tree.slots@[wi]);
                    assert(self.has(ka, rk2));
                }
            }
            if ka == key.abs() && rk2 == rk {
                assert(bucket_has(self.slots@[i].1@, rk));
                assert(self.has(ka, rk2));
            }
        }
        self.lemma_doc_at(i, 0);
        assert forall|ka: K::Abs, rk2: Seq<char>|
            old_tree.has(ka, rk2) && !(ka == key.abs() && rk2 == rk) implies self.doc(ka, rk2)
            == old_tree.doc(ka, rk2) by {
            let wi = choose|wi: int|
                0 <= wi < old_tree.slots@.len() && (#[trigger] old_tree.slots@[wi].0.abs()) == ka
                    && bucket_has(old_tree.slots@[wi].1@, rk2);
            let wj = choose|wj: int|
                0 <= wj < old_tree.slots@[wi].1@.len() && (#[trigger] old_tree.slots@[wi].1@[wj]).0@
                    == rk2;
            old_tree.lemma_doc_at(wi, wj);
            if wi < i {
                assert(self.slots@[wi] == old_tree.slots@[wi]);
                self.lemma_doc_at(wi, wj);
            } else {
                assert(self.slots@[wi + 1] == old_tree.slots@[wi]);
                self.lemma_doc_at(wi + 1, wj);
            }
        }
    }

    /// The effect of replacing a slot's bucket with one where the record
    /// key's entry has been replaced or appended.
    proof fn lemma_insert_existing(
        self,
        old_tree: Self,
        i: int,
        key: K,
        rk: Seq<char>,
        dv: SpecVal,
        old_b: Seq<Rec>,
        found: bool,
        j: int,
    )
        requires
            old_tree.wf(),
            0 <= i < old_tree.slots@.len(),
            old_tree.slots@[i].0.abs() == key.abs(),
            old_b == old_tree.slots@[i].1@,
            found ==> 0 <= j < old_b.len() && old_b[j].0@ == rk,
            !found ==> !bucket_has(old_b, rk),
            self.slots@.len() == old_tree.slots@.len(),
            forall|t: int| 0 <= t < self.slots@.len() && t != i ==> self.slots@[t] == old_tree.slots@[t],
            self.slots@[i].0 == old_tree.slots@[i].0,
            self.slots@[i].1@ == ({
                let base = if found {
                    old_b.update(j, old_b.last()).drop_last()
                } else {
                    old_b
                };
                base.push((self.slots@[i].1@.last().0, self.slots@[i].1@.last().1))
            }),
            self.slots@[i].1@.last().0@ == rk,
            val_view(self.slots@[i].1@.last().1) == dv,
        ensures
            self.wf(),
            forall|ka: K::Abs, rk2: Seq<char>|
                self.has(ka, rk2) == (old_tree.has(ka, rk2) || (ka == key.abs() && rk2 == rk)),
            self.doc(key.abs(), rk) == dv,
            forall|ka: K::Abs, rk2: Seq<char>|
                old_tree.has(ka, rk2) && !(ka == key.abs() && rk2 == rk) ==> self.doc(ka, rk2)
                    == old_tree.doc(ka, rk2),
    {
        let new_b = self.slots@[i].1@;
        let base = if found {
            old_b.update(j, old_b.last()).drop_last()
        } else {
            old_b
        };
        // The new bucket holds exactly the old record keys plus rk, with the
        // same documents except at rk.
        assert(bucket_uniq(old_b));
        assert forall|rk2: Seq<char>| bucket_has(new_b, rk2) == (bucket_has(old_b, rk2) || rk2
            == rk) by {
            if bucket_has(new_b, rk2) {
                let wj = choose|wj: int| 0 <= wj < new_b.len() && (#[trigger] new_b[wj]).0@ == rk2;
                if wj == new_b.len() - 1 {
                    assert(rk2 == rk);
                } else {
                    assert(base[wj] == new_b[wj]);
                    if found {
                        if wj == j && j < old_b.len() - 1 {
                            assert(old_b[old_b.len() - 1] == base[wj]);
                        } else {
                            assert(old_b[wj] == base[wj]);
                        }
                    }
                    assert(bucket_has(old_b, rk2));
                }
            }
            if bucket_has(old_b, rk2) && rk2 != rk {
                let wj = choose|wj: int| 0 <= wj < old_b.len() && (#[trigger] old_b[wj]).0@ == rk2;
                if found {
                    assert(wj != j);
                    if wj == old_b.len() - 1 {
                        // The last entry moved to position j; it is not rk.
                        assert(j < old_b.len() - 1);
                        assert(base[j] == old_b[wj]);
                        assert(new_b[j] == base[j]);
                        assert(bucket_has(new_b, rk2));
                    } else {
                        assert(base[wj] == old_b[wj]);
                        assert(new_b[wj] == base[wj]);
                        assert(bucket_has(new_b, rk2));
                    }
                } else {
                    assert(new_b[wj] == old_b[wj]);
                    assert(bucket_has(new_b, rk2));
                }
            }
            if rk2 == rk {
                assert(new_b[new_b.len() - 1].0@ == rk);
                assert(bucket_has(new_b, rk2));
            }
        }
        assert(bucket_uniq(new_b)) by {
            assert forall|j1: int, j2: int| 0 <= j1 < j2 < new_b.len() implies new_b[j1].0@
                != new_b[j2].0@ by {
                if j2 == new_b.len() - 1 {
                    // Entries below the top came from old_b minus rk.
                    if found {
                        if j1 == j && j < old_b.len() - 1 {
                            assert(new_b[j1] == old_b[old_b.len() - 1]);
                        } else {
                            assert(new_b[j1] == old_b[j1]);
                        }
                    } else {
                        assert(new_b[j1] == old_b[j1]);
                    }
                } else {
                    if found {
                        let a1 = if j1 == j && j < old_b.len() - 1 {
                            old_b.len() - 1
                        } else {
                            j1
                        };
                        let a2 = if j2 == j && j < old_b.len() - 1 {
                            old_b.len() - 1
                        } else {
                            j2
                        };
                        assert(new_b[j1] == old_b[a1]);
                        assert(new_b[j2] == old_b[a2]);
                        assert(a1 != a2);
                    } else {
                        assert(new_b[j1] == old_b[j1]);
                        assert(new_b[j2] == old_b[j2]);
                    }
                }
            }
        }
        assert(self.wf());
        assert forall|ka: K::Abs, rk2: Seq<char>| self.has(ka, rk2) == (old_tree.has(ka, rk2) || (
        ka == key.abs() && rk2 == rk)) by {
            if self.has(ka, rk2) {
                let wi = choose|wi: int|
                    0 <= wi < self.slots@.len() && (#[trigger] self.slots@[wi].0.abs()) == ka
                        && bucket_has(self.slots@[wi].1@, rk2);
                if wi == i {
                    if rk2 != rk {
                        assert(bucket_has(old_b, rk2));
                        assert(old_tree.has(ka, rk2));
                    }
                } else {
                    assert(old_tree.slots@[wi] == self.slots@[wi]);
                    assert(old_tree.has(ka, rk2));
                }
            }
            if old_tree.has(ka, rk2) {
                let wi = choose|wi: int|
                    0 <= wi < old_tree.slots@.len() && (#[trigger] old_tree.slots@[wi].0.abs())
                        == ka && bucket_has(old_tree.slots@[wi].1@, rk2);
                if wi == i {
                    assert(bucket_has(new_b, rk2));
                    assert(self.has(ka, rk2));
                } else {
                    assert(self.slots@[wi] == old_tree.slots@[wi]);
                    assert(self.has(ka, rk2));
                }
            }
            if ka == key.abs() && rk2 == rk {
                assert(bucket_has(new_b, rk));
                assert(self.has(ka, rk2));
            }
        }
        self.lemma_doc_at(i, new_b.len() - 1);
        assert forall|ka: K::Abs, rk2: Seq<char>|
            old_tree.has(ka, rk2) && !(ka == key.abs() && rk2 == rk) implies self.doc(ka, rk2)
            == old_tree.doc(ka, rk2) by {
            let wi = choose|wi: int|
                0 <= wi < old_tree.slots@.len() && (#[trigger] old_tree.slots@[wi].0.abs()) == ka
                    && bucket_has(old_tree.slots@[wi].1@, rk2);
            let wj = choose|wj: int|
                0 <= wj < old_tree.slots@[wi].1@.len() && (#[trigger] old_tree.slots@[wi].1@[wj]).0@
                    == rk2;
            old_tree.lemma_doc_at(wi, wj);
            if wi != i {
                assert(self.slots@[wi] == old_tree.slots@[wi]);
                self.lemma_doc_at(wi, wj);
            } else {
                // rk2 is in the new bucket somewhere below the top.
                assert(rk2 != rk);
                if found {
                    if wj == j {
                        assert(false);
                    } else if wj == old_b.len() - 1 {
                        assert(j < old_b.len() - 1);
                        assert(new_b[j] == old_b[wj]);
                        self.lemma_doc_at(i, j);
                    } else {
                        assert(new_b[wj] == old_b[wj]);
                        self.lemma_doc_at(i, wj);
                    }
                } else {
                    assert(new_b[wj] == old_b[wj]);
                    self.lemma_doc_at(i, wj);
                }
            }
        }
    }

    /// Copies of all records under the scalar key.
    pub fn collect_eq(&self, key: &K) -> (r: Vec<Rec>)
        requires
            self.wf(),
        ensures
            forall|rk: Seq<char>| bucket_has(r@, rk) == self.has(key.abs(), rk),
            forall|j: int|
                0 <= j < r@.len() ==> self.has(key.abs(), r@[j].0@) && val_view(r@[j].1)
                    == self.doc(key.abs(), r@[j].0@),
            bucket_uniq(r@),
    {
        let mut r: Vec<Rec> = Vec::new();
        let i = match self.find_slot(key) {
            None => {
                proof {
                    assert forall|rk: Seq<char>| !self.has(key.abs(), rk) by {
                        if self.has(key.abs(), rk) {
                            let wi = choose|wi: int|
                                0 <= wi < self.slots@.len() && (#[trigger] self.slots@[wi].0.abs())
                                    == key.abs() && bucket_has(self.slots@[wi].1@, rk);
                        }
                    }
                }
                return r;
            },
            Some(i) => i,
        };
        let ghost b = self.slots@[i as int].1@;
        let m = self.slots[i].1.len();
        let mut j: usize = 0;
        while j < m
            invariant
                j <= m,
                self.wf(),
                i < self.slots@.len(),
                self.slots@[i as int].0.abs() == key.abs(),
                b == self.slots@[i as int].1@,
                m == b.len(),
                r@.len() == j as int,
                forall|t: int|
                    0 <= t < j as int ==> (#[trigger] r@[t]).0@ == b[t].0@ && val_view(r@[t].1)
                        == val_view(b[t].1),
            decreases m - j,
        {
            let e = (self.slots[i].1[j].0.clone(), self.slots[i].1[j].1.clone());
            r.push(e);
            j = j + 1;
        }
        proof {
            assert forall|rk: Seq<char>| bucket_has(r@, rk) == self.has(key.abs(), rk) by {
                if bucket_has(r@, rk) {
                    let wj = choose|wj: int| 0 <= wj < r@.len() && (#[trigger] r@[wj]).0@ == rk;
                    self.lemma_doc_at(i as int, wj);
                }
                if self.has(key.abs(), rk) {
                    let wi = choose|wi: int|
                        0 <= wi < self.slots@.len() && (#[trigger] self.slots@[wi].0.abs())
                            == key.abs() && bucket_has(self.slots@[wi].1@, rk);
                    self.lemma_slot_unique(wi, i as int);
                    let wj = choose|wj: int| 0 <= wj < b.len() && (#[trigger] b[wj]).0@ == rk;
                    assert(r@[wj].0@ == rk);
                }
            }
            assert forall|t: int|
                0 <= t < r@.len() implies self.has(key.abs(), r@[t].0@) && val_view(r@[t].1)
                == self.doc(key.abs(), r@[t].0@) by {
                self.lemma_doc_at(i as int, t);
            }
        }
        r
    }

    /// Copies of all records whose scalar key lies strictly on one side of
    /// the given key: below it, or above it.
    ///
    /// Asks that no record key appear under two scalar keys, which the
    /// derived trees of an index guarantee per field.
    pub fn collect_side(&self, key: &K, below: bool) -> (r: Vec<Rec>)
        requires
            self.wf(),
            forall|ka1: K::Abs, ka2: K::Abs, rk: Seq<char>|
                self.has(ka1, rk) && self.has(ka2, rk) ==> ka1 == ka2,
        ensures
            forall|rk: Seq<char>|
                #![trigger bucket_has(r@, rk)]
                bucket_has(r@, rk) == (exists|wi: int|
                    0 <= wi < self.slots@.len() && side_ok::<K>(
                        below,
                        #[trigger] self.slots@[wi].0.abs(),
                        key.abs(),
                    ) && bucket_has(self.slots@[wi].1@, rk)),
            forall|j: int|
                #![trigger r@[j]]
                0 <= j < r@.len() ==> exists|wi: int|
                    0 <= wi < self.slots@.len() && side_ok::<K>(
                        below,
                        #[trigger] self.slots@[wi].0.abs(),
                        key.abs(),
                    ) && bucket_has(self.slots@[wi].1@, r@[j].0@) && val_view(r@[j].1)
                        == self.doc(self.slots@[wi].0.abs(), r@[j].0@),
            bucket_uniq(r@),
    {
        let mut r: Vec<Rec> = Vec::new();
        let n = self.slots.len();
        let mut i: usize = 0;
        while i < n
            invariant
                i <= n,
                n == self.slots@.len(),
                self.wf(),
                forall|ka1: K::Abs, ka2: K::Abs, rk: Seq<char>|
                    self.has(ka1, rk) && self.has(ka2, rk) ==> ka1 == ka2,
                forall|rk: Seq<char>|
                    #![trigger bucket_has(r@, rk)]
                    bucket_has(r@, rk) == (exists|wi: int|
                        0 <= wi < i as int && side_ok::<K>(
                            below,
                            #[trigger] self.slots@[wi].0.abs(),
                            key.abs(),
                        ) && bucket_has(self.slots@[wi].1@, rk)),
                forall|j: int|
                    #![trigger r@[j]]
                    0 <= j < r@.len() ==> exists|wi: int|
                        0 <= wi < i as int && side_ok::<K>(
                            below,
                            #[trigger] self.slots@[wi].0.abs(),
                            key.abs(),
                        ) && bucket_has(self.slots@[wi].1@, r@[j].0@) && val_view(r@[j].1)
                            == self.doc(self.slots@[wi].0.abs(), r@[j].0@),
                bucket_uniq(r@),
            decreases n - i,
        {
            let c = self.slots[i].0.key_cmp(key);
            let keep = if below {
                matches!(c, Ordering::Less)
            } else {
                matches!(c, Ordering::Greater)
            };
            if keep {
                let ghost r0 = r@;
                let ghost b = self.slots@[i as int].1@;
                proof {
                    assert(side_ok::<K>(below, self.slots@[i as int].0.abs(), key.abs()));
                }
                let m = self.slots[i].1.len();
                let mut j: usize = 0;
                while j < m
                    invariant
                        j <= m,
                        self.wf(),
                        i < self.slots@.len(),
                        b == self.slots@[i as int].1@,
                        m == b.len(),
                        r@.len() == r0.len() + j as int,
                        forall|t: int| 0 <= t < r0.len() ==> r@[t] == r0[t],
                        forall|t: int|
                            0 <= t < j as int ==> (#[trigger] r@[r0.len() + t]).0@ == b[t].0@
                                && val_view(r@[r0.len() + t].1) == val_view(b[t].1),
                    decreases m - j,
                {
                    let e = (self.slots[i].1[j].0.clone(), self.slots[i].1[j].1.clone());
                    r.push(e);
                    j = j + 1;
                }
                proof {
                    let iv = i as int;
                    // Membership: the new records are slot i's bucket.
                    assert forall|rk: Seq<char>|
                        #![trigger bucket_has(r@, rk)]
                        bucket_has(r@, rk) == (exists|wi: int|
                            0 <= wi < iv + 1 && side_ok::<K>(
                                below,
                                #[trigger] self.slots@[wi].0.abs(),
                                key.abs(),
                            ) && bucket_has(self.slots@[wi].1@, rk)) by {
                        if bucket_has(r@, rk) {
                            let wj = choose|wj: int|
                                0 <= wj < r@.len() && (#[trigger] r@[wj]).0@ == rk;
                            if wj < r0.len() {
                                assert(r0[wj].0@ == rk);
                                assert(bucket_has(r0, rk));
                            } else {
                                assert(r@[r0.len() + (wj - r0.len())].0@ == b[wj - r0.len()].0@);
                                assert(b[wj - r0.len()].0@ == rk);
                                assert(bucket_has(self.slots@[iv].1@, rk));
                            }
                        }
                        if exists|wi: int|
                            0 <= wi < iv + 1 && side_ok::<K>(
                                below,
                                #[trigger] self.slots@[wi].0.abs(),
                                key.abs(),
                            ) && bucket_has(self.slots@[wi].1@, rk) {
                            let wi = choose|wi: int|
                                0 <= wi < iv + 1 && side_ok::<K>(
                                    below,
                                    #[trigger] self.slots@[wi].0.abs(),
                                    key.abs(),
                                ) && bucket_has(self.slots@[wi].1@, rk);
                            if wi < iv {
                                assert(bucket_has(r0, rk));
                                let wj = choose|wj: int|
                                    0 <= wj < r0.len() && (#[trigger] r0[wj]).0@ == rk;
                                assert(r@[wj] == r0[wj]);
                                assert(bucket_has(r@, rk));
                            } else {
                                let wj = choose|wj: int|
                                    0 <= wj < b.len() && (#[trigger] b[wj]).0@ == rk;
                                assert(r@[r0.len() + wj].0@ == b[wj].0@);
                                assert(bucket_has(r@, rk));
                            }
                        }
                    }
                    // Provenance of every collected record.
                    assert forall|j2: int|
                        #![trigger r@[j2]]
                        0 <= j2 < r@.len() implies exists|wi: int|
                        0 <= wi < iv + 1 && side_ok::<K>(
                            below,
                            #[trigger] self.slots@[wi].0.abs(),
                            key.abs(),
                        ) && bucket_has(self.slots@[wi].1@, r@[j2].0@) && val_view(r@[j2].1)
                        == self.doc(self.slots@[wi].0.abs(), r@[j2].0@) by {
                        if j2 < r0.len() {
                            assert(r@[j2] == r0[j2]);
                        } else {
                            assert(r@[r0.len() + (j2 - r0.len())].0@ == b[j2 - r0.len()].0@);
                            self.lemma_doc_at(iv, j2 - r0.len());
                            assert(0 <= iv < iv + 1 && side_ok::<K>(
                                below,
                                self.slots@[iv].0.abs(),
                                key.abs(),
                            ) && bucket_has(self.slots@[iv].1@, r@[j2].0@) && val_view(r@[j2].1)
                                == self.doc(self.slots@[iv].0.abs(), r@[j2].0@));
                        }
                    }
                    // No record key recurs across buckets on one side.
                    assert forall|j1: int, j2: int| 0 <= j1 < j2 < r@.len() implies r@[j1].0@
                        != r@[j2].0@ by {
                        if j2 < r0.len() {
                            assert(r@[j1] == r0[j1]);
                            assert(r@[j2] == r0[j2]);
                        } else if j1 >= r0.len() {
                            assert(r@[r0.len() + (j1 - r0.len())].0@ == b[j1 - r0.len()].0@);
                            assert(r@[r0.len() + (j2 - r0.len())].0@ == b[j2 - r0.len()].0@);
                            assert(b[j1 - r0.len()].0@ != b[j2 - r0.len()].0@);
                        } else {
                            if r@[j1].0@ == r@[j2].0@ {
                                let rk = r@[j1].0@;
                                assert(r@[j1] == r0[j1]);
                                assert(r0[j1].0@ == rk);
                                assert(bucket_has(r0, rk));
                                let wi = choose|wi: int|
                                    0 <= wi < iv && side_ok::<K>(
                                        below,
                                        #[trigger] self.slots@[wi].0.abs(),
                                        key.abs(),
                                    ) && bucket_has(self.slots@[wi].1@, rk);
                                assert(r@[r0.len() + (j2 - r0.len())].0@ == b[j2 - r0.len()].0@);
                                assert(bucket_has(b, rk));
                                assert(self.has(self.slots@[wi].0.abs(), rk));
                                assert(self.has(self.slots@[iv].0.abs(), rk));
                                self.lemma_slot_unique(wi, iv);
                                assert(false);
                            }
                        }
                    }
                }
            } else {
                proof {
                    K::order_laws(self.slots@[i as int].0.abs(), key.abs(), key.abs());
                }
            }
            i = i + 1;
        }
        proof {
            assert forall|j: int|
                #![trigger r@[j]]
                0 <= j < r@.len() implies exists|wi: int|
                0 <= wi < self.slots@.len() && side_ok::<K>(
                    below,
                    #[trigger] self.slots@[wi].0.abs(),
                    key.abs(),
                ) && bucket_has(self.slots@[wi].1@, r@[j].0@) && val_view(r@[j].1) == self.doc(
                    self.slots@[wi].0.abs(),
                    r@[j].0@,
                ) by {
                let wi = choose|wi: int|
                    0 <= wi < i as int && side_ok::<K>(
                        below,
                        #[trigger] self.slots@[wi].0.abs(),
                        key.abs(),
                    ) && bucket_has(self.slots@[wi].1@, r@[j].0@) && val_view(r@[j].1)
                        == self.doc(self.slots@[wi].0.abs(), r@[j].0@);
                assert(0 <= wi < self.slots@.len() && side_ok::<K>(
                    below,
                    self.slots@[wi].0.abs(),
                    key.abs(),
                ) && bucket_has(self.slots@[wi].1@, r@[j].0@) && val_view(r@[j].1) == self.doc(
                    self.slots@[wi].0.abs(),
                    r@[j].0@,
                ));
            }
        }
        r
    }
}

/// Whether an abstract key lies on the requested side of a bound: strictly
/// below it, or strictly above it.
pub open spec fn side_ok<K: TreeKey>(below: bool, ka: K::Abs, kb: K::Abs) -> bool {
    if below {
        K::abs_lt(ka, kb)
    } else {
        K::abs_lt(kb, ka)
    }
}

impl TreeKey for i64 {
    type Abs = int;

    open spec fn abs(self) -> int {
        self as int
    }

    open spec fn abs_lt(a: int, b: int) -> bool {
        a < b
    }

    proof fn order_laws(a: int, b: int, c: int) {
    }

    fn key_cmp(&self, other: &Self) -> (r: Ordering) {
        if *self < *other {
            Ordering::Less
        } else if *self == *other {
            Ordering::Equal
        } else {
            Ordering::Greater
        }
    }
}

impl TreeKey for String {
    type Abs = Seq<char>;

    open spec fn abs(self) -> Seq<char> {
        self@
    }

    open spec fn abs_lt(a: Seq<char>, b: Seq<char>) -> bool {
        crate::model::lex_cmp(a, b) == Ordering::Less
    }

    proof fn order_laws(a: Seq<char>, b: Seq<char>, c: Seq<char>) {
        crate::model::lemma_lex_eq(a, b);
        crate::model::lemma_lex_flip(a, b);
        if crate::model::lex_cmp(a, b) == Ordering::Less && crate::model::lex_cmp(b, c)
            == Ordering::Less {
            crate::model::lemma_lex_trans(a, b, c);
        }
    }

    fn key_cmp(&self, other: &Self) -> (r: Ordering) {
        let r = crate::model::str_compare(self.as_str(), other.as_str());
        proof {
            crate::model::lemma_lex_eq(self@, other@);
            crate::model::lemma_lex_flip(self@, other@);
        }
        r
    }
}

impl TreeKey for serde_json::Value {
    type Abs = int;

    open spec fn abs(self) -> int {
        crate::model::numeric_key(val_view(self))
    }

    open spec fn abs_lt(a: int, b: int) -> bool {
        a < b
    }

    proof fn order_laws(a: int, b: int, c: int) {
    }

    fn key_cmp(&self, other: &Self) -> (r: Ordering) {
        crate::jsonval::num_cmp(self, other)
    }
}

} // verus!
