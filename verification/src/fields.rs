//! The family of secondary trees of one scalar type: a map from field names
//! to ordered trees.

use vstd::prelude::*;
use crate::jsonval::val_view;
use crate::model::SpecVal;
use crate::tree::{Tree, TreeKey};

verus! {

/// The trees of one scalar type, one per indexed field name.
pub struct FieldTrees<K> {
    pub fields: Vec<(String, Tree<K>)>,
}

impl<K: TreeKey> FieldTrees<K> {
    /// Field names unique, every tree well-formed.
    pub open spec fn wf(self) -> bool {
        &&& forall|i1: int, i2: int|
            0 <= i1 < i2 < self.fields@.len() ==> (#[trigger] self.fields@[i1].0)@ != (
            #[trigger] self.fields@[i2].0)@
        &&& forall|i: int| 0 <= i < self.fields@.len() ==> (#[trigger] self.fields@[i].1).wf()
    }

    /// Whether the field's tree holds the record key under the scalar key.
    pub open spec fn fhas(self, f: Seq<char>, ka: K::Abs, rk: Seq<char>) -> bool {
        exists|i: int|
            0 <= i < self.fields@.len() && (#[trigger] self.fields@[i].0)@ == f && self.fields@[i].1.has(
                ka,
                rk,
            )
    }

    /// The position of the field, where it exists.
    pub open spec fn field_ix(self, f: Seq<char>) -> int {
        choose|i: int| 0 <= i < self.fields@.len() && (#[trigger] self.fields@[i].0)@ == f
    }

    /// The content of the document stored under field, scalar and record
    /// keys.
    pub open spec fn fdoc(self, f: Seq<char>, ka: K::Abs, rk: Seq<char>) -> SpecVal {
        self.fields@[self.field_ix(f)].1.doc(ka, rk)
    }

    /// At most one position holds a given field name.
    pub proof fn lemma_field_unique(self, i1: int, i2: int)
        requires
            self.wf(),
            0 <= i1 < self.fields@.len(),
            0 <= i2 < self.fields@.len(),
            self.fields@[i1].0@ == self.fields@[i2].0@,
        ensures
            i1 == i2,
    {
    }

    /// How the forest's view restricts to one of its trees.
    pub proof fn lemma_at_field(self, i: int)
        requires
            self.wf(),
            0 <= i < self.fields@.len(),
        ensures
            forall|ka: K::Abs, rk: Seq<char>|
                self.fhas(self.fields@[i].0@, ka, rk) == (#[trigger] self.fields@[i].1.has(
                    ka,
                    rk,
                )),
            forall|ka: K::Abs, rk: Seq<char>|
                (#[trigger] self.fields@[i].1.has(ka, rk)) ==> self.fdoc(self.fields@[i].0@, ka, rk)
                    == self.fields@[i].1.doc(ka, rk),
    {
        let f = self.fields@[i].0@;
        assert forall|ka: K::Abs, rk: Seq<char>|
            self.fhas(f, ka, rk) == (#[trigger] self.fields@[i].1.has(ka, rk)) by {
            if self.fhas(f, ka, rk) {
                let wi = choose|wi: int|
                    0 <= wi < self.fields@.len() && (#[trigger] self.fields@[wi].0)@ == f
                        && self.fields@[wi].1.has(ka, rk);
                self.lemma_field_unique(wi, i);
            }
        }
        assert forall|ka: K::Abs, rk: Seq<char>|
            (#[trigger] self.fields@[i].1.has(ka, rk)) implies self.fdoc(f, ka, rk)
            == self.fields@[i].1.doc(ka, rk) by {
            assert(self.fields@[i].0@ == f);
            let ci = self.field_ix(f);
            self.lemma_field_unique(ci, i);
        }
    }

    /// A field name that no position holds names no records.
    pub proof fn lemma_no_field(self, f: Seq<char>)
        requires
            forall|i: int| 0 <= i < self.fields@.len() ==> (#[trigger] self.fields@[i].0)@ != f,
        ensures
            forall|ka: K::Abs, rk: Seq<char>| !self.fhas(f, ka, rk),
    {
        assert forall|ka: K::Abs, rk: Seq<char>| !self.fhas(f, ka, rk) by {
            if self.fhas(f, ka, rk) {
                let wi = choose|wi: int|
                    0 <= wi < self.fields@.len() && (#[trigger] self.fields@[wi].0)@ == f
                        && self.fields@[wi].1.has(ka, rk);
            }
        }
    }

    /// An empty family.
    pub fn new() -> (r: Self)
        ensures
            r.wf(),
            forall|f: Seq<char>, ka: K::Abs, rk: Seq<char>| !r.fhas(f, ka, rk),
    {
        FieldTrees { fields: Vec::new() }
    }

    /// The position of the field's tree, if it exists.
    fn find_field(&self, field: &str) -> (r: Option<usize>)
        ensures
            match r {
                Some(i) => i < self.fields@.len() && self.fields@[i as int].0@ == field@,
                None => forall|i: int|
                    0 <= i < self.fields@.len() ==> (#[trigger] self.fields@[i].0)@ != field@,
            },
    {
        let n = self.fields.len();
        let mut i: usize = 0;
        while i < n
            invariant
                i <= n,
                n == self.fields@.len(),
                forall|t: int| 0 <= t < i as int ==> (#[trigger] self.fields@[t].0)@ != field@,
            decreases n - i,
        {
            if crate::model::str_eq(self.fields[i].0.as_str(), field) {
                return Some(i);
            }
            i = i + 1;
        }
        None
    }

    /// A borrow of the field's tree, if the field is known.
    pub fn tree_at(&self, field: &str) -> (r: Option<&Tree<K>>)
        requires
            self.wf(),
        ensures
            match r {
                Some(t) => {
                    &&& t.wf()
                    &&& forall|ka: K::Abs, rk: Seq<char>|
                        (#[trigger] t.has(ka, rk)) == self.fhas(field@, ka, rk)
                    &&& forall|ka: K::Abs, rk: Seq<char>|
                        (#[trigger] t.has(ka, rk)) ==> t.doc(ka, rk) == self.fdoc(field@, ka, rk)
                },
                None => forall|ka: K::Abs, rk: Seq<char>| !self.fhas(field@, ka, rk),
            },
    {
        match self.find_field(field) {
            None => {
                proof {
                    self.lemma_no_field(field@);
                }
                None
            },
            Some(i) => {
                proof {
                    self.lemma_at_field(i as int);
                }
                Some(&self.fields[i].1)
            },
        }
    }

    /// The effect of replacing one field's tree, the rest untouched.
    proof fn lemma_field_updated(self, oldf: Self, i: int)
        requires
            oldf.wf(),
            0 <= i < oldf.fields@.len(),
            self.fields@.len() == oldf.fields@.len(),
            forall|t: int|
                0 <= t < self.fields@.len() && t != i ==> self.fields@[t] == oldf.fields@[t],
            self.fields@[i].0 == oldf.fields@[i].0,
            self.fields@[i].1.wf(),
        ensures
            self.wf(),
            forall|f: Seq<char>, ka: K::Abs, rk: Seq<char>|
                #![trigger self.fhas(f, ka, rk)]
                self.fhas(f, ka, rk) == (if f == self.fields@[i].0@ {
                    self.fields@[i].1.has(ka, rk)
                } else {
                    oldf.fhas(f, ka, rk)
                }),
            forall|f: Seq<char>, ka: K::Abs, rk: Seq<char>|
                #![trigger self.fdoc(f, ka, rk)]
                self.fhas(f, ka, rk) ==> self.fdoc(f, ka, rk) == (if f == self.fields@[i].0@ {
                    self.fields@[i].1.doc(ka, rk)
                } else {
                    oldf.fdoc(f, ka, rk)
                }),
    {
        assert(self.wf());
        let name = self.fields@[i].0@;
        assert forall|f: Seq<char>, ka: K::Abs, rk: Seq<char>|
            #![trigger self.fhas(f, ka, rk)]
            self.fhas(f, ka, rk) == (if f == name {
                self.fields@[i].1.has(ka, rk)
            } else {
                oldf.fhas(f, ka, rk)
            }) by {
            if self.fhas(f, ka, rk) {
                let wi = choose|wi: int|
                    0 <= wi < self.fields@.len() && (#[trigger] self.fields@[wi].0)@ == f
                        && self.fields@[wi].1.has(ka, rk);
                if f == name {
                    self.lemma_field_unique(wi, i);
                } else {
                    assert(wi != i);
                    assert(oldf.fields@[wi] == self.fields@[wi]);
                    assert(oldf.fhas(f, ka, rk));
                }
            }
            if f == name && self.fields@[i].1.has(ka, rk) {
                assert(self.fhas(f, ka, rk));
            }
            if f != name && oldf.fhas(f, ka, rk) {
                let wi = choose|wi: int|
                    0 <= wi < oldf.fields@.len() && (#[trigger] oldf.fields@[wi].0)@ == f
                        && oldf.fields@[wi].1.has(ka, rk);
                assert(wi != i);
                assert(self.fields@[wi] == oldf.fields@[wi]);
                assert(self.fhas(f, ka, rk));
            }
        }
        assert forall|f: Seq<char>, ka: K::Abs, rk: Seq<char>|
            #![trigger self.fdoc(f, ka, rk)]
            self.fhas(f, ka, rk) implies self.fdoc(f, ka, rk) == (if f == name {
                self.fields@[i].1.doc(ka, rk)
            } else {
                oldf.fdoc(f, ka, rk)
            }) by {
            let wi = choose|wi: int|
                0 <= wi < self.fields@.len() && (#[trigger] self.fields@[wi].0)@ == f
                    && self.fields@[wi].1.has(ka, rk);
            let ci = self.field_ix(f);
            self.lemma_field_unique(ci, wi);
            if f == name {
                self.lemma_field_unique(wi, i);
            } else {
                assert(wi != i);
                assert(oldf.fields@[wi] == self.fields@[wi]);
                assert(oldf.fhas(f, ka, rk));
                let oi = choose|oi: int|
                    0 <= oi < oldf.fields@.len() && (#[trigger] oldf.fields@[oi].0)@ == f
                        && oldf.fields@[oi].1.has(ka, rk);
                oldf.lemma_field_unique(oi, wi);
                let oci = oldf.field_ix(f);
                oldf.lemma_field_unique(oci, wi);
            }
        }
    }

    /// The effect of appending a tree for a hitherto unknown field.
    proof fn lemma_field_pushed(self, oldf: Self, name: Seq<char>)
        requires
            oldf.wf(),
            forall|t: int| 0 <= t < oldf.fields@.len() ==> (#[trigger] oldf.fields@[t].0)@ != name,
            self.fields@.len() == oldf.fields@.len() + 1,
            forall|t: int|
                0 <= t < oldf.fields@.len() ==> self.fields@[t] == oldf.fields@[t],
            self.fields@.last().0@ == name,
            self.fields@.last().1.wf(),
        ensures
            self.wf(),
            forall|f: Seq<char>, ka: K::Abs, rk: Seq<char>|
                #![trigger self.fhas(f, ka, rk)]
                self.fhas(f, ka, rk) == (if f == name {
                    self.fields@.last().1.has(ka, rk)
                } else {
                    oldf.fhas(f, ka, rk)
                }),
            forall|f: Seq<char>, ka: K::Abs, rk: Seq<char>|
                #![trigger self.fdoc(f, ka, rk)]
                self.fhas(f, ka, rk) ==> self.fdoc(f, ka, rk) == (if f == name {
                    self.fields@.last().1.doc(ka, rk)
                } else {
                    oldf.fdoc(f, ka, rk)
                }),
    {
        let n = oldf.fields@.len() as int;
        assert(self.wf());
        assert forall|f: Seq<char>, ka: K::Abs, rk: Seq<char>|
            #![trigger self.fhas(f, ka, rk)]
            self.fhas(f, ka, rk) == (if f == name {
                self.fields@.last().1.has(ka, rk)
            } else {
                oldf.fhas(f, ka, rk)
            }) by {
            if self.fhas(f, ka, rk) {
                let wi = choose|wi: int|
                    0 <= wi < self.fields@.len() && (#[trigger] self.fields@[wi].0)@ == f
                        && self.fields@[wi].1.has(ka, rk);
                if wi == n {
                    assert(f == name);
                } else {
                    assert(self.fields@[wi] == oldf.fields@[wi]);
                    assert(oldf.fhas(f, ka, rk));
                    assert(f != name);
                }
            }
            if f == name && self.fields@.last().1.has(ka, rk) {
                assert(self.fields@[n].0@ == f);
                assert(self.fhas(f, ka, rk));
            }
            if f != name && oldf.fhas(f, ka, rk) {
                let wi = choose|wi: int|
                    0 <= wi < oldf.fields@.len() && (#[trigger] oldf.fields@[wi].0)@ == f
                        && oldf.fields@[wi].1.has(ka, rk);
                assert(self.fields@[wi] == oldf.fields@[wi]);
                assert(self.fhas(f, ka, rk));
            }
        }
        assert forall|f: Seq<char>, ka: K::Abs, rk: Seq<char>|
            #![trigger self.fdoc(f, ka, rk)]
            self.fhas(f, ka, rk) implies self.fdoc(f, ka, rk) == (if f == name {
                self.fields@.last().1.doc(ka, rk)
            } else {
                oldf.fdoc(f, ka, rk)
            }) by {
            let wi = choose|wi: int|
                0 <= wi < self.fields@.len() && (#[trigger] self.fields@[wi].0)@ == f
                    && self.fields@[wi].1.has(ka, rk);
            let ci = self.field_ix(f);
            self.lemma_field_unique(ci, wi);
            if f == name {
                self.lemma_field_unique(wi, n);
            } else {
                assert(wi != n);
                assert(oldf.fields@[wi] == self.fields@[wi]);
                assert(oldf.fhas(f, ka, rk));
                let oci = oldf.field_ix(f);
                oldf.lemma_field_unique(oci, wi);
            }
        }
    }

    /// Adds one record under a field and scalar key, creating the field's
    /// tree on first use.
    pub fn insert_at(&mut self, field: &str, key: K, rk: &str, doc: &serde_json::Value)
        requires
            old(self).wf(),
        ensures
            final(self).wf(),
            forall|f: Seq<char>, ka: K::Abs, rk2: Seq<char>|
                #![trigger final(self).fhas(f, ka, rk2)]
                final(self).fhas(f, ka, rk2) == (old(self).fhas(f, ka, rk2) || (f == field@ && ka
                    == key.abs() && rk2 == rk@)),
            final(self).fdoc(field@, key.abs(), rk@) == val_view(*doc),
            forall|f: Seq<char>, ka: K::Abs, rk2: Seq<char>|
                old(self).fhas(f, ka, rk2) && !(f == field@ && ka == key.abs() && rk2 == rk@)
                    ==> final(self).fdoc(f, ka, rk2) == old(self).fdoc(f, ka, rk2),
    {
        let ghost oldf = *self;
        match self.find_field(field) {
            Some(i) => {
                let (name, mut t) = self.fields.remove(i);
                let ghost old_t = t;
                t.insert_entry(key, rk, doc);
                self.fields.insert(i, (name, t));
                proof {
                    assert(self.fields@[i as int].1 == t);
                    self.lemma_field_updated(oldf, i as int);
                    oldf.lemma_at_field(i as int);
                    assert(self.fdoc(field@, key.abs(), rk@) == t.doc(key.abs(), rk@)) by {
                        assert(self.fhas(field@, key.abs(), rk@));
                    }
                }
            },
            None => {
                let mut t: Tree<K> = Tree::new();
                t.insert_entry(key, rk, doc);
                self.fields.push((field.to_owned(), t));
                proof {
                    oldf.lemma_no_field(field@);
                    self.lemma_field_pushed(oldf, field@);
                    assert(self.fdoc(field@, key.abs(), rk@) == self.fields@.last().1.doc(
                        key.abs(),
                        rk@,
                    )) by {
                        assert(self.fhas(field@, key.abs(), rk@));
                    }
                }
            },
        }
    }

    /// Removes one record from under a field and scalar key; unknown fields
    /// are left alone.
    pub fn remove_at(&mut self, field: &str, key: &K, rk: &str)
        requires
            old(self).wf(),
        ensures
            final(self).wf(),
            forall|f: Seq<char>, ka: K::Abs, rk2: Seq<char>|
                #![trigger final(self).fhas(f, ka, rk2)]
                final(self).fhas(f, ka, rk2) == (old(self).fhas(f, ka, rk2) && !(f == field@ && ka
                    == key.abs() && rk2 == rk@)),
            forall|f: Seq<char>, ka: K::Abs, rk2: Seq<char>|
                final(self).fhas(f, ka, rk2) ==> final(self).fdoc(f, ka, rk2) == old(self).fdoc(
                    f,
                    ka,
                    rk2,
                ),
    {
        let ghost oldf = *self;
        match self.find_field(field) {
            Some(i) => {
                let (name, mut t) = self.fields.remove(i);
                t.remove_entry(key, rk);
                self.fields.insert(i, (name, t));
                proof {
                    assert(self.fields@[i as int].1 == t);
                    self.lemma_field_updated(oldf, i as int);
                    oldf.lemma_at_field(i as int);
                }
            },
            None => {
                proof {
                    oldf.lemma_no_field(field@);
                }
            },
        }
    }
}

} // verus!
