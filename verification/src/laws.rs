//! The engine's governing laws, each proved once and for all over any
//! well-formed index.

use vstd::prelude::*;
use core::cmp::Ordering;
use crate::config::Op;
use crate::globpat::{glob_accepts, glob_pattern_ok};
use crate::index::Index;
use crate::model::{
    accepts, derives_float, derives_int, derives_str, lemma_lex_eq, lemma_lex_flip, lex_cmp,
};
use crate::query::{float_hits, int_hits, str_hits};
use crate::store::sfind;

verus! {

/// A record is stored exactly when its document passes the filter, and its
/// tree entries are exactly the ones its fields derive.
pub proof fn lemma_filter_gate(idx: Index, rk: Seq<char>)
    requires
        idx.wf(),
        sfind(idx.store(), rk) >= 0,
    ensures
        accepts(idx.cfg(), idx.store()[sfind(idx.store(), rk)].1),
        forall|f: Seq<char>, ka: int|
            #![trigger idx.int_tree.fhas(f, ka, rk)]
            idx.int_tree.fhas(f, ka, rk) == derives_int(
                idx.cfg(),
                idx.store()[sfind(idx.store(), rk)].1,
                f,
                ka,
            ),
        forall|f: Seq<char>, ka: int|
            #![trigger idx.float_tree.fhas(f, ka, rk)]
            idx.float_tree.fhas(f, ka, rk) == derives_float(
                idx.cfg(),
                idx.store()[sfind(idx.store(), rk)].1,
                f,
                ka,
            ),
        forall|f: Seq<char>, ka: Seq<char>|
            #![trigger idx.str_tree.fhas(f, ka, rk)]
            idx.str_tree.fhas(f, ka, rk) == derives_str(
                idx.cfg(),
                idx.store()[sfind(idx.store(), rk)].1,
                f,
                ka,
            ),
{
    crate::store::lemma_sfind(idx.store(), rk);
}

/// A key absent from the store appears in no tree.
pub proof fn lemma_absent_unindexed(idx: Index, rk: Seq<char>)
    requires
        idx.wf(),
        sfind(idx.store(), rk) < 0,
    ensures
        forall|f: Seq<char>, ka: int| !(#[trigger] idx.int_tree.fhas(f, ka, rk)),
        forall|f: Seq<char>, ka: int| !(#[trigger] idx.float_tree.fhas(f, ka, rk)),
        forall|f: Seq<char>, ka: Seq<char>| !(#[trigger] idx.str_tree.fhas(f, ka, rk)),
{
}

/// For every field, the union over a tree's buckets is exactly the stored
/// records whose resolved value at that field has the tree's scalar type.
pub proof fn lemma_field_partition(idx: Index, f: Seq<char>, rk: Seq<char>)
    requires
        idx.wf(),
    ensures
        (exists|ka: int| #[trigger] idx.int_tree.fhas(f, ka, rk)) == (sfind(idx.store(), rk) >= 0
            && exists|ka: int|
            derives_int(idx.cfg(), #[trigger] idx.store()[sfind(idx.store(), rk)].1, f, ka)),
        (exists|ka: int| #[trigger] idx.float_tree.fhas(f, ka, rk)) == (sfind(idx.store(), rk) >= 0
            && exists|ka: int|
            derives_float(idx.cfg(), #[trigger] idx.store()[sfind(idx.store(), rk)].1, f, ka)),
        (exists|ka: Seq<char>| #[trigger] idx.str_tree.fhas(f, ka, rk)) == (sfind(idx.store(), rk)
            >= 0 && exists|ka: Seq<char>|
            derives_str(idx.cfg(), #[trigger] idx.store()[sfind(idx.store(), rk)].1, f, ka)),
{
    let s = idx.store();
    crate::store::lemma_sfind(s, rk);
    if exists|ka: int| #[trigger] idx.int_tree.fhas(f, ka, rk) {
        let ka = choose|ka: int| #[trigger] idx.int_tree.fhas(f, ka, rk);
        assert(derives_int(idx.cfg(), s[sfind(s, rk)].1, f, ka));
    }
    if sfind(s, rk) >= 0 && exists|ka: int| derives_int(
        idx.cfg(),
        #[trigger] s[sfind(s, rk)].1,
        f,
        ka,
    ) {
        let ka = choose|ka: int| derives_int(idx.cfg(), #[trigger] s[sfind(s, rk)].1, f, ka);
        assert(idx.int_tree.fhas(f, ka, rk));
    }
    if exists|ka: int| #[trigger] idx.float_tree.fhas(f, ka, rk) {
        let ka = choose|ka: int| #[trigger] idx.float_tree.fhas(f, ka, rk);
        assert(derives_float(idx.cfg(), s[sfind(s, rk)].1, f, ka));
    }
    if sfind(s, rk) >= 0 && exists|ka: int| derives_float(
        idx.cfg(),
        #[trigger] s[sfind(s, rk)].1,
        f,
        ka,
    ) {
        let ka = choose|ka: int| derives_float(idx.cfg(), #[trigger] s[sfind(s, rk)].1, f, ka);
        assert(idx.float_tree.fhas(f, ka, rk));
    }
    if exists|ka: Seq<char>| #[trigger] idx.str_tree.fhas(f, ka, rk) {
        let ka = choose|ka: Seq<char>| #[trigger] idx.str_tree.fhas(f, ka, rk);
        assert(derives_str(idx.cfg(), s[sfind(s, rk)].1, f, ka));
    }
    if sfind(s, rk) >= 0 && exists|ka: Seq<char>| derives_str(
        idx.cfg(),
        #[trigger] s[sfind(s, rk)].1,
        f,
        ka,
    ) {
        let ka = choose|ka: Seq<char>| derives_str(idx.cfg(), #[trigger] s[sfind(s, rk)].1, f, ka);
        assert(idx.str_tree.fhas(f, ka, rk));
    }
}

/// Strictly below, at, and strictly above a query key together cover every
/// record a field's tree holds: the range operators are complete.
pub proof fn lemma_range_complete(idx: Index, f: Seq<char>, n: int, q: Seq<char>, rk: Seq<char>)
    requires
        idx.wf(),
    ensures
        (int_hits(idx, f, n, Op::LT, rk) || int_hits(idx, f, n, Op::EQ, rk) || int_hits(
            idx,
            f,
            n,
            Op::GT,
            rk,
        )) == (exists|ka: int| #[trigger] idx.int_tree.fhas(f, ka, rk)),
        (float_hits(idx, f, n, Op::LT, rk) || float_hits(idx, f, n, Op::EQ, rk) || float_hits(
            idx,
            f,
            n,
            Op::GT,
            rk,
        )) == (exists|ka: int| #[trigger] idx.float_tree.fhas(f, ka, rk)),
        (str_hits(idx, f, q, Op::LT, rk) || str_hits(idx, f, q, Op::EQ, rk) || str_hits(
            idx,
            f,
            q,
            Op::GT,
            rk,
        )) == (exists|ka: Seq<char>| #[trigger] idx.str_tree.fhas(f, ka, rk)),
{
    if exists|ka: int| #[trigger] idx.int_tree.fhas(f, ka, rk) {
        let ka = choose|ka: int| #[trigger] idx.int_tree.fhas(f, ka, rk);
        if ka < n {
            assert(int_hits(idx, f, n, Op::LT, rk));
        } else if ka == n {
            assert(int_hits(idx, f, n, Op::EQ, rk));
        } else {
            assert(int_hits(idx, f, n, Op::GT, rk));
        }
    }
    if exists|ka: int| #[trigger] idx.float_tree.fhas(f, ka, rk) {
        let ka = choose|ka: int| #[trigger] idx.float_tree.fhas(f, ka, rk);
        if ka < n {
            assert(float_hits(idx, f, n, Op::LT, rk));
        } else if ka == n {
            assert(float_hits(idx, f, n, Op::EQ, rk));
        } else {
            assert(float_hits(idx, f, n, Op::GT, rk));
        }
    }
    if exists|ka: Seq<char>| #[trigger] idx.str_tree.fhas(f, ka, rk) {
        let ka = choose|ka: Seq<char>| #[trigger] idx.str_tree.fhas(f, ka, rk);
        lemma_lex_eq(ka, q);
        lemma_lex_flip(ka, q);
        if lex_cmp(ka, q) == Ordering::Less {
            assert(str_hits(idx, f, q, Op::LT, rk));
        } else if lex_cmp(ka, q) == Ordering::Equal {
            assert(ka == q);
            assert(str_hits(idx, f, q, Op::EQ, rk));
        } else {
            assert(lex_cmp(q, ka) == Ordering::Less);
            assert(str_hits(idx, f, q, Op::GT, rk));
        }
    }
    if int_hits(idx, f, n, Op::LT, rk) {
        let ka = choose|ka: int| ka < n && #[trigger] idx.int_tree.fhas(f, ka, rk);
    }
    if int_hits(idx, f, n, Op::GT, rk) {
        let ka = choose|ka: int| ka > n && #[trigger] idx.int_tree.fhas(f, ka, rk);
    }
    if float_hits(idx, f, n, Op::LT, rk) {
        let ka = choose|ka: int| ka < n && #[trigger] idx.float_tree.fhas(f, ka, rk);
    }
    if float_hits(idx, f, n, Op::GT, rk) {
        let ka = choose|ka: int| ka > n && #[trigger] idx.float_tree.fhas(f, ka, rk);
    }
    if str_hits(idx, f, q, Op::LT, rk) {
        let ka = choose|ka: Seq<char>|
            lex_cmp(ka, q) == Ordering::Less && #[trigger] idx.str_tree.fhas(f, ka, rk);
    }
    if str_hits(idx, f, q, Op::GT, rk) {
        let ka = choose|ka: Seq<char>|
            lex_cmp(q, ka) == Ordering::Less && #[trigger] idx.str_tree.fhas(f, ka, rk);
    }
}

/// The trees are a function of the store and the configuration alone:
/// rebuilding with no intervening mutation reproduces them exactly.
pub proof fn lemma_build_deterministic(a: Index, b: Index)
    requires
        a.wf(),
        b.wf(),
        a.store() == b.store(),
        a.cfg() == b.cfg(),
    ensures
        forall|f: Seq<char>, ka: int, rk: Seq<char>|
            #![trigger a.int_tree.fhas(f, ka, rk), b.int_tree.fhas(f, ka, rk)]
            a.int_tree.fhas(f, ka, rk) == b.int_tree.fhas(f, ka, rk),
        forall|f: Seq<char>, ka: int, rk: Seq<char>|
            #![trigger a.float_tree.fhas(f, ka, rk), b.float_tree.fhas(f, ka, rk)]
            a.float_tree.fhas(f, ka, rk) == b.float_tree.fhas(f, ka, rk),
        forall|f: Seq<char>, ka: Seq<char>, rk: Seq<char>|
            #![trigger a.str_tree.fhas(f, ka, rk), b.str_tree.fhas(f, ka, rk)]
            a.str_tree.fhas(f, ka, rk) == b.str_tree.fhas(f, ka, rk),
        forall|f: Seq<char>, ka: int, rk: Seq<char>|
            #![trigger a.int_tree.fdoc(f, ka, rk), b.int_tree.fdoc(f, ka, rk)]
            a.int_tree.fhas(f, ka, rk) ==> a.int_tree.fdoc(f, ka, rk) == b.int_tree.fdoc(
                f,
                ka,
                rk,
            ),
        forall|f: Seq<char>, ka: int, rk: Seq<char>|
            #![trigger a.float_tree.fdoc(f, ka, rk), b.float_tree.fdoc(f, ka, rk)]
            a.float_tree.fhas(f, ka, rk) ==> a.float_tree.fdoc(f, ka, rk) == b.float_tree.fdoc(
                f,
                ka,
                rk,
            ),
        forall|f: Seq<char>, ka: Seq<char>, rk: Seq<char>|
            #![trigger a.str_tree.fdoc(f, ka, rk), b.str_tree.fdoc(f, ka, rk)]
            a.str_tree.fhas(f, ka, rk) ==> a.str_tree.fdoc(f, ka, rk) == b.str_tree.fdoc(
                f,
                ka,
                rk,
            ),
{
}

/// A LIKE query answers exactly the string-typed entries whose key the
/// pattern accepts, wherever they sit in the tree.
pub proof fn lemma_like_exact(idx: Index, f: Seq<char>, p: Seq<char>, rk: Seq<char>)
    requires
        idx.wf(),
        glob_pattern_ok(p),
    ensures
        str_hits(idx, f, p, Op::LIKE, rk) == (sfind(idx.store(), rk) >= 0 && exists|s: Seq<char>|
            glob_accepts(p, s) && derives_str(
                idx.cfg(),
                #[trigger] idx.store()[sfind(idx.store(), rk)].1,
                f,
                s,
            )),
{
    let st = idx.store();
    crate::store::lemma_sfind(st, rk);
    if str_hits(idx, f, p, Op::LIKE, rk) {
        let ka = choose|ka: Seq<char>|
            glob_accepts(p, ka) && #[trigger] idx.str_tree.fhas(f, ka, rk);
        assert(derives_str(idx.cfg(), st[sfind(st, rk)].1, f, ka));
    }
    if sfind(st, rk) >= 0 && exists|s: Seq<char>|
        glob_accepts(p, s) && derives_str(idx.cfg(), #[trigger] st[sfind(st, rk)].1, f, s) {
        let s = choose|s: Seq<char>|
            glob_accepts(p, s) && derives_str(idx.cfg(), #[trigger] st[sfind(st, rk)].1, f, s);
        assert(idx.str_tree.fhas(f, s, rk));
    }
}

/// Under a scalar configuration the comparator never leaves two records
/// unordered, so standing no later than one's successor orders the whole
/// list: what `get_items` and `order_by` hand back is sorted throughout.
pub proof fn lemma_scalar_sort_total(c: crate::config::CfgView, s: Seq<crate::tree::Rec>)
    requires
        !(c is Json),
        crate::order::sorted_adj(c, s),
    ensures
        forall|i: int, j: int|
            0 <= i < j < s.len() ==> crate::order::rec_le(c, #[trigger] s[i], #[trigger] s[j]),
{
    assert forall|i: int, j: int|
        0 <= i < j < s.len() implies crate::order::rec_le(c, #[trigger] s[i], #[trigger] s[j]) by {
        lemma_le_chain(c, s, i, j);
    }
}

/// Walks the chain of adjacent comparisons from one position to a later
/// one, composing them by transitivity.
proof fn lemma_le_chain(c: crate::config::CfgView, s: Seq<crate::tree::Rec>, i: int, j: int)
    requires
        !(c is Json),
        crate::order::sorted_adj(c, s),
        0 <= i < j < s.len(),
    ensures
        crate::order::rec_le(c, s[i], s[j]),
    decreases j - i,
{
    reveal(crate::order::rec_le);
    if i + 1 == j {
        assert(crate::order::rec_le(c, s[i], s[i + 1]));
    } else {
        lemma_le_chain(c, s, i, j - 1);
        assert(crate::order::rec_le(c, s[j - 1], s[j]));
        lemma_scalar_le_trans(
            c,
            crate::jsonval::val_view(s[i].1),
            crate::jsonval::val_view(s[j - 1].1),
            crate::jsonval::val_view(s[j].1),
        );
    }
}

/// For the scalar configurations, "ranks no later than" is transitive.
proof fn lemma_scalar_le_trans(
    c: crate::config::CfgView,
    a: crate::model::SpecVal,
    b: crate::model::SpecVal,
    d: crate::model::SpecVal,
)
    requires
        !(c is Json),
        crate::model::doc_cmp(c, a, b) != Ordering::Greater,
        crate::model::doc_cmp(c, b, d) != Ordering::Greater,
    ensures
        crate::model::doc_cmp(c, a, d) != Ordering::Greater,
{
    match c {
        crate::config::CfgView::Text(dir) => {
            let sa = crate::model::str_coerce(a);
            let sb = crate::model::str_coerce(b);
            let sd = crate::model::str_coerce(d);
            lemma_lex_eq(sa, sb);
            lemma_lex_eq(sb, sd);
            lemma_lex_eq(sa, sd);
            lemma_lex_flip(sa, sb);
            lemma_lex_flip(sb, sd);
            lemma_lex_flip(sa, sd);
            match dir {
                crate::config::IndexOrd::ASC => {
                    if lex_cmp(sa, sb) == Ordering::Less && lex_cmp(sb, sd) == Ordering::Less {
                        crate::model::lemma_lex_trans(sa, sb, sd);
                    }
                },
                crate::config::IndexOrd::DESC => {
                    if lex_cmp(sd, sb) == Ordering::Less && lex_cmp(sb, sa) == Ordering::Less {
                        crate::model::lemma_lex_trans(sd, sb, sa);
                    }
                },
            }
        },
        _ => {},
    }
}


} // verus!
