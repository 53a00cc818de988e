//! Index configurations: which fields are indexed, by what type, in what
//! direction, and the query operators.

use vstd::prelude::*;

verus! {

/// Sort direction for one indexed key.
#[derive(Clone, Copy, PartialEq, Eq, Structural)]
pub enum IndexOrd {
    ASC,
    DESC,
}

/// Configuration of an index over whole integer values.
#[derive(Clone, Copy)]
pub struct IndexInt {
    pub ordering: IndexOrd,
}

/// Configuration of an index over whole string values.
#[derive(Clone, Copy)]
pub struct IndexString {
    pub ordering: IndexOrd,
}

/// Configuration of an index over whole float values.
#[derive(Clone, Copy)]
pub struct IndexFloat {
    pub ordering: IndexOrd,
}

/// One dot-path into a document together with its sort direction.
#[derive(Clone)]
pub struct JsonPathOrder {
    pub path: String,
    pub ordering: IndexOrd,
}

impl JsonPathOrder {
    pub fn new(path: &str, ord: IndexOrd) -> (r: Self)
        ensures
            r.path@ == path@,
            r.ordering == ord,
    {
        JsonPathOrder { path: path.to_owned(), ordering: ord }
    }
}

/// Configuration of a composite index over several dot-paths; earlier paths
/// take precedence, later paths break ties.
#[derive(Clone)]
pub struct IndexJson {
    pub path_orders: Vec<JsonPathOrder>,
}

/// The index configuration: the acceptance rule and the sort/bucket key
/// derivation for every record of an index.
#[derive(Clone)]
pub enum Indexer {
    Json(IndexJson),
    Integer(IndexInt),
    Float(IndexFloat),
    String(IndexString),
}

/// The mathematical content of a configuration: the declared paths with
/// their directions, or the scalar type with its direction.
pub enum CfgView {
    Json(Seq<(Seq<char>, IndexOrd)>),
    Integer(IndexOrd),
    Float(IndexOrd),
    Text(IndexOrd),
}

/// The content of a configuration value.
pub open spec fn cfg_view(c: Indexer) -> CfgView {
    match c {
        Indexer::Json(j) => CfgView::Json(
            j.path_orders@.map_values(|p: JsonPathOrder| (p.path@, p.ordering)),
        ),
        Indexer::Integer(s) => CfgView::Integer(s.ordering),
        Indexer::Float(s) => CfgView::Float(s.ordering),
        Indexer::String(s) => CfgView::Text(s.ordering),
    }
}

/// A clone of the configuration with the same content, so contracts stated
/// over one hold of the other.
pub fn clone_config(c: &Indexer) -> (r: Indexer)
    ensures
        cfg_view(r) == cfg_view(*c),
{
    match c {
        Indexer::Json(j) => {
            let mut ps: Vec<JsonPathOrder> = Vec::new();
            let n = j.path_orders.len();
            let mut i: usize = 0;
            while i < n
                invariant
                    i <= n,
                    n == j.path_orders.len(),
                    ps@.len() == i as int,
                    forall|t: int| 0 <= t < i as int ==> ps@[t] == j.path_orders@[t],
                decreases n - i,
            {
                let p = &j.path_orders[i];
                ps.push(JsonPathOrder { path: p.path.clone(), ordering: p.ordering });
                i = i + 1;
            }
            proof {
                assert(ps@.map_values(|p: JsonPathOrder| (p.path@, p.ordering)) =~= j
                    .path_orders@.map_values(|p: JsonPathOrder| (p.path@, p.ordering)));
            }
            Indexer::Json(IndexJson { path_orders: ps })
        },
        Indexer::Integer(s) => Indexer::Integer(IndexInt { ordering: s.ordering }),
        Indexer::Float(s) => Indexer::Float(IndexFloat { ordering: s.ordering }),
        Indexer::String(s) => Indexer::String(IndexString { ordering: s.ordering }),
    }
}

/// A query operator: equality, strict range bounds, or glob matching.
pub enum Op {
    EQ,
    LT,
    GT,
    LIKE,
}

/// The error returned when an operator keyword cannot be recognised.
#[derive(Debug, Clone)]
pub struct UnknownOperatorError;

impl UnknownOperatorError {
    /// A short description of the error, in place of a formatter.
    pub fn message(&self) -> (r: String)
        ensures
            r@ == "invalid operator"@,
    {
        "invalid operator".to_owned()
    }
}

/// The Unicode lowercase folding of a sequence of characters, as
/// `str::to_lowercase` computes it.
pub uninterp spec fn lowered(s: Seq<char>) -> Seq<char>;

/// Relies on `str::to_lowercase`: the result is a function of the input
/// characters alone.
#[verifier::external_body]
fn to_lowercase_string(s: &str) -> (r: String)
    ensures
        r@ == lowered(s@),
{
    s.to_lowercase()
}

impl Op {
    /// Recognises an operator keyword, ignoring letter case.
    pub fn parse(s: &str) -> (r: Result<Op, UnknownOperatorError>)
        ensures
            r matches Ok(op) ==> match op {
                Op::EQ => lowered(s@) == "eq"@,
                Op::LT => lowered(s@) == "lt"@,
                Op::GT => lowered(s@) == "gt"@,
                Op::LIKE => lowered(s@) == "like"@,
            },
            r is Err <==> lowered(s@) != "eq"@ && lowered(s@) != "lt"@ && lowered(s@) != "gt"@
                && lowered(s@) != "like"@,
    {
        let low = to_lowercase_string(s);
        if crate::model::str_eq(low.as_str(), "eq") {
            Ok(Op::EQ)
        } else if crate::model::str_eq(low.as_str(), "lt") {
            Ok(Op::LT)
        } else if crate::model::str_eq(low.as_str(), "gt") {
            Ok(Op::GT)
        } else if crate::model::str_eq(low.as_str(), "like") {
            Ok(Op::LIKE)
        } else {
            Err(UnknownOperatorError)
        }
    }
}

} // verus!
