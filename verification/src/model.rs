//! The mathematical model of the engine: the abstract content of a document,
//! dot-path resolution, the acceptance rule and the composite comparator.

use vstd::prelude::*;
use core::cmp::Ordering;
use crate::config::{CfgView, IndexOrd};

verus! {

/// The content of a structured document, as the engine observes it.
///
/// Numbers split three ways, following the dynamic type tests of the value
/// type: `Int` is a number with an exact signed 64-bit representation, `Big`
/// an unsigned integer beyond that range, and `Float` a number stored in
/// floating point, known here only by an abstract total-order key.
pub enum SpecVal {
    Null,
    Bool(bool),
    Int(int),
    Big(int),
    Float(int),
    Str(Seq<char>),
    Arr(Seq<SpecVal>),
    Obj(Map<Seq<char>, SpecVal>),
}

impl SpecVal {
    /// Whether the value is a number of any of the three kinds.
    pub open spec fn is_number(self) -> bool {
        self is Int || self is Big || self is Float
    }
}

/// The rank of a value in the total numeric coercion order: every value is
/// coerced to floating point (non-numbers to zero) and ranked by the total
/// order on floats.  Abstract; trusted comparisons state results over it.
pub uninterp spec fn numeric_key(v: SpecVal) -> int;

// ---------------------------------------------------------------------------
// Dot paths
// ---------------------------------------------------------------------------

/// The first segment of a dotted path: the characters before the first
/// unescaped `.`, with backslash escapes removed and a trailing backslash
/// discarded.
pub open spec fn seg_of(path: Seq<char>) -> Seq<char>
    decreases path.len(),
{
    if path.len() == 0 {
        Seq::empty()
    } else if path[0] == '\\' {
        if path.len() == 1 {
            Seq::empty()
        } else {
            seq![path[1]] + seg_of(path.skip(2))
        }
    } else if path[0] == '.' {
        Seq::empty()
    } else {
        seq![path[0]] + seg_of(path.skip(1))
    }
}

/// What follows the first unescaped `.` of a dotted path, if any.
pub open spec fn rest_of(path: Seq<char>) -> Option<Seq<char>>
    decreases path.len(),
{
    if path.len() == 0 {
        None
    } else if path[0] == '\\' {
        if path.len() == 1 {
            None
        } else {
            rest_of(path.skip(2))
        }
    } else if path[0] == '.' {
        Some(path.skip(1))
    } else {
        rest_of(path.skip(1))
    }
}

/// The remainder of a path is strictly shorter than the path itself.
pub proof fn lemma_rest_shorter(path: Seq<char>)
    ensures
        rest_of(path) matches Some(r) ==> r.len() < path.len(),
    decreases path.len(),
{
    if path.len() == 0 {
    } else if path[0] == '\\' {
        if path.len() > 1 {
            lemma_rest_shorter(path.skip(2));
        }
    } else if path[0] == '.' {
    } else {
        lemma_rest_shorter(path.skip(1));
    }
}

/// The numeric value of a digit sequence, most significant first.
pub open spec fn digits_val(s: Seq<char>) -> int
    decreases s.len(),
{
    if s.len() == 0 {
        0
    } else {
        digits_val(s.drop_last()) * 10 + (s.last() as int - '0' as int)
    }
}

/// Whether every character is an ASCII digit.
pub open spec fn all_digits(s: Seq<char>) -> bool {
    forall|i: int| 0 <= i < s.len() ==> '0' <= #[trigger] s[i] <= '9'
}

/// How a path segment indexes an array: an optional `+` sign followed by
/// digits, within the machine word range.
pub open spec fn parse_index(seg: Seq<char>) -> Option<int> {
    let body = if seg.len() > 0 && seg[0] == '+' {
        seg.skip(1)
    } else {
        seg
    };
    if body.len() > 0 && all_digits(body) && digits_val(body) <= usize::MAX as int {
        Some(digits_val(body))
    } else {
        None
    }
}

/// The value an array step selects for a segment, if any.
pub open spec fn arr_index(items: Seq<SpecVal>, seg: Seq<char>) -> Option<int> {
    if items.len() == 0 {
        None
    } else if seg =~= seq!['>'] {
        Some(items.len() - 1)
    } else if seg =~= seq!['<'] {
        Some(0int)
    } else {
        match parse_index(seg) {
            Some(i) => if i < items.len() {
                Some(i)
            } else {
                None
            },
            None => None,
        }
    }
}

/// The value a dotted path extracts from a document, with every missing or
/// unreachable address collapsing to `Null`.
pub open spec fn resolve(v: SpecVal, path: Seq<char>) -> SpecVal
    decreases path.len(),
{
    match v {
        SpecVal::Null => SpecVal::Null,
        SpecVal::Obj(m) => {
            let seg = seg_of(path);
            if seg.len() == 0 {
                SpecVal::Null
            } else {
                let child = if m.dom().contains(seg) {
                    m[seg]
                } else {
                    SpecVal::Null
                };
                match rest_of(path) {
                    None => child,
                    Some(r) => {
                        proof {
                            lemma_rest_shorter(path);
                        }
                        resolve(child, r)
                    },
                }
            }
        },
        SpecVal::Arr(items) => {
            let seg = seg_of(path);
            if seg.len() == 0 {
                SpecVal::Null
            } else {
                match arr_index(items, seg) {
                    None => SpecVal::Null,
                    Some(i) => match rest_of(path) {
                        None => items[i],
                        Some(r) => {
                            proof {
                                lemma_rest_shorter(path);
                            }
                            resolve(items[i], r)
                        },
                    },
                }
            }
        },
        _ => {
            if path.len() == 0 {
                v
            } else {
                SpecVal::Null
            }
        },
    }
}

// ---------------------------------------------------------------------------
// Acceptance
// ---------------------------------------------------------------------------

/// Whether a document is eligible for an index with the given configuration:
/// a composite index needs every declared path to resolve to a non-null
/// value, a scalar index needs the whole value to have the declared type.
pub open spec fn accepts(c: CfgView, v: SpecVal) -> bool {
    match c {
        CfgView::Json(pos) => forall|i: int|
            0 <= i < pos.len() ==> !((#[trigger] resolve(v, pos[i].0)) is Null),
        CfgView::Integer(_) => v is Int,
        CfgView::Float(_) => v is Float,
        CfgView::Text(_) => v is Str,
    }
}

// ---------------------------------------------------------------------------
// Derived index entries
// ---------------------------------------------------------------------------

/// The field name under which whole-value indexes file every record.
pub open spec fn star() -> Seq<char> {
    "*"@
}

/// Whether a composite configuration declares the path.
pub open spec fn has_path(pos: Seq<(Seq<char>, IndexOrd)>, f: Seq<char>) -> bool {
    exists|i: int| 0 <= i < pos.len() && (#[trigger] pos[i]).0 == f
}

/// Whether a document puts a record into the integer tree of field `f`
/// under key `n`.
pub open spec fn derives_int(c: CfgView, v: SpecVal, f: Seq<char>, n: int) -> bool {
    match c {
        CfgView::Json(pos) => has_path(pos, f) && resolve(v, f) == SpecVal::Int(n),
        CfgView::Integer(_) => f == star() && v == SpecVal::Int(n),
        _ => false,
    }
}

/// Whether a document puts a record into the float tree of field `f` under
/// the coercion rank `k`.
pub open spec fn derives_float(c: CfgView, v: SpecVal, f: Seq<char>, k: int) -> bool {
    match c {
        CfgView::Json(pos) => has_path(pos, f) && resolve(v, f) is Float && numeric_key(
            resolve(v, f),
        ) == k,
        CfgView::Float(_) => f == star() && v is Float && numeric_key(v) == k,
        _ => false,
    }
}

/// Whether a document puts a record into the string tree of field `f`
/// under key `s`.
pub open spec fn derives_str(c: CfgView, v: SpecVal, f: Seq<char>, s: Seq<char>) -> bool {
    match c {
        CfgView::Json(pos) => has_path(pos, f) && resolve(v, f) == SpecVal::Str(s),
        CfgView::Text(_) => f == star() && v == SpecVal::Str(s),
        _ => false,
    }
}

// ---------------------------------------------------------------------------
// Ordering
// ---------------------------------------------------------------------------

/// Three-way comparison of mathematical integers.
pub open spec fn int3(a: int, b: int) -> Ordering {
    if a < b {
        Ordering::Less
    } else if a == b {
        Ordering::Equal
    } else {
        Ordering::Greater
    }
}

/// The opposite ordering.
pub open spec fn flip(o: Ordering) -> Ordering {
    match o {
        Ordering::Less => Ordering::Greater,
        Ordering::Equal => Ordering::Equal,
        Ordering::Greater => Ordering::Less,
    }
}

/// An ordering adjusted for a sort direction.
pub open spec fn dir3(o: Ordering, d: IndexOrd) -> Ordering {
    match d {
        IndexOrd::ASC => o,
        IndexOrd::DESC => flip(o),
    }
}

/// Lexicographic comparison of character sequences by code point.
pub open spec fn lex_cmp(a: Seq<char>, b: Seq<char>) -> Ordering
    decreases a.len(),
{
    if a.len() == 0 && b.len() == 0 {
        Ordering::Equal
    } else if a.len() == 0 {
        Ordering::Less
    } else if b.len() == 0 {
        Ordering::Greater
    } else if a[0] == b[0] {
        lex_cmp(a.drop_first(), b.drop_first())
    } else if (a[0] as u32) < (b[0] as u32) {
        Ordering::Less
    } else {
        Ordering::Greater
    }
}

/// Lexicographic equality is equality of the sequences.
pub proof fn lemma_lex_eq(a: Seq<char>, b: Seq<char>)
    ensures
        lex_cmp(a, b) == Ordering::Equal <==> a == b,
    decreases a.len(),
{
    if a.len() != 0 && b.len() != 0 && a[0] == b[0] {
        lemma_lex_eq(a.drop_first(), b.drop_first());
        if lex_cmp(a, b) == Ordering::Equal {
            assert(a =~= seq![a[0]] + a.drop_first());
            assert(b =~= seq![b[0]] + b.drop_first());
        }
        if a == b {
            assert(a.drop_first() =~= b.drop_first());
        }
    } else {
        if a.len() == 0 && b.len() == 0 {
            assert(a =~= b);
        }
    }
}

/// Distinct characters have distinct code points.
proof fn lemma_char_inj(a: char, b: char)
    requires
        a as u32 == b as u32,
    ensures
        a == b,
{
}

/// Swapping the operands flips a lexicographic comparison.
pub proof fn lemma_lex_flip(a: Seq<char>, b: Seq<char>)
    ensures
        lex_cmp(b, a) == flip(lex_cmp(a, b)),
    decreases a.len(),
{
    if a.len() == 0 && b.len() == 0 {
        assert(lex_cmp(a, b) == Ordering::Equal);
        assert(lex_cmp(b, a) == Ordering::Equal);
    } else if a.len() == 0 {
        assert(lex_cmp(a, b) == Ordering::Less);
        assert(lex_cmp(b, a) == Ordering::Greater);
    } else if b.len() == 0 {
        assert(lex_cmp(a, b) == Ordering::Greater);
        assert(lex_cmp(b, a) == Ordering::Less);
    } else if a[0] == b[0] {
        lemma_lex_flip(a.drop_first(), b.drop_first());
    } else if (a[0] as u32) < (b[0] as u32) {
        assert(lex_cmp(a, b) == Ordering::Less);
        assert(lex_cmp(b, a) == Ordering::Greater);
    } else {
        if a[0] as u32 == b[0] as u32 {
            lemma_char_inj(a[0], b[0]);
        }
        assert(lex_cmp(a, b) == Ordering::Greater);
        assert(lex_cmp(b, a) == Ordering::Less);
    }
}

/// A string that begins with a prefix never sorts below it.
pub proof fn lemma_prefix_not_less(pre: Seq<char>, t: Seq<char>)
    requires
        t.len() >= pre.len(),
        t.take(pre.len() as int) == pre,
    ensures
        lex_cmp(t, pre) != Ordering::Less,
    decreases pre.len(),
{
    if pre.len() == 0 {
    } else {
        assert(t[0] == pre[0]) by {
            assert(t.take(pre.len() as int)[0] == t[0]);
        }
        assert(t.drop_first().take(pre.len() as int - 1) =~= t.take(
            pre.len() as int,
        ).drop_first());
        lemma_prefix_not_less(pre.drop_first(), t.drop_first());
    }
}

/// A string strictly below another starts with a character no larger.
pub proof fn lemma_lex_less_first(a: Seq<char>, b: Seq<char>)
    requires
        lex_cmp(a, b) == Ordering::Less,
        a.len() > 0,
    ensures
        b.len() > 0,
        (a[0] as u32) <= (b[0] as u32),
{
}

/// Lexicographic order is transitive.
pub proof fn lemma_lex_trans(a: Seq<char>, b: Seq<char>, c: Seq<char>)
    requires
        lex_cmp(a, b) == Ordering::Less,
        lex_cmp(b, c) == Ordering::Less,
    ensures
        lex_cmp(a, c) == Ordering::Less,
    decreases a.len(),
{
    if a.len() != 0 && b.len() != 0 && c.len() != 0 {
        if a[0] == b[0] && b[0] == c[0] {
            lemma_lex_trans(a.drop_first(), b.drop_first(), c.drop_first());
        }
    }
}

/// How two extracted values compare, before any direction applies: strings
/// by their characters, numbers by their coercion rank, anything else left
/// undecided.
pub open spec fn pair_cmp(a: SpecVal, b: SpecVal) -> Ordering {
    if a is Str && b is Str {
        lex_cmp(a->Str_0, b->Str_0)
    } else if a.is_number() && b.is_number() {
        int3(numeric_key(a), numeric_key(b))
    } else {
        Ordering::Equal
    }
}

/// One path of a composite comparison: the operands' comparison, honoring
/// the path's direction.
pub open spec fn path_cmp(a: SpecVal, b: SpecVal, d: IndexOrd) -> Ordering {
    dir3(pair_cmp(a, b), d)
}

/// The composite comparison over a list of paths: the first path whose
/// comparison is decided wins.
pub open spec fn json_cmp(pos: Seq<(Seq<char>, IndexOrd)>, a: SpecVal, b: SpecVal) -> Ordering
    decreases pos.len(),
{
    if pos.len() == 0 {
        Ordering::Equal
    } else {
        let c = path_cmp(resolve(a, pos[0].0), resolve(b, pos[0].0), pos[0].1);
        if c != Ordering::Equal {
            c
        } else {
            json_cmp(pos.drop_first(), a, b)
        }
    }
}

/// The value an integer index sorts by: the exact integer, or zero.
pub open spec fn int_coerce(v: SpecVal) -> int {
    match v {
        SpecVal::Int(i) => i,
        _ => 0,
    }
}

/// The value a string index sorts by: the characters, or the empty string.
pub open spec fn str_coerce(v: SpecVal) -> Seq<char> {
    match v {
        SpecVal::Str(s) => s,
        _ => Seq::empty(),
    }
}

/// The comparison a configuration induces on two documents: the sole sort
/// key for the store and for re-sorts of query results.
pub open spec fn doc_cmp(c: CfgView, a: SpecVal, b: SpecVal) -> Ordering {
    match c {
        CfgView::Json(pos) => json_cmp(pos, a, b),
        CfgView::Integer(d) => dir3(int3(int_coerce(a), int_coerce(b)), d),
        CfgView::Float(d) => dir3(int3(numeric_key(a), numeric_key(b)), d),
        CfgView::Text(d) => dir3(lex_cmp(str_coerce(a), str_coerce(b)), d),
    }
}

/// Swapping the documents flips the composite comparison.
pub proof fn lemma_doc_cmp_flip(c: CfgView, a: SpecVal, b: SpecVal)
    ensures
        doc_cmp(c, b, a) == flip(doc_cmp(c, a, b)),
{
    match c {
        CfgView::Json(pos) => {
            lemma_json_cmp_flip(pos, a, b);
        },
        CfgView::Text(d) => {
            lemma_lex_flip(str_coerce(a), str_coerce(b));
        },
        _ => {},
    }
}

proof fn lemma_json_cmp_flip(pos: Seq<(Seq<char>, IndexOrd)>, a: SpecVal, b: SpecVal)
    ensures
        json_cmp(pos, b, a) == flip(json_cmp(pos, a, b)),
    decreases pos.len(),
{
    if pos.len() > 0 {
        let ra = resolve(a, pos[0].0);
        let rb = resolve(b, pos[0].0);
        if ra is Str && rb is Str {
            lemma_lex_flip(ra->Str_0, rb->Str_0);
        }
        lemma_json_cmp_flip(pos.drop_first(), a, b);
    }
}

// ---------------------------------------------------------------------------
// Executable string comparison
// ---------------------------------------------------------------------------

/// Compares two strings lexicographically by code point.
pub fn str_compare(a: &str, b: &str) -> (r: Ordering)
    ensures
        r == lex_cmp(a@, b@),
{
    let alen = a.unicode_len();
    let blen = b.unicode_len();
    let mut i: usize = 0;
    proof {
        assert(a@.skip(0) =~= a@);
        assert(b@.skip(0) =~= b@);
    }
    loop
        invariant
            i <= alen,
            i <= blen,
            alen == a@.len(),
            blen == b@.len(),
            forall|t: int| 0 <= t < i as int ==> a@[t] == b@[t],
            lex_cmp(a@, b@) == lex_cmp(a@.skip(i as int), b@.skip(i as int)),
        decreases alen - i,
    {
        if i == alen && i == blen {
            return Ordering::Equal;
        }
        if i == alen {
            return Ordering::Less;
        }
        if i == blen {
            return Ordering::Greater;
        }
        let ca = a.get_char(i);
        let cb = b.get_char(i);
        if ca != cb {
            if (ca as u32) < (cb as u32) {
                return Ordering::Less;
            } else {
                return Ordering::Greater;
            }
        }
        proof {
            assert(a@.skip(i as int).drop_first() =~= a@.skip(i as int + 1));
            assert(b@.skip(i as int).drop_first() =~= b@.skip(i as int + 1));
        }
        i = i + 1;
    }
}

/// Whether two strings hold the same characters.
pub fn str_eq(a: &str, b: &str) -> (r: bool)
    ensures
        r == (a@ == b@),
{
    let c = str_compare(a, b);
    proof {
        lemma_lex_eq(a@, b@);
    }
    matches!(c, Ordering::Equal)
}

} // verus!
