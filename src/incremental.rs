//! Incremental and from-scratch evaluation agree: every plan's output
//! depends on its inputs only through their net multiplicities.

use vstd::prelude::*;
use crate::value::{Attribute, Value, value_eq};
use crate::relation::{Row, weight, same_weights, lemma_weight_concat};
use crate::filter::{Predicate, filter_rows};
use crate::value::Var;
use crate::relation::{rows_of, offset_of, offsets_of, pick};
use crate::pull::{join_one, join_rows, pull_rows, pull_tuple, max_time, interleave_spec, resolve, PullLevel};
use crate::project::project_rows;
use crate::transform::{transform_rows, truncate_spec};
use crate::plan::{
    AttributeIndex, NamedRelation, Plan, PlanError, index_rows, local_rows, eval, eval_level, eval_levels,
};

verus! {

/// Sum over the rows up to time `at` of `f` of the tuple times the
/// multiplicity.
pub open spec fn wsum(rs: Seq<Row>, f: spec_fn(Seq<Value>) -> int, at: u64) -> int
    decreases rs.len(),
{
    if rs.len() == 0 {
        0
    } else {
        wsum(rs.drop_last(), f, at) + if rs.last().1 <= at {
            f(rs.last().0) * rs.last().2
        } else {
            0
        }
    }
}

/// The rows of `rs` whose tuple is not `t`.
pub open spec fn without(rs: Seq<Row>, t: Seq<Value>) -> Seq<Row>
    decreases rs.len(),
{
    if rs.len() == 0 {
        Seq::empty()
    } else {
        let p = without(rs.drop_last(), t);
        if rs.last().0 == t {
            p
        } else {
            p.push(rs.last())
        }
    }
}

proof fn lemma_without_len(rs: Seq<Row>, t: Seq<Value>)
    ensures
        without(rs, t).len() <= rs.len(),
        rs.len() > 0 && rs.last().0 == t ==> without(rs, t).len() < rs.len(),
    decreases rs.len(),
{
    if rs.len() > 0 {
        lemma_without_len(rs.drop_last(), t);
    }
}

proof fn lemma_weight_push(rs: Seq<Row>, x: Row, t: Seq<Value>, at: u64)
    ensures
        weight(rs.push(x), t, at) == weight(rs, t, at) + if x.0 == t && x.1 <= at {
            x.2
        } else {
            0
        },
{
    assert(rs.push(x).drop_last() =~= rs);
}

proof fn lemma_wsum_push(rs: Seq<Row>, x: Row, f: spec_fn(Seq<Value>) -> int, at: u64)
    ensures
        wsum(rs.push(x), f, at) == wsum(rs, f, at) + if x.1 <= at {
            f(x.0) * x.2
        } else {
            0
        },
{
    assert(rs.push(x).drop_last() =~= rs);
}

proof fn lemma_without_weight(rs: Seq<Row>, t: Seq<Value>, s: Seq<Value>, at: u64)
    ensures
        weight(without(rs, t), s, at) == if s == t {
            0
        } else {
            weight(rs, s, at)
        },
    decreases rs.len(),
{
    if rs.len() > 0 {
        lemma_without_weight(rs.drop_last(), t, s, at);
        if rs.last().0 != t {
            lemma_weight_push(without(rs.drop_last(), t), rs.last(), s, at);
        }
    }
}

proof fn lemma_without_wsum(rs: Seq<Row>, t: Seq<Value>, f: spec_fn(Seq<Value>) -> int, at: u64)
    ensures
        wsum(rs, f, at) == wsum(without(rs, t), f, at) + f(t) * weight(rs, t, at),
    decreases rs.len(),
{
    if rs.len() > 0 {
        let p = rs.drop_last();
        let x = rs.last();
        lemma_without_wsum(p, t, f, at);
        if x.0 == t {
            let d = if x.1 <= at {
                x.2
            } else {
                0
            };
            assert(f(t) * (weight(p, t, at) + d) == f(t) * weight(p, t, at) + f(t) * d)
                by (nonlinear_arith);
        } else {
            lemma_wsum_push(without(p, t), x, f, at);
        }
    }
}

/// Two logs with the same net multiplicities at every time give the same
/// weighted sum for every weighting of tuples.
pub proof fn lemma_wsum_weights(a: Seq<Row>, b: Seq<Row>, f: spec_fn(Seq<Value>) -> int, at: u64)
    requires
        same_weights(a, b),
    ensures
        wsum(a, f, at) == wsum(b, f, at),
    decreases a.len() + b.len(),
{
    if a.len() > 0 || b.len() > 0 {
        let t = if a.len() > 0 {
            a.last().0
        } else {
            b.last().0
        };
        lemma_without_wsum(a, t, f, at);
        lemma_without_wsum(b, t, f, at);
        lemma_without_len(a, t);
        lemma_without_len(b, t);
        assert(weight(a, t, at) == weight(b, t, at));
        assert forall|s: Seq<Value>, at2: u64| #[trigger] weight(without(a, t), s, at2) == #[trigger] weight(
            without(b, t),
            s,
            at2,
        ) by {
            lemma_without_weight(a, t, s, at2);
            lemma_without_weight(b, t, s, at2);
            assert(weight(a, s, at2) == weight(b, s, at2));
        }
        lemma_wsum_weights(without(a, t), without(b, t), f, at);
    }
}

/// Weighted sums under two weightings that agree on every tuple agree.
pub proof fn lemma_wsum_congruent(
    rs: Seq<Row>,
    f: spec_fn(Seq<Value>) -> int,
    g: spec_fn(Seq<Value>) -> int,
    at: u64,
)
    requires
        forall|t: Seq<Value>| #[trigger] f(t) == g(t),
    ensures
        wsum(rs, f, at) == wsum(rs, g, at),
    decreases rs.len(),
{
    if rs.len() > 0 {
        lemma_wsum_congruent(rs.drop_last(), f, g, at);
    }
}

/// Each row's tuple replaced by `m` of it, time and multiplicity kept.
pub open spec fn map_rows(rs: Seq<Row>, m: spec_fn(Seq<Value>) -> Seq<Value>) -> Seq<Row> {
    rs.map_values(|x: Row| (m(x.0), x.1, x.2))
}

/// Indicator of the tuples that `m` sends to `s`.
pub open spec fn preimage(m: spec_fn(Seq<Value>) -> Seq<Value>, s: Seq<Value>) -> spec_fn(
    Seq<Value>,
) -> int {
    |t: Seq<Value>|
        if m(t) == s {
            1int
        } else {
            0int
        }
}

/// The net multiplicity of a tuple after a row-wise map is the weighted
/// sum of the tuples that map to it.
pub proof fn lemma_map_weight(rs: Seq<Row>, m: spec_fn(Seq<Value>) -> Seq<Value>, s: Seq<Value>, at: u64)
    ensures
        weight(map_rows(rs, m), s, at) == wsum(rs, preimage(m, s), at),
    decreases rs.len(),
{
    if rs.len() > 0 {
        lemma_map_weight(rs.drop_last(), m, s, at);
        assert(map_rows(rs, m).drop_last() =~= map_rows(rs.drop_last(), m));
    }
}

/// A row-wise map of two logs with the same net multiplicities yields
/// logs with the same net multiplicities.
pub proof fn lemma_map_incremental(a: Seq<Row>, b: Seq<Row>, m: spec_fn(Seq<Value>) -> Seq<Value>)
    requires
        same_weights(a, b),
    ensures
        same_weights(map_rows(a, m), map_rows(b, m)),
{
    assert forall|s: Seq<Value>, at: u64| #[trigger] weight(map_rows(a, m), s, at) == #[trigger] weight(
        map_rows(b, m),
        s,
        at,
    ) by {
        lemma_map_weight(a, m, s, at);
        lemma_map_weight(b, m, s, at);
        lemma_wsum_weights(a, b, preimage(m, s), at);
    }
}

/// Indicator of the tuples that filtering keeps and that equal `s`.
pub open spec fn kept(p: Predicate, l: int, r: int, s: Seq<Value>) -> spec_fn(Seq<Value>) -> int {
    |t: Seq<Value>|
        if t == s && p.spec_holds(t[l], t[r]) {
            1int
        } else {
            0int
        }
}

proof fn lemma_filter_wsum(rs: Seq<Row>, p: Predicate, l: int, r: int, s: Seq<Value>, at: u64)
    ensures
        weight(filter_rows(rs, p, l, r), s, at) == wsum(rs, kept(p, l, r, s), at),
    decreases rs.len(),
{
    if rs.len() > 0 {
        lemma_filter_wsum(rs.drop_last(), p, l, r, s, at);
        let prev = filter_rows(rs.drop_last(), p, l, r);
        let x = rs.last();
        let k = kept(p, l, r, s);
        if p.spec_holds(x.0[l], x.0[r]) {
            lemma_weight_push(prev, x, s, at);
            if x.0 == s {
                assert(k(x.0) == 1);
            } else {
                assert(k(x.0) == 0);
            }
        } else {
            assert(k(x.0) == 0);
        }
    }
}

/// Filtering two logs with the same net multiplicities yields logs with
/// the same net multiplicities, whatever the width of their tuples.
pub proof fn lemma_filter_same_weights(a: Seq<Row>, b: Seq<Row>, p: Predicate, l: int, r: int)
    requires
        same_weights(a, b),
    ensures
        same_weights(filter_rows(a, p, l, r), filter_rows(b, p, l, r)),
{
    assert forall|s: Seq<Value>, at: u64| #[trigger] weight(filter_rows(a, p, l, r), s, at) == #[trigger] weight(
        filter_rows(b, p, l, r),
        s,
        at,
    ) by {
        lemma_filter_wsum(a, p, l, r, s, at);
        lemma_filter_wsum(b, p, l, r, s, at);
        lemma_wsum_weights(a, b, kept(p, l, r, s), at);
    }
}

/// Indicator of the index tuples that join path `p` into result `s`.
pub open spec fn join_weighting(p: Seq<Value>, s: Seq<Value>, pa: Seq<Attribute>, a: Attribute) -> spec_fn(
    Seq<Value>,
) -> int {
    |u: Seq<Value>|
        if p.len() > 0 && u.len() == 2 && value_eq(p.last(), u[0]) && pull_tuple(p, pa, a, u[1]) == s {
            1int
        } else {
            0int
        }
}

/// For each path tuple, the weighted count of index rows that join it
/// into result `s`.
pub open spec fn path_weighting(ix: Seq<Row>, s: Seq<Value>, pa: Seq<Attribute>, a: Attribute, at: u64) -> spec_fn(
    Seq<Value>,
) -> int {
    |p: Seq<Value>| wsum(ix, join_weighting(p, s, pa, a), at)
}

proof fn lemma_join_one_weight(x: Row, ix: Seq<Row>, pa: Seq<Attribute>, a: Attribute, s: Seq<Value>, at: u64)
    ensures
        weight(join_one(x, ix, pa, a), s, at) == if x.1 <= at {
            x.2 * wsum(ix, join_weighting(x.0, s, pa, a), at)
        } else {
            0
        },
    decreases ix.len(),
{
    if ix.len() > 0 {
        let q = ix.drop_last();
        let u = ix.last();
        let g = join_weighting(x.0, s, pa, a);
        lemma_join_one_weight(x, q, pa, a, s, at);
        let prev = join_one(x, q, pa, a);
        let wq = wsum(q, g, at);
        if x.0.len() > 0 && u.0.len() == 2 && value_eq(x.0.last(), u.0[0]) {
            let row = (pull_tuple(x.0, pa, a, u.0[1]), max_time(x.1, u.1), x.2 * u.2);
            lemma_weight_push(prev, row, s, at);
            let d = if u.1 <= at {
                g(u.0) * u.2
            } else {
                0
            };
            assert(x.2 * (wq + d) == x.2 * wq + x.2 * d) by (nonlinear_arith);
            if u.1 <= at && row.0 == s {
                assert(g(u.0) == 1);
                assert(x.2 * d == x.2 * u.2);
            }
            if row.0 != s {
                assert(g(u.0) == 0);
                assert(d == 0);
            }
        } else {
            assert(g(u.0) == 0);
        }
    }
}

/// The net multiplicity of a result tuple of a join is a weighted sum
/// over the path rows of weighted counts over the index rows.
pub proof fn lemma_join_rows_weight(rs: Seq<Row>, ix: Seq<Row>, pa: Seq<Attribute>, a: Attribute, s: Seq<Value>, at: u64)
    ensures
        weight(join_rows(rs, ix, pa, a), s, at) == wsum(rs, path_weighting(ix, s, pa, a, at), at),
    decreases rs.len(),
{
    if rs.len() > 0 {
        lemma_join_rows_weight(rs.drop_last(), ix, pa, a, s, at);
        lemma_weight_concat(join_rows(rs.drop_last(), ix, pa, a), join_one(rs.last(), ix, pa, a), s, at);
        lemma_join_one_weight(rs.last(), ix, pa, a, s, at);
        let h = path_weighting(ix, s, pa, a, at);
        assert(h(rs.last().0) == wsum(ix, join_weighting(rs.last().0, s, pa, a), at));
        assert(rs.last().2 * h(rs.last().0) == h(rs.last().0) * rs.last().2) by (nonlinear_arith);
    }
}

/// Joining logs with the same net multiplicities yields logs with the
/// same net multiplicities.
pub proof fn lemma_join_same_weights(
    rs1: Seq<Row>,
    rs2: Seq<Row>,
    ix1: Seq<Row>,
    ix2: Seq<Row>,
    pa: Seq<Attribute>,
    a: Attribute,
)
    requires
        same_weights(rs1, rs2),
        same_weights(ix1, ix2),
    ensures
        same_weights(join_rows(rs1, ix1, pa, a), join_rows(rs2, ix2, pa, a)),
{
    assert forall|s: Seq<Value>, at: u64| #[trigger] weight(join_rows(rs1, ix1, pa, a), s, at) == #[trigger] weight(
        join_rows(rs2, ix2, pa, a),
        s,
        at,
    ) by {
        lemma_join_rows_weight(rs1, ix1, pa, a, s, at);
        lemma_join_rows_weight(rs2, ix2, pa, a, s, at);
        let h1 = path_weighting(ix1, s, pa, a, at);
        let h2 = path_weighting(ix2, s, pa, a, at);
        assert forall|p: Seq<Value>| #[trigger] h1(p) == h2(p) by {
            lemma_wsum_weights(ix1, ix2, join_weighting(p, s, pa, a), at);
        }
        lemma_wsum_congruent(rs1, h1, h2, at);
        lemma_wsum_weights(rs1, rs2, h2, at);
    }
}

/// Pulling attributes from path logs and indexes with pairwise the same
/// net multiplicities yields logs with the same net multiplicities.
pub proof fn lemma_pull_same_weights(
    rs1: Seq<Row>,
    rs2: Seq<Row>,
    ixs1: Seq<Seq<Row>>,
    ixs2: Seq<Seq<Row>>,
    pa: Seq<Attribute>,
    attrs: Seq<Attribute>,
)
    requires
        same_weights(rs1, rs2),
        ixs1.len() == ixs2.len(),
        forall|k: int| 0 <= k < ixs1.len() ==> same_weights(#[trigger] ixs1[k], ixs2[k]),
    ensures
        same_weights(pull_rows(rs1, ixs1, pa, attrs), pull_rows(rs2, ixs2, pa, attrs)),
    decreases attrs.len(),
{
    if attrs.len() > 0 && ixs1.len() > 0 {
        assert forall|k: int| 0 <= k < ixs1.drop_last().len() implies same_weights(
            #[trigger] ixs1.drop_last()[k],
            ixs2.drop_last()[k],
        ) by {
            assert(ixs1.drop_last()[k] == ixs1[k]);
            assert(ixs2.drop_last()[k] == ixs2[k]);
        }
        lemma_pull_same_weights(rs1, rs2, ixs1.drop_last(), ixs2.drop_last(), pa, attrs.drop_last());
        assert(same_weights(ixs1[ixs1.len() - 1], ixs2[ixs2.len() - 1]));
        lemma_join_same_weights(rs1, rs2, ixs1.last(), ixs2.last(), pa, attrs.last());
        crate::relation::lemma_concat_incremental(
            pull_rows(rs1, ixs1.drop_last(), pa, attrs.drop_last()),
            pull_rows(rs2, ixs2.drop_last(), pa, attrs.drop_last()),
            join_rows(rs1, ixs1.last(), pa, attrs.last()),
            join_rows(rs2, ixs2.last(), pa, attrs.last()),
        );
    } else {
        assert forall|s: Seq<Value>, at: u64| #[trigger] weight(pull_rows(rs1, ixs1, pa, attrs), s, at) == #[trigger] weight(
            pull_rows(rs2, ixs2, pa, attrs),
            s,
            at,
        ) by {}
    }
}

/// Two sets of indexes name the same attributes in the same order, and
/// each index describes the same multiset at every time in both.
pub open spec fn equivalent_indexes(g1: Seq<AttributeIndex>, g2: Seq<AttributeIndex>) -> bool {
    &&& g1.len() == g2.len()
    &&& forall|i: int|
        0 <= i < g1.len() ==> (#[trigger] g1[i]).attribute@ == g2[i].attribute@ && same_weights(
            rows_of(g1[i].updates@),
            rows_of(g2[i].updates@),
        )
}

/// Two sets of local arrangements name the same relations in the same
/// order, with the same symbols, each describing the same multiset at
/// every time in both.
pub open spec fn equivalent_locals(l1: Seq<NamedRelation>, l2: Seq<NamedRelation>) -> bool {
    &&& l1.len() == l2.len()
    &&& forall|i: int|
        0 <= i < l1.len() ==> (#[trigger] l1[i]).name@ == l2[i].name@ && l1[i].relation.symbols@
            == l2[i].relation.symbols@ && same_weights(l1[i].relation.rows(), l2[i].relation.rows())
}

proof fn lemma_local_rows_equiv(l1: Seq<NamedRelation>, l2: Seq<NamedRelation>, name: Seq<char>)
    requires
        equivalent_locals(l1, l2),
    ensures
        match (local_rows(l1, name), local_rows(l2, name)) {
            (Some((s1, x)), Some((s2, y))) => s1 == s2 && same_weights(x, y),
            (None, None) => true,
            _ => false,
        },
    decreases l1.len(),
{
    if l1.len() > 0 {
        assert(l1[0].name@ == l2[0].name@);
        let d1 = l1.drop_first();
        let d2 = l2.drop_first();
        assert forall|i: int| 0 <= i < d1.len() implies (#[trigger] d1[i]).name@ == d2[i].name@
            && d1[i].relation.symbols@ == d2[i].relation.symbols@ && same_weights(
            d1[i].relation.rows(),
            d2[i].relation.rows(),
        ) by {
            assert(d1[i] == l1[i + 1] && d2[i] == l2[i + 1]);
        }
        lemma_local_rows_equiv(d1, d2, name);
    }
}

/// Two compilation outcomes agree: both succeed with the same symbols and
/// the same multisets, or both fail with the same error; the one
/// exception is a side that fails because a multiplicity overflowed.
pub open spec fn agree(
    r1: Result<(Seq<Var>, Seq<Row>), PlanError>,
    r2: Result<(Seq<Var>, Seq<Row>), PlanError>,
) -> bool {
    match (r1, r2) {
        (Ok((s1, a)), Ok((s2, b))) => s1 == s2 && same_weights(a, b),
        (Ok(_), Err(e)) => e == PlanError::Overflow,
        (Err(e), Ok(_)) => e == PlanError::Overflow,
        (Err(e1), Err(e2)) => e1 == e2 || e1 == PlanError::Overflow || e2 == PlanError::Overflow,
    }
}

/// `agree` for outcomes without symbols.
pub open spec fn agree_rows(r1: Result<Seq<Row>, PlanError>, r2: Result<Seq<Row>, PlanError>) -> bool {
    match (r1, r2) {
        (Ok(a), Ok(b)) => same_weights(a, b),
        (Ok(_), Err(e)) => e == PlanError::Overflow,
        (Err(e), Ok(_)) => e == PlanError::Overflow,
        (Err(e1), Err(e2)) => e1 == e2 || e1 == PlanError::Overflow || e2 == PlanError::Overflow,
    }
}

proof fn lemma_index_rows_equiv(g1: Seq<AttributeIndex>, g2: Seq<AttributeIndex>, a: Seq<char>)
    requires
        equivalent_indexes(g1, g2),
    ensures
        match (index_rows(g1, a), index_rows(g2, a)) {
            (Some(x), Some(y)) => same_weights(x, y),
            (None, None) => true,
            _ => false,
        },
    decreases g1.len(),
{
    if g1.len() > 0 {
        assert(g1[0].attribute@ == g2[0].attribute@);
        let d1 = g1.drop_first();
        let d2 = g2.drop_first();
        assert forall|i: int| 0 <= i < d1.len() implies (#[trigger] d1[i]).attribute@ == d2[i].attribute@
            && same_weights(rows_of(d1[i].updates@), rows_of(d2[i].updates@)) by {
            assert(d1[i] == g1[i + 1] && d2[i] == g2[i + 1]);
        }
        lemma_index_rows_equiv(d1, d2, a);
    }
}

proof fn lemma_resolve_equiv(g1: Seq<AttributeIndex>, g2: Seq<AttributeIndex>, attrs: Seq<Attribute>)
    requires
        equivalent_indexes(g1, g2),
    ensures
        match (resolve(g1, attrs), resolve(g2, attrs)) {
            (Ok(x), Ok(y)) => x.len() == y.len() && forall|k: int|
                0 <= k < x.len() ==> same_weights(#[trigger] x[k], y[k]),
            (Err(e1), Err(e2)) => e1 == e2,
            _ => false,
        },
    decreases attrs.len(),
{
    if attrs.len() > 0 {
        lemma_resolve_equiv(g1, g2, attrs.drop_last());
        lemma_index_rows_equiv(g1, g2, attrs.last()@);
        match (resolve(g1, attrs.drop_last()), resolve(g2, attrs.drop_last())) {
            (Ok(x), Ok(y)) => {
                match (index_rows(g1, attrs.last()@), index_rows(g2, attrs.last()@)) {
                    (Some(i1), Some(i2)) => {
                        let x2 = x.push(i1);
                        let y2 = y.push(i2);
                        assert forall|k: int| 0 <= k < x2.len() implies same_weights(#[trigger] x2[k], y2[k]) by {
                            if k < x.len() {
                                assert(x2[k] == x[k] && y2[k] == y[k]);
                            }
                        }
                    },
                    _ => {},
                }
            },
            _ => {},
        }
    }
}

/// Compiling a plan against indexes and local arrangements that describe
/// the same multisets at every time (say, incremental logs and their
/// consolidated forms) gives the same symbols and the same multisets at every time:
/// incremental and from-scratch evaluation agree. The one exception is a
/// multiplicity that overflows on one side only.
pub proof fn lemma_incremental_equivalence(
    p: Plan,
    g1: Seq<AttributeIndex>,
    g2: Seq<AttributeIndex>,
    l1: Seq<NamedRelation>,
    l2: Seq<NamedRelation>,
)
    requires
        equivalent_indexes(g1, g2),
        equivalent_locals(l1, l2),
    ensures
        agree(eval(p, g1, l1), eval(p, g2, l2)),
    decreases p,
{
    match p {
        Plan::MatchA(e, a, v) => {
            lemma_index_rows_equiv(g1, g2, a@);
        },
        Plan::RuleExpr(syms, name) => {
            lemma_local_rows_equiv(l1, l2, name@);
        },
        Plan::Filter(f) => {
            lemma_incremental_equivalence(*f.plan, g1, g2, l1, l2);
            if let (Ok((s1, x)), Ok((s2, y))) = (eval(*f.plan, g1, l1), eval(*f.plan, g2, l2)) {
                if let (Some(l), Some(r)) = (offset_of(s1, f.variables@[0]), offset_of(s1, f.variables@[1])) {
                    lemma_filter_same_weights(x, y, f.predicate, l as int, r as int);
                }
            }
        },
        Plan::Project(pr) => {
            lemma_incremental_equivalence(*pr.plan, g1, g2, l1, l2);
            if let (Ok((s1, x)), Ok((s2, y))) = (eval(*pr.plan, g1, l1), eval(*pr.plan, g2, l2)) {
                if let Ok(os) = offsets_of(s1, pr.variables@) {
                    let m = |t: Seq<Value>| pick(t, os);
                    assert(project_rows(x, os) =~= map_rows(x, m));
                    assert(project_rows(y, os) =~= map_rows(y, m));
                    lemma_map_incremental(x, y, m);
                }
            }
        },
        Plan::Transform(tr) => {
            lemma_incremental_equivalence(*tr.plan, g1, g2, l1, l2);
            if let (Ok((s1, x)), Ok((s2, y))) = (eval(*tr.plan, g1, l1), eval(*tr.plan, g2, l2)) {
                if let Ok(os) = offsets_of(s1, tr.variables@) {
                    if tr.variables@.len() > 0 {
                        let k = os[0] as int;
                        let m = |t: Seq<Value>| t.push(truncate_spec(t[k]));
                        assert(transform_rows(x, k) =~= map_rows(x, m));
                        assert(transform_rows(y, k) =~= map_rows(y, m));
                        lemma_map_incremental(x, y, m);
                    }
                }
            }
        },
        Plan::PullLevel(l) => {
            lemma_level_equivalence(l, g1, g2, l1, l2);
        },
        Plan::Pull(pl) => {
            lemma_levels_equivalence(pl.paths@, g1, g2, l1, l2);
        },
    }
}

proof fn lemma_level_equivalence(
    l: PullLevel,
    g1: Seq<AttributeIndex>,
    g2: Seq<AttributeIndex>,
    l1: Seq<NamedRelation>,
    l2: Seq<NamedRelation>,
)
    requires
        equivalent_indexes(g1, g2),
        equivalent_locals(l1, l2),
    ensures
        agree(eval_level(l, g1, l1), eval_level(l, g2, l2)),
    decreases l,
{
    lemma_incremental_equivalence(*l.plan, g1, g2, l1, l2);
    if let (Ok((s1, x)), Ok((s2, y))) = (eval(*l.plan, g1, l1), eval(*l.plan, g2, l2)) {
        let pa = l.path_attributes@;
        if l.pull_attributes@.len() == 0 {
            if pa.len() > 0 {
                let m = |t: Seq<Value>| interleave_spec(t, pa);
                assert(x.map_values(|r: Row| (interleave_spec(r.0, pa), r.1, r.2)) =~= map_rows(x, m));
                assert(y.map_values(|r: Row| (interleave_spec(r.0, pa), r.1, r.2)) =~= map_rows(y, m));
                lemma_map_incremental(x, y, m);
            }
        } else {
            lemma_resolve_equiv(g1, g2, l.pull_attributes@);
            if let (Ok(i1), Ok(i2)) = (resolve(g1, l.pull_attributes@), resolve(g2, l.pull_attributes@)) {
                lemma_pull_same_weights(x, y, i1, i2, pa, l.pull_attributes@);
            }
        }
    }
}

proof fn lemma_levels_equivalence(
    ls: Seq<PullLevel>,
    g1: Seq<AttributeIndex>,
    g2: Seq<AttributeIndex>,
    l1: Seq<NamedRelation>,
    l2: Seq<NamedRelation>,
)
    requires
        equivalent_indexes(g1, g2),
        equivalent_locals(l1, l2),
    ensures
        agree_rows(eval_levels(ls, g1, l1), eval_levels(ls, g2, l2)),
    decreases ls,
{
    if ls.len() > 0 {
        lemma_levels_equivalence(ls.drop_last(), g1, g2, l1, l2);
        lemma_level_equivalence(ls.last(), g1, g2, l1, l2);
        if let (Ok(prev1), Ok(prev2)) = (eval_levels(ls.drop_last(), g1, l1), eval_levels(ls.drop_last(), g2, l2)) {
            if let (Ok((_, x)), Ok((_, y))) = (eval_level(ls.last(), g1, l1), eval_level(ls.last(), g2, l2)) {
                crate::relation::lemma_concat_incremental(prev1, prev2, x, y);
            }
        }
    } else {
        assert forall|s: Seq<Value>, at: u64| #[trigger] weight(Seq::<Row>::empty(), s, at) == #[trigger] weight(
            Seq::<Row>::empty(),
            s,
            at,
        ) by {}
    }
}

} // verus!
