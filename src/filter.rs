//! Predicate expression plan.

use vstd::prelude::*;
use crate::value::{Value, Var, value_cmp};
use crate::relation::{
    Relation, Row, Update, weight, offset_of, rows_of, rows_fit, position, copy_update,
};
use crate::plan::{Plan, PlanError};

verus! {

/// Permitted comparison predicates.
#[derive(Clone, Copy, Debug, PartialEq, Eq)]
pub enum Predicate {
    /// Less than
    LT,
    /// Greater than
    GT,
    /// Less than or equal to
    LTE,
    /// Greater than or equal to
    GTE,
    /// Equal
    EQ,
    /// Not equal
    NEQ,
}

impl Predicate {
    /// Whether `a` stands in this relation to `b` in the order of values.
    pub open spec fn spec_holds(self, a: Value, b: Value) -> bool {
        let c = value_cmp(a, b);
        match self {
            Predicate::LT => c < 0,
            Predicate::GT => c > 0,
            Predicate::LTE => c <= 0,
            Predicate::GTE => c >= 0,
            Predicate::EQ => c == 0,
            Predicate::NEQ => c != 0,
        }
    }

    /// Whether `a` stands in this relation to `b` in the order of values.
    pub fn holds(&self, a: &Value, b: &Value) -> (r: bool)
        ensures
            r == self.spec_holds(*a, *b),
    {
        let c = a.compare(b);
        match self {
            Predicate::LT => c < 0,
            Predicate::GT => c > 0,
            Predicate::LTE => c <= 0,
            Predicate::GTE => c >= 0,
            Predicate::EQ => c == 0,
            Predicate::NEQ => c != 0,
        }
    }
}

/// The rows of `rs` whose values at `l` and `r` satisfy `p`, in order.
pub open spec fn filter_rows(rs: Seq<Row>, p: Predicate, l: int, r: int) -> Seq<Row>
    decreases rs.len(),
{
    if rs.len() == 0 {
        Seq::empty()
    } else {
        let prev = filter_rows(rs.drop_last(), p, l, r);
        if p.spec_holds(rs.last().0[l], rs.last().0[r]) {
            prev.push(rs.last())
        } else {
            prev
        }
    }
}

proof fn lemma_weight_push(rs: Seq<Row>, x: Row, t: Seq<Value>, at: u64)
    ensures
        weight(rs.push(x), t, at) == weight(rs, t, at) + if x.0 == t && x.1 <= at {
            x.2
        } else {
            0
        },
{
    assert(rs.push(x).drop_last() =~= rs);
}

/// Filtering keeps, for every tuple of the input's width that satisfies
/// the predicate, its net multiplicity at every time, and drops every
/// other tuple.
pub proof fn lemma_filter_weight(
    rs: Seq<Row>,
    p: Predicate,
    l: int,
    r: int,
    n: nat,
    t: Seq<Value>,
    at: u64,
)
    requires
        rows_fit(rs, n),
        0 <= l < n,
        0 <= r < n,
    ensures
        weight(filter_rows(rs, p, l, r), t, at) == if t.len() == n && p.spec_holds(t[l], t[r]) {
            weight(rs, t, at)
        } else {
            0
        },
    decreases rs.len(),
{
    if rs.len() > 0 {
        assert forall|i: int| 0 <= i < rs.drop_last().len() implies (
        #[trigger] rs.drop_last()[i]).0.len() == n by {
            assert(rs.drop_last()[i] == rs[i]);
        }
        lemma_filter_weight(rs.drop_last(), p, l, r, n, t, at);
        assert(rs[rs.len() - 1].0.len() == n);
        let prev = filter_rows(rs.drop_last(), p, l, r);
        if p.spec_holds(rs.last().0[l], rs.last().0[r]) {
            lemma_weight_push(prev, rs.last(), t, at);
        }
    }
}

/// Keeping the equal pairs and keeping the unequal pairs split a log in
/// two: the two results together have the input's net multiplicities.
pub proof fn lemma_filter_eq_neq_partition(rs: Seq<Row>, l: int, r: int, t: Seq<Value>, at: u64)
    ensures
        weight(filter_rows(rs, Predicate::EQ, l, r), t, at) + weight(
            filter_rows(rs, Predicate::NEQ, l, r),
            t,
            at,
        ) == weight(rs, t, at),
    decreases rs.len(),
{
    if rs.len() > 0 {
        lemma_filter_eq_neq_partition(rs.drop_last(), l, r, t, at);
        let pe = filter_rows(rs.drop_last(), Predicate::EQ, l, r);
        let pn = filter_rows(rs.drop_last(), Predicate::NEQ, l, r);
        lemma_weight_push(pe, rs.last(), t, at);
        lemma_weight_push(pn, rs.last(), t, at);
    }
}

/// What filtering a relation with symbols `syms` and rows `rs` yields:
/// the same symbols and the rows that satisfy the predicate, or the
/// first of the two variables that is not bound.
pub open spec fn filter_spec(p: Predicate, vars: [Var; 2], syms: Seq<Var>, rs: Seq<Row>) -> Result<
    (Seq<Var>, Seq<Row>),
    PlanError,
> {
    match (offset_of(syms, vars@[0]), offset_of(syms, vars@[1])) {
        (Some(l), Some(r)) => Ok((syms, filter_rows(rs, p, l as int, r as int))),
        (None, _) => Err(PlanError::UnboundSymbol(vars@[0])),
        (_, None) => Err(PlanError::UnboundSymbol(vars@[1])),
    }
}

/// A plan stage filtering source tuples by the specified
/// predicate. Frontends are responsible for ensuring that the source
/// binds the argument symbols.
#[derive(Debug)]
pub struct Filter {
    /// The left and right operand symbols.
    pub variables: [Var; 2],
    /// Logical predicate to apply.
    pub predicate: Predicate,
    /// Plan for the data source.
    pub plan: Box<Plan>,
}

impl Filter {
    /// Restricts `rel` to the tuples whose values at the two variables
    /// satisfy the predicate, keeping symbols, times and multiplicities.
    pub fn restrict(&self, rel: Relation) -> (r: Result<Relation, PlanError>)
        requires
            rel.wf(),
        ensures
            match (r, filter_spec(self.predicate, self.variables, rel.symbols@, rel.rows())) {
                (Ok(out), Ok((syms, rs))) => out.symbols@ == syms && out.rows() == rs && out.wf(),
                (Err(e1), Err(e2)) => e1 == e2,
                _ => false,
            },
    {
        let lo = match position(&rel.symbols, self.variables[0]) {
            Some(k) => k,
            None => return Err(PlanError::UnboundSymbol(self.variables[0])),
        };
        let ro = match position(&rel.symbols, self.variables[1]) {
            Some(k) => k,
            None => return Err(PlanError::UnboundSymbol(self.variables[1])),
        };
        let mut out: Vec<Update> = Vec::new();
        let mut i: usize = 0;
        while i < rel.tuples.len()
            invariant
                rel.wf(),
                i <= rel.tuples@.len(),
                lo < rel.symbols@.len(),
                ro < rel.symbols@.len(),
                rows_of(out@) == filter_rows(
                    rows_of(rel.tuples@).subrange(0, i as int),
                    self.predicate,
                    lo as int,
                    ro as int,
                ),
                rows_fit(rows_of(out@), rel.symbols@.len()),
            decreases rel.tuples@.len() - i,
        {
            let u = &rel.tuples[i];
            let ghost rs = rows_of(rel.tuples@);
            assert(rs[i as int] == u@);
            assert(rs.subrange(0, i + 1).drop_last() =~= rs.subrange(0, i as int));
            assert(u.tuple@.len() == rel.symbols@.len());
            if self.predicate.holds(&u.tuple[lo], &u.tuple[ro]) {
                let ghost before = out@;
                out.push(copy_update(u));
                assert(rows_of(out@) =~= rows_of(before).push(u@));
            }
            i = i + 1;
        }
        assert(rows_of(rel.tuples@).subrange(0, i as int) =~= rel.rows());
        Ok(Relation { symbols: rel.symbols, tuples: out })
    }
}

} // verus!
