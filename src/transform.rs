//! Function application plan.

use vstd::prelude::*;
use crate::value::{Value, Var, copy_tuple};
use crate::relation::{Relation, Row, Update, offsets_of, offset_of, rows_of, positions, position};
use crate::plan::{Plan, PlanError};

verus! {

/// Length of an hour in milliseconds.
pub const HOUR_MILLIS: u64 = 3600000;

/// Functions that a transform stage can apply.
#[derive(Clone, Copy, Debug, PartialEq, Eq)]
pub enum Function {
    /// Truncates an instant to the start of its hour.
    TRUNCATE,
}

/// An instant truncated to the start of its hour; other values unchanged.
pub open spec fn truncate_spec(v: Value) -> Value {
    match v {
        Value::Instant(t) => Value::Instant((t - t % HOUR_MILLIS) as u64),
        _ => v,
    }
}

/// Truncates an instant to the start of its hour.
pub fn truncate(v: &Value) -> (r: Value)
    ensures
        r == truncate_spec(*v),
{
    match v {
        Value::Instant(t) => Value::Instant(*t - *t % HOUR_MILLIS),
        _ => v.duplicate(),
    }
}

/// Each row's tuple extended by the truncation of its value at `k`.
pub open spec fn transform_rows(rs: Seq<Row>, k: int) -> Seq<Row> {
    rs.map_values(|x: Row| (x.0.push(truncate_spec(x.0[k])), x.1, x.2))
}

/// What transforming a relation with symbols `syms` and rows `rs`
/// yields: the symbols with `result_sym` appended, and each tuple with
/// the function's value of its first argument appended.
pub open spec fn transform_spec(vars: Seq<Var>, result_sym: Var, syms: Seq<Var>, rs: Seq<Row>) -> Result<
    (Seq<Var>, Seq<Row>),
    PlanError,
> {
    match offsets_of(syms, vars) {
        Err(v) => Err(PlanError::UnboundSymbol(v)),
        Ok(os) => if vars.len() == 0 {
            Err(PlanError::MissingArgument)
        } else if offset_of(syms, result_sym) is Some {
            Err(PlanError::DuplicateSymbol(result_sym))
        } else {
            Ok((syms.push(result_sym), transform_rows(rs, os[0] as int)))
        },
    }
}

/// A plan stage binding a new symbol to a function of bound ones.
#[derive(Debug)]
pub struct Transform {
    /// The function's arguments.
    pub variables: Vec<Var>,
    /// The symbol bound to the function's value.
    pub result_sym: Var,
    /// Plan for the data source.
    pub plan: Box<Plan>,
    /// The function to apply.
    pub function: Function,
}

impl Transform {
    /// Extends each tuple of `rel` by the function's value.
    pub fn apply(&self, rel: Relation) -> (r: Result<Relation, PlanError>)
        requires
            rel.wf(),
        ensures
            match (r, transform_spec(self.variables@, self.result_sym, rel.symbols@, rel.rows())) {
                (Ok(out), Ok((syms, rs))) => out.symbols@ == syms && out.rows() == rs && out.wf(),
                (Err(e1), Err(e2)) => e1 == e2,
                _ => false,
            },
    {
        let os = match positions(&rel.symbols, &self.variables) {
            Ok(os) => os,
            Err(v) => return Err(PlanError::UnboundSymbol(v)),
        };
        if self.variables.len() == 0 {
            return Err(PlanError::MissingArgument);
        }
        if position(&rel.symbols, self.result_sym).is_some() {
            return Err(PlanError::DuplicateSymbol(self.result_sym));
        }
        // The call bounds the symbol count by `usize::MAX` for the proof below.
        let _arity = rel.symbols.len();
        proof {
            crate::relation::lemma_offsets_of(rel.symbols@, self.variables@);
        }
        let k = os[0];
        let ghost rs = rel.rows();
        let mut out: Vec<Update> = Vec::with_capacity(rel.tuples.len());
        let mut i: usize = 0;
        while i < rel.tuples.len()
            invariant
                rel.wf(),
                rs == rel.rows(),
                k < rel.symbols@.len(),
                i <= rel.tuples@.len(),
                rows_of(out@) =~= transform_rows(rs, k as int).subrange(0, i as int),
            decreases rel.tuples@.len() - i,
        {
            let u = &rel.tuples[i];
            assert(rs[i as int] == u@);
            let mut t = copy_tuple(&u.tuple);
            let v = truncate(&u.tuple[k]);
            t.push(v);
            let ghost before = out@;
            out.push(Update { tuple: t, time: u.time, diff: u.diff });
            assert(rows_of(out@) =~= rows_of(before).push(transform_rows(rs, k as int)[i as int]));
            i = i + 1;
        }
        let mut symbols = rel.symbols;
        let ghost old_syms = symbols@;
        symbols.push(self.result_sym);
        proof {
            assert(symbols@ == old_syms.push(self.result_sym));
            assert forall|a: int, b: int|
                0 <= a < symbols@.len() && 0 <= b < symbols@.len() && a != b implies symbols@[a]
                != symbols@[b] by {
                if a < old_syms.len() && b < old_syms.len() {
                } else if a < old_syms.len() {
                    assert(symbols@[a] == old_syms[a]);
                } else {
                    assert(symbols@[b] == old_syms[b]);
                }
            }
            assert(transform_rows(rs, k as int).subrange(0, i as int) =~= transform_rows(rs, k as int));
            assert forall|j: int| 0 <= j < rows_of(out@).len() implies (#[trigger] rows_of(out@)[j]).0.len()
                == symbols@.len() by {
                assert(rs[j].0.len() == old_syms.len());
            }
        }
        Ok(Relation { symbols, tuples: out })
    }
}

} // verus!
