//! Projection expression plan.

use vstd::prelude::*;
use crate::value::{Value, Var, copy_tuple};
use crate::relation::{
    Relation, Row, Update, weight, offset_of, offsets_of, pick, rows_of, distinct,
};
use crate::plan::{Plan, PlanError};

verus! {

/// The first symbol of `vars` that repeats an earlier one, taking the
/// repetitions in the order in which they occur.
pub open spec fn first_duplicate(vars: Seq<Var>) -> Option<Var>
    decreases vars.len(),
{
    if vars.len() == 0 {
        None
    } else {
        match first_duplicate(vars.drop_last()) {
            Some(v) => Some(v),
            None => if vars.drop_last().contains(vars.last()) {
                Some(vars.last())
            } else {
                None
            },
        }
    }
}

/// Each row's tuple reduced to the values at `offsets`, times and
/// multiplicities kept.
pub open spec fn project_rows(rs: Seq<Row>, offsets: Seq<usize>) -> Seq<Row> {
    rs.map_values(|x: Row| (pick(x.0, offsets), x.1, x.2))
}

/// What projecting a relation with symbols `syms` and rows `rs` onto
/// `vars` yields: symbols `vars` and each tuple reduced to their values;
/// or the first unbound symbol of `vars`; or the first repeated one.
pub open spec fn project_spec(vars: Seq<Var>, syms: Seq<Var>, rs: Seq<Row>) -> Result<
    (Seq<Var>, Seq<Row>),
    PlanError,
> {
    match offsets_of(syms, vars) {
        Err(v) => Err(PlanError::UnboundSymbol(v)),
        Ok(os) => match first_duplicate(vars) {
            Some(v) => Err(PlanError::DuplicateSymbol(v)),
            None => Ok((vars, project_rows(rs, os))),
        },
    }
}

/// Sum of the multiplicities, up to time `at`, of the rows whose values
/// at `offsets` are `k`.
pub open spec fn agreeing_weight(rs: Seq<Row>, offsets: Seq<usize>, k: Seq<Value>, at: u64) -> int
    decreases rs.len(),
{
    if rs.len() == 0 {
        0
    } else {
        agreeing_weight(rs.drop_last(), offsets, k, at) + if pick(rs.last().0, offsets) == k
            && rs.last().1 <= at {
            rs.last().2
        } else {
            0
        }
    }
}

/// The net multiplicity of a projected tuple is the sum of the
/// multiplicities of all input rows that agree with it on the kept
/// columns.
pub proof fn lemma_project_weight(rs: Seq<Row>, offsets: Seq<usize>, k: Seq<Value>, at: u64)
    ensures
        weight(project_rows(rs, offsets), k, at) == agreeing_weight(rs, offsets, k, at),
    decreases rs.len(),
{
    if rs.len() > 0 {
        lemma_project_weight(rs.drop_last(), offsets, k, at);
        assert(project_rows(rs, offsets).drop_last() =~= project_rows(rs.drop_last(), offsets));
    }
}

proof fn lemma_offsets_self(syms: Seq<Var>, m: int)
    requires
        distinct(syms),
        syms.len() <= usize::MAX,
        0 <= m <= syms.len(),
    ensures
        offsets_of(syms, syms.subrange(0, m)) == Ok::<Seq<usize>, Var>(Seq::new(m as nat, |i: int| i as usize)),
    decreases m,
{
    if m == 0 {
        assert(syms.subrange(0, m) =~= Seq::<Var>::empty());
        assert(Seq::new(m as nat, |i: int| i as usize) =~= Seq::<usize>::empty());
    } else {
        let w = syms.subrange(0, m);
        assert(w.drop_last() =~= syms.subrange(0, m - 1));
        lemma_offsets_self(syms, m - 1);
        lemma_offset_first(syms, m - 1);
        assert(w.last() == syms[m - 1]);
        assert(Seq::new((m - 1) as nat, |i: int| i as usize).push((m - 1) as usize) =~= Seq::new(
            m as nat,
            |i: int| i as usize,
        ));
    }
}

proof fn lemma_offset_first(syms: Seq<Var>, i: int)
    requires
        distinct(syms),
        0 <= i < syms.len(),
    ensures
        offset_of(syms, syms[i]) == Some(i as nat),
    decreases i,
{
    if i > 0 {
        assert(syms[0] != syms[i]);
        let d = syms.drop_first();
        assert(distinct(d)) by {
            assert forall|a: int, b: int|
                0 <= a < d.len() && 0 <= b < d.len() && a != b implies d[a] != d[b] by {
                assert(d[a] == syms[a + 1] && d[b] == syms[b + 1]);
            }
        }
        assert(d[i - 1] == syms[i]);
        lemma_offset_first(d, i - 1);
    }
}

proof fn lemma_no_duplicate(vars: Seq<Var>)
    requires
        distinct(vars),
    ensures
        first_duplicate(vars) is None,
    decreases vars.len(),
{
    if vars.len() > 0 {
        let d = vars.drop_last();
        assert(distinct(d)) by {
            assert forall|a: int, b: int|
                0 <= a < d.len() && 0 <= b < d.len() && a != b implies d[a] != d[b] by {
                assert(d[a] == vars[a] && d[b] == vars[b]);
            }
        }
        lemma_no_duplicate(d);
        if d.contains(vars.last()) {
            let j = choose|j: int| 0 <= j < d.len() && d[j] == vars.last();
            assert(vars[j] == vars[vars.len() - 1]);
        }
    }
}

proof fn lemma_first_duplicate_prefix(vars: Seq<Var>, m: int)
    requires
        0 <= m <= vars.len(),
        first_duplicate(vars.subrange(0, m)) is Some,
    ensures
        first_duplicate(vars) == first_duplicate(vars.subrange(0, m)),
    decreases vars.len(),
{
    if m < vars.len() {
        assert(vars.drop_last().subrange(0, m) =~= vars.subrange(0, m));
        lemma_first_duplicate_prefix(vars.drop_last(), m);
    } else {
        assert(vars.subrange(0, m) =~= vars);
    }
}

/// A list without a repeated symbol has distinct symbols.
pub proof fn lemma_first_duplicate_none(vars: Seq<Var>)
    requires
        first_duplicate(vars) is None,
    ensures
        distinct(vars),
    decreases vars.len(),
{
    if vars.len() > 0 {
        let d = vars.drop_last();
        lemma_first_duplicate_none(d);
        assert forall|a: int, b: int|
            0 <= a < vars.len() && 0 <= b < vars.len() && a != b implies vars[a] != vars[b] by {
            if a < d.len() && b < d.len() {
                assert(d[a] == vars[a] && d[b] == vars[b]);
            } else if a < d.len() {
                assert(d[a] == vars[a]);
                assert(!d.contains(vars.last()));
            } else {
                assert(d[b] == vars[b]);
                assert(!d.contains(vars.last()));
            }
        }
    }
}

/// Projecting a well-formed relation with at least one symbol onto all
/// of its symbols, in its own order, gives it back unchanged.
pub proof fn lemma_project_identity(syms: Seq<Var>, rs: Seq<Row>)
    requires
        distinct(syms),
        syms.len() <= usize::MAX,
        forall|i: int| 0 <= i < rs.len() ==> (#[trigger] rs[i]).0.len() == syms.len(),
    ensures
        project_spec(syms, syms, rs) == Ok::<(Seq<Var>, Seq<Row>), PlanError>((syms, rs)),
{
    lemma_offsets_self(syms, syms.len() as int);
    assert(syms.subrange(0, syms.len() as int) =~= syms);
    lemma_no_duplicate(syms);
    let os = Seq::new(syms.len(), |i: int| i as usize);
    assert forall|i: int| 0 <= i < rs.len() implies #[trigger] pick(rs[i].0, os) == rs[i].0 by {
        assert(pick(rs[i].0, os) =~= rs[i].0);
    }
    assert(project_rows(rs, os) =~= rs);
}

/// A plan stage projecting its source to only the specified sequence
/// of symbols. Frontends are responsible for ensuring that the source
/// binds all requested symbols.
#[derive(Debug)]
pub struct Project {
    /// The symbols to keep, in the order of the result.
    pub variables: Vec<Var>,
    /// Plan for the data source.
    pub plan: Box<Plan>,
}

/// The first symbol of `vars` that repeats an earlier one.
pub fn find_duplicate(vars: &Vec<Var>) -> (r: Option<Var>)
    ensures
        r == first_duplicate(vars@),
{
    let mut j: usize = 0;
    while j < vars.len()
        invariant
            j <= vars@.len(),
            first_duplicate(vars@.subrange(0, j as int)) is None,
        decreases vars@.len() - j,
    {
        let ghost w = vars@.subrange(0, j + 1);
        assert(w.drop_last() =~= vars@.subrange(0, j as int));
        let mut i: usize = 0;
        while i < j
            invariant
                i <= j < vars@.len(),
                w == vars@.subrange(0, j + 1),
                first_duplicate(vars@.subrange(0, j as int)) is None,
                forall|k: int| 0 <= k < i ==> vars@[k] != vars@[j as int],
            decreases j - i,
        {
            if vars[i] == vars[j] {
                proof {
                    assert(w.drop_last() =~= vars@.subrange(0, j as int));
                    assert(w.drop_last()[i as int] == vars@[i as int]);
                    assert(w.drop_last().contains(w.last()));
                    lemma_first_duplicate_prefix(vars@, j + 1);
                }
                return Some(vars[j]);
            }
            i = i + 1;
        }
        proof {
            if w.drop_last().contains(w.last()) {
                let k = choose|k: int| 0 <= k < w.drop_last().len() && w.drop_last()[k] == w.last();
                assert(vars@[k] == vars@[j as int]);
            }
        }
        j = j + 1;
    }
    assert(vars@.subrange(0, j as int) =~= vars@);
    None
}

impl Project {
    /// Reduces `rel` to the columns of `variables`, in that order,
    /// keeping times and multiplicities.
    pub fn reshape(&self, rel: Relation) -> (r: Result<Relation, PlanError>)
        requires
            rel.wf(),
        ensures
            match (r, project_spec(self.variables@, rel.symbols@, rel.rows())) {
                (Ok(out), Ok((syms, rs))) => out.symbols@ == syms && out.rows() == rs && out.wf(),
                (Err(e1), Err(e2)) => e1 == e2,
                _ => false,
            },
    {
        let keyed = match rel.tuples_by_symbols(&self.variables) {
            Ok(k) => k,
            Err(v) => return Err(PlanError::UnboundSymbol(v)),
        };
        if let Some(v) = find_duplicate(&self.variables) {
            return Err(PlanError::DuplicateSymbol(v));
        }
        // The call bounds the symbol count by `usize::MAX` for the proof below.
        let _arity = rel.symbols.len();
        let mut out: Vec<Update> = Vec::with_capacity(keyed.len());
        let mut i: usize = 0;
        while i < keyed.len()
            invariant
                i <= keyed@.len(),
                keyed@.len() == rel.tuples@.len(),
                offsets_of(rel.symbols@, self.variables@) is Ok,
                forall|j: int|
                    0 <= j < keyed@.len() ==> (#[trigger] keyed@[j]).0@ == pick(
                        rel.tuples@[j].tuple@,
                        offsets_of(rel.symbols@, self.variables@).unwrap(),
                    ) && keyed@[j].1@ == rel.tuples@[j]@,
                rows_of(out@) =~= project_rows(
                    rel.rows(),
                    offsets_of(rel.symbols@, self.variables@).unwrap(),
                ).subrange(0, i as int),
            decreases keyed@.len() - i,
        {
            let (key, u) = &keyed[i];
            let ghost before = out@;
            out.push(Update { tuple: copy_tuple(key), time: u.time, diff: u.diff });
            assert(rows_of(out@) =~= rows_of(before).push((key@, u.time, u.diff as int)));
            i = i + 1;
        }
        proof {
            lemma_first_duplicate_none(self.variables@);
            let os = offsets_of(rel.symbols@, self.variables@).unwrap();
            crate::relation::lemma_offsets_of(rel.symbols@, self.variables@);
            assert(project_rows(rel.rows(), os).subrange(0, i as int) =~= project_rows(rel.rows(), os));
            assert forall|j: int| 0 <= j < rows_of(out@).len() implies (#[trigger] rows_of(out@)[j]).0.len()
                == self.variables@.len() by {
                assert(rows_of(out@)[j] == project_rows(rel.rows(), os)[j]);
            }
        }
        let symbols = self.variables.clone();
        assert(symbols@ =~= self.variables@);
        Ok(Relation { symbols, tuples: out })
    }
}

} // verus!
