//! Pull expression plan, but without nesting.

use vstd::prelude::*;
use crate::value::{Attribute, Value, Var, value_eq, copy_tuple};
use crate::relation::{Relation, Row, Update, rows_of};
use crate::plan::{
    AttributeIndex, GlobalArrangements, LocalArrangements, NamedRelation, Plan, PlanError, index_rows,
    eval_level, eval_levels,
};

verus! {

/// `values` with the labels of `constants` woven in: values at even
/// positions, labels at odd ones, in order, and what is left of the
/// longer of the two at the end. When either is empty, `values` alone.
pub open spec fn interleave_spec(values: Seq<Value>, constants: Seq<Attribute>) -> Seq<Value> {
    if values.len() == 0 || constants.len() == 0 {
        values
    } else {
        let m = if values.len() < constants.len() {
            values.len() as int
        } else {
            constants.len() as int
        };
        Seq::new(
            values.len() + constants.len(),
            |i: int|
                if i < 2 * m {
                    if i % 2 == 0 {
                        values[i / 2]
                    } else {
                        Value::Attribute(constants[i / 2])
                    }
                } else if values.len() > constants.len() {
                    values[i - m]
                } else {
                    Value::Attribute(constants[i - m])
                },
        )
    }
}

/// Interleaving is the identity when either side is empty; otherwise its
/// result is as long as both together, with the values at the even
/// positions and the labels at the odd ones, in order, for as long as
/// both last.
pub proof fn lemma_interleave(values: Seq<Value>, constants: Seq<Attribute>)
    ensures
        interleave_spec(Seq::empty(), constants) == Seq::<Value>::empty(),
        interleave_spec(values, Seq::empty()) == values,
        values.len() > 0 && constants.len() > 0 ==> {
            let r = interleave_spec(values, constants);
            &&& r.len() == values.len() + constants.len()
            &&& forall|k: int|
                0 <= k < values.len() && k < constants.len() ==> r[2 * k] == values[k] && r[2 * k
                    + 1] == Value::Attribute(constants[k])
        },
{
    if values.len() > 0 && constants.len() > 0 {
        let r = interleave_spec(values, constants);
        assert forall|k: int| 0 <= k < values.len() && k < constants.len() implies r[2 * k]
            == values[k] && r[2 * k + 1] == Value::Attribute(constants[k]) by {
            assert((2 * k) / 2 == k && (2 * k) % 2 == 0);
            assert((2 * k + 1) / 2 == k && (2 * k + 1) % 2 == 1);
        }
    }
}

/// Weaves the labels of `constants` into `values`, as `interleave_spec`
/// says.
pub fn interleave(values: &Vec<Value>, constants: &Vec<Attribute>) -> (r: Vec<Value>)
    ensures
        r@ == interleave_spec(values@, constants@),
{
    if values.len() == 0 || constants.len() == 0 {
        return copy_tuple(values);
    }
    let m: usize = if values.len() < constants.len() {
        values.len()
    } else {
        constants.len()
    };
    let ghost target = interleave_spec(values@, constants@);
    let mut result: Vec<Value> = Vec::new();
    let mut k: usize = 0;
    while k < m
        invariant
            m <= values@.len(),
            m <= constants@.len(),
            m == values@.len() || m == constants@.len(),
            values@.len() > 0 && constants@.len() > 0,
            target == interleave_spec(values@, constants@),
            k <= m,
            result@.len() == 2 * k,
            forall|i: int| 0 <= i < 2 * k ==> result@[i] == #[trigger] target[i],
        decreases m - k,
    {
        assert((2 * k as int) / 2 == k && (2 * k as int) % 2 == 0);
        assert((2 * k as int + 1) / 2 == k && (2 * k as int + 1) % 2 == 1);
        result.push(values[k].duplicate());
        result.push(Value::Attribute(constants[k].clone()));
        k = k + 1;
    }
    let mut j: usize = m;
    while j < values.len()
        invariant
            m <= values@.len(),
            m <= constants@.len(),
            m == values@.len() || m == constants@.len(),
            values@.len() > 0 && constants@.len() > 0,
            target == interleave_spec(values@, constants@),
            m <= j <= values@.len(),
            result@.len() == m + j,
            forall|i: int| 0 <= i < m + j ==> result@[i] == #[trigger] target[i],
        decreases values@.len() - j,
    {
        result.push(values[j].duplicate());
        j = j + 1;
    }
    let mut j: usize = m;
    while j < constants.len()
        invariant
            m <= values@.len(),
            m <= constants@.len(),
            m == values@.len() || m == constants@.len(),
            values@.len() > 0 && constants@.len() > 0,
            target == interleave_spec(values@, constants@),
            m <= j <= constants@.len(),
            result@.len() == values@.len() + j,
            forall|i: int| 0 <= i < values@.len() + j ==> result@[i] == #[trigger] target[i],
        decreases constants@.len() - j,
    {
        result.push(Value::Attribute(constants[j].clone()));
        j = j + 1;
    }
    assert(result@ =~= target);
    result
}

/// One result tuple: the interleaved path, the attribute, the value.
pub open spec fn pull_tuple(path: Seq<Value>, pa: Seq<Attribute>, a: Attribute, v: Value) -> Seq<
    Value,
> {
    interleave_spec(path, pa).push(Value::Attribute(a)).push(v)
}

/// The later of two times.
pub open spec fn max_time(a: u64, b: u64) -> u64 {
    if a < b {
        b
    } else {
        a
    }
}

/// Whether index row `u` is about the entity that ends path row `x`.
pub open spec fn joins(x: Row, u: Row) -> bool {
    x.0.len() > 0 && u.0.len() == 2 && value_eq(x.0.last(), u.0[0])
}

/// The rows that path row `x` yields against index rows `ix` for
/// attribute `a`: one per matching index row, in order, at the later of
/// the two times, with the product of the multiplicities.
pub open spec fn join_one(x: Row, ix: Seq<Row>, pa: Seq<Attribute>, a: Attribute) -> Seq<Row>
    decreases ix.len(),
{
    if ix.len() == 0 {
        Seq::empty()
    } else {
        let prev = join_one(x, ix.drop_last(), pa, a);
        let u = ix.last();
        if joins(x, u) {
            prev.push((pull_tuple(x.0, pa, a, u.0[1]), max_time(x.1, u.1), x.2 * u.2))
        } else {
            prev
        }
    }
}

/// The rows that all path rows `rs` yield against `ix`, path by path.
pub open spec fn join_rows(rs: Seq<Row>, ix: Seq<Row>, pa: Seq<Attribute>, a: Attribute) -> Seq<
    Row,
>
    decreases rs.len(),
{
    if rs.len() == 0 {
        Seq::empty()
    } else {
        join_rows(rs.drop_last(), ix, pa, a) + join_one(rs.last(), ix, pa, a)
    }
}

/// The rows yielded for each attribute of `attrs` against its index in
/// `ixs`, attribute by attribute.
pub open spec fn pull_rows(
    rs: Seq<Row>,
    ixs: Seq<Seq<Row>>,
    pa: Seq<Attribute>,
    attrs: Seq<Attribute>,
) -> Seq<Row>
    decreases attrs.len(),
{
    if attrs.len() == 0 || ixs.len() == 0 {
        Seq::empty()
    } else {
        pull_rows(rs, ixs.drop_last(), pa, attrs.drop_last()) + join_rows(
            rs,
            ixs.last(),
            pa,
            attrs.last(),
        )
    }
}

/// The index rows of each of `attrs`, or the first that has no index.
pub open spec fn resolve(g: Seq<AttributeIndex>, attrs: Seq<Attribute>) -> Result<
    Seq<Seq<Row>>,
    PlanError,
>
    decreases attrs.len(),
{
    if attrs.len() == 0 {
        Ok(Seq::empty())
    } else {
        match resolve(g, attrs.drop_last()) {
            Err(e) => Err(e),
            Ok(ixs) => match index_rows(g, attrs.last()@) {
                Some(ix) => Ok(ixs.push(ix)),
                None => Err(PlanError::UnknownAttribute(attrs.last())),
            },
        }
    }
}

/// The product of the multiplicities of a joining pair leaves `i64`.
pub open spec fn overflows(x: Row, u: Row) -> bool {
    joins(x, u) && !(i64::MIN <= x.2 * u.2 <= i64::MAX)
}

/// Some path row and some row of one of the indexes join with a product
/// of multiplicities outside `i64`.
pub open spec fn any_overflow(rs: Seq<Row>, ixs: Seq<Seq<Row>>) -> bool {
    exists|k: int, i: int, j: int|
        0 <= k < ixs.len() && 0 <= i < rs.len() && 0 <= j < ixs[k].len() && #[trigger] overflows(
            rs[i],
            ixs[k][j],
        )
}

/// What a pull level yields for input symbols `syms` and rows `rs`.
/// With no attributes to pull the input passes through, with its paths
/// interleaved with the path labels when there are any. Otherwise each
/// attribute is resolved, then joined. Pull results carry no symbols:
/// their rows are positional.
pub open spec fn level_spec(
    pull_attributes: Seq<Attribute>,
    path_attributes: Seq<Attribute>,
    syms: Seq<Var>,
    rs: Seq<Row>,
    g: Seq<AttributeIndex>,
) -> Result<(Seq<Var>, Seq<Row>), PlanError> {
    if pull_attributes.len() == 0 {
        if path_attributes.len() == 0 {
            Ok((syms, rs))
        } else {
            Ok(
                (
                    Seq::empty(),
                    rs.map_values(|x: Row| (interleave_spec(x.0, path_attributes), x.1, x.2)),
                ),
            )
        }
    } else {
        match resolve(g, pull_attributes) {
            Err(e) => Err(e),
            Ok(ixs) => if any_overflow(rs, ixs) {
                Err(PlanError::Overflow)
            } else {
                Ok((Seq::empty(), pull_rows(rs, ixs, path_attributes, pull_attributes)))
            },
        }
    }
}

/// A plan stage for extracting all matching [e a v] tuples for a
/// given set of attributes and an input relation specifying entities.
#[derive(Debug)]
pub struct PullLevel {
    /// Symbols labelling the path columns.
    pub variables: Vec<Var>,
    /// Plan for the input relation.
    pub plan: Box<Plan>,
    /// Attributes to pull for the input entities.
    pub pull_attributes: Vec<Attribute>,
    /// Attribute names to distinguish plans of the same
    /// length. Useful to feed into a nested hash-map directly.
    pub path_attributes: Vec<Attribute>,
}

/// The indexes of each of `attrs`, in order, or the first that has none.
fn resolve_indexes<'g>(g: &'g GlobalArrangements, attrs: &Vec<Attribute>) -> (r: Result<
    Vec<&'g AttributeIndex>,
    PlanError,
>)
    requires
        g.wf(),
    ensures
        match (r, resolve(g.indexes@, attrs@)) {
            (Ok(ixs), Ok(rows)) => ixs@.len() == rows.len() && forall|k: int|
                0 <= k < rows.len() ==> rows_of((#[trigger] ixs@[k]).updates@) == rows[k]
                    && ixs@[k].wf(),
            (Err(e1), Err(e2)) => e1 == e2,
            _ => false,
        },
{
    let mut ixs: Vec<&'g AttributeIndex> = Vec::new();
    let ghost mut rows: Seq<Seq<Row>> = Seq::empty();
    let mut i: usize = 0;
    assert(attrs@.subrange(0, 0) =~= Seq::<Attribute>::empty());
    while i < attrs.len()
        invariant
            g.wf(),
            i <= attrs@.len(),
            resolve(g.indexes@, attrs@.subrange(0, i as int)) == Ok::<Seq<Seq<Row>>, PlanError>(
                rows,
            ),
            ixs@.len() == i,
            rows.len() == i,
            forall|k: int|
                0 <= k < i ==> rows_of((#[trigger] ixs@[k]).updates@) == rows[k] && ixs@[k].wf(),
        decreases attrs@.len() - i,
    {
        let ghost w = attrs@.subrange(0, i + 1);
        assert(w.drop_last() =~= attrs@.subrange(0, i as int));
        match g.lookup(&attrs[i]) {
            Some(ix) => {
                ixs.push(ix);
                proof {
                    rows = rows.push(rows_of(ix.updates@));
                }
            },
            None => {
                proof {
                    lemma_resolve_err(g.indexes@, attrs@, i as int);
                }
                return Err(PlanError::UnknownAttribute(attrs[i].clone()));
            },
        }
        i = i + 1;
    }
    assert(attrs@.subrange(0, i as int) =~= attrs@);
    Ok(ixs)
}

proof fn lemma_resolve_len(g: Seq<AttributeIndex>, attrs: Seq<Attribute>)
    ensures
        resolve(g, attrs) matches Ok(rows) ==> rows.len() == attrs.len(),
    decreases attrs.len(),
{
    if attrs.len() > 0 {
        lemma_resolve_len(g, attrs.drop_last());
    }
}

proof fn lemma_resolve_err(g: Seq<AttributeIndex>, attrs: Seq<Attribute>, i: int)
    requires
        0 <= i < attrs.len(),
        index_rows(g, attrs[i]@) is None,
        resolve(g, attrs.subrange(0, i)) is Ok,
    ensures
        resolve(g, attrs) == Err::<Seq<Seq<Row>>, PlanError>(PlanError::UnknownAttribute(attrs[i])),
    decreases attrs.len(),
{
    if i < attrs.len() - 1 {
        assert(attrs.drop_last().subrange(0, i) =~= attrs.subrange(0, i));
        lemma_resolve_err(g, attrs.drop_last(), i);
    } else {
        assert(attrs.drop_last() =~= attrs.subrange(0, i));
    }
}

/// The result row for path update `x`, attribute `a` and index update `u`.
fn pull_update(x: &Update, pa: &Vec<Attribute>, a: &Attribute, u: &Update, diff: i64) -> (r: Update)
    requires
        u.tuple@.len() == 2,
        diff == x.diff * u.diff,
    ensures
        r@ == (pull_tuple(x.tuple@, pa@, *a, u.tuple@[1]), max_time(x.time, u.time), x@.2 * u@.2),
{
    let mut t = interleave(&x.tuple, pa);
    t.push(Value::Attribute(a.clone()));
    t.push(u.tuple[1].duplicate());
    let time = if x.time < u.time {
        u.time
    } else {
        x.time
    };
    Update { tuple: t, time, diff }
}

/// Joins every path update of `paths` with every update of `ix` about
/// the same entity, appending the results to `out`.
fn join_into(
    out: &mut Vec<Update>,
    paths: &Vec<Update>,
    ix: &AttributeIndex,
    pa: &Vec<Attribute>,
    a: &Attribute,
) -> (ok: bool)
    ensures
        ok ==> rows_of(final(out)@) == rows_of(old(out)@) + join_rows(
            rows_of(paths@),
            rows_of(ix.updates@),
            pa@,
            *a,
        ),
        ok == !exists|i: int, j: int|
            0 <= i < paths@.len() && 0 <= j < ix.updates@.len() && #[trigger] overflows(
                rows_of(paths@)[i],
                rows_of(ix.updates@)[j],
            ),
{
    let ghost rs = rows_of(paths@);
    let ghost ixr = rows_of(ix.updates@);
    let ghost start = rows_of(out@);
    let mut pi: usize = 0;
    while pi < paths.len()
        invariant
            rs == rows_of(paths@),
            ixr == rows_of(ix.updates@),
            pi <= paths@.len(),
            rows_of(out@) == start + join_rows(rs.subrange(0, pi as int), ixr, pa@, *a),
            forall|i: int, j: int|
                0 <= i < pi && 0 <= j < ixr.len() ==> !#[trigger] overflows(rs[i], ixr[j]),
        decreases paths@.len() - pi,
    {
        let x = &paths[pi];
        assert(rs[pi as int] == x@);
        let ghost before = rows_of(out@);
        let mut ui: usize = 0;
        while ui < ix.updates.len()
            invariant
                rs == rows_of(paths@),
                ixr == rows_of(ix.updates@),
                pi < paths@.len(),
                x == paths@[pi as int],
                ui <= ix.updates@.len(),
                rows_of(out@) == before + join_one(x@, ixr.subrange(0, ui as int), pa@, *a),
                forall|j: int| 0 <= j < ui ==> !#[trigger] overflows(x@, ixr[j]),
            decreases ix.updates@.len() - ui,
        {
            let u = &ix.updates[ui];
            assert(ixr[ui as int] == u@);
            let ghost w = ixr.subrange(0, ui + 1);
            assert(w.drop_last() =~= ixr.subrange(0, ui as int));
            let n = x.tuple.len();
            if n > 0 && u.tuple.len() == 2 && x.tuple[n - 1].compare(&u.tuple[0]) == 0 {
                assert(x@.0.last() == x.tuple@[n - 1]);
                match x.diff.checked_mul(u.diff) {
                    Some(d) => {
                        let ghost mid = out@;
                        out.push(pull_update(x, pa, a, u, d));
                        assert(rows_of(out@) =~= rows_of(mid).push(
                            (pull_tuple(x@.0, pa@, *a, u@.0[1]), max_time(x.time, u.time), x@.2 * u@.2),
                        ));
                    },
                    None => {
                        assert(overflows(rs[pi as int], ixr[ui as int]));
                        return false;
                    },
                }
            }
            ui = ui + 1;
        }
        assert(ixr.subrange(0, ui as int) =~= ixr);
        assert(rs.subrange(0, pi + 1).drop_last() =~= rs.subrange(0, pi as int));
        assert(rows_of(out@) =~= start + join_rows(rs.subrange(0, pi + 1), ixr, pa@, *a));
        pi = pi + 1;
    }
    assert(rs.subrange(0, pi as int) =~= rs);
    true
}

impl PullLevel {
    /// Expands the path relation `input`: each path joined, for every
    /// pull attribute in turn, with that attribute's index on the entity
    /// that ends it.
    pub fn expand(&self, input: Relation, global: &GlobalArrangements) -> (r: Result<
        Relation,
        PlanError,
    >)
        requires
            input.wf(),
            global.wf(),
        ensures
            match (
                r,
                level_spec(
                    self.pull_attributes@,
                    self.path_attributes@,
                    input.symbols@,
                    input.rows(),
                    global.indexes@,
                ),
            ) {
                (Ok(out), Ok((syms, rs))) => out.symbols@ == syms && out.rows() == rs && out.wf(),
                (Err(e1), Err(e2)) => e1 == e2,
                _ => false,
            },
    {
        let ghost rs = input.rows();
        if self.pull_attributes.len() == 0 {
            if self.path_attributes.len() == 0 {
                return Ok(input);
            }
            let mut out: Vec<Update> = Vec::with_capacity(input.tuples.len());
            let mut i: usize = 0;
            while i < input.tuples.len()
                invariant
                    rs == input.rows(),
                    i <= input.tuples@.len(),
                    rows_of(out@) =~= rs.map_values(
                        |x: Row| (interleave_spec(x.0, self.path_attributes@), x.1, x.2),
                    ).subrange(0, i as int),
                decreases input.tuples@.len() - i,
            {
                let u = &input.tuples[i];
                assert(rs[i as int] == u@);
                let ghost before = out@;
                out.push(
                    Update { tuple: interleave(&u.tuple, &self.path_attributes), time: u.time, diff: u.diff },
                );
                assert(rows_of(out@) =~= rows_of(before).push(
                    (interleave_spec(u@.0, self.path_attributes@), u.time, u@.2),
                ));
                i = i + 1;
            }
            return Ok(Relation { symbols: Vec::new(), tuples: out });
        }
        let ixs = resolve_indexes(global, &self.pull_attributes)?;
        let ghost rows = resolve(global.indexes@, self.pull_attributes@).unwrap();
        proof {
            lemma_resolve_len(global.indexes@, self.pull_attributes@);
        }
        let attrs = &self.pull_attributes;
        let mut out: Vec<Update> = Vec::new();
        let mut ai: usize = 0;
        while ai < attrs.len()
            invariant
                rs == input.rows(),
                resolve(global.indexes@, attrs@) == Ok::<Seq<Seq<Row>>, PlanError>(rows),
                attrs@.len() > 0,
                attrs == &self.pull_attributes,
                ixs@.len() == rows.len(),
                rows.len() == attrs@.len(),
                forall|k: int| 0 <= k < rows.len() ==> rows_of((#[trigger] ixs@[k]).updates@) == rows[k],
                ai <= attrs@.len(),
                rows_of(out@) == pull_rows(
                    rs,
                    rows.subrange(0, ai as int),
                    self.path_attributes@,
                    attrs@.subrange(0, ai as int),
                ),
                forall|k: int, i: int, j: int|
                    0 <= k < ai && 0 <= i < rs.len() && 0 <= j < rows[k].len() ==> !#[trigger] overflows(
                        rs[i],
                        rows[k][j],
                    ),
            decreases attrs@.len() - ai,
        {
            let ok = join_into(&mut out, &input.tuples, ixs[ai], &self.path_attributes, &attrs[ai]);
            assert(rows_of(ixs@[ai as int].updates@) == rows[ai as int]);
            if !ok {
                proof {
                    let (i, j) = choose|i: int, j: int|
                        0 <= i < input.tuples@.len() && 0 <= j < ixs@[ai as int].updates@.len()
                            && #[trigger] overflows(
                            rows_of(input.tuples@)[i],
                            rows_of(ixs@[ai as int].updates@)[j],
                        );
                    assert(rows[ai as int].len() == ixs@[ai as int].updates@.len());
                    assert(rs.len() == input.tuples@.len());
                    assert(overflows(rs[i], rows[ai as int][j]));
                    assert(any_overflow(rs, rows));
                }
                return Err(PlanError::Overflow);
            }
            assert(rows.subrange(0, ai + 1).drop_last() =~= rows.subrange(0, ai as int));
            assert(attrs@.subrange(0, ai + 1).drop_last() =~= attrs@.subrange(0, ai as int));
            ai = ai + 1;
        }
        assert(rows.subrange(0, ai as int) =~= rows);
        assert(attrs@.subrange(0, ai as int) =~= attrs@);
        Ok(Relation { symbols: Vec::new(), tuples: out })
    }
}

impl PullLevel {
    /// Compiles the path plan, then expands it.
    pub fn implement(&self, global: &GlobalArrangements, local: &LocalArrangements) -> (r: Result<
        Relation,
        PlanError,
    >)
        requires
            global.wf(),
            local.wf(),
        ensures
            match (r, eval_level(*self, global.indexes@, local.relations@)) {
                (Ok(out), Ok((syms, rs))) => out.symbols@ == syms && out.rows() == rs && out.wf(),
                (Err(e1), Err(e2)) => e1 == e2,
                _ => false,
            },
        decreases self,
    {
        let input = self.plan.implement(global, local)?;
        self.expand(input, global)
    }
}

/// A plan stage for pull queries split into individual paths. So
/// `[:parent/name {:parent/child [:child/name]}]` would be
/// represented as:
///
/// (?parent)                      <- [:parent/name] | no constraints
/// (?parent :parent/child ?child) <- [:child/name]  | [?parent :parent/child ?child]
#[derive(Debug)]
pub struct Pull {
    /// Individual paths to pull.
    pub paths: Vec<PullLevel>,
}

impl Pull {
    /// Compiles every path and concatenates their rows, in order, into
    /// one positional relation.
    pub fn implement(&self, global: &GlobalArrangements, local: &LocalArrangements) -> (r: Result<
        Relation,
        PlanError,
    >)
        requires
            global.wf(),
            local.wf(),
        ensures
            match (r, eval_levels(self.paths@, global.indexes@, local.relations@)) {
                (Ok(out), Ok(rs)) => out.symbols@.len() == 0 && out.rows() == rs && out.wf(),
                (Err(e1), Err(e2)) => e1 == e2,
                _ => false,
            },
        decreases self,
    {
        let mut out: Vec<Update> = Vec::new();
        let mut i: usize = 0;
        assert(self.paths@.subrange(0, 0) =~= Seq::<PullLevel>::empty());
        assert(rows_of(out@) =~= Seq::<Row>::empty());
        while i < self.paths.len()
            invariant
                global.wf(),
                local.wf(),
                i <= self.paths@.len(),
                eval_levels(self.paths@.subrange(0, i as int), global.indexes@, local.relations@) == Ok::<
                    Seq<Row>,
                    PlanError,
                >(rows_of(out@)),
            decreases self.paths@.len() - i,
        {
            let ghost w = self.paths@.subrange(0, i + 1);
            assert(w.drop_last() =~= self.paths@.subrange(0, i as int));
            assert(w.last() == self.paths@[i as int]);
            let rel = match self.paths[i].implement(global, local) {
                Ok(rel) => rel,
                Err(e) => {
                    proof {
                        lemma_levels_err(self.paths@, i as int, global.indexes@, local.relations@);
                    }
                    return Err(e);
                },
            };
            let mut tuples = rel.tuples;
            let ghost before = out@;
            out.append(&mut tuples);
            assert(rows_of(out@) =~= rows_of(before) + rel.rows());
            i = i + 1;
        }
        assert(self.paths@.subrange(0, i as int) =~= self.paths@);
        Ok(Relation { symbols: Vec::new(), tuples: out })
    }
}

proof fn lemma_levels_err(ls: Seq<PullLevel>, i: int, g: Seq<AttributeIndex>, loc: Seq<NamedRelation>)
    requires
        0 <= i < ls.len(),
        eval_levels(ls.subrange(0, i), g, loc) is Ok,
        eval_level(ls[i], g, loc) is Err,
    ensures
        eval_levels(ls, g, loc) == Err::<Seq<Row>, PlanError>(eval_level(ls[i], g, loc)->Err_0),
    decreases ls.len(),
{
    if i < ls.len() - 1 {
        assert(ls.drop_last().subrange(0, i) =~= ls.subrange(0, i));
        lemma_levels_err(ls.drop_last(), i, g, loc);
    } else {
        assert(ls.drop_last() =~= ls.subrange(0, i));
    }
}

/// Number of index rows about entity `e`.
pub open spec fn entity_count(ix: Seq<Row>, e: Value) -> nat
    decreases ix.len(),
{
    if ix.len() == 0 {
        0
    } else {
        entity_count(ix.drop_last(), e) + if ix.last().0.len() == 2 && value_eq(e, ix.last().0[0]) {
            1nat
        } else {
            0nat
        }
    }
}

proof fn lemma_value_eq_trans(a: Value, b: Value, c: Value)
    requires
        value_eq(a, b),
    ensures
        value_eq(a, c) == value_eq(b, c),
{
    crate::value::lemma_value_eq(a, b);
    crate::value::lemma_value_eq(a, c);
    crate::value::lemma_value_eq(b, c);
}

proof fn lemma_join_one_len(x: Row, ix: Seq<Row>, pa: Seq<Attribute>, a: Attribute, e: Value)
    requires
        x.0.len() > 0,
        value_eq(x.0.last(), e),
    ensures
        join_one(x, ix, pa, a).len() == entity_count(ix, e),
    decreases ix.len(),
{
    if ix.len() > 0 {
        lemma_join_one_len(x, ix.drop_last(), pa, a, e);
        if ix.last().0.len() == 2 {
            lemma_value_eq_trans(x.0.last(), e, ix.last().0[0]);
        }
    }
}

/// The rows of a concatenation of path logs are the rows of each, in
/// order: path rows never interfere.
pub proof fn lemma_join_rows_concat(
    rs1: Seq<Row>,
    rs2: Seq<Row>,
    ix: Seq<Row>,
    pa: Seq<Attribute>,
    a: Attribute,
)
    ensures
        join_rows(rs1 + rs2, ix, pa, a) == join_rows(rs1, ix, pa, a) + join_rows(rs2, ix, pa, a),
    decreases rs2.len(),
{
    if rs2.len() == 0 {
        assert(rs1 + rs2 =~= rs1);
        assert(join_rows(rs1, ix, pa, a) + join_rows(rs2, ix, pa, a) =~= join_rows(rs1, ix, pa, a));
    } else {
        assert((rs1 + rs2).drop_last() =~= rs1 + rs2.drop_last());
        lemma_join_rows_concat(rs1, rs2.drop_last(), ix, pa, a);
        assert(join_rows(rs1 + rs2, ix, pa, a) =~= join_rows(rs1, ix, pa, a) + join_rows(rs2, ix, pa, a));
    }
}

/// When `k` path rows all end in entity `e`, and the index of an
/// attribute holds `j` rows about `e`, the level yields `k * j` rows for
/// that attribute.
pub proof fn lemma_fan_out(rs: Seq<Row>, ix: Seq<Row>, pa: Seq<Attribute>, a: Attribute, e: Value)
    requires
        forall|i: int| 0 <= i < rs.len() ==> (#[trigger] rs[i]).0.len() > 0 && value_eq(rs[i].0.last(), e),
    ensures
        join_rows(rs, ix, pa, a).len() == rs.len() * entity_count(ix, e),
    decreases rs.len(),
{
    if rs.len() > 0 {
        assert forall|i: int| 0 <= i < rs.drop_last().len() implies (#[trigger] rs.drop_last()[i]).0.len() > 0
            && value_eq(rs.drop_last()[i].0.last(), e) by {
            assert(rs.drop_last()[i] == rs[i]);
        }
        lemma_fan_out(rs.drop_last(), ix, pa, a, e);
        assert(rs[rs.len() - 1] == rs.last());
        lemma_join_one_len(rs.last(), ix, pa, a, e);
        assert(rs.len() * entity_count(ix, e) == (rs.len() - 1) * entity_count(ix, e) + entity_count(ix, e))
            by (nonlinear_arith);
    }
}

proof fn lemma_join_one_marks(x: Row, ix: Seq<Row>, pa: Seq<Attribute>, a: Attribute)
    ensures
        forall|i: int| 0 <= i < join_one(x, ix, pa, a).len() ==> {
            let t = (#[trigger] join_one(x, ix, pa, a)[i]).0;
            t.len() >= 2 && t[t.len() - 2] == Value::Attribute(a)
        },
    decreases ix.len(),
{
    if ix.len() > 0 {
        lemma_join_one_marks(x, ix.drop_last(), pa, a);
        let prev = join_one(x, ix.drop_last(), pa, a);
        assert forall|i: int| 0 <= i < join_one(x, ix, pa, a).len() implies {
            let t = (#[trigger] join_one(x, ix, pa, a)[i]).0;
            t.len() >= 2 && t[t.len() - 2] == Value::Attribute(a)
        } by {
            if i < prev.len() {
                assert(join_one(x, ix, pa, a)[i] == prev[i]);
            } else {
                let t = join_one(x, ix, pa, a)[i].0;
                let base = interleave_spec(x.0, pa).push(Value::Attribute(a));
                assert(t == base.push(ix.last().0[1]));
                assert(t[t.len() - 2] == base[base.len() - 1]);
            }
        }
    }
}

/// Every row yielded for attribute `a` holds `a` just before its last
/// value, so rows of different attributes never coincide.
pub proof fn lemma_attribute_marks_rows(rs: Seq<Row>, ix: Seq<Row>, pa: Seq<Attribute>, a: Attribute)
    ensures
        forall|i: int| 0 <= i < join_rows(rs, ix, pa, a).len() ==> {
            let t = (#[trigger] join_rows(rs, ix, pa, a)[i]).0;
            t.len() >= 2 && t[t.len() - 2] == Value::Attribute(a)
        },
    decreases rs.len(),
{
    if rs.len() > 0 {
        lemma_attribute_marks_rows(rs.drop_last(), ix, pa, a);
        lemma_join_one_marks(rs.last(), ix, pa, a);
        let p = join_rows(rs.drop_last(), ix, pa, a);
        let q = join_one(rs.last(), ix, pa, a);
        assert forall|i: int| 0 <= i < join_rows(rs, ix, pa, a).len() implies {
            let t = (#[trigger] join_rows(rs, ix, pa, a)[i]).0;
            t.len() >= 2 && t[t.len() - 2] == Value::Attribute(a)
        } by {
            if i < p.len() {
                assert(join_rows(rs, ix, pa, a)[i] == p[i]);
            } else {
                assert(join_rows(rs, ix, pa, a)[i] == q[i - p.len()]);
                assert(0 <= i - p.len() < q.len());
            }
        }
    }
}

/// Rows yielded for two attributes with different names never hold the
/// same tuple.
pub proof fn lemma_no_cross_attribute(
    rs1: Seq<Row>,
    ix1: Seq<Row>,
    a: Attribute,
    rs2: Seq<Row>,
    ix2: Seq<Row>,
    b: Attribute,
    pa: Seq<Attribute>,
    i: int,
    j: int,
)
    requires
        a@ != b@,
        0 <= i < join_rows(rs1, ix1, pa, a).len(),
        0 <= j < join_rows(rs2, ix2, pa, b).len(),
    ensures
        join_rows(rs1, ix1, pa, a)[i].0 != join_rows(rs2, ix2, pa, b)[j].0,
{
    lemma_attribute_marks_rows(rs1, ix1, pa, a);
    lemma_attribute_marks_rows(rs2, ix2, pa, b);
    let t1 = join_rows(rs1, ix1, pa, a)[i].0;
    let t2 = join_rows(rs2, ix2, pa, b)[j].0;
    if t1 == t2 {
        assert(t1[t1.len() - 2] == t2[t2.len() - 2]);
    }
}

} // verus!
