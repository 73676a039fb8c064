//! Plan trees and their compilation into relations.

use vstd::prelude::*;
use crate::value::{Attribute, Var};
use crate::relation::{Relation, Row, Update, rows_of, rows_fit, copy_update};
use crate::filter::{Filter, filter_spec};
use crate::project::{Project, project_spec, first_duplicate, find_duplicate, lemma_first_duplicate_none};
use crate::transform::{Transform, transform_spec};
use crate::pull::{Pull, PullLevel, level_spec};

verus! {

/// Why a plan cannot be compiled.
#[derive(Clone, Debug, PartialEq, Eq)]
pub enum PlanError {
    /// A plan node asks for a symbol that its sub-plan does not bind.
    UnboundSymbol(Var),
    /// A plan node names an attribute that has no global index.
    UnknownAttribute(Attribute),
    /// A plan node would bind the same symbol twice.
    DuplicateSymbol(Var),
    /// A multiplicity leaves the range of `i64`.
    Overflow,
    /// A function is given no argument.
    MissingArgument,
    /// A plan node names a rule that has no local arrangement.
    UnknownRule(String),
    /// A plan node binds a number of symbols other than its relation's width.
    ArityMismatch,
}

/// A shared, externally maintained index of one attribute: a log of
/// updates to `[entity, value]` pairs.
#[derive(Clone, Debug)]
pub struct AttributeIndex {
    pub attribute: Attribute,
    pub updates: Vec<Update>,
}

impl AttributeIndex {
    /// Every tuple of the index is an `[entity, value]` pair.
    pub open spec fn wf(&self) -> bool {
        rows_fit(rows_of(self.updates@), 2)
    }
}

/// The global arrangements: one index per attribute. Plan nodes only read
/// them.
#[derive(Clone, Debug)]
pub struct GlobalArrangements {
    pub indexes: Vec<AttributeIndex>,
}

/// Every index holds pairs.
pub open spec fn indexes_wf(g: Seq<AttributeIndex>) -> bool {
    forall|i: int| 0 <= i < g.len() ==> (#[trigger] g[i]).wf()
}

/// The rows of the first index of attribute `a`, if there is one.
pub open spec fn index_rows(g: Seq<AttributeIndex>, a: Seq<char>) -> Option<Seq<Row>>
    decreases g.len(),
{
    if g.len() == 0 {
        None
    } else if g[0].attribute@ == a {
        Some(rows_of(g[0].updates@))
    } else {
        index_rows(g.drop_first(), a)
    }
}

impl GlobalArrangements {
    pub open spec fn wf(&self) -> bool {
        indexes_wf(self.indexes@)
    }

    /// The first index of attribute `a`.
    pub fn lookup(&self, a: &Attribute) -> (r: Option<&AttributeIndex>)
        ensures
            match (r, index_rows(self.indexes@, a@)) {
                (Some(ix), Some(rs)) => rows_of(ix.updates@) == rs && ix.attribute@ == a@ && (
                self.wf() ==> ix.wf()),
                (None, None) => true,
                _ => false,
            },
    {
        let mut i: usize = 0;
        assert(self.indexes@.skip(0) =~= self.indexes@);
        while i < self.indexes.len()
            invariant
                i <= self.indexes@.len(),
                index_rows(self.indexes@, a@) == index_rows(self.indexes@.skip(i as int), a@),
            decreases self.indexes@.len() - i,
        {
            assert(self.indexes@.skip(i as int).drop_first() =~= self.indexes@.skip(i + 1));
            assert(self.indexes@.skip(i as int)[0] == self.indexes@[i as int]);
            if self.indexes[i].attribute == *a {
                return Some(&self.indexes[i]);
            }
            i = i + 1;
        }
        None
    }
}

/// A relation compiled earlier in the same query, under its rule's name.
#[derive(Clone, Debug)]
pub struct NamedRelation {
    pub name: String,
    pub relation: Relation,
}

/// The local arrangements: relations compiled earlier in the same query,
/// for reuse. Plan nodes only read them.
#[derive(Clone, Debug)]
pub struct LocalArrangements {
    pub relations: Vec<NamedRelation>,
}

/// The symbols and rows of the first relation named `name`.
pub open spec fn local_rows(loc: Seq<NamedRelation>, name: Seq<char>) -> Option<(Seq<Var>, Seq<Row>)>
    decreases loc.len(),
{
    if loc.len() == 0 {
        None
    } else if loc[0].name@ == name {
        Some((loc[0].relation.symbols@, loc[0].relation.rows()))
    } else {
        local_rows(loc.drop_first(), name)
    }
}

impl LocalArrangements {
    /// Every relation is well formed.
    pub open spec fn wf(&self) -> bool {
        forall|i: int| 0 <= i < self.relations@.len() ==> (#[trigger] self.relations@[i]).relation.wf()
    }

    /// The first relation named `name`.
    pub fn lookup(&self, name: &String) -> (r: Option<&Relation>)
        ensures
            match (r, local_rows(self.relations@, name@)) {
                (Some(rel), Some((syms, rs))) => rel.symbols@ == syms && rel.rows() == rs && (self.wf()
                    ==> rel.wf()),
                (None, None) => true,
                _ => false,
            },
    {
        let mut i: usize = 0;
        assert(self.relations@.skip(0) =~= self.relations@);
        while i < self.relations.len()
            invariant
                i <= self.relations@.len(),
                local_rows(self.relations@, name@) == local_rows(self.relations@.skip(i as int), name@),
            decreases self.relations@.len() - i,
        {
            assert(self.relations@.skip(i as int).drop_first() =~= self.relations@.skip(i + 1));
            assert(self.relations@.skip(i as int)[0] == self.relations@[i as int]);
            if self.relations[i].name == *name {
                return Some(&self.relations[i].relation);
            }
            i = i + 1;
        }
        None
    }
}

/// What the leaf that reads rule `name` from the local arrangements
/// yields: its rows, under the symbols `syms`.
pub open spec fn rule_spec(syms: Seq<Var>, name: String, loc: Seq<NamedRelation>) -> Result<
    (Seq<Var>, Seq<Row>),
    PlanError,
> {
    match local_rows(loc, name@) {
        None => Err(PlanError::UnknownRule(name)),
        Some((stored, rs)) => if stored.len() != syms.len() {
            Err(PlanError::ArityMismatch)
        } else {
            match first_duplicate(syms) {
                Some(v) => Err(PlanError::DuplicateSymbol(v)),
                None => Ok((syms, rs)),
            }
        },
    }
}

/// What the leaf that matches attribute `a` yields: symbols `[e, v]` and
/// the rows of `a`'s index.
pub open spec fn match_spec(e: Var, a: Attribute, v: Var, g: Seq<AttributeIndex>) -> Result<
    (Seq<Var>, Seq<Row>),
    PlanError,
> {
    if e == v {
        Err(PlanError::DuplicateSymbol(e))
    } else {
        match index_rows(g, a@) {
            Some(rs) => Ok((seq![e, v], rs)),
            None => Err(PlanError::UnknownAttribute(a)),
        }
    }
}

/// A node of a query plan.
#[derive(Debug)]
pub enum Plan {
    /// The `[e, v]` pairs of an attribute, bound to two symbols.
    MatchA(Var, Attribute, Var),
    /// A relation of the local arrangements, bound to the given symbols.
    RuleExpr(Vec<Var>, String),
    /// Restriction by a comparison.
    Filter(Filter),
    /// Restriction to some of the columns.
    Project(Project),
    /// Expansion of entities into their attribute values.
    PullLevel(PullLevel),
    /// Union of several pull levels.
    Pull(Pull),
    /// A new column computed from bound ones.
    Transform(Transform),
}

/// What compiling `p` against the indexes `g` yields: the symbols and
/// rows of the resulting relation, or the first error met, sub-plans
/// first.
pub open spec fn eval(p: Plan, g: Seq<AttributeIndex>, loc: Seq<NamedRelation>) -> Result<(Seq<Var>, Seq<Row>), PlanError>
    decreases p,
{
    match p {
        Plan::MatchA(e, a, v) => match_spec(e, a, v, g),
        Plan::RuleExpr(syms, name) => rule_spec(syms@, name, loc),
        Plan::Filter(f) => match eval(*f.plan, g, loc) {
            Ok((syms, rs)) => filter_spec(f.predicate, f.variables, syms, rs),
            Err(err) => Err(err),
        },
        Plan::Project(pr) => match eval(*pr.plan, g, loc) {
            Ok((syms, rs)) => project_spec(pr.variables@, syms, rs),
            Err(err) => Err(err),
        },
        Plan::Transform(tr) => match eval(*tr.plan, g, loc) {
            Ok((syms, rs)) => transform_spec(tr.variables@, tr.result_sym, syms, rs),
            Err(err) => Err(err),
        },
        Plan::PullLevel(l) => eval_level(l, g, loc),
        Plan::Pull(pl) => match eval_levels(pl.paths@, g, loc) {
            Ok(rs) => Ok((Seq::empty(), rs)),
            Err(err) => Err(err),
        },
    }
}

/// What compiling one pull level yields.
pub open spec fn eval_level(l: PullLevel, g: Seq<AttributeIndex>, loc: Seq<NamedRelation>) -> Result<
    (Seq<Var>, Seq<Row>),
    PlanError,
>
    decreases l,
{
    match eval(*l.plan, g, loc) {
        Ok((syms, rs)) => level_spec(l.pull_attributes@, l.path_attributes@, syms, rs, g),
        Err(err) => Err(err),
    }
}

/// The rows of all levels `ls`, concatenated in order; or the first
/// error met.
pub open spec fn eval_levels(ls: Seq<PullLevel>, g: Seq<AttributeIndex>, loc: Seq<NamedRelation>) -> Result<
    Seq<Row>,
    PlanError,
>
    decreases ls,
{
    if ls.len() == 0 {
        Ok(Seq::empty())
    } else {
        match eval_levels(ls.drop_last(), g, loc) {
            Err(err) => Err(err),
            Ok(prev) => match eval_level(ls.last(), g, loc) {
                Ok((_, rs)) => Ok(prev + rs),
                Err(err) => Err(err),
            },
        }
    }
}

/// A copy of a log.
pub fn copy_updates(us: &Vec<Update>) -> (r: Vec<Update>)
    ensures
        rows_of(r@) == rows_of(us@),
{
    let mut r: Vec<Update> = Vec::with_capacity(us.len());
    let mut i: usize = 0;
    while i < us.len()
        invariant
            i <= us@.len(),
            rows_of(r@) =~= rows_of(us@).subrange(0, i as int),
        decreases us@.len() - i,
    {
        let ghost before = r@;
        r.push(copy_update(&us[i]));
        assert(rows_of(r@) =~= rows_of(before).push(us@[i as int]@));
        assert(rows_of(us@).subrange(0, i + 1) =~= rows_of(us@).subrange(0, i as int).push(
            us@[i as int]@,
        ));
        i = i + 1;
    }
    assert(rows_of(us@).subrange(0, i as int) =~= rows_of(us@));
    r
}

impl Plan {
    /// Compiles this plan against the global arrangements: sub-plans
    /// first, then this node's own transformation.
    pub fn implement(&self, global: &GlobalArrangements, local: &LocalArrangements) -> (r: Result<
        Relation,
        PlanError,
    >)
        requires
            global.wf(),
            local.wf(),
        ensures
            match (r, eval(*self, global.indexes@, local.relations@)) {
                (Ok(rel), Ok((syms, rs))) => rel.symbols@ == syms && rel.rows() == rs && rel.wf(),
                (Err(e1), Err(e2)) => e1 == e2,
                _ => false,
            },
        decreases self,
    {
        match self {
            Plan::MatchA(e, a, v) => {
                if *e == *v {
                    return Err(PlanError::DuplicateSymbol(*e));
                }
                match global.lookup(a) {
                    Some(ix) => {
                        let tuples = copy_updates(&ix.updates);
                        let rel = Relation { symbols: vec![*e, *v], tuples };
                        assert(rel.symbols@ =~= seq![*e, *v]);
                        Ok(rel)
                    },
                    None => Err(PlanError::UnknownAttribute(a.clone())),
                }
            },
            Plan::RuleExpr(syms, name) => {
                let stored = match local.lookup(name) {
                    Some(rel) => rel,
                    None => return Err(PlanError::UnknownRule(name.clone())),
                };
                if stored.symbols.len() != syms.len() {
                    return Err(PlanError::ArityMismatch);
                }
                if let Some(v) = find_duplicate(syms) {
                    return Err(PlanError::DuplicateSymbol(v));
                }
                proof {
                    lemma_first_duplicate_none(syms@);
                }
                let symbols = syms.clone();
                assert(symbols@ =~= syms@);
                let tuples = copy_updates(&stored.tuples);
                Ok(Relation { symbols, tuples })
            },
            Plan::Filter(f) => {
                let rel = f.plan.implement(global, local)?;
                f.restrict(rel)
            },
            Plan::Project(pr) => {
                let rel = pr.plan.implement(global, local)?;
                pr.reshape(rel)
            },
            Plan::Transform(tr) => {
                let rel = tr.plan.implement(global, local)?;
                tr.apply(rel)
            },
            Plan::PullLevel(l) => l.implement(global, local),
            Plan::Pull(pl) => pl.implement(global, local),
        }
    }
}

} // verus!
