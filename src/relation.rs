//! Relations: a list of bound symbols and a log of timed, signed updates
//! to a multiset of tuples.

use vstd::prelude::*;
use crate::value::{Value, Var, copy_tuple};

verus! {

/// One entry of an incremental log: `diff` copies of `tuple` are added
/// (or, when negative, retracted) at logical time `time`.
#[derive(Clone, Debug, PartialEq, Eq)]
pub struct Update {
    pub tuple: Vec<Value>,
    pub time: u64,
    pub diff: i64,
}

/// The mathematical form of an update: tuple, time, multiplicity.
pub type Row = (Seq<Value>, u64, int);

impl View for Update {
    type V = Row;

    open spec fn view(&self) -> Row {
        (self.tuple@, self.time, self.diff as int)
    }
}

/// The mathematical form of a log of updates.
pub open spec fn rows_of(us: Seq<Update>) -> Seq<Row> {
    us.map_values(|u: Update| u@)
}

/// Net multiplicity of tuple `t` at logical time `at`: the sum of the
/// multiplicities of the rows for `t` whose time is at most `at`.
pub open spec fn weight(rs: Seq<Row>, t: Seq<Value>, at: u64) -> int
    decreases rs.len(),
{
    if rs.len() == 0 {
        0
    } else {
        weight(rs.drop_last(), t, at) + if rs.last().0 == t && rs.last().1 <= at {
            rs.last().2
        } else {
            0
        }
    }
}

/// Two logs describe the same multiset at every logical time.
pub open spec fn same_weights(a: Seq<Row>, b: Seq<Row>) -> bool {
    forall|t: Seq<Value>, at: u64| #[trigger] weight(a, t, at) == #[trigger] weight(b, t, at)
}

/// The weight of a concatenation is the sum of the weights.
pub proof fn lemma_weight_concat(a: Seq<Row>, b: Seq<Row>, t: Seq<Value>, at: u64)
    ensures
        weight(a + b, t, at) == weight(a, t, at) + weight(b, t, at),
    decreases b.len(),
{
    if b.len() == 0 {
        assert(a + b =~= a);
    } else {
        assert((a + b).drop_last() =~= a + b.drop_last());
        lemma_weight_concat(a, b.drop_last(), t, at);
    }
}

/// Concatenating logs that describe the same multisets gives logs that
/// describe the same multiset: a union of incremental logs agrees with
/// the union of their consolidated forms.
pub proof fn lemma_concat_incremental(a1: Seq<Row>, b1: Seq<Row>, a2: Seq<Row>, b2: Seq<Row>)
    requires
        same_weights(a1, b1),
        same_weights(a2, b2),
    ensures
        same_weights(a1 + a2, b1 + b2),
{
    assert forall|t: Seq<Value>, at: u64| #[trigger] weight(a1 + a2, t, at) == #[trigger] weight(b1 + b2, t, at) by {
        lemma_weight_concat(a1, a2, t, at);
        lemma_weight_concat(b1, b2, t, at);
        assert(weight(a1, t, at) == weight(b1, t, at));
        assert(weight(a2, t, at) == weight(b2, t, at));
    }
}

/// No symbol occurs twice.
pub open spec fn distinct(s: Seq<Var>) -> bool {
    forall|i: int, j: int| 0 <= i < s.len() && 0 <= j < s.len() && i != j ==> s[i] != s[j]
}

/// Every row's tuple has `arity` values; an arity of zero leaves the
/// length of the tuples open.
pub open spec fn rows_fit(rs: Seq<Row>, arity: nat) -> bool {
    arity > 0 ==> forall|i: int| 0 <= i < rs.len() ==> (#[trigger] rs[i]).0.len() == arity
}

/// The value of `t` at each of `offsets`, in order.
pub open spec fn pick(t: Seq<Value>, offsets: Seq<usize>) -> Seq<Value> {
    offsets.map_values(|o: usize| t[o as int])
}

/// Position of `sym` in `syms`, if it occurs there.
pub open spec fn offset_of(syms: Seq<Var>, sym: Var) -> Option<nat>
    decreases syms.len(),
{
    if syms.len() == 0 {
        None
    } else if syms[0] == sym {
        Some(0)
    } else {
        match offset_of(syms.drop_first(), sym) {
            Some(k) => Some(k + 1),
            None => None,
        }
    }
}

/// The offsets of `wanted` in `syms`; or the first of `wanted` that is
/// not bound in `syms`.
pub open spec fn offsets_of(syms: Seq<Var>, wanted: Seq<Var>) -> Result<Seq<usize>, Var>
    decreases wanted.len(),
{
    if wanted.len() == 0 {
        Ok(Seq::empty())
    } else {
        match offsets_of(syms, wanted.drop_last()) {
            Err(v) => Err(v),
            Ok(os) => match offset_of(syms, wanted.last()) {
                Some(k) => Ok(os.push(k as usize)),
                None => Err(wanted.last()),
            },
        }
    }
}

proof fn lemma_offset_of(syms: Seq<Var>, sym: Var)
    ensures
        match offset_of(syms, sym) {
            Some(k) => k < syms.len() && syms[k as int] == sym && forall|j: int|
                0 <= j < k ==> syms[j] != sym,
            None => forall|j: int| 0 <= j < syms.len() ==> syms[j] != sym,
        },
    decreases syms.len(),
{
    if syms.len() > 0 {
        lemma_offset_of(syms.drop_first(), sym);
        if syms[0] != sym {
            match offset_of(syms.drop_first(), sym) {
                Some(k) => {
                    assert forall|j: int| 0 <= j < k + 1 implies syms[j] != sym by {
                        if j > 0 {
                            assert(syms[j] == syms.drop_first()[j - 1]);
                        }
                    }
                },
                None => {
                    assert forall|j: int| 0 <= j < syms.len() implies syms[j] != sym by {
                        if j > 0 {
                            assert(syms[j] == syms.drop_first()[j - 1]);
                        }
                    }
                },
            }
        }
    }
}

/// Resolved offsets are in range and name the wanted symbols.
pub proof fn lemma_offsets_of(syms: Seq<Var>, wanted: Seq<Var>)
    requires
        syms.len() <= usize::MAX,
    ensures
        offsets_of(syms, wanted) matches Ok(os) ==> os.len() == wanted.len() && forall|i: int|
            0 <= i < os.len() ==> (#[trigger] os[i]) < syms.len() && syms[os[i] as int]
                == wanted[i],
    decreases wanted.len(),
{
    if wanted.len() > 0 {
        lemma_offsets_of(syms, wanted.drop_last());
        lemma_offset_of(syms, wanted.last());
        if let Ok(os) = offsets_of(syms, wanted.drop_last()) {
            if let Some(k) = offset_of(syms, wanted.last()) {
                let os2 = os.push(k as usize);
                assert forall|i: int| 0 <= i < os2.len() implies (#[trigger] os2[i]) < syms.len()
                    && syms[os2[i] as int] == wanted[i] by {
                    if i < os.len() {
                        assert(os2[i] == os[i]);
                        assert(wanted[i] == wanted.drop_last()[i]);
                    }
                }
            }
        }
    }
}

/// Position of `sym` in `syms`.
pub fn position(syms: &Vec<Var>, sym: Var) -> (r: Option<usize>)
    ensures
        match (r, offset_of(syms@, sym)) {
            (Some(a), Some(b)) => a == b,
            (None, None) => true,
            _ => false,
        },
        r matches Some(k) ==> k < syms@.len() && syms@[k as int] == sym,
        r is None ==> forall|j: int| 0 <= j < syms@.len() ==> syms@[j] != sym,
{
    proof {
        lemma_offset_of(syms@, sym);
    }
    let mut i: usize = 0;
    while i < syms.len()
        invariant
            i <= syms@.len(),
            forall|j: int| 0 <= j < i ==> syms@[j] != sym,
        decreases syms@.len() - i,
    {
        if syms[i] == sym {
            proof {
                lemma_offset_of(syms@, sym);
                assert(syms@[i as int] == sym);
                match offset_of(syms@, sym) {
                    Some(k) => {
                        if k < i {
                            assert(syms@[k as int] != sym);
                        } else if k > i {
                            assert(syms@[i as int] != sym);
                        }
                    },
                    None => {
                        assert(syms@[i as int] != sym);
                    },
                }
            }
            return Some(i);
        }
        i = i + 1;
    }
    None
}

/// Offsets of each of `wanted` in `syms`, in the order of `wanted`; or
/// the first of them that is not bound in `syms`.
pub fn positions(syms: &Vec<Var>, wanted: &Vec<Var>) -> (r: Result<Vec<usize>, Var>)
    ensures
        match (r, offsets_of(syms@, wanted@)) {
            (Ok(a), Ok(b)) => a@ == b,
            (Err(a), Err(b)) => a == b,
            _ => false,
        },
{
    let mut out: Vec<usize> = Vec::with_capacity(wanted.len());
    let mut i: usize = 0;
    while i < wanted.len()
        invariant
            i <= wanted@.len(),
            offsets_of(syms@, wanted@.subrange(0, i as int)) == Ok::<Seq<usize>, Var>(out@),
        decreases wanted@.len() - i,
    {
        assert(wanted@.subrange(0, i + 1).drop_last() =~= wanted@.subrange(0, i as int));
        match position(syms, wanted[i]) {
            Some(k) => out.push(k),
            None => {
                proof {
                    lemma_offsets_err(syms@, wanted@, i as int);
                }
                return Err(wanted[i]);
            },
        }
        i = i + 1;
    }
    assert(wanted@.subrange(0, i as int) =~= wanted@);
    Ok(out)
}

proof fn lemma_offsets_err(syms: Seq<Var>, wanted: Seq<Var>, i: int)
    requires
        0 <= i < wanted.len(),
        offset_of(syms, wanted[i]) is None,
        offsets_of(syms, wanted.subrange(0, i)) is Ok,
    ensures
        offsets_of(syms, wanted) == Err::<Seq<usize>, Var>(wanted[i]),
    decreases wanted.len(),
{
    if i < wanted.len() - 1 {
        assert(wanted.drop_last().subrange(0, i) =~= wanted.subrange(0, i));
        lemma_offsets_err(syms, wanted.drop_last(), i);
    } else {
        assert(wanted.drop_last() =~= wanted.subrange(0, i));
    }
}

/// The values of `t` at `offsets`, in order.
pub fn pick_values(t: &Vec<Value>, offsets: &Vec<usize>) -> (r: Vec<Value>)
    requires
        forall|i: int| 0 <= i < offsets@.len() ==> (#[trigger] offsets@[i]) < t@.len(),
    ensures
        r@ == pick(t@, offsets@),
{
    let mut r: Vec<Value> = Vec::with_capacity(offsets.len());
    let mut i: usize = 0;
    while i < offsets.len()
        invariant
            i <= offsets@.len(),
            forall|j: int| 0 <= j < offsets@.len() ==> (#[trigger] offsets@[j]) < t@.len(),
            r@ =~= pick(t@, offsets@.subrange(0, i as int)),
        decreases offsets@.len() - i,
    {
        r.push(t[offsets[i]].duplicate());
        i = i + 1;
    }
    assert(offsets@.subrange(0, i as int) =~= offsets@);
    r
}

/// A copy of an update.
pub fn copy_update(u: &Update) -> (r: Update)
    ensures
        r@ == u@,
{
    Update { tuple: copy_tuple(&u.tuple), time: u.time, diff: u.diff }
}

/// The runtime form of a (partial) query result: the symbols naming its
/// columns, in order, and the log of updates to its tuples. A relation
/// whose symbol list is empty is positional only: its tuples may have any
/// length.
#[derive(Clone, Debug)]
pub struct Relation {
    pub symbols: Vec<Var>,
    pub tuples: Vec<Update>,
}

impl Relation {
    /// The log as rows.
    pub open spec fn rows(&self) -> Seq<Row> {
        rows_of(self.tuples@)
    }

    /// Symbols are distinct and every tuple is as long as the symbol list.
    pub open spec fn wf(&self) -> bool {
        distinct(self.symbols@) && rows_fit(self.rows(), self.symbols@.len())
    }

    /// The symbols naming the columns, in order.
    pub fn symbols(&self) -> (r: &Vec<Var>)
        ensures
            r == &self.symbols,
    {
        &self.symbols
    }

    /// The log of updates.
    pub fn tuples(&self) -> (r: &Vec<Update>)
        ensures
            r == &self.tuples,
    {
        &self.tuples
    }

    /// Each update re-keyed by `syms`: its values at the positions of
    /// `syms`, in the order of `syms`, paired with the whole update.
    /// Fails with the first of `syms` that is not bound here.
    pub fn tuples_by_symbols(&self, syms: &Vec<Var>) -> (r: Result<Vec<(Vec<Value>, Update)>, Var>)
        requires
            self.wf(),
        ensures
            match (r, offsets_of(self.symbols@, syms@)) {
                (Ok(out), Ok(os)) => out@.len() == self.tuples@.len() && forall|i: int|
                    0 <= i < out@.len() ==> (#[trigger] out@[i]).0@ == pick(
                        self.tuples@[i].tuple@,
                        os,
                    ) && out@[i].1@ == self.tuples@[i]@,
                (Err(a), Err(b)) => a == b,
                _ => false,
            },
    {
        let offsets = match positions(&self.symbols, syms) {
            Ok(o) => o,
            Err(v) => return Err(v),
        };
        // The call bounds the symbol count by `usize::MAX` for the proof below.
        let _arity = self.symbols.len();
        proof {
            lemma_offsets_of(self.symbols@, syms@);
        }
        let mut out: Vec<(Vec<Value>, Update)> = Vec::with_capacity(self.tuples.len());
        let mut i: usize = 0;
        while i < self.tuples.len()
            invariant
                self.wf(),
                i <= self.tuples@.len(),
                offsets_of(self.symbols@, syms@) == Ok::<Seq<usize>, Var>(offsets@),
                forall|j: int| 0 <= j < offsets@.len() ==> (#[trigger] offsets@[j]) < self.symbols@.len(),
                out@.len() == i,
                forall|j: int|
                    0 <= j < i ==> (#[trigger] out@[j]).0@ == pick(self.tuples@[j].tuple@, offsets@)
                        && out@[j].1@ == self.tuples@[j]@,
            decreases self.tuples@.len() - i,
        {
            let u = &self.tuples[i];
            assert(self.rows()[i as int] == u@);
            let key = pick_values(&u.tuple, &offsets);
            out.push((key, copy_update(u)));
            i = i + 1;
        }
        Ok(out)
    }
}

} // verus!
