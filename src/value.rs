//! Scalars carried in tuples, and their total order.

use vstd::prelude::*;

verus! {

/// Identifier of a logical column.
pub type Var = u32;

/// Identifier of a fact dimension, such as `:person/name`.
pub type Attribute = String;

/// Entity identifier.
pub type Entity = u64;

/// A tagged scalar. Values are ordered first by variant, in the order
/// of declaration, then by payload.
#[derive(Clone, Debug, PartialEq, Eq, PartialOrd, Ord, Hash)]
pub enum Value {
    /// An entity identifier.
    Eid(Entity),
    /// An attribute name.
    Attribute(Attribute),
    /// A string.
    String(String),
    /// A boolean.
    Bool(bool),
    /// A signed integer.
    Number(i64),
    /// A point in time, in milliseconds.
    Instant(u64),
}

/// Position of a value's variant in the order of values.
pub open spec fn rank(v: Value) -> int {
    match v {
        Value::Eid(_) => 0,
        Value::Attribute(_) => 1,
        Value::String(_) => 2,
        Value::Bool(_) => 3,
        Value::Number(_) => 4,
        Value::Instant(_) => 5,
    }
}

/// Three-way comparison of integers: -1, 0 or 1.
pub open spec fn int_cmp(a: int, b: int) -> int {
    if a < b {
        -1
    } else if a > b {
        1
    } else {
        0
    }
}

/// Lexicographic comparison of character sequences by code point.
pub open spec fn chars_cmp(a: Seq<char>, b: Seq<char>) -> int
    decreases a.len(),
{
    if a.len() == 0 {
        if b.len() == 0 {
            0
        } else {
            -1
        }
    } else if b.len() == 0 {
        1
    } else if a[0] != b[0] {
        int_cmp(a[0] as int, b[0] as int)
    } else {
        chars_cmp(a.drop_first(), b.drop_first())
    }
}

/// The total order over values: -1 when `a` comes first, 1 when `b`
/// does, 0 when they are equal.
pub open spec fn value_cmp(a: Value, b: Value) -> int {
    if rank(a) != rank(b) {
        int_cmp(rank(a), rank(b))
    } else {
        match (a, b) {
            (Value::Eid(x), Value::Eid(y)) => int_cmp(x as int, y as int),
            (Value::Attribute(x), Value::Attribute(y)) => chars_cmp(x@, y@),
            (Value::String(x), Value::String(y)) => chars_cmp(x@, y@),
            (Value::Bool(x), Value::Bool(y)) => int_cmp(
                if x { 1int } else { 0int },
                if y { 1int } else { 0int },
            ),
            (Value::Number(x), Value::Number(y)) => int_cmp(x as int, y as int),
            (Value::Instant(x), Value::Instant(y)) => int_cmp(x as int, y as int),
            _ => 0,
        }
    }
}

/// Two values are equal in the order of values.
pub open spec fn value_eq(a: Value, b: Value) -> bool {
    value_cmp(a, b) == 0
}

proof fn lemma_chars_cmp_eq(a: Seq<char>, b: Seq<char>)
    ensures
        chars_cmp(a, b) == 0 <==> a == b,
    decreases a.len(),
{
    if a.len() == 0 && b.len() == 0 {
        assert(a =~= b);
    } else if a.len() > 0 && b.len() > 0 && a[0] != b[0] {
        assert(a[0] as int != b[0] as int);
    } else if a.len() > 0 && b.len() > 0 {
        lemma_chars_cmp_eq(a.drop_first(), b.drop_first());
        if a.drop_first() == b.drop_first() {
            assert(a =~= seq![a[0]] + a.drop_first());
            assert(b =~= seq![b[0]] + b.drop_first());
        }
    }
}

/// Equality in the order of values is equality of the scalars they
/// carry: two strings are equal exactly when their characters are.
pub proof fn lemma_value_eq(a: Value, b: Value)
    ensures
        value_eq(a, b) <==> match (a, b) {
            (Value::Attribute(x), Value::Attribute(y)) => x@ == y@,
            (Value::String(x), Value::String(y)) => x@ == y@,
            (Value::Attribute(_), _) | (Value::String(_), _) => false,
            _ => a == b,
        },
{
    match (a, b) {
        (Value::Attribute(x), Value::Attribute(y)) => lemma_chars_cmp_eq(x@, y@),
        (Value::String(x), Value::String(y)) => lemma_chars_cmp_eq(x@, y@),
        _ => {},
    }
}

/// Lexicographic comparison of two strings by code point.
fn compare_chars(a: &str, b: &str) -> (r: i8)
    ensures
        r as int == chars_cmp(a@, b@),
{
    let la = a.unicode_len();
    let lb = b.unicode_len();
    let mut i: usize = 0;
    assert(a@.skip(0) =~= a@);
    assert(b@.skip(0) =~= b@);
    while i < la && i < lb
        invariant
            la == a@.len(),
            lb == b@.len(),
            i <= la,
            i <= lb,
            chars_cmp(a@, b@) == chars_cmp(a@.skip(i as int), b@.skip(i as int)),
        decreases la - i,
    {
        let ca = a.get_char(i);
        let cb = b.get_char(i);
        assert(a@.skip(i as int)[0] == ca);
        assert(b@.skip(i as int)[0] == cb);
        if ca != cb {
            if (ca as u32) < (cb as u32) {
                return -1;
            } else {
                return 1;
            }
        }
        assert(a@.skip(i as int).drop_first() =~= a@.skip(i + 1));
        assert(b@.skip(i as int).drop_first() =~= b@.skip(i + 1));
        i = i + 1;
    }
    if i < la {
        1
    } else if i < lb {
        -1
    } else {
        0
    }
}

fn compare_u64(a: u64, b: u64) -> (r: i8)
    ensures
        r as int == int_cmp(a as int, b as int),
{
    if a < b {
        -1
    } else if a > b {
        1
    } else {
        0
    }
}

fn rank_of(v: &Value) -> (r: u8)
    ensures
        r as int == rank(*v),
{
    match v {
        Value::Eid(_) => 0,
        Value::Attribute(_) => 1,
        Value::String(_) => 2,
        Value::Bool(_) => 3,
        Value::Number(_) => 4,
        Value::Instant(_) => 5,
    }
}

impl Value {
    /// Compares two values in the order of values.
    pub fn compare(&self, other: &Value) -> (r: i8)
        ensures
            r as int == value_cmp(*self, *other),
    {
        let ra = rank_of(self);
        let rb = rank_of(other);
        if ra != rb {
            return if ra < rb { -1 } else { 1 };
        }
        match (self, other) {
            (Value::Eid(x), Value::Eid(y)) => compare_u64(*x, *y),
            (Value::Attribute(x), Value::Attribute(y)) => compare_chars(x.as_str(), y.as_str()),
            (Value::String(x), Value::String(y)) => compare_chars(x.as_str(), y.as_str()),
            (Value::Bool(x), Value::Bool(y)) => {
                if *x == *y {
                    0
                } else if *y {
                    -1
                } else {
                    1
                }
            },
            (Value::Number(x), Value::Number(y)) => {
                if *x < *y {
                    -1
                } else if *x > *y {
                    1
                } else {
                    0
                }
            },
            (Value::Instant(x), Value::Instant(y)) => compare_u64(*x, *y),
            _ => 0,
        }
    }

    /// A copy of this value.
    pub fn duplicate(&self) -> (r: Value)
        ensures
            r == *self,
    {
        match self {
            Value::Eid(x) => Value::Eid(*x),
            Value::Attribute(s) => Value::Attribute(s.clone()),
            Value::String(s) => Value::String(s.clone()),
            Value::Bool(b) => Value::Bool(*b),
            Value::Number(n) => Value::Number(*n),
            Value::Instant(t) => Value::Instant(*t),
        }
    }
}

/// A copy of a tuple.
pub fn copy_tuple(t: &Vec<Value>) -> (r: Vec<Value>)
    ensures
        r@ == t@,
{
    let mut r: Vec<Value> = Vec::with_capacity(t.len());
    let mut i: usize = 0;
    while i < t.len()
        invariant
            i <= t@.len(),
            r@ == t@.subrange(0, i as int),
        decreases t@.len() - i,
    {
        r.push(t[i].duplicate());
        i = i + 1;
    }
    assert(r@ =~= t@);
    r
}

} // verus!
