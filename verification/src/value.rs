//! Scalar values and tuples: the data carried by relations.
//!
//! A `Value` is a tagged scalar with a total order; a tuple is an ordered
//! sequence of values whose meaning is given by an accompanying symbol list.

use vstd::prelude::*;
use vstd::string::StrSliceExecFns;

verus! {

/// A symbol naming a logical column of a query.
pub type Var = u32;

/// A tagged scalar carried in relation tuples. Totally ordered, first by
/// tag (booleans, then numbers, then strings, then entity identifiers),
/// then by payload; strings order lexicographically by character.
#[derive(Debug)]
pub enum Value {
    /// A truth value.
    Bool(bool),
    /// A signed number.
    Number(i64),
    /// A string.
    String(String),
    /// An entity identifier.
    Eid(u64),
}

/// The mathematical shape of a `Value`: strings are read as character
/// sequences.
pub enum ValueV {
    Bool(bool),
    Number(int),
    String(Seq<char>),
    Eid(nat),
}

impl View for Value {
    type V = ValueV;

    open spec fn view(&self) -> ValueV {
        match self {
            Value::Bool(b) => ValueV::Bool(*b),
            Value::Number(n) => ValueV::Number(*n as int),
            Value::String(s) => ValueV::String(s@),
            Value::Eid(e) => ValueV::Eid(*e as nat),
        }
    }
}

/// Rank of a value's tag in the total order.
pub open spec fn tag_rank(v: ValueV) -> int {
    match v {
        ValueV::Bool(_) => 0,
        ValueV::Number(_) => 1,
        ValueV::String(_) => 2,
        ValueV::Eid(_) => 3,
    }
}

/// Strict lexicographic order on character sequences.
pub open spec fn chars_lt(a: Seq<char>, b: Seq<char>) -> bool
    decreases a.len(),
{
    if b.len() == 0 {
        false
    } else if a.len() == 0 {
        true
    } else if a[0] != b[0] {
        (a[0] as u32) < (b[0] as u32)
    } else {
        chars_lt(a.skip(1), b.skip(1))
    }
}

/// Strict total order on values: by tag, then by payload.
pub open spec fn value_lt(a: ValueV, b: ValueV) -> bool {
    if tag_rank(a) != tag_rank(b) {
        tag_rank(a) < tag_rank(b)
    } else {
        match (a, b) {
            (ValueV::Bool(x), ValueV::Bool(y)) => !x && y,
            (ValueV::Number(x), ValueV::Number(y)) => x < y,
            (ValueV::String(x), ValueV::String(y)) => chars_lt(x, y),
            (ValueV::Eid(x), ValueV::Eid(y)) => x < y,
            _ => false,
        }
    }
}

impl Clone for Value {
    /// Clones a value, keeping its content.
    fn clone(&self) -> (r: Value)
        ensures
            r@ == self@,
    {
        match self {
            Value::Bool(b) => Value::Bool(*b),
            Value::Number(n) => Value::Number(*n),
            Value::String(s) => Value::String(s.clone()),
            Value::Eid(e) => Value::Eid(*e),
        }
    }
}

impl Value {
    /// Decides equality of two values (by content; strings by their characters).
    pub fn eq_value(&self, other: &Value) -> (r: bool)
        ensures
            r == (self@ == other@),
    {
        match (self, other) {
            (Value::Bool(x), Value::Bool(y)) => x == y,
            (Value::Number(x), Value::Number(y)) => x == y,
            (Value::String(x), Value::String(y)) => x.eq(y),
            (Value::Eid(x), Value::Eid(y)) => x == y,
            _ => false,
        }
    }

    /// Decides the strict total order on values.
    pub fn lt_value(&self, other: &Value) -> (r: bool)
        ensures
            r == value_lt(self@, other@),
    {
        match (self, other) {
            (Value::Bool(x), Value::Bool(y)) => !*x && *y,
            (Value::Number(x), Value::Number(y)) => x < y,
            (Value::String(x), Value::String(y)) => str_less(x.as_str(), y.as_str()),
            (Value::Eid(x), Value::Eid(y)) => x < y,
            _ => {
                let ra = self.tag_rank_exec();
                let rb = other.tag_rank_exec();
                ra < rb
            },
        }
    }

    fn tag_rank_exec(&self) -> (r: u8)
        ensures
            r as int == tag_rank(self@),
    {
        match self {
            Value::Bool(_) => 0,
            Value::Number(_) => 1,
            Value::String(_) => 2,
            Value::Eid(_) => 3,
        }
    }
}

/// Decides the strict lexicographic order on strings, character by
/// character.
fn str_less(a: &str, b: &str) -> (r: bool)
    ensures
        r == chars_lt(a@, b@),
{
    let a_len = a.unicode_len();
    let b_len = b.unicode_len();
    let mut i: usize = 0;
    proof {
        assert(a@.skip(0) =~= a@);
        assert(b@.skip(0) =~= b@);
    }
    loop
        invariant
            i <= a_len,
            i <= b_len,
            a_len == a@.len(),
            b_len == b@.len(),
            chars_lt(a@, b@) == chars_lt(a@.skip(i as int), b@.skip(i as int)),
        decreases a@.len() - i,
    {
        if i >= b_len {
            proof {
                assert(b@.skip(i as int).len() == 0);
            }
            return false;
        }
        if i >= a_len {
            proof {
                assert(a@.skip(i as int).len() == 0);
                assert(b@.skip(i as int).len() > 0);
            }
            return true;
        }
        let ca = a.get_char(i);
        let cb = b.get_char(i);
        proof {
            assert(a@.skip(i as int)[0] == a@[i as int]);
            assert(b@.skip(i as int)[0] == b@[i as int]);
            assert(a@.skip(i as int).skip(1) =~= a@.skip(i + 1));
            assert(b@.skip(i as int).skip(1) =~= b@.skip(i + 1));
        }
        if ca != cb {
            return (ca as u32) < (cb as u32);
        }
        i = i + 1;
    }
}

} // verus!
