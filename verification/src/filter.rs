//! Predicate filtering over materialized relations.
//!
//! A `Filter` keeps the tuples of a source relation that satisfy a
//! comparison between two bound symbols, or between one bound symbol and a
//! constant. The source must bind the argument symbols; which side a
//! constant stands on is given by its argument position.

use vstd::prelude::*;

use crate::attribute::QueryError;
use crate::extend::vals;
use crate::hector::pos_of;
use crate::value::{value_lt, Value, ValueV, Var};

verus! {

/// Permitted comparison predicates.
#[derive(Clone, Copy, PartialEq, Eq, Structural, Debug)]
pub enum Predicate {
    /// Less than.
    LT,
    /// Greater than.
    GT,
    /// Less than or equal to.
    LTE,
    /// Greater than or equal to.
    GTE,
    /// Equal.
    EQ,
    /// Not equal.
    NEQ,
}

/// What a predicate says of two values, under the library's total order on
/// values.
pub open spec fn eval_predicate(p: Predicate, a: ValueV, b: ValueV) -> bool {
    match p {
        Predicate::LT => value_lt(a, b),
        Predicate::GT => value_lt(b, a),
        Predicate::LTE => !value_lt(b, a),
        Predicate::GTE => !value_lt(a, b),
        Predicate::EQ => a == b,
        Predicate::NEQ => a != b,
    }
}

/// Decides a predicate on two values.
pub fn apply_predicate(p: &Predicate, a: &Value, b: &Value) -> (r: bool)
    ensures
        r == eval_predicate(*p, a@, b@),
{
    match p {
        Predicate::LT => a.lt_value(b),
        Predicate::GT => b.lt_value(a),
        Predicate::LTE => !b.lt_value(a),
        Predicate::GTE => !a.lt_value(b),
        Predicate::EQ => a.eq_value(b),
        Predicate::NEQ => !a.eq_value(b),
    }
}

/// A constant input to a filter, standing at one of the predicate's two
/// argument positions.
pub struct ConstantBinding {
    /// The argument position the constant occupies: zero for the left
    /// argument, one for the right.
    pub position: u32,
    /// The constant itself.
    pub value: Value,
}

/// The first constant bound to argument position `k`, if any.
pub open spec fn const_for(cs: Seq<ConstantBinding>, k: u32) -> Option<ValueV>
    decreases cs.len(),
{
    if cs.len() == 0 {
        Option::None
    } else if cs[0].position == k {
        Option::Some(cs[0].value@)
    } else {
        const_for(cs.skip(1), k)
    }
}

/// Whether one tuple passes the filter, given the two key offsets and the
/// optional constants: a left constant compares against the first bound
/// symbol, a right constant the other way round, and with no constant the
/// two bound symbols compare against each other.
pub open spec fn tuple_keeps(
    p: Predicate,
    off0: int,
    off1: int,
    c0: Option<ValueV>,
    c1: Option<ValueV>,
    tup: Seq<ValueV>,
) -> bool {
    match c0 {
        Option::Some(c) => eval_predicate(p, c, tup[off0]),
        Option::None => match c1 {
            Option::Some(c) => eval_predicate(p, tup[off0], c),
            Option::None => eval_predicate(p, tup[off0], tup[off1]),
        },
    }
}

/// The views of a collection of tuples.
pub open spec fn tuple_views(tuples: Seq<Vec<Value>>) -> Seq<Seq<ValueV>> {
    tuples.map_values(|t: Vec<Value>| vals(t@))
}

/// The tuples that pass the filter, in source order.
pub open spec fn filtered(
    p: Predicate,
    off0: int,
    off1: int,
    c0: Option<ValueV>,
    c1: Option<ValueV>,
    tuples: Seq<Seq<ValueV>>,
) -> Seq<Seq<ValueV>>
    decreases tuples.len(),
{
    if tuples.len() == 0 {
        Seq::empty()
    } else if tuple_keeps(p, off0, off1, c0, c1, tuples.last()) {
        filtered(p, off0, off1, c0, c1, tuples.drop_last()).push(tuples.last())
    } else {
        filtered(p, off0, off1, c0, c1, tuples.drop_last())
    }
}

/// A plan stage filtering source tuples by the specified predicate. The
/// source is responsible for binding the argument symbols.
pub struct Filter {
    /// The symbols the predicate's arguments are bound to.
    pub variables: Vec<Var>,
    /// The comparison to apply.
    pub predicate: Predicate,
    /// Constant inputs, by argument position.
    pub constants: Vec<ConstantBinding>,
}

impl Filter {
    /// The filter can be implemented over a relation with the given symbol
    /// list: at least one argument symbol, every argument symbol bound by
    /// the source, and a second argument symbol wherever no constant fills
    /// an argument position.
    pub open spec fn implementable(&self, symbols: Seq<Var>) -> bool {
        &&& self.variables@.len() >= 1
        &&& forall|m: int| 0 <= m < self.variables@.len() ==> symbols.contains(
            #[trigger] self.variables@[m],
        )
        &&& (const_for(self.constants@, 0) is Some || const_for(self.constants@, 1) is Some
            || self.variables@.len() >= 2)
    }

    /// Looks up the first constant bound to argument position `k`.
    fn find_constant(&self, k: u32) -> (r: Option<Value>)
        ensures
            match r {
                Option::Some(v) => const_for(self.constants@, k) == Option::Some(v@),
                Option::None => const_for(self.constants@, k) is None,
            },
    {
        let mut m: usize = 0;
        let n = self.constants.len();
        proof {
            assert(self.constants@.skip(0) =~= self.constants@);
        }
        while m < n
            invariant
                m <= n,
                n == self.constants@.len(),
                const_for(self.constants@, k) == const_for(self.constants@.skip(m as int), k),
            decreases n - m,
        {
            proof {
                assert(self.constants@.skip(m as int)[0] == self.constants@[m as int]);
                assert(self.constants@.skip(m as int).skip(1) =~= self.constants@.skip(m + 1));
            }
            if self.constants[m].position == k {
                return Some(self.constants[m].value.clone());
            }
            m = m + 1;
        }
        proof {
            assert(self.constants@.skip(n as int).len() == 0);
        }
        None
    }

    /// Keeps the source tuples satisfying the predicate, in source order.
    /// The symbol list of the result is the source's own; the arity of
    /// every source tuple must match it.
    pub fn implement(&self, symbols: &Vec<Var>, tuples: &Vec<Vec<Value>>) -> (r: Result<
        Vec<Vec<Value>>,
        QueryError,
    >)
        requires
            forall|j: int| 0 <= j < tuples@.len() ==> (#[trigger] tuples@[j])@.len()
                == symbols@.len(),
        ensures
            (r is Ok) == self.implementable(symbols@),
            match r {
                Result::Ok(out) => tuple_views(out@) == filtered(
                    self.predicate,
                    pos_of(symbols@, self.variables@[0]),
                    if self.variables@.len() >= 2 {
                        pos_of(symbols@, self.variables@[1])
                    } else {
                        0
                    },
                    const_for(self.constants@, 0),
                    const_for(self.constants@, 1),
                    tuple_views(tuples@),
                ),
                Result::Err(e) => e == QueryError::MalformedBinding,
            },
    {
        let nv = self.variables.len();
        if nv == 0 {
            return Err(QueryError::MalformedBinding);
        }
        // Every argument symbol must be bound by the source.
        let mut m: usize = 0;
        while m < nv
            invariant
                m <= nv,
                nv == self.variables@.len(),
                forall|q: int| 0 <= q < m ==> symbols@.contains(#[trigger] self.variables@[q]),
            decreases nv - m,
        {
            match crate::hector::find_pos(symbols, self.variables[m]) {
                None => {
                    return Err(QueryError::MalformedBinding);
                },
                Some(_) => {
                    proof {
                        assert(symbols@[pos_of(symbols@, self.variables@[m as int])]
                            == self.variables@[m as int]);
                    }
                },
            }
            m = m + 1;
        }
        let c0 = self.find_constant(0);
        let c1 = self.find_constant(1);
        if c0.is_none() && c1.is_none() && nv < 2 {
            return Err(QueryError::MalformedBinding);
        }
        let off0 = match crate::hector::find_pos(symbols, self.variables[0]) {
            Some(p) => p,
            None => {
                proof {
                    assert(false);
                }
                0
            },
        };
        let off1 = if nv >= 2 {
            match crate::hector::find_pos(symbols, self.variables[1]) {
                Some(p) => p,
                None => {
                    proof {
                        assert(false);
                    }
                    0
                },
            }
        } else {
            0
        };
        let ghost gc0 = const_for(self.constants@, 0);
        let ghost gc1 = const_for(self.constants@, 1);
        let mut out: Vec<Vec<Value>> = Vec::new();
        let mut j: usize = 0;
        let n = tuples.len();
        proof {
            assert(tuple_views(out@) =~= Seq::<Seq<ValueV>>::empty());
            assert(filtered(
                self.predicate,
                off0 as int,
                off1 as int,
                gc0,
                gc1,
                tuple_views(tuples@).take(0),
            ) =~= Seq::<Seq<ValueV>>::empty());
        }
        while j < n
            invariant
                j <= n,
                n == tuples@.len(),
                off0 < symbols@.len(),
                nv >= 2 ==> off1 < symbols@.len(),
                forall|jj: int| 0 <= jj < tuples@.len() ==> (#[trigger] tuples@[jj])@.len()
                    == symbols@.len(),
                gc0 == const_for(self.constants@, 0),
                gc1 == const_for(self.constants@, 1),
                gc0 is None && gc1 is None ==> nv >= 2,
                match c0 {
                    Option::Some(ref v) => gc0 == Option::Some(v@),
                    Option::None => gc0 is None,
                },
                match c1 {
                    Option::Some(ref v) => gc1 == Option::Some(v@),
                    Option::None => gc1 is None,
                },
                tuple_views(out@) == filtered(
                    self.predicate,
                    off0 as int,
                    off1 as int,
                    gc0,
                    gc1,
                    tuple_views(tuples@).take(j as int),
                ),
            decreases n - j,
        {
            let tup = &tuples[j];
            let ghost tv = vals(tuples@[j as int]@);
            proof {
                assert(tuple_views(tuples@)[j as int] == tv);
                assert(tuple_views(tuples@).take(j + 1).drop_last() =~= tuple_views(
                    tuples@,
                ).take(j as int));
                assert(tuple_views(tuples@).take(j + 1).last() == tv);
                assert(tv.len() == symbols@.len());
                assert(tv[off0 as int] == tuples@[j as int]@[off0 as int]@);
            }
            let keep = match &c0 {
                Some(c) => apply_predicate(&self.predicate, c, &tup[off0]),
                None => match &c1 {
                    Some(c) => apply_predicate(&self.predicate, &tup[off0], c),
                    None => {
                        proof {
                            assert(tv[off1 as int] == tuples@[j as int]@[off1 as int]@);
                        }
                        apply_predicate(&self.predicate, &tup[off0], &tup[off1])
                    },
                },
            };
            if keep {
                let ghost before = tuple_views(out@);
                out.push(crate::extend::clone_prefix(tup));
                proof {
                    assert(tuple_views(out@).drop_last() =~= before);
                    assert(tuple_views(out@).last() == tv);
                    assert(tuple_views(out@) =~= before.push(tv));
                }
            }
            j = j + 1;
        }
        proof {
            assert(tuple_views(tuples@).take(n as int) =~= tuple_views(tuples@));
        }
        Ok(out)
    }
}

} // verus!
