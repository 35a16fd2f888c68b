//! Delta-query assembly: the join driver.
//!
//! For a query given as a list of bindings sharing symbols, one delta branch
//! is built per binding, driven by the changes of that binding's relation.
//! Within branch `i`, every other binding `j` contributes a prefix extender:
//! bindings before `i` are read through their attribute's alt-phase index
//! (changes at or before the driving change's time), bindings after `i`
//! through the neu-phase index (changes strictly before it). That split gives
//! every assignment of the full pattern exactly one owning branch. The
//! branches' outputs are concatenated and deduplicated.

use vstd::prelude::*;

use crate::attribute::{Attribute, Binding, ChangeV, QueryError};
use crate::extend::{
    extend, vals, CollectionExtender, ExtensionRecord, PrefixRecV, PrefixRecord, plen_prefixes,
    pviews, pacc, eacc, eviews, extviews, all_present, ExtenderView,
};
use crate::time::{AltNeu, Product};
use crate::value::{Value, ValueV, Var};

verus! {

/// One output change of a query: at `time`, the multiplicity of `tuple`
/// (over the query's variable order) changed by `diff`.
pub struct OutputRecord {
    /// The values of the query's variables, in their declared order.
    pub tuple: Vec<Value>,
    /// The time of the change.
    pub time: Product,
    /// The signed change in multiplicity.
    pub diff: i64,
}

/// The mathematical shape of an `OutputRecord`.
pub struct OutRecV {
    pub tuple: Seq<ValueV>,
    pub time: Product,
    pub diff: int,
}

impl View for OutputRecord {
    type V = OutRecV;

    open spec fn view(&self) -> OutRecV {
        OutRecV { tuple: vals(self.tuple@), time: self.time, diff: self.diff as int }
    }
}

/// Views of a vector of output records.
pub open spec fn oviews(s: Seq<OutputRecord>) -> Seq<OutRecV> {
    s.map_values(|r: OutputRecord| r@)
}

/// Accumulated change of `x` at exactly time `t` over an output log.
pub open spec fn oacc_at(recs: Seq<OutRecV>, x: Seq<ValueV>, t: Product) -> int
    decreases recs.len(),
{
    if recs.len() == 0 {
        0
    } else {
        oacc_at(recs.drop_last(), x, t) + if recs.last().tuple == x && recs.last().time == t {
            recs.last().diff
        } else {
            0
        }
    }
}

/// Accumulated multiplicity of `x` at or before time `T` over an output log.
pub open spec fn oacc_le(recs: Seq<OutRecV>, x: Seq<ValueV>, t: Product) -> int
    decreases recs.len(),
{
    if recs.len() == 0 {
        0
    } else {
        oacc_le(recs.drop_last(), x, t) + if recs.last().tuple == x && recs.last().time.le(t) {
            recs.last().diff
        } else {
            0
        }
    }
}

/// The total change a relation records for the pair (`e`, `v`) at exactly
/// time `t`.
pub open spec fn delta_at(rel: Seq<ChangeV>, e: ValueV, v: ValueV, t: Product) -> int
    decreases rel.len(),
{
    if rel.len() == 0 {
        0
    } else {
        delta_at(rel.drop_last(), e, v, t) + if rel.last().entity == e && rel.last().value == v
            && rel.last().time == t {
            rel.last().diff
        } else {
            0
        }
    }
}

/// The multiplicity of the pair (`e`, `v`) a relation accumulates at or
/// before time `t`.
pub open spec fn acc_le(rel: Seq<ChangeV>, e: ValueV, v: ValueV, t: Product) -> int
    decreases rel.len(),
{
    if rel.len() == 0 {
        0
    } else {
        acc_le(rel.drop_last(), e, v, t) + if rel.last().entity == e && rel.last().value == v
            && rel.last().time.le(t) {
            rel.last().diff
        } else {
            0
        }
    }
}

/// The multiplicity of the pair (`e`, `v`) a relation accumulates strictly
/// before time `t`.
pub open spec fn acc_lt(rel: Seq<ChangeV>, e: ValueV, v: ValueV, t: Product) -> int
    decreases rel.len(),
{
    if rel.len() == 0 {
        0
    } else {
        acc_lt(rel.drop_last(), e, v, t) + if rel.last().entity == e && rel.last().value == v
            && rel.last().time.le(t) && rel.last().time != t {
            rel.last().diff
        } else {
            0
        }
    }
}

/// The position of the first occurrence of `v` in `vars` (the length when
/// absent).
pub open spec fn pos_of(vars: Seq<Var>, v: Var) -> int
    decreases vars.len(),
{
    if vars.len() == 0 {
        0
    } else if vars[0] == v {
        0
    } else {
        1 + pos_of(vars.skip(1), v)
    }
}

/// `pos_of` finds the symbol where it occurs.
pub proof fn lemma_pos_of(vars: Seq<Var>, v: Var)
    ensures
        vars.contains(v) ==> 0 <= pos_of(vars, v) < vars.len() && vars[pos_of(vars, v)] == v,
        !vars.contains(v) ==> pos_of(vars, v) == vars.len(),
    decreases vars.len(),
{
    if vars.len() > 0 && vars[0] != v {
        lemma_pos_of(vars.skip(1), v);
        if vars.contains(v) {
            let w = choose|w: int| 0 <= w < vars.len() && vars[w] == v;
            assert(vars.skip(1)[w - 1] == vars[w]);
            assert(vars.skip(1).contains(v));
        } else {
            if vars.skip(1).contains(v) {
                let w = choose|w: int| 0 <= w < vars.skip(1).len() && vars.skip(1)[w] == v;
                assert(vars[w + 1] == vars.skip(1)[w]);
            }
        }
    }
}

/// The values an assignment `x` over `vars` gives to a binding's two
/// symbols.
pub open spec fn pair_entity(b: Binding, vars: Seq<Var>, x: Seq<ValueV>) -> ValueV {
    x[pos_of(vars, b.symbols.0)]
}

/// The value an assignment gives to a binding's second symbol.
pub open spec fn pair_value(b: Binding, vars: Seq<Var>, x: Seq<ValueV>) -> ValueV {
    x[pos_of(vars, b.symbols.1)]
}

/// Binding `j`'s pair under `x` is present in its relation at or before `t`.
pub open spec fn bound_le(
    bindings: Seq<Binding>,
    vars: Seq<Var>,
    rels: Seq<Seq<ChangeV>>,
    j: int,
    x: Seq<ValueV>,
    t: Product,
) -> bool {
    acc_le(
        rels[bindings[j].attribute as int],
        pair_entity(bindings[j], vars, x),
        pair_value(bindings[j], vars, x),
        t,
    ) > 0
}

/// Binding `j`'s pair under `x` is present in its relation strictly before
/// `t`.
pub open spec fn bound_lt(
    bindings: Seq<Binding>,
    vars: Seq<Var>,
    rels: Seq<Seq<ChangeV>>,
    j: int,
    x: Seq<ValueV>,
    t: Product,
) -> bool {
    acc_lt(
        rels[bindings[j].attribute as int],
        pair_entity(bindings[j], vars, x),
        pair_value(bindings[j], vars, x),
        t,
    ) > 0
}

/// The assignment `x` is a full match of the pattern at time `t`: every
/// binding's pair is present in its relation.
pub open spec fn match_at(
    bindings: Seq<Binding>,
    vars: Seq<Var>,
    rels: Seq<Seq<ChangeV>>,
    x: Seq<ValueV>,
    t: Product,
) -> bool {
    forall|j: int| 0 <= j < bindings.len() ==> bound_le(bindings, vars, rels, j, x, t)
}

/// What delta branch `i` emits for assignment `x` at time `t`: the change of
/// binding `i`'s own pair at `t`, provided every earlier binding holds its
/// pair at or before `t` (alt phase) and every later binding held its pair
/// strictly before `t` (neu phase).
pub open spec fn branch_term(
    bindings: Seq<Binding>,
    vars: Seq<Var>,
    rels: Seq<Seq<ChangeV>>,
    i: int,
    x: Seq<ValueV>,
    t: Product,
) -> int {
    if (forall|j: int| 0 <= j < i ==> bound_le(bindings, vars, rels, j, x, t)) && (forall|j: int|
        i < j < bindings.len() ==> bound_lt(bindings, vars, rels, j, x, t)) {
        delta_at(
            rels[bindings[i].attribute as int],
            pair_entity(bindings[i], vars, x),
            pair_value(bindings[i], vars, x),
            t,
        )
    } else {
        0
    }
}

/// The sum of the first `m` branches' emissions for `x` at `t`.
pub open spec fn branch_sum(
    bindings: Seq<Binding>,
    vars: Seq<Var>,
    rels: Seq<Seq<ChangeV>>,
    m: int,
    x: Seq<ValueV>,
    t: Product,
) -> int
    decreases m,
{
    if m <= 0 {
        0
    } else {
        branch_sum(bindings, vars, rels, m - 1, x, t) + branch_term(
            bindings,
            vars,
            rels,
            m - 1,
            x,
            t,
        )
    }
}

/// What the whole delta query emits for `x` at `t`: all branches together.
pub open spec fn hector_delta(
    bindings: Seq<Binding>,
    vars: Seq<Var>,
    rels: Seq<Seq<ChangeV>>,
    x: Seq<ValueV>,
    t: Product,
) -> int {
    branch_sum(bindings, vars, rels, bindings.len() as int, x, t)
}

/// The engine's accumulated output for `x` through round `r` (rounds carry
/// times with inner iteration zero).
pub open spec fn hector_cum(
    bindings: Seq<Binding>,
    vars: Seq<Var>,
    rels: Seq<Seq<ChangeV>>,
    x: Seq<ValueV>,
    r: int,
) -> int
    decreases r + 1,
{
    if r < 0 {
        0
    } else {
        hector_cum(bindings, vars, rels, x, r - 1) + hector_delta(
            bindings,
            vars,
            rels,
            x,
            Product { outer: r as u64, inner: 0 },
        )
    }
}

/// Every change of every relation happens at a round time: inner iteration
/// zero.
pub open spec fn round_times(rels: Seq<Seq<ChangeV>>) -> bool {
    forall|a: int, c: int| 0 <= a < rels.len() && 0 <= c < rels[a].len()
        ==> (#[trigger] rels[a][c]).time.inner == 0
}

/// No relation ever holds a pair more than once nor negatively: accumulated
/// multiplicities stay zero or one at every time. This is the setting of a
/// fact base: a fact is in or out.
pub open spec fn zero_one(rels: Seq<Seq<ChangeV>>) -> bool {
    forall|a: int, e: ValueV, v: ValueV, t: Product| 0 <= a < rels.len() ==> (0 <= #[trigger] acc_le(
        rels[a],
        e,
        v,
        t,
    ) <= 1)
}

/// At a round time, "strictly before" is "at or before the previous round".
proof fn lemma_lt_is_prev_le(rel: Seq<ChangeV>, e: ValueV, v: ValueV, r: int)
    requires
        0 < r <= u64::MAX,
        forall|c: int| 0 <= c < rel.len() ==> (#[trigger] rel[c]).time.inner == 0,
    ensures
        acc_lt(rel, e, v, Product { outer: r as u64, inner: 0 }) == acc_le(
            rel,
            e,
            v,
            Product { outer: (r - 1) as u64, inner: 0 },
        ),
    decreases rel.len(),
{
    if rel.len() > 0 {
        lemma_lt_is_prev_le(rel.drop_last(), e, v, r);
    }
}

/// Nothing is accumulated strictly before round zero.
proof fn lemma_lt_zero(rel: Seq<ChangeV>, e: ValueV, v: ValueV)
    requires
        forall|c: int| 0 <= c < rel.len() ==> (#[trigger] rel[c]).time.inner == 0,
    ensures
        acc_lt(rel, e, v, Product { outer: 0, inner: 0 }) == 0,
    decreases rel.len(),
{
    if rel.len() > 0 {
        lemma_lt_zero(rel.drop_last(), e, v);
    }
}

/// The change at a round is the difference of the accumulations at and
/// strictly before it.
proof fn lemma_delta_is_diff(rel: Seq<ChangeV>, e: ValueV, v: ValueV, t: Product)
    ensures
        delta_at(rel, e, v, t) == acc_le(rel, e, v, t) - acc_lt(rel, e, v, t),
    decreases rel.len(),
{
    if rel.len() > 0 {
        lemma_delta_is_diff(rel.drop_last(), e, v, t);
    }
}

/// The mixed pattern of the telescoping argument: the first `m` bindings
/// hold their pair at `t`, the rest held it strictly before `t`.
spec fn mixed(
    bindings: Seq<Binding>,
    vars: Seq<Var>,
    rels: Seq<Seq<ChangeV>>,
    m: int,
    x: Seq<ValueV>,
    t: Product,
) -> bool {
    (forall|j: int| 0 <= j < m ==> bound_le(bindings, vars, rels, j, x, t)) && (forall|j: int|
        m <= j < bindings.len() ==> bound_lt(bindings, vars, rels, j, x, t))
}

/// The telescoping step: summing the first `m` branch terms moves the
/// boundary of the mixed pattern to `m`.
proof fn lemma_telescope(
    bindings: Seq<Binding>,
    vars: Seq<Var>,
    rels: Seq<Seq<ChangeV>>,
    m: int,
    x: Seq<ValueV>,
    r: int,
)
    requires
        0 <= m <= bindings.len(),
        0 <= r <= u64::MAX,
        zero_one(rels),
        round_times(rels),
        forall|j: int| 0 <= j < bindings.len() ==> 0 <= (#[trigger] bindings[j]).attribute
            < rels.len(),
    ensures
        branch_sum(
            bindings,
            vars,
            rels,
            m,
            x,
            Product { outer: r as u64, inner: 0 },
        ) == (if mixed(bindings, vars, rels, m, x, Product { outer: r as u64, inner: 0 }) {
            1int
        } else {
            0int
        }) - (if mixed(bindings, vars, rels, 0, x, Product { outer: r as u64, inner: 0 }) {
            1int
        } else {
            0int
        }),
    decreases m,
{
    let t = Product { outer: r as u64, inner: 0 };
    if m == 0 {
    } else {
        lemma_telescope(bindings, vars, rels, m - 1, x, r);
        let i = m - 1;
        let rel = rels[bindings[i].attribute as int];
        let e = pair_entity(bindings[i], vars, x);
        let v = pair_value(bindings[i], vars, x);
        lemma_delta_is_diff(rel, e, v, t);
        assert(0 <= acc_le(rel, e, v, t) <= 1);
        // Times are rounds, so the strictly-before accumulation is the
        // previous round's at-or-before accumulation: also zero or one.
        assert(forall|c: int| 0 <= c < rel.len() ==> (#[trigger] rel[c]).time.inner == 0);
        if r > 0 {
            lemma_lt_is_prev_le(rel, e, v, r);
            assert(0 <= acc_lt(rel, e, v, t) <= 1);
        } else {
            lemma_lt_zero(rel, e, v);
        }
        let common = (forall|j: int| 0 <= j < i ==> bound_le(bindings, vars, rels, j, x, t))
            && (forall|j: int| i < j < bindings.len() ==> bound_lt(bindings, vars, rels, j, x, t));
        if common {
            assert(branch_term(bindings, vars, rels, i, x, t) == acc_le(rel, e, v, t) - acc_lt(
                rel,
                e,
                v,
                t,
            ));
            if acc_le(rel, e, v, t) > 0 {
                assert(bound_le(bindings, vars, rels, i, x, t));
                assert forall|j: int| 0 <= j < m implies bound_le(bindings, vars, rels, j, x, t) by {
                    if j < i {
                    } else {
                        assert(j == i);
                    }
                }
                assert(mixed(bindings, vars, rels, m, x, t));
            } else {
                assert(!bound_le(bindings, vars, rels, i, x, t));
                assert(!mixed(bindings, vars, rels, m, x, t));
            }
            if acc_lt(rel, e, v, t) > 0 {
                assert(bound_lt(bindings, vars, rels, i, x, t));
                assert forall|j: int| i <= j < bindings.len() implies bound_lt(
                    bindings,
                    vars,
                    rels,
                    j,
                    x,
                    t,
                ) by {
                    if j > i {
                    } else {
                        assert(j == i);
                    }
                }
                assert(mixed(bindings, vars, rels, i, x, t));
            } else {
                assert(!bound_lt(bindings, vars, rels, i, x, t));
                assert(!mixed(bindings, vars, rels, i, x, t));
            }
            assert(mixed(bindings, vars, rels, m, x, t) == (acc_le(rel, e, v, t) > 0));
            assert(mixed(bindings, vars, rels, i, x, t) == (acc_lt(rel, e, v, t) > 0));
        } else {
            assert(branch_term(bindings, vars, rels, i, x, t) == 0);
            if mixed(bindings, vars, rels, m, x, t) {
                assert(forall|j: int| 0 <= j < i ==> bound_le(bindings, vars, rels, j, x, t));
                assert(forall|j: int| i < j < bindings.len() ==> bound_lt(
                    bindings,
                    vars,
                    rels,
                    j,
                    x,
                    t,
                ));
                assert(false);
            }
            if mixed(bindings, vars, rels, i, x, t) {
                assert(forall|j: int| 0 <= j < i ==> bound_le(bindings, vars, rels, j, x, t));
                assert(forall|j: int| i < j < bindings.len() ==> bound_lt(
                    bindings,
                    vars,
                    rels,
                    j,
                    x,
                    t,
                ));
                assert(false);
            }
        }
    }
}


/// The match indicator as an integer.
pub open spec fn match_ind(
    bindings: Seq<Binding>,
    vars: Seq<Var>,
    rels: Seq<Seq<ChangeV>>,
    x: Seq<ValueV>,
    t: Product,
) -> int {
    if match_at(bindings, vars, rels, x, t) {
        1
    } else {
        0
    }
}

/// The pattern's bindings name attributes inside the arena.
pub open spec fn attrs_in_range(bindings: Seq<Binding>, n_rels: int) -> bool {
    forall|j: int| 0 <= j < bindings.len() ==> 0 <= (#[trigger] bindings[j]).attribute < n_rels
}

/// One round of the delta query emits, for every assignment, exactly the
/// change of its match status: a fact completing one match raises that
/// match's weight by one, through one owning branch, never two or three.
pub proof fn theorem_no_double_counting(
    bindings: Seq<Binding>,
    vars: Seq<Var>,
    rels: Seq<Seq<ChangeV>>,
    x: Seq<ValueV>,
    r: int,
)
    requires
        0 <= r <= u64::MAX,
        bindings.len() > 0,
        zero_one(rels),
        round_times(rels),
        attrs_in_range(bindings, rels.len() as int),
    ensures
        hector_delta(bindings, vars, rels, x, Product { outer: r as u64, inner: 0 }) == match_ind(
            bindings,
            vars,
            rels,
            x,
            Product { outer: r as u64, inner: 0 },
        ) - if r > 0 {
            match_ind(bindings, vars, rels, x, Product { outer: (r - 1) as u64, inner: 0 })
        } else {
            0
        },
{
    let n = bindings.len() as int;
    let t = Product { outer: r as u64, inner: 0 };
    lemma_telescope(bindings, vars, rels, n, x, r);
    assert(mixed(bindings, vars, rels, n, x, t) == match_at(bindings, vars, rels, x, t));
    if r > 0 {
        let tp = Product { outer: (r - 1) as u64, inner: 0 };
        assert forall|j: int| 0 <= j < n implies bound_lt(bindings, vars, rels, j, x, t)
            == bound_le(bindings, vars, rels, j, x, tp) by {
            let rel = rels[bindings[j].attribute as int];
            assert(forall|c: int| 0 <= c < rel.len() ==> (#[trigger] rel[c]).time.inner == 0);
            lemma_lt_is_prev_le(rel, pair_entity(bindings[j], vars, x), pair_value(
                bindings[j],
                vars,
                x,
            ), r);
        }
        assert(mixed(bindings, vars, rels, 0, x, t) == match_at(bindings, vars, rels, x, tp));
    } else {
        let rel0 = rels[bindings[0].attribute as int];
        assert(forall|c: int| 0 <= c < rel0.len() ==> (#[trigger] rel0[c]).time.inner == 0);
        lemma_lt_zero(rel0, pair_entity(bindings[0], vars, x), pair_value(bindings[0], vars, x));
        assert(!bound_lt(bindings, vars, rels, 0, x, t));
        assert(!mixed(bindings, vars, rels, 0, x, t));
    }
}

/// Differential correctness: for every assignment and every round, the
/// accumulated output of the delta query through that round equals the
/// from-scratch answer there: one exactly when the assignment matches the
/// pattern against the relations as of that round, zero otherwise. It holds
/// for every prefix of the change sequence at once.
pub proof fn theorem_differential_correctness(
    bindings: Seq<Binding>,
    vars: Seq<Var>,
    rels: Seq<Seq<ChangeV>>,
    x: Seq<ValueV>,
    r: int,
)
    requires
        0 <= r <= u64::MAX,
        bindings.len() > 0,
        zero_one(rels),
        round_times(rels),
        attrs_in_range(bindings, rels.len() as int),
    ensures
        hector_cum(bindings, vars, rels, x, r) == match_ind(
            bindings,
            vars,
            rels,
            x,
            Product { outer: r as u64, inner: 0 },
        ),
    decreases r,
{
    theorem_no_double_counting(bindings, vars, rels, x, r);
    assert(hector_cum(bindings, vars, rels, x, r) == hector_cum(bindings, vars, rels, x, r - 1)
        + hector_delta(bindings, vars, rels, x, Product { outer: r as u64, inner: 0 }));
    if r == 0 {
        assert(hector_cum(bindings, vars, rels, x, -1) == 0);
    } else {
        theorem_differential_correctness(bindings, vars, rels, x, r - 1);
    }
}

/// The assignment reads the retracted pair through some binding of
/// attribute `a`.
pub open spec fn uses_fact(
    bindings: Seq<Binding>,
    vars: Seq<Var>,
    a: int,
    e: ValueV,
    v: ValueV,
    x: Seq<ValueV>,
) -> bool {
    exists|j: int| 0 <= j < bindings.len() && (#[trigger] bindings[j]).attribute == a
        && pair_entity(bindings[j], vars, x) == e && pair_value(bindings[j], vars, x) == v
}

/// All of a relation's changes lie at rounds strictly before `r`.
pub open spec fn settled_before(rel: Seq<ChangeV>, r: int) -> bool {
    forall|c: int| 0 <= c < rel.len() ==> (#[trigger] rel[c]).time.outer < r
}

/// A settled relation accumulates the same at round `r` and at round `r-1`.
proof fn lemma_settled_acc(rel: Seq<ChangeV>, e: ValueV, v: ValueV, r: int)
    requires
        1 <= r <= u64::MAX,
        settled_before(rel, r),
        forall|c: int| 0 <= c < rel.len() ==> (#[trigger] rel[c]).time.inner == 0,
    ensures
        acc_le(rel, e, v, Product { outer: r as u64, inner: 0 }) == acc_le(
            rel,
            e,
            v,
            Product { outer: (r - 1) as u64, inner: 0 },
        ),
    decreases rel.len(),
{
    if rel.len() > 0 {
        lemma_settled_acc(rel.drop_last(), e, v, r);
    }
}

/// Appending one change moves an at-or-before accumulation by its diff when
/// its pair and time are covered, and not at all otherwise.
proof fn lemma_acc_le_push(rel: Seq<ChangeV>, c: ChangeV, e: ValueV, v: ValueV, t: Product)
    ensures
        acc_le(rel.push(c), e, v, t) == acc_le(rel, e, v, t) + if c.entity == e && c.value == v
            && c.time.le(t) {
            c.diff
        } else {
            0
        },
{
    assert(rel.push(c).drop_last() =~= rel);
    assert(rel.push(c).last() == c);
}

/// Retraction symmetry: retracting one previously present fact at a fresh
/// round removes, from the matches, exactly the assignments that read that
/// fact, and leaves every other match standing. Together with differential
/// correctness this says the maintained result loses exactly the N matches
/// the fact was part of.
pub proof fn theorem_retraction_symmetry(
    bindings: Seq<Binding>,
    vars: Seq<Var>,
    rels: Seq<Seq<ChangeV>>,
    rels2: Seq<Seq<ChangeV>>,
    a: int,
    e: ValueV,
    v: ValueV,
    x: Seq<ValueV>,
    r: int,
)
    requires
        1 <= r <= u64::MAX,
        bindings.len() > 0,
        0 <= a < rels.len(),
        round_times(rels),
        attrs_in_range(bindings, rels.len() as int),
        forall|b: int| 0 <= b < rels.len() ==> settled_before(#[trigger] rels[b], r),
        // the retracted fact was present
        acc_le(rels[a], e, v, Product { outer: (r - 1) as u64, inner: 0 }) == 1,
        // rels2 is rels with the one retraction appended to relation `a`
        rels2.len() == rels.len(),
        forall|b: int| 0 <= b < rels.len() && b != a ==> #[trigger] rels2[b] == rels[b],
        rels2[a] == rels[a].push(
            ChangeV { entity: e, value: v, time: Product { outer: r as u64, inner: 0 }, diff: -1 },
        ),
    ensures
        match_at(bindings, vars, rels2, x, Product { outer: r as u64, inner: 0 }) == (match_at(
            bindings,
            vars,
            rels,
            x,
            Product { outer: (r - 1) as u64, inner: 0 },
        ) && !uses_fact(bindings, vars, a, e, v, x)),
{
    let t = Product { outer: r as u64, inner: 0 };
    let tp = Product { outer: (r - 1) as u64, inner: 0 };
    let c = ChangeV { entity: e, value: v, time: t, diff: -1 };
    assert forall|j: int| 0 <= j < bindings.len() implies bound_le(bindings, vars, rels2, j, x, t)
        == (bound_le(bindings, vars, rels, j, x, tp) && !(bindings[j].attribute == a && pair_entity(
        bindings[j],
        vars,
        x,
    ) == e && pair_value(bindings[j], vars, x) == v)) by {
        let b = bindings[j].attribute as int;
        let pe = pair_entity(bindings[j], vars, x);
        let pv = pair_value(bindings[j], vars, x);
        assert(forall|cc: int| 0 <= cc < rels[b].len() ==> (#[trigger] rels[b][cc]).time.inner
            == 0);
        lemma_settled_acc(rels[b], pe, pv, r);
        if b == a {
            lemma_acc_le_push(rels[a], c, pe, pv, t);
            if pe == e && pv == v {
                assert(acc_le(rels2[a], pe, pv, t) == acc_le(rels[a], pe, pv, t) - 1);
                assert(acc_le(rels[a], pe, pv, t) == acc_le(rels[a], pe, pv, tp));
            } else {
                assert(acc_le(rels2[a], pe, pv, t) == acc_le(rels[a], pe, pv, t));
            }
        }
    }
    if match_at(bindings, vars, rels2, x, t) {
        assert forall|j: int| 0 <= j < bindings.len() implies bound_le(
            bindings,
            vars,
            rels,
            j,
            x,
            tp,
        ) by {
            assert(bound_le(bindings, vars, rels2, j, x, t));
        }
        if uses_fact(bindings, vars, a, e, v, x) {
            let j = choose|j: int| 0 <= j < bindings.len() && (#[trigger] bindings[j]).attribute
                == a && pair_entity(bindings[j], vars, x) == e && pair_value(bindings[j], vars, x)
                == v;
            assert(bound_le(bindings, vars, rels2, j, x, t));
            assert(false);
        }
    } else {
        if match_at(bindings, vars, rels, x, tp) && !uses_fact(bindings, vars, a, e, v, x) {
            assert forall|j: int| 0 <= j < bindings.len() implies bound_le(
                bindings,
                vars,
                rels2,
                j,
                x,
                t,
            ) by {
                assert(bound_le(bindings, vars, rels, j, x, tp));
                assert(!(bindings[j].attribute == a && pair_entity(bindings[j], vars, x) == e
                    && pair_value(bindings[j], vars, x) == v));
            }
            assert(false);
        }
    }
}


/// A pair is present in a relation under the given phase: at or before `t`
/// for the alt phase, strictly before `t` for the neu phase.
pub open spec fn phased_present(rel: Seq<ChangeV>, e: ValueV, v: ValueV, t: Product, neu: bool) -> bool {
    if neu {
        acc_lt(rel, e, v, t) > 0
    } else {
        acc_le(rel, e, v, t) > 0
    }
}

/// An alt-phase index view answers an alt-phase query with the relation's
/// at-or-before accumulation; a neu-phase view with the strictly-before
/// accumulation; reverse views swap the pair.
proof fn lemma_view_semantics(rel: Seq<ChangeV>, k: ValueV, v: ValueV, t: Product, fwd: bool, neu: bool)
    ensures
        crate::attribute::rel_acc_at(rel, k, v, AltNeu::spec_alt(t), fwd, neu) == if fwd {
            if neu {
                acc_lt(rel, k, v, t)
            } else {
                acc_le(rel, k, v, t)
            }
        } else {
            if neu {
                acc_lt(rel, v, k, t)
            } else {
                acc_le(rel, v, k, t)
            }
        },
    decreases rel.len(),
{
    if rel.len() > 0 {
        lemma_view_semantics(rel.drop_last(), k, v, t, fwd, neu);
    }
}

/// The variables of a sequence are pairwise distinct.
pub open spec fn distinct_vars(vars: Seq<Var>) -> bool {
    forall|a: int, b: int| 0 <= a < b < vars.len() ==> vars[a] != vars[b]
}

/// In a distinct sequence, `pos_of` inverts indexing.
proof fn lemma_pos_of_distinct(vars: Seq<Var>, m: int)
    requires
        distinct_vars(vars),
        0 <= m < vars.len(),
    ensures
        pos_of(vars, vars[m]) == m,
    decreases m,
{
    if vars.len() > 0 {
        if m == 0 {
        } else {
            assert(vars[0] != vars[m]);
            assert(distinct_vars(vars.skip(1))) by {
                assert forall|a: int, b: int| 0 <= a < b < vars.skip(1).len() implies vars.skip(
                    1,
                )[a] != vars.skip(1)[b] by {
                    assert(vars.skip(1)[a] == vars[a + 1]);
                    assert(vars.skip(1)[b] == vars[b + 1]);
                }
            }
            assert(vars.skip(1)[m - 1] == vars[m]);
            lemma_pos_of_distinct(vars.skip(1), m - 1);
        }
    }
}

/// Structural well-formedness of a query: distinct variables, at least one
/// binding, every binding over two distinct symbols drawn from the
/// variables, naming an attribute of the arena, and no two bindings over
/// the same symbol pair.
pub open spec fn query_wf(vars: Seq<Var>, bindings: Seq<Binding>, n_attrs: int) -> bool {
    &&& distinct_vars(vars)
    &&& bindings.len() > 0
    &&& forall|j: int| 0 <= j < bindings.len() ==> (#[trigger] bindings[j]).wf()
    &&& forall|j: int| 0 <= j < bindings.len() ==> vars.contains(
        (#[trigger] bindings[j]).symbols.0,
    ) && vars.contains(bindings[j].symbols.1)
    &&& attrs_in_range(bindings, n_attrs)
    &&& forall|a: int, b: int| #![trigger bindings[a], bindings[b]] 0 <= a < b < bindings.len()
        ==> !crate::attribute::same_symbols(bindings[a].symbols, bindings[b].symbols)
}

/// The relations underlying an arena of attributes.
pub open spec fn rels_of(attrs: Seq<Attribute>) -> Seq<Seq<ChangeV>> {
    attrs.map_values(|a: Attribute| a.rel())
}

/// Both of a binding's symbols lie among the first `bound` symbols of the
/// branch order.
pub open spec fn fully_bound(b: Binding, syms: Seq<Var>, bound: int) -> bool {
    pos_of(syms, b.symbols.0) < bound && pos_of(syms, b.symbols.1) < bound
}

/// Binding `j`'s pair, read from a prefix in branch symbol order, is present
/// under its phase relative to the driving binding `i`.
pub open spec fn pair_cond(
    bindings: Seq<Binding>,
    rels: Seq<Seq<ChangeV>>,
    syms: Seq<Var>,
    i: int,
    j: int,
    q: Seq<ValueV>,
    t: Product,
) -> bool {
    phased_present(
        rels[bindings[j].attribute as int],
        q[pos_of(syms, bindings[j].symbols.0)],
        q[pos_of(syms, bindings[j].symbols.1)],
        t,
        j > i,
    )
}

/// An assignment over the query's variable order, reindexed to the branch's
/// symbol order.
pub open spec fn reindex(x: Seq<ValueV>, vars: Seq<Var>, syms: Seq<Var>) -> Seq<ValueV> {
    Seq::new(syms.len(), |m: int| x[pos_of(vars, syms[m])])
}

/// Finds the position of a symbol in a symbol list.
pub fn find_pos(vars: &Vec<Var>, v: Var) -> (r: Option<usize>)
    ensures
        match r {
            Option::Some(p) => p < vars@.len() && vars@[p as int] == v && (forall|k: int|
                0 <= k < p ==> vars@[k] != v) && p == pos_of(vars@, v),
            Option::None => !vars@.contains(v),
        },
{
    let mut k: usize = 0;
    while k < vars.len()
        invariant
            k <= vars@.len(),
            forall|m: int| 0 <= m < k ==> vars@[m] != v,
        decreases vars@.len() - k,
    {
        if vars[k] == v {
            proof {
                lemma_pos_first(vars@, v, k as int);
            }
            return Some(k);
        }
        k = k + 1;
    }
    proof {
        if vars@.contains(v) {
            let w = choose|w: int| 0 <= w < vars@.len() && vars@[w] == v;
        }
    }
    None
}

/// `pos_of` is the first occurrence.
proof fn lemma_pos_first(vars: Seq<Var>, v: Var, k: int)
    requires
        0 <= k < vars.len(),
        vars[k] == v,
        forall|m: int| 0 <= m < k ==> vars[m] != v,
    ensures
        pos_of(vars, v) == k,
    decreases k,
{
    if k > 0 {
        assert(vars.skip(1)[k - 1] == vars[k]);
        assert forall|m: int| 0 <= m < k - 1 implies vars.skip(1)[m] != v by {
            assert(vars.skip(1)[m] == vars[m + 1]);
        }
        lemma_pos_first(vars.skip(1), v, k - 1);
    }
}

/// A worst-case-optimal multiway join plan: a list of bindings over shared
/// symbols, evaluated as one delta branch per binding.
pub struct Hector {
    /// The query's output variables, in order.
    pub variables: Vec<Var>,
    /// The pattern's conjuncts.
    pub bindings: Vec<Binding>,
}

impl Hector {
    /// The plan-validation pass, run once at query registration: rejects a
    /// binding intersected with a copy of itself, a symbol that no variable
    /// declares, an attribute outside the arena, and an empty pattern,
    /// before any dataflow is built.
    pub fn validate(&self, n_attributes: usize) -> (r: Result<(), QueryError>)
        ensures
            (r is Ok) == query_wf(self.variables@, self.bindings@, n_attributes as int),
    {
        let nv = self.variables.len();
        let mut a: usize = 0;
        while a < nv
            invariant
                a <= nv,
                nv == self.variables@.len(),
                forall|p: int, q: int| 0 <= p < q < nv && p < a ==> self.variables@[p]
                    != self.variables@[q],
            decreases nv - a,
        {
            let mut b: usize = a + 1;
            while b < nv
                invariant
                    a < b || b == a + 1,
                    a < nv,
                    b <= nv,
                    nv == self.variables@.len(),
                    forall|p: int, q: int| 0 <= p < q < nv && p < a ==> self.variables@[p]
                        != self.variables@[q],
                    forall|q: int| a < q < b ==> self.variables@[a as int] != self.variables@[q],
                decreases nv - b,
            {
                if self.variables[a] == self.variables[b] {
                    return Err(QueryError::MalformedBinding);
                }
                b = b + 1;
            }
            a = a + 1;
        }
        if self.bindings.len() == 0 {
            return Err(QueryError::UnboundExtenders);
        }
        let n = self.bindings.len();
        let mut j: usize = 0;
        while j < n
            invariant
                j <= n,
                n == self.bindings@.len(),
                forall|m: int| 0 <= m < j ==> (#[trigger] self.bindings@[m]).wf()
                    && self.variables@.contains(self.bindings@[m].symbols.0)
                    && self.variables@.contains(self.bindings@[m].symbols.1)
                    && 0 <= self.bindings@[m].attribute < n_attributes,
            decreases n - j,
        {
            let bd = &self.bindings[j];
            if bd.symbols.0 == bd.symbols.1 {
                return Err(QueryError::MalformedBinding);
            }
            if bd.attribute >= n_attributes {
                return Err(QueryError::MalformedBinding);
            }
            let p0 = find_pos(&self.variables, bd.symbols.0);
            let p1 = find_pos(&self.variables, bd.symbols.1);
            if p0.is_none() || p1.is_none() {
                return Err(QueryError::MalformedBinding);
            }
            proof {
                assert(self.variables@[pos_of(self.variables@, bd.symbols.0)] == bd.symbols.0);
                assert(self.variables@.contains(self.bindings@[j as int].symbols.0));
                assert(self.variables@.contains(self.bindings@[j as int].symbols.1));
            }
            j = j + 1;
        }
        let mut a2: usize = 0;
        while a2 < n
            invariant
                a2 <= n,
                n == self.bindings@.len(),
                forall|j2: int| 0 <= j2 < n ==> (#[trigger] self.bindings@[j2]).wf(),
                forall|p: int, q: int| #![trigger self.bindings@[p], self.bindings@[q]] 0 <= p < q
                    < n && p < a2 ==> !crate::attribute::same_symbols(
                    self.bindings@[p].symbols,
                    self.bindings@[q].symbols,
                ),
            decreases n - a2,
        {
            let mut b2: usize = a2 + 1;
            while b2 < n
                invariant
                    a2 < b2 || b2 == a2 + 1,
                    a2 < n,
                    b2 <= n,
                    n == self.bindings@.len(),
                    forall|j2: int| 0 <= j2 < n ==> (#[trigger] self.bindings@[j2]).wf(),
                    forall|p: int, q: int| #![trigger self.bindings@[p], self.bindings@[q]] 0 <= p
                        < q < n && p < a2 ==> !crate::attribute::same_symbols(
                        self.bindings@[p].symbols,
                        self.bindings@[q].symbols,
                    ),
                    forall|q: int| a2 < q < b2 ==> !crate::attribute::same_symbols(
                        self.bindings@[a2 as int].symbols,
                        (#[trigger] self.bindings@[q]).symbols,
                    ),
                decreases n - b2,
            {
                match self.bindings[a2].intersect(&self.bindings[b2]) {
                    Err(_) => {
                        return Err(QueryError::SelfIntersection);
                    },
                    Ok(_) => {},
                }
                b2 = b2 + 1;
            }
            a2 = a2 + 1;
        }
        Ok(())
    }
}


/// Binding `j` becomes fully bound exactly when symbol `syms[bound]` is
/// added: its other endpoint is already among the first `bound` symbols.
pub open spec fn newly_bound(b: Binding, syms: Seq<Var>, bound: int) -> bool {
    (b.symbols.1 == syms[bound] && pos_of(syms, b.symbols.0) < bound) || (b.symbols.0
        == syms[bound] && pos_of(syms, b.symbols.1) < bound)
}

/// The presence condition a newly bound binding imposes on (prefix,
/// extension) pairs at the step adding symbol `syms[bound]`.
pub open spec fn step_cond(
    bindings: Seq<Binding>,
    rels: Seq<Seq<ChangeV>>,
    syms: Seq<Var>,
    bound: int,
    i: int,
    j: int,
    p: Seq<ValueV>,
    v: ValueV,
    t: Product,
) -> bool {
    if bindings[j].symbols.1 == syms[bound] {
        phased_present(
            rels[bindings[j].attribute as int],
            p[pos_of(syms, bindings[j].symbols.0)],
            v,
            t,
            j > i,
        )
    } else {
        phased_present(
            rels[bindings[j].attribute as int],
            v,
            p[pos_of(syms, bindings[j].symbols.1)],
            t,
            j > i,
        )
    }
}

/// Appending an extender strengthens the joint presence condition by its
/// own.
proof fn lemma_all_present_push(
    exts: Seq<ExtenderView>,
    e: ExtenderView,
    p: Seq<ValueV>,
    v: ValueV,
    t: AltNeu,
)
    ensures
        all_present(exts.push(e), p, v, t) == (all_present(exts, p, v, t) && crate::extend::ext_present(
            e,
            p,
            v,
            t,
        )),
{
    if all_present(exts, p, v, t) && crate::extend::ext_present(e, p, v, t) {
        assert forall|k: int| 0 <= k < exts.push(e).len() implies crate::extend::ext_present(
            #[trigger] exts.push(e)[k],
            p,
            v,
            t,
        ) by {
            if k < exts.len() {
                assert(exts.push(e)[k] == exts[k]);
            } else {
                assert(exts.push(e)[k] == e);
            }
        }
    }
    if all_present(exts.push(e), p, v, t) {
        assert forall|k: int| 0 <= k < exts.len() implies crate::extend::ext_present(
            #[trigger] exts[k],
            p,
            v,
            t,
        ) by {
            assert(exts.push(e)[k] == exts[k]);
        }
        assert(exts.push(e)[exts.len() as int] == e);
    }
}


/// The branch symbol order for a binding with symbols (`s0`, `s1`),
/// considering the first `upto` declared variables: the binding's own two
/// symbols, then every not-yet-seen variable in declared order.
pub open spec fn branch_syms_upto(vars: Seq<Var>, upto: int, s0: Var, s1: Var) -> Seq<Var>
    decreases upto,
{
    if upto <= 0 {
        seq![s0, s1]
    } else {
        let prev = branch_syms_upto(vars, upto - 1, s0, s1);
        if prev.contains(vars[upto - 1]) {
            prev
        } else {
            prev.push(vars[upto - 1])
        }
    }
}

/// The full branch symbol order for a binding with symbols (`s0`, `s1`).
pub open spec fn branch_syms(vars: Seq<Var>, s0: Var, s1: Var) -> Seq<Var> {
    branch_syms_upto(vars, vars.len() as int, s0, s1)
}

/// Some binding other than the driving one becomes fully bound at the step
/// adding symbol `syms[bound]`: the step has at least one extender.
pub open spec fn step_has_extender(
    bindings: Seq<Binding>,
    i: int,
    syms: Seq<Var>,
    bound: int,
) -> bool {
    exists|j: int| 0 <= j < bindings.len() && j != i && newly_bound(
        #[trigger] bindings[j],
        syms,
        bound,
    )
}

/// Every extension step of branch `i` has an extender: the pattern stays
/// connected along the branch's symbol order.
pub open spec fn branch_connected(bindings: Seq<Binding>, vars: Seq<Var>, i: int) -> bool {
    forall|bound: int| 2 <= bound < branch_syms(
        vars,
        bindings[i].symbols.0,
        bindings[i].symbols.1,
    ).len() ==> step_has_extender(
        bindings,
        i,
        branch_syms(vars, bindings[i].symbols.0, bindings[i].symbols.1),
        bound,
    )
}

/// Every branch of the delta query can be assembled: the pattern is
/// connected along every branch's symbol order.
pub open spec fn query_connected(bindings: Seq<Binding>, vars: Seq<Var>) -> bool {
    forall|i: int| 0 <= i < bindings.len() ==> branch_connected(bindings, vars, i)
}

/// Decides membership of a symbol in a list.
fn contains_var(vars: &Vec<Var>, v: Var) -> (r: bool)
    ensures
        r == vars@.contains(v),
{
    let mut k: usize = 0;
    while k < vars.len()
        invariant
            k <= vars@.len(),
            forall|m: int| 0 <= m < k ==> vars@[m] != v,
        decreases vars@.len() - k,
    {
        if vars[k] == v {
            return true;
        }
        k = k + 1;
    }
    proof {
        if vars@.contains(v) {
            let w = choose|w: int| 0 <= w < vars@.len() && vars@[w] == v;
        }
    }
    false
}

/// The branch's symbol order: the driving binding's two symbols first, then
/// every remaining variable in declared order.
fn build_syms(variables: &Vec<Var>, s0: Var, s1: Var) -> (r: Vec<Var>)
    requires
        s0 != s1,
    ensures
        r@.len() >= 2,
        r@[0] == s0,
        r@[1] == s1,
        distinct_vars(r@),
        forall|q: int| 0 <= q < variables@.len() ==> r@.contains(#[trigger] variables@[q]),
        forall|m: int| 0 <= m < r@.len() ==> (#[trigger] r@[m]) == s0 || r@[m] == s1
            || variables@.contains(r@[m]),
        r@ == branch_syms(variables@, s0, s1),
{
    let mut syms: Vec<Var> = Vec::new();
    syms.push(s0);
    syms.push(s1);
    proof {
        assert(syms@ =~= seq![s0, s1]);
    }
    let nv = variables.len();
    let mut vp: usize = 0;
    while vp < nv
        invariant
            vp <= nv,
            nv == variables@.len(),
            syms@.len() >= 2,
            syms@[0] == s0,
            syms@[1] == s1,
            syms@ == branch_syms_upto(variables@, vp as int, s0, s1),
            distinct_vars(syms@),
            forall|q: int| 0 <= q < vp ==> syms@.contains(#[trigger] variables@[q]),
            forall|m: int| 0 <= m < syms@.len() ==> (#[trigger] syms@[m]) == s0 || syms@[m] == s1
                || variables@.contains(syms@[m]),
        decreases nv - vp,
    {
        let v = variables[vp];
        if !contains_var(&syms, v) {
            let ghost before = syms@;
            syms.push(v);
            proof {
                assert forall|a: int, b: int| 0 <= a < b < syms@.len() implies syms@[a]
                    != syms@[b] by {
                    if b < before.len() {
                        assert(syms@[a] == before[a] && syms@[b] == before[b]);
                    } else {
                        assert(syms@[b] == v);
                        assert(syms@[a] == before[a]);
                        assert(!before.contains(v));
                    }
                }
                assert(syms@[syms@.len() - 1] == v);
                assert(syms@.contains(v));
                assert forall|q: int| 0 <= q < vp + 1 implies syms@.contains(
                    #[trigger] variables@[q],
                ) by {
                    if q < vp {
                        let w = choose|w: int| 0 <= w < before.len() && before[w]
                            == variables@[q];
                        assert(syms@[w] == variables@[q]);
                    }
                }
            }
        }
        vp = vp + 1;
    }
    syms
}

/// The branch's driving requests: each change of the binding's own relation
/// as a two-value prefix at the alt phase of its own time.
fn build_init(attribute: &Attribute) -> (r: Vec<PrefixRecord>)
    ensures
        plen_prefixes(r@, 2),
        forall|p: Seq<ValueV>, t: Product| #[trigger] pacc(pviews(r@), p, AltNeu::spec_alt(t))
            == if p.len() == 2 {
            delta_at(attribute.rel(), p[0], p[1], t)
        } else {
            0
        },
        forall|p: Seq<ValueV>, ss: AltNeu| ss.neu ==> #[trigger] pacc(pviews(r@), p, ss) == 0,
        (forall|c: int| 0 <= c < attribute.rel().len() ==> (#[trigger] attribute.rel()[
            c
        ]).time.inner == 0) ==> crate::extend::pr_rounds(r@),
{
    let mut init: Vec<PrefixRecord> = Vec::new();
    let mut c: usize = 0;
    let n = attribute.changes.len();
    proof {
        assert(pviews(init@) =~= Seq::<PrefixRecV>::empty());
        assert(attribute.rel().take(0) =~= Seq::<ChangeV>::empty());
    }
    while c < n
        invariant
            c <= n,
            n == attribute.changes@.len(),
            attribute.rel().len() == n,
            init@.len() == c,
            plen_prefixes(init@, 2),
            forall|p: Seq<ValueV>, t: Product| #[trigger] pacc(pviews(init@), p, AltNeu::spec_alt(t))
                == if p.len() == 2 {
                delta_at(attribute.rel().take(c as int), p[0], p[1], t)
            } else {
                0
            },
            forall|p: Seq<ValueV>, ss: AltNeu| ss.neu ==> #[trigger] pacc(pviews(init@), p, ss)
                == 0,
            forall|j: int| #![trigger init@[j]] 0 <= j < init@.len() ==> !init@[j].time.neu
                && init@[j].time.time == attribute.rel()[j].time,
        decreases n - c,
    {
        let ch = &attribute.changes[c];
        let ghost chv = attribute.changes@[c as int]@;
        let ghost recs_before = init@;
        let ghost before = pviews(init@);
        let mut prefix: Vec<Value> = Vec::new();
        prefix.push(ch.entity.clone());
        prefix.push(ch.value.clone());
        init.push(PrefixRecord { prefix, time: AltNeu::alt(ch.time), diff: ch.diff });
        proof {
            assert(attribute.rel()[c as int] == chv);
            assert forall|j: int| #![trigger init@[j]] 0 <= j < init@.len() implies !init@[
                j
            ].time.neu && init@[j].time.time == attribute.rel()[j].time by {
                if j < recs_before.len() {
                    assert(init@[j] == recs_before[j]);
                } else {
                    assert(init@[j] == init@.last());
                }
            }
            assert(pviews(init@).drop_last() =~= before);
            assert(pviews(init@).last().prefix =~= seq![chv.entity, chv.value]);
            assert(pviews(init@).last().time == AltNeu::spec_alt(chv.time));
            assert(pviews(init@).last().diff == chv.diff);
            assert(init@.last().prefix@.len() == 2);
            lemma_plen_prefixes_push_local(recs_before, init@.last());
            assert(init@ == recs_before.push(init@.last()));
            assert forall|p: Seq<ValueV>, t: Product| #[trigger] pacc(
                pviews(init@),
                p,
                AltNeu::spec_alt(t),
            ) == (if p.len() == 2 {
                delta_at(attribute.rel().take(c + 1), p[0], p[1], t)
            } else {
                0
            }) by {
                assert(attribute.rel().take(c + 1).drop_last() =~= attribute.rel().take(c as int));
                assert(attribute.rel().take(c + 1).last() == chv);
                assert(pacc(pviews(init@), p, AltNeu::spec_alt(t)) == pacc(
                    before,
                    p,
                    AltNeu::spec_alt(t),
                ) + if pviews(init@).last().prefix == p && AltNeu::spec_alt(chv.time)
                    == AltNeu::spec_alt(t) {
                    chv.diff
                } else {
                    0
                });
                if p.len() == 2 {
                    assert((pviews(init@).last().prefix == p) == (chv.entity == p[0] && chv.value
                        == p[1])) by {
                        if chv.entity == p[0] && chv.value == p[1] {
                            assert(pviews(init@).last().prefix =~= p);
                        }
                    }
                    assert((AltNeu::spec_alt(chv.time) == AltNeu::spec_alt(t)) == (chv.time == t));
                }
            }
            assert forall|p: Seq<ValueV>, ss: AltNeu| ss.neu implies #[trigger] pacc(
                pviews(init@),
                p,
                ss,
            ) == 0 by {
                assert(pacc(pviews(init@), p, ss) == pacc(before, p, ss) + if pviews(
                    init@,
                ).last().prefix == p && AltNeu::spec_alt(chv.time) == ss {
                    chv.diff
                } else {
                    0
                });
            }
        }
        c = c + 1;
    }
    proof {
        assert(attribute.rel().take(n as int) =~= attribute.rel());
        if forall|cc: int| 0 <= cc < attribute.rel().len() ==> (#[trigger] attribute.rel()[
            cc
        ]).time.inner == 0 {
            assert forall|j: int| #![trigger init@[j]] 0 <= j < init@.len() implies !init@[
                j
            ].time.neu && init@[j].time.time.inner == 0 by {
                assert(attribute.rel()[j].time.inner == 0);
            }
            assert(crate::extend::pr_rounds(init@));
        }
    }
    init
}

/// Appending a two-position record keeps the two-position bound.
proof fn lemma_plen_prefixes_push_local(s: Seq<PrefixRecord>, r: PrefixRecord)
    requires
        plen_prefixes(s, 2),
        r.prefix@.len() == 2,
    ensures
        plen_prefixes(s.push(r), 2),
{
    assert forall|j: int| #![trigger s.push(r)[j]] 0 <= j < s.push(r).len() implies 2 == s.push(
        r,
    )[j].prefix@.len() by {
        if j < s.len() {
            assert(s.push(r)[j] == s[j]);
        } else {
            assert(s.push(r)[j] == r);
        }
    }
}


/// Assembles the extenders of one extension step: every binding other than
/// the driving one whose second endpoint is the step's symbol and whose
/// first endpoint is already bound contributes its index, oriented forward
/// or reverse accordingly, at the alt phase if it precedes the driving
/// binding and at the neu phase if it follows it.
fn build_step_exts(
    bindings: &Vec<Binding>,
    attributes: &Vec<Attribute>,
    syms: &Vec<Var>,
    i: usize,
    bound: usize,
) -> (r: Vec<CollectionExtender>)
    requires
        i < bindings@.len(),
        bound < syms@.len(),
        distinct_vars(syms@),
        attrs_in_range(bindings@, attributes@.len() as int),
        forall|m: int| 0 <= m < attributes@.len() ==> (#[trigger] attributes@[m]).wf()
            && attributes@[m].consistent(),
        forall|j: int| 0 <= j < bindings@.len() ==> syms@.contains(
            (#[trigger] bindings@[j]).symbols.0,
        ) && syms@.contains(bindings@[j].symbols.1),
    ensures
        forall|k: int| 0 <= k < r@.len() ==> (#[trigger] r@[k]).wf() && r@[k].key_pos
            < bound && crate::trace::nonnegative(r@[k].indices@),
        (r@.len() == 0) == !step_has_extender(bindings@, i as int, syms@, bound as int),
        forall|p: Seq<ValueV>, v: ValueV, t: Product| #[trigger] all_present(
            extviews(r@),
            p,
            v,
            AltNeu::spec_alt(t),
        ) == (forall|j: int| 0 <= j < bindings@.len() && j != i && newly_bound(
            #[trigger] bindings@[j],
            syms@,
            bound as int,
        ) ==> step_cond(
            bindings@,
            rels_of(attributes@),
            syms@,
            bound as int,
            i as int,
            j,
            p,
            v,
            t,
        )),
{
    let stepv = syms[bound];
    let mut exts: Vec<CollectionExtender> = Vec::new();
    let n = bindings.len();
    let mut j: usize = 0;
    proof {
        assert(extviews(exts@) =~= Seq::<ExtenderView>::empty());
    }
    while j < n
        invariant
            j <= n,
            n == bindings@.len(),
            i < n,
            bound < syms@.len(),
            stepv == syms@[bound as int],
            distinct_vars(syms@),
            attrs_in_range(bindings@, attributes@.len() as int),
            forall|m: int| 0 <= m < attributes@.len() ==> (#[trigger] attributes@[m]).wf()
                && attributes@[m].consistent(),
            forall|jj: int| 0 <= jj < bindings@.len() ==> syms@.contains(
                (#[trigger] bindings@[jj]).symbols.0,
            ) && syms@.contains(bindings@[jj].symbols.1),
            forall|k: int| 0 <= k < exts@.len() ==> (#[trigger] exts@[k]).wf() && exts@[k].key_pos
                < bound && crate::trace::nonnegative(exts@[k].indices@),
            exts@.len() == 0 ==> forall|jj: int| 0 <= jj < j ==> !(jj != i && newly_bound(
                #[trigger] bindings@[jj],
                syms@,
                bound as int,
            )),
            exts@.len() > 0 ==> step_has_extender(bindings@, i as int, syms@, bound as int),
            forall|p: Seq<ValueV>, v: ValueV, t: Product| #[trigger] all_present(
                extviews(exts@),
                p,
                v,
                AltNeu::spec_alt(t),
            ) == (forall|jj: int| 0 <= jj < j && jj != i && newly_bound(
                #[trigger] bindings@[jj],
                syms@,
                bound as int,
            ) ==> step_cond(
                bindings@,
                rels_of(attributes@),
                syms@,
                bound as int,
                i as int,
                jj,
                p,
                v,
                t,
            )),
        decreases n - j,
    {
        let ghost rels = rels_of(attributes@);
        let ghost b = bindings@[j as int];
        let ghost a = b.attribute as int;
        if j != i {
            let bd = &bindings[j];
            let (u, w) = bd.symbols;
            let pu = find_pos(syms, u);
            let pw = find_pos(syms, w);
            let mut added = false;
            let ghost exts_before = exts@;
            if w == stepv {
                if let Some(p0) = pu {
                    if p0 < bound {
                        let att = &attributes[bd.attribute];
                        let idx = if j < i {
                            &att.alt_forward
                        } else {
                            &att.neu_forward
                        };
                        exts.push(idx.extend_using(p0));
                        added = true;
                        proof {
                            assert(attributes@[a].wf());
                            assert(attributes@[a].consistent());
                            assert(crate::trace::nonnegative(exts@.last().indices@));
                            assert(newly_bound(b, syms@, bound as int));
                            assert(step_has_extender(bindings@, i as int, syms@, bound as int));
                            assert(rels[a] == attributes@[a].rel());
                            assert forall|p: Seq<ValueV>, v: ValueV, t: Product|
                                crate::extend::ext_present(
                                #[trigger] extviews(exts@).last(),
                                p,
                                v,
                                AltNeu::spec_alt(t),
                            ) == step_cond(
                                bindings@,
                                rels,
                                syms@,
                                bound as int,
                                i as int,
                                j as int,
                                p,
                                v,
                                t,
                            ) by {
                                lemma_view_semantics(
                                    attributes@[a].rel(),
                                    p[p0 as int],
                                    v,
                                    t,
                                    true,
                                    j > i,
                                );
                            }
                        }
                    }
                }
            } else if u == stepv {
                if let Some(p1) = pw {
                    if p1 < bound {
                        let att = &attributes[bd.attribute];
                        let idx = if j < i {
                            &att.alt_reverse
                        } else {
                            &att.neu_reverse
                        };
                        exts.push(idx.extend_using(p1));
                        added = true;
                        proof {
                            assert(attributes@[a].wf());
                            assert(attributes@[a].consistent());
                            assert(crate::trace::nonnegative(exts@.last().indices@));
                            assert(b.symbols.1 != syms@[bound as int]);
                            assert(newly_bound(b, syms@, bound as int));
                            assert(step_has_extender(bindings@, i as int, syms@, bound as int));
                            assert(rels[a] == attributes@[a].rel());
                            assert forall|p: Seq<ValueV>, v: ValueV, t: Product|
                                crate::extend::ext_present(
                                #[trigger] extviews(exts@).last(),
                                p,
                                v,
                                AltNeu::spec_alt(t),
                            ) == step_cond(
                                bindings@,
                                rels,
                                syms@,
                                bound as int,
                                i as int,
                                j as int,
                                p,
                                v,
                                t,
                            ) by {
                                lemma_view_semantics(
                                    attributes@[a].rel(),
                                    p[p1 as int],
                                    v,
                                    t,
                                    false,
                                    j > i,
                                );
                            }
                        }
                    }
                }
            }
            proof {
                if added {
                    assert(extviews(exts@).drop_last() =~= extviews(exts_before));
                    assert forall|p: Seq<ValueV>, v: ValueV, t: Product| #[trigger] all_present(
                        extviews(exts@),
                        p,
                        v,
                        AltNeu::spec_alt(t),
                    ) == (forall|jj: int| 0 <= jj < j + 1 && jj != i && newly_bound(
                        #[trigger] bindings@[jj],
                        syms@,
                        bound as int,
                    ) ==> step_cond(
                        bindings@,
                        rels,
                        syms@,
                        bound as int,
                        i as int,
                        jj,
                        p,
                        v,
                        t,
                    )) by {
                        lemma_all_present_push(
                            extviews(exts_before),
                            extviews(exts@).last(),
                            p,
                            v,
                            AltNeu::spec_alt(t),
                        );
                        assert(extviews(exts@) == extviews(exts_before).push(
                            extviews(exts@).last(),
                        ));
                    }
                } else {
                    assert(!(j != i && newly_bound(b, syms@, bound as int))) by {
                        if newly_bound(b, syms@, bound as int) {
                            if b.symbols.1 == syms@[bound as int] {
                                assert(pos_of(syms@, b.symbols.0) < bound);
                                lemma_pos_of(syms@, b.symbols.0);
                            } else {
                                assert(b.symbols.0 == syms@[bound as int]);
                                assert(pos_of(syms@, b.symbols.1) < bound);
                                lemma_pos_of(syms@, b.symbols.1);
                            }
                        }
                    }
                }
            }
        } else {
            proof {
                assert(j == i);
            }
        }
        j = j + 1;
    }
    proof {
        if exts@.len() == 0 {
            assert(!step_has_extender(bindings@, i as int, syms@, bound as int)) by {
                if step_has_extender(bindings@, i as int, syms@, bound as int) {
                    let jw = choose|jw: int| 0 <= jw < bindings@.len() && jw != i && newly_bound(
                        #[trigger] bindings@[jw],
                        syms@,
                        bound as int,
                    );
                }
            }
        } else {
            // An extender was built only for a newly bound binding, so one
            // exists. Its construction site recorded the witness.
            assert(step_has_extender(bindings@, i as int, syms@, bound as int));
        }
    }
    exts
}


/// Folds proposed extensions back into prefixes one symbol longer.
fn flatten(out: &Vec<ExtensionRecord>, bound: usize) -> (r: Vec<PrefixRecord>)
    requires
        crate::extend::plen_exts(out@, bound as int),
        bound < usize::MAX,
    ensures
        plen_prefixes(r@, bound + 1),
        forall|q: Seq<ValueV>, ss: AltNeu| #[trigger] pacc(pviews(r@), q, ss) == if q.len()
            == bound + 1 {
            eacc(eviews(out@), q.take(bound as int), q[bound as int], ss)
        } else {
            0
        },
        crate::extend::er_rounds(out@) ==> crate::extend::pr_rounds(r@),
{
    let mut res: Vec<PrefixRecord> = Vec::new();
    let mut c: usize = 0;
    let n = out.len();
    proof {
        assert(pviews(res@) =~= Seq::<PrefixRecV>::empty());
        assert(eviews(out@).take(0) =~= Seq::<crate::extend::ExtRecV>::empty());
    }
    while c < n
        invariant
            c <= n,
            n == out@.len(),
            bound < usize::MAX,
            crate::extend::plen_exts(out@, bound as int),
            res@.len() == c,
            plen_prefixes(res@, bound + 1),
            forall|q: Seq<ValueV>, ss: AltNeu| #[trigger] pacc(pviews(res@), q, ss) == if q.len()
                == bound + 1 {
                eacc(eviews(out@).take(c as int), q.take(bound as int), q[bound as int], ss)
            } else {
                0
            },
            forall|j: int| #![trigger res@[j]] 0 <= j < res@.len() ==> res@[j].time == out@[
                j
            ].time,
        decreases n - c,
    {
        let x = &out[c];
        let ghost xv = out@[c as int]@;
        let ghost recs_before = res@;
        let ghost before = pviews(res@);
        let mut prefix = crate::extend::clone_prefix(&x.prefix);
        prefix.push(x.extension.clone());
        proof {
            assert(out@[c as int].prefix@.len() == bound as int);
            assert(vals(prefix@) =~= xv.prefix.push(xv.extension));
        }
        res.push(PrefixRecord { prefix, time: x.time, diff: x.diff });
        proof {
            assert forall|j: int| #![trigger res@[j]] 0 <= j < res@.len() implies res@[j].time
                == out@[j].time by {
                if j < recs_before.len() {
                    assert(res@[j] == recs_before[j]);
                } else {
                    assert(res@[j] == res@.last());
                    assert(res@.last().time == out@[c as int].time);
                }
            }
            assert(pviews(res@).drop_last() =~= before);
            assert(pviews(res@).last().prefix == xv.prefix.push(xv.extension));
            assert(pviews(res@).last().time == xv.time);
            assert(pviews(res@).last().diff == xv.diff);
            assert(res@.last().prefix@.len() == bound + 1);
            assert forall|jj: int| #![trigger res@[jj]] 0 <= jj < res@.len() implies bound + 1
                == res@[jj].prefix@.len() by {
                if jj < recs_before.len() {
                    assert(res@[jj] == recs_before[jj]);
                } else {
                    assert(res@[jj] == res@.last());
                }
            }
            assert forall|q: Seq<ValueV>, ss: AltNeu| #[trigger] pacc(pviews(res@), q, ss)
                == (if q.len() == bound + 1 {
                eacc(eviews(out@).take(c + 1), q.take(bound as int), q[bound as int], ss)
            } else {
                0
            }) by {
                assert(eviews(out@).take(c + 1).drop_last() =~= eviews(out@).take(c as int));
                assert(eviews(out@).take(c + 1).last() == xv);
                assert(pacc(pviews(res@), q, ss) == pacc(before, q, ss) + if xv.prefix.push(
                    xv.extension,
                ) == q && xv.time == ss {
                    xv.diff
                } else {
                    0
                });
                if q.len() == bound + 1 {
                    assert(xv.prefix.len() == bound as int);
                    assert((xv.prefix.push(xv.extension) == q) == (xv.prefix == q.take(
                        bound as int,
                    ) && xv.extension == q[bound as int])) by {
                        if xv.prefix == q.take(bound as int) && xv.extension == q[bound as int] {
                            assert(xv.prefix.push(xv.extension) =~= q);
                        }
                        if xv.prefix.push(xv.extension) == q {
                            assert(xv.prefix =~= q.take(bound as int));
                        }
                    }
                }
            }
        }
        c = c + 1;
    }
    proof {
        assert(eviews(out@).take(n as int) =~= eviews(out@));
        if crate::extend::er_rounds(out@) {
            assert forall|j: int| #![trigger res@[j]] 0 <= j < res@.len() implies !res@[
                j
            ].time.neu && res@[j].time.time.inner == 0 by {
                assert(!out@[j].time.neu && out@[j].time.time.inner == 0);
            }
            assert(crate::extend::pr_rounds(res@));
        }
    }
    res
}

/// Projects the branch's finished prefixes from its own symbol order to the
/// query's variable order, leaving the phased scope: the phase tag is
/// dropped from each time.
fn project(
    cur: &Vec<PrefixRecord>,
    syms: &Vec<Var>,
    variables: &Vec<Var>,
) -> (r: Vec<OutputRecord>)
    requires
        plen_prefixes(cur@, syms@.len() as int),
        distinct_vars(syms@),
        distinct_vars(variables@),
        forall|q: int| 0 <= q < variables@.len() ==> syms@.contains(#[trigger] variables@[q]),
        forall|m: int| 0 <= m < syms@.len() ==> variables@.contains(#[trigger] syms@[m]),
    ensures
        forall|x: Seq<ValueV>, t: Product| x.len() == variables@.len() ==> #[trigger] oacc_at(
            oviews(r@),
            x,
            t,
        ) == pacc(pviews(cur@), reindex(x, variables@, syms@), AltNeu::spec_alt(t)) + pacc(
            pviews(cur@),
            reindex(x, variables@, syms@),
            AltNeu::spec_neu(t),
        ),
        forall|x: Seq<ValueV>, t: Product| x.len() != variables@.len() ==> #[trigger] oacc_at(
            oviews(r@),
            x,
            t,
        ) == 0,
        crate::extend::pr_rounds(cur@) ==> out_round_times(oviews(r@)),
{
    let mut res: Vec<OutputRecord> = Vec::new();
    let nv = variables.len();
    let mut c: usize = 0;
    let n = cur.len();
    proof {
        assert(oviews(res@) =~= Seq::<OutRecV>::empty());
        assert(pviews(cur@).take(0) =~= Seq::<PrefixRecV>::empty());
    }
    while c < n
        invariant
            c <= n,
            n == cur@.len(),
            nv == variables@.len(),
            res@.len() == c,
            plen_prefixes(cur@, syms@.len() as int),
            distinct_vars(syms@),
            distinct_vars(variables@),
            forall|q: int| 0 <= q < variables@.len() ==> syms@.contains(#[trigger] variables@[q]),
            forall|m: int| 0 <= m < syms@.len() ==> variables@.contains(#[trigger] syms@[m]),
            forall|x: Seq<ValueV>, t: Product| x.len() == variables@.len() ==> #[trigger] oacc_at(
                oviews(res@),
                x,
                t,
            ) == pacc(
                pviews(cur@).take(c as int),
                reindex(x, variables@, syms@),
                AltNeu::spec_alt(t),
            ) + pacc(
                pviews(cur@).take(c as int),
                reindex(x, variables@, syms@),
                AltNeu::spec_neu(t),
            ),
            forall|x: Seq<ValueV>, t: Product| x.len() != variables@.len() ==> #[trigger] oacc_at(
                oviews(res@),
                x,
                t,
            ) == 0,
            forall|j: int| #![trigger oviews(res@)[j]] 0 <= j < res@.len() ==> oviews(
                res@,
            )[j].time == cur@[j]@.time.time,
        decreases n - c,
    {
        let pr = &cur[c];
        let ghost prv = cur@[c as int]@;
        let ghost before = oviews(res@);
        let mut tuple: Vec<Value> = Vec::new();
        let mut vp: usize = 0;
        proof {
            assert(cur@[c as int].prefix@.len() == syms@.len());
            assert(prv.prefix.len() == syms@.len());
        }
        while vp < nv
            invariant
                vp <= nv,
                nv == variables@.len(),
                c < n,
                n == cur@.len(),
                prv == cur@[c as int]@,
                pr == &cur[c as int],
                prv.prefix.len() == syms@.len(),
                cur@[c as int].prefix@.len() == syms@.len(),
                distinct_vars(syms@),
                forall|q: int| 0 <= q < variables@.len() ==> syms@.contains(
                    #[trigger] variables@[q],
                ),
                tuple@.len() == vp,
                forall|m: int| 0 <= m < vp ==> #[trigger] tuple@[m]@ == prv.prefix[pos_of(
                    syms@,
                    variables@[m],
                )],
            decreases nv - vp,
        {
            let v = variables[vp];
            let po = find_pos(syms, v);
            proof {
                assert(syms@.contains(v));
                lemma_pos_of(syms@, v);
            }
            match po {
                Some(m) => {
                    tuple.push(pr.prefix[m].clone());
                },
                None => {
                    proof {
                        assert(false);
                    }
                },
            }
            vp = vp + 1;
        }
        res.push(OutputRecord { tuple, time: pr.time.time, diff: pr.diff });
        proof {
            assert forall|j: int| #![trigger oviews(res@)[j]] 0 <= j < res@.len() implies oviews(
                res@,
            )[j].time == cur@[j]@.time.time by {
                if j < before.len() {
                    assert(oviews(res@)[j] == before[j]);
                } else {
                    assert(oviews(res@)[j] == oviews(res@).last());
                }
            }
            assert(oviews(res@).drop_last() =~= before);
            let ghost rv = oviews(res@).last();
            assert(rv.time == prv.time.time);
            assert(rv.diff == prv.diff);
            assert(rv.tuple.len() == nv);
            assert(forall|m: int| 0 <= m < nv ==> #[trigger] rv.tuple[m] == prv.prefix[pos_of(
                syms@,
                variables@[m],
            )]);
            assert forall|x: Seq<ValueV>, t: Product| x.len() == variables@.len()
                implies #[trigger] oacc_at(oviews(res@), x, t) == pacc(
                pviews(cur@).take(c + 1),
                reindex(x, variables@, syms@),
                AltNeu::spec_alt(t),
            ) + pacc(
                pviews(cur@).take(c + 1),
                reindex(x, variables@, syms@),
                AltNeu::spec_neu(t),
            ) by {
                let qx = reindex(x, variables@, syms@);
                assert(pviews(cur@).take(c + 1).drop_last() =~= pviews(cur@).take(c as int));
                assert(pviews(cur@).take(c + 1).last() == prv);
                assert(oacc_at(oviews(res@), x, t) == oacc_at(before, x, t) + if rv.tuple == x
                    && rv.time == t {
                    rv.diff
                } else {
                    0
                });
                // The projected tuple equals x exactly when the prefix
                // equals x read back into branch order.
                assert((rv.tuple == x) == (prv.prefix == qx)) by {
                    if prv.prefix == qx {
                        assert forall|m: int| 0 <= m < nv implies rv.tuple[m] == x[m] by {
                            assert(syms@.contains(variables@[m]));
                            lemma_pos_of(syms@, variables@[m]);
                            let sm = pos_of(syms@, variables@[m]);
                            assert(rv.tuple[m] == prv.prefix[sm]);
                            assert(prv.prefix[sm] == qx[sm]);
                            assert(qx[sm] == x[pos_of(variables@, syms@[sm])]);
                            assert(syms@[sm] == variables@[m]);
                            lemma_pos_of_distinct(variables@, m);
                        }
                        assert(rv.tuple =~= x);
                    }
                    if rv.tuple == x {
                        assert forall|m: int| 0 <= m < syms@.len() implies prv.prefix[m]
                            == qx[m] by {
                            assert(qx[m] == x[pos_of(variables@, syms@[m])]);
                            if variables@.contains(syms@[m]) {
                                lemma_pos_of(variables@, syms@[m]);
                                let vm = pos_of(variables@, syms@[m]);
                                assert(x[vm] == rv.tuple[vm]);
                                assert(rv.tuple[vm] == prv.prefix[pos_of(
                                    syms@,
                                    variables@[vm],
                                )]);
                                assert(variables@[vm] == syms@[m]);
                                lemma_pos_of_distinct(syms@, m);
                            } else {
                                assert(variables@.contains(syms@[m]));
                                assert(false);
                            }
                        }
                        assert(prv.prefix =~= qx);
                    }
                }
                assert((rv.time == t) == (prv.time == AltNeu::spec_alt(t) || prv.time
                    == AltNeu::spec_neu(t)));
            }
            assert forall|x: Seq<ValueV>, t: Product| x.len() != variables@.len()
                implies #[trigger] oacc_at(oviews(res@), x, t) == 0 by {
                assert(oacc_at(oviews(res@), x, t) == oacc_at(before, x, t) + if rv.tuple == x
                    && rv.time == t {
                    rv.diff
                } else {
                    0
                });
                assert(rv.tuple.len() == variables@.len());
            }
        }
        c = c + 1;
    }
    proof {
        assert(pviews(cur@).take(n as int) =~= pviews(cur@));
        if crate::extend::pr_rounds(cur@) {
            assert forall|j: int| 0 <= j < oviews(res@).len() implies (#[trigger] oviews(
                res@,
            )[j]).time.inner == 0 by {
                assert(oviews(res@)[j].time == cur@[j]@.time.time);
                assert(!cur@[j].time.neu && cur@[j].time.time.inner == 0);
                assert(cur@[j]@.time == cur@[j].time);
            }
            assert(out_round_times(oviews(res@)));
        }
    }
    res
}


/// Moving the bound one symbol further: a binding becomes fully bound at
/// the step that binds its later endpoint, and only there.
proof fn lemma_fully_bound_step(b: Binding, syms: Seq<Var>, bound: int)
    requires
        b.wf(),
        distinct_vars(syms),
        syms.contains(b.symbols.0),
        syms.contains(b.symbols.1),
        0 <= bound < syms.len(),
    ensures
        fully_bound(b, syms, bound + 1) == (fully_bound(b, syms, bound) || newly_bound(
            b,
            syms,
            bound,
        )),
        !(newly_bound(b, syms, bound) && fully_bound(b, syms, bound)),
{
    lemma_pos_of(syms, b.symbols.0);
    lemma_pos_of(syms, b.symbols.1);
    let p0 = pos_of(syms, b.symbols.0);
    let p1 = pos_of(syms, b.symbols.1);
    assert(syms[p0] == b.symbols.0);
    assert(syms[p1] == b.symbols.1);
    if b.symbols.0 == syms[bound] {
        lemma_pos_of_distinct(syms, bound);
    }
    if b.symbols.1 == syms[bound] {
        lemma_pos_of_distinct(syms, bound);
    }
    assert(p0 != p1);
}

/// Evaluates one delta branch: the changes of the driving binding's own
/// relation, extended symbol by symbol through the other bindings' phased
/// and oriented index views, projected to the query's variable order.
fn eval_branch(
    bindings: &Vec<Binding>,
    variables: &Vec<Var>,
    attributes: &Vec<Attribute>,
    i: usize,
) -> (r: Result<Vec<OutputRecord>, QueryError>)
    requires
        query_wf(variables@, bindings@, attributes@.len() as int),
        i < bindings@.len(),
        forall|m: int| 0 <= m < attributes@.len() ==> (#[trigger] attributes@[m]).wf()
            && attributes@[m].consistent(),
    ensures
        match r {
            Result::Ok(out) => (forall|x: Seq<ValueV>, t: Product| x.len() == variables@.len()
                ==> #[trigger] oacc_at(oviews(out@), x, t) == branch_term(
                bindings@,
                variables@,
                rels_of(attributes@),
                i as int,
                x,
                t,
            )) && (forall|x: Seq<ValueV>, t: Product| x.len() != variables@.len()
                ==> #[trigger] oacc_at(oviews(out@), x, t) == 0) && (round_times(
                rels_of(attributes@),
            ) ==> out_round_times(oviews(out@))),
            Result::Err(e) => e == QueryError::UnboundExtenders,
        },
        (r is Ok) == branch_connected(bindings@, variables@, i as int),
{
    let ghost rels = rels_of(attributes@);
    let n = bindings.len();
    let bi = &bindings[i];
    let (s0, s1) = bi.symbols;
    let syms = build_syms(variables, s0, s1);
    proof {
        assert(rels[bindings@[i as int].attribute as int] == attributes@[bindings@[
            i as int
        ].attribute as int].rel());
        // Every binding symbol is a variable and hence a branch symbol.
        assert forall|j: int| 0 <= j < n implies syms@.contains(
            (#[trigger] bindings@[j]).symbols.0,
        ) && syms@.contains(bindings@[j].symbols.1) by {
            assert(variables@.contains(bindings@[j].symbols.0));
            assert(variables@.contains(bindings@[j].symbols.1));
            let w0 = choose|w: int| 0 <= w < variables@.len() && variables@[w] == bindings@[
                j
            ].symbols.0;
            assert(syms@.contains(variables@[w0]));
            let w1 = choose|w: int| 0 <= w < variables@.len() && variables@[w] == bindings@[
                j
            ].symbols.1;
            assert(syms@.contains(variables@[w1]));
        }
        // Every branch symbol is a variable.
        assert forall|m: int| 0 <= m < syms@.len() implies variables@.contains(
            #[trigger] syms@[m],
        ) by {
            assert(variables@.contains(bindings@[i as int].symbols.0));
            assert(variables@.contains(bindings@[i as int].symbols.1));
        }
    }
    let init = build_init(&attributes[bi.attribute]);
    let ghost rel_i = attributes@[bindings@[i as int].attribute as int].rel();
    proof {
        if round_times(rels) {
            assert forall|cc: int| 0 <= cc < rel_i.len() implies (#[trigger] rel_i[
                cc
            ]).time.inner == 0 by {
                assert(rels[bindings@[i as int].attribute as int] == rel_i);
            }
        }
    }
    let mut cur: Vec<PrefixRecord> = init;
    let mut bound: usize = 2;
    proof {
        // With two symbols bound, no other binding is fully bound yet: that
        // would make it name the driving binding's own symbol pair.
        assert forall|q: Seq<ValueV>, t: Product| #[trigger] pacc(
            pviews(cur@),
            q,
            AltNeu::spec_alt(t),
        ) == (if q.len() == bound && (forall|j: int| 0 <= j < n && j != i && fully_bound(
            #[trigger] bindings@[j],
            syms@,
            bound as int,
        ) ==> pair_cond(bindings@, rels, syms@, i as int, j, q, t)) {
            delta_at(rel_i, q[0], q[1], t)
        } else {
            0
        }) by {
            assert forall|j: int| 0 <= j < n && j != i implies !fully_bound(
                #[trigger] bindings@[j],
                syms@,
                2,
            ) by {
                if fully_bound(bindings@[j], syms@, 2) {
                    lemma_pos_of(syms@, bindings@[j].symbols.0);
                    lemma_pos_of(syms@, bindings@[j].symbols.1);
                    let p0 = pos_of(syms@, bindings@[j].symbols.0);
                    let p1 = pos_of(syms@, bindings@[j].symbols.1);
                    assert(syms@[p0] == bindings@[j].symbols.0);
                    assert(syms@[p1] == bindings@[j].symbols.1);
                    assert(p0 != p1);
                    assert(crate::attribute::same_symbols(
                        bindings@[j].symbols,
                        bindings@[i as int].symbols,
                    ));
                }
            }
            if q.len() == 2 {
            }
        }
    }
    while bound < syms.len()
        invariant
            2 <= bound <= syms@.len(),
            n == bindings@.len(),
            i < n,
            rels == rels_of(attributes@),
            rel_i == attributes@[bindings@[i as int].attribute as int].rel(),
            query_wf(variables@, bindings@, attributes@.len() as int),
            forall|m: int| 0 <= m < attributes@.len() ==> (#[trigger] attributes@[m]).wf()
                && attributes@[m].consistent(),
            distinct_vars(syms@),
            syms@.len() >= 2,
            syms@[0] == bindings@[i as int].symbols.0,
            syms@[1] == bindings@[i as int].symbols.1,
            forall|j: int| 0 <= j < n ==> syms@.contains((#[trigger] bindings@[j]).symbols.0)
                && syms@.contains(bindings@[j].symbols.1),
            forall|m: int| 0 <= m < syms@.len() ==> variables@.contains(#[trigger] syms@[m]),
            forall|q: int| 0 <= q < variables@.len() ==> syms@.contains(#[trigger] variables@[q]),
            syms@ == branch_syms(
                variables@,
                bindings@[i as int].symbols.0,
                bindings@[i as int].symbols.1,
            ),
            forall|b2: int| 2 <= b2 < bound ==> step_has_extender(
                bindings@,
                i as int,
                syms@,
                b2,
            ),
            plen_prefixes(cur@, bound as int),
            round_times(rels) ==> crate::extend::pr_rounds(cur@),
            forall|q: Seq<ValueV>, t: Product| #[trigger] pacc(pviews(cur@), q, AltNeu::spec_alt(t))
                == if q.len() == bound && (forall|j: int| 0 <= j < n && j != i && fully_bound(
                #[trigger] bindings@[j],
                syms@,
                bound as int,
            ) ==> pair_cond(bindings@, rels, syms@, i as int, j, q, t)) {
                delta_at(rel_i, q[0], q[1], t)
            } else {
                0
            },
            forall|q: Seq<ValueV>, ss: AltNeu| ss.neu ==> #[trigger] pacc(pviews(cur@), q, ss)
                == 0,
        decreases syms@.len() - bound,
    {
        let step_exts = build_step_exts(bindings, attributes, &syms, i, bound);
        let stepped = extend(&cur, &step_exts, bound);
        match stepped {
            Err(e) => {
                proof {
                    // The step found no extender, so the pattern is not
                    // connected along this branch's symbol order.
                    assert(step_exts@.len() == 0);
                    assert(!step_has_extender(bindings@, i as int, syms@, bound as int));
                    assert(!branch_connected(bindings@, variables@, i as int));
                }
                return Err(e);
            },
            Ok(out) => {
                let next = flatten(&out, bound);
                proof {
                    assert(step_exts@.len() > 0);
                    assert(step_has_extender(bindings@, i as int, syms@, bound as int));
                    if round_times(rels) {
                        assert(crate::extend::pr_rounds(cur@));
                        assert(crate::extend::er_rounds(out@));
                        assert(crate::extend::pr_rounds(next@));
                    }
                    let ghost newb = bound + 1;
                    assert forall|q: Seq<ValueV>, t: Product| #[trigger] pacc(
                        pviews(next@),
                        q,
                        AltNeu::spec_alt(t),
                    ) == (if q.len() == newb && (forall|j: int| 0 <= j < n && j != i && fully_bound(
                        #[trigger] bindings@[j],
                        syms@,
                        newb,
                    ) ==> pair_cond(bindings@, rels, syms@, i as int, j, q, t)) {
                        delta_at(rel_i, q[0], q[1], t)
                    } else {
                        0
                    }) by {
                        if q.len() == newb {
                            let p = q.take(bound as int);
                            let v = q[bound as int];
                            assert(pacc(pviews(next@), q, AltNeu::spec_alt(t)) == eacc(
                                eviews(out@),
                                p,
                                v,
                                AltNeu::spec_alt(t),
                            ));
                            assert(p.len() == bound as int);
                            assert(p[0] == q[0] && p[1] == q[1]);
                            // each newly bound binding's step condition over
                            // (p, v) is its pair condition over q
                            assert forall|j: int| 0 <= j < n && j != i && newly_bound(
                                #[trigger] bindings@[j],
                                syms@,
                                bound as int,
                            ) implies step_cond(
                                bindings@,
                                rels,
                                syms@,
                                bound as int,
                                i as int,
                                j,
                                p,
                                v,
                                t,
                            ) == pair_cond(bindings@, rels, syms@, i as int, j, q, t) by {
                                lemma_pos_of(syms@, bindings@[j].symbols.0);
                                lemma_pos_of(syms@, bindings@[j].symbols.1);
                                lemma_pos_of_distinct(syms@, bound as int);
                            }
                            // each already bound binding reads the same
                            // values from p and from q
                            assert forall|j: int| 0 <= j < n && j != i && fully_bound(
                                #[trigger] bindings@[j],
                                syms@,
                                bound as int,
                            ) implies pair_cond(bindings@, rels, syms@, i as int, j, p, t)
                                == pair_cond(bindings@, rels, syms@, i as int, j, q, t) by {
                                lemma_pos_of(syms@, bindings@[j].symbols.0);
                                lemma_pos_of(syms@, bindings@[j].symbols.1);
                            }
                            assert forall|j: int| 0 <= j < n && j != i implies (fully_bound(
                                #[trigger] bindings@[j],
                                syms@,
                                newb,
                            ) == (fully_bound(bindings@[j], syms@, bound as int) || newly_bound(
                                bindings@[j],
                                syms@,
                                bound as int,
                            ))) by {
                                lemma_fully_bound_step(bindings@[j], syms@, bound as int);
                            }
                        } else {
                            assert(pacc(pviews(next@), q, AltNeu::spec_alt(t)) == 0);
                        }
                    }
                    assert forall|q: Seq<ValueV>, ss: AltNeu| ss.neu implies #[trigger] pacc(
                        pviews(next@),
                        q,
                        ss,
                    ) == 0 by {
                        if q.len() == bound + 1 {
                            assert(pacc(pviews(next@), q, ss) == eacc(
                                eviews(out@),
                                q.take(bound as int),
                                q[bound as int],
                                ss,
                            ));
                        }
                    }
                }
                cur = next;
                bound = bound + 1;
            },
        }
    }
    let bout = project(&cur, &syms, variables);
    proof {
        assert(branch_connected(bindings@, variables@, i as int));
        if round_times(rels) {
            assert(crate::extend::pr_rounds(cur@));
            assert(out_round_times(oviews(bout@)));
        }
        let lf = syms@.len() as int;
        assert forall|x: Seq<ValueV>, t: Product| x.len() == variables@.len()
            implies #[trigger] oacc_at(oviews(bout@), x, t) == branch_term(
            bindings@,
            variables@,
            rels,
            i as int,
            x,
            t,
        ) by {
            let qx = reindex(x, variables@, syms@);
            assert(qx.len() == lf);
            assert(oacc_at(oviews(bout@), x, t) == pacc(pviews(cur@), qx, AltNeu::spec_alt(t))
                + pacc(pviews(cur@), qx, AltNeu::spec_neu(t)));
            assert(pacc(pviews(cur@), qx, AltNeu::spec_neu(t)) == 0);
            // with every symbol bound, every other binding is fully bound
            assert forall|j: int| 0 <= j < n && j != i implies fully_bound(
                #[trigger] bindings@[j],
                syms@,
                lf,
            ) by {
                lemma_pos_of(syms@, bindings@[j].symbols.0);
                lemma_pos_of(syms@, bindings@[j].symbols.1);
            }
            // a binding's pair read from qx is its pair under x
            assert forall|j: int| 0 <= j < n implies pair_cond(
                bindings@,
                rels,
                syms@,
                i as int,
                j,
                qx,
                t,
            ) == phased_present(
                rels[(#[trigger] bindings@[j]).attribute as int],
                pair_entity(bindings@[j], variables@, x),
                pair_value(bindings@[j], variables@, x),
                t,
                j > i,
            ) by {
                lemma_pos_of(syms@, bindings@[j].symbols.0);
                lemma_pos_of(syms@, bindings@[j].symbols.1);
                let m0 = pos_of(syms@, bindings@[j].symbols.0);
                let m1 = pos_of(syms@, bindings@[j].symbols.1);
                assert(qx[m0] == x[pos_of(variables@, syms@[m0])]);
                assert(qx[m1] == x[pos_of(variables@, syms@[m1])]);
                assert(syms@[m0] == bindings@[j].symbols.0);
                assert(syms@[m1] == bindings@[j].symbols.1);
            }
            assert(qx[0] == x[pos_of(variables@, syms@[0])]);
            assert(qx[1] == x[pos_of(variables@, syms@[1])]);
            assert(pair_entity(bindings@[i as int], variables@, x) == qx[0]);
            assert(pair_value(bindings@[i as int], variables@, x) == qx[1]);
            let cond_inv = forall|j: int| 0 <= j < n && j != i && fully_bound(
                #[trigger] bindings@[j],
                syms@,
                lf,
            ) ==> pair_cond(bindings@, rels, syms@, i as int, j, qx, t);
            let cond_bt = (forall|j: int| 0 <= j < i ==> bound_le(
                bindings@,
                variables@,
                rels,
                j,
                x,
                t,
            )) && (forall|j: int| i < j < n ==> bound_lt(bindings@, variables@, rels, j, x, t));
            assert(cond_inv == cond_bt) by {
                if cond_inv {
                    assert forall|j: int| 0 <= j < i implies bound_le(
                        bindings@,
                        variables@,
                        rels,
                        j,
                        x,
                        t,
                    ) by {
                        assert(pair_cond(bindings@, rels, syms@, i as int, j, qx, t));
                    }
                    assert forall|j: int| i < j < n implies bound_lt(
                        bindings@,
                        variables@,
                        rels,
                        j,
                        x,
                        t,
                    ) by {
                        assert(pair_cond(bindings@, rels, syms@, i as int, j, qx, t));
                    }
                }
                if cond_bt {
                    assert forall|j: int| 0 <= j < n && j != i && fully_bound(
                        #[trigger] bindings@[j],
                        syms@,
                        lf,
                    ) implies pair_cond(bindings@, rels, syms@, i as int, j, qx, t) by {
                        if j < i {
                            assert(bound_le(bindings@, variables@, rels, j, x, t));
                        } else {
                            assert(bound_lt(bindings@, variables@, rels, j, x, t));
                        }
                    }
                }
            }
        }
    }
    Ok(bout)
}


/// Decides equality of two tuples, value by value.
pub fn tuple_eq(a: &Vec<Value>, b: &Vec<Value>) -> (r: bool)
    ensures
        r == (vals(a@) == vals(b@)),
{
    if a.len() != b.len() {
        proof {
            assert(vals(a@).len() != vals(b@).len());
        }
        return false;
    }
    let mut k: usize = 0;
    while k < a.len()
        invariant
            k <= a@.len(),
            a@.len() == b@.len(),
            forall|m: int| 0 <= m < k ==> a@[m]@ == b@[m]@,
        decreases a@.len() - k,
    {
        if !a[k].eq_value(&b[k]) {
            proof {
                assert(vals(a@)[k as int] == a@[k as int]@);
                assert(vals(b@)[k as int] == b@[k as int]@);
            }
            return false;
        }
        k = k + 1;
    }
    proof {
        assert(vals(a@) =~= vals(b@));
    }
    true
}

impl Hector {
    /// Implements the query: one delta branch per binding, all branches
    /// concatenated. The output is an incremental collection of changes to
    /// the query's result; for every assignment of the variables it
    /// accumulates, at each time, exactly what the delta-query semantics
    /// assigns to that time, across all branches. Evaluation succeeds
    /// exactly when the pattern stays connected along every branch's symbol
    /// order; a branch whose extension step finds no extender is reported,
    /// before any output is produced. Run `validate` first: the structural
    /// conditions are this function's contract, as is the differential
    /// consistency of the attributes' traces.
    pub fn implement(&self, attributes: &Vec<Attribute>) -> (r: Result<
        Vec<OutputRecord>,
        QueryError,
    >)
        requires
            query_wf(self.variables@, self.bindings@, attributes@.len() as int),
            forall|m: int| 0 <= m < attributes@.len() ==> (#[trigger] attributes@[m]).wf()
                && attributes@[m].consistent(),
        ensures
            match r {
                Result::Ok(out) => (forall|x: Seq<ValueV>, t: Product| x.len()
                    == self.variables@.len() ==> #[trigger] oacc_at(oviews(out@), x, t)
                    == hector_delta(
                    self.bindings@,
                    self.variables@,
                    rels_of(attributes@),
                    x,
                    t,
                )) && (forall|x: Seq<ValueV>, t: Product| x.len() != self.variables@.len()
                    ==> #[trigger] oacc_at(oviews(out@), x, t) == 0) && (round_times(
                    rels_of(attributes@),
                ) ==> out_round_times(oviews(out@))),
                Result::Err(e) => e == QueryError::UnboundExtenders,
            },
            (r is Ok) == query_connected(self.bindings@, self.variables@),
    {
        let ghost rels = rels_of(attributes@);
        let n = self.bindings.len();
        let mut out: Vec<OutputRecord> = Vec::new();
        let mut i: usize = 0;
        proof {
            assert(oviews(out@) =~= Seq::<OutRecV>::empty());
        }
        while i < n
            invariant
                i <= n,
                n == self.bindings@.len(),
                rels == rels_of(attributes@),
                query_wf(self.variables@, self.bindings@, attributes@.len() as int),
                forall|m: int| 0 <= m < attributes@.len() ==> (#[trigger] attributes@[m]).wf()
                    && attributes@[m].consistent(),
                forall|x: Seq<ValueV>, t: Product| x.len() == self.variables@.len()
                    ==> #[trigger] oacc_at(oviews(out@), x, t) == branch_sum(
                    self.bindings@,
                    self.variables@,
                    rels,
                    i as int,
                    x,
                    t,
                ),
                forall|x: Seq<ValueV>, t: Product| x.len() != self.variables@.len()
                    ==> #[trigger] oacc_at(oviews(out@), x, t) == 0,
                round_times(rels) ==> out_round_times(oviews(out@)),
                forall|i2: int| 0 <= i2 < i ==> branch_connected(
                    self.bindings@,
                    self.variables@,
                    i2,
                ),
            decreases n - i,
        {
            let branch = eval_branch(&self.bindings, &self.variables, attributes, i);
            match branch {
                Err(e) => {
                    proof {
                        assert(!branch_connected(self.bindings@, self.variables@, i as int));
                        assert(!query_connected(self.bindings@, self.variables@));
                    }
                    return Err(e);
                },
                Ok(bout) => {
                    let ghost bview = oviews(bout@);
                    let ghost out_before = oviews(out@);
                    let mut c: usize = 0;
                    proof {
                        assert(bview.take(0) =~= Seq::<OutRecV>::empty());
                    }
                    while c < bout.len()
                        invariant
                            c <= bout@.len(),
                            bview == oviews(bout@),
                            forall|x: Seq<ValueV>, t: Product| #[trigger] oacc_at(
                                oviews(out@),
                                x,
                                t,
                            ) == oacc_at(out_before, x, t) + oacc_at(bview.take(c as int), x, t),
                            round_times(rels) ==> out_round_times(bview),
                            round_times(rels) ==> out_round_times(oviews(out@)),
                        decreases bout@.len() - c,
                    {
                        let x = &bout[c];
                        let ghost before = oviews(out@);
                        out.push(
                            OutputRecord {
                                tuple: crate::extend::clone_prefix(&x.tuple),
                                time: x.time,
                                diff: x.diff,
                            },
                        );
                        proof {
                            assert(oviews(out@).drop_last() =~= before);
                            assert(oviews(out@).last() == bview[c as int]);
                            if round_times(rels) {
                                assert forall|jj: int| 0 <= jj < oviews(out@).len()
                                    implies (#[trigger] oviews(out@)[jj]).time.inner == 0 by {
                                    if jj < before.len() {
                                        assert(oviews(out@)[jj] == before[jj]);
                                    } else {
                                        assert(oviews(out@)[jj] == bview[c as int]);
                                    }
                                }
                            }
                            assert(bview.take(c + 1).drop_last() =~= bview.take(c as int));
                            assert(bview.take(c + 1).last() == bview[c as int]);
                            assert forall|xx: Seq<ValueV>, t: Product| #[trigger] oacc_at(
                                oviews(out@),
                                xx,
                                t,
                            ) == oacc_at(out_before, xx, t) + oacc_at(
                                bview.take(c + 1),
                                xx,
                                t,
                            ) by {
                                assert(oacc_at(oviews(out@), xx, t) == oacc_at(before, xx, t)
                                    + if bview[c as int].tuple == xx && bview[c as int].time == t {
                                    bview[c as int].diff
                                } else {
                                    0
                                });
                                assert(oacc_at(bview.take(c + 1), xx, t) == oacc_at(
                                    bview.take(c as int),
                                    xx,
                                    t,
                                ) + if bview[c as int].tuple == xx && bview[c as int].time == t {
                                    bview[c as int].diff
                                } else {
                                    0
                                });
                            }
                        }
                        c = c + 1;
                    }
                    proof {
                        assert(bview.take(bout@.len() as int) =~= bview);
                    }
                },
            }
            i = i + 1;
        }
        proof {
            assert(query_connected(self.bindings@, self.variables@));
        }
        Ok(out)
    }
}

/// Deduplication over the output: the distinct tuples whose accumulated
/// multiplicity at or before `t` is positive, each exactly once — the
/// query's result as of `t`. A tuple whose accumulated multiplicity is
/// negative at `t` is a data-consistency violation (more retractions than
/// insertions materialized): it is reported to the caller, never silently
/// clamped.
pub fn result_at(out: &Vec<OutputRecord>, t: Product) -> (r: Result<Vec<Vec<Value>>, QueryError>)
    ensures
        (r is Err) == exists|x: Seq<ValueV>| oacc_le(oviews(out@), x, t) < 0,
        r matches Result::Err(e) ==> e == QueryError::NegativeMultiplicity,
        r matches Result::Ok(res) ==> forall|m: int| 0 <= m < res@.len() ==> oacc_le(
            oviews(out@),
            #[trigger] vals(res@[m]@),
            t,
        ) > 0,
        forall|x: Seq<ValueV>| (r is Ok && oacc_le(oviews(out@), x, t) > 0) ==> exists|m: int|
            0 <= m < (r->Ok_0)@.len() && vals((r->Ok_0)@[m]@) == x,
        r matches Result::Ok(res) ==> forall|m1: int, m2: int| 0 <= m1 < m2 < res@.len()
            ==> vals(res@[m1]@) != vals(res@[m2]@),
{
    let mut res: Vec<Vec<Value>> = Vec::new();
    let mut negative = false;
    let ghost mut bad: Seq<ValueV> = Seq::empty();
    let mut c: usize = 0;
    let n = out.len();
    while c < n
        invariant
            c <= n,
            n == out@.len(),
            negative ==> oacc_le(oviews(out@), bad, t) < 0,
            forall|m: int| 0 <= m < res@.len() ==> oacc_le(
                oviews(out@),
                #[trigger] vals(res@[m]@),
                t,
            ) > 0,
            !negative ==> forall|j: int| 0 <= j < c ==> oacc_le(
                oviews(out@),
                (#[trigger] oviews(out@)[j]).tuple,
                t,
            ) >= 0,
            forall|j: int| 0 <= j < c ==> (oacc_le(oviews(out@), #[trigger] oviews(out@)[j].tuple, t)
                > 0 ==> exists|m: int| 0 <= m < res@.len() && vals(res@[m]@) == oviews(
                out@,
            )[j].tuple),
            forall|m1: int, m2: int| 0 <= m1 < m2 < res@.len() ==> vals(res@[m1]@) != vals(
                res@[m2]@,
            ),
        decreases n - c,
    {
        let cand = &out[c];
        proof {
            assert(oviews(out@)[c as int] == out@[c as int]@);
        }
        let m = acc_of_tuple(out, &cand.tuple, t);
        if m < 0 {
            negative = true;
            proof {
                bad = oviews(out@)[c as int].tuple;
            }
        }
        if m > 0 {
            if !contains_tuple(&res, &cand.tuple) {
                let ghost prior = res@;
                res.push(crate::extend::clone_prefix(&cand.tuple));
                proof {
                    assert(vals(res@[prior.len() as int]@) == oviews(out@)[c as int].tuple);
                    assert(forall|m2: int| 0 <= m2 < prior.len() ==> res@[m2] == prior[m2]);
                }
            }
        }
        c = c + 1;
    }
    proof {
        assert forall|x: Seq<ValueV>| oacc_le(oviews(out@), x, t) > 0 implies exists|m: int| 0 <= m
            < res@.len() && vals(#[trigger] res@[m]@) == x by {
            if forall|j: int| 0 <= j < oviews(out@).len() ==> (#[trigger] oviews(out@)[j]).tuple
                != x {
                lemma_oacc_unrecorded(oviews(out@), x, t);
            } else {
                let j = choose|j: int| 0 <= j < oviews(out@).len() && (#[trigger] oviews(
                    out@,
                )[j]).tuple == x;
                assert(oacc_le(oviews(out@), oviews(out@)[j].tuple, t) > 0);
            }
        }
        if !negative {
            assert forall|x: Seq<ValueV>| oacc_le(oviews(out@), x, t) >= 0 by {
                if forall|j: int| 0 <= j < oviews(out@).len() ==> (#[trigger] oviews(
                    out@,
                )[j]).tuple != x {
                    lemma_oacc_unrecorded(oviews(out@), x, t);
                } else {
                    let j = choose|j: int| 0 <= j < oviews(out@).len() && (#[trigger] oviews(
                        out@,
                    )[j]).tuple == x;
                    assert(oacc_le(oviews(out@), oviews(out@)[j].tuple, t) >= 0);
                }
            }
        }
    }
    let ghost resv = res@;
    let r: Result<Vec<Vec<Value>>, QueryError> = if negative {
        Err(QueryError::NegativeMultiplicity)
    } else {
        Ok(res)
    };
    proof {
        if !negative {
            assert((r->Ok_0)@ == resv);
            assert forall|x: Seq<ValueV>| (r is Ok && oacc_le(oviews(out@), x, t) > 0)
                implies exists|m: int| 0 <= m < (r->Ok_0)@.len() && vals((r->Ok_0)@[m]@)
                == x by {
                let m = choose|m: int| 0 <= m < resv.len() && vals(#[trigger] resv[m]@) == x;
                assert(vals((r->Ok_0)@[m]@) == x);
            }
        }
    }
    r
}

/// A tuple never emitted accumulates nothing.
proof fn lemma_oacc_unrecorded(recs: Seq<OutRecV>, x: Seq<ValueV>, t: Product)
    requires
        forall|j: int| 0 <= j < recs.len() ==> (#[trigger] recs[j]).tuple != x,
    ensures
        oacc_le(recs, x, t) == 0,
    decreases recs.len(),
{
    if recs.len() > 0 {
        lemma_oacc_unrecorded(recs.drop_last(), x, t);
    }
}

/// The accumulated multiplicity of one tuple at or before `t`.
fn acc_of_tuple(out: &Vec<OutputRecord>, tuple: &Vec<Value>, t: Product) -> (r: i128)
    ensures
        r as int == oacc_le(oviews(out@), vals(tuple@), t),
{
    let mut total: i128 = 0;
    let mut c: usize = 0;
    let n = out.len();
    proof {
        assert(oviews(out@).take(0) =~= Seq::<OutRecV>::empty());
    }
    while c < n
        invariant
            c <= n,
            n == out@.len(),
            total as int == oacc_le(oviews(out@).take(c as int), vals(tuple@), t),
            -(c as int) * 0x8000_0000_0000_0000 <= total as int <= (c as int)
                * 0x8000_0000_0000_0000,
        decreases n - c,
    {
        let rec = &out[c];
        proof {
            assert(oviews(out@).take(c + 1).drop_last() =~= oviews(out@).take(c as int));
            assert(oviews(out@).take(c + 1).last() == out@[c as int]@);
            assert((c + 1) * 0x8000_0000_0000_0000 == c * 0x8000_0000_0000_0000
                + 0x8000_0000_0000_0000);
            assert(-((c + 1) * 0x8000_0000_0000_0000) == -(c * 0x8000_0000_0000_0000)
                - 0x8000_0000_0000_0000);
        }
        if tuple_eq(&rec.tuple, tuple) && rec.time.less_equal(&t) {
            total = total + rec.diff as i128;
        }
        c = c + 1;
    }
    proof {
        assert(oviews(out@).take(n as int) =~= oviews(out@));
    }
    total
}

/// Decides whether a tuple (by content) occurs in a collection of tuples.
fn contains_tuple(res: &Vec<Vec<Value>>, tuple: &Vec<Value>) -> (r: bool)
    ensures
        r == exists|m: int| 0 <= m < res@.len() && vals(res@[m]@) == vals(tuple@),
{
    let mut k: usize = 0;
    while k < res.len()
        invariant
            k <= res@.len(),
            forall|m: int| 0 <= m < k ==> vals(res@[m]@) != vals(tuple@),
        decreases res@.len() - k,
    {
        if tuple_eq(&res[k], tuple) {
            return true;
        }
        k = k + 1;
    }
    false
}


/// Every output record's time has inner iteration zero: it is a round time.
pub open spec fn out_round_times(recs: Seq<OutRecV>) -> bool {
    forall|j: int| 0 <= j < recs.len() ==> (#[trigger] recs[j]).time.inner == 0
}

/// The output accumulated round by round, through round `r`.
pub open spec fn cum_at(recs: Seq<OutRecV>, x: Seq<ValueV>, r: int) -> int
    decreases r + 1,
{
    if r < 0 {
        0
    } else {
        cum_at(recs, x, r - 1) + oacc_at(recs, x, Product { outer: r as u64, inner: 0 })
    }
}

/// Appending one round-timed record raises the round-by-round accumulation
/// by its diff when its tuple and round are covered.
proof fn lemma_cum_push(recs: Seq<OutRecV>, rec: OutRecV, x: Seq<ValueV>, r: int)
    requires
        rec.time.inner == 0,
        r <= u64::MAX,
    ensures
        cum_at(recs.push(rec), x, r) == cum_at(recs, x, r) + if rec.tuple == x && rec.time.outer
            <= r {
            rec.diff
        } else {
            0
        },
    decreases r + 1,
{
    if r >= 0 {
        lemma_cum_push(recs, rec, x, r - 1);
        assert(recs.push(rec).drop_last() =~= recs);
        assert(recs.push(rec).last() == rec);
    }
}

/// Over round-timed records, accumulating at or before round `r` equals
/// accumulating round by round through `r`.
proof fn lemma_oacc_le_is_cum(recs: Seq<OutRecV>, x: Seq<ValueV>, r: int)
    requires
        out_round_times(recs),
        0 <= r <= u64::MAX,
    ensures
        oacc_le(recs, x, Product { outer: r as u64, inner: 0 }) == cum_at(recs, x, r),
    decreases recs.len(),
{
    if recs.len() == 0 {
        lemma_cum_empty(recs, x, r);
    } else {
        let rest = recs.drop_last();
        assert(out_round_times(rest)) by {
            assert forall|j: int| 0 <= j < rest.len() implies (#[trigger] rest[j]).time.inner
                == 0 by {
                assert(rest[j] == recs[j]);
            }
        }
        lemma_oacc_le_is_cum(rest, x, r);
        assert(recs == rest.push(recs.last())) by {
            assert(rest.push(recs.last()) =~= recs);
        }
        lemma_cum_push(rest, recs.last(), x, r);
        assert(recs[recs.len() - 1].time.inner == 0);
        assert((recs.last().time.le(Product { outer: r as u64, inner: 0 })) == (recs.last(
        ).time.outer <= r));
    }
}

/// An empty output accumulates nothing in any round.
proof fn lemma_cum_empty(recs: Seq<OutRecV>, x: Seq<ValueV>, r: int)
    requires
        recs.len() == 0,
    ensures
        cum_at(recs, x, r) == 0,
    decreases r + 1,
{
    if r >= 0 {
        lemma_cum_empty(recs, x, r - 1);
    }
}

/// Differential correctness of the engine's output: an output that
/// accumulates, at every time, what the delta query emits there — which is
/// what `implement` guarantees — accumulates through any round to exactly
/// the from-scratch answer: one for each assignment matching the pattern as
/// of that round, zero for every other. The relations must be a consistent
/// fact base changing at round times, and the output's record times are
/// round times, as the engine produces for such inputs.
pub proof fn theorem_engine_differential_correctness(
    bindings: Seq<Binding>,
    vars: Seq<Var>,
    rels: Seq<Seq<ChangeV>>,
    out: Seq<OutRecV>,
    x: Seq<ValueV>,
    r: int,
)
    requires
        0 <= r <= u64::MAX,
        bindings.len() > 0,
        zero_one(rels),
        round_times(rels),
        attrs_in_range(bindings, rels.len() as int),
        out_round_times(out),
        forall|t: Product| #[trigger] oacc_at(out, x, t) == hector_delta(
            bindings,
            vars,
            rels,
            x,
            t,
        ),
    ensures
        oacc_le(out, x, Product { outer: r as u64, inner: 0 }) == match_ind(
            bindings,
            vars,
            rels,
            x,
            Product { outer: r as u64, inner: 0 },
        ),
{
    lemma_oacc_le_is_cum(out, x, r);
    lemma_cum_is_hector_cum(bindings, vars, rels, out, x, r);
    theorem_differential_correctness(bindings, vars, rels, x, r);
}

/// Round-by-round output accumulation is the delta query's accumulation.
proof fn lemma_cum_is_hector_cum(
    bindings: Seq<Binding>,
    vars: Seq<Var>,
    rels: Seq<Seq<ChangeV>>,
    out: Seq<OutRecV>,
    x: Seq<ValueV>,
    r: int,
)
    requires
        forall|t: Product| #[trigger] oacc_at(out, x, t) == hector_delta(
            bindings,
            vars,
            rels,
            x,
            t,
        ),
    ensures
        cum_at(out, x, r) == hector_cum(bindings, vars, rels, x, r),
    decreases r + 1,
{
    if r >= 0 {
        lemma_cum_is_hector_cum(bindings, vars, rels, out, x, r - 1);
    }
}

} // verus!
