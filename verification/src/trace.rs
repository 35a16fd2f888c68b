//! Versioned traces: append-only multi-version logs over a binary relation.
//!
//! A trace records (key, value, time, multiplicity) entries. A point lookup
//! answers the total multiplicity of a (key, value) pair visible at or before
//! a caller-supplied time; a proposal query enumerates the distinct values
//! present under a key at a time. Once a frontier has fully passed a time,
//! `advance_by` may compact entry times without changing any query answer at
//! or beyond the frontier.

use vstd::prelude::*;

use crate::time::AltNeu;
use crate::value::{Value, ValueV};

verus! {

/// One change record of a trace: at `time`, the multiplicity of
/// (`key`, `val`) changed by `diff`.
pub struct Entry {
    /// The key of the changed pair.
    pub key: Value,
    /// The value of the changed pair.
    pub val: Value,
    /// The time at which the change happened.
    pub time: AltNeu,
    /// The signed change in multiplicity.
    pub diff: i64,
}

/// The mathematical shape of an `Entry`.
pub struct EntryV {
    pub key: ValueV,
    pub val: ValueV,
    pub time: AltNeu,
    pub diff: int,
}

impl View for Entry {
    type V = EntryV;

    open spec fn view(&self) -> EntryV {
        EntryV { key: self.key@, val: self.val@, time: self.time, diff: self.diff as int }
    }
}

/// A versioned index over one binary relation: an append-only log of change
/// records, queryable at any time.
pub struct Trace {
    /// The change records, in the order they were appended.
    pub entries: Vec<Entry>,
}

impl View for Trace {
    type V = Seq<EntryV>;

    open spec fn view(&self) -> Seq<EntryV> {
        self.entries@.map_values(|e: Entry| e@)
    }
}

impl Clone for Entry {
    /// Clones a record, keeping its content.
    fn clone(&self) -> (r: Entry)
        ensures
            r@ == self@,
    {
        Entry { key: self.key.clone(), val: self.val.clone(), time: self.time, diff: self.diff }
    }
}

impl Clone for Trace {
    /// Clones a trace: a fresh handle to the same change history.
    fn clone(&self) -> (r: Trace)
        ensures
            r@ == self@,
    {
        let mut entries: Vec<Entry> = Vec::new();
        let mut i: usize = 0;
        while i < self.entries.len()
            invariant
                i <= self.entries@.len(),
                entries@.len() == i,
                forall|j: int| 0 <= j < i ==> #[trigger] entries@[j]@ == self.entries@[j]@,
            decreases self.entries@.len() - i,
        {
            entries.push(self.entries[i].clone());
            i = i + 1;
        }
        let r = Trace { entries };
        proof {
            assert(r@ =~= self@);
        }
        r
    }
}

/// The contribution of one record to a lookup of (`k`, `v`) at time `t`.
pub open spec fn weight(e: EntryV, k: ValueV, v: ValueV, t: AltNeu) -> int {
    if e.key == k && e.val == v && e.time.le(t) {
        e.diff
    } else {
        0
    }
}

/// The multiplicity of (`k`, `v`) accumulated over `log` at time `t`: the sum
/// of the diffs of all records of that pair whose time is at or before `t`.
pub open spec fn acc(log: Seq<EntryV>, k: ValueV, v: ValueV, t: AltNeu) -> int
    decreases log.len(),
{
    if log.len() == 0 {
        0
    } else {
        acc(log.drop_last(), k, v, t) + weight(log.last(), k, v, t)
    }
}

/// (`k`, `v`) is present in `log` at time `t`: accumulated multiplicity is
/// positive.
pub open spec fn present(log: Seq<EntryV>, k: ValueV, v: ValueV, t: AltNeu) -> bool {
    acc(log, k, v, t) > 0
}

/// The set of values present under `k` at time `t`.
pub open spec fn present_set(log: Seq<EntryV>, k: ValueV, t: AltNeu) -> Set<ValueV> {
    Set::new(|v: ValueV| present(log, k, v, t))
}

/// Differential consistency of a log: no pair ever accumulates negatively,
/// at any queryable time. Point lookups that read presence as a positive
/// accumulation are faithful exactly under this invariant;
/// `check_consistent` reports its violation at a given time.
pub open spec fn nonnegative(log: Seq<EntryV>) -> bool {
    forall|k: ValueV, v: ValueV, s: AltNeu| #[trigger] acc(log, k, v, s) >= 0
}

/// A pair never recorded in the log has accumulated multiplicity zero.
pub proof fn lemma_acc_unrecorded(log: Seq<EntryV>, k: ValueV, v: ValueV, t: AltNeu)
    requires
        forall|j: int| 0 <= j < log.len() ==> !(log[j].key == k && log[j].val == v),
    ensures
        acc(log, k, v, t) == 0,
    decreases log.len(),
{
    if log.len() > 0 {
        lemma_acc_unrecorded(log.drop_last(), k, v, t);
    }
}

impl Trace {
    /// An empty trace.
    pub fn new() -> (r: Trace)
        ensures
            r@ =~= Seq::<EntryV>::empty(),
    {
        Trace { entries: Vec::new() }
    }

    /// Appends one change record.
    pub fn push(&mut self, key: Value, val: Value, time: AltNeu, diff: i64)
        ensures
            final(self)@ =~= old(self)@.push(
                EntryV { key: key@, val: val@, time, diff: diff as int },
            ),
    {
        self.entries.push(Entry { key, val, time, diff });
    }

    /// Point lookup: the multiplicity of (`k`, `v`) accumulated at or before
    /// time `t`. Runs over the whole log, so the running total stays within
    /// an `i128`.
    pub fn lookup(&self, k: &Value, v: &Value, t: &AltNeu) -> (r: i128)
        ensures
            r as int == acc(self@, k@, v@, *t),
    {
        let mut total: i128 = 0;
        let mut i: usize = 0;
        let n = self.entries.len();
        proof {
            assert(self@.subrange(0, 0) =~= Seq::<EntryV>::empty());
        }
        while i < n
            invariant
                i <= n,
                n == self.entries@.len(),
                self@.len() == n,
                total as int == acc(self@.subrange(0, i as int), k@, v@, *t),
                -(i as int) * 0x8000_0000_0000_0000 <= total as int
                    <= (i as int) * 0x8000_0000_0000_0000,
            decreases n - i,
        {
            let e = &self.entries[i];
            proof {
                assert(self@.subrange(0, i + 1).drop_last() =~= self@.subrange(0, i as int));
                assert(self@.subrange(0, i + 1).last() == self@[i as int]);
                assert((i + 1) * 0x8000_0000_0000_0000
                    == i * 0x8000_0000_0000_0000 + 0x8000_0000_0000_0000);
                assert(-((i + 1) * 0x8000_0000_0000_0000)
                    == -(i * 0x8000_0000_0000_0000) - 0x8000_0000_0000_0000);
            }
            if e.key.eq_value(k) && e.val.eq_value(v) && e.time.less_equal(t) {
                total = total + e.diff as i128;
            }
            i = i + 1;
        }
        proof {
            assert(self@.subrange(0, n as int) =~= self@);
        }
        total
    }

    /// Proposal query: the distinct values present under key `k` at time `t`,
    /// each exactly once.
    pub fn distinct_present(&self, k: &Value, t: &AltNeu) -> (r: Vec<Value>)
        ensures
            forall|j: int| 0 <= j < r@.len() ==> present(self@, k@, #[trigger] r@[j]@, *t),
            forall|v: ValueV| present(self@, k@, v, *t) ==> exists|j: int|
                0 <= j < r@.len() && r@[j]@ == v,
            forall|j1: int, j2: int| 0 <= j1 < j2 < r@.len() ==> r@[j1]@ != r@[j2]@,
    {
        let mut out: Vec<Value> = Vec::new();
        let mut i: usize = 0;
        let n = self.entries.len();
        while i < n
            invariant
                i <= n,
                n == self.entries@.len(),
                self@.len() == n,
                forall|j: int| 0 <= j < out@.len() ==> present(self@, k@, #[trigger] out@[j]@, *t),
                forall|j: int| 0 <= j < i ==> (self@[j].key == k@ && present(
                    self@,
                    k@,
                    #[trigger] self@[j].val,
                    *t,
                )) ==> exists|m: int| 0 <= m < out@.len() && out@[m]@ == self@[j].val,
                forall|j1: int, j2: int| 0 <= j1 < j2 < out@.len() ==> out@[j1]@ != out@[j2]@,
            decreases n - i,
        {
            let e = &self.entries[i];
            proof {
                assert(self@[i as int] == self.entries@[i as int]@);
            }
            if e.key.eq_value(k) {
                let m = self.lookup(k, &e.val, t);
                if m > 0 {
                    if !contains_value(&out, &e.val) {
                        let ghost prior = out@;
                        out.push(e.val.clone());
                        proof {
                            assert(out@[prior.len() as int]@ == self@[i as int].val);
                            assert(forall|j: int| 0 <= j < prior.len() ==> out@[j] == prior[j]);
                        }
                    }
                } else {
                    proof {
                        assert(!present(self@, k@, self@[i as int].val, *t));
                    }
                }
            }
            i = i + 1;
        }
        proof {
            assert forall|v: ValueV| present(self@, k@, v, *t) implies exists|j: int|
                0 <= j < out@.len() && out@[j]@ == v by {
                if forall|j: int| 0 <= j < self@.len() ==> !(#[trigger] self@[j].key == k@
                    && self@[j].val == v) {
                    lemma_acc_unrecorded(self@, k@, v, *t);
                } else {
                    let j = choose|j: int| 0 <= j < self@.len() && self@[j].key == k@
                        && self@[j].val == v;
                    assert(present(self@, k@, self@[j].val, *t));
                }
            }
        }
        out
    }

    /// Sizing query: how many distinct values this trace would propose for
    /// key `k` at time `t`: the size of the proposal set, zero exactly when
    /// no value is present.
    pub fn count_present(&self, k: &Value, t: &AltNeu) -> (r: usize)
        ensures
            r as int == present_set(self@, k@, *t).len(),
            (r > 0) == exists|v: ValueV| present(self@, k@, v, *t),
    {
        let found = self.distinct_present(k, t);
        proof {
            if found@.len() > 0 {
                assert(present(self@, k@, found@[0]@, *t));
            }
            let vs = found@.map_values(|v: Value| v@);
            assert(vs.no_duplicates()) by {
                assert forall|j1: int, j2: int| 0 <= j1 < vs.len() && 0 <= j2 < vs.len() && j1
                    != j2 implies vs[j1] != vs[j2] by {
                    if j1 < j2 {
                        assert(found@[j1]@ != found@[j2]@);
                    } else {
                        assert(found@[j2]@ != found@[j1]@);
                    }
                }
            }
            assert(vs.to_set() =~= present_set(self@, k@, *t)) by {
                assert forall|v: ValueV| vs.to_set().contains(v) implies present_set(
                    self@,
                    k@,
                    *t,
                ).contains(v) by {
                    let j = choose|j: int| 0 <= j < vs.len() && vs[j] == v;
                    assert(present(self@, k@, found@[j]@, *t));
                }
                assert forall|v: ValueV| present_set(self@, k@, *t).contains(v)
                    implies vs.to_set().contains(v) by {
                    let j = choose|j: int| 0 <= j < found@.len() && found@[j]@ == v;
                    assert(vs[j] == v);
                }
            }
            vs.unique_seq_to_set();
        }
        found.len()
    }

    /// Differential consistency check at a queryable time: reports a
    /// consistency error when more retractions than insertions have
    /// materialized for some pair, rather than silently clamping.
    pub fn check_consistent(&self, t: &AltNeu) -> (r: Result<(), crate::attribute::QueryError>)
        ensures
            (r is Ok) == forall|k: ValueV, v: ValueV| #[trigger] acc(self@, k, v, *t) >= 0,
            r is Err ==> r == Result::<(), crate::attribute::QueryError>::Err(
                crate::attribute::QueryError::NegativeMultiplicity,
            ),
    {
        let mut i: usize = 0;
        let n = self.entries.len();
        while i < n
            invariant
                i <= n,
                n == self.entries@.len(),
                self@.len() == n,
                forall|j: int| 0 <= j < i ==> acc(
                    self@,
                    (#[trigger] self@[j]).key,
                    self@[j].val,
                    *t,
                ) >= 0,
            decreases n - i,
        {
            let e = &self.entries[i];
            proof {
                assert(self@[i as int] == self.entries@[i as int]@);
            }
            let m = self.lookup(&e.key, &e.val, t);
            if m < 0 {
                proof {
                    assert(acc(self@, self@[i as int].key, self@[i as int].val, *t) < 0);
                }
                return Err(crate::attribute::QueryError::NegativeMultiplicity);
            }
            i = i + 1;
        }
        proof {
            assert forall|k: ValueV, v: ValueV| #[trigger] acc(self@, k, v, *t) >= 0 by {
                if forall|j: int| 0 <= j < self@.len() ==> !((#[trigger] self@[j]).key == k
                    && self@[j].val == v) {
                    lemma_acc_unrecorded(self@, k, v, *t);
                } else {
                    let j = choose|j: int| 0 <= j < self@.len() && (#[trigger] self@[j]).key == k
                        && self@[j].val == v;
                    assert(acc(self@, self@[j].key, self@[j].val, *t) >= 0);
                }
            }
        }
        Ok(())
    }

    /// Compaction: joins every record's time with `frontier`. Any query at a
    /// time at or beyond the frontier is unchanged; detail below the frontier
    /// is given up.
    pub fn advance_by(&mut self, frontier: &AltNeu)
        ensures
            final(self)@.len() == old(self)@.len(),
            forall|k: ValueV, v: ValueV, t: AltNeu| frontier.le(t) ==> acc(
                final(self)@,
                k,
                v,
                t,
            ) == acc(old(self)@, k, v, t),
    {
        let mut advanced: Vec<Entry> = Vec::new();
        let mut i: usize = 0;
        let n = self.entries.len();
        while i < n
            invariant
                i <= n,
                n == self.entries@.len(),
                self@.len() == n,
                advanced@.len() == i,
                forall|j: int| 0 <= j < i ==> #[trigger] advanced@[j]@ == advance_entry(
                    self@[j],
                    *frontier,
                ),
            decreases n - i,
        {
            let e = &self.entries[i];
            advanced.push(
                Entry {
                    key: e.key.clone(),
                    val: e.val.clone(),
                    time: e.time.join(frontier),
                    diff: e.diff,
                },
            );
            i = i + 1;
        }
        proof {
            let ghost before = self@;
            let ghost after = advanced@.map_values(|e: Entry| e@);
            assert(after =~= Seq::new(before.len(), |j: int| advance_entry(before[j], *frontier)));
            assert forall|k: ValueV, v: ValueV, t: AltNeu| frontier.le(t) implies acc(
                after,
                k,
                v,
                t,
            ) == acc(before, k, v, t) by {
                lemma_advance_acc(before, *frontier, k, v, t);
            }
        }
        self.entries = advanced;
    }
}

/// One record with its time joined with a compaction frontier.
pub open spec fn advance_entry(e: EntryV, frontier: AltNeu) -> EntryV {
    EntryV { key: e.key, val: e.val, time: e.time.spec_join(frontier), diff: e.diff }
}

/// Compacting a log to a frontier preserves every lookup at or beyond the
/// frontier.
pub proof fn lemma_advance_acc(log: Seq<EntryV>, frontier: AltNeu, k: ValueV, v: ValueV, t: AltNeu)
    requires
        frontier.le(t),
    ensures
        acc(Seq::new(log.len(), |j: int| advance_entry(log[j], frontier)), k, v, t) == acc(
            log,
            k,
            v,
            t,
        ),
    decreases log.len(),
{
    let mapped = Seq::new(log.len(), |j: int| advance_entry(log[j], frontier));
    if log.len() > 0 {
        lemma_advance_acc(log.drop_last(), frontier, k, v, t);
        assert(mapped.drop_last() =~= Seq::new(
            log.drop_last().len(),
            |j: int| advance_entry(log.drop_last()[j], frontier),
        ));
        let e = log.last();
        crate::time::lemma_altneu_order(e.time, frontier, t);
        assert(weight(advance_entry(e, frontier), k, v, t) == weight(e, k, v, t));
    }
}

/// Decides whether a value (by content) occurs in a vector.
pub fn contains_value(vals: &Vec<Value>, v: &Value) -> (r: bool)
    ensures
        r == exists|j: int| 0 <= j < vals@.len() && vals@[j]@ == v@,
{
    let mut i: usize = 0;
    while i < vals.len()
        invariant
            i <= vals@.len(),
            forall|j: int| 0 <= j < i ==> vals@[j]@ != v@,
        decreases vals@.len() - i,
    {
        if vals[i].eq_value(v) {
            return true;
        }
        i = i + 1;
    }
    false
}

} // verus!
