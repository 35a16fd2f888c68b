//! A `CollectionIndex` bundles the three trace forms derived from one binary
//! relation: a count trace used to size candidate extension sets, a propose
//! trace used to enumerate extensions, and a validate trace used to confirm
//! proposed extensions. All three are built from the same change log and
//! stay mutually consistent.

use vstd::prelude::*;

use crate::time::AltNeu;
use crate::trace::{acc, present, present_set, Entry, EntryV, Trace};
use crate::value::{Value, ValueV};

verus! {

/// The three trace forms over one binary relation.
pub struct CollectionIndex {
    /// Sizes candidate extension sets for a key.
    pub count_trace: Trace,
    /// Enumerates the extensions proposed for a key.
    pub propose_trace: Trace,
    /// Confirms membership of a proposed (key, value) pair.
    pub validate_trace: Trace,
}

impl View for CollectionIndex {
    type V = Seq<EntryV>;

    open spec fn view(&self) -> Seq<EntryV> {
        self.propose_trace@
    }
}

impl Clone for CollectionIndex {
    /// Clones the index: fresh handles onto the same three traces.
    fn clone(&self) -> (r: CollectionIndex)
        ensures
            r@ == self@,
            r.wf() == self.wf(),
    {
        CollectionIndex {
            count_trace: self.count_trace.clone(),
            propose_trace: self.propose_trace.clone(),
            validate_trace: self.validate_trace.clone(),
        }
    }
}

impl CollectionIndex {
    /// The three traces are derived from the same underlying relation:
    /// they hold the same change records.
    pub open spec fn wf(&self) -> bool {
        &&& self.count_trace@ == self.propose_trace@
        &&& self.validate_trace@ == self.propose_trace@
    }

    /// Builds the three trace forms from one change log.
    pub fn index(changes: &Vec<Entry>) -> (r: CollectionIndex)
        ensures
            r.wf(),
            r@ == changes@.map_values(|e: Entry| e@),
    {
        let counts = Trace { entries: clone_entries(changes) };
        let propose = Trace { entries: clone_entries(changes) };
        let validate = Trace { entries: clone_entries(changes) };
        let r = CollectionIndex {
            count_trace: counts,
            propose_trace: propose,
            validate_trace: validate,
        };
        proof {
            assert(r.count_trace@ =~= changes@.map_values(|e: Entry| e@));
            assert(r.propose_trace@ =~= changes@.map_values(|e: Entry| e@));
            assert(r.validate_trace@ =~= changes@.map_values(|e: Entry| e@));
        }
        r
    }

    /// How many extensions this index would propose for `key` at time `t`:
    /// the size of the proposal set, zero exactly when no value is present.
    pub fn count(&self, key: &Value, t: &AltNeu) -> (r: usize)
        requires
            self.wf(),
        ensures
            r as int == present_set(self@, key@, *t).len(),
            (r > 0) == exists|v: ValueV| present(self@, key@, v, *t),
    {
        let r = self.count_trace.count_present(key, t);
        proof {
            assert(self.count_trace@ == self@);
            if r > 0 {
                let v = choose|v: ValueV| present(self.count_trace@, key@, v, *t);
                assert(present(self@, key@, v, *t));
            }
            if exists|v: ValueV| present(self@, key@, v, *t) {
                let v = choose|v: ValueV| present(self@, key@, v, *t);
                assert(present(self.count_trace@, key@, v, *t));
            }
        }
        r
    }

    /// The distinct values present under `key` at time `t`, each once.
    pub fn propose(&self, key: &Value, t: &AltNeu) -> (r: Vec<Value>)
        requires
            self.wf(),
        ensures
            forall|j: int| 0 <= j < r@.len() ==> present(self@, key@, #[trigger] r@[j]@, *t),
            forall|v: ValueV| present(self@, key@, v, *t) ==> exists|j: int|
                0 <= j < r@.len() && r@[j]@ == v,
            forall|j1: int, j2: int| 0 <= j1 < j2 < r@.len() ==> r@[j1]@ != r@[j2]@,
    {
        self.propose_trace.distinct_present(key, t)
    }

    /// The multiplicity of (`key`, `val`) accumulated at time `t`, read from
    /// the validate trace.
    pub fn validate_lookup(&self, key: &Value, val: &Value, t: &AltNeu) -> (r: i128)
        requires
            self.wf(),
        ensures
            r as int == acc(self@, key@, val@, *t),
    {
        self.validate_trace.lookup(key, val, t)
    }
}

/// Copies a change log record for record.
fn clone_entries(changes: &Vec<Entry>) -> (r: Vec<Entry>)
    ensures
        r@.map_values(|e: Entry| e@) == changes@.map_values(|e: Entry| e@),
{
    let mut entries: Vec<Entry> = Vec::new();
    let mut i: usize = 0;
    while i < changes.len()
        invariant
            i <= changes@.len(),
            entries@.len() == i,
            forall|j: int| 0 <= j < i ==> #[trigger] entries@[j]@ == changes@[j]@,
        decreases changes@.len() - i,
    {
        entries.push(changes[i].clone());
        i = i + 1;
    }
    proof {
        assert(entries@.map_values(|e: Entry| e@) =~= changes@.map_values(|e: Entry| e@));
    }
    entries
}

} // verus!
