//! Attributes and bindings.
//!
//! An `Attribute` wraps one binary relation as four index views: forward and
//! reverse orientation, each in the alt and in the neu phase. The neu view is
//! the alt view delayed by one phase step, which is what keeps a change from
//! being counted through a preceding binding's alt view and again through a
//! following binding's neu view. A `Binding` pairs two symbols with an
//! attribute and is one conjunct of a query.

use vstd::prelude::*;

use crate::index::CollectionIndex;
use crate::time::{AltNeu, Product};
use crate::trace::{acc, Entry, EntryV};
use crate::value::{Value, ValueV, Var};

verus! {

/// One change of a binary relation: at `time`, the multiplicity of the pair
/// (`entity`, `value`) changed by `diff`.
pub struct Change {
    /// The first component of the changed pair.
    pub entity: Value,
    /// The second component of the changed pair.
    pub value: Value,
    /// The time of the change.
    pub time: Product,
    /// The signed change in multiplicity.
    pub diff: i64,
}

/// The mathematical shape of a `Change`.
pub struct ChangeV {
    pub entity: ValueV,
    pub value: ValueV,
    pub time: Product,
    pub diff: int,
}

impl View for Change {
    type V = ChangeV;

    open spec fn view(&self) -> ChangeV {
        ChangeV {
            entity: self.entity@,
            value: self.value@,
            time: self.time,
            diff: self.diff as int,
        }
    }
}

/// The contribution of one relation change to an index lookup of (`k`, `v`)
/// at phased time `s`, through the view selected by `fwd` (orientation) and
/// `neu` (phase).
pub open spec fn change_weight(c: ChangeV, k: ValueV, v: ValueV, s: AltNeu, fwd: bool, neu: bool) -> int {
    let ck = if fwd {
        c.entity
    } else {
        c.value
    };
    let cv = if fwd {
        c.value
    } else {
        c.entity
    };
    let ct = if neu {
        AltNeu::spec_neu(c.time)
    } else {
        AltNeu::spec_alt(c.time)
    };
    if ck == k && cv == v && ct.le(s) {
        c.diff
    } else {
        0
    }
}

/// The multiplicity of (`k`, `v`) a view of the relation accumulates at
/// phased time `s`.
pub open spec fn rel_acc_at(rel: Seq<ChangeV>, k: ValueV, v: ValueV, s: AltNeu, fwd: bool, neu: bool) -> int
    decreases rel.len(),
{
    if rel.len() == 0 {
        0
    } else {
        rel_acc_at(rel.drop_last(), k, v, s, fwd, neu) + change_weight(rel.last(), k, v, s, fwd, neu)
    }
}

/// A trace log built record for record from the relation answers lookups by
/// `rel_acc_at`.
proof fn lemma_view_acc(rel: Seq<ChangeV>, log: Seq<EntryV>, k: ValueV, v: ValueV, s: AltNeu, fwd: bool, neu: bool)
    requires
        log.len() == rel.len(),
        forall|j: int| 0 <= j < rel.len() ==> #[trigger] log[j] == view_entry(rel[j], fwd, neu),
    ensures
        acc(log, k, v, s) == rel_acc_at(rel, k, v, s, fwd, neu),
    decreases rel.len(),
{
    if rel.len() > 0 {
        lemma_view_acc(rel.drop_last(), log.drop_last(), k, v, s, fwd, neu);
    }
}

/// The index record that a relation change becomes under a view.
pub open spec fn view_entry(c: ChangeV, fwd: bool, neu: bool) -> EntryV {
    EntryV {
        key: if fwd {
            c.entity
        } else {
            c.value
        },
        val: if fwd {
            c.value
        } else {
            c.entity
        },
        time: if neu {
            AltNeu::spec_neu(c.time)
        } else {
            AltNeu::spec_alt(c.time)
        },
        diff: c.diff,
    }
}

/// Four index views over one binary relation: forward and reverse, each at
/// the alt and at the neu phase.
pub struct Attribute {
    /// Forward orientation, alt phase.
    pub alt_forward: CollectionIndex,
    /// Forward orientation, neu phase: the alt view delayed one phase step.
    pub neu_forward: CollectionIndex,
    /// Reverse orientation, alt phase.
    pub alt_reverse: CollectionIndex,
    /// Reverse orientation, neu phase.
    pub neu_reverse: CollectionIndex,
    /// The underlying relation the four views were derived from.
    pub changes: Vec<Change>,
}

impl Attribute {
    /// The underlying relation, as a mathematical change log.
    pub open spec fn rel(&self) -> Seq<ChangeV> {
        self.changes@.map_values(|c: Change| c@)
    }

    /// The four views agree with the underlying relation: each answers any
    /// lookup with the relation's accumulated multiplicity, read through its
    /// orientation and phase.
    pub open spec fn wf(&self) -> bool {
        &&& self.alt_forward.wf()
        &&& self.neu_forward.wf()
        &&& self.alt_reverse.wf()
        &&& self.neu_reverse.wf()
        &&& forall|k: ValueV, v: ValueV, s: AltNeu|
            acc(self.alt_forward@, k, v, s) == rel_acc_at(self.rel(), k, v, s, true, false)
        &&& forall|k: ValueV, v: ValueV, s: AltNeu|
            acc(self.neu_forward@, k, v, s) == rel_acc_at(self.rel(), k, v, s, true, true)
        &&& forall|k: ValueV, v: ValueV, s: AltNeu|
            acc(self.alt_reverse@, k, v, s) == rel_acc_at(self.rel(), k, v, s, false, false)
        &&& forall|k: ValueV, v: ValueV, s: AltNeu|
            acc(self.neu_reverse@, k, v, s) == rel_acc_at(self.rel(), k, v, s, false, true)
    }

    /// Differential consistency of the attribute: none of its four views
    /// ever accumulates a pair negatively. Presence reads on the views are
    /// faithful exactly under this invariant; a violating trace is reported
    /// through its consistency check, never clamped.
    pub open spec fn consistent(&self) -> bool {
        &&& crate::trace::nonnegative(self.alt_forward@)
        &&& crate::trace::nonnegative(self.neu_forward@)
        &&& crate::trace::nonnegative(self.alt_reverse@)
        &&& crate::trace::nonnegative(self.neu_reverse@)
    }

    /// Builds the four index views from a relation given as a change log.
    pub fn new(collection: &Vec<Change>) -> (r: Attribute)
        ensures
            r.wf(),
            r.rel() == collection@.map_values(|c: Change| c@),
    {
        let alt_forward = CollectionIndex::index(&view_log(collection, true, false));
        let neu_forward = CollectionIndex::index(&view_log(collection, true, true));
        let alt_reverse = CollectionIndex::index(&view_log(collection, false, false));
        let neu_reverse = CollectionIndex::index(&view_log(collection, false, true));
        let r = Attribute {
            alt_forward,
            neu_forward,
            alt_reverse,
            neu_reverse,
            changes: clone_changes(collection),
        };
        proof {
            assert(r.rel() =~= collection@.map_values(|c: Change| c@));
            assert forall|k: ValueV, v: ValueV, s: AltNeu|
                acc(r.alt_forward@, k, v, s) == rel_acc_at(r.rel(), k, v, s, true, false) by {
                lemma_view_acc(r.rel(), r.alt_forward@, k, v, s, true, false);
            }
            assert forall|k: ValueV, v: ValueV, s: AltNeu|
                acc(r.neu_forward@, k, v, s) == rel_acc_at(r.rel(), k, v, s, true, true) by {
                lemma_view_acc(r.rel(), r.neu_forward@, k, v, s, true, true);
            }
            assert forall|k: ValueV, v: ValueV, s: AltNeu|
                acc(r.alt_reverse@, k, v, s) == rel_acc_at(r.rel(), k, v, s, false, false) by {
                lemma_view_acc(r.rel(), r.alt_reverse@, k, v, s, false, false);
            }
            assert forall|k: ValueV, v: ValueV, s: AltNeu|
                acc(r.neu_reverse@, k, v, s) == rel_acc_at(r.rel(), k, v, s, false, true) by {
                lemma_view_acc(r.rel(), r.neu_reverse@, k, v, s, false, true);
            }
        }
        r
    }
}

impl Clone for Change {
    /// Clones a relation change, keeping its content.
    fn clone(&self) -> (r: Change)
        ensures
            r@ == self@,
    {
        Change {
            entity: self.entity.clone(),
            value: self.value.clone(),
            time: self.time,
            diff: self.diff,
        }
    }
}

/// Copies a relation change log record for record.
fn clone_changes(collection: &Vec<Change>) -> (r: Vec<Change>)
    ensures
        r@.map_values(|c: Change| c@) == collection@.map_values(|c: Change| c@),
{
    let mut out: Vec<Change> = Vec::new();
    let mut i: usize = 0;
    while i < collection.len()
        invariant
            i <= collection@.len(),
            out@.len() == i,
            forall|j: int| 0 <= j < i ==> #[trigger] out@[j]@ == collection@[j]@,
        decreases collection@.len() - i,
    {
        out.push(collection[i].clone());
        i = i + 1;
    }
    proof {
        assert(out@.map_values(|c: Change| c@) =~= collection@.map_values(|c: Change| c@));
    }
    out
}

/// Reads a relation change log through an orientation and a phase, producing
/// the records of the corresponding index view.
fn view_log(collection: &Vec<Change>, fwd: bool, neu: bool) -> (r: Vec<Entry>)
    ensures
        r@.len() == collection@.len(),
        forall|j: int| 0 <= j < collection@.len() ==> #[trigger] r@[j]@ == view_entry(
            collection@[j]@,
            fwd,
            neu,
        ),
{
    let mut out: Vec<Entry> = Vec::new();
    let mut i: usize = 0;
    while i < collection.len()
        invariant
            i <= collection@.len(),
            out@.len() == i,
            forall|j: int| 0 <= j < i ==> #[trigger] out@[j]@ == view_entry(
                collection@[j]@,
                fwd,
                neu,
            ),
        decreases collection@.len() - i,
    {
        let c = &collection[i];
        let key = if fwd {
            c.entity.clone()
        } else {
            c.value.clone()
        };
        let val = if fwd {
            c.value.clone()
        } else {
            c.entity.clone()
        };
        let time = if neu {
            AltNeu::neu(c.time)
        } else {
            AltNeu::alt(c.time)
        };
        out.push(Entry { key, val, time, diff: c.diff });
        i = i + 1;
    }
    out
}

/// Structural errors of query construction, detected once at registration
/// time, before any evaluation runs.
#[derive(Clone, Copy, PartialEq, Eq, Structural, Debug)]
pub enum QueryError {
    /// A binding was intersected with one binding the same symbols.
    SelfIntersection,
    /// A requested shared symbol is not bound by the attribute in either
    /// orientation.
    MalformedBinding,
    /// A multiway extend was asked to run with no extenders.
    UnboundExtenders,
    /// More retractions than insertions materialized at a queryable time.
    NegativeMultiplicity,
}

/// One conjunct of a query: a pair of symbols bound by an attribute, the
/// attribute named by its position in a caller-owned arena.
#[derive(Clone, Copy, Debug)]
pub struct Binding {
    /// The symbols bound to the attribute's two columns, in order.
    pub symbols: (Var, Var),
    /// The position of the attribute in the arena the query was built over.
    pub attribute: usize,
}

/// A symbol is one of a binding's two endpoints.
pub open spec fn binds(sym: Var, p: (Var, Var)) -> bool {
    sym == p.0 || sym == p.1
}

/// Two symbol pairs name the same two symbols.
pub open spec fn same_symbols(a: (Var, Var), b: (Var, Var)) -> bool {
    (a.0 == b.0 && a.1 == b.1) || (a.0 == b.1 && a.1 == b.0)
}

impl Binding {
    /// The binding's two symbols are distinct.
    pub open spec fn wf(&self) -> bool {
        self.symbols.0 != self.symbols.1
    }

    /// The shared symbol of two bindings: the symbol the two bindings have
    /// in common when they have exactly one, nothing when they are disjoint,
    /// and a registration error when they bind the same two symbols.
    pub fn intersect(&self, other: &Binding) -> (r: Result<Option<Var>, QueryError>)
        requires
            self.wf(),
            other.wf(),
        ensures
            same_symbols(self.symbols, other.symbols) ==> r == Result::<
                Option<Var>,
                QueryError,
            >::Err(QueryError::SelfIntersection),
            !same_symbols(self.symbols, other.symbols) ==> match r {
                Result::Ok(Option::Some(s)) => binds(s, self.symbols) && binds(s, other.symbols),
                Result::Ok(Option::None) => !binds(self.symbols.0, other.symbols) && !binds(
                    self.symbols.1,
                    other.symbols,
                ),
                Result::Err(_) => false,
            },
    {
        let (a, b) = self.symbols;
        let (c, d) = other.symbols;
        if (a == c && b == d) || (a == d && b == c) {
            Err(QueryError::SelfIntersection)
        } else if a == c || a == d {
            Ok(Some(a))
        } else if b == c || b == d {
            Ok(Some(b))
        } else {
            Ok(None)
        }
    }
}


/// The caller-owned arena of named attributes: relations are registered by
/// name once, at query-registration time, and bindings refer to them by
/// their position. Its lifetime is the registration phase only; evaluation
/// reads it through shared borrows.
pub struct Arena {
    /// The registered names, in registration order.
    pub names: Vec<String>,
    /// The attribute each name was registered with.
    pub attributes: Vec<Attribute>,
}

impl Arena {
    /// One attribute per name.
    pub open spec fn wf(&self) -> bool {
        &&& self.names@.len() == self.attributes@.len()
        &&& forall|m: int| 0 <= m < self.attributes@.len() ==> (#[trigger] self.attributes@[m]).wf()
    }

    /// An empty arena.
    pub fn new() -> (r: Arena)
        ensures
            r.wf(),
            r.names@.len() == 0,
    {
        Arena { names: Vec::new(), attributes: Vec::new() }
    }

    /// Registers a relation under a name, building its four index views,
    /// and hands back its position for bindings to hold.
    pub fn register(&mut self, name: String, collection: &Vec<Change>) -> (r: usize)
        requires
            old(self).wf(),
        ensures
            final(self).wf(),
            r == old(self).names@.len(),
            final(self).names@ == old(self).names@.push(name),
            final(self).attributes@.len() == old(self).attributes@.len() + 1,
            final(self).attributes@[r as int].rel() == collection@.map_values(|c: Change| c@),
            forall|m: int| 0 <= m < old(self).attributes@.len()
                ==> (#[trigger] final(self).attributes@[m]) == old(self).attributes@[m],
    {
        let r = self.names.len();
        self.names.push(name);
        self.attributes.push(Attribute::new(collection));
        r
    }

    /// Looks a relation up by name: the position of the first registration
    /// under that name, if any.
    pub fn lookup(&self, name: &String) -> (r: Option<usize>)
        ensures
            match r {
                Option::Some(m) => m < self.names@.len() && self.names@[m as int]@ == name@
                    && (forall|k: int| 0 <= k < m ==> (#[trigger] self.names@[k])@ != name@),
                Option::None => forall|k: int| 0 <= k < self.names@.len()
                    ==> (#[trigger] self.names@[k])@ != name@,
            },
    {
        let mut m: usize = 0;
        let n = self.names.len();
        while m < n
            invariant
                m <= n,
                n == self.names@.len(),
                forall|k: int| 0 <= k < m ==> (#[trigger] self.names@[k])@ != name@,
            decreases n - m,
        {
            if self.names[m].eq(name) {
                return Some(m);
            }
            m = m + 1;
        }
        None
    }
}

} // verus!
