//! Logical timestamps.
//!
//! A `Product` pairs an outer round with an inner iteration and orders
//! componentwise (a lattice). An `AltNeu` refines a `Product` with a binary
//! phase tag: the alt phase strictly precedes the neu phase of the same
//! underlying time, which is what lets one branch of a delta query see a
//! concurrent change while another does not.

use vstd::prelude::*;

verus! {

/// A pair timestamp (outer round, inner iteration), ordered componentwise.
#[derive(Clone, Copy, PartialEq, Eq, Structural, Debug, Hash)]
pub struct Product {
    /// The outer round.
    pub outer: u64,
    /// The inner iteration.
    pub inner: u64,
}

impl Product {
    /// The componentwise partial order.
    pub open spec fn le(self, other: Product) -> bool {
        self.outer <= other.outer && self.inner <= other.inner
    }

    /// Decides the componentwise partial order.
    pub fn less_equal(&self, other: &Product) -> (r: bool)
        ensures
            r == self.le(*other),
    {
        self.outer <= other.outer && self.inner <= other.inner
    }

    /// The least upper bound: componentwise maximum.
    pub open spec fn spec_join(self, other: Product) -> Product {
        Product {
            outer: if self.outer >= other.outer {
                self.outer
            } else {
                other.outer
            },
            inner: if self.inner >= other.inner {
                self.inner
            } else {
                other.inner
            },
        }
    }

    /// Computes the least upper bound of two times.
    pub fn join(&self, other: &Product) -> (r: Product)
        ensures
            r == self.spec_join(*other),
    {
        Product {
            outer: if self.outer >= other.outer {
                self.outer
            } else {
                other.outer
            },
            inner: if self.inner >= other.inner {
                self.inner
            } else {
                other.inner
            },
        }
    }
}

/// `Product`'s order is a partial order and `spec_join` is its least upper
/// bound.
pub proof fn lemma_product_order(a: Product, b: Product, c: Product)
    ensures
        a.le(a),
        a.le(b) && b.le(a) ==> a == b,
        a.le(b) && b.le(c) ==> a.le(c),
        a.le(a.spec_join(b)),
        b.le(a.spec_join(b)),
        a.le(c) && b.le(c) ==> a.spec_join(b).le(c),
{
}

/// A timestamp refined with a binary phase: alt (`neu == false`) strictly
/// precedes neu at the same underlying time.
#[derive(Clone, Copy, PartialEq, Eq, Structural, Debug, Hash)]
pub struct AltNeu {
    /// The underlying time.
    pub time: Product,
    /// The phase: `false` for alt, `true` for neu.
    pub neu: bool,
}

impl AltNeu {
    /// The alt-phase view of a time.
    pub open spec fn spec_alt(time: Product) -> AltNeu {
        AltNeu { time, neu: false }
    }

    /// The neu-phase view of a time.
    pub open spec fn spec_neu(time: Product) -> AltNeu {
        AltNeu { time, neu: true }
    }

    /// Wraps a time in the alt phase.
    pub fn alt(time: Product) -> (r: AltNeu)
        ensures
            r == AltNeu::spec_alt(time),
    {
        AltNeu { time, neu: false }
    }

    /// Wraps a time in the neu phase.
    pub fn neu(time: Product) -> (r: AltNeu)
        ensures
            r == AltNeu::spec_neu(time),
    {
        AltNeu { time, neu: true }
    }

    /// The order: lexicographic by (time, phase) where the underlying times
    /// are comparable.
    pub open spec fn le(self, other: AltNeu) -> bool {
        if self.time == other.time {
            self.neu ==> other.neu
        } else {
            self.time.le(other.time)
        }
    }

    /// Decides the order.
    pub fn less_equal(&self, other: &AltNeu) -> (r: bool)
        ensures
            r == self.le(*other),
    {
        if self.time.outer == other.time.outer && self.time.inner == other.time.inner {
            !self.neu || other.neu
        } else {
            self.time.less_equal(&other.time)
        }
    }

    /// The least upper bound.
    pub open spec fn spec_join(self, other: AltNeu) -> AltNeu {
        let time = self.time.spec_join(other.time);
        let neu = if time == self.time && time == other.time {
            self.neu || other.neu
        } else if time == self.time {
            self.neu
        } else if time == other.time {
            other.neu
        } else {
            false
        };
        AltNeu { time, neu }
    }

    /// Computes the least upper bound of two phased times.
    pub fn join(&self, other: &AltNeu) -> (r: AltNeu)
        ensures
            r == self.spec_join(*other),
    {
        let time = self.time.join(&other.time);
        let self_hit = time.outer == self.time.outer && time.inner == self.time.inner;
        let other_hit = time.outer == other.time.outer && time.inner == other.time.inner;
        let neu = if self_hit && other_hit {
            self.neu || other.neu
        } else if self_hit {
            self.neu
        } else if other_hit {
            other.neu
        } else {
            false
        };
        AltNeu { time, neu }
    }
}

/// `AltNeu`'s order is a partial order in which the alt phase of a time
/// strictly precedes its neu phase, and `spec_join` is its least upper bound.
pub proof fn lemma_altneu_order(a: AltNeu, b: AltNeu, c: AltNeu)
    ensures
        a.le(a),
        a.le(b) && b.le(a) ==> a == b,
        a.le(b) && b.le(c) ==> a.le(c),
        a.le(a.spec_join(b)),
        b.le(a.spec_join(b)),
        a.le(c) && b.le(c) ==> a.spec_join(b).le(c),
{
}

/// At one underlying time, the alt phase precedes and differs from the neu
/// phase; a neu time never reaches back to the alt phase.
pub proof fn lemma_alt_precedes_neu(t: Product)
    ensures
        AltNeu::spec_alt(t).le(AltNeu::spec_neu(t)),
        AltNeu::spec_alt(t) != AltNeu::spec_neu(t),
        !AltNeu::spec_neu(t).le(AltNeu::spec_alt(t)),
{
}

} // verus!
