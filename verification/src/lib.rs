//! Incremental evaluation core of a declarative query engine: a
//! worst-case-optimal multiway join over binary relations, maintained as the
//! relations are inserted into and retracted from over time.
//!
//! The crate models the engine as explicit data and state machines: versioned
//! indexes over change logs, attributes wrapping a relation as four index
//! views, bindings pairing symbols with attributes, prefix extenders with the
//! three operations count / propose / validate, a generic multiway extend
//! driver, and the delta-query assembly that prevents double counting through
//! a two-phase (alt / neu) refinement of each timestamp.

pub mod attribute;
pub mod extend;
pub mod filter;
pub mod hector;
pub mod index;
pub mod time;
pub mod trace;
pub mod value;
