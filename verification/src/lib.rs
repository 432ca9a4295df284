//! A rule-driven disk-cleanup engine: users register path or glob rules,
//! the engine resolves them to concrete paths, aggregates the bytes each
//! rule would free without counting overlapping paths twice, and hands a
//! deduplicated, sorted report (or a deletion plan) back to the caller.
//!
//! All filesystem access (glob matching, stat, deletion) is done by the
//! caller, which feeds plain values in; everything here is pure logic.

pub mod display;
pub mod path;
pub mod rules;
mod text;
pub mod tree;
