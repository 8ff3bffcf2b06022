//! Inclusion-based (Andersen-style) points-to analysis over a small language
//! of pointer assignments: `p = &q`, `p = q`, `p = *q` and `*p = q`.

pub mod constraint;
pub mod edges;
pub mod graph;
pub mod parser;
