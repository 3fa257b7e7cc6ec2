//! Grounds a STRIPS-style planning domain/problem pair and converts it to
//! propositional Linear Temporal Logic.
//!
//! `pdc` holds the planning data model, `convert` the grounding-and-
//! conversion engine — the ordered atom universe and the per-action
//! transition axioms — and `ltl` the formula trees the engine produces.

pub mod ltl;
pub mod pdc;
pub mod convert;
