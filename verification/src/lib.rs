//! Computation Tree Logic model checking on Kripke structures.
pub mod checker;
pub mod complexity;
pub mod counterexample;
pub mod formula;
pub mod kripke;
pub mod laws;
pub mod paths;
pub mod semantics;
pub mod stateset;
pub mod text;
pub mod witness;
