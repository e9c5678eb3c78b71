//! A symbolic model checker for first-order transition systems.
//!
//! The crate proves safety properties by computing an inductive strengthening
//! of the reachable-state invariant, in the style of property-directed
//! reachability lifted to first-order logic. It is organised as three
//! subsystems: a CNF normalizer over quantified first-order terms
//! ([`cnf`]), a session layer that encodes queries for an external SMT
//! process and decodes its replies ([`solver`], [`solvers`]), and the
//! inference engine itself ([`updr`]), which drives the backward-reachability
//! search through a transition-system oracle ([`oracle`]).

pub mod cnf;
pub mod oracle;
pub mod semantics;
pub mod sexp;
pub mod solver;
pub mod solvers;
pub mod syntax;
pub mod updr;
