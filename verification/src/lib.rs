//! Finite-state automata, deterministic and non-deterministic, built from a
//! declarative description and evaluated against input strings.

pub mod builder;
pub mod config;
pub mod dfa;
pub mod equivalence;
pub mod nfa;
pub mod semantics;
pub mod table;
pub mod traits;
