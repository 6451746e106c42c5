//! A deterministic single-tape Turing machine: a parser for transition
//! rules, a transition table with a last-definition-wins policy, and an
//! execution engine on a fixed-capacity circular tape.
pub mod machine;
pub mod rule;
pub mod table;
pub mod text;
