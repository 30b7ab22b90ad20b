//! A static-analysis engine for program expression trees.
//!
//! The core is a generic bottom-up relational fixpoint evaluator with
//! stratified negation (`engine`): given input facts and a validated set
//! of inference rules it computes the unique minimal fixpoint, and its
//! global laws — determinism, idempotence, monotonicity of positive
//! rules, stability of negated relations — are proved once over its
//! semantics (`laws`).
//!
//! Two analyses instantiate it (`rules`): a structural type inference
//! over a let-binding expression language (`typed`), and a
//! path-sensitive linear-use checker that flags conflicting or aliased
//! uses of composite values. For the latter, expression trees (`data`)
//! are flattened by a path resolver (`resolve`) into `Root`, `Parent`
//! and `Used` base facts over interned symbolic access paths. Two
//! example programs exercise the linearity checker end to end
//! (`scenarios`).

pub mod data;
pub mod engine;
pub mod laws;
pub mod resolve;
pub mod rules;
pub mod scenarios;
pub mod typed;
