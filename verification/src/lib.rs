//! A batch type checker for a single module of a small expression language.
//!
//! The checker takes a parsed module, collects its type declarations, infers
//! the type of every definition and unifies it with the declared type. The
//! first definition that fails gives the one diagnostic of the run.
//!
//! - [`ast`]: the syntax tree, and the mathematical model of types.
//! - [`error`]: the diagnostics.
//! - [`subst`]: substitutions on types.
//! - [`unify`]: the unifier, and what it computes step by step.
//! - [`mgu`]: what the unifier's answer means.
//! - [`infer`]: environments and type inference.
//! - [`check`]: the module checker.
//! - [`guarantees`]: what holds of the checker on whole modules.

pub mod ast;
pub mod error;
pub mod subst;
pub mod unify;
pub mod mgu;
pub mod infer;
pub mod check;
pub mod guarantees;
