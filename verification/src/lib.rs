//! Front end of a compiler for a small, strict, statically typed functional
//! language of the ML family: variable identities, monomorphic type
//! inference by unification, and the lowering passes to K-normal form,
//! A-normal form and closure-converted form.
//!
//! The passes, in the order in which a program goes through them:
//! `type_check` infers the types, `knormal` makes every operand a
//! variable, `anormal` flattens nested bindings, and `closure` turns every
//! function into a top-level function. `typing`, `scoping`, `closed`,
//! `semantics` and `simulation` hold what is proved of the passes beyond
//! their own contracts.

pub mod types;
pub mod subst;
pub mod unify;
pub mod syntax;
pub mod type_check;
pub mod typing;
pub mod text;
pub mod var;
pub mod ctx;
pub mod utils;
pub mod knormal;
pub mod anormal;
pub mod closure;
pub mod scoping;
pub mod closed;
pub mod semantics;
pub mod simulation;
