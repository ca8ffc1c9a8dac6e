//! A Hindley-Milner type inference engine for a small applied lambda
//! calculus (variables, integer and boolean literals, application,
//! abstraction, let-binding).
//!
//! The engine follows Algorithm W: syntax-directed type reconstruction
//! with unification and let-polymorphism.  Monotypes, substitutions,
//! type schemes and typing contexts each carry a mathematical model
//! (maps, sets and sequences) against which every operation is
//! specified and verified.

pub mod assoc;
pub mod error;
pub mod expr;
pub mod infer;
pub mod ty;
