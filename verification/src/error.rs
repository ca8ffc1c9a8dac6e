//! The type errors inference can report.

use vstd::prelude::*;

use crate::expr::Ident;
use crate::ty::SpecTy;
use crate::ty::SpecTyVar;
use crate::ty::Ty;
use crate::ty::TyVar;

verus! {

/// Model of a type error.
pub enum SpecTyError {
    /// A variable reference with no binding in any enclosing scope.
    UnboundVariable(Seq<char>),
    /// Two monotypes of incompatible shapes.
    UnificationMismatch(SpecTy, SpecTy),
    /// A variable that would have to occur within its own solution.
    OccursCheckFailure(SpecTyVar, SpecTy),
}

/// A type error, carrying the offending identifier, the two
/// conflicting monotypes, or the variable and type that failed the
/// occurs check.
#[derive(Debug, PartialEq)]
pub enum TyError {
    UnboundVariable(Ident),
    UnificationMismatch(Ty, Ty),
    OccursCheckFailure(TyVar, Ty),
}

impl View for TyError {
    type V = SpecTyError;

    open spec fn view(&self) -> SpecTyError {
        match self {
            TyError::UnboundVariable(x) => SpecTyError::UnboundVariable(x@),
            TyError::UnificationMismatch(a, b) => SpecTyError::UnificationMismatch(a@, b@),
            TyError::OccursCheckFailure(v, t) => SpecTyError::OccursCheckFailure(v@, t@),
        }
    }
}

/// The result of a type inference step.
pub type TyResult<T> = Result<T, TyError>;

} // verus!
