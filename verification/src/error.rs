//! The diagnostics of the checker: what went wrong, on which names or types,
//! and where in the source text.

use crate::ast::{Range, Ty, Type};
use vstd::prelude::*;

verus! {

/// The one diagnostic that a failed check reports.
#[derive(Debug, PartialEq, Eq)]
pub enum TyckError {
    /// A name was used, or defined, without a binding in scope.
    IdentifierNotFound { name: String, range: Range },
    /// The declared type of a definition and its inferred type cannot be
    /// unified. `arity` holds the two numbers of parameters, those of the
    /// expected arrow first, where two arrows with different numbers of
    /// parameters were met.
    TypeMismatch { expected: Type, actual: Type, range: Range, arity: Option<(usize, usize)> },
    /// A type variable would have to stand for a type in which it occurs.
    OccursCheckFailure { variable: u64, ty: Type, range: Range },
}

/// The mathematical model of a diagnostic.
pub enum Failure {
    IdentifierNotFound { name: Seq<char>, range: Range },
    TypeMismatch { expected: Ty, actual: Ty, range: Range, arity: Option<(nat, nat)> },
    OccursCheckFailure { variable: u64, ty: Ty, range: Range },
}

impl View for TyckError {
    type V = Failure;

    open spec fn view(&self) -> Failure {
        match self {
            TyckError::IdentifierNotFound { name, range } => Failure::IdentifierNotFound {
                name: name@,
                range: *range,
            },
            TyckError::TypeMismatch { expected, actual, range, arity } => Failure::TypeMismatch {
                expected: expected@,
                actual: actual@,
                range: *range,
                arity: match arity {
                    Some((e, a)) => Some((*e as nat, *a as nat)),
                    None => None,
                },
            },
            TyckError::OccursCheckFailure { variable, ty, range } => Failure::OccursCheckFailure {
                variable: *variable,
                ty: ty@,
                range: *range,
            },
        }
    }
}

} // verus!
