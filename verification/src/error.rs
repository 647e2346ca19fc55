//! Failures returned by the storage engine and by schema validation.

use vstd::prelude::*;

verus! {

/// An error returned by a store operation.
///
/// Integrity checks always run to completion before any mutation is applied,
/// so an operation that returns an error leaves the store untouched.
#[derive(Clone, Copy, Debug, PartialEq, Eq, Structural)]
pub enum Error {
    /// The operation referenced an identifier with no live row.
    EntityNotFound,
    /// An insert or update referenced a nonexistent destination entity.
    ForeignKeyViolation,
    /// The operation would give a relationship more targets than its declared
    /// cardinality allows (e.g. a second source for a unique relation).
    RelationshipTooManyTargets,
    /// The operation would leave a required relationship without a target.
    RelationshipTooFewTargets,
    /// A deletion was blocked, directly or transitively through a cascade, by
    /// a relation whose delete rule is `Deny`.
    RelationshipDeniedDelete,
}

impl Error {
    /// A human-readable description of the error.
    pub fn message(&self) -> &'static str {
        match self {
            Error::EntityNotFound => "entity not found",
            Error::ForeignKeyViolation => "operation referenced a nonexistent destination entity",
            Error::RelationshipTooManyTargets => {
                "the operation would result in a relationship with too many targets"
            },
            Error::RelationshipTooFewTargets => {
                "the operation would result in a relationship with too few targets"
            },
            Error::RelationshipDeniedDelete => {
                "deletion of entity denied due to relationship delete rule"
            },
        }
    }
}

/// An error found while validating a schema declaration.
#[derive(Clone, Copy, Debug, PartialEq, Eq, Structural)]
pub enum SchemaError {
    /// A relation names a destination entity that the schema does not declare.
    NoSuchEntity { entity: usize, rel: usize },
    /// A relation whose delete rule resolves to `Nullify` has a required
    /// foreign key: there is no way to represent "no value" for it.
    NullifyOnRequired { entity: usize, rel: usize },
    /// A one-to-one relation is required on both sides, so no insertion order
    /// could ever satisfy it.
    BothSidesRequired { entity: usize, rel: usize },
    /// A relation declared to-many on its source side; a to-many relation is
    /// declared on its to-one inverse side instead.
    ToManySource { entity: usize, rel: usize },
}

impl SchemaError {
    /// A human-readable description of the error.
    pub fn message(&self) -> &'static str {
        match self {
            SchemaError::NoSuchEntity { .. } => "relation references an undeclared entity",
            SchemaError::NullifyOnRequired { .. } => {
                "a nullify delete rule cannot apply to a required relation"
            },
            SchemaError::BothSidesRequired { .. } => {
                "a one-to-one relation cannot be required on both sides"
            },
            SchemaError::ToManySource { .. } => {
                "a to-many relation must be declared on its to-one inverse side"
            },
        }
    }
}

} // verus!
