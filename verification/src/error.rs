//! The fatal errors a build can end with.

use vstd::prelude::*;

verus! {

/// Why a build failed.
///
/// Either kind aborts the whole build: there is no partial result.
#[derive(Debug)]
pub enum ConfigError {
    /// A key's path tried to use a scalar as a section (descending through
    /// a node that holds a scalar) or a section as a scalar (assigning a
    /// value where a section stands); `segment` is the path segment at
    /// which that happened.
    StructuralConflict { segment: String },
    /// A leaf value did not match the type the schema declares for its key.
    SchemaValidationFailure { key: String, declared_type: String },
}

/// The abstract form of a [`ConfigError`].
pub enum SpecError {
    StructuralConflict { segment: Seq<char> },
    SchemaValidationFailure { key: Seq<char>, declared_type: Seq<char> },
}

impl ConfigError {
    /// The abstract value of this error.
    pub open spec fn model(self) -> SpecError {
        match self {
            ConfigError::StructuralConflict { segment } => SpecError::StructuralConflict {
                segment: segment@,
            },
            ConfigError::SchemaValidationFailure { key, declared_type } =>
                SpecError::SchemaValidationFailure { key: key@, declared_type: declared_type@ },
        }
    }
}

} // verus!
