//! Schema construction errors.
//!
//! SPDX-License-Identifier: MIT OR Apache-2.0

use crate::text;
use vstd::prelude::*;

verus! {

/// Errors raised while building or looking up schema elements.
#[derive(Clone, Debug, PartialEq, Eq)]
pub enum SchemaError {
    /// Two variables were declared with the same name.
    DuplicateVariableName {
        /// Conflicting name.
        name: String,
    },
    /// Name lookup failed at an API boundary.
    UnknownVariableName {
        /// Requested name.
        name: String,
    },
    /// Dense variable id is outside the schema.
    UnknownVariableId {
        /// Requested raw id.
        id: u32,
    },
    /// Schema exceeded the maximum number of variables.
    TooManyVariables,
    /// A categorical or ordinal variable lacked a category domain.
    MissingCategoryDomain {
        /// Variable name that required a domain.
        name: String,
    },
    /// A non-categorical variable was given a category domain.
    UnexpectedCategoryDomain {
        /// Variable name that must not carry a domain.
        name: String,
    },
}

impl SchemaError {
    /// Message text of this error.
    pub open spec fn message(self) -> Seq<char> {
        match self {
            SchemaError::DuplicateVariableName { name } => "duplicate variable name `"@ + name@
                + "`"@,
            SchemaError::UnknownVariableName { name } => "unknown variable name `"@ + name@ + "`"@,
            SchemaError::UnknownVariableId { id } => "unknown variable id "@ + text::decimal(
                id as nat,
            ),
            SchemaError::TooManyVariables => "schema exceeds maximum variable count"@,
            SchemaError::MissingCategoryDomain { name } => "variable `"@ + name@
                + "` requires a category domain"@,
            SchemaError::UnexpectedCategoryDomain { name } => "variable `"@ + name@
                + "` must not have a category domain"@,
        }
    }

    /// Human-readable message.
    #[must_use]
    pub fn to_message(&self) -> (out: String)
        ensures
            out@ == self.message(),
    {
        match self {
            SchemaError::DuplicateVariableName { name } => "duplicate variable name `".to_owned().concat(
            name.as_str()).concat("`"),
            SchemaError::UnknownVariableName { name } => "unknown variable name `".to_owned().concat(
            name.as_str()).concat("`"),
            SchemaError::UnknownVariableId { id } => "unknown variable id ".to_owned().concat(
            text::decimal_text(*id as u64).as_str()),
            SchemaError::TooManyVariables => "schema exceeds maximum variable count".to_owned(),
            SchemaError::MissingCategoryDomain { name } => "variable `".to_owned().concat(
            name.as_str()).concat("` requires a category domain"),
            SchemaError::UnexpectedCategoryDomain { name } => "variable `".to_owned().concat(
            name.as_str()).concat("` must not have a category domain"),
        }
    }
}

} // verus!
