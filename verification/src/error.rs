//! The error taxonomy of the viewer core. Every failure is reported as a
//! tagged value; a human-readable message can be derived from it.

use vstd::prelude::*;
use vstd::string::StringExecFns;

verus! {

/// Why an operation on the view state failed.
#[derive(Debug)]
pub enum ViewError {
    /// The operation needs a table, and none is loaded.
    NoDataLoaded,
    /// The named column is missing from the table being operated on.
    ColumnNotFound(String),
    /// A type coercion failed.
    CastError,
    /// A filter operator outside the supported set was requested.
    UnsupportedOperator,
    /// A lock on the shared view state was poisoned.
    LockError,
    /// The source could not be read or parsed.
    LoadError,
}

impl ViewError {
    /// A human-readable description of the error.
    pub fn message(&self) -> (r: String)
        ensures
            match self {
                ViewError::NoDataLoaded => r@ == "No data loaded"@,
                ViewError::ColumnNotFound(c) => r@ == "Column not found: "@ + c@,
                ViewError::CastError => r@ == "Cast failed"@,
                ViewError::UnsupportedOperator => r@ == "Operator not handled"@,
                ViewError::LockError => r@ == "Lock poisoned"@,
                ViewError::LoadError => r@ == "Failed to load data"@,
            },
    {
        match self {
            ViewError::NoDataLoaded => String::from_str("No data loaded"),
            ViewError::ColumnNotFound(c) => {
                let mut m = String::from_str("Column not found: ");
                m.append(c.as_str());
                m
            },
            ViewError::CastError => String::from_str("Cast failed"),
            ViewError::UnsupportedOperator => String::from_str("Operator not handled"),
            ViewError::LockError => String::from_str("Lock poisoned"),
            ViewError::LoadError => String::from_str("Failed to load data"),
        }
    }

}

} // verus!
