//! Error taxonomy for the pipeline.

use vstd::prelude::*;

verus! {

/// Errors reported by the pipeline.
///
/// `ApplicationError` marks a failure to launch or drive an external
/// collaborator, `DataError` a malformed row or count field in an input
/// table, and `IOError` a filesystem or pipe failure.
#[derive(Debug)]
pub enum PublicError {
    ApplicationError(String),
    DataError(String),
    IOError(String),
}

impl PublicError {
    /// True for the `DataError` variant.
    pub fn is_data_error(&self) -> (r: bool)
        ensures
            r == (self is DataError),
    {
        match self {
            PublicError::DataError(_) => true,
            _ => false,
        }
    }

    /// True for the `ApplicationError` variant.
    pub fn is_application_error(&self) -> (r: bool)
        ensures
            r == (self is ApplicationError),
    {
        match self {
            PublicError::ApplicationError(_) => true,
            _ => false,
        }
    }

    /// True for the `IOError` variant.
    pub fn is_io_error(&self) -> (r: bool)
        ensures
            r == (self is IOError),
    {
        match self {
            PublicError::IOError(_) => true,
            _ => false,
        }
    }
}

} // verus!
