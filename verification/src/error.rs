//! The error taxonomy of the service.

use vstd::prelude::*;

verus! {

/// Every failure a service operation can report, with a human-readable
/// message where one helps.
#[derive(Debug)]
pub enum AppError {
    NotFound(String),
    Conflict(String),
    BadRequest(String),
    Unauthorized,
    Forbidden(String),
    PayloadTooLarge(String),
    Internal(String),
}

impl AppError {
    /// The HTTP status code that the error maps to.
    pub fn status_code(&self) -> (r: u16)
        ensures
            r == self.spec_status_code(),
    {
        match self {
            AppError::NotFound(_) => 404,
            AppError::Conflict(_) => 409,
            AppError::BadRequest(_) => 400,
            AppError::Unauthorized => 401,
            AppError::Forbidden(_) => 403,
            AppError::PayloadTooLarge(_) => 413,
            AppError::Internal(_) => 500,
        }
    }

    /// Status code of each variant.
    pub open spec fn spec_status_code(&self) -> u16 {
        match self {
            AppError::NotFound(_) => 404,
            AppError::Conflict(_) => 409,
            AppError::BadRequest(_) => 400,
            AppError::Unauthorized => 401,
            AppError::Forbidden(_) => 403,
            AppError::PayloadTooLarge(_) => 413,
            AppError::Internal(_) => 500,
        }
    }

    /// The message carried by the error, or an empty string for the
    /// variant that has none.
    pub fn message(&self) -> (r: &str)
        ensures
            r@ == self.spec_message(),
    {
        match self {
            AppError::NotFound(m) => m.as_str(),
            AppError::Conflict(m) => m.as_str(),
            AppError::BadRequest(m) => m.as_str(),
            AppError::Unauthorized => "Unauthorized",
            AppError::Forbidden(m) => m.as_str(),
            AppError::PayloadTooLarge(m) => m.as_str(),
            AppError::Internal(m) => m.as_str(),
        }
    }

    /// Message of each variant.
    pub open spec fn spec_message(&self) -> Seq<char> {
        match self {
            AppError::NotFound(m) => m@,
            AppError::Conflict(m) => m@,
            AppError::BadRequest(m) => m@,
            AppError::Unauthorized => "Unauthorized"@,
            AppError::Forbidden(m) => m@,
            AppError::PayloadTooLarge(m) => m@,
            AppError::Internal(m) => m@,
        }
    }
}

} // verus!
