//! The error a request is answered with. The HTTP status each variant maps to
//! belongs to the server around the library; here a variant is the kind of
//! refusal and the text a person reads.
use vstd::prelude::*;

verus! {

/// Why a request was refused.
#[derive(Debug)]
pub enum ApiError {
    /// The request itself is wrong; the text says how.
    BadRequest(String),
    /// The request collides with what is stored now; the text says with what.
    Conflict(String),
    /// There is nothing at that address (or nothing the caller may see).
    NotFound,
    /// The caller may not do this here.
    Forbidden,
    /// The caller may do this in general but is refused it here; the text
    /// says why.
    Refused(String),
    /// Something on the server side failed.
    Internal(String),
}

/// The text a refusal carries to whoever made the request.
pub open spec fn error_text(e: ApiError) -> Seq<char> {
    match e {
        ApiError::BadRequest(m) => m@,
        ApiError::Conflict(m) => m@,
        ApiError::NotFound => "not found"@,
        ApiError::Forbidden => "forbidden"@,
        ApiError::Refused(m) => m@,
        ApiError::Internal(m) => m@,
    }
}

impl ApiError {
    /// The refusal as a person reads it.
    pub fn message(&self) -> (s: String)
        ensures
            s@ == error_text(*self),
    {
        match self {
            ApiError::BadRequest(m) => m.clone(),
            ApiError::Conflict(m) => m.clone(),
            ApiError::NotFound => crate::text::owned("not found"),
            ApiError::Forbidden => crate::text::owned("forbidden"),
            ApiError::Refused(m) => m.clone(),
            ApiError::Internal(m) => m.clone(),
        }
    }
}

} // verus!
