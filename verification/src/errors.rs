use vstd::prelude::*;

verus! {

/// The error taxonomy of the gateway.
///
/// `BadRequest` covers every malformed query parameter, including an
/// invalid calendar date or time; no finer distinction is surfaced.
/// `BackendUnreachable` covers transport failures and malformed backend
/// responses. `Internal` covers construction failures of foundational
/// fixed values, such as the reference timezone offset.
#[derive(Clone, Copy, Debug, PartialEq, Eq, Structural)]
pub enum ApiError {
    BadRequest,
    BackendUnreachable,
    Internal,
}

impl ApiError {
    /// The HTTP status code that this error is answered with.
    pub open spec fn spec_status_code(self) -> u16 {
        match self {
            ApiError::BadRequest => 400,
            ApiError::BackendUnreachable => 502,
            ApiError::Internal => 500,
        }
    }

    /// Maps the error to its HTTP status code: 400 for a bad request,
    /// 502 for an unreachable backend, 500 for an internal failure.
    pub fn status_code(&self) -> (code: u16)
        ensures
            code == self.spec_status_code(),
    {
        match self {
            ApiError::BadRequest => 400,
            ApiError::BackendUnreachable => 502,
            ApiError::Internal => 500,
        }
    }
}

} // verus!
