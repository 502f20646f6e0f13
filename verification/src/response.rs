use vstd::prelude::*;

verus! {

/// The body of a successful account request.
pub struct OkResponse {
    pub message: String,
    pub token: Option<String>,
    pub username: Option<String>,
}

/// The body of a failed request.
pub struct ErrorResponse {
    pub message: String,
}

/// A payload wrapper for listing endpoints.
pub struct DataResponse<T> {
    pub data: T,
}

} // verus!
