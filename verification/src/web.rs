//! The shapes of the web service's state and answers.

use vstd::prelude::*;

verus! {

/// The state shared by the web service's handlers. It holds nothing: each
/// request opens what it needs.
#[derive(Debug, Clone, Copy)]
pub struct AppState {}

/// The body of an API answer: the data on success, the error's text
/// otherwise.
#[derive(Debug)]
pub struct ApiResponse<T> {
    pub success: bool,
    pub data: Option<T>,
    pub error: Option<String>,
}

impl<T> ApiResponse<T> {
    /// A successful answer carrying `data`.
    pub fn ok(data: T) -> (r: Self)
        ensures
            r.success,
            r.data == Some(data),
            r.error is None,
    {
        ApiResponse { success: true, data: Some(data), error: None }
    }

    /// A failed answer carrying the error's text.
    pub fn failed(error: String) -> (r: Self)
        ensures
            !r.success,
            r.data is None,
            r.error == Some(error),
    {
        ApiResponse { success: false, data: None, error: Some(error) }
    }
}

} // verus!
