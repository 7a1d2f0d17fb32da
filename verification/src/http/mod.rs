//! What the server answers.

pub mod assets;
pub mod auth;
pub mod books;
pub mod clips;
pub mod laws;

use vstd::prelude::*;

verus! {

/// The request lacks something.
pub const BAD_REQUEST: u16 = 400;

/// What was asked for is not there.
pub const NOT_FOUND: u16 = 404;

/// The request contradicts itself.
pub const CONFLICT: u16 = 409;

/// Files of this kind are not read.
pub const UNSUPPORTED_MEDIA_TYPE: u16 = 415;

/// The file is of a known kind, but nothing can be read from it.
pub const UNPROCESSABLE_ENTITY: u16 = 422;

/// What is asked for cannot be done now.
pub const SERVICE_UNAVAILABLE: u16 = 503;

/// What is asked for takes too long.
pub const GATEWAY_TIMEOUT: u16 = 504;

/// An error that is answered: the status, and what the client is told.
#[derive(Debug)]
pub struct ApiError(pub u16, pub String);

/// Whether `e` has this status and tells the client this.
pub open spec fn is_error(e: ApiError, status: u16, text: Seq<char>) -> bool {
    e.0 == status && e.1@ == text
}

/// An error with this status.
pub(crate) fn error(status: u16, text: &str) -> (r: ApiError)
    ensures
        is_error(r, status, text@),
{
    ApiError(status, text.to_owned())
}

/// What was asked for, if it is there.
pub(crate) fn found<T>(x: Option<T>, missing: &str) -> (r: Result<T, ApiError>)
    ensures
        x matches Some(v) ==> r == Ok::<T, ApiError>(v),
        x is None ==> (r matches Err(e) && is_error(e, NOT_FOUND, missing@)),
{
    match x {
        Some(v) => Ok(v),
        None => Err(error(NOT_FOUND, missing)),
    }
}

/// How many bytes the body of a request may have.
pub fn body_limit(max_upload_mb: usize) -> (r: usize)
    requires
        max_upload_mb * 0x10_0000 <= usize::MAX,
    ensures
        r == max_upload_mb * 0x10_0000,
{
    max_upload_mb * 0x10_0000
}

} // verus!
