//! Error taxonomy. The remote-API boundary distinguishes authentication,
//! missing-resource, rate-limit, transport and decode failures; the store
//! reports referential-integrity violations; a per-release pricing failure is
//! carried in the sync report rather than aborting the run.

use vstd::prelude::*;

verus! {

/// A failure at the remote catalog API boundary. `status` is the HTTP status
/// code where one was received; a `Transport` error with status 0 stands for
/// a connectivity or timeout failure that produced no response.
#[derive(Debug)]
pub enum ApiError {
    Auth { status: u16, body: String },
    NotFound { body: String },
    RateLimit { body: String },
    Transport { status: u16, body: String },
    Decode { detail: String },
}

/// A store operation referenced a release that does not exist.
#[derive(Debug)]
pub enum StoreError {
    Integrity { release_id: u32 },
}

/// One release's marketplace lookup failed during the pricing phase; recorded
/// in the run report, never escalated to abort the run.
#[derive(Debug)]
pub struct PricingFailure {
    pub release_id: u32,
    pub error: ApiError,
}

impl Clone for ApiError {
    fn clone(&self) -> (r: Self)
        ensures
            r == *self,
    {
        match self {
            ApiError::Auth { status, body } => ApiError::Auth { status: *status, body: body.clone() },
            ApiError::NotFound { body } => ApiError::NotFound { body: body.clone() },
            ApiError::RateLimit { body } => ApiError::RateLimit { body: body.clone() },
            ApiError::Transport { status, body } => ApiError::Transport {
                status: *status,
                body: body.clone(),
            },
            ApiError::Decode { detail } => ApiError::Decode { detail: detail.clone() },
        }
    }
}

} // verus!
