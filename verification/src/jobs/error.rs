//! What can go wrong in a job.

use vstd::prelude::*;

use crate::primitives::{PsbtHash, PsbtSessionId, WalletId};
use crate::psbt::validation::{PsbtValidationError, ValidationFault};
use crate::psbt_session::error::{PsbtSessionError, SessionFault};
use crate::psbt_session::primitives::PsbtSessionStatus;
use crate::storage::BlobFetchError;
use crate::wallet::error::{WalletError, WalletFault};

verus! {

/// Why a job did not do its work.
#[derive(Debug)]
pub enum JobsError {
    /// The session refused.
    Session(PsbtSessionError),
    /// No document can be built.
    Wallet(WalletError),
    /// A stored document is no good.
    Psbt(PsbtValidationError),
    /// The coins cannot be found out.
    Funding(String),
    /// The wallet has no descriptor, though a session exists for it.
    WalletNotActive(WalletId),
    /// Nothing is stored at an address that was recorded.
    BlobMissing(PsbtHash),
    /// What is stored at an address does not have that digest.
    BlobIntegrity(PsbtHash),
    /// The session has another status than the job is for.
    UnexpectedStatus { id: PsbtSessionId, status: PsbtSessionStatus, expected: &'static str },
    /// Not enough signatures were collected yet.
    ThresholdNotMet(PsbtSessionId),
    /// The collected signatures do not make a final transaction.
    CannotFinalize,
}

/// What a [`JobsError`] says.
pub enum JobsFault {
    Session(SessionFault),
    Wallet(WalletFault),
    Psbt(ValidationFault),
    Funding(Seq<char>),
    WalletNotActive(WalletId),
    BlobMissing(PsbtHash),
    BlobIntegrity(PsbtHash),
    UnexpectedStatus { id: PsbtSessionId, status: PsbtSessionStatus, expected: Seq<char> },
    ThresholdNotMet(PsbtSessionId),
    CannotFinalize,
}

impl View for JobsError {
    type V = JobsFault;

    open spec fn view(&self) -> JobsFault {
        match *self {
            JobsError::Session(e) => JobsFault::Session(e@),
            JobsError::Wallet(e) => JobsFault::Wallet(e@),
            JobsError::Psbt(e) => JobsFault::Psbt(e@),
            JobsError::Funding(s) => JobsFault::Funding(s@),
            JobsError::WalletNotActive(id) => JobsFault::WalletNotActive(id),
            JobsError::BlobMissing(h) => JobsFault::BlobMissing(h),
            JobsError::BlobIntegrity(h) => JobsFault::BlobIntegrity(h),
            JobsError::UnexpectedStatus { id, status, expected } => JobsFault::UnexpectedStatus {
                id,
                status,
                expected: expected@,
            },
            JobsError::ThresholdNotMet(id) => JobsFault::ThresholdNotMet(id),
            JobsError::CannotFinalize => JobsFault::CannotFinalize,
        }
    }
}

/// A failed fetch, as the fault of a job.
pub open spec fn fetch_fault(e: BlobFetchError) -> JobsFault {
    match e {
        BlobFetchError::Missing(h) => JobsFault::BlobMissing(h),
        BlobFetchError::Integrity(h) => JobsFault::BlobIntegrity(h),
    }
}

/// A failed fetch, as the error of a job.
pub fn fetch_error(e: BlobFetchError) -> (r: JobsError)
    ensures
        r@ == fetch_fault(e),
{
    match e {
        BlobFetchError::Missing(h) => JobsError::BlobMissing(h),
        BlobFetchError::Integrity(h) => JobsError::BlobIntegrity(h),
    }
}

impl JobsError {
    /// Whether a creation job that ends so is done: the session has moved on and will never
    /// need a document, so that trying again is pointless.
    pub fn completes_creation(&self) -> (r: bool)
        ensures
            r == (self@ is UnexpectedStatus),
    {
        match self {
            JobsError::UnexpectedStatus { .. } => true,
            _ => false,
        }
    }

    /// Whether a finalization job that ends so is done: there is nothing to finalize yet, and a
    /// later signature starts the job again; or the session has moved on.
    pub fn completes_finalization(&self) -> (r: bool)
        ensures
            r == (self@ is ThresholdNotMet || self@ is UnexpectedStatus),
    {
        match self {
            JobsError::ThresholdNotMet(_) => true,
            JobsError::UnexpectedStatus { .. } => true,
            _ => false,
        }
    }
}

} // verus!
