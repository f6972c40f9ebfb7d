//! The units of work that drive a signing session: building its document, finalizing it, and
//! taking in what is seen on the chain.
//!
//! Each is idempotent, so that it can be tried again after a crash. The document is built from
//! what was recorded, never accepted from a proposer; the final transaction is computed from the
//! unsigned document and stored signatures, never from what a signer sent; and what is seen on
//! the chain must be the final transaction.

pub mod creation;
pub mod error;
pub mod finalization;
pub mod observation;
pub mod rules;

pub use creation::run_psbt_creation;
pub use error::JobsError;
pub use finalization::run_finalization;
pub use observation::{apply_chain_observation, ChainObservation};
