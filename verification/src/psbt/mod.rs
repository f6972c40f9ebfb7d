//! Partially signed transactions: their binary frame, the validation of what signers send back,
//! and the merging of signatures.

pub mod codec;
pub mod crypto;
pub mod fields;
pub mod laws;
pub mod merge;
pub mod order;
pub mod rules;
pub mod validation;

pub use codec::{FieldMap, Pair, Psbt};
pub use merge::merge_partial_sigs;
pub use validation::{
    parse_psbt, validate_signed_submission, verify_merged_blob, ExtractedSignature,
    PsbtValidationError, MAX_PSBT_BYTES,
};
