//! Signing sessions: one spend, from its proposal to its confirmation.

pub mod conflicts;
pub mod entity;
pub mod error;
pub mod laws;
pub mod order;
pub mod primitives;
pub mod proposal;
pub mod rules;

pub use entity::{PsbtSession, PsbtSessionEvent};
pub use error::PsbtSessionError;
pub use primitives::{
    ChangeOutput, FinalizationRecord, InvalidationReason, OutPointRef, PsbtSessionStatus,
    SignatureRecord, SpendOutput, SpendSpec,
};
pub use proposal::{NewPsbtSession, MAX_FEE_SATS};
