//! What can go wrong with a wallet.

use vstd::prelude::*;

use crate::primitives::{KeyFingerprint, UserId};
use crate::psbt_session::primitives::OutPointRef;

verus! {

/// Why a wallet refuses a command, or why its descriptor or a transaction cannot be built.
#[derive(Debug)]
#[allow(inconsistent_fields)]
pub enum WalletError {
    /// The keys do not form a descriptor.
    Miniscript(String),
    /// This many signatures out of this many keys is no threshold that a script can hold.
    Threshold { threshold: usize, total: usize },
    /// The descriptor has no keys at an index.
    NonDefiniteKey(String),
    /// There is no coin for an input.
    MissingFunding(OutPointRef),
    /// An address is not one of the network.
    InvalidAddress(String),
    /// What is spent is not what is paid.
    AmountMismatch { inputs_sats: u64, outputs_sats: u64, fee_sats: u64 },
    /// No document can be made of the transaction.
    Psbt(String),
    /// The change output does not fit the descriptor.
    OutputUpdate(String),
    /// A coin does not fit the descriptor.
    UtxoUpdate(String),
    /// This many signatures out of this many participants is no policy.
    InvalidPolicy { threshold: u32, total_keystores: u32 },
    /// A participant is named twice.
    DuplicateParticipant(UserId),
    /// The user is no participant of the wallet.
    NotAParticipant(UserId),
    /// The participant has submitted another keystore.
    ParticipantAlreadySubmitted(UserId),
    /// Another participant has submitted a keystore with this fingerprint.
    DuplicateKeystore(KeyFingerprint),
    /// The wallet is active: its keystores are settled.
    AlreadyActive,
    /// The wallet was cancelled.
    Cancelled,
    /// The wallet is active and cannot be cancelled.
    CannotCancelActive,
}

/// What a [`WalletError`] says.
#[allow(inconsistent_fields)]
pub enum WalletFault {
    Miniscript(Seq<char>),
    Threshold { threshold: nat, total: nat },
    NonDefiniteKey(Seq<char>),
    MissingFunding(OutPointRef),
    InvalidAddress(Seq<char>),
    AmountMismatch { inputs_sats: nat, outputs_sats: nat, fee_sats: nat },
    Psbt(Seq<char>),
    OutputUpdate(Seq<char>),
    UtxoUpdate(Seq<char>),
    InvalidPolicy { threshold: u32, total_keystores: u32 },
    DuplicateParticipant(UserId),
    NotAParticipant(UserId),
    ParticipantAlreadySubmitted(UserId),
    DuplicateKeystore(KeyFingerprint),
    AlreadyActive,
    Cancelled,
    CannotCancelActive,
}

impl View for WalletError {
    type V = WalletFault;

    open spec fn view(&self) -> WalletFault {
        match *self {
            WalletError::Miniscript(s) => WalletFault::Miniscript(s@),
            WalletError::Threshold { threshold, total } => WalletFault::Threshold {
                threshold: threshold as nat,
                total: total as nat,
            },
            WalletError::NonDefiniteKey(s) => WalletFault::NonDefiniteKey(s@),
            WalletError::MissingFunding(o) => WalletFault::MissingFunding(o),
            WalletError::InvalidAddress(s) => WalletFault::InvalidAddress(s@),
            WalletError::AmountMismatch { inputs_sats, outputs_sats, fee_sats } =>
                WalletFault::AmountMismatch {
                inputs_sats: inputs_sats as nat,
                outputs_sats: outputs_sats as nat,
                fee_sats: fee_sats as nat,
            },
            WalletError::Psbt(s) => WalletFault::Psbt(s@),
            WalletError::OutputUpdate(s) => WalletFault::OutputUpdate(s@),
            WalletError::UtxoUpdate(s) => WalletFault::UtxoUpdate(s@),
            WalletError::InvalidPolicy { threshold, total_keystores } =>
                WalletFault::InvalidPolicy { threshold, total_keystores },
            WalletError::DuplicateParticipant(u) => WalletFault::DuplicateParticipant(u),
            WalletError::NotAParticipant(u) => WalletFault::NotAParticipant(u),
            WalletError::ParticipantAlreadySubmitted(u) =>
                WalletFault::ParticipantAlreadySubmitted(u),
            WalletError::DuplicateKeystore(f) => WalletFault::DuplicateKeystore(f),
            WalletError::AlreadyActive => WalletFault::AlreadyActive,
            WalletError::Cancelled => WalletFault::Cancelled,
            WalletError::CannotCancelActive => WalletFault::CannotCancelActive,
        }
    }
}

} // verus!
