//! What can go wrong with a signing session.

use vstd::prelude::*;

use crate::primitives::{KeyFingerprint, Network, PsbtSessionId, Txid, WalletId};
use crate::psbt_session::primitives::PsbtSessionStatus;
use crate::wallet::primitives::WalletStatus;

verus! {

/// Why a proposal or a command is refused.
#[derive(Debug)]
#[allow(inconsistent_fields)]
pub enum PsbtSessionError {
    /// The wallet cannot spend in its status.
    WalletNotActive { wallet_id: WalletId, status: WalletStatus },
    /// A spend must consume at least one coin.
    EmptyInputs,
    /// A coin is named twice.
    DuplicateInput { txid: Txid, vout: u32 },
    /// A spend must have at least one output.
    EmptyOutputs,
    /// An address is not one of the wallet's network.
    InvalidAddress { network: Network, reason: String },
    /// An output is too small to be relayed.
    DustOutput { amount_sats: u64, dust_sats: u64 },
    /// The fee is above the cap.
    FeeExceedsMax { fee_sats: u64, max_sats: u64 },
    /// The session does not collect signatures.
    NotCollecting(PsbtSessionId),
    /// The keystore is not part of the wallet's policy.
    UnknownKeystore(KeyFingerprint),
    /// The session does not wait for its document.
    CannotAttachPsbt { id: PsbtSessionId, status: PsbtSessionStatus },
    /// Fewer signatures are used than the policy asks for.
    ThresholdNotMet { collected: usize, threshold: u32 },
    /// A signature is used that was not collected.
    SigsUsedNotCollected,
    /// A signature is used twice.
    DuplicateSigsUsed,
    /// The session has no final transaction.
    NotFinalized(PsbtSessionId),
    /// The transaction that was seen is not the final one.
    TxidMismatch,
    /// The session cannot be cancelled in its status.
    CannotCancel { id: PsbtSessionId, status: PsbtSessionStatus },
    /// The session cannot be invalidated in its status.
    CannotInvalidate { id: PsbtSessionId, status: PsbtSessionStatus },
}

/// What a [`PsbtSessionError`] says.
#[allow(inconsistent_fields)]
pub enum SessionFault {
    WalletNotActive { wallet_id: WalletId, status: WalletStatus },
    EmptyInputs,
    DuplicateInput { txid: Txid, vout: u32 },
    EmptyOutputs,
    InvalidAddress { network: Network, reason: Seq<char> },
    DustOutput { amount_sats: u64, dust_sats: u64 },
    FeeExceedsMax { fee_sats: u64, max_sats: u64 },
    NotCollecting(PsbtSessionId),
    UnknownKeystore(KeyFingerprint),
    CannotAttachPsbt { id: PsbtSessionId, status: PsbtSessionStatus },
    ThresholdNotMet { collected: nat, threshold: u32 },
    SigsUsedNotCollected,
    DuplicateSigsUsed,
    NotFinalized(PsbtSessionId),
    TxidMismatch,
    CannotCancel { id: PsbtSessionId, status: PsbtSessionStatus },
    CannotInvalidate { id: PsbtSessionId, status: PsbtSessionStatus },
}

impl View for PsbtSessionError {
    type V = SessionFault;

    open spec fn view(&self) -> SessionFault {
        match *self {
            PsbtSessionError::WalletNotActive { wallet_id, status } =>
                SessionFault::WalletNotActive { wallet_id, status },
            PsbtSessionError::EmptyInputs => SessionFault::EmptyInputs,
            PsbtSessionError::DuplicateInput { txid, vout } => SessionFault::DuplicateInput {
                txid,
                vout,
            },
            PsbtSessionError::EmptyOutputs => SessionFault::EmptyOutputs,
            PsbtSessionError::InvalidAddress { network, reason } => SessionFault::InvalidAddress {
                network,
                reason: reason@,
            },
            PsbtSessionError::DustOutput { amount_sats, dust_sats } => SessionFault::DustOutput {
                amount_sats,
                dust_sats,
            },
            PsbtSessionError::FeeExceedsMax { fee_sats, max_sats } => SessionFault::FeeExceedsMax {
                fee_sats,
                max_sats,
            },
            PsbtSessionError::NotCollecting(id) => SessionFault::NotCollecting(id),
            PsbtSessionError::UnknownKeystore(f) => SessionFault::UnknownKeystore(f),
            PsbtSessionError::CannotAttachPsbt { id, status } => SessionFault::CannotAttachPsbt {
                id,
                status,
            },
            PsbtSessionError::ThresholdNotMet { collected, threshold } =>
                SessionFault::ThresholdNotMet { collected: collected as nat, threshold },
            PsbtSessionError::SigsUsedNotCollected => SessionFault::SigsUsedNotCollected,
            PsbtSessionError::DuplicateSigsUsed => SessionFault::DuplicateSigsUsed,
            PsbtSessionError::NotFinalized(id) => SessionFault::NotFinalized(id),
            PsbtSessionError::TxidMismatch => SessionFault::TxidMismatch,
            PsbtSessionError::CannotCancel { id, status } => SessionFault::CannotCancel {
                id,
                status,
            },
            PsbtSessionError::CannotInvalidate { id, status } => SessionFault::CannotInvalidate {
                id,
                status,
            },
        }
    }
}

} // verus!
