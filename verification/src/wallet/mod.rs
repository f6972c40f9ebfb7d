//! Wallets: the keystores of their participants, the descriptor that these form, and the
//! transactions that spend from it.

pub mod descriptor;
pub mod document;
pub mod entity;
pub mod error;
pub mod laws;
pub mod primitives;
pub mod rules;
pub mod spend;
pub mod spend_rules;

pub use descriptor::{
    descriptor_fingerprint, descriptor_fingerprints, keystore_fingerprint,
    sortedmulti_wsh_descriptor, Descriptor, DescriptorPublicKey,
};
pub use document::build_unsigned_psbt;
pub use entity::{NewWallet, Wallet, WalletEvent};
pub use error::WalletError;
pub use primitives::WalletStatus;
pub use spend::{FundingUtxo, TxOut};
