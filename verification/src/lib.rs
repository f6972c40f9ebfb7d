//! Coordination core of multi-user bitcoin multisig custody.

pub mod address;
pub mod api;
pub mod bytes;
pub mod coordination;
pub mod hex;
pub mod jobs;
pub mod keygen;
pub mod primitives;
pub mod psbt;
pub mod psbt_session;
pub mod storage;
pub mod text;
pub mod wallet;
