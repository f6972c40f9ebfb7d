//! The states of a wallet.

use vstd::prelude::*;

use crate::text::same_text;

verus! {

/// Lifecycle status, derived from the recorded events.
///
/// Activation is terminal: another policy or other keystores form another descriptor, and so
/// another wallet.
#[derive(Debug, Clone, Copy, PartialEq, Eq, Structural)]
pub enum WalletStatus {
    /// The policy is registered; participants are submitting their keystores. There is no
    /// descriptor, and so no address.
    CollectingKeystores,
    /// All keystores are collected, and the descriptor is derived.
    Active,
    /// Abandoned before activation. Terminal.
    Cancelled,
}

impl Default for WalletStatus {
    fn default() -> (r: WalletStatus)
        ensures
            r == WalletStatus::CollectingKeystores,
    {
        WalletStatus::CollectingKeystores
    }
}

impl WalletStatus {
    /// The name of the status.
    pub open spec fn name_spec(self) -> Seq<char> {
        match self {
            WalletStatus::CollectingKeystores => "collecting_keystores"@,
            WalletStatus::Active => "active"@,
            WalletStatus::Cancelled => "cancelled"@,
        }
    }

    /// The name of the status.
    pub fn name(&self) -> (r: &'static str)
        ensures
            r@ == self.name_spec(),
    {
        match self {
            WalletStatus::CollectingKeystores => "collecting_keystores",
            WalletStatus::Active => "active",
            WalletStatus::Cancelled => "cancelled",
        }
    }

    /// The status with a name.
    pub fn from_name(name: &str) -> (r: Option<Self>)
        ensures
            match r {
                Some(s) => s.name_spec() == name@,
                None => forall|s: WalletStatus| (#[trigger] s.name_spec()) != name@,
            },
    {
        if same_text(name, "collecting_keystores") {
            Some(WalletStatus::CollectingKeystores)
        } else if same_text(name, "active") {
            Some(WalletStatus::Active)
        } else if same_text(name, "cancelled") {
            Some(WalletStatus::Cancelled)
        } else {
            None
        }
    }
}

/// A status is told by its name: no two have the same.
pub proof fn law_wallet_status_names_differ(a: WalletStatus, b: WalletStatus)
    requires
        a.name_spec() == b.name_spec(),
    ensures
        a == b,
{
    reveal_strlit("collecting_keystores");
    reveal_strlit("active");
    reveal_strlit("cancelled");
    assert("collecting_keystores"@.len() == 20);
    assert("active"@.len() == 6);
    assert("cancelled"@.len() == 9);
}

} // verus!
