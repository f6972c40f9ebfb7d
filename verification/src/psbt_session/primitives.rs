//! The parts of a signing session.

use vstd::prelude::*;

use crate::address::Address;
use crate::bytes::{bytes_less, precedes};
use crate::primitives::{KeyFingerprint, PsbtHash, Txid};
use crate::text::same_text;

verus! {

/// Lifecycle status, derived from the recorded events.
///
/// Users propose, sign, finalize and cancel; what is seen on the chain brings the other states
/// about. The latter are reversible, so the latest event decides: a confirmation can be followed
/// by an invalidation and that by another confirmation.
#[derive(Debug, Clone, Copy, PartialEq, Eq, Structural)]
pub enum PsbtSessionStatus {
    /// Proposed; the document is not built yet.
    Pending,
    /// Signatures are being collected.
    Collecting,
    /// The final transaction is there.
    Finalized,
    /// The transaction was seen on the network.
    Broadcast,
    /// The transaction is in a block.
    Confirmed,
    /// The transaction is no longer in the chain, or can never get there.
    Invalidated,
    /// Abandoned.
    Cancelled,
}

impl Default for PsbtSessionStatus {
    fn default() -> (r: PsbtSessionStatus)
        ensures
            r == PsbtSessionStatus::Pending,
    {
        PsbtSessionStatus::Pending
    }
}

impl PsbtSessionStatus {
    /// The name of the status.
    pub open spec fn name_spec(self) -> Seq<char> {
        match self {
            PsbtSessionStatus::Pending => "pending"@,
            PsbtSessionStatus::Collecting => "collecting"@,
            PsbtSessionStatus::Finalized => "finalized"@,
            PsbtSessionStatus::Broadcast => "broadcast"@,
            PsbtSessionStatus::Confirmed => "confirmed"@,
            PsbtSessionStatus::Invalidated => "invalidated"@,
            PsbtSessionStatus::Cancelled => "cancelled"@,
        }
    }

    /// The name of the status.
    pub fn name(&self) -> (r: &'static str)
        ensures
            r@ == self.name_spec(),
    {
        match self {
            PsbtSessionStatus::Pending => "pending",
            PsbtSessionStatus::Collecting => "collecting",
            PsbtSessionStatus::Finalized => "finalized",
            PsbtSessionStatus::Broadcast => "broadcast",
            PsbtSessionStatus::Confirmed => "confirmed",
            PsbtSessionStatus::Invalidated => "invalidated",
            PsbtSessionStatus::Cancelled => "cancelled",
        }
    }

    /// The status with a name.
    pub fn from_name(name: &str) -> (r: Option<Self>)
        ensures
            match r {
                Some(s) => s.name_spec() == name@,
                None => forall|s: PsbtSessionStatus| (#[trigger] s.name_spec()) != name@,
            },
    {
        if same_text(name, "pending") {
            Some(PsbtSessionStatus::Pending)
        } else if same_text(name, "collecting") {
            Some(PsbtSessionStatus::Collecting)
        } else if same_text(name, "finalized") {
            Some(PsbtSessionStatus::Finalized)
        } else if same_text(name, "broadcast") {
            Some(PsbtSessionStatus::Broadcast)
        } else if same_text(name, "confirmed") {
            Some(PsbtSessionStatus::Confirmed)
        } else if same_text(name, "invalidated") {
            Some(PsbtSessionStatus::Invalidated)
        } else if same_text(name, "cancelled") {
            Some(PsbtSessionStatus::Cancelled)
        } else {
            None
        }
    }

    /// Whether a session with this status lays claim to its inputs: all but those that were
    /// abandoned or invalidated do.
    pub open spec fn claims_inputs_spec(self) -> bool {
        self != PsbtSessionStatus::Invalidated && self != PsbtSessionStatus::Cancelled
    }

    /// Whether a session with this status lays claim to its inputs.
    pub fn claims_inputs(&self) -> (r: bool)
        ensures
            r == self.claims_inputs_spec(),
    {
        match self {
            PsbtSessionStatus::Invalidated | PsbtSessionStatus::Cancelled => false,
            _ => true,
        }
    }
}

/// A status is told by its name: no two have the same.
pub proof fn law_session_status_names_differ(a: PsbtSessionStatus, b: PsbtSessionStatus)
    requires
        a.name_spec() == b.name_spec(),
    ensures
        a == b,
{
    reveal_strlit("pending");
    reveal_strlit("collecting");
    reveal_strlit("finalized");
    reveal_strlit("broadcast");
    reveal_strlit("confirmed");
    reveal_strlit("invalidated");
    reveal_strlit("cancelled");
    assert("pending"@[0] == 'p' && "finalized"@[0] == 'f');
    assert("broadcast"@[0] == 'b' && "invalidated"@[0] == 'i');
    assert("collecting"@[0] == 'c' && "confirmed"@[0] == 'c' && "cancelled"@[0] == 'c');
    assert("collecting"@[2] == 'l' && "confirmed"@[2] == 'n' && "cancelled"@[2] == 'n');
    assert("confirmed"@[1] == 'o' && "cancelled"@[1] == 'a');
}

/// Why a transaction is no longer valid.
#[derive(Debug, Clone, Copy, PartialEq, Eq, Structural)]
pub enum InvalidationReason {
    /// A reorganization of the chain took a confirmation back.
    Reorged,
    /// An input was spent by another transaction, so this one can never confirm.
    InputsSpentExternally,
    /// A replacement with a higher fee was broadcast instead.
    ReplacedByFeeBump,
    /// Dropped from the mempool.
    MempoolEvicted,
}

/// A collected signature: who signed, and where the signed document is stored.
///
/// More signatures may be collected than are used: which ones ended up in the transaction is
/// recorded when it is finalized.
#[derive(Debug, Clone, Copy)]
pub struct SignatureRecord {
    pub fingerprint: KeyFingerprint,
    pub signed_psbt_hash: PsbtHash,
}

/// The final transaction, and whose signatures are in it.
#[derive(Debug)]
pub struct FinalizationRecord {
    pub txid: Txid,
    pub final_tx_hash: PsbtHash,
    pub sigs_used: Vec<KeyFingerprint>,
}

/// What a [`FinalizationRecord`] holds.
pub struct FinalizationView {
    pub txid: Txid,
    pub final_tx_hash: PsbtHash,
    pub sigs_used: Seq<KeyFingerprint>,
}

impl View for FinalizationRecord {
    type V = FinalizationView;

    open spec fn view(&self) -> FinalizationView {
        FinalizationView {
            txid: self.txid,
            final_tx_hash: self.final_tx_hash,
            sigs_used: self.sigs_used@,
        }
    }
}

/// A coin: the output of a transaction.
#[derive(Debug, Clone, Copy, Eq, Hash, PartialOrd, Ord)]
pub struct OutPointRef {
    pub txid: Txid,
    pub vout: u32,
}

impl PartialEq for OutPointRef {
    fn eq(&self, other: &Self) -> (r: bool) {
        self.txid == other.txid && self.vout == other.vout
    }
}

impl vstd::std_specs::cmp::PartialEqSpecImpl for OutPointRef {
    open spec fn obeys_eq_spec() -> bool {
        true
    }

    open spec fn eq_spec(&self, other: &Self) -> bool {
        self == other
    }
}

/// The order of coins: by transaction id, then by index.
pub open spec fn outpoint_less(a: OutPointRef, b: OutPointRef) -> bool {
    bytes_less(a.txid@, b.txid@) || (a.txid == b.txid && a.vout < b.vout)
}

impl OutPointRef {
    /// Whether this coin comes before another one.
    pub fn comes_before(&self, other: &OutPointRef) -> (r: bool)
        ensures
            r == outpoint_less(*self, *other),
    {
        precedes(self.txid.0.as_slice(), other.txid.0.as_slice()) || (self.txid == other.txid
            && self.vout < other.vout)
    }
}

/// A payment: where to, and how much.
#[derive(Debug)]
pub struct SpendOutput {
    pub address: Address,
    pub amount_sats: u64,
}

/// What a [`SpendOutput`] holds.
pub struct SpendOutputView {
    pub address: Seq<char>,
    pub amount_sats: u64,
}

impl View for SpendOutput {
    type V = SpendOutputView;

    open spec fn view(&self) -> SpendOutputView {
        SpendOutputView { address: self.address@, amount_sats: self.amount_sats }
    }
}

impl Clone for SpendOutput {
    fn clone(&self) -> (r: Self)
        ensures
            r@ == self@,
    {
        SpendOutput { address: self.address.clone(), amount_sats: self.amount_sats }
    }
}

impl PartialEq for SpendOutput {
    fn eq(&self, other: &Self) -> (r: bool) {
        self.address == other.address && self.amount_sats == other.amount_sats
    }
}

impl vstd::std_specs::cmp::PartialEqSpecImpl for SpendOutput {
    open spec fn obeys_eq_spec() -> bool {
        true
    }

    open spec fn eq_spec(&self, other: &Self) -> bool {
        self@ == other@
    }
}

/// What is paid back to the wallet: how much, and to which index of its descriptor. The address
/// is derived, never given.
#[derive(Debug, Clone, Copy, PartialEq, Eq, Structural)]
pub struct ChangeOutput {
    pub amount_sats: u64,
    pub derivation_index: u32,
}

/// What a spend moves: the coins that it consumes, the payments, the fee and the change.
#[derive(Debug)]
pub struct SpendSpec {
    pub inputs: Vec<OutPointRef>,
    pub outputs: Vec<SpendOutput>,
    pub fee_sats: u64,
    pub change_output: Option<ChangeOutput>,
}

/// What a [`SpendSpec`] holds.
pub struct SpendSpecView {
    pub inputs: Seq<OutPointRef>,
    pub outputs: Seq<SpendOutputView>,
    pub fee_sats: u64,
    pub change_output: Option<ChangeOutput>,
}

/// What each payment of a list holds.
pub open spec fn output_views(outputs: Seq<SpendOutput>) -> Seq<SpendOutputView> {
    Seq::new(outputs.len(), |i: int| outputs[i]@)
}

impl View for SpendSpec {
    type V = SpendSpecView;

    open spec fn view(&self) -> SpendSpecView {
        SpendSpecView {
            inputs: self.inputs@,
            outputs: output_views(self.outputs@),
            fee_sats: self.fee_sats,
            change_output: self.change_output,
        }
    }
}

impl Clone for SpendSpec {
    fn clone(&self) -> (r: Self)
        ensures
            r@ == self@,
    {
        SpendSpec {
            inputs: copied_inputs(&self.inputs),
            outputs: copied_outputs(&self.outputs),
            fee_sats: self.fee_sats,
            change_output: self.change_output,
        }
    }
}

/// Coins, copied.
pub fn copied_inputs(inputs: &Vec<OutPointRef>) -> (r: Vec<OutPointRef>)
    ensures
        r@ == inputs@,
{
    let mut r: Vec<OutPointRef> = Vec::new();
    let mut i: usize = 0;
    while i < inputs.len()
        invariant
            i <= inputs@.len(),
            r@ =~= inputs@.take(i as int),
        decreases inputs@.len() - i,
    {
        r.push(inputs[i]);
        i += 1;
    }
    assert(r@ =~= inputs@);
    r
}

/// Payments, copied.
pub fn copied_outputs(outputs: &Vec<SpendOutput>) -> (r: Vec<SpendOutput>)
    ensures
        output_views(r@) == output_views(outputs@),
{
    let mut r: Vec<SpendOutput> = Vec::new();
    let mut i: usize = 0;
    while i < outputs.len()
        invariant
            i <= outputs@.len(),
            r@.len() == i,
            forall|j: int| 0 <= j < i ==> (#[trigger] r@[j])@ == outputs@[j]@,
        decreases outputs@.len() - i,
    {
        r.push(outputs[i].clone());
        i += 1;
    }
    assert(output_views(r@) =~= output_views(outputs@));
    r
}

/// Fingerprints, copied.
pub fn copied_fingerprints(fingerprints: &Vec<KeyFingerprint>) -> (r: Vec<KeyFingerprint>)
    ensures
        r@ == fingerprints@,
{
    let mut r: Vec<KeyFingerprint> = Vec::new();
    let mut i: usize = 0;
    while i < fingerprints.len()
        invariant
            i <= fingerprints@.len(),
            r@ =~= fingerprints@.take(i as int),
        decreases fingerprints@.len() - i,
    {
        r.push(fingerprints[i]);
        i += 1;
    }
    assert(r@ =~= fingerprints@);
    r
}

} // verus!
