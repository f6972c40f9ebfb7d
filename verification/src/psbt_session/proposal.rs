//! Proposing a spend.

use vstd::prelude::*;

use crate::address::{address_script, dust_limit, minimal_non_dust, script_for};
use crate::primitives::{KeyFingerprint, Network, PsbtSessionId, UserId, WalletId};
use crate::psbt_session::entity::{
    session_events, session_status, PsbtSessionEvent, SessionEventView,
};
use crate::psbt_session::error::{PsbtSessionError, SessionFault};
use crate::psbt_session::primitives::{
    output_views, outpoint_less, ChangeOutput, OutPointRef, PsbtSessionStatus, SpendOutput,
    SpendOutputView, SpendSpec, SpendSpecView,
};
use crate::wallet::descriptor::{
    keystore_fingerprint, keystore_views, DescriptorPublicKey, KeystoreView,
};
use crate::wallet::entity::{
    submitted_keystores, wallet_status, wallet_submissions, UninitializedField, Wallet, WalletView,
};
use crate::wallet::primitives::WalletStatus;

verus! {

/// Hard cap on the fee that a proposal may declare, in sats (0.01 BTC).
///
/// Signers see the fee on their devices, but nobody should be able to put an absurd one before
/// them at all. The cap is absolute, since the amounts of the inputs are not known here.
pub const MAX_FEE_SATS: u64 = 1_000_000;

/// The least of the coins that are named more than once.
pub open spec fn least_repeated(inputs: Seq<OutPointRef>) -> Option<OutPointRef>
    decreases inputs.len(),
{
    if inputs.len() == 0 {
        None
    } else {
        let before = least_repeated(inputs.drop_last());
        let last = inputs.last();
        if !inputs.drop_last().contains(last) {
            before
        } else if before is Some && outpoint_less(before->0, last) {
            before
        } else {
            Some(last)
        }
    }
}

/// A script that pays to a witness script: the version, the length and a hash, here of zeros.
pub open spec fn p2wsh_script() -> Seq<u8> {
    seq![0u8, 32u8] + Seq::new(32, |i: int| 0u8)
}

/// What is known of an address on a network: the least amount that an output to it should have,
/// or why it is no address of that network.
pub open spec fn output_check(address: Seq<char>, network: Network) -> Result<u64, Seq<char>> {
    match address_script(address, network) {
        Ok(script) => Ok(dust_limit(script) as u64),
        Err(reason) => Err(reason),
    }
}

/// What is known of the address of each output.
pub open spec fn output_checks(outputs: Seq<SpendOutputView>, network: Network) -> Seq<
    Result<u64, Seq<char>>,
> {
    Seq::new(outputs.len(), |i: int| output_check(outputs[i].address, network))
}

/// What is wrong with the first `n` outputs, if anything.
pub open spec fn outputs_fault(
    outputs: Seq<SpendOutputView>,
    network: Network,
    checks: Seq<Result<u64, Seq<char>>>,
    n: nat,
) -> Option<SessionFault>
    decreases n,
{
    if n == 0 {
        None
    } else {
        match outputs_fault(outputs, network, checks, (n - 1) as nat) {
            Some(e) => Some(e),
            None => match checks[n - 1] {
                Err(reason) => Some(SessionFault::InvalidAddress { network, reason }),
                Ok(dust_sats) => if outputs[n - 1].amount_sats < dust_sats {
                    Some(
                        SessionFault::DustOutput {
                            amount_sats: outputs[n - 1].amount_sats,
                            dust_sats,
                        },
                    )
                } else {
                    None
                },
            },
        }
    }
}

/// What is wrong with a proposal, if anything, given what is known of the addresses and the
/// least amount of a change output: the status of the wallet, the inputs, the outputs, the
/// change and the fee, in this order.
pub open spec fn proposal_fault(
    wallet: WalletView,
    spend: SpendSpecView,
    checks: Seq<Result<u64, Seq<char>>>,
    change_dust: u64,
) -> Option<SessionFault> {
    let status = wallet_status(wallet.events);
    if status != WalletStatus::Active {
        Some(SessionFault::WalletNotActive { wallet_id: wallet.id, status })
    } else if spend.inputs.len() == 0 {
        Some(SessionFault::EmptyInputs)
    } else if least_repeated(spend.inputs) is Some {
        let o = least_repeated(spend.inputs)->0;
        Some(SessionFault::DuplicateInput { txid: o.txid, vout: o.vout })
    } else if spend.outputs.len() == 0 {
        Some(SessionFault::EmptyOutputs)
    } else {
        match outputs_fault(spend.outputs, wallet.network, checks, spend.outputs.len()) {
            Some(e) => Some(e),
            None => if spend.change_output is Some && (spend.change_output->0).amount_sats
                < change_dust {
                Some(
                    SessionFault::DustOutput {
                        amount_sats: (spend.change_output->0).amount_sats,
                        dust_sats: change_dust,
                    },
                )
            } else if spend.fee_sats > MAX_FEE_SATS {
                Some(
                    SessionFault::FeeExceedsMax {
                        fee_sats: spend.fee_sats,
                        max_sats: MAX_FEE_SATS,
                    },
                )
            } else {
                None
            },
        }
    }
}

/// The fingerprints of keystores.
pub open spec fn fingerprints(keystores: Seq<KeystoreView>) -> Seq<KeyFingerprint> {
    Seq::new(keystores.len(), |i: int| keystores[i].fingerprint)
}

/// A spend that is about to be proposed.
#[derive(Debug)]
pub struct NewPsbtSession {
    id: PsbtSessionId,
    wallet_id: WalletId,
    proposed_by: UserId,
    inputs: Vec<OutPointRef>,
    outputs: Vec<SpendOutput>,
    fee_sats: u64,
    change_output: Option<ChangeOutput>,
    threshold: u32,
    keystores: Vec<KeyFingerprint>,
}

/// What a [`NewPsbtSession`] holds.
pub struct NewSessionView {
    pub id: PsbtSessionId,
    pub wallet_id: WalletId,
    pub proposed_by: UserId,
    pub spend: SpendSpecView,
    pub threshold: u32,
    pub keystores: Seq<KeyFingerprint>,
}

impl View for NewPsbtSession {
    type V = NewSessionView;

    closed spec fn view(&self) -> NewSessionView {
        NewSessionView {
            id: self.id,
            wallet_id: self.wallet_id,
            proposed_by: self.proposed_by,
            spend: SpendSpecView {
                inputs: self.inputs@,
                outputs: output_views(self.outputs@),
                fee_sats: self.fee_sats,
                change_output: self.change_output,
            },
            threshold: self.threshold,
            keystores: self.keystores@,
        }
    }
}

/// What a good proposal becomes: the spend as it was given, with the signing policy of the
/// wallet as it is now.
pub open spec fn proposal(
    id: PsbtSessionId,
    wallet: WalletView,
    proposed_by: UserId,
    spend: SpendSpecView,
) -> NewSessionView {
    NewSessionView {
        id,
        wallet_id: wallet.id,
        proposed_by,
        spend,
        threshold: wallet.threshold,
        keystores: fingerprints(submitted_keystores(wallet_submissions(wallet.events))),
    }
}

/// The event that proposes a spend.
pub open spec fn proposal_event(p: NewSessionView) -> SessionEventView {
    SessionEventView::Initialized {
        id: p.id,
        wallet_id: p.wallet_id,
        proposed_by: p.proposed_by,
        inputs: p.spend.inputs,
        outputs: p.spend.outputs,
        fee_sats: p.spend.fee_sats,
        change_output: p.spend.change_output,
        threshold: p.threshold,
        keystores: p.keystores,
    }
}

/// Whether a list of coins holds one.
pub fn has_outpoint(inputs: &Vec<OutPointRef>, o: &OutPointRef) -> (r: bool)
    ensures
        r == inputs@.contains(*o),
{
    let mut i: usize = 0;
    while i < inputs.len()
        invariant
            i <= inputs@.len(),
            forall|j: int| 0 <= j < i ==> inputs@[j] != *o,
        decreases inputs@.len() - i,
    {
        if inputs[i] == *o {
            return true;
        }
        i += 1;
    }
    false
}

/// The least of the coins that are named more than once.
fn find_least_repeated(inputs: &Vec<OutPointRef>) -> (r: Option<OutPointRef>)
    ensures
        r == least_repeated(inputs@),
{
    let mut seen: Vec<OutPointRef> = Vec::new();
    let mut least: Option<OutPointRef> = None;
    let mut i: usize = 0;
    assert(inputs@.take(0) =~= Seq::<OutPointRef>::empty());
    while i < inputs.len()
        invariant
            i <= inputs@.len(),
            seen@ =~= inputs@.take(i as int),
            least == least_repeated(inputs@.take(i as int)),
        decreases inputs@.len() - i,
    {
        assert(inputs@.take(i + 1).drop_last() =~= inputs@.take(i as int));
        let o: OutPointRef = inputs[i];
        if has_outpoint(&seen, &o) {
            match least {
                Some(l) => {
                    if !l.comes_before(&o) {
                        least = Some(o);
                    }
                },
                None => {
                    least = Some(o);
                },
            }
        }
        seen.push(o);
        i += 1;
    }
    assert(inputs@.take(i as int) =~= inputs@);
    least
}

/// What results and reasons say, seen as what they hold.
pub open spec fn check_views(checks: Seq<Result<u64, String>>) -> Seq<Result<u64, Seq<char>>> {
    Seq::new(
        checks.len(),
        |i: int|
            match checks[i] {
                Ok(d) => Ok::<u64, Seq<char>>(d),
                Err(e) => Err::<u64, Seq<char>>(e@),
            },
    )
}

/// What is known of the address of each output.
fn check_outputs(outputs: &Vec<SpendOutput>, network: Network) -> (r: Vec<Result<u64, String>>)
    ensures
        check_views(r@) == output_checks(output_views(outputs@), network),
{
    let ghost wanted = output_checks(output_views(outputs@), network);
    let mut r: Vec<Result<u64, String>> = Vec::new();
    let mut i: usize = 0;
    while i < outputs.len()
        invariant
            i <= outputs@.len(),
            r@.len() == i,
            wanted == output_checks(output_views(outputs@), network),
            check_views(r@) =~= wanted.take(i as int),
        decreases outputs@.len() - i,
    {
        let ghost before = check_views(r@);
        let check: Result<u64, String> = match script_for(outputs[i].address.as_str(), network) {
            Ok(script) => Ok(minimal_non_dust(script.as_slice())),
            Err(reason) => Err(reason),
        };
        r.push(check);
        assert(check_views(r@) =~= before.push(wanted[i as int]));
        i += 1;
    }
    assert(check_views(r@) =~= wanted);
    r
}

/// A fault of the first outputs is the fault of all.
proof fn lemma_outputs_fault(
    outputs: Seq<SpendOutputView>,
    network: Network,
    checks: Seq<Result<u64, Seq<char>>>,
    n: nat,
    m: nat,
)
    requires
        n <= m,
        outputs_fault(outputs, network, checks, n) is Some,
    ensures
        outputs_fault(outputs, network, checks, m) == outputs_fault(outputs, network, checks, n),
    decreases m,
{
    if n < m {
        lemma_outputs_fault(outputs, network, checks, n, (m - 1) as nat);
    }
}

/// What is wrong with outputs, if anything.
fn find_outputs_fault(
    outputs: &Vec<SpendOutput>,
    network: Network,
    checks: &Vec<Result<u64, String>>,
) -> (r: Option<PsbtSessionError>)
    requires
        checks@.len() == outputs@.len(),
    ensures
        match r {
            Some(e) => outputs_fault(
                output_views(outputs@),
                network,
                check_views(checks@),
                outputs@.len(),
            ) == Some(e@),
            None => outputs_fault(
                output_views(outputs@),
                network,
                check_views(checks@),
                outputs@.len(),
            ) is None,
        },
{
    let ghost views = output_views(outputs@);
    let ghost known = check_views(checks@);
    let mut i: usize = 0;
    while i < outputs.len()
        invariant
            i <= outputs@.len(),
            checks@.len() == outputs@.len(),
            views == output_views(outputs@),
            known == check_views(checks@),
            outputs_fault(views, network, known, i as nat) is None,
        decreases outputs@.len() - i,
    {
        assert(views[i as int] == outputs@[i as int]@);
        match &checks[i] {
            Err(reason) => {
                proof {
                    lemma_outputs_fault(views, network, known, (i + 1) as nat, outputs@.len());
                }
                return Some(PsbtSessionError::InvalidAddress { network, reason: reason.clone() });
            },
            Ok(dust_sats) => {
                if outputs[i].amount_sats < *dust_sats {
                    proof {
                        lemma_outputs_fault(views, network, known, (i + 1) as nat, outputs@.len());
                    }
                    return Some(
                        PsbtSessionError::DustOutput {
                            amount_sats: outputs[i].amount_sats,
                            dust_sats: *dust_sats,
                        },
                    );
                }
            },
        }
        i += 1;
    }
    None
}

/// The least amount of an output to a witness script.
fn p2wsh_dust_threshold() -> (r: u64)
    ensures
        r == dust_limit(p2wsh_script()),
{
    let mut script: Vec<u8> = Vec::new();
    script.push(0);
    script.push(32);
    while script.len() < 34
        invariant
            2 <= script@.len() <= 34,
            script@ =~= p2wsh_script().take(script@.len() as int),
        decreases 34 - script@.len(),
    {
        script.push(0);
    }
    assert(script@ =~= p2wsh_script());
    minimal_non_dust(script.as_slice())
}

/// The fingerprints of the keystores of a wallet.
fn wallet_fingerprints(wallet: &Wallet) -> (r: Vec<KeyFingerprint>)
    ensures
        r@ == fingerprints(submitted_keystores(wallet_submissions(wallet@.events))),
{
    let keystores: Vec<DescriptorPublicKey> = wallet.keystores();
    let ghost views = keystore_views(keystores@);
    let mut r: Vec<KeyFingerprint> = Vec::new();
    let mut i: usize = 0;
    while i < keystores.len()
        invariant
            i <= keystores@.len(),
            r@.len() == i,
            views == keystore_views(keystores@),
            forall|j: int| 0 <= j < i ==> r@[j] == (#[trigger] views[j]).fingerprint,
        decreases keystores@.len() - i,
    {
        r.push(keystore_fingerprint(&keystores[i]));
        i += 1;
    }
    assert(r@ =~= fingerprints(views));
    r
}

/// A spend that is being put together, without regard to whether it is a good one.
#[derive(Debug)]
pub struct NewPsbtSessionBuilder {
    pub id: Option<PsbtSessionId>,
    pub wallet_id: Option<WalletId>,
    pub proposed_by: Option<UserId>,
    pub inputs: Option<Vec<OutPointRef>>,
    pub outputs: Option<Vec<SpendOutput>>,
    pub fee_sats: Option<u64>,
    pub change_output: Option<Option<ChangeOutput>>,
    pub threshold: Option<u32>,
    pub keystores: Option<Vec<KeyFingerprint>>,
}

impl NewPsbtSessionBuilder {
    /// Gives the id.
    pub fn id(self, id: PsbtSessionId) -> (r: Self)
        ensures
            r == (NewPsbtSessionBuilder { id: Some(id), ..self }),
    {
        NewPsbtSessionBuilder { id: Some(id), ..self }
    }

    /// Gives the wallet that spends.
    pub fn wallet_id(self, wallet_id: WalletId) -> (r: Self)
        ensures
            r == (NewPsbtSessionBuilder { wallet_id: Some(wallet_id), ..self }),
    {
        NewPsbtSessionBuilder { wallet_id: Some(wallet_id), ..self }
    }

    /// Gives who proposes.
    pub fn proposed_by(self, proposed_by: UserId) -> (r: Self)
        ensures
            r == (NewPsbtSessionBuilder { proposed_by: Some(proposed_by), ..self }),
    {
        NewPsbtSessionBuilder { proposed_by: Some(proposed_by), ..self }
    }

    /// Gives the coins.
    pub fn inputs(self, inputs: Vec<OutPointRef>) -> (r: Self)
        ensures
            r == (NewPsbtSessionBuilder { inputs: Some(inputs), ..self }),
    {
        NewPsbtSessionBuilder { inputs: Some(inputs), ..self }
    }

    /// Gives the payments.
    pub fn outputs(self, outputs: Vec<SpendOutput>) -> (r: Self)
        ensures
            r == (NewPsbtSessionBuilder { outputs: Some(outputs), ..self }),
    {
        NewPsbtSessionBuilder { outputs: Some(outputs), ..self }
    }

    /// Gives the fee.
    pub fn fee_sats(self, fee_sats: u64) -> (r: Self)
        ensures
            r == (NewPsbtSessionBuilder { fee_sats: Some(fee_sats), ..self }),
    {
        NewPsbtSessionBuilder { fee_sats: Some(fee_sats), ..self }
    }

    /// Gives the change.
    pub fn change_output(self, change_output: Option<ChangeOutput>) -> (r: Self)
        ensures
            r == (NewPsbtSessionBuilder { change_output: Some(change_output), ..self }),
    {
        NewPsbtSessionBuilder { change_output: Some(change_output), ..self }
    }

    /// Gives the number of signatures that the spend needs.
    pub fn threshold(self, threshold: u32) -> (r: Self)
        ensures
            r == (NewPsbtSessionBuilder { threshold: Some(threshold), ..self }),
    {
        NewPsbtSessionBuilder { threshold: Some(threshold), ..self }
    }

    /// Gives the keystores that can sign.
    pub fn keystores(self, keystores: Vec<KeyFingerprint>) -> (r: Self)
        ensures
            r == (NewPsbtSessionBuilder { keystores: Some(keystores), ..self }),
    {
        NewPsbtSessionBuilder { keystores: Some(keystores), ..self }
    }

    /// The name of the first field that was not given.
    pub open spec fn first_missing(self) -> Option<Seq<char>> {
        if self.id is None {
            Some("id"@)
        } else if self.wallet_id is None {
            Some("wallet_id"@)
        } else if self.proposed_by is None {
            Some("proposed_by"@)
        } else if self.inputs is None {
            Some("inputs"@)
        } else if self.outputs is None {
            Some("outputs"@)
        } else if self.fee_sats is None {
            Some("fee_sats"@)
        } else if self.change_output is None {
            Some("change_output"@)
        } else if self.threshold is None {
            Some("threshold"@)
        } else if self.keystores is None {
            Some("keystores"@)
        } else {
            None
        }
    }

    /// The proposal, once everything was given; else the first field that was not.
    pub fn build(self) -> (r: Result<NewPsbtSession, UninitializedField>)
        ensures
            match r {
                Ok(p) => self.first_missing() is None && p@ == (NewSessionView {
                    id: self.id->0,
                    wallet_id: self.wallet_id->0,
                    proposed_by: self.proposed_by->0,
                    spend: SpendSpecView {
                        inputs: (self.inputs->0)@,
                        outputs: output_views((self.outputs->0)@),
                        fee_sats: self.fee_sats->0,
                        change_output: self.change_output->0,
                    },
                    threshold: self.threshold->0,
                    keystores: (self.keystores->0)@,
                }),
                Err(e) => self.first_missing() == Some(e.0@),
            },
    {
        let id: PsbtSessionId = match self.id {
            Some(given) => given,
            None => {
                return Err(UninitializedField("id"));
            },
        };
        let wallet_id: WalletId = match self.wallet_id {
            Some(given) => given,
            None => {
                return Err(UninitializedField("wallet_id"));
            },
        };
        let proposed_by: UserId = match self.proposed_by {
            Some(given) => given,
            None => {
                return Err(UninitializedField("proposed_by"));
            },
        };
        let inputs: Vec<OutPointRef> = match self.inputs {
            Some(given) => given,
            None => {
                return Err(UninitializedField("inputs"));
            },
        };
        let outputs: Vec<SpendOutput> = match self.outputs {
            Some(given) => given,
            None => {
                return Err(UninitializedField("outputs"));
            },
        };
        let fee_sats: u64 = match self.fee_sats {
            Some(given) => given,
            None => {
                return Err(UninitializedField("fee_sats"));
            },
        };
        let change_output: Option<ChangeOutput> = match self.change_output {
            Some(given) => given,
            None => {
                return Err(UninitializedField("change_output"));
            },
        };
        let threshold: u32 = match self.threshold {
            Some(given) => given,
            None => {
                return Err(UninitializedField("threshold"));
            },
        };
        let keystores: Vec<KeyFingerprint> = match self.keystores {
            Some(given) => given,
            None => {
                return Err(UninitializedField("keystores"));
            },
        };
        Ok(
            NewPsbtSession {
                id,
                wallet_id,
                proposed_by,
                inputs,
                outputs,
                fee_sats,
                change_output,
                threshold,
                keystores,
            },
        )
    }
}

impl NewPsbtSession {
    /// Nothing given yet.
    pub fn builder() -> (r: NewPsbtSessionBuilder)
        ensures
            r == (NewPsbtSessionBuilder {
                id: None,
                wallet_id: None,
                proposed_by: None,
                inputs: None,
                outputs: None,
                fee_sats: None,
                change_output: None,
                threshold: None,
                keystores: None,
            }),
    {
        NewPsbtSessionBuilder {
            id: None,
            wallet_id: None,
            proposed_by: None,
            inputs: None,
            outputs: None,
            fee_sats: None,
            change_output: None,
            threshold: None,
            keystores: None,
        }
    }

    /// Proposes a spend, given what is known of the address of each output and the least amount
    /// of a change output.
    pub fn try_new_checked(
        id: PsbtSessionId,
        wallet: &Wallet,
        proposed_by: UserId,
        spend: SpendSpec,
        checks: &Vec<Result<u64, String>>,
        change_dust: u64,
    ) -> (r: Result<Self, PsbtSessionError>)
        requires
            checks@.len() == spend@.outputs.len(),
        ensures
            match r {
                Ok(p) => proposal_fault(wallet@, spend@, check_views(checks@), change_dust) is None
                    && p@ == proposal(id, wallet@, proposed_by, spend@),
                Err(e) => proposal_fault(wallet@, spend@, check_views(checks@), change_dust)
                    == Some(e@),
            },
    {
        let status: WalletStatus = wallet.status();
        if status != WalletStatus::Active {
            return Err(PsbtSessionError::WalletNotActive { wallet_id: wallet.id(), status });
        }
        if spend.inputs.len() == 0 {
            return Err(PsbtSessionError::EmptyInputs);
        }
        match find_least_repeated(&spend.inputs) {
            Some(o) => {
                return Err(PsbtSessionError::DuplicateInput { txid: o.txid, vout: o.vout });
            },
            None => {},
        }
        if spend.outputs.len() == 0 {
            return Err(PsbtSessionError::EmptyOutputs);
        }
        match find_outputs_fault(&spend.outputs, wallet.network(), checks) {
            Some(e) => {
                return Err(e);
            },
            None => {},
        }
        match spend.change_output {
            Some(change) => {
                if change.amount_sats < change_dust {
                    return Err(
                        PsbtSessionError::DustOutput {
                            amount_sats: change.amount_sats,
                            dust_sats: change_dust,
                        },
                    );
                }
            },
            None => {},
        }
        if spend.fee_sats > MAX_FEE_SATS {
            return Err(
                PsbtSessionError::FeeExceedsMax {
                    fee_sats: spend.fee_sats,
                    max_sats: MAX_FEE_SATS,
                },
            );
        }
        let keystores: Vec<KeyFingerprint> = wallet_fingerprints(wallet);
        Ok(
            NewPsbtSession {
                id,
                wallet_id: wallet.id(),
                proposed_by,
                inputs: spend.inputs,
                outputs: spend.outputs,
                fee_sats: spend.fee_sats,
                change_output: spend.change_output,
                threshold: wallet.threshold(),
                keystores,
            },
        )
    }

    /// Proposes a spend on a wallet.
    ///
    /// The wallet must be active. Its signing policy is copied into the session, which thereby
    /// pins the keys against which its signatures are validated. Coins are named once each;
    /// addresses are of the wallet's network; no output is so small that the transaction would
    /// not be relayed; and the fee is below the cap.
    pub fn try_new(id: PsbtSessionId, wallet: &Wallet, proposed_by: UserId, spend: SpendSpec) -> (r:
        Result<Self, PsbtSessionError>)
        ensures
            ({
                let checks = output_checks(spend@.outputs, wallet@.network);
                let change_dust = dust_limit(p2wsh_script()) as u64;
                match r {
                    Ok(p) => proposal_fault(wallet@, spend@, checks, change_dust) is None && p@
                        == proposal(id, wallet@, proposed_by, spend@),
                    Err(e) => proposal_fault(wallet@, spend@, checks, change_dust) == Some(e@),
                }
            }),
    {
        let checks: Vec<Result<u64, String>> = check_outputs(&spend.outputs, wallet.network());
        assert(check_views(checks@).len() == checks@.len());
        let change_dust: u64 = p2wsh_dust_threshold();
        NewPsbtSession::try_new_checked(id, wallet, proposed_by, spend, &checks, change_dust)
    }

    /// The id of the session.
    pub fn id(&self) -> (r: PsbtSessionId)
        ensures
            r == self@.id,
    {
        self.id
    }

    /// The wallet that spends.
    pub fn wallet_id(&self) -> (r: WalletId)
        ensures
            r == self@.wallet_id,
    {
        self.wallet_id
    }

    /// The status of a session that is about to be proposed.
    pub fn status(&self) -> (r: PsbtSessionStatus)
        ensures
            r == session_status(seq![proposal_event(self@)]),
    {
        reveal_with_fuel(session_status, 2);
        assert(seq![proposal_event(self@)].drop_last() =~= Seq::<SessionEventView>::empty());
        PsbtSessionStatus::Pending
    }

    /// The events with which the session starts.
    pub fn into_events(self) -> (r: Vec<PsbtSessionEvent>)
        ensures
            session_events(r@) == seq![proposal_event(self@)],
    {
        let ghost v = self@;
        let event: PsbtSessionEvent = PsbtSessionEvent::Initialized {
            id: self.id,
            wallet_id: self.wallet_id,
            proposed_by: self.proposed_by,
            inputs: self.inputs,
            outputs: self.outputs,
            fee_sats: self.fee_sats,
            change_output: self.change_output,
            threshold: self.threshold,
            keystores: self.keystores,
        };
        assert(event@ == proposal_event(v));
        let mut events: Vec<PsbtSessionEvent> = Vec::new();
        events.push(event);
        assert(session_events(events@) =~= seq![proposal_event(v)]);
        events
    }
}

} // verus!
