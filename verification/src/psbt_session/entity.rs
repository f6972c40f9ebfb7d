//! The signing session as an aggregate.
//!
//! What is kept of a session is the list of its events; the fields beside it hold what is read
//! off them.

use vstd::prelude::*;

use crate::primitives::{
    BlockHash, Idempotent, KeyFingerprint, PsbtHash, PsbtSessionId, Txid, UserId, WalletId,
};
use crate::psbt_session::error::{PsbtSessionError, SessionFault};
use crate::psbt_session::order::{has_repeated, sort_fingerprints, sorted_fingerprints};
use crate::psbt_session::primitives::{
    copied_fingerprints, copied_inputs, copied_outputs, output_views, ChangeOutput,
    FinalizationRecord, FinalizationView, InvalidationReason, OutPointRef, PsbtSessionStatus,
    SignatureRecord, SpendOutput, SpendOutputView, SpendSpec,
};
use crate::wallet::descriptor::has_fingerprint;
use crate::wallet::entity::EntityHydrationError;

verus! {

/// What happened to a session.
#[derive(Debug)]
#[allow(inconsistent_fields)]
pub enum PsbtSessionEvent {
    /// A spend was proposed. The signing policy of the wallet is copied here, so that the
    /// session pins the keys against which its signatures are validated.
    Initialized {
        id: PsbtSessionId,
        wallet_id: WalletId,
        proposed_by: UserId,
        inputs: Vec<OutPointRef>,
        outputs: Vec<SpendOutput>,
        fee_sats: u64,
        change_output: Option<ChangeOutput>,
        threshold: u32,
        keystores: Vec<KeyFingerprint>,
    },
    /// The unsigned document was built and stored.
    PsbtCreated { unsigned_psbt_hash: PsbtHash },
    /// A signer submitted a signed document that was found good.
    SignatureAdded { fingerprint: KeyFingerprint, signed_psbt_hash: PsbtHash },
    /// The final transaction was computed from collected signatures.
    Finalized { txid: Txid, final_tx_hash: PsbtHash, sigs_used: Vec<KeyFingerprint> },
    /// The final transaction was seen on the network.
    BroadcastSeen { txid: Txid },
    /// The final transaction was seen in a block.
    Confirmed { txid: Txid, height: u64, block_hash: BlockHash },
    /// The chain took it back.
    Invalidated { reason: InvalidationReason },
    /// The session was abandoned.
    Cancelled { reason: String },
}

/// What a [`PsbtSessionEvent`] says.
#[allow(inconsistent_fields)]
pub enum SessionEventView {
    Initialized {
        id: PsbtSessionId,
        wallet_id: WalletId,
        proposed_by: UserId,
        inputs: Seq<OutPointRef>,
        outputs: Seq<SpendOutputView>,
        fee_sats: u64,
        change_output: Option<ChangeOutput>,
        threshold: u32,
        keystores: Seq<KeyFingerprint>,
    },
    PsbtCreated { unsigned_psbt_hash: PsbtHash },
    SignatureAdded { fingerprint: KeyFingerprint, signed_psbt_hash: PsbtHash },
    Finalized { txid: Txid, final_tx_hash: PsbtHash, sigs_used: Seq<KeyFingerprint> },
    BroadcastSeen { txid: Txid },
    Confirmed { txid: Txid, height: u64, block_hash: BlockHash },
    Invalidated { reason: InvalidationReason },
    Cancelled { reason: Seq<char> },
}

impl View for PsbtSessionEvent {
    type V = SessionEventView;

    open spec fn view(&self) -> SessionEventView {
        match *self {
            PsbtSessionEvent::Initialized {
                id,
                wallet_id,
                proposed_by,
                inputs,
                outputs,
                fee_sats,
                change_output,
                threshold,
                keystores,
            } => SessionEventView::Initialized {
                id,
                wallet_id,
                proposed_by,
                inputs: inputs@,
                outputs: output_views(outputs@),
                fee_sats,
                change_output,
                threshold,
                keystores: keystores@,
            },
            PsbtSessionEvent::PsbtCreated { unsigned_psbt_hash } => SessionEventView::PsbtCreated {
                unsigned_psbt_hash,
            },
            PsbtSessionEvent::SignatureAdded { fingerprint, signed_psbt_hash } =>
                SessionEventView::SignatureAdded { fingerprint, signed_psbt_hash },
            PsbtSessionEvent::Finalized { txid, final_tx_hash, sigs_used } =>
                SessionEventView::Finalized { txid, final_tx_hash, sigs_used: sigs_used@ },
            PsbtSessionEvent::BroadcastSeen { txid } => SessionEventView::BroadcastSeen { txid },
            PsbtSessionEvent::Confirmed { txid, height, block_hash } =>
                SessionEventView::Confirmed { txid, height, block_hash },
            PsbtSessionEvent::Invalidated { reason } => SessionEventView::Invalidated { reason },
            PsbtSessionEvent::Cancelled { reason } => SessionEventView::Cancelled {
                reason: reason@,
            },
        }
    }
}

impl Clone for PsbtSessionEvent {
    fn clone(&self) -> (r: Self)
        ensures
            r@ == self@,
    {
        match self {
            PsbtSessionEvent::Initialized {
                id,
                wallet_id,
                proposed_by,
                inputs,
                outputs,
                fee_sats,
                change_output,
                threshold,
                keystores,
            } => PsbtSessionEvent::Initialized {
                id: *id,
                wallet_id: *wallet_id,
                proposed_by: *proposed_by,
                inputs: copied_inputs(inputs),
                outputs: copied_outputs(outputs),
                fee_sats: *fee_sats,
                change_output: *change_output,
                threshold: *threshold,
                keystores: copied_fingerprints(keystores),
            },
            PsbtSessionEvent::PsbtCreated { unsigned_psbt_hash } => PsbtSessionEvent::PsbtCreated {
                unsigned_psbt_hash: *unsigned_psbt_hash,
            },
            PsbtSessionEvent::SignatureAdded { fingerprint, signed_psbt_hash } =>
                PsbtSessionEvent::SignatureAdded {
                fingerprint: *fingerprint,
                signed_psbt_hash: *signed_psbt_hash,
            },
            PsbtSessionEvent::Finalized { txid, final_tx_hash, sigs_used } =>
                PsbtSessionEvent::Finalized {
                txid: *txid,
                final_tx_hash: *final_tx_hash,
                sigs_used: copied_fingerprints(sigs_used),
            },
            PsbtSessionEvent::BroadcastSeen { txid } => PsbtSessionEvent::BroadcastSeen {
                txid: *txid,
            },
            PsbtSessionEvent::Confirmed { txid, height, block_hash } =>
                PsbtSessionEvent::Confirmed {
                txid: *txid,
                height: *height,
                block_hash: *block_hash,
            },
            PsbtSessionEvent::Invalidated { reason } => PsbtSessionEvent::Invalidated {
                reason: *reason,
            },
            PsbtSessionEvent::Cancelled { reason } => PsbtSessionEvent::Cancelled {
                reason: reason.clone(),
            },
        }
    }
}

/// What each event of a list says.
pub open spec fn session_events(events: Seq<PsbtSessionEvent>) -> Seq<SessionEventView> {
    Seq::new(events.len(), |i: int| events[i]@)
}

/// What a [`PsbtSession`] holds.
pub struct SessionView {
    pub id: PsbtSessionId,
    pub wallet_id: WalletId,
    pub proposed_by: UserId,
    pub inputs: Seq<OutPointRef>,
    pub outputs: Seq<SpendOutputView>,
    pub fee_sats: u64,
    pub change_output: Option<ChangeOutput>,
    pub unsigned_psbt_hash: Option<PsbtHash>,
    pub threshold: u32,
    pub keystores: Seq<KeyFingerprint>,
    pub signatures: Seq<SignatureRecord>,
    pub finalization: Option<FinalizationView>,
    pub events: Seq<SessionEventView>,
}

/// The status that an event brings about, if any.
pub open spec fn status_after(e: SessionEventView) -> Option<PsbtSessionStatus> {
    match e {
        SessionEventView::Cancelled { .. } => Some(PsbtSessionStatus::Cancelled),
        SessionEventView::Confirmed { .. } => Some(PsbtSessionStatus::Confirmed),
        SessionEventView::Invalidated { .. } => Some(PsbtSessionStatus::Invalidated),
        SessionEventView::BroadcastSeen { .. } => Some(PsbtSessionStatus::Broadcast),
        SessionEventView::Finalized { .. } => Some(PsbtSessionStatus::Finalized),
        SessionEventView::PsbtCreated { .. } => Some(PsbtSessionStatus::Collecting),
        _ => None,
    }
}

/// The status after some events: the latest one that brings a status about decides.
pub open spec fn session_status(events: Seq<SessionEventView>) -> PsbtSessionStatus
    decreases events.len(),
{
    if events.len() == 0 {
        PsbtSessionStatus::Pending
    } else {
        match status_after(events.last()) {
            Some(s) => s,
            None => session_status(events.drop_last()),
        }
    }
}

/// The latest proposal among the events.
pub open spec fn proposed(events: Seq<SessionEventView>) -> Option<SessionEventView>
    decreases events.len(),
{
    if events.len() == 0 {
        None
    } else if events.last() is Initialized {
        Some(events.last())
    } else {
        proposed(events.drop_last())
    }
}

/// The latest document that was recorded.
pub open spec fn recorded_psbt(events: Seq<SessionEventView>) -> Option<PsbtHash>
    decreases events.len(),
{
    if events.len() == 0 {
        None
    } else {
        match events.last() {
            SessionEventView::PsbtCreated { unsigned_psbt_hash } => Some(unsigned_psbt_hash),
            _ => recorded_psbt(events.drop_last()),
        }
    }
}

/// The signatures that were recorded, in their order.
pub open spec fn recorded_signatures(events: Seq<SessionEventView>) -> Seq<SignatureRecord>
    decreases events.len(),
{
    if events.len() == 0 {
        Seq::empty()
    } else {
        let before = recorded_signatures(events.drop_last());
        match events.last() {
            SessionEventView::SignatureAdded { fingerprint, signed_psbt_hash } => before.push(
                SignatureRecord { fingerprint, signed_psbt_hash },
            ),
            _ => before,
        }
    }
}

/// The latest final transaction that was recorded.
pub open spec fn recorded_finalization(events: Seq<SessionEventView>) -> Option<FinalizationView>
    decreases events.len(),
{
    if events.len() == 0 {
        None
    } else {
        match events.last() {
            SessionEventView::Finalized { txid, final_tx_hash, sigs_used } => Some(
                FinalizationView { txid, final_tx_hash, sigs_used },
            ),
            _ => recorded_finalization(events.drop_last()),
        }
    }
}

/// The session that events tell of, if they propose one.
pub open spec fn session_of(events: Seq<SessionEventView>) -> Option<SessionView> {
    match proposed(events) {
        Some(
            SessionEventView::Initialized {
                id,
                wallet_id,
                proposed_by,
                inputs,
                outputs,
                fee_sats,
                change_output,
                threshold,
                keystores,
            },
        ) => Some(
            SessionView {
                id,
                wallet_id,
                proposed_by,
                inputs,
                outputs,
                fee_sats,
                change_output,
                unsigned_psbt_hash: recorded_psbt(events),
                threshold,
                keystores,
                signatures: recorded_signatures(events),
                finalization: recorded_finalization(events),
                events,
            },
        ),
        _ => None,
    }
}

/// Whether a signer is among those whose signatures were collected.
pub open spec fn has_signed(signatures: Seq<SignatureRecord>, f: KeyFingerprint) -> bool {
    exists|i: int| 0 <= i < signatures.len() && (#[trigger] signatures[i]).fingerprint == f
}

/// The keystores that have not signed, in their order.
pub open spec fn missing(keystores: Seq<KeyFingerprint>, signatures: Seq<SignatureRecord>) -> Seq<
    KeyFingerprint,
>
    decreases keystores.len(),
{
    if keystores.len() == 0 {
        Seq::empty()
    } else {
        let before = missing(keystores.drop_last(), signatures);
        if has_signed(signatures, keystores.last()) {
            before
        } else {
            before.push(keystores.last())
        }
    }
}

/// Whether a document is among the events.
pub open spec fn psbt_was_created(events: Seq<SessionEventView>) -> bool {
    exists|i: int| 0 <= i < events.len() && #[trigger] events[i] is PsbtCreated
}

/// Whether a signature of a signer is among the events.
pub open spec fn signature_was_added(events: Seq<SessionEventView>, f: KeyFingerprint) -> bool {
    exists|i: int|
        0 <= i < events.len() && (#[trigger] events[i] matches SessionEventView::SignatureAdded {
            fingerprint,
            ..
        } && fingerprint == f)
}

/// Whether a final transaction is among the events.
pub open spec fn was_finalized(events: Seq<SessionEventView>) -> bool {
    exists|i: int| 0 <= i < events.len() && #[trigger] events[i] is Finalized
}

/// Whether a sighting is among the events.
pub open spec fn was_seen(events: Seq<SessionEventView>) -> bool {
    exists|i: int| 0 <= i < events.len() && #[trigger] events[i] is BroadcastSeen
}

/// Whether a cancellation is among the events.
pub open spec fn session_was_cancelled(events: Seq<SessionEventView>) -> bool {
    exists|i: int| 0 <= i < events.len() && #[trigger] events[i] is Cancelled
}

/// Whether the latest of the confirmations and invalidations is a confirmation.
pub open spec fn stands_confirmed(events: Seq<SessionEventView>) -> bool
    decreases events.len(),
{
    if events.len() == 0 {
        false
    } else {
        match events.last() {
            SessionEventView::Confirmed { .. } => true,
            SessionEventView::Invalidated { .. } => false,
            _ => stands_confirmed(events.drop_last()),
        }
    }
}

/// Whether the latest of the confirmations and invalidations is an invalidation.
pub open spec fn stands_invalidated(events: Seq<SessionEventView>) -> bool
    decreases events.len(),
{
    if events.len() == 0 {
        false
    } else {
        match events.last() {
            SessionEventView::Confirmed { .. } => false,
            SessionEventView::Invalidated { .. } => true,
            _ => stands_invalidated(events.drop_last()),
        }
    }
}

/// The session with one more event.
pub open spec fn with_session_event(s: SessionView, e: SessionEventView) -> SessionView {
    SessionView { events: s.events.push(e), ..s }
}

/// What comes of recording the unsigned document.
pub open spec fn psbt_created_outcome(s: SessionView, hash: PsbtHash) -> (
    SessionView,
    Result<Idempotent<()>, SessionFault>,
) {
    let status = session_status(s.events);
    if psbt_was_created(s.events) {
        (s, Ok(Idempotent::AlreadyApplied))
    } else if status != PsbtSessionStatus::Pending {
        (s, Err(SessionFault::CannotAttachPsbt { id: s.id, status }))
    } else {
        (
            SessionView {
                unsigned_psbt_hash: Some(hash),
                ..with_session_event(
                    s,
                    SessionEventView::PsbtCreated { unsigned_psbt_hash: hash },
                )
            },
            Ok(Idempotent::Executed(())),
        )
    }
}

/// What comes of recording a signature.
pub open spec fn signature_outcome(s: SessionView, f: KeyFingerprint, hash: PsbtHash) -> (
    SessionView,
    Result<Idempotent<()>, SessionFault>,
) {
    if signature_was_added(s.events, f) {
        (s, Ok(Idempotent::AlreadyApplied))
    } else if session_status(s.events) != PsbtSessionStatus::Collecting {
        (s, Err(SessionFault::NotCollecting(s.id)))
    } else if !s.keystores.contains(f) {
        (s, Err(SessionFault::UnknownKeystore(f)))
    } else {
        (
            SessionView {
                signatures: s.signatures.push(
                    SignatureRecord { fingerprint: f, signed_psbt_hash: hash },
                ),
                ..with_session_event(
                    s,
                    SessionEventView::SignatureAdded { fingerprint: f, signed_psbt_hash: hash },
                )
            },
            Ok(Idempotent::Executed(())),
        )
    }
}

/// Whether every signer of a list is among those whose signatures were collected.
pub open spec fn all_signed(signatures: Seq<SignatureRecord>, used: Seq<KeyFingerprint>) -> bool {
    forall|i: int| 0 <= i < used.len() ==> has_signed(signatures, #[trigger] used[i])
}

/// What comes of recording the final transaction. The signers are recorded in their order.
pub open spec fn finalize_outcome(
    s: SessionView,
    txid: Txid,
    final_tx_hash: PsbtHash,
    used: Seq<KeyFingerprint>,
) -> (SessionView, Result<Idempotent<Txid>, SessionFault>) {
    if was_finalized(s.events) {
        (s, Ok(Idempotent::AlreadyApplied))
    } else if session_status(s.events) != PsbtSessionStatus::Collecting {
        (s, Err(SessionFault::NotCollecting(s.id)))
    } else if used.len() < s.threshold {
        (
            s,
            Err(
                SessionFault::ThresholdNotMet { collected: used.len(), threshold: s.threshold },
            ),
        )
    } else if !used.no_duplicates() {
        (s, Err(SessionFault::DuplicateSigsUsed))
    } else if !all_signed(s.signatures, used) {
        (s, Err(SessionFault::SigsUsedNotCollected))
    } else {
        let sigs_used = sorted_fingerprints(used);
        (
            SessionView {
                finalization: Some(FinalizationView { txid, final_tx_hash, sigs_used }),
                ..with_session_event(
                    s,
                    SessionEventView::Finalized { txid, final_tx_hash, sigs_used },
                )
            },
            Ok(Idempotent::Executed(txid)),
        )
    }
}

/// What is wrong with a transaction that was seen, if anything: it must be the final one.
pub open spec fn sighting_fault(s: SessionView, txid: Txid) -> Option<SessionFault> {
    match s.finalization {
        None => Some(SessionFault::NotFinalized(s.id)),
        Some(f) => if f.txid != txid {
            Some(SessionFault::TxidMismatch)
        } else {
            None
        },
    }
}

/// What comes of a sighting on the network.
pub open spec fn broadcast_outcome(s: SessionView, txid: Txid) -> (
    SessionView,
    Result<Idempotent<()>, SessionFault>,
) {
    match sighting_fault(s, txid) {
        Some(e) => (s, Err(e)),
        None => if was_seen(s.events) || session_status(s.events)
            == PsbtSessionStatus::Confirmed {
            (s, Ok(Idempotent::AlreadyApplied))
        } else {
            (
                with_session_event(s, SessionEventView::BroadcastSeen { txid }),
                Ok(Idempotent::Executed(())),
            )
        },
    }
}

/// What comes of a confirmation.
pub open spec fn confirm_outcome(
    s: SessionView,
    txid: Txid,
    height: u64,
    block_hash: BlockHash,
) -> (SessionView, Result<Idempotent<()>, SessionFault>) {
    match sighting_fault(s, txid) {
        Some(e) => (s, Err(e)),
        None => if stands_confirmed(s.events) {
            (s, Ok(Idempotent::AlreadyApplied))
        } else {
            (
                with_session_event(s, SessionEventView::Confirmed { txid, height, block_hash }),
                Ok(Idempotent::Executed(())),
            )
        },
    }
}

/// What comes of an invalidation: only what was seen on the chain can be taken back by it.
pub open spec fn invalidate_outcome(s: SessionView, reason: InvalidationReason) -> (
    SessionView,
    Result<Idempotent<()>, SessionFault>,
) {
    let status = session_status(s.events);
    if stands_invalidated(s.events) {
        (s, Ok(Idempotent::AlreadyApplied))
    } else if status != PsbtSessionStatus::Broadcast && status != PsbtSessionStatus::Confirmed {
        (s, Err(SessionFault::CannotInvalidate { id: s.id, status }))
    } else {
        (
            with_session_event(s, SessionEventView::Invalidated { reason }),
            Ok(Idempotent::Executed(())),
        )
    }
}

/// What comes of abandoning a session: possible until the transaction is out.
pub open spec fn session_cancel_outcome(s: SessionView, reason: Seq<char>) -> (
    SessionView,
    Result<Idempotent<()>, SessionFault>,
) {
    let status = session_status(s.events);
    if session_was_cancelled(s.events) {
        (s, Ok(Idempotent::AlreadyApplied))
    } else if status != PsbtSessionStatus::Pending && status != PsbtSessionStatus::Collecting
        && status != PsbtSessionStatus::Finalized {
        (s, Err(SessionFault::CannotCancel { id: s.id, status }))
    } else {
        (
            with_session_event(s, SessionEventView::Cancelled { reason }),
            Ok(Idempotent::Executed(())),
        )
    }
}

/// A signing session.
#[derive(Debug)]
pub struct PsbtSession {
    pub id: PsbtSessionId,
    pub wallet_id: WalletId,
    pub proposed_by: UserId,
    pub inputs: Vec<OutPointRef>,
    pub outputs: Vec<SpendOutput>,
    pub fee_sats: u64,
    pub change_output: Option<ChangeOutput>,
    unsigned_psbt_hash: Option<PsbtHash>,
    threshold: u32,
    keystores: Vec<KeyFingerprint>,
    signatures: Vec<SignatureRecord>,
    finalization: Option<FinalizationRecord>,
    events: Vec<PsbtSessionEvent>,
}

impl View for PsbtSession {
    type V = SessionView;

    closed spec fn view(&self) -> SessionView {
        SessionView {
            id: self.id,
            wallet_id: self.wallet_id,
            proposed_by: self.proposed_by,
            inputs: self.inputs@,
            outputs: output_views(self.outputs@),
            fee_sats: self.fee_sats,
            change_output: self.change_output,
            unsigned_psbt_hash: self.unsigned_psbt_hash,
            threshold: self.threshold,
            keystores: self.keystores@,
            signatures: self.signatures@,
            finalization: match self.finalization {
                Some(f) => Some(f@),
                None => None,
            },
            events: session_events(self.events@),
        }
    }
}

/// The kinds of events that commands look for.
#[derive(Clone, Copy, PartialEq, Eq, Structural)]
enum EventKind {
    PsbtCreated,
    Finalized,
    BroadcastSeen,
    Cancelled,
}

/// Whether an event is of a kind.
spec fn is_of_kind(e: SessionEventView, kind: EventKind) -> bool {
    match kind {
        EventKind::PsbtCreated => e is PsbtCreated,
        EventKind::Finalized => e is Finalized,
        EventKind::BroadcastSeen => e is BroadcastSeen,
        EventKind::Cancelled => e is Cancelled,
    }
}

impl PsbtSession {
    /// The id of the session.
    pub fn id(&self) -> (r: PsbtSessionId)
        ensures
            r == self@.id,
    {
        self.id
    }

    /// The wallet that spends.
    pub fn wallet_id(&self) -> (r: WalletId)
        ensures
            r == self@.wallet_id,
    {
        self.wallet_id
    }

    /// The coins that are spent.
    pub fn inputs(&self) -> (r: &Vec<OutPointRef>)
        ensures
            r@ == self@.inputs,
    {
        &self.inputs
    }

    /// What the session spends.
    pub fn spend(&self) -> (r: SpendSpec)
        ensures
            r@.inputs == self@.inputs,
            r@.outputs == self@.outputs,
            r@.fee_sats == self@.fee_sats,
            r@.change_output == self@.change_output,
    {
        SpendSpec {
            inputs: copied_inputs(&self.inputs),
            outputs: copied_outputs(&self.outputs),
            fee_sats: self.fee_sats,
            change_output: self.change_output,
        }
    }

    /// The events of the session.
    pub fn events(&self) -> (r: &Vec<PsbtSessionEvent>)
        ensures
            session_events(r@) == self@.events,
    {
        &self.events
    }

    /// The status of the session: the latest event that brings one about decides.
    pub fn status(&self) -> (r: PsbtSessionStatus)
        ensures
            r == session_status(self@.events),
    {
        let ghost all = session_events(self.events@);
        let mut status: PsbtSessionStatus = PsbtSessionStatus::Pending;
        let mut i: usize = 0;
        assert(all.take(0) =~= Seq::<SessionEventView>::empty());
        while i < self.events.len()
            invariant
                i <= self.events@.len(),
                all == session_events(self.events@),
                status == session_status(all.take(i as int)),
            decreases self.events@.len() - i,
        {
            assert(all.take(i + 1).drop_last() =~= all.take(i as int));
            assert(all.take(i + 1).last() == self.events@[i as int]@);
            match &self.events[i] {
                PsbtSessionEvent::Cancelled { .. } => {
                    status = PsbtSessionStatus::Cancelled;
                },
                PsbtSessionEvent::Confirmed { .. } => {
                    status = PsbtSessionStatus::Confirmed;
                },
                PsbtSessionEvent::Invalidated { .. } => {
                    status = PsbtSessionStatus::Invalidated;
                },
                PsbtSessionEvent::BroadcastSeen { .. } => {
                    status = PsbtSessionStatus::Broadcast;
                },
                PsbtSessionEvent::Finalized { .. } => {
                    status = PsbtSessionStatus::Finalized;
                },
                PsbtSessionEvent::PsbtCreated { .. } => {
                    status = PsbtSessionStatus::Collecting;
                },
                _ => {},
            }
            i += 1;
        }
        assert(all.take(i as int) =~= all);
        status
    }

    /// The address of the unsigned document, once it was built.
    pub fn unsigned_psbt_hash(&self) -> (r: Option<PsbtHash>)
        ensures
            r == self@.unsigned_psbt_hash,
    {
        self.unsigned_psbt_hash
    }

    /// The number of signatures that the spend needs.
    pub fn threshold(&self) -> (r: u32)
        ensures
            r == self@.threshold,
    {
        self.threshold
    }

    /// The keystores that can sign.
    pub fn keystores(&self) -> (r: &[KeyFingerprint])
        ensures
            r@ == self@.keystores,
    {
        self.keystores.as_slice()
    }

    /// The signatures that were collected.
    pub fn signatures(&self) -> (r: &[SignatureRecord])
        ensures
            r@ == self@.signatures,
    {
        self.signatures.as_slice()
    }

    /// The number of signatures that were collected.
    pub fn signature_count(&self) -> (r: usize)
        ensures
            r == self@.signatures.len(),
    {
        self.signatures.len()
    }

    /// Whether enough signatures were collected.
    pub fn threshold_met(&self) -> (r: bool)
        ensures
            r == (self@.signatures.len() >= self@.threshold),
    {
        self.signatures.len() >= self.threshold as usize
    }

    /// Whether a signer's signature was collected.
    fn has_signed(&self, fingerprint: KeyFingerprint) -> (r: bool)
        ensures
            r == has_signed(self@.signatures, fingerprint),
    {
        let mut i: usize = 0;
        while i < self.signatures.len()
            invariant
                i <= self.signatures@.len(),
                forall|j: int| 0 <= j < i ==> (#[trigger] self.signatures@[j]).fingerprint
                    != fingerprint,
            decreases self.signatures@.len() - i,
        {
            if self.signatures[i].fingerprint == fingerprint {
                return true;
            }
            i += 1;
        }
        false
    }

    /// The keystores that have not signed.
    pub fn missing_keystores(&self) -> (r: Vec<KeyFingerprint>)
        ensures
            r@ == missing(self@.keystores, self@.signatures),
    {
        let mut r: Vec<KeyFingerprint> = Vec::new();
        let mut i: usize = 0;
        assert(r@ =~= missing(self.keystores@.take(0), self.signatures@));
        while i < self.keystores.len()
            invariant
                i <= self.keystores@.len(),
                r@ == missing(self.keystores@.take(i as int), self.signatures@),
            decreases self.keystores@.len() - i,
        {
            assert(self.keystores@.take(i + 1).drop_last() =~= self.keystores@.take(i as int));
            if !self.has_signed(self.keystores[i]) {
                r.push(self.keystores[i]);
            }
            i += 1;
        }
        assert(self.keystores@.take(i as int) =~= self.keystores@);
        r
    }

    /// The final transaction, once there is one.
    pub fn finalization(&self) -> (r: Option<&FinalizationRecord>)
        ensures
            match r {
                Some(f) => self@.finalization == Some(f@),
                None => self@.finalization is None,
            },
    {
        self.finalization.as_ref()
    }

    /// Whether an event of a kind was recorded.
    fn has_event(&self, kind: EventKind) -> (r: bool)
        ensures
            r == (exists|i: int|
                0 <= i < self@.events.len() && is_of_kind(#[trigger] self@.events[i], kind)),
    {
        let ghost all = session_events(self.events@);
        let mut i: usize = 0;
        while i < self.events.len()
            invariant
                i <= self.events@.len(),
                all == session_events(self.events@),
                forall|j: int| 0 <= j < i ==> !is_of_kind(#[trigger] all[j], kind),
            decreases self.events@.len() - i,
        {
            assert(all[i as int] == self.events@[i as int]@);
            let found: bool = match &self.events[i] {
                PsbtSessionEvent::PsbtCreated { .. } => kind == EventKind::PsbtCreated,
                PsbtSessionEvent::Finalized { .. } => kind == EventKind::Finalized,
                PsbtSessionEvent::BroadcastSeen { .. } => kind == EventKind::BroadcastSeen,
                PsbtSessionEvent::Cancelled { .. } => kind == EventKind::Cancelled,
                _ => false,
            };
            if found {
                assert(is_of_kind(self@.events[i as int], kind));
                return true;
            }
            i += 1;
        }
        false
    }

    /// Whether a signature of a signer was recorded.
    fn signature_recorded(&self, fingerprint: KeyFingerprint) -> (r: bool)
        ensures
            r == signature_was_added(self@.events, fingerprint),
    {
        let ghost all = session_events(self.events@);
        let mut i: usize = 0;
        while i < self.events.len()
            invariant
                i <= self.events@.len(),
                all == session_events(self.events@),
                forall|j: int|
                    0 <= j < i ==> !(#[trigger] all[j] matches SessionEventView::SignatureAdded {
                        fingerprint: f,
                        ..
                    } && f == fingerprint),
            decreases self.events@.len() - i,
        {
            assert(all[i as int] == self.events@[i as int]@);
            match &self.events[i] {
                PsbtSessionEvent::SignatureAdded { fingerprint: f, .. } => {
                    if *f == fingerprint {
                        assert(self@.events[i as int] is SignatureAdded);
                        return true;
                    }
                },
                _ => {},
            }
            i += 1;
        }
        false
    }

    /// Records the unsigned document, which was built and stored. The session then collects
    /// signatures.
    pub fn record_psbt_created(&mut self, unsigned_psbt_hash: PsbtHash) -> (r: Result<
        Idempotent<()>,
        PsbtSessionError,
    >)
        ensures
            ({
                let (after, answer) = psbt_created_outcome(old(self)@, unsigned_psbt_hash);
                &&& final(self)@ == after
                &&& match r {
                    Ok(i) => answer == Ok::<Idempotent<()>, SessionFault>(i),
                    Err(e) => answer == Err::<Idempotent<()>, SessionFault>(e@),
                }
            }),
    {
        let ghost before = session_events(self.events@);
        if self.has_event(EventKind::PsbtCreated) {
            return Ok(Idempotent::AlreadyApplied);
        }
        let status: PsbtSessionStatus = self.status();
        if status != PsbtSessionStatus::Pending {
            return Err(PsbtSessionError::CannotAttachPsbt { id: self.id, status });
        }
        let event: PsbtSessionEvent = PsbtSessionEvent::PsbtCreated { unsigned_psbt_hash };
        let ghost new = event@;
        self.unsigned_psbt_hash = Some(unsigned_psbt_hash);
        self.events.push(event);
        assert(session_events(self.events@) =~= before.push(new));
        Ok(Idempotent::Executed(()))
    }

    /// Records a signature whose document was validated and stored. Recording the signature of
    /// a signer again changes nothing: the first one is final.
    pub fn add_signature(&mut self, fingerprint: KeyFingerprint, signed_psbt_hash: PsbtHash) -> (r:
        Result<Idempotent<()>, PsbtSessionError>)
        ensures
            ({
                let (after, answer) = signature_outcome(old(self)@, fingerprint, signed_psbt_hash);
                &&& final(self)@ == after
                &&& match r {
                    Ok(i) => answer == Ok::<Idempotent<()>, SessionFault>(i),
                    Err(e) => answer == Err::<Idempotent<()>, SessionFault>(e@),
                }
            }),
    {
        let ghost before = session_events(self.events@);
        if self.signature_recorded(fingerprint) {
            return Ok(Idempotent::AlreadyApplied);
        }
        if self.status() != PsbtSessionStatus::Collecting {
            return Err(PsbtSessionError::NotCollecting(self.id));
        }
        if !has_fingerprint(&self.keystores, fingerprint) {
            return Err(PsbtSessionError::UnknownKeystore(fingerprint));
        }
        let event: PsbtSessionEvent = PsbtSessionEvent::SignatureAdded {
            fingerprint,
            signed_psbt_hash,
        };
        let ghost new = event@;
        self.signatures.push(SignatureRecord { fingerprint, signed_psbt_hash });
        self.events.push(event);
        assert(session_events(self.events@) =~= before.push(new));
        Ok(Idempotent::Executed(()))
    }

    /// Whether every signer of a list is among those whose signatures were collected.
    fn all_collected(&self, used: &Vec<KeyFingerprint>) -> (r: bool)
        ensures
            r == all_signed(self@.signatures, used@),
    {
        let mut i: usize = 0;
        while i < used.len()
            invariant
                i <= used@.len(),
                forall|j: int| 0 <= j < i ==> has_signed(self@.signatures, #[trigger] used@[j]),
            decreases used@.len() - i,
        {
            if !self.has_signed(used[i]) {
                return false;
            }
            i += 1;
        }
        true
    }

    /// Records the final transaction and whose signatures are in it: at least as many as the
    /// policy asks for, no signer twice, and all of them collected.
    pub fn finalize(
        &mut self,
        txid: Txid,
        final_tx_hash: PsbtHash,
        sigs_used: Vec<KeyFingerprint>,
    ) -> (r: Result<Idempotent<Txid>, PsbtSessionError>)
        ensures
            ({
                let (after, answer) = finalize_outcome(
                    old(self)@,
                    txid,
                    final_tx_hash,
                    sigs_used@,
                );
                &&& final(self)@ == after
                &&& match r {
                    Ok(i) => answer == Ok::<Idempotent<Txid>, SessionFault>(i),
                    Err(e) => answer == Err::<Idempotent<Txid>, SessionFault>(e@),
                }
            }),
    {
        let ghost before = session_events(self.events@);
        if self.has_event(EventKind::Finalized) {
            return Ok(Idempotent::AlreadyApplied);
        }
        if self.status() != PsbtSessionStatus::Collecting {
            return Err(PsbtSessionError::NotCollecting(self.id));
        }
        if sigs_used.len() < self.threshold as usize {
            return Err(
                PsbtSessionError::ThresholdNotMet {
                    collected: sigs_used.len(),
                    threshold: self.threshold,
                },
            );
        }
        if has_repeated(&sigs_used) {
            return Err(PsbtSessionError::DuplicateSigsUsed);
        }
        if !self.all_collected(&sigs_used) {
            return Err(PsbtSessionError::SigsUsedNotCollected);
        }
        let sorted: Vec<KeyFingerprint> = sort_fingerprints(&sigs_used);
        let event: PsbtSessionEvent = PsbtSessionEvent::Finalized {
            txid,
            final_tx_hash,
            sigs_used: copied_fingerprints(&sorted),
        };
        let ghost new = event@;
        self.finalization = Some(FinalizationRecord { txid, final_tx_hash, sigs_used: sorted });
        self.events.push(event);
        assert(session_events(self.events@) =~= before.push(new));
        Ok(Idempotent::Executed(txid))
    }

    /// What is wrong with a transaction that was seen, if anything.
    fn check_sighting(&self, txid: Txid) -> (r: Option<PsbtSessionError>)
        ensures
            match r {
                Some(e) => sighting_fault(self@, txid) == Some(e@),
                None => sighting_fault(self@, txid) is None,
            },
    {
        match &self.finalization {
            None => Some(PsbtSessionError::NotFinalized(self.id)),
            Some(f) => if f.txid != txid {
                Some(PsbtSessionError::TxidMismatch)
            } else {
                None
            },
        }
    }

    /// Records that the final transaction was seen on the network. A sighting that arrives
    /// after a confirmation changes nothing.
    pub fn mark_broadcast_seen(&mut self, txid: Txid) -> (r: Result<
        Idempotent<()>,
        PsbtSessionError,
    >)
        ensures
            ({
                let (after, answer) = broadcast_outcome(old(self)@, txid);
                &&& final(self)@ == after
                &&& match r {
                    Ok(i) => answer == Ok::<Idempotent<()>, SessionFault>(i),
                    Err(e) => answer == Err::<Idempotent<()>, SessionFault>(e@),
                }
            }),
    {
        let ghost before = session_events(self.events@);
        match self.check_sighting(txid) {
            Some(e) => {
                return Err(e);
            },
            None => {},
        }
        if self.has_event(EventKind::BroadcastSeen) {
            return Ok(Idempotent::AlreadyApplied);
        }
        if self.status() == PsbtSessionStatus::Confirmed {
            return Ok(Idempotent::AlreadyApplied);
        }
        let event: PsbtSessionEvent = PsbtSessionEvent::BroadcastSeen { txid };
        let ghost new = event@;
        self.events.push(event);
        assert(session_events(self.events@) =~= before.push(new));
        Ok(Idempotent::Executed(()))
    }

    /// Whether the latest of the confirmations and invalidations is a confirmation, and whether
    /// it is an invalidation.
    fn standing(&self) -> (r: (bool, bool))
        ensures
            r.0 == stands_confirmed(self@.events),
            r.1 == stands_invalidated(self@.events),
    {
        let ghost all = session_events(self.events@);
        let mut confirmed: bool = false;
        let mut invalidated: bool = false;
        let mut i: usize = 0;
        assert(all.take(0) =~= Seq::<SessionEventView>::empty());
        while i < self.events.len()
            invariant
                i <= self.events@.len(),
                all == session_events(self.events@),
                confirmed == stands_confirmed(all.take(i as int)),
                invalidated == stands_invalidated(all.take(i as int)),
            decreases self.events@.len() - i,
        {
            assert(all.take(i + 1).drop_last() =~= all.take(i as int));
            assert(all.take(i + 1).last() == self.events@[i as int]@);
            match &self.events[i] {
                PsbtSessionEvent::Confirmed { .. } => {
                    confirmed = true;
                    invalidated = false;
                },
                PsbtSessionEvent::Invalidated { .. } => {
                    confirmed = false;
                    invalidated = true;
                },
                _ => {},
            }
            i += 1;
        }
        assert(all.take(i as int) =~= all);
        (confirmed, invalidated)
    }

    /// Records that the final transaction was seen in a block. After an invalidation a new
    /// confirmation takes effect again.
    pub fn confirm(&mut self, txid: Txid, height: u64, block_hash: BlockHash) -> (r: Result<
        Idempotent<()>,
        PsbtSessionError,
    >)
        ensures
            ({
                let (after, answer) = confirm_outcome(old(self)@, txid, height, block_hash);
                &&& final(self)@ == after
                &&& match r {
                    Ok(i) => answer == Ok::<Idempotent<()>, SessionFault>(i),
                    Err(e) => answer == Err::<Idempotent<()>, SessionFault>(e@),
                }
            }),
    {
        let ghost before = session_events(self.events@);
        match self.check_sighting(txid) {
            Some(e) => {
                return Err(e);
            },
            None => {},
        }
        if self.standing().0 {
            return Ok(Idempotent::AlreadyApplied);
        }
        let event: PsbtSessionEvent = PsbtSessionEvent::Confirmed { txid, height, block_hash };
        let ghost new = event@;
        self.events.push(event);
        assert(session_events(self.events@) =~= before.push(new));
        Ok(Idempotent::Executed(()))
    }

    /// Records that the chain took the transaction back.
    pub fn invalidate(&mut self, reason: InvalidationReason) -> (r: Result<
        Idempotent<()>,
        PsbtSessionError,
    >)
        ensures
            ({
                let (after, answer) = invalidate_outcome(old(self)@, reason);
                &&& final(self)@ == after
                &&& match r {
                    Ok(i) => answer == Ok::<Idempotent<()>, SessionFault>(i),
                    Err(e) => answer == Err::<Idempotent<()>, SessionFault>(e@),
                }
            }),
    {
        let ghost before = session_events(self.events@);
        if self.standing().1 {
            return Ok(Idempotent::AlreadyApplied);
        }
        let status: PsbtSessionStatus = self.status();
        match status {
            PsbtSessionStatus::Broadcast | PsbtSessionStatus::Confirmed => {},
            _ => {
                return Err(PsbtSessionError::CannotInvalidate { id: self.id, status });
            },
        }
        let event: PsbtSessionEvent = PsbtSessionEvent::Invalidated { reason };
        let ghost new = event@;
        self.events.push(event);
        assert(session_events(self.events@) =~= before.push(new));
        Ok(Idempotent::Executed(()))
    }

    /// Abandons the session. Once the transaction is out, the chain decides.
    pub fn cancel(&mut self, reason: String) -> (r: Result<Idempotent<()>, PsbtSessionError>)
        ensures
            ({
                let (after, answer) = session_cancel_outcome(old(self)@, reason@);
                &&& final(self)@ == after
                &&& match r {
                    Ok(i) => answer == Ok::<Idempotent<()>, SessionFault>(i),
                    Err(e) => answer == Err::<Idempotent<()>, SessionFault>(e@),
                }
            }),
    {
        let ghost before = session_events(self.events@);
        if self.has_event(EventKind::Cancelled) {
            return Ok(Idempotent::AlreadyApplied);
        }
        let status: PsbtSessionStatus = self.status();
        match status {
            PsbtSessionStatus::Pending
            | PsbtSessionStatus::Collecting
            | PsbtSessionStatus::Finalized => {},
            _ => {
                return Err(PsbtSessionError::CannotCancel { id: self.id, status });
            },
        }
        let event: PsbtSessionEvent = PsbtSessionEvent::Cancelled { reason };
        let ghost new = event@;
        self.events.push(event);
        assert(session_events(self.events@) =~= before.push(new));
        Ok(Idempotent::Executed(()))
    }

    /// Rebuilds the session that events tell of.
    pub fn try_from_events(events: Vec<PsbtSessionEvent>) -> (r: Result<
        PsbtSession,
        EntityHydrationError,
    >)
        ensures
            match r {
                Ok(s) => session_of(session_events(events@)) == Some(s@),
                Err(e) => session_of(session_events(events@)) is None && e.field@ == "id"@,
            },
    {
        let ghost all = session_events(events@);
        let mut found: Option<usize> = None;
        let mut unsigned_psbt_hash: Option<PsbtHash> = None;
        let mut signatures: Vec<SignatureRecord> = Vec::new();
        let mut finalization: Option<FinalizationRecord> = None;
        let mut i: usize = 0;
        assert(all.take(0) =~= Seq::<SessionEventView>::empty());
        assert(signatures@ =~= recorded_signatures(all.take(0)));
        while i < events.len()
            invariant
                i <= events@.len(),
                all == session_events(events@),
                match found {
                    None => proposed(all.take(i as int)) is None,
                    Some(k) => k < events@.len() && events@[k as int] is Initialized && proposed(
                        all.take(i as int),
                    ) == Some(events@[k as int]@),
                },
                unsigned_psbt_hash == recorded_psbt(all.take(i as int)),
                signatures@ == recorded_signatures(all.take(i as int)),
                match finalization {
                    None => recorded_finalization(all.take(i as int)) is None,
                    Some(f) => recorded_finalization(all.take(i as int)) == Some(f@),
                },
            decreases events@.len() - i,
        {
            assert(all.take(i + 1).drop_last() =~= all.take(i as int));
            assert(all.take(i + 1).last() == events@[i as int]@);
            match &events[i] {
                PsbtSessionEvent::Initialized { .. } => {
                    found = Some(i);
                },
                PsbtSessionEvent::PsbtCreated { unsigned_psbt_hash: hash } => {
                    unsigned_psbt_hash = Some(*hash);
                },
                PsbtSessionEvent::SignatureAdded { fingerprint, signed_psbt_hash } => {
                    signatures.push(
                        SignatureRecord {
                            fingerprint: *fingerprint,
                            signed_psbt_hash: *signed_psbt_hash,
                        },
                    );
                },
                PsbtSessionEvent::Finalized { txid, final_tx_hash, sigs_used } => {
                    finalization = Some(
                        FinalizationRecord {
                            txid: *txid,
                            final_tx_hash: *final_tx_hash,
                            sigs_used: copied_fingerprints(sigs_used),
                        },
                    );
                },
                _ => {},
            }
            i += 1;
        }
        assert(all.take(i as int) =~= all);
        let k: usize = match found {
            Some(k) => k,
            None => {
                return Err(EntityHydrationError { field: "id" });
            },
        };
        match events[k].clone() {
            PsbtSessionEvent::Initialized {
                id,
                wallet_id,
                proposed_by,
                inputs,
                outputs,
                fee_sats,
                change_output,
                threshold,
                keystores,
            } => Ok(
                PsbtSession {
                    id,
                    wallet_id,
                    proposed_by,
                    inputs,
                    outputs,
                    fee_sats,
                    change_output,
                    unsigned_psbt_hash,
                    threshold,
                    keystores,
                    signatures,
                    finalization,
                    events,
                },
            ),
            _ => Err(EntityHydrationError { field: "id" }),
        }
    }
}

} // verus!
