//! What the operations on a signing session are for, in terms of what is asked and what is on
//! record.

use vstd::prelude::*;
use vstd::relations::sorted_by;

use crate::address::{address_script, dust_limit};
use crate::bytes::{differs_below_at, law_first_difference_decides};
use crate::primitives::{
    BlockHash, Idempotent, KeyFingerprint, Network, PsbtHash, PsbtSessionId, Txid, UserId,
};
use crate::psbt_session::conflicts::{
    claims, conflicts, law_conflicts_are_claimed_coins, session_views,
};
use crate::psbt_session::entity::{
    broadcast_outcome, confirm_outcome, finalize_outcome, invalidate_outcome, missing,
    psbt_created_outcome, recorded_signatures, session_cancel_outcome, session_events, session_of,
    session_status, signature_outcome, stands_confirmed, stands_invalidated, PsbtSession,
    PsbtSessionEvent, SessionEventView, SessionView,
};
use crate::psbt_session::error::SessionFault;
use crate::psbt_session::laws::law_least_repeated;
use crate::psbt_session::order::law_sorted_fingerprints;
use crate::psbt_session::primitives::{
    outpoint_less, FinalizationView, InvalidationReason, OutPointRef, PsbtSessionStatus,
    SignatureRecord, SpendOutputView, SpendSpec, SpendSpecView,
};
use crate::psbt_session::proposal::{
    least_repeated, output_check, output_checks, outputs_fault, p2wsh_script, proposal,
    proposal_event, proposal_fault,
};
use crate::wallet::entity::{wallet_status, wallet_submissions, WalletView};
use crate::wallet::primitives::WalletStatus;

verus! {

/// Whether an event changes the status of a session: all do but the proposal and a signature.
pub open spec fn is_turn(e: SessionEventView) -> bool {
    !(e is Initialized) && !(e is SignatureAdded)
}

/// The status of a session is that of the latest event which changes it; as long as there is none,
/// the session is pending.
pub proof fn law_status_is_that_of_the_latest_turn(events: Seq<SessionEventView>, i: int)
    ensures
        (forall|j: int| 0 <= j < events.len() ==> !is_turn(#[trigger] events[j])) ==> session_status(
            events,
        ) == PsbtSessionStatus::Pending,
        0 <= i < events.len() && is_turn(events[i]) && (forall|j: int|
            i < j < events.len() ==> !is_turn(#[trigger] events[j])) ==> session_status(events)
            == match events[i] {
            SessionEventView::PsbtCreated { .. } => PsbtSessionStatus::Collecting,
            SessionEventView::Finalized { .. } => PsbtSessionStatus::Finalized,
            SessionEventView::BroadcastSeen { .. } => PsbtSessionStatus::Broadcast,
            SessionEventView::Confirmed { .. } => PsbtSessionStatus::Confirmed,
            SessionEventView::Invalidated { .. } => PsbtSessionStatus::Invalidated,
            _ => PsbtSessionStatus::Cancelled,
        },
    decreases events.len(),
{
    if events.len() > 0 {
        let init = events.drop_last();
        law_status_is_that_of_the_latest_turn(init, i);
        assert(events.last() == events[events.len() - 1]);
        assert forall|j: int| 0 <= j < init.len() implies init[j] == #[trigger] events[j] by {}
    }
}

/// Only a pending session, a collecting one and one that was finalized but not seen yet, one that
/// is on the network and one in a block lay claim to their coins.
pub proof fn law_dead_sessions_release_their_coins(status: PsbtSessionStatus)
    ensures
        status.claims_inputs_spec() <==> (status == PsbtSessionStatus::Pending || status
            == PsbtSessionStatus::Collecting || status == PsbtSessionStatus::Finalized || status
            == PsbtSessionStatus::Broadcast || status == PsbtSessionStatus::Confirmed),
{
}

/// What an event of a signature records.
pub open spec fn record_in(e: SessionEventView) -> Option<SignatureRecord> {
    match e {
        SessionEventView::SignatureAdded { fingerprint, signed_psbt_hash } => Some(
            SignatureRecord { fingerprint, signed_psbt_hash },
        ),
        _ => None,
    }
}

/// Every signature on record is told, in the order of the record.
proof fn lemma_signatures_are_told(events: Seq<SessionEventView>)
    ensures
        recorded_signatures(events) == events.filter_map(|e: SessionEventView| record_in(e)),
    decreases events.len(),
{
    let f = |e: SessionEventView| record_in(e);
    if events.len() > 0 {
        lemma_signatures_are_told(events.drop_last());
        let before = events.drop_last().filter_map(f);
        match record_in(events.last()) {
            Some(s) => {
                assert(before + seq![s] =~= before.push(s));
            },
            None => {},
        }
    } else {
        assert(recorded_signatures(events) =~= events.filter_map(f));
    }
}

/// A session is what its record tells: the spend and the policy of the latest proposal, the latest
/// document, all signatures in their order, the latest final transaction, and the record itself.
/// Without a proposal there is none.
pub proof fn law_session_is_what_its_record_tells(
    events: Seq<SessionEventView>,
    i: int,
    d: int,
    f: int,
)
    ensures
        session_of(events) is Some <==> exists|k: int|
            0 <= k < events.len() && #[trigger] events[k] is Initialized,
        0 <= i < events.len() && events[i] is Initialized && (forall|k: int|
            i < k < events.len() ==> !(#[trigger] events[k] is Initialized)) ==> {
            let s = session_of(events)->0;
            &&& events[i] == (SessionEventView::Initialized {
                id: s.id,
                wallet_id: s.wallet_id,
                proposed_by: s.proposed_by,
                inputs: s.inputs,
                outputs: s.outputs,
                fee_sats: s.fee_sats,
                change_output: s.change_output,
                threshold: s.threshold,
                keystores: s.keystores,
            })
        },
        session_of(events) is Some ==> {
            let s = session_of(events)->0;
            &&& s.events == events
            &&& s.signatures == events.filter_map(|e: SessionEventView| record_in(e))
            &&& (forall|k: int|
                0 <= k < events.len() ==> !(#[trigger] events[k] is PsbtCreated))
                ==> s.unsigned_psbt_hash is None
            &&& 0 <= d < events.len() && events[d] is PsbtCreated && (forall|k: int|
                d < k < events.len() ==> !(#[trigger] events[k] is PsbtCreated)) ==> Some(
                events[d]->PsbtCreated_unsigned_psbt_hash,
            ) == s.unsigned_psbt_hash
            &&& (forall|k: int|
                0 <= k < events.len() ==> !(#[trigger] events[k] is Finalized))
                ==> s.finalization is None
            &&& 0 <= f < events.len() && events[f] is Finalized && (forall|k: int|
                f < k < events.len() ==> !(#[trigger] events[k] is Finalized)) ==> {
                &&& s.finalization is Some
                &&& (s.finalization->0).txid == events[f]->Finalized_txid
                &&& (s.finalization->0).final_tx_hash == events[f]->Finalized_final_tx_hash
                &&& (s.finalization->0).sigs_used == events[f]->Finalized_sigs_used
            }
        },
{
    lemma_signatures_are_told(events);
    lemma_latest(events, i, d, f);
}

proof fn lemma_latest(events: Seq<SessionEventView>, i: int, d: int, f: int)
    ensures
        crate::psbt_session::entity::proposed(events) is Some <==> exists|k: int|
            0 <= k < events.len() && #[trigger] events[k] is Initialized,
        crate::psbt_session::entity::proposed(events) is Some ==> (
        crate::psbt_session::entity::proposed(events)->0) is Initialized,
        0 <= i < events.len() && events[i] is Initialized && (forall|k: int|
            i < k < events.len() ==> !(#[trigger] events[k] is Initialized))
            ==> crate::psbt_session::entity::proposed(events) == Some(events[i]),
        (forall|k: int| 0 <= k < events.len() ==> !(#[trigger] events[k] is PsbtCreated))
            ==> crate::psbt_session::entity::recorded_psbt(events) is None,
        0 <= d < events.len() && events[d] is PsbtCreated && (forall|k: int|
            d < k < events.len() ==> !(#[trigger] events[k] is PsbtCreated))
            ==> crate::psbt_session::entity::recorded_psbt(events) == Some(
            events[d]->PsbtCreated_unsigned_psbt_hash,
        ),
        (forall|k: int| 0 <= k < events.len() ==> !(#[trigger] events[k] is Finalized))
            ==> crate::psbt_session::entity::recorded_finalization(events) is None,
        0 <= f < events.len() && events[f] is Finalized && (forall|k: int|
            f < k < events.len() ==> !(#[trigger] events[k] is Finalized))
            ==> crate::psbt_session::entity::recorded_finalization(events) == Some(
            FinalizationView {
                txid: events[f]->Finalized_txid,
                final_tx_hash: events[f]->Finalized_final_tx_hash,
                sigs_used: events[f]->Finalized_sigs_used,
            },
        ),
    decreases events.len(),
{
    if events.len() > 0 {
        let init = events.drop_last();
        lemma_latest(init, i, d, f);
        assert(events.last() == events[events.len() - 1]);
        assert forall|j: int| 0 <= j < init.len() implies init[j] == #[trigger] events[j] by {}
        if exists|k: int| 0 <= k < init.len() && #[trigger] init[k] is Initialized {
            let k = choose|k: int| 0 <= k < init.len() && #[trigger] init[k] is Initialized;
            assert(events[k] is Initialized);
        }
    }
}

/// A document is recorded once, and only while the session waits for it; the session then collects
/// signatures for it. A second one is old news, and in any other status it is refused.
pub proof fn law_document_is_recorded_once(s: SessionView, hash: PsbtHash)
    ensures
        ({
            let (after, answer) = psbt_created_outcome(s, hash);
            let status = session_status(s.events);
            if exists|i: int| 0 <= i < s.events.len() && #[trigger] s.events[i] is PsbtCreated {
                after == s && answer == Ok::<Idempotent<()>, SessionFault>(
                    Idempotent::AlreadyApplied,
                )
            } else if status == PsbtSessionStatus::Pending {
                &&& answer == Ok::<Idempotent<()>, SessionFault>(Idempotent::Executed(()))
                &&& after == (SessionView {
                    unsigned_psbt_hash: Some(hash),
                    events: s.events.push(
                        SessionEventView::PsbtCreated { unsigned_psbt_hash: hash },
                    ),
                    ..s
                })
                &&& session_status(after.events) == PsbtSessionStatus::Collecting
            } else {
                after == s && answer == Err::<Idempotent<()>, SessionFault>(
                    SessionFault::CannotAttachPsbt { id: s.id, status },
                )
            }
        }),
{
    let after = psbt_created_outcome(s, hash).0;
    law_status_is_that_of_the_latest_turn(after.events, after.events.len() - 1);
}

/// A signature is taken in while the session collects, from a keystore of its policy, and once
/// from each. It is recorded behind those that are there, and the session goes on collecting.
pub proof fn law_signature_is_taken_once(s: SessionView, f: KeyFingerprint, hash: PsbtHash)
    ensures
        ({
            let (after, answer) = signature_outcome(s, f, hash);
            let status = session_status(s.events);
            if exists|i: int|
                0 <= i < s.events.len() && (#[trigger] s.events[i]) is SignatureAdded
                    && s.events[i]->SignatureAdded_fingerprint == f {
                after == s && answer == Ok::<Idempotent<()>, SessionFault>(
                    Idempotent::AlreadyApplied,
                )
            } else if status != PsbtSessionStatus::Collecting {
                after == s && answer == Err::<Idempotent<()>, SessionFault>(
                    SessionFault::NotCollecting(s.id),
                )
            } else if forall|i: int| 0 <= i < s.keystores.len() ==> #[trigger] s.keystores[i] != f {
                after == s && answer == Err::<Idempotent<()>, SessionFault>(
                    SessionFault::UnknownKeystore(f),
                )
            } else {
                &&& answer == Ok::<Idempotent<()>, SessionFault>(Idempotent::Executed(()))
                &&& after == (SessionView {
                    signatures: s.signatures.push(
                        SignatureRecord { fingerprint: f, signed_psbt_hash: hash },
                    ),
                    events: s.events.push(
                        SessionEventView::SignatureAdded {
                            fingerprint: f,
                            signed_psbt_hash: hash,
                        },
                    ),
                    ..s
                })
                &&& session_status(after.events) == PsbtSessionStatus::Collecting
            }
        }),
{
    let after = signature_outcome(s, f, hash).0;
    if exists|i: int|
        0 <= i < s.events.len() && (#[trigger] s.events[i]) is SignatureAdded
            && s.events[i]->SignatureAdded_fingerprint == f {
        let i = choose|i: int|
            0 <= i < s.events.len() && (#[trigger] s.events[i]) is SignatureAdded
                && s.events[i]->SignatureAdded_fingerprint == f;
        assert(crate::psbt_session::entity::signature_was_added(s.events, f));
    } else if crate::psbt_session::entity::signature_was_added(s.events, f) {
        let i = choose|i: int|
            0 <= i < s.events.len() && (
            #[trigger] s.events[i] matches SessionEventView::SignatureAdded { fingerprint, .. }
                && fingerprint == f);
        assert(s.events[i] is SignatureAdded && s.events[i]->SignatureAdded_fingerprint == f);
    }
    if s.keystores.contains(f) {
        let i = choose|i: int| 0 <= i < s.keystores.len() && s.keystores[i] == f;
        assert(s.keystores[i] == f);
    }
    if s.events.len() < after.events.len() {
        assert(after.events.drop_last() =~= s.events);
    }
}

/// Whether a signer is among those on record.
pub open spec fn signer_recorded(signatures: Seq<SignatureRecord>, f: KeyFingerprint) -> bool {
    exists|k: int| 0 <= k < signatures.len() && (#[trigger] signatures[k]).fingerprint == f
}

/// A final transaction is recorded once, while the session collects, for signers who are as many
/// as the policy asks for, each named once, all with a signature on record. The record names
/// exactly these signers, in the order of their fingerprints.
pub proof fn law_final_transaction_is_recorded_once(
    s: SessionView,
    txid: Txid,
    hash: PsbtHash,
    used: Seq<KeyFingerprint>,
)
    ensures
        ({
            let (after, answer) = finalize_outcome(s, txid, hash, used);
            let status = session_status(s.events);
            if exists|i: int| 0 <= i < s.events.len() && #[trigger] s.events[i] is Finalized {
                after == s && answer == Ok::<Idempotent<Txid>, SessionFault>(
                    Idempotent::AlreadyApplied,
                )
            } else if status != PsbtSessionStatus::Collecting {
                after == s && answer == Err::<Idempotent<Txid>, SessionFault>(
                    SessionFault::NotCollecting(s.id),
                )
            } else if used.len() < s.threshold {
                after == s && answer == Err::<Idempotent<Txid>, SessionFault>(
                    SessionFault::ThresholdNotMet { collected: used.len(), threshold: s.threshold },
                )
            } else if exists|i: int, j: int|
                0 <= i < j < used.len() && #[trigger] used[i] == #[trigger] used[j] {
                after == s && answer == Err::<Idempotent<Txid>, SessionFault>(
                    SessionFault::DuplicateSigsUsed,
                )
            } else if exists|i: int|
                0 <= i < used.len() && !signer_recorded(s.signatures, #[trigger] used[i]) {
                after == s && answer == Err::<Idempotent<Txid>, SessionFault>(
                    SessionFault::SigsUsedNotCollected,
                )
            } else {
                &&& answer == Ok::<Idempotent<Txid>, SessionFault>(Idempotent::Executed(txid))
                &&& after.finalization is Some
                &&& {
                    let record = after.finalization->0;
                    &&& record.txid == txid
                    &&& record.final_tx_hash == hash
                    &&& record.sigs_used.to_multiset() == used.to_multiset()
                    &&& sorted_by(
                        record.sigs_used,
                        |a: KeyFingerprint, b: KeyFingerprint| a.0 <= b.0,
                    )
                    &&& after == (SessionView {
                        finalization: Some(record),
                        events: s.events.push(
                            SessionEventView::Finalized {
                                txid,
                                final_tx_hash: hash,
                                sigs_used: record.sigs_used,
                            },
                        ),
                        ..s
                    })
                }
                &&& session_status(after.events) == PsbtSessionStatus::Finalized
            }
        }),
{
    let after = finalize_outcome(s, txid, hash, used).0;
    law_sorted_fingerprints(used);
    law_status_is_that_of_the_latest_turn(after.events, after.events.len() - 1);
    if !used.no_duplicates() {
        let (i, j) = choose|i: int, j: int|
            0 <= i < used.len() && 0 <= j < used.len() && i != j && used[i] == used[j];
        if i < j {
            assert(used[i] == used[j]);
        } else {
            assert(used[j] == used[i]);
        }
    }
    assert forall|f: KeyFingerprint|
        crate::psbt_session::entity::has_signed(s.signatures, f) == #[trigger] signer_recorded(
            s.signatures,
            f,
        ) by {}
    if !crate::psbt_session::entity::all_signed(s.signatures, used) {
        let i = choose|i: int|
            0 <= i < used.len() && !crate::psbt_session::entity::has_signed(
                s.signatures,
                #[trigger] used[i],
            );
        assert(!signer_recorded(s.signatures, used[i]));
    } else {
        assert forall|i: int| 0 <= i < used.len() implies signer_recorded(
            s.signatures,
            #[trigger] used[i],
        ) by {
            assert(crate::psbt_session::entity::has_signed(s.signatures, used[i]));
        }
    }
}

/// The keystores that are still missing are those of the policy whose fingerprints are not among
/// the signers on record, in the order of the policy.
pub proof fn law_missing_keystores_have_not_signed(
    keystores: Seq<KeyFingerprint>,
    signatures: Seq<SignatureRecord>,
)
    ensures
        missing(keystores, signatures) == keystores.filter(
            |f: KeyFingerprint| !signer_recorded(signatures, f),
        ),
    decreases keystores.len(),
{
    reveal(Seq::filter);
    if keystores.len() > 0 {
        law_missing_keystores_have_not_signed(keystores.drop_last(), signatures);
        let f = keystores.last();
        assert(crate::psbt_session::entity::has_signed(signatures, f) == signer_recorded(
            signatures,
            f,
        ));
    } else {
        assert(missing(keystores, signatures) =~= keystores);
    }
}

/// A sighting on the network is of the final transaction, and takes effect once, unless the
/// transaction is in a block already.
pub proof fn law_sighting_takes_effect_once(s: SessionView, txid: Txid)
    ensures
        ({
            let (after, answer) = broadcast_outcome(s, txid);
            if s.finalization is None {
                after == s && answer == Err::<Idempotent<()>, SessionFault>(
                    SessionFault::NotFinalized(s.id),
                )
            } else if (s.finalization->0).txid != txid {
                after == s && answer == Err::<Idempotent<()>, SessionFault>(
                    SessionFault::TxidMismatch,
                )
            } else if (exists|i: int|
                0 <= i < s.events.len() && #[trigger] s.events[i] is BroadcastSeen)
                || session_status(s.events) == PsbtSessionStatus::Confirmed {
                after == s && answer == Ok::<Idempotent<()>, SessionFault>(
                    Idempotent::AlreadyApplied,
                )
            } else {
                &&& answer == Ok::<Idempotent<()>, SessionFault>(Idempotent::Executed(()))
                &&& after == (SessionView {
                    events: s.events.push(SessionEventView::BroadcastSeen { txid }),
                    ..s
                })
                &&& session_status(after.events) == PsbtSessionStatus::Broadcast
            }
        }),
{
    let after = broadcast_outcome(s, txid).0;
    law_status_is_that_of_the_latest_turn(after.events, after.events.len() - 1);
}

/// Whether an event tells of a block: a confirmation, or that it was taken back.
pub open spec fn is_verdict_of_chain(e: SessionEventView) -> bool {
    e is Confirmed || e is Invalidated
}

/// What the chain said last, if anything, is a confirmation.
pub open spec fn confirmed_last(events: Seq<SessionEventView>) -> bool {
    exists|i: int|
        {
            &&& 0 <= i < events.len()
            &&& #[trigger] events[i] is Confirmed
            &&& forall|j: int| i < j < events.len() ==> !is_verdict_of_chain(#[trigger] events[j])
        }
}

/// What the chain said last, if anything, is an invalidation.
pub open spec fn invalidated_last(events: Seq<SessionEventView>) -> bool {
    exists|i: int|
        {
            &&& 0 <= i < events.len()
            &&& #[trigger] events[i] is Invalidated
            &&& forall|j: int| i < j < events.len() ==> !is_verdict_of_chain(#[trigger] events[j])
        }
}

/// What stands is what the chain said last.
proof fn lemma_chain_said_last(events: Seq<SessionEventView>)
    ensures
        stands_confirmed(events) == confirmed_last(events),
        stands_invalidated(events) == invalidated_last(events),
    decreases events.len(),
{
    if events.len() > 0 {
        let init = events.drop_last();
        let n = events.len() - 1;
        lemma_chain_said_last(init);
        assert forall|j: int| 0 <= j < init.len() implies init[j] == #[trigger] events[j] by {}
        assert(events.last() == events[n]);
        if is_verdict_of_chain(events[n]) {
            if confirmed_last(events) && !(events[n] is Confirmed) {
                let i = choose|i: int|
                    {
                        &&& 0 <= i < events.len()
                        &&& #[trigger] events[i] is Confirmed
                        &&& forall|j: int|
                            i < j < events.len() ==> !is_verdict_of_chain(#[trigger] events[j])
                    };
                assert(i < n);
            }
            if invalidated_last(events) && !(events[n] is Invalidated) {
                let i = choose|i: int|
                    {
                        &&& 0 <= i < events.len()
                        &&& #[trigger] events[i] is Invalidated
                        &&& forall|j: int|
                            i < j < events.len() ==> !is_verdict_of_chain(#[trigger] events[j])
                    };
                assert(i < n);
            }
        } else {
            if confirmed_last(init) {
                let i = choose|i: int|
                    {
                        &&& 0 <= i < init.len()
                        &&& #[trigger] init[i] is Confirmed
                        &&& forall|j: int|
                            i < j < init.len() ==> !is_verdict_of_chain(#[trigger] init[j])
                    };
                assert(events[i] is Confirmed);
                assert forall|j: int| i < j < events.len() implies !is_verdict_of_chain(
                    #[trigger] events[j],
                ) by {
                    if j < n {
                        assert(!is_verdict_of_chain(init[j]));
                    }
                }
            }
            if confirmed_last(events) {
                let i = choose|i: int|
                    {
                        &&& 0 <= i < events.len()
                        &&& #[trigger] events[i] is Confirmed
                        &&& forall|j: int|
                            i < j < events.len() ==> !is_verdict_of_chain(#[trigger] events[j])
                    };
                assert(init[i] is Confirmed);
                assert forall|j: int| i < j < init.len() implies !is_verdict_of_chain(
                    #[trigger] init[j],
                ) by {
                    assert(!is_verdict_of_chain(events[j]));
                }
            }
            if invalidated_last(init) {
                let i = choose|i: int|
                    {
                        &&& 0 <= i < init.len()
                        &&& #[trigger] init[i] is Invalidated
                        &&& forall|j: int|
                            i < j < init.len() ==> !is_verdict_of_chain(#[trigger] init[j])
                    };
                assert(events[i] is Invalidated);
                assert forall|j: int| i < j < events.len() implies !is_verdict_of_chain(
                    #[trigger] events[j],
                ) by {
                    if j < n {
                        assert(!is_verdict_of_chain(init[j]));
                    }
                }
            }
            if invalidated_last(events) {
                let i = choose|i: int|
                    {
                        &&& 0 <= i < events.len()
                        &&& #[trigger] events[i] is Invalidated
                        &&& forall|j: int|
                            i < j < events.len() ==> !is_verdict_of_chain(#[trigger] events[j])
                    };
                assert(init[i] is Invalidated);
                assert forall|j: int| i < j < init.len() implies !is_verdict_of_chain(
                    #[trigger] init[j],
                ) by {
                    assert(!is_verdict_of_chain(events[j]));
                }
            }
        }
    }
}

/// A confirmation is of the final transaction, and takes effect unless a confirmation is what the
/// chain said last. So one that was taken back can be confirmed again.
pub proof fn law_confirmation_takes_effect_unless_it_stands(
    s: SessionView,
    txid: Txid,
    height: u64,
    block_hash: BlockHash,
)
    ensures
        ({
            let (after, answer) = confirm_outcome(s, txid, height, block_hash);
            if s.finalization is None {
                after == s && answer == Err::<Idempotent<()>, SessionFault>(
                    SessionFault::NotFinalized(s.id),
                )
            } else if (s.finalization->0).txid != txid {
                after == s && answer == Err::<Idempotent<()>, SessionFault>(
                    SessionFault::TxidMismatch,
                )
            } else if confirmed_last(s.events) {
                after == s && answer == Ok::<Idempotent<()>, SessionFault>(
                    Idempotent::AlreadyApplied,
                )
            } else {
                &&& answer == Ok::<Idempotent<()>, SessionFault>(Idempotent::Executed(()))
                &&& after == (SessionView {
                    events: s.events.push(
                        SessionEventView::Confirmed { txid, height, block_hash },
                    ),
                    ..s
                })
                &&& session_status(after.events) == PsbtSessionStatus::Confirmed
            }
        }),
{
    let after = confirm_outcome(s, txid, height, block_hash).0;
    lemma_chain_said_last(s.events);
    law_status_is_that_of_the_latest_turn(after.events, after.events.len() - 1);
}

/// An invalidation is decided by the status: what is on the network or in a block can be taken
/// back, whatever the reason, and the session is then invalidated; where an invalidation is what
/// the chain said last it is old news; in every other status it is refused and changes nothing.
pub proof fn law_invalidation_follows_status(s: SessionView, reason: InvalidationReason)
    ensures
        ({
            let (after, answer) = invalidate_outcome(s, reason);
            let status = session_status(s.events);
            if invalidated_last(s.events) {
                after == s && answer == Ok::<Idempotent<()>, SessionFault>(
                    Idempotent::AlreadyApplied,
                )
            } else if status == PsbtSessionStatus::Broadcast || status
                == PsbtSessionStatus::Confirmed {
                &&& answer == Ok::<Idempotent<()>, SessionFault>(Idempotent::Executed(()))
                &&& after == (SessionView {
                    events: s.events.push(SessionEventView::Invalidated { reason }),
                    ..s
                })
                &&& session_status(after.events) == PsbtSessionStatus::Invalidated
            } else {
                after == s && answer == Err::<Idempotent<()>, SessionFault>(
                    SessionFault::CannotInvalidate { id: s.id, status },
                )
            }
        }),
{
    let after = invalidate_outcome(s, reason).0;
    lemma_chain_said_last(s.events);
    law_status_is_that_of_the_latest_turn(after.events, after.events.len() - 1);
}

/// A session can be given up until its transaction is out: while it is pending, collects or is
/// finalized. Giving up twice is old news, and in every other status it is refused.
pub proof fn law_session_can_be_given_up_until_it_is_out(s: SessionView, reason: Seq<char>)
    ensures
        ({
            let (after, answer) = session_cancel_outcome(s, reason);
            let status = session_status(s.events);
            if exists|i: int| 0 <= i < s.events.len() && #[trigger] s.events[i] is Cancelled {
                after == s && answer == Ok::<Idempotent<()>, SessionFault>(
                    Idempotent::AlreadyApplied,
                )
            } else if status == PsbtSessionStatus::Pending || status
                == PsbtSessionStatus::Collecting || status == PsbtSessionStatus::Finalized {
                &&& answer == Ok::<Idempotent<()>, SessionFault>(Idempotent::Executed(()))
                &&& after == (SessionView {
                    events: s.events.push(SessionEventView::Cancelled { reason }),
                    ..s
                })
                &&& session_status(after.events) == PsbtSessionStatus::Cancelled
            } else {
                after == s && answer == Err::<Idempotent<()>, SessionFault>(
                    SessionFault::CannotCancel { id: s.id, status },
                )
            }
        }),
{
    let after = session_cancel_outcome(s, reason).0;
    law_status_is_that_of_the_latest_turn(after.events, after.events.len() - 1);
}

/// A good proposal records what was asked and the policy of the wallet as it is: the session that
/// its events tell of spends exactly the coins that were named, makes exactly the payments that
/// were named, in their order, with the fee and the change as given; its threshold is the wallet's,
/// and its keystores are the fingerprints of those that the wallet's participants submitted, in
/// their order. It is pending, and has no document, signature or final transaction.
pub proof fn law_proposal_records_what_was_asked(
    id: PsbtSessionId,
    wallet: WalletView,
    proposed_by: UserId,
    spend: SpendSpecView,
)
    ensures
        ({
            let event = proposal_event(proposal(id, wallet, proposed_by, spend));
            let found = session_of(seq![event]);
            let s = found->0;
            let subs = wallet_submissions(wallet.events);
            &&& found is Some
            &&& s.id == id
            &&& s.wallet_id == wallet.id
            &&& s.proposed_by == proposed_by
            &&& s.inputs.len() == spend.inputs.len()
            &&& forall|i: int|
                0 <= i < spend.inputs.len() ==> #[trigger] s.inputs[i] == spend.inputs[i]
            &&& s.outputs.len() == spend.outputs.len()
            &&& forall|i: int|
                0 <= i < spend.outputs.len() ==> (#[trigger] s.outputs[i]).address
                    == spend.outputs[i].address && s.outputs[i].amount_sats
                    == spend.outputs[i].amount_sats
            &&& s.fee_sats == spend.fee_sats
            &&& s.change_output == spend.change_output
            &&& s.threshold == wallet.threshold
            &&& s.keystores.len() == subs.len()
            &&& forall|i: int|
                0 <= i < subs.len() ==> #[trigger] s.keystores[i] == subs[i].keystore.fingerprint
            &&& s.unsigned_psbt_hash is None
            &&& s.signatures.len() == 0
            &&& s.finalization is None
            &&& s.events == seq![event]
            &&& session_status(s.events) == PsbtSessionStatus::Pending
        }),
{
    let event = proposal_event(proposal(id, wallet, proposed_by, spend));
    let events = seq![event];
    assert(events[0] is Initialized);
    law_session_is_what_its_record_tells(events, 0, 0, 0);
    law_status_is_that_of_the_latest_turn(events, 0);
    let records = events.filter_map(|e: SessionEventView| record_in(e));
    lemma_signatures_are_told(events);
    reveal_with_fuel(recorded_signatures, 2);
    assert(events.drop_last() =~= Seq::<SessionEventView>::empty());
}

/// What is wrong with one payment, if anything: its address is none of the network, or its amount
/// is below the dust limit of the script that it pays to.
pub open spec fn payment_fault(o: SpendOutputView, network: Network) -> Option<SessionFault> {
    match address_script(o.address, network) {
        Err(reason) => Some(SessionFault::InvalidAddress { network, reason }),
        Ok(script) => if o.amount_sats < dust_limit(script) as u64 {
            Some(
                SessionFault::DustOutput {
                    amount_sats: o.amount_sats,
                    dust_sats: dust_limit(script) as u64,
                },
            )
        } else {
            None
        },
    }
}

/// The first fault among payments, if any, is that of the first payment that has one.
proof fn lemma_first_payment_fault(
    outputs: Seq<SpendOutputView>,
    network: Network,
    n: nat,
    k: int,
)
    requires
        n <= outputs.len(),
    ensures
        outputs_fault(outputs, network, output_checks(outputs, network), n) is None <==> (forall|
            j: int,
        |
            0 <= j < n ==> payment_fault(#[trigger] outputs[j], network) is None),
        0 <= k < n && payment_fault(outputs[k], network) is Some && (forall|j: int|
            0 <= j < k ==> payment_fault(#[trigger] outputs[j], network) is None) ==> outputs_fault(
            outputs,
            network,
            output_checks(outputs, network),
            n,
        ) == payment_fault(outputs[k], network),
    decreases n,
{
    if n > 0 {
        lemma_first_payment_fault(outputs, network, (n - 1) as nat, k);
        let last = outputs[n - 1];
        assert(output_checks(outputs, network)[n - 1] == output_check(last.address, network));
    }
}

/// A spend can be proposed exactly where the wallet is active, at least one coin is named and none
/// twice, at least one payment is made, no payment has a fault, the change is not dust for a
/// witness script, and the fee is at most a million sats. Else the first of these, in this order,
/// that fails is the answer; of several coins that are named twice the least.
pub proof fn law_proposal_is_judged(wallet: WalletView, spend: SpendSpecView, k: int)
    ensures
        ({
            let status = wallet_status(wallet.events);
            let fault = proposal_fault(
                wallet,
                spend,
                output_checks(spend.outputs, wallet.network),
                dust_limit(p2wsh_script()) as u64,
            );
            let change_dust = dust_limit(seq![0u8, 32u8] + Seq::new(32, |i: int| 0u8)) as u64;
            if status != WalletStatus::Active {
                fault == Some(SessionFault::WalletNotActive { wallet_id: wallet.id, status })
            } else if spend.inputs.len() == 0 {
                fault == Some(SessionFault::EmptyInputs)
            } else if exists|i: int, j: int|
                0 <= i < j < spend.inputs.len() && #[trigger] spend.inputs[i]
                    == #[trigger] spend.inputs[j] {
                &&& fault is Some
                &&& fault->0 is DuplicateInput
                &&& {
                    let named = OutPointRef {
                        txid: fault->0->DuplicateInput_txid,
                        vout: fault->0->DuplicateInput_vout,
                    };
                    &&& exists|i: int, j: int|
                        0 <= i < j < spend.inputs.len() && #[trigger] spend.inputs[i] == named
                            && #[trigger] spend.inputs[j] == named
                    &&& forall|i: int, j: int|
                        0 <= i < j < spend.inputs.len() && #[trigger] spend.inputs[i]
                            == #[trigger] spend.inputs[j] ==> !outpoint_less(spend.inputs[i], named)
                }
            } else if spend.outputs.len() == 0 {
                fault == Some(SessionFault::EmptyOutputs)
            } else if exists|j: int|
                0 <= j < spend.outputs.len() && payment_fault(
                    #[trigger] spend.outputs[j],
                    wallet.network,
                ) is Some {
                &&& fault is Some
                &&& 0 <= k < spend.outputs.len() && payment_fault(
                    spend.outputs[k],
                    wallet.network,
                ) is Some && (forall|j: int|
                    0 <= j < k ==> payment_fault(#[trigger] spend.outputs[j], wallet.network)
                        is None) ==> fault == payment_fault(spend.outputs[k], wallet.network)
            } else if spend.change_output is Some && (spend.change_output->0).amount_sats
                < change_dust {
                fault == Some(
                    SessionFault::DustOutput {
                        amount_sats: (spend.change_output->0).amount_sats,
                        dust_sats: change_dust,
                    },
                )
            } else if spend.fee_sats > 1_000_000 {
                fault == Some(
                    SessionFault::FeeExceedsMax { fee_sats: spend.fee_sats, max_sats: 1_000_000 },
                )
            } else {
                fault is None
            }
        }),
{
    law_least_repeated(spend.inputs);
    lemma_first_payment_fault(spend.outputs, wallet.network, spend.outputs.len(), k);
    assert(p2wsh_script() =~= seq![0u8, 32u8] + Seq::new(32, |i: int| 0u8));
    if exists|i: int, j: int|
        0 <= i < j < spend.inputs.len() && #[trigger] spend.inputs[i]
            == #[trigger] spend.inputs[j] {
        let (i, j) = choose|i: int, j: int|
            0 <= i < j < spend.inputs.len() && #[trigger] spend.inputs[i]
                == #[trigger] spend.inputs[j];
        assert(!spend.inputs.no_duplicates());
        let o = least_repeated(spend.inputs)->0;
        let named = OutPointRef { txid: o.txid, vout: o.vout };
        assert(named == o);
        let (x, y) = choose|i: int, j: int|
            0 <= i < j < spend.inputs.len() && spend.inputs[i] == o && spend.inputs[j] == o;
        assert(spend.inputs[x] == named && spend.inputs[y] == named);
    } else {
        if least_repeated(spend.inputs) is Some {
            let o = least_repeated(spend.inputs)->0;
            let (x, y) = choose|i: int, j: int|
                0 <= i < j < spend.inputs.len() && spend.inputs[i] == o && spend.inputs[j] == o;
            assert(spend.inputs[x] == spend.inputs[y]);
        }
    }
}

/// The coins that are in conflict are exactly those of the spend that a session which is neither
/// given up nor invalidated names among its own. Each is told once, whichever sessions name it.
pub proof fn law_conflicts_are_coins_of_live_sessions(
    sessions: Seq<SessionView>,
    wanted: Seq<OutPointRef>,
)
    ensures
        ({
            let r = conflicts(sessions, wanted, sessions.len());
            &&& r.no_duplicates()
            &&& forall|o: OutPointRef| #[trigger]
                r.contains(o) <==> (wanted.contains(o) && exists|i: int|
                    0 <= i < sessions.len() && (#[trigger] sessions[i]).inputs.contains(o)
                        && session_status(sessions[i].events) != PsbtSessionStatus::Cancelled
                        && session_status(sessions[i].events) != PsbtSessionStatus::Invalidated)
        }),
{
    law_conflicts_are_claimed_coins(sessions, wanted, sessions.len());
    let r = conflicts(sessions, wanted, sessions.len());
    assert forall|o: OutPointRef| #[trigger]
        r.contains(o) <==> (wanted.contains(o) && exists|i: int|
            0 <= i < sessions.len() && (#[trigger] sessions[i]).inputs.contains(o)
                && session_status(sessions[i].events) != PsbtSessionStatus::Cancelled
                && session_status(sessions[i].events) != PsbtSessionStatus::Invalidated) by {
        if r.contains(o) {
            let i = choose|i: int| 0 <= i < sessions.len() && claims(#[trigger] sessions[i], o);
            assert(sessions[i].inputs.contains(o));
        }
        if exists|i: int|
            0 <= i < sessions.len() && (#[trigger] sessions[i]).inputs.contains(o)
                && session_status(sessions[i].events) != PsbtSessionStatus::Cancelled
                && session_status(sessions[i].events) != PsbtSessionStatus::Invalidated {
            let i = choose|i: int|
                0 <= i < sessions.len() && (#[trigger] sessions[i]).inputs.contains(o)
                    && session_status(sessions[i].events) != PsbtSessionStatus::Cancelled
                    && session_status(sessions[i].events) != PsbtSessionStatus::Invalidated;
            assert(claims(sessions[i], o));
        }
    }
}

/// Coins are ordered by the bytes of the transaction id, and by the index of the output where the
/// ids are the same.
pub proof fn law_coins_are_ordered(a: OutPointRef, b: OutPointRef)
    ensures
        a.txid != b.txid ==> (outpoint_less(a, b) <==> exists|i: int| #[trigger]
            differs_below_at(a.txid@, b.txid@, i)),
        a.txid == b.txid ==> (outpoint_less(a, b) <==> a.vout < b.vout),
{
    law_first_difference_decides(a.txid@, b.txid@);
    if a.txid == b.txid {
        crate::bytes::lemma_bytes_less_irreflexive(a.txid@);
    }
}

/// What is said of a spend is said of all of it: every coin, every payment with its address and
/// amount, the fee and the change.
pub proof fn law_all_of_a_spend_is_seen(spend: SpendSpec)
    ensures
        spend@.inputs == spend.inputs@,
        spend@.outputs.len() == spend.outputs@.len(),
        forall|i: int|
            0 <= i < spend.outputs@.len() ==> (#[trigger] spend@.outputs[i]).address
                == spend.outputs@[i].address@ && spend@.outputs[i].amount_sats
                == spend.outputs@[i].amount_sats,
        spend@.fee_sats == spend.fee_sats,
        spend@.change_output == spend.change_output,
{
}

/// What is said of the events and of the sessions of a list is said of each of them.
pub proof fn law_all_events_and_sessions_are_seen(
    events: Seq<PsbtSessionEvent>,
    sessions: Seq<PsbtSession>,
)
    ensures
        session_events(events).len() == events.len(),
        forall|i: int| 0 <= i < events.len() ==> #[trigger] session_events(events)[i] == events[i]@,
        session_views(sessions).len() == sessions.len(),
        forall|i: int|
            0 <= i < sessions.len() ==> #[trigger] session_views(sessions)[i] == sessions[i]@,
{
}

} // verus!
