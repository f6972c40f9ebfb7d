//! What holds of a signing session over its life.

use vstd::prelude::*;
use vstd::relations::sorted_by;

use crate::bytes::{
    lemma_bytes_less_irreflexive, lemma_bytes_less_total, lemma_bytes_less_transitive,
};
use crate::primitives::{
    BlockHash, Idempotent, KeyFingerprint, Network, PsbtHash, PsbtSessionId, Txid, UserId,
};
use crate::psbt_session::entity::{
    all_signed, broadcast_outcome, confirm_outcome, finalize_outcome, has_signed,
    invalidate_outcome, missing, proposed, psbt_created_outcome, psbt_was_created,
    recorded_finalization, recorded_psbt, recorded_signatures, session_cancel_outcome, session_of,
    session_status, session_was_cancelled, signature_outcome, signature_was_added,
    stands_confirmed, stands_invalidated, was_finalized, was_seen, with_session_event,
    SessionEventView, SessionView,
};
use crate::psbt_session::error::SessionFault;
use crate::psbt_session::order::{
    fingerprint_order, law_sorted_fingerprints, sorted_fingerprints,
};
use crate::psbt_session::primitives::{
    outpoint_less, FinalizationView, InvalidationReason, OutPointRef, PsbtSessionStatus,
    SignatureRecord, SpendSpecView,
};
use crate::psbt_session::proposal::{
    least_repeated, outputs_fault, proposal, proposal_event, proposal_fault, MAX_FEE_SATS,
};
use crate::wallet::entity::{wallet_status, wallet_submissions, WalletView};
use crate::wallet::laws::wallet_sound;
use crate::wallet::primitives::WalletStatus;

verus! {

/// Whether the collected signatures are those of the policy: each by one of its keystores, and
/// no two by one keystore.
pub open spec fn signatures_sound(
    keystores: Seq<KeyFingerprint>,
    signatures: Seq<SignatureRecord>,
) -> bool {
    &&& forall|i: int|
        0 <= i < signatures.len() ==> keystores.contains((#[trigger] signatures[i]).fingerprint)
    &&& forall|i: int, j: int|
        0 <= i < j < signatures.len() ==> (#[trigger] signatures[i]).fingerprint != (
        #[trigger] signatures[j]).fingerprint
}

/// Whether a final transaction uses enough of the collected signatures: no signer twice, in the
/// order of the fingerprints.
pub open spec fn finalization_sound(s: SessionView, f: FinalizationView) -> bool {
    &&& f.sigs_used.len() >= s.threshold
    &&& f.sigs_used.no_duplicates()
    &&& sorted_by(f.sigs_used, fingerprint_order())
    &&& all_signed(s.signatures, f.sigs_used)
}

/// The invariant of a session.
pub open spec fn session_sound(s: SessionView) -> bool {
    let status = session_status(s.events);
    &&& session_of(s.events) == Some(s)
    &&& 0 < s.threshold <= s.keystores.len()
    &&& s.keystores.no_duplicates()
    &&& signatures_sound(s.keystores, s.signatures)
    &&& forall|f: KeyFingerprint| #[trigger]
        signature_was_added(s.events, f) == has_signed(s.signatures, f)
    &&& psbt_was_created(s.events) == (s.unsigned_psbt_hash is Some)
    &&& s.signatures.len() > 0 ==> psbt_was_created(s.events)
    &&& was_finalized(s.events) == (s.finalization is Some)
    &&& match s.finalization {
        Some(f) => finalization_sound(s, f) && psbt_was_created(s.events),
        None => true,
    }
    &&& status == PsbtSessionStatus::Pending ==> !psbt_was_created(s.events)
    &&& status == PsbtSessionStatus::Collecting ==> psbt_was_created(s.events) && !was_finalized(
        s.events,
    )
    &&& (status == PsbtSessionStatus::Finalized || status == PsbtSessionStatus::Broadcast || status
        == PsbtSessionStatus::Confirmed || status == PsbtSessionStatus::Invalidated)
        ==> was_finalized(s.events)
    &&& stands_confirmed(s.events) || stands_invalidated(s.events) ==> was_finalized(s.events)
    &&& stands_confirmed(s.events) == (status == PsbtSessionStatus::Confirmed)
}

/// What one more event adds to what is read off a session.
proof fn lemma_with_session_event(s: SessionView, e: SessionEventView)
    ensures
        ({
            let n = with_session_event(s, e).events;
            &&& n.drop_last() == s.events
            &&& n.last() == e
            &&& psbt_was_created(n) == (psbt_was_created(s.events) || e is PsbtCreated)
            &&& was_finalized(n) == (was_finalized(s.events) || e is Finalized)
            &&& was_seen(n) == (was_seen(s.events) || e is BroadcastSeen)
            &&& session_was_cancelled(n) == (session_was_cancelled(s.events) || e is Cancelled)
            &&& forall|f: KeyFingerprint| #[trigger]
                signature_was_added(n, f) == (signature_was_added(s.events, f) || (
                e matches SessionEventView::SignatureAdded { fingerprint, .. } && fingerprint
                    == f))
        }),
{
    let n = with_session_event(s, e).events;
    assert(n.drop_last() =~= s.events);
    assert(n[s.events.len() as int] == e);
    if psbt_was_created(s.events) {
        let i = choose|i: int| 0 <= i < s.events.len() && #[trigger] s.events[i] is PsbtCreated;
        assert(n[i] is PsbtCreated);
    }
    if psbt_was_created(n) && !(e is PsbtCreated) {
        let i = choose|i: int| 0 <= i < n.len() && #[trigger] n[i] is PsbtCreated;
        assert(s.events[i] is PsbtCreated);
    }
    if was_finalized(s.events) {
        let i = choose|i: int| 0 <= i < s.events.len() && #[trigger] s.events[i] is Finalized;
        assert(n[i] is Finalized);
    }
    if was_finalized(n) && !(e is Finalized) {
        let i = choose|i: int| 0 <= i < n.len() && #[trigger] n[i] is Finalized;
        assert(s.events[i] is Finalized);
    }
    if was_seen(s.events) {
        let i = choose|i: int| 0 <= i < s.events.len() && #[trigger] s.events[i] is BroadcastSeen;
        assert(n[i] is BroadcastSeen);
    }
    if was_seen(n) && !(e is BroadcastSeen) {
        let i = choose|i: int| 0 <= i < n.len() && #[trigger] n[i] is BroadcastSeen;
        assert(s.events[i] is BroadcastSeen);
    }
    if session_was_cancelled(s.events) {
        let i = choose|i: int| 0 <= i < s.events.len() && #[trigger] s.events[i] is Cancelled;
        assert(n[i] is Cancelled);
    }
    if session_was_cancelled(n) && !(e is Cancelled) {
        let i = choose|i: int| 0 <= i < n.len() && #[trigger] n[i] is Cancelled;
        assert(s.events[i] is Cancelled);
    }
    assert forall|f: KeyFingerprint| #[trigger]
        signature_was_added(n, f) == (signature_was_added(s.events, f) || (
        e matches SessionEventView::SignatureAdded { fingerprint, .. } && fingerprint == f)) by {
        if signature_was_added(s.events, f) {
            let i = choose|i: int|
                0 <= i < s.events.len() && (
                #[trigger] s.events[i] matches SessionEventView::SignatureAdded { fingerprint, .. }
                    && fingerprint == f);
            assert(n[i] is SignatureAdded);
        }
        if signature_was_added(n, f) {
            let i = choose|i: int|
                0 <= i < n.len() && (
                #[trigger] n[i] matches SessionEventView::SignatureAdded { fingerprint, .. }
                    && fingerprint == f);
            if i < s.events.len() {
                assert(s.events[i] == n[i]);
            }
        }
    }
}

/// A good proposal on a sound wallet starts a sound session, which waits for its document and
/// has every keystore of the wallet still to sign.
pub proof fn law_new_session_is_sound(
    id: PsbtSessionId,
    wallet: WalletView,
    proposed_by: UserId,
    spend: SpendSpecView,
    checks: Seq<Result<u64, Seq<char>>>,
    change_dust: u64,
)
    requires
        wallet_sound(wallet),
        proposal_fault(wallet, spend, checks, change_dust) is None,
    ensures
        ({
            let p = proposal(id, wallet, proposed_by, spend);
            let events = seq![proposal_event(p)];
            &&& session_of(events) is Some
            &&& session_sound(session_of(events)->0)
            &&& session_status(events) == PsbtSessionStatus::Pending
            &&& (session_of(events)->0).signatures.len() == 0
            &&& missing(p.keystores, (session_of(events)->0).signatures) == p.keystores
        }),
{
    let p = proposal(id, wallet, proposed_by, spend);
    let events = seq![proposal_event(p)];
    assert(events.drop_last() =~= Seq::<SessionEventView>::empty());
    reveal_with_fuel(session_status, 2);
    reveal_with_fuel(proposed, 2);
    reveal_with_fuel(recorded_psbt, 2);
    reveal_with_fuel(recorded_signatures, 2);
    reveal_with_fuel(recorded_finalization, 2);
    reveal_with_fuel(stands_confirmed, 2);
    reveal_with_fuel(stands_invalidated, 2);
    let subs = wallet_submissions(wallet.events);
    assert(p.keystores.no_duplicates()) by {
        assert forall|i: int, j: int|
            0 <= i < p.keystores.len() && 0 <= j < p.keystores.len() && i
                != j implies p.keystores[i] != p.keystores[j] by {
            assert(p.keystores[i] == subs[i].keystore.fingerprint);
            assert(p.keystores[j] == subs[j].keystore.fingerprint);
            if i < j {
                assert(subs[i].participant != subs[j].participant);
            } else {
                assert(subs[j].participant != subs[i].participant);
            }
        }
    }
    lemma_all_missing(p.keystores);
}

proof fn lemma_all_missing(keystores: Seq<KeyFingerprint>)
    ensures
        missing(keystores, Seq::empty()) == keystores,
    decreases keystores.len(),
{
    if keystores.len() > 0 {
        lemma_all_missing(keystores.drop_last());
        assert(keystores.drop_last().push(keystores.last()) =~= keystores);
    } else {
        assert(keystores =~= Seq::<KeyFingerprint>::empty());
    }
}

/// Recording the document keeps a session sound.
pub proof fn law_record_psbt_keeps_session_sound(s: SessionView, hash: PsbtHash)
    requires
        session_sound(s),
    ensures
        session_sound(psbt_created_outcome(s, hash).0),
{
    lemma_with_session_event(s, SessionEventView::PsbtCreated { unsigned_psbt_hash: hash });
}

/// Recording a signature keeps a session sound.
pub proof fn law_add_signature_keeps_session_sound(
    s: SessionView,
    f: KeyFingerprint,
    hash: PsbtHash,
)
    requires
        session_sound(s),
    ensures
        session_sound(signature_outcome(s, f, hash).0),
{
    let e = SessionEventView::SignatureAdded { fingerprint: f, signed_psbt_hash: hash };
    lemma_with_session_event(s, e);
    let (after, answer) = signature_outcome(s, f, hash);
    if after != s {
        let new = SignatureRecord { fingerprint: f, signed_psbt_hash: hash };
        assert(after.signatures == s.signatures.push(new));
        lemma_one_more_signature(s.signatures, new);
        assert(!has_signed(s.signatures, f)) by {
            assert(signature_was_added(s.events, f) == has_signed(s.signatures, f));
        }
        assert forall|i: int| 0 <= i < after.signatures.len() implies after.keystores.contains(
            (#[trigger] after.signatures[i]).fingerprint,
        ) by {
            if i < s.signatures.len() {
                assert(after.signatures[i] == s.signatures[i]);
            }
        }
        assert forall|i: int, j: int| 0 <= i < j < after.signatures.len() implies (
        #[trigger] after.signatures[i]).fingerprint != (
        #[trigger] after.signatures[j]).fingerprint by {
            assert(after.signatures[i] == s.signatures[i]);
            if j < s.signatures.len() {
                assert(after.signatures[j] == s.signatures[j]);
            }
        }
    }
}

/// What one more signature adds to those who have signed.
proof fn lemma_one_more_signature(signatures: Seq<SignatureRecord>, new: SignatureRecord)
    ensures
        forall|f: KeyFingerprint| #[trigger]
            has_signed(signatures.push(new), f) == (has_signed(signatures, f) || new.fingerprint
                == f),
{
    let after = signatures.push(new);
    assert forall|f: KeyFingerprint| #[trigger] has_signed(after, f) == (has_signed(signatures, f)
        || new.fingerprint == f) by {
        if has_signed(signatures, f) {
            let i = choose|i: int|
                0 <= i < signatures.len() && (#[trigger] signatures[i]).fingerprint == f;
            assert(after[i].fingerprint == f);
        }
        if new.fingerprint == f {
            assert(after[signatures.len() as int].fingerprint == f);
        }
        if has_signed(after, f) {
            let i = choose|i: int| 0 <= i < after.len() && (#[trigger] after[i]).fingerprint == f;
            if i < signatures.len() {
                assert(signatures[i].fingerprint == f);
            }
        }
    }
}

/// Recording the final transaction keeps a session sound.
pub proof fn law_finalize_keeps_session_sound(
    s: SessionView,
    txid: Txid,
    final_tx_hash: PsbtHash,
    used: Seq<KeyFingerprint>,
)
    requires
        session_sound(s),
    ensures
        session_sound(finalize_outcome(s, txid, final_tx_hash, used).0),
{
    let sigs_used = sorted_fingerprints(used);
    let e = SessionEventView::Finalized { txid, final_tx_hash, sigs_used };
    lemma_with_session_event(s, e);
    law_sorted_fingerprints(used);
    let (after, answer) = finalize_outcome(s, txid, final_tx_hash, used);
    if after != s {
        assert(all_signed(after.signatures, sigs_used)) by {
            assert forall|i: int| 0 <= i < sigs_used.len() implies has_signed(
                after.signatures,
                #[trigger] sigs_used[i],
            ) by {
                assert(sigs_used.contains(sigs_used[i]));
                assert(used.contains(sigs_used[i]));
                let j = choose|j: int| 0 <= j < used.len() && used[j] == sigs_used[i];
                assert(has_signed(s.signatures, used[j]));
            }
        }
    }
}

/// What is seen on the chain, and giving up, keep a session sound.
pub proof fn law_chain_keeps_session_sound(
    s: SessionView,
    txid: Txid,
    height: u64,
    block_hash: BlockHash,
    reason: InvalidationReason,
    words: Seq<char>,
)
    requires
        session_sound(s),
    ensures
        session_sound(broadcast_outcome(s, txid).0),
        session_sound(confirm_outcome(s, txid, height, block_hash).0),
        session_sound(invalidate_outcome(s, reason).0),
        session_sound(session_cancel_outcome(s, words).0),
{
    lemma_with_session_event(s, SessionEventView::BroadcastSeen { txid });
    lemma_with_session_event(s, SessionEventView::Confirmed { txid, height, block_hash });
    lemma_with_session_event(s, SessionEventView::Invalidated { reason });
    lemma_with_session_event(s, SessionEventView::Cancelled { reason: words });
}

/// Events are all there is to a session: a sound session is rebuilt from its events as it was.
pub proof fn law_hydration_rebuilds_session(s: SessionView)
    requires
        session_sound(s),
    ensures
        session_of(s.events) == Some(s),
{
}

/// Recording the document again has no effect, whatever the hash.
pub proof fn law_record_psbt_is_idempotent(s: SessionView, hash: PsbtHash, other: PsbtHash)
    requires
        psbt_created_outcome(s, hash).1 is Ok,
    ensures
        ({
            let after = psbt_created_outcome(s, hash).0;
            psbt_created_outcome(after, other) == (
                after,
                Ok::<Idempotent<()>, SessionFault>(Idempotent::AlreadyApplied),
            )
        }),
{
    lemma_with_session_event(s, SessionEventView::PsbtCreated { unsigned_psbt_hash: hash });
}

/// The first upload of a signer is final: another one, of whatever document, has no effect.
pub proof fn law_first_signature_is_final(
    s: SessionView,
    f: KeyFingerprint,
    hash: PsbtHash,
    other: PsbtHash,
)
    requires
        signature_outcome(s, f, hash).1 is Ok,
    ensures
        ({
            let after = signature_outcome(s, f, hash).0;
            signature_outcome(after, f, other) == (
                after,
                Ok::<Idempotent<()>, SessionFault>(Idempotent::AlreadyApplied),
            )
        }),
{
    lemma_with_session_event(
        s,
        SessionEventView::SignatureAdded { fingerprint: f, signed_psbt_hash: hash },
    );
}

/// A session is finalized once: trying again has no effect, whatever the transaction.
pub proof fn law_finalize_is_idempotent(
    s: SessionView,
    txid: Txid,
    final_tx_hash: PsbtHash,
    used: Seq<KeyFingerprint>,
    other_txid: Txid,
    other_hash: PsbtHash,
    other_used: Seq<KeyFingerprint>,
)
    requires
        finalize_outcome(s, txid, final_tx_hash, used).1 is Ok,
    ensures
        ({
            let after = finalize_outcome(s, txid, final_tx_hash, used).0;
            finalize_outcome(after, other_txid, other_hash, other_used) == (
                after,
                Ok::<Idempotent<Txid>, SessionFault>(Idempotent::AlreadyApplied),
            )
        }),
{
    lemma_with_session_event(
        s,
        SessionEventView::Finalized {
            txid,
            final_tx_hash,
            sigs_used: sorted_fingerprints(used),
        },
    );
}

/// Whatever is seen on the chain is recorded once: hearing of it again has no effect.
pub proof fn law_chain_observations_are_idempotent(
    s: SessionView,
    txid: Txid,
    height: u64,
    block_hash: BlockHash,
    reason: InvalidationReason,
)
    ensures
        broadcast_outcome(s, txid).1 is Ok ==> broadcast_outcome(broadcast_outcome(s, txid).0, txid)
            == (
            broadcast_outcome(s, txid).0,
            Ok::<Idempotent<()>, SessionFault>(Idempotent::AlreadyApplied),
        ),
        confirm_outcome(s, txid, height, block_hash).1 is Ok ==> confirm_outcome(
            confirm_outcome(s, txid, height, block_hash).0,
            txid,
            height,
            block_hash,
        ) == (
            confirm_outcome(s, txid, height, block_hash).0,
            Ok::<Idempotent<()>, SessionFault>(Idempotent::AlreadyApplied),
        ),
        invalidate_outcome(s, reason).1 is Ok ==> invalidate_outcome(
            invalidate_outcome(s, reason).0,
            reason,
        ) == (
            invalidate_outcome(s, reason).0,
            Ok::<Idempotent<()>, SessionFault>(Idempotent::AlreadyApplied),
        ),
{
    lemma_with_session_event(s, SessionEventView::BroadcastSeen { txid });
    lemma_with_session_event(s, SessionEventView::Confirmed { txid, height, block_hash });
    lemma_with_session_event(s, SessionEventView::Invalidated { reason });
}

/// Giving up a second time has no effect.
pub proof fn law_session_cancel_is_idempotent(s: SessionView, reason: Seq<char>, again: Seq<char>)
    requires
        session_cancel_outcome(s, reason).1 is Ok,
    ensures
        ({
            let after = session_cancel_outcome(s, reason).0;
            session_cancel_outcome(after, again) == (
                after,
                Ok::<Idempotent<()>, SessionFault>(Idempotent::AlreadyApplied),
            )
        }),
{
    lemma_with_session_event(s, SessionEventView::Cancelled { reason });
}

/// A transaction that a reorganization took out of the chain can be confirmed again: after a
/// confirmation an invalidation takes effect, and after it the next confirmation does.
pub proof fn law_reconfirmation_takes_effect(
    s: SessionView,
    txid: Txid,
    height: u64,
    block_hash: BlockHash,
    reason: InvalidationReason,
    new_height: u64,
    new_block_hash: BlockHash,
)
    requires
        confirm_outcome(s, txid, height, block_hash).1 == Ok::<Idempotent<()>, SessionFault>(
            Idempotent::Executed(()),
        ),
    ensures
        ({
            let confirmed = confirm_outcome(s, txid, height, block_hash).0;
            let taken_back = invalidate_outcome(confirmed, reason).0;
            let again = confirm_outcome(taken_back, txid, new_height, new_block_hash).0;
            &&& session_status(confirmed.events) == PsbtSessionStatus::Confirmed
            &&& invalidate_outcome(confirmed, reason).1 == Ok::<Idempotent<()>, SessionFault>(
                Idempotent::Executed(()),
            )
            &&& session_status(taken_back.events) == PsbtSessionStatus::Invalidated
            &&& confirm_outcome(taken_back, txid, new_height, new_block_hash).1 == Ok::<
                Idempotent<()>,
                SessionFault,
            >(Idempotent::Executed(()))
            &&& session_status(again.events) == PsbtSessionStatus::Confirmed
        }),
{
    let confirmed = confirm_outcome(s, txid, height, block_hash).0;
    lemma_with_session_event(s, SessionEventView::Confirmed { txid, height, block_hash });
    lemma_with_session_event(confirmed, SessionEventView::Invalidated { reason });
    let taken_back = invalidate_outcome(confirmed, reason).0;
    lemma_with_session_event(
        taken_back,
        SessionEventView::Confirmed {
            txid,
            height: new_height,
            block_hash: new_block_hash,
        },
    );
}

/// After finalization no signature is accepted from a signer who had not signed, and no new
/// document.
pub proof fn law_finalized_session_is_settled(
    s: SessionView,
    f: KeyFingerprint,
    hash: PsbtHash,
)
    requires
        session_sound(s),
        s.finalization is Some,
    ensures
        signature_outcome(s, f, hash) == (
            s,
            if has_signed(s.signatures, f) {
                Ok::<Idempotent<()>, SessionFault>(Idempotent::AlreadyApplied)
            } else {
                Err::<Idempotent<()>, SessionFault>(SessionFault::NotCollecting(s.id))
            },
        ),
        psbt_created_outcome(s, hash) == (
            s,
            Ok::<Idempotent<()>, SessionFault>(Idempotent::AlreadyApplied),
        ),
{
    assert(signature_was_added(s.events, f) == has_signed(s.signatures, f));
}

/// Once the final transaction is out, whether just seen or in a block, giving up has no effect.
pub proof fn law_no_cancel_after_broadcast(s: SessionView, reason: Seq<char>)
    requires
        session_status(s.events) == PsbtSessionStatus::Broadcast || session_status(s.events)
            == PsbtSessionStatus::Confirmed,
    ensures
        session_cancel_outcome(s, reason).0 == s,
{
}

/// A sound session that collects signatures counts each signer once, so the collected
/// signatures never outnumber the keystores.
pub proof fn law_signatures_do_not_outnumber_keystores(s: SessionView)
    requires
        session_sound(s),
    ensures
        s.signatures.len() <= s.keystores.len(),
{
    let signers = Seq::new(s.signatures.len(), |i: int| s.signatures[i].fingerprint);
    assert(signers.no_duplicates()) by {
        assert forall|i: int, j: int|
            0 <= i < signers.len() && 0 <= j < signers.len() && i != j implies signers[i]
            != signers[j] by {
            if i < j {
                assert(s.signatures[i].fingerprint != s.signatures[j].fingerprint);
            } else {
                assert(s.signatures[j].fingerprint != s.signatures[i].fingerprint);
            }
        }
    }
    assert forall|f: KeyFingerprint| signers.to_set().contains(f) implies s.keystores.to_set(
    ).contains(f) by {
        let i = choose|i: int| 0 <= i < signers.len() && signers[i] == f;
        assert(s.keystores.contains(s.signatures[i].fingerprint));
    }
    signers.unique_seq_to_set();
    s.keystores.unique_seq_to_set();
    vstd::set_lib::lemma_len_subset(signers.to_set(), s.keystores.to_set());
}

/// The coin that is reported as repeated is one that is named twice, and the least of those;
/// none is reported exactly when all are distinct.
pub proof fn law_least_repeated(inputs: Seq<OutPointRef>)
    ensures
        match least_repeated(inputs) {
            None => inputs.no_duplicates(),
            Some(o) => {
                &&& exists|i: int, j: int|
                    0 <= i < j < inputs.len() && inputs[i] == o && inputs[j] == o
                &&& forall|i: int, j: int|
                    0 <= i < j < inputs.len() && #[trigger] inputs[i] == #[trigger] inputs[j]
                        ==> !outpoint_less(inputs[i], o)
            },
        },
    decreases inputs.len(),
{
    if inputs.len() > 0 {
        let init = inputs.drop_last();
        let last = inputs.last();
        let n = inputs.len() - 1;
        law_least_repeated(init);
        assert forall|i: int| 0 <= i < n implies #[trigger] inputs[i] == init[i] by {}
        if !init.contains(last) {
            match least_repeated(init) {
                None => {
                    assert forall|i: int, j: int|
                        0 <= i < inputs.len() && 0 <= j < inputs.len() && i
                            != j implies inputs[i] != inputs[j] by {
                        if i < n && j < n {
                            assert(init[i] != init[j]);
                        } else if i < n {
                            assert(init[i] != last);
                        } else {
                            assert(init[j] != last);
                        }
                    }
                },
                Some(o) => {
                    let (i, j) = choose|i: int, j: int|
                        0 <= i < j < init.len() && init[i] == o && init[j] == o;
                    assert(inputs[i] == o && inputs[j] == o);
                    assert forall|i: int, j: int|
                        0 <= i < j < inputs.len() && #[trigger] inputs[i]
                            == #[trigger] inputs[j] implies !outpoint_less(inputs[i], o) by {
                        assert(init[i] == inputs[i]);
                        if j < n {
                            assert(init[j] == inputs[j]);
                        }
                    }
                },
            }
        } else {
            let k = choose|k: int| 0 <= k < init.len() && init[k] == last;
            assert(inputs[k] == last && inputs[n] == last);
            let o = least_repeated(inputs)->0;
            match least_repeated(init) {
                None => {
                    assert forall|i: int, j: int|
                        0 <= i < j < inputs.len() && #[trigger] inputs[i]
                            == #[trigger] inputs[j] implies !outpoint_less(inputs[i], o) by {
                        if j < n {
                            assert(init[i] != init[j]);
                        }
                        lemma_outpoint_irreflexive(last);
                    }
                },
                Some(b) => {
                    let (x, y) = choose|i: int, j: int|
                        0 <= i < j < init.len() && init[i] == b && init[j] == b;
                    assert(inputs[x] == b && inputs[y] == b);
                    assert forall|i: int, j: int|
                        0 <= i < j < inputs.len() && #[trigger] inputs[i]
                            == #[trigger] inputs[j] implies !outpoint_less(inputs[i], o) by {
                        if j < n {
                            assert(init[i] == init[j]);
                            assert(!outpoint_less(init[i], b));
                            if o == last {
                                lemma_outpoint_below(init[i], b, last);
                            }
                        } else {
                            lemma_outpoint_irreflexive(last);
                            if o == b && outpoint_less(last, b) {
                                lemma_outpoint_transitive(last, b, last);
                            }
                        }
                    }
                },
            }
        }
    }
}

proof fn lemma_outpoint_irreflexive(a: OutPointRef)
    ensures
        !outpoint_less(a, a),
{
    lemma_bytes_less_irreflexive(a.txid@);
}

proof fn lemma_outpoint_transitive(a: OutPointRef, b: OutPointRef, c: OutPointRef)
    requires
        outpoint_less(a, b),
        outpoint_less(b, c),
    ensures
        outpoint_less(a, c),
{
    if bytes_less_ids(a, b) && bytes_less_ids(b, c) {
        lemma_bytes_less_transitive(a.txid@, b.txid@, c.txid@);
    }
}

spec fn bytes_less_ids(a: OutPointRef, b: OutPointRef) -> bool {
    crate::bytes::bytes_less(a.txid@, b.txid@)
}

/// What is not below one coin is not below a coin that does not come after that one.
proof fn lemma_outpoint_below(x: OutPointRef, b: OutPointRef, l: OutPointRef)
    requires
        !outpoint_less(x, b),
        !outpoint_less(b, l),
    ensures
        !outpoint_less(x, l),
{
    if outpoint_less(x, l) {
        if outpoint_less(l, b) {
            lemma_outpoint_transitive(x, l, b);
        } else {
            if l.txid@ != b.txid@ {
                lemma_bytes_less_total(l.txid@, b.txid@);
            } else {
                assert(l.txid.0 =~= b.txid.0);
            }
            assert(l == b);
        }
    }
}

/// Whether the events of a session continue those that it had.
pub open spec fn session_history_kept(before: SessionView, after: SessionView) -> bool {
    &&& before.events.len() <= after.events.len()
    &&& after.events.take(before.events.len() as int) == before.events
}

/// The record is never rewritten: whatever users ask of a session, its events are only added to.
pub proof fn law_session_history_is_kept_by_users(
    s: SessionView,
    hash: PsbtHash,
    f: KeyFingerprint,
    txid: Txid,
    used: Seq<KeyFingerprint>,
    reason: Seq<char>,
)
    ensures
        session_history_kept(s, psbt_created_outcome(s, hash).0),
        session_history_kept(s, signature_outcome(s, f, hash).0),
        session_history_kept(s, finalize_outcome(s, txid, hash, used).0),
        session_history_kept(s, session_cancel_outcome(s, reason).0),
{
    let n = s.events.len() as int;
    assert(psbt_created_outcome(s, hash).0.events.take(n) =~= s.events);
    assert(signature_outcome(s, f, hash).0.events.take(n) =~= s.events);
    assert(finalize_outcome(s, txid, hash, used).0.events.take(n) =~= s.events);
    assert(session_cancel_outcome(s, reason).0.events.take(n) =~= s.events);
}

/// The record is never rewritten: whatever is seen on the chain, the events are only added to.
pub proof fn law_session_history_is_kept_by_the_chain(
    s: SessionView,
    txid: Txid,
    height: u64,
    block_hash: BlockHash,
    reason: InvalidationReason,
)
    ensures
        session_history_kept(s, broadcast_outcome(s, txid).0),
        session_history_kept(s, confirm_outcome(s, txid, height, block_hash).0),
        session_history_kept(s, invalidate_outcome(s, reason).0),
{
    let n = s.events.len() as int;
    assert(broadcast_outcome(s, txid).0.events.take(n) =~= s.events);
    assert(confirm_outcome(s, txid, height, block_hash).0.events.take(n) =~= s.events);
    assert(invalidate_outcome(s, reason).0.events.take(n) =~= s.events);
}

/// What is refused leaves no trace: after any error a session is as it was.
pub proof fn law_refusal_leaves_session_unchanged(
    s: SessionView,
    hash: PsbtHash,
    f: KeyFingerprint,
    txid: Txid,
    used: Seq<KeyFingerprint>,
    height: u64,
    block_hash: BlockHash,
    why: InvalidationReason,
    reason: Seq<char>,
)
    ensures
        psbt_created_outcome(s, hash).1 is Err ==> psbt_created_outcome(s, hash).0 == s,
        signature_outcome(s, f, hash).1 is Err ==> signature_outcome(s, f, hash).0 == s,
        finalize_outcome(s, txid, hash, used).1 is Err ==> finalize_outcome(s, txid, hash, used).0
            == s,
        broadcast_outcome(s, txid).1 is Err ==> broadcast_outcome(s, txid).0 == s,
        confirm_outcome(s, txid, height, block_hash).1 is Err ==> confirm_outcome(
            s,
            txid,
            height,
            block_hash,
        ).0 == s,
        invalidate_outcome(s, why).1 is Err ==> invalidate_outcome(s, why).0 == s,
        session_cancel_outcome(s, reason).1 is Err ==> session_cancel_outcome(s, reason).0 == s,
{
}

/// Outputs without a fault each have an address of the network and are no dust.
proof fn lemma_outputs_good(
    spend: SpendSpecView,
    network: Network,
    checks: Seq<Result<u64, Seq<char>>>,
    n: nat,
)
    requires
        outputs_fault(spend.outputs, network, checks, n) is None,
    ensures
        forall|i: int|
            0 <= i < n ==> (#[trigger] checks[i]) is Ok && spend.outputs[i].amount_sats
                >= checks[i]->Ok_0,
    decreases n,
{
    if n > 0 {
        lemma_outputs_good(spend, network, checks, (n - 1) as nat);
    }
}

/// What a good proposal is: it is made on an active wallet, names at least one coin and none
/// twice, pays at least one output and only to addresses of the wallet's network, no output or
/// change of it is dust, and its fee is within the cap.
pub proof fn law_good_proposal(
    wallet: WalletView,
    spend: SpendSpecView,
    checks: Seq<Result<u64, Seq<char>>>,
    change_dust: u64,
)
    requires
        proposal_fault(wallet, spend, checks, change_dust) is None,
    ensures
        wallet_status(wallet.events) == WalletStatus::Active,
        spend.inputs.len() > 0,
        spend.inputs.no_duplicates(),
        spend.outputs.len() > 0,
        forall|i: int|
            0 <= i < spend.outputs.len() ==> (#[trigger] checks[i]) is Ok
                && spend.outputs[i].amount_sats >= checks[i]->Ok_0,
        spend.change_output is Some ==> (spend.change_output->0).amount_sats >= change_dust,
        spend.fee_sats <= MAX_FEE_SATS,
{
    law_least_repeated(spend.inputs);
    lemma_outputs_good(spend, wallet.network, checks, spend.outputs.len());
}

/// A confirmation is decided by the final transaction and the status: without a final transaction
/// or for another one it is refused, on a confirmed session it is old news, and else it takes
/// effect, also after an invalidation. Only then does the session change, and never its final
/// transaction.
pub proof fn law_confirmation_follows_status(
    s: SessionView,
    txid: Txid,
    height: u64,
    block_hash: BlockHash,
)
    requires
        session_sound(s),
    ensures
        ({
            let (after, answer) = confirm_outcome(s, txid, height, block_hash);
            match s.finalization {
                None => after == s && answer == Err::<Idempotent<()>, SessionFault>(
                    SessionFault::NotFinalized(s.id),
                ),
                Some(f) => if f.txid != txid {
                    after == s && answer == Err::<Idempotent<()>, SessionFault>(
                        SessionFault::TxidMismatch,
                    )
                } else if session_status(s.events) == PsbtSessionStatus::Confirmed {
                    after == s && answer == Ok::<Idempotent<()>, SessionFault>(
                        Idempotent::AlreadyApplied,
                    )
                } else {
                    &&& answer == Ok::<Idempotent<()>, SessionFault>(Idempotent::Executed(()))
                    &&& session_status(after.events) == PsbtSessionStatus::Confirmed
                    &&& after.finalization == s.finalization
                },
            }
        }),
{
    lemma_with_session_event(s, SessionEventView::Confirmed { txid, height, block_hash });
}

} // verus!
