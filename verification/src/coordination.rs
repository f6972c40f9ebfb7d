//! What the platform does for its users, as far as one wallet, one session and the store are
//! concerned.
//!
//! Who a user is has been settled before. What is settled here is what binds a user to a
//! keystore: the fingerprint to which a signature is attributed is that of the keystore which
//! the user submitted, never one that a client names.

use vstd::prelude::*;

use crate::address::dust_limit;
use crate::jobs::error::JobsFault;
use crate::jobs::finalization::loaded;
use crate::primitives::{
    content_hash, lemma_content_hash, sha256, Idempotent, KeyFingerprint, PsbtHash, PsbtSessionId, UserId,
    WalletId,
};
use crate::psbt::codec::{encode, Psbt, PsbtView};
use crate::psbt::laws::{law_accepted_merge_verifies, law_accepted_submission};
use crate::psbt::merge::{merge, merge_partial_sigs};
use crate::psbt::validation::{
    extracted_views, merged_outcome, parse_outcome, parse_psbt, submission_outcome, validate_signed_submission,
    verdicts_on, ExtractedSignature, ExtractedView, PsbtValidationError, ValidationFault,
};
use crate::psbt_session::conflicts::{
    claims, conflicting_inputs, conflicts, law_conflicts_are_claimed_coins, session_views,
};
use crate::psbt_session::entity::{
    session_status, signature_outcome, PsbtSession, SessionView,
};
use crate::psbt_session::error::{PsbtSessionError, SessionFault};
use crate::psbt_session::primitives::{
    OutPointRef, PsbtSessionStatus, SpendSpec, SpendSpecView,
};
use crate::psbt_session::proposal::{
    output_checks, p2wsh_script, proposal, proposal_fault, NewPsbtSession, NewSessionView,
};
use crate::psbt_session::rules::law_conflicts_are_coins_of_live_sessions;
use crate::storage::{fetch_verified, fetched, stored, BlobFetchError, BlobStore};
use crate::wallet::entity::{
    submission_of, wallet_activation, wallet_submissions, Wallet, WalletEventView, WalletView,
};
use crate::wallet::error::{WalletError, WalletFault};

verus! {

/// Why the platform refuses.
#[derive(Debug)]
pub enum CoordinationError {
    /// The wallet refused.
    Wallet(WalletError),
    /// The session refused.
    PsbtSession(PsbtSessionError),
    /// A document is no good.
    PsbtValidation(PsbtValidationError),
    /// The user has no keystore in the wallet.
    SignerNotBound { wallet_id: WalletId, user_id: UserId },
    /// The session has no unsigned document yet.
    UnsignedPsbtNotReady(PsbtSessionId),
    /// A stored document cannot be had.
    BlobFetch(BlobFetchError),
    /// Other live sessions of the wallet lay claim to these coins.
    ConflictingInputs(Vec<OutPointRef>),
}

/// What a [`CoordinationError`] says.
pub enum CoordinationFault {
    Wallet(WalletFault),
    PsbtSession(SessionFault),
    PsbtValidation(ValidationFault),
    SignerNotBound { wallet_id: WalletId, user_id: UserId },
    UnsignedPsbtNotReady(PsbtSessionId),
    BlobFetch(BlobFetchError),
    ConflictingInputs(Seq<OutPointRef>),
}

impl View for CoordinationError {
    type V = CoordinationFault;

    open spec fn view(&self) -> CoordinationFault {
        match *self {
            CoordinationError::Wallet(e) => CoordinationFault::Wallet(e@),
            CoordinationError::PsbtSession(e) => CoordinationFault::PsbtSession(e@),
            CoordinationError::PsbtValidation(e) => CoordinationFault::PsbtValidation(e@),
            CoordinationError::SignerNotBound { wallet_id, user_id } =>
                CoordinationFault::SignerNotBound { wallet_id, user_id },
            CoordinationError::UnsignedPsbtNotReady(id) =>
                CoordinationFault::UnsignedPsbtNotReady(id),
            CoordinationError::BlobFetch(e) => CoordinationFault::BlobFetch(e),
            CoordinationError::ConflictingInputs(o) => CoordinationFault::ConflictingInputs(o@),
        }
    }
}

/// What comes of proposing a spend, given what is wrong with the proposal as such, if anything:
/// coins to which other sessions of the wallet lay claim come first.
pub open spec fn propose_outcome(
    sessions: Seq<SessionView>,
    id: PsbtSessionId,
    wallet: WalletView,
    proposed_by: UserId,
    spend: SpendSpecView,
    fault: Option<SessionFault>,
) -> Result<NewSessionView, CoordinationFault> {
    let claimed = conflicts(sessions, spend.inputs, sessions.len());
    if claimed.len() > 0 {
        Err(CoordinationFault::ConflictingInputs(claimed))
    } else {
        match fault {
            Some(e) => Err(CoordinationFault::PsbtSession(e)),
            None => Ok(proposal(id, wallet, proposed_by, spend)),
        }
    }
}

/// Proposes a spend on a wallet that has these sessions.
///
/// Two live proposals that spend the same coin would race each other, and one of them could
/// never confirm. So a spend of coins to which another session lays claim is refused.
pub fn propose_spend(
    sessions: &Vec<PsbtSession>,
    id: PsbtSessionId,
    wallet: &Wallet,
    proposed_by: UserId,
    spend: SpendSpec,
) -> (r: Result<NewPsbtSession, CoordinationError>)
    ensures
        ({
            let fault = proposal_fault(
                wallet@,
                spend@,
                output_checks(spend@.outputs, wallet@.network),
                dust_limit(p2wsh_script()) as u64,
            );
            let outcome = propose_outcome(
                session_views(sessions@),
                id,
                wallet@,
                proposed_by,
                spend@,
                fault,
            );
            match r {
                Ok(p) => outcome == Ok::<NewSessionView, CoordinationFault>(p@),
                Err(e) => outcome == Err::<NewSessionView, CoordinationFault>(e@),
            }
        }),
{
    let claimed: Vec<OutPointRef> = conflicting_inputs(sessions, &spend.inputs);
    if claimed.len() > 0 {
        return Err(CoordinationError::ConflictingInputs(claimed));
    }
    match NewPsbtSession::try_new(id, wallet, proposed_by, spend) {
        Ok(p) => Ok(p),
        Err(e) => Err(CoordinationError::PsbtSession(e)),
    }
}

/// No coin is claimed twice: a spend that is proposed names no coin to which a live session of
/// the wallet lays claim.
pub proof fn law_proposed_coins_are_free(
    sessions: Seq<SessionView>,
    id: PsbtSessionId,
    wallet: WalletView,
    proposed_by: UserId,
    spend: SpendSpecView,
    fault: Option<SessionFault>,
    s: int,
    o: OutPointRef,
)
    requires
        propose_outcome(sessions, id, wallet, proposed_by, spend, fault) is Ok,
        0 <= s < sessions.len(),
        spend.inputs.contains(o),
    ensures
        !claims(sessions[s], o),
{
    law_conflicts_are_claimed_coins(sessions, spend.inputs, sessions.len());
    let claimed = conflicts(sessions, spend.inputs, sessions.len());
    if claims(sessions[s], o) {
        assert(claimed.contains(o));
    }
}

/// The unsigned document of a session, as stored; or why it cannot be had.
pub open spec fn unsigned_bytes(s: SessionView, blobs: Map<PsbtHash, Seq<u8>>) -> Result<
    Seq<u8>,
    CoordinationFault,
> {
    match s.unsigned_psbt_hash {
        None => Err(CoordinationFault::UnsignedPsbtNotReady(s.id)),
        Some(hash) => match fetched(hash, stored(blobs, hash)) {
            Ok(b) => Ok(b),
            Err(e) => Err(CoordinationFault::BlobFetch(e)),
        },
    }
}

/// The unsigned document of a session, for signers to sign.
pub fn unsigned_psbt<B: BlobStore>(session: &PsbtSession, blobs: &B) -> (r: Result<
    Vec<u8>,
    CoordinationError,
>)
    ensures
        match r {
            Ok(b) => unsigned_bytes(session@, blobs.blobs()) == Ok::<Seq<u8>, CoordinationFault>(
                b@,
            ),
            Err(e) => unsigned_bytes(session@, blobs.blobs()) == Err::<Seq<u8>, CoordinationFault>(
                e@,
            ),
        },
{
    match session.unsigned_psbt_hash() {
        None => Err(CoordinationError::UnsignedPsbtNotReady(session.id())),
        Some(hash) => match fetch_verified(blobs, &hash) {
            Ok(b) => Ok(b),
            Err(e) => Err(CoordinationError::BlobFetch(e)),
        },
    }
}

/// The keystore to which what a user signs is attributed: the one that the user submitted to the
/// wallet.
pub open spec fn signer_of(w: WalletView, user: UserId) -> Result<
    KeyFingerprint,
    CoordinationFault,
> {
    match submission_of(wallet_submissions(w.events), user) {
        Some(k) => Ok(k.fingerprint),
        None => Err(CoordinationFault::SignerNotBound { wallet_id: w.id, user_id: user }),
    }
}

/// What comes of recording the validated signatures of a signer: the original with them put in
/// is stored, and its address recorded.
pub open spec fn signature_recorded(
    s: SessionView,
    blobs: Map<PsbtHash, Seq<u8>>,
    signer: KeyFingerprint,
    original: PsbtView,
    sigs: Seq<ExtractedView>,
) -> (SessionView, Map<PsbtHash, Seq<u8>>, Result<Idempotent<()>, CoordinationFault>) {
    let merged = encode(merge(original, sigs));
    let hash = content_hash(merged);
    let (after, answer) = signature_outcome(s, signer, hash);
    (
        after,
        blobs.insert(hash, merged),
        match answer {
            Ok(i) => Ok(i),
            Err(e) => Err(CoordinationFault::PsbtSession(e)),
        },
    )
}

/// What comes of a submitted document: the session and the store after it, and the answer.
pub open spec fn submit_outcome(
    s: SessionView,
    w: WalletView,
    blobs: Map<PsbtHash, Seq<u8>>,
    user: UserId,
    submitted: Seq<u8>,
) -> (SessionView, Map<PsbtHash, Seq<u8>>, Result<Idempotent<()>, CoordinationFault>) {
    match signer_of(w, user) {
        Err(e) => (s, blobs, Err(e)),
        Ok(signer) => match unsigned_bytes(s, blobs) {
            Err(e) => (s, blobs, Err(e)),
            Ok(bytes) => match parse_outcome(bytes) {
                Err(e) => (s, blobs, Err(CoordinationFault::PsbtValidation(e))),
                Ok(original) => match parse_outcome(submitted) {
                    Err(e) => (s, blobs, Err(CoordinationFault::PsbtValidation(e))),
                    Ok(signed) => match submission_outcome(
                        original,
                        signed,
                        signer,
                        verdicts_on(original, signed, Some(signer)),
                    ) {
                        Err(e) => (s, blobs, Err(CoordinationFault::PsbtValidation(e))),
                        Ok(sigs) => signature_recorded(s, blobs, signer, original, sigs),
                    },
                },
            },
        },
    }
}

/// Stores the original document with validated signatures of a signer put in, and records it.
pub fn record_signatures<B: BlobStore>(
    session: &mut PsbtSession,
    blobs: &mut B,
    signer: KeyFingerprint,
    original: &Psbt,
    sigs: &[ExtractedSignature],
) -> (r: Result<Idempotent<()>, CoordinationError>)
    requires
        forall|i: int|
            0 <= i < sigs@.len() ==> (#[trigger] sigs@[i]).input_index < original@.inputs.len(),
    ensures
        ({
            let (after, store, answer) = signature_recorded(
                old(session)@,
                old(blobs).blobs(),
                signer,
                original@,
                extracted_views(sigs@),
            );
            &&& final(session)@ == after
            &&& final(blobs).blobs() == store
            &&& match r {
                Ok(i) => answer == Ok::<Idempotent<()>, CoordinationFault>(i),
                Err(e) => answer == Err::<Idempotent<()>, CoordinationFault>(e@),
            }
        }),
{
    let merged: Vec<u8> = merge_partial_sigs(original, sigs).serialize();
    let hash: PsbtHash = blobs.put(merged.as_slice());
    proof {
        lemma_content_hash(hash, merged@);
    }
    match session.add_signature(signer, hash) {
        Ok(i) => Ok(i),
        Err(e) => Err(CoordinationError::PsbtSession(e)),
    }
}

/// Takes in the document that a participant signed.
///
/// The signer is the keystore that the user submitted to the wallet. The document is validated
/// against the unsigned one; what is stored is the unsigned one with the validated signatures
/// put in, never what was submitted.
pub fn submit_signed_psbt<B: BlobStore>(
    session: &mut PsbtSession,
    wallet: &Wallet,
    blobs: &mut B,
    submitted_by: UserId,
    signed_psbt: &[u8],
) -> (r: Result<Idempotent<()>, CoordinationError>)
    ensures
        ({
            let (after, store, answer) = submit_outcome(
                old(session)@,
                wallet@,
                old(blobs).blobs(),
                submitted_by,
                signed_psbt@,
            );
            &&& final(session)@ == after
            &&& final(blobs).blobs() == store
            &&& match r {
                Ok(i) => answer == Ok::<Idempotent<()>, CoordinationFault>(i),
                Err(e) => answer == Err::<Idempotent<()>, CoordinationFault>(e@),
            }
        }),
{
    let signer: KeyFingerprint = match wallet.keystore_fingerprint_of(submitted_by) {
        Some(f) => f,
        None => {
            return Err(
                CoordinationError::SignerNotBound {
                    wallet_id: wallet.id(),
                    user_id: submitted_by,
                },
            );
        },
    };
    let bytes: Vec<u8> = match unsigned_psbt(session, blobs) {
        Ok(b) => b,
        Err(e) => {
            return Err(e);
        },
    };
    let original: Psbt = match parse_psbt(bytes.as_slice()) {
        Ok(p) => p,
        Err(e) => {
            return Err(CoordinationError::PsbtValidation(e));
        },
    };
    let signed: Psbt = match parse_psbt(signed_psbt) {
        Ok(p) => p,
        Err(e) => {
            return Err(CoordinationError::PsbtValidation(e));
        },
    };
    match validate_signed_submission(&original, &signed, &signer) {
        Err(e) => Err(CoordinationError::PsbtValidation(e)),
        Ok(sigs) => {
            proof {
                law_accepted_submission(
                    original@,
                    signed@,
                    signer,
                    verdicts_on(original@, signed@, Some(signer)),
                );
                assert forall|i: int| 0 <= i < sigs@.len() implies (
                #[trigger] sigs@[i]).input_index < original@.inputs.len() by {
                    assert(extracted_views(sigs@)[i].input_index < original@.inputs.len());
                }
            }
            record_signatures(session, blobs, signer, &original, sigs.as_slice())
        },
    }
}

/// What is answered when storing a wallet failed, given the wallet that is stored under the same
/// descriptor, if any: that wallet, where it is another one.
pub open spec fn resolved(w: WalletView, existing: Option<WalletView>) -> Option<WalletView> {
    if wallet_activation(w.events) is Some && existing is Some && (existing->0).id != w.id {
        existing
    } else {
        None
    }
}

/// Settles what a wallet that could not be stored is to be taken for.
///
/// A wallet whose descriptor is another wallet's is that wallet: importing it twice finds the
/// one that is there. Where it is not so, the failure to store it stands, and nothing is
/// returned.
pub fn resolve_fingerprint_collision(wallet: &Wallet, existing: Option<Wallet>) -> (r: Option<
    Wallet,
>)
    ensures
        ({
            let found: Option<WalletView> = match existing {
                Some(w) => Some(w@),
                None => None,
            };
            match r {
                Some(w) => resolved(wallet@, found) == Some(w@),
                None => resolved(wallet@, found) is None,
            }
        }),
{
    match wallet.descriptor_fingerprint() {
        None => None,
        Some(_) => match existing {
            None => None,
            Some(w) => if w.id() != wallet.id() {
                Some(w)
            } else {
                None
            },
        },
    }
}

/// A signature is attributed to the keystore that the user submitted: where a document is taken
/// in, the session gains at most a signature under the fingerprint of that keystore.
pub proof fn law_signature_is_attributed_to_submitter(
    s: SessionView,
    w: WalletView,
    blobs: Map<PsbtHash, Seq<u8>>,
    user: UserId,
    submitted: Seq<u8>,
)
    ensures
        ({
            let (after, store, answer) = submit_outcome(s, w, blobs, user, submitted);
            after.signatures == s.signatures || {
                &&& submission_of(wallet_submissions(w.events), user) is Some
                &&& after.signatures.len() == s.signatures.len() + 1
                &&& after.signatures.drop_last() == s.signatures
                &&& after.signatures.last().fingerprint == (submission_of(
                    wallet_submissions(w.events),
                    user,
                )->0).fingerprint
            }
        }),
{
    let (after, store, answer) = submit_outcome(s, w, blobs, user, submitted);
    if after.signatures != s.signatures {
        assert(after.signatures.drop_last() =~= s.signatures);
    }
}

/// What was refused leaves no trace in the session: after any error it is as it was.
pub proof fn law_refused_submission_changes_nothing(
    s: SessionView,
    w: WalletView,
    blobs: Map<PsbtHash, Seq<u8>>,
    user: UserId,
    submitted: Seq<u8>,
)
    requires
        submit_outcome(s, w, blobs, user, submitted).2 is Err,
    ensures
        submit_outcome(s, w, blobs, user, submitted).0 == s,
{
}

/// What is stored of an accepted submission serves finalization: where the bytes that were stored
/// are read as the document that was written, that document is found under its address and passes
/// the check which precedes finalization.
pub proof fn law_stored_submission_is_found_good(
    s: SessionView,
    w: WalletView,
    blobs: Map<PsbtHash, Seq<u8>>,
    user: UserId,
    submitted: Seq<u8>,
    hash: PsbtHash,
)
    requires
        signer_of(w, user) is Ok,
        unsigned_bytes(s, blobs) is Ok,
        parse_outcome(unsigned_bytes(s, blobs)->Ok_0) is Ok,
        parse_outcome(submitted) is Ok,
        ({
            let signer = signer_of(w, user)->Ok_0;
            let original = parse_outcome(unsigned_bytes(s, blobs)->Ok_0)->Ok_0;
            let signed = parse_outcome(submitted)->Ok_0;
            let outcome = submission_outcome(
                original,
                signed,
                signer,
                verdicts_on(original, signed, Some(signer)),
            );
            let merged = merge(original, outcome->Ok_0);
            &&& outcome is Ok
            &&& parse_outcome(encode(merged)) == Ok::<PsbtView, ValidationFault>(merged)
            &&& hash@ == sha256(encode(merged))
        }),
    ensures
        ({
            let signer = signer_of(w, user)->Ok_0;
            let original = parse_outcome(unsigned_bytes(s, blobs)->Ok_0)->Ok_0;
            let signed = parse_outcome(submitted)->Ok_0;
            let outcome = submission_outcome(
                original,
                signed,
                signer,
                verdicts_on(original, signed, Some(signer)),
            );
            let merged = merge(original, outcome->Ok_0);
            let store = submit_outcome(s, w, blobs, user, submitted).1;
            &&& loaded(store, hash) == Ok::<PsbtView, JobsFault>(merged)
            &&& merged_outcome(original, merged, verdicts_on(original, merged, None)) == Ok::<
                (),
                ValidationFault,
            >(())
        }),
{
    let signer = signer_of(w, user)->Ok_0;
    let original = parse_outcome(unsigned_bytes(s, blobs)->Ok_0)->Ok_0;
    let signed = parse_outcome(submitted)->Ok_0;
    let sigs = submission_outcome(
        original,
        signed,
        signer,
        verdicts_on(original, signed, Some(signer)),
    )->Ok_0;
    lemma_content_hash(hash, encode(merge(original, sigs)));
    law_accepted_merge_verifies(original, signed, signer);
}

/// What comes of proposing a spend on a wallet that has sessions. Where a session that is neither
/// given up nor invalidated names one of its coins, the coins in conflict are the answer; else a
/// fault of the proposal is, and else the proposal records the spend as it was given.
pub proof fn law_free_coins_can_be_proposed(
    sessions: Seq<SessionView>,
    id: PsbtSessionId,
    wallet: WalletView,
    proposed_by: UserId,
    spend: SpendSpecView,
    fault: Option<SessionFault>,
)
    ensures
        ({
            let outcome = propose_outcome(sessions, id, wallet, proposed_by, spend, fault);
            let in_conflict = |o: OutPointRef|
                spend.inputs.contains(o) && exists|i: int|
                    0 <= i < sessions.len() && (#[trigger] sessions[i]).inputs.contains(o)
                        && session_status(sessions[i].events) != PsbtSessionStatus::Cancelled
                        && session_status(sessions[i].events) != PsbtSessionStatus::Invalidated;
            if exists|o: OutPointRef| #[trigger] in_conflict(o) {
                &&& outcome is Err
                &&& outcome->Err_0 is ConflictingInputs
                &&& forall|o: OutPointRef| #[trigger]
                    (outcome->Err_0->ConflictingInputs_0).contains(o) <==> in_conflict(o)
            } else {
                match fault {
                    Some(e) => outcome == Err::<NewSessionView, CoordinationFault>(
                        CoordinationFault::PsbtSession(e),
                    ),
                    None => {
                        &&& outcome is Ok
                        &&& (outcome->Ok_0).id == id
                        &&& (outcome->Ok_0).wallet_id == wallet.id
                        &&& (outcome->Ok_0).proposed_by == proposed_by
                        &&& (outcome->Ok_0).spend == spend
                        &&& (outcome->Ok_0).threshold == wallet.threshold
                    },
                }
            }
        }),
{
    law_conflicts_are_coins_of_live_sessions(sessions, spend.inputs);
    let claimed = conflicts(sessions, spend.inputs, sessions.len());
    let in_conflict = |o: OutPointRef|
        spend.inputs.contains(o) && exists|i: int|
            0 <= i < sessions.len() && (#[trigger] sessions[i]).inputs.contains(o)
                && session_status(sessions[i].events) != PsbtSessionStatus::Cancelled
                && session_status(sessions[i].events) != PsbtSessionStatus::Invalidated;
    assert forall|o: OutPointRef| claimed.contains(o) <==> #[trigger] in_conflict(o) by {}
    if exists|o: OutPointRef| #[trigger] in_conflict(o) {
        let o = choose|o: OutPointRef| #[trigger] in_conflict(o);
        assert(claimed.contains(o));
    } else if claimed.len() > 0 {
        assert(claimed.contains(claimed[0]));
        assert(in_conflict(claimed[0]));
    }
}

/// Signers get the document that is on record: the bytes at its address, where there are any and
/// they have that digest.
pub proof fn law_signers_get_the_recorded_document(
    s: SessionView,
    blobs: Map<PsbtHash, Seq<u8>>,
)
    ensures
        unsigned_bytes(s, blobs) == match s.unsigned_psbt_hash {
            None => Err::<Seq<u8>, CoordinationFault>(
                CoordinationFault::UnsignedPsbtNotReady(s.id),
            ),
            Some(hash) => if !blobs.dom().contains(hash) {
                Err(CoordinationFault::BlobFetch(BlobFetchError::Missing(hash)))
            } else if sha256(blobs[hash]) != hash@ {
                Err(CoordinationFault::BlobFetch(BlobFetchError::Integrity(hash)))
            } else {
                Ok(blobs[hash])
            },
        },
{
}

/// What comes of a signed document. The user must hold a keystore in the wallet, the unsigned
/// document must be at hand, both must be readable, and the submission must be valid for the
/// user's keystore; else nothing changes and the first of these that fails is the answer. Of a
/// valid one, the unsigned document with the signatures put in is stored under its digest and
/// recorded as that keystore's.
pub proof fn law_valid_submission_is_stored_and_recorded(
    s: SessionView,
    w: WalletView,
    blobs: Map<PsbtHash, Seq<u8>>,
    user: UserId,
    submitted: Seq<u8>,
)
    ensures
        ({
            let (after, store, answer) = submit_outcome(s, w, blobs, user, submitted);
            let refused = |e: CoordinationFault|
                after == s && store == blobs && answer == Err::<Idempotent<()>, CoordinationFault>(
                    e,
                );
            match submission_of(wallet_submissions(w.events), user) {
                None => refused(
                    CoordinationFault::SignerNotBound { wallet_id: w.id, user_id: user },
                ),
                Some(keystore) => match unsigned_bytes(s, blobs) {
                    Err(e) => refused(e),
                    Ok(bytes) => match (parse_outcome(bytes), parse_outcome(submitted)) {
                        (Err(e), _) => refused(CoordinationFault::PsbtValidation(e)),
                        (_, Err(e)) => refused(CoordinationFault::PsbtValidation(e)),
                        (Ok(original), Ok(signed)) => match submission_outcome(
                            original,
                            signed,
                            keystore.fingerprint,
                            verdicts_on(original, signed, Some(keystore.fingerprint)),
                        ) {
                            Err(e) => refused(CoordinationFault::PsbtValidation(e)),
                            Ok(sigs) => {
                                let document = encode(merge(original, sigs));
                                let hash = content_hash(document);
                                let (recorded, reply) = signature_outcome(
                                    s,
                                    keystore.fingerprint,
                                    hash,
                                );
                                &&& store == blobs.insert(hash, document)
                                &&& after == recorded
                                &&& match reply {
                                    Ok(i) => answer == Ok::<Idempotent<()>, CoordinationFault>(i),
                                    Err(e) => answer == Err::<Idempotent<()>, CoordinationFault>(
                                        CoordinationFault::PsbtSession(e),
                                    ),
                                }
                            },
                        },
                    },
                },
            }
        }),
{
}

/// A wallet that could not be stored is taken for the one with the same descriptor exactly where
/// it has a descriptor and that one is another wallet.
pub proof fn law_reimported_wallet_is_the_other_one(
    w: WalletView,
    existing: WalletView,
    i: int,
)
    ensures
        resolved(w, None) is None,
        existing.id == w.id ==> resolved(w, Some(existing)) is None,
        (forall|j: int| 0 <= j < w.events.len() ==> !(#[trigger] w.events[j] is Activated))
            ==> resolved(w, Some(existing)) is None,
        0 <= i < w.events.len() && w.events[i] is Activated && existing.id != w.id ==> resolved(
            w,
            Some(existing),
        ) == Some(existing),
{
    lemma_activated(w.events, i);
}

proof fn lemma_activated(events: Seq<WalletEventView>, i: int)
    ensures
        (forall|j: int| 0 <= j < events.len() ==> !(#[trigger] events[j] is Activated))
            ==> wallet_activation(events) is None,
        0 <= i < events.len() && events[i] is Activated ==> wallet_activation(events) is Some,
    decreases events.len(),
{
    if events.len() > 0 {
        let init = events.drop_last();
        lemma_activated(init, i);
        assert forall|j: int| 0 <= j < init.len() implies init[j] == #[trigger] events[j] by {}
        assert(events.last() == events[events.len() - 1]);
    }
}

} // verus!
