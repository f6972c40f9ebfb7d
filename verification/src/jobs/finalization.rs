//! Computing the final transaction of a session.

use vstd::prelude::*;

use bitcoin::secp256k1::Secp256k1;
use miniscript::psbt::PsbtExt;

use crate::jobs::error::{fetch_error, fetch_fault, JobsError, JobsFault};
use crate::primitives::{
    content_hash, lemma_content_hash, lemma_txid_of, txid_of, KeyFingerprint, PsbtHash, Txid,
};
use crate::psbt::codec::{encode, FieldMap, Pair, PairView, Psbt, PsbtView};
use crate::psbt::crypto::{has_spent_outputs, spent_outputs_known};
use crate::psbt::fields::{is_sig, lemma_lookup_found, lookup, sig_key, without_sigs};
use crate::psbt::laws::{law_put_sig, law_verified_document, lemma_put_sig_members, sig_verifies};
use crate::psbt::merge::put_sig;
use crate::psbt::validation::{
    is_new_sig, merged_outcome, parse_outcome, parse_psbt, verdicts_on, verify_merged_blob,
};
use crate::psbt_session::entity::{
    finalize_outcome, recorded_psbt, session_of, session_status, status_after, PsbtSession,
    SessionEventView, SessionView,
};
use crate::psbt_session::laws::session_sound;
use crate::psbt_session::primitives::{PsbtSessionStatus, SignatureRecord};
use crate::storage::{fetch_verified, fetched, stored, BlobStore};

verus! {

/// The final transaction of a document: `None` where the signatures do not satisfy every input,
/// `Some(None)` where they do but the transaction is refused.
pub uninterp spec fn final_transaction(document: Seq<u8>) -> Option<Option<Seq<u8>>>;

/// The id of the transaction with these bytes.
pub uninterp spec fn transaction_id(tx: Seq<u8>) -> Seq<u8>;

/// `miniscript::psbt::PsbtExt::finalize` on the document with these bytes, then
/// `bitcoin::Psbt::extract_tx`, which refuses absurd fees, and of the transaction its bytes by
/// `bitcoin::consensus::serialize` and its `compute_txid`, which is settled by the bytes. The
/// first two read the output that an input spends out of the previous transaction that the
/// document carries, and need it to be there: the one of every input that is not final yet, the
/// other of all of them in turn, up to the first that tells nothing of its output.
#[verifier::external_body]
fn finalize_document(document: &[u8]) -> (r: Option<Option<(Vec<u8>, [u8; 32])>>)
    requires
        exists|p: PsbtView| #[trigger] encode(p) == document@ && spent_outputs_known(p, true),
    ensures
        match r {
            None => final_transaction(document@) == None::<Option<Seq<u8>>>,
            Some(None) => final_transaction(document@) == Some(None::<Seq<u8>>),
            Some(Some((tx, txid))) => {
                &&& final_transaction(document@) == Some(Some(tx@))
                &&& txid@ == transaction_id(tx@)
            },
        },
{
    let psbt = bitcoin::Psbt::deserialize(document).ok()?;
    let psbt = psbt.finalize(&Secp256k1::verification_only()).ok()?;
    Some(psbt.extract_tx().ok().map(|tx| {
        let txid = bitcoin::hashes::Hash::to_byte_array(tx.compute_txid());
        (bitcoin::consensus::serialize(&tx), txid)
    }))
}

/// The first `n` fields of an input map put into another one, as far as they are signatures for
/// keys that have none there.
pub open spec fn absorbed_fields(into: Seq<PairView>, from: Seq<PairView>, n: nat) -> Seq<PairView>
    decreases n,
{
    if n == 0 {
        into
    } else {
        let before = absorbed_fields(into, from, (n - 1) as nat);
        let p = from[n - 1];
        if is_sig(p) && lookup(before, p.key) is None {
            put_sig(before, p.key, p.value)
        } else {
            before
        }
    }
}

/// A document with the signatures of another one put in, where it has none for the same keys.
pub open spec fn absorbed(into: PsbtView, from: PsbtView) -> PsbtView {
    PsbtView {
        inputs: Seq::new(
            into.inputs.len(),
            |i: int|
                if i < from.inputs.len() {
                    absorbed_fields(into.inputs[i], from.inputs[i], from.inputs[i].len())
                } else {
                    into.inputs[i]
                },
        ),
        ..into
    }
}

/// The document that is stored at an address, or why it cannot be had.
pub open spec fn loaded(blobs: Map<PsbtHash, Seq<u8>>, hash: PsbtHash) -> Result<
    PsbtView,
    JobsFault,
> {
    match fetched(hash, stored(blobs, hash)) {
        Err(e) => Err(fetch_fault(e)),
        Ok(bytes) => match parse_outcome(bytes) {
            Err(e) => Err(JobsFault::Psbt(e)),
            Ok(p) => Ok(p),
        },
    }
}

/// The final transaction of a document, where it tells the outputs that it spends.
pub open spec fn final_of(p: PsbtView) -> Option<Option<Seq<u8>>> {
    if spent_outputs_known(p, true) {
        final_transaction(encode(p))
    } else {
        None
    }
}

/// How far finalization has come.
pub enum Progress {
    /// It failed.
    Failed(JobsFault),
    /// The signatures so far, put into the unsigned document, do not suffice.
    Collecting(PsbtView),
    /// The first `used` signatures make this transaction.
    Finished { tx: Seq<u8>, used: nat },
}

/// How far finalization has come with the first `n` recorded signatures: they are taken in their
/// order, each verified again, until they make a transaction.
pub open spec fn progress(
    signatures: Seq<SignatureRecord>,
    blobs: Map<PsbtHash, Seq<u8>>,
    original: PsbtView,
    n: nat,
) -> Progress
    decreases n,
{
    if n == 0 {
        Progress::Collecting(original)
    } else {
        match progress(signatures, blobs, original, (n - 1) as nat) {
            Progress::Collecting(combined) => match loaded(
                blobs,
                signatures[n - 1].signed_psbt_hash,
            ) {
                Err(e) => Progress::Failed(e),
                Ok(signed) => match merged_outcome(
                    original,
                    signed,
                    verdicts_on(original, signed, None),
                ) {
                    Err(e) => Progress::Failed(JobsFault::Psbt(e)),
                    Ok(_) => match final_of(absorbed(combined, signed)) {
                        None => Progress::Collecting(absorbed(combined, signed)),
                        Some(None) => Progress::Failed(JobsFault::CannotFinalize),
                        Some(Some(tx)) => Progress::Finished { tx, used: n },
                    },
                },
            },
            other => other,
        }
    }
}

/// The first `n` signers, in the order in which their signatures were recorded.
pub open spec fn signers(signatures: Seq<SignatureRecord>, n: nat) -> Seq<KeyFingerprint> {
    Seq::new(n, |i: int| signatures[i].fingerprint)
}

/// What comes of storing and recording a final transaction: the session and the store after it,
/// and the answer.
pub open spec fn finalization_recorded(
    s: SessionView,
    blobs: Map<PsbtHash, Seq<u8>>,
    tx: Seq<u8>,
    txid: Txid,
    used: Seq<KeyFingerprint>,
) -> (SessionView, Map<PsbtHash, Seq<u8>>, Result<Txid, JobsFault>) {
    let hash = content_hash(tx);
    let (after, answer) = finalize_outcome(s, txid, hash, used);
    (
        after,
        blobs.insert(hash, tx),
        match answer {
            Ok(_) => Ok(txid),
            Err(e) => Err(JobsFault::Session(e)),
        },
    )
}

/// Whether a session is to be finalized: it has no final transaction, collects signatures and
/// has enough of them. Else its final transaction, or why there is nothing to do.
pub open spec fn finalization_start(s: SessionView) -> Result<Option<Txid>, JobsFault> {
    let status = session_status(s.events);
    if s.finalization is Some {
        Ok(Some((s.finalization->0).txid))
    } else if status != PsbtSessionStatus::Collecting {
        Err(JobsFault::UnexpectedStatus { id: s.id, status, expected: "collecting"@ })
    } else if s.signatures.len() < s.threshold {
        Err(JobsFault::ThresholdNotMet(s.id))
    } else {
        Ok(None)
    }
}

/// What comes of the job.
pub open spec fn finalization_outcome(s: SessionView, blobs: Map<PsbtHash, Seq<u8>>) -> (
    SessionView,
    Map<PsbtHash, Seq<u8>>,
    Result<Txid, JobsFault>,
) {
    match finalization_start(s) {
        Err(e) => (s, blobs, Err(e)),
        Ok(Some(txid)) => (s, blobs, Ok(txid)),
        Ok(None) => match loaded(blobs, s.unsigned_psbt_hash->0) {
            Err(e) => (s, blobs, Err(e)),
            Ok(original) => match progress(s.signatures, blobs, original, s.signatures.len()) {
                Progress::Failed(e) => (s, blobs, Err(e)),
                Progress::Collecting(_) => (s, blobs, Err(JobsFault::CannotFinalize)),
                Progress::Finished { tx, used } => finalization_recorded(
                    s,
                    blobs,
                    tx,
                    txid_of(transaction_id(tx)),
                    signers(s.signatures, used),
                ),
            },
        },
    }
}

/// Once finalization has failed or finished, later signatures do not matter.
proof fn lemma_progress_settled(
    signatures: Seq<SignatureRecord>,
    blobs: Map<PsbtHash, Seq<u8>>,
    original: PsbtView,
    n: nat,
    m: nat,
)
    requires
        n <= m,
        !(progress(signatures, blobs, original, n) is Collecting),
    ensures
        progress(signatures, blobs, original, m) == progress(signatures, blobs, original, n),
    decreases m,
{
    if n < m {
        lemma_progress_settled(signatures, blobs, original, n, (m - 1) as nat);
    }
}

/// Puts the signatures of an input map into another one, where that has none for the same keys.
pub fn absorb_fields(into: &FieldMap, from: &FieldMap) -> (r: FieldMap)
    ensures
        r@ == absorbed_fields(into@, from@, from@.len()),
{
    let mut r: FieldMap = into.copied();
    let mut i: usize = 0;
    while i < from.pairs.len()
        invariant
            i <= from.pairs@.len(),
            r@ == absorbed_fields(into@, from@, i as nat),
        decreases from.pairs@.len() - i,
    {
        let pair: &Pair = &from.pairs[i];
        assert(from@[i as int] == pair@);
        if pair.is_partial_sig() && !r.has(pair.key.as_slice()) {
            let pubkey: Vec<u8> = crate::bytes::copy_range(
                pair.key.as_slice(),
                1,
                pair.key.len(),
            );
            assert(sig_key(pubkey@) =~= pair.key@);
            r.put_sig(pubkey.as_slice(), pair.value.as_slice());
        }
        i += 1;
    }
    r
}

/// Puts the signatures of a document into another one, where that has none for the same keys.
pub fn absorb_signatures(into: &Psbt, from: &Psbt) -> (r: Psbt)
    ensures
        r@ == absorbed(into@, from@),
{
    let mut r: Psbt = into.copied();
    let mut inputs: Vec<FieldMap> = Vec::new();
    let ghost wanted = absorbed(into@, from@);
    let mut i: usize = 0;
    while i < into.inputs.len()
        invariant
            i <= into.inputs@.len(),
            inputs@.len() == i,
            wanted == absorbed(into@, from@),
            forall|j: int| 0 <= j < i ==> (#[trigger] inputs@[j])@ == wanted.inputs[j],
        decreases into.inputs@.len() - i,
    {
        assert(into@.inputs[i as int] == into.inputs@[i as int]@);
        if i < from.inputs.len() {
            assert(from@.inputs[i as int] == from.inputs@[i as int]@);
            inputs.push(absorb_fields(&into.inputs[i], &from.inputs[i]));
        } else {
            inputs.push(into.inputs[i].copied());
        }
        i += 1;
    }
    r.inputs = inputs;
    assert(r@.inputs =~= wanted.inputs);
    r
}

/// Fetches and reads a document that was recorded.
fn load_psbt<B: BlobStore>(blobs: &B, hash: &PsbtHash) -> (r: Result<Psbt, JobsError>)
    ensures
        match r {
            Ok(p) => loaded(blobs.blobs(), *hash) == Ok::<PsbtView, JobsFault>(p@),
            Err(e) => loaded(blobs.blobs(), *hash) == Err::<PsbtView, JobsFault>(e@),
        },
{
    match fetch_verified(blobs, hash) {
        Err(e) => Err(fetch_error(e)),
        Ok(bytes) => match parse_psbt(bytes.as_slice()) {
            Ok(p) => Ok(p),
            Err(e) => Err(JobsError::Psbt(e)),
        },
    }
}

/// The final transaction of a document.
fn final_transaction_of(p: &Psbt) -> (r: Option<Option<(Vec<u8>, Txid)>>)
    ensures
        match r {
            None => final_of(p@) is None,
            Some(None) => final_of(p@) == Some(None::<Seq<u8>>),
            Some(Some((tx, txid))) => final_of(p@) == Some(Some(tx@)) && txid@ == transaction_id(
                tx@,
            ),
        },
{
    if !has_spent_outputs(p, true) {
        return None;
    }
    let document: Vec<u8> = p.serialize();
    match finalize_document(document.as_slice()) {
        None => None,
        Some(None) => Some(None),
        Some(Some((tx, txid))) => Some(Some((tx, Txid(txid)))),
    }
}

/// Whether a session is to be finalized; else its final transaction, or why there is nothing to
/// do. Where it is to be finalized, the stored documents are needed.
pub fn start_finalization(session: &PsbtSession) -> (r: Result<Option<Txid>, JobsError>)
    ensures
        match r {
            Ok(t) => finalization_start(session@) == Ok::<Option<Txid>, JobsFault>(t),
            Err(e) => finalization_start(session@) == Err::<Option<Txid>, JobsFault>(e@),
        },
{
    match session.finalization() {
        Some(f) => {
            return Ok(Some(f.txid));
        },
        None => {},
    }
    let status: PsbtSessionStatus = session.status();
    if status != PsbtSessionStatus::Collecting {
        return Err(
            JobsError::UnexpectedStatus { id: session.id(), status, expected: "collecting" },
        );
    }
    if !session.threshold_met() {
        return Err(JobsError::ThresholdNotMet(session.id()));
    }
    Ok(None)
}

/// Stores a final transaction and records it.
pub fn record_transaction<B: BlobStore>(
    session: &mut PsbtSession,
    blobs: &mut B,
    tx: &[u8],
    txid: Txid,
    used: Vec<KeyFingerprint>,
) -> (r: Result<Txid, JobsError>)
    ensures
        ({
            let (after, store, answer) = finalization_recorded(
                old(session)@,
                old(blobs).blobs(),
                tx@,
                txid,
                used@,
            );
            &&& final(session)@ == after
            &&& final(blobs).blobs() == store
            &&& match r {
                Ok(t) => answer == Ok::<Txid, JobsFault>(t),
                Err(e) => answer == Err::<Txid, JobsFault>(e@),
            }
        }),
{
    let hash: PsbtHash = blobs.put(tx);
    proof {
        lemma_content_hash(hash, tx@);
    }
    match session.finalize(txid, hash, used) {
        Ok(_) => Ok(txid),
        Err(e) => Err(JobsError::Session(e)),
    }
}

/// Computes the final transaction of a session with enough signatures, stores it and records it.
///
/// The transaction is made of the unsigned document and the stored signatures, taken in the
/// order in which they were recorded until they suffice, so that it is settled whose signatures
/// authorized the spend. Each stored document is verified again before it is used. Where the
/// session has a final transaction already, its id is returned and nothing is done.
pub fn run_finalization<B: BlobStore>(session: &mut PsbtSession, blobs: &mut B) -> (r: Result<
    Txid,
    JobsError,
>)
    requires
        finalization_start(old(session)@) == Ok::<Option<Txid>, JobsFault>(None) ==> old(
            session,
        )@.unsigned_psbt_hash is Some,
    ensures
        ({
            let (after, store, answer) = finalization_outcome(old(session)@, old(blobs).blobs());
            &&& final(session)@ == after
            &&& final(blobs).blobs() == store
            &&& match r {
                Ok(t) => answer == Ok::<Txid, JobsFault>(t),
                Err(e) => answer == Err::<Txid, JobsFault>(e@),
            }
        }),
{
    match start_finalization(session) {
        Err(e) => {
            return Err(e);
        },
        Ok(Some(txid)) => {
            return Ok(txid);
        },
        Ok(None) => {},
    }
    let hash: PsbtHash = match session.unsigned_psbt_hash() {
        Some(hash) => hash,
        None => {
            return Err(JobsError::CannotFinalize);
        },
    };
    let original: Psbt = match load_psbt(blobs, &hash) {
        Ok(p) => p,
        Err(e) => {
            return Err(e);
        },
    };
    let ghost sigs = session@.signatures;
    let ghost store = blobs.blobs();
    let mut combined: Psbt = original.copied();
    let mut used: Vec<KeyFingerprint> = Vec::new();
    let count: usize = session.signature_count();
    let mut i: usize = 0;
    while i < count
        invariant
            i <= count,
            count == sigs.len(),
            session@ == old(session)@,
            blobs.blobs() == old(blobs).blobs(),
            sigs == session@.signatures,
            store == blobs.blobs(),
            finalization_start(session@) == Ok::<Option<Txid>, JobsFault>(None),
            session@.unsigned_psbt_hash is Some,
            loaded(store, session@.unsigned_psbt_hash->0) == Ok::<PsbtView, JobsFault>(original@),
            progress(sigs, store, original@, i as nat) == Progress::Collecting(combined@),
            used@ =~= signers(sigs, i as nat),
        decreases count - i,
    {
        let record: SignatureRecord = session.signatures()[i];
        let signed: Psbt = match load_psbt(blobs, &record.signed_psbt_hash) {
            Ok(p) => p,
            Err(e) => {
                proof {
                    lemma_progress_settled(sigs, store, original@, (i + 1) as nat, count as nat);
                }
                return Err(e);
            },
        };
        match verify_merged_blob(&original, &signed) {
            Ok(_) => {},
            Err(e) => {
                proof {
                    lemma_progress_settled(sigs, store, original@, (i + 1) as nat, count as nat);
                }
                return Err(JobsError::Psbt(e));
            },
        }
        combined = absorb_signatures(&combined, &signed);
        used.push(record.fingerprint);
        assert(used@ =~= signers(sigs, (i + 1) as nat));
        match final_transaction_of(&combined) {
            None => {},
            Some(None) => {
                proof {
                    lemma_progress_settled(sigs, store, original@, (i + 1) as nat, count as nat);
                }
                return Err(JobsError::CannotFinalize);
            },
            Some(Some((tx, txid))) => {
                proof {
                    lemma_progress_settled(sigs, store, original@, (i + 1) as nat, count as nat);
                    lemma_txid_of(txid);
                }
                return record_transaction(session, blobs, tx.as_slice(), txid, used);
            },
        }
        i += 1;
    }
    Err(JobsError::CannotFinalize)
}

/// The signatures that are used are the shortest run of recorded ones that suffices: with fewer
/// of them finalization was still collecting.
pub proof fn law_used_signatures_are_minimal(
    signatures: Seq<SignatureRecord>,
    blobs: Map<PsbtHash, Seq<u8>>,
    original: PsbtView,
    n: nat,
)
    requires
        progress(signatures, blobs, original, n) is Finished,
    ensures
        ({
            let used = progress(signatures, blobs, original, n)->used;
            &&& 0 < used <= n
            &&& forall|k: nat|
                k < used ==> (#[trigger] progress(signatures, blobs, original, k)) is Collecting
        }),
    decreases n,
{
    let used = progress(signatures, blobs, original, n)->used;
    if used == n {
        assert forall|k: nat| k < used implies (
        #[trigger] progress(signatures, blobs, original, k)) is Collecting by {
            if !(progress(signatures, blobs, original, k) is Collecting) {
                lemma_progress_settled(signatures, blobs, original, k, n);
                lemma_finished_in_time(signatures, blobs, original, k);
            }
        }
    } else {
        law_used_signatures_are_minimal(signatures, blobs, original, (n - 1) as nat);
    }
}

/// No more signatures are used than were looked at.
proof fn lemma_finished_in_time(
    signatures: Seq<SignatureRecord>,
    blobs: Map<PsbtHash, Seq<u8>>,
    original: PsbtView,
    n: nat,
)
    requires
        progress(signatures, blobs, original, n) is Finished,
    ensures
        0 < progress(signatures, blobs, original, n)->used <= n,
    decreases n,
{
    if n > 0 && progress(signatures, blobs, original, (n - 1) as nat) is Finished {
        lemma_finished_in_time(signatures, blobs, original, (n - 1) as nat);
    }
}

/// Trying again is harmless: once a sound session was finalized, running the job again gives the
/// same id and changes neither the session nor the store.
pub proof fn law_finalization_is_idempotent(s: SessionView, blobs: Map<PsbtHash, Seq<u8>>)
    requires
        session_sound(s),
        finalization_outcome(s, blobs).2 is Ok,
    ensures
        ({
            let (after, store, answer) = finalization_outcome(s, blobs);
            finalization_outcome(after, store) == (after, store, answer)
        }),
{
}

/// The record and the stored transaction agree: where the job finalizes a sound session, the
/// address in its record leads to the bytes of the final transaction, and the id in its record is
/// the one that these bytes have.
pub proof fn law_final_transaction_is_stored(s: SessionView, blobs: Map<PsbtHash, Seq<u8>>, h: PsbtHash)
    requires
        session_sound(s),
        s.finalization is None,
        finalization_outcome(s, blobs).2 is Ok,
        loaded(blobs, s.unsigned_psbt_hash->0) is Ok,
        ({
            let original = loaded(blobs, s.unsigned_psbt_hash->0)->Ok_0;
            let end = progress(s.signatures, blobs, original, s.signatures.len());
            end is Finished ==> h@ == crate::primitives::sha256(end->tx)
        }),
    ensures
        ({
            let original = loaded(blobs, s.unsigned_psbt_hash->0)->Ok_0;
            let end = progress(s.signatures, blobs, original, s.signatures.len());
            let (after, store, answer) = finalization_outcome(s, blobs);
            &&& end is Finished
            &&& after.finalization is Some
            &&& (after.finalization->0).txid == txid_of(transaction_id(end->tx))
            &&& answer == Ok::<Txid, JobsFault>(txid_of(transaction_id(end->tx)))
            &&& fetched(
                (after.finalization->0).final_tx_hash,
                stored(store, (after.finalization->0).final_tx_hash),
            ) == Ok::<Seq<u8>, crate::storage::BlobFetchError>(end->tx)
        }),
{
    let original = loaded(blobs, s.unsigned_psbt_hash->0)->Ok_0;
    let end = progress(s.signatures, blobs, original, s.signatures.len());
    if end is Finished {
        lemma_content_hash(h, end->tx);
    }
}

/// A session that was rebuilt from its events and collects signatures has its unsigned document
/// on record.
pub proof fn law_collecting_session_has_document(s: SessionView)
    requires
        session_of(s.events) == Some(s),
        session_status(s.events) == PsbtSessionStatus::Collecting,
    ensures
        s.unsigned_psbt_hash is Some,
{
    lemma_collecting_has_document(s.events);
}

proof fn lemma_collecting_has_document(events: Seq<SessionEventView>)
    requires
        session_status(events) == PsbtSessionStatus::Collecting,
    ensures
        recorded_psbt(events) is Some,
    decreases events.len(),
{
    if status_after(events.last()) is None {
        lemma_collecting_has_document(events.drop_last());
    }
}

/// Absorbed fields come from either map, and only signatures are added.
proof fn lemma_absorbed_fields(into: Seq<PairView>, from: Seq<PairView>, n: nat)
    requires
        n <= from.len(),
    ensures
        without_sigs(absorbed_fields(into, from, n)) == without_sigs(into),
        forall|j: int|
            0 <= j < absorbed_fields(into, from, n).len() ==> into.contains(
                #[trigger] absorbed_fields(into, from, n)[j],
            ) || from.contains(absorbed_fields(into, from, n)[j]),
        forall|key: Seq<u8>|
            lookup(into, key) is Some ==> #[trigger] lookup(absorbed_fields(into, from, n), key)
                == lookup(into, key),
    decreases n,
{
    let r = absorbed_fields(into, from, n);
    if n == 0 {
        assert forall|j: int| 0 <= j < r.len() implies into.contains(#[trigger] r[j])
            || from.contains(r[j]) by {
            assert(into[j] == r[j]);
        }
    } else {
        lemma_absorbed_fields(into, from, (n - 1) as nat);
        let before = absorbed_fields(into, from, (n - 1) as nat);
        let p = from[n - 1];
        if is_sig(p) && lookup(before, p.key) is None {
            assert(sig_key(p.key.drop_first()) =~= p.key);
            law_put_sig(before, p.key.drop_first(), p.value, p.key);
            assert forall|j: int| 0 <= j < r.len() implies into.contains(#[trigger] r[j])
                || from.contains(r[j]) by {
                lemma_put_sig_members(before, p.key, p.value, j);
                if r[j] == (PairView { key: p.key, value: p.value }) {
                    assert(from[n - 1] == r[j]);
                } else {
                    let h = choose|h: int| 0 <= h < before.len() && before[h] == r[j];
                    assert(into.contains(before[h]) || from.contains(before[h]));
                }
            }
            assert forall|key: Seq<u8>| lookup(into, key) is Some implies #[trigger] lookup(r, key)
                == lookup(into, key) by {
                law_put_sig(before, p.key.drop_first(), p.value, key);
            }
        }
    }
}

/// Whether every signature that the original does not hold verifies against it.
pub open spec fn new_sigs_verify(original: PsbtView, p: PsbtView) -> bool {
    forall|i: int, j: int|
        0 <= i < p.inputs.len() && 0 <= j < p.inputs[i].len() && is_new_sig(
            original.inputs[i],
            #[trigger] p.inputs[i][j],
        ) ==> sig_verifies(original, i as nat, p.inputs[i][j])
}

/// Whether a document is the original but for its signatures.
pub open spec fn same_but_for_sigs(original: PsbtView, p: PsbtView) -> bool {
    &&& p.global == original.global
    &&& p.outputs == original.outputs
    &&& p.inputs.len() == original.inputs.len()
    &&& forall|i: int|
        0 <= i < p.inputs.len() ==> without_sigs(#[trigger] p.inputs[i]) == without_sigs(
            original.inputs[i],
        )
}

/// Only verified signatures go into the final transaction: what is finalized is the unsigned
/// document with signatures put in, each of which signs everything and verifies against it.
pub proof fn law_only_verified_signatures_are_used(
    signatures: Seq<SignatureRecord>,
    blobs: Map<PsbtHash, Seq<u8>>,
    original: PsbtView,
    n: nat,
)
    requires
        progress(signatures, blobs, original, n) is Collecting,
    ensures
        same_but_for_sigs(original, progress(signatures, blobs, original, n)->Collecting_0),
        new_sigs_verify(original, progress(signatures, blobs, original, n)->Collecting_0),
    decreases n,
{
    let now = progress(signatures, blobs, original, n)->Collecting_0;
    if n == 0 {
        assert forall|i: int, j: int|
            0 <= i < now.inputs.len() && 0 <= j < now.inputs[i].len() && is_new_sig(
                original.inputs[i],
                #[trigger] now.inputs[i][j],
            ) implies sig_verifies(original, i as nat, now.inputs[i][j]) by {
            lemma_lookup_found(original.inputs[i], now.inputs[i][j].key);
        }
    } else {
        law_only_verified_signatures_are_used(signatures, blobs, original, (n - 1) as nat);
        let before = progress(signatures, blobs, original, (n - 1) as nat)->Collecting_0;
        let signed = loaded(blobs, signatures[n - 1].signed_psbt_hash)->Ok_0;
        lemma_absorbed_verifies(original, before, signed);
    }
}

/// The final transaction comes of verified signatures alone: it is that of the unsigned document
/// with signatures put in, each of which signs everything and verifies against it.
pub proof fn law_final_transaction_comes_of_verified_signatures(
    signatures: Seq<SignatureRecord>,
    blobs: Map<PsbtHash, Seq<u8>>,
    original: PsbtView,
    n: nat,
)
    requires
        progress(signatures, blobs, original, n) is Finished,
    ensures
        exists|p: PsbtView|
            {
                &&& same_but_for_sigs(original, p)
                &&& new_sigs_verify(original, p)
                &&& #[trigger] final_of(p) == Some(
                    Some(progress(signatures, blobs, original, n)->tx),
                )
            },
    decreases n,
{
    let last = progress(signatures, blobs, original, (n - 1) as nat);
    if last is Finished {
        law_final_transaction_comes_of_verified_signatures(
            signatures,
            blobs,
            original,
            (n - 1) as nat,
        );
    } else {
        law_only_verified_signatures_are_used(signatures, blobs, original, (n - 1) as nat);
        let signed = loaded(blobs, signatures[n - 1].signed_psbt_hash)->Ok_0;
        lemma_absorbed_verifies(original, last->Collecting_0, signed);
        let p = absorbed(last->Collecting_0, signed);
        assert(final_of(p) is Some);
    }
}

/// Putting the signatures of a verified document in keeps everything verified.
proof fn lemma_absorbed_verifies(original: PsbtView, before: PsbtView, signed: PsbtView)
    requires
        same_but_for_sigs(original, before),
        new_sigs_verify(original, before),
        merged_outcome(original, signed, verdicts_on(original, signed, None)) is Ok,
    ensures
        same_but_for_sigs(original, absorbed(before, signed)),
        new_sigs_verify(original, absorbed(before, signed)),
{
    let now = absorbed(before, signed);
    assert(signed.inputs.len() == original.inputs.len());
    assert forall|i: int| 0 <= i < now.inputs.len() implies without_sigs(#[trigger] now.inputs[i])
        == without_sigs(original.inputs[i]) by {
        lemma_absorbed_fields(before.inputs[i], signed.inputs[i], signed.inputs[i].len());
        assert(without_sigs(before.inputs[i]) == without_sigs(original.inputs[i]));
    }
    assert forall|i: int, j: int|
        0 <= i < now.inputs.len() && 0 <= j < now.inputs[i].len() && is_new_sig(
            original.inputs[i],
            #[trigger] now.inputs[i][j],
        ) implies sig_verifies(original, i as nat, now.inputs[i][j]) by {
        let p = now.inputs[i][j];
        lemma_absorbed_fields(before.inputs[i], signed.inputs[i], signed.inputs[i].len());
        if before.inputs[i].contains(p) {
            let h = choose|h: int| 0 <= h < before.inputs[i].len() && before.inputs[i][h] == p;
            assert(is_new_sig(original.inputs[i], before.inputs[i][h]));
        } else {
            let h = choose|h: int| 0 <= h < signed.inputs[i].len() && signed.inputs[i][h] == p;
            law_verified_document(original, signed, i, h);
        }
    }
}

} // verus!
