//! What the units of work are for, in terms of the session, the store and the documents in it.

use vstd::prelude::*;

use crate::jobs::creation::{creation_outcome, session_document};
use crate::jobs::error::JobsFault;
use crate::jobs::finalization::{
    absorbed, absorbed_fields, final_of, final_transaction, finalization_outcome, loaded,
    progress, transaction_id, Progress,
};
use crate::jobs::observation::{observation_outcome, ChainObservation};
use crate::primitives::{content_hash, sha256, txid_of, Idempotent, Network, PsbtHash, Txid};
use crate::psbt::codec::{encode, PairView, PsbtView};
use crate::psbt::crypto::spent_outputs_known;
use crate::psbt::fields::{is_sig, lookup, sig_key, without_sigs};
use crate::psbt::laws::law_put_sig;
use crate::psbt::validation::{merged_outcome, parse_outcome, verdicts_on};
use crate::psbt_session::entity::{finalize_outcome, session_status, SessionEventView, SessionView};
use crate::psbt_session::error::SessionFault;
use crate::psbt_session::primitives::{PsbtSessionStatus, SignatureRecord, SpendSpecView};
use crate::psbt_session::rules::{
    confirmed_last, invalidated_last, law_confirmation_takes_effect_unless_it_stands,
    law_invalidation_follows_status, law_sighting_takes_effect_once,
};
use crate::wallet::document::unsigned_outcome;
use crate::wallet::entity::{wallet_activation, WalletView};
use crate::wallet::spend::FundingView;

verus! {

/// The bytes that a store holds at an address and that have the digest which it says, read as a
/// document.
pub open spec fn readable_at(
    blobs: Map<PsbtHash, Seq<u8>>,
    hash: PsbtHash,
    document: PsbtView,
) -> bool {
    &&& blobs.dom().contains(hash)
    &&& sha256(blobs[hash]) == hash@
    &&& parse_outcome(blobs[hash]) == Ok::<PsbtView, crate::psbt::validation::ValidationFault>(
        document,
    )
}

/// What a document is loaded as is what the store holds at its address; missing bytes, bytes with
/// another digest and bytes that are no document are told apart.
pub proof fn law_document_is_loaded_from_its_address(
    blobs: Map<PsbtHash, Seq<u8>>,
    hash: PsbtHash,
)
    ensures
        match loaded(blobs, hash) {
            Ok(p) => readable_at(blobs, hash, p),
            Err(e) => if !blobs.dom().contains(hash) {
                e == JobsFault::BlobMissing(hash)
            } else if sha256(blobs[hash]) != hash@ {
                e == JobsFault::BlobIntegrity(hash)
            } else {
                parse_outcome(blobs[hash]) is Err && e == JobsFault::Psbt(
                    parse_outcome(blobs[hash])->Err_0,
                )
            },
        },
        forall|p: PsbtView| #[trigger]
            readable_at(blobs, hash, p) ==> loaded(blobs, hash) == Ok::<PsbtView, JobsFault>(p),
{
}

/// What is to stand under a signature key of an input after the first `n` recorded documents: what
/// the original has there, else what the first of the documents has that has something.
pub open spec fn first_value(
    signatures: Seq<SignatureRecord>,
    blobs: Map<PsbtHash, Seq<u8>>,
    original: PsbtView,
    n: nat,
    i: int,
    key: Seq<u8>,
) -> Option<Seq<u8>>
    decreases n,
{
    if n == 0 {
        lookup(original.inputs[i], key)
    } else {
        match first_value(signatures, blobs, original, (n - 1) as nat, i, key) {
            Some(v) => Some(v),
            None => lookup(
                (loaded(blobs, signatures[n - 1].signed_psbt_hash)->Ok_0).inputs[i],
                key,
            ),
        }
    }
}

/// Whether a document is the original with all signatures of the first `n` recorded documents put
/// in: everything else is the original's, and under each signature key stands what is to stand
/// there.
pub open spec fn pools(
    signatures: Seq<SignatureRecord>,
    blobs: Map<PsbtHash, Seq<u8>>,
    original: PsbtView,
    n: nat,
    p: PsbtView,
) -> bool {
    &&& p.global == original.global
    &&& p.outputs == original.outputs
    &&& p.inputs.len() == original.inputs.len()
    &&& forall|i: int|
        0 <= i < p.inputs.len() ==> without_sigs(#[trigger] p.inputs[i]) == without_sigs(
            original.inputs[i],
        )
    &&& forall|i: int, key: Seq<u8>|
        0 <= i < p.inputs.len() && key.len() > 0 && key[0] == 2 ==> #[trigger] lookup(
            p.inputs[i],
            key,
        ) == first_value(signatures, blobs, original, n, i, key)
}

/// What stands under a signature key after one map was absorbed into another.
proof fn lemma_absorbed_lookup(
    into: Seq<PairView>,
    from: Seq<PairView>,
    n: nat,
    key: Seq<u8>,
)
    requires
        n <= from.len(),
        key.len() > 0,
        key[0] == 2,
    ensures
        lookup(absorbed_fields(into, from, n), key) == match lookup(into, key) {
            Some(v) => Some(v),
            None => lookup(from.take(n as int), key),
        },
        without_sigs(absorbed_fields(into, from, n)) == without_sigs(into),
    decreases n,
{
    if n == 0 {
        assert(from.take(0) =~= Seq::<PairView>::empty());
    } else {
        lemma_absorbed_lookup(into, from, (n - 1) as nat, key);
        let before = absorbed_fields(into, from, (n - 1) as nat);
        let p = from[n - 1];
        assert(from.take(n as int).drop_last() =~= from.take(n - 1));
        assert(from.take(n as int).last() == p);
        if is_sig(p) {
            assert(sig_key(p.key.drop_first()) =~= p.key);
            law_put_sig(before, p.key.drop_first(), p.value, key);
        }
    }
}

/// Putting in the signatures of one more document.
proof fn lemma_pools_one_more(
    signatures: Seq<SignatureRecord>,
    blobs: Map<PsbtHash, Seq<u8>>,
    original: PsbtView,
    n: nat,
    before: PsbtView,
)
    requires
        n > 0,
        pools(signatures, blobs, original, (n - 1) as nat, before),
        (loaded(blobs, signatures[n - 1].signed_psbt_hash)->Ok_0).inputs.len()
            == original.inputs.len(),
    ensures
        pools(
            signatures,
            blobs,
            original,
            n,
            absorbed(before, loaded(blobs, signatures[n - 1].signed_psbt_hash)->Ok_0),
        ),
{
    let signed = loaded(blobs, signatures[n - 1].signed_psbt_hash)->Ok_0;
    let now = absorbed(before, signed);
    assert forall|i: int| 0 <= i < now.inputs.len() implies without_sigs(#[trigger] now.inputs[i])
        == without_sigs(original.inputs[i]) by {
        let g = signed.inputs[i];
        lemma_absorbed_lookup(before.inputs[i], g, g.len(), seq![2u8]);
        assert(without_sigs(before.inputs[i]) == without_sigs(original.inputs[i]));
    }
    assert forall|i: int, key: Seq<u8>|
        0 <= i < now.inputs.len() && key.len() > 0 && key[0] == 2 implies #[trigger] lookup(
        now.inputs[i],
        key,
    ) == first_value(signatures, blobs, original, n, i, key) by {
        let g = signed.inputs[i];
        lemma_absorbed_lookup(before.inputs[i], g, g.len(), key);
        assert(g.take(g.len() as int) =~= g);
        assert(lookup(before.inputs[i], key) == first_value(
            signatures,
            blobs,
            original,
            (n - 1) as nat,
            i,
            key,
        ));
    }
}

/// While signatures are collected, the document that is carried on pools them.
proof fn lemma_collecting_pools(
    signatures: Seq<SignatureRecord>,
    blobs: Map<PsbtHash, Seq<u8>>,
    original: PsbtView,
    n: nat,
)
    requires
        progress(signatures, blobs, original, n) is Collecting,
    ensures
        pools(
            signatures,
            blobs,
            original,
            n,
            progress(signatures, blobs, original, n)->Collecting_0,
        ),
        n > 0 ==> {
            let hash = signatures[n - 1].signed_psbt_hash;
            &&& progress(signatures, blobs, original, (n - 1) as nat) is Collecting
            &&& loaded(blobs, hash) is Ok
            &&& merged_outcome(
                original,
                loaded(blobs, hash)->Ok_0,
                verdicts_on(original, loaded(blobs, hash)->Ok_0, None),
            ) is Ok
        },
    decreases n,
{
    if n > 0 {
        lemma_collecting_pools(signatures, blobs, original, (n - 1) as nat);
        lemma_pools_one_more(
            signatures,
            blobs,
            original,
            n,
            progress(signatures, blobs, original, (n - 1) as nat)->Collecting_0,
        );
    }
}

/// Whether a document makes a final transaction, is refused though it is satisfied, or is not
/// satisfied.
pub open spec fn finality(p: PsbtView) -> Option<Option<Seq<u8>>> {
    if spent_outputs_known(p, true) {
        final_transaction(encode(p))
    } else {
        None
    }
}

/// With each recorded signature the original with all signatures so far is tried: as long as it is
/// not satisfied the next one is taken, and where it is, its transaction is the result, or the
/// work fails. A document that cannot be loaded, or that does not pass when it is verified again,
/// makes the work fail with that fault. Once the work has ended, further signatures do not matter.
pub proof fn law_every_signature_so_far_is_tried(
    signatures: Seq<SignatureRecord>,
    blobs: Map<PsbtHash, Seq<u8>>,
    original: PsbtView,
    n: nat,
)
    requires
        n > 0,
    ensures
        ({
            let before = progress(signatures, blobs, original, (n - 1) as nat);
            let now = progress(signatures, blobs, original, n);
            let hash = signatures[n - 1].signed_psbt_hash;
            let signed = loaded(blobs, hash)->Ok_0;
            let verified = merged_outcome(original, signed, verdicts_on(original, signed, None));
            if !(before is Collecting) {
                now == before
            } else if loaded(blobs, hash) is Err {
                now == Progress::Failed(loaded(blobs, hash)->Err_0)
            } else if verified is Err {
                now == Progress::Failed(JobsFault::Psbt(verified->Err_0))
            } else {
                exists|p: PsbtView|
                    {
                        &&& #[trigger] pools(signatures, blobs, original, n, p)
                        &&& now == match finality(p) {
                            None => Progress::Collecting(p),
                            Some(None) => Progress::Failed(JobsFault::CannotFinalize),
                            Some(Some(tx)) => Progress::Finished { tx, used: n },
                        }
                    }
            }
        }),
        progress(signatures, blobs, original, 0) == Progress::Collecting(original),
{
    let before = progress(signatures, blobs, original, (n - 1) as nat);
    let hash = signatures[n - 1].signed_psbt_hash;
    if before is Collecting && loaded(blobs, hash) is Ok {
        let signed = loaded(blobs, hash)->Ok_0;
        if merged_outcome(original, signed, verdicts_on(original, signed, None)) is Ok {
            lemma_collecting_pools(signatures, blobs, original, (n - 1) as nat);
            lemma_pools_one_more(signatures, blobs, original, n, before->Collecting_0);
            let p = absorbed(before->Collecting_0, signed);
            assert(pools(signatures, blobs, original, n, p));
            assert(final_of(p) == finality(p));
        }
    }
}

/// No collected signature is left out: a document that pools the first `n` recorded documents holds
/// something under every key under which one of them, or the original, holds a signature; it is
/// the original's where that has one, and else that of the first of them which has one.
pub proof fn law_no_collected_signature_is_left_out(
    signatures: Seq<SignatureRecord>,
    blobs: Map<PsbtHash, Seq<u8>>,
    original: PsbtView,
    n: nat,
    p: PsbtView,
    k: int,
    i: int,
    key: Seq<u8>,
)
    requires
        pools(signatures, blobs, original, n, p),
        0 <= i < original.inputs.len(),
        key.len() > 0,
        key[0] == 2,
    ensures
        lookup(original.inputs[i], key) is Some ==> lookup(p.inputs[i], key) == lookup(
            original.inputs[i],
            key,
        ),
        0 <= k < n && lookup(
            (loaded(blobs, signatures[k].signed_psbt_hash)->Ok_0).inputs[i],
            key,
        ) is Some ==> lookup(p.inputs[i], key) is Some,
        lookup(original.inputs[i], key) is None && 0 <= k < n && lookup(
            (loaded(blobs, signatures[k].signed_psbt_hash)->Ok_0).inputs[i],
            key,
        ) is Some && (forall|m: int|
            0 <= m < k ==> lookup(
                (loaded(blobs, (#[trigger] signatures[m]).signed_psbt_hash)->Ok_0).inputs[i],
                key,
            ) is None) ==> lookup(p.inputs[i], key) == lookup(
            (loaded(blobs, signatures[k].signed_psbt_hash)->Ok_0).inputs[i],
            key,
        ),
{
    assert(lookup(p.inputs[i], key) == first_value(signatures, blobs, original, n, i, key));
    lemma_first_value(signatures, blobs, original, n, i, key, k);
}

proof fn lemma_first_value(
    signatures: Seq<SignatureRecord>,
    blobs: Map<PsbtHash, Seq<u8>>,
    original: PsbtView,
    n: nat,
    i: int,
    key: Seq<u8>,
    k: int,
)
    ensures
        ({
            let value = first_value(signatures, blobs, original, n, i, key);
            let own = lookup(original.inputs[i], key);
            let theirs = lookup(
                (loaded(blobs, signatures[k].signed_psbt_hash)->Ok_0).inputs[i],
                key,
            );
            let none_before = forall|m: int|
                0 <= m < k ==> lookup(
                    (loaded(blobs, (#[trigger] signatures[m]).signed_psbt_hash)->Ok_0).inputs[i],
                    key,
                ) is None;
            &&& own is Some ==> value == own
            &&& 0 <= k < n && theirs is Some ==> value is Some
            &&& own is None && none_before && n <= k ==> value is None
            &&& own is None && none_before && 0 <= k < n && theirs is Some ==> value == theirs
        }),
    decreases n,
{
    if n > 0 {
        lemma_first_value(signatures, blobs, original, (n - 1) as nat, i, key, k);
        if n <= k {
            let m = n - 1;
            assert(signatures[m] == signatures[n - 1]);
        }
    }
}

/// What comes of finalizing a session. A final transaction on record is told again; a session that
/// does not collect, or has fewer signatures than its threshold, is refused. Else the unsigned
/// document is loaded and the signatures are tried in the order of the record. Where they end in a
/// transaction, its bytes are stored under their digest, and it is recorded with the id that these
/// bytes have and with the signers whose signatures were tried; where they do not, nothing changes.
pub proof fn law_session_is_finalized_from_its_signatures(
    s: SessionView,
    blobs: Map<PsbtHash, Seq<u8>>,
)
    ensures
        ({
            let (after, store, answer) = finalization_outcome(s, blobs);
            let status = session_status(s.events);
            let refused = |e: JobsFault|
                after == s && store == blobs && answer == Err::<Txid, JobsFault>(e);
            if s.finalization is Some {
                after == s && store == blobs && answer == Ok::<Txid, JobsFault>(
                    (s.finalization->0).txid,
                )
            } else if status != PsbtSessionStatus::Collecting {
                refused(
                    JobsFault::UnexpectedStatus { id: s.id, status, expected: "collecting"@ },
                )
            } else if s.signatures.len() < s.threshold {
                refused(JobsFault::ThresholdNotMet(s.id))
            } else {
                match loaded(blobs, s.unsigned_psbt_hash->0) {
                    Err(e) => refused(e),
                    Ok(original) => match progress(
                        s.signatures,
                        blobs,
                        original,
                        s.signatures.len(),
                    ) {
                        Progress::Failed(e) => refused(e),
                        Progress::Collecting(_) => refused(JobsFault::CannotFinalize),
                        Progress::Finished { tx, used } => {
                            let hash = content_hash(tx);
                            let txid = txid_of(transaction_id(tx));
                            let signers = Seq::new(
                                used,
                                |k: int| s.signatures[k].fingerprint,
                            );
                            let (recorded, reply) = finalize_outcome(s, txid, hash, signers);
                            &&& store == blobs.insert(hash, tx)
                            &&& after == recorded
                            &&& match reply {
                                Ok(_) => answer == Ok::<Txid, JobsFault>(txid),
                                Err(e) => answer == Err::<Txid, JobsFault>(JobsFault::Session(e)),
                            }
                        },
                    },
                }
            }
        }),
{
    if s.finalization is None && s.unsigned_psbt_hash is Some {
        let original = loaded(blobs, s.unsigned_psbt_hash->0)->Ok_0;
        match progress(s.signatures, blobs, original, s.signatures.len()) {
            Progress::Finished { tx, used } => {
                assert(crate::jobs::finalization::signers(s.signatures, used) =~= Seq::new(
                    used,
                    |k: int| s.signatures[k].fingerprint,
                ));
            },
            _ => {},
        }
    }
}

/// The document of a session is that of its own spend on its wallet: of the coins, the payments,
/// the fee and the change that it records, with the descriptor of the wallet. A wallet without a
/// descriptor is refused, and so is a spend of which no document can be built.
pub proof fn law_document_is_that_of_the_sessions_spend(
    s: SessionView,
    w: WalletView,
    funding: Seq<FundingView>,
    network: Network,
)
    ensures
        session_document(s, w, funding, network) == match wallet_activation(w.events) {
            None => Err::<Seq<u8>, JobsFault>(JobsFault::WalletNotActive(w.id)),
            Some((descriptor, _)) => match unsigned_outcome(
                SpendSpecView {
                    inputs: s.inputs,
                    outputs: s.outputs,
                    fee_sats: s.fee_sats,
                    change_output: s.change_output,
                },
                descriptor,
                funding,
                network,
            ) {
                Err(e) => Err(JobsFault::Wallet(e)),
                Ok(p) => Ok(encode(p)),
            },
        },
{
}

/// What comes of building the document of a session that waits for one: it is built, stored under
/// its digest and recorded; where it cannot be built nothing changes.
pub proof fn law_waiting_session_gets_its_document(
    s: SessionView,
    w: WalletView,
    blobs: Map<PsbtHash, Seq<u8>>,
    funding: Seq<FundingView>,
    network: Network,
)
    requires
        s.unsigned_psbt_hash is None,
        session_status(s.events) == PsbtSessionStatus::Pending,
        forall|i: int| 0 <= i < s.events.len() ==> !(#[trigger] s.events[i] is PsbtCreated),
    ensures
        ({
            let (after, store, answer) = creation_outcome(s, w, blobs, funding, network);
            match session_document(s, w, funding, network) {
                Err(e) => after == s && store == blobs && answer == Err::<PsbtHash, JobsFault>(e),
                Ok(document) => {
                    let hash = content_hash(document);
                    &&& answer == Ok::<PsbtHash, JobsFault>(hash)
                    &&& store == blobs.insert(hash, document)
                    &&& after == (SessionView {
                        unsigned_psbt_hash: Some(hash),
                        events: s.events.push(
                            SessionEventView::PsbtCreated { unsigned_psbt_hash: hash },
                        ),
                        ..s
                    })
                },
            }
        }),
{
    crate::psbt_session::rules::law_document_is_recorded_once(
        s,
        content_hash(session_document(s, w, funding, network)->Ok_0),
    );
}

/// Each observation of the chain has its own effect: a sighting, a confirmation and an
/// invalidation are taken in where they are news, as what they are, and in no other way.
pub proof fn law_observation_has_its_own_effect(s: SessionView, o: ChainObservation)
    ensures
        ({
            let (after, answer) = observation_outcome(s, o);
            let status = session_status(s.events);
            let executed = answer == Ok::<Idempotent<()>, SessionFault>(Idempotent::Executed(()));
            let of_final = |txid: Txid|
                s.finalization is Some && (s.finalization->0).txid == txid;
            match o {
                ChainObservation::Broadcast { txid } => {
                    let news = of_final(txid) && status != PsbtSessionStatus::Confirmed && forall|
                        i: int,
                    |
                        0 <= i < s.events.len() ==> !(#[trigger] s.events[i] is BroadcastSeen);
                    &&& executed == news
                    &&& news ==> after == (SessionView {
                        events: s.events.push(SessionEventView::BroadcastSeen { txid }),
                        ..s
                    })
                    &&& !news ==> after == s
                    &&& answer is Ok <==> of_final(txid)
                },
                ChainObservation::Confirmed { txid, height, block_hash } => {
                    let news = of_final(txid) && !confirmed_last(s.events);
                    &&& executed == news
                    &&& news ==> after == (SessionView {
                        events: s.events.push(
                            SessionEventView::Confirmed { txid, height, block_hash },
                        ),
                        ..s
                    })
                    &&& !news ==> after == s
                    &&& answer is Ok <==> of_final(txid)
                },
                ChainObservation::Invalidated { reason } => {
                    let news = !invalidated_last(s.events) && (status
                        == PsbtSessionStatus::Broadcast || status == PsbtSessionStatus::Confirmed);
                    &&& executed == news
                    &&& news ==> after == (SessionView {
                        events: s.events.push(SessionEventView::Invalidated { reason }),
                        ..s
                    })
                    &&& !news ==> after == s
                    &&& answer is Ok <==> news || invalidated_last(s.events)
                },
            }
        }),
{
    match o {
        ChainObservation::Broadcast { txid } => {
            law_sighting_takes_effect_once(s, txid);
        },
        ChainObservation::Confirmed { txid, height, block_hash } => {
            law_confirmation_takes_effect_unless_it_stands(s, txid, height, block_hash);
        },
        ChainObservation::Invalidated { reason } => {
            law_invalidation_follows_status(s, reason);
        },
    }
}

} // verus!
