//! Building the document of a proposed spend.

use vstd::prelude::*;

use crate::jobs::error::{JobsError, JobsFault};
use crate::primitives::{content_hash, lemma_content_hash, Network, PsbtHash};
use crate::psbt::codec::encode;
use crate::psbt_session::entity::{
    psbt_created_outcome, session_status, PsbtSession, SessionView,
};
use crate::psbt_session::primitives::{PsbtSessionStatus, SpendSpec, SpendSpecView};
use crate::storage::BlobStore;
use crate::wallet::entity::{wallet_activation, Wallet, WalletView};
use crate::wallet::document::{
    build_unsigned_psbt, check_amounts, spend_sums_fit, unsigned_outcome,
};
use crate::wallet::spend::{funding_views, FundingUtxo, FundingView};

verus! {

/// The spend of a session.
pub open spec fn session_spend(s: SessionView) -> SpendSpecView {
    SpendSpecView {
        inputs: s.inputs,
        outputs: s.outputs,
        fee_sats: s.fee_sats,
        change_output: s.change_output,
    }
}

/// Whether the document of a session is there already; or why there is none to be built.
pub open spec fn creation_start(s: SessionView) -> Result<Option<PsbtHash>, JobsFault> {
    let status = session_status(s.events);
    if s.unsigned_psbt_hash is Some {
        Ok(s.unsigned_psbt_hash)
    } else if status != PsbtSessionStatus::Pending {
        Err(JobsFault::UnexpectedStatus { id: s.id, status, expected: "pending"@ })
    } else {
        Ok(None)
    }
}

/// The bytes of the unsigned document of a session, or why there are none.
pub open spec fn session_document(
    s: SessionView,
    w: WalletView,
    funding: Seq<FundingView>,
    network: Network,
) -> Result<Seq<u8>, JobsFault> {
    match wallet_activation(w.events) {
        None => Err(JobsFault::WalletNotActive(w.id)),
        Some((descriptor, _)) => match unsigned_outcome(
            session_spend(s),
            descriptor,
            funding,
            network,
        ) {
            Err(e) => Err(JobsFault::Wallet(e)),
            Ok(p) => Ok(encode(p)),
        },
    }
}

/// What comes of storing and recording the document: the session and the store after it, and
/// the answer.
pub open spec fn creation_recorded(
    s: SessionView,
    blobs: Map<PsbtHash, Seq<u8>>,
    document: Seq<u8>,
) -> (SessionView, Map<PsbtHash, Seq<u8>>, Result<PsbtHash, JobsFault>) {
    let hash = content_hash(document);
    let (after, answer) = psbt_created_outcome(s, hash);
    (
        after,
        blobs.insert(hash, document),
        match answer {
            Ok(_) => Ok(hash),
            Err(e) => Err(JobsFault::Session(e)),
        },
    )
}

/// What comes of the job.
pub open spec fn creation_outcome(
    s: SessionView,
    w: WalletView,
    blobs: Map<PsbtHash, Seq<u8>>,
    funding: Seq<FundingView>,
    network: Network,
) -> (SessionView, Map<PsbtHash, Seq<u8>>, Result<PsbtHash, JobsFault>) {
    match creation_start(s) {
        Err(e) => (s, blobs, Err(e)),
        Ok(Some(hash)) => (s, blobs, Ok(hash)),
        Ok(None) => match session_document(s, w, funding, network) {
            Err(e) => (s, blobs, Err(e)),
            Ok(document) => creation_recorded(s, blobs, document),
        },
    }
}

/// Whether the document of a session is there already; or why there is none to be built. Where
/// it is neither, the wallet and the coins are needed.
pub fn start_psbt_creation(session: &PsbtSession) -> (r: Result<Option<PsbtHash>, JobsError>)
    ensures
        match r {
            Ok(h) => creation_start(session@) == Ok::<Option<PsbtHash>, JobsFault>(h),
            Err(e) => creation_start(session@) == Err::<Option<PsbtHash>, JobsFault>(e@),
        },
{
    match session.unsigned_psbt_hash() {
        Some(hash) => {
            return Ok(Some(hash));
        },
        None => {},
    }
    let status: PsbtSessionStatus = session.status();
    if status != PsbtSessionStatus::Pending {
        return Err(
            JobsError::UnexpectedStatus { id: session.id(), status, expected: "pending" },
        );
    }
    Ok(None)
}

/// Stores the document of a session and records it.
pub fn record_document<B: BlobStore>(
    session: &mut PsbtSession,
    blobs: &mut B,
    document: &[u8],
) -> (r: Result<PsbtHash, JobsError>)
    ensures
        ({
            let (after, store, answer) = creation_recorded(
                old(session)@,
                old(blobs).blobs(),
                document@,
            );
            &&& final(session)@ == after
            &&& final(blobs).blobs() == store
            &&& match r {
                Ok(h) => answer == Ok::<PsbtHash, JobsFault>(h),
                Err(e) => answer == Err::<PsbtHash, JobsFault>(e@),
            }
        }),
{
    let hash: PsbtHash = blobs.put(document);
    proof {
        lemma_content_hash(hash, document@);
    }
    match session.record_psbt_created(hash) {
        Ok(_) => Ok(hash),
        Err(e) => Err(JobsError::Session(e)),
    }
}

/// Whether every sum of amounts that the job takes can be counted in 64 bits.
pub open spec fn creation_sums_fit(
    s: SessionView,
    w: WalletView,
    funding: Seq<FundingView>,
    network: Network,
) -> bool {
    creation_start(s) == Ok::<Option<PsbtHash>, JobsFault>(None) && wallet_activation(
        w.events,
    ) is Some ==> spend_sums_fit(
        session_spend(s),
        (wallet_activation(w.events)->0).0,
        funding,
        network,
    )
}

/// Builds the unsigned document of a session that waits for it, stores it and records its
/// address. The session then collects signatures. Where the document is there already, its
/// address is returned and nothing is done.
pub fn run_psbt_creation<B: BlobStore>(
    session: &mut PsbtSession,
    wallet: &Wallet,
    blobs: &mut B,
    funding: &[FundingUtxo],
    network: Network,
) -> (r: Result<PsbtHash, JobsError>)
    requires
        creation_sums_fit(old(session)@, wallet@, funding_views(funding@), network),
    ensures
        ({
            let (after, store, answer) = creation_outcome(
                old(session)@,
                wallet@,
                old(blobs).blobs(),
                funding_views(funding@),
                network,
            );
            &&& final(session)@ == after
            &&& final(blobs).blobs() == store
            &&& match r {
                Ok(h) => answer == Ok::<PsbtHash, JobsFault>(h),
                Err(e) => answer == Err::<PsbtHash, JobsFault>(e@),
            }
        }),
{
    match start_psbt_creation(session) {
        Err(e) => {
            return Err(e);
        },
        Ok(Some(hash)) => {
            return Ok(hash);
        },
        Ok(None) => {},
    }
    let spend: SpendSpec = session.spend();
    match wallet.descriptor() {
        None => Err(JobsError::WalletNotActive(wallet.id())),
        Some(descriptor) => match build_unsigned_psbt(&spend, descriptor, funding, network) {
            Err(e) => Err(JobsError::Wallet(e)),
            Ok(psbt) => {
                let document: Vec<u8> = psbt.serialize();
                record_document(session, blobs, document.as_slice())
            },
        },
    }
}

/// Does what [`run_psbt_creation`] does. There is no answer, and nothing changes, where a sum of
/// amounts cannot be counted.
pub fn try_run_psbt_creation<B: BlobStore>(
    session: &mut PsbtSession,
    wallet: &Wallet,
    blobs: &mut B,
    funding: &[FundingUtxo],
    network: Network,
) -> (r: Option<Result<PsbtHash, JobsError>>)
    ensures
        ({
            let fits = creation_sums_fit(
                old(session)@,
                wallet@,
                funding_views(funding@),
                network,
            );
            let (after, store, answer) = creation_outcome(
                old(session)@,
                wallet@,
                old(blobs).blobs(),
                funding_views(funding@),
                network,
            );
            match r {
                None => !fits && final(session)@ == old(session)@ && final(blobs).blobs() == old(
                    blobs,
                ).blobs(),
                Some(given) => {
                    &&& fits
                    &&& final(session)@ == after
                    &&& final(blobs).blobs() == store
                    &&& match given {
                        Ok(h) => answer == Ok::<PsbtHash, JobsFault>(h),
                        Err(e) => answer == Err::<PsbtHash, JobsFault>(e@),
                    }
                },
            }
        }),
{
    let spend: SpendSpec = session.spend();
    match (start_psbt_creation(session), wallet.descriptor()) {
        (Ok(None), Some(descriptor)) => {
            if !check_amounts(&spend, descriptor, funding, network) {
                return None;
            }
        },
        _ => {},
    }
    Some(run_psbt_creation(session, wallet, blobs, funding, network))
}

/// Trying again is harmless: once the job has succeeded, running it again gives the same address
/// and changes neither the session nor the store.
pub proof fn law_creation_is_idempotent(
    s: SessionView,
    w: WalletView,
    blobs: Map<PsbtHash, Seq<u8>>,
    funding: Seq<FundingView>,
    network: Network,
)
    requires
        creation_outcome(s, w, blobs, funding, network).2 is Ok,
        crate::psbt_session::laws::session_sound(s),
    ensures
        ({
            let (after, store, answer) = creation_outcome(s, w, blobs, funding, network);
            creation_outcome(after, w, store, funding, network) == (after, store, answer)
        }),
{
}

/// Where the document is there already, the job gives its address and touches nothing; where the
/// session waits for none, it says so and touches nothing; and where it builds one, the document
/// is stored under the address that is returned, and the session collects signatures for it.
pub proof fn law_created_document_is_stored(
    s: SessionView,
    w: WalletView,
    blobs: Map<PsbtHash, Seq<u8>>,
    funding: Seq<FundingView>,
    network: Network,
)
    requires
        crate::psbt_session::laws::session_sound(s),
    ensures
        ({
            let status = session_status(s.events);
            let (after, store, answer) = creation_outcome(s, w, blobs, funding, network);
            match s.unsigned_psbt_hash {
                Some(hash) => after == s && store == blobs && answer == Ok::<PsbtHash, JobsFault>(
                    hash,
                ),
                None => if status != PsbtSessionStatus::Pending {
                    after == s && store == blobs && answer == Err::<PsbtHash, JobsFault>(
                        JobsFault::UnexpectedStatus { id: s.id, status, expected: "pending"@ },
                    )
                } else {
                    answer is Ok ==> {
                        &&& session_document(s, w, funding, network) is Ok
                        &&& store.dom().contains(answer->Ok_0)
                        &&& store[answer->Ok_0] == session_document(s, w, funding, network)->Ok_0
                        &&& answer->Ok_0 == content_hash(store[answer->Ok_0])
                        &&& after.unsigned_psbt_hash == Some(answer->Ok_0)
                        &&& session_status(after.events) == PsbtSessionStatus::Collecting
                    }
                },
            }
        }),
{
}

} // verus!
