//! Taking in what is seen on the chain.

use vstd::prelude::*;

use crate::primitives::{BlockHash, Idempotent, Txid};
use crate::psbt_session::entity::{
    broadcast_outcome, confirm_outcome, invalidate_outcome, PsbtSession, SessionView,
};
use crate::psbt_session::error::{PsbtSessionError, SessionFault};
use crate::psbt_session::primitives::InvalidationReason;

verus! {

/// What was seen of the final transaction of a session.
#[derive(Debug, Clone, Copy)]
#[allow(inconsistent_fields)]
pub enum ChainObservation {
    /// It is on the network.
    Broadcast { txid: Txid },
    /// It is in a block.
    Confirmed { txid: Txid, height: u64, block_hash: BlockHash },
    /// It is no longer in the chain, or cannot get there. No state of the chain is final.
    Invalidated { reason: InvalidationReason },
}

/// What comes of an observation.
pub open spec fn observation_outcome(s: SessionView, o: ChainObservation) -> (
    SessionView,
    Result<Idempotent<()>, SessionFault>,
) {
    match o {
        ChainObservation::Broadcast { txid } => broadcast_outcome(s, txid),
        ChainObservation::Confirmed { txid, height, block_hash } => confirm_outcome(
            s,
            txid,
            height,
            block_hash,
        ),
        ChainObservation::Invalidated { reason } => invalidate_outcome(s, reason),
    }
}

/// Takes an observation into a session. Hearing of it again has no effect; the session needs to
/// be stored only where it took effect.
pub fn apply_chain_observation(session: &mut PsbtSession, observation: ChainObservation) -> (r:
    Result<Idempotent<()>, PsbtSessionError>)
    ensures
        ({
            let (after, answer) = observation_outcome(old(session)@, observation);
            &&& final(session)@ == after
            &&& match r {
                Ok(i) => answer == Ok::<Idempotent<()>, SessionFault>(i),
                Err(e) => answer == Err::<Idempotent<()>, SessionFault>(e@),
            }
        }),
{
    match observation {
        ChainObservation::Broadcast { txid } => session.mark_broadcast_seen(txid),
        ChainObservation::Confirmed { txid, height, block_hash } => session.confirm(
            txid,
            height,
            block_hash,
        ),
        ChainObservation::Invalidated { reason } => session.invalidate(reason),
    }
}

/// Only what took effect changes a session: after any other answer it is as it was.
pub proof fn law_observation_without_effect(s: SessionView, o: ChainObservation)
    requires
        observation_outcome(s, o).1 != Ok::<Idempotent<()>, SessionFault>(Idempotent::Executed(())),
    ensures
        observation_outcome(s, o).0 == s,
{
}

} // verus!
