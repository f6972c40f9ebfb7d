//! Coins that two sessions lay claim to.

use vstd::prelude::*;

use crate::psbt_session::entity::{session_status, PsbtSession, SessionView};
use crate::psbt_session::primitives::OutPointRef;
use crate::psbt_session::proposal::has_outpoint;

verus! {

/// What each session of a list holds.
pub open spec fn session_views(sessions: Seq<PsbtSession>) -> Seq<SessionView> {
    Seq::new(sessions.len(), |i: int| sessions[i]@)
}

/// The coins that were found, with those of the first `n` coins of a session that are wanted
/// and were not found before.
pub open spec fn with_claims(
    found: Seq<OutPointRef>,
    claimed: Seq<OutPointRef>,
    wanted: Seq<OutPointRef>,
    n: nat,
) -> Seq<OutPointRef>
    decreases n,
{
    if n == 0 {
        found
    } else {
        let before = with_claims(found, claimed, wanted, (n - 1) as nat);
        let o = claimed[n - 1];
        if wanted.contains(o) && !before.contains(o) {
            before.push(o)
        } else {
            before
        }
    }
}

/// The wanted coins to which the first `n` sessions lay claim, in the order in which they are
/// met, each once.
pub open spec fn conflicts(sessions: Seq<SessionView>, wanted: Seq<OutPointRef>, n: nat) -> Seq<
    OutPointRef,
>
    decreases n,
{
    if n == 0 {
        Seq::empty()
    } else {
        let before = conflicts(sessions, wanted, (n - 1) as nat);
        let s = sessions[n - 1];
        if session_status(s.events).claims_inputs_spec() {
            with_claims(before, s.inputs, wanted, s.inputs.len())
        } else {
            before
        }
    }
}

/// Whether a session lays claim to a coin.
pub open spec fn claims(s: SessionView, o: OutPointRef) -> bool {
    session_status(s.events).claims_inputs_spec() && s.inputs.contains(o)
}

/// The wanted coins to which sessions of a wallet lay claim. Proposing to spend one of them would
/// race that session: only one of the two transactions could ever confirm.
pub fn conflicting_inputs(sessions: &Vec<PsbtSession>, inputs: &Vec<OutPointRef>) -> (r: Vec<
    OutPointRef,
>)
    ensures
        r@ == conflicts(session_views(sessions@), inputs@, sessions@.len()),
{
    let ghost views = session_views(sessions@);
    let mut found: Vec<OutPointRef> = Vec::new();
    let mut i: usize = 0;
    while i < sessions.len()
        invariant
            i <= sessions@.len(),
            views == session_views(sessions@),
            found@ == conflicts(views, inputs@, i as nat),
        decreases sessions@.len() - i,
    {
        let session: &PsbtSession = &sessions[i];
        assert(views[i as int] == session@);
        if session.status().claims_inputs() {
            let claimed: &Vec<OutPointRef> = session.inputs();
            let ghost before = found@;
            let mut k: usize = 0;
            while k < claimed.len()
                invariant
                    k <= claimed@.len(),
                    found@ == with_claims(before, claimed@, inputs@, k as nat),
                decreases claimed@.len() - k,
            {
                if has_outpoint(inputs, &claimed[k]) && !has_outpoint(&found, &claimed[k]) {
                    found.push(claimed[k]);
                }
                k += 1;
            }
        }
        i += 1;
    }
    found
}

/// What one session adds to the coins that were found.
proof fn lemma_with_claims(
    found: Seq<OutPointRef>,
    claimed: Seq<OutPointRef>,
    wanted: Seq<OutPointRef>,
    n: nat,
)
    requires
        n <= claimed.len(),
        found.no_duplicates(),
    ensures
        with_claims(found, claimed, wanted, n).no_duplicates(),
        forall|o: OutPointRef| #[trigger]
            with_claims(found, claimed, wanted, n).contains(o) <==> (found.contains(o) || (
            wanted.contains(o) && claimed.take(n as int).contains(o))),
    decreases n,
{
    let r = with_claims(found, claimed, wanted, n);
    if n == 0 {
        assert(claimed.take(0) =~= Seq::<OutPointRef>::empty());
    } else {
        lemma_with_claims(found, claimed, wanted, (n - 1) as nat);
        let before = with_claims(found, claimed, wanted, (n - 1) as nat);
        let last = claimed[n - 1];
        let init = claimed.take(n - 1);
        let all = claimed.take(n as int);
        assert(all =~= init.push(last));
        assert forall|o: OutPointRef| all.contains(o) <==> (init.contains(o) || o == last) by {
            if init.contains(o) {
                let i = choose|i: int| 0 <= i < init.len() && init[i] == o;
                assert(all[i] == o);
            }
            if o == last {
                assert(all[n - 1] == o);
            }
            if all.contains(o) {
                let i = choose|i: int| 0 <= i < all.len() && all[i] == o;
                if i < n - 1 {
                    assert(init[i] == o);
                }
            }
        }
        assert forall|o: OutPointRef| #[trigger] r.contains(o) <==> (found.contains(o) || (
        wanted.contains(o) && all.contains(o))) by {
            assert(before.contains(o) <==> (found.contains(o) || (wanted.contains(o)
                && init.contains(o))));
            if before.contains(o) {
                let i = choose|i: int| 0 <= i < before.len() && before[i] == o;
                assert(r[i] == o);
            }
            if r.contains(o) {
                let i = choose|i: int| 0 <= i < r.len() && r[i] == o;
                if i < before.len() {
                    assert(before[i] == o);
                }
            }
            if o == last && wanted.contains(last) && !before.contains(last) {
                assert(r[before.len() as int] == o);
            }
        }
    }
}

/// The coins that are found are exactly the wanted ones to which some session lays claim, and
/// none is found twice.
pub proof fn law_conflicts_are_claimed_coins(
    sessions: Seq<SessionView>,
    wanted: Seq<OutPointRef>,
    n: nat,
)
    requires
        n <= sessions.len(),
    ensures
        conflicts(sessions, wanted, n).no_duplicates(),
        forall|o: OutPointRef| #[trigger]
            conflicts(sessions, wanted, n).contains(o) <==> (wanted.contains(o) && exists|i: int|
                0 <= i < n && claims(#[trigger] sessions[i], o)),
    decreases n,
{
    if n > 0 {
        law_conflicts_are_claimed_coins(sessions, wanted, (n - 1) as nat);
        let before = conflicts(sessions, wanted, (n - 1) as nat);
        let s = sessions[n - 1];
        lemma_with_claims(before, s.inputs, wanted, s.inputs.len());
        assert(s.inputs.take(s.inputs.len() as int) =~= s.inputs);
        let r = conflicts(sessions, wanted, n);
        assert forall|o: OutPointRef| #[trigger] r.contains(o) <==> (wanted.contains(o)
            && exists|i: int| 0 <= i < n && claims(#[trigger] sessions[i], o)) by {
            assert(before.contains(o) <==> (wanted.contains(o) && exists|i: int|
                0 <= i < n - 1 && claims(#[trigger] sessions[i], o)));
            if claims(s, o) {
                assert(claims(sessions[n - 1], o));
            }
        }
    }
}

} // verus!
