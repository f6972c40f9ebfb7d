//! What the operations on a wallet are for, in terms of what is asked and what is on record.

use vstd::prelude::*;
use vstd::utf8::encode_utf8;

use crate::primitives::{sha256, Idempotent, KeyFingerprint, UserId};
use crate::text::{lemma_text_order_total, text_le, text_order};
use crate::wallet::descriptor::{
    descriptor_body, distinct, key_parts, key_texts, keystore_views, lemma_sorted_keystores,
    policy_descriptor, sorted_keystores, wsh_sortedmulti, DescriptorPublicKey, DescriptorView,
    KeystoreView,
};
use crate::wallet::entity::{
    cancel_outcome, completed_descriptor, first_repeated, hydrated, keystore_outcome, pending,
    policy_fault, registered, registration, removal_outcome, submission_of, submitted_keystores,
    wallet_activation, wallet_events, wallet_status, wallet_submissions, without_participant,
    NewWalletView, SubmissionView, WalletEvent, WalletEventView, WalletView,
};
use crate::wallet::error::WalletFault;
use crate::wallet::primitives::WalletStatus;

verus! {

/// Whether an event changes the status of a wallet.
pub open spec fn is_turn(e: WalletEventView) -> bool {
    e is Activated || e is Cancelled
}

/// The status of a wallet is that of the latest event which changes it; as long as there is none,
/// the wallet collects keystores.
pub proof fn law_status_is_that_of_the_latest_turn(events: Seq<WalletEventView>, i: int)
    ensures
        (forall|j: int| 0 <= j < events.len() ==> !is_turn(#[trigger] events[j])) ==> wallet_status(
            events,
        ) == WalletStatus::CollectingKeystores,
        0 <= i < events.len() && is_turn(events[i]) && (forall|j: int|
            i < j < events.len() ==> !is_turn(#[trigger] events[j])) ==> wallet_status(events) == (
        if events[i] is Activated {
            WalletStatus::Active
        } else {
            WalletStatus::Cancelled
        }),
    decreases events.len(),
{
    if events.len() > 0 {
        let init = events.drop_last();
        law_status_is_that_of_the_latest_turn(init, i);
        assert(events.last() == events[events.len() - 1]);
        assert forall|j: int| 0 <= j < init.len() implies init[j] == #[trigger] events[j] by {}
    }
}

/// A wallet is what its record tells: the policy of the latest registration, and the record
/// itself. Without a registration there is none.
pub proof fn law_wallet_is_what_its_record_tells(events: Seq<WalletEventView>, i: int)
    ensures
        hydrated(events) is Some <==> exists|k: int|
            0 <= k < events.len() && #[trigger] events[k] is Initialized,
        hydrated(events) is Some ==> (hydrated(events)->0).events == events,
        0 <= i < events.len() && events[i] is Initialized && (forall|k: int|
            i < k < events.len() ==> !(#[trigger] events[k] is Initialized)) ==> {
            let w = hydrated(events)->0;
            events[i] == (WalletEventView::Initialized {
                id: w.id,
                network: w.network,
                threshold: w.threshold,
                participants: w.participants,
            })
        },
{
    lemma_latest_registration(events, i);
}

proof fn lemma_latest_registration(events: Seq<WalletEventView>, i: int)
    ensures
        registered(events) is Some <==> exists|k: int|
            0 <= k < events.len() && #[trigger] events[k] is Initialized,
        registered(events) is Some ==> (registered(events)->0) is Initialized,
        0 <= i < events.len() && events[i] is Initialized && (forall|k: int|
            i < k < events.len() ==> !(#[trigger] events[k] is Initialized)) ==> registered(events)
            == Some(events[i]),
    decreases events.len(),
{
    if events.len() > 0 {
        let init = events.drop_last();
        lemma_latest_registration(init, i);
        assert(events.last() == events[events.len() - 1]);
        assert forall|j: int| 0 <= j < init.len() implies init[j] == #[trigger] events[j] by {}
        if exists|k: int| 0 <= k < init.len() && #[trigger] init[k] is Initialized {
            let k = choose|k: int| 0 <= k < init.len() && #[trigger] init[k] is Initialized;
            assert(events[k] is Initialized);
        }
    }
}

/// A wallet that is registered is the one that was asked for: it has the id, the network, the
/// threshold and the participants as given, collects keystores and holds none.
pub proof fn law_registration_records_what_was_asked(new: NewWalletView)
    ensures
        ({
            let events = seq![registration(new)];
            &&& hydrated(events) is Some
            &&& (hydrated(events)->0).id == new.id
            &&& (hydrated(events)->0).network == new.network
            &&& (hydrated(events)->0).threshold == new.threshold
            &&& (hydrated(events)->0).participants == new.participants
            &&& wallet_status(events) == WalletStatus::CollectingKeystores
            &&& wallet_submissions(events).len() == 0
            &&& wallet_activation(events) is None
        }),
{
    let events = seq![registration(new)];
    assert(events[0] is Initialized);
    law_wallet_is_what_its_record_tells(events, 0);
    law_status_is_that_of_the_latest_turn(events, 0);
    reveal_with_fuel(wallet_submissions, 2);
    reveal_with_fuel(wallet_activation, 2);
    assert(events.drop_last() =~= Seq::<WalletEventView>::empty());
}

/// A policy is good exactly where it asks for at least one signature, for no more than there are
/// participants, and no participant is named twice. Else the answer says which of these fails; a
/// participant who is named twice is the first for whom that is seen.
pub proof fn law_policy_is_judged(threshold: u32, participants: Seq<UserId>)
    ensures
        ({
            let fault = policy_fault(threshold, participants);
            if threshold == 0 || threshold > participants.len() {
                fault == Some(
                    WalletFault::InvalidPolicy {
                        threshold,
                        total_keystores: participants.len() as u32,
                    },
                )
            } else if exists|i: int, j: int|
                0 <= i < j < participants.len() && #[trigger] participants[i]
                    == #[trigger] participants[j] {
                &&& fault is Some
                &&& fault->0 is DuplicateParticipant
                &&& exists|i: int, j: int|
                    {
                        &&& 0 <= i < j < participants.len()
                        &&& #[trigger] participants[i] == fault->0->DuplicateParticipant_0
                        &&& #[trigger] participants[j] == fault->0->DuplicateParticipant_0
                        &&& participants.take(j).no_duplicates()
                    }
            } else {
                fault is None
            }
        }),
{
    lemma_first_repeated(participants);
    if exists|i: int, j: int|
        0 <= i < j < participants.len() && #[trigger] participants[i]
            == #[trigger] participants[j] {
        assert(!participants.no_duplicates());
    } else {
        assert(participants.no_duplicates()) by {
            assert forall|i: int, j: int|
                0 <= i < participants.len() && 0 <= j < participants.len() && i
                    != j implies participants[i] != participants[j] by {
                if i < j {
                    assert(participants[i] != participants[j]);
                } else {
                    assert(participants[j] != participants[i]);
                }
            }
        }
    }
}

proof fn lemma_first_repeated(users: Seq<UserId>)
    ensures
        match first_repeated(users) {
            None => users.no_duplicates(),
            Some(u) => !users.no_duplicates() && exists|i: int, j: int|
                {
                    &&& 0 <= i < j < users.len()
                    &&& #[trigger] users[i] == u
                    &&& #[trigger] users[j] == u
                    &&& users.take(j).no_duplicates()
                },
        },
    decreases users.len(),
{
    if users.len() > 0 {
        let init = users.drop_last();
        let n = users.len() - 1;
        lemma_first_repeated(init);
        assert forall|i: int| 0 <= i < n implies #[trigger] users[i] == init[i] by {}
        match first_repeated(init) {
            Some(u) => {
                let (i, j) = choose|i: int, j: int|
                    {
                        &&& 0 <= i < j < init.len()
                        &&& #[trigger] init[i] == u
                        &&& #[trigger] init[j] == u
                        &&& init.take(j).no_duplicates()
                    };
                assert(users[i] == u && users[j] == u);
                assert(users.take(j) =~= init.take(j));
            },
            None => {
                if init.contains(users.last()) {
                    let i = choose|i: int| 0 <= i < init.len() && init[i] == users.last();
                    assert(users[i] == users[n]);
                    assert(users.take(n) =~= init);
                } else {
                    assert forall|i: int, j: int|
                        0 <= i < users.len() && 0 <= j < users.len() && i != j implies users[i]
                        != users[j] by {
                        if i < n && j < n {
                            assert(init[i] != init[j]);
                        } else if i < n {
                            assert(init[i] != users.last());
                        } else {
                            assert(init[j] != users.last());
                        }
                    }
                }
            },
        }
    }
}

/// Whether the keystore of a participant was withdrawn after an event.
pub open spec fn withdrawn_after(events: Seq<WalletEventView>, i: int, p: UserId) -> bool {
    exists|j: int|
        i < j < events.len() && (#[trigger] events[j]) is KeystoreRemoved
            && events[j]->KeystoreRemoved_participant == p
}

/// Whether an event adds a keystore that is not withdrawn later.
pub open spec fn adds_for_good(events: Seq<WalletEventView>, i: int) -> bool {
    &&& 0 <= i < events.len()
    &&& events[i] is KeystoreAdded
    &&& !withdrawn_after(events, i, events[i]->KeystoreAdded_submitted_by)
}

/// Whether submissions are those that the events at these places record, one by one.
pub open spec fn come_from(
    events: Seq<WalletEventView>,
    subs: Seq<SubmissionView>,
    places: Seq<int>,
) -> bool {
    &&& places.len() == subs.len()
    &&& forall|k: int, l: int|
        0 <= k < l < places.len() ==> #[trigger] places[k] < #[trigger] places[l]
    &&& forall|k: int|
        0 <= k < places.len() ==> 0 <= #[trigger] places[k] < events.len() && events[places[k]] == (
        WalletEventView::KeystoreAdded {
            keystore: subs[k].keystore,
            submitted_by: subs[k].participant,
        })
}

/// The keystores that a wallet holds are those that were added and not withdrawn later, each with
/// the participant who submitted it, in the order of submission.
pub proof fn law_held_keystores_were_not_withdrawn(events: Seq<WalletEventView>)
    ensures
        exists|places: Seq<int>|
            {
                &&& #[trigger] come_from(events, wallet_submissions(events), places)
                &&& forall|i: int| places.contains(i) <==> #[trigger] adds_for_good(events, i)
            },
{
    let places = lemma_places(events);
    assert(come_from(events, wallet_submissions(events), places));
}

/// The places of those submissions that are not a participant's.
proof fn lemma_places_without(
    events: Seq<WalletEventView>,
    subs: Seq<SubmissionView>,
    places: Seq<int>,
    p: UserId,
) -> (r: Seq<int>)
    requires
        come_from(events, subs, places),
    ensures
        come_from(events, without_participant(subs, p), r),
        forall|i: int| #[trigger]
            r.contains(i) <==> places.contains(i) && 0 <= i < events.len()
                && events[i]->KeystoreAdded_submitted_by != p,
        r.len() > 0 ==> places.len() > 0 && r.last() <= places.last(),
    decreases subs.len(),
{
    if subs.len() == 0 {
        let r = Seq::<int>::empty();
        assert(without_participant(subs, p) =~= Seq::<SubmissionView>::empty());
        r
    } else {
        let n = subs.len() - 1;
        let last = places[n];
        assert(places.last() == last);
        let before = lemma_places_without(events, subs.drop_last(), places.drop_last(), p);
        let init = places.drop_last();
        assert forall|i: int| #[trigger] places.contains(i) <==> init.contains(i) || i == last by {
            if places.contains(i) && i != last {
                let k = choose|k: int| 0 <= k < places.len() && places[k] == i;
                assert(init[k] == i);
            }
            if init.contains(i) {
                let k = choose|k: int| 0 <= k < init.len() && init[k] == i;
                assert(places[k] == i);
            }
            assert(places[n] == last);
        }
        assert(events[last]->KeystoreAdded_submitted_by == subs[n].participant);
        if subs.last().participant == p {
            if before.len() > 0 {
                assert(init.last() == places[n - 1] && places[n - 1] < places[n]);
            }
            before
        } else {
            let r = before.push(last);
            if before.len() > 0 {
                assert(init.last() == places[n - 1] && places[n - 1] < places[n]);
            }
            assert forall|k: int, l: int| 0 <= k < l < r.len() implies #[trigger] r[k]
                < #[trigger] r[l] by {
                if l < before.len() {
                    assert(before[k] < before[l]);
                } else if k < before.len() - 1 {
                    assert(before[k] < before[before.len() - 1]);
                }
            }
            assert forall|k: int| 0 <= k < r.len() implies 0 <= #[trigger] r[k] < events.len()
                && events[r[k]] == (WalletEventView::KeystoreAdded {
                keystore: without_participant(subs, p)[k].keystore,
                submitted_by: without_participant(subs, p)[k].participant,
            }) by {
                if k < before.len() {
                    assert(r[k] == before[k]);
                }
            }
            assert forall|i: int| #[trigger] r.contains(i) <==> places.contains(i) && 0 <= i
                < events.len() && events[i]->KeystoreAdded_submitted_by != p by {
                if before.contains(i) {
                    let k = choose|k: int| 0 <= k < before.len() && before[k] == i;
                    assert(r[k] == i);
                }
                if r.contains(i) && i != last {
                    let k = choose|k: int| 0 <= k < r.len() && r[k] == i;
                    assert(before[k] == i);
                }
                assert(r[before.len() as int] == last);
                assert(before.contains(i) <==> init.contains(i) && 0 <= i < events.len()
                    && events[i]->KeystoreAdded_submitted_by != p);
            }
            r
        }
    }
}

/// The places of the submissions that are held.
proof fn lemma_places(events: Seq<WalletEventView>) -> (places: Seq<int>)
    ensures
        come_from(events, wallet_submissions(events), places),
        forall|i: int| places.contains(i) <==> #[trigger] adds_for_good(events, i),
    decreases events.len(),
{
    if events.len() == 0 {
        let r = Seq::<int>::empty();
        assert(wallet_submissions(events) =~= Seq::<SubmissionView>::empty());
        r
    } else {
        let init = events.drop_last();
        let n = events.len() - 1;
        let e = events[n];
        assert(e == events.last());
        let before = lemma_places(init);
        let subs = wallet_submissions(init);
        assert forall|i: int| 0 <= i < n implies #[trigger] events[i] == init[i] by {}
        assert(come_from(events, subs, before));
        assert forall|i: int, p: UserId| 0 <= i < n implies #[trigger] withdrawn_after(events, i, p)
            == (withdrawn_after(init, i, p) || (e is KeystoreRemoved
            && e->KeystoreRemoved_participant == p)) by {
            if withdrawn_after(init, i, p) {
                let j = choose|j: int|
                    i < j < init.len() && (#[trigger] init[j]) is KeystoreRemoved
                        && init[j]->KeystoreRemoved_participant == p;
                assert(events[j] is KeystoreRemoved);
            }
            if withdrawn_after(events, i, p) {
                let j = choose|j: int|
                    i < j < events.len() && (#[trigger] events[j]) is KeystoreRemoved
                        && events[j]->KeystoreRemoved_participant == p;
                if j < n {
                    assert(init[j] is KeystoreRemoved);
                }
            }
            if e is KeystoreRemoved && e->KeystoreRemoved_participant == p {
                assert(events[n] is KeystoreRemoved);
            }
        }
        match e {
            WalletEventView::KeystoreAdded { keystore, submitted_by } => {
                let r = before.push(n);
                assert forall|k: int, l: int| 0 <= k < l < r.len() implies #[trigger] r[k]
                    < #[trigger] r[l] by {
                    assert(r[k] == before[k]);
                    if l < before.len() {
                        assert(before[k] < before[l]);
                    } else {
                        assert(before[k] < init.len());
                    }
                }
                assert forall|i: int| r.contains(i) <==> #[trigger] adds_for_good(events, i) by {
                    if 0 <= i < n {
                        assert(before.contains(i) <==> adds_for_good(init, i));
                        if before.contains(i) {
                            let k = choose|k: int| 0 <= k < before.len() && before[k] == i;
                            assert(r[k] == i);
                        }
                        if r.contains(i) {
                            let k = choose|k: int| 0 <= k < r.len() && r[k] == i;
                            assert(before[k] == i);
                        }
                        if adds_for_good(events, i) {
                            assert(init[i] is KeystoreAdded);
                            assert(!withdrawn_after(
                                init,
                                i,
                                init[i]->KeystoreAdded_submitted_by,
                            ));
                        }
                    } else if r.contains(i) {
                        let k = choose|k: int| 0 <= k < r.len() && r[k] == i;
                        if k < before.len() {
                            assert(0 <= before[k] < init.len());
                        }
                    }
                    assert(r[before.len() as int] == n);
                }
                r
            },
            WalletEventView::KeystoreRemoved { participant, .. } => {
                let r = lemma_places_without(events, subs, before, participant);
                assert forall|i: int| r.contains(i) <==> #[trigger] adds_for_good(events, i) by {
                    assert(before.contains(i) <==> adds_for_good(init, i));
                    if 0 <= i < n {
                        let p = events[i]->KeystoreAdded_submitted_by;
                        assert(withdrawn_after(events, i, p) == (withdrawn_after(init, i, p)
                            || participant == p));
                    }
                }
                r
            },
            _ => {
                assert forall|i: int| before.contains(i) <==> #[trigger] adds_for_good(
                    events,
                    i,
                ) by {
                    assert(before.contains(i) <==> adds_for_good(init, i));
                    if 0 <= i < n {
                        let p = events[i]->KeystoreAdded_submitted_by;
                        assert(withdrawn_after(events, i, p) == withdrawn_after(init, i, p));
                    }
                }
                before
            },
        }
    }
}

/// The keystore of a participant is the first that is held of them; there is none exactly where
/// none is held.
pub proof fn law_keystore_of_participant(subs: Seq<SubmissionView>, p: UserId, i: int)
    ensures
        (forall|j: int| 0 <= j < subs.len() ==> (#[trigger] subs[j]).participant != p)
            ==> submission_of(subs, p) is None,
        0 <= i < subs.len() && subs[i].participant == p && (forall|j: int|
            0 <= j < i ==> (#[trigger] subs[j]).participant != p) ==> submission_of(subs, p) == Some(
            subs[i].keystore,
        ),
    decreases subs.len(),
{
    if subs.len() > 0 {
        let init = subs.drop_last();
        law_keystore_of_participant(init, p, i);
        assert forall|j: int| 0 <= j < init.len() implies init[j] == #[trigger] subs[j] by {}
        assert(subs.last() == subs[subs.len() - 1]);
    }
}

/// The participants who are still awaited are those without a keystore, in the order of the
/// policy.
pub proof fn law_awaited_participants_hold_no_keystore(
    participants: Seq<UserId>,
    subs: Seq<SubmissionView>,
)
    ensures
        pending(participants, subs) == participants.filter(
            |p: UserId|
                forall|j: int| 0 <= j < subs.len() ==> (#[trigger] subs[j]).participant != p,
        ),
    decreases participants.len(),
{
    reveal(Seq::filter);
    if participants.len() > 0 {
        law_awaited_participants_hold_no_keystore(participants.drop_last(), subs);
        lemma_held(subs, participants.last());
    } else {
        assert(pending(participants, subs) =~= participants);
    }
}

proof fn lemma_held(subs: Seq<SubmissionView>, p: UserId)
    ensures
        submission_of(subs, p) is None <==> forall|j: int|
            0 <= j < subs.len() ==> (#[trigger] subs[j]).participant != p,
    decreases subs.len(),
{
    if subs.len() > 0 {
        let init = subs.drop_last();
        lemma_held(init, p);
        assert forall|j: int| 0 <= j < init.len() implies init[j] == #[trigger] subs[j] by {}
        assert(subs.last() == subs[subs.len() - 1]);
    }
}

/// The descriptor of a wallet is the one that its first activation records, with its fingerprint.
pub proof fn law_descriptor_is_that_of_the_first_activation(
    events: Seq<WalletEventView>,
    i: int,
)
    ensures
        (forall|j: int| 0 <= j < events.len() ==> !(#[trigger] events[j] is Activated))
            ==> wallet_activation(events) is None,
        0 <= i < events.len() && events[i] is Activated && (forall|j: int|
            0 <= j < i ==> !(#[trigger] events[j] is Activated)) ==> wallet_activation(events)
            == Some(
            (
                events[i]->Activated_descriptor,
                events[i]->Activated_descriptor_fingerprint,
            ),
        ),
    decreases events.len(),
{
    if events.len() > 0 {
        let init = events.drop_last();
        law_descriptor_is_that_of_the_first_activation(init, i);
        assert forall|j: int| 0 <= j < init.len() implies init[j] == #[trigger] events[j] by {}
        assert(events.last() == events[events.len() - 1]);
    }
}

/// What comes of a submitted keystore. The one that the participant has already is old news,
/// whatever the status. Else the wallet must still collect; the user must be a participant without
/// a keystore, and no other keystore may come from the same master key. It is then recorded; where
/// it is the last one, the wallet becomes active in the same step, with the descriptor that all
/// keystores form and the fingerprint of the network and that descriptor, and where they form none
/// nothing is recorded.
pub proof fn law_keystore_is_taken_in(w: WalletView, keystore: KeystoreView, by: UserId)
    ensures
        ({
            let subs = wallet_submissions(w.events);
            let status = wallet_status(w.events);
            let all = Seq::new(
                subs.len() + 1,
                |i: int|
                    if i < subs.len() {
                        subs[i].keystore
                    } else {
                        keystore
                    },
            );
            let formed = policy_descriptor(w.threshold as nat, all);
            let added = WalletEventView::KeystoreAdded { keystore, submitted_by: by };
            let (after, answer) = keystore_outcome(
                w,
                keystore,
                by,
                completed_descriptor(w, keystore),
            );
            let refused = |e: WalletFault|
                after == w && answer == Err::<Idempotent<()>, WalletFault>(e);
            if submission_of(subs, by) == Some(keystore) {
                after == w && answer == Ok::<Idempotent<()>, WalletFault>(
                    Idempotent::AlreadyApplied,
                )
            } else if status == WalletStatus::Active {
                refused(WalletFault::AlreadyActive)
            } else if status == WalletStatus::Cancelled {
                refused(WalletFault::Cancelled)
            } else if !(exists|i: int|
                0 <= i < w.participants.len() && #[trigger] w.participants[i] == by) {
                refused(WalletFault::NotAParticipant(by))
            } else if exists|i: int| 0 <= i < subs.len() && (#[trigger] subs[i]).participant == by {
                refused(WalletFault::ParticipantAlreadySubmitted(by))
            } else if exists|i: int|
                0 <= i < subs.len() && (#[trigger] subs[i]).keystore.fingerprint
                    == keystore.fingerprint {
                refused(WalletFault::DuplicateKeystore(keystore.fingerprint))
            } else if subs.len() + 1 != w.participants.len() {
                &&& answer == Ok::<Idempotent<()>, WalletFault>(Idempotent::Executed(()))
                &&& after == (WalletView { events: w.events.push(added), ..w })
            } else {
                match formed {
                    Err(e) => refused(e),
                    Ok(descriptor) => {
                        &&& answer == Ok::<Idempotent<()>, WalletFault>(Idempotent::Executed(()))
                        &&& after == (WalletView {
                            events: w.events.push(added).push(
                                WalletEventView::Activated {
                                    descriptor,
                                    descriptor_fingerprint: sha256(
                                        encode_utf8(w.network.name_spec()) + seq![0x3au8]
                                            + descriptor_body(encode_utf8(descriptor.text)),
                                    ),
                                },
                            ),
                            ..w
                        })
                    },
                }
            }
        }),
{
    let subs = wallet_submissions(w.events);
    lemma_held(subs, by);
    let all = Seq::new(
        subs.len() + 1,
        |i: int|
            if i < subs.len() {
                subs[i].keystore
            } else {
                keystore
            },
    );
    assert(all =~= submitted_keystores(subs).push(keystore));
    if w.participants.contains(by) {
        let i = choose|i: int| 0 <= i < w.participants.len() && w.participants[i] == by;
        assert(w.participants[i] == by);
    }
}

/// What comes of withdrawing a participant's keystore: only a wallet that still collects gives one
/// back; where the participant has none it is old news; else the withdrawal is recorded with the
/// keystore, and the participant holds none afterwards.
pub proof fn law_keystore_is_withdrawn(w: WalletView, participant: UserId, by: UserId)
    ensures
        ({
            let subs = wallet_submissions(w.events);
            let status = wallet_status(w.events);
            let (after, answer) = removal_outcome(w, participant, by);
            if status == WalletStatus::Active {
                after == w && answer == Err::<Idempotent<()>, WalletFault>(
                    WalletFault::AlreadyActive,
                )
            } else if status == WalletStatus::Cancelled {
                after == w && answer == Err::<Idempotent<()>, WalletFault>(WalletFault::Cancelled)
            } else if forall|j: int|
                0 <= j < subs.len() ==> (#[trigger] subs[j]).participant != participant {
                after == w && answer == Ok::<Idempotent<()>, WalletFault>(
                    Idempotent::AlreadyApplied,
                )
            } else {
                &&& answer == Ok::<Idempotent<()>, WalletFault>(Idempotent::Executed(()))
                &&& submission_of(subs, participant) is Some
                &&& after == (WalletView {
                    events: w.events.push(
                        WalletEventView::KeystoreRemoved {
                            participant,
                            keystore: submission_of(subs, participant)->0,
                            removed_by: by,
                        },
                    ),
                    ..w
                })
                &&& submission_of(wallet_submissions(after.events), participant) is None
                &&& forall|p: UserId|
                    p != participant ==> #[trigger] submission_of(
                        wallet_submissions(after.events),
                        p,
                    ) == submission_of(subs, p)
            }
        }),
{
    let subs = wallet_submissions(w.events);
    let after = removal_outcome(w, participant, by).0;
    lemma_held(subs, participant);
    if after.events.len() > w.events.len() {
        assert(after.events.drop_last() =~= w.events);
        lemma_others_stay(subs, participant);
    }
}

proof fn lemma_others_stay(subs: Seq<SubmissionView>, q: UserId)
    ensures
        submission_of(without_participant(subs, q), q) is None,
        forall|p: UserId|
            p != q ==> #[trigger] submission_of(without_participant(subs, q), p) == submission_of(
                subs,
                p,
            ),
    decreases subs.len(),
{
    if subs.len() > 0 {
        lemma_others_stay(subs.drop_last(), q);
        let before = without_participant(subs.drop_last(), q);
        if subs.last().participant != q {
            assert(before.push(subs.last()).drop_last() =~= before);
        }
        assert forall|p: UserId| p != q implies #[trigger] submission_of(
            without_participant(subs, q),
            p,
        ) == submission_of(subs, p) by {
            assert(submission_of(before, p) == submission_of(subs.drop_last(), p));
        }
    } else {
        assert(without_participant(subs, q) =~= subs);
    }
}

/// What comes of giving a wallet up: an active one cannot be given up, giving up twice is old
/// news, and else it is recorded with who did it and why.
pub proof fn law_wallet_can_be_given_up_until_it_is_active(
    w: WalletView,
    by: UserId,
    reason: Seq<char>,
)
    ensures
        ({
            let (after, answer) = cancel_outcome(w, by, reason);
            if exists|i: int| 0 <= i < w.events.len() && #[trigger] w.events[i] is Cancelled {
                after == w && answer == Ok::<Idempotent<()>, WalletFault>(
                    Idempotent::AlreadyApplied,
                )
            } else if wallet_status(w.events) == WalletStatus::Active {
                after == w && answer == Err::<Idempotent<()>, WalletFault>(
                    WalletFault::CannotCancelActive,
                )
            } else {
                &&& answer == Ok::<Idempotent<()>, WalletFault>(Idempotent::Executed(()))
                &&& after == (WalletView {
                    events: w.events.push(WalletEventView::Cancelled { cancelled_by: by, reason }),
                    ..w
                })
                &&& wallet_status(after.events) == WalletStatus::Cancelled
            }
        }),
{
    let after = cancel_outcome(w, by, reason).0;
    law_status_is_that_of_the_latest_turn(after.events, after.events.len() - 1);
}

/// The descriptor of a policy is built of all its keystores, put in the order of their texts, for
/// the threshold; a threshold of zero, one above the number of keys and more than twenty keys are
/// refused.
pub proof fn law_policy_descriptor_holds_every_keystore(
    threshold: nat,
    keystores: Seq<KeystoreView>,
)
    ensures
        ({
            let formed = policy_descriptor(threshold, keystores);
            let total = keystores.len();
            if threshold == 0 || threshold > total || total > 20 {
                formed == Err::<DescriptorView, WalletFault>(
                    WalletFault::Threshold { threshold, total },
                )
            } else {
                exists|order: Seq<KeystoreView>|
                    {
                        &&& #[trigger] order.to_multiset() == keystores.to_multiset()
                        &&& forall|i: int, j: int|
                            0 <= i < j < order.len() ==> text_le(
                                (#[trigger] order[i]).text,
                                (#[trigger] order[j]).text,
                            )
                        &&& {
                            let texts = Seq::new(order.len(), |i: int| order[i].text);
                            match wsh_sortedmulti(threshold, texts) {
                                Err(e) => formed == Err::<DescriptorView, WalletFault>(
                                    WalletFault::Miniscript(e),
                                ),
                                Ok(text) => formed == Ok::<DescriptorView, WalletFault>(
                                    DescriptorView {
                                        text,
                                        keys: Seq::new(order.len(), |i: int| order[i].parts),
                                    },
                                ),
                            }
                        }
                    }
            }
        }),
{
    let order = sorted_keystores(keystores);
    lemma_sorted_keystores(keystores);
    lemma_text_order_total();
    let texts = key_texts(keystores);
    texts.lemma_sort_by_ensures(text_order());
    let leq = text_order();
    assert forall|i: int, j: int| 0 <= i < j < order.len() implies text_le(
        (#[trigger] order[i]).text,
        (#[trigger] order[j]).text,
    ) by {
        assert(key_texts(order)[i] == order[i].text && key_texts(order)[j] == order[j].text);
        assert(leq(key_texts(order)[i], key_texts(order)[j]));
    }
    assert(key_texts(order) =~= Seq::new(order.len(), |i: int| order[i].text));
    assert(key_parts(order) =~= Seq::new(order.len(), |i: int| order[i].parts));
    assert(order.to_multiset() == keystores.to_multiset());
}

/// Distinct fingerprints are told in the order in which each is met first.
pub proof fn law_distinct_keeps_first_occurrences(fingerprints: Seq<KeyFingerprint>, n: int)
    requires
        0 <= n < fingerprints.len(),
    ensures
        distinct(fingerprints.take(n + 1)) == (if fingerprints.take(n).contains(fingerprints[n]) {
            distinct(fingerprints.take(n))
        } else {
            distinct(fingerprints.take(n)).push(fingerprints[n])
        }),
        distinct(fingerprints.take(0)).len() == 0,
{
    let all = fingerprints.take(n + 1);
    assert(all.drop_last() =~= fingerprints.take(n));
    assert(all.last() == fingerprints[n]);
    crate::wallet::descriptor::law_distinct(fingerprints.take(n));
    assert(distinct(fingerprints.take(n)).contains(fingerprints[n]) <==> fingerprints.take(
        n,
    ).contains(fingerprints[n]));
}

/// What is said of the events and of the keystores of a list is said of each of them.
pub proof fn law_all_events_and_keystores_are_seen(
    events: Seq<WalletEvent>,
    keystores: Seq<DescriptorPublicKey>,
)
    ensures
        wallet_events(events).len() == events.len(),
        forall|i: int| 0 <= i < events.len() ==> #[trigger] wallet_events(events)[i] == events[i]@,
        keystore_views(keystores).len() == keystores.len(),
        forall|i: int|
            0 <= i < keystores.len() ==> #[trigger] keystore_views(keystores)[i] == keystores[i]@,
{
}

} // verus!
