//! What holds of a wallet over its life.

use vstd::prelude::*;

use crate::primitives::{sha256, Idempotent, UserId};
use crate::wallet::descriptor::{
    fingerprint_preimage, keystore_known, law_descriptor_ignores_key_order, policy_descriptor,
    DescriptorView, KeystoreView,
};
use crate::wallet::entity::{
    cancel_outcome, completed_descriptor, first_repeated, has_keystore_of, hydrated,
    keystore_outcome, keystore_step, pending, policy_fault, registered, registration,
    removal_outcome, submission_of, submitted_keystores, wallet_activation, wallet_status,
    wallet_submissions, was_cancelled, with_event, without_participant, KeystoreStep,
    NewWalletView, SubmissionView, WalletEventView, WalletView,
};
use crate::wallet::error::WalletFault;
use crate::wallet::primitives::WalletStatus;

verus! {

/// Whether the submissions are those of a policy: each by a participant, and no two by one
/// participant or with one fingerprint.
pub open spec fn submissions_sound(participants: Seq<UserId>, subs: Seq<SubmissionView>) -> bool {
    &&& forall|i: int|
        0 <= i < subs.len() ==> participants.contains((#[trigger] subs[i]).participant)
    &&& forall|i: int, j: int|
        0 <= i < j < subs.len() ==> (#[trigger] subs[i]).participant != (
        #[trigger] subs[j]).participant && subs[i].keystore.fingerprint
            != subs[j].keystore.fingerprint
}

/// The invariant of a wallet.
pub open spec fn wallet_sound(w: WalletView) -> bool {
    let subs = wallet_submissions(w.events);
    &&& policy_fault(w.threshold, w.participants) is None
    &&& hydrated(w.events) == Some(w)
    &&& submissions_sound(w.participants, subs)
    &&& match wallet_status(w.events) {
        WalletStatus::CollectingKeystores => {
            &&& subs.len() < w.participants.len()
            &&& wallet_activation(w.events) is None
            &&& !was_cancelled(w.events)
        },
        WalletStatus::Active => {
            &&& subs.len() == w.participants.len()
            &&& !was_cancelled(w.events)
            &&& match wallet_activation(w.events) {
                None => false,
                Some((descriptor, fingerprint)) => {
                    &&& policy_descriptor(
                        w.threshold as nat,
                        submitted_keystores(subs),
                    ) == Ok::<DescriptorView, WalletFault>(descriptor)
                    &&& fingerprint == sha256(fingerprint_preimage(w.network, descriptor.text))
                },
            }
        },
        WalletStatus::Cancelled => {
            &&& subs.len() < w.participants.len()
            &&& wallet_activation(w.events) is None
            &&& was_cancelled(w.events)
        },
    }
}

/// What one more event adds to what is read off a wallet.
proof fn lemma_with_event(w: WalletView, e: WalletEventView)
    ensures
        ({
            let n = with_event(w, e);
            let before = wallet_submissions(w.events);
            &&& n.events.drop_last() == w.events
            &&& n.events.last() == e
            &&& !(e is Initialized) ==> registered(n.events) == registered(w.events)
            &&& was_cancelled(n.events) == (was_cancelled(w.events) || e is Cancelled)
            &&& wallet_activation(n.events) == match wallet_activation(w.events) {
                Some(a) => Some(a),
                None => match e {
                    WalletEventView::Activated { descriptor, descriptor_fingerprint } => Some(
                        (descriptor, descriptor_fingerprint),
                    ),
                    _ => None,
                },
            }
        }),
{
    let n = with_event(w, e);
    assert(n.events.drop_last() =~= w.events);
    if was_cancelled(w.events) {
        let i = choose|i: int| 0 <= i < w.events.len() && #[trigger] w.events[i] is Cancelled;
        assert(n.events[i] == w.events[i]);
    }
    if e is Cancelled {
        assert(n.events[w.events.len() as int] is Cancelled);
    }
    if was_cancelled(n.events) && !(e is Cancelled) {
        let i = choose|i: int| 0 <= i < n.events.len() && #[trigger] n.events[i] is Cancelled;
        assert(w.events[i] == n.events[i]);
    }
}

/// A participant without a submission is the submitter of none.
proof fn lemma_no_submission(subs: Seq<SubmissionView>, p: UserId)
    ensures
        submission_of(subs, p) is None <==> forall|i: int|
            0 <= i < subs.len() ==> (#[trigger] subs[i]).participant != p,
    decreases subs.len(),
{
    if subs.len() > 0 {
        let init = subs.drop_last();
        lemma_no_submission(init, p);
        assert forall|i: int| 0 <= i < init.len() implies #[trigger] init[i] == subs[i] by {}
        if submission_of(subs, p) is None {
            assert forall|i: int| 0 <= i < subs.len() implies (#[trigger] subs[i]).participant
                != p by {
                if i < subs.len() - 1 {
                    assert(init[i].participant != p);
                }
            }
        } else if submission_of(init, p) is Some {
            let i = choose|i: int| 0 <= i < init.len() && (#[trigger] init[i]).participant == p;
            assert(subs[i].participant == p);
        } else {
            assert(subs[subs.len() - 1].participant == p);
        }
    }
}

/// What is left when one participant's submissions are taken out: all others, in their order.
proof fn lemma_without_participant(subs: Seq<SubmissionView>, p: UserId)
    ensures
        without_participant(subs, p).len() <= subs.len(),
        submission_of(without_participant(subs, p), p) is None,
        forall|i: int|
            0 <= i < without_participant(subs, p).len() ==> (
            #[trigger] without_participant(subs, p)[i]).participant != p && subs.contains(
                without_participant(subs, p)[i],
            ),
    decreases subs.len(),
{
    let r = without_participant(subs, p);
    if subs.len() > 0 {
        let init = subs.drop_last();
        lemma_without_participant(init, p);
        let before = without_participant(init, p);
        assert forall|i: int| 0 <= i < r.len() implies (#[trigger] r[i]).participant != p
            && subs.contains(r[i]) by {
            if i < before.len() {
                assert(r[i] == before[i]);
                let k = choose|k: int| 0 <= k < init.len() && init[k] == before[i];
                assert(subs[k] == r[i]);
            } else {
                assert(subs[subs.len() - 1] == r[i]);
            }
        }
    }
    lemma_no_submission(r, p);
}

/// Taking submissions out keeps the rest distinct.
proof fn lemma_without_participant_sound(
    participants: Seq<UserId>,
    subs: Seq<SubmissionView>,
    p: UserId,
)
    requires
        submissions_sound(participants, subs),
    ensures
        submissions_sound(participants, without_participant(subs, p)),
    decreases subs.len(),
{
    if subs.len() > 0 {
        let init = subs.drop_last();
        assert(submissions_sound(participants, init)) by {
            assert forall|i: int| 0 <= i < init.len() implies participants.contains(
                (#[trigger] init[i]).participant,
            ) by {
                assert(init[i] == subs[i]);
            }
            assert forall|i: int, j: int| 0 <= i < j < init.len() implies (
            #[trigger] init[i]).participant != (#[trigger] init[j]).participant
                && init[i].keystore.fingerprint != init[j].keystore.fingerprint by {
                assert(init[i] == subs[i] && init[j] == subs[j]);
            }
        }
        lemma_without_participant_sound(participants, init, p);
        lemma_without_participant(init, p);
        let before = without_participant(init, p);
        let last = subs.last();
        assert(participants.contains(subs[subs.len() - 1].participant));
        if last.participant != p {
            let r = before.push(last);
            assert forall|i: int| 0 <= i < r.len() implies participants.contains(
                (#[trigger] r[i]).participant,
            ) by {
                if i < before.len() {
                    assert(r[i] == before[i]);
                }
            }
            assert forall|i: int, j: int| 0 <= i < j < r.len() implies (
            #[trigger] r[i]).participant != (#[trigger] r[j]).participant
                && r[i].keystore.fingerprint != r[j].keystore.fingerprint by {
                assert(r[i] == before[i]);
                if j < before.len() {
                    assert(r[j] == before[j]);
                } else {
                    let k = choose|k: int| 0 <= k < init.len() && init[k] == before[i];
                    assert(subs[k] == r[i]);
                    assert(subs[subs.len() - 1] == r[j]);
                }
            }
        }
    }
}

/// A participant whose only submission is taken out leaves one submission less.
proof fn lemma_without_participant_fewer(subs: Seq<SubmissionView>, p: UserId)
    requires
        submission_of(subs, p) is Some,
    ensures
        without_participant(subs, p).len() < subs.len(),
    decreases subs.len(),
{
    let init = subs.drop_last();
    if submission_of(init, p) is Some {
        lemma_without_participant_fewer(init, p);
    } else {
        lemma_without_participant(init, p);
    }
}

/// A policy that was found good starts a sound wallet: the events with which it starts tell of
/// a wallet with that policy, which collects keystores and has none.
pub proof fn law_new_wallet_is_sound(w: NewWalletView)
    requires
        policy_fault(w.threshold, w.participants) is None,
    ensures
        ({
            let events = seq![registration(w)];
            let wallet = WalletView {
                id: w.id,
                network: w.network,
                threshold: w.threshold,
                participants: w.participants,
                events,
            };
            &&& hydrated(events) == Some(wallet)
            &&& wallet_sound(wallet)
            &&& wallet_status(events) == WalletStatus::CollectingKeystores
            &&& wallet_submissions(events).len() == 0
            &&& pending(w.participants, wallet_submissions(events)) == w.participants
        }),
{
    let events = seq![registration(w)];
    assert(events.drop_last() =~= Seq::<WalletEventView>::empty());
    reveal_with_fuel(wallet_status, 2);
    reveal_with_fuel(wallet_activation, 2);
    reveal_with_fuel(wallet_submissions, 2);
    reveal_with_fuel(registered, 2);
    lemma_all_pending(w.participants);
}

proof fn lemma_all_pending(users: Seq<UserId>)
    ensures
        pending(users, Seq::empty()) == users,
    decreases users.len(),
{
    if users.len() > 0 {
        lemma_all_pending(users.drop_last());
        assert(users.drop_last().push(users.last()) =~= users);
    } else {
        assert(users =~= Seq::<UserId>::empty());
    }
}

/// A recorded keystore keeps the submissions sound.
proof fn lemma_added_sound(w: WalletView, keystore: KeystoreView, by: UserId)
    requires
        wallet_sound(w),
        keystore_step(w, keystore, by) == Ok::<KeystoreStep, WalletFault>(KeystoreStep::Record)
            || keystore_step(w, keystore, by) == Ok::<KeystoreStep, WalletFault>(
            KeystoreStep::Activate,
        ),
    ensures
        ({
            let n = with_event(w, WalletEventView::KeystoreAdded { keystore, submitted_by: by });
            let subs = wallet_submissions(n.events);
            &&& subs == wallet_submissions(w.events).push(
                SubmissionView { participant: by, keystore },
            )
            &&& submissions_sound(w.participants, subs)
            &&& submitted_keystores(subs) == submitted_keystores(wallet_submissions(w.events)).push(
                keystore,
            )
            &&& submission_of(subs, by) == Some(keystore)
        }),
{
    let e = WalletEventView::KeystoreAdded { keystore, submitted_by: by };
    let n = with_event(w, e);
    lemma_with_event(w, e);
    let before = wallet_submissions(w.events);
    let new = SubmissionView { participant: by, keystore };
    let subs = wallet_submissions(n.events);
    assert(subs == before.push(new));
    assert(subs.drop_last() =~= before);
    lemma_no_submission(before, by);
    assert forall|i: int| 0 <= i < subs.len() implies w.participants.contains(
        (#[trigger] subs[i]).participant,
    ) by {
        if i < before.len() {
            assert(subs[i] == before[i]);
        }
    }
    assert forall|i: int, j: int| 0 <= i < j < subs.len() implies (#[trigger] subs[i]).participant
        != (#[trigger] subs[j]).participant && subs[i].keystore.fingerprint
        != subs[j].keystore.fingerprint by {
        assert(subs[i] == before[i]);
        if j < before.len() {
            assert(subs[j] == before[j]);
        } else {
            assert(!has_keystore_of(before, keystore.fingerprint));
            assert(before[i].keystore.fingerprint != keystore.fingerprint);
        }
    }
    assert(submitted_keystores(subs) =~= submitted_keystores(before).push(keystore));
}

/// Submitting a keystore keeps a wallet sound.
pub proof fn law_add_keystore_keeps_wallet_sound(w: WalletView, keystore: KeystoreView, by: UserId)
    requires
        wallet_sound(w),
    ensures
        wallet_sound(keystore_outcome(w, keystore, by, completed_descriptor(w, keystore)).0),
{
    let derived = completed_descriptor(w, keystore);
    let (after, answer) = keystore_outcome(w, keystore, by, derived);
    let e = WalletEventView::KeystoreAdded { keystore, submitted_by: by };
    let added = with_event(w, e);
    lemma_with_event(w, e);
    match keystore_step(w, keystore, by) {
        Ok(KeystoreStep::Record) => {
            lemma_added_sound(w, keystore, by);
        },
        Ok(KeystoreStep::Activate) => {
            lemma_added_sound(w, keystore, by);
            match derived {
                Ok(descriptor) => {
                    let a = WalletEventView::Activated {
                        descriptor,
                        descriptor_fingerprint: sha256(
                            fingerprint_preimage(w.network, descriptor.text),
                        ),
                    };
                    lemma_with_event(added, a);
                },
                Err(_) => {},
            }
        },
        _ => {},
    }
}

/// Withdrawing a keystore keeps a wallet sound.
pub proof fn law_remove_keystore_keeps_wallet_sound(
    w: WalletView,
    participant: UserId,
    by: UserId,
)
    requires
        wallet_sound(w),
    ensures
        wallet_sound(removal_outcome(w, participant, by).0),
{
    let subs = wallet_submissions(w.events);
    match submission_of(subs, participant) {
        Some(keystore) => {
            let e = WalletEventView::KeystoreRemoved { participant, keystore, removed_by: by };
            lemma_with_event(w, e);
            lemma_without_participant_sound(w.participants, subs, participant);
            lemma_without_participant(subs, participant);
        },
        None => {},
    }
}

/// Abandoning a wallet keeps it sound.
pub proof fn law_cancel_keeps_wallet_sound(w: WalletView, by: UserId, reason: Seq<char>)
    requires
        wallet_sound(w),
    ensures
        wallet_sound(cancel_outcome(w, by, reason).0),
{
    lemma_with_event(w, WalletEventView::Cancelled { cancelled_by: by, reason });
}

/// Events are all there is to a wallet: a sound wallet is rebuilt from its events as it was.
pub proof fn law_hydration_rebuilds_wallet(w: WalletView)
    requires
        wallet_sound(w),
    ensures
        hydrated(w.events) == Some(w),
{
}

/// A keystore that was accepted can be submitted again with no effect, also when it was the
/// one that activated the wallet.
pub proof fn law_add_keystore_is_idempotent(w: WalletView, keystore: KeystoreView, by: UserId)
    requires
        wallet_sound(w),
        keystore_outcome(w, keystore, by, completed_descriptor(w, keystore)).1 == Ok::<
            Idempotent<()>,
            WalletFault,
        >(Idempotent::Executed(())),
    ensures
        ({
            let after = keystore_outcome(w, keystore, by, completed_descriptor(w, keystore)).0;
            keystore_outcome(after, keystore, by, completed_descriptor(after, keystore)) == (
                after,
                Ok::<Idempotent<()>, WalletFault>(Idempotent::AlreadyApplied),
            )
        }),
{
    let e = WalletEventView::KeystoreAdded { keystore, submitted_by: by };
    let added = with_event(w, e);
    lemma_with_event(w, e);
    lemma_added_sound(w, keystore, by);
    match completed_descriptor(w, keystore) {
        Ok(descriptor) => {
            lemma_with_event(
                added,
                WalletEventView::Activated {
                    descriptor,
                    descriptor_fingerprint: sha256(fingerprint_preimage(w.network, descriptor.text)),
                },
            );
        },
        Err(_) => {},
    }
}

/// A retry of a submission after the wallet was abandoned is still no error: what is held stays
/// held, and submitting it again has no effect.
pub proof fn law_add_keystore_is_idempotent_after_cancel(
    w: WalletView,
    keystore: KeystoreView,
    by: UserId,
    cancelled_by: UserId,
    reason: Seq<char>,
)
    requires
        submission_of(wallet_submissions(w.events), by) == Some(keystore),
    ensures
        ({
            let after = cancel_outcome(w, cancelled_by, reason).0;
            keystore_outcome(after, keystore, by, completed_descriptor(after, keystore)) == (
                after,
                Ok::<Idempotent<()>, WalletFault>(Idempotent::AlreadyApplied),
            )
        }),
{
    lemma_with_event(w, WalletEventView::Cancelled { cancelled_by, reason });
}

/// Withdrawing a keystore a second time has no effect, and after it the participant can submit
/// any keystore whose fingerprint no other participant holds.
pub proof fn law_removed_keystore_can_be_replaced(
    w: WalletView,
    participant: UserId,
    by: UserId,
    keystore: KeystoreView,
)
    requires
        wallet_sound(w),
        removal_outcome(w, participant, by).1 == Ok::<Idempotent<()>, WalletFault>(
            Idempotent::Executed(()),
        ),
    ensures
        ({
            let after = removal_outcome(w, participant, by).0;
            let others = wallet_submissions(after.events);
            &&& removal_outcome(after, participant, by) == (
                after,
                Ok::<Idempotent<()>, WalletFault>(Idempotent::AlreadyApplied),
            )
            &&& others.len() < wallet_submissions(w.events).len()
            &&& keystore_step(after, keystore, participant) == if has_keystore_of(
                others,
                keystore.fingerprint,
            ) {
                Err::<KeystoreStep, WalletFault>(
                    WalletFault::DuplicateKeystore(keystore.fingerprint),
                )
            } else if others.len() + 1 == w.participants.len() {
                Ok::<KeystoreStep, WalletFault>(KeystoreStep::Activate)
            } else {
                Ok::<KeystoreStep, WalletFault>(KeystoreStep::Record)
            }
        }),
{
    let subs = wallet_submissions(w.events);
    let held = submission_of(subs, participant)->0;
    let e = WalletEventView::KeystoreRemoved { participant, keystore: held, removed_by: by };
    lemma_with_event(w, e);
    lemma_without_participant(subs, participant);
    lemma_without_participant_fewer(subs, participant);
    lemma_no_submission(subs, participant);
    let i = choose|i: int| 0 <= i < subs.len() && (#[trigger] subs[i]).participant == participant;
    assert(w.participants.contains(subs[i].participant));
}

/// Abandoning a wallet a second time has no effect.
pub proof fn law_cancel_is_idempotent(
    w: WalletView,
    by: UserId,
    reason: Seq<char>,
    again_by: UserId,
    again: Seq<char>,
)
    requires
        cancel_outcome(w, by, reason).1 is Ok,
    ensures
        ({
            let after = cancel_outcome(w, by, reason).0;
            cancel_outcome(after, again_by, again) == (
                after,
                Ok::<Idempotent<()>, WalletFault>(Idempotent::AlreadyApplied),
            )
        }),
{
    lemma_with_event(w, WalletEventView::Cancelled { cancelled_by: by, reason });
}

/// Activation is terminal: no command changes an active wallet.
pub proof fn law_active_wallet_is_settled(
    w: WalletView,
    keystore: KeystoreView,
    user: UserId,
    by: UserId,
    reason: Seq<char>,
)
    requires
        wallet_sound(w),
        wallet_status(w.events) == WalletStatus::Active,
    ensures
        keystore_outcome(w, keystore, user, completed_descriptor(w, keystore)).0 == w,
        removal_outcome(w, user, by) == (
            w,
            Err::<Idempotent<()>, WalletFault>(WalletFault::AlreadyActive),
        ),
        cancel_outcome(w, by, reason) == (
            w,
            Err::<Idempotent<()>, WalletFault>(WalletFault::CannotCancelActive),
        ),
{
}

/// Cancellation is terminal: no command changes a cancelled wallet.
pub proof fn law_cancelled_wallet_is_settled(
    w: WalletView,
    keystore: KeystoreView,
    user: UserId,
    by: UserId,
    reason: Seq<char>,
)
    requires
        wallet_sound(w),
        wallet_status(w.events) == WalletStatus::Cancelled,
    ensures
        keystore_outcome(w, keystore, user, completed_descriptor(w, keystore)).0 == w,
        removal_outcome(w, user, by) == (
            w,
            Err::<Idempotent<()>, WalletFault>(WalletFault::Cancelled),
        ),
        cancel_outcome(w, by, reason) == (
            w,
            Ok::<Idempotent<()>, WalletFault>(Idempotent::AlreadyApplied),
        ),
{
}

/// The wallet becomes active with its last keystore and in the same step: a submission that
/// takes effect leaves the wallet active if and only if every participant then holds one.
pub proof fn law_activation_is_atomic(w: WalletView, keystore: KeystoreView, by: UserId)
    requires
        wallet_sound(w),
        keystore_outcome(w, keystore, by, completed_descriptor(w, keystore)).1 == Ok::<
            Idempotent<()>,
            WalletFault,
        >(Idempotent::Executed(())),
    ensures
        ({
            let after = keystore_outcome(w, keystore, by, completed_descriptor(w, keystore)).0;
            (wallet_status(after.events) == WalletStatus::Active) == (wallet_submissions(
                after.events,
            ).len() == after.participants.len())
        }),
{
    law_add_keystore_keeps_wallet_sound(w, keystore, by);
}

/// The order of submission leaves no trace: two active wallets on one network with the same
/// threshold and the same keystores have the same descriptor and the same fingerprint.
pub proof fn law_activation_ignores_submission_order(a: WalletView, b: WalletView)
    requires
        wallet_sound(a),
        wallet_sound(b),
        wallet_status(a.events) == WalletStatus::Active,
        wallet_status(b.events) == WalletStatus::Active,
        a.network == b.network,
        a.threshold == b.threshold,
        submitted_keystores(wallet_submissions(a.events)).to_multiset() == submitted_keystores(
            wallet_submissions(b.events),
        ).to_multiset(),
        forall|i: int|
            0 <= i < submitted_keystores(wallet_submissions(a.events)).len() ==> keystore_known(
                #[trigger] submitted_keystores(wallet_submissions(a.events))[i],
            ),
    ensures
        wallet_activation(a.events) == wallet_activation(b.events),
{
    let subs = wallet_submissions(a.events);
    let keystores = submitted_keystores(subs);
    assert forall|i: int, j: int|
        0 <= i < keystores.len() && 0 <= j < keystores.len() && (#[trigger] keystores[i]).text == (
        #[trigger] keystores[j]).text implies keystores[i] == keystores[j] by {
        assert(keystore_known(keystores[i]) && keystore_known(keystores[j]));
        assert(subs[i].keystore == keystores[i] && subs[j].keystore == keystores[j]);
        if i < j {
            assert(subs[i].keystore.fingerprint != subs[j].keystore.fingerprint);
        } else if j < i {
            assert(subs[j].keystore.fingerprint != subs[i].keystore.fingerprint);
        }
    }
    law_descriptor_ignores_key_order(
        a.threshold as nat,
        keystores,
        submitted_keystores(wallet_submissions(b.events)),
    );
}

/// The users of whom none is repeated are distinct.
pub proof fn law_policy_participants_are_distinct(users: Seq<UserId>)
    ensures
        first_repeated(users) is None <==> users.no_duplicates(),
    decreases users.len(),
{
    if users.len() > 0 {
        let init = users.drop_last();
        law_policy_participants_are_distinct(init);
        if users.no_duplicates() {
            assert(init.no_duplicates()) by {
                assert forall|i: int, j: int|
                    0 <= i < init.len() && 0 <= j < init.len() && i != j implies init[i]
                    != init[j] by {
                    assert(users[i] == init[i] && users[j] == init[j]);
                }
            }
            if init.contains(users.last()) {
                let i = choose|i: int| 0 <= i < init.len() && init[i] == users.last();
                assert(users[i] == users[users.len() - 1]);
            }
        }
        if first_repeated(users) is None {
            assert forall|i: int, j: int|
                0 <= i < users.len() && 0 <= j < users.len() && i != j implies users[i]
                != users[j] by {
                if i < init.len() && j < init.len() {
                    assert(init[i] == users[i] && init[j] == users[j]);
                } else if i < init.len() {
                    assert(init[i] == users[i]);
                } else {
                    assert(init[j] == users[j]);
                }
            }
        }
    }
}

/// Whether the events of a wallet continue those that it had.
pub open spec fn wallet_history_kept(before: WalletView, after: WalletView) -> bool {
    &&& before.events.len() <= after.events.len()
    &&& after.events.take(before.events.len() as int) == before.events
}

/// The record is never rewritten: whatever is asked of a wallet, its events are only added to.
pub proof fn law_wallet_history_is_kept(
    w: WalletView,
    keystore: KeystoreView,
    user: UserId,
    by: UserId,
    reason: Seq<char>,
    derived: Result<DescriptorView, WalletFault>,
)
    ensures
        wallet_history_kept(w, keystore_outcome(w, keystore, user, derived).0),
        wallet_history_kept(w, removal_outcome(w, user, by).0),
        wallet_history_kept(w, cancel_outcome(w, by, reason).0),
{
    let n = w.events.len() as int;
    assert(keystore_outcome(w, keystore, user, derived).0.events.take(n) =~= w.events);
    assert(removal_outcome(w, user, by).0.events.take(n) =~= w.events);
    assert(cancel_outcome(w, by, reason).0.events.take(n) =~= w.events);
}

/// What is refused leaves no trace: after any error a wallet is as it was.
pub proof fn law_refusal_leaves_wallet_unchanged(
    w: WalletView,
    keystore: KeystoreView,
    user: UserId,
    by: UserId,
    reason: Seq<char>,
    derived: Result<DescriptorView, WalletFault>,
)
    ensures
        keystore_outcome(w, keystore, user, derived).1 is Err ==> keystore_outcome(
            w,
            keystore,
            user,
            derived,
        ).0 == w,
        removal_outcome(w, user, by).1 is Err ==> removal_outcome(w, user, by).0 == w,
        cancel_outcome(w, by, reason).1 is Err ==> cancel_outcome(w, by, reason).0 == w,
{
}

/// The participants that are pending are those without a submission, each once where the
/// participants are distinct.
proof fn lemma_pending(users: Seq<UserId>, subs: Seq<SubmissionView>)
    requires
        users.no_duplicates(),
    ensures
        pending(users, subs).no_duplicates(),
        forall|u: UserId| #[trigger]
            pending(users, subs).contains(u) <==> (users.contains(u) && submission_of(
                subs,
                u,
            ) is None),
    decreases users.len(),
{
    let r = pending(users, subs);
    if users.len() > 0 {
        let init = users.drop_last();
        let last = users.last();
        assert(init.no_duplicates()) by {
            assert forall|i: int, j: int|
                0 <= i < init.len() && 0 <= j < init.len() && i != j implies init[i] != init[j] by {
                assert(users[i] == init[i] && users[j] == init[j]);
            }
        }
        lemma_pending(init, subs);
        let before = pending(init, subs);
        assert(users =~= init.push(last));
        assert forall|u: UserId| users.contains(u) <==> (init.contains(u) || u == last) by {
            if init.contains(u) {
                let i = choose|i: int| 0 <= i < init.len() && init[i] == u;
                assert(users[i] == u);
            }
            if u == last {
                assert(users[users.len() - 1] == u);
            }
            if users.contains(u) {
                let i = choose|i: int| 0 <= i < users.len() && users[i] == u;
                if i < init.len() {
                    assert(init[i] == u);
                }
            }
        }
        assert(!init.contains(last)) by {
            if init.contains(last) {
                let i = choose|i: int| 0 <= i < init.len() && init[i] == last;
                assert(users[i] == users[users.len() - 1]);
            }
        }
        assert forall|u: UserId| #[trigger] r.contains(u) <==> (users.contains(u) && submission_of(
            subs,
            u,
        ) is None) by {
            assert(before.contains(u) <==> (init.contains(u) && submission_of(subs, u) is None));
            if before.contains(u) {
                let i = choose|i: int| 0 <= i < before.len() && before[i] == u;
                assert(r[i] == u);
            }
            if r.contains(u) {
                let i = choose|i: int| 0 <= i < r.len() && r[i] == u;
                if i < before.len() {
                    assert(before[i] == u);
                }
            }
            if u == last && submission_of(subs, last) is None {
                assert(r[before.len() as int] == u);
            }
        }
        assert(!before.contains(last));
        assert forall|i: int, j: int|
            0 <= i < r.len() && 0 <= j < r.len() && i != j implies r[i] != r[j] by {
            if i < before.len() {
                assert(before.contains(before[i]));
            }
            if j < before.len() {
                assert(before.contains(before[j]));
            }
        }
    }
}

/// Every participant of a sound wallet either holds one keystore in it or is pending: those that
/// are pending and the submissions together are as many as the participants.
pub proof fn law_participants_have_submitted_or_are_pending(w: WalletView)
    requires
        wallet_sound(w),
    ensures
        ({
            let subs = wallet_submissions(w.events);
            pending(w.participants, subs).len() + subs.len() == w.participants.len()
        }),
{
    let subs = wallet_submissions(w.events);
    let waiting = pending(w.participants, subs);
    let submitters = Seq::new(subs.len(), |i: int| subs[i].participant);
    law_policy_participants_are_distinct(w.participants);
    lemma_pending(w.participants, subs);
    assert(submitters.no_duplicates()) by {
        assert forall|i: int, j: int|
            0 <= i < submitters.len() && 0 <= j < submitters.len() && i != j implies submitters[i]
            != submitters[j] by {
            if i < j {
                assert(subs[i].participant != subs[j].participant);
            } else {
                assert(subs[j].participant != subs[i].participant);
            }
        }
    }
    let all = waiting + submitters;
    assert(all.no_duplicates()) by {
        assert forall|i: int, j: int|
            0 <= i < waiting.len() && 0 <= j < submitters.len() implies waiting[i]
            != submitters[j] by {
            assert(waiting.contains(waiting[i]));
            lemma_no_submission(subs, waiting[i]);
            assert(subs[j].participant != waiting[i]);
        }
    }
    assert(all.to_set() =~= w.participants.to_set()) by {
        assert forall|u: UserId| all.to_set().contains(u) <==> w.participants.to_set().contains(
            u,
        ) by {
            lemma_no_submission(subs, u);
            if all.contains(u) {
                let i = choose|i: int| 0 <= i < all.len() && all[i] == u;
                if i < waiting.len() {
                    assert(waiting.contains(waiting[i]));
                } else {
                    assert(w.participants.contains(subs[i - waiting.len()].participant));
                }
            }
            if w.participants.contains(u) {
                if submission_of(subs, u) is None {
                    assert(waiting.contains(u));
                    let i = choose|i: int| 0 <= i < waiting.len() && waiting[i] == u;
                    assert(all[i] == u);
                } else {
                    let i = choose|i: int|
                        0 <= i < subs.len() && (#[trigger] subs[i]).participant == u;
                    assert(all[waiting.len() + i] == u);
                }
            }
        }
    }
    all.unique_seq_to_set();
    w.participants.unique_seq_to_set();
}

} // verus!
