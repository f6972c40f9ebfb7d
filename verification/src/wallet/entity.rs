//! The wallet as an aggregate: a multisig wallet whose participants hand in their keystores.
//!
//! A wallet is not born with its descriptor. It starts with a policy, a threshold over a named
//! set of participants, each of whom submits one keystore. With the last keystore the
//! descriptor is derived, and the wallet is active. Before that it can be cancelled, and a
//! keystore can be withdrawn and replaced.
//!
//! What is kept of a wallet is the list of its events; everything else is read off them.

use vstd::prelude::*;

use crate::primitives::{
    sha256, DescriptorFingerprint, Idempotent, KeyFingerprint, Network, UserId, WalletId,
};
use crate::wallet::descriptor::{
    descriptor_fingerprint, fingerprint_preimage, keystore_fingerprint, keystore_views,
    policy_descriptor, sortedmulti_wsh_descriptor, Descriptor, DescriptorPublicKey,
    DescriptorView, KeystoreView,
};
use crate::wallet::error::{WalletError, WalletFault};
use crate::wallet::primitives::WalletStatus;

verus! {

/// What happened to a wallet.
#[derive(Debug)]
pub enum WalletEvent {
    /// The policy was registered: `threshold` signatures out of one keystore per participant.
    Initialized { id: WalletId, network: Network, threshold: u32, participants: Vec<UserId> },
    /// A participant's keystore was submitted.
    KeystoreAdded { keystore: DescriptorPublicKey, submitted_by: UserId },
    /// A participant's keystore was withdrawn; it is kept here for the record.
    KeystoreRemoved { participant: UserId, keystore: DescriptorPublicKey, removed_by: UserId },
    /// All keystores were there, and the descriptor was derived.
    Activated { descriptor: Descriptor, descriptor_fingerprint: DescriptorFingerprint },
    /// The wallet was abandoned.
    Cancelled { cancelled_by: UserId, reason: String },
}

/// What a [`WalletEvent`] says.
pub enum WalletEventView {
    Initialized { id: WalletId, network: Network, threshold: u32, participants: Seq<UserId> },
    KeystoreAdded { keystore: KeystoreView, submitted_by: UserId },
    KeystoreRemoved { participant: UserId, keystore: KeystoreView, removed_by: UserId },
    Activated { descriptor: DescriptorView, descriptor_fingerprint: Seq<u8> },
    Cancelled { cancelled_by: UserId, reason: Seq<char> },
}

impl View for WalletEvent {
    type V = WalletEventView;

    open spec fn view(&self) -> WalletEventView {
        match *self {
            WalletEvent::Initialized { id, network, threshold, participants } =>
                WalletEventView::Initialized {
                id,
                network,
                threshold,
                participants: participants@,
            },
            WalletEvent::KeystoreAdded { keystore, submitted_by } =>
                WalletEventView::KeystoreAdded { keystore: keystore@, submitted_by },
            WalletEvent::KeystoreRemoved { participant, keystore, removed_by } =>
                WalletEventView::KeystoreRemoved { participant, keystore: keystore@, removed_by },
            WalletEvent::Activated { descriptor, descriptor_fingerprint } =>
                WalletEventView::Activated {
                descriptor: descriptor@,
                descriptor_fingerprint: descriptor_fingerprint@,
            },
            WalletEvent::Cancelled { cancelled_by, reason } => WalletEventView::Cancelled {
                cancelled_by,
                reason: reason@,
            },
        }
    }
}

impl Clone for WalletEvent {
    fn clone(&self) -> (r: Self)
        ensures
            r@ == self@,
    {
        match self {
            WalletEvent::Initialized { id, network, threshold, participants } =>
                WalletEvent::Initialized {
                id: *id,
                network: *network,
                threshold: *threshold,
                participants: copied_users(participants),
            },
            WalletEvent::KeystoreAdded { keystore, submitted_by } => WalletEvent::KeystoreAdded {
                keystore: keystore.clone(),
                submitted_by: *submitted_by,
            },
            WalletEvent::KeystoreRemoved { participant, keystore, removed_by } =>
                WalletEvent::KeystoreRemoved {
                participant: *participant,
                keystore: keystore.clone(),
                removed_by: *removed_by,
            },
            WalletEvent::Activated { descriptor, descriptor_fingerprint } =>
                WalletEvent::Activated {
                descriptor: descriptor.clone(),
                descriptor_fingerprint: *descriptor_fingerprint,
            },
            WalletEvent::Cancelled { cancelled_by, reason } => WalletEvent::Cancelled {
                cancelled_by: *cancelled_by,
                reason: reason.clone(),
            },
        }
    }
}

/// What each event of a list says.
pub open spec fn wallet_events(events: Seq<WalletEvent>) -> Seq<WalletEventView> {
    Seq::new(events.len(), |i: int| events[i]@)
}

/// What a [`Wallet`] holds.
pub struct WalletView {
    pub id: WalletId,
    pub network: Network,
    pub threshold: u32,
    pub participants: Seq<UserId>,
    pub events: Seq<WalletEventView>,
}

/// A keystore and the participant who submitted it.
pub struct SubmissionView {
    pub participant: UserId,
    pub keystore: KeystoreView,
}

/// The status after some events: the latest activation or cancellation decides.
pub open spec fn wallet_status(events: Seq<WalletEventView>) -> WalletStatus
    decreases events.len(),
{
    if events.len() == 0 {
        WalletStatus::CollectingKeystores
    } else {
        match events.last() {
            WalletEventView::Activated { .. } => WalletStatus::Active,
            WalletEventView::Cancelled { .. } => WalletStatus::Cancelled,
            _ => wallet_status(events.drop_last()),
        }
    }
}

/// Submissions but for those of one participant.
pub open spec fn without_participant(subs: Seq<SubmissionView>, p: UserId) -> Seq<SubmissionView>
    decreases subs.len(),
{
    if subs.len() == 0 {
        Seq::empty()
    } else if subs.last().participant == p {
        without_participant(subs.drop_last(), p)
    } else {
        without_participant(subs.drop_last(), p).push(subs.last())
    }
}

/// The keystores that are held after some events, in the order of their submission.
pub open spec fn wallet_submissions(events: Seq<WalletEventView>) -> Seq<SubmissionView>
    decreases events.len(),
{
    if events.len() == 0 {
        Seq::empty()
    } else {
        let before = wallet_submissions(events.drop_last());
        match events.last() {
            WalletEventView::KeystoreAdded { keystore, submitted_by } => before.push(
                SubmissionView { participant: submitted_by, keystore },
            ),
            WalletEventView::KeystoreRemoved { participant, .. } => without_participant(
                before,
                participant,
            ),
            _ => before,
        }
    }
}

/// The keystore of a participant; the first one, should there be several.
pub open spec fn submission_of(subs: Seq<SubmissionView>, p: UserId) -> Option<KeystoreView>
    decreases subs.len(),
{
    if subs.len() == 0 {
        None
    } else {
        match submission_of(subs.drop_last(), p) {
            Some(k) => Some(k),
            None => if subs.last().participant == p {
                Some(subs.last().keystore)
            } else {
                None
            },
        }
    }
}

/// The keystores of submissions.
pub open spec fn submitted_keystores(subs: Seq<SubmissionView>) -> Seq<KeystoreView> {
    Seq::new(subs.len(), |i: int| subs[i].keystore)
}

/// Whether one of the submitted keystores has a fingerprint.
pub open spec fn has_keystore_of(subs: Seq<SubmissionView>, f: KeyFingerprint) -> bool {
    exists|i: int| 0 <= i < subs.len() && (#[trigger] subs[i]).keystore.fingerprint == f
}

/// The participants without a submission, in their order.
pub open spec fn pending(participants: Seq<UserId>, subs: Seq<SubmissionView>) -> Seq<UserId>
    decreases participants.len(),
{
    if participants.len() == 0 {
        Seq::empty()
    } else {
        let before = pending(participants.drop_last(), subs);
        if submission_of(subs, participants.last()) is None {
            before.push(participants.last())
        } else {
            before
        }
    }
}

/// The descriptor and its fingerprint, as the first activation records them.
pub open spec fn wallet_activation(events: Seq<WalletEventView>) -> Option<(DescriptorView, Seq<u8>)>
    decreases events.len(),
{
    if events.len() == 0 {
        None
    } else {
        match wallet_activation(events.drop_last()) {
            Some(a) => Some(a),
            None => match events.last() {
                WalletEventView::Activated { descriptor, descriptor_fingerprint } => Some(
                    (descriptor, descriptor_fingerprint),
                ),
                _ => None,
            },
        }
    }
}

/// Whether a cancellation is among the events.
pub open spec fn was_cancelled(events: Seq<WalletEventView>) -> bool {
    exists|i: int| 0 <= i < events.len() && #[trigger] events[i] is Cancelled
}

/// The policy that events register: the latest registration decides.
pub open spec fn registered(events: Seq<WalletEventView>) -> Option<WalletEventView>
    decreases events.len(),
{
    if events.len() == 0 {
        None
    } else if events.last() is Initialized {
        Some(events.last())
    } else {
        registered(events.drop_last())
    }
}

/// The wallet that events tell of, if they register one.
pub open spec fn hydrated(events: Seq<WalletEventView>) -> Option<WalletView> {
    match registered(events) {
        Some(WalletEventView::Initialized { id, network, threshold, participants }) => Some(
            WalletView { id, network, threshold, participants, events },
        ),
        _ => None,
    }
}

/// What a submitted keystore leads to.
#[derive(Debug, Clone, Copy, PartialEq, Eq, Structural)]
pub enum KeystoreStep {
    /// It is there already.
    AlreadyApplied,
    /// It is recorded.
    Record,
    /// It is the last one: it is recorded and the wallet becomes active.
    Activate,
}

/// What a keystore submitted by a user leads to, or why it is refused. That it is there already
/// comes before everything else; only then the status of the wallet matters.
pub open spec fn keystore_step(w: WalletView, keystore: KeystoreView, by: UserId) -> Result<
    KeystoreStep,
    WalletFault,
> {
    let subs = wallet_submissions(w.events);
    if submission_of(subs, by) == Some(keystore) {
        Ok(KeystoreStep::AlreadyApplied)
    } else {
        match wallet_status(w.events) {
            WalletStatus::Active => Err(WalletFault::AlreadyActive),
            WalletStatus::Cancelled => Err(WalletFault::Cancelled),
            WalletStatus::CollectingKeystores => if !w.participants.contains(by) {
                Err(WalletFault::NotAParticipant(by))
            } else if submission_of(subs, by) is Some {
                Err(WalletFault::ParticipantAlreadySubmitted(by))
            } else if has_keystore_of(subs, keystore.fingerprint) {
                Err(WalletFault::DuplicateKeystore(keystore.fingerprint))
            } else if subs.len() + 1 == w.participants.len() {
                Ok(KeystoreStep::Activate)
            } else {
                Ok(KeystoreStep::Record)
            },
        }
    }
}

/// The wallet with one more event.
pub open spec fn with_event(w: WalletView, e: WalletEventView) -> WalletView {
    WalletView { events: w.events.push(e), ..w }
}

/// What comes of a submitted keystore, given what the keystores of the wallet and this one form:
/// the wallet after it, and the answer.
pub open spec fn keystore_outcome(
    w: WalletView,
    keystore: KeystoreView,
    by: UserId,
    derived: Result<DescriptorView, WalletFault>,
) -> (WalletView, Result<Idempotent<()>, WalletFault>) {
    let added = with_event(w, WalletEventView::KeystoreAdded { keystore, submitted_by: by });
    match keystore_step(w, keystore, by) {
        Err(e) => (w, Err(e)),
        Ok(KeystoreStep::AlreadyApplied) => (w, Ok(Idempotent::AlreadyApplied)),
        Ok(KeystoreStep::Record) => (added, Ok(Idempotent::Executed(()))),
        Ok(KeystoreStep::Activate) => match derived {
            Err(e) => (w, Err(e)),
            Ok(descriptor) => (
                with_event(
                    added,
                    WalletEventView::Activated {
                        descriptor,
                        descriptor_fingerprint: sha256(
                            fingerprint_preimage(w.network, descriptor.text),
                        ),
                    },
                ),
                Ok(Idempotent::Executed(())),
            ),
        },
    }
}

/// The descriptor that the keystores of a wallet and one more form.
pub open spec fn completed_descriptor(w: WalletView, keystore: KeystoreView) -> Result<
    DescriptorView,
    WalletFault,
> {
    policy_descriptor(
        w.threshold as nat,
        submitted_keystores(wallet_submissions(w.events)).push(keystore),
    )
}

/// What comes of withdrawing a participant's keystore.
pub open spec fn removal_outcome(w: WalletView, participant: UserId, by: UserId) -> (
    WalletView,
    Result<Idempotent<()>, WalletFault>,
) {
    match wallet_status(w.events) {
        WalletStatus::Active => (w, Err(WalletFault::AlreadyActive)),
        WalletStatus::Cancelled => (w, Err(WalletFault::Cancelled)),
        WalletStatus::CollectingKeystores => match submission_of(
            wallet_submissions(w.events),
            participant,
        ) {
            None => (w, Ok(Idempotent::AlreadyApplied)),
            Some(keystore) => (
                with_event(
                    w,
                    WalletEventView::KeystoreRemoved { participant, keystore, removed_by: by },
                ),
                Ok(Idempotent::Executed(())),
            ),
        },
    }
}

/// What comes of abandoning a wallet.
pub open spec fn cancel_outcome(w: WalletView, by: UserId, reason: Seq<char>) -> (
    WalletView,
    Result<Idempotent<()>, WalletFault>,
) {
    if was_cancelled(w.events) {
        (w, Ok(Idempotent::AlreadyApplied))
    } else if wallet_status(w.events) == WalletStatus::Active {
        (w, Err(WalletFault::CannotCancelActive))
    } else {
        (
            with_event(w, WalletEventView::Cancelled { cancelled_by: by, reason }),
            Ok(Idempotent::Executed(())),
        )
    }
}

/// Events tell of no entity: a field is never set.
#[derive(Debug, Clone, Copy)]
pub struct EntityHydrationError {
    pub field: &'static str,
}

/// A multisig wallet that is being coordinated.
#[derive(Debug)]
pub struct Wallet {
    pub id: WalletId,
    pub network: Network,
    pub threshold: u32,
    pub participants: Vec<UserId>,
    events: Vec<WalletEvent>,
}

impl View for Wallet {
    type V = WalletView;

    closed spec fn view(&self) -> WalletView {
        WalletView {
            id: self.id,
            network: self.network,
            threshold: self.threshold,
            participants: self.participants@,
            events: wallet_events(self.events@),
        }
    }
}

/// Whether a list holds a user.
pub fn has_user(users: &Vec<UserId>, user: UserId) -> (r: bool)
    ensures
        r == users@.contains(user),
{
    let mut i: usize = 0;
    while i < users.len()
        invariant
            i <= users@.len(),
            forall|j: int| 0 <= j < i ==> users@[j] != user,
        decreases users@.len() - i,
    {
        if users[i] == user {
            return true;
        }
        i += 1;
    }
    false
}

/// Users, copied.
fn copied_users(users: &Vec<UserId>) -> (r: Vec<UserId>)
    ensures
        r@ == users@,
{
    let mut r: Vec<UserId> = Vec::new();
    let mut i: usize = 0;
    while i < users.len()
        invariant
            i <= users@.len(),
            r@ =~= users@.take(i as int),
        decreases users@.len() - i,
    {
        r.push(users[i]);
        i += 1;
    }
    assert(r@ =~= users@);
    r
}

/// What each submission of a list holds.
pub open spec fn submission_views(subs: Seq<(UserId, DescriptorPublicKey)>) -> Seq<SubmissionView> {
    Seq::new(subs.len(), |i: int| SubmissionView { participant: subs[i].0, keystore: subs[i].1@ })
}

/// Submissions but for those of one participant.
fn retain_others(subs: Vec<(UserId, DescriptorPublicKey)>, p: UserId) -> (r: Vec<
    (UserId, DescriptorPublicKey),
>)
    ensures
        submission_views(r@) == without_participant(submission_views(subs@), p),
{
    let ghost all = submission_views(subs@);
    let mut r: Vec<(UserId, DescriptorPublicKey)> = Vec::new();
    let mut i: usize = 0;
    assert(submission_views(r@) =~= without_participant(all.take(0), p));
    while i < subs.len()
        invariant
            i <= subs@.len(),
            all == submission_views(subs@),
            submission_views(r@) == without_participant(all.take(i as int), p),
        decreases subs@.len() - i,
    {
        let ghost before = submission_views(r@);
        assert(all.take(i + 1).drop_last() =~= all.take(i as int));
        if subs[i].0 != p {
            r.push((subs[i].0, subs[i].1.clone()));
            assert(submission_views(r@) =~= before.push(all[i as int]));
        }
        i += 1;
    }
    assert(all.take(i as int) =~= all);
    r
}

/// The keystore of a participant.
fn find_submission(subs: &Vec<(UserId, DescriptorPublicKey)>, p: UserId) -> (r: Option<
    &DescriptorPublicKey,
>)
    ensures
        match r {
            Some(k) => submission_of(submission_views(subs@), p) == Some(k@),
            None => submission_of(submission_views(subs@), p) is None,
        },
{
    let ghost all = submission_views(subs@);
    let mut i: usize = 0;
    assert(all.take(0) =~= Seq::<SubmissionView>::empty());
    while i < subs.len()
        invariant
            i <= subs@.len(),
            all == submission_views(subs@),
            submission_of(all.take(i as int), p) is None,
        decreases subs@.len() - i,
    {
        assert(all.take(i + 1).drop_last() =~= all.take(i as int));
        if subs[i].0 == p {
            proof {
                lemma_submission_prefix(all, p, i + 1);
            }
            return Some(&subs[i].1);
        }
        i += 1;
    }
    assert(all.take(i as int) =~= all);
    None
}

/// What is found among the first submissions is found among all.
proof fn lemma_submission_prefix(subs: Seq<SubmissionView>, p: UserId, n: int)
    requires
        0 <= n <= subs.len(),
        submission_of(subs.take(n), p) is Some,
    ensures
        submission_of(subs, p) == submission_of(subs.take(n), p),
    decreases subs.len() - n,
{
    if n < subs.len() {
        assert(subs.take(n + 1).drop_last() =~= subs.take(n));
        lemma_submission_prefix(subs, p, n + 1);
    } else {
        assert(subs.take(n) =~= subs);
    }
}

/// The first activation among the first events is the first of all.
proof fn lemma_activation_prefix(events: Seq<WalletEventView>, n: int)
    requires
        0 <= n <= events.len(),
        wallet_activation(events.take(n)) is Some,
    ensures
        wallet_activation(events) == wallet_activation(events.take(n)),
    decreases events.len() - n,
{
    if n < events.len() {
        assert(events.take(n + 1).drop_last() =~= events.take(n));
        lemma_activation_prefix(events, n + 1);
    } else {
        assert(events.take(n) =~= events);
    }
}

impl Wallet {
    /// The id of the wallet.
    pub fn id(&self) -> (r: WalletId)
        ensures
            r == self@.id,
    {
        self.id
    }

    /// The network of the wallet.
    pub fn network(&self) -> (r: Network)
        ensures
            r == self@.network,
    {
        self.network
    }

    /// The number of signatures that a spend needs.
    pub fn threshold(&self) -> (r: u32)
        ensures
            r == self@.threshold,
    {
        self.threshold
    }

    /// The events of the wallet.
    pub fn events(&self) -> (r: &Vec<WalletEvent>)
        ensures
            wallet_events(r@) == self@.events,
    {
        &self.events
    }

    /// The status of the wallet.
    pub fn status(&self) -> (r: WalletStatus)
        ensures
            r == wallet_status(self@.events),
    {
        let ghost all = wallet_events(self.events@);
        let mut status: WalletStatus = WalletStatus::CollectingKeystores;
        let mut i: usize = 0;
        assert(all.take(0) =~= Seq::<WalletEventView>::empty());
        while i < self.events.len()
            invariant
                i <= self.events@.len(),
                all == wallet_events(self.events@),
                status == wallet_status(all.take(i as int)),
            decreases self.events@.len() - i,
        {
            assert(all.take(i + 1).drop_last() =~= all.take(i as int));
            match &self.events[i] {
                WalletEvent::Activated { .. } => {
                    status = WalletStatus::Active;
                },
                WalletEvent::Cancelled { .. } => {
                    status = WalletStatus::Cancelled;
                },
                _ => {},
            }
            i += 1;
        }
        assert(all.take(i as int) =~= all);
        status
    }

    /// The participants of the wallet.
    pub fn participants(&self) -> (r: &[UserId])
        ensures
            r@ == self@.participants,
    {
        self.participants.as_slice()
    }

    /// The number of keystores that the policy asks for.
    pub fn total_keystores(&self) -> (r: u32)
        ensures
            r == self@.participants.len() as u32,
    {
        #[verifier::truncate]
        let total: u32 = self.participants.len() as u32;
        total
    }

    /// The keystores that are held, with the participants who submitted them, in the order of
    /// their submission.
    pub fn submissions(&self) -> (r: Vec<(UserId, DescriptorPublicKey)>)
        ensures
            submission_views(r@) == wallet_submissions(self@.events),
    {
        let ghost all = wallet_events(self.events@);
        let mut subs: Vec<(UserId, DescriptorPublicKey)> = Vec::new();
        let mut i: usize = 0;
        assert(submission_views(subs@) =~= wallet_submissions(all.take(0)));
        while i < self.events.len()
            invariant
                i <= self.events@.len(),
                all == wallet_events(self.events@),
                submission_views(subs@) == wallet_submissions(all.take(i as int)),
            decreases self.events@.len() - i,
        {
            assert(all.take(i + 1).drop_last() =~= all.take(i as int));
            assert(all.take(i + 1).last() == self.events@[i as int]@);
            let ghost before = submission_views(subs@);
            match &self.events[i] {
                WalletEvent::KeystoreAdded { keystore, submitted_by } => {
                    subs.push((*submitted_by, keystore.clone()));
                    assert(submission_views(subs@) =~= before.push(
                        SubmissionView { participant: *submitted_by, keystore: keystore@ },
                    ));
                },
                WalletEvent::KeystoreRemoved { participant, .. } => {
                    subs = retain_others(subs, *participant);
                },
                _ => {},
            }
            i += 1;
        }
        assert(all.take(i as int) =~= all);
        subs
    }

    /// The keystores that are held, in the order of their submission.
    pub fn keystores(&self) -> (r: Vec<DescriptorPublicKey>)
        ensures
            keystore_views(r@) == submitted_keystores(wallet_submissions(self@.events)),
    {
        let subs: Vec<(UserId, DescriptorPublicKey)> = self.submissions();
        let ghost wanted = submitted_keystores(wallet_submissions(self@.events));
        let mut r: Vec<DescriptorPublicKey> = Vec::new();
        let mut i: usize = 0;
        while i < subs.len()
            invariant
                i <= subs@.len(),
                r@.len() == i,
                wanted == submitted_keystores(submission_views(subs@)),
                forall|j: int| 0 <= j < i ==> (#[trigger] r@[j])@ == wanted[j],
            decreases subs@.len() - i,
        {
            r.push(subs[i].1.clone());
            i += 1;
        }
        assert(keystore_views(r@) =~= wanted);
        r
    }

    /// The participants who hold no keystore in the wallet.
    pub fn pending_participants(&self) -> (r: Vec<UserId>)
        ensures
            r@ == pending(self@.participants, wallet_submissions(self@.events)),
    {
        let subs: Vec<(UserId, DescriptorPublicKey)> = self.submissions();
        let ghost views = submission_views(subs@);
        let mut r: Vec<UserId> = Vec::new();
        let mut i: usize = 0;
        assert(r@ =~= pending(self.participants@.take(0), views));
        while i < self.participants.len()
            invariant
                i <= self.participants@.len(),
                views == submission_views(subs@),
                r@ == pending(self.participants@.take(i as int), views),
            decreases self.participants@.len() - i,
        {
            assert(self.participants@.take(i + 1).drop_last() =~= self.participants@.take(
                i as int,
            ));
            if find_submission(&subs, self.participants[i]).is_none() {
                r.push(self.participants[i]);
            }
            i += 1;
        }
        assert(self.participants@.take(i as int) =~= self.participants@);
        r
    }

    /// The number of participants who hold no keystore in the wallet.
    pub fn missing_keystores(&self) -> (r: u32)
        ensures
            r == pending(self@.participants, wallet_submissions(self@.events)).len() as u32,
    {
        let missing: Vec<UserId> = self.pending_participants();
        #[verifier::truncate]
        let n: u32 = missing.len() as u32;
        n
    }

    /// The descriptor, once the wallet is active.
    pub fn descriptor(&self) -> (r: Option<&Descriptor>)
        ensures
            match r {
                Some(d) => wallet_activation(self@.events) is Some && d@ == (wallet_activation(
                    self@.events,
                )->0).0,
                None => wallet_activation(self@.events) is None,
            },
    {
        match self.activation() {
            Some((d, _)) => Some(d),
            None => None,
        }
    }

    /// The content address of the wallet, once it is active.
    pub fn descriptor_fingerprint(&self) -> (r: Option<DescriptorFingerprint>)
        ensures
            match r {
                Some(f) => wallet_activation(self@.events) is Some && f@ == (wallet_activation(
                    self@.events,
                )->0).1,
                None => wallet_activation(self@.events) is None,
            },
    {
        match self.activation() {
            Some((_, f)) => Some(f),
            None => None,
        }
    }

    /// The descriptor and the content address, as the first activation records them.
    fn activation(&self) -> (r: Option<(&Descriptor, DescriptorFingerprint)>)
        ensures
            match r {
                Some((d, f)) => wallet_activation(self@.events) == Some((d@, f@)),
                None => wallet_activation(self@.events) is None,
            },
    {
        let ghost all = wallet_events(self.events@);
        let mut i: usize = 0;
        assert(all.take(0) =~= Seq::<WalletEventView>::empty());
        while i < self.events.len()
            invariant
                i <= self.events@.len(),
                all == wallet_events(self.events@),
                wallet_activation(all.take(i as int)) is None,
            decreases self.events@.len() - i,
        {
            assert(all.take(i + 1).drop_last() =~= all.take(i as int));
            assert(all.take(i + 1).last() == self.events@[i as int]@);
            match &self.events[i] {
                WalletEvent::Activated { descriptor, descriptor_fingerprint } => {
                    proof {
                        lemma_activation_prefix(all, i + 1);
                    }
                    return Some((descriptor, *descriptor_fingerprint));
                },
                _ => {},
            }
            i += 1;
        }
        assert(all.take(i as int) =~= all);
        None
    }

    /// The fingerprint of the keystore that a participant holds in the wallet.
    pub fn keystore_fingerprint_of(&self, participant: UserId) -> (r: Option<KeyFingerprint>)
        ensures
            r == match submission_of(wallet_submissions(self@.events), participant) {
                Some(k) => Some(k.fingerprint),
                None => None,
            },
    {
        let subs: Vec<(UserId, DescriptorPublicKey)> = self.submissions();
        match find_submission(&subs, participant) {
            Some(k) => Some(keystore_fingerprint(k)),
            None => None,
        }
    }

    /// What a keystore submitted by a user leads to, or why it is refused.
    pub fn keystore_step(&self, keystore: &DescriptorPublicKey, submitted_by: UserId) -> (r: Result<
        KeystoreStep,
        WalletError,
    >)
        ensures
            match r {
                Ok(s) => keystore_step(self@, keystore@, submitted_by) == Ok::<
                    KeystoreStep,
                    WalletFault,
                >(s),
                Err(e) => keystore_step(self@, keystore@, submitted_by) == Err::<
                    KeystoreStep,
                    WalletFault,
                >(e@),
            },
    {
        let subs: Vec<(UserId, DescriptorPublicKey)> = self.submissions();
        let ghost views = submission_views(subs@);
        let mut holds_one: bool = false;
        match find_submission(&subs, submitted_by) {
            Some(existing) => {
                if existing.same(keystore) {
                    return Ok(KeystoreStep::AlreadyApplied);
                }
                holds_one = true;
            },
            None => {},
        }
        match self.status() {
            WalletStatus::CollectingKeystores => {},
            WalletStatus::Active => {
                return Err(WalletError::AlreadyActive);
            },
            WalletStatus::Cancelled => {
                return Err(WalletError::Cancelled);
            },
        }
        if !has_user(&self.participants, submitted_by) {
            return Err(WalletError::NotAParticipant(submitted_by));
        }
        if holds_one {
            return Err(WalletError::ParticipantAlreadySubmitted(submitted_by));
        }
        let fingerprint: KeyFingerprint = keystore_fingerprint(keystore);
        let mut i: usize = 0;
        while i < subs.len()
            invariant
                i <= subs@.len(),
                views == submission_views(subs@),
                views == wallet_submissions(self@.events),
                fingerprint == keystore@.fingerprint,
                submission_of(views, submitted_by) is None,
                wallet_status(self@.events) == WalletStatus::CollectingKeystores,
                self@.participants.contains(submitted_by),
                forall|j: int| 0 <= j < i ==> (#[trigger] views[j]).keystore.fingerprint
                    != fingerprint,
            decreases subs@.len() - i,
        {
            assert(views[i as int].keystore == subs@[i as int].1@);
            if keystore_fingerprint(&subs[i].1) == fingerprint {
                return Err(WalletError::DuplicateKeystore(fingerprint));
            }
            i += 1;
        }
        assert(views.len() == subs@.len());
        if self.participants.len() > 0 && subs.len() == self.participants.len() - 1 {
            Ok(KeystoreStep::Activate)
        } else {
            Ok(KeystoreStep::Record)
        }
    }

    /// The descriptor that the keystores of the wallet and one more form.
    fn derive_descriptor(&self, keystore: &DescriptorPublicKey) -> (r: Result<
        Descriptor,
        WalletError,
    >)
        ensures
            match r {
                Ok(d) => completed_descriptor(self@, keystore@) == Ok::<
                    DescriptorView,
                    WalletFault,
                >(d@),
                Err(e) => completed_descriptor(self@, keystore@) == Err::<
                    DescriptorView,
                    WalletFault,
                >(e@),
            },
    {
        let mut keystores: Vec<DescriptorPublicKey> = self.keystores();
        let ghost before = keystore_views(keystores@);
        keystores.push(keystore.clone());
        assert(keystore_views(keystores@) =~= before.push(keystore@));
        sortedmulti_wsh_descriptor(self.threshold as usize, &keystores)
    }

    /// Records a submitted keystore, given what the keystores form with it where it is the last.
    pub fn record_keystore(
        &mut self,
        keystore: DescriptorPublicKey,
        submitted_by: UserId,
        derived: Option<Result<Descriptor, WalletError>>,
    ) -> (r: Result<Idempotent<()>, WalletError>)
        requires
            keystore_step(old(self)@, keystore@, submitted_by) == Ok::<KeystoreStep, WalletFault>(
                KeystoreStep::Activate,
            ) ==> derived is Some,
        ensures
            ({
                let found: Result<DescriptorView, WalletFault> = match derived {
                    Some(Ok(d)) => Ok(d@),
                    Some(Err(e)) => Err(e@),
                    None => Ok(DescriptorView { text: Seq::empty(), keys: Seq::empty() }),
                };
                let (after, answer) = keystore_outcome(
                    old(self)@,
                    keystore@,
                    submitted_by,
                    found,
                );
                &&& final(self)@ == after
                &&& match r {
                    Ok(i) => answer == Ok::<Idempotent<()>, WalletFault>(i),
                    Err(e) => answer == Err::<Idempotent<()>, WalletFault>(e@),
                }
            }),
    {
        let ghost before = wallet_events(self.events@);
        let ghost added = WalletEventView::KeystoreAdded { keystore: keystore@, submitted_by };
        match self.keystore_step(&keystore, submitted_by) {
            Err(e) => Err(e),
            Ok(KeystoreStep::AlreadyApplied) => Ok(Idempotent::AlreadyApplied),
            Ok(KeystoreStep::Record) => {
                self.events.push(WalletEvent::KeystoreAdded { keystore, submitted_by });
                assert(wallet_events(self.events@) =~= before.push(added));
                Ok(Idempotent::Executed(()))
            },
            Ok(KeystoreStep::Activate) => match derived {
                Some(Ok(descriptor)) => {
                    let fingerprint: DescriptorFingerprint = descriptor_fingerprint(
                        &descriptor,
                        self.network,
                    );
                    let ghost activated = WalletEventView::Activated {
                        descriptor: descriptor@,
                        descriptor_fingerprint: fingerprint@,
                    };
                    self.events.push(WalletEvent::KeystoreAdded { keystore, submitted_by });
                    self.events.push(
                        WalletEvent::Activated {
                            descriptor,
                            descriptor_fingerprint: fingerprint,
                        },
                    );
                    assert(wallet_events(self.events@) =~= before.push(added).push(activated));
                    Ok(Idempotent::Executed(()))
                },
                Some(Err(e)) => Err(e),
                None => Ok(Idempotent::AlreadyApplied),
            },
        }
    }

    /// Records a keystore that a participant submits.
    ///
    /// Submitting the same keystore again changes nothing, whatever the status: the retry of
    /// the submission that activated the wallet must be recognized too. Another keystore needs
    /// the first one to be withdrawn. No two participants may have keystores from one device.
    ///
    /// The keystore that completes the policy also activates the wallet. The descriptor is
    /// derived before anything is recorded, so that keys which form none leave no trace.
    pub fn add_keystore(&mut self, keystore: DescriptorPublicKey, submitted_by: UserId) -> (r:
        Result<Idempotent<()>, WalletError>)
        ensures
            ({
                let (after, answer) = keystore_outcome(
                    old(self)@,
                    keystore@,
                    submitted_by,
                    completed_descriptor(old(self)@, keystore@),
                );
                &&& final(self)@ == after
                &&& match r {
                    Ok(i) => answer == Ok::<Idempotent<()>, WalletFault>(i),
                    Err(e) => answer == Err::<Idempotent<()>, WalletFault>(e@),
                }
            }),
    {
        let derived: Option<Result<Descriptor, WalletError>> = match self.keystore_step(
            &keystore,
            submitted_by,
        ) {
            Ok(KeystoreStep::Activate) => Some(self.derive_descriptor(&keystore)),
            _ => None,
        };
        self.record_keystore(keystore, submitted_by, derived)
    }

    /// Withdraws a participant's keystore, so that another one can be submitted. Withdrawing
    /// where there is none changes nothing.
    pub fn remove_keystore(&mut self, participant: UserId, removed_by: UserId) -> (r: Result<
        Idempotent<()>,
        WalletError,
    >)
        ensures
            ({
                let (after, answer) = removal_outcome(old(self)@, participant, removed_by);
                &&& final(self)@ == after
                &&& match r {
                    Ok(i) => answer == Ok::<Idempotent<()>, WalletFault>(i),
                    Err(e) => answer == Err::<Idempotent<()>, WalletFault>(e@),
                }
            }),
    {
        match self.status() {
            WalletStatus::CollectingKeystores => {},
            WalletStatus::Active => {
                return Err(WalletError::AlreadyActive);
            },
            WalletStatus::Cancelled => {
                return Err(WalletError::Cancelled);
            },
        }
        let ghost before = wallet_events(self.events@);
        let subs: Vec<(UserId, DescriptorPublicKey)> = self.submissions();
        match find_submission(&subs, participant) {
            None => Ok(Idempotent::AlreadyApplied),
            Some(found) => {
                let keystore: DescriptorPublicKey = found.clone();
                let event: WalletEvent = WalletEvent::KeystoreRemoved {
                    participant,
                    keystore,
                    removed_by,
                };
                let ghost removed = event@;
                self.events.push(event);
                assert(wallet_events(self.events@) =~= before.push(removed));
                Ok(Idempotent::Executed(()))
            },
        }
    }

    /// Abandons the wallet. Only before activation: an active wallet has addresses, and perhaps
    /// funds.
    pub fn cancel(&mut self, cancelled_by: UserId, reason: String) -> (r: Result<
        Idempotent<()>,
        WalletError,
    >)
        ensures
            ({
                let (after, answer) = cancel_outcome(old(self)@, cancelled_by, reason@);
                &&& final(self)@ == after
                &&& match r {
                    Ok(i) => answer == Ok::<Idempotent<()>, WalletFault>(i),
                    Err(e) => answer == Err::<Idempotent<()>, WalletFault>(e@),
                }
            }),
    {
        let ghost before = wallet_events(self.events@);
        if self.has_cancellation() {
            return Ok(Idempotent::AlreadyApplied);
        }
        match self.status() {
            WalletStatus::Active => {
                return Err(WalletError::CannotCancelActive);
            },
            _ => {},
        }
        let event: WalletEvent = WalletEvent::Cancelled { cancelled_by, reason };
        let ghost cancelled = event@;
        self.events.push(event);
        assert(wallet_events(self.events@) =~= before.push(cancelled));
        Ok(Idempotent::Executed(()))
    }

    /// Whether a cancellation is among the events.
    fn has_cancellation(&self) -> (r: bool)
        ensures
            r == was_cancelled(self@.events),
    {
        let ghost all = wallet_events(self.events@);
        let mut i: usize = 0;
        while i < self.events.len()
            invariant
                i <= self.events@.len(),
                all == wallet_events(self.events@),
                forall|j: int| 0 <= j < i ==> !(#[trigger] all[j] is Cancelled),
            decreases self.events@.len() - i,
        {
            assert(all[i as int] == self.events@[i as int]@);
            match &self.events[i] {
                WalletEvent::Cancelled { .. } => {
                    return true;
                },
                _ => {},
            }
            i += 1;
        }
        false
    }

    /// Rebuilds the wallet that events tell of.
    pub fn try_from_events(events: Vec<WalletEvent>) -> (r: Result<Wallet, EntityHydrationError>)
        ensures
            match r {
                Ok(w) => hydrated(wallet_events(events@)) == Some(w@),
                Err(e) => hydrated(wallet_events(events@)) is None && e.field@ == "id"@,
            },
    {
        let ghost all = wallet_events(events@);
        let mut found: Option<(WalletId, Network, u32, Vec<UserId>)> = None;
        let mut i: usize = 0;
        assert(all.take(0) =~= Seq::<WalletEventView>::empty());
        while i < events.len()
            invariant
                i <= events@.len(),
                all == wallet_events(events@),
                match found {
                    None => registered(all.take(i as int)) is None,
                    Some((id, network, threshold, participants)) => registered(
                        all.take(i as int),
                    ) == Some(
                        WalletEventView::Initialized {
                            id,
                            network,
                            threshold,
                            participants: participants@,
                        },
                    ),
                },
            decreases events@.len() - i,
        {
            assert(all.take(i + 1).drop_last() =~= all.take(i as int));
            assert(all.take(i + 1).last() == events@[i as int]@);
            match &events[i] {
                WalletEvent::Initialized { id, network, threshold, participants } => {
                    found = Some((*id, *network, *threshold, copied_users(participants)));
                },
                _ => {},
            }
            i += 1;
        }
        assert(all.take(i as int) =~= all);
        match found {
            Some((id, network, threshold, participants)) => Ok(
                Wallet { id, network, threshold, participants, events },
            ),
            None => Err(EntityHydrationError { field: "id" }),
        }
    }
}

/// The first participant who is named a second time.
pub open spec fn first_repeated(users: Seq<UserId>) -> Option<UserId>
    decreases users.len(),
{
    if users.len() == 0 {
        None
    } else {
        match first_repeated(users.drop_last()) {
            Some(u) => Some(u),
            None => if users.drop_last().contains(users.last()) {
                Some(users.last())
            } else {
                None
            },
        }
    }
}

/// What is wrong with a policy, if anything.
pub open spec fn policy_fault(threshold: u32, participants: Seq<UserId>) -> Option<WalletFault> {
    if participants.len() == 0 || threshold == 0 || threshold > participants.len() {
        Some(
            WalletFault::InvalidPolicy { threshold, total_keystores: participants.len() as u32 },
        )
    } else {
        match first_repeated(participants) {
            Some(u) => Some(WalletFault::DuplicateParticipant(u)),
            None => None,
        }
    }
}

/// A repeated participant among the first ones is the first of all.
proof fn lemma_repeated_prefix(users: Seq<UserId>, n: int)
    requires
        0 <= n <= users.len(),
        first_repeated(users.take(n)) is Some,
    ensures
        first_repeated(users) == first_repeated(users.take(n)),
    decreases users.len() - n,
{
    if n < users.len() {
        assert(users.take(n + 1).drop_last() =~= users.take(n));
        lemma_repeated_prefix(users, n + 1);
    } else {
        assert(users.take(n) =~= users);
    }
}

/// A wallet policy that is about to be registered.
#[derive(Debug)]
pub struct NewWallet {
    id: WalletId,
    network: Network,
    threshold: u32,
    participants: Vec<UserId>,
}

/// What a [`NewWallet`] holds.
pub struct NewWalletView {
    pub id: WalletId,
    pub network: Network,
    pub threshold: u32,
    pub participants: Seq<UserId>,
}

impl View for NewWallet {
    type V = NewWalletView;

    closed spec fn view(&self) -> NewWalletView {
        NewWalletView {
            id: self.id,
            network: self.network,
            threshold: self.threshold,
            participants: self.participants@,
        }
    }
}

/// The event that registers a policy.
pub open spec fn registration(w: NewWalletView) -> WalletEventView {
    WalletEventView::Initialized {
        id: w.id,
        network: w.network,
        threshold: w.threshold,
        participants: w.participants,
    }
}

/// A field of something that is being put together was not given.
#[derive(Debug, Clone, Copy)]
pub struct UninitializedField(pub &'static str);

/// A wallet policy that is being put together, without regard to whether it is a good one.
#[derive(Debug)]
pub struct NewWalletBuilder {
    pub id: Option<WalletId>,
    pub network: Option<Network>,
    pub threshold: Option<u32>,
    pub participants: Option<Vec<UserId>>,
}

impl NewWalletBuilder {
    /// Gives the id.
    pub fn id(self, id: WalletId) -> (r: Self)
        ensures
            r == (NewWalletBuilder { id: Some(id), ..self }),
    {
        NewWalletBuilder { id: Some(id), ..self }
    }

    /// Gives the network.
    pub fn network(self, network: Network) -> (r: Self)
        ensures
            r == (NewWalletBuilder { network: Some(network), ..self }),
    {
        NewWalletBuilder { network: Some(network), ..self }
    }

    /// Gives the number of signatures that a spend needs.
    pub fn threshold(self, threshold: u32) -> (r: Self)
        ensures
            r == (NewWalletBuilder { threshold: Some(threshold), ..self }),
    {
        NewWalletBuilder { threshold: Some(threshold), ..self }
    }

    /// Gives the participants.
    pub fn participants(self, participants: Vec<UserId>) -> (r: Self)
        ensures
            r == (NewWalletBuilder { participants: Some(participants), ..self }),
    {
        NewWalletBuilder { participants: Some(participants), ..self }
    }

    /// The policy, once everything was given; else the first field that was not.
    pub fn build(self) -> (r: Result<NewWallet, UninitializedField>)
        ensures
            match r {
                Ok(w) => {
                    &&& self.id == Some(w@.id)
                    &&& self.network == Some(w@.network)
                    &&& self.threshold == Some(w@.threshold)
                    &&& self.participants is Some
                    &&& (self.participants->0)@ == w@.participants
                },
                Err(e) => if self.id is None {
                    e.0@ == "id"@
                } else if self.network is None {
                    e.0@ == "network"@
                } else if self.threshold is None {
                    e.0@ == "threshold"@
                } else {
                    self.participants is None && e.0@ == "participants"@
                },
            },
    {
        match (self.id, self.network, self.threshold, self.participants) {
            (Some(id), Some(network), Some(threshold), Some(participants)) => Ok(
                NewWallet { id, network, threshold, participants },
            ),
            (None, _, _, _) => Err(UninitializedField("id")),
            (_, None, _, _) => Err(UninitializedField("network")),
            (_, _, None, _) => Err(UninitializedField("threshold")),
            (_, _, _, None) => Err(UninitializedField("participants")),
        }
    }
}

impl NewWallet {
    /// Nothing given yet.
    pub fn builder() -> (r: NewWalletBuilder)
        ensures
            r == (NewWalletBuilder {
                id: None,
                network: None,
                threshold: None,
                participants: None,
            }),
    {
        NewWalletBuilder { id: None, network: None, threshold: None, participants: None }
    }

    /// A policy of `threshold` signatures out of one keystore per participant. The participants
    /// must be distinct, and at least as many as signatures are needed, which must be one or
    /// more.
    pub fn new(id: WalletId, network: Network, threshold: u32, participants: Vec<UserId>) -> (r:
        Result<Self, WalletError>)
        ensures
            match r {
                Ok(w) => policy_fault(threshold, participants@) is None && w@ == (NewWalletView {
                    id,
                    network,
                    threshold,
                    participants: participants@,
                }),
                Err(e) => policy_fault(threshold, participants@) == Some(e@),
            },
    {
        if participants.len() == 0 || threshold == 0 || threshold as u64 > participants.len()
            as u64 {
            #[verifier::truncate]
            let total: u32 = participants.len() as u32;
            return Err(WalletError::InvalidPolicy { threshold, total_keystores: total });
        }
        let mut i: usize = 0;
        let mut seen: Vec<UserId> = Vec::new();
        while i < participants.len()
            invariant
                i <= participants@.len(),
                0 < threshold <= participants@.len(),
                seen@ =~= participants@.take(i as int),
                first_repeated(participants@.take(i as int)) is None,
            decreases participants@.len() - i,
        {
            assert(participants@.take(i + 1).drop_last() =~= participants@.take(i as int));
            if has_user(&seen, participants[i]) {
                proof {
                    lemma_repeated_prefix(participants@, i + 1);
                }
                return Err(WalletError::DuplicateParticipant(participants[i]));
            }
            seen.push(participants[i]);
            i += 1;
        }
        assert(participants@.take(i as int) =~= participants@);
        Ok(NewWallet { id, network, threshold, participants })
    }

    /// The id of the wallet.
    pub fn id(&self) -> (r: WalletId)
        ensures
            r == self@.id,
    {
        self.id
    }

    /// The status of a wallet that is about to be registered.
    pub fn status(&self) -> (r: WalletStatus)
        ensures
            r == wallet_status(seq![registration(self@)]),
    {
        reveal_with_fuel(wallet_status, 2);
        assert(seq![registration(self@)].drop_last() =~= Seq::<WalletEventView>::empty());
        WalletStatus::CollectingKeystores
    }

    /// A wallet that is about to be registered has no content address.
    pub fn descriptor_fingerprint(&self) -> (r: Option<DescriptorFingerprint>)
        ensures
            r is None && wallet_activation(seq![registration(self@)]) is None,
    {
        reveal_with_fuel(wallet_activation, 2);
        assert(seq![registration(self@)].drop_last() =~= Seq::<WalletEventView>::empty());
        None
    }

    /// The events with which the wallet starts.
    pub fn into_events(self) -> (r: Vec<WalletEvent>)
        ensures
            wallet_events(r@) == seq![registration(self@)],
    {
        let ghost v = self@;
        let event: WalletEvent = WalletEvent::Initialized {
            id: self.id,
            network: self.network,
            threshold: self.threshold,
            participants: self.participants,
        };
        assert(event@ == registration(v));
        let mut events: Vec<WalletEvent> = Vec::new();
        events.push(event);
        assert(wallet_events(events@) =~= seq![registration(v)]);
        events
    }
}

} // verus!
