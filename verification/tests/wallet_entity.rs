//! The life of a wallet.

use std::str::FromStr;

use bitcoin::bip32::{DerivationPath, Xpriv, Xpub};
use bitcoin::secp256k1::Secp256k1;
use miniscript::descriptor::{DescriptorXKey, Wildcard};

use kota::primitives::{Network, UserId, WalletId};
use kota::wallet::{
    descriptor_fingerprint, keystore_fingerprint, sortedmulti_wsh_descriptor,
    DescriptorPublicKey, NewWallet, Wallet, WalletError, WalletStatus,
};

const NETWORK: Network = Network::Regtest;

fn keystore_at(seed: u8, account_path: &str) -> DescriptorPublicKey {
    let secp = Secp256k1::new();
    let xpriv = Xpriv::new_master(bitcoin::Network::Regtest, &[seed; 64]).unwrap();
    let account_path = DerivationPath::from_str(account_path).unwrap();
    let account_xpriv = xpriv.derive_priv(&secp, &account_path).unwrap();
    let key = miniscript::DescriptorPublicKey::XPub(DescriptorXKey {
        origin: Some((xpriv.fingerprint(&secp), account_path)),
        xkey: Xpub::from_priv(&secp, &account_xpriv),
        derivation_path: DerivationPath::from_str("m/0").unwrap(),
        wildcard: Wildcard::Unhardened,
    });
    DescriptorPublicKey::from_str(&key.to_string()).unwrap()
}

fn keystore(seed: u8) -> DescriptorPublicKey {
    keystore_at(seed, "m/48'/0'/0'/2'")
}

/// Another key of the same device: the origin has the same fingerprint.
fn different_keystore_same_fingerprint(seed: u8) -> DescriptorPublicKey {
    keystore_at(seed, "m/48'/0'/1'/2'")
}

fn participants() -> Vec<UserId> {
    (1..4).map(UserId).collect()
}

fn new_wallet() -> (Wallet, Vec<UserId>) {
    let participants = participants();
    let wallet = Wallet::try_from_events(
        NewWallet::new(WalletId(5), NETWORK, 2, participants.clone())
            .unwrap()
            .into_events(),
    )
    .unwrap();
    (wallet, participants)
}

fn active_wallet() -> (Wallet, Vec<UserId>) {
    let (mut wallet, participants) = new_wallet();
    for (i, seed) in [1, 2, 3].iter().enumerate() {
        let _ = wallet
            .add_keystore(keystore(*seed), participants[i])
            .unwrap();
    }
    (wallet, participants)
}

#[test]
fn starts_collecting_with_no_descriptor() {
    let (wallet, participants) = new_wallet();
    assert_eq!(wallet.status(), WalletStatus::CollectingKeystores);
    assert_eq!(wallet.descriptor(), None);
    assert_eq!(wallet.descriptor_fingerprint(), None);
    assert_eq!(wallet.missing_keystores(), 3);
    assert_eq!(wallet.pending_participants(), participants);
}

#[test]
fn activates_atomically_with_final_keystore() {
    let (mut wallet, participants) = new_wallet();

    let _ = wallet.add_keystore(keystore(1), participants[0]).unwrap();
    let _ = wallet.add_keystore(keystore(2), participants[1]).unwrap();
    assert_eq!(wallet.status(), WalletStatus::CollectingKeystores);
    assert_eq!(wallet.missing_keystores(), 1);
    assert_eq!(wallet.pending_participants(), vec![participants[2]]);

    let _ = wallet.add_keystore(keystore(3), participants[2]).unwrap();
    assert_eq!(wallet.status(), WalletStatus::Active);
    assert_eq!(wallet.missing_keystores(), 0);

    let expected =
        sortedmulti_wsh_descriptor(2, &vec![keystore(1), keystore(2), keystore(3)]).unwrap();
    assert_eq!(wallet.descriptor(), Some(&expected));
    assert_eq!(
        wallet.descriptor_fingerprint(),
        Some(descriptor_fingerprint(&expected, NETWORK))
    );
}

#[test]
fn activation_is_submission_order_independent() {
    let (mut forward, participants) = new_wallet();
    for (i, seed) in [1, 2, 3].iter().enumerate() {
        let _ = forward
            .add_keystore(keystore(*seed), participants[i])
            .unwrap();
    }
    let (mut reverse, participants) = new_wallet();
    for (i, seed) in [3, 2, 1].iter().enumerate() {
        let _ = reverse
            .add_keystore(keystore(*seed), participants[i])
            .unwrap();
    }
    assert_eq!(
        forward.descriptor_fingerprint(),
        reverse.descriptor_fingerprint()
    );
    assert_eq!(forward.descriptor(), reverse.descriptor());
}

#[test]
fn non_participant_cannot_submit() {
    let (mut wallet, _) = new_wallet();
    assert!(matches!(
        wallet.add_keystore(keystore(1), UserId(77)),
        Err(WalletError::NotAParticipant(_))
    ));
    assert_eq!(wallet.keystores().len(), 0);
}

#[test]
fn resubmitting_identical_keystore_is_idempotent() {
    let (mut wallet, participants) = new_wallet();
    assert!(
        wallet
            .add_keystore(keystore(1), participants[0])
            .unwrap()
            .did_execute()
    );
    assert!(
        wallet
            .add_keystore(keystore(1), participants[0])
            .unwrap()
            .was_already_applied()
    );
    assert_eq!(wallet.keystores().len(), 1);
}

#[test]
fn activating_submission_is_retryable() {
    let (mut wallet, participants) = new_wallet();
    let _ = wallet.add_keystore(keystore(1), participants[0]).unwrap();
    let _ = wallet.add_keystore(keystore(2), participants[1]).unwrap();
    assert!(
        wallet
            .add_keystore(keystore(3), participants[2])
            .unwrap()
            .did_execute()
    );
    assert_eq!(wallet.status(), WalletStatus::Active);

    // crash/retry of the submission that activated the wallet: the
    // wallet is now Active, but the retry must still be recognized
    // as already applied, not rejected as AlreadyActive
    assert!(
        wallet
            .add_keystore(keystore(3), participants[2])
            .unwrap()
            .was_already_applied()
    );
    assert_eq!(wallet.keystores().len(), 3);
}

#[test]
fn submission_retry_after_cancel_is_still_idempotent() {
    let (mut wallet, participants) = new_wallet();
    let _ = wallet.add_keystore(keystore(1), participants[0]).unwrap();
    let _ = wallet
        .cancel(participants[0], "abandoned".to_string())
        .unwrap();

    // a retry in flight from before the cancellation lands as a
    // no-op, not an error
    assert!(
        wallet
            .add_keystore(keystore(1), participants[0])
            .unwrap()
            .was_already_applied()
    );
}

#[test]
fn participant_cannot_submit_second_key_without_removal() {
    let (mut wallet, participants) = new_wallet();
    let _ = wallet.add_keystore(keystore(1), participants[0]).unwrap();
    assert!(matches!(
        wallet.add_keystore(keystore(9), participants[0]),
        Err(WalletError::ParticipantAlreadySubmitted(_))
    ));
    assert_eq!(wallet.keystores(), vec![keystore(1)]);
}

#[test]
fn different_key_with_registered_fingerprint_is_rejected() {
    let (mut wallet, participants) = new_wallet();
    let _ = wallet.add_keystore(keystore(1), participants[0]).unwrap();
    // a *second participant* presenting a key from the same device
    let result = wallet.add_keystore(different_keystore_same_fingerprint(1), participants[1]);
    assert!(matches!(result, Err(WalletError::DuplicateKeystore(_))));
    assert_eq!(wallet.keystores().len(), 1);
}

#[test]
fn removed_keystore_can_be_replaced() {
    let (mut wallet, participants) = new_wallet();
    let _ = wallet.add_keystore(keystore(1), participants[0]).unwrap();

    assert!(
        wallet
            .remove_keystore(participants[0], participants[0])
            .unwrap()
            .did_execute()
    );
    assert_eq!(wallet.keystores().len(), 0);
    assert_eq!(wallet.pending_participants().len(), 3);

    // the participant can now submit the replacement
    assert!(
        wallet
            .add_keystore(keystore(9), participants[0])
            .unwrap()
            .did_execute()
    );
    assert_eq!(wallet.keystores(), vec![keystore(9)]);
}

#[test]
fn removing_without_submission_is_idempotent() {
    let (mut wallet, participants) = new_wallet();
    assert!(
        wallet
            .remove_keystore(participants[0], participants[1])
            .unwrap()
            .was_already_applied()
    );
}

#[test]
fn keystores_are_immutable_after_activation() {
    let (mut wallet, participants) = active_wallet();
    assert!(matches!(
        wallet.add_keystore(keystore(4), participants[0]),
        Err(WalletError::AlreadyActive)
    ));
    assert!(matches!(
        wallet.remove_keystore(participants[0], participants[0]),
        Err(WalletError::AlreadyActive)
    ));
}

#[test]
fn cancel_abandons_keystore_collection() {
    let (mut wallet, participants) = new_wallet();
    let _ = wallet.add_keystore(keystore(1), participants[0]).unwrap();

    assert!(
        wallet
            .cancel(participants[0], "quorum fell apart".to_string())
            .unwrap()
            .did_execute()
    );
    assert_eq!(wallet.status(), WalletStatus::Cancelled);
    assert!(
        wallet
            .cancel(participants[0], "again".to_string())
            .unwrap()
            .was_already_applied()
    );

    // a cancelled wallet accepts no further keystores
    assert!(matches!(
        wallet.add_keystore(keystore(2), participants[1]),
        Err(WalletError::Cancelled)
    ));
    assert!(matches!(
        wallet.remove_keystore(participants[0], participants[0]),
        Err(WalletError::Cancelled)
    ));
}

#[test]
fn active_wallet_cannot_be_cancelled() {
    let (mut wallet, participants) = active_wallet();
    assert!(matches!(
        wallet.cancel(participants[0], "too late".to_string()),
        Err(WalletError::CannotCancelActive)
    ));
    assert_eq!(wallet.status(), WalletStatus::Active);
}

#[test]
fn invalid_policies_are_rejected() {
    let participants = participants();
    assert!(matches!(
        NewWallet::new(WalletId(5), NETWORK, 0, participants.clone()),
        Err(WalletError::InvalidPolicy { .. })
    ));
    assert!(matches!(
        NewWallet::new(WalletId(5), NETWORK, 4, participants.clone()),
        Err(WalletError::InvalidPolicy { .. })
    ));
    assert!(matches!(
        NewWallet::new(WalletId(5), NETWORK, 1, vec![]),
        Err(WalletError::InvalidPolicy { .. })
    ));
    assert!(matches!(
        NewWallet::new(
            WalletId(5),
            NETWORK,
            2,
            vec![participants[0], participants[1], participants[0]],
        ),
        Err(WalletError::DuplicateParticipant(_))
    ));
    assert!(NewWallet::new(WalletId(5), NETWORK, 3, participants.clone()).is_ok());
    assert!(NewWallet::new(WalletId(5), NETWORK, 1, vec![participants[0]]).is_ok());
}

#[test]
fn hydration_needs_the_first_event() {
    assert!(matches!(Wallet::try_from_events(vec![]), Err(e) if e.field == "id"));
}

#[test]
fn hydration_rebuilds_full_state() {
    let (mut wallet, participants) = new_wallet();
    let _ = wallet.add_keystore(keystore(1), participants[0]).unwrap();
    let _ = wallet
        .remove_keystore(participants[0], participants[0])
        .unwrap();
    let _ = wallet.add_keystore(keystore(9), participants[0]).unwrap();
    let _ = wallet.add_keystore(keystore(2), participants[1]).unwrap();
    let _ = wallet.add_keystore(keystore(3), participants[2]).unwrap();

    let hydrated = Wallet::try_from_events(wallet.events().clone()).unwrap();
    assert_eq!(hydrated.status(), WalletStatus::Active);
    assert_eq!(hydrated.descriptor(), wallet.descriptor());
    assert_eq!(hydrated.keystores(), wallet.keystores());
    assert_eq!(hydrated.submissions(), wallet.submissions());
    assert_eq!(hydrated.network, NETWORK);
    assert_eq!(hydrated.threshold, 2);
    assert_eq!(hydrated.participants, participants);
}

#[test]
fn errors_name_who_and_what() {
    let (mut wallet, participants) = new_wallet();
    match wallet.add_keystore(keystore(1), UserId(77)) {
        Err(WalletError::NotAParticipant(user)) => assert_eq!(user, UserId(77)),
        other => panic!("{other:?}"),
    }
    wallet.add_keystore(keystore(1), participants[0]).unwrap();
    match wallet.add_keystore(keystore(2), participants[0]) {
        Err(WalletError::ParticipantAlreadySubmitted(user)) => assert_eq!(user, participants[0]),
        other => panic!("{other:?}"),
    }
    match wallet.add_keystore(different_keystore_same_fingerprint(1), participants[1]) {
        Err(WalletError::DuplicateKeystore(f)) => {
            assert_eq!(f, keystore_fingerprint(&keystore(1)));
        }
        other => panic!("{other:?}"),
    }
    match NewWallet::new(WalletId(5), NETWORK, 4, participants.clone()) {
        Err(WalletError::InvalidPolicy { threshold, total_keystores }) => {
            assert_eq!((threshold, total_keystores), (4, 3));
        }
        other => panic!("{other:?}"),
    }
    let repeated = vec![UserId(1), UserId(2), UserId(3), UserId(2), UserId(1)];
    match NewWallet::new(WalletId(5), NETWORK, 2, repeated) {
        Err(WalletError::DuplicateParticipant(user)) => assert_eq!(user, UserId(2)),
        other => panic!("{other:?}"),
    }
}

#[test]
fn keys_that_form_no_descriptor_leave_no_trace() {
    let mut wallet = Wallet::try_from_events(
        NewWallet::new(WalletId(5), NETWORK, 1, vec![UserId(1)])
            .unwrap()
            .into_events(),
    )
    .unwrap();
    // an uncompressed key cannot stand in a witness script
    let text = "0479be667ef9dcbbac55a06295ce870b07029bfcdb2dce28d959f2815b16f81798\
                483ada7726a3c4655da4fbfc0e1108a8fd17b448a68554199c47d08ffb10d4b8";
    let key = DescriptorPublicKey::from_str(text).unwrap();
    assert!(matches!(
        wallet.add_keystore(key, UserId(1)),
        Err(WalletError::Miniscript(_))
    ));
    assert_eq!(wallet.events().len(), 1);
    assert_eq!(wallet.status(), WalletStatus::CollectingKeystores);
}

#[test]
fn keystore_fingerprint_of_participants() {
    let (wallet, participants) = active_wallet();
    assert_eq!(
        wallet.keystore_fingerprint_of(participants[1]),
        Some(keystore_fingerprint(&keystore(2)))
    );
    assert_eq!(wallet.keystore_fingerprint_of(UserId(77)), None);
    assert_eq!(wallet.total_keystores(), 3);
    assert_eq!(wallet.participants(), participants.as_slice());
}

#[test]
fn events_without_a_registration_are_no_wallet() {
    assert!(Wallet::try_from_events(vec![]).is_err());
    let (wallet, _) = active_wallet();
    assert!(Wallet::try_from_events(wallet.events()[1..].to_vec()).is_err());
}

#[test]
fn status_names() {
    assert_eq!(WalletStatus::CollectingKeystores.name(), "collecting_keystores");
    assert_eq!(WalletStatus::Active.name(), "active");
    assert_eq!(WalletStatus::Cancelled.name(), "cancelled");
    assert_eq!(WalletStatus::default(), WalletStatus::CollectingKeystores);
}
