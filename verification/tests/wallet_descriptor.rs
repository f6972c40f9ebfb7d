//! Descriptors and their fingerprints.

use std::str::FromStr;

use bitcoin::bip32::{DerivationPath, Xpriv, Xpub};
use bitcoin::secp256k1::Secp256k1;
use miniscript::descriptor::{DescriptorXKey, Wildcard};

use kota::primitives::{DescriptorFingerprint, Network, UserId, WalletId};
use kota::psbt_session::{ChangeOutput, SpendSpec};
use kota::wallet::{
    build_unsigned_psbt, descriptor_fingerprint, descriptor_fingerprints, keystore_fingerprint,
    sortedmulti_wsh_descriptor, Descriptor, DescriptorPublicKey, NewWallet, Wallet, WalletError,
    WalletEvent,
};

const NETWORK: Network = Network::Regtest;

fn keystore_at(seed: u8, account_path: &str) -> DescriptorPublicKey {
    let secp = Secp256k1::new();
    let xpriv = Xpriv::new_master(bitcoin::Network::Regtest, &[seed; 64]).unwrap();
    let account_path = DerivationPath::from_str(account_path).unwrap();
    let account_xpriv = xpriv.derive_priv(&secp, &account_path).unwrap();
    let key = miniscript::DescriptorPublicKey::XPub(DescriptorXKey {
        origin: Some((xpriv.fingerprint(&secp), account_path)),
        xkey: Xpub::from_priv(&secp, &account_xpriv),
        derivation_path: DerivationPath::from_str("m/0").unwrap(),
        wildcard: Wildcard::Unhardened,
    });
    DescriptorPublicKey::from_str(&key.to_string()).unwrap()
}

fn keystore(seed: u8) -> DescriptorPublicKey {
    keystore_at(seed, "m/48'/0'/0'/2'")
}

fn two_of_three() -> Descriptor {
    sortedmulti_wsh_descriptor(2, &vec![keystore(1), keystore(2), keystore(3)]).unwrap()
}

#[test]
fn fingerprint_is_deterministic() {
    assert_eq!(
        descriptor_fingerprint(&two_of_three(), NETWORK),
        descriptor_fingerprint(&two_of_three(), NETWORK),
    );
}

#[test]
fn fingerprint_depends_on_network() {
    let descriptor = two_of_three();
    assert_ne!(
        descriptor_fingerprint(&descriptor, Network::Testnet),
        descriptor_fingerprint(&descriptor, Network::Signet),
    );
}

#[test]
fn fingerprint_ignores_checksum_suffix() {
    let with_checksum = two_of_three().to_string();
    let without_checksum = with_checksum.split_once('#').unwrap().0.to_string();

    let parsed_with = Descriptor::from_str(&with_checksum).unwrap();
    let parsed_without = Descriptor::from_str(&without_checksum).unwrap();

    assert_eq!(
        descriptor_fingerprint(&parsed_with, NETWORK),
        descriptor_fingerprint(&parsed_without, NETWORK),
    );
}

#[test]
fn fingerprint_ignores_cosigner_import_order() {
    let forward =
        sortedmulti_wsh_descriptor(2, &vec![keystore(1), keystore(2), keystore(3)]).unwrap();
    let reverse =
        sortedmulti_wsh_descriptor(2, &vec![keystore(3), keystore(2), keystore(1)]).unwrap();
    assert_eq!(
        descriptor_fingerprint(&forward, NETWORK),
        descriptor_fingerprint(&reverse, NETWORK),
    );
}

#[test]
fn fingerprint_depends_on_threshold() {
    let two =
        sortedmulti_wsh_descriptor(2, &vec![keystore(1), keystore(2), keystore(3)]).unwrap();
    let three =
        sortedmulti_wsh_descriptor(3, &vec![keystore(1), keystore(2), keystore(3)]).unwrap();
    assert_ne!(
        descriptor_fingerprint(&two, NETWORK),
        descriptor_fingerprint(&three, NETWORK),
    );
}

#[test]
fn new_wallet_records_canonical_descriptor_and_fingerprint() {
    let descriptor = two_of_three();
    let expected_fingerprint = descriptor_fingerprint(&descriptor, NETWORK);
    let users = vec![UserId(1), UserId(2), UserId(3)];
    let new_wallet = NewWallet::new(WalletId(9), NETWORK, 2, users.clone()).unwrap();
    let mut wallet = Wallet::try_from_events(new_wallet.into_events()).unwrap();
    for (i, seed) in [1u8, 2, 3].iter().enumerate() {
        wallet.add_keystore(keystore(*seed), users[i]).unwrap();
    }

    let wallet = Wallet::try_from_events(wallet.events().clone()).unwrap();
    assert_eq!(wallet.descriptor(), Some(&descriptor));
    assert_eq!(wallet.descriptor_fingerprint(), Some(expected_fingerprint));
}

#[test]
fn descriptor_serializes_as_canonical_string() {
    // what is persisted of a descriptor is its standard text, not a structure
    let descriptor = two_of_three();
    let event = WalletEvent::Activated {
        descriptor_fingerprint: descriptor_fingerprint(&descriptor, NETWORK),
        descriptor: descriptor.clone(),
    };
    let text = match &event {
        WalletEvent::Activated { descriptor, .. } => descriptor.to_string(),
        _ => panic!("an activation"),
    };
    let json = serde_json::to_string(&text).unwrap();
    assert_eq!(json, format!("\"{}\"", descriptor.to_string()));

    let read: String = serde_json::from_str(&json).unwrap();
    let outside: miniscript::Descriptor<miniscript::DescriptorPublicKey> = read.parse().unwrap();
    assert_eq!(outside.to_string(), read);
    assert_eq!(Descriptor::from_str(&read).unwrap(), descriptor);
}

#[test]
fn keys_are_sorted_in_the_text() {
    let mut texts: Vec<String> = [3u8, 1, 2].iter().map(|s| keystore(*s).to_string()).collect();
    texts.sort();
    let body = two_of_three().to_string();
    assert!(body.starts_with(&format!("wsh(sortedmulti(2,{}))#", texts.join(","))));
}

#[test]
fn fingerprint_is_the_digest_of_network_and_body() {
    let descriptor = two_of_three();
    let text = descriptor.to_string();
    let body = text.split_once('#').unwrap().0;
    let expected = kota::primitives::DescriptorFingerprint::digest_of(
        format!("regtest:{body}").as_bytes(),
    );
    assert_eq!(descriptor_fingerprint(&descriptor, NETWORK), expected);
}

#[test]
fn descriptor_fingerprints_name_each_keystore_once() {
    let mut expected: Vec<_> = [1u8, 2, 3]
        .iter()
        .map(|s| (keystore(*s).to_string(), keystore_fingerprint(&keystore(*s))))
        .collect();
    expected.sort_by(|a, b| a.0.cmp(&b.0));
    let expected: Vec<_> = expected.into_iter().map(|(_, f)| f).collect();
    assert_eq!(descriptor_fingerprints(&two_of_three()), expected);

    let twice = sortedmulti_wsh_descriptor(
        1,
        &vec![keystore(1), keystore_at(1, "m/48'/0'/1'/2'")],
    )
    .unwrap();
    assert_eq!(descriptor_fingerprints(&twice), vec![keystore_fingerprint(&keystore(1))]);
}

#[test]
fn thresholds_that_no_script_holds_are_refused() {
    assert!(matches!(
        sortedmulti_wsh_descriptor(0, &vec![keystore(1)]),
        Err(WalletError::Threshold { threshold: 0, total: 1 })
    ));
    assert!(matches!(
        sortedmulti_wsh_descriptor(2, &vec![keystore(1)]),
        Err(WalletError::Threshold { threshold: 2, total: 1 })
    ));
    let many: Vec<DescriptorPublicKey> = (1..22).map(keystore).collect();
    assert!(matches!(
        sortedmulti_wsh_descriptor(1, &many),
        Err(WalletError::Threshold { threshold: 1, total: 21 })
    ));
    assert!(sortedmulti_wsh_descriptor(1, &many[..20].to_vec()).is_ok());
}

#[test]
fn keys_that_form_no_descriptor_are_refused() {
    // an uncompressed key cannot stand in a witness script
    let text = "0479be667ef9dcbbac55a06295ce870b07029bfcdb2dce28d959f2815b16f81798\
                483ada7726a3c4655da4fbfc0e1108a8fd17b448a68554199c47d08ffb10d4b8";
    let key = DescriptorPublicKey::from_str(text).unwrap();
    assert!(matches!(
        sortedmulti_wsh_descriptor(1, &vec![key]),
        Err(WalletError::Miniscript(_))
    ));
}

#[test]
fn texts_that_are_no_keys_are_refused() {
    assert!(DescriptorPublicKey::from_str("no key").is_err());
    assert!(Descriptor::from_str("no descriptor").is_err());
}

#[test]
fn master_fingerprint_is_that_of_the_origin() {
    let secp = Secp256k1::new();
    let xpriv = Xpriv::new_master(bitcoin::Network::Regtest, &[1u8; 64]).unwrap();
    let expected = xpriv.fingerprint(&secp);
    assert_eq!(keystore_fingerprint(&keystore(1)).to_bytes(), expected.to_bytes());
    assert_eq!(keystore_fingerprint(&keystore(1)).to_string(), expected.to_string());
}

#[test]
fn keys_have_one_text() {
    let key = keystore(1);
    let other = key.to_string().replace('\'', "h");
    assert_ne!(other, key.to_string());
    assert_eq!(DescriptorPublicKey::from_str(&other).unwrap(), key);
    assert_eq!(DescriptorPublicKey::from_str(&key.to_string()).unwrap(), key);
}

#[test]
fn a_descriptor_is_more_than_its_text() {
    let internal = keystore(1).to_string();
    let key = keystore(2).to_string();
    let base = key.strip_suffix("/0/*").unwrap();
    // two keys that differ, but are written alike: the text is not read again
    let text = format!("tr({internal},and_v(v:pk({base}/<0;0>/*),pk({base}/0/*)))");
    let read = Descriptor::from_str(&text).unwrap();
    assert_eq!(read, read.clone());
    assert!(Descriptor::from_str(&read.to_string()).is_err());
    // a text that is read as another descriptor
    let several = Descriptor::from_str(&format!("wsh(pk({base}/<0;0>/*))")).unwrap();
    let one = Descriptor::from_str(&several.to_string()).unwrap();
    assert_eq!(one.to_string(), several.to_string());
    assert_ne!(one, several);
    assert_eq!(one, Descriptor::from_str(&one.to_string()).unwrap());
}

#[test]
fn a_descriptor_is_read_without_its_checksum() {
    let descriptor = two_of_three();
    let body = descriptor.to_string().split_once('#').unwrap().0.to_string();
    assert_eq!(Descriptor::from_str(&body).unwrap(), descriptor);
    let mut texts: Vec<String> = (1u8..4).map(|seed| keystore(seed).to_string()).collect();
    texts.sort();
    assert_eq!(body, format!("wsh(sortedmulti(2,{}))", texts.join(",")));
    assert_eq!(
        descriptor_fingerprint(&descriptor, Network::Signet),
        DescriptorFingerprint::digest_of(format!("signet:{body}").as_bytes())
    );
}

#[test]
fn a_repeated_index_is_written_once() {
    let key = keystore(1);
    let text = key.to_string();
    let repeated = DescriptorPublicKey::from_str(&text.replace("/0/*", "/<0;0;1>/*")).unwrap();
    assert_eq!(repeated.to_string(), text);
    assert_eq!(keystore_fingerprint(&repeated), keystore_fingerprint(&key));
    assert_ne!(repeated, key);
    assert_eq!(repeated, repeated.clone());
    // spelled differently, but the same key
    let spelled = text.replace('\'', "h").replace("/0/*", "/<0;0;1>/*");
    assert_eq!(DescriptorPublicKey::from_str(&spelled).unwrap(), repeated);
    let several = text.replace("/0/*", "/<0;1>/*");
    assert_eq!(DescriptorPublicKey::from_str(&several).unwrap().to_string(), several);

    // the one is not taken for the other
    let new = NewWallet::new(WalletId(9), NETWORK, 1, vec![UserId(1)]).unwrap();
    let mut wallet = Wallet::try_from_events(new.into_events()).unwrap();
    assert!(wallet.add_keystore(repeated.clone(), UserId(1)).unwrap().did_execute());
    assert!(wallet.add_keystore(repeated.clone(), UserId(1)).unwrap().was_already_applied());
    assert!(matches!(
        wallet.add_keystore(key.clone(), UserId(1)),
        Err(WalletError::AlreadyActive)
    ));
    let new = NewWallet::new(WalletId(9), NETWORK, 2, vec![UserId(1), UserId(2)]).unwrap();
    let mut waiting = Wallet::try_from_events(new.into_events()).unwrap();
    waiting.add_keystore(repeated.clone(), UserId(1)).unwrap();
    assert!(matches!(
        waiting.add_keystore(key.clone(), UserId(1)),
        Err(WalletError::ParticipantAlreadySubmitted(UserId(1)))
    ));

    // no script is derived from a key with several paths
    let spend = SpendSpec {
        inputs: vec![],
        outputs: vec![],
        fee_sats: 0,
        change_output: Some(ChangeOutput { amount_sats: 1, derivation_index: 0 }),
    };
    let descriptor = wallet.descriptor().unwrap();
    assert_eq!(
        descriptor.to_string(),
        sortedmulti_wsh_descriptor(1, &vec![key.clone()]).unwrap().to_string()
    );
    assert!(matches!(
        build_unsigned_psbt(&spend, descriptor, &[], NETWORK),
        Err(WalletError::NonDefiniteKey(_))
    ));
    assert_eq!(descriptor_fingerprints(descriptor), vec![keystore_fingerprint(&key)]);
}

#[test]
fn keystores_that_are_written_alike_stay_as_they_came() {
    let text = keystore(1).to_string();
    let a = DescriptorPublicKey::from_str(&text.replace("/0/*", "/<0;0;1>/*")).unwrap();
    let b = keystore(1);
    let first = sortedmulti_wsh_descriptor(1, &vec![a.clone(), b.clone()]).unwrap();
    let second = sortedmulti_wsh_descriptor(1, &vec![b, a]).unwrap();
    assert_eq!(first.to_string(), second.to_string());
    assert_ne!(first, second);
    assert_eq!(
        descriptor_fingerprint(&first, NETWORK),
        descriptor_fingerprint(&second, NETWORK)
    );
}
