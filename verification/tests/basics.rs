//! Addresses, texts, frames and storage.

use kota::address::Address;
use kota::api::{
    acting_user, parse_descriptor_fingerprint, parse_keystore, Base64, SpendOutPointInput,
    SpendOutputInput, SpendProposeInput,
};
use kota::bytes::{bytes_equal, precedes};
use kota::hex::{decode_hex_32, hex_text, SeedError};
use kota::keygen::{gen_keystore, keystore_text, KeygenError};
use kota::primitives::{
    DescriptorFingerprint, DescriptorFingerprintParseError, KeyFingerprint, Network, PsbtHash,
    PsbtHashParseError, PsbtSessionId, Txid, UserId, WalletId,
};
use kota::psbt::{FieldMap, Pair, Psbt};
use kota::psbt_session::{ChangeOutput, NewPsbtSession, OutPointRef, PsbtSessionStatus};
use kota::storage::{
    fetch_verified, verify_fetched, BlobFetchError, BlobStore, InMemoryBlobStore,
};
use kota::wallet::{keystore_fingerprint, NewWallet, WalletStatus};

#[test]
fn psbt_hash_is_sha256_in_hex() {
    let hash = PsbtHash::digest_of(b"abc");
    assert_eq!(
        hash.to_string(),
        "ba7816bf8f01cfea414140de5dae2223b00361a396177a9cb410ff61f20015ad"
    );
    assert_eq!(PsbtHash::from_str(&hash.to_string()), Ok(hash));
    // capital letters are no part of an address
    assert_eq!(PsbtHash::from_str(&"AB".repeat(32)), Err(PsbtHashParseError));
    assert_eq!(PsbtHash::from_str(&"ab".repeat(32)), Ok(PsbtHash([0xab; 32])));
}

#[test]
fn texts_that_are_no_hashes_are_refused() {
    let good = "0".repeat(64);
    assert_eq!(PsbtHash::from_str(&good), Ok(PsbtHash([0; 32])));
    assert!(PsbtHash::from_str("").is_err());
    assert!(PsbtHash::from_str(&good[1..]).is_err());
    assert!(PsbtHash::from_str(&format!("{good}0")).is_err());
    assert!(PsbtHash::from_str(&format!("g{}", &good[1..])).is_err());
    assert!(PsbtHash::from_str(&format!(" {}", &good[1..])).is_err());
    assert!(PsbtHash::from_str(&format!("é{}", &good[2..])).is_err());
    assert!(DescriptorFingerprint::from_str("zz").is_err());
    let f = DescriptorFingerprint::digest_of(b"");
    assert_eq!(
        f.to_string(),
        "e3b0c44298fc1c149afbf4c8996fb92427ae41e4649b934ca495991b7852b855"
    );
    assert_eq!(DescriptorFingerprint::from_str(&f.to_string()), Ok(f));
    assert_eq!(
        DescriptorFingerprint::from_str(&f.to_string().to_uppercase()),
        Err(DescriptorFingerprintParseError)
    );
    assert!(parse_descriptor_fingerprint(&"AB".repeat(32)).is_err());
}

#[test]
fn seeds_are_read_from_hex() {
    let text = "00ff".repeat(16);
    let mut expected = [0u8; 32];
    for (i, byte) in expected.iter_mut().enumerate() {
        *byte = if i % 2 == 0 { 0x00 } else { 0xff };
    }
    assert_eq!(decode_hex_32(&text), Ok(expected));
    assert_eq!(decode_hex_32(&format!(" \t{text}\n\u{2003}")), Ok(expected));
    assert_eq!(decode_hex_32(&text[2..]), Err(SeedError::Length));
    assert_eq!(decode_hex_32(""), Err(SeedError::Length));
    assert_eq!(decode_hex_32(&format!("x{}", &text[1..])), Err(SeedError::Digit));
    assert_eq!(decode_hex_32(&format!("é{}", &text[2..])), Err(SeedError::Digit));
    assert_eq!(decode_hex_32(&format!("é{}", &text[1..])), Err(SeedError::Length));
    assert_eq!(SeedError::Length.message(), "seed must be 64 hex characters");
    assert_eq!(SeedError::Digit.message(), "invalid hex");
    assert_eq!(hex_text(&[0x00, 0x9f, 0xa0]), "009fa0");
}

#[test]
fn keystores_come_from_seeds() {
    let seed = "42".repeat(32);
    let key = gen_keystore(&seed).unwrap();
    assert_eq!(gen_keystore(&seed).unwrap(), key);
    let text = key.to_string();
    let fingerprint = keystore_fingerprint(&key).to_string();
    assert!(text.starts_with(&format!("[{fingerprint}/48'/0'/0'/2']tpub")));
    assert!(text.ends_with("/0/*"));
    assert_ne!(gen_keystore(&"43".repeat(32)).unwrap(), key);
    assert!(matches!(gen_keystore("42"), Err(KeygenError::Seed(SeedError::Length))));
    assert!(matches!(
        gen_keystore(&"zz".repeat(32)),
        Err(KeygenError::Seed(SeedError::Digit))
    ));
    assert_eq!(keystore_text([1, 2, 3, 4], "tpub"), "[01020304/48'/0'/0'/2']tpub/0/*");

    // the same key as the bitcoin crate derives it
    let secp = bitcoin::secp256k1::Secp256k1::new();
    let master =
        bitcoin::bip32::Xpriv::new_master(bitcoin::Network::Regtest, &[0x42; 32]).unwrap();
    let path: bitcoin::bip32::DerivationPath = "m/48'/0'/0'/2'".parse().unwrap();
    let account = master.derive_priv(&secp, &path).unwrap();
    let xpub = bitcoin::bip32::Xpub::from_priv(&secp, &account);
    assert_eq!(text, format!("[{}/48'/0'/0'/2']{xpub}/0/*", master.fingerprint(&secp)));
}

#[test]
fn fingerprints_are_ordered_as_their_bytes() {
    let f = KeyFingerprint::from_bytes([0xde, 0xad, 0x00, 0x01]);
    assert_eq!(f, KeyFingerprint(0xdead_0001));
    assert_eq!(f.to_bytes(), [0xde, 0xad, 0x00, 0x01]);
    assert_eq!(f.to_string(), "dead0001");
    assert!(KeyFingerprint::from_bytes([1, 255, 255, 255]) < KeyFingerprint::from_bytes([2, 0, 0, 0]));
}

#[test]
fn txids_are_written_backwards() {
    let mut bytes = [0u8; 32];
    bytes[0] = 0xab;
    let txid = Txid(bytes);
    let text = format!("{}ab", "0".repeat(62));
    assert_eq!(txid.to_string(), text);
    assert_eq!(Txid::from_str(&text), Ok(txid));
    assert!(Txid::from_str("ab").is_err());
}

#[test]
fn network_names() {
    assert_eq!(Network::Bitcoin.name(), bitcoin::Network::Bitcoin.to_string());
    assert_eq!(Network::Testnet.name(), bitcoin::Network::Testnet.to_string());
    assert_eq!(Network::Testnet4.name(), bitcoin::Network::Testnet4.to_string());
    assert_eq!(Network::Signet.name(), bitcoin::Network::Signet.to_string());
    assert_eq!(Network::Regtest.name(), bitcoin::Network::Regtest.to_string());
}

#[test]
fn session_status_names() {
    assert_eq!(PsbtSessionStatus::Pending.name(), "pending");
    assert_eq!(PsbtSessionStatus::Collecting.name(), "collecting");
    assert_eq!(PsbtSessionStatus::Finalized.name(), "finalized");
    assert_eq!(PsbtSessionStatus::Broadcast.name(), "broadcast");
    assert_eq!(PsbtSessionStatus::Confirmed.name(), "confirmed");
    assert_eq!(PsbtSessionStatus::Invalidated.name(), "invalidated");
    assert_eq!(PsbtSessionStatus::Cancelled.name(), "cancelled");
    assert_eq!(PsbtSessionStatus::default(), PsbtSessionStatus::Pending);
}

#[test]
fn byte_strings_are_ordered() {
    assert!(precedes(b"ab", b"b"));
    assert!(precedes(b"a", b"ab"));
    assert!(precedes(b"", b"a"));
    assert!(!precedes(b"a", b"a"));
    assert!(!precedes(b"b", b"ab"));
    assert!(bytes_equal(b"ab", b"ab"));
    assert!(!bytes_equal(b"ab", b"a"));
}

#[test]
fn lists_of_texts_are_compared_and_copied() {
    let list = |texts: &[&str]| texts.iter().map(|t| t.to_string()).collect::<Vec<String>>();
    assert!(kota::text::same_texts(&list(&["a", "é"]), &list(&["a", "é"])));
    assert!(!kota::text::same_texts(&list(&["a", "é"]), &list(&["é", "a"])));
    assert!(!kota::text::same_texts(&list(&["a"]), &list(&["a", "a"])));
    assert_eq!(kota::text::copied_texts(&list(&["a", "", "b"])), list(&["a", "", "b"]));
}

#[test]
fn blobs_are_put_fetched_and_deleted() {
    let mut store = InMemoryBlobStore::default();
    let a = store.put(b"one");
    let b = store.put(b"two");
    assert_eq!(a, PsbtHash::digest_of(b"one"));
    assert_eq!(store.get(&a), Some(b"one".to_vec()));
    assert_eq!(store.put(b"one"), a);
    assert_eq!(fetch_verified(&store, &b).unwrap(), b"two".to_vec());
    assert!(store.delete(&a));
    assert!(!store.delete(&a));
    assert_eq!(store.get(&a), None);
    assert!(matches!(fetch_verified(&store, &a), Err(BlobFetchError::Missing(h)) if h == a));
    assert_eq!(store.get(&b), Some(b"two".to_vec()));
    store.put(b"");
    assert_eq!(store.into_entries().len(), 2);
}

#[test]
fn exchanged_blobs_are_recognized() {
    let hash = PsbtHash::digest_of(b"one");
    assert_eq!(verify_fetched(&hash, Some(b"one".to_vec())).unwrap(), b"one".to_vec());
    assert!(matches!(
        verify_fetched(&hash, Some(b"two".to_vec())),
        Err(BlobFetchError::Integrity(h)) if h == hash
    ));
    assert!(matches!(verify_fetched(&hash, None), Err(BlobFetchError::Missing(_))));

    let store = InMemoryBlobStore::from_entries(vec![(hash, b"two".to_vec())]);
    assert!(matches!(fetch_verified(&store, &hash), Err(BlobFetchError::Integrity(_))));
}

#[test]
fn payloads_cross_as_base64() {
    let payload = Base64(vec![0, 255, 16, 1]);
    assert_eq!(payload.to_text(), "AP8QAQ==");
    assert_eq!(Base64::parse("AP8QAQ==").unwrap().0, vec![0, 255, 16, 1]);
    assert!(Base64::parse("AP8QAQ").unwrap_err().starts_with("invalid base64: "));
}

#[test]
fn requests_name_their_user() {
    let user = acting_user(Some("00000000-0000-0000-0000-00000000002a"));
    assert_eq!(user, Ok(UserId(42)));
    assert_eq!(acting_user(None), Err("Missing or invalid x-user-id header"));
    assert_eq!(acting_user(Some("me")), Err("Missing or invalid x-user-id header"));
}

#[test]
fn texts_of_clients_are_read_or_answered() {
    let reason = "no key".parse::<miniscript::DescriptorPublicKey>().unwrap_err();
    assert_eq!(
        parse_keystore("no key").unwrap_err(),
        format!("invalid keystore: {reason}")
    );
    let key = gen_keystore(&"42".repeat(32)).unwrap();
    assert_eq!(parse_keystore(&key.to_string()).unwrap(), key);
    assert_eq!(
        parse_descriptor_fingerprint(&"ab".repeat(32)),
        Ok(DescriptorFingerprint([0xab; 32]))
    );
    assert_eq!(
        parse_descriptor_fingerprint("ab"),
        Err("invalid descriptor fingerprint: expected 64 lowercase hex characters")
    );
}

#[test]
fn names_are_read_back() {
    for status in ["pending", "collecting", "finalized", "broadcast", "confirmed"] {
        assert_eq!(PsbtSessionStatus::from_name(status).unwrap().name(), status);
    }
    assert_eq!(PsbtSessionStatus::from_name("cancelled"), Some(PsbtSessionStatus::Cancelled));
    assert_eq!(PsbtSessionStatus::from_name("invalidated"), Some(PsbtSessionStatus::Invalidated));
    assert_eq!(PsbtSessionStatus::from_name("expired"), None);
    assert_eq!(WalletStatus::from_name("active"), Some(WalletStatus::Active));
    assert_eq!(WalletStatus::from_name("cancelled"), Some(WalletStatus::Cancelled));
    assert_eq!(
        WalletStatus::from_name("collecting_keystores"),
        Some(WalletStatus::CollectingKeystores)
    );
    assert_eq!(WalletStatus::from_name(""), None);
    for network in ["bitcoin", "testnet", "testnet4", "signet", "regtest"] {
        assert_eq!(Network::from_name(network).unwrap().name(), network);
    }
    assert_eq!(Network::from_name("mainnet"), None);
}

#[test]
fn builders_name_what_is_missing() {
    let wallet = NewWallet::builder()
        .id(WalletId(1))
        .network(Network::Signet)
        .threshold(1)
        .participants(vec![UserId(2)])
        .build()
        .unwrap();
    assert_eq!(wallet.id(), WalletId(1));
    assert_eq!(wallet.status(), WalletStatus::CollectingKeystores);
    assert_eq!(wallet.descriptor_fingerprint(), None);
    let missing = NewWallet::builder().id(WalletId(1)).threshold(1).build().unwrap_err();
    assert_eq!(missing.0, "network");
    let missing = NewPsbtSession::builder().fee_sats(1).build().unwrap_err();
    assert_eq!(missing.0, "id");
    let session = NewPsbtSession::builder()
        .id(PsbtSessionId(1))
        .wallet_id(WalletId(2))
        .proposed_by(UserId(3))
        .inputs(vec![])
        .outputs(vec![])
        .fee_sats(4)
        .change_output(None)
        .threshold(5)
        .keystores(vec![]);
    assert_eq!(session.build().unwrap().wallet_id(), WalletId(2));
}

fn proposal() -> SpendProposeInput {
    SpendProposeInput {
        wallet_id: WalletId(3),
        inputs: vec![SpendOutPointInput { txid: "1f".repeat(32), vout: 2 }],
        outputs: vec![SpendOutputInput {
            address: "bcrt1qw508d6qejxtdg4y5r3zarvary0c5xw7kygt080".to_string(),
            amount_sats: 50_000,
        }],
        fee_sats: 500,
        change_output: Some(ChangeOutput { amount_sats: 7_000, derivation_index: 1 }),
    }
}

#[test]
fn proposals_are_read() {
    let (wallet_id, spend) = proposal().into_wallet_and_spec().unwrap();
    assert_eq!(wallet_id, WalletId(3));
    assert_eq!(spend.inputs, vec![OutPointRef { txid: Txid([0x1f; 32]), vout: 2 }]);
    assert_eq!(spend.outputs.len(), 1);
    assert_eq!(
        spend.outputs[0].address.as_str(),
        "bcrt1qw508d6qejxtdg4y5r3zarvary0c5xw7kygt080"
    );
    assert_eq!(spend.outputs[0].amount_sats, 50_000);
    assert_eq!(spend.fee_sats, 500);
    assert_eq!(
        spend.change_output,
        Some(ChangeOutput { amount_sats: 7_000, derivation_index: 1 })
    );
}

#[test]
fn texts_of_proposals_that_cannot_be_read_are_named() {
    let mut bad = proposal();
    bad.inputs.push(SpendOutPointInput { txid: "xyz".to_string(), vout: 0 });
    bad.outputs[0].address = "nowhere".to_string();
    let reason = "xyz".parse::<bitcoin::Txid>().unwrap_err();
    assert_eq!(
        bad.into_wallet_and_spec().unwrap_err(),
        format!("invalid txid 'xyz': {reason}")
    );

    let mut bad = proposal();
    bad.outputs[0].address = "nowhere".to_string();
    let reason = "nowhere"
        .parse::<bitcoin::Address<bitcoin::address::NetworkUnchecked>>()
        .unwrap_err();
    assert_eq!(
        bad.into_wallet_and_spec().unwrap_err(),
        format!("invalid address 'nowhere': {reason}")
    );
}

#[test]
fn addresses_have_one_text() {
    let text = "BCRT1QW508D6QEJXTDG4Y5R3ZARVARY0C5XW7KYGT080";
    let address = Address::from_str(text).unwrap();
    assert_eq!(address.to_string(), text.to_lowercase());
    assert_eq!(Address::from_str(&address.to_string()).unwrap(), address);
    assert!(Address::from_str("nowhere").is_err());
}

fn pair(key: &[u8], value: &[u8]) -> Pair {
    Pair { key: key.to_vec(), value: value.to_vec() }
}

#[test]
fn frames_are_written_and_read() {
    let psbt = Psbt {
        global: FieldMap { pairs: vec![pair(&[0], &[1, 2, 3])] },
        inputs: vec![
            FieldMap { pairs: vec![pair(&[1], &[]), pair(&[2, 9], &[7; 300])] },
            FieldMap { pairs: vec![] },
        ],
        outputs: vec![FieldMap { pairs: vec![pair(&[5], &vec![4; 70_000])] }],
    };
    let bytes = psbt.serialize();
    assert_eq!(&bytes[..12], &[0x70, 0x73, 0x62, 0x74, 0xff, 1, 0, 3, 1, 2, 3, 0]);
    assert_eq!(&bytes[12..19], &[1, 1, 0, 2, 2, 9, 0xfd]);
    assert_eq!(&bytes[19..22], &[0x2c, 0x01, 7]);
    let read = Psbt::from_frame(&bytes, 2, 1).unwrap();
    assert_eq!(read.serialize(), bytes);
    assert_eq!(read.inputs[0].pairs[1].value, vec![7; 300]);
    assert_eq!(read.outputs[0].pairs[0].value.len(), 70_000);

    assert!(Psbt::from_frame(&bytes, 1, 1).is_none());
    assert!(Psbt::from_frame(&bytes, 2, 2).is_none());
    assert!(Psbt::from_frame(&bytes[..bytes.len() - 1], 2, 1).is_none());
    assert!(Psbt::from_frame(&bytes[1..], 2, 1).is_none());
    let mut longer = bytes.clone();
    longer.push(0);
    assert!(Psbt::from_frame(&longer, 2, 1).is_none());
    // a length that does not stand in its shortest form
    let loose = [0x70, 0x73, 0x62, 0x74, 0xff, 0xfd, 1, 0, 9, 0, 0];
    assert!(Psbt::from_frame(&loose, 0, 0).is_none());
}
