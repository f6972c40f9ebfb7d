//! Signing with real keys: from the proposal to a transaction that verifies.

use std::str::FromStr;

use bitcoin::bip32::{DerivationPath, Xpriv, Xpub};
use bitcoin::ecdsa::Signature as EcdsaSignature;
use bitcoin::secp256k1::{self, Message, Secp256k1};
use bitcoin::sighash::{EcdsaSighashType, SighashCache};
use bitcoin::Amount;
use miniscript::descriptor::{DescriptorXKey, Wildcard};
use miniscript::psbt::PsbtExt;

use kota::address::Address;
use kota::primitives::{
    KeyFingerprint, Network, PsbtHash, PsbtSessionId, Txid, UserId, WalletId,
};
use kota::psbt::{
    merge_partial_sigs, parse_psbt, validate_signed_submission, verify_merged_blob, Pair, Psbt,
    PsbtValidationError, MAX_PSBT_BYTES,
};
use kota::psbt_session::{
    ChangeOutput, NewPsbtSession, OutPointRef, PsbtSession, PsbtSessionStatus, SpendOutput,
    SpendSpec,
};
use kota::storage::{BlobStore, InMemoryBlobStore};
use kota::wallet::{
    build_unsigned_psbt, descriptor_fingerprints, keystore_fingerprint,
    sortedmulti_wsh_descriptor, Descriptor, DescriptorPublicKey, FundingUtxo, NewWallet, TxOut,
    Wallet, WalletError,
};

const NETWORK: Network = Network::Regtest;

/// m/48'/0'/0'/2', the account path of segwit multisig wallets.
const ACCOUNT_PATH: &str = "m/48'/0'/0'/2'";

/// A document as the `bitcoin` crate sees it.
fn outside(p: &Psbt) -> bitcoin::Psbt {
    bitcoin::Psbt::deserialize(&p.serialize()).unwrap()
}

/// A document of the `bitcoin` crate as the library sees it.
fn inside(p: &bitcoin::Psbt) -> Psbt {
    parse_psbt(&p.serialize()).unwrap()
}

fn keys(seed: u8) -> (Xpriv, DescriptorPublicKey) {
    let secp = Secp256k1::new();
    let xpriv = Xpriv::new_master(bitcoin::Network::Regtest, &[seed; 64]).unwrap();
    let account_path = DerivationPath::from_str(ACCOUNT_PATH).unwrap();
    let account_xpriv = xpriv.derive_priv(&secp, &account_path).unwrap();
    let key = miniscript::DescriptorPublicKey::XPub(DescriptorXKey {
        origin: Some((xpriv.fingerprint(&secp), account_path)),
        xkey: Xpub::from_priv(&secp, &account_xpriv),
        derivation_path: DerivationPath::from_str("m/0").unwrap(),
        wildcard: Wildcard::Unhardened,
    });
    (xpriv, DescriptorPublicKey::from_str(&key.to_string()).unwrap())
}

fn setup_wallet() -> (
    Secp256k1<secp256k1::All>,
    Xpriv,
    Descriptor,
    KeyFingerprint,
    DescriptorPublicKey,
) {
    let (xpriv, keystore) = keys(42);
    let descriptor = sortedmulti_wsh_descriptor(1, &vec![keystore.clone()]).unwrap();
    let fingerprint = keystore_fingerprint(&keystore);
    (Secp256k1::new(), xpriv, descriptor, fingerprint, keystore)
}

fn script_at(descriptor: &Descriptor, index: u32) -> bitcoin::ScriptBuf {
    let d: miniscript::Descriptor<miniscript::DescriptorPublicKey> =
        descriptor.as_str().parse().unwrap();
    d.at_derivation_index(index).unwrap().script_pubkey()
}

fn address_at(descriptor: &Descriptor, index: u32) -> Address {
    let address = bitcoin::Address::from_script(
        &script_at(descriptor, index),
        bitcoin::Network::Regtest,
    )
    .unwrap();
    Address::from_str(&address.to_string()).unwrap()
}

fn funding_at(descriptor: &Descriptor, seed: u8, index: u32, sats: u64) -> FundingUtxo {
    FundingUtxo {
        outpoint: OutPointRef { txid: Txid([seed; 32]), vout: 0 },
        txout: TxOut {
            value: sats,
            script_pubkey: script_at(descriptor, index).into_bytes(),
        },
        derivation_index: index,
    }
}

struct Fixture {
    secp: Secp256k1<secp256k1::All>,
    xpriv: Xpriv,
    descriptor: Descriptor,
    fingerprint: KeyFingerprint,
    keystore: DescriptorPublicKey,
    funding: Vec<FundingUtxo>,
    spec: SpendSpec,
}

impl Fixture {
    fn new() -> Self {
        let (secp, xpriv, descriptor, fingerprint, keystore) = setup_wallet();
        // a coin of the wallet at derivation index 0
        let funding = vec![funding_at(&descriptor, 7, 0, 100_000)];
        let spec = SpendSpec {
            inputs: vec![OutPointRef { txid: Txid([7u8; 32]), vout: 0 }],
            outputs: vec![SpendOutput {
                address: address_at(&descriptor, 5),
                amount_sats: 50_000,
            }],
            fee_sats: 500,
            change_output: Some(ChangeOutput { amount_sats: 49_500, derivation_index: 1 }),
        };
        Self { secp, xpriv, descriptor, fingerprint, keystore, funding, spec }
    }

    fn propose(&self) -> PsbtSession {
        let mut wallet = Wallet::try_from_events(
            NewWallet::new(WalletId(1), NETWORK, 1, vec![UserId(1)])
                .unwrap()
                .into_events(),
        )
        .unwrap();
        wallet.add_keystore(self.keystore.clone(), UserId(1)).unwrap();
        assert_eq!(wallet.descriptor(), Some(&self.descriptor));
        let new_session =
            NewPsbtSession::try_new(PsbtSessionId(1), &wallet, UserId(1), self.spec.clone())
                .unwrap();
        PsbtSession::try_from_events(new_session.into_events()).unwrap()
    }

    fn unsigned(&self) -> Psbt {
        build_unsigned_psbt(&self.spec, &self.descriptor, &self.funding, NETWORK).unwrap()
    }

    fn sign(&self, p: &Psbt) -> bitcoin::Psbt {
        let mut signed = outside(p);
        signed.sign(&self.xpriv, &self.secp).map_err(|(_, errors)| errors).unwrap();
        signed
    }

    /// The key at derivation index 0.
    fn child(&self) -> bitcoin::PrivateKey {
        let path = DerivationPath::from_str(ACCOUNT_PATH).unwrap();
        let account = self.xpriv.derive_priv(&self.secp, &path).unwrap();
        let path = DerivationPath::from_str("m/0/0").unwrap();
        account.derive_priv(&self.secp, &path).unwrap().to_priv()
    }
}

#[test]
fn e2e_propose_create_sign_finalize() {
    let fixture = Fixture::new();
    let mut store = InMemoryBlobStore::default();

    assert_eq!(descriptor_fingerprints(&fixture.descriptor), vec![fixture.fingerprint]);

    // propose
    let mut session = fixture.propose();
    assert_eq!(session.status(), PsbtSessionStatus::Pending);

    // build the document, store it, record its address
    let unsigned_psbt = fixture.unsigned();
    let unsigned_hash = store.put(&unsigned_psbt.serialize());
    assert!(session.record_psbt_created(unsigned_hash).unwrap().did_execute());
    assert_eq!(session.status(), PsbtSessionStatus::Collecting);
    assert_eq!(session.unsigned_psbt_hash(), Some(unsigned_hash));

    // the signer fetches it by its address, verifies it and signs
    let bytes = store.get(&unsigned_hash).unwrap();
    assert_eq!(PsbtHash::digest_of(&bytes), unsigned_hash);
    let original = parse_psbt(&bytes).unwrap();
    let signed_psbt = outside(&original);

    // the document holds everything that a signing device needs
    assert!(signed_psbt.inputs[0].witness_utxo.is_some());
    assert!(signed_psbt.inputs[0].witness_script.is_some());
    assert!(signed_psbt.inputs[0]
        .bip32_derivation
        .values()
        .any(|(fp, _)| fp.to_bytes() == fixture.fingerprint.to_bytes()));

    // so does the change output, which is the wallet's own
    let change_spk = script_at(&fixture.descriptor, 1);
    assert_eq!(signed_psbt.unsigned_tx.output[1].script_pubkey, change_spk);
    assert!(signed_psbt.outputs[1].witness_script.is_some());
    assert!(signed_psbt.outputs[1]
        .bip32_derivation
        .values()
        .any(|(fp, _)| fp.to_bytes() == fixture.fingerprint.to_bytes()));

    let signed_psbt = fixture.sign(&original);
    assert_eq!(signed_psbt.inputs[0].partial_sigs.len(), 1);

    // the platform validates the submission and rebuilds the document
    let extracted =
        validate_signed_submission(&original, &inside(&signed_psbt), &fixture.fingerprint)
            .unwrap();
    assert_eq!(extracted.len(), 1);
    let merged_psbt = merge_partial_sigs(&original, &extracted);
    assert!(verify_merged_blob(&original, &merged_psbt).is_ok());
    let signed_hash = store.put(&merged_psbt.serialize());
    assert!(session.add_signature(fixture.fingerprint, signed_hash).unwrap().did_execute());
    assert!(session.threshold_met());

    // finalize
    let final_psbt = outside(&merged_psbt)
        .finalize(&fixture.secp)
        .map_err(|(_, errors)| errors)
        .unwrap();
    let tx = final_psbt.extract_tx().unwrap();
    let final_tx_hash = PsbtHash::digest_of(&bitcoin::consensus::serialize(&tx));
    let txid = Txid::from_str(&tx.compute_txid().to_string()).unwrap();
    assert!(session
        .finalize(txid, final_tx_hash, vec![fixture.fingerprint])
        .unwrap()
        .did_execute());
    assert_eq!(session.status(), PsbtSessionStatus::Finalized);

    // the witness of a 1-of-1 multisig: a dummy, the signature and the script
    let witness = &tx.input[0].witness;
    assert_eq!(witness.len(), 3);
    let witness_items = witness.to_vec();
    let sig = EcdsaSignature::from_slice(&witness_items[1]).unwrap();
    assert_eq!(sig.sighash_type, EcdsaSighashType::All);
    let witness_script = bitcoin::Script::from_bytes(&witness_items[2]);
    let sighash = SighashCache::new(&tx)
        .p2wsh_signature_hash(0, witness_script, Amount::from_sat(100_000), EcdsaSighashType::All)
        .unwrap();
    let pubkey = fixture.child().public_key(&fixture.secp).inner;
    fixture
        .secp
        .verify_ecdsa(&Message::from(sighash), &sig.signature, &pubkey)
        .expect("the witness signature verifies");

    // the outputs are those of the proposal
    assert_eq!(tx.output[0].script_pubkey, script_at(&fixture.descriptor, 5));
    assert_eq!(tx.output[0].value, Amount::from_sat(50_000));
    assert_eq!(tx.output[1].script_pubkey, change_spk);
    assert_eq!(tx.output[1].value, Amount::from_sat(49_500));
    assert_eq!(
        Amount::from_sat(fixture.funding[0].txout.value) - tx.output[0].value - tx.output[1].value,
        Amount::from_sat(500)
    );
    assert_eq!(tx.version.0, 2);
    assert_eq!(tx.lock_time.to_consensus_u32(), 0);
    assert!(tx.input[0].sequence.is_rbf());
}

#[test]
fn tampered_submission_is_rejected() {
    let fixture = Fixture::new();
    let unsigned_psbt = fixture.unsigned();
    let mut tampered = outside(&unsigned_psbt);
    tampered.unsigned_tx.output[0].value = Amount::from_sat(99_000);
    assert!(matches!(
        validate_signed_submission(&unsigned_psbt, &inside(&tampered), &fixture.fingerprint),
        Err(PsbtValidationError::UnsignedTxModified)
    ));
}

#[test]
fn removed_cosigner_signature_is_rejected() {
    let fixture = Fixture::new();
    let signed = fixture.sign(&fixture.unsigned());
    let mut stripped = signed.clone();
    stripped.inputs[0].partial_sigs.clear();
    assert!(matches!(
        validate_signed_submission(&inside(&signed), &inside(&stripped), &fixture.fingerprint),
        Err(PsbtValidationError::PartialSignatureRemoved(0))
    ));
}

#[test]
fn mismatched_funding_script_is_rejected() {
    let mut fixture = Fixture::new();
    // the coin claims derivation index 0 but has the script of index 9
    fixture.funding[0].txout.script_pubkey = script_at(&fixture.descriptor, 9).into_bytes();
    assert!(matches!(
        build_unsigned_psbt(&fixture.spec, &fixture.descriptor, &fixture.funding, NETWORK),
        Err(WalletError::UtxoUpdate(_))
    ));
}

#[test]
fn partial_multi_input_submission_is_rejected() {
    let (secp, xpriv, descriptor, _, _) = setup_wallet();
    let funding = vec![
        funding_at(&descriptor, 7, 0, 60_000),
        funding_at(&descriptor, 8, 2, 60_000),
    ];
    let spec = SpendSpec {
        inputs: funding.iter().map(|f| f.outpoint).collect(),
        outputs: vec![SpendOutput {
            address: address_at(&descriptor, 5),
            amount_sats: 50_000,
        }],
        fee_sats: 500,
        change_output: Some(ChangeOutput { amount_sats: 69_500, derivation_index: 1 }),
    };
    let unsigned = build_unsigned_psbt(&spec, &descriptor, &funding, NETWORK).unwrap();

    // one new signature per input is accepted
    let mut complete = outside(&unsigned);
    complete.sign(&xpriv, &secp).map_err(|(_, errors)| errors).unwrap();
    let fingerprint = descriptor_fingerprints(&descriptor)[0];
    assert_eq!(
        validate_signed_submission(&unsigned, &inside(&complete), &fingerprint)
            .unwrap()
            .len(),
        2
    );

    // a submission that signs only input 0 is not
    let mut partial = outside(&unsigned);
    partial.inputs[0].partial_sigs = complete.inputs[0].partial_sigs.clone();
    assert!(matches!(
        validate_signed_submission(&unsigned, &inside(&partial), &fingerprint),
        Err(PsbtValidationError::IncompleteSubmission(1))
    ));
}

#[test]
fn invalid_partial_signature_is_rejected() {
    let fixture = Fixture::new();
    let unsigned = fixture.unsigned();
    // a well-formed signature over the wrong message
    let mut bad = outside(&unsigned);
    let junk_msg = Message::from_digest([9u8; 32]);
    let junk_sig = fixture.secp.sign_ecdsa(&junk_msg, &fixture.child().inner);
    let pubkey = bitcoin::PublicKey::new(fixture.child().public_key(&fixture.secp).inner);
    bad.inputs[0].partial_sigs.insert(
        pubkey,
        EcdsaSignature { signature: junk_sig, sighash_type: EcdsaSighashType::All },
    );
    assert!(matches!(
        validate_signed_submission(&unsigned, &inside(&bad), &fixture.fingerprint),
        Err(PsbtValidationError::InvalidPartialSignature(0))
    ));
    assert!(matches!(
        verify_merged_blob(&unsigned, &inside(&bad)),
        Err(PsbtValidationError::InvalidPartialSignature(0))
    ));
}

#[test]
fn non_sighash_all_submission_is_rejected() {
    let fixture = Fixture::new();
    let unsigned = fixture.unsigned();
    let signed = fixture.sign(&unsigned);
    let mut malleable = outside(&unsigned);
    for (pk, sig) in &signed.inputs[0].partial_sigs {
        malleable.inputs[0].partial_sigs.insert(
            *pk,
            EcdsaSignature {
                signature: sig.signature,
                sighash_type: EcdsaSighashType::Single,
            },
        );
    }
    assert!(matches!(
        validate_signed_submission(&unsigned, &inside(&malleable), &fixture.fingerprint),
        Err(PsbtValidationError::NonSigHashAllSighash(0))
    ));
}

#[test]
fn smuggled_cosigner_signature_is_rejected() {
    let fixture = Fixture::new();
    let unsigned = fixture.unsigned();
    let signed = fixture.sign(&unsigned);

    // a good signature, but the uploader is somebody else
    let impostor = KeyFingerprint::from_bytes([0xAB; 4]);
    assert!(matches!(
        validate_signed_submission(&unsigned, &inside(&signed), &impostor),
        Err(PsbtValidationError::SignatureNotBoundToSigner { .. })
    ));

    // and a signature under a key that is no keystore of the wallet at all
    let mut foreign = outside(&unsigned);
    let foreign_key =
        bitcoin::PublicKey::new(secp256k1::PublicKey::from_slice(&[2u8; 33]).unwrap());
    foreign.inputs[0].partial_sigs.insert(
        foreign_key,
        EcdsaSignature {
            signature: signed.inputs[0].partial_sigs.values().next().unwrap().signature,
            sighash_type: EcdsaSighashType::All,
        },
    );
    match validate_signed_submission(&unsigned, &inside(&foreign), &fixture.fingerprint) {
        Err(PsbtValidationError::SignatureNotBoundToSigner { index, pubkey, expected }) => {
            assert_eq!(index, 0);
            assert_eq!(pubkey, vec![2u8; 33]);
            assert_eq!(expected, fixture.fingerprint);
        }
        other => panic!("{other:?}"),
    }
}

#[test]
fn changed_fields_are_rejected() {
    let fixture = Fixture::new();
    let unsigned = fixture.unsigned();
    let signed = fixture.sign(&unsigned);
    let validate = |p: &bitcoin::Psbt| {
        validate_signed_submission(&unsigned, &inside(p), &fixture.fingerprint)
    };

    let key = bitcoin::psbt::raw::Key { type_value: 0x77, key: vec![1, 2] };
    let mut global = signed.clone();
    global.unknown.insert(key.clone(), vec![3]);
    assert!(matches!(validate(&global), Err(PsbtValidationError::GlobalFieldModified)));

    let mut output = signed.clone();
    output.outputs[1].witness_script = None;
    assert!(matches!(validate(&output), Err(PsbtValidationError::OutputFieldModified(1))));

    let mut input = signed.clone();
    input.inputs[0].unknown.insert(key, vec![3]);
    assert!(matches!(validate(&input), Err(PsbtValidationError::InputFieldModified(0))));
    let mut script = signed.clone();
    script.inputs[0].witness_script = None;
    assert!(matches!(validate(&script), Err(PsbtValidationError::InputFieldModified(0))));

    assert!(matches!(
        validate(&outside(&unsigned)),
        Err(PsbtValidationError::NoNewSignatures)
    ));
    assert!(validate(&signed).is_ok());
}

#[test]
fn maps_that_do_not_fit_the_original_are_rejected() {
    let fixture = Fixture::new();
    let unsigned = fixture.unsigned();
    let mut short = fixture.unsigned();
    short.outputs.pop();
    assert!(matches!(
        validate_signed_submission(&unsigned, &short, &fixture.fingerprint),
        Err(PsbtValidationError::InputOutputCountMismatch)
    ));
    let mut none = fixture.unsigned();
    none.inputs.pop();
    assert!(matches!(
        verify_merged_blob(&unsigned, &none),
        Err(PsbtValidationError::InputOutputCountMismatch)
    ));
}

#[test]
fn a_signature_needs_the_output_that_is_spent() {
    let fixture = Fixture::new();
    let unsigned = fixture.unsigned();
    let signed = fixture.sign(&unsigned);
    // without the output that is spent nobody can tell what is signed
    let mut bare = outside(&unsigned);
    bare.inputs[0].witness_utxo = None;
    let mut submitted = signed.clone();
    submitted.inputs[0].witness_utxo = None;
    match validate_signed_submission(&inside(&bare), &inside(&submitted), &fixture.fingerprint) {
        Err(PsbtValidationError::SighashComputation { index, .. }) => assert_eq!(index, 0),
        other => panic!("{other:?}"),
    }
    // nor if the previous transaction does not have that output
    let mut tx = signed.unsigned_tx.clone();
    tx.output.clear();
    bare.inputs[0].non_witness_utxo = Some(tx.clone());
    submitted.inputs[0].non_witness_utxo = Some(tx);
    match validate_signed_submission(&inside(&bare), &inside(&submitted), &fixture.fingerprint) {
        Err(PsbtValidationError::SighashComputation { index, reason }) => {
            assert_eq!(index, 0);
            assert_eq!(reason, "the outputs that are spent are not known");
        }
        other => panic!("{other:?}"),
    }
}

#[test]
fn documents_are_read_and_written_unchanged() {
    let fixture = Fixture::new();
    let unsigned = fixture.unsigned();
    let signed = fixture.sign(&unsigned);
    assert_eq!(outside(&unsigned).serialize(), unsigned.serialize());
    assert_eq!(inside(&signed).serialize(), signed.serialize());
    // the global map holds the transaction and nothing else
    assert_eq!(unsigned.global.pairs.len(), 1);
    assert_eq!(unsigned.global.pairs[0].key, vec![0]);
    assert_eq!(
        unsigned.global.pairs[0].value,
        bitcoin::consensus::serialize(&signed.unsigned_tx)
    );
    // the first field of an input is the output that it spends
    assert_eq!(unsigned.inputs[0].pairs[0].key, vec![1]);
    assert_eq!(
        unsigned.inputs[0].pairs[0].value,
        bitcoin::consensus::serialize(signed.inputs[0].witness_utxo.as_ref().unwrap())
    );
    assert_eq!(inside(&signed).inputs.len(), 1);
    assert_eq!(inside(&signed).outputs.len(), 2);
}

#[test]
fn bytes_that_are_no_document_are_refused() {
    assert!(matches!(parse_psbt(b"psbt"), Err(PsbtValidationError::Deserialize(_))));
    assert!(matches!(parse_psbt(&[]), Err(PsbtValidationError::Deserialize(_))));
    let large = vec![0u8; MAX_PSBT_BYTES + 1];
    match parse_psbt(&large) {
        Err(PsbtValidationError::TooLarge { size, max }) => {
            assert_eq!((size, max), (1_048_577, 1_048_576));
        }
        other => panic!("{other:?}"),
    }
    assert!(matches!(
        parse_psbt(&large[1..]),
        Err(PsbtValidationError::Deserialize(_))
    ));
}

#[test]
fn merged_signatures_stand_where_the_bitcoin_crate_puts_them() {
    let secp = Secp256k1::new();
    let signers: Vec<(Xpriv, DescriptorPublicKey)> = (1u8..6).map(keys).collect();
    let keystores: Vec<DescriptorPublicKey> = signers.iter().map(|(_, k)| k.clone()).collect();
    let descriptor = sortedmulti_wsh_descriptor(3, &keystores).unwrap();
    let funding = vec![
        funding_at(&descriptor, 9, 4, 30_000),
        funding_at(&descriptor, 3, 0, 30_000),
    ];
    let spec = SpendSpec {
        inputs: funding.iter().map(|f| f.outpoint).collect(),
        outputs: vec![SpendOutput {
            address: address_at(&descriptor, 5),
            amount_sats: 59_000,
        }],
        fee_sats: 1_000,
        change_output: None,
    };
    let unsigned = build_unsigned_psbt(&spec, &descriptor, &funding, NETWORK).unwrap();

    let mut merged = unsigned.copied();
    let mut expected = outside(&unsigned);
    for (xpriv, keystore) in signers.iter().rev() {
        let mut signed = outside(&unsigned);
        signed.sign(xpriv, &secp).map_err(|(_, errors)| errors).unwrap();
        let extracted = validate_signed_submission(
            &unsigned,
            &inside(&signed),
            &keystore_fingerprint(keystore),
        )
        .unwrap();
        assert_eq!(extracted.len(), 2);
        merged = merge_partial_sigs(&merged, &extracted);
        for (i, input) in signed.inputs.iter().enumerate() {
            for (pk, sig) in &input.partial_sigs {
                expected.inputs[i].partial_sigs.insert(*pk, *sig);
            }
        }
        assert_eq!(merged.serialize(), expected.serialize());
        // merging what is there already changes nothing
        assert_eq!(merge_partial_sigs(&merged, &extracted).serialize(), merged.serialize());
    }
    assert!(verify_merged_blob(&unsigned, &merged).is_ok());
}

#[test]
fn an_uncompressed_key_is_bound_like_its_compressed_form() {
    let fixture = Fixture::new();
    let unsigned = fixture.unsigned();
    let signed = fixture.sign(&unsigned);
    let (pk, sig) = signed.inputs[0].partial_sigs.iter().next().unwrap();
    let mut other = outside(&unsigned);
    let long = bitcoin::PublicKey::new_uncompressed(pk.inner);
    other.inputs[0].partial_sigs.insert(long, *sig);
    let extracted =
        validate_signed_submission(&unsigned, &inside(&other), &fixture.fingerprint).unwrap();
    assert_eq!(extracted.len(), 1);
    assert_eq!(extracted[0].pubkey.len(), 65);

    // both forms together: the uncompressed one comes first
    other.inputs[0].partial_sigs.insert(*pk, *sig);
    let both =
        validate_signed_submission(&unsigned, &inside(&other), &fixture.fingerprint).unwrap();
    assert_eq!(both.len(), 2);
    let mut merged = merge_partial_sigs(&unsigned, &both[1..]);
    merged = merge_partial_sigs(&merged, &both[..1]);
    assert_eq!(merged.serialize(), other.serialize());
}

#[test]
fn documents_are_brought_into_their_canonical_form() {
    let fixture = Fixture::new();
    let unsigned = fixture.unsigned();
    // a version field that says what goes without saying is left out
    let mut wordy = fixture.unsigned();
    wordy.global.pairs.push(Pair { key: vec![0xfb], value: vec![0; 4] });
    assert_ne!(wordy.serialize(), unsigned.serialize());
    assert_eq!(parse_psbt(&wordy.serialize()).unwrap().serialize(), unsigned.serialize());
}

#[test]
fn merging_gives_the_submission_back() {
    // both signatures of a 2-of-2 wallet, in either order of signing
    let (first, first_key) = keys(1);
    let (second, second_key) = keys(2);
    let descriptor =
        sortedmulti_wsh_descriptor(2, &vec![first_key.clone(), second_key.clone()]).unwrap();
    let funding = vec![funding_at(&descriptor, 7, 0, 100_000)];
    let spec = SpendSpec {
        inputs: vec![OutPointRef { txid: Txid([7u8; 32]), vout: 0 }],
        outputs: vec![SpendOutput {
            address: address_at(&descriptor, 5),
            amount_sats: 99_500,
        }],
        fee_sats: 500,
        change_output: None,
    };
    let secp = Secp256k1::new();
    let unsigned = build_unsigned_psbt(&spec, &descriptor, &funding, NETWORK).unwrap();
    for (one, one_key, other, other_key) in [
        (&first, &first_key, &second, &second_key),
        (&second, &second_key, &first, &first_key),
    ] {
        let mut half = outside(&unsigned);
        half.sign(one, &secp).map_err(|(_, e)| e).unwrap();
        let half = inside(&half);
        let signer = keystore_fingerprint(one_key);
        let sigs = validate_signed_submission(&unsigned, &half, &signer).unwrap();
        assert_eq!(sigs.len(), 1);
        assert_eq!(merge_partial_sigs(&unsigned, &sigs).serialize(), half.serialize());

        let mut full = outside(&half);
        full.sign(other, &secp).map_err(|(_, e)| e).unwrap();
        let full = inside(&full);
        let signer = keystore_fingerprint(other_key);
        let sigs = validate_signed_submission(&half, &full, &signer).unwrap();
        assert_eq!(merge_partial_sigs(&half, &sigs).serialize(), full.serialize());
    }
}

#[test]
fn the_reason_for_no_sighash_is_that_of_the_first_input() {
    // the first input tells no output, the second a transaction without the output that it spends
    let fixture = Fixture::new();
    let other = funding_at(&fixture.descriptor, 8, 0, 50_000);
    let mut spec = fixture.spec.clone();
    spec.inputs.push(other.outpoint);
    spec.change_output = Some(ChangeOutput { amount_sats: 99_500, derivation_index: 1 });
    let mut funding = fixture.funding;
    funding.push(other);
    let whole = build_unsigned_psbt(&spec, &fixture.descriptor, &funding, NETWORK).unwrap();
    let mut signed = outside(&whole);
    signed.sign(&fixture.xpriv, &fixture.secp).map_err(|(_, e)| e).unwrap();

    let previous = bitcoin::Transaction {
        version: bitcoin::transaction::Version::TWO,
        lock_time: bitcoin::absolute::LockTime::ZERO,
        input: vec![bitcoin::TxIn::default()],
        output: vec![],
    };
    let strip = |p: &mut bitcoin::Psbt| {
        p.inputs[0].witness_utxo = None;
        p.inputs[1].witness_utxo = None;
        p.inputs[1].non_witness_utxo = Some(previous.clone());
    };
    let mut original = outside(&whole);
    strip(&mut original);
    strip(&mut signed);
    let expected = original
        .sighash_msg(0, &mut SighashCache::new(&original.unsigned_tx), None)
        .unwrap_err()
        .to_string();
    match validate_signed_submission(&inside(&original), &inside(&signed), &fixture.fingerprint) {
        Err(PsbtValidationError::SighashComputation { index, reason }) => {
            assert_eq!((index, reason), (0, expected));
        }
        other => panic!("{other:?}"),
    }
}

#[test]
fn unsigned_documents_tell_what_devices_need() {
    let fixture = Fixture::new();
    let unsigned = fixture.unsigned();
    let fingerprint = fixture.fingerprint.to_bytes();
    let digest = |script: &[u8]| PsbtHash::digest_of(script).0.to_vec();
    let get = |pairs: &Vec<Pair>, kind: u8| -> Vec<Vec<u8>> {
        pairs.iter().filter(|p| p.key[0] == kind).map(|p| p.value.clone()).collect()
    };

    // the output that is spent, the witness script and the origin of the key; no signature
    let input = &unsigned.inputs[0].pairs;
    assert_eq!(input.iter().map(|p| p.key[0]).collect::<Vec<u8>>(), vec![1, 5, 6]);
    let spent = &fixture.funding[0].txout;
    assert_eq!(get(input, 1)[0][..8], spent.value.to_le_bytes());
    assert_eq!(get(input, 1)[0][9..], spent.script_pubkey);
    assert_eq!(digest(&get(input, 5)[0]), spent.script_pubkey[2..]);
    assert_eq!(get(input, 6)[0][..4], fingerprint);

    // of the change the witness script and the origin of the key; of the payment nothing
    assert!(unsigned.outputs[0].pairs.is_empty());
    let change = &unsigned.outputs[1].pairs;
    assert_eq!(change.iter().map(|p| p.key[0]).collect::<Vec<u8>>(), vec![1, 2]);
    assert_eq!(digest(&get(change, 1)[0]), script_at(&fixture.descriptor, 1).as_bytes()[2..]);
    assert_eq!(get(change, 2)[0][..4], fingerprint);
}
