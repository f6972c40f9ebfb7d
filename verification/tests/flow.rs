//! A spend from its proposal to its confirmation, through the units of work.

use std::str::FromStr;

use bitcoin::bip32::{DerivationPath, Xpriv, Xpub};
use bitcoin::secp256k1::Secp256k1;
use miniscript::descriptor::{DescriptorXKey, Wildcard};

use kota::address::Address;
use kota::coordination::{
    propose_spend, resolve_fingerprint_collision, submit_signed_psbt, unsigned_psbt,
    CoordinationError,
};
use kota::jobs::creation::{start_psbt_creation, try_run_psbt_creation};
use kota::jobs::finalization::start_finalization;
use kota::jobs::{
    apply_chain_observation, run_finalization, run_psbt_creation, ChainObservation, JobsError,
};
use kota::primitives::{
    BlockHash, Idempotent, Network, PsbtHash, PsbtSessionId, Txid, UserId, WalletId,
};
use kota::psbt::{parse_psbt, PsbtValidationError};
use kota::psbt_session::conflicts::conflicting_inputs;
use kota::psbt_session::{
    ChangeOutput, InvalidationReason, NewPsbtSession, OutPointRef, PsbtSession, PsbtSessionError,
    PsbtSessionStatus, SpendOutput, SpendSpec,
};
use kota::storage::{fetch_verified, BlobFetchError, BlobStore, InMemoryBlobStore};
use kota::wallet::document::{check_amounts, try_build_unsigned_psbt};
use kota::wallet::{
    build_unsigned_psbt, keystore_fingerprint, Descriptor, DescriptorPublicKey, FundingUtxo,
    NewWallet, TxOut, Wallet, WalletError,
};

const NETWORK: Network = Network::Regtest;

fn keys(seed: u8) -> (Xpriv, DescriptorPublicKey) {
    let secp = Secp256k1::new();
    let xpriv = Xpriv::new_master(bitcoin::Network::Regtest, &[seed; 64]).unwrap();
    let account_path = DerivationPath::from_str("m/48'/0'/0'/2'").unwrap();
    let account_xpriv = xpriv.derive_priv(&secp, &account_path).unwrap();
    let key = miniscript::DescriptorPublicKey::XPub(DescriptorXKey {
        origin: Some((xpriv.fingerprint(&secp), account_path)),
        xkey: Xpub::from_priv(&secp, &account_xpriv),
        derivation_path: DerivationPath::from_str("m/0").unwrap(),
        wildcard: Wildcard::Unhardened,
    });
    (xpriv, DescriptorPublicKey::from_str(&key.to_string()).unwrap())
}

fn script_at(descriptor: &Descriptor, index: u32) -> bitcoin::ScriptBuf {
    let d: miniscript::Descriptor<miniscript::DescriptorPublicKey> =
        descriptor.as_str().parse().unwrap();
    d.at_derivation_index(index).unwrap().script_pubkey()
}

/// A 2-of-3 wallet of the users 1, 2 and 3, a coin of it and a spend of that coin.
struct World {
    wallet: Wallet,
    funding: Vec<FundingUtxo>,
    spend: SpendSpec,
    blobs: InMemoryBlobStore,
}

fn world() -> World {
    let users = vec![UserId(1), UserId(2), UserId(3)];
    let mut wallet = Wallet::try_from_events(
        NewWallet::new(WalletId(4), NETWORK, 2, users).unwrap().into_events(),
    )
    .unwrap();
    for seed in 1u8..4 {
        wallet.add_keystore(keys(seed).1, UserId(seed as u128)).unwrap();
    }
    let descriptor = wallet.descriptor().unwrap().clone();
    let coin = OutPointRef { txid: Txid([7u8; 32]), vout: 3 };
    let funding = vec![FundingUtxo {
        outpoint: coin,
        txout: TxOut {
            value: 100_000,
            script_pubkey: script_at(&descriptor, 0).into_bytes(),
        },
        derivation_index: 0,
    }];
    let address = bitcoin::Address::from_script(
        &script_at(&descriptor, 5),
        bitcoin::Network::Regtest,
    )
    .unwrap()
    .to_string();
    let spend = SpendSpec {
        inputs: vec![coin],
        outputs: vec![SpendOutput {
            address: Address::from_str(&address).unwrap(),
            amount_sats: 50_000,
        }],
        fee_sats: 500,
        change_output: Some(ChangeOutput { amount_sats: 49_500, derivation_index: 1 }),
    };
    World { wallet, funding, spend, blobs: InMemoryBlobStore::default() }
}

impl World {
    fn propose(&self) -> PsbtSession {
        let new = NewPsbtSession::try_new(
            PsbtSessionId(6),
            &self.wallet,
            UserId(2),
            self.spend.clone(),
        )
        .unwrap();
        assert_eq!(new.status(), PsbtSessionStatus::Pending);
        assert_eq!(new.wallet_id(), WalletId(4));
        PsbtSession::try_from_events(new.into_events()).unwrap()
    }

    fn create(&mut self, session: &mut PsbtSession) -> Result<PsbtHash, JobsError> {
        run_psbt_creation(session, &self.wallet, &mut self.blobs, &self.funding, NETWORK)
    }

    /// The unsigned document of a session, signed with the keys of a user.
    fn sign(&self, session: &PsbtSession, seed: u8) -> Vec<u8> {
        let bytes = unsigned_psbt(session, &self.blobs).unwrap();
        let mut psbt = bitcoin::Psbt::deserialize(&bytes).unwrap();
        psbt.sign(&keys(seed).0, &Secp256k1::new()).map_err(|(_, e)| e).unwrap();
        psbt.serialize()
    }

    fn submit(
        &mut self,
        session: &mut PsbtSession,
        seed: u8,
    ) -> Result<Idempotent<()>, CoordinationError> {
        let signed = self.sign(session, seed);
        submit_signed_psbt(
            session,
            &self.wallet,
            &mut self.blobs,
            UserId(seed as u128),
            &signed,
        )
    }
}

#[test]
fn a_spend_is_created_signed_finalized_and_confirmed() {
    let mut world = world();
    let mut session = world.propose();

    // nothing to finalize before the document is there
    assert!(matches!(
        run_finalization(&mut session, &mut world.blobs),
        Err(JobsError::UnexpectedStatus {
            status: PsbtSessionStatus::Pending,
            expected: "collecting",
            ..
        })
    ));

    let hash = world.create(&mut session).unwrap();
    assert_eq!(session.status(), PsbtSessionStatus::Collecting);
    assert_eq!(session.unsigned_psbt_hash(), Some(hash));
    // again: the same address, and nothing changes
    assert_eq!(world.create(&mut session).unwrap(), hash);
    assert_eq!(session.events().len(), 2);

    // the third user signs first, then the first
    assert!(world.submit(&mut session, 3).unwrap().did_execute());
    let early = run_finalization(&mut session, &mut world.blobs);
    assert!(matches!(early, Err(JobsError::ThresholdNotMet(PsbtSessionId(6)))));
    assert!(early.unwrap_err().completes_finalization());
    assert!(world.submit(&mut session, 3).unwrap().was_already_applied());
    assert!(world.submit(&mut session, 1).unwrap().did_execute());
    assert!(world.submit(&mut session, 2).unwrap().did_execute());

    assert!(start_finalization(&session).unwrap().is_none());
    let txid = run_finalization(&mut session, &mut world.blobs).unwrap();
    assert_eq!(session.status(), PsbtSessionStatus::Finalized);
    assert_eq!(run_finalization(&mut session, &mut world.blobs).unwrap(), txid);

    // the shortest run of recorded signatures, in the order of the fingerprints
    let mut used = vec![
        keystore_fingerprint(&keys(3).1),
        keystore_fingerprint(&keys(1).1),
    ];
    used.sort();
    let finalization = session.finalization().unwrap();
    assert_eq!(finalization.txid, txid);
    assert_eq!(finalization.sigs_used, used);

    // the stored transaction is the recorded one, and pays what was proposed
    let bytes = fetch_verified(&world.blobs, &finalization.final_tx_hash).unwrap();
    let tx: bitcoin::Transaction = bitcoin::consensus::deserialize(&bytes).unwrap();
    assert_eq!(tx.compute_txid().to_string(), txid.to_string());
    assert_eq!(tx.output.len(), 2);
    assert_eq!(tx.output[0].value.to_sat(), 50_000);
    assert_eq!(tx.output[1].value.to_sat(), 49_500);
    assert_eq!(tx.input[0].previous_output.vout, 3);
    assert_eq!(tx.input[0].witness.len(), 4);

    // what is seen on the chain
    let seen = ChainObservation::Broadcast { txid };
    assert!(apply_chain_observation(&mut session, seen).unwrap().did_execute());
    assert_eq!(session.status(), PsbtSessionStatus::Broadcast);
    assert!(apply_chain_observation(&mut session, seen).unwrap().was_already_applied());
    let confirmed = ChainObservation::Confirmed {
        txid,
        height: 800_000,
        block_hash: BlockHash([1; 32]),
    };
    assert!(apply_chain_observation(&mut session, confirmed).unwrap().did_execute());
    assert_eq!(session.status(), PsbtSessionStatus::Confirmed);
    let taken_back = ChainObservation::Invalidated { reason: InvalidationReason::Reorged };
    assert!(apply_chain_observation(&mut session, taken_back).unwrap().did_execute());
    assert_eq!(session.status(), PsbtSessionStatus::Invalidated);
    assert!(apply_chain_observation(&mut session, confirmed).unwrap().did_execute());
    assert_eq!(session.status(), PsbtSessionStatus::Confirmed);
    assert!(matches!(
        apply_chain_observation(
            &mut session,
            ChainObservation::Broadcast { txid: Txid([9; 32]) }
        ),
        Err(PsbtSessionError::TxidMismatch)
    ));

    // the events are all there is
    let rebuilt = PsbtSession::try_from_events(session.events().clone()).unwrap();
    assert_eq!(rebuilt.status(), PsbtSessionStatus::Confirmed);
    assert_eq!(rebuilt.signature_count(), 3);
    assert_eq!(rebuilt.finalization().unwrap().txid, txid);
}

#[test]
fn jobs_for_an_ended_session_are_done() {
    let mut world = world();
    let mut session = world.propose();
    session.cancel("changed minds".to_string()).unwrap();
    let e = world.create(&mut session).unwrap_err();
    match &e {
        JobsError::UnexpectedStatus { id, status, expected } => {
            assert_eq!(*id, PsbtSessionId(6));
            assert_eq!(*status, PsbtSessionStatus::Cancelled);
            assert_eq!(*expected, "pending");
        }
        other => panic!("{other:?}"),
    }
    assert!(e.completes_creation());
    assert!(e.completes_finalization());
    assert!(!JobsError::CannotFinalize.completes_creation());
    assert!(!JobsError::CannotFinalize.completes_finalization());
    assert!(!JobsError::ThresholdNotMet(PsbtSessionId(6)).completes_creation());
    assert!(start_psbt_creation(&session).is_err());
}

#[test]
fn a_wallet_without_descriptor_builds_nothing() {
    let mut world = world();
    let mut session = world.propose();
    world.wallet = Wallet::try_from_events(
        NewWallet::new(WalletId(4), NETWORK, 1, vec![UserId(1)])
            .unwrap()
            .into_events(),
    )
    .unwrap();
    assert!(matches!(
        world.create(&mut session),
        Err(JobsError::WalletNotActive(WalletId(4)))
    ));
    assert_eq!(session.status(), PsbtSessionStatus::Pending);
}

#[test]
fn damaged_and_missing_blobs_stop_finalization() {
    let mut world = world();
    let mut session = world.propose();
    let unsigned = world.create(&mut session).unwrap();
    world.submit(&mut session, 1).unwrap();
    world.submit(&mut session, 2).unwrap();
    let second = session.signatures()[1].signed_psbt_hash;
    let bytes = world.blobs.get(&second).unwrap();

    assert!(world.blobs.delete(&second));
    match run_finalization(&mut session, &mut world.blobs) {
        Err(JobsError::BlobMissing(h)) => assert_eq!(h, second),
        other => panic!("{other:?}"),
    }
    world.blobs.put(&bytes);

    let original = world.blobs.get(&unsigned).unwrap();
    assert!(world.blobs.delete(&unsigned));
    match run_finalization(&mut session, &mut world.blobs) {
        Err(JobsError::BlobMissing(h)) => assert_eq!(h, unsigned),
        other => panic!("{other:?}"),
    }
    world.blobs.put(&original);
    assert_eq!(session.status(), PsbtSessionStatus::Collecting);
    assert!(run_finalization(&mut session, &mut world.blobs).is_ok());
}

#[test]
fn a_stored_document_is_verified_again_before_finalization() {
    let mut world = world();
    let mut session = world.propose();
    let unsigned = world.create(&mut session).unwrap();
    world.submit(&mut session, 1).unwrap();
    // a document that was never validated: its signature is another input's, flagged anew
    let first = session.signatures()[0].signed_psbt_hash;
    let mut merged = parse_psbt(&world.blobs.get(&first).unwrap()).unwrap();
    for pair in merged.inputs[0].pairs.iter_mut() {
        if pair.key[0] == 2 {
            let last = pair.value.len() - 1;
            pair.value[last] = 3;
        }
    }
    let bad = world.blobs.put(&merged.serialize());
    session.add_signature(keystore_fingerprint(&keys(2).1), bad).unwrap();
    assert!(matches!(
        run_finalization(&mut session, &mut world.blobs),
        Err(JobsError::Psbt(PsbtValidationError::NonSigHashAllSighash(0)))
    ));
    assert_eq!(session.status(), PsbtSessionStatus::Collecting);
    assert_eq!(session.unsigned_psbt_hash(), Some(unsigned));
}

#[test]
fn signatures_that_do_not_suffice_make_no_transaction() {
    let mut world = world();
    let mut session = world.propose();
    world.create(&mut session).unwrap();
    world.submit(&mut session, 1).unwrap();
    // the same signatures recorded for two signers
    let first = session.signatures()[0].signed_psbt_hash;
    session.add_signature(keystore_fingerprint(&keys(2).1), first).unwrap();
    assert!(session.threshold_met());
    assert!(matches!(
        run_finalization(&mut session, &mut world.blobs),
        Err(JobsError::CannotFinalize)
    ));
}

#[test]
fn only_bound_signers_can_submit() {
    let mut world = world();
    let mut session = world.propose();
    match submit_signed_psbt(&mut session, &world.wallet, &mut world.blobs, UserId(1), &[]) {
        Err(CoordinationError::UnsignedPsbtNotReady(id)) => assert_eq!(id, PsbtSessionId(6)),
        other => panic!("{other:?}"),
    }
    world.create(&mut session).unwrap();
    let signed = world.sign(&session, 1);
    match submit_signed_psbt(&mut session, &world.wallet, &mut world.blobs, UserId(9), &signed) {
        Err(CoordinationError::SignerNotBound { wallet_id, user_id }) => {
            assert_eq!((wallet_id, user_id), (WalletId(4), UserId(9)));
        }
        other => panic!("{other:?}"),
    }
    // user 2 hands in what user 1 signed
    assert!(matches!(
        submit_signed_psbt(&mut session, &world.wallet, &mut world.blobs, UserId(2), &signed),
        Err(CoordinationError::PsbtValidation(
            PsbtValidationError::SignatureNotBoundToSigner { .. }
        ))
    ));
    assert!(matches!(
        submit_signed_psbt(&mut session, &world.wallet, &mut world.blobs, UserId(1), &[1, 2]),
        Err(CoordinationError::PsbtValidation(PsbtValidationError::Deserialize(_)))
    ));
    assert_eq!(session.signature_count(), 0);
    assert!(world.submit(&mut session, 1).unwrap().did_execute());
    assert_eq!(
        session.signatures()[0].fingerprint,
        keystore_fingerprint(&keys(1).1)
    );

    // what is stored is the original with the signatures, not what was submitted
    let stored = session.signatures()[0].signed_psbt_hash;
    assert_eq!(world.blobs.get(&stored).unwrap(), signed);
    session.cancel("enough".to_string()).unwrap();
    assert!(matches!(
        world.submit(&mut session, 2),
        Err(CoordinationError::PsbtSession(PsbtSessionError::NotCollecting(_)))
    ));
}

#[test]
fn a_missing_document_cannot_be_handed_out() {
    let mut world = world();
    let mut session = world.propose();
    assert!(matches!(
        unsigned_psbt(&session, &world.blobs),
        Err(CoordinationError::UnsignedPsbtNotReady(_))
    ));
    let hash = world.create(&mut session).unwrap();
    assert_eq!(
        PsbtHash::digest_of(&unsigned_psbt(&session, &world.blobs).unwrap()),
        hash
    );
    world.blobs.delete(&hash);
    assert!(matches!(
        unsigned_psbt(&session, &world.blobs),
        Err(CoordinationError::BlobFetch(BlobFetchError::Missing(h))) if h == hash
    ));
}

#[test]
fn importing_a_wallet_twice_finds_the_first() {
    let first = world().wallet;
    let mut second = Wallet::try_from_events(
        NewWallet::new(WalletId(5), NETWORK, 2, vec![UserId(1), UserId(2), UserId(3)])
            .unwrap()
            .into_events(),
    )
    .unwrap();
    assert!(resolve_fingerprint_collision(&second, Some(world().wallet)).is_none());
    for seed in [3u8, 1, 2] {
        second.add_keystore(keys(seed).1, UserId(seed as u128)).unwrap();
    }
    assert_eq!(first.descriptor_fingerprint(), second.descriptor_fingerprint());
    let found = resolve_fingerprint_collision(&second, Some(first)).unwrap();
    assert_eq!(found.id(), WalletId(4));
    assert!(resolve_fingerprint_collision(&second, None).is_none());
    assert!(resolve_fingerprint_collision(&world().wallet, Some(world().wallet)).is_none());
}

#[test]
fn conflicting_proposals_are_found() {
    let world = world();
    let coin = world.spend.inputs[0];
    let other = OutPointRef { txid: Txid([8; 32]), vout: 0 };
    let live = world.propose();
    let mut dead = world.propose();
    dead.cancel("no".to_string()).unwrap();

    let wanted = vec![other, coin, coin];
    assert_eq!(conflicting_inputs(&vec![], &wanted), vec![]);
    assert_eq!(conflicting_inputs(&vec![dead], &wanted), vec![]);
    assert_eq!(conflicting_inputs(&vec![live, world.propose()], &wanted), vec![coin]);
    assert_eq!(conflicting_inputs(&vec![world.propose()], &vec![other]), vec![]);
    match propose_spend(
        &vec![world.propose()],
        PsbtSessionId(7),
        &world.wallet,
        UserId(1),
        world.spend.clone(),
    ) {
        Err(CoordinationError::ConflictingInputs(claimed)) => assert_eq!(claimed, vec![coin]),
        other => panic!("{other:?}"),
    }
    let mut dead = world.propose();
    dead.cancel("no".to_string()).unwrap();
    let free = propose_spend(
        &vec![dead],
        PsbtSessionId(7),
        &world.wallet,
        UserId(1),
        world.spend.clone(),
    );
    assert_eq!(free.unwrap().id(), PsbtSessionId(7));
    let mut empty = world.spend.clone();
    empty.inputs.clear();
    assert!(matches!(
        propose_spend(&vec![], PsbtSessionId(7), &world.wallet, UserId(1), empty),
        Err(CoordinationError::PsbtSession(PsbtSessionError::EmptyInputs))
    ));
    assert!(PsbtSessionStatus::Confirmed.claims_inputs());
    assert!(!PsbtSessionStatus::Invalidated.claims_inputs());
}

#[test]
fn spends_that_cannot_be_built_say_why() {
    let world = world();
    let descriptor = world.wallet.descriptor().unwrap();
    let build = |spend: &SpendSpec, funding: &[FundingUtxo]| {
        build_unsigned_psbt(spend, descriptor, funding, NETWORK)
    };

    assert!(matches!(
        build(&world.spend, &[]),
        Err(WalletError::MissingFunding(o)) if o == world.spend.inputs[0]
    ));

    let mut spend = world.spend.clone();
    spend.fee_sats = 501;
    match build(&spend, &world.funding) {
        Err(WalletError::AmountMismatch { inputs_sats, outputs_sats, fee_sats }) => {
            assert_eq!((inputs_sats, outputs_sats, fee_sats), (100_000, 99_500, 501));
        }
        other => panic!("{other:?}"),
    }

    let mut spend = world.spend.clone();
    spend.outputs[0].address =
        Address::from_str("bc1qw508d6qejxtdg4y5r3zarvary0c5xw7kv8f3t4").unwrap();
    assert!(matches!(build(&spend, &world.funding), Err(WalletError::InvalidAddress(_))));

    // a hardened index has no keys
    let mut spend = world.spend.clone();
    spend.change_output = Some(ChangeOutput {
        amount_sats: 49_500,
        derivation_index: 0x8000_0000,
    });
    assert!(matches!(build(&spend, &world.funding), Err(WalletError::NonDefiniteKey(_))));

    assert!(build(&world.spend, &world.funding).is_ok());
}

#[test]
fn amounts_that_cannot_be_counted_are_told() {
    let mut world = world();
    let descriptor = world.wallet.descriptor().unwrap().clone();
    let fits = |spend: &SpendSpec, funding: &[FundingUtxo]| {
        check_amounts(spend, &descriptor, funding, NETWORK)
    };
    assert!(fits(&world.spend, &world.funding));
    let mut spend = world.spend.clone();
    spend.fee_sats = u64::MAX;
    assert!(!fits(&spend, &world.funding));
    assert!(try_build_unsigned_psbt(&spend, &descriptor, &world.funding, NETWORK).is_none());
    // with the change the sum is the largest number, and one more is too much
    spend.fee_sats = u64::MAX - 99_500;
    assert!(fits(&spend, &world.funding));
    spend.fee_sats += 1;
    assert!(!fits(&spend, &world.funding));
    let mut spend = world.spend.clone();
    spend.inputs.push(spend.inputs[0]);
    assert!(fits(&spend, &world.funding));

    let mut funding = vec![FundingUtxo {
        outpoint: world.funding[0].outpoint,
        txout: world.funding[0].txout.clone(),
        derivation_index: 0,
    }];
    funding[0].txout.value = u64::MAX;
    assert!(!fits(&spend, &funding));

    // the job stops there too, and changes nothing
    let mut session = world.propose();
    funding[0].txout.value = 1;
    let made = try_run_psbt_creation(
        &mut session,
        &world.wallet,
        &mut world.blobs,
        &funding,
        NETWORK,
    );
    assert!(matches!(made, Some(Err(JobsError::Wallet(WalletError::AmountMismatch { .. })))));
    let new = NewPsbtSession::builder()
        .id(PsbtSessionId(8))
        .wallet_id(WalletId(4))
        .proposed_by(UserId(1))
        .inputs(vec![spend.inputs[0], spend.inputs[0]])
        .outputs(vec![])
        .fee_sats(1)
        .change_output(None)
        .threshold(2)
        .keystores(vec![])
        .build()
        .unwrap();
    let mut session = PsbtSession::try_from_events(new.into_events()).unwrap();
    funding[0].txout.value = u64::MAX;
    let made = try_run_psbt_creation(
        &mut session,
        &world.wallet,
        &mut world.blobs,
        &funding,
        NETWORK,
    );
    assert!(made.is_none());
    assert_eq!(session.events().len(), 1);
}

#[test]
fn a_fault_comes_before_a_sum_that_cannot_be_counted() {
    let world = world();
    let descriptor = world.wallet.descriptor().unwrap();
    let build = |spend: &SpendSpec, funding: &[FundingUtxo]| {
        try_build_unsigned_psbt(spend, descriptor, funding, NETWORK)
    };
    let mut huge = world.spend.clone();
    huge.fee_sats = u64::MAX;
    assert!(build(&huge, &world.funding).is_none());

    // no coin
    assert!(matches!(build(&huge, &[]), Some(Err(WalletError::MissingFunding(_)))));
    // an address of another network, before anything is added to the fee
    huge.outputs[0].address =
        Address::from_str("bc1qw508d6qejxtdg4y5r3zarvary0c5xw7kv8f3t4").unwrap();
    assert!(matches!(
        build(&huge, &world.funding),
        Some(Err(WalletError::InvalidAddress(_)))
    ));
    // a change index without keys, before the change is added
    let mut spend = world.spend.clone();
    spend.fee_sats = u64::MAX - 50_000;
    spend.change_output = Some(ChangeOutput {
        amount_sats: 49_500,
        derivation_index: 0x8000_0000,
    });
    assert!(matches!(
        build(&spend, &world.funding),
        Some(Err(WalletError::NonDefiniteKey(_)))
    ));
}

#[test]
fn a_document_that_spends_nothing_is_final() {
    // no input to sign, so that the first record suffices
    let tx = bitcoin::Transaction {
        version: bitcoin::transaction::Version::TWO,
        lock_time: bitcoin::absolute::LockTime::ZERO,
        input: vec![],
        output: vec![],
    };
    let expected = tx.compute_txid().to_string();
    let document = bitcoin::Psbt::from_unsigned_tx(tx).unwrap().serialize();
    let mut blobs = InMemoryBlobStore::default();
    let hash = blobs.put(&document);
    let signer = keystore_fingerprint(&keys(1).1);
    let new = NewPsbtSession::builder()
        .id(PsbtSessionId(9))
        .wallet_id(WalletId(4))
        .proposed_by(UserId(1))
        .inputs(vec![])
        .outputs(vec![])
        .fee_sats(0)
        .change_output(None)
        .threshold(1)
        .keystores(vec![signer])
        .build()
        .unwrap();
    let mut session = PsbtSession::try_from_events(new.into_events()).unwrap();
    session.record_psbt_created(hash).unwrap();
    session.add_signature(signer, hash).unwrap();
    let txid = run_finalization(&mut session, &mut blobs).unwrap();
    assert_eq!(txid.to_string(), expected);
}
