//! The life of a signing session.

use std::str::FromStr;

use bitcoin::bip32::{DerivationPath, Xpriv, Xpub};
use bitcoin::secp256k1::Secp256k1;
use miniscript::descriptor::{DescriptorXKey, Wildcard};

use kota::address::Address;
use kota::primitives::{
    BlockHash, Idempotent, KeyFingerprint, Network, PsbtHash, PsbtSessionId, Txid, UserId,
    WalletId,
};
use kota::psbt_session::{
    ChangeOutput, InvalidationReason, NewPsbtSession, OutPointRef, PsbtSession, PsbtSessionError,
    PsbtSessionStatus, SpendOutput, SpendSpec, MAX_FEE_SATS,
};
use kota::wallet::{keystore_fingerprint, DescriptorPublicKey, NewWallet, Wallet, WalletStatus};

fn keystore_at(seed: u8, account_path: &str) -> DescriptorPublicKey {
    let secp = Secp256k1::new();
    let xpriv = Xpriv::new_master(bitcoin::Network::Regtest, &[seed; 64]).unwrap();
    let account_path = DerivationPath::from_str(account_path).unwrap();
    let account_xpriv = xpriv.derive_priv(&secp, &account_path).unwrap();
    let key = miniscript::DescriptorPublicKey::XPub(DescriptorXKey {
        origin: Some((xpriv.fingerprint(&secp), account_path)),
        xkey: Xpub::from_priv(&secp, &account_xpriv),
        derivation_path: DerivationPath::from_str("m/0").unwrap(),
        wildcard: Wildcard::Unhardened,
    });
    DescriptorPublicKey::from_str(&key.to_string()).unwrap()
}

fn keystore(seed: u8) -> DescriptorPublicKey {
    keystore_at(seed, "m/48'/0'/0'/2'")
}

fn fp(byte: u8) -> KeyFingerprint {
    keystore_fingerprint(&keystore(byte))
}

fn wallet_with_keystores(threshold: u32, seeds: &[u8]) -> (Wallet, Vec<UserId>) {
    let participants: Vec<UserId> = seeds.iter().map(|s| UserId(*s as u128)).collect();
    let mut wallet = Wallet::try_from_events(
        NewWallet::new(
            WalletId(5),
            Network::Regtest,
            threshold,
            participants.clone(),
        )
        .unwrap()
        .into_events(),
    )
    .unwrap();
    for (seed, participant) in seeds.iter().zip(&participants) {
        let _ = wallet
            .add_keystore(keystore(*seed), *participant)
            .unwrap();
    }
    (wallet, participants)
}

fn active_wallet(threshold: u32, seeds: &[u8]) -> Wallet {
    wallet_with_keystores(threshold, seeds).0
}

fn dummy_txid(byte: u8) -> Txid {
    Txid([byte; 32])
}

fn dummy_block_hash(byte: u8) -> BlockHash {
    BlockHash([byte; 32])
}

fn sample_spend() -> SpendSpec {
    SpendSpec {
        inputs: vec![OutPointRef {
            txid: dummy_txid(100),
            vout: 0,
        }],
        outputs: vec![SpendOutput {
            // regtest HRP of the BIP-173 example witness program —
            // proposal validates output addresses against the wallet's
            // network, and the fixture wallet is on regtest
            address: Address::from_str("bcrt1qw508d6qejxtdg4y5r3zarvary0c5xw7kygt080").unwrap(),
            amount_sats: 50_000,
        }],
        fee_sats: 500,
        change_output: Some(ChangeOutput {
            amount_sats: 10_000,
            derivation_index: 1,
        }),
    }
}

fn unsigned_psbt_hash() -> PsbtHash {
    PsbtHash::digest_of(b"unsigned-psbt")
}

fn propose(wallet: &Wallet, spend: SpendSpec) -> Result<NewPsbtSession, PsbtSessionError> {
    NewPsbtSession::try_new(PsbtSessionId(8), wallet, UserId(77), spend)
}

/// A freshly proposed session: Pending, no PSBT yet.
fn create_session() -> PsbtSession {
    let wallet = active_wallet(2, &[1, 2, 3]);
    PsbtSession::try_from_events(propose(&wallet, sample_spend()).unwrap().into_events())
        .unwrap()
}

/// A session whose PSBT-creation job has run: Collecting.
fn create_collecting_session() -> PsbtSession {
    let mut session = create_session();
    let _ = session.record_psbt_created(unsigned_psbt_hash()).unwrap();
    session
}

fn add_sig(session: &mut PsbtSession, byte: u8) -> Result<Idempotent<()>, PsbtSessionError> {
    session.add_signature(
        fp(byte),
        PsbtHash::digest_of(format!("signed-psbt-{byte}").as_bytes()),
    )
}

fn finalize(session: &mut PsbtSession, sigs_used: Vec<KeyFingerprint>) {
    let _ = session
        .finalize(dummy_txid(1), PsbtHash::digest_of(b"final-tx"), sigs_used)
        .unwrap();
}

#[test]
fn new_session_is_pending() {
    let session = create_session();
    assert_eq!(session.status(), PsbtSessionStatus::Pending);
    assert_eq!(session.unsigned_psbt_hash(), None);
    assert_eq!(session.signature_count(), 0);
    assert!(!session.threshold_met());
    assert_eq!(session.missing_keystores(), vec![fp(1), fp(2), fp(3)]);
    assert_eq!(session.inputs, sample_spend().inputs);
    assert_eq!(session.outputs, sample_spend().outputs);
    assert_eq!(session.fee_sats, 500);
    assert_eq!(session.change_output, sample_spend().change_output);
}

#[test]
fn psbt_created_transitions_to_collecting() {
    let mut session = create_session();
    assert!(
        session
            .record_psbt_created(unsigned_psbt_hash())
            .unwrap()
            .did_execute()
    );
    assert_eq!(session.status(), PsbtSessionStatus::Collecting);
    assert_eq!(session.unsigned_psbt_hash(), Some(unsigned_psbt_hash()));
}

#[test]
fn psbt_created_is_idempotent() {
    let mut session = create_session();
    let _ = session.record_psbt_created(unsigned_psbt_hash()).unwrap();
    assert!(
        session
            .record_psbt_created(unsigned_psbt_hash())
            .unwrap()
            .was_already_applied()
    );
}

#[test]
fn no_signatures_before_psbt_created() {
    let mut session = create_session();
    assert!(matches!(
        add_sig(&mut session, 1),
        Err(PsbtSessionError::NotCollecting(_))
    ));
}

#[test]
fn cannot_attach_psbt_after_cancel() {
    let mut session = create_session();
    let _ = session.cancel("gave up".to_string()).unwrap();
    assert!(matches!(
        session.record_psbt_created(unsigned_psbt_hash()),
        Err(PsbtSessionError::CannotAttachPsbt { .. })
    ));
}

#[test]
fn collects_signatures_up_to_and_beyond_threshold() {
    let mut session = create_collecting_session();
    assert!(add_sig(&mut session, 1).unwrap().did_execute());
    assert!(!session.threshold_met());

    assert!(add_sig(&mut session, 2).unwrap().did_execute());
    assert!(session.threshold_met());
    assert_eq!(session.missing_keystores(), vec![fp(3)]);

    // over-signing before finalize is fine — finalize records sigs_used
    assert!(add_sig(&mut session, 3).unwrap().did_execute());
    assert_eq!(session.signature_count(), 3);
}

#[test]
fn signature_upload_is_idempotent_per_signer() {
    let mut session = create_collecting_session();
    assert!(add_sig(&mut session, 1).unwrap().did_execute());
    assert!(add_sig(&mut session, 1).unwrap().was_already_applied());
    assert_eq!(session.signature_count(), 1);
}

#[test]
fn rejects_unknown_keystore() {
    let mut session = create_collecting_session();
    let result = add_sig(&mut session, 42);
    assert!(matches!(result, Err(PsbtSessionError::UnknownKeystore(_))));
}

#[test]
fn finalize_requires_threshold_and_collected_sigs() {
    let mut session = create_collecting_session();
    let _ = add_sig(&mut session, 1).unwrap();

    // below threshold
    let result = session.finalize(dummy_txid(1), PsbtHash::digest_of(b"final-tx"), vec![fp(1)]);
    assert!(matches!(
        result,
        Err(PsbtSessionError::ThresholdNotMet { .. })
    ));

    // sigs_used must be collected
    let result = session.finalize(
        dummy_txid(1),
        PsbtHash::digest_of(b"final-tx"),
        vec![fp(1), fp(2)],
    );
    assert!(matches!(
        result,
        Err(PsbtSessionError::SigsUsedNotCollected)
    ));
}

#[test]
fn finalize_at_threshold_records_sigs_used() {
    let mut session = create_collecting_session();
    let _ = add_sig(&mut session, 1).unwrap();
    let _ = add_sig(&mut session, 2).unwrap();
    let _ = add_sig(&mut session, 3).unwrap();

    let result = session.finalize(
        dummy_txid(1),
        PsbtHash::digest_of(b"final-tx"),
        vec![fp(2), fp(3)],
    );
    assert!(result.unwrap().did_execute());
    assert_eq!(session.status(), PsbtSessionStatus::Finalized);
    assert_eq!(
        session.finalization().unwrap().sigs_used,
        vec![fp(2), fp(3)]
    );
}

#[test]
fn finalize_is_idempotent() {
    let mut session = create_collecting_session();
    let _ = add_sig(&mut session, 1).unwrap();
    let _ = add_sig(&mut session, 2).unwrap();
    finalize(&mut session, vec![fp(1), fp(2)]);

    let result = session.finalize(
        dummy_txid(1),
        PsbtHash::digest_of(b"final-tx"),
        vec![fp(1), fp(2)],
    );
    assert!(result.unwrap().was_already_applied());
}

#[test]
fn no_signatures_after_finalize_or_cancel() {
    let mut session = create_collecting_session();
    let _ = add_sig(&mut session, 1).unwrap();
    let _ = add_sig(&mut session, 2).unwrap();
    finalize(&mut session, vec![fp(1), fp(2)]);
    assert!(matches!(
        add_sig(&mut session, 3),
        Err(PsbtSessionError::NotCollecting(_))
    ));

    let mut session = create_collecting_session();
    let _ = session.cancel("changed mind".to_string()).unwrap();
    assert!(matches!(
        add_sig(&mut session, 1),
        Err(PsbtSessionError::NotCollecting(_))
    ));
}

#[test]
fn chain_progression_finalize_broadcast_confirm() {
    let mut session = create_collecting_session();
    let _ = add_sig(&mut session, 1).unwrap();
    let _ = add_sig(&mut session, 2).unwrap();
    let txid = dummy_txid(1);
    finalize(&mut session, vec![fp(1), fp(2)]);

    // txid mismatch is rejected — chain events must match the final tx
    assert!(matches!(
        session.mark_broadcast_seen(dummy_txid(9)),
        Err(PsbtSessionError::TxidMismatch)
    ));

    assert!(session.mark_broadcast_seen(txid).unwrap().did_execute());
    assert_eq!(session.status(), PsbtSessionStatus::Broadcast);
    assert!(
        session
            .mark_broadcast_seen(txid)
            .unwrap()
            .was_already_applied()
    );

    assert!(
        session
            .confirm(txid, 800_000, dummy_block_hash(1))
            .unwrap()
            .did_execute()
    );
    assert_eq!(session.status(), PsbtSessionStatus::Confirmed);
}

#[test]
fn broadcast_seen_after_confirm_is_redundant() {
    let mut session = create_collecting_session();
    let _ = add_sig(&mut session, 1).unwrap();
    let _ = add_sig(&mut session, 2).unwrap();
    let txid = dummy_txid(1);
    finalize(&mut session, vec![fp(1), fp(2)]);
    let _ = session.confirm(txid, 800_000, dummy_block_hash(1)).unwrap();

    // catch-up sync delivers the mempool sighting late
    assert!(
        session
            .mark_broadcast_seen(txid)
            .unwrap()
            .was_already_applied()
    );
    assert_eq!(session.status(), PsbtSessionStatus::Confirmed);
}

#[test]
fn reorg_invalidates_and_reconfirm_executes_again() {
    let mut session = create_collecting_session();
    let _ = add_sig(&mut session, 1).unwrap();
    let _ = add_sig(&mut session, 2).unwrap();
    let txid = dummy_txid(1);
    finalize(&mut session, vec![fp(1), fp(2)]);
    let _ = session.mark_broadcast_seen(txid).unwrap();
    let _ = session.confirm(txid, 800_000, dummy_block_hash(1)).unwrap();

    // reorg
    assert!(
        session
            .invalidate(InvalidationReason::Reorged)
            .unwrap()
            .did_execute()
    );
    assert_eq!(session.status(), PsbtSessionStatus::Invalidated);

    // idempotent replay of the same invalidation
    assert!(
        session
            .invalidate(InvalidationReason::Reorged)
            .unwrap()
            .was_already_applied()
    );

    // tx re-confirms in the new best chain — must execute, not be
    // swallowed by the earlier Confirmed event
    assert!(
        session
            .confirm(txid, 800_001, dummy_block_hash(2))
            .unwrap()
            .did_execute()
    );
    assert_eq!(session.status(), PsbtSessionStatus::Confirmed);
}

#[test]
fn cannot_invalidate_before_broadcast() {
    let mut session = create_collecting_session();
    assert!(matches!(
        session.invalidate(InvalidationReason::InputsSpentExternally),
        Err(PsbtSessionError::CannotInvalidate { .. })
    ));
}

#[test]
fn cancel_only_before_broadcast() {
    let mut session = create_session();
    // pending (stuck PSBT creation) can be cancelled
    assert!(
        session
            .cancel("no longer needed".to_string())
            .unwrap()
            .did_execute()
    );
    assert_eq!(session.status(), PsbtSessionStatus::Cancelled);
    assert!(
        session
            .cancel("again".to_string())
            .unwrap()
            .was_already_applied()
    );

    // finalized-but-not-broadcast can still be abandoned
    let mut session = create_collecting_session();
    let _ = add_sig(&mut session, 1).unwrap();
    let _ = add_sig(&mut session, 2).unwrap();
    finalize(&mut session, vec![fp(1), fp(2)]);
    assert!(session.cancel("abandon".to_string()).unwrap().did_execute());

    // once broadcast, the chain decides
    let mut session = create_collecting_session();
    let _ = add_sig(&mut session, 1).unwrap();
    let _ = add_sig(&mut session, 2).unwrap();
    finalize(&mut session, vec![fp(1), fp(2)]);
    let _ = session.mark_broadcast_seen(dummy_txid(1)).unwrap();
    assert!(matches!(
        session.cancel("too late".to_string()),
        Err(PsbtSessionError::CannotCancel { .. })
    ));
}

#[test]
fn proposal_requires_active_wallet() {
    // still collecting keystores: 3 participants, only 1 submitted
    let participants: Vec<UserId> = (1..4).map(UserId).collect();
    let mut wallet = Wallet::try_from_events(
        NewWallet::new(WalletId(5), Network::Regtest, 2, participants.clone())
            .unwrap()
            .into_events(),
    )
    .unwrap();
    let _ = wallet
        .add_keystore(keystore(1), participants[0])
        .unwrap();
    assert!(matches!(
        propose(&wallet, sample_spend()),
        Err(PsbtSessionError::WalletNotActive {
            status: WalletStatus::CollectingKeystores,
            ..
        })
    ));

    // cancelled before activation
    let _ = wallet
        .cancel(participants[0], "abandoned".to_string())
        .unwrap();
    assert!(matches!(
        propose(&wallet, sample_spend()),
        Err(PsbtSessionError::WalletNotActive {
            status: WalletStatus::Cancelled,
            ..
        })
    ));
}

#[test]
fn proposal_snapshots_wallet_policy() {
    let wallet = active_wallet(2, &[1, 2, 3]);
    let session =
        PsbtSession::try_from_events(propose(&wallet, sample_spend()).unwrap().into_events())
            .unwrap();
    assert_eq!(session.wallet_id, wallet.id);
    assert_eq!(session.threshold(), 2);
    assert_eq!(session.keystores(), &[fp(1), fp(2), fp(3)]);
}

#[test]
fn duplicate_inputs_rejected() {
    let wallet = active_wallet(2, &[1, 2]);
    let mut spend = sample_spend();
    let dup = spend.inputs[0];
    spend.inputs.push(dup);
    assert!(matches!(
        propose(&wallet, spend),
        Err(PsbtSessionError::DuplicateInput { txid, vout }) if txid == dup.txid && vout == dup.vout
    ));
}

#[test]
fn fee_above_cap_rejected() {
    let wallet = active_wallet(2, &[1, 2]);
    let mut spend = sample_spend();
    spend.fee_sats = MAX_FEE_SATS + 1;
    assert!(matches!(
        propose(&wallet, spend),
        Err(PsbtSessionError::FeeExceedsMax { .. })
    ));
}

#[test]
fn wrong_network_output_address_rejected_at_proposal() {
    // a mainnet destination on a regtest wallet: rejected at proposal,
    // not discovered by the PSBT-creation job after the session exists
    let wallet = active_wallet(2, &[1, 2]);
    let mut spend = sample_spend();
    spend.outputs[0].address = Address::from_str("bc1qw508d6qejxtdg4y5r3zarvary0c5xw7kv8f3t4").unwrap();
    assert!(matches!(
        propose(&wallet, spend),
        Err(PsbtSessionError::InvalidAddress { .. })
    ));
}

#[test]
fn dust_outputs_rejected() {
    let wallet = active_wallet(2, &[1, 2]);

    // zero- and sub-dust spend outputs
    for amount_sats in [0, 100] {
        let mut spend = sample_spend();
        spend.outputs[0].amount_sats = amount_sats;
        assert!(matches!(
            propose(&wallet, spend),
            Err(PsbtSessionError::DustOutput { .. })
        ));
    }

    // sub-dust change should have been folded into the fee
    let mut spend = sample_spend();
    spend.change_output = Some(ChangeOutput {
        amount_sats: 100,
        derivation_index: 1,
    });
    assert!(matches!(
        propose(&wallet, spend),
        Err(PsbtSessionError::DustOutput { .. })
    ));
}

#[test]
fn empty_spend_rejected() {
    let wallet = active_wallet(2, &[1, 2]);

    let mut spend = sample_spend();
    spend.inputs = vec![];
    assert!(matches!(
        propose(&wallet, spend),
        Err(PsbtSessionError::EmptyInputs)
    ));

    let mut spend = sample_spend();
    spend.outputs = vec![];
    assert!(matches!(
        propose(&wallet, spend),
        Err(PsbtSessionError::EmptyOutputs)
    ));
}
#[test]
fn dust_limits_depend_on_the_script() {
    let wallet = active_wallet(2, &[1, 2]);
    let network = bitcoin::Network::Regtest;
    let secp = Secp256k1::new();
    let key = bitcoin::PrivateKey::from_slice(&[7; 32], network).unwrap().public_key(&secp);
    let short = bitcoin::CompressedPublicKey::try_from(key).unwrap();
    let witness_script = bitcoin::ScriptBuf::new();
    let cases = [
        (bitcoin::Address::p2pkh(key, network), 546),
        (bitcoin::Address::p2sh(&witness_script, network).unwrap(), 540),
        (bitcoin::Address::p2wpkh(&short, network), 294),
        (bitcoin::Address::p2wsh(&witness_script, network), 330),
    ];
    for (address, limit) in cases {
        let mut spend = sample_spend();
        spend.outputs[0].address = Address::from_str(&address.to_string()).unwrap();
        spend.outputs[0].amount_sats = limit - 1;
        match propose(&wallet, spend.clone()) {
            Err(PsbtSessionError::DustOutput { amount_sats, dust_sats }) => {
                assert_eq!((amount_sats, dust_sats), (limit - 1, limit));
            }
            other => panic!("{other:?}"),
        }
        spend.outputs[0].amount_sats = limit;
        assert!(propose(&wallet, spend).is_ok());
    }

    let mut spend = sample_spend();
    spend.change_output = Some(ChangeOutput { amount_sats: 329, derivation_index: 1 });
    match propose(&wallet, spend) {
        Err(PsbtSessionError::DustOutput { amount_sats, dust_sats }) => {
            assert_eq!((amount_sats, dust_sats), (329, 330));
        }
        other => panic!("{other:?}"),
    }
}

#[test]
fn the_least_repeated_coin_is_named() {
    let wallet = active_wallet(2, &[1, 2]);
    let coin = |byte: u8, vout: u32| OutPointRef { txid: dummy_txid(byte), vout };
    let mut spend = sample_spend();
    spend.inputs = vec![coin(9, 0), coin(3, 7), coin(9, 0), coin(3, 2), coin(3, 7), coin(1, 0)];
    match propose(&wallet, spend) {
        Err(PsbtSessionError::DuplicateInput { txid, vout }) => {
            assert_eq!((txid, vout), (dummy_txid(3), 7));
        }
        other => panic!("{other:?}"),
    }
}

#[test]
fn the_cap_itself_is_no_excess() {
    let wallet = active_wallet(2, &[1, 2]);
    let mut spend = sample_spend();
    spend.fee_sats = MAX_FEE_SATS;
    assert!(propose(&wallet, spend.clone()).is_ok());
    spend.fee_sats += 1;
    match propose(&wallet, spend) {
        Err(PsbtSessionError::FeeExceedsMax { fee_sats, max_sats }) => {
            assert_eq!((fee_sats, max_sats), (1_000_001, 1_000_000));
        }
        other => panic!("{other:?}"),
    }
}

#[test]
fn finalize_refuses_repeated_signers() {
    let mut session = create_collecting_session();
    let _ = add_sig(&mut session, 1).unwrap();
    let _ = add_sig(&mut session, 2).unwrap();
    let hash = PsbtHash::digest_of(b"final-tx");
    assert!(matches!(
        session.finalize(dummy_txid(1), hash, vec![fp(1), fp(1)]),
        Err(PsbtSessionError::DuplicateSigsUsed)
    ));
    // whatever the order in which they are given, signers are recorded in their order
    let mut sorted = vec![fp(1), fp(2)];
    sorted.sort();
    let mut given = sorted.clone();
    given.reverse();
    let _ = session.finalize(dummy_txid(1), hash, given).unwrap();
    assert_eq!(session.finalization().unwrap().sigs_used, sorted);
}

#[test]
fn chain_events_need_a_final_transaction() {
    let mut session = create_collecting_session();
    assert!(matches!(
        session.mark_broadcast_seen(dummy_txid(1)),
        Err(PsbtSessionError::NotFinalized(PsbtSessionId(8)))
    ));
    assert!(matches!(
        session.confirm(dummy_txid(1), 1, dummy_block_hash(1)),
        Err(PsbtSessionError::NotFinalized(PsbtSessionId(8)))
    ));
    assert_eq!(session.events().len(), 2);
}

#[test]
fn events_without_a_proposal_are_no_session() {
    assert!(matches!(PsbtSession::try_from_events(vec![]), Err(e) if e.field == "id"));
    let session = create_collecting_session();
    assert!(PsbtSession::try_from_events(session.events()[1..].to_vec()).is_err());
    let rebuilt = PsbtSession::try_from_events(session.events().clone()).unwrap();
    assert_eq!(rebuilt.unsigned_psbt_hash(), Some(unsigned_psbt_hash()));
    assert_eq!(rebuilt.keystores(), session.keystores());
    assert_eq!(rebuilt.inputs, session.inputs);
}
