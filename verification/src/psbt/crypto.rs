//! What is left to the `bitcoin` and `miniscript` crates: reading a document, signature hashes
//! and signature checks.

use vstd::prelude::*;

use bitcoin::secp256k1::{Message, Secp256k1};
use bitcoin::sighash::SighashCache;
use miniscript::psbt::PsbtExt;

use crate::psbt::codec::{decode, encodable, encode, FieldMap, PairView, Psbt, PsbtView};
use crate::psbt::fields::{lookup, unsigned_tx};
use crate::psbt::order::ordered;

verus! {

/// A document as it was read: its bytes written anew, and how many inputs and outputs it has;
/// or why it cannot be read.
pub uninterp spec fn canonical_psbt(bytes: Seq<u8>) -> Result<(Seq<u8>, nat, nat), Seq<char>>;

/// `bitcoin::Psbt::deserialize`, its value written by `bitcoin::Psbt::serialize`: what the
/// bytes mean as a document is a function of the bytes alone. The fields are written in order:
/// in the global map the transaction first, and in an input map, where no key stands twice, what
/// tells the output that is spent, then the signatures in the order of their keys, then the rest.
#[verifier::external_body]
pub(crate) fn read_document(bytes: &[u8]) -> (r: Result<(Vec<u8>, usize, usize), String>)
    ensures
        match r {
            Ok((b, n, m)) => {
                &&& canonical_psbt(bytes@) == Ok::<(Seq<u8>, nat, nat), Seq<char>>(
                    (b@, n as nat, m as nat),
                )
                &&& match decode(b@, n as nat, m as nat) {
                    Some(p) => ordered(p),
                    None => true,
                }
            },
            Err(e) => canonical_psbt(bytes@) == Err::<(Seq<u8>, nat, nat), Seq<char>>(e@),
        },
{
    match bitcoin::Psbt::deserialize(bytes) {
        Ok(p) => Ok((p.serialize(), p.inputs.len(), p.outputs.len())),
        Err(e) => Err(e.to_string()),
    }
}

/// The shape of a transaction: for each input the index of the output that it spends, and the
/// number of outputs; `None` for bytes that are no transaction.
pub uninterp spec fn transaction_outline(tx: Seq<u8>) -> Option<(Seq<u32>, nat)>;

/// `bitcoin::consensus::deserialize` to a `Transaction`, of which the indices of the spent
/// outputs and the number of outputs are kept.
#[verifier::external_body]
fn outline(tx: &[u8]) -> (r: Option<(Vec<u32>, usize)>)
    ensures
        match r {
            Some((v, n)) => transaction_outline(tx@) == Some((v@, n as nat)),
            None => transaction_outline(tx@) is None,
        },
{
    let tx: bitcoin::Transaction = bitcoin::consensus::deserialize(tx).ok()?;
    Some((tx.input.iter().map(|i| i.previous_output.vout).collect(), tx.output.len()))
}

/// Whether an input map tells the output that is spent, or nothing of it: it holds that output
/// (key 1), or a previous transaction (key 0) with an output at that index, or neither.
pub open spec fn spent_output_known(m: Seq<PairView>, vout: u32) -> bool {
    lookup(m, seq![1u8]) is Some || match lookup(m, seq![0u8]) {
        None => true,
        Some(prev) => match transaction_outline(prev) {
            None => false,
            Some((_, n)) => vout < n,
        },
    }
}

/// Whether the transaction of a document has no inputs: their number, which follows the four
/// bytes of the version, is zero.
pub open spec fn spends_nothing(tx: Seq<u8>) -> bool {
    tx.len() > 4 && tx[4] == 0
}

/// Whether an input map tells the output that is spent, or the transaction that it belongs to.
pub open spec fn tells_coin(m: Seq<PairView>) -> bool {
    lookup(m, seq![1u8]) is Some || lookup(m, seq![0u8]) is Some
}

/// Whether one of the first `n` inputs tells nothing of the output that it spends.
pub open spec fn coin_missing(inputs: Seq<Seq<PairView>>, n: int) -> bool {
    exists|j: int| 0 <= j < n && !tells_coin(#[trigger] inputs[j])
}

/// Whether an input is final: its map holds a final script (key 7) or a final witness (key 8).
pub open spec fn is_final(m: Seq<PairView>) -> bool {
    lookup(m, seq![7u8]) is Some || lookup(m, seq![8u8]) is Some
}

/// Whether the output that an input spends is known, or nobody asks for it: the outputs are asked
/// for one after the other, up to the first input that tells nothing of it; and where inputs are
/// made final, one by one for each that is not.
pub open spec fn coin_readable(
    inputs: Seq<Seq<PairView>>,
    i: int,
    vout: u32,
    finalizing: bool,
) -> bool {
    spent_output_known(inputs[i], vout) || (coin_missing(inputs, i) && (finalizing ==> is_final(
        inputs[i],
    )))
}

/// Whether the maps of a document fit its transaction: one per input and output, with every
/// previous transaction that is looked into holding the output that is spent. A transaction
/// without inputs has no such outputs.
pub open spec fn spent_outputs_known(p: PsbtView, finalizing: bool) -> bool {
    &&& encodable(p)
    &&& match unsigned_tx(p.global) {
        None => false,
        Some(tx) => if spends_nothing(tx) {
            p.inputs.len() == 0
        } else {
            match transaction_outline(tx) {
                None => false,
                Some((vouts, n)) => {
                    &&& p.inputs.len() == vouts.len()
                    &&& p.outputs.len() == n
                    &&& forall|i: int|
                        0 <= i < p.inputs.len() ==> #[trigger] coin_readable(
                            p.inputs,
                            i,
                            vouts[i],
                            finalizing,
                        )
                },
            }
        },
    }
}

/// Whether a map can be written: each of its keys holds at least the field type.
fn map_has_types(m: &FieldMap) -> (r: bool)
    ensures
        r == crate::psbt::codec::map_encodable(m@),
{
    let mut i: usize = 0;
    while i < m.pairs.len()
        invariant
            i <= m.pairs@.len(),
            forall|j: int|
                0 <= j < i ==> 0 < (#[trigger] m@[j]).key.len() <= u64::MAX && m@[j].value.len()
                    <= u64::MAX,
        decreases m.pairs@.len() - i,
    {
        if m.pairs[i].key.len() == 0 {
            assert(m@[i as int].key.len() == 0);
            return false;
        }
        let value_len: usize = m.pairs[i].value.len();
        assert(m@[i as int].value.len() == value_len);
        i += 1;
    }
    true
}

/// Whether every map of a list can be written.
fn maps_have_types(ms: &Vec<FieldMap>) -> (r: bool)
    ensures
        r == (forall|i: int|
            0 <= i < ms@.len() ==> crate::psbt::codec::map_encodable((#[trigger] ms@[i])@)),
{
    let mut i: usize = 0;
    while i < ms.len()
        invariant
            i <= ms@.len(),
            forall|j: int|
                0 <= j < i ==> crate::psbt::codec::map_encodable((#[trigger] ms@[j])@),
        decreases ms@.len() - i,
    {
        if !map_has_types(&ms[i]) {
            return false;
        }
        i += 1;
    }
    true
}

/// Whether the maps of a document fit its transaction.
pub fn has_spent_outputs(p: &Psbt, finalizing: bool) -> (r: bool)
    ensures
        r == spent_outputs_known(p@, finalizing),
{
    if !map_has_types(&p.global) || !maps_have_types(&p.inputs) || !maps_have_types(&p.outputs) {
        proof {
            if encodable(p@) {
                assert forall|i: int|
                    0 <= i < p.inputs@.len() implies crate::psbt::codec::map_encodable(
                    (#[trigger] p.inputs@[i])@,
                ) by {
                    assert(p@.inputs[i] == p.inputs@[i]@);
                }
                assert forall|i: int|
                    0 <= i < p.outputs@.len() implies crate::psbt::codec::map_encodable(
                    (#[trigger] p.outputs@[i])@,
                ) by {
                    assert(p@.outputs[i] == p.outputs@[i]@);
                }
            }
        }
        return false;
    }
    assert(encodable(p@));
    let tx_key: [u8; 1] = [0];
    let output_key: [u8; 1] = [1];
    assert(tx_key@ =~= seq![0u8]);
    assert(output_key@ =~= seq![1u8]);
    let (vouts, n) = match p.global.get(tx_key.as_slice()) {
        None => {
            return false;
        },
        Some(tx) => {
            if tx.len() > 4 && tx[4] == 0 {
                return p.inputs.len() == 0;
            }
            match outline(tx.as_slice()) {
                None => {
                    return false;
                },
                Some(found) => found,
            }
        },
    };
    if p.inputs.len() != vouts.len() || p.outputs.len() != n {
        return false;
    }
    let script_key: [u8; 1] = [7];
    let witness_key: [u8; 1] = [8];
    assert(script_key@ =~= seq![7u8]);
    assert(witness_key@ =~= seq![8u8]);
    let mut missing: bool = false;
    let mut i: usize = 0;
    while i < p.inputs.len()
        invariant
            i <= p.inputs@.len(),
            tx_key@ == seq![0u8],
            output_key@ == seq![1u8],
            script_key@ == seq![7u8],
            witness_key@ == seq![8u8],
            p.inputs@.len() == vouts@.len(),
            unsigned_tx(p@.global) is Some,
            !spends_nothing(unsigned_tx(p@.global)->0),
            transaction_outline(unsigned_tx(p@.global)->0) == Some((vouts@, n as nat)),
            missing == coin_missing(p@.inputs, i as int),
            forall|j: int|
                0 <= j < i ==> #[trigger] coin_readable(p@.inputs, j, vouts@[j], finalizing),
        decreases p.inputs@.len() - i,
    {
        assert(p@.inputs[i as int] == p.inputs@[i as int]@);
        let ghost before = missing;
        if !p.inputs[i].has(output_key.as_slice()) {
            let known: bool = match p.inputs[i].get(tx_key.as_slice()) {
                None => {
                    missing = true;
                    true
                },
                Some(prev) => match outline(prev.as_slice()) {
                    None => false,
                    Some((_, m)) => (vouts[i] as u64) < m as u64,
                },
            };
            if !known {
                let skipped: bool = missing && (!finalizing || p.inputs[i].has(
                    script_key.as_slice(),
                ) || p.inputs[i].has(witness_key.as_slice()));
                if !skipped {
                    assert(!coin_readable(p@.inputs, i as int, vouts@[i as int], finalizing));
                    return false;
                }
            }
        }
        assert(coin_readable(p@.inputs, i as int, vouts@[i as int], finalizing));
        proof {
            if coin_missing(p@.inputs, i + 1) && tells_coin(p@.inputs[i as int]) {
                let j = choose|j: int| 0 <= j < i + 1 && !tells_coin(#[trigger] p@.inputs[j]);
                assert(j < i);
            }
        }
        i += 1;
    }
    true
}

/// The hash that the signatures of an input sign, or why there is none.
pub uninterp spec fn psbt_sighash(document: Seq<u8>, index: nat) -> Result<Seq<u8>, Seq<char>>;

/// `miniscript::psbt::PsbtExt::sighash_msg` with no taproot leaf, on the document with these
/// bytes. It reads the output at the index that an input spends out of the previous
/// transaction that the document carries, and needs it to be there; it does so input by input,
/// and fails at the first that tells nothing of its output.
#[verifier::external_body]
pub(crate) fn sighash_digest(document: &[u8], index: usize) -> (r: Result<[u8; 32], String>)
    requires
        exists|p: PsbtView| #[trigger] encode(p) == document@ && spent_outputs_known(p, false),
    ensures
        match r {
            Ok(d) => psbt_sighash(document@, index as nat) == Ok::<Seq<u8>, Seq<char>>(d@),
            Err(e) => psbt_sighash(document@, index as nat) == Err::<Seq<u8>, Seq<char>>(e@),
        },
{
    match bitcoin::Psbt::deserialize(document) {
        Err(e) => Err(e.to_string()),
        Ok(p) => match p.sighash_msg(index, &mut SighashCache::new(&p.unsigned_tx), None) {
            Err(e) => Err(e.to_string()),
            Ok(m) => Ok(*m.to_secp_msg().as_ref()),
        },
    }
}

/// Whether a signature in DER form over a digest verifies under a public key.
pub uninterp spec fn ecdsa_verifies(digest: Seq<u8>, signature: Seq<u8>, pubkey: Seq<u8>) -> bool;

/// `secp256k1::Secp256k1::verify_ecdsa`; bytes that are no signature or no public key verify
/// nothing.
#[verifier::external_body]
pub(crate) fn verify_ecdsa(digest: &[u8; 32], signature: &[u8], pubkey: &[u8]) -> (r: bool)
    ensures
        r == ecdsa_verifies(digest@, signature@, pubkey@),
{
    let message = Message::from_digest(*digest);
    let signature = bitcoin::secp256k1::ecdsa::Signature::from_der(signature);
    let pubkey = bitcoin::secp256k1::PublicKey::from_slice(pubkey);
    match (signature, pubkey) {
        (Ok(s), Ok(k)) => Secp256k1::verification_only().verify_ecdsa(&message, &s, &k).is_ok(),
        _ => false,
    }
}

} // verus!
