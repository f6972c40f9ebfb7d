//! The document that signers sign.

use vstd::prelude::*;

use bitcoin::absolute::LockTime;
use bitcoin::transaction::Version;
use bitcoin::{Amount, OutPoint, ScriptBuf, Sequence, Transaction, TxIn};
use miniscript::psbt::PsbtExt;

use crate::primitives::{sha256, Network};
use crate::psbt::codec::{
    compact_size, decode, encodable, encode, encode_chunk, law_decode_of_encode,
    law_encode_of_decode, le_bytes, lemma_encodable, map_views, push_chunk, push_le, FieldMap,
    Pair, PairView, Psbt, PsbtView,
};
use crate::psbt::fields::{is_sig, lookup, unsigned_tx, unsigned_tx_key};
use crate::psbt::order::{lemma_lookup_ordered, map_ordered, may_precede, ordered};
use crate::psbt_session::primitives::{OutPointRef, SpendSpec, SpendSpecView};
use crate::wallet::descriptor::{
    canonical_descriptor, descriptor_key_origins, Descriptor, DescriptorView,
};
use crate::wallet::error::{WalletError, WalletFault};
use crate::wallet::spend::{
    change_script, derive_inputs, descriptor_script, find_funding, funding_for, funding_views,
    input_scripts, law_transaction_balances, lemma_inputs_good, output_scripts,
    output_scripts_of, script_at, script_view, script_views, sums_fit, transaction_outcome,
    try_assemble_transaction, FundingUtxo, FundingView, TxInput, TxOut, TxOutView, UnsignedTx,
    UnsignedTxView,
};

verus! {

/// An output in the form in which a transaction or a document holds it: the amount in eight
/// bytes, the least significant first, and the script with its length.
pub open spec fn encode_txout(out: TxOutView) -> Seq<u8> {
    le_bytes(out.value as nat, 8) + encode_chunk(out.script_pubkey)
}

/// Outputs one after the other.
pub open spec fn encode_txouts(outs: Seq<TxOutView>) -> Seq<u8>
    decreases outs.len(),
{
    if outs.len() == 0 {
        Seq::empty()
    } else {
        encode_txouts(outs.drop_last()) + encode_txout(outs.last())
    }
}

/// An unsigned input: the coin that it spends, an empty script and the sequence number.
pub open spec fn encode_txin(i: TxInput) -> Seq<u8> {
    i.previous_output.txid@ + le_bytes(i.previous_output.vout as nat, 4) + seq![0u8] + le_bytes(
        i.sequence as nat,
        4,
    )
}

/// Inputs one after the other.
pub open spec fn encode_txins(ins: Seq<TxInput>) -> Seq<u8>
    decreases ins.len(),
{
    if ins.len() == 0 {
        Seq::empty()
    } else {
        encode_txins(ins.drop_last()) + encode_txin(ins.last())
    }
}

/// The bytes of an unsigned transaction.
pub open spec fn encode_tx(tx: UnsignedTxView) -> Seq<u8> {
    let version: int = if tx.version >= 0 {
        tx.version as int
    } else {
        tx.version + 0x1_0000_0000
    };
    le_bytes(version as nat, 4) + compact_size(tx.inputs.len()) + encode_txins(tx.inputs)
        + compact_size(tx.outputs.len()) + encode_txouts(tx.outputs) + le_bytes(
        tx.lock_time as nat,
        4,
    )
}

/// The global map of a document that holds a transaction and nothing else.
pub open spec fn tx_map(tx: UnsignedTxView) -> Seq<PairView> {
    seq![PairView { key: unsigned_tx_key(), value: encode_tx(tx) }]
}

/// The document that holds a transaction and nothing else: an empty map for each of its inputs
/// and outputs.
pub open spec fn bare_document(tx: UnsignedTxView) -> PsbtView {
    PsbtView {
        global: tx_map(tx),
        inputs: Seq::new(tx.inputs.len(), |i: int| Seq::<PairView>::empty()),
        outputs: Seq::new(tx.outputs.len(), |i: int| Seq::<PairView>::empty()),
    }
}

/// `bitcoin::Psbt::from_unsigned_tx`, its value written by `serialize`: the document that holds
/// the transaction and nothing else. It only fails on transactions that carry signatures.
#[verifier::external_body]
fn psbt_from_transaction(tx: &UnsignedTx) -> (r: Result<Vec<u8>, String>)
    ensures
        match r {
            Ok(b) => b@ == encode(bare_document(tx@)),
            Err(_) => false,
        },
{
    let tx = Transaction {
        version: Version(tx.version),
        lock_time: LockTime::from_consensus(tx.lock_time),
        input: tx.inputs.iter().map(|i| TxIn {
            previous_output: OutPoint::new(bitcoin::hashes::Hash::from_byte_array(i.previous_output.txid.0), i.previous_output.vout),
            sequence: Sequence(i.sequence),
            ..Default::default()
        }).collect(),
        output: tx.outputs.iter().map(|o| bitcoin::TxOut {
            value: Amount::from_sat(o.value),
            script_pubkey: ScriptBuf::from_bytes(o.script_pubkey.clone()),
        }).collect(),
    };
    bitcoin::Psbt::from_unsigned_tx(tx).map(|p| p.serialize()).map_err(|e| e.to_string())
}

/// An input map that tells the output that is spent (key 1) and nothing else.
pub open spec fn spent_output_map(out: TxOutView) -> Seq<PairView> {
    seq![PairView { key: seq![1u8], value: encode_txout(out) }]
}

/// Whether some bytes are those of a document that holds a transaction and no other global field.
pub open spec fn is_document_of(document: Seq<u8>, p: PsbtView, tx: UnsignedTxView) -> bool {
    &&& encode(p) == document
    &&& encodable(p)
    &&& p.global == tx_map(tx)
    &&& p.inputs.len() == tx.inputs.len()
    &&& p.outputs.len() == tx.outputs.len()
}

/// Whether a script pays to the digest of a witness script.
pub open spec fn is_p2wsh(script: Seq<u8>) -> bool {
    script.len() == 34 && script[0] == 0 && script[1] == 0x20
}

/// Whether a map tells, under a key, the witness script to whose digest a script pays.
pub open spec fn tells_witness_script(m: Seq<PairView>, key: Seq<u8>, script: Seq<u8>) -> bool {
    match lookup(m, key) {
        Some(witness_script) => script == seq![0u8, 0x20u8] + sha256(witness_script),
        None => false,
    }
}

/// Whether a field tells the origin of one of the keys of a descriptor: its value starts with the
/// fingerprint of the master key of one of them.
pub open spec fn tells_origin(p: PairView, descriptor: DescriptorView) -> bool {
    p.value.len() >= 4 && descriptor_key_origins(descriptor.text).contains(p.value.take(4))
}

/// How many fields of a type a map has.
pub open spec fn count_fields(m: Seq<PairView>, kind: u8) -> nat
    decreases m.len(),
{
    if m.len() == 0 {
        0
    } else {
        count_fields(m.drop_last(), kind) + if is_of_type(m.last(), kind) {
            1nat
        } else {
            0
        }
    }
}

/// Whether a field is of a type: the first byte of its key.
pub open spec fn is_of_type(p: PairView, kind: u8) -> bool {
    p.key.len() > 0 && p.key[0] == kind
}

/// Whether a field of a type tells an origin: its value starts with the fingerprint.
pub open spec fn origin_told(m: Seq<PairView>, kind: u8, origin: Seq<u8>) -> bool {
    exists|j: int|
        0 <= j < m.len() && is_of_type(#[trigger] m[j], kind) && m[j].value.len() >= 4
            && m[j].value.take(4) == origin
}

/// Whether a map tells the origins of the keys of a descriptor in its fields of a type, and of no
/// other keys. There is one such field for each public key that is derived, so that there are as
/// many of them as keys of the descriptor where the derived keys differ: then every key's origin
/// is told.
pub open spec fn tells_origins(m: Seq<PairView>, kind: u8, descriptor: DescriptorView) -> bool {
    let origins = descriptor_key_origins(descriptor.text);
    &&& forall|j: int|
        0 <= j < m.len() && is_of_type(#[trigger] m[j], kind) ==> tells_origin(m[j], descriptor)
    &&& origins.len() > 0 ==> count_fields(m, kind) > 0
    &&& count_fields(m, kind) <= origins.len()
    &&& count_fields(m, kind) == origins.len() ==> forall|k: int|
        0 <= k < origins.len() ==> origin_told(m, kind, #[trigger] origins[k])
}

/// Whether a field of an input map is one that is filled from a descriptor: a script that the
/// output which is spent pays to (types 4 and 5), the origin of a key (6), or what taproot has
/// instead of these.
pub open spec fn is_filled(p: PairView) -> bool {
    p.key.len() > 0 && (4 <= p.key[0] <= 6 || 0x15 <= p.key[0] <= 0x18)
}

/// What the map of an input tells that was filled from a descriptor: first the output that is
/// spent, then fields that are filled from the descriptor, none twice, and nothing else. Where
/// that output pays to the digest of a witness script, the script and the origins of the keys are
/// among them.
pub open spec fn input_told(m: Seq<PairView>, out: TxOutView, descriptor: DescriptorView) -> bool {
    &&& m.len() > 0
    &&& m[0] == spent_output_map(out)[0]
    &&& forall|j: int| 0 < j < m.len() ==> is_filled(#[trigger] m[j])
    &&& forall|i: int, j: int|
        0 <= i < j < m.len() ==> (#[trigger] m[i]).key != (#[trigger] m[j]).key
    &&& is_p2wsh(out.script_pubkey) ==> {
        &&& tells_witness_script(m, seq![5u8], out.script_pubkey)
        &&& tells_origins(m, 6, descriptor)
    }
}

/// What the map of an output tells that was filled from a descriptor: where it pays to the digest
/// of a witness script, that script and the origins of the keys.
pub open spec fn output_told(m: Seq<PairView>, script: Seq<u8>, descriptor: DescriptorView) -> bool {
    is_p2wsh(script) ==> {
        &&& tells_witness_script(m, seq![1u8], script)
        &&& tells_origins(m, 2, descriptor)
    }
}

/// The bytes of a document after the map of an input was filled from a descriptor at an index:
/// with the witness script and the origins of the keys; or why it does not fit.
pub uninterp spec fn updated_input(
    document: Seq<u8>,
    input: nat,
    descriptor: DescriptorView,
    index: u32,
) -> Result<Seq<u8>, Seq<char>>;

/// `miniscript::psbt::PsbtExt::update_input_with_descriptor` on the document with these bytes
/// and the descriptor read from its text, at a derivation index. It refuses an input that spends
/// an output whose script is not the descriptor's at that index. To a map that tells the output
/// that is spent and nothing else it adds the scripts and the origins of the keys; the values of
/// the origins are those of `bitcoin::bip32::KeySource`, which start with the fingerprint.
#[verifier::external_body]
fn update_input(document: &[u8], input: usize, source: &str, index: u32) -> (r: Result<
    Vec<u8>,
    String,
>)
    ensures
        match canonical_descriptor(source@) {
            Err(_) => true,
            Ok(descriptor) => match r {
                Err(e) => updated_input(document@, input as nat, descriptor, index) == Err::<
                    Seq<u8>,
                    Seq<char>,
                >(e@),
                Ok(b) => {
                    &&& updated_input(document@, input as nat, descriptor, index) == Ok::<
                        Seq<u8>,
                        Seq<char>,
                    >(b@)
                    &&& forall|p: PsbtView, tx: UnsignedTxView, out: TxOutView|
                        {
                            &&& #[trigger] is_document_of(document@, p, tx)
                            &&& input < p.inputs.len()
                            &&& p.inputs[input as int] == #[trigger] spent_output_map(out)
                        } ==> {
                            &&& descriptor_script(descriptor, index) == Ok::<Seq<u8>, Seq<char>>(
                                out.script_pubkey,
                            )
                            &&& match decode(b@, p.inputs.len(), p.outputs.len()) {
                                None => true,
                                Some(q) => input_told(q.inputs[input as int], out, descriptor),
                            }
                        }
                },
            },
        },
{
    let mut psbt = bitcoin::Psbt::deserialize(document).map_err(|e| e.to_string())?;
    let descriptor: miniscript::Descriptor<miniscript::DescriptorPublicKey> =
        source.parse().map_err(|e: miniscript::Error| e.to_string())?;
    let descriptor = descriptor.at_derivation_index(index).map_err(|e| e.to_string())?;
    match psbt.update_input_with_descriptor(input, &descriptor) {
        Ok(()) => Ok(psbt.serialize()),
        Err(e) => Err(e.to_string()),
    }
}

/// The bytes of a document after the map of an output was filled from a descriptor at an index;
/// or why it does not fit.
pub uninterp spec fn updated_output(
    document: Seq<u8>,
    output: nat,
    descriptor: DescriptorView,
    index: u32,
) -> Result<Seq<u8>, Seq<char>>;

/// `miniscript::psbt::PsbtExt::update_output_with_descriptor` on the document with these bytes
/// and the descriptor read from its text, at a derivation index. It refuses an output whose
/// script is not the descriptor's. To a map it adds the scripts and the origins of the keys.
#[verifier::external_body]
fn update_output(document: &[u8], output: usize, source: &str, index: u32) -> (r: Result<
    Vec<u8>,
    String,
>)
    ensures
        match canonical_descriptor(source@) {
            Err(_) => true,
            Ok(descriptor) => match r {
                Err(e) => updated_output(document@, output as nat, descriptor, index) == Err::<
                    Seq<u8>,
                    Seq<char>,
                >(e@),
                Ok(b) => {
                    &&& updated_output(document@, output as nat, descriptor, index) == Ok::<
                        Seq<u8>,
                        Seq<char>,
                    >(b@)
                    &&& forall|p: PsbtView, tx: UnsignedTxView|
                        {
                            &&& #[trigger] is_document_of(document@, p, tx)
                            &&& output < p.outputs.len()
                            &&& p.outputs[output as int].len() == 0
                        } ==> match decode(b@, p.inputs.len(), p.outputs.len()) {
                            None => true,
                            Some(q) => output_told(
                                q.outputs[output as int],
                                tx.outputs[output as int].script_pubkey,
                                descriptor,
                            ),
                        }
                },
            },
        },
{
    let mut psbt = bitcoin::Psbt::deserialize(document).map_err(|e| e.to_string())?;
    let descriptor: miniscript::Descriptor<miniscript::DescriptorPublicKey> =
        source.parse().map_err(|e: miniscript::Error| e.to_string())?;
    let descriptor = descriptor.at_derivation_index(index).map_err(|e| e.to_string())?;
    match psbt.update_output_with_descriptor(output, &descriptor) {
        Ok(()) => Ok(psbt.serialize()),
        Err(e) => Err(e.to_string()),
    }
}

/// The document of a transaction in which every input tells the output that it spends.
pub open spec fn spent_document(
    tx: UnsignedTxView,
    inputs: Seq<OutPointRef>,
    funding: Seq<FundingView>,
) -> PsbtView {
    PsbtView {
        inputs: Seq::new(
            tx.inputs.len(),
            |i: int| spent_output_map((find_funding(funding, inputs[i])->0).txout),
        ),
        ..bare_document(tx)
    }
}

/// The words for a document whose maps cannot be told apart.
pub open spec fn malformed() -> WalletFault {
    WalletFault::Psbt("the maps of the document are malformed"@)
}

/// The map of an input after it was filled from the descriptor, given the bytes of the document
/// with that map filled, or why it does not fit.
pub open spec fn filled_input(
    start: PsbtView,
    i: nat,
    updated: Result<Seq<u8>, Seq<char>>,
) -> Result<Seq<PairView>, WalletFault> {
    match updated {
        Err(e) => Err(WalletFault::UtxoUpdate(e)),
        Ok(b) => match decode(b, start.inputs.len(), start.outputs.len()) {
            None => Err(malformed()),
            Some(p) => Ok(p.inputs[i as int]),
        },
    }
}

/// The map of an output after it was filled from the descriptor.
pub open spec fn filled_output(
    start: PsbtView,
    i: nat,
    updated: Result<Seq<u8>, Seq<char>>,
) -> Result<Seq<PairView>, WalletFault> {
    match updated {
        Err(e) => Err(WalletFault::OutputUpdate(e)),
        Ok(b) => match decode(b, start.inputs.len(), start.outputs.len()) {
            None => Err(malformed()),
            Some(p) => Ok(p.outputs[i as int]),
        },
    }
}

/// The maps of the first `n` inputs after they were filled, or the first fault in that.
pub open spec fn filled_inputs(
    start: PsbtView,
    inputs: Seq<OutPointRef>,
    funding: Seq<FundingView>,
    descriptor: DescriptorView,
    n: nat,
) -> Result<Seq<Seq<PairView>>, WalletFault>
    decreases n,
{
    if n == 0 {
        Ok(Seq::empty())
    } else {
        let last = (n - 1) as nat;
        let index = (find_funding(funding, inputs[last as int])->0).derivation_index;
        match filled_inputs(start, inputs, funding, descriptor, last) {
            Err(e) => Err(e),
            Ok(maps) => match filled_input(
                start,
                last,
                updated_input(encode(start), last, descriptor, index),
            ) {
                Err(e) => Err(e),
                Ok(m) => Ok(maps.push(m)),
            },
        }
    }
}

/// The document of a transaction: every input tells the output that it spends and is filled from
/// the descriptor, and so is the change output, which is the last one.
pub open spec fn document_outcome(
    tx: UnsignedTxView,
    spend: SpendSpecView,
    funding: Seq<FundingView>,
    descriptor: DescriptorView,
) -> Result<PsbtView, WalletFault> {
    let start = spent_document(tx, spend.inputs, funding);
    let last = (tx.outputs.len() - 1) as nat;
    match filled_inputs(start, spend.inputs, funding, descriptor, spend.inputs.len()) {
        Err(e) => Err(e),
        Ok(inputs) => match spend.change_output {
            None => Ok(PsbtView { inputs, ..start }),
            Some(c) => match filled_output(
                start,
                last,
                updated_output(encode(start), last, descriptor, c.derivation_index),
            ) {
                Err(e) => Err(e),
                Ok(m) => Ok(
                    PsbtView { inputs, outputs: start.outputs.update(last as int, m), ..start },
                ),
            },
        },
    }
}

/// The transaction of a spend, or why there is none.
pub open spec fn spend_transaction(
    spend: SpendSpecView,
    descriptor: DescriptorView,
    funding: Seq<FundingView>,
    network: Network,
) -> Result<UnsignedTxView, WalletFault> {
    transaction_outcome(
        spend,
        funding,
        input_scripts(spend.inputs, funding, descriptor),
        output_scripts(spend.outputs, network),
        change_script(spend.change_output, descriptor),
    )
}

/// The unsigned document of a spend, or why there is none.
pub open spec fn unsigned_outcome(
    spend: SpendSpecView,
    descriptor: DescriptorView,
    funding: Seq<FundingView>,
    network: Network,
) -> Result<PsbtView, WalletFault> {
    match spend_transaction(spend, descriptor, funding, network) {
        Err(e) => Err(e),
        Ok(tx) => document_outcome(tx, spend, funding, descriptor),
    }
}

/// Whether the coin of each input has the script of the descriptor at its index.
pub open spec fn coins_fit(
    inputs: Seq<OutPointRef>,
    funding: Seq<FundingView>,
    descriptor: DescriptorView,
    n: nat,
) -> bool {
    forall|i: int|
        0 <= i < n ==> {
            let coin = find_funding(funding, #[trigger] inputs[i])->0;
            descriptor_script(descriptor, coin.derivation_index) == Ok::<Seq<u8>, Seq<char>>(
                coin.txout.script_pubkey,
            )
        }
}

/// Whether the map of each of the first `n` inputs tells what the descriptor says of it.
pub open spec fn inputs_told(
    maps: Seq<Seq<PairView>>,
    inputs: Seq<OutPointRef>,
    funding: Seq<FundingView>,
    descriptor: DescriptorView,
    n: nat,
) -> bool {
    forall|i: int|
        0 <= i < n ==> input_told(
            #[trigger] maps[i],
            (find_funding(funding, inputs[i])->0).txout,
            descriptor,
        )
}

/// What an unsigned document tells signers: its fields are in order, every input tells the output
/// that it spends and what the descriptor says of it, and so does the change output, which is the
/// last one.
pub open spec fn document_told(
    p: PsbtView,
    spend: SpendSpecView,
    funding: Seq<FundingView>,
    descriptor: DescriptorView,
) -> bool {
    &&& ordered(p)
    &&& p.inputs.len() == spend.inputs.len()
    &&& inputs_told(p.inputs, spend.inputs, funding, descriptor, spend.inputs.len())
    &&& match spend.change_output {
        None => true,
        Some(c) => match descriptor_script(descriptor, c.derivation_index) {
            Err(_) => true,
            Ok(script) => p.outputs.len() > 0 && output_told(
                p.outputs.last(),
                script,
                descriptor,
            ),
        },
    }
}

/// An input that was filled from a descriptor is not signed: its map is in order, holds no
/// signature, and holds the output that is spent under key 1.
pub proof fn law_told_input_is_unsigned(m: Seq<PairView>, out: TxOutView, descriptor: DescriptorView)
    requires
        input_told(m, out, descriptor),
    ensures
        map_ordered(m),
        forall|j: int| 0 <= j < m.len() ==> !is_sig(#[trigger] m[j]),
        lookup(m, seq![1u8]) == Some(encode_txout(out)),
{
    assert(m[0].key == seq![1u8]);
    assert forall|j: int| 0 <= j < m.len() implies !is_sig(#[trigger] m[j]) by {
        if j > 0 {
            assert(is_filled(m[j]));
        }
    }
    assert forall|i: int, j: int| 0 <= i < j < m.len() implies may_precede(
        #[trigger] m[i],
        #[trigger] m[j],
    ) by {
        assert(is_filled(m[j]));
        assert(!is_sig(m[i]) && !is_sig(m[j]));
    }
    lemma_lookup_ordered(m, 0);
}

/// A fault in filling the first inputs is the fault of all.
proof fn lemma_filled_inputs_fault(
    start: PsbtView,
    inputs: Seq<OutPointRef>,
    funding: Seq<FundingView>,
    descriptor: DescriptorView,
    n: nat,
    m: nat,
)
    requires
        n <= m,
        filled_inputs(start, inputs, funding, descriptor, n) is Err,
    ensures
        filled_inputs(start, inputs, funding, descriptor, m) == filled_inputs(
            start,
            inputs,
            funding,
            descriptor,
            n,
        ),
    decreases m,
{
    if n < m {
        lemma_filled_inputs_fault(start, inputs, funding, descriptor, n, (m - 1) as nat);
    }
}

/// The bytes of a bare document are read as that document.
proof fn lemma_bare_document_decodes(tx: UnsignedTxView, bytes: Seq<u8>)
    requires
        bytes == encode(bare_document(tx)),
        bytes.len() <= u64::MAX,
    ensures
        decode(bytes, tx.inputs.len(), tx.outputs.len()) == Some(bare_document(tx)),
{
    lemma_encodable(bare_document(tx));
    law_decode_of_encode(bare_document(tx));
}

/// Puts the output that is spent into the map of each input.
fn put_spent_outputs(p: Psbt, tx: &UnsignedTx, spend: &SpendSpec, funding: &[FundingUtxo]) -> (r:
    Psbt)
    requires
        p@ == bare_document(tx@),
        tx@.inputs.len() == spend@.inputs.len(),
        forall|i: int|
            0 <= i < spend@.inputs.len() ==> find_funding(
                funding_views(funding@),
                #[trigger] spend@.inputs[i],
            ) is Some,
    ensures
        r@ == spent_document(tx@, spend@.inputs, funding_views(funding@)),
{
    let ghost coins = funding_views(funding@);
    let ghost wanted = spent_document(tx@, spend@.inputs, coins);
    let mut inputs: Vec<FieldMap> = Vec::new();
    let mut i: usize = 0;
    while i < spend.inputs.len()
        invariant
            i <= spend.inputs@.len(),
            tx@.inputs.len() == spend@.inputs.len(),
            coins == funding_views(funding@),
            wanted == spent_document(tx@, spend@.inputs, coins),
            inputs@.len() == i,
            forall|j: int| 0 <= j < i ==> (#[trigger] inputs@[j])@ == wanted.inputs[j],
            forall|j: int|
                0 <= j < spend@.inputs.len() ==> find_funding(
                    coins,
                    #[trigger] spend@.inputs[j],
                ) is Some,
        decreases spend.inputs@.len() - i,
    {
        let mut map: FieldMap = FieldMap { pairs: Vec::new() };
        assert(find_funding(coins, spend@.inputs[i as int]) is Some);
        match funding_for(funding, &spend.inputs[i]) {
            Some(coin) => {
                let mut key: Vec<u8> = Vec::new();
                key.push(1);
                let mut value: Vec<u8> = Vec::new();
                push_le(&mut value, coin.txout.value, 8);
                push_chunk(&mut value, coin.txout.script_pubkey.as_slice());
                assert(key@ =~= seq![1u8]);
                assert(value@ =~= encode_txout(coin@.txout));
                map.pairs.push(Pair { key, value });
                assert(map@ =~= spent_output_map(coin@.txout));
            },
            None => {},
        }
        inputs.push(map);
        i += 1;
    }
    let r: Psbt = Psbt { global: p.global, inputs, outputs: p.outputs };
    assert(r@.inputs =~= wanted.inputs);
    r
}

/// The map of an input, out of the bytes of the document with that map filled.
pub fn take_filled_input(
    inputs: usize,
    outputs: usize,
    i: usize,
    updated: Result<Vec<u8>, String>,
) -> (r: Result<FieldMap, WalletError>)
    requires
        i < inputs,
    ensures
        forall|start: PsbtView|
            start.inputs.len() == inputs && start.outputs.len() == outputs ==> match r {
                Ok(m) => #[trigger] filled_input(start, i as nat, script_view(updated)) == Ok::<
                    Seq<PairView>,
                    WalletFault,
                >(m@),
                Err(e) => filled_input(start, i as nat, script_view(updated)) == Err::<
                    Seq<PairView>,
                    WalletFault,
                >(e@),
            },
{
    match updated {
        Err(e) => Err(WalletError::UtxoUpdate(e)),
        Ok(b) => match Psbt::from_frame(b.as_slice(), inputs, outputs) {
            None => {
                let words: &str = "the maps of the document are malformed";
                Err(WalletError::Psbt(words.to_string()))
            },
            Some(p) => {
                proof {
                    law_encode_of_decode(b@, inputs as nat, outputs as nat);
                    assert(p@.inputs.len() == p.inputs@.len());
                }
                Ok(p.inputs[i].copied())
            },
        },
    }
}

/// The map of an output, out of the bytes of the document with that map filled.
pub fn take_filled_output(
    inputs: usize,
    outputs: usize,
    i: usize,
    updated: Result<Vec<u8>, String>,
) -> (r: Result<FieldMap, WalletError>)
    requires
        i < outputs,
    ensures
        forall|start: PsbtView|
            start.inputs.len() == inputs && start.outputs.len() == outputs ==> match r {
                Ok(m) => #[trigger] filled_output(start, i as nat, script_view(updated)) == Ok::<
                    Seq<PairView>,
                    WalletFault,
                >(m@),
                Err(e) => filled_output(start, i as nat, script_view(updated)) == Err::<
                    Seq<PairView>,
                    WalletFault,
                >(e@),
            },
{
    match updated {
        Err(e) => Err(WalletError::OutputUpdate(e)),
        Ok(b) => match Psbt::from_frame(b.as_slice(), inputs, outputs) {
            None => {
                let words: &str = "the maps of the document are malformed";
                Err(WalletError::Psbt(words.to_string()))
            },
            Some(p) => {
                proof {
                    law_encode_of_decode(b@, inputs as nat, outputs as nat);
                    assert(p@.outputs.len() == p.outputs@.len());
                }
                Ok(p.outputs[i].copied())
            },
        },
    }
}

/// The document of a transaction with every input telling the output that it spends.
fn start_document(tx: &UnsignedTx, spend: &SpendSpec, funding: &[FundingUtxo]) -> (r: Result<
    Psbt,
    WalletError,
>)
    requires
        tx@.inputs.len() == spend@.inputs.len(),
        forall|i: int|
            0 <= i < spend@.inputs.len() ==> find_funding(
                funding_views(funding@),
                #[trigger] spend@.inputs[i],
            ) is Some,
    ensures
        match r {
            Ok(p) => p@ == spent_document(tx@, spend@.inputs, funding_views(funding@)),
            Err(_) => false,
        },
{
    match psbt_from_transaction(tx) {
        Err(e) => Err(WalletError::Psbt(e)),
        Ok(bytes) => {
            let size: usize = bytes.len();
            proof {
                assert(bytes@.len() == size);
                lemma_bare_document_decodes(tx@, bytes@);
            }
            match Psbt::from_frame(bytes.as_slice(), tx.inputs.len(), tx.outputs.len()) {
                None => {
                    let words: &str = "the maps of the document are malformed";
                    Err(WalletError::Psbt(words.to_string()))
                },
                Some(p) => Ok(put_spent_outputs(p, tx, spend, funding)),
            }
        },
    }
}

/// A document that was started is one of its transaction.
proof fn lemma_started(tx: UnsignedTxView, inputs: Seq<OutPointRef>, funding: Seq<FundingView>)
    requires
        encode(spent_document(tx, inputs, funding)).len() <= u64::MAX,
    ensures
        is_document_of(
            encode(spent_document(tx, inputs, funding)),
            spent_document(tx, inputs, funding),
            tx,
        ),
{
    lemma_encodable(spent_document(tx, inputs, funding));
}

/// A document whose inputs were filled from a descriptor is in order.
proof fn lemma_filled_document_ordered(
    p: PsbtView,
    tx: UnsignedTxView,
    inputs: Seq<OutPointRef>,
    funding: Seq<FundingView>,
    descriptor: DescriptorView,
)
    requires
        p.global == tx_map(tx),
        inputs_told(p.inputs, inputs, funding, descriptor, p.inputs.len()),
    ensures
        ordered(p),
{
    assert forall|i: int| 0 <= i < p.inputs.len() implies map_ordered(#[trigger] p.inputs[i]) by {
        law_told_input_is_unsigned(
            p.inputs[i],
            (find_funding(funding, inputs[i])->0).txout,
            descriptor,
        );
    }
}

/// Makes the document of a transaction.
fn build_document(
    tx: &UnsignedTx,
    spend: &SpendSpec,
    funding: &[FundingUtxo],
    descriptor: &Descriptor,
) -> (r: Result<Psbt, WalletError>)
    requires
        tx@.inputs.len() == spend@.inputs.len(),
        match spend.change_output {
            None => true,
            Some(c) => tx@.outputs.len() > 0 && descriptor_script(descriptor@, c.derivation_index)
                == Ok::<Seq<u8>, Seq<char>>(tx@.outputs.last().script_pubkey),
        },
        forall|i: int|
            0 <= i < spend@.inputs.len() ==> find_funding(
                funding_views(funding@),
                #[trigger] spend@.inputs[i],
            ) is Some,
    ensures
        match r {
            Ok(p) => {
                &&& document_outcome(tx@, spend@, funding_views(funding@), descriptor@) == Ok::<
                    PsbtView,
                    WalletFault,
                >(p@)
                &&& coins_fit(
                    spend@.inputs,
                    funding_views(funding@),
                    descriptor@,
                    spend@.inputs.len(),
                )
                &&& document_told(p@, spend@, funding_views(funding@), descriptor@)
            },
            Err(e) => document_outcome(tx@, spend@, funding_views(funding@), descriptor@) == Err::<
                PsbtView,
                WalletFault,
            >(e@),
        },
{
    let ghost coins = funding_views(funding@);
    let n: usize = tx.inputs.len();
    let m: usize = tx.outputs.len();
    let start: Psbt = match start_document(tx, spend, funding) {
        Ok(p) => p,
        Err(e) => {
            return Err(e);
        },
    };
    let document: Vec<u8> = start.serialize();
    let size: usize = document.len();
    proof {
        assert(document@.len() == size);
        lemma_started(tx@, spend@.inputs, coins);
    }
    let mut inputs: Vec<FieldMap> = Vec::new();
    let mut i: usize = 0;
    assert(map_views(inputs@) =~= Seq::<Seq<PairView>>::empty());
    while i < spend.inputs.len()
        invariant
            i <= spend.inputs@.len(),
            n == tx@.inputs.len(),
            m == tx@.outputs.len(),
            tx@.inputs.len() == spend@.inputs.len(),
            coins == funding_views(funding@),
            start@ == spent_document(tx@, spend@.inputs, coins),
            document@ == encode(start@),
            document@.len() == size,
            filled_inputs(start@, spend@.inputs, coins, descriptor@, i as nat) == Ok::<
                Seq<Seq<PairView>>,
                WalletFault,
            >(map_views(inputs@)),
            is_document_of(document@, start@, tx@),
            coins_fit(spend@.inputs, coins, descriptor@, i as nat),
            inputs@.len() == i,
            inputs_told(map_views(inputs@), spend@.inputs, coins, descriptor@, i as nat),
            forall|j: int|
                0 <= j < spend@.inputs.len() ==> find_funding(
                    coins,
                    #[trigger] spend@.inputs[j],
                ) is Some,
        decreases spend.inputs@.len() - i,
    {
        assert(find_funding(coins, spend@.inputs[i as int]) is Some);
        let index: u32 = match funding_for(funding, &spend.inputs[i]) {
            Some(coin) => coin.derivation_index,
            None => 0,
        };
        let updated: Result<Vec<u8>, String> = update_input(
            document.as_slice(),
            i,
            descriptor.source(),
            index,
        );
        assert(start@.inputs[i as int] == spent_output_map(
            (find_funding(coins, spend@.inputs[i as int])->0).txout,
        ));
        let ghost seen = script_view(updated);
        match take_filled_input(n, m, i, updated) {
            Ok(map) => {
                assert(filled_input(start@, i as nat, seen) is Ok);
                let ghost before = map_views(inputs@);
                let ghost new = map@;
                inputs.push(map);
                assert(map_views(inputs@) =~= before.push(new));
            },
            Err(e) => {
                proof {
                    assert(filled_input(start@, i as nat, seen) is Err);
                    lemma_filled_inputs_fault(
                        start@,
                        spend@.inputs,
                        coins,
                        descriptor@,
                        (i + 1) as nat,
                        spend@.inputs.len(),
                    );
                }
                return Err(e);
            },
        }
        i += 1;
    }
    let ghost first = start@;
    let Psbt { global, inputs: _, mut outputs } = start;
    match spend.change_output {
        None => {},
        Some(c) => {
            let updated: Result<Vec<u8>, String> = update_output(
                document.as_slice(),
                m - 1,
                descriptor.source(),
                c.derivation_index,
            );
            let ghost seen = script_view(updated);
            match take_filled_output(n, m, m - 1, updated) {
                Ok(map) => {
                    assert(filled_output(first, (m - 1) as nat, seen) is Ok);
                    let ghost new = map@;
                    assert(map_views(outputs@).len() == outputs@.len());
                    outputs.set(m - 1, map);
                    assert(map_views(outputs@) =~= first.outputs.update(m - 1, new));
                },
                Err(e) => {
                    assert(filled_output(first, (m - 1) as nat, seen) is Err);
                    return Err(e);
                },
            }
        },
    }
    let built: Psbt = Psbt { global, inputs, outputs };
    proof {
        lemma_filled_document_ordered(built@, tx@, spend@.inputs, coins, descriptor@);
    }
    Ok(built)
}

/// Whether every sum of amounts that the document of a spend takes can be counted in 64 bits.
pub open spec fn spend_sums_fit(
    spend: SpendSpecView,
    descriptor: DescriptorView,
    funding: Seq<FundingView>,
    network: Network,
) -> bool {
    sums_fit(
        spend,
        funding,
        input_scripts(spend.inputs, funding, descriptor),
        output_scripts(spend.outputs, network),
        change_script(spend.change_output, descriptor),
    )
}

/// The transaction of a spend; `None` where a sum of amounts cannot be counted.
fn try_transaction(
    spend: &SpendSpec,
    descriptor: &Descriptor,
    funding: &[FundingUtxo],
    network: Network,
) -> (r: Option<Result<UnsignedTx, WalletError>>)
    ensures
        ({
            let outcome = spend_transaction(spend@, descriptor@, funding_views(funding@), network);
            let fits = spend_sums_fit(spend@, descriptor@, funding_views(funding@), network);
            match r {
                None => !fits,
                Some(Ok(tx)) => fits && outcome == Ok::<UnsignedTxView, WalletFault>(tx@),
                Some(Err(e)) => fits && outcome == Err::<UnsignedTxView, WalletFault>(e@),
            }
        }),
{
    let derived: Vec<Result<Vec<u8>, String>> = derive_inputs(spend, funding, descriptor);
    let scripts: Vec<Result<Vec<u8>, String>> = output_scripts_of(spend, network);
    let change: Option<Result<Vec<u8>, String>> = match spend.change_output {
        Some(c) => Some(script_at(descriptor.source(), c.derivation_index)),
        None => None,
    };
    assert(script_views(derived@).len() == derived@.len());
    assert(script_views(scripts@).len() == scripts@.len());
    try_assemble_transaction(spend, funding, &derived, &scripts, &change)
}

/// Whether every sum of amounts that the document of a spend takes can be counted in 64 bits.
pub fn check_amounts(
    spend: &SpendSpec,
    descriptor: &Descriptor,
    funding: &[FundingUtxo],
    network: Network,
) -> (r: bool)
    ensures
        r == spend_sums_fit(spend@, descriptor@, funding_views(funding@), network),
{
    try_transaction(spend, descriptor, funding, network).is_some()
}

/// Builds the unsigned document of a spend.
///
/// Every input must have a coin whose script is the descriptor's at its index, and what comes in
/// must be what goes out with the fee. The document tells signing devices what they need: the
/// outputs that are spent, their scripts and the origins of the keys. The change goes to the
/// wallet's own descriptor at an index, never to an address that somebody gave; its keys are
/// told too, so that a device can verify it.
pub fn build_unsigned_psbt(
    spend: &SpendSpec,
    descriptor: &Descriptor,
    funding: &[FundingUtxo],
    network: Network,
) -> (r: Result<Psbt, WalletError>)
    requires
        spend_sums_fit(spend@, descriptor@, funding_views(funding@), network),
    ensures
        match r {
            Ok(p) => {
                &&& unsigned_outcome(spend@, descriptor@, funding_views(funding@), network) == Ok::<
                    PsbtView,
                    WalletFault,
                >(p@)
                &&& coins_fit(
                    spend@.inputs,
                    funding_views(funding@),
                    descriptor@,
                    spend@.inputs.len(),
                )
                &&& document_told(p@, spend@, funding_views(funding@), descriptor@)
            },
            Err(e) => unsigned_outcome(spend@, descriptor@, funding_views(funding@), network)
                == Err::<PsbtView, WalletFault>(e@),
        },
{
    match try_transaction(spend, descriptor, funding, network).unwrap() {
        Err(e) => Err(e),
        Ok(tx) => {
            proof {
                lemma_inputs_good(
                    spend@.inputs,
                    funding_views(funding@),
                    input_scripts(spend@.inputs, funding_views(funding@), descriptor@),
                    spend@.inputs.len(),
                );
            }
            build_document(&tx, spend, funding, descriptor)
        },
    }
}

/// Builds the unsigned document of a spend, as [`build_unsigned_psbt`] does. There is no answer
/// where a sum of amounts cannot be counted.
pub fn try_build_unsigned_psbt(
    spend: &SpendSpec,
    descriptor: &Descriptor,
    funding: &[FundingUtxo],
    network: Network,
) -> (r: Option<Result<Psbt, WalletError>>)
    ensures
        match r {
            None => !spend_sums_fit(spend@, descriptor@, funding_views(funding@), network),
            Some(built) => {
                &&& spend_sums_fit(spend@, descriptor@, funding_views(funding@), network)
                &&& match built {
                    Ok(p) => {
                        &&& unsigned_outcome(
                            spend@,
                            descriptor@,
                            funding_views(funding@),
                            network,
                        ) == Ok::<PsbtView, WalletFault>(p@)
                        &&& coins_fit(
                            spend@.inputs,
                            funding_views(funding@),
                            descriptor@,
                            spend@.inputs.len(),
                        )
                        &&& document_told(p@, spend@, funding_views(funding@), descriptor@)
                    },
                    Err(e) => unsigned_outcome(
                        spend@,
                        descriptor@,
                        funding_views(funding@),
                        network,
                    ) == Err::<PsbtView, WalletFault>(e@),
                }
            },
        },
{
    if !check_amounts(spend, descriptor, funding, network) {
        return None;
    }
    Some(build_unsigned_psbt(spend, descriptor, funding, network))
}

/// The maps that are filled are as many as the inputs.
proof fn lemma_filled_inputs_len(
    start: PsbtView,
    inputs: Seq<OutPointRef>,
    funding: Seq<FundingView>,
    descriptor: DescriptorView,
    n: nat,
)
    requires
        filled_inputs(start, inputs, funding, descriptor, n) is Ok,
    ensures
        (filled_inputs(start, inputs, funding, descriptor, n)->Ok_0).len() == n,
    decreases n,
{
    if n > 0 {
        lemma_filled_inputs_len(start, inputs, funding, descriptor, (n - 1) as nat);
    }
}

/// A document is that of its transaction: it holds the transaction of the spend, one map for
/// each input and output, and no other global field.
pub proof fn law_document_holds_transaction(
    spend: SpendSpecView,
    descriptor: DescriptorView,
    funding: Seq<FundingView>,
    network: Network,
)
    requires
        unsigned_outcome(spend, descriptor, funding, network) is Ok,
    ensures
        ({
            let p = unsigned_outcome(spend, descriptor, funding, network)->Ok_0;
            let tx = spend_transaction(spend, descriptor, funding, network);
            &&& tx is Ok
            &&& p.global == tx_map(tx->Ok_0)
            &&& unsigned_tx(p.global) == Some(encode_tx(tx->Ok_0))
            &&& p.inputs.len() == (tx->Ok_0).inputs.len()
            &&& p.outputs.len() == (tx->Ok_0).outputs.len()
        }),
{
    let tx = spend_transaction(spend, descriptor, funding, network)->Ok_0;
    let start = spent_document(tx, spend.inputs, funding);
    lemma_filled_inputs_len(start, spend.inputs, funding, descriptor, spend.inputs.len());
    law_transaction_balances(
        spend,
        funding,
        input_scripts(spend.inputs, funding, descriptor),
        output_scripts(spend.outputs, network),
        change_script(spend.change_output, descriptor),
    );
    assert(tx_map(tx).drop_last() =~= Seq::<PairView>::empty());
    reveal_with_fuel(lookup, 2);
}

/// Change stays in the wallet: where a spend has change, the last output of its transaction pays
/// that amount to the script of the wallet's own descriptor at the index of the change.
pub proof fn law_change_returns_to_wallet(
    spend: SpendSpecView,
    descriptor: DescriptorView,
    funding: Seq<FundingView>,
    network: Network,
)
    requires
        spend.change_output is Some,
        unsigned_outcome(spend, descriptor, funding, network) is Ok,
    ensures
        ({
            let change = spend.change_output->0;
            let tx = spend_transaction(spend, descriptor, funding, network);
            &&& tx is Ok
            &&& (tx->Ok_0).outputs.last().value == change.amount_sats
            &&& descriptor_script(descriptor, change.derivation_index) == Ok::<
                Seq<u8>,
                Seq<char>,
            >((tx->Ok_0).outputs.last().script_pubkey)
        }),
{
}

} // verus!
