//! What building the transaction and the document of a spend is for, in terms of the spend, the
//! coins and the wallet's descriptor.

use vstd::prelude::*;

use crate::address::address_script;
use crate::primitives::Network;
use crate::psbt::codec::{decode, encode, PairView, PsbtView};
use crate::psbt_session::primitives::{OutPointRef, SpendOutputView, SpendSpecView};
use crate::wallet::descriptor::DescriptorView;
use crate::wallet::document::{
    encode_tx, encode_txout, filled_inputs, spend_sums_fit, spend_transaction, spent_document,
    unsigned_outcome, updated_input, updated_output,
};
use crate::wallet::error::WalletFault;
use crate::wallet::spend::{
    addresses_fault, descriptor_script, find_funding, funded_total, funding_views,
    input_scripts, inputs_fault, output_scripts, outputs_total, FundingUtxo, FundingView,
    TxInput, UnsignedTx, UnsignedTxView,
};

verus! {

/// The coin for an input is the first of those given that is the output which the input names;
/// there is none where none is.
pub proof fn law_coin_of_an_input_is_the_one_it_names(
    funding: Seq<FundingView>,
    o: OutPointRef,
    i: int,
)
    ensures
        (forall|j: int| 0 <= j < funding.len() ==> (#[trigger] funding[j]).outpoint != o)
            ==> find_funding(funding, o) is None,
        0 <= i < funding.len() && funding[i].outpoint == o && (forall|j: int|
            0 <= j < i ==> (#[trigger] funding[j]).outpoint != o) ==> find_funding(funding, o)
            == Some(funding[i]),
    decreases funding.len(),
{
    if funding.len() > 0 {
        let rest = funding.drop_first();
        law_coin_of_an_input_is_the_one_it_names(rest, o, i - 1);
        assert forall|j: int| 0 <= j < rest.len() implies rest[j] == #[trigger] funding[j + 1] by {}
        if forall|j: int| 0 <= j < funding.len() ==> (#[trigger] funding[j]).outpoint != o {
            assert forall|j: int| 0 <= j < rest.len() implies (#[trigger] rest[j]).outpoint != o by {
                assert(funding[j + 1].outpoint != o);
            }
        }
        if 0 < i < funding.len() && funding[i].outpoint == o && (forall|j: int|
            0 <= j < i ==> (#[trigger] funding[j]).outpoint != o) {
            assert(funding[0].outpoint != o);
            assert forall|j: int| 0 <= j < i - 1 implies (#[trigger] rest[j]).outpoint != o by {
                assert(funding[j + 1].outpoint != o);
            }
            assert(rest[i - 1] == funding[i]);
        }
    }
}

/// The sum of amounts.
pub open spec fn sum(amounts: Seq<nat>) -> nat
    decreases amounts.len(),
{
    if amounts.len() == 0 {
        0
    } else {
        sum(amounts.drop_last()) + amounts.last()
    }
}

/// What the coins of the inputs hold; an input without a coin holds nothing.
pub open spec fn coin_amounts(inputs: Seq<OutPointRef>, funding: Seq<FundingView>) -> Seq<nat> {
    Seq::new(
        inputs.len(),
        |i: int|
            match find_funding(funding, inputs[i]) {
                Some(f) => f.txout.value as nat,
                None => 0,
            },
    )
}

/// What the payments pay.
pub open spec fn payment_amounts(outputs: Seq<SpendOutputView>) -> Seq<nat> {
    Seq::new(outputs.len(), |i: int| outputs[i].amount_sats as nat)
}

/// What a spend pays to others and back to the wallet.
pub open spec fn amount_out(spend: SpendSpecView) -> nat {
    sum(payment_amounts(spend.outputs)) + match spend.change_output {
        Some(c) => c.amount_sats as nat,
        None => 0,
    }
}

proof fn lemma_funded(inputs: Seq<OutPointRef>, funding: Seq<FundingView>, n: nat)
    requires
        n <= inputs.len(),
    ensures
        funded_total(inputs, funding, n) == sum(coin_amounts(inputs, funding).take(n as int)),
    decreases n,
{
    let all = coin_amounts(inputs, funding);
    if n > 0 {
        lemma_funded(inputs, funding, (n - 1) as nat);
        assert(all.take(n as int).drop_last() =~= all.take(n - 1));
    }
}

proof fn lemma_paid(outputs: Seq<SpendOutputView>, n: nat)
    requires
        n <= outputs.len(),
    ensures
        outputs_total(outputs, n) == sum(payment_amounts(outputs).take(n as int)),
    decreases n,
{
    let all = payment_amounts(outputs);
    if n > 0 {
        lemma_paid(outputs, (n - 1) as nat);
        assert(all.take(n as int).drop_last() =~= all.take(n - 1));
    }
}

proof fn lemma_sum_grows(amounts: Seq<nat>, n: int)
    requires
        0 <= n <= amounts.len(),
    ensures
        sum(amounts.take(n)) <= sum(amounts),
    decreases amounts.len(),
{
    if n < amounts.len() {
        lemma_sum_grows(amounts.drop_last(), n);
        assert(amounts.drop_last().take(n) =~= amounts.take(n));
    } else {
        assert(amounts.take(n) =~= amounts);
    }
}

/// What keeps an input from being spent, if anything: there is no coin for it, or the descriptor
/// has no keys where the coin lives.
pub open spec fn input_obstacle(
    o: OutPointRef,
    funding: Seq<FundingView>,
    descriptor: DescriptorView,
) -> Option<WalletFault> {
    match find_funding(funding, o) {
        None => Some(WalletFault::MissingFunding(o)),
        Some(f) => match descriptor_script(descriptor, f.derivation_index) {
            Err(e) => Some(WalletFault::NonDefiniteKey(e)),
            Ok(_) => None,
        },
    }
}

/// What keeps a payment from being made, if anything: its address is none of the network.
pub open spec fn payment_obstacle(o: SpendOutputView, network: Network) -> Option<WalletFault> {
    match address_script(o.address, network) {
        Err(e) => Some(WalletFault::InvalidAddress(e)),
        Ok(_) => None,
    }
}

proof fn lemma_first_obstacle_of_inputs(
    inputs: Seq<OutPointRef>,
    funding: Seq<FundingView>,
    descriptor: DescriptorView,
    n: nat,
    k: int,
)
    requires
        n <= inputs.len(),
    ensures
        ({
            let fault = inputs_fault(
                inputs,
                funding,
                input_scripts(inputs, funding, descriptor),
                n,
            );
            &&& fault is None <==> forall|j: int|
                0 <= j < n ==> input_obstacle(#[trigger] inputs[j], funding, descriptor) is None
            &&& 0 <= k < n && input_obstacle(inputs[k], funding, descriptor) is Some && (forall|
                j: int,
            |
                0 <= j < k ==> input_obstacle(#[trigger] inputs[j], funding, descriptor) is None)
                ==> fault == input_obstacle(inputs[k], funding, descriptor)
        }),
    decreases n,
{
    if n > 0 {
        lemma_first_obstacle_of_inputs(inputs, funding, descriptor, (n - 1) as nat, k);
        let o = inputs[n - 1];
        assert(input_scripts(inputs, funding, descriptor)[n - 1] == match find_funding(funding, o) {
            Some(f) => descriptor_script(descriptor, f.derivation_index),
            None => Ok(Seq::empty()),
        });
    }
}

proof fn lemma_first_obstacle_of_payments(
    outputs: Seq<SpendOutputView>,
    network: Network,
    n: nat,
    k: int,
)
    requires
        n <= outputs.len(),
    ensures
        ({
            let fault = addresses_fault(output_scripts(outputs, network), n);
            &&& fault is None <==> forall|j: int|
                0 <= j < n ==> payment_obstacle(#[trigger] outputs[j], network) is None
            &&& 0 <= k < n && payment_obstacle(outputs[k], network) is Some && (forall|j: int|
                0 <= j < k ==> payment_obstacle(#[trigger] outputs[j], network) is None) ==> fault
                == payment_obstacle(outputs[k], network)
        }),
    decreases n,
{
    if n > 0 {
        lemma_first_obstacle_of_payments(outputs, network, (n - 1) as nat, k);
        assert(output_scripts(outputs, network)[n - 1] == address_script(
            outputs[n - 1].address,
            network,
        ));
    }
}

/// A transaction does what its spend says: it spends the coins that are named, in their order,
/// replaceably; its first outputs are the payments, in their order, each of its own amount to the
/// script of its own address on the network; where there is change, one more output pays it to the
/// wallet's own script at the index of the change, and else there is no other. It is of version 2
/// and without a lock time, and what its coins hold is what it pays and the fee.
pub proof fn law_transaction_does_what_the_spend_says(
    spend: SpendSpecView,
    descriptor: DescriptorView,
    funding: Seq<FundingView>,
    network: Network,
)
    requires
        spend_transaction(spend, descriptor, funding, network) is Ok,
    ensures
        ({
            let tx = spend_transaction(spend, descriptor, funding, network)->Ok_0;
            let n = spend.outputs.len();
            &&& tx.version == 2
            &&& tx.lock_time == 0
            &&& tx.inputs.len() == spend.inputs.len()
            &&& forall|i: int|
                0 <= i < spend.inputs.len() ==> #[trigger] tx.inputs[i] == (TxInput {
                    previous_output: spend.inputs[i],
                    sequence: 0xffff_fffd,
                })
            &&& forall|i: int|
                0 <= i < n ==> (#[trigger] tx.outputs[i]).value == spend.outputs[i].amount_sats
                    && address_script(spend.outputs[i].address, network) == Ok::<
                    Seq<u8>,
                    Seq<char>,
                >(tx.outputs[i].script_pubkey)
            &&& match spend.change_output {
                None => tx.outputs.len() == n,
                Some(c) => {
                    &&& tx.outputs.len() == n + 1
                    &&& tx.outputs[n as int].value == c.amount_sats
                    &&& descriptor_script(descriptor, c.derivation_index) == Ok::<
                        Seq<u8>,
                        Seq<char>,
                    >(tx.outputs[n as int].script_pubkey)
                },
            }
            &&& sum(coin_amounts(spend.inputs, funding)) == spend.fee_sats + sum(
                Seq::new(tx.outputs.len(), |i: int| tx.outputs[i].value as nat),
            )
            &&& forall|i: int|
                0 <= i < spend.inputs.len() ==> find_funding(
                    funding,
                    #[trigger] spend.inputs[i],
                ) is Some
        }),
{
    let tx = spend_transaction(spend, descriptor, funding, network)->Ok_0;
    let n = spend.outputs.len();
    lemma_first_obstacle_of_inputs(spend.inputs, funding, descriptor, spend.inputs.len(), 0);
    lemma_first_obstacle_of_payments(spend.outputs, network, n, 0);
    lemma_funded(spend.inputs, funding, spend.inputs.len());
    lemma_paid(spend.outputs, n);
    let coins = coin_amounts(spend.inputs, funding);
    let paid = payment_amounts(spend.outputs);
    assert(coins.take(spend.inputs.len() as int) =~= coins);
    assert(paid.take(n as int) =~= paid);
    assert forall|i: int| 0 <= i < n implies (#[trigger] tx.outputs[i]).value
        == spend.outputs[i].amount_sats && address_script(spend.outputs[i].address, network) == Ok::<
        Seq<u8>,
        Seq<char>,
    >(tx.outputs[i].script_pubkey) by {
        assert(payment_obstacle(spend.outputs[i], network) is None);
        assert(output_scripts(spend.outputs, network)[i] == address_script(
            spend.outputs[i].address,
            network,
        ));
    }
    let values = Seq::new(tx.outputs.len(), |i: int| tx.outputs[i].value as nat);
    match spend.change_output {
        None => {
            assert(values =~= paid);
        },
        Some(c) => {
            assert(values.drop_last() =~= paid);
            assert(values.last() == c.amount_sats);
        },
    }
    assert forall|i: int| 0 <= i < spend.inputs.len() implies find_funding(
        funding,
        #[trigger] spend.inputs[i],
    ) is Some by {
        assert(input_obstacle(spend.inputs[i], funding, descriptor) is None);
    }
}

/// There is a transaction exactly where every input can be spent, every payment can be made, the
/// change has a script and the amounts balance. Else the answer is the first of these, in this
/// order, that fails; for the amounts it tells all three sums.
pub proof fn law_spend_is_refused_for_a_reason(
    spend: SpendSpecView,
    descriptor: DescriptorView,
    funding: Seq<FundingView>,
    network: Network,
    k: int,
)
    ensures
        ({
            let outcome = spend_transaction(spend, descriptor, funding, network);
            let change = spend.change_output;
            let total_in = sum(coin_amounts(spend.inputs, funding));
            if exists|j: int|
                0 <= j < spend.inputs.len() && input_obstacle(
                    #[trigger] spend.inputs[j],
                    funding,
                    descriptor,
                ) is Some {
                &&& outcome is Err
                &&& 0 <= k < spend.inputs.len() && input_obstacle(
                    spend.inputs[k],
                    funding,
                    descriptor,
                ) is Some && (forall|j: int|
                    0 <= j < k ==> input_obstacle(#[trigger] spend.inputs[j], funding, descriptor)
                        is None) ==> Some(outcome->Err_0) == input_obstacle(
                    spend.inputs[k],
                    funding,
                    descriptor,
                )
            } else if exists|j: int|
                0 <= j < spend.outputs.len() && payment_obstacle(
                    #[trigger] spend.outputs[j],
                    network,
                ) is Some {
                &&& outcome is Err
                &&& 0 <= k < spend.outputs.len() && payment_obstacle(spend.outputs[k], network)
                    is Some && (forall|j: int|
                    0 <= j < k ==> payment_obstacle(#[trigger] spend.outputs[j], network) is None)
                    ==> Some(outcome->Err_0) == payment_obstacle(spend.outputs[k], network)
            } else if change is Some && descriptor_script(
                descriptor,
                (change->0).derivation_index,
            ) is Err {
                outcome == Err::<UnsignedTxView, WalletFault>(
                    WalletFault::NonDefiniteKey(
                        descriptor_script(descriptor, (change->0).derivation_index)->Err_0,
                    ),
                )
            } else if total_in != spend.fee_sats + amount_out(spend) {
                outcome == Err::<UnsignedTxView, WalletFault>(
                    WalletFault::AmountMismatch {
                        inputs_sats: total_in,
                        outputs_sats: amount_out(spend),
                        fee_sats: spend.fee_sats as nat,
                    },
                )
            } else {
                outcome is Ok
            }
        }),
{
    let n = spend.outputs.len();
    lemma_first_obstacle_of_inputs(spend.inputs, funding, descriptor, spend.inputs.len(), k);
    lemma_first_obstacle_of_payments(spend.outputs, network, n, k);
    lemma_funded(spend.inputs, funding, spend.inputs.len());
    lemma_paid(spend.outputs, n);
    let coins = coin_amounts(spend.inputs, funding);
    let paid = payment_amounts(spend.outputs);
    assert(coins.take(spend.inputs.len() as int) =~= coins);
    assert(paid.take(n as int) =~= paid);
}

/// Amounts can be counted wherever what comes in and what goes out each fit into 64 bits.
pub proof fn law_amounts_that_fit_can_be_counted(
    spend: SpendSpecView,
    descriptor: DescriptorView,
    funding: Seq<FundingView>,
    network: Network,
)
    requires
        sum(coin_amounts(spend.inputs, funding)) <= u64::MAX,
        spend.fee_sats + amount_out(spend) <= u64::MAX,
    ensures
        spend_sums_fit(spend, descriptor, funding, network),
{
    let derived = input_scripts(spend.inputs, funding, descriptor);
    let scripts = output_scripts(spend.outputs, network);
    let coins = coin_amounts(spend.inputs, funding);
    let paid = payment_amounts(spend.outputs);
    assert forall|n: nat|
        0 < n <= spend.inputs.len() && inputs_fault(
            spend.inputs,
            funding,
            derived,
            (n - 1) as nat,
        ) is None && find_funding(
            funding,
            spend.inputs[n - 1],
        ) is Some implies #[trigger] funded_total(spend.inputs, funding, n) <= u64::MAX by {
        lemma_funded(spend.inputs, funding, n);
        lemma_sum_grows(coins, n as int);
    }
    assert forall|m: nat|
        m <= spend.outputs.len() && addresses_fault(scripts, m) is None implies spend.fee_sats
        + #[trigger] outputs_total(spend.outputs, m) <= u64::MAX by {
        lemma_paid(spend.outputs, m);
        lemma_sum_grows(paid, m as int);
    }
    lemma_paid(spend.outputs, spend.outputs.len());
    assert(paid.take(spend.outputs.len() as int) =~= paid);
}

/// The document from which filling starts: it holds the transaction, in each input map the output
/// that is spent, and nothing else.
pub open spec fn is_start_of(
    start: PsbtView,
    tx: UnsignedTxView,
    inputs: Seq<OutPointRef>,
    funding: Seq<FundingView>,
) -> bool {
    &&& start.global.len() == 1
    &&& start.global[0].key == seq![0u8]
    &&& start.global[0].value == encode_tx(tx)
    &&& start.inputs.len() == tx.inputs.len()
    &&& forall|i: int|
        0 <= i < tx.inputs.len() ==> (#[trigger] start.inputs[i]).len() == 1
            && start.inputs[i][0].key == seq![1u8] && start.inputs[i][0].value == encode_txout(
            (find_funding(funding, inputs[i])->0).txout,
        )
    &&& start.outputs.len() == tx.outputs.len()
    &&& forall|i: int| 0 <= i < tx.outputs.len() ==> (#[trigger] start.outputs[i]).len() == 0
}

/// What filling one input map from the descriptor gives: the map, or why it does not fit.
pub open spec fn filled_map(
    start: PsbtView,
    inputs: Seq<OutPointRef>,
    funding: Seq<FundingView>,
    descriptor: DescriptorView,
    i: int,
) -> Option<Seq<PairView>> {
    match updated_input(
        encode(start),
        i as nat,
        descriptor,
        (find_funding(funding, inputs[i])->0).derivation_index,
    ) {
        Err(_) => None,
        Ok(b) => match decode(b, start.inputs.len(), start.outputs.len()) {
            None => None,
            Some(p) => Some(p.inputs[i]),
        },
    }
}

/// What filling the last output map from the descriptor at the index of the change gives.
pub open spec fn filled_change(
    start: PsbtView,
    descriptor: DescriptorView,
    index: u32,
) -> Option<Seq<PairView>> {
    let last = (start.outputs.len() - 1) as nat;
    match updated_output(encode(start), last, descriptor, index) {
        Err(_) => None,
        Ok(b) => match decode(b, start.inputs.len(), start.outputs.len()) {
            None => None,
            Some(p) => Some(p.outputs[last as int]),
        },
    }
}

proof fn lemma_filled(
    start: PsbtView,
    inputs: Seq<OutPointRef>,
    funding: Seq<FundingView>,
    descriptor: DescriptorView,
    n: nat,
)
    ensures
        match filled_inputs(start, inputs, funding, descriptor, n) {
            Ok(maps) => {
                &&& maps.len() == n
                &&& forall|i: int|
                    0 <= i < n ==> filled_map(start, inputs, funding, descriptor, i) == Some(
                        #[trigger] maps[i],
                    )
            },
            Err(_) => exists|i: int|
                0 <= i < n && #[trigger] filled_map(start, inputs, funding, descriptor, i) is None,
        },
    decreases n,
{
    if n > 0 {
        lemma_filled(start, inputs, funding, descriptor, (n - 1) as nat);
        match filled_inputs(start, inputs, funding, descriptor, (n - 1) as nat) {
            Err(_) => {
                let i = choose|i: int|
                    0 <= i < n - 1 && #[trigger] filled_map(start, inputs, funding, descriptor, i)
                        is None;
                assert(filled_map(start, inputs, funding, descriptor, i) is None);
            },
            Ok(before) => {
                match filled_map(start, inputs, funding, descriptor, n - 1) {
                    None => {},
                    Some(m) => {
                        let maps = filled_inputs(start, inputs, funding, descriptor, n)->Ok_0;
                        assert(maps == before.push(m));
                        assert forall|i: int| 0 <= i < n implies filled_map(
                            start,
                            inputs,
                            funding,
                            descriptor,
                            i,
                        ) == Some(#[trigger] maps[i]) by {
                            if i < n - 1 {
                                assert(maps[i] == before[i]);
                            }
                        }
                    },
                }
            },
        }
    }
}

/// The document of a spend is built exactly where there is a transaction and every input map, and
/// the map of the change, can be filled from the descriptor. It holds that transaction and no
/// other global field, for each input the filled map, for each payment an empty map, and for the
/// change the filled one.
pub proof fn law_document_does_what_the_spend_says(
    spend: SpendSpecView,
    descriptor: DescriptorView,
    funding: Seq<FundingView>,
    network: Network,
    start: PsbtView,
)
    requires
        spend_transaction(spend, descriptor, funding, network) is Ok,
        is_start_of(
            start,
            spend_transaction(spend, descriptor, funding, network)->Ok_0,
            spend.inputs,
            funding,
        ),
    ensures
        ({
            let tx = spend_transaction(spend, descriptor, funding, network)->Ok_0;
            let outcome = unsigned_outcome(spend, descriptor, funding, network);
            &&& outcome is Ok <==> {
                &&& forall|i: int|
                    0 <= i < spend.inputs.len() ==> #[trigger] filled_map(
                        start,
                        spend.inputs,
                        funding,
                        descriptor,
                        i,
                    ) is Some
                &&& match spend.change_output {
                    None => true,
                    Some(c) => filled_change(start, descriptor, c.derivation_index) is Some,
                }
            }
            &&& outcome is Ok ==> {
                let p = outcome->Ok_0;
                let n = spend.outputs.len();
                &&& p.global.len() == 1
                &&& p.global[0].key == seq![0u8]
                &&& p.global[0].value == encode_tx(tx)
                &&& p.inputs.len() == spend.inputs.len()
                &&& forall|i: int|
                    0 <= i < spend.inputs.len() ==> Some(#[trigger] p.inputs[i]) == filled_map(
                        start,
                        spend.inputs,
                        funding,
                        descriptor,
                        i,
                    )
                &&& p.outputs.len() == tx.outputs.len()
                &&& forall|i: int| 0 <= i < n ==> (#[trigger] p.outputs[i]).len() == 0
                &&& match spend.change_output {
                    None => true,
                    Some(c) => Some(p.outputs.last()) == filled_change(
                        start,
                        descriptor,
                        c.derivation_index,
                    ),
                }
            }
        }),
{
    let tx = spend_transaction(spend, descriptor, funding, network)->Ok_0;
    law_transaction_does_what_the_spend_says(spend, descriptor, funding, network);
    let own = spent_document(tx, spend.inputs, funding);
    assert(start.global =~= own.global);
    assert(start.inputs =~= own.inputs) by {
        assert forall|i: int| 0 <= i < own.inputs.len() implies start.inputs[i] == own.inputs[i] by {
            assert(start.inputs[i].len() == 1);
            assert(start.inputs[i] =~= own.inputs[i]);
        }
    }
    assert(start.outputs =~= own.outputs) by {
        assert forall|i: int| 0 <= i < own.outputs.len() implies start.outputs[i]
            == own.outputs[i] by {
            assert(start.outputs[i].len() == 0);
            assert(start.outputs[i] =~= own.outputs[i]);
        }
    }
    assert(start == own);
    lemma_filled(start, spend.inputs, funding, descriptor, spend.inputs.len());
    match filled_inputs(start, spend.inputs, funding, descriptor, spend.inputs.len()) {
        Err(_) => {},
        Ok(maps) => {
            assert forall|i: int| 0 <= i < spend.inputs.len() implies #[trigger] filled_map(
                start,
                spend.inputs,
                funding,
                descriptor,
                i,
            ) is Some by {
                assert(Some(maps[i]) == filled_map(start, spend.inputs, funding, descriptor, i));
            }
        },
    }
}

/// A transaction that is refused is the refusal of the document.
pub proof fn law_no_document_without_transaction(
    spend: SpendSpecView,
    descriptor: DescriptorView,
    funding: Seq<FundingView>,
    network: Network,
)
    requires
        spend_transaction(spend, descriptor, funding, network) is Err,
    ensures
        unsigned_outcome(spend, descriptor, funding, network) == Err::<PsbtView, WalletFault>(
            spend_transaction(spend, descriptor, funding, network)->Err_0,
        ),
{
}

/// A coin or a change output that the descriptor does not fit is told: the reason for the first
/// coin that does not, and where all do, the reason for the change.
pub proof fn law_unfit_coin_or_change_is_told(
    spend: SpendSpecView,
    descriptor: DescriptorView,
    funding: Seq<FundingView>,
    network: Network,
    start: PsbtView,
    k: int,
)
    requires
        spend_transaction(spend, descriptor, funding, network) is Ok,
        start == spent_document(
            spend_transaction(spend, descriptor, funding, network)->Ok_0,
            spend.inputs,
            funding,
        ),
        0 <= k <= spend.inputs.len(),
        forall|i: int|
            0 <= i < k ==> #[trigger] filled_map(start, spend.inputs, funding, descriptor, i)
                is Some,
    ensures
        ({
            let outcome = unsigned_outcome(spend, descriptor, funding, network);
            if k < spend.inputs.len() {
                let index = (find_funding(funding, spend.inputs[k])->0).derivation_index;
                match updated_input(encode(start), k as nat, descriptor, index) {
                    Err(e) => outcome == Err::<PsbtView, WalletFault>(WalletFault::UtxoUpdate(e)),
                    Ok(_) => true,
                }
            } else {
                match spend.change_output {
                    None => true,
                    Some(c) => match updated_output(
                        encode(start),
                        (start.outputs.len() - 1) as nat,
                        descriptor,
                        c.derivation_index,
                    ) {
                        Err(e) => outcome == Err::<PsbtView, WalletFault>(
                            WalletFault::OutputUpdate(e),
                        ),
                        Ok(_) => true,
                    },
                }
            }
        }),
{
    lemma_filled(start, spend.inputs, funding, descriptor, k as nat);
    match filled_inputs(start, spend.inputs, funding, descriptor, k as nat) {
        Err(_) => {
            let i = choose|i: int|
                0 <= i < k && #[trigger] filled_map(start, spend.inputs, funding, descriptor, i)
                    is None;
            assert(filled_map(start, spend.inputs, funding, descriptor, i) is Some);
        },
        Ok(_) => {
            if k < spend.inputs.len() {
                lemma_fault_stays(
                    start,
                    spend.inputs,
                    funding,
                    descriptor,
                    (k + 1) as nat,
                    spend.inputs.len(),
                );
            }
        },
    }
}

proof fn lemma_fault_stays(
    start: PsbtView,
    inputs: Seq<OutPointRef>,
    funding: Seq<FundingView>,
    descriptor: DescriptorView,
    n: nat,
    m: nat,
)
    requires
        n <= m,
    ensures
        filled_inputs(start, inputs, funding, descriptor, n) is Err ==> filled_inputs(
            start,
            inputs,
            funding,
            descriptor,
            m,
        ) == filled_inputs(start, inputs, funding, descriptor, n),
    decreases m,
{
    if n < m {
        lemma_fault_stays(start, inputs, funding, descriptor, n, (m - 1) as nat);
    }
}

/// What is said of coins and of a transaction is said of all of them: of every coin with its
/// output and index, and of every input and output.
pub proof fn law_all_coins_and_outputs_are_seen(funding: Seq<FundingUtxo>, tx: UnsignedTx)
    ensures
        funding_views(funding).len() == funding.len(),
        forall|i: int|
            0 <= i < funding.len() ==> (#[trigger] funding_views(funding)[i]).outpoint
                == funding[i].outpoint && funding_views(funding)[i].derivation_index
                == funding[i].derivation_index && funding_views(funding)[i].txout.value
                == funding[i].txout.value && funding_views(funding)[i].txout.script_pubkey
                == funding[i].txout.script_pubkey@,
        tx@.version == tx.version,
        tx@.lock_time == tx.lock_time,
        tx@.inputs == tx.inputs@,
        tx@.outputs.len() == tx.outputs@.len(),
        forall|i: int|
            0 <= i < tx.outputs@.len() ==> (#[trigger] tx@.outputs[i]).value
                == tx.outputs@[i].value && tx@.outputs[i].script_pubkey
                == tx.outputs@[i].script_pubkey@,
{
}

} // verus!
