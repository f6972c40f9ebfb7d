//! The transaction of a spend.

use vstd::prelude::*;

use crate::address::{address_script, script_for};
use crate::bytes::copy_range;
use crate::primitives::Network;
use crate::psbt_session::primitives::{
    ChangeOutput, OutPointRef, SpendOutputView, SpendSpec, SpendSpecView,
};
use crate::wallet::descriptor::{canonical_descriptor, Descriptor, DescriptorView};
use crate::wallet::error::{WalletError, WalletFault};

verus! {

/// The version of the transactions that are built.
pub const TX_VERSION: i32 = 2;

/// The sequence number of their inputs: replaceable by a transaction with a higher fee, and
/// without a lock time.
pub const TX_SEQUENCE: u32 = 0xffff_fffd;

/// An output of a transaction: an amount in sats, and the script that it is paid to.
#[derive(Debug)]
pub struct TxOut {
    pub value: u64,
    pub script_pubkey: Vec<u8>,
}

/// What a [`TxOut`] holds.
pub struct TxOutView {
    pub value: u64,
    pub script_pubkey: Seq<u8>,
}

impl View for TxOut {
    type V = TxOutView;

    open spec fn view(&self) -> TxOutView {
        TxOutView { value: self.value, script_pubkey: self.script_pubkey@ }
    }
}

impl Clone for TxOut {
    fn clone(&self) -> (r: Self)
        ensures
            r@ == self@,
    {
        TxOut { value: self.value, script_pubkey: self.script_pubkey.clone() }
    }
}

/// A coin of the wallet that is spent: which output of which transaction it is, what that output
/// holds, and at which index of the descriptor it lives.
#[derive(Debug)]
pub struct FundingUtxo {
    pub outpoint: OutPointRef,
    pub txout: TxOut,
    pub derivation_index: u32,
}

/// What a [`FundingUtxo`] holds.
pub struct FundingView {
    pub outpoint: OutPointRef,
    pub txout: TxOutView,
    pub derivation_index: u32,
}

impl View for FundingUtxo {
    type V = FundingView;

    open spec fn view(&self) -> FundingView {
        FundingView {
            outpoint: self.outpoint,
            txout: self.txout@,
            derivation_index: self.derivation_index,
        }
    }
}

/// What each coin of a list holds.
pub open spec fn funding_views(funding: Seq<FundingUtxo>) -> Seq<FundingView> {
    Seq::new(funding.len(), |i: int| funding[i]@)
}

/// An input of an unsigned transaction.
#[derive(Debug, Clone, Copy)]
pub struct TxInput {
    pub previous_output: OutPointRef,
    pub sequence: u32,
}

/// A transaction without signatures.
#[derive(Debug)]
pub struct UnsignedTx {
    pub version: i32,
    pub lock_time: u32,
    pub inputs: Vec<TxInput>,
    pub outputs: Vec<TxOut>,
}

/// What an [`UnsignedTx`] holds.
pub struct UnsignedTxView {
    pub version: i32,
    pub lock_time: u32,
    pub inputs: Seq<TxInput>,
    pub outputs: Seq<TxOutView>,
}

/// What each output of a list holds.
pub open spec fn txout_views(outputs: Seq<TxOut>) -> Seq<TxOutView> {
    Seq::new(outputs.len(), |i: int| outputs[i]@)
}

impl View for UnsignedTx {
    type V = UnsignedTxView;

    open spec fn view(&self) -> UnsignedTxView {
        UnsignedTxView {
            version: self.version,
            lock_time: self.lock_time,
            inputs: self.inputs@,
            outputs: txout_views(self.outputs@),
        }
    }
}

/// The coin for an input: the first one given for it.
pub open spec fn find_funding(funding: Seq<FundingView>, o: OutPointRef) -> Option<FundingView>
    decreases funding.len(),
{
    if funding.len() == 0 {
        None
    } else if funding[0].outpoint == o {
        Some(funding[0])
    } else {
        find_funding(funding.drop_first(), o)
    }
}

/// What the first `n` inputs hold together; an input without a coin holds nothing.
pub open spec fn funded_total(inputs: Seq<OutPointRef>, funding: Seq<FundingView>, n: nat) -> nat
    decreases n,
{
    if n == 0 {
        0
    } else {
        funded_total(inputs, funding, (n - 1) as nat) + match find_funding(
            funding,
            inputs[n - 1],
        ) {
            Some(f) => f.txout.value as nat,
            None => 0,
        }
    }
}

/// What the first `n` outputs pay together.
pub open spec fn outputs_total(outputs: Seq<SpendOutputView>, n: nat) -> nat
    decreases n,
{
    if n == 0 {
        0
    } else {
        outputs_total(outputs, (n - 1) as nat) + outputs[n - 1].amount_sats as nat
    }
}

/// What the change output pays.
pub open spec fn change_amount(spend: SpendSpecView) -> nat {
    match spend.change_output {
        Some(c) => c.amount_sats as nat,
        None => 0,
    }
}

/// What a spend pays in all: the fee, the outputs and the change.
pub open spec fn paid_total(spend: SpendSpecView) -> nat {
    spend.fee_sats as nat + outputs_total(spend.outputs, spend.outputs.len()) + change_amount(
        spend,
    )
}

/// What is wrong with the first `n` inputs, if anything: there is no coin for one, or the
/// descriptor has no keys where it lives.
pub open spec fn inputs_fault(
    inputs: Seq<OutPointRef>,
    funding: Seq<FundingView>,
    derived: Seq<Result<Seq<u8>, Seq<char>>>,
    n: nat,
) -> Option<WalletFault>
    decreases n,
{
    if n == 0 {
        None
    } else {
        match inputs_fault(inputs, funding, derived, (n - 1) as nat) {
            Some(e) => Some(e),
            None => match find_funding(funding, inputs[n - 1]) {
                None => Some(WalletFault::MissingFunding(inputs[n - 1])),
                Some(_) => match derived[n - 1] {
                    Ok(_) => None,
                    Err(e) => Some(WalletFault::NonDefiniteKey(e)),
                },
            },
        }
    }
}

/// What is wrong with the addresses of the first `n` outputs, if anything.
pub open spec fn addresses_fault(scripts: Seq<Result<Seq<u8>, Seq<char>>>, n: nat) -> Option<
    WalletFault,
>
    decreases n,
{
    if n == 0 {
        None
    } else {
        match addresses_fault(scripts, (n - 1) as nat) {
            Some(e) => Some(e),
            None => match scripts[n - 1] {
                Ok(_) => None,
                Err(e) => Some(WalletFault::InvalidAddress(e)),
            },
        }
    }
}

/// Whether every sum that is taken before a fault is met can be counted in 64 bits: what the
/// inputs hold, added up as long as each has a coin and each before it has keys; then the fee and
/// the payments, added up as long as each address has a script; then the change.
pub open spec fn sums_fit(
    spend: SpendSpecView,
    funding: Seq<FundingView>,
    derived: Seq<Result<Seq<u8>, Seq<char>>>,
    scripts: Seq<Result<Seq<u8>, Seq<char>>>,
    change: Option<Result<Seq<u8>, Seq<char>>>,
) -> bool {
    let n_in = spend.inputs.len();
    let n_out = spend.outputs.len();
    &&& inputs_sums_fit(spend.inputs, funding, derived)
    &&& inputs_fault(spend.inputs, funding, derived, n_in) is None ==> {
        &&& payments_sums_fit(spend, scripts)
        &&& addresses_fault(scripts, n_out) is None && !(spend.change_output is Some
            && change->0 is Err) ==> paid_total(spend) <= u64::MAX
    }
}

/// The part of [`sums_fit`] on the inputs.
pub open spec fn inputs_sums_fit(
    inputs: Seq<OutPointRef>,
    funding: Seq<FundingView>,
    derived: Seq<Result<Seq<u8>, Seq<char>>>,
) -> bool {
    forall|n: nat|
        0 < n <= inputs.len() && inputs_fault(inputs, funding, derived, (n - 1) as nat) is None
            && find_funding(funding, inputs[n - 1]) is Some ==> #[trigger] funded_total(
            inputs,
            funding,
            n,
        ) <= u64::MAX
}

/// The part of [`sums_fit`] on the payments.
pub open spec fn payments_sums_fit(
    spend: SpendSpecView,
    scripts: Seq<Result<Seq<u8>, Seq<char>>>,
) -> bool {
    forall|k: nat|
        k <= spend.outputs.len() && addresses_fault(scripts, k) is None ==> spend.fee_sats
            + #[trigger] outputs_total(spend.outputs, k) <= u64::MAX
}

/// The outputs of the transaction: the payments, then the change.
pub open spec fn tx_outputs(
    spend: SpendSpecView,
    scripts: Seq<Result<Seq<u8>, Seq<char>>>,
    change: Option<Result<Seq<u8>, Seq<char>>>,
) -> Seq<TxOutView> {
    let paid = Seq::new(
        spend.outputs.len(),
        |i: int|
            TxOutView {
                value: spend.outputs[i].amount_sats,
                script_pubkey: scripts[i]->Ok_0,
            },
    );
    match spend.change_output {
        None => paid,
        Some(c) => paid.push(
            TxOutView { value: c.amount_sats, script_pubkey: (change->0)->Ok_0 },
        ),
    }
}

/// The transaction of a spend, given the script of each address and what the descriptor says of
/// each coin and of the change; or why there is none.
pub open spec fn transaction_outcome(
    spend: SpendSpecView,
    funding: Seq<FundingView>,
    derived: Seq<Result<Seq<u8>, Seq<char>>>,
    scripts: Seq<Result<Seq<u8>, Seq<char>>>,
    change: Option<Result<Seq<u8>, Seq<char>>>,
) -> Result<UnsignedTxView, WalletFault> {
    let total_in = funded_total(spend.inputs, funding, spend.inputs.len());
    let total_out = paid_total(spend);
    match inputs_fault(spend.inputs, funding, derived, spend.inputs.len()) {
        Some(e) => Err(e),
        None => match addresses_fault(scripts, spend.outputs.len()) {
            Some(e) => Err(e),
            None => if spend.change_output is Some && change->0 is Err {
                Err(WalletFault::NonDefiniteKey((change->0)->Err_0))
            } else if total_in != total_out {
                Err(
                    WalletFault::AmountMismatch {
                        inputs_sats: total_in,
                        outputs_sats: (total_out - spend.fee_sats) as nat,
                        fee_sats: spend.fee_sats as nat,
                    },
                )
            } else {
                Ok(
                    UnsignedTxView {
                        version: TX_VERSION,
                        lock_time: 0,
                        inputs: Seq::new(
                            spend.inputs.len(),
                            |i: int|
                                TxInput {
                                    previous_output: spend.inputs[i],
                                    sequence: TX_SEQUENCE,
                                },
                        ),
                        outputs: tx_outputs(spend, scripts, change),
                    },
                )
            },
        },
    }
}

/// The sum grows with the number of inputs.
proof fn lemma_funded_total_grows(
    inputs: Seq<OutPointRef>,
    funding: Seq<FundingView>,
    n: nat,
    m: nat,
)
    requires
        n <= m,
    ensures
        funded_total(inputs, funding, n) <= funded_total(inputs, funding, m),
    decreases m,
{
    if n < m {
        lemma_funded_total_grows(inputs, funding, n, (m - 1) as nat);
    }
}

/// The sum grows with the number of outputs.
proof fn lemma_outputs_total_grows(outputs: Seq<SpendOutputView>, n: nat, m: nat)
    requires
        n <= m,
    ensures
        outputs_total(outputs, n) <= outputs_total(outputs, m),
    decreases m,
{
    if n < m {
        lemma_outputs_total_grows(outputs, n, (m - 1) as nat);
    }
}

/// A fault of the first inputs is the fault of all.
proof fn lemma_inputs_fault(
    inputs: Seq<OutPointRef>,
    funding: Seq<FundingView>,
    derived: Seq<Result<Seq<u8>, Seq<char>>>,
    n: nat,
    m: nat,
)
    requires
        n <= m,
        inputs_fault(inputs, funding, derived, n) is Some,
    ensures
        inputs_fault(inputs, funding, derived, m) == inputs_fault(inputs, funding, derived, n),
    decreases m,
{
    if n < m {
        lemma_inputs_fault(inputs, funding, derived, n, (m - 1) as nat);
    }
}

/// A fault of the first addresses is the fault of all.
proof fn lemma_addresses_fault(scripts: Seq<Result<Seq<u8>, Seq<char>>>, n: nat, m: nat)
    requires
        n <= m,
        addresses_fault(scripts, n) is Some,
    ensures
        addresses_fault(scripts, m) == addresses_fault(scripts, n),
    decreases m,
{
    if n < m {
        lemma_addresses_fault(scripts, n, (m - 1) as nat);
    }
}

/// Where the sum over the inputs up to the first fault fits, every sum before it does.
proof fn lemma_inputs_sums(
    inputs: Seq<OutPointRef>,
    funding: Seq<FundingView>,
    derived: Seq<Result<Seq<u8>, Seq<char>>>,
    m: nat,
)
    requires
        m <= inputs.len(),
        m == inputs.len() || inputs_fault(inputs, funding, derived, m) is Some,
        funded_total(inputs, funding, m) <= u64::MAX,
    ensures
        inputs_sums_fit(inputs, funding, derived),
{
    assert forall|n: nat|
        0 < n <= inputs.len() && inputs_fault(inputs, funding, derived, (n - 1) as nat) is None
            && find_funding(funding, inputs[n - 1]) is Some implies #[trigger] funded_total(
        inputs,
        funding,
        n,
    ) <= u64::MAX by {
        if n <= m {
            lemma_funded_total_grows(inputs, funding, n, m);
        } else {
            lemma_inputs_fault(inputs, funding, derived, m, (n - 1) as nat);
        }
    }
}

/// Where the sum over the payments up to the first fault fits, every sum before it does.
proof fn lemma_payments_sums(
    spend: SpendSpecView,
    scripts: Seq<Result<Seq<u8>, Seq<char>>>,
    m: nat,
)
    requires
        m <= spend.outputs.len(),
        m == spend.outputs.len() || addresses_fault(scripts, m + 1) is Some,
        spend.fee_sats + outputs_total(spend.outputs, m) <= u64::MAX,
    ensures
        payments_sums_fit(spend, scripts),
{
    assert forall|k: nat|
        k <= spend.outputs.len() && addresses_fault(scripts, k) is None implies spend.fee_sats
        + #[trigger] outputs_total(spend.outputs, k) <= u64::MAX by {
        if k <= m {
            lemma_outputs_total_grows(spend.outputs, k, m);
        } else {
            lemma_addresses_fault(scripts, m + 1, k);
        }
    }
}

/// Where no address is at fault, each has a script.
proof fn lemma_addresses_good(scripts: Seq<Result<Seq<u8>, Seq<char>>>, n: nat)
    requires
        addresses_fault(scripts, n) is None,
    ensures
        forall|i: int| 0 <= i < n ==> (#[trigger] scripts[i]) is Ok,
    decreases n,
{
    if n > 0 {
        lemma_addresses_good(scripts, (n - 1) as nat);
    }
}

/// The coin for an input.
pub(crate) fn funding_for<'a>(funding: &'a [FundingUtxo], o: &OutPointRef) -> (r: Option<&'a FundingUtxo>)
    ensures
        match r {
            Some(f) => find_funding(funding_views(funding@), *o) == Some(f@),
            None => find_funding(funding_views(funding@), *o) is None,
        },
{
    let ghost all = funding_views(funding@);
    let mut i: usize = 0;
    assert(all.skip(0) =~= all);
    while i < funding.len()
        invariant
            i <= funding@.len(),
            all == funding_views(funding@),
            find_funding(all, *o) == find_funding(all.skip(i as int), *o),
        decreases funding@.len() - i,
    {
        assert(all.skip(i as int)[0] == funding@[i as int]@);
        assert(all.skip(i as int).drop_first() =~= all.skip(i + 1));
        if funding[i].outpoint == *o {
            return Some(&funding[i]);
        }
        i += 1;
    }
    None
}

/// What results hold.
pub open spec fn script_views(scripts: Seq<Result<Vec<u8>, String>>) -> Seq<
    Result<Seq<u8>, Seq<char>>,
> {
    Seq::new(scripts.len(), |i: int| script_view(scripts[i]))
}

/// What a result holds.
pub open spec fn script_view(script: Result<Vec<u8>, String>) -> Result<Seq<u8>, Seq<char>> {
    match script {
        Ok(s) => Ok(s@),
        Err(e) => Err(e@),
    }
}

/// What a result holds, where there is one.
pub open spec fn change_view(change: Option<Result<Vec<u8>, String>>) -> Option<
    Result<Seq<u8>, Seq<char>>,
> {
    match change {
        Some(c) => Some(script_view(c)),
        None => None,
    }
}

/// Builds the transaction of a spend, given the script of each address and what the descriptor
/// says of each coin and of the change. There is no answer where a sum of amounts cannot be
/// counted.
pub fn try_assemble_transaction(
    spend: &SpendSpec,
    funding: &[FundingUtxo],
    derived: &Vec<Result<Vec<u8>, String>>,
    scripts: &Vec<Result<Vec<u8>, String>>,
    change: &Option<Result<Vec<u8>, String>>,
) -> (r: Option<Result<UnsignedTx, WalletError>>)
    requires
        derived@.len() == spend.inputs@.len(),
        scripts@.len() == spend.outputs@.len(),
        spend.change_output is Some ==> change is Some,
    ensures
        ({
            let outcome = transaction_outcome(
                spend@,
                funding_views(funding@),
                script_views(derived@),
                script_views(scripts@),
                change_view(*change),
            );
            let fits = sums_fit(
                spend@,
                funding_views(funding@),
                script_views(derived@),
                script_views(scripts@),
                change_view(*change),
            );
            match r {
                None => !fits,
                Some(Ok(tx)) => fits && outcome == Ok::<UnsignedTxView, WalletFault>(tx@),
                Some(Err(e)) => fits && outcome == Err::<UnsignedTxView, WalletFault>(e@),
            }
        }),
{
    let ghost coins = funding_views(funding@);
    let ghost known = script_views(derived@);
    let ghost paid = script_views(scripts@);
    let ghost n_in = spend.inputs@.len();
    let ghost n_out = spend.outputs@.len();
    let mut inputs: Vec<TxInput> = Vec::new();
    let mut total_in: u64 = 0;
    let mut i: usize = 0;
    while i < spend.inputs.len()
        invariant
            i <= spend.inputs@.len(),
            n_in == spend.inputs@.len(),
            derived@.len() == n_in,
            coins == funding_views(funding@),
            known == script_views(derived@),
            total_in == funded_total(spend@.inputs, coins, i as nat),
            inputs_fault(spend@.inputs, coins, known, i as nat) is None,
            inputs@.len() == i,
            forall|j: int|
                0 <= j < i ==> inputs@[j] == (TxInput {
                    previous_output: spend.inputs@[j],
                    sequence: TX_SEQUENCE,
                }),
        decreases spend.inputs@.len() - i,
    {
        let o: OutPointRef = spend.inputs[i];
        assert(spend@.inputs[i as int] == o);
        assert(known[i as int] == script_view(derived@[i as int]));
        let coin: &FundingUtxo = match funding_for(funding, &o) {
            None => {
                proof {
                    lemma_inputs_fault(spend@.inputs, coins, known, (i + 1) as nat, n_in);
                    lemma_inputs_sums(spend@.inputs, coins, known, (i + 1) as nat);
                }
                return Some(Err(WalletError::MissingFunding(o)));
            },
            Some(coin) => coin,
        };
        match total_in.checked_add(coin.txout.value) {
            Some(sum) => {
                total_in = sum;
            },
            None => {
                assert(funded_total(spend@.inputs, coins, (i + 1) as nat) > u64::MAX);
                return None;
            },
        }
        match &derived[i] {
            Err(e) => {
                proof {
                    lemma_inputs_fault(spend@.inputs, coins, known, (i + 1) as nat, n_in);
                    lemma_inputs_sums(spend@.inputs, coins, known, (i + 1) as nat);
                }
                return Some(Err(WalletError::NonDefiniteKey(e.clone())));
            },
            Ok(_) => {},
        }
        inputs.push(TxInput { previous_output: o, sequence: TX_SEQUENCE });
        i += 1;
    }
    proof {
        lemma_inputs_sums(spend@.inputs, coins, known, n_in);
    }
    let mut outputs: Vec<TxOut> = Vec::new();
    let mut total_out: u64 = spend.fee_sats;
    let mut k: usize = 0;
    while k < spend.outputs.len()
        invariant
            k <= spend.outputs@.len(),
            n_out == spend.outputs@.len(),
            scripts@.len() == n_out,
            paid == script_views(scripts@),
            inputs_sums_fit(spend@.inputs, coins, known),
            inputs_fault(spend@.inputs, coins, known, spend@.inputs.len()) is None,
            coins == funding_views(funding@),
            known == script_views(derived@),
            total_out == spend.fee_sats + outputs_total(spend@.outputs, k as nat),
            addresses_fault(paid, k as nat) is None,
            outputs@.len() == k,
            forall|j: int|
                0 <= j < k ==> (#[trigger] outputs@[j])@ == (TxOutView {
                    value: spend@.outputs[j].amount_sats,
                    script_pubkey: paid[j]->Ok_0,
                }),
        decreases spend.outputs@.len() - k,
    {
        assert(spend@.outputs[k as int] == spend.outputs@[k as int]@);
        assert(paid[k as int] == script_view(scripts@[k as int]));
        match &scripts[k] {
            Err(e) => {
                proof {
                    lemma_addresses_fault(paid, (k + 1) as nat, n_out);
                    lemma_payments_sums(spend@, paid, k as nat);
                }
                return Some(Err(WalletError::InvalidAddress(e.clone())));
            },
            Ok(script) => {
                match total_out.checked_add(spend.outputs[k].amount_sats) {
                    Some(sum) => {
                        total_out = sum;
                    },
                    None => {
                        assert(spend.fee_sats + outputs_total(spend@.outputs, (k + 1) as nat)
                            > u64::MAX);
                        return None;
                    },
                }
                outputs.push(
                    TxOut {
                        value: spend.outputs[k].amount_sats,
                        script_pubkey: copy_range(script.as_slice(), 0, script.len()),
                    },
                );
                assert(outputs@[k as int].script_pubkey@ =~= script@);
            },
        }
        k += 1;
    }
    let ghost payments = txout_views(outputs@);
    proof {
        lemma_payments_sums(spend@, paid, n_out);
    }
    match (spend.change_output, change) {
        (Some(c), Some(Ok(script))) => {
            match total_out.checked_add(c.amount_sats) {
                Some(sum) => {
                    total_out = sum;
                },
                None => {
                    return None;
                },
            }
            let out: TxOut = TxOut {
                value: c.amount_sats,
                script_pubkey: copy_range(script.as_slice(), 0, script.len()),
            };
            assert(out.script_pubkey@ =~= script@);
            let ghost last = out@;
            outputs.push(out);
            assert(txout_views(outputs@) =~= payments.push(last));
        },
        (Some(_), Some(Err(e))) => {
            return Some(Err(WalletError::NonDefiniteKey(e.clone())));
        },
        _ => {},
    }
    if total_in != total_out {
        return Some(
            Err(
                WalletError::AmountMismatch {
                    inputs_sats: total_in,
                    outputs_sats: total_out - spend.fee_sats,
                    fee_sats: spend.fee_sats,
                },
            ),
        );
    }
    let tx: UnsignedTx = UnsignedTx { version: TX_VERSION, lock_time: 0, inputs, outputs };
    proof {
        assert(tx@.inputs =~= Seq::new(
            spend@.inputs.len(),
            |i: int| TxInput { previous_output: spend@.inputs[i], sequence: TX_SEQUENCE },
        ));
        assert(payments =~= Seq::new(
            spend@.outputs.len(),
            |i: int|
                TxOutView {
                    value: spend@.outputs[i].amount_sats,
                    script_pubkey: paid[i]->Ok_0,
                },
        ));
        assert(tx@.outputs =~= tx_outputs(spend@, paid, change_view(*change)));
    }
    Some(Ok(tx))
}

/// The script to which a descriptor pays at an index, or why it has no keys there.
pub uninterp spec fn descriptor_script(descriptor: DescriptorView, index: u32) -> Result<
    Seq<u8>,
    Seq<char>,
>;

/// `miniscript::Descriptor::at_derivation_index` on a descriptor read from a text, then
/// `script_pubkey` of what it gives.
#[verifier::external_body]
pub(crate) fn script_at(source: &str, index: u32) -> (r: Result<Vec<u8>, String>)
    ensures
        match canonical_descriptor(source@) {
            Ok(d) => script_view(r) == descriptor_script(d, index),
            Err(e) => script_view(r) == Err::<Seq<u8>, Seq<char>>(e),
        },
{
    match source.parse::<miniscript::Descriptor<miniscript::DescriptorPublicKey>>() {
        Err(e) => Err(e.to_string()),
        Ok(d) => match d.at_derivation_index(index) {
            Err(e) => Err(e.to_string()),
            Ok(d) => Ok(d.script_pubkey().into_bytes()),
        },
    }
}

/// What the descriptor says of the coin of each input; nothing where there is no coin.
pub open spec fn input_scripts(
    inputs: Seq<OutPointRef>,
    funding: Seq<FundingView>,
    descriptor: DescriptorView,
) -> Seq<Result<Seq<u8>, Seq<char>>> {
    Seq::new(
        inputs.len(),
        |i: int|
            match find_funding(funding, inputs[i]) {
                Some(f) => descriptor_script(descriptor, f.derivation_index),
                None => Ok(Seq::empty()),
            },
    )
}

/// The script of the address of each output.
pub open spec fn output_scripts(outputs: Seq<SpendOutputView>, network: Network) -> Seq<
    Result<Seq<u8>, Seq<char>>,
> {
    Seq::new(outputs.len(), |i: int| address_script(outputs[i].address, network))
}

/// What the descriptor says of the change.
pub open spec fn change_script(change: Option<ChangeOutput>, descriptor: DescriptorView) -> Option<
    Result<Seq<u8>, Seq<char>>,
> {
    match change {
        Some(c) => Some(descriptor_script(descriptor, c.derivation_index)),
        None => None,
    }
}

/// Where no input is at fault, there is a coin for each.
pub proof fn lemma_inputs_good(
    inputs: Seq<OutPointRef>,
    funding: Seq<FundingView>,
    derived: Seq<Result<Seq<u8>, Seq<char>>>,
    n: nat,
)
    requires
        inputs_fault(inputs, funding, derived, n) is None,
    ensures
        forall|i: int| 0 <= i < n ==> find_funding(funding, #[trigger] inputs[i]) is Some,
    decreases n,
{
    if n > 0 {
        lemma_inputs_good(inputs, funding, derived, (n - 1) as nat);
    }
}

/// What the descriptor says of the coin of each input.
pub(crate) fn derive_inputs(spend: &SpendSpec, funding: &[FundingUtxo], descriptor: &Descriptor) -> (r: Vec<
    Result<Vec<u8>, String>,
>)
    ensures
        script_views(r@) == input_scripts(spend@.inputs, funding_views(funding@), descriptor@),
{
    let ghost wanted = input_scripts(spend@.inputs, funding_views(funding@), descriptor@);
    let mut r: Vec<Result<Vec<u8>, String>> = Vec::new();
    let mut i: usize = 0;
    while i < spend.inputs.len()
        invariant
            i <= spend.inputs@.len(),
            r@.len() == i,
            wanted == input_scripts(spend@.inputs, funding_views(funding@), descriptor@),
            script_views(r@) =~= wanted.take(i as int),
        decreases spend.inputs@.len() - i,
    {
        let ghost before = script_views(r@);
        let script: Result<Vec<u8>, String> = match funding_for(funding, &spend.inputs[i]) {
            Some(coin) => script_at(descriptor.source(), coin.derivation_index),
            None => Ok(Vec::new()),
        };
        proof {
            if find_funding(funding_views(funding@), spend@.inputs[i as int]) is None {
                assert(script_view(script)->Ok_0 =~= Seq::<u8>::empty());
            }
        }
        r.push(script);
        assert(script_views(r@) =~= before.push(wanted[i as int]));
        i += 1;
    }
    assert(script_views(r@) =~= wanted);
    r
}

/// The script of the address of each output.
pub(crate) fn output_scripts_of(spend: &SpendSpec, network: Network) -> (r: Vec<Result<Vec<u8>, String>>)
    ensures
        script_views(r@) == output_scripts(spend@.outputs, network),
{
    let ghost wanted = output_scripts(spend@.outputs, network);
    let mut r: Vec<Result<Vec<u8>, String>> = Vec::new();
    let mut i: usize = 0;
    while i < spend.outputs.len()
        invariant
            i <= spend.outputs@.len(),
            r@.len() == i,
            wanted == output_scripts(spend@.outputs, network),
            script_views(r@) =~= wanted.take(i as int),
        decreases spend.outputs@.len() - i,
    {
        let ghost before = script_views(r@);
        r.push(script_for(spend.outputs[i].address.as_str(), network));
        assert(script_views(r@) =~= before.push(wanted[i as int]));
        i += 1;
    }
    assert(script_views(r@) =~= wanted);
    r
}

/// What the first `n` outputs of a transaction pay together.
pub open spec fn txouts_total(outputs: Seq<TxOutView>, n: nat) -> nat
    decreases n,
{
    if n == 0 {
        0
    } else {
        txouts_total(outputs, (n - 1) as nat) + outputs[n - 1].value as nat
    }
}

/// The payments of a spend are those of its transaction.
proof fn lemma_payments_total(outputs: Seq<SpendOutputView>, paid: Seq<TxOutView>, n: nat)
    requires
        n <= outputs.len(),
        n <= paid.len(),
        forall|i: int| 0 <= i < n ==> (#[trigger] paid[i]).value == outputs[i].amount_sats,
    ensures
        txouts_total(paid, n) == outputs_total(outputs, n),
    decreases n,
{
    if n > 0 {
        lemma_payments_total(outputs, paid, (n - 1) as nat);
    }
}

/// Nothing is lost and nothing appears: what a transaction spends is what it pays and the fee.
/// Its inputs are those of the spend in their order, replaceable, and its outputs are the
/// payments in their order, then the change.
pub proof fn law_transaction_balances(
    spend: SpendSpecView,
    funding: Seq<FundingView>,
    derived: Seq<Result<Seq<u8>, Seq<char>>>,
    scripts: Seq<Result<Seq<u8>, Seq<char>>>,
    change: Option<Result<Seq<u8>, Seq<char>>>,
)
    requires
        transaction_outcome(spend, funding, derived, scripts, change) is Ok,
    ensures
        ({
            let tx = transaction_outcome(spend, funding, derived, scripts, change)->Ok_0;
            &&& funded_total(spend.inputs, funding, spend.inputs.len()) == txouts_total(
                tx.outputs,
                tx.outputs.len(),
            ) + spend.fee_sats as nat
            &&& tx.inputs.len() == spend.inputs.len()
            &&& forall|i: int|
                0 <= i < tx.inputs.len() ==> (#[trigger] tx.inputs[i]).previous_output
                    == spend.inputs[i] && tx.inputs[i].sequence == TX_SEQUENCE && find_funding(
                    funding,
                    spend.inputs[i],
                ) is Some
            &&& tx.outputs.len() == spend.outputs.len() + if spend.change_output is Some {
                1int
            } else {
                0int
            }
        }),
{
    let tx = transaction_outcome(spend, funding, derived, scripts, change)->Ok_0;
    let n = spend.outputs.len();
    lemma_inputs_good(spend.inputs, funding, derived, spend.inputs.len());
    lemma_payments_total(spend.outputs, tx.outputs, n);
}

} // verus!
