//! What crosses the interface to clients: texts and encoded bytes.

use vstd::prelude::*;

use base64::Engine;

use crate::address::{canonical_address, Address};
use crate::hex::{all_digits, all_small_digits, hex_text, law_hex_round_trip, of_hex, to_hex};
use crate::primitives::{
    lemma_txid_of, txid_of, DescriptorFingerprint, Txid, UserId, WalletId,
};
use crate::psbt_session::primitives::{
    ChangeOutput, OutPointRef, SpendOutput, SpendOutputView, SpendSpec, SpendSpecView,
};
use crate::wallet::descriptor::{descriptor_key, reads_as, DescriptorPublicKey};

verus! {

/// Bytes in base64, with the standard alphabet and padding.
pub uninterp spec fn base64_text(bytes: Seq<u8>) -> Seq<char>;

/// The bytes that a base64 text stands for, or why it stands for none.
pub uninterp spec fn base64_bytes(text: Seq<char>) -> Result<Seq<u8>, Seq<char>>;

/// `base64::engine::general_purpose::STANDARD.encode`. The same engine decodes the text to the
/// bytes again.
#[verifier::external_body]
fn encode_base64(bytes: &[u8]) -> (r: String)
    ensures
        r@ == base64_text(bytes@) && match base64_bytes(r@) {
            Ok(b) => b == bytes@,
            Err(_) => false,
        },
{
    base64::engine::general_purpose::STANDARD.encode(bytes)
}

/// `base64::engine::general_purpose::STANDARD.decode`.
#[verifier::external_body]
fn decode_base64(text: &str) -> (r: Result<Vec<u8>, String>)
    ensures
        match r {
            Ok(b) => base64_bytes(text@) == Ok::<Seq<u8>, Seq<char>>(b@),
            Err(e) => base64_bytes(text@) == Err::<Seq<u8>, Seq<char>>(e@),
        },
{
    base64::engine::general_purpose::STANDARD.decode(text).map_err(|e| e.to_string())
}

/// Bytes that cross the interface as base64 text.
#[derive(Debug)]
pub struct Base64(pub Vec<u8>);

/// What a decoded text, or the reason why it could not be decoded, is answered.
pub open spec fn payload_outcome(decoded: Result<Seq<u8>, Seq<char>>) -> Result<
    Seq<u8>,
    Seq<char>,
> {
    match decoded {
        Ok(b) => Ok(b),
        Err(e) => Err("invalid base64: "@ + e),
    }
}

impl Base64 {
    /// Takes decoded bytes, or words the reason why there are none.
    pub fn from_decoded(decoded: Result<Vec<u8>, String>) -> (r: Result<Self, String>)
        ensures
            ({
                let d: Result<Seq<u8>, Seq<char>> = match decoded {
                    Ok(b) => Ok(b@),
                    Err(e) => Err(e@),
                };
                match r {
                    Ok(b) => payload_outcome(d) == Ok::<Seq<u8>, Seq<char>>(b.0@),
                    Err(e) => payload_outcome(d) == Err::<Seq<u8>, Seq<char>>(e@),
                }
            }),
    {
        match decoded {
            Ok(b) => Ok(Base64(b)),
            Err(e) => {
                let mut words: String = "invalid base64: ".to_string();
                words.append(e.as_str());
                Err(words)
            },
        }
    }

    /// Reads bytes from their text.
    pub fn parse(text: &str) -> (r: Result<Self, String>)
        ensures
            match r {
                Ok(b) => payload_outcome(base64_bytes(text@)) == Ok::<Seq<u8>, Seq<char>>(b.0@),
                Err(e) => payload_outcome(base64_bytes(text@)) == Err::<Seq<u8>, Seq<char>>(e@),
            },
    {
        Base64::from_decoded(decode_base64(text))
    }

    /// The bytes as text. Reading the text gives the bytes back.
    pub fn to_text(&self) -> (r: String)
        ensures
            r@ == base64_text(self.0@),
            base64_bytes(r@) == Ok::<Seq<u8>, Seq<char>>(self.0@),
    {
        encode_base64(self.0.as_slice())
    }
}

/// Whether a text is that of a transaction id: 64 hexadecimal digits.
pub open spec fn is_txid_text(text: Seq<char>) -> bool {
    text.len() == 64 && all_digits(text)
}

/// The bytes of a transaction id, which its text gives from the last to the first.
pub open spec fn txid_bytes(text: Seq<char>) -> Seq<u8> {
    of_hex(text).reverse()
}

/// Why a text is no transaction id, in words.
pub uninterp spec fn txid_error(text: Seq<char>) -> Seq<char>;

/// `bitcoin::Txid`, read from text by `from_str`: 64 hexadecimal digits for its bytes, from the
/// last to the first. Of the error its words are kept.
#[verifier::external_body]
fn read_txid(text: &str) -> (r: Result<[u8; 32], String>)
    ensures
        match r {
            Ok(b) => is_txid_text(text@) && b@ == txid_bytes(text@),
            Err(e) => !is_txid_text(text@) && e@ == txid_error(text@),
        },
{
    match text.parse::<bitcoin::Txid>() {
        Ok(txid) => Ok(bitcoin::hashes::Hash::to_byte_array(txid)),
        Err(e) => Err(e.to_string()),
    }
}

/// What an id in text form is read as.
pub open spec fn txid_outcome(text: Seq<char>) -> Result<Txid, Seq<char>> {
    if is_txid_text(text) {
        Ok(txid_of(txid_bytes(text)))
    } else {
        Err(txid_error(text))
    }
}

/// The text of an id is read back as that id.
pub proof fn law_txid_text_round_trip(txid: Txid)
    ensures
        txid_outcome(to_hex(txid@.reverse())) == Ok::<Txid, Seq<char>>(txid),
{
    law_hex_round_trip(txid@.reverse());
    assert(txid@.reverse().reverse() =~= txid@);
    lemma_txid_of(txid);
}

impl Txid {
    /// Reads an id from its text.
    pub fn from_str(s: &str) -> (r: Result<Self, String>)
        ensures
            match r {
                Ok(t) => is_txid_text(s@) && t@ == txid_bytes(s@),
                Err(e) => !is_txid_text(s@) && e@ == txid_error(s@),
            },
    {
        match read_txid(s) {
            Ok(b) => Ok(Txid(b)),
            Err(e) => Err(e),
        }
    }

    /// The id as text: its bytes from the last to the first, as small hexadecimal digits.
    pub fn to_string(&self) -> (r: String)
        ensures
            r@ == to_hex(self@.reverse()),
    {
        let mut reversed: Vec<u8> = Vec::new();
        let mut i: usize = 32;
        while i > 0
            invariant
                i <= 32,
                reversed@.len() == 32 - i,
                forall|j: int| 0 <= j < 32 - i ==> reversed@[j] == self@[31 - j],
            decreases i,
        {
            i -= 1;
            reversed.push(self.0[i]);
        }
        assert(reversed@ =~= self@.reverse());
        hex_text(reversed.as_slice())
    }
}

/// A coin, as a client names it.
#[derive(Debug)]
pub struct SpendOutPointInput {
    pub txid: String,
    pub vout: u32,
}

/// A payment, as a client asks for it.
#[derive(Debug)]
pub struct SpendOutputInput {
    pub address: String,
    pub amount_sats: u64,
}

/// A spend, as a client proposes it.
#[derive(Debug)]
pub struct SpendProposeInput {
    pub wallet_id: WalletId,
    pub inputs: Vec<SpendOutPointInput>,
    pub outputs: Vec<SpendOutputInput>,
    pub fee_sats: u64,
    pub change_output: Option<ChangeOutput>,
}

/// The answer to a text that could not be read: what it should be, the text and the reason.
pub open spec fn invalid(what: Seq<char>, text: Seq<char>, reason: Seq<char>) -> Seq<char> {
    what + text + "': "@ + reason
}

/// The first of the first `n` texts that could not be read, as the answer to it.
pub open spec fn first_invalid<T>(
    what: Seq<char>,
    texts: Seq<Seq<char>>,
    read: Seq<Result<T, Seq<char>>>,
    n: nat,
) -> Option<Seq<char>>
    decreases n,
{
    if n == 0 {
        None
    } else {
        match first_invalid(what, texts, read, (n - 1) as nat) {
            Some(e) => Some(e),
            None => match read[n - 1] {
                Ok(_) => None,
                Err(reason) => Some(invalid(what, texts[n - 1], reason)),
            },
        }
    }
}

/// The texts of the coins.
pub open spec fn txid_texts(inputs: Seq<SpendOutPointInput>) -> Seq<Seq<char>> {
    Seq::new(inputs.len(), |i: int| inputs[i].txid@)
}

/// The texts of the addresses.
pub open spec fn address_texts(outputs: Seq<SpendOutputInput>) -> Seq<Seq<char>> {
    Seq::new(outputs.len(), |i: int| outputs[i].address@)
}

/// What a proposal comes to, given what its texts were read as: all ids come before all
/// addresses.
pub open spec fn proposal_outcome(
    p: SpendProposeInput,
    txids: Seq<Result<Txid, Seq<char>>>,
    addresses: Seq<Result<Seq<char>, Seq<char>>>,
) -> Result<SpendSpecView, Seq<char>> {
    match first_invalid("invalid txid '"@, txid_texts(p.inputs@), txids, p.inputs@.len()) {
        Some(e) => Err(e),
        None => match first_invalid(
            "invalid address '"@,
            address_texts(p.outputs@),
            addresses,
            p.outputs@.len(),
        ) {
            Some(e) => Err(e),
            None => Ok(
                SpendSpecView {
                    inputs: Seq::new(
                        p.inputs@.len(),
                        |i: int| OutPointRef { txid: txids[i]->Ok_0, vout: p.inputs@[i].vout },
                    ),
                    outputs: Seq::new(
                        p.outputs@.len(),
                        |i: int|
                            SpendOutputView {
                                address: addresses[i]->Ok_0,
                                amount_sats: p.outputs@[i].amount_sats,
                            },
                    ),
                    fee_sats: p.fee_sats,
                    change_output: p.change_output,
                },
            ),
        },
    }
}

/// The first text that could not be read is the first of all.
proof fn lemma_first_invalid<T>(
    what: Seq<char>,
    texts: Seq<Seq<char>>,
    read: Seq<Result<T, Seq<char>>>,
    n: nat,
    m: nat,
)
    requires
        n <= m,
        first_invalid(what, texts, read, n) is Some,
    ensures
        first_invalid(what, texts, read, m) == first_invalid(what, texts, read, n),
    decreases m,
{
    if n < m {
        lemma_first_invalid(what, texts, read, n, (m - 1) as nat);
    }
}

/// What ids were read as.
pub open spec fn read_txids(read: Seq<Result<Txid, String>>) -> Seq<Result<Txid, Seq<char>>> {
    Seq::new(
        read.len(),
        |i: int|
            match read[i] {
                Ok(t) => Ok::<Txid, Seq<char>>(t),
                Err(e) => Err::<Txid, Seq<char>>(e@),
            },
    )
}

/// What addresses were read as.
pub open spec fn read_addresses(read: Seq<Result<Address, String>>) -> Seq<
    Result<Seq<char>, Seq<char>>,
> {
    Seq::new(
        read.len(),
        |i: int|
            match read[i] {
                Ok(a) => Ok::<Seq<char>, Seq<char>>(a@),
                Err(e) => Err::<Seq<char>, Seq<char>>(e@),
            },
    )
}

/// The answer to a text that could not be read.
fn invalid_text(what: &str, text: &str, reason: &str) -> (r: String)
    ensures
        r@ == invalid(what@, text@, reason@),
{
    let mut words: String = what.to_string();
    words.append(text);
    words.append("': ");
    words.append(reason);
    words
}

impl SpendProposeInput {
    /// The spend that is proposed, given what its texts were read as.
    pub fn into_spec(
        self,
        txids: Vec<Result<Txid, String>>,
        addresses: Vec<Result<Address, String>>,
    ) -> (r: Result<(WalletId, SpendSpec), String>)
        requires
            txids@.len() == self.inputs@.len(),
            addresses@.len() == self.outputs@.len(),
        ensures
            match r {
                Ok((id, spend)) => id == self.wallet_id && proposal_outcome(
                    self,
                    read_txids(txids@),
                    read_addresses(addresses@),
                ) == Ok::<SpendSpecView, Seq<char>>(spend@),
                Err(e) => proposal_outcome(self, read_txids(txids@), read_addresses(addresses@))
                    == Err::<SpendSpecView, Seq<char>>(e@),
            },
    {
        let ghost ids = read_txids(txids@);
        let ghost places = read_addresses(addresses@);
        let ghost id_texts = txid_texts(self.inputs@);
        let ghost place_texts = address_texts(self.outputs@);
        let mut inputs: Vec<OutPointRef> = Vec::new();
        let mut i: usize = 0;
        while i < self.inputs.len()
            invariant
                i <= self.inputs@.len(),
                txids@.len() == self.inputs@.len(),
                ids == read_txids(txids@),
                id_texts == txid_texts(self.inputs@),
                first_invalid("invalid txid '"@, id_texts, ids, i as nat) is None,
                inputs@.len() == i,
                forall|j: int|
                    0 <= j < i ==> inputs@[j] == (OutPointRef {
                        txid: ids[j]->Ok_0,
                        vout: self.inputs@[j].vout,
                    }),
            decreases self.inputs@.len() - i,
        {
            match &txids[i] {
                Ok(txid) => {
                    assert(ids[i as int] == Ok::<Txid, Seq<char>>(*txid));
                    inputs.push(OutPointRef { txid: *txid, vout: self.inputs[i].vout });
                },
                Err(e) => {
                    proof {
                        assert(ids[i as int] == Err::<Txid, Seq<char>>(e@));
                        lemma_first_invalid(
                            "invalid txid '"@,
                            id_texts,
                            ids,
                            (i + 1) as nat,
                            self.inputs@.len(),
                        );
                    }
                    return Err(
                        invalid_text("invalid txid '", self.inputs[i].txid.as_str(), e.as_str()),
                    );
                },
            }
            i += 1;
        }
        let mut outputs: Vec<SpendOutput> = Vec::new();
        let mut k: usize = 0;
        while k < self.outputs.len()
            invariant
                k <= self.outputs@.len(),
                addresses@.len() == self.outputs@.len(),
                ids == read_txids(txids@),
                id_texts == txid_texts(self.inputs@),
                first_invalid("invalid txid '"@, id_texts, ids, self.inputs@.len()) is None,
                places == read_addresses(addresses@),
                place_texts == address_texts(self.outputs@),
                first_invalid("invalid address '"@, place_texts, places, k as nat) is None,
                outputs@.len() == k,
                forall|j: int|
                    0 <= j < k ==> (#[trigger] outputs@[j])@ == (SpendOutputView {
                        address: places[j]->Ok_0,
                        amount_sats: self.outputs@[j].amount_sats,
                    }),
            decreases self.outputs@.len() - k,
        {
            match &addresses[k] {
                Ok(address) => {
                    assert(places[k as int] == Ok::<Seq<char>, Seq<char>>(address@));
                    outputs.push(
                        SpendOutput {
                            address: address.clone(),
                            amount_sats: self.outputs[k].amount_sats,
                        },
                    );
                },
                Err(e) => {
                    proof {
                        assert(places[k as int] == Err::<Seq<char>, Seq<char>>(e@));
                        lemma_first_invalid(
                            "invalid address '"@,
                            place_texts,
                            places,
                            (k + 1) as nat,
                            self.outputs@.len(),
                        );
                    }
                    return Err(
                        invalid_text(
                            "invalid address '",
                            self.outputs[k].address.as_str(),
                            e.as_str(),
                        ),
                    );
                },
            }
            k += 1;
        }
        let spend: SpendSpec = SpendSpec {
            inputs,
            outputs,
            fee_sats: self.fee_sats,
            change_output: self.change_output,
        };
        proof {
            assert(spend@.inputs =~= Seq::new(
                self.inputs@.len(),
                |i: int| OutPointRef { txid: ids[i]->Ok_0, vout: self.inputs@[i].vout },
            ));
            assert(spend@.outputs =~= Seq::new(
                self.outputs@.len(),
                |i: int|
                    SpendOutputView {
                        address: places[i]->Ok_0,
                        amount_sats: self.outputs@[i].amount_sats,
                    },
            ));
        }
        Ok((self.wallet_id, spend))
    }

    /// Reads the texts of a proposal: the wallet and the spend, or the answer to the first text
    /// that cannot be read.
    pub fn into_wallet_and_spec(self) -> (r: Result<(WalletId, SpendSpec), String>)
        ensures
            ({
                let txids = txid_texts(self.inputs@).map_values(
                    |t: Seq<char>| txid_outcome(t),
                );
                let addresses = address_texts(self.outputs@).map_values(
                    |t: Seq<char>| canonical_address(t),
                );
                match r {
                    Ok((id, spend)) => id == self.wallet_id && proposal_outcome(
                        self,
                        txids,
                        addresses,
                    ) == Ok::<SpendSpecView, Seq<char>>(spend@),
                    Err(e) => proposal_outcome(self, txids, addresses) == Err::<
                        SpendSpecView,
                        Seq<char>,
                    >(e@),
                }
            }),
    {
        let ghost wanted_ids = txid_texts(self.inputs@).map_values(
            |t: Seq<char>| txid_outcome(t),
        );
        let ghost wanted_places = address_texts(self.outputs@).map_values(
            |t: Seq<char>| canonical_address(t),
        );
        let mut txids: Vec<Result<Txid, String>> = Vec::new();
        let mut i: usize = 0;
        while i < self.inputs.len()
            invariant
                i <= self.inputs@.len(),
                txids@.len() == i,
                wanted_ids == txid_texts(self.inputs@).map_values(|t: Seq<char>| txid_outcome(t)),
                read_txids(txids@) =~= wanted_ids.take(i as int),
            decreases self.inputs@.len() - i,
        {
            let ghost before = read_txids(txids@);
            let read: Result<Txid, String> = Txid::from_str(self.inputs[i].txid.as_str());
            proof {
                if let Ok(t) = read {
                    lemma_txid_of(t);
                }
            }
            txids.push(read);
            assert(read_txids(txids@) =~= before.push(wanted_ids[i as int]));
            i += 1;
        }
        let mut addresses: Vec<Result<Address, String>> = Vec::new();
        let mut k: usize = 0;
        while k < self.outputs.len()
            invariant
                k <= self.outputs@.len(),
                addresses@.len() == k,
                wanted_places == address_texts(self.outputs@).map_values(
                    |t: Seq<char>| canonical_address(t),
                ),
                read_addresses(addresses@) =~= wanted_places.take(k as int),
            decreases self.outputs@.len() - k,
        {
            let ghost before = read_addresses(addresses@);
            addresses.push(Address::from_str(self.outputs[k].address.as_str()));
            assert(read_addresses(addresses@) =~= before.push(wanted_places[k as int]));
            k += 1;
        }
        assert(read_txids(txids@) =~= wanted_ids);
        assert(read_addresses(addresses@) =~= wanted_places);
        self.into_spec(txids, addresses)
    }
}

/// The number that a UUID in text form stands for, if the text is one.
pub uninterp spec fn uuid_value(text: Seq<char>) -> Option<u128>;

/// `uuid::Uuid::parse_str`, with the number that the UUID is.
#[verifier::external_body]
fn read_uuid(text: &str) -> (r: Option<u128>)
    ensures
        r == uuid_value(text@),
{
    uuid::Uuid::parse_str(text).ok().map(|u| u.as_u128())
}

/// The answer to a request that does not say who makes it.
pub const NO_USER: &'static str = "Missing or invalid x-user-id header";

/// Who makes a request, given what the header that says so was read as.
pub fn user_from_read(read: Option<u128>) -> (r: Result<UserId, &'static str>)
    ensures
        match r {
            Ok(u) => read == Some(u.0),
            Err(e) => read is None && e@ == NO_USER@,
        },
{
    match read {
        Some(n) => Ok(UserId(n)),
        None => Err(NO_USER),
    }
}

/// Who makes a request: the user whose id is in the header, where there is one that is a UUID.
pub fn acting_user(header: Option<&str>) -> (r: Result<UserId, &'static str>)
    ensures
        ({
            let read: Option<u128> = match header {
                Some(h) => uuid_value(h@),
                None => None,
            };
            match r {
                Ok(u) => read == Some(u.0),
                Err(e) => read is None && e@ == NO_USER@,
            }
        }),
{
    let read: Option<u128> = match header {
        Some(h) => read_uuid(h),
        None => None,
    };
    user_from_read(read)
}

/// Reads a keystore that a client submits, or words the reason why it cannot be read.
pub fn parse_keystore(text: &str) -> (r: Result<DescriptorPublicKey, String>)
    ensures
        match r {
            Ok(k) => reads_as(text@, k@),
            Err(e) => match descriptor_key(text@) {
                Ok(_) => false,
                Err(reason) => e@ == "invalid keystore: "@ + reason,
            },
        },
{
    match DescriptorPublicKey::from_str(text) {
        Ok(k) => Ok(k),
        Err(reason) => {
            let mut words: String = "invalid keystore: ".to_string();
            words.append(reason.as_str());
            Err(words)
        },
    }
}

/// The answer to a text that is no descriptor fingerprint.
pub const NO_FINGERPRINT: &'static str =
    "invalid descriptor fingerprint: expected 64 lowercase hex characters";

/// Reads a descriptor fingerprint by which a client asks for a wallet.
pub fn parse_descriptor_fingerprint(text: &str) -> (r: Result<
    DescriptorFingerprint,
    &'static str,
>)
    ensures
        match r {
            Ok(f) => text@.len() == 64 && all_small_digits(text@) && f@ == of_hex(text@),
            Err(e) => (text@.len() != 64 || !all_small_digits(text@)) && e@ == NO_FINGERPRINT@,
        },
{
    match DescriptorFingerprint::from_str(text) {
        Ok(f) => Ok(f),
        Err(_) => Err(NO_FINGERPRINT),
    }
}

/// The first text that cannot be read, if any, is the answer.
proof fn lemma_first_unreadable<T>(
    what: Seq<char>,
    texts: Seq<Seq<char>>,
    read: Seq<Result<T, Seq<char>>>,
    n: nat,
    k: int,
)
    ensures
        first_invalid(what, texts, read, n) is None <==> forall|j: int|
            0 <= j < n ==> (#[trigger] read[j]) is Ok,
        0 <= k < n && read[k] is Err && (forall|j: int| 0 <= j < k ==> (#[trigger] read[j]) is Ok)
            ==> first_invalid(what, texts, read, n) == Some(
            what + texts[k] + "': "@ + read[k]->Err_0,
        ),
    decreases n,
{
    if n > 0 {
        lemma_first_unreadable(what, texts, read, (n - 1) as nat, k);
    }
}

/// A proposal of a client is taken as it stands: coin by coin the id that was read and the index
/// that was given, payment by payment the address that was read and the amount that was given, the
/// fee and the change. It is refused exactly where a text cannot be read, and the answer names the
/// first such text, ids before addresses, with the reason.
pub proof fn law_proposal_is_taken_as_it_stands(
    p: SpendProposeInput,
    txids: Seq<Result<Txid, Seq<char>>>,
    addresses: Seq<Result<Seq<char>, Seq<char>>>,
    k: int,
)
    requires
        txids.len() == p.inputs@.len(),
        addresses.len() == p.outputs@.len(),
    ensures
        ({
            let outcome = proposal_outcome(p, txids, addresses);
            if exists|j: int| 0 <= j < txids.len() && (#[trigger] txids[j]) is Err {
                &&& outcome is Err
                &&& 0 <= k < txids.len() && txids[k] is Err && (forall|j: int|
                    0 <= j < k ==> (#[trigger] txids[j]) is Ok) ==> outcome->Err_0
                    == "invalid txid '"@ + p.inputs@[k].txid@ + "': "@ + txids[k]->Err_0
            } else if exists|j: int| 0 <= j < addresses.len() && (#[trigger] addresses[j]) is Err {
                &&& outcome is Err
                &&& 0 <= k < addresses.len() && addresses[k] is Err && (forall|j: int|
                    0 <= j < k ==> (#[trigger] addresses[j]) is Ok) ==> outcome->Err_0
                    == "invalid address '"@ + p.outputs@[k].address@ + "': "@ + addresses[k]->Err_0
            } else {
                &&& outcome is Ok
                &&& {
                    let spend = outcome->Ok_0;
                    &&& spend.inputs.len() == p.inputs@.len()
                    &&& forall|i: int|
                        0 <= i < p.inputs@.len() ==> Ok::<Txid, Seq<char>>(
                            (#[trigger] spend.inputs[i]).txid,
                        ) == txids[i] && spend.inputs[i].vout == p.inputs@[i].vout
                    &&& spend.outputs.len() == p.outputs@.len()
                    &&& forall|i: int|
                        0 <= i < p.outputs@.len() ==> Ok::<Seq<char>, Seq<char>>(
                            (#[trigger] spend.outputs[i]).address,
                        ) == addresses[i] && spend.outputs[i].amount_sats
                            == p.outputs@[i].amount_sats
                    &&& spend.fee_sats == p.fee_sats
                    &&& spend.change_output == p.change_output
                }
            }
        }),
{
    lemma_first_unreadable(
        "invalid txid '"@,
        txid_texts(p.inputs@),
        txids,
        p.inputs@.len(),
        k,
    );
    lemma_first_unreadable(
        "invalid address '"@,
        address_texts(p.outputs@),
        addresses,
        p.outputs@.len(),
        k,
    );
}

/// Bytes that were decoded are taken as they are, and the reason why there are none is worded.
pub proof fn law_payload_is_taken_as_decoded(decoded: Result<Seq<u8>, Seq<char>>)
    ensures
        match decoded {
            Ok(b) => payload_outcome(decoded) == Ok::<Seq<u8>, Seq<char>>(b),
            Err(e) => payload_outcome(decoded) == Err::<Seq<u8>, Seq<char>>(
                "invalid base64: "@ + e,
            ),
        },
{
}

} // verus!
