//! Addresses, and the scripts that they stand for.

use vstd::prelude::*;

use crate::primitives::Network;
use crate::psbt::codec::encode_chunk;

verus! {

/// An address, as its canonical text. Which network it is meant for is tested when it is used.
#[derive(Debug)]
pub struct Address {
    text: String,
}

impl View for Address {
    type V = Seq<char>;

    closed spec fn view(&self) -> Seq<char> {
        self.text@
    }
}

/// The canonical text of an address, or why the text is none.
pub uninterp spec fn canonical_address(text: Seq<char>) -> Result<Seq<char>, Seq<char>>;

/// `bitcoin::Address`: read from text by `from_str` without regard to the network, written by
/// `to_string`. What is written is read as the same address.
#[verifier::external_body]
fn read_address(text: &str) -> (r: Result<String, String>)
    ensures
        match r {
            Ok(t) => {
                &&& canonical_address(text@) == Ok::<Seq<char>, Seq<char>>(t@)
                &&& canonical_address(t@) == Ok::<Seq<char>, Seq<char>>(t@)
            },
            Err(e) => canonical_address(text@) == Err::<Seq<char>, Seq<char>>(e@),
        },
{
    match text.parse::<bitcoin::Address<bitcoin::address::NetworkUnchecked>>() {
        Ok(address) => Ok(address.assume_checked().to_string()),
        Err(e) => Err(e.to_string()),
    }
}

impl Address {
    /// The text is canonical.
    #[verifier::type_invariant]
    spec fn canonical(self) -> bool {
        canonical_address(self.text@) == Ok::<Seq<char>, Seq<char>>(self.text@)
    }

    /// Reads an address from its text.
    pub fn from_str(s: &str) -> (r: Result<Self, String>)
        ensures
            match r {
                Ok(a) => canonical_address(s@) == Ok::<Seq<char>, Seq<char>>(a@),
                Err(e) => canonical_address(s@) == Err::<Seq<char>, Seq<char>>(e@),
            },
    {
        match read_address(s) {
            Ok(text) => Ok(Address { text }),
            Err(e) => Err(e),
        }
    }

    /// The text of the address.
    pub fn as_str(&self) -> (r: &str)
        ensures
            r@ == self@,
    {
        self.text.as_str()
    }

    /// The text of the address. Reading it gives the address back.
    pub fn to_string(&self) -> (r: String)
        ensures
            r@ == self@,
            canonical_address(r@) == Ok::<Seq<char>, Seq<char>>(self@),
    {
        proof {
            use_type_invariant(self);
        }
        self.text.clone()
    }
}

impl Clone for Address {
    fn clone(&self) -> (r: Self)
        ensures
            r@ == self@,
    {
        proof {
            use_type_invariant(self);
        }
        Address { text: self.text.clone() }
    }
}

impl PartialEq for Address {
    fn eq(&self, other: &Self) -> (r: bool) {
        self.text == other.text
    }
}

impl vstd::std_specs::cmp::PartialEqSpecImpl for Address {
    open spec fn obeys_eq_spec() -> bool {
        true
    }

    open spec fn eq_spec(&self, other: &Self) -> bool {
        self@ == other@
    }
}

/// The script to which an address pays on a network, or why it is no address of that network.
pub uninterp spec fn address_script(text: Seq<char>, network: Network) -> Result<
    Seq<u8>,
    Seq<char>,
>;

/// `bitcoin::Address::require_network` on an address read from its text, then its
/// `script_pubkey`. Such a script is a witness program of at most 40 bytes behind two bytes, or
/// one of the two older forms of 23 and 25 bytes.
#[verifier::external_body]
pub(crate) fn script_for(text: &str, network: Network) -> (r: Result<Vec<u8>, String>)
    ensures
        match r {
            Ok(s) => address_script(text@, network) == Ok::<Seq<u8>, Seq<char>>(s@) && s@.len()
                <= 42,
            Err(e) => address_script(text@, network) == Err::<Seq<u8>, Seq<char>>(e@),
        },
{
    let network = match network {
        Network::Bitcoin => bitcoin::Network::Bitcoin,
        Network::Testnet => bitcoin::Network::Testnet,
        Network::Testnet4 => bitcoin::Network::Testnet4,
        Network::Signet => bitcoin::Network::Signet,
        Network::Regtest => bitcoin::Network::Regtest,
    };
    match text.parse::<bitcoin::Address<bitcoin::address::NetworkUnchecked>>() {
        Err(e) => Err(e.to_string()),
        Ok(address) => match address.require_network(network) {
            Err(e) => Err(e.to_string()),
            Ok(address) => Ok(address.script_pubkey().into_bytes()),
        },
    }
}

/// Whether a script is a witness program: a version, the length of the program, and the program
/// of 2 to 40 bytes.
pub open spec fn is_witness_program(script: Seq<u8>) -> bool {
    &&& 4 <= script.len() <= 42
    &&& script[0] == 0 || 0x51 <= script[0] <= 0x60
    &&& script[1] == script.len() - 2
}

/// The least amount, in sats, that an output with a script should have to be relayed: three sats
/// for each byte of the output and of the input that spends it. An output that can never be
/// spent needs none.
pub open spec fn dust_limit(script: Seq<u8>) -> nat {
    let output = 8 + encode_chunk(script).len();
    let input: nat = if is_witness_program(script) {
        67
    } else {
        148
    };
    if script.len() > 0 && script[0] == 0x6a {
        0
    } else {
        3 * (output + input)
    }
}

/// `bitcoin::Script::minimal_non_dust`: the dust limit at three sats per byte, which is zero for
/// scripts that start with `OP_RETURN`. It multiplies the size of the script, and panics on
/// scripts of absurd length.
#[verifier::external_body]
pub(crate) fn minimal_non_dust(script: &[u8]) -> (r: u64)
    requires
        script@.len() <= 10_000,
    ensures
        r == dust_limit(script@),
{
    bitcoin::Script::from_bytes(script).minimal_non_dust().to_sat()
}

} // verus!
