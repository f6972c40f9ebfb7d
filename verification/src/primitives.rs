//! Identifiers and content addresses.

use vstd::prelude::*;

use crate::bytes::array_equal;
use crate::hex::{
    all_small_digits, hex_text, law_hex_round_trip, of_hex, small_hex_array, to_hex,
};
use crate::text::same_text;

verus! {

/// Identifies a signing session.
#[derive(Debug, Clone, Copy, PartialEq, Eq, Structural, Hash, PartialOrd, Ord)]
pub struct PsbtSessionId(pub u128);

/// Identifies a wallet.
#[derive(Debug, Clone, Copy, PartialEq, Eq, Structural, Hash, PartialOrd, Ord)]
pub struct WalletId(pub u128);

/// Identifies a user of the platform.
#[derive(Debug, Clone, Copy, PartialEq, Eq, Structural, Hash, PartialOrd, Ord)]
pub struct UserId(pub u128);

/// What a command did to the state it was given to.
#[derive(Debug)]
pub enum Idempotent<T> {
    /// It took effect now.
    Executed(T),
    /// It had taken effect before; nothing was changed.
    AlreadyApplied,
}

impl<T> Idempotent<T> {
    /// Whether the command took effect.
    pub fn did_execute(&self) -> (r: bool)
        ensures
            r == (self is Executed),
    {
        match self {
            Idempotent::Executed(_) => true,
            Idempotent::AlreadyApplied => false,
        }
    }

    /// Whether the command had taken effect before.
    pub fn was_already_applied(&self) -> (r: bool)
        ensures
            r == (self is AlreadyApplied),
    {
        match self {
            Idempotent::Executed(_) => false,
            Idempotent::AlreadyApplied => true,
        }
    }
}

/// The chain on which a wallet lives.
#[derive(Debug, Clone, Copy, PartialEq, Eq, Structural, Hash)]
pub enum Network {
    Bitcoin,
    Testnet,
    Testnet4,
    Signet,
    Regtest,
}

impl Network {
    /// The name that stands for the network in texts.
    pub open spec fn name_spec(self) -> Seq<char> {
        match self {
            Network::Bitcoin => "bitcoin"@,
            Network::Testnet => "testnet"@,
            Network::Testnet4 => "testnet4"@,
            Network::Signet => "signet"@,
            Network::Regtest => "regtest"@,
        }
    }

    /// The name that stands for the network in texts.
    pub fn name(&self) -> (r: &'static str)
        ensures
            r@ == self.name_spec(),
    {
        match self {
            Network::Bitcoin => "bitcoin",
            Network::Testnet => "testnet",
            Network::Testnet4 => "testnet4",
            Network::Signet => "signet",
            Network::Regtest => "regtest",
        }
    }

    /// The network with a name.
    pub fn from_name(name: &str) -> (r: Option<Self>)
        ensures
            match r {
                Some(n) => n.name_spec() == name@,
                None => forall|n: Network| (#[trigger] n.name_spec()) != name@,
            },
    {
        if same_text(name, "bitcoin") {
            Some(Network::Bitcoin)
        } else if same_text(name, "testnet") {
            Some(Network::Testnet)
        } else if same_text(name, "testnet4") {
            Some(Network::Testnet4)
        } else if same_text(name, "signet") {
            Some(Network::Signet)
        } else if same_text(name, "regtest") {
            Some(Network::Regtest)
        } else {
            None
        }
    }
}

/// The fingerprint of a signer's master key: the number whose four bytes it is, the most
/// significant first, so that fingerprints are ordered as their bytes are.
#[derive(Debug, Clone, Copy, PartialEq, Eq, Structural, Hash, PartialOrd, Ord)]
pub struct KeyFingerprint(pub u32);

/// The fingerprint that four bytes stand for.
pub open spec fn fingerprint_of(b: Seq<u8>) -> KeyFingerprint {
    KeyFingerprint(
        (b[0] as int * 0x100_0000 + b[1] as int * 0x1_0000 + b[2] as int * 0x100 + b[3] as int)
            as u32,
    )
}

impl KeyFingerprint {
    /// The fingerprint that four bytes stand for.
    pub fn from_bytes(b: [u8; 4]) -> (r: Self)
        ensures
            r == fingerprint_of(b@),
    {
        KeyFingerprint(
            b[0] as u32 * 0x100_0000 + b[1] as u32 * 0x1_0000 + b[2] as u32 * 0x100 + b[3] as u32,
        )
    }

    /// The bytes of the fingerprint.
    pub fn to_bytes(&self) -> (r: [u8; 4])
        ensures
            fingerprint_of(r@) == self,
    {
        [
            (self.0 / 0x100_0000) as u8,
            (self.0 / 0x1_0000 % 0x100) as u8,
            (self.0 / 0x100 % 0x100) as u8,
            (self.0 % 0x100) as u8,
        ]
    }

    /// The fingerprint as eight small hexadecimal digits.
    pub fn to_string(&self) -> (r: String)
        ensures
            exists|b: Seq<u8>|
                b.len() == 4 && fingerprint_of(b) == self && r@ == #[trigger] to_hex(b),
    {
        let b: [u8; 4] = self.to_bytes();
        let r: String = hex_text(b.as_slice());
        assert(fingerprint_of(b@) == self && r@ == to_hex(b@));
        r
    }
}

/// Different bytes are different fingerprints, so a fingerprint has one text only.
pub proof fn law_fingerprint_bytes_are_unique(a: Seq<u8>, b: Seq<u8>)
    requires
        a.len() == 4,
        b.len() == 4,
        fingerprint_of(a) == fingerprint_of(b),
    ensures
        a == b,
{
    lemma_base_256(
        a[0] as int,
        a[1] as int,
        a[2] as int,
        a[3] as int,
        b[0] as int,
        b[1] as int,
        b[2] as int,
        b[3] as int,
    );
    assert(a =~= b);
}

/// Four digits to the base 256 are determined by their number.
proof fn lemma_base_256(a0: int, a1: int, a2: int, a3: int, b0: int, b1: int, b2: int, b3: int)
    requires
        0 <= a0 < 256 && 0 <= a1 < 256 && 0 <= a2 < 256 && 0 <= a3 < 256,
        0 <= b0 < 256 && 0 <= b1 < 256 && 0 <= b2 < 256 && 0 <= b3 < 256,
        a0 * 0x100_0000 + a1 * 0x1_0000 + a2 * 0x100 + a3 == b0 * 0x100_0000 + b1 * 0x1_0000 + b2
            * 0x100 + b3,
    ensures
        a0 == b0 && a1 == b1 && a2 == b2 && a3 == b3,
{
}

/// The id of a transaction, as its 32 bytes.
#[derive(Debug, Clone, Copy, Eq, Hash, PartialOrd, Ord)]
pub struct Txid(pub [u8; 32]);

impl View for Txid {
    type V = Seq<u8>;

    open spec fn view(&self) -> Seq<u8> {
        self.0@
    }
}

impl PartialEq for Txid {
    fn eq(&self, other: &Self) -> (r: bool) {
        array_equal(&self.0, &other.0)
    }
}

impl vstd::std_specs::cmp::PartialEqSpecImpl for Txid {
    open spec fn obeys_eq_spec() -> bool {
        true
    }

    open spec fn eq_spec(&self, other: &Self) -> bool {
        self == other
    }
}

/// The id with these bytes.
pub open spec fn txid_of(bytes: Seq<u8>) -> Txid {
    choose|t: Txid| t@ == bytes
}

/// An id with these bytes is the id with these bytes.
pub proof fn lemma_txid_of(t: Txid)
    ensures
        txid_of(t@) == t,
{
    let c = txid_of(t@);
    assert(c@ == t@);
    assert(c.0 =~= t.0);
}

/// The hash of a block, as its 32 bytes.
#[derive(Debug, Clone, Copy, Eq, Hash, PartialOrd, Ord)]
pub struct BlockHash(pub [u8; 32]);

impl View for BlockHash {
    type V = Seq<u8>;

    open spec fn view(&self) -> Seq<u8> {
        self.0@
    }
}

impl PartialEq for BlockHash {
    fn eq(&self, other: &Self) -> (r: bool) {
        array_equal(&self.0, &other.0)
    }
}

impl vstd::std_specs::cmp::PartialEqSpecImpl for BlockHash {
    open spec fn obeys_eq_spec() -> bool {
        true
    }

    open spec fn eq_spec(&self, other: &Self) -> bool {
        self == other
    }
}

/// The SHA-256 digest of a byte string.
pub uninterp spec fn sha256(bytes: Seq<u8>) -> Seq<u8>;

/// `sha2::Sha256::digest`: the SHA-256 digest of the bytes, which depends on them alone.
#[verifier::external_body]
fn sha256_digest(bytes: &[u8]) -> (r: [u8; 32])
    ensures
        r@ == sha256(bytes@),
{
    <sha2::Sha256 as sha2::Digest>::digest(bytes).into()
}

/// The content address of some bytes.
pub open spec fn content_hash(bytes: Seq<u8>) -> PsbtHash {
    choose|h: PsbtHash| h@ == sha256(bytes)
}

/// An address whose bytes are the digest is the content address.
pub proof fn lemma_content_hash(h: PsbtHash, bytes: Seq<u8>)
    requires
        h@ == sha256(bytes),
    ensures
        h == content_hash(bytes),
{
    let c = content_hash(bytes);
    assert(c@ == sha256(bytes));
    assert(c.0 =~= h.0);
}

/// Content address (SHA-256) of a stored document or final transaction.
///
/// The address is both the key under which the bytes are stored and what they are checked
/// against when they are fetched.
#[derive(Debug, Clone, Copy, Eq, Hash, PartialOrd, Ord)]
pub struct PsbtHash(pub [u8; 32]);

impl View for PsbtHash {
    type V = Seq<u8>;

    open spec fn view(&self) -> Seq<u8> {
        self.0@
    }
}

impl PartialEq for PsbtHash {
    fn eq(&self, other: &Self) -> (r: bool) {
        array_equal(&self.0, &other.0)
    }
}

impl vstd::std_specs::cmp::PartialEqSpecImpl for PsbtHash {
    open spec fn obeys_eq_spec() -> bool {
        true
    }

    open spec fn eq_spec(&self, other: &Self) -> bool {
        self == other
    }
}

/// A text that is no content address: exactly 64 hexadecimal digits without
/// capital letters are expected.
#[derive(Debug, Clone, Copy, PartialEq, Eq, Structural)]
pub struct PsbtHashParseError;

impl PsbtHash {
    /// The content address of some bytes.
    pub fn digest_of(bytes: &[u8]) -> (r: Self)
        ensures
            r@ == sha256(bytes@),
    {
        PsbtHash(sha256_digest(bytes))
    }

    /// The address as 64 small hexadecimal digits.
    pub fn to_string(&self) -> (r: String)
        ensures
            r@ == to_hex(self@),
    {
        hex_text(self.0.as_slice())
    }

    /// Reads an address from 64 small hexadecimal digits.
    pub fn from_str(s: &str) -> (r: Result<Self, PsbtHashParseError>)
        ensures
            match r {
                Ok(h) => s@.len() == 64 && all_small_digits(s@) && h@ == of_hex(s@),
                Err(_) => s@.len() != 64 || !all_small_digits(s@),
            },
    {
        match small_hex_array(s) {
            Some(b) => Ok(PsbtHash(b)),
            None => Err(PsbtHashParseError),
        }
    }
}

/// A content address is told apart by its text, and reading the text gives it back.
pub proof fn law_psbt_hash_text_round_trip(h: PsbtHash)
    ensures
        to_hex(h@).len() == 64,
        all_small_digits(to_hex(h@)),
        of_hex(to_hex(h@)) == h@,
{
    law_hex_round_trip(h@);
}

/// The identity of an active wallet: the SHA-256 digest of its network and its descriptor.
#[derive(Debug, Clone, Copy, Eq, Hash, PartialOrd, Ord)]
pub struct DescriptorFingerprint(pub [u8; 32]);

impl View for DescriptorFingerprint {
    type V = Seq<u8>;

    open spec fn view(&self) -> Seq<u8> {
        self.0@
    }
}

impl PartialEq for DescriptorFingerprint {
    fn eq(&self, other: &Self) -> (r: bool) {
        array_equal(&self.0, &other.0)
    }
}

impl vstd::std_specs::cmp::PartialEqSpecImpl for DescriptorFingerprint {
    open spec fn obeys_eq_spec() -> bool {
        true
    }

    open spec fn eq_spec(&self, other: &Self) -> bool {
        self == other
    }
}

/// A text that is no descriptor fingerprint: exactly 64 hexadecimal digits without
/// capital letters are expected.
#[derive(Debug, Clone, Copy, PartialEq, Eq, Structural)]
pub struct DescriptorFingerprintParseError;

impl DescriptorFingerprint {
    /// The content address of some bytes.
    pub fn digest_of(bytes: &[u8]) -> (r: Self)
        ensures
            r@ == sha256(bytes@),
    {
        DescriptorFingerprint(sha256_digest(bytes))
    }

    /// The address as 64 small hexadecimal digits.
    pub fn to_string(&self) -> (r: String)
        ensures
            r@ == to_hex(self@),
    {
        hex_text(self.0.as_slice())
    }

    /// Reads an address from 64 small hexadecimal digits.
    pub fn from_str(s: &str) -> (r: Result<Self, DescriptorFingerprintParseError>)
        ensures
            match r {
                Ok(h) => s@.len() == 64 && all_small_digits(s@) && h@ == of_hex(s@),
                Err(_) => s@.len() != 64 || !all_small_digits(s@),
            },
    {
        match small_hex_array(s) {
            Some(b) => Ok(DescriptorFingerprint(b)),
            None => Err(DescriptorFingerprintParseError),
        }
    }
}

/// A descriptor fingerprint is told apart by its text, and reading the text gives it back.
pub proof fn law_descriptor_fingerprint_text_round_trip(h: DescriptorFingerprint)
    ensures
        to_hex(h@).len() == 64,
        all_small_digits(to_hex(h@)),
        of_hex(to_hex(h@)) == h@,
{
    law_hex_round_trip(h@);
}

/// Fingerprints are ordered as their bytes are: the first byte in which two differ decides.
pub proof fn law_fingerprints_are_ordered_by_bytes(a: Seq<u8>, b: Seq<u8>)
    requires
        a.len() == 4,
        b.len() == 4,
    ensures
        fingerprint_of(a).0 < fingerprint_of(b).0 <==> {
            ||| a[0] < b[0]
            ||| a[0] == b[0] && a[1] < b[1]
            ||| a[0] == b[0] && a[1] == b[1] && a[2] < b[2]
            ||| a[0] == b[0] && a[1] == b[1] && a[2] == b[2] && a[3] < b[3]
        },
{
}

/// The name of a network is the one by which the world knows it.
pub proof fn law_network_names(network: Network)
    ensures
        network == Network::Bitcoin <==> network.name_spec() == "bitcoin"@,
        network == Network::Testnet <==> network.name_spec() == "testnet"@,
        network == Network::Testnet4 <==> network.name_spec() == "testnet4"@,
        network == Network::Signet <==> network.name_spec() == "signet"@,
        network == Network::Regtest <==> network.name_spec() == "regtest"@,
{
    reveal_strlit("bitcoin");
    reveal_strlit("testnet");
    reveal_strlit("testnet4");
    reveal_strlit("signet");
    reveal_strlit("regtest");
    assert("bitcoin"@[0] == 'b' && "signet"@[0] == 's' && "regtest"@[0] == 'r');
    assert("testnet"@[0] == 't' && "testnet4"@[0] == 't');
    assert("testnet"@.len() == 7 && "testnet4"@.len() == 8);
}

} // verus!
