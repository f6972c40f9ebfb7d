//! Keystores from seeds, for development and tests.

use vstd::prelude::*;

use bitcoin::bip32::{DerivationPath, Xpriv, Xpub};
use bitcoin::secp256k1::Secp256k1;

use crate::hex::{decode_hex_32, hex_text, seed_outcome, to_hex, SeedError};
use crate::primitives::fingerprint_of;
use crate::wallet::descriptor::{descriptor_key, DescriptorPublicKey, KeyRead};

verus! {

/// The path from the master key to the account key of a multisig wallet.
pub const ACCOUNT_PATH: &'static str = "m/48'/0'/0'/2'";

/// The four bytes of the fingerprint of the master key that a seed gives, and the extended
/// public key at a path below it; or why there is none.
pub uninterp spec fn account_key(seed: Seq<u8>, test_network: bool, path: Seq<char>) -> Result<
    (Seq<u8>, Seq<char>),
    Seq<char>,
>;

/// `bitcoin::bip32`: `Xpriv::new_master` of the seed with its `fingerprint`, and
/// `Xpub::from_priv` of what `derive_priv` gives along the path. The text of an account key with
/// its origin is one that `miniscript::DescriptorPublicKey` reads as one key and writes as it
/// stands. That
/// there is a key for every seed is not claimed: `new_master` refuses a seed whose digest is no
/// secret key.
#[verifier::external_body]
fn derive_account(seed: &[u8; 32], test_network: bool, path: &str) -> (r: Result<
    ([u8; 4], String),
    String,
>)
    ensures
        match r {
            Ok((f, k)) => {
                &&& account_key(seed@, test_network, path@) == Ok::<
                    (Seq<u8>, Seq<char>),
                    Seq<char>,
                >((f@, k@))
                &&& path@ == ACCOUNT_PATH@ ==> {
                    let text = keystore_text_spec(f@, k@);
                    descriptor_key(text) == Ok::<KeyRead, Seq<char>>(
                        (KeyRead { text, fingerprint: f@, parts: seq![text] }),
                    )
                }
            },
            Err(e) => account_key(seed@, test_network, path@) == Err::<
                (Seq<u8>, Seq<char>),
                Seq<char>,
            >(e@),
        },
{
    let secp = Secp256k1::new();
    let words = |e: bitcoin::bip32::Error| e.to_string();
    let kind = match test_network {
        true => bitcoin::NetworkKind::Test,
        false => bitcoin::NetworkKind::Main,
    };
    let path: DerivationPath = path.parse().map_err(words)?;
    let master = Xpriv::new_master(kind, seed).map_err(words)?;
    let account = master.derive_priv(&secp, &path).map_err(words)?;
    Ok((master.fingerprint(&secp).to_bytes(), Xpub::from_priv(&secp, &account).to_string()))
}

/// Why a seed gives no keystore.
#[derive(Debug)]
pub enum KeygenError {
    /// The seed cannot be read.
    Seed(SeedError),
    /// No key can be derived.
    Derivation(String),
}

/// What a [`KeygenError`] says.
pub enum KeygenFault {
    Seed(SeedError),
    Derivation(Seq<char>),
}

impl View for KeygenError {
    type V = KeygenFault;

    open spec fn view(&self) -> KeygenFault {
        match *self {
            KeygenError::Seed(e) => KeygenFault::Seed(e),
            KeygenError::Derivation(e) => KeygenFault::Derivation(e@),
        }
    }
}

/// The text of a keystore: its origin in square brackets, the extended public key, and the first
/// chain with any index below it.
pub open spec fn keystore_text_spec(fingerprint: Seq<u8>, xpub: Seq<char>) -> Seq<char> {
    "["@ + to_hex(fingerprint) + "/48'/0'/0'/2']"@ + xpub + "/0/*"@
}

/// The text of a keystore.
pub fn keystore_text(fingerprint: [u8; 4], xpub: &str) -> (r: String)
    ensures
        r@ == keystore_text_spec(fingerprint@, xpub@),
{
    let mut text: String = "[".to_string();
    text.append(hex_text(fingerprint.as_slice()).as_str());
    text.append("/48'/0'/0'/2']");
    text.append(xpub);
    text.append("/0/*");
    text
}

/// The text of the keystore of a seed on a test network and the four bytes of its fingerprint, or
/// why there is none.
pub open spec fn keystore_of(seed: Seq<u8>) -> Result<(Seq<char>, Seq<u8>), KeygenFault> {
    match account_key(seed, true, ACCOUNT_PATH@) {
        Err(e) => Err(KeygenFault::Derivation(e)),
        Ok((fingerprint, xpub)) => Ok((keystore_text_spec(fingerprint, xpub), fingerprint)),
    }
}

/// What a seed in text form comes to.
pub open spec fn keygen_outcome(seed: Seq<char>) -> Result<(Seq<char>, Seq<u8>), KeygenFault> {
    match seed_outcome(seed) {
        Err(e) => Err(KeygenFault::Seed(e)),
        Ok(bytes) => keystore_of(bytes),
    }
}

/// The keystore that a seed of 64 hexadecimal digits gives.
pub fn gen_keystore(seed: &str) -> (r: Result<DescriptorPublicKey, KeygenError>)
    ensures
        match r {
            Ok(k) => exists|f: Seq<u8>|
                {
                    &&& f.len() == 4
                    &&& keygen_outcome(seed@) == Ok::<(Seq<char>, Seq<u8>), KeygenFault>(
                        (k@.text, f),
                    )
                    &&& k@.fingerprint == #[trigger] fingerprint_of(f)
                    &&& k@.parts == seq![k@.text]
                },
            Err(e) => keygen_outcome(seed@) == Err::<(Seq<char>, Seq<u8>), KeygenFault>(e@),
        },
{
    let bytes: [u8; 32] = match decode_hex_32(seed) {
        Ok(b) => b,
        Err(e) => {
            return Err(KeygenError::Seed(e));
        },
    };
    match derive_account(&bytes, true, ACCOUNT_PATH) {
        Err(e) => Err(KeygenError::Derivation(e)),
        Ok((fingerprint, xpub)) => {
            let text: String = keystore_text(fingerprint, xpub.as_str());
            match DescriptorPublicKey::from_str(text.as_str()) {
                Ok(k) => Ok(k),
                Err(e) => Err(KeygenError::Derivation(e)),
            }
        },
    }
}

/// A seed gives one keystore: two texts that stand for the same seed come to the same text, which
/// is the account key with its origin before it and the first chain behind it, or both fail; and
/// a text that stands for no seed gives none.
pub proof fn law_seed_gives_one_keystore(a: Seq<char>, b: Seq<char>)
    requires
        seed_outcome(a) == seed_outcome(b),
    ensures
        keygen_outcome(a) == keygen_outcome(b),
        seed_outcome(a) is Err ==> keygen_outcome(a) is Err,
        match keygen_outcome(a) {
            Ok((text, fingerprint)) => exists|xpub: Seq<char>|
                text == #[trigger] keystore_text_spec(fingerprint, xpub),
            Err(_) => true,
        },
{
    if keygen_outcome(a) is Ok {
        let xpub = (account_key(seed_outcome(a)->Ok_0, true, ACCOUNT_PATH@)->Ok_0).1;
        let (text, fingerprint) = keygen_outcome(a)->Ok_0;
        assert(text == keystore_text_spec(fingerprint, xpub));
    }
}

} // verus!
