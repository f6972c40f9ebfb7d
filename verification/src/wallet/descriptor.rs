//! Keystores and the descriptors that they form.

use vstd::prelude::*;
use vstd::seq_lib::to_multiset_insert;
use vstd::utf8::{encode_utf8, is_ascii_chars, is_ascii_chars_encode_utf8};

use miniscript::ForEachKey;

use crate::bytes::{append_bytes, copy_range, precedes};
use crate::hex::{hex_digits, push_digit};
use crate::primitives::{
    fingerprint_of, sha256, DescriptorFingerprint, KeyFingerprint, Network,
};
use crate::text::{
    copied_texts, law_sorted_texts_ignore_order, lemma_bytes_determine_text,
    lemma_sorted_texts_insert, same_text, same_texts, sorted_texts, text_le, text_order,
    text_views,
};
use crate::wallet::error::{WalletError, WalletFault};

verus! {

/// The largest number of keys that a multisig script holds.
pub const MAX_KEYS: usize = 20;

/// A participant's keystore: an extended public key with its origin.
///
/// It is known by its canonical text, by the fingerprint of the master key that it comes from, and
/// by the canonical texts of the keys that it stands for: one, or one for each index where a step
/// of its path has several. The canonical text alone does not always tell these: a step whose
/// first two indices are the same is written as that one index.
#[derive(Debug)]
pub struct DescriptorPublicKey {
    text: String,
    fingerprint: KeyFingerprint,
    parts: Vec<String>,
    /// A text that is read as this key.
    source: String,
}

/// What a [`DescriptorPublicKey`] holds.
pub struct KeystoreView {
    pub text: Seq<char>,
    pub fingerprint: KeyFingerprint,
    pub parts: Seq<Seq<char>>,
}

impl View for DescriptorPublicKey {
    type V = KeystoreView;

    closed spec fn view(&self) -> KeystoreView {
        KeystoreView {
            text: self.text@,
            fingerprint: self.fingerprint,
            parts: text_views(self.parts@),
        }
    }
}

/// What reading a key gives: its canonical text, the four bytes of the master fingerprint, and
/// the canonical texts of the keys that it stands for.
pub struct KeyRead {
    pub text: Seq<char>,
    pub fingerprint: Seq<u8>,
    pub parts: Seq<Seq<char>>,
}

/// What a key in text form is read as, or why the text is no key.
pub uninterp spec fn descriptor_key(text: Seq<char>) -> Result<KeyRead, Seq<char>>;

/// Whether the canonical text of a key that stands for these keys tells them: there is one, or the
/// first two differ.
pub open spec fn told_by_own_text(parts: Seq<Seq<char>>) -> bool {
    parts.len() == 1 || (parts.len() > 1 && parts[0] != parts[1])
}

/// Whether a text is read as a key with this canonical text and this fingerprint, be the keys that
/// it stands for the same or not.
pub open spec fn is_written_as(text: Seq<char>, fingerprint: Seq<u8>) -> bool {
    match descriptor_key(text) {
        Ok(k) => k.text == text && k.fingerprint == fingerprint,
        Err(_) => false,
    }
}

/// `miniscript::DescriptorPublicKey`: read from text by `from_str`, with what `to_string`,
/// `master_fingerprint` and `into_single_keys` say of the key. The fingerprint is that of the
/// key's origin where it has one, else that of the key itself. What is written is read as a key
/// that is written alike and has the same fingerprint; and as the same key, unless the first two of
/// several keys that it stands for are the same.
#[verifier::external_body]
fn read_key(text: &str) -> (r: Result<(String, [u8; 4], Vec<String>), String>)
    ensures
        match r {
            Ok((t, f, parts)) => {
                &&& descriptor_key(text@) == Ok::<KeyRead, Seq<char>>(
                    (KeyRead { text: t@, fingerprint: f@, parts: text_views(parts@) }),
                )
                &&& is_written_as(t@, f@)
                &&& told_by_own_text(text_views(parts@)) ==> descriptor_key(t@) == descriptor_key(
                    text@,
                )
            },
            Err(e) => descriptor_key(text@) == Err::<KeyRead, Seq<char>>(e@),
        },
{
    match text.parse::<miniscript::DescriptorPublicKey>() {
        Ok(key) => {
            let (text, fingerprint) = (key.to_string(), key.master_fingerprint().to_bytes());
            let parts = key.into_single_keys().iter().map(|k| k.to_string()).collect();
            Ok((text, fingerprint, parts))
        },
        Err(e) => Err(e.to_string()),
    }
}

/// Whether reading a text gives a keystore.
pub open spec fn reads_as(text: Seq<char>, keystore: KeystoreView) -> bool {
    match descriptor_key(text) {
        Ok(k) => {
            &&& k.fingerprint.len() == 4
            &&& k.text == keystore.text
            &&& fingerprint_of(k.fingerprint) == keystore.fingerprint
            &&& k.parts == keystore.parts
        },
        Err(_) => false,
    }
}

/// Whether the text of a keystore is read as a key that is written alike and has its fingerprint;
/// and as that keystore, where the text tells what it stands for.
pub open spec fn keystore_known(keystore: KeystoreView) -> bool {
    match descriptor_key(keystore.text) {
        Ok(k) => {
            &&& k.text == keystore.text
            &&& fingerprint_of(k.fingerprint) == keystore.fingerprint
            &&& told_by_own_text(keystore.parts) ==> reads_as(keystore.text, keystore)
        },
        Err(_) => false,
    }
}

impl DescriptorPublicKey {
    /// The keystore is what its source is read as, and its text is canonical.
    #[verifier::type_invariant]
    spec fn canonical(self) -> bool {
        let v = KeystoreView {
            text: self.text@,
            fingerprint: self.fingerprint,
            parts: text_views(self.parts@),
        };
        reads_as(self.source@, v) && keystore_known(v)
    }

    /// Reads a keystore from its text.
    pub fn from_str(s: &str) -> (r: Result<Self, String>)
        ensures
            match r {
                Ok(k) => reads_as(s@, k@) && keystore_known(k@),
                Err(e) => descriptor_key(s@) == Err::<KeyRead, Seq<char>>(e@),
            },
    {
        match read_key(s) {
            Ok((text, f, parts)) => {
                let fingerprint: KeyFingerprint = KeyFingerprint::from_bytes(f);
                assert(f@.len() == 4 && fingerprint == fingerprint_of(f@));
                Ok(DescriptorPublicKey { text, fingerprint, parts, source: s.to_string() })
            },
            Err(e) => Err(e),
        }
    }

    /// The canonical text of the keystore. Reading it gives the keystore back, where the text
    /// tells what it stands for.
    pub fn to_string(&self) -> (r: String)
        ensures
            r@ == self@.text,
            keystore_known(self@),
            told_by_own_text(self@.parts) ==> reads_as(r@, self@),
    {
        proof {
            use_type_invariant(self);
        }
        self.text.clone()
    }

    /// A text that is read as this keystore.
    fn source(&self) -> (r: &str)
        ensures
            reads_as(r@, self@),
    {
        proof {
            use_type_invariant(self);
        }
        self.source.as_str()
    }

    /// Whether two keystores are the same.
    pub fn same(&self, other: &Self) -> (r: bool)
        ensures
            r == (self@ == other@),
    {
        same_text(self.text.as_str(), other.text.as_str()) && self.fingerprint == other.fingerprint
            && same_texts(&self.parts, &other.parts)
    }
}

impl Clone for DescriptorPublicKey {
    fn clone(&self) -> (r: Self)
        ensures
            r@ == self@,
    {
        proof {
            use_type_invariant(self);
        }
        let parts: Vec<String> = copied_texts(&self.parts);
        DescriptorPublicKey {
            text: self.text.clone(),
            fingerprint: self.fingerprint,
            parts,
            source: self.source.clone(),
        }
    }
}

impl PartialEq for DescriptorPublicKey {
    fn eq(&self, other: &Self) -> (r: bool) {
        self.same(other)
    }
}

impl vstd::std_specs::cmp::PartialEqSpecImpl for DescriptorPublicKey {
    open spec fn obeys_eq_spec() -> bool {
        true
    }

    open spec fn eq_spec(&self, other: &Self) -> bool {
        self@ == other@
    }
}

/// The fingerprint of the master key that a keystore comes from.
pub fn keystore_fingerprint(keystore: &DescriptorPublicKey) -> (r: KeyFingerprint)
    ensures
        r == keystore@.fingerprint,
{
    keystore.fingerprint
}

/// What each keystore of a list holds.
pub open spec fn keystore_views(keystores: Seq<DescriptorPublicKey>) -> Seq<KeystoreView> {
    Seq::new(keystores.len(), |i: int| keystores[i]@)
}

/// What keystores stand for.
pub open spec fn key_parts(keystores: Seq<KeystoreView>) -> Seq<Seq<Seq<char>>> {
    Seq::new(keystores.len(), |i: int| keystores[i].parts)
}

/// The texts of keystores.
pub open spec fn key_texts(keystores: Seq<KeystoreView>) -> Seq<Seq<char>> {
    Seq::new(keystores.len(), |i: int| keystores[i].text)
}

/// A descriptor.
///
/// It is known by its text with the checksum, and by what its keys stand for, which the text does
/// not always tell.
#[derive(Debug)]
pub struct Descriptor {
    text: String,
    keys: Vec<Vec<String>>,
    /// A text that is read as this descriptor.
    source: String,
}

/// What a [`Descriptor`] holds: its text with the checksum, and for each of its keys, in their
/// order, the canonical texts of the keys that it stands for.
pub struct DescriptorView {
    pub text: Seq<char>,
    pub keys: Seq<Seq<Seq<char>>>,
}

/// What each list of texts holds.
pub open spec fn list_views(lists: Seq<Vec<String>>) -> Seq<Seq<Seq<char>>> {
    Seq::new(lists.len(), |i: int| text_views(lists[i]@))
}

impl View for Descriptor {
    type V = DescriptorView;

    closed spec fn view(&self) -> DescriptorView {
        DescriptorView { text: self.text@, keys: list_views(self.keys@) }
    }
}

/// What a descriptor in text form is read as, or why the text is none.
pub uninterp spec fn canonical_descriptor(text: Seq<char>) -> Result<DescriptorView, Seq<char>>;

/// Whether a text is that of a descriptor with the checksum left out.
pub open spec fn is_body_of(body: Seq<char>, descriptor: Seq<char>) -> bool {
    encode_utf8(body) == descriptor_body(encode_utf8(descriptor))
}

/// `miniscript::Descriptor`: read from text by `from_str`, written by `to_string`, with what
/// `into_single_keys` says of each key that `for_each_key` hands out. What is written ends in a
/// checksum, and is read alike with the checksum and without it. That it is read as the same
/// descriptor is not claimed.
#[verifier::external_body]
fn read_descriptor(text: &str) -> (r: Result<(String, Vec<Vec<String>>), String>)
    ensures
        match r {
            Ok((t, keys)) => {
                &&& canonical_descriptor(text@) == Ok::<DescriptorView, Seq<char>>(
                    (DescriptorView { text: t@, keys: list_views(keys@) }),
                )
                &&& forall|body: Seq<char>| #[trigger]
                    is_body_of(body, t@) ==> canonical_descriptor(body) == canonical_descriptor(t@)
            },
            Err(e) => canonical_descriptor(text@) == Err::<DescriptorView, Seq<char>>(e@),
        },
{
    match text.parse::<miniscript::Descriptor<miniscript::DescriptorPublicKey>>() {
        Err(e) => Err(e.to_string()),
        Ok(descriptor) => {
            let mut keys = Vec::new();
            descriptor.for_each_key(|key| {
                keys.push(key.clone().into_single_keys().iter().map(|k| k.to_string()).collect());
                true
            });
            Ok((descriptor.to_string(), keys))
        },
    }
}

/// Whether a text is read as a descriptor with that text, with its checksum and without it.
pub open spec fn reads_back(text: Seq<char>) -> bool {
    &&& canonical_descriptor(text) is Ok
    &&& (canonical_descriptor(text)->Ok_0).text == text
    &&& forall|body: Seq<char>| #[trigger]
        is_body_of(body, text) ==> canonical_descriptor(body) == canonical_descriptor(text)
}

impl Descriptor {
    /// The descriptor is what its source is read as.
    #[verifier::type_invariant]
    spec fn canonical(self) -> bool {
        canonical_descriptor(self.source@) == Ok::<DescriptorView, Seq<char>>(
            (DescriptorView { text: self.text@, keys: list_views(self.keys@) }),
        )
    }

    /// Reads a descriptor from its text.
    pub fn from_str(s: &str) -> (r: Result<Self, String>)
        ensures
            match r {
                Ok(d) => canonical_descriptor(s@) == Ok::<DescriptorView, Seq<char>>(d@),
                Err(e) => canonical_descriptor(s@) == Err::<DescriptorView, Seq<char>>(e@),
            },
    {
        match read_descriptor(s) {
            Ok((text, keys)) => Ok(Descriptor { text, keys, source: s.to_string() }),
            Err(e) => Err(e),
        }
    }

    /// The text of the descriptor, with its checksum.
    pub fn as_str(&self) -> (r: &str)
        ensures
            r@ == self@.text,
    {
        self.text.as_str()
    }

    /// The text of the descriptor, with its checksum.
    pub fn to_string(&self) -> (r: String)
        ensures
            r@ == self@.text,
    {
        self.text.clone()
    }

    /// A text that is read as this descriptor.
    pub(crate) fn source(&self) -> (r: &str)
        ensures
            canonical_descriptor(r@) == Ok::<DescriptorView, Seq<char>>(self@),
    {
        proof {
            use_type_invariant(self);
        }
        self.source.as_str()
    }
}

/// Whether two lists of lists of texts are the same.
fn same_lists(a: &Vec<Vec<String>>, b: &Vec<Vec<String>>) -> (r: bool)
    ensures
        r == (list_views(a@) == list_views(b@)),
{
    if a.len() != b.len() {
        assert(list_views(a@).len() != list_views(b@).len());
        return false;
    }
    let mut i: usize = 0;
    while i < a.len()
        invariant
            i <= a@.len(),
            a@.len() == b@.len(),
            forall|j: int| 0 <= j < i ==> text_views((#[trigger] a@[j])@) == text_views(b@[j]@),
        decreases a@.len() - i,
    {
        if !same_texts(&a[i], &b[i]) {
            assert(list_views(a@)[i as int] != list_views(b@)[i as int]);
            return false;
        }
        i += 1;
    }
    assert(list_views(a@) =~= list_views(b@));
    true
}

/// Copies of lists of texts.
fn copied_lists(lists: &Vec<Vec<String>>) -> (r: Vec<Vec<String>>)
    ensures
        list_views(r@) == list_views(lists@),
{
    let mut r: Vec<Vec<String>> = Vec::new();
    let mut i: usize = 0;
    while i < lists.len()
        invariant
            i <= lists@.len(),
            r@.len() == i,
            forall|j: int| 0 <= j < i ==> text_views((#[trigger] r@[j])@) == text_views(lists@[j]@),
        decreases lists@.len() - i,
    {
        r.push(copied_texts(&lists[i]));
        i += 1;
    }
    assert(list_views(r@) =~= list_views(lists@));
    r
}

impl Clone for Descriptor {
    fn clone(&self) -> (r: Self)
        ensures
            r@ == self@,
    {
        proof {
            use_type_invariant(self);
        }
        let keys: Vec<Vec<String>> = copied_lists(&self.keys);
        Descriptor { text: self.text.clone(), keys, source: self.source.clone() }
    }
}

impl PartialEq for Descriptor {
    fn eq(&self, other: &Self) -> (r: bool) {
        same_text(self.text.as_str(), other.text.as_str()) && same_lists(&self.keys, &other.keys)
    }
}

impl vstd::std_specs::cmp::PartialEqSpecImpl for Descriptor {
    open spec fn obeys_eq_spec() -> bool {
        true
    }

    open spec fn eq_spec(&self, other: &Self) -> bool {
        self@ == other@
    }
}

/// The text, with its checksum, of the descriptor that pays to a witness script which asks for
/// `threshold` signatures by these keys; or why there is none.
pub uninterp spec fn wsh_sortedmulti(threshold: nat, keys: Seq<Seq<char>>) -> Result<
    Seq<char>,
    Seq<char>,
>;

/// A number below a hundred in decimal digits.
pub open spec fn decimal(n: nat) -> Seq<char> {
    if n < 10 {
        seq![hex_digits()[n as int]]
    } else {
        seq![hex_digits()[n as int / 10], hex_digits()[n as int % 10]]
    }
}

/// Texts, each with a comma before it.
pub open spec fn listed(texts: Seq<Seq<char>>) -> Seq<char>
    decreases texts.len(),
{
    if texts.len() == 0 {
        Seq::empty()
    } else {
        listed(texts.drop_last()) + seq![','] + texts.last()
    }
}

/// The text, without a checksum, of the descriptor that asks for `threshold` signatures by these
/// keys.
pub open spec fn sortedmulti_body(threshold: nat, keys: Seq<Seq<char>>) -> Seq<char> {
    "wsh(sortedmulti("@ + decimal(threshold) + listed(keys) + "))"@
}

/// What keys that are read from texts are written as.
pub open spec fn written_texts(sources: Seq<Seq<char>>) -> Seq<Seq<char>> {
    Seq::new(sources.len(), |i: int| (descriptor_key(sources[i])->Ok_0).text)
}

/// What keys that are read from texts stand for.
pub open spec fn written_parts(sources: Seq<Seq<char>>) -> Seq<Seq<Seq<char>>> {
    Seq::new(sources.len(), |i: int| (descriptor_key(sources[i])->Ok_0).parts)
}

/// Whether the canonical text of each key tells what it stands for.
pub open spec fn all_told(keys: Seq<Seq<Seq<char>>>) -> bool {
    forall|i: int| 0 <= i < keys.len() ==> told_by_own_text(#[trigger] keys[i])
}

/// `miniscript::Descriptor::new_wsh_sortedmulti` on keys read from these texts, its value written
/// by `to_string`. It depends on what the keys are written as. What is written is read back, with
/// its checksum and without it; what stands before the checksum is the threshold and the keys, as
/// they are written, in their order. The same text with the keys as they were given is read as
/// the descriptor that was built, and so is what is written, where the texts of the keys tell
/// what these stand for. Where the threshold fits, `miniscript::Threshold::new` does not
/// fail.
#[verifier::external_body]
fn build_wsh_sortedmulti(threshold: usize, keys: &Vec<String>) -> (r: Result<String, String>)
    requires
        0 < threshold <= keys@.len() <= MAX_KEYS,
        forall|i: int| 0 <= i < keys@.len() ==> descriptor_key((#[trigger] keys@[i])@) is Ok,
    ensures
        ({
            let sources = text_views(keys@);
            let texts = written_texts(sources);
            match r {
                Ok(t) => {
                    &&& wsh_sortedmulti(threshold as nat, texts) == Ok::<Seq<char>, Seq<char>>(t@)
                    &&& reads_back(t@)
                    &&& is_body_of(sortedmulti_body(threshold as nat, texts), t@)
                    &&& canonical_descriptor(sortedmulti_body(threshold as nat, sources)) == Ok::<
                        DescriptorView,
                        Seq<char>,
                    >((DescriptorView { text: t@, keys: written_parts(sources) }))
                    &&& all_told(written_parts(sources)) ==> canonical_descriptor(t@) == Ok::<
                        DescriptorView,
                        Seq<char>,
                    >((DescriptorView { text: t@, keys: written_parts(sources) }))
                },
                Err(e) => wsh_sortedmulti(threshold as nat, texts) == Err::<Seq<char>, Seq<char>>(
                    e@,
                ),
            }
        }),
{
    let keys: Result<Vec<miniscript::DescriptorPublicKey>, _> =
        keys.iter().map(|k| k.parse()).collect();
    let keys = keys.map_err(|e| e.to_string())?;
    let threshold = miniscript::Threshold::new(threshold, keys).map_err(|e| e.to_string())?;
    match miniscript::Descriptor::new_wsh_sortedmulti(threshold) {
        Ok(descriptor) => Ok(descriptor.to_string()),
        Err(e) => Err(e.to_string()),
    }
}

/// What a threshold and keys come to, given what the sorted keys were built into.
pub open spec fn descriptor_outcome(
    threshold: nat,
    keystores: Seq<KeystoreView>,
    built: Result<Seq<char>, Seq<char>>,
) -> Result<DescriptorView, WalletFault> {
    let total = keystores.len();
    if threshold == 0 || threshold > total || total > MAX_KEYS {
        Err(WalletFault::Threshold { threshold, total })
    } else {
        match built {
            Ok(text) => Ok(DescriptorView { text, keys: key_parts(sorted_keystores(keystores)) }),
            Err(e) => Err(WalletFault::Miniscript(e)),
        }
    }
}

/// The descriptor of a policy. The keys are put in the order of their texts first, so that the
/// order in which they came leaves no trace.
pub open spec fn policy_descriptor(threshold: nat, keystores: Seq<KeystoreView>) -> Result<
    DescriptorView,
    WalletFault,
> {
    descriptor_outcome(
        threshold,
        keystores,
        wsh_sortedmulti(threshold, key_texts(sorted_keystores(keystores))),
    )
}

/// Where a keystore is put among sorted ones: behind those whose texts are not greater.
pub open spec fn place_of(sorted: Seq<KeystoreView>, keystore: KeystoreView) -> nat
    decreases sorted.len(),
{
    if sorted.len() == 0 || !text_le(sorted[0].text, keystore.text) {
        0
    } else {
        1 + place_of(sorted.drop_first(), keystore)
    }
}

/// Keystores in the order of their texts; those with the same text stay as they came.
pub open spec fn sorted_keystores(keystores: Seq<KeystoreView>) -> Seq<KeystoreView>
    decreases keystores.len(),
{
    if keystores.len() == 0 {
        Seq::empty()
    } else {
        let before = sorted_keystores(keystores.drop_last());
        before.insert(place_of(before, keystores.last()) as int, keystores.last())
    }
}

/// The place of a keystore is within the list, behind texts that are not greater.
proof fn lemma_place(sorted: Seq<KeystoreView>, keystore: KeystoreView)
    ensures
        place_of(sorted, keystore) <= sorted.len(),
        forall|i: int|
            0 <= i < place_of(sorted, keystore) ==> text_le(
                (#[trigger] sorted[i]).text,
                keystore.text,
            ),
        place_of(sorted, keystore) < sorted.len() ==> !text_le(
            sorted[place_of(sorted, keystore) as int].text,
            keystore.text,
        ),
    decreases sorted.len(),
{
    if sorted.len() > 0 && text_le(sorted[0].text, keystore.text) {
        let rest = sorted.drop_first();
        lemma_place(rest, keystore);
        let n = place_of(rest, keystore);
        assert forall|i: int| 0 <= i < n as int + 1 implies text_le(
            (#[trigger] sorted[i]).text,
            keystore.text,
        ) by {
            if i > 0 {
                assert(rest[i - 1] == sorted[i]);
            }
        }
        if n < rest.len() {
            assert(rest[n as int] == sorted[n as int + 1]);
        }
    }
}

/// A place with these properties is the place.
proof fn lemma_place_unique(sorted: Seq<KeystoreView>, keystore: KeystoreView, at: nat)
    requires
        at <= sorted.len(),
        forall|i: int| 0 <= i < at ==> text_le((#[trigger] sorted[i]).text, keystore.text),
        at < sorted.len() ==> !text_le(sorted[at as int].text, keystore.text),
    ensures
        at == place_of(sorted, keystore),
{
    lemma_place(sorted, keystore);
    let n = place_of(sorted, keystore);
    if at < n {
        assert(text_le(sorted[at as int].text, keystore.text));
    } else if n < at {
        assert(text_le(sorted[n as int].text, keystore.text));
    }
}

/// Sorting keeps the keystores, and puts their texts in order.
pub proof fn lemma_sorted_keystores(keystores: Seq<KeystoreView>)
    ensures
        sorted_keystores(keystores).len() == keystores.len(),
        sorted_keystores(keystores).to_multiset() == keystores.to_multiset(),
        key_texts(sorted_keystores(keystores)) == sorted_texts(key_texts(keystores)),
    decreases keystores.len(),
{
    let all = sorted_keystores(keystores);
    let texts = key_texts(keystores);
    if keystores.len() == 0 {
        assert(all =~= keystores);
        assert(key_texts(all) =~= Seq::<Seq<char>>::empty());
        assert(texts =~= Seq::<Seq<char>>::empty());
        crate::text::lemma_text_order_total();
        texts.lemma_sort_by_ensures(text_order());
        texts.to_multiset_ensures();
        sorted_texts(texts).to_multiset_ensures();
        assert(sorted_texts(texts) =~= Seq::<Seq<char>>::empty());
    } else {
        let init = keystores.drop_last();
        let last = keystores.last();
        let before = sorted_keystores(init);
        lemma_sorted_keystores(init);
        lemma_place(before, last);
        let at = place_of(before, last) as int;
        to_multiset_insert(before, at, last);
        assert(keystores =~= init.push(last));
        init.to_multiset_ensures();
        assert(key_texts(all) =~= key_texts(before).insert(at, last.text));
        assert(texts =~= key_texts(init).push(last.text));
        lemma_sorted_texts_insert(key_texts(init), last.text, at);
    }
}

/// The text of a keystore stands where the keystore stands.
proof fn lemma_key_text(keystores: Seq<KeystoreView>, i: int)
    requires
        0 <= i < keystores.len(),
    ensures
        key_texts(keystores)[i] == keystores[i].text,
{
}

/// Sorts keystores by their texts.
fn sort_keystores(keystores: &Vec<DescriptorPublicKey>) -> (r: Vec<DescriptorPublicKey>)
    ensures
        keystore_views(r@) == sorted_keystores(keystore_views(keystores@)),
{
    let ghost all = keystore_views(keystores@);
    let mut r: Vec<DescriptorPublicKey> = Vec::new();
    let mut n: usize = 0;
    assert(all.take(0) =~= Seq::<KeystoreView>::empty());
    assert(keystore_views(r@) =~= sorted_keystores(all.take(0)));
    while n < keystores.len()
        invariant
            n <= keystores@.len(),
            all == keystore_views(keystores@),
            keystore_views(r@) == sorted_keystores(all.take(n as int)),
        decreases keystores@.len() - n,
    {
        let ghost before = keystore_views(r@);
        let k: &DescriptorPublicKey = &keystores[n];
        let mut at: usize = 0;
        while at < r.len() && !precedes(k.text.as_str().as_bytes(), r[at].text.as_str().as_bytes())
            invariant
                at <= r@.len(),
                before == keystore_views(r@),
                forall|i: int| 0 <= i < at ==> text_le((#[trigger] before[i]).text, k@.text),
            decreases r@.len() - at,
        {
            assert(before[at as int] == r@[at as int]@);
            at += 1;
        }
        proof {
            if at < r@.len() {
                assert(before[at as int] == r@[at as int]@);
            }
            assert(before.len() == r@.len());
            lemma_place_unique(before, k@, at as nat);
            assert(all.take(n + 1).drop_last() =~= all.take(n as int));
            assert(all.take(n + 1).last() == k@);
        }
        r.insert(at, k.clone());
        assert(keystore_views(r@) =~= before.insert(at as int, k@));
        n += 1;
    }
    assert(all.take(n as int) =~= all);
    r
}

/// Writes a number of at most two digits.
fn push_number(out: &mut String, n: usize)
    requires
        n < 100,
    ensures
        final(out)@ == old(out)@ + decimal(n as nat),
{
    if n < 10 {
        push_digit(out, n);
        assert(out@ =~= old(out)@ + decimal(n as nat));
    } else {
        push_digit(out, n / 10);
        push_digit(out, n % 10);
        assert(out@ =~= old(out)@ + decimal(n as nat));
    }
}

/// The text, without a checksum, of the descriptor that asks for `threshold` signatures by these
/// keys.
fn sortedmulti_text(threshold: usize, keys: &Vec<String>) -> (r: String)
    requires
        threshold < 100,
    ensures
        r@ == sortedmulti_body(threshold as nat, text_views(keys@)),
{
    let ghost all = text_views(keys@);
    let mut out: String = "wsh(sortedmulti(".to_string();
    push_number(&mut out, threshold);
    let ghost start = out@;
    let mut i: usize = 0;
    assert(all.take(0) =~= Seq::<Seq<char>>::empty());
    assert(out@ =~= start + listed(all.take(0)));
    while i < keys.len()
        invariant
            i <= keys@.len(),
            all == text_views(keys@),
            out@ == start + listed(all.take(i as int)),
        decreases keys@.len() - i,
    {
        let ghost before = out@;
        out.append(",");
        out.append(keys[i].as_str());
        proof {
            reveal_strlit(",");
            assert(","@ =~= seq![',']);
            assert(all.take(i + 1).drop_last() =~= all.take(i as int));
            assert(all.take(i + 1).last() == keys@[i as int]@);
            assert(out@ =~= start + listed(all.take(i + 1)));
        }
        i += 1;
    }
    assert(all.take(i as int) =~= all);
    out.append("))");
    assert(out@ =~= sortedmulti_body(threshold as nat, all));
    out
}

/// What keystores stand for, as lists of texts.
fn parts_of(keystores: &Vec<DescriptorPublicKey>) -> (r: Vec<Vec<String>>)
    ensures
        list_views(r@) == key_parts(keystore_views(keystores@)),
{
    let mut r: Vec<Vec<String>> = Vec::new();
    let mut i: usize = 0;
    while i < keystores.len()
        invariant
            i <= keystores@.len(),
            r@.len() == i,
            forall|j: int| 0 <= j < i ==> text_views((#[trigger] r@[j])@) == keystores@[j]@.parts,
        decreases keystores@.len() - i,
    {
        r.push(copied_texts(&keystores[i].parts));
        i += 1;
    }
    assert(list_views(r@) =~= key_parts(keystore_views(keystores@)));
    r
}

/// Builds the `wsh(sortedmulti(..))` descriptor of a policy from its keystores.
///
/// The keystores are sorted by their texts: in the script the keys are sorted anyway, but in
/// the text of the descriptor they keep the order in which they were given, so that one wallet
/// could otherwise have several texts, and several fingerprints.
pub fn sortedmulti_wsh_descriptor(threshold: usize, keystores: &Vec<DescriptorPublicKey>) -> (r:
    Result<Descriptor, WalletError>)
    ensures
        match r {
            Ok(d) => {
                let views = keystore_views(keystores@);
                &&& policy_descriptor(threshold as nat, views) == Ok::<DescriptorView, WalletFault>(
                    d@,
                )
                &&& reads_back(d@.text)
                &&& all_told(d@.keys) ==> canonical_descriptor(d@.text) == Ok::<
                    DescriptorView,
                    Seq<char>,
                >(d@)
                &&& is_body_of(
                    sortedmulti_body(threshold as nat, sorted_texts(key_texts(views))),
                    d@.text,
                )
            },
            Err(e) => policy_descriptor(threshold as nat, keystore_views(keystores@)) == Err::<
                DescriptorView,
                WalletFault,
            >(e@),
        },
{
    let total: usize = keystores.len();
    let ghost views = keystore_views(keystores@);
    assert(views.len() == total);
    if threshold == 0 || threshold > total || total > MAX_KEYS {
        return Err(WalletError::Threshold { threshold, total });
    }
    let sorted: Vec<DescriptorPublicKey> = sort_keystores(keystores);
    let ghost order = keystore_views(sorted@);
    proof {
        lemma_sorted_keystores(views);
        assert(order.len() == sorted@.len());
    }
    let mut sources: Vec<String> = Vec::new();
    let mut i: usize = 0;
    while i < sorted.len()
        invariant
            i <= sorted@.len(),
            sources@.len() == i,
            forall|j: int| 0 <= j < i ==> reads_as((#[trigger] sources@[j])@, sorted@[j]@),
        decreases sorted@.len() - i,
    {
        sources.push(sorted[i].source().to_string());
        i += 1;
    }
    let ghost given = text_views(sources@);
    proof {
        assert forall|j: int| 0 <= j < sources@.len() implies descriptor_key(
            (#[trigger] sources@[j])@,
        ) is Ok by {
            assert(reads_as(sources@[j]@, sorted@[j]@));
        }
        assert(written_texts(given) =~= key_texts(order)) by {
            assert forall|j: int| 0 <= j < given.len() implies written_texts(given)[j] == key_texts(
                order,
            )[j] by {
                assert(reads_as(sources@[j]@, sorted@[j]@));
            }
        }
        assert(written_parts(given) =~= key_parts(order)) by {
            assert forall|j: int| 0 <= j < given.len() implies written_parts(given)[j] == key_parts(
                order,
            )[j] by {
                assert(reads_as(sources@[j]@, sorted@[j]@));
            }
        }
    }
    match build_wsh_sortedmulti(threshold, &sources) {
        Ok(text) => {
            let keys: Vec<Vec<String>> = parts_of(&sorted);
            Ok(Descriptor { text, keys, source: sortedmulti_text(threshold, &sources) })
        },
        Err(e) => Err(WalletError::Miniscript(e)),
    }
}

/// Whether keystores that are written alike are the same.
pub open spec fn told_by_text(keystores: Seq<KeystoreView>) -> bool {
    forall|i: int, j: int|
        0 <= i < keystores.len() && 0 <= j < keystores.len() && (#[trigger] keystores[i]).text == (
        #[trigger] keystores[j]).text ==> keystores[i] == keystores[j]
}

/// The order in which participants hand in their keystores does not matter: the same keystores
/// in any order form a descriptor with the same text, or fail alike. Where keystores that are
/// written alike are the same, it is the same descriptor.
pub proof fn law_descriptor_ignores_key_order(
    threshold: nat,
    a: Seq<KeystoreView>,
    b: Seq<KeystoreView>,
)
    requires
        a.to_multiset() == b.to_multiset(),
    ensures
        match (policy_descriptor(threshold, a), policy_descriptor(threshold, b)) {
            (Ok(x), Ok(y)) => x.text == y.text,
            (Err(x), Err(y)) => x == y,
            _ => false,
        },
        told_by_text(a) ==> policy_descriptor(threshold, a) == policy_descriptor(threshold, b),
{
    lemma_sorted_keystores(a);
    lemma_sorted_keystores(b);
    a.to_multiset_ensures();
    b.to_multiset_ensures();
    let x = sorted_keystores(a);
    let y = sorted_keystores(b);
    assert(key_texts(a).to_multiset() == key_texts(b).to_multiset()) by {
        lemma_key_texts_multiset(a, b);
    }
    law_sorted_texts_ignore_order(key_texts(a), key_texts(b));
    if told_by_text(a) {
        x.to_multiset_ensures();
        y.to_multiset_ensures();
        assert forall|i: int| 0 <= i < x.len() implies x[i] == y[i] by {
            lemma_key_text(x, i);
            lemma_key_text(y, i);
            assert(x.contains(x[i]) && y.contains(y[i]));
            assert(a.to_multiset().count(x[i]) > 0 && a.to_multiset().count(y[i]) > 0);
            assert(a.contains(x[i]) && a.contains(y[i]));
            let j = choose|j: int| 0 <= j < a.len() && a[j] == x[i];
            let k = choose|k: int| 0 <= k < a.len() && a[k] == y[i];
            assert(a[j].text == a[k].text);
        }
        assert(x =~= y);
    }
}

/// The same keystores have the same texts.
proof fn lemma_key_texts_multiset(a: Seq<KeystoreView>, b: Seq<KeystoreView>)
    requires
        a.to_multiset() == b.to_multiset(),
    ensures
        key_texts(a).to_multiset() == key_texts(b).to_multiset(),
    decreases a.len(),
{
    a.to_multiset_ensures();
    b.to_multiset_ensures();
    if a.len() == 0 {
        assert(key_texts(a) =~= key_texts(b));
    } else {
        let last = a.last();
        let init = a.drop_last();
        assert(a =~= init.push(last));
        assert(a[a.len() - 1] == last);
        assert(a.contains(last));
        assert(b.to_multiset().count(last) > 0);
        assert(b.contains(last));
        let i = choose|i: int| 0 <= i < b.len() && b[i] == last;
        let rest = b.remove(i);
        assert(rest.insert(i, last) =~= b);
        to_multiset_insert(rest, i, last);
        init.to_multiset_ensures();
        assert(init.to_multiset() =~= rest.to_multiset()) by {
            assert(init.to_multiset().insert(last) == rest.to_multiset().insert(last));
            assert(init.to_multiset() =~= a.to_multiset().remove(last));
            assert(rest.to_multiset() =~= b.to_multiset().remove(last));
        }
        lemma_key_texts_multiset(init, rest);
        assert(key_texts(a) =~= key_texts(init).push(last.text));
        key_texts(init).to_multiset_ensures();
        assert(key_texts(b) =~= key_texts(rest).insert(i, last.text));
        to_multiset_insert(key_texts(rest), i, last.text);
    }
}

/// A descriptor's text up to its checksum: the bytes before the first `#`.
pub open spec fn descriptor_body(b: Seq<u8>) -> Seq<u8>
    decreases b.len(),
{
    if b.len() == 0 || b[0] == 0x23 {
        Seq::empty()
    } else {
        seq![b[0]] + descriptor_body(b.drop_first())
    }
}

/// What a wallet's fingerprint is the digest of: the name of the network, a colon, and the
/// descriptor without its checksum.
pub open spec fn fingerprint_preimage(network: Network, descriptor: Seq<char>) -> Seq<u8> {
    encode_utf8(network.name_spec()) + seq![0x3au8] + descriptor_body(encode_utf8(descriptor))
}

/// Bytes before the first `#`, some of them taken apart.
proof fn lemma_body_prefix(b: Seq<u8>, n: nat)
    requires
        n <= b.len(),
        forall|i: int| 0 <= i < n ==> b[i] != 0x23,
    ensures
        descriptor_body(b) == b.take(n as int) + descriptor_body(b.skip(n as int)),
    decreases n,
{
    if n == 0 {
        assert(b.skip(0) =~= b);
        assert(b.take(0) + descriptor_body(b) =~= descriptor_body(b));
    } else {
        lemma_body_prefix(b.drop_first(), (n - 1) as nat);
        assert(b.drop_first().skip(n - 1) =~= b.skip(n as int));
        assert(seq![b[0]] + b.drop_first().take(n - 1) =~= b.take(n as int));
        assert(descriptor_body(b) =~= b.take(n as int) + descriptor_body(b.skip(n as int)));
    }
}

/// The content address of a wallet: the SHA-256 digest of the network and the descriptor.
///
/// The checksum is left out, since it says nothing of its own. The same wallet always has the
/// same fingerprint; the same keys on another network are another wallet.
pub fn descriptor_fingerprint(descriptor: &Descriptor, network: Network) -> (r:
    DescriptorFingerprint)
    ensures
        r@ == sha256(fingerprint_preimage(network, descriptor@.text)),
{
    let text: &[u8] = descriptor.as_str().as_bytes();
    let mut n: usize = 0;
    while n < text.len() && text[n] != 0x23
        invariant
            n <= text@.len(),
            forall|i: int| 0 <= i < n ==> text@[i] != 0x23,
        decreases text@.len() - n,
    {
        n += 1;
    }
    let body: Vec<u8> = copy_range(text, 0, n);
    proof {
        lemma_body_prefix(text@, n as nat);
        assert(body@ =~= text@.take(n as int));
        assert(descriptor_body(text@.skip(n as int)) =~= Seq::<u8>::empty());
        assert(body@ =~= descriptor_body(text@));
    }
    let mut preimage: Vec<u8> = Vec::new();
    append_bytes(&mut preimage, network.name().as_bytes());
    preimage.push(0x3a);
    append_bytes(&mut preimage, body.as_slice());
    assert(preimage@ =~= fingerprint_preimage(network, descriptor@.text));
    DescriptorFingerprint::digest_of(preimage.as_slice())
}

/// The checksum does not matter to the fingerprint: two texts that agree before the first `#`
/// are the same wallet.
pub proof fn law_fingerprint_ignores_checksum(
    network: Network,
    a: Seq<char>,
    b: Seq<char>,
)
    requires
        descriptor_body(encode_utf8(a)) == descriptor_body(encode_utf8(b)),
    ensures
        sha256(fingerprint_preimage(network, a)) == sha256(fingerprint_preimage(network, b)),
{
}

/// A wallet has one fingerprint, however it was imported. The same keystores in another order
/// form a descriptor with the same text, reading that text without its checksum gives one with
/// the same text again, and each of these has the fingerprint that is the digest of the name of
/// the network, a colon and the text without the checksum.
pub proof fn law_fingerprint_of_reimported_wallet(
    threshold: nat,
    first: Seq<KeystoreView>,
    second: Seq<KeystoreView>,
    network: Network,
    body: Seq<char>,
)
    requires
        first.to_multiset() == second.to_multiset(),
        policy_descriptor(threshold, first) is Ok,
        reads_back((policy_descriptor(threshold, first)->Ok_0).text),
        is_body_of(body, (policy_descriptor(threshold, first)->Ok_0).text),
    ensures
        policy_descriptor(threshold, second) is Ok,
        canonical_descriptor(body) is Ok,
        ({
            let d1 = policy_descriptor(threshold, first)->Ok_0;
            let d2 = policy_descriptor(threshold, second)->Ok_0;
            let d3 = canonical_descriptor(body)->Ok_0;
            let f = sha256(encode_utf8(network.name_spec()) + seq![0x3au8] + encode_utf8(body));
            &&& d1.text == d2.text
            &&& d1.text == d3.text
            &&& sha256(fingerprint_preimage(network, d1.text)) == f
            &&& sha256(fingerprint_preimage(network, d2.text)) == f
            &&& sha256(fingerprint_preimage(network, d3.text)) == f
        }),
{
    law_descriptor_ignores_key_order(threshold, first, second);
}

/// A body ends before the first `#`, whatever comes behind it.
pub proof fn law_body_drops_checksum(body: Seq<u8>, checksum: Seq<u8>)
    requires
        forall|i: int| 0 <= i < body.len() ==> body[i] != 0x23,
    ensures
        descriptor_body(body) == body,
        descriptor_body(body + seq![0x23u8] + checksum) == body,
{
    let b = body + seq![0x23u8] + checksum;
    lemma_body_prefix(body, body.len());
    assert(body.skip(body.len() as int) =~= Seq::<u8>::empty());
    assert(body.take(body.len() as int) + Seq::<u8>::empty() =~= body);
    lemma_body_prefix(b, body.len());
    assert(b.take(body.len() as int) =~= body);
    assert(b.skip(body.len() as int)[0] == 0x23);
    assert(body + Seq::<u8>::empty() =~= body);
}

/// The name of a network is plain text without a colon.
proof fn lemma_network_name(network: Network)
    ensures
        forall|i: int|
            0 <= i < encode_utf8(network.name_spec()).len() ==> encode_utf8(network.name_spec())[i]
                != 0x3a,
{
    reveal_strlit("bitcoin");
    reveal_strlit("testnet");
    reveal_strlit("testnet4");
    reveal_strlit("signet");
    reveal_strlit("regtest");
    let name = network.name_spec();
    assert(is_ascii_chars(name)) by {
        assert forall|i: int| 0 <= i < name.len() implies '\0' <= #[trigger] name[i] <= '\u{7f}' by {}
    }
    is_ascii_chars_encode_utf8(name);
    assert forall|i: int| 0 <= i < encode_utf8(name).len() implies encode_utf8(name)[i]
        != 0x3a by {
        assert(name[i] as u8 == encode_utf8(name)[i]);
    }
}

/// Different networks have different names.
proof fn lemma_network_names_differ(a: Network, b: Network)
    requires
        a.name_spec() == b.name_spec(),
    ensures
        a == b,
{
    reveal_strlit("bitcoin");
    reveal_strlit("testnet");
    reveal_strlit("testnet4");
    reveal_strlit("signet");
    reveal_strlit("regtest");
    assert("bitcoin"@[0] == 'b' && "signet"@[0] == 's' && "regtest"@[0] == 'r');
    assert("testnet"@[0] == 't' && "testnet4"@[0] == 't');
    assert("testnet"@.len() == 7 && "testnet4"@.len() == 8);
}

/// Different wallets have different preimages: what is hashed tells the network and the
/// descriptor without its checksum, so that equal fingerprints of different wallets could only
/// come of a collision of the hash.
pub proof fn law_preimage_tells_wallets_apart(
    a_network: Network,
    a: Seq<char>,
    b_network: Network,
    b: Seq<char>,
)
    requires
        fingerprint_preimage(a_network, a) == fingerprint_preimage(b_network, b),
    ensures
        a_network == b_network,
        descriptor_body(encode_utf8(a)) == descriptor_body(encode_utf8(b)),
{
    let x = encode_utf8(a_network.name_spec());
    let y = encode_utf8(b_network.name_spec());
    let p = fingerprint_preimage(a_network, a);
    let q = fingerprint_preimage(b_network, b);
    lemma_network_name(a_network);
    lemma_network_name(b_network);
    assert(p[x.len() as int] == 0x3a);
    assert(q[y.len() as int] == 0x3a);
    if x.len() < y.len() {
        assert(q[x.len() as int] == y[x.len() as int]);
    } else if y.len() < x.len() {
        assert(p[y.len() as int] == x[y.len() as int]);
    }
    assert(x =~= y) by {
        assert forall|i: int| 0 <= i < x.len() implies x[i] == y[i] by {
            assert(p[i] == x[i] && q[i] == y[i]);
        }
    }
    lemma_bytes_determine_text(a_network.name_spec(), b_network.name_spec());
    lemma_network_names_differ(a_network, b_network);
    let n = x.len() as int + 1;
    assert(p.skip(n) =~= descriptor_body(encode_utf8(a)));
    assert(q.skip(n) =~= descriptor_body(encode_utf8(b)));
}

/// Policies over the same keys that ask for different numbers of signatures are different
/// wallets: what is hashed for their fingerprints differs.
pub proof fn law_preimage_tells_thresholds_apart(
    network: Network,
    a_threshold: nat,
    a: Seq<char>,
    b_threshold: nat,
    b: Seq<char>,
    keys: Seq<Seq<char>>,
)
    requires
        a_threshold <= MAX_KEYS,
        b_threshold <= MAX_KEYS,
        a_threshold != b_threshold,
        is_body_of(sortedmulti_body(a_threshold, keys), a),
        is_body_of(sortedmulti_body(b_threshold, keys), b),
    ensures
        fingerprint_preimage(network, a) != fingerprint_preimage(network, b),
{
    if fingerprint_preimage(network, a) == fingerprint_preimage(network, b) {
        law_preimage_tells_wallets_apart(network, a, network, b);
        let x = sortedmulti_body(a_threshold, keys);
        let y = sortedmulti_body(b_threshold, keys);
        lemma_bytes_determine_text(x, y);
        if a_threshold < b_threshold {
            lemma_thresholds_differ(a_threshold, b_threshold, keys);
        } else {
            lemma_thresholds_differ(b_threshold, a_threshold, keys);
        }
    }
}

/// What is listed starts with a comma.
proof fn lemma_listed_start(texts: Seq<Seq<char>>)
    ensures
        texts.len() == 0 || (listed(texts).len() > 0 && listed(texts)[0] == ','),
    decreases texts.len(),
{
    if texts.len() > 0 {
        lemma_listed_start(texts.drop_last());
        let before = listed(texts.drop_last());
        if before.len() == 0 {
            assert(listed(texts)[0] == seq![','][0]);
        } else {
            assert(listed(texts)[0] == before[0]);
        }
    }
}

/// Descriptors with different thresholds differ in a digit.
proof fn lemma_thresholds_differ(a: nat, b: nat, keys: Seq<Seq<char>>)
    requires
        a < b <= MAX_KEYS,
    ensures
        sortedmulti_body(a, keys) != sortedmulti_body(b, keys),
{
    reveal_strlit("wsh(sortedmulti(");
    reveal_strlit("))");
    lemma_listed_start(keys);
    let x = sortedmulti_body(a, keys);
    let y = sortedmulti_body(b, keys);
    let n = "wsh(sortedmulti("@.len() as int;
    let rest = listed(keys) + "))"@;
    let digits = hex_digits();
    assert(x =~= "wsh(sortedmulti("@ + decimal(a) + rest);
    assert(y =~= "wsh(sortedmulti("@ + decimal(b) + rest);
    assert(x[n] == decimal(a)[0] && y[n] == decimal(b)[0]);
    assert forall|i: int, j: int| 0 <= i < j < 10 implies digits[i] != digits[j] && digits[j] != ','
        && digits[j] != ')' && digits[i] != ',' && digits[i] != ')' by {}
    if a < 10 && b >= 10 {
        assert(x[n + 1] == rest[0]);
        assert(y[n + 1] == digits[b as int % 10]);
        if keys.len() == 0 {
            assert(listed(keys) =~= Seq::<char>::empty());
            assert(rest[0] == ')');
        } else {
            assert(rest[0] == ',');
        }
        if b as int % 10 == 0 {
            assert(digits[0] != ',');
        }
    } else if a >= 10 {
        assert(x[n + 1] == digits[a as int % 10]);
        assert(y[n + 1] == digits[b as int % 10]);
    }
}

/// Fingerprints in the order in which they are met, each once.
pub open spec fn distinct(fingerprints: Seq<KeyFingerprint>) -> Seq<KeyFingerprint>
    decreases fingerprints.len(),
{
    if fingerprints.len() == 0 {
        Seq::empty()
    } else {
        let before = distinct(fingerprints.drop_last());
        if before.contains(fingerprints.last()) {
            before
        } else {
            before.push(fingerprints.last())
        }
    }
}

/// The four bytes of the master fingerprint of each key of a descriptor with this text, in the
/// order of the keys.
pub uninterp spec fn descriptor_key_origins(text: Seq<char>) -> Seq<Seq<u8>>;

/// `miniscript::ForEachKey::for_each_key` on a descriptor read from a text, which hands out the
/// keys in their order, with `master_fingerprint` of each. The text of the descriptor tells these.
#[verifier::external_body]
fn read_key_origins(source: &str) -> (r: Vec<[u8; 4]>)
    ensures
        match canonical_descriptor(source@) {
            Ok(d) => Seq::new(r@.len(), |i: int| r@[i]@) == descriptor_key_origins(d.text),
            Err(_) => r@.len() == 0,
        },
{
    let mut origins = Vec::new();
    match source.parse::<miniscript::Descriptor<miniscript::DescriptorPublicKey>>() {
        Ok(descriptor) => {
            descriptor.for_each_key(|key| {
                origins.push(key.master_fingerprint().to_bytes());
                true
            });
        },
        Err(_) => {},
    }
    origins
}

/// The distinct ones among fingerprints given by their bytes.
pub fn distinct_fingerprints(origins: &Vec<[u8; 4]>) -> (r: Vec<KeyFingerprint>)
    ensures
        r@ == distinct(Seq::new(origins@.len(), |i: int| fingerprint_of(origins@[i]@))),
{
    let ghost all = Seq::new(origins@.len(), |i: int| fingerprint_of(origins@[i]@));
    let mut r: Vec<KeyFingerprint> = Vec::new();
    let mut i: usize = 0;
    assert(r@ =~= distinct(all.take(0)));
    while i < origins.len()
        invariant
            i <= origins@.len(),
            all == Seq::new(origins@.len(), |k: int| fingerprint_of(origins@[k]@)),
            r@ == distinct(all.take(i as int)),
        decreases origins@.len() - i,
    {
        let f: KeyFingerprint = KeyFingerprint::from_bytes(origins[i]);
        assert(all.take(i + 1).drop_last() =~= all.take(i as int));
        assert(all.take(i + 1).last() == f);
        if !has_fingerprint(&r, f) {
            r.push(f);
        }
        i += 1;
    }
    assert(all.take(i as int) =~= all);
    r
}

/// Whether a list holds a fingerprint.
pub fn has_fingerprint(fingerprints: &Vec<KeyFingerprint>, f: KeyFingerprint) -> (r: bool)
    ensures
        r == fingerprints@.contains(f),
{
    let mut i: usize = 0;
    while i < fingerprints.len()
        invariant
            i <= fingerprints@.len(),
            forall|j: int| 0 <= j < i ==> fingerprints@[j] != f,
        decreases fingerprints@.len() - i,
    {
        if fingerprints[i] == f {
            return true;
        }
        i += 1;
    }
    false
}

/// Master fingerprints of the descriptor's keystores, each once, in the order of the keys.
pub fn descriptor_fingerprints(descriptor: &Descriptor) -> (r: Vec<KeyFingerprint>)
    ensures
        r@ == distinct(
            descriptor_key_origins(descriptor@.text).map_values(|b: Seq<u8>| fingerprint_of(b)),
        ),
{
    let origins: Vec<[u8; 4]> = read_key_origins(descriptor.source());
    let r: Vec<KeyFingerprint> = distinct_fingerprints(&origins);
    assert(Seq::new(origins@.len(), |i: int| fingerprint_of(origins@[i]@))
        =~= descriptor_key_origins(descriptor@.text).map_values(|b: Seq<u8>| fingerprint_of(b)));
    r
}

/// What comes out of [`distinct`] holds each fingerprint that went in, and none twice.
pub proof fn law_distinct(fingerprints: Seq<KeyFingerprint>)
    ensures
        distinct(fingerprints).no_duplicates(),
        forall|f: KeyFingerprint|
            distinct(fingerprints).contains(f) <==> #[trigger] fingerprints.contains(f),
    decreases fingerprints.len(),
{
    if fingerprints.len() > 0 {
        let init = fingerprints.drop_last();
        let last = fingerprints.last();
        let before = distinct(init);
        let r = distinct(fingerprints);
        law_distinct(init);
        assert(fingerprints =~= init.push(last));
        assert forall|f: KeyFingerprint| r.contains(f) <==> #[trigger] fingerprints.contains(f) by {
            assert(init.contains(f) <==> before.contains(f));
            if fingerprints.contains(f) && f != last {
                let i = choose|i: int| 0 <= i < fingerprints.len() && fingerprints[i] == f;
                assert(init[i] == f);
            }
            if init.contains(f) {
                let i = choose|i: int| 0 <= i < init.len() && init[i] == f;
                assert(fingerprints[i] == f);
            }
            assert(fingerprints[fingerprints.len() - 1] == last);
            if r.contains(f) {
                let i = choose|i: int| 0 <= i < r.len() && r[i] == f;
                if i < before.len() {
                    assert(before[i] == f);
                }
            }
            if before.contains(f) {
                let i = choose|i: int| 0 <= i < before.len() && before[i] == f;
                assert(r[i] == f);
            }
            if f == last && !before.contains(last) {
                assert(r[r.len() - 1] == last);
            }
        }
    }
}

} // verus!
