//! What the fields of a partially signed transaction mean.

use vstd::prelude::*;

use crate::bytes::bytes_equal;
use crate::primitives::{fingerprint_of, KeyFingerprint};
use crate::psbt::codec::{FieldMap, Pair, PairView};

verus! {

/// The value stored under a key, if any; the first one, should the key stand there twice.
pub open spec fn lookup(m: Seq<PairView>, key: Seq<u8>) -> Option<Seq<u8>>
    decreases m.len(),
{
    if m.len() == 0 {
        None
    } else {
        match lookup(m.drop_last(), key) {
            Some(v) => Some(v),
            None => if m.last().key == key {
                Some(m.last().value)
            } else {
                None
            },
        }
    }
}

/// The key of the unsigned transaction in the global map.
pub open spec fn unsigned_tx_key() -> Seq<u8> {
    seq![0u8]
}

/// The unsigned transaction of a global map.
pub open spec fn unsigned_tx(global: Seq<PairView>) -> Option<Seq<u8>> {
    lookup(global, unsigned_tx_key())
}

/// Whether a field of the global map is not the unsigned transaction.
pub open spec fn is_side_field(p: PairView) -> bool {
    p.key != unsigned_tx_key()
}

/// The fields of a global map but for the unsigned transaction: version, extended keys,
/// proprietary and unknown ones.
pub open spec fn side_fields(m: Seq<PairView>) -> Seq<PairView>
    decreases m.len(),
{
    if m.len() == 0 {
        Seq::empty()
    } else if is_side_field(m.last()) {
        side_fields(m.drop_last()).push(m.last())
    } else {
        side_fields(m.drop_last())
    }
}

/// Whether a field of an input map is a partial signature: its type byte is 2, and the public
/// key follows it.
pub open spec fn is_sig(p: PairView) -> bool {
    p.key.len() > 0 && p.key[0] == 2
}

/// The key under which the partial signature of a public key is stored.
pub open spec fn sig_key(pubkey: Seq<u8>) -> Seq<u8> {
    seq![2u8] + pubkey
}

/// The fields of an input map but for its partial signatures.
pub open spec fn without_sigs(m: Seq<PairView>) -> Seq<PairView>
    decreases m.len(),
{
    if m.len() == 0 {
        Seq::empty()
    } else if is_sig(m.last()) {
        without_sigs(m.drop_last())
    } else {
        without_sigs(m.drop_last()).push(m.last())
    }
}

/// The compressed form of a public key of either form: the parity of its second coordinate
/// and its first coordinate.
pub open spec fn compressed(pubkey: Seq<u8>) -> Seq<u8> {
    if pubkey.len() == 65 {
        seq![if pubkey[64] % 2 == 0 { 2u8 } else { 3u8 }] + pubkey.subrange(1, 33)
    } else {
        pubkey
    }
}

/// The key under which an input map stores where a public key was derived from: its type byte
/// is 6, and the compressed public key follows it.
pub open spec fn key_source_key(pubkey: Seq<u8>) -> Seq<u8> {
    seq![6u8] + compressed(pubkey)
}

/// Whether an input map says that a public key was derived from the master key with this
/// fingerprint.
pub open spec fn bound_to(m: Seq<PairView>, pubkey: Seq<u8>, fingerprint: KeyFingerprint) -> bool {
    match lookup(m, key_source_key(pubkey)) {
        Some(v) => v.len() >= 4 && fingerprint_of(v.take(4)) == fingerprint,
        None => false,
    }
}

/// Whether a partial signature signs all inputs and outputs: its last byte, the signature hash
/// type, is 1.
pub open spec fn signs_all(value: Seq<u8>) -> bool {
    value.len() > 0 && value.last() == 1
}

/// What a key leads to is a value that stands in the map.
pub proof fn lemma_lookup_found(m: Seq<PairView>, key: Seq<u8>)
    ensures
        match lookup(m, key) {
            Some(v) => exists|i: int|
                0 <= i < m.len() && (#[trigger] m[i]).key == key && m[i].value == v,
            None => forall|i: int| 0 <= i < m.len() ==> (#[trigger] m[i]).key != key,
        },
    decreases m.len(),
{
    if m.len() > 0 {
        let init = m.drop_last();
        lemma_lookup_found(init, key);
        match lookup(init, key) {
            Some(v) => {
                let i = choose|i: int|
                    0 <= i < init.len() && (#[trigger] init[i]).key == key && init[i].value == v;
                assert(m[i].key == key && m[i].value == v);
            },
            None => {
                assert forall|i: int| 0 <= i < m.len() - 1 implies (#[trigger] m[i]).key != key by {
                    assert(init[i].key != key);
                }
                if m.last().key == key {
                    assert(m[m.len() - 1].key == key);
                }
            },
        }
    }
}

impl Pair {
    /// A copy of the field.
    pub fn copied(&self) -> (r: Pair)
        ensures
            r@ == self@,
    {
        Pair { key: self.key.clone(), value: self.value.clone() }
    }

    /// Whether the field is a partial signature.
    pub fn is_partial_sig(&self) -> (r: bool)
        ensures
            r == is_sig(self@),
    {
        self.key.len() > 0 && self.key[0] == 2
    }
}

/// Two views of fields are the same if their bytes are.
fn same_pair(a: &Pair, b: &Pair) -> (r: bool)
    ensures
        r == (a@ == b@),
{
    bytes_equal(a.key.as_slice(), b.key.as_slice()) && bytes_equal(
        a.value.as_slice(),
        b.value.as_slice(),
    )
}

impl FieldMap {
    /// The value stored under a key.
    pub fn get(&self, key: &[u8]) -> (r: Option<&Vec<u8>>)
        ensures
            match r {
                Some(v) => lookup(self@, key@) == Some(v@),
                None => lookup(self@, key@) is None,
            },
    {
        let mut i: usize = 0;
        assert(self@.take(0) =~= Seq::<PairView>::empty());
        while i < self.pairs.len()
            invariant
                i <= self.pairs@.len(),
                lookup(self@.take(i as int), key@) is None,
            decreases self.pairs@.len() - i,
        {
            assert(self@.take(i + 1).drop_last() =~= self@.take(i as int));
            if bytes_equal(self.pairs[i].key.as_slice(), key) {
                proof {
                    lemma_lookup_prefix(self@, key@, i + 1);
                }
                return Some(&self.pairs[i].value);
            }
            i += 1;
        }
        assert(self@.take(i as int) =~= self@);
        None
    }

    /// Whether the map holds a key.
    pub fn has(&self, key: &[u8]) -> (r: bool)
        ensures
            r == (lookup(self@, key@) is Some),
    {
        match self.get(key) {
            Some(_) => true,
            None => false,
        }
    }

    /// A copy of the map.
    pub fn copied(&self) -> (r: FieldMap)
        ensures
            r@ == self@,
    {
        let mut r: FieldMap = FieldMap { pairs: Vec::new() };
        let mut i: usize = 0;
        while i < self.pairs.len()
            invariant
                i <= self.pairs@.len(),
                r@ =~= self@.take(i as int),
            decreases self.pairs@.len() - i,
        {
            let ghost before = r@;
            r.pairs.push(self.pairs[i].copied());
            assert(r@ =~= before.push(self@[i as int]));
            i += 1;
        }
        assert(r@ =~= self@);
        r
    }

    /// Whether two maps hold the same fields in the same order.
    pub fn same(&self, other: &FieldMap) -> (r: bool)
        ensures
            r == (self@ == other@),
    {
        if self.pairs.len() != other.pairs.len() {
            assert(self@.len() != other@.len());
            return false;
        }
        let mut i: usize = 0;
        while i < self.pairs.len()
            invariant
                self.pairs@.len() == other.pairs@.len(),
                i <= self.pairs@.len(),
                forall|j: int| 0 <= j < i ==> self@[j] == other@[j],
            decreases self.pairs@.len() - i,
        {
            if !same_pair(&self.pairs[i], &other.pairs[i]) {
                assert(self@[i as int] != other@[i as int]);
                return false;
            }
            i += 1;
        }
        assert(self@ =~= other@);
        true
    }

    /// The fields but for the unsigned transaction.
    pub fn side_fields(&self) -> (r: FieldMap)
        ensures
            r@ == side_fields(self@),
    {
        let mut r: FieldMap = FieldMap { pairs: Vec::new() };
        let mut i: usize = 0;
        assert(r@ =~= side_fields(self@.take(0)));
        while i < self.pairs.len()
            invariant
                i <= self.pairs@.len(),
                r@ == side_fields(self@.take(i as int)),
            decreases self.pairs@.len() - i,
        {
            let ghost before = r@;
            assert(self@.take(i + 1).drop_last() =~= self@.take(i as int));
            let is_tx: bool = self.pairs[i].key.len() == 1 && self.pairs[i].key[0] == 0;
            assert(is_tx == (self.pairs[i as int].key@ =~= unsigned_tx_key()));
            if !is_tx {
                r.pairs.push(self.pairs[i].copied());
                assert(r@ =~= before.push(self@[i as int]));
            }
            i += 1;
        }
        assert(self@.take(i as int) =~= self@);
        r
    }

    /// The fields but for the partial signatures.
    pub fn without_sigs(&self) -> (r: FieldMap)
        ensures
            r@ == without_sigs(self@),
    {
        let mut r: FieldMap = FieldMap { pairs: Vec::new() };
        let mut i: usize = 0;
        assert(r@ =~= without_sigs(self@.take(0)));
        while i < self.pairs.len()
            invariant
                i <= self.pairs@.len(),
                r@ == without_sigs(self@.take(i as int)),
            decreases self.pairs@.len() - i,
        {
            let ghost before = r@;
            assert(self@.take(i + 1).drop_last() =~= self@.take(i as int));
            if !self.pairs[i].is_partial_sig() {
                r.pairs.push(self.pairs[i].copied());
                assert(r@ =~= before.push(self@[i as int]));
            }
            i += 1;
        }
        assert(self@.take(i as int) =~= self@);
        r
    }

    /// Whether the map says that a public key was derived from the master key with this
    /// fingerprint.
    pub fn bound_to(&self, pubkey: &[u8], fingerprint: KeyFingerprint) -> (r: bool)
        ensures
            r == bound_to(self@, pubkey@, fingerprint),
    {
        let mut key: Vec<u8> = Vec::new();
        key.push(6);
        if pubkey.len() == 65 {
            key.push(
                if pubkey[64] % 2 == 0 {
                    2
                } else {
                    3
                },
            );
            crate::bytes::append_bytes(
                &mut key,
                crate::bytes::copy_range(pubkey, 1, 33).as_slice(),
            );
        } else {
            crate::bytes::append_bytes(&mut key, pubkey);
        }
        assert(key@ =~= key_source_key(pubkey@));
        match self.get(key.as_slice()) {
            Some(v) => {
                if v.len() < 4 {
                    false
                } else {
                    let found: KeyFingerprint = KeyFingerprint::from_bytes([v[0], v[1], v[2], v[3]]);
                    assert([v[0], v[1], v[2], v[3]]@ =~= v@.take(4));
                    found == fingerprint
                }
            },
            None => false,
        }
    }
}

/// What was found in the first fields of a map is found in the whole map.
pub proof fn lemma_lookup_prefix(m: Seq<PairView>, key: Seq<u8>, n: int)
    requires
        0 <= n <= m.len(),
        lookup(m.take(n), key) is Some,
    ensures
        lookup(m, key) == lookup(m.take(n), key),
    decreases m.len() - n,
{
    if n < m.len() {
        assert(m.take(n + 1).drop_last() =~= m.take(n));
        lemma_lookup_prefix(m, key, n + 1);
    } else {
        assert(m.take(n) =~= m);
    }
}

} // verus!
