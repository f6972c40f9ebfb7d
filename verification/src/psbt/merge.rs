//! Putting partial signatures into a document.

use vstd::prelude::*;

use crate::bytes::{append_bytes, bytes_equal, bytes_less, copy_range, precedes};
use crate::psbt::codec::{map_views, FieldMap, Pair, PairView, Psbt, PsbtView};
use crate::psbt::fields::{compressed, sig_key};
use crate::psbt::validation::{extracted_views, ExtractedSignature, ExtractedView};

verus! {

/// The order of public keys in a document: those in uncompressed form come first, and among
/// those of one form the compressed form decides.
pub open spec fn pubkey_less(a: Seq<u8>, b: Seq<u8>) -> bool {
    if a.len() == b.len() {
        bytes_less(compressed(a), compressed(b))
    } else {
        a.len() > b.len()
    }
}

/// Whether a field stands before the signature that is stored under `key`: the outputs that are
/// spent (types 0 and 1), and the signatures of keys that come first.
pub open spec fn stands_before(p: PairView, key: Seq<u8>) -> bool {
    p.key.len() > 0 && (p.key[0] < 2 || p.key[0] == 2 && p.key != key && pubkey_less(
        p.key.drop_first(),
        key.drop_first(),
    ))
}

/// An input map with a signature put in its place, instead of the one stored under that key
/// where there is one.
pub open spec fn put_sig(m: Seq<PairView>, key: Seq<u8>, value: Seq<u8>) -> Seq<PairView>
    decreases m.len(),
{
    let new = PairView { key, value };
    if m.len() == 0 {
        seq![new]
    } else if stands_before(m[0], key) {
        seq![m[0]] + put_sig(m.drop_first(), key, value)
    } else if m[0].key == key {
        seq![new] + m.drop_first()
    } else {
        seq![new] + m
    }
}

/// A document with signatures put in one after the other.
pub open spec fn merge(original: PsbtView, sigs: Seq<ExtractedView>) -> PsbtView
    decreases sigs.len(),
{
    if sigs.len() == 0 {
        original
    } else {
        let before = merge(original, sigs.drop_last());
        let s = sigs.last();
        let i = s.input_index as int;
        PsbtView {
            inputs: before.inputs.update(
                i,
                put_sig(before.inputs[i], sig_key(s.pubkey), s.signature),
            ),
            ..before
        }
    }
}

/// Compares two public keys.
fn pubkey_precedes(a: &[u8], b: &[u8]) -> (r: bool)
    ensures
        r == pubkey_less(a@, b@),
{
    if a.len() != b.len() {
        return a.len() > b.len();
    }
    let x: Vec<u8> = compressed_form(a);
    let y: Vec<u8> = compressed_form(b);
    precedes(x.as_slice(), y.as_slice())
}

/// The compressed form of a public key.
fn compressed_form(pubkey: &[u8]) -> (r: Vec<u8>)
    ensures
        r@ == compressed(pubkey@),
{
    let mut r: Vec<u8> = Vec::new();
    if pubkey.len() == 65 {
        r.push(
            if pubkey[64] % 2 == 0 {
                2
            } else {
                3
            },
        );
        append_bytes(&mut r, copy_range(pubkey, 1, 33).as_slice());
    } else {
        append_bytes(&mut r, pubkey);
    }
    assert(r@ =~= compressed(pubkey@));
    r
}

/// Whether a field stands before the signature that is stored under `key`.
fn is_before(pair: &Pair, key: &Vec<u8>) -> (r: bool)
    requires
        key@.len() > 0,
    ensures
        r == stands_before(pair@, key@),
{
    if pair.key.len() == 0 {
        return false;
    }
    if pair.key[0] < 2 {
        return true;
    }
    if pair.key[0] != 2 || bytes_equal(pair.key.as_slice(), key.as_slice()) {
        return false;
    }
    let a: Vec<u8> = copy_range(pair.key.as_slice(), 1, pair.key.len());
    let b: Vec<u8> = copy_range(key.as_slice(), 1, key.len());
    assert(a@ =~= pair@.key.drop_first());
    assert(b@ =~= key@.drop_first());
    pubkey_precedes(a.as_slice(), b.as_slice())
}

/// Fields that stand before a signature stay where they are.
pub proof fn lemma_put_sig_after(m: Seq<PairView>, key: Seq<u8>, value: Seq<u8>, n: nat)
    requires
        n <= m.len(),
        forall|i: int| 0 <= i < n ==> stands_before(#[trigger] m[i], key),
    ensures
        put_sig(m, key, value) == m.take(n as int) + put_sig(m.skip(n as int), key, value),
    decreases n,
{
    if n == 0 {
        assert(m.skip(0) =~= m);
        assert(m.take(0) + put_sig(m, key, value) =~= put_sig(m, key, value));
    } else {
        let rest = m.drop_first();
        assert forall|i: int| 0 <= i < n - 1 implies stands_before(#[trigger] rest[i], key) by {
            assert(rest[i] == m[i + 1]);
        }
        assert(stands_before(m[0], key));
        lemma_put_sig_after(rest, key, value, (n - 1) as nat);
        assert(rest.skip(n - 1) =~= m.skip(n as int));
        assert(seq![m[0]] + rest.take(n - 1) =~= m.take(n as int));
        assert(put_sig(m, key, value) =~= m.take(n as int) + put_sig(
            m.skip(n as int),
            key,
            value,
        ));
    }
}

impl FieldMap {
    /// Puts a signature in its place.
    pub fn put_sig(&mut self, pubkey: &[u8], signature: &[u8])
        ensures
            final(self)@ == put_sig(old(self)@, sig_key(pubkey@), signature@),
    {
        let mut key: Vec<u8> = Vec::new();
        key.push(2);
        append_bytes(&mut key, pubkey);
        assert(key@ =~= sig_key(pubkey@));
        let value: Vec<u8> = copy_range(signature, 0, signature.len());
        assert(value@ =~= signature@);
        let mut i: usize = 0;
        while i < self.pairs.len() && is_before(&self.pairs[i], &key)
            invariant
                i <= self.pairs@.len(),
                key@ == sig_key(pubkey@),
                self@ == old(self)@,
                forall|j: int| 0 <= j < i ==> stands_before(#[trigger] self@[j], key@),
            decreases self.pairs@.len() - i,
        {
            assert(self@[i as int] == self.pairs@[i as int]@);
            i += 1;
        }
        let ghost m = self@;
        let ghost new = PairView { key: key@, value: value@ };
        proof {
            lemma_put_sig_after(m, key@, value@, i as nat);
            if i < m.len() {
                assert(m.skip(i as int)[0] == m[i as int]);
                assert(m[i as int] == self.pairs@[i as int]@);
            }
        }
        if i < self.pairs.len() && bytes_equal(self.pairs[i].key.as_slice(), key.as_slice()) {
            let pair: Pair = Pair { key, value };
            self.pairs.set(i, pair);
            assert(m.skip(i as int).drop_first() =~= m.skip(i + 1));
            assert(self@ =~= m.take(i as int) + (seq![new] + m.skip(i + 1)));
        } else {
            let pair: Pair = Pair { key, value };
            self.pairs.insert(i, pair);
            assert(self@ =~= m.take(i as int) + (seq![new] + m.skip(i as int)));
            proof {
                if i == m.len() {
                    assert(m.skip(i as int) =~= Seq::<PairView>::empty());
                    assert(self@ =~= m.take(i as int) + seq![new]);
                }
            }
        }
    }
}

impl Psbt {
    /// A copy of the document.
    pub fn copied(&self) -> (r: Psbt)
        ensures
            r@ == self@,
    {
        let inputs: Vec<FieldMap> = copied_maps(&self.inputs);
        let outputs: Vec<FieldMap> = copied_maps(&self.outputs);
        Psbt { global: self.global.copied(), inputs, outputs }
    }

    /// Puts a signature into the map of an input.
    pub fn put_input_sig(&mut self, index: usize, pubkey: &[u8], signature: &[u8])
        requires
            index < old(self)@.inputs.len(),
        ensures
            final(self)@ == (PsbtView {
                inputs: old(self)@.inputs.update(
                    index as int,
                    put_sig(old(self)@.inputs[index as int], sig_key(pubkey@), signature@),
                ),
                ..old(self)@
            }),
    {
        let mut map: FieldMap = self.inputs[index].copied();
        assert(map@ == self@.inputs[index as int]);
        map.put_sig(pubkey, signature);
        self.inputs.set(index, map);
        assert(self@.inputs =~= old(self)@.inputs.update(
            index as int,
            put_sig(old(self)@.inputs[index as int], sig_key(pubkey@), signature@),
        ));
    }
}

/// Copies of maps.
fn copied_maps(maps: &Vec<FieldMap>) -> (r: Vec<FieldMap>)
    ensures
        map_views(r@) == map_views(maps@),
{
    let mut r: Vec<FieldMap> = Vec::new();
    let mut i: usize = 0;
    while i < maps.len()
        invariant
            i <= maps@.len(),
            r@.len() == i,
            forall|j: int| 0 <= j < i ==> (#[trigger] r@[j])@ == maps@[j]@,
        decreases maps@.len() - i,
    {
        r.push(maps[i].copied());
        i += 1;
    }
    assert(map_views(r@) =~= map_views(maps@));
    r
}

/// Whether every signature of a list is for an input that the document has.
pub open spec fn sigs_fit(p: PsbtView, sigs: Seq<ExtractedView>) -> bool {
    forall|i: int| 0 <= i < sigs.len() ==> (#[trigger] sigs[i]).input_index < p.inputs.len()
}

/// The first signatures of a list that fits fit too.
pub proof fn lemma_sigs_fit_prefix(p: PsbtView, sigs: Seq<ExtractedView>, n: int)
    requires
        sigs_fit(p, sigs),
        0 <= n <= sigs.len(),
    ensures
        sigs_fit(p, sigs.take(n)),
        n == sigs.len() - 1 ==> sigs_fit(p, sigs.drop_last()),
{
    assert forall|i: int| 0 <= i < n implies (#[trigger] sigs.take(n)[i]).input_index
        < p.inputs.len() by {
        assert(sigs.take(n)[i] == sigs[i]);
    }
    if n == sigs.len() - 1 {
        assert(sigs.take(n) =~= sigs.drop_last());
    }
}

/// Merging keeps the number of inputs.
pub proof fn lemma_merge_input_count(original: PsbtView, sigs: Seq<ExtractedView>)
    requires
        sigs_fit(original, sigs),
    ensures
        merge(original, sigs).inputs.len() == original.inputs.len(),
    decreases sigs.len(),
{
    if sigs.len() > 0 {
        lemma_sigs_fit_prefix(original, sigs, sigs.len() - 1);
        assert(sigs.last() == sigs[sigs.len() - 1]);
        lemma_merge_input_count(original, sigs.drop_last());
    }
}

/// The document that the platform stores: the original plus exactly the validated signatures.
/// The submitted document itself is never stored.
pub fn merge_partial_sigs(original: &Psbt, new_sigs: &[ExtractedSignature]) -> (r: Psbt)
    requires
        forall|i: int|
            0 <= i < new_sigs@.len() ==> (#[trigger] new_sigs@[i]).input_index
                < original@.inputs.len(),
    ensures
        r@ == merge(original@, extracted_views(new_sigs@)),
{
    let mut merged: Psbt = original.copied();
    let ghost views = extracted_views(new_sigs@);
    let mut i: usize = 0;
    assert(views.take(0) =~= Seq::<ExtractedView>::empty());
    while i < new_sigs.len()
        invariant
            i <= new_sigs@.len(),
            views == extracted_views(new_sigs@),
            forall|j: int|
                0 <= j < new_sigs@.len() ==> (#[trigger] new_sigs@[j]).input_index
                    < original@.inputs.len(),
            merged@ == merge(original@, views.take(i as int)),
        decreases new_sigs@.len() - i,
    {
        proof {
            assert(sigs_fit(original@, views)) by {
                assert forall|j: int| 0 <= j < views.len() implies (
                #[trigger] views[j]).input_index < original@.inputs.len() by {
                    assert(views[j] == new_sigs@[j]@);
                }
            }
            lemma_sigs_fit_prefix(original@, views, i as int);
            lemma_merge_input_count(original@, views.take(i as int));
            assert(views.take(i + 1).drop_last() =~= views.take(i as int));
            assert(views.take(i + 1).last() == new_sigs@[i as int]@);
        }
        let sig: &ExtractedSignature = &new_sigs[i];
        merged.put_input_sig(sig.input_index, sig.pubkey.as_slice(), sig.signature.as_slice());
        i += 1;
    }
    assert(views.take(i as int) =~= views);
    merged
}

} // verus!
