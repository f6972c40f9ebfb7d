//! What holds of validation and merging together.

use vstd::prelude::*;

use crate::primitives::KeyFingerprint;
use crate::psbt::codec::{PairView, PsbtView};
use crate::psbt::fields::{
    bound_to, is_sig, lemma_lookup_found, lookup, side_fields, sig_key, signs_all, unsigned_tx,
    without_sigs,
};
use crate::psbt::merge::{
    lemma_merge_input_count, lemma_sigs_fit_prefix, merge, put_sig, sigs_fit, stands_before,
};
use crate::psbt::validation::{
    added_sigs_outcome, changed_output, from_signer, input_outcome, inputs_outcome, is_new_sig,
    keeps_sigs, merged_outcome, new_sigs, sig_fault, sig_verdict, submission_outcome, verdict_at,
    verdicts_on, ExtractedView, SigVerdictView, ValidationFault,
};

verus! {

/// Looking a key up, the first field taken apart.
proof fn lemma_lookup_first(m: Seq<PairView>, key: Seq<u8>)
    requires
        m.len() > 0,
    ensures
        lookup(m, key) == if m[0].key == key {
            Some(m[0].value)
        } else {
            lookup(m.drop_first(), key)
        },
    decreases m.len(),
{
    if m.len() == 1 {
        assert(m.drop_last() =~= Seq::<PairView>::empty());
        assert(m.drop_first() =~= Seq::<PairView>::empty());
    } else {
        lemma_lookup_first(m.drop_last(), key);
        assert(m.drop_last().drop_first() =~= m.drop_first().drop_last());
        assert(m.drop_first().last() == m.last());
    }
}

/// Leaving signatures out, the first field taken apart.
pub proof fn lemma_without_sigs_first(m: Seq<PairView>)
    requires
        m.len() > 0,
    ensures
        without_sigs(m) == if is_sig(m[0]) {
            without_sigs(m.drop_first())
        } else {
            seq![m[0]] + without_sigs(m.drop_first())
        },
    decreases m.len(),
{
    if m.len() == 1 {
        assert(m.drop_last() =~= Seq::<PairView>::empty());
        assert(m.drop_first() =~= Seq::<PairView>::empty());
        assert(without_sigs(m.drop_first()) =~= Seq::<PairView>::empty());
        assert(Seq::<PairView>::empty().push(m[0]) =~= seq![m[0]] + Seq::<PairView>::empty());
    } else {
        lemma_without_sigs_first(m.drop_last());
        assert(m.drop_last().drop_first() =~= m.drop_first().drop_last());
        assert(m.drop_first().last() == m.last());
        let tail = without_sigs(m.drop_first().drop_last());
        assert((seq![m[0]] + tail).push(m.last()) =~= seq![m[0]] + tail.push(m.last()));
    }
}

/// Putting a signature into an input map changes what is stored under its key and nothing else.
pub proof fn law_put_sig(m: Seq<PairView>, pubkey: Seq<u8>, value: Seq<u8>, key: Seq<u8>)
    ensures
        lookup(put_sig(m, sig_key(pubkey), value), key) == if key == sig_key(pubkey) {
            Some(value)
        } else {
            lookup(m, key)
        },
        without_sigs(put_sig(m, sig_key(pubkey), value)) == without_sigs(m),
    decreases m.len(),
{
    let k = sig_key(pubkey);
    let new = PairView { key: k, value };
    let r = put_sig(m, k, value);
    assert(r.len() > 0 && is_sig(new));
    lemma_lookup_first(r, key);
    lemma_without_sigs_first(r);
    if m.len() == 0 {
        assert(r.drop_first() =~= m);
    } else {
        lemma_lookup_first(m, key);
        lemma_without_sigs_first(m);
        if stands_before(m[0], k) {
            law_put_sig(m.drop_first(), pubkey, value, key);
            assert(r.drop_first() =~= put_sig(m.drop_first(), k, value));
        } else if m[0].key == k {
            assert(r.drop_first() =~= m.drop_first());
        } else {
            assert(r.drop_first() =~= m);
        }
    }
}

/// A field of a map into which a signature was put is that signature or was there before.
pub proof fn lemma_put_sig_members(m: Seq<PairView>, key: Seq<u8>, value: Seq<u8>, j: int)
    requires
        0 <= j < put_sig(m, key, value).len(),
    ensures
        put_sig(m, key, value)[j] == (PairView { key, value }) || m.contains(
            put_sig(m, key, value)[j],
        ),
    decreases m.len(),
{
    let r = put_sig(m, key, value);
    if m.len() > 0 && j > 0 {
        if stands_before(m[0], key) {
            lemma_put_sig_members(m.drop_first(), key, value, j - 1);
            let x = put_sig(m.drop_first(), key, value)[j - 1];
            assert(r[j] == x);
            if m.drop_first().contains(x) {
                let i = choose|i: int| 0 <= i < m.drop_first().len() && m.drop_first()[i] == x;
                assert(m[i + 1] == x);
            }
        } else if m[0].key == key {
            assert(r[j] == m[j]);
        } else {
            assert(r[j] == m[j - 1]);
        }
    } else if m.len() > 0 {
        if stands_before(m[0], key) {
            assert(r[0] == m[0]);
        }
    }
}

/// The last signature of a list for an input and a key.
pub open spec fn last_sig(sigs: Seq<ExtractedView>, index: nat, key: Seq<u8>) -> Option<Seq<u8>>
    decreases sigs.len(),
{
    if sigs.len() == 0 {
        None
    } else if sigs.last().input_index == index && sig_key(sigs.last().pubkey) == key {
        Some(sigs.last().signature)
    } else {
        last_sig(sigs.drop_last(), index, key)
    }
}

/// A merged document is the original plus the signatures: its global map, its outputs and every
/// field of an input that is no signature are the original's, and what is stored under a key is
/// the last signature given for it, or what the original stores there.
pub proof fn law_merge_adds_only_signatures(
    original: PsbtView,
    sigs: Seq<ExtractedView>,
    index: nat,
    key: Seq<u8>,
)
    requires
        sigs_fit(original, sigs),
        index < original.inputs.len(),
    ensures
        merge(original, sigs).global == original.global,
        merge(original, sigs).outputs == original.outputs,
        merge(original, sigs).inputs.len() == original.inputs.len(),
        without_sigs(merge(original, sigs).inputs[index as int]) == without_sigs(
            original.inputs[index as int],
        ),
        lookup(merge(original, sigs).inputs[index as int], key) == match last_sig(
            sigs,
            index,
            key,
        ) {
            Some(v) => Some(v),
            None => lookup(original.inputs[index as int], key),
        },
    decreases sigs.len(),
{
    lemma_merge_input_count(original, sigs);
    if sigs.len() > 0 {
        lemma_sigs_fit_prefix(original, sigs, sigs.len() - 1);
        let init = sigs.drop_last();
        law_merge_adds_only_signatures(original, init, index, key);
        lemma_merge_input_count(original, init);
        let s = sigs.last();
        assert(s == sigs[sigs.len() - 1]);
        law_put_sig(
            merge(original, init).inputs[s.input_index as int],
            s.pubkey,
            s.signature,
            key,
        );
    }
}

/// A signature that was extracted from an input map is a new one without a fault.
pub open spec fn sig_accepted(
    orig_in: Seq<PairView>,
    other_in: Seq<PairView>,
    index: nat,
    signer: Option<KeyFingerprint>,
    verdicts: Seq<SigVerdictView>,
    s: ExtractedView,
    j: int,
) -> bool {
    &&& 0 <= j < other_in.len()
    &&& is_new_sig(orig_in, other_in[j])
    &&& sig_fault(orig_in, other_in[j], index, signer, verdicts[j]) is None
    &&& s.input_index == index
    &&& other_in[j].key == sig_key(s.pubkey)
    &&& other_in[j].value == s.signature
}

/// Whether a list holds a signature for an input.
pub open spec fn input_signed(sigs: Seq<ExtractedView>, index: nat) -> bool {
    exists|k: int| 0 <= k < sigs.len() && #[trigger] sigs[k].input_index == index
}

/// What the extraction of one input map gives comes from accepted fields.
proof fn lemma_new_sigs_members(
    orig_in: Seq<PairView>,
    other_in: Seq<PairView>,
    index: nat,
    signer: Option<KeyFingerprint>,
    verdicts: Seq<SigVerdictView>,
    n: nat,
    k: int,
)
    requires
        n <= other_in.len(),
        new_sigs(orig_in, other_in, index, signer, verdicts, n) is Ok,
        0 <= k < (new_sigs(orig_in, other_in, index, signer, verdicts, n)->Ok_0).len(),
    ensures
        exists|j: int| #[trigger]
            sig_accepted(
                orig_in,
                other_in,
                index,
                signer,
                verdicts,
                (new_sigs(orig_in, other_in, index, signer, verdicts, n)->Ok_0)[k],
                j,
            ),
    decreases n,
{
    let all = new_sigs(orig_in, other_in, index, signer, verdicts, n)->Ok_0;
    let before = new_sigs(orig_in, other_in, index, signer, verdicts, (n - 1) as nat)->Ok_0;
    if k < before.len() {
        lemma_new_sigs_members(orig_in, other_in, index, signer, verdicts, (n - 1) as nat, k);
        assert(all[k] == before[k]);
    } else {
        let p = other_in[n - 1];
        assert(p.key =~= sig_key(p.key.drop_first()));
        assert(sig_accepted(orig_in, other_in, index, signer, verdicts, all[k], n - 1));
    }
}

/// What the extraction of the first `n` inputs gives comes from accepted fields, and where no
/// gap was found each of these inputs gave something.
proof fn lemma_inputs_members(
    original: PsbtView,
    signed: PsbtView,
    signer: KeyFingerprint,
    verdicts: Seq<Seq<SigVerdictView>>,
    n: nat,
)
    requires
        n <= original.inputs.len(),
        original.inputs.len() == signed.inputs.len(),
        inputs_outcome(original, signed, signer, verdicts, n) is Ok,
    ensures
        ({
            let (sigs, gap) = inputs_outcome(original, signed, signer, verdicts, n)->Ok_0;
            &&& forall|k: int|
                0 <= k < sigs.len() ==> {
                    let s = #[trigger] sigs[k];
                    let i = s.input_index as int;
                    &&& i < n
                    &&& exists|j: int| #[trigger]
                        sig_accepted(
                            original.inputs[i],
                            signed.inputs[i],
                            i as nat,
                            Some(signer),
                            verdicts[i],
                            s,
                            j,
                        )
                }
            &&& forall|i: int|
                0 <= i < n ==> keeps_sigs(original.inputs[i], #[trigger] signed.inputs[i])
                    && without_sigs(signed.inputs[i]) == without_sigs(original.inputs[i])
            &&& gap is None ==> forall|i: nat|
                i < n ==> #[trigger] input_signed(sigs, i)
        }),
    decreases n,
{
    if n > 0 {
        let last = (n - 1) as nat;
        lemma_inputs_members(original, signed, signer, verdicts, last);
        let (sigs, gap) = inputs_outcome(original, signed, signer, verdicts, n)->Ok_0;
        let (before, old_gap) = inputs_outcome(original, signed, signer, verdicts, last)->Ok_0;
        let o = original.inputs[last as int];
        let g = signed.inputs[last as int];
        let v = verdicts[last as int];
        let added = input_outcome(o, g, last, signer, v)->Ok_0;
        assert forall|k: int| 0 <= k < sigs.len() implies {
            let s = #[trigger] sigs[k];
            let i = s.input_index as int;
            &&& i < n
            &&& exists|j: int| #[trigger]
                sig_accepted(
                    original.inputs[i],
                    signed.inputs[i],
                    i as nat,
                    Some(signer),
                    verdicts[i],
                    s,
                    j,
                )
        } by {
            if k < before.len() {
                assert(sigs[k] == before[k]);
            } else {
                let a = k - before.len();
                assert(sigs[k] == added[a]);
                lemma_new_sigs_members(o, g, last, Some(signer), v, g.len(), a);
            }
        }
        if gap is None {
            assert forall|i: nat| i < n implies #[trigger] input_signed(sigs, i) by {
                if i < last {
                    assert(input_signed(before, i));
                    let k = choose|k: int|
                        0 <= k < before.len() && #[trigger] before[k].input_index == i;
                    assert(sigs[k] == before[k]);
                } else {
                    let k = before.len() as int;
                    assert(added.len() > 0);
                    assert(sigs[k] == added[0]);
                    lemma_new_sigs_members(o, g, last, Some(signer), v, g.len(), 0);
                }
            }
        }
    }
}

/// Outputs of which none was changed are the same.
proof fn lemma_unchanged_outputs(a: Seq<Seq<PairView>>, b: Seq<Seq<PairView>>, n: nat)
    requires
        n <= a.len(),
        a.len() == b.len(),
        changed_output(a, b, n) is None,
    ensures
        a.take(n as int) == b.take(n as int),
    decreases n,
{
    if n > 0 {
        lemma_unchanged_outputs(a, b, (n - 1) as nat);
        assert forall|i: int| 0 <= i < n implies a.take(n as int)[i] == b.take(n as int)[i] by {
            if i < n - 1 {
                assert(a.take(n - 1)[i] == b.take(n - 1)[i]);
            }
        }
    }
    assert(a.take(n as int) =~= b.take(n as int));
}

/// An accepted submission is the original plus signatures of the signer: the transaction, the
/// global fields, the outputs and the input fields that are no signatures are unchanged, the
/// original's signatures are still there, and each signature that is returned is new, is for a
/// key that the original derives from the signer's master key, signs everything and verifies.
/// Every input has one.
pub proof fn law_accepted_submission(
    original: PsbtView,
    signed: PsbtView,
    signer: KeyFingerprint,
    verdicts: Seq<Seq<SigVerdictView>>,
)
    requires
        submission_outcome(original, signed, signer, verdicts) is Ok,
    ensures
        unsigned_tx(signed.global) == unsigned_tx(original.global),
        side_fields(signed.global) == side_fields(original.global),
        signed.outputs == original.outputs,
        signed.inputs.len() == original.inputs.len(),
        forall|i: int|
            0 <= i < signed.inputs.len() ==> keeps_sigs(
                original.inputs[i],
                #[trigger] signed.inputs[i],
            ) && without_sigs(signed.inputs[i]) == without_sigs(original.inputs[i]),
        ({
            let sigs = submission_outcome(original, signed, signer, verdicts)->Ok_0;
            &&& sigs_fit(original, sigs)
            &&& forall|k: int|
                0 <= k < sigs.len() ==> {
                    let s = #[trigger] sigs[k];
                    let i = s.input_index as int;
                    &&& lookup(original.inputs[i], sig_key(s.pubkey)) is None
                    &&& bound_to(original.inputs[i], s.pubkey, signer)
                    &&& signs_all(s.signature)
                    &&& exists|j: int| #[trigger]
                        sig_accepted(
                            original.inputs[i],
                            signed.inputs[i],
                            i as nat,
                            Some(signer),
                            verdicts[i],
                            s,
                            j,
                        ) && verdicts[i][j] == SigVerdictView::Valid
                }
            &&& forall|i: nat|
                i < original.inputs.len() ==> #[trigger] input_signed(sigs, i)
        }),
{
    let n = original.inputs.len();
    lemma_unchanged_outputs(original.outputs, signed.outputs, original.outputs.len());
    assert(original.outputs.take(original.outputs.len() as int) =~= original.outputs);
    assert(signed.outputs.take(original.outputs.len() as int) =~= signed.outputs);
    lemma_inputs_members(original, signed, signer, verdicts, n);
    let sigs = submission_outcome(original, signed, signer, verdicts)->Ok_0;
    assert forall|k: int| 0 <= k < sigs.len() implies {
        let s = #[trigger] sigs[k];
        let i = s.input_index as int;
        &&& lookup(original.inputs[i], sig_key(s.pubkey)) is None
        &&& bound_to(original.inputs[i], s.pubkey, signer)
        &&& signs_all(s.signature)
        &&& exists|j: int| #[trigger]
            sig_accepted(
                original.inputs[i],
                signed.inputs[i],
                i as nat,
                Some(signer),
                verdicts[i],
                s,
                j,
            ) && verdicts[i][j] == SigVerdictView::Valid
    } by {
        let s = sigs[k];
        let i = s.input_index as int;
        let j = choose|j: int| #[trigger]
            sig_accepted(
                original.inputs[i],
                signed.inputs[i],
                i as nat,
                Some(signer),
                verdicts[i],
                s,
                j,
            );
        assert(sig_accepted(
            original.inputs[i],
            signed.inputs[i],
            i as nat,
            Some(signer),
            verdicts[i],
            s,
            j,
        ));
        assert(sig_key(s.pubkey).drop_first() =~= s.pubkey);
    }
}

/// Whether a signature at input `index` signs everything and verifies against the original.
pub open spec fn sig_verifies(original: PsbtView, index: nat, p: PairView) -> bool {
    signs_all(p.value) && sig_verdict(original, index, p) == SigVerdictView::Valid
}

/// Whether every signature of a list verifies against the original.
pub open spec fn sigs_verify(original: PsbtView, sigs: Seq<ExtractedView>) -> bool {
    forall|k: int|
        0 <= k < sigs.len() ==> sig_verifies(
            original,
            (#[trigger] sigs[k]).input_index,
            PairView { key: sig_key(sigs[k].pubkey), value: sigs[k].signature },
        )
}

/// A new signature in a merged document is one of those that were merged.
proof fn lemma_merged_members(
    original: PsbtView,
    sigs: Seq<ExtractedView>,
    i: int,
    j: int,
)
    requires
        sigs_fit(original, sigs),
        sigs_verify(original, sigs),
        0 <= i < original.inputs.len(),
        0 <= j < merge(original, sigs).inputs[i].len(),
    ensures
        original.inputs[i].contains(merge(original, sigs).inputs[i][j]) || sig_verifies(
            original,
            i as nat,
            merge(original, sigs).inputs[i][j],
        ),
    decreases sigs.len(),
{
    let p = merge(original, sigs).inputs[i][j];
    if sigs.len() == 0 {
        assert(original.inputs[i][j] == p);
    } else {
        let init = sigs.drop_last();
        lemma_sigs_fit_prefix(original, sigs, sigs.len() - 1);
        lemma_merge_input_count(original, init);
        assert(sigs_verify(original, init)) by {
            assert forall|k: int| 0 <= k < init.len() implies sig_verifies(
                original,
                (#[trigger] init[k]).input_index,
                PairView { key: sig_key(init[k].pubkey), value: init[k].signature },
            ) by {
                assert(init[k] == sigs[k]);
            }
        }
        let before = merge(original, init);
        let s = sigs.last();
        assert(s == sigs[sigs.len() - 1]);
        if s.input_index == i {
            let key = sig_key(s.pubkey);
            lemma_put_sig_members(before.inputs[i], key, s.signature, j);
            if before.inputs[i].contains(p) {
                let h = choose|h: int| 0 <= h < before.inputs[i].len() && before.inputs[i][h] == p;
                lemma_merged_members(original, init, i, h);
            }
        } else {
            assert(before.inputs[i] == merge(original, sigs).inputs[i]);
            lemma_merged_members(original, init, i, j);
        }
    }
}

/// Where every new signature verifies, extraction finds no fault.
proof fn lemma_new_sigs_ok(original: PsbtView, merged: PsbtView, i: int, n: nat)
    requires
        0 <= i < original.inputs.len(),
        i < merged.inputs.len(),
        n <= merged.inputs[i].len(),
        forall|j: int|
            0 <= j < merged.inputs[i].len() && is_new_sig(
                original.inputs[i],
                #[trigger] merged.inputs[i][j],
            ) ==> sig_verifies(original, i as nat, merged.inputs[i][j]),
    ensures
        new_sigs(
            original.inputs[i],
            merged.inputs[i],
            i as nat,
            None,
            verdicts_on(original, merged, None)[i],
            n,
        ) is Ok,
    decreases n,
{
    if n > 0 {
        lemma_new_sigs_ok(original, merged, i, (n - 1) as nat);
        let p = merged.inputs[i][n - 1];
        assert(verdicts_on(original, merged, None)[i][n - 1] == verdict_at(
            original,
            merged,
            None,
            i,
            n - 1,
        ));
    }
}

/// Where every new signature verifies, the document does.
proof fn lemma_added_sigs_ok(original: PsbtView, merged: PsbtView, n: nat)
    requires
        n <= original.inputs.len(),
        original.inputs.len() == merged.inputs.len(),
        forall|i: int, j: int|
            0 <= i < merged.inputs.len() && 0 <= j < merged.inputs[i].len() && is_new_sig(
                original.inputs[i],
                #[trigger] merged.inputs[i][j],
            ) ==> sig_verifies(original, i as nat, merged.inputs[i][j]),
    ensures
        added_sigs_outcome(original, merged, verdicts_on(original, merged, None), n) is Ok,
    decreases n,
{
    if n > 0 {
        lemma_added_sigs_ok(original, merged, (n - 1) as nat);
        lemma_new_sigs_ok(original, merged, n - 1, merged.inputs[n - 1].len());
    }
}

/// What is stored of an accepted submission is found good when it is verified again: the
/// original with the extracted signatures merged in passes the check that precedes
/// finalization.
pub proof fn law_accepted_merge_verifies(
    original: PsbtView,
    signed: PsbtView,
    signer: KeyFingerprint,
)
    requires
        submission_outcome(
            original,
            signed,
            signer,
            verdicts_on(original, signed, Some(signer)),
        ) is Ok,
    ensures
        ({
            let sigs = submission_outcome(
                original,
                signed,
                signer,
                verdicts_on(original, signed, Some(signer)),
            )->Ok_0;
            let merged = merge(original, sigs);
            merged_outcome(original, merged, verdicts_on(original, merged, None)) == Ok::<
                (),
                ValidationFault,
            >(())
        }),
{
    let verdicts = verdicts_on(original, signed, Some(signer));
    let sigs = submission_outcome(original, signed, signer, verdicts)->Ok_0;
    law_accepted_submission(original, signed, signer, verdicts);
    let merged = merge(original, sigs);
    lemma_merge_input_count(original, sigs);
    assert(sigs_verify(original, sigs)) by {
        assert forall|k: int| 0 <= k < sigs.len() implies sig_verifies(
            original,
            (#[trigger] sigs[k]).input_index,
            PairView { key: sig_key(sigs[k].pubkey), value: sigs[k].signature },
        ) by {
            let s = sigs[k];
            let i = s.input_index as int;
            let j = choose|j: int| #[trigger]
                sig_accepted(
                    original.inputs[i],
                    signed.inputs[i],
                    i as nat,
                    Some(signer),
                    verdicts[i],
                    s,
                    j,
                ) && verdicts[i][j] == SigVerdictView::Valid;
            assert(sig_accepted(
                original.inputs[i],
                signed.inputs[i],
                i as nat,
                Some(signer),
                verdicts[i],
                s,
                j,
            ));
            assert(verdicts[i][j] == verdict_at(original, signed, Some(signer), i, j));
        }
    }
    assert(merged.global == original.global) by {
        if original.inputs.len() > 0 {
            law_merge_adds_only_signatures(original, sigs, 0, Seq::empty());
        }
    }
    assert forall|i: int, j: int|
        0 <= i < merged.inputs.len() && 0 <= j < merged.inputs[i].len() && is_new_sig(
            original.inputs[i],
            #[trigger] merged.inputs[i][j],
        ) implies sig_verifies(original, i as nat, merged.inputs[i][j]) by {
        lemma_merged_members(original, sigs, i, j);
        lemma_lookup_found(original.inputs[i], merged.inputs[i][j].key);
    }
    lemma_added_sigs_ok(original, merged, original.inputs.len());
}

/// Nobody can hand in a cosigner's signatures: a submission that is accepted for one signer
/// holds no new signature for a key that the original derives from another master key.
pub proof fn law_no_foreign_signature(
    original: PsbtView,
    signed: PsbtView,
    signer: KeyFingerprint,
    other: KeyFingerprint,
    verdicts: Seq<Seq<SigVerdictView>>,
    i: int,
    j: int,
)
    requires
        0 <= i < original.inputs.len(),
        original.inputs.len() == signed.inputs.len(),
        0 <= j < signed.inputs[i].len(),
        is_new_sig(original.inputs[i], signed.inputs[i][j]),
        bound_to(original.inputs[i], signed.inputs[i][j].key.drop_first(), other),
        other != signer,
    ensures
        submission_outcome(original, signed, signer, verdicts) is Err,
{
    let o = original.inputs[i];
    let g = signed.inputs[i];
    assert(!from_signer(o, g[j], Some(signer)));
    lemma_new_sigs_faulty(o, g, i as nat, Some(signer), verdicts[i], j, g.len());
    lemma_inputs_faulty(original, signed, signer, verdicts, i, original.inputs.len());
}

/// A new signature with a fault spoils its input.
proof fn lemma_new_sigs_faulty(
    orig_in: Seq<PairView>,
    other_in: Seq<PairView>,
    index: nat,
    signer: Option<KeyFingerprint>,
    verdicts: Seq<SigVerdictView>,
    j: int,
    n: nat,
)
    requires
        0 <= j < n <= other_in.len(),
        is_new_sig(orig_in, other_in[j]),
        sig_fault(orig_in, other_in[j], index, signer, verdicts[j]) is Some,
    ensures
        new_sigs(orig_in, other_in, index, signer, verdicts, n) is Err,
    decreases n,
{
    if j < n - 1 {
        lemma_new_sigs_faulty(orig_in, other_in, index, signer, verdicts, j, (n - 1) as nat);
    }
}

/// An input with a fault spoils the submission.
proof fn lemma_inputs_faulty(
    original: PsbtView,
    signed: PsbtView,
    signer: KeyFingerprint,
    verdicts: Seq<Seq<SigVerdictView>>,
    i: int,
    n: nat,
)
    requires
        0 <= i < n <= original.inputs.len(),
        input_outcome(original.inputs[i], signed.inputs[i], i as nat, signer, verdicts[i]) is Err,
    ensures
        inputs_outcome(original, signed, signer, verdicts, n) is Err,
    decreases n,
{
    if i < n - 1 {
        lemma_inputs_faulty(original, signed, signer, verdicts, i, (n - 1) as nat);
    }
}

/// Extraction without a fault tells of every new signature that it has none.
proof fn lemma_new_sigs_good(
    orig_in: Seq<PairView>,
    other_in: Seq<PairView>,
    index: nat,
    signer: Option<KeyFingerprint>,
    verdicts: Seq<SigVerdictView>,
    n: nat,
    j: int,
)
    requires
        0 <= j < n <= other_in.len(),
        new_sigs(orig_in, other_in, index, signer, verdicts, n) is Ok,
        is_new_sig(orig_in, other_in[j]),
    ensures
        sig_fault(orig_in, other_in[j], index, signer, verdicts[j]) is None,
{
    if sig_fault(orig_in, other_in[j], index, signer, verdicts[j]) is Some {
        lemma_new_sigs_faulty(orig_in, other_in, index, signer, verdicts, j, n);
    }
}

/// A document without a fault has none in any of its inputs.
proof fn lemma_added_sigs_good(
    original: PsbtView,
    merged: PsbtView,
    verdicts: Seq<Seq<SigVerdictView>>,
    n: nat,
    i: int,
)
    requires
        0 <= i < n,
        added_sigs_outcome(original, merged, verdicts, n) is Ok,
    ensures
        new_sigs(
            original.inputs[i],
            merged.inputs[i],
            i as nat,
            None,
            verdicts[i],
            merged.inputs[i].len(),
        ) is Ok,
    decreases n,
{
    if i < n - 1 {
        lemma_added_sigs_good(original, merged, verdicts, (n - 1) as nat, i);
    }
}

/// What is verified again is good: in a document that passes the check which precedes
/// finalization, every signature that the original does not hold signs everything and verifies
/// against the original.
pub proof fn law_verified_document(original: PsbtView, merged: PsbtView, i: int, j: int)
    requires
        merged_outcome(original, merged, verdicts_on(original, merged, None)) is Ok,
        0 <= i < merged.inputs.len(),
        0 <= j < merged.inputs[i].len(),
        is_new_sig(original.inputs[i], merged.inputs[i][j]),
    ensures
        unsigned_tx(merged.global) == unsigned_tx(original.global),
        merged.inputs.len() == original.inputs.len(),
        sig_verifies(original, i as nat, merged.inputs[i][j]),
{
    let verdicts = verdicts_on(original, merged, None);
    lemma_added_sigs_good(original, merged, verdicts, original.inputs.len(), i);
    lemma_new_sigs_good(
        original.inputs[i],
        merged.inputs[i],
        i as nat,
        None,
        verdicts[i],
        merged.inputs[i].len(),
        j,
    );
    assert(verdicts[i][j] == verdict_at(original, merged, None, i, j));
}

} // verus!
