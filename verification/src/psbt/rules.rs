//! What the validation of documents is for, in terms of the fields of the documents.

use vstd::prelude::*;

use crate::bytes::{differs_below_at, law_first_difference_decides};
use crate::primitives::{fingerprint_of, KeyFingerprint};
use crate::psbt::codec::{
    decode, encodable, encode, law_decode_of_encode, law_encode_of_decode, FieldMap, PairView,
    Psbt, PsbtView,
};
use crate::psbt::crypto::{
    canonical_psbt, coin_readable, ecdsa_verifies, psbt_sighash, spent_outputs_known,
    transaction_outline,
};
use crate::psbt::fields::{
    compressed, is_sig, lemma_lookup_found, lookup, side_fields, without_sigs,
};
use crate::psbt::merge::pubkey_less;
use crate::psbt::validation::{
    added_sigs_outcome, changed_output, extracted_views, input_outcome, inputs_outcome,
    is_new_sig, keeps_sigs, merged_outcome, new_sigs, parse_outcome, sig_fault,
    submission_outcome, verdict_at, verdicts_on, ExtractedSignature, ExtractedView,
    SigVerdictView, ValidationFault,
};

verus! {

/// A key leads to the value of the first field that has it, and to nothing where none has it.
pub proof fn law_key_leads_to_its_first_field(m: Seq<PairView>, key: Seq<u8>, i: int)
    ensures
        (forall|j: int| 0 <= j < m.len() ==> (#[trigger] m[j]).key != key) ==> lookup(m, key)
            is None,
        0 <= i < m.len() && m[i].key == key && (forall|j: int|
            0 <= j < i ==> (#[trigger] m[j]).key != key) ==> lookup(m, key) == Some(m[i].value),
    decreases m.len(),
{
    if m.len() > 0 {
        let init = m.drop_last();
        law_key_leads_to_its_first_field(init, key, i);
        assert forall|j: int| 0 <= j < init.len() implies init[j] == #[trigger] m[j] by {}
        assert(m.last() == m[m.len() - 1]);
    }
}

/// Whether a field of an input map is a partial signature: its type byte is 2.
pub open spec fn is_partial_sig(p: PairView) -> bool {
    p.key.len() > 0 && p.key[0] == 2
}

/// The fields of an input map that are no partial signatures, in their order.
pub open spec fn other_fields(m: Seq<PairView>) -> Seq<PairView> {
    m.filter(|p: PairView| !is_partial_sig(p))
}

/// The fields of a global map that are not the transaction, in their order.
pub open spec fn other_globals(m: Seq<PairView>) -> Seq<PairView> {
    m.filter(|p: PairView| p.key != seq![0u8])
}

proof fn lemma_other_fields(m: Seq<PairView>)
    ensures
        without_sigs(m) == other_fields(m),
        side_fields(m) == other_globals(m),
    decreases m.len(),
{
    reveal(Seq::filter);
    if m.len() > 0 {
        lemma_other_fields(m.drop_last());
    } else {
        assert(without_sigs(m) =~= m);
        assert(side_fields(m) =~= m);
    }
}

/// Whether a field is a partial signature under a key that a map does not have.
pub open spec fn is_fresh(orig_in: Seq<PairView>, p: PairView) -> bool {
    is_partial_sig(p) && forall|j: int| 0 <= j < orig_in.len() ==> (#[trigger] orig_in[j]).key != p.key
}

proof fn lemma_fresh(orig_in: Seq<PairView>, p: PairView)
    ensures
        is_fresh(orig_in, p) == is_new_sig(orig_in, p),
{
    lemma_lookup_found(orig_in, p.key);
}

/// Whether a map says that a public key comes from the master key with a fingerprint: under the
/// type byte 6 and the compressed public key stands a value that starts with it.
pub open spec fn comes_from(
    orig_in: Seq<PairView>,
    pubkey: Seq<u8>,
    fingerprint: KeyFingerprint,
) -> bool {
    match lookup(orig_in, seq![6u8] + compressed(pubkey)) {
        Some(v) => v.len() >= 4 && fingerprint_of(v.take(4)) == fingerprint,
        None => false,
    }
}

/// Whether a signature ends in the byte that says that it signs all inputs and outputs.
pub open spec fn covers_everything(value: Seq<u8>) -> bool {
    value.len() > 0 && value.last() == 1
}

/// Whether an input of a document holds a fresh signature.
pub open spec fn freshly_signed(orig_in: Seq<PairView>, other_in: Seq<PairView>) -> bool {
    exists|j: int| 0 <= j < other_in.len() && is_fresh(orig_in, #[trigger] other_in[j])
}

/// Whether every signature of a map stands in another one with the same value.
pub open spec fn signatures_kept(orig_in: Seq<PairView>, other_in: Seq<PairView>) -> bool {
    forall|i: int|
        0 <= i < orig_in.len() && is_partial_sig(#[trigger] orig_in[i]) ==> lookup(
            other_in,
            orig_in[i].key,
        ) == lookup(orig_in, orig_in[i].key)
}

/// Whether a fresh signature is the signer's, covers everything and verifies.
pub open spec fn is_good_sig(
    orig_in: Seq<PairView>,
    p: PairView,
    signer: KeyFingerprint,
    verdict: SigVerdictView,
) -> bool {
    &&& comes_from(orig_in, p.key.drop_first(), signer)
    &&& covers_everything(p.value)
    &&& verdict == SigVerdictView::Valid
}

/// Whether every fresh signature of an input is a good one.
pub open spec fn fresh_sigs_good(
    orig_in: Seq<PairView>,
    other_in: Seq<PairView>,
    signer: KeyFingerprint,
    verdicts: Seq<SigVerdictView>,
) -> bool {
    forall|j: int|
        0 <= j < other_in.len() && is_fresh(orig_in, #[trigger] other_in[j]) ==> is_good_sig(
            orig_in,
            other_in[j],
            signer,
            verdicts[j],
        )
}

/// What a fault of one fresh signature says is true of it.
pub open spec fn sig_fault_holds(
    orig_in: Seq<PairView>,
    p: PairView,
    index: nat,
    signer: Option<KeyFingerprint>,
    verdict: SigVerdictView,
    fault: ValidationFault,
) -> bool {
    let pubkey = p.key.drop_first();
    let bound = signer is None || comes_from(orig_in, pubkey, signer->0);
    match fault {
        ValidationFault::SignatureNotBoundToSigner { index: i, pubkey: k, expected } => i == index
            && k == pubkey && signer == Some(expected) && !bound,
        ValidationFault::NonSigHashAllSighash(i) => i == index && bound && !covers_everything(
            p.value,
        ),
        ValidationFault::InvalidPartialSignature(i) => i == index && bound && covers_everything(
            p.value,
        ) && verdict == SigVerdictView::Invalid,
        ValidationFault::SighashComputation { index: i, reason } => i == index && bound
            && covers_everything(p.value) && verdict == SigVerdictView::NoSighash(reason),
        _ => false,
    }
}

/// Whether some fresh signature of an input has a fault, and none before it has any.
pub open spec fn first_sig_fault(
    orig_in: Seq<PairView>,
    other_in: Seq<PairView>,
    index: nat,
    signer: Option<KeyFingerprint>,
    verdicts: Seq<SigVerdictView>,
    fault: ValidationFault,
    n: nat,
) -> bool {
    exists|j: int|
        0 <= j < n && is_fresh(orig_in, #[trigger] other_in[j]) && sig_fault_holds(
            orig_in,
            other_in[j],
            index,
            signer,
            verdicts[j],
            fault,
        )
}

/// What is extracted from one input: all its fresh signatures, each without a fault, or the fault
/// of one.
proof fn lemma_new_sigs_meaning(
    orig_in: Seq<PairView>,
    other_in: Seq<PairView>,
    index: nat,
    signer: Option<KeyFingerprint>,
    verdicts: Seq<SigVerdictView>,
    n: nat,
)
    requires
        n <= other_in.len(),
    ensures
        match new_sigs(orig_in, other_in, index, signer, verdicts, n) {
            Ok(sigs) => {
                &&& forall|j: int|
                    0 <= j < n && is_fresh(orig_in, #[trigger] other_in[j]) ==> (signer is None
                        || comes_from(orig_in, other_in[j].key.drop_first(), signer->0))
                        && covers_everything(other_in[j].value) && verdicts[j]
                        == SigVerdictView::Valid
                &&& forall|j: int|
                    0 <= j < n && is_fresh(orig_in, #[trigger] other_in[j]) ==> sigs.contains(
                        ExtractedView {
                            input_index: index,
                            pubkey: other_in[j].key.drop_first(),
                            signature: other_in[j].value,
                        },
                    )
                &&& forall|k: int|
                    0 <= k < sigs.len() ==> exists|j: int|
                        0 <= j < n && is_fresh(orig_in, #[trigger] other_in[j])
                            && #[trigger] sigs[k] == (ExtractedView {
                            input_index: index,
                            pubkey: other_in[j].key.drop_first(),
                            signature: other_in[j].value,
                        })
                &&& sigs.len() == 0 <==> !(exists|j: int|
                    0 <= j < n && is_fresh(orig_in, #[trigger] other_in[j]))
            },
            Err(fault) => first_sig_fault(
                orig_in,
                other_in,
                index,
                signer,
                verdicts,
                fault,
                n,
            ),
        },
    decreases n,
{
    if n > 0 {
        lemma_new_sigs_meaning(orig_in, other_in, index, signer, verdicts, (n - 1) as nat);
        let p = other_in[n - 1];
        lemma_fresh(orig_in, p);
        let before = new_sigs(orig_in, other_in, index, signer, verdicts, (n - 1) as nat);
        let now = new_sigs(orig_in, other_in, index, signer, verdicts, n);
        match before {
            Err(fault) => {
                let j = choose|j: int|
                    0 <= j < n - 1 && is_fresh(orig_in, #[trigger] other_in[j]) && sig_fault_holds(
                        orig_in,
                        other_in[j],
                        index,
                        signer,
                        verdicts[j],
                        fault,
                    );
                assert(is_fresh(orig_in, other_in[j]));
            },
            Ok(old_sigs) => {
                if is_new_sig(orig_in, p) {
                    assert(key_source_same(p.key.drop_first()));
                    match sig_fault(orig_in, p, index, signer, verdicts[n - 1]) {
                        Some(fault) => {
                            assert(sig_fault_holds(
                                orig_in,
                                other_in[n - 1],
                                index,
                                signer,
                                verdicts[n - 1],
                                fault,
                            ));
                        },
                        None => {
                            let sigs = now->Ok_0;
                            let new = ExtractedView {
                                input_index: index,
                                pubkey: p.key.drop_first(),
                                signature: p.value,
                            };
                            assert(sigs == old_sigs.push(new));
                            assert(sigs[old_sigs.len() as int] == new);
                            assert forall|j: int|
                                0 <= j < n && is_fresh(
                                    orig_in,
                                    #[trigger] other_in[j],
                                ) implies sigs.contains(
                                ExtractedView {
                                    input_index: index,
                                    pubkey: other_in[j].key.drop_first(),
                                    signature: other_in[j].value,
                                },
                            ) by {
                                if j < n - 1 {
                                    let x = ExtractedView {
                                        input_index: index,
                                        pubkey: other_in[j].key.drop_first(),
                                        signature: other_in[j].value,
                                    };
                                    assert(old_sigs.contains(x));
                                    let k = choose|k: int|
                                        0 <= k < old_sigs.len() && old_sigs[k] == x;
                                    assert(sigs[k] == x);
                                }
                            }
                            assert forall|k: int| 0 <= k < sigs.len() implies exists|j: int|
                                0 <= j < n && is_fresh(orig_in, #[trigger] other_in[j])
                                    && #[trigger] sigs[k] == (ExtractedView {
                                    input_index: index,
                                    pubkey: other_in[j].key.drop_first(),
                                    signature: other_in[j].value,
                                }) by {
                                if k < old_sigs.len() {
                                    assert(sigs[k] == old_sigs[k]);
                                    let j = choose|j: int|
                                        0 <= j < n - 1 && is_fresh(orig_in, #[trigger] other_in[j])
                                            && old_sigs[k] == (ExtractedView {
                                            input_index: index,
                                            pubkey: other_in[j].key.drop_first(),
                                            signature: other_in[j].value,
                                        });
                                    assert(is_fresh(orig_in, other_in[j]));
                                } else {
                                    assert(is_fresh(orig_in, other_in[n - 1]));
                                }
                            }
                        },
                    }
                } else {
                    let sigs = now->Ok_0;
                    assert(sigs == old_sigs);
                    assert forall|k: int| 0 <= k < sigs.len() implies exists|j: int|
                        0 <= j < n && is_fresh(orig_in, #[trigger] other_in[j])
                            && #[trigger] sigs[k] == (ExtractedView {
                            input_index: index,
                            pubkey: other_in[j].key.drop_first(),
                            signature: other_in[j].value,
                        }) by {
                        let j = choose|j: int|
                            0 <= j < n - 1 && is_fresh(orig_in, #[trigger] other_in[j])
                                && old_sigs[k] == (ExtractedView {
                                input_index: index,
                                pubkey: other_in[j].key.drop_first(),
                                signature: other_in[j].value,
                            });
                        assert(is_fresh(orig_in, other_in[j]));
                    }
                    if exists|j: int| 0 <= j < n && is_fresh(orig_in, #[trigger] other_in[j]) {
                        let j = choose|j: int|
                            0 <= j < n && is_fresh(orig_in, #[trigger] other_in[j]);
                        assert(j < n - 1);
                    }
                }
            },
        }
    }
}

/// The key under which the origin of a public key stands.
spec fn key_source_same(pubkey: Seq<u8>) -> bool {
    crate::psbt::fields::key_source_key(pubkey) == seq![6u8] + compressed(pubkey)
}

/// What is said of input `i` where the validation of a submission fails there.
pub open spec fn input_fault_holds(
    original: PsbtView,
    signed: PsbtView,
    signer: KeyFingerprint,
    verdicts: Seq<Seq<SigVerdictView>>,
    i: int,
    fault: ValidationFault,
) -> bool {
    let o = original.inputs[i];
    let g = signed.inputs[i];
    match fault {
        ValidationFault::PartialSignatureRemoved(k) => k == i && !signatures_kept(o, g),
        ValidationFault::InputFieldModified(k) => k == i && other_fields(g) != other_fields(o),
        _ => first_sig_fault(o, g, i as nat, Some(signer), verdicts[i], fault, g.len()),
    }
}

/// Whether an input of a submission is the original's with good signatures added, or none.
pub open spec fn input_good(
    original: PsbtView,
    signed: PsbtView,
    signer: KeyFingerprint,
    verdicts: Seq<Seq<SigVerdictView>>,
    i: int,
) -> bool {
    &&& signatures_kept(original.inputs[i], signed.inputs[i])
    &&& other_fields(signed.inputs[i]) == other_fields(original.inputs[i])
    &&& fresh_sigs_good(original.inputs[i], signed.inputs[i], signer, verdicts[i])
}

/// Whether a signature is a fresh one of an input of a submission.
pub open spec fn is_fresh_sig_of(
    original: PsbtView,
    signed: PsbtView,
    s: ExtractedView,
    j: int,
) -> bool {
    let i = s.input_index as int;
    &&& 0 <= i < original.inputs.len()
    &&& 0 <= j < signed.inputs[i].len()
    &&& is_fresh(original.inputs[i], signed.inputs[i][j])
    &&& s.pubkey == signed.inputs[i][j].key.drop_first()
    &&& s.signature == signed.inputs[i][j].value
}

/// Whether a signature is one of the fresh ones of a submission.
pub open spec fn is_of_submission(original: PsbtView, signed: PsbtView, s: ExtractedView) -> bool {
    exists|j: int| #[trigger] is_fresh_sig_of(original, signed, s, j)
}

/// What validation makes of one input.
proof fn lemma_input_meaning(
    original: PsbtView,
    signed: PsbtView,
    signer: KeyFingerprint,
    verdicts: Seq<Seq<SigVerdictView>>,
    i: int,
)
    requires
        0 <= i < original.inputs.len(),
        original.inputs.len() == signed.inputs.len(),
    ensures
        match input_outcome(
            original.inputs[i],
            signed.inputs[i],
            i as nat,
            signer,
            verdicts[i],
        ) {
            Ok(sigs) => {
                &&& input_good(original, signed, signer, verdicts, i)
                &&& sigs.len() == 0 <==> !freshly_signed(original.inputs[i], signed.inputs[i])
                &&& forall|j: int|
                    0 <= j < signed.inputs[i].len() && is_fresh(
                        original.inputs[i],
                        #[trigger] signed.inputs[i][j],
                    ) ==> sigs.contains(
                        ExtractedView {
                            input_index: i as nat,
                            pubkey: signed.inputs[i][j].key.drop_first(),
                            signature: signed.inputs[i][j].value,
                        },
                    )
                &&& forall|k: int|
                    0 <= k < sigs.len() ==> (#[trigger] sigs[k]).input_index == i && is_of_submission(
                        original,
                        signed,
                        sigs[k],
                    )
            },
            Err(fault) => input_fault_holds(original, signed, signer, verdicts, i, fault),
        },
{
    let o = original.inputs[i];
    let g = signed.inputs[i];
    lemma_other_fields(o);
    lemma_other_fields(g);
    assert(keeps_sigs(o, g) == signatures_kept(o, g)) by {
        if keeps_sigs(o, g) {
            assert forall|k: int| 0 <= k < o.len() && is_partial_sig(#[trigger] o[k]) implies lookup(
                g,
                o[k].key,
            ) == lookup(o, o[k].key) by {
                assert(is_sig(o[k]));
            }
        }
        if signatures_kept(o, g) {
            assert forall|k: int| 0 <= k < o.len() && is_sig(#[trigger] o[k]) implies lookup(
                g,
                o[k].key,
            ) == lookup(o, o[k].key) by {
                assert(is_partial_sig(o[k]));
            }
        }
    }
    lemma_new_sigs_meaning(o, g, i as nat, Some(signer), verdicts[i], g.len());
    match input_outcome(o, g, i as nat, signer, verdicts[i]) {
        Ok(sigs) => {
            assert forall|k: int| 0 <= k < sigs.len() implies (#[trigger] sigs[k]).input_index == i
                && is_of_submission(original, signed, sigs[k]) by {
                let j = choose|j: int|
                    0 <= j < g.len() && is_fresh(o, #[trigger] g[j]) && sigs[k] == (
                    ExtractedView {
                        input_index: i as nat,
                        pubkey: g[j].key.drop_first(),
                        signature: g[j].value,
                    });
                assert(is_fresh_sig_of(original, signed, sigs[k], j));
            }
            assert(fresh_sigs_good(o, g, signer, verdicts[i]));
            assert(input_good(original, signed, signer, verdicts, i));
            assert(sigs.len() == 0 <==> !freshly_signed(o, g));
        },
        Err(fault) => {
            if keeps_sigs(o, g) && without_sigs(g) == without_sigs(o) {
                let j = choose|j: int|
                    0 <= j < g.len() && is_fresh(o, #[trigger] g[j]) && sig_fault_holds(
                        o,
                        g[j],
                        i as nat,
                        Some(signer),
                        verdicts[i][j],
                        fault,
                    );
                assert(is_fresh(o, g[j]));
                assert(first_sig_fault(
                    o,
                    g,
                    i as nat,
                    Some(signer),
                    verdicts[i],
                    fault,
                    g.len(),
                ));
            }
        },
    }
}

/// What validation makes of the first `n` inputs.
proof fn lemma_inputs_meaning(
    original: PsbtView,
    signed: PsbtView,
    signer: KeyFingerprint,
    verdicts: Seq<Seq<SigVerdictView>>,
    n: nat,
)
    requires
        n <= original.inputs.len(),
        original.inputs.len() == signed.inputs.len(),
    ensures
        match inputs_outcome(original, signed, signer, verdicts, n) {
            Ok((sigs, gap)) => {
                &&& forall|i: int|
                    0 <= i < n ==> #[trigger] input_good(original, signed, signer, verdicts, i)
                &&& match gap {
                    None => forall|i: int|
                        0 <= i < n ==> #[trigger] freshly_signed(
                            original.inputs[i],
                            signed.inputs[i],
                        ),
                    Some(k) => {
                        &&& k < n
                        &&& !freshly_signed(original.inputs[k as int], signed.inputs[k as int])
                        &&& forall|i: int|
                            0 <= i < k ==> #[trigger] freshly_signed(
                                original.inputs[i],
                                signed.inputs[i],
                            )
                    },
                }
                &&& sigs.len() == 0 <==> forall|i: int|
                    0 <= i < n ==> !(#[trigger] freshly_signed(
                        original.inputs[i],
                        signed.inputs[i],
                    ))
                &&& forall|i: int, j: int|
                    0 <= i < n && 0 <= j < signed.inputs[i].len() && is_fresh(
                        original.inputs[i],
                        #[trigger] signed.inputs[i][j],
                    ) ==> sigs.contains(
                        ExtractedView {
                            input_index: i as nat,
                            pubkey: signed.inputs[i][j].key.drop_first(),
                            signature: signed.inputs[i][j].value,
                        },
                    )
                &&& forall|k: int|
                    0 <= k < sigs.len() ==> (#[trigger] sigs[k]).input_index < n && is_of_submission(
                        original,
                        signed,
                        sigs[k],
                    )
            },
            Err(fault) => exists|i: int|
                {
                    &&& 0 <= i < n
                    &&& #[trigger] input_fault_holds(original, signed, signer, verdicts, i, fault)
                    &&& forall|k: int|
                        0 <= k < i ==> #[trigger] input_good(original, signed, signer, verdicts, k)
                },
        },
    decreases n,
{
    if n > 0 {
        let last = (n - 1) as nat;
        lemma_inputs_meaning(original, signed, signer, verdicts, last);
        lemma_input_meaning(original, signed, signer, verdicts, n - 1);
        let before = inputs_outcome(original, signed, signer, verdicts, last);
        let here = input_outcome(
            original.inputs[n - 1],
            signed.inputs[n - 1],
            last,
            signer,
            verdicts[n - 1],
        );
        match before {
            Err(fault) => {
                let i = choose|i: int|
                    {
                        &&& 0 <= i < n - 1
                        &&& #[trigger] input_fault_holds(
                            original,
                            signed,
                            signer,
                            verdicts,
                            i,
                            fault,
                        )
                        &&& forall|k: int|
                            0 <= k < i ==> #[trigger] input_good(
                                original,
                                signed,
                                signer,
                                verdicts,
                                k,
                            )
                    };
                assert(input_fault_holds(original, signed, signer, verdicts, i, fault));
            },
            Ok((old_sigs, old_gap)) => match here {
                Err(fault) => {
                    assert(input_fault_holds(original, signed, signer, verdicts, n - 1, fault));
                },
                Ok(added) => {
                    let sigs = old_sigs + added;
                    assert forall|i: int, j: int|
                        0 <= i < n && 0 <= j < signed.inputs[i].len() && is_fresh(
                            original.inputs[i],
                            #[trigger] signed.inputs[i][j],
                        ) implies sigs.contains(
                        ExtractedView {
                            input_index: i as nat,
                            pubkey: signed.inputs[i][j].key.drop_first(),
                            signature: signed.inputs[i][j].value,
                        },
                    ) by {
                        let x = ExtractedView {
                            input_index: i as nat,
                            pubkey: signed.inputs[i][j].key.drop_first(),
                            signature: signed.inputs[i][j].value,
                        };
                        if i < n - 1 {
                            assert(old_sigs.contains(x));
                            let k = choose|k: int| 0 <= k < old_sigs.len() && old_sigs[k] == x;
                            assert(sigs[k] == x);
                        } else {
                            assert(added.contains(x));
                            let k = choose|k: int| 0 <= k < added.len() && added[k] == x;
                            assert(sigs[old_sigs.len() + k] == x);
                        }
                    }
                    assert forall|k: int| 0 <= k < sigs.len() implies (
                    #[trigger] sigs[k]).input_index < n && is_of_submission(
                        original,
                        signed,
                        sigs[k],
                    ) by {
                        if k < old_sigs.len() {
                            assert(sigs[k] == old_sigs[k]);
                        } else {
                            assert(sigs[k] == added[k - old_sigs.len()]);
                        }
                    }
                    assert(freshly_signed(original.inputs[n - 1], signed.inputs[n - 1]) == (
                    added.len() > 0));
                },
            },
        }
    }
}

proof fn lemma_changed_output_meaning(
    a: Seq<Seq<PairView>>,
    b: Seq<Seq<PairView>>,
    n: nat,
)
    ensures
        match changed_output(a, b, n) {
            None => forall|i: int| 0 <= i < n ==> #[trigger] a[i] == b[i],
            Some(k) => k < n && a[k as int] != b[k as int] && forall|i: int|
                0 <= i < k ==> #[trigger] a[i] == b[i],
        },
    decreases n,
{
    if n > 0 {
        lemma_changed_output_meaning(a, b, (n - 1) as nat);
    }
}

/// Whether a submission leaves everything but the signatures as it was.
pub open spec fn nothing_else_changed(original: PsbtView, signed: PsbtView) -> bool {
    &&& lookup(signed.global, seq![0u8]) == lookup(original.global, seq![0u8])
    &&& signed.inputs.len() == original.inputs.len()
    &&& signed.outputs.len() == original.outputs.len()
    &&& other_globals(signed.global) == other_globals(original.global)
    &&& forall|i: int|
        0 <= i < original.outputs.len() ==> #[trigger] signed.outputs[i] == original.outputs[i]
}

/// A submission is accepted exactly where it is a good one: nothing but signatures was changed,
/// the original's signatures are all there, every fresh signature is the signer's, covers
/// everything and verifies, and every input, of which there is at least one, has a fresh
/// signature. What is returned of it are its fresh signatures, all of them and nothing else.
pub proof fn law_good_submission_is_accepted(
    original: PsbtView,
    signed: PsbtView,
    signer: KeyFingerprint,
    verdicts: Seq<Seq<SigVerdictView>>,
)
    ensures
        submission_outcome(original, signed, signer, verdicts) is Ok <==> {
            &&& nothing_else_changed(original, signed)
            &&& original.inputs.len() > 0
            &&& forall|i: int|
                0 <= i < original.inputs.len() ==> #[trigger] input_good(
                    original,
                    signed,
                    signer,
                    verdicts,
                    i,
                )
            &&& forall|i: int|
                0 <= i < original.inputs.len() ==> #[trigger] freshly_signed(
                    original.inputs[i],
                    signed.inputs[i],
                )
        },
        submission_outcome(original, signed, signer, verdicts) is Ok ==> {
            let sigs = submission_outcome(original, signed, signer, verdicts)->Ok_0;
            &&& forall|i: int, j: int|
                0 <= i < original.inputs.len() && 0 <= j < signed.inputs[i].len() && is_fresh(
                    original.inputs[i],
                    #[trigger] signed.inputs[i][j],
                ) ==> sigs.contains(
                    ExtractedView {
                        input_index: i as nat,
                        pubkey: signed.inputs[i][j].key.drop_first(),
                        signature: signed.inputs[i][j].value,
                    },
                )
            &&& forall|k: int|
                0 <= k < sigs.len() ==> is_of_submission(original, signed, #[trigger] sigs[k])
        },
{
    let n = original.inputs.len();
    lemma_other_fields(original.global);
    lemma_other_fields(signed.global);
    assert(crate::psbt::fields::unsigned_tx_key() == seq![0u8]);
    if signed.inputs.len() == original.inputs.len() {
        lemma_inputs_meaning(original, signed, signer, verdicts, n);
    }
    lemma_changed_output_meaning(original.outputs, signed.outputs, original.outputs.len());
    let good = {
        &&& nothing_else_changed(original, signed)
        &&& n > 0
        &&& forall|i: int|
            0 <= i < n ==> #[trigger] input_good(original, signed, signer, verdicts, i)
        &&& forall|i: int|
            0 <= i < n ==> #[trigger] freshly_signed(original.inputs[i], signed.inputs[i])
    };
    if good {
        match inputs_outcome(original, signed, signer, verdicts, n) {
            Err(fault) => {
                let i = choose|i: int|
                    {
                        &&& 0 <= i < n
                        &&& #[trigger] input_fault_holds(
                            original,
                            signed,
                            signer,
                            verdicts,
                            i,
                            fault,
                        )
                        &&& forall|k: int|
                            0 <= k < i ==> #[trigger] input_good(
                                original,
                                signed,
                                signer,
                                verdicts,
                                k,
                            )
                    };
                assert(input_good(original, signed, signer, verdicts, i));
                lemma_good_input_has_no_fault(original, signed, signer, verdicts, i, fault);
            },
            Ok((sigs, gap)) => {
                assert(freshly_signed(original.inputs[0], signed.inputs[0]));
            },
        }
    }
    if submission_outcome(original, signed, signer, verdicts) is Ok {
        let (sigs, gap) = inputs_outcome(original, signed, signer, verdicts, n)->Ok_0;
        if n == 0 {
            assert(sigs.len() == 0);
        }
        assert forall|k: int| 0 <= k < sigs.len() implies is_of_submission(
            original,
            signed,
            #[trigger] sigs[k],
        ) by {
            assert(sigs[k].input_index < n);
        }
    }
}

proof fn lemma_good_input_has_no_fault(
    original: PsbtView,
    signed: PsbtView,
    signer: KeyFingerprint,
    verdicts: Seq<Seq<SigVerdictView>>,
    i: int,
    fault: ValidationFault,
)
    requires
        input_good(original, signed, signer, verdicts, i),
    ensures
        !input_fault_holds(original, signed, signer, verdicts, i, fault),
{
    let o = original.inputs[i];
    let g = signed.inputs[i];
    if input_fault_holds(original, signed, signer, verdicts, i, fault) {
        let j = choose|j: int|
            0 <= j < g.len() && is_fresh(o, #[trigger] g[j]) && sig_fault_holds(
                o,
                g[j],
                i as nat,
                Some(signer),
                verdicts[i][j],
                fault,
            );
        assert(is_good_sig(o, g[j], signer, verdicts[i][j]));
    }
}

/// Every refusal of a submission tells the truth, and the first truth that is to be told: of the
/// transaction, the counts, the global fields, the first changed output, the first input that is
/// not good, that no signature is fresh, and last the first input without a fresh one.
pub proof fn law_refusal_of_submission_is_true(
    original: PsbtView,
    signed: PsbtView,
    signer: KeyFingerprint,
    verdicts: Seq<Seq<SigVerdictView>>,
)
    requires
        submission_outcome(original, signed, signer, verdicts) is Err,
    ensures
        ({
            let fault = submission_outcome(original, signed, signer, verdicts)->Err_0;
            let n = original.inputs.len();
            let all_good = forall|i: int|
                0 <= i < n ==> #[trigger] input_good(original, signed, signer, verdicts, i);
            if lookup(signed.global, seq![0u8]) != lookup(original.global, seq![0u8]) {
                fault == ValidationFault::UnsignedTxModified
            } else if signed.inputs.len() != n || signed.outputs.len() != original.outputs.len() {
                fault == ValidationFault::InputOutputCountMismatch
            } else if other_globals(signed.global) != other_globals(original.global) {
                fault == ValidationFault::GlobalFieldModified
            } else if !nothing_else_changed(original, signed) {
                &&& fault is OutputFieldModified
                &&& {
                    let k = fault->OutputFieldModified_0 as int;
                    &&& k < original.outputs.len()
                    &&& signed.outputs[k] != original.outputs[k]
                    &&& forall|i: int|
                        0 <= i < k ==> #[trigger] signed.outputs[i] == original.outputs[i]
                }
            } else if !all_good {
                exists|i: int|
                    {
                        &&& 0 <= i < n
                        &&& #[trigger] input_fault_holds(
                            original,
                            signed,
                            signer,
                            verdicts,
                            i,
                            fault,
                        )
                        &&& forall|k: int|
                            0 <= k < i ==> #[trigger] input_good(
                                original,
                                signed,
                                signer,
                                verdicts,
                                k,
                            )
                    }
            } else if forall|i: int|
                0 <= i < n ==> !(#[trigger] freshly_signed(original.inputs[i], signed.inputs[i])) {
                fault == ValidationFault::NoNewSignatures
            } else {
                &&& fault is IncompleteSubmission
                &&& {
                    let k = fault->IncompleteSubmission_0 as int;
                    &&& k < n
                    &&& !freshly_signed(original.inputs[k], signed.inputs[k])
                    &&& forall|i: int|
                        0 <= i < k ==> #[trigger] freshly_signed(
                            original.inputs[i],
                            signed.inputs[i],
                        )
                }
            }
        }),
{
    let n = original.inputs.len();
    let fault = submission_outcome(original, signed, signer, verdicts)->Err_0;
    lemma_other_fields(original.global);
    lemma_other_fields(signed.global);
    assert(crate::psbt::fields::unsigned_tx_key() == seq![0u8]);
    if signed.inputs.len() == n {
        lemma_inputs_meaning(original, signed, signer, verdicts, n);
    }
    lemma_changed_output_meaning(original.outputs, signed.outputs, original.outputs.len());
    if nothing_else_changed(original, signed) {
        match changed_output(original.outputs, signed.outputs, original.outputs.len()) {
            Some(k) => {
                assert(signed.outputs[k as int] == original.outputs[k as int]);
            },
            None => {},
        }
        match inputs_outcome(original, signed, signer, verdicts, n) {
            Err(f) => {
                let i = choose|i: int|
                    {
                        &&& 0 <= i < n
                        &&& #[trigger] input_fault_holds(original, signed, signer, verdicts, i, f)
                        &&& forall|k: int|
                            0 <= k < i ==> #[trigger] input_good(
                                original,
                                signed,
                                signer,
                                verdicts,
                                k,
                            )
                    };
                if input_good(original, signed, signer, verdicts, i) {
                    lemma_good_input_has_no_fault(original, signed, signer, verdicts, i, f);
                }
            },
            Ok(_) => {},
        }
    } else if signed.inputs.len() == n && signed.outputs.len() == original.outputs.len() {
        match changed_output(original.outputs, signed.outputs, original.outputs.len()) {
            Some(k) => {
                assert forall|i: int| 0 <= i < k implies #[trigger] signed.outputs[i]
                    == original.outputs[i] by {
                    assert(original.outputs[i] == signed.outputs[i]);
                }
            },
            None => {
                assert forall|i: int| 0 <= i < original.outputs.len() implies
                    #[trigger] signed.outputs[i] == original.outputs[i] by {
                    assert(original.outputs[i] == signed.outputs[i]);
                }
            },
        }
    }
}

/// A stored document passes exactly where it has the original's transaction and number of inputs,
/// and every fresh signature in it covers everything and verifies. Where it does not pass, the
/// answer tells the truth.
pub proof fn law_stored_document_is_judged(
    original: PsbtView,
    merged: PsbtView,
    verdicts: Seq<Seq<SigVerdictView>>,
)
    ensures
        ({
            let outcome = merged_outcome(original, merged, verdicts);
            let n = original.inputs.len();
            if lookup(merged.global, seq![0u8]) != lookup(original.global, seq![0u8]) {
                outcome == Err::<(), ValidationFault>(ValidationFault::UnsignedTxModified)
            } else if merged.inputs.len() != n {
                outcome == Err::<(), ValidationFault>(ValidationFault::InputOutputCountMismatch)
            } else if forall|i: int, j: int|
                0 <= i < n && 0 <= j < merged.inputs[i].len() && is_fresh(
                    original.inputs[i],
                    #[trigger] merged.inputs[i][j],
                ) ==> covers_everything(merged.inputs[i][j].value) && verdicts[i][j]
                    == SigVerdictView::Valid {
                outcome is Ok
            } else {
                &&& outcome is Err
                &&& exists|i: int|
                    0 <= i < n && #[trigger] first_sig_fault(
                        original.inputs[i],
                        merged.inputs[i],
                        i as nat,
                        None,
                        verdicts[i],
                        outcome->Err_0,
                        merged.inputs[i].len(),
                    )
            }
        }),
{
    let n = original.inputs.len();
    assert(crate::psbt::fields::unsigned_tx_key() == seq![0u8]);
    if merged.inputs.len() == n {
        lemma_added_meaning(original, merged, verdicts, n);
        match added_sigs_outcome(original, merged, verdicts, n) {
            Ok(_) => {},
            Err(fault) => {
                let i = choose|i: int|
                    0 <= i < n && #[trigger] first_sig_fault(
                        original.inputs[i],
                        merged.inputs[i],
                        i as nat,
                        None,
                        verdicts[i],
                        fault,
                        merged.inputs[i].len(),
                    );
                let o = original.inputs[i];
                let g = merged.inputs[i];
                let j = choose|j: int|
                    0 <= j < g.len() && is_fresh(o, #[trigger] g[j]) && sig_fault_holds(
                        o,
                        g[j],
                        i as nat,
                        None,
                        verdicts[i][j],
                        fault,
                    );
                assert(is_fresh(original.inputs[i], merged.inputs[i][j]));
            },
        }
    }
}

proof fn lemma_added_meaning(
    original: PsbtView,
    merged: PsbtView,
    verdicts: Seq<Seq<SigVerdictView>>,
    n: nat,
)
    requires
        n <= original.inputs.len(),
        original.inputs.len() == merged.inputs.len(),
    ensures
        match added_sigs_outcome(original, merged, verdicts, n) {
            Ok(_) => forall|i: int, j: int|
                0 <= i < n && 0 <= j < merged.inputs[i].len() && is_fresh(
                    original.inputs[i],
                    #[trigger] merged.inputs[i][j],
                ) ==> covers_everything(merged.inputs[i][j].value) && verdicts[i][j]
                    == SigVerdictView::Valid,
            Err(fault) => exists|i: int|
                0 <= i < n && #[trigger] first_sig_fault(
                    original.inputs[i],
                    merged.inputs[i],
                    i as nat,
                    None,
                    verdicts[i],
                    fault,
                    merged.inputs[i].len(),
                ),
        },
    decreases n,
{
    if n > 0 {
        lemma_added_meaning(original, merged, verdicts, (n - 1) as nat);
        let o = original.inputs[n - 1];
        let g = merged.inputs[n - 1];
        lemma_new_sigs_meaning(o, g, (n - 1) as nat, None, verdicts[n - 1], g.len());
        match added_sigs_outcome(original, merged, verdicts, (n - 1) as nat) {
            Err(fault) => {
                let i = choose|i: int|
                    0 <= i < n - 1 && #[trigger] first_sig_fault(
                        original.inputs[i],
                        merged.inputs[i],
                        i as nat,
                        None,
                        verdicts[i],
                        fault,
                        merged.inputs[i].len(),
                    );
                assert(first_sig_fault(
                    original.inputs[i],
                    merged.inputs[i],
                    i as nat,
                    None,
                    verdicts[i],
                    fault,
                    merged.inputs[i].len(),
                ));
            },
            Ok(_) => {
                match new_sigs(o, g, (n - 1) as nat, None, verdicts[n - 1], g.len()) {
                    Err(fault) => {
                        assert(first_sig_fault(
                            original.inputs[n - 1],
                            merged.inputs[n - 1],
                            (n - 1) as nat,
                            None,
                            verdicts[n - 1],
                            fault,
                            merged.inputs[n - 1].len(),
                        ));
                    },
                    Ok(_) => {
                        assert forall|i: int, j: int|
                            0 <= i < n && 0 <= j < merged.inputs[i].len() && is_fresh(
                                original.inputs[i],
                                #[trigger] merged.inputs[i][j],
                            ) implies covers_everything(merged.inputs[i][j].value)
                            && verdicts[i][j] == SigVerdictView::Valid by {
                            if i == n - 1 {
                                assert(is_fresh(o, g[j]));
                            }
                        }
                    },
                }
            },
        }
    }
}

/// A fresh signature that is put to the test is judged by the sighash of the original at its input
/// and by the signature scheme: it is valid exactly where there is such a sighash and the
/// signature, without its last byte, verifies for it under the public key of the field.
pub proof fn law_verdict_is_that_of_the_signature_scheme(
    original: PsbtView,
    other: PsbtView,
    signer: Option<KeyFingerprint>,
    i: int,
    j: int,
)
    requires
        0 <= i < other.inputs.len(),
        i < original.inputs.len(),
        0 <= j < other.inputs[i].len(),
        is_fresh(original.inputs[i], other.inputs[i][j]),
        signer is None || comes_from(
            original.inputs[i],
            other.inputs[i][j].key.drop_first(),
            signer->0,
        ),
        covers_everything(other.inputs[i][j].value),
        spent_outputs_known(original, false),
    ensures
        ({
            let p = other.inputs[i][j];
            verdicts_on(original, other, signer)[i][j] == match psbt_sighash(
                encode(original),
                i as nat,
            ) {
                Err(reason) => SigVerdictView::NoSighash(reason),
                Ok(digest) => if ecdsa_verifies(digest, p.value.drop_last(), p.key.drop_first()) {
                    SigVerdictView::Valid
                } else {
                    SigVerdictView::Invalid
                },
            }
        }),
{
    let p = other.inputs[i][j];
    lemma_fresh(original.inputs[i], p);
    assert(key_source_same(p.key.drop_first()));
    assert(verdicts_on(original, other, signer)[i][j] == verdict_at(original, other, signer, i, j));
}

/// The outputs that a document spends are known where its maps are as many as its transaction has
/// inputs and outputs and every input tells the output that it spends.
pub proof fn law_told_outputs_are_known(p: PsbtView, vouts: Seq<u32>, n: nat, finalizing: bool)
    requires
        encodable(p),
        lookup(p.global, seq![0u8]) is Some,
        transaction_outline(lookup(p.global, seq![0u8])->0) == Some((vouts, n)),
        vouts.len() > 0,
        !((lookup(p.global, seq![0u8])->0).len() > 4 && (lookup(p.global, seq![0u8])->0)[4] == 0),
        p.inputs.len() == vouts.len(),
        p.outputs.len() == n,
        forall|i: int| 0 <= i < p.inputs.len() ==> lookup(#[trigger] p.inputs[i], seq![1u8]) is Some,
    ensures
        spent_outputs_known(p, finalizing),
{
    assert(crate::psbt::fields::unsigned_tx_key() == seq![0u8]);
    assert forall|i: int| 0 <= i < p.inputs.len() implies #[trigger] coin_readable(
        p.inputs,
        i,
        vouts[i],
        finalizing,
    ) by {
        assert(lookup(p.inputs[i], seq![1u8]) is Some);
    }
}

/// Bytes are read as a document exactly where they are at most a mebibyte and can be read; the
/// document is then the one whose bytes are the canonical ones.
pub proof fn law_bytes_are_read_as_their_document(bytes: Seq<u8>)
    ensures
        match parse_outcome(bytes) {
            Ok(p) => {
                &&& bytes.len() <= 1_048_576
                &&& canonical_psbt(bytes) == Ok::<(Seq<u8>, nat, nat), Seq<char>>(
                    (encode(p), p.inputs.len(), p.outputs.len()),
                )
                &&& encodable(p)
            },
            Err(fault) => if bytes.len() > 1_048_576 {
                fault == ValidationFault::TooLarge { size: bytes.len(), max: 1_048_576 }
            } else {
                match canonical_psbt(bytes) {
                    Err(reason) => fault == ValidationFault::Deserialize(reason),
                    Ok((canonical, inputs, outputs)) => fault is Deserialize && forall|p: PsbtView|
                        encodable(p) && p.inputs.len() == inputs && p.outputs.len() == outputs
                            ==> #[trigger] encode(p) != canonical,
                }
            },
        },
{
    if bytes.len() <= 1_048_576 {
        match canonical_psbt(bytes) {
            Err(_) => {},
            Ok((canonical, inputs, outputs)) => match decode(canonical, inputs, outputs) {
                Some(p) => {
                    law_encode_of_decode(canonical, inputs, outputs);
                },
                None => {
                    assert forall|p: PsbtView|
                        encodable(p) && p.inputs.len() == inputs && p.outputs.len()
                            == outputs implies #[trigger] encode(p) != canonical by {
                        law_decode_of_encode(p);
                    }
                },
            },
        }
    }
}

/// The compressed form of a public key: one of 33 bytes stands as it is; of one of 65 bytes the
/// first coordinate stays, behind a byte that is 2 or 3 as the second one is even or odd.
pub proof fn law_compressed_form(pubkey: Seq<u8>)
    ensures
        pubkey.len() == 33 ==> compressed(pubkey) == pubkey,
        pubkey.len() == 65 ==> {
            &&& compressed(pubkey).len() == 33
            &&& compressed(pubkey)[0] == 2 + pubkey[64] % 2
            &&& forall|i: int| 1 <= i < 33 ==> #[trigger] compressed(pubkey)[i] == pubkey[i]
        },
{
}

/// What is said of a document is said of all of it: of every field of every map.
pub proof fn law_all_of_a_document_is_seen(p: Psbt, m: FieldMap)
    ensures
        p@.global == p.global@,
        p@.inputs.len() == p.inputs@.len(),
        forall|i: int| 0 <= i < p.inputs@.len() ==> #[trigger] p@.inputs[i] == p.inputs@[i]@,
        p@.outputs.len() == p.outputs@.len(),
        forall|i: int| 0 <= i < p.outputs@.len() ==> #[trigger] p@.outputs[i] == p.outputs@[i]@,
        m@.len() == m.pairs@.len(),
        forall|i: int|
            0 <= i < m.pairs@.len() ==> (#[trigger] m@[i]).key == m.pairs@[i].key@ && m@[i].value
                == m.pairs@[i].value@,
{
}

/// What is said of the signatures of a list is said of each of them.
pub proof fn law_all_extracted_signatures_are_seen(sigs: Seq<ExtractedSignature>)
    ensures
        extracted_views(sigs).len() == sigs.len(),
        forall|k: int|
            0 <= k < sigs.len() ==> (#[trigger] extracted_views(sigs)[k]).input_index
                == sigs[k].input_index && extracted_views(sigs)[k].pubkey == sigs[k].pubkey@
                && extracted_views(sigs)[k].signature == sigs[k].signature@,
{
}

/// Public keys are ordered as documents list them: those in uncompressed form before those in
/// compressed form, and within a form by the bytes of the compressed form, of which the first
/// difference decides.
pub proof fn law_public_keys_are_ordered(a: Seq<u8>, b: Seq<u8>)
    ensures
        a.len() == 65 && b.len() == 33 ==> pubkey_less(a, b) && !pubkey_less(b, a),
        a.len() == b.len() ==> (pubkey_less(a, b) <==> exists|i: int| #[trigger]
            differs_below_at(compressed(a), compressed(b), i)),
{
    law_first_difference_decides(compressed(a), compressed(b));
}

} // verus!
