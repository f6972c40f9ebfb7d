//! Validation of documents that signers send back.
//!
//! A signer returns a whole document. Before the platform records a signature it must know that
//! the submission is the original document plus partial signatures of that signer alone, with
//! every input signed and every signature verified against the original. Of an accepted
//! submission only the extracted signatures are used: what is stored is rebuilt from the
//! original document and them.

use vstd::prelude::*;

use crate::bytes::{bytes_equal, copy_range};
use crate::primitives::KeyFingerprint;
use crate::psbt::codec::{decode, encode, map_views, FieldMap, Pair, PairView, Psbt, PsbtView};
use crate::psbt::crypto::{
    canonical_psbt, ecdsa_verifies, has_spent_outputs, psbt_sighash, read_document,
    sighash_digest, spent_outputs_known, verify_ecdsa,
};
use crate::psbt::fields::{
    bound_to, is_sig, lookup, side_fields, signs_all, unsigned_tx, without_sigs,
};
use crate::psbt::order::ordered;

verus! {

/// Hard cap on accepted documents, in bytes (1 MiB).
///
/// Submissions are bytes from outside that are read and stored before anything is known of
/// them; the cap bounds what that can cost. A spend of a hundred inputs by fifteen signers
/// stays well below it.
pub const MAX_PSBT_BYTES: usize = 1_048_576;

/// Why a document is refused.
#[derive(Debug)]
pub enum PsbtValidationError {
    /// The bytes are no document.
    Deserialize(String),
    /// There are more bytes than the cap allows.
    TooLarge { size: usize, max: usize },
    /// The transaction is not the original's.
    UnsignedTxModified,
    /// The number of inputs or outputs is not the original's.
    InputOutputCountMismatch,
    /// A signature of the original is missing or altered at this input.
    PartialSignatureRemoved(usize),
    /// No input holds a new signature.
    NoNewSignatures,
    /// This input holds no new signature, though others do: a signer signs every input.
    IncompleteSubmission(usize),
    /// What the signatures of an input sign cannot be computed.
    SighashComputation { index: usize, reason: String },
    /// A signature at this input does not sign all inputs and outputs, so the transaction could
    /// be changed after it was given.
    NonSigHashAllSighash(usize),
    /// A signature at this input does not verify.
    InvalidPartialSignature(usize),
    /// A signature is for a public key that the original does not derive from the signer's
    /// master key.
    SignatureNotBoundToSigner { index: usize, pubkey: Vec<u8>, expected: KeyFingerprint },
    /// A global field other than the transaction was changed.
    GlobalFieldModified,
    /// A field of this input other than its signatures was changed.
    InputFieldModified(usize),
    /// A field of this output was changed.
    OutputFieldModified(usize),
}

/// What a [`PsbtValidationError`] says.
pub enum ValidationFault {
    Deserialize(Seq<char>),
    TooLarge { size: nat, max: nat },
    UnsignedTxModified,
    InputOutputCountMismatch,
    PartialSignatureRemoved(nat),
    NoNewSignatures,
    IncompleteSubmission(nat),
    SighashComputation { index: nat, reason: Seq<char> },
    NonSigHashAllSighash(nat),
    InvalidPartialSignature(nat),
    SignatureNotBoundToSigner { index: nat, pubkey: Seq<u8>, expected: KeyFingerprint },
    GlobalFieldModified,
    InputFieldModified(nat),
    OutputFieldModified(nat),
}

impl View for PsbtValidationError {
    type V = ValidationFault;

    open spec fn view(&self) -> ValidationFault {
        match *self {
            PsbtValidationError::Deserialize(s) => ValidationFault::Deserialize(s@),
            PsbtValidationError::TooLarge { size, max } => ValidationFault::TooLarge {
                size: size as nat,
                max: max as nat,
            },
            PsbtValidationError::UnsignedTxModified => ValidationFault::UnsignedTxModified,
            PsbtValidationError::InputOutputCountMismatch =>
                ValidationFault::InputOutputCountMismatch,
            PsbtValidationError::PartialSignatureRemoved(i) =>
                ValidationFault::PartialSignatureRemoved(i as nat),
            PsbtValidationError::NoNewSignatures => ValidationFault::NoNewSignatures,
            PsbtValidationError::IncompleteSubmission(i) => ValidationFault::IncompleteSubmission(
                i as nat,
            ),
            PsbtValidationError::SighashComputation { index, reason } =>
                ValidationFault::SighashComputation { index: index as nat, reason: reason@ },
            PsbtValidationError::NonSigHashAllSighash(i) => ValidationFault::NonSigHashAllSighash(
                i as nat,
            ),
            PsbtValidationError::InvalidPartialSignature(i) =>
                ValidationFault::InvalidPartialSignature(i as nat),
            PsbtValidationError::SignatureNotBoundToSigner { index, pubkey, expected } =>
                ValidationFault::SignatureNotBoundToSigner {
                index: index as nat,
                pubkey: pubkey@,
                expected,
            },
            PsbtValidationError::GlobalFieldModified => ValidationFault::GlobalFieldModified,
            PsbtValidationError::InputFieldModified(i) => ValidationFault::InputFieldModified(
                i as nat,
            ),
            PsbtValidationError::OutputFieldModified(i) => ValidationFault::OutputFieldModified(
                i as nat,
            ),
        }
    }
}

/// A partial signature out of a validated submission.
#[derive(Debug)]
pub struct ExtractedSignature {
    pub input_index: usize,
    /// The public key, in the form in which the document holds it.
    pub pubkey: Vec<u8>,
    /// The signature in DER form, followed by its signature hash type.
    pub signature: Vec<u8>,
}

/// What an [`ExtractedSignature`] holds.
pub struct ExtractedView {
    pub input_index: nat,
    pub pubkey: Seq<u8>,
    pub signature: Seq<u8>,
}

impl View for ExtractedSignature {
    type V = ExtractedView;

    open spec fn view(&self) -> ExtractedView {
        ExtractedView {
            input_index: self.input_index as nat,
            pubkey: self.pubkey@,
            signature: self.signature@,
        }
    }
}

/// What each signature of a list holds.
pub open spec fn extracted_views(sigs: Seq<ExtractedSignature>) -> Seq<ExtractedView> {
    Seq::new(sigs.len(), |i: int| sigs[i]@)
}

/// The outcome of the cryptographic check of one signature.
#[derive(Debug)]
pub enum SigVerdict {
    /// It verifies.
    Valid,
    /// It does not verify.
    Invalid,
    /// What it should sign cannot be computed.
    NoSighash(String),
}

/// What a [`SigVerdict`] says.
pub enum SigVerdictView {
    Valid,
    Invalid,
    NoSighash(Seq<char>),
}

impl View for SigVerdict {
    type V = SigVerdictView;

    open spec fn view(&self) -> SigVerdictView {
        match *self {
            SigVerdict::Valid => SigVerdictView::Valid,
            SigVerdict::Invalid => SigVerdictView::Invalid,
            SigVerdict::NoSighash(s) => SigVerdictView::NoSighash(s@),
        }
    }
}

/// The verdicts on the fields of one input map.
pub open spec fn verdict_views(vs: Seq<SigVerdict>) -> Seq<SigVerdictView> {
    Seq::new(vs.len(), |i: int| vs[i]@)
}

/// The verdicts on the fields of each input map.
pub open spec fn verdict_table(vs: Seq<Vec<SigVerdict>>) -> Seq<Seq<SigVerdictView>> {
    Seq::new(vs.len(), |i: int| verdict_views(vs[i]@))
}

/// Whether a field is a signature that the original's input map does not hold.
pub open spec fn is_new_sig(orig_in: Seq<PairView>, p: PairView) -> bool {
    is_sig(p) && lookup(orig_in, p.key) is None
}

/// Whether a signature is from the signer that is expected, where one is.
pub open spec fn from_signer(
    orig_in: Seq<PairView>,
    p: PairView,
    signer: Option<KeyFingerprint>,
) -> bool {
    match signer {
        None => true,
        Some(f) => bound_to(orig_in, p.key.drop_first(), f),
    }
}

/// What is wrong with a new signature at input `index`, if anything: first whose key it is for,
/// then what it signs, then whether it verifies.
pub open spec fn sig_fault(
    orig_in: Seq<PairView>,
    p: PairView,
    index: nat,
    signer: Option<KeyFingerprint>,
    verdict: SigVerdictView,
) -> Option<ValidationFault> {
    if !from_signer(orig_in, p, signer) {
        Some(
            ValidationFault::SignatureNotBoundToSigner {
                index,
                pubkey: p.key.drop_first(),
                expected: signer->0,
            },
        )
    } else if !signs_all(p.value) {
        Some(ValidationFault::NonSigHashAllSighash(index))
    } else {
        match verdict {
            SigVerdictView::Valid => None,
            SigVerdictView::Invalid => Some(ValidationFault::InvalidPartialSignature(index)),
            SigVerdictView::NoSighash(reason) => Some(
                ValidationFault::SighashComputation { index, reason },
            ),
        }
    }
}

/// The new signatures among the first `n` fields of an input map, or the first fault of one.
pub open spec fn new_sigs(
    orig_in: Seq<PairView>,
    other_in: Seq<PairView>,
    index: nat,
    signer: Option<KeyFingerprint>,
    verdicts: Seq<SigVerdictView>,
    n: nat,
) -> Result<Seq<ExtractedView>, ValidationFault>
    decreases n,
{
    if n == 0 {
        Ok(Seq::empty())
    } else {
        match new_sigs(orig_in, other_in, index, signer, verdicts, (n - 1) as nat) {
            Err(e) => Err(e),
            Ok(sigs) => {
                let p = other_in[n - 1];
                if !is_new_sig(orig_in, p) {
                    Ok(sigs)
                } else {
                    match sig_fault(orig_in, p, index, signer, verdicts[n - 1]) {
                        Some(e) => Err(e),
                        None => Ok(
                            sigs.push(
                                ExtractedView {
                                    input_index: index,
                                    pubkey: p.key.drop_first(),
                                    signature: p.value,
                                },
                            ),
                        ),
                    }
                }
            },
        }
    }
}

/// Whether every signature of the original's input map stands unaltered in the other one.
pub open spec fn keeps_sigs(orig_in: Seq<PairView>, other_in: Seq<PairView>) -> bool {
    forall|i: int|
        0 <= i < orig_in.len() && is_sig(#[trigger] orig_in[i]) ==> lookup(other_in, orig_in[i].key)
            == lookup(orig_in, orig_in[i].key)
}

/// What a submission adds to one input, or its first fault there.
pub open spec fn input_outcome(
    orig_in: Seq<PairView>,
    signed_in: Seq<PairView>,
    index: nat,
    signer: KeyFingerprint,
    verdicts: Seq<SigVerdictView>,
) -> Result<Seq<ExtractedView>, ValidationFault> {
    if !keeps_sigs(orig_in, signed_in) {
        Err(ValidationFault::PartialSignatureRemoved(index))
    } else if without_sigs(signed_in) != without_sigs(orig_in) {
        Err(ValidationFault::InputFieldModified(index))
    } else {
        new_sigs(orig_in, signed_in, index, Some(signer), verdicts, signed_in.len())
    }
}

/// What a submission adds to the first `n` inputs, with the first of them to which it adds
/// nothing; or its first fault there.
pub open spec fn inputs_outcome(
    original: PsbtView,
    signed: PsbtView,
    signer: KeyFingerprint,
    verdicts: Seq<Seq<SigVerdictView>>,
    n: nat,
) -> Result<(Seq<ExtractedView>, Option<nat>), ValidationFault>
    decreases n,
{
    if n == 0 {
        Ok((Seq::empty(), None))
    } else {
        let last = (n - 1) as nat;
        match inputs_outcome(original, signed, signer, verdicts, last) {
            Err(e) => Err(e),
            Ok((sigs, gap)) => match input_outcome(
                original.inputs[last as int],
                signed.inputs[last as int],
                last,
                signer,
                verdicts[last as int],
            ) {
                Err(e) => Err(e),
                Ok(added) => Ok(
                    (
                        sigs + added,
                        if gap is None && added.len() == 0 {
                            Some(last)
                        } else {
                            gap
                        },
                    ),
                ),
            },
        }
    }
}

/// The first of the first `n` outputs whose map was changed.
pub open spec fn changed_output(a: Seq<Seq<PairView>>, b: Seq<Seq<PairView>>, n: nat) -> Option<nat>
    decreases n,
{
    if n == 0 {
        None
    } else {
        match changed_output(a, b, (n - 1) as nat) {
            Some(i) => Some(i),
            None => if a[n - 1] != b[n - 1] {
                Some((n - 1) as nat)
            } else {
                None
            },
        }
    }
}

/// What a submission is answered, given the verdict on each field that is a signature.
pub open spec fn submission_outcome(
    original: PsbtView,
    signed: PsbtView,
    signer: KeyFingerprint,
    verdicts: Seq<Seq<SigVerdictView>>,
) -> Result<Seq<ExtractedView>, ValidationFault> {
    if unsigned_tx(signed.global) != unsigned_tx(original.global) {
        Err(ValidationFault::UnsignedTxModified)
    } else if signed.inputs.len() != original.inputs.len() || signed.outputs.len()
        != original.outputs.len() {
        Err(ValidationFault::InputOutputCountMismatch)
    } else if side_fields(signed.global) != side_fields(original.global) {
        Err(ValidationFault::GlobalFieldModified)
    } else {
        match changed_output(original.outputs, signed.outputs, original.outputs.len()) {
            Some(i) => Err(ValidationFault::OutputFieldModified(i)),
            None => match inputs_outcome(
                original,
                signed,
                signer,
                verdicts,
                original.inputs.len(),
            ) {
                Err(e) => Err(e),
                Ok((sigs, gap)) => if sigs.len() == 0 {
                    Err(ValidationFault::NoNewSignatures)
                } else if gap is Some {
                    Err(ValidationFault::IncompleteSubmission(gap->0))
                } else {
                    Ok(sigs)
                },
            },
        }
    }
}

/// What the signatures of input `index` sign, as the original document tells it.
pub open spec fn sighash_of(p: PsbtView, index: nat) -> Result<Seq<u8>, Seq<char>> {
    if spent_outputs_known(p, false) {
        psbt_sighash(encode(p), index)
    } else {
        Err("the outputs that are spent are not known"@)
    }
}

/// The verdict on a signature at input `index`.
pub open spec fn sig_verdict(original: PsbtView, index: nat, p: PairView) -> SigVerdictView {
    match sighash_of(original, index) {
        Err(reason) => SigVerdictView::NoSighash(reason),
        Ok(digest) => if ecdsa_verifies(digest, p.value.drop_last(), p.key.drop_first()) {
            SigVerdictView::Valid
        } else {
            SigVerdictView::Invalid
        },
    }
}

/// The verdict on field `j` of input `i`. Only a new signature of the expected signer that
/// signs everything is put to the test; of no other field the verdict is ever looked at.
pub open spec fn verdict_at(
    original: PsbtView,
    other: PsbtView,
    signer: Option<KeyFingerprint>,
    i: int,
    j: int,
) -> SigVerdictView {
    let p = other.inputs[i][j];
    if i < original.inputs.len() && is_new_sig(original.inputs[i], p) && from_signer(
        original.inputs[i],
        p,
        signer,
    ) && signs_all(p.value) {
        sig_verdict(original, i as nat, p)
    } else {
        SigVerdictView::Invalid
    }
}

/// The verdicts on all fields of the input maps of a document.
pub open spec fn verdicts_on(
    original: PsbtView,
    other: PsbtView,
    signer: Option<KeyFingerprint>,
) -> Seq<Seq<SigVerdictView>> {
    Seq::new(
        other.inputs.len(),
        |i: int|
            Seq::new(
                other.inputs[i].len(),
                |j: int| verdict_at(original, other, signer, i, j),
            ),
    )
}

/// A fault among the first `n` fields is the fault of the whole map.
proof fn lemma_new_sigs_fault(
    orig_in: Seq<PairView>,
    other_in: Seq<PairView>,
    index: nat,
    signer: Option<KeyFingerprint>,
    verdicts: Seq<SigVerdictView>,
    n: nat,
    m: nat,
)
    requires
        n <= m,
        new_sigs(orig_in, other_in, index, signer, verdicts, n) is Err,
    ensures
        new_sigs(orig_in, other_in, index, signer, verdicts, m) == new_sigs(
            orig_in,
            other_in,
            index,
            signer,
            verdicts,
            n,
        ),
    decreases m,
{
    if n < m {
        lemma_new_sigs_fault(orig_in, other_in, index, signer, verdicts, n, (m - 1) as nat);
    }
}

/// A fault among the first `n` inputs is the fault of the submission.
proof fn lemma_inputs_fault(
    original: PsbtView,
    signed: PsbtView,
    signer: KeyFingerprint,
    verdicts: Seq<Seq<SigVerdictView>>,
    n: nat,
    m: nat,
)
    requires
        n <= m,
        inputs_outcome(original, signed, signer, verdicts, n) is Err,
    ensures
        inputs_outcome(original, signed, signer, verdicts, m) == inputs_outcome(
            original,
            signed,
            signer,
            verdicts,
            n,
        ),
    decreases m,
{
    if n < m {
        lemma_inputs_fault(original, signed, signer, verdicts, n, (m - 1) as nat);
    }
}

/// A changed output among the first `n` is the first changed output.
proof fn lemma_changed_output(a: Seq<Seq<PairView>>, b: Seq<Seq<PairView>>, n: nat, m: nat)
    requires
        n <= m,
        changed_output(a, b, n) is Some,
    ensures
        changed_output(a, b, m) == changed_output(a, b, n),
    decreases m,
{
    if n < m {
        lemma_changed_output(a, b, n, (m - 1) as nat);
    }
}

/// Whether every signature of the original's input map stands unaltered in the other one.
fn sigs_kept(orig_in: &FieldMap, other_in: &FieldMap) -> (r: bool)
    ensures
        r == keeps_sigs(orig_in@, other_in@),
{
    let mut i: usize = 0;
    while i < orig_in.pairs.len()
        invariant
            i <= orig_in.pairs@.len(),
            forall|j: int|
                0 <= j < i && is_sig(#[trigger] orig_in@[j]) ==> lookup(other_in@, orig_in@[j].key)
                    == lookup(orig_in@, orig_in@[j].key),
        decreases orig_in.pairs@.len() - i,
    {
        if orig_in.pairs[i].is_partial_sig() {
            let key: &[u8] = orig_in.pairs[i].key.as_slice();
            assert(is_sig(orig_in@[i as int]));
            assert(orig_in@[i as int].key == key@);
            let kept: bool = match (orig_in.get(key), other_in.get(key)) {
                (Some(a), Some(b)) => bytes_equal(a.as_slice(), b.as_slice()),
                (None, None) => true,
                _ => false,
            };
            if !kept {
                return false;
            }
        }
        i += 1;
    }
    true
}

/// What is wrong with a new signature, given the verdict on it.
fn check_signature(
    orig_in: &FieldMap,
    pair: &Pair,
    index: usize,
    signer: Option<KeyFingerprint>,
    verdict: &SigVerdict,
) -> (r: Option<PsbtValidationError>)
    requires
        is_sig(pair@),
    ensures
        match r {
            Some(e) => sig_fault(orig_in@, pair@, index as nat, signer, verdict@) == Some(e@),
            None => sig_fault(orig_in@, pair@, index as nat, signer, verdict@) is None,
        },
{
    let pubkey: Vec<u8> = copy_range(pair.key.as_slice(), 1, pair.key.len());
    assert(pubkey@ =~= pair@.key.drop_first());
    match signer {
        Some(expected) => {
            if !orig_in.bound_to(pubkey.as_slice(), expected) {
                return Some(
                    PsbtValidationError::SignatureNotBoundToSigner { index, pubkey, expected },
                );
            }
        },
        None => {},
    }
    if !(pair.value.len() > 0 && pair.value[pair.value.len() - 1] == 1) {
        return Some(PsbtValidationError::NonSigHashAllSighash(index));
    }
    match verdict {
        SigVerdict::Valid => None,
        SigVerdict::Invalid => Some(PsbtValidationError::InvalidPartialSignature(index)),
        SigVerdict::NoSighash(reason) => Some(
            PsbtValidationError::SighashComputation { index, reason: reason.clone() },
        ),
    }
}

/// The new signatures of an input map, given the verdict on each of its fields; or the first
/// fault of one.
pub fn collect_new_sigs(
    orig_in: &FieldMap,
    other_in: &FieldMap,
    index: usize,
    signer: Option<KeyFingerprint>,
    verdicts: &Vec<SigVerdict>,
) -> (r: Result<Vec<ExtractedSignature>, PsbtValidationError>)
    requires
        verdicts@.len() == other_in@.len(),
    ensures
        match r {
            Ok(sigs) => new_sigs(
                orig_in@,
                other_in@,
                index as nat,
                signer,
                verdict_views(verdicts@),
                other_in@.len(),
            ) == Ok::<Seq<ExtractedView>, ValidationFault>(extracted_views(sigs@)),
            Err(e) => new_sigs(
                orig_in@,
                other_in@,
                index as nat,
                signer,
                verdict_views(verdicts@),
                other_in@.len(),
            ) == Err::<Seq<ExtractedView>, ValidationFault>(e@),
        },
{
    let ghost vs = verdict_views(verdicts@);
    let mut sigs: Vec<ExtractedSignature> = Vec::new();
    let mut j: usize = 0;
    assert(extracted_views(sigs@) =~= Seq::<ExtractedView>::empty());
    while j < other_in.pairs.len()
        invariant
            j <= other_in.pairs@.len(),
            verdicts@.len() == other_in@.len(),
            vs == verdict_views(verdicts@),
            new_sigs(orig_in@, other_in@, index as nat, signer, vs, j as nat) == Ok::<
                Seq<ExtractedView>,
                ValidationFault,
            >(extracted_views(sigs@)),
        decreases other_in.pairs@.len() - j,
    {
        let pair: &Pair = &other_in.pairs[j];
        assert(other_in@[j as int] == pair@);
        assert(vs[j as int] == verdicts@[j as int]@);
        if pair.is_partial_sig() && !orig_in.has(pair.key.as_slice()) {
            match check_signature(orig_in, pair, index, signer, &verdicts[j]) {
                Some(e) => {
                    proof {
                        lemma_new_sigs_fault(
                            orig_in@,
                            other_in@,
                            index as nat,
                            signer,
                            vs,
                            (j + 1) as nat,
                            other_in@.len(),
                        );
                    }
                    return Err(e);
                },
                None => {},
            }
            let ghost before = extracted_views(sigs@);
            let sig: ExtractedSignature = ExtractedSignature {
                input_index: index,
                pubkey: copy_range(pair.key.as_slice(), 1, pair.key.len()),
                signature: pair.value.clone(),
            };
            assert(sig.pubkey@ =~= pair@.key.drop_first());
            assert(sig.signature@ =~= pair@.value);
            let ghost added = sig@;
            sigs.push(sig);
            assert(extracted_views(sigs@) =~= before.push(added));
        }
        j += 1;
    }
    Ok(sigs)
}

/// What a submission adds to one input, given the verdict on each field of its map.
pub fn check_input(
    orig_in: &FieldMap,
    signed_in: &FieldMap,
    index: usize,
    signer: KeyFingerprint,
    verdicts: &Vec<SigVerdict>,
) -> (r: Result<Vec<ExtractedSignature>, PsbtValidationError>)
    requires
        verdicts@.len() == signed_in@.len(),
    ensures
        match r {
            Ok(sigs) => input_outcome(
                orig_in@,
                signed_in@,
                index as nat,
                signer,
                verdict_views(verdicts@),
            ) == Ok::<Seq<ExtractedView>, ValidationFault>(extracted_views(sigs@)),
            Err(e) => input_outcome(
                orig_in@,
                signed_in@,
                index as nat,
                signer,
                verdict_views(verdicts@),
            ) == Err::<Seq<ExtractedView>, ValidationFault>(e@),
        },
{
    if !sigs_kept(orig_in, signed_in) {
        return Err(PsbtValidationError::PartialSignatureRemoved(index));
    }
    if !signed_in.without_sigs().same(&orig_in.without_sigs()) {
        return Err(PsbtValidationError::InputFieldModified(index));
    }
    collect_new_sigs(orig_in, signed_in, index, Some(signer), verdicts)
}

/// Whether two global maps hold the same unsigned transaction.
fn same_unsigned_tx(a: &FieldMap, b: &FieldMap) -> (r: bool)
    ensures
        r == (unsigned_tx(a@) == unsigned_tx(b@)),
{
    let key: [u8; 1] = [0];
    assert(key@ =~= seq![0u8]);
    match (a.get(key.as_slice()), b.get(key.as_slice())) {
        (Some(x), Some(y)) => bytes_equal(x.as_slice(), y.as_slice()),
        (None, None) => true,
        _ => false,
    }
}

/// The first output whose map was changed.
fn find_changed_output(a: &Vec<FieldMap>, b: &Vec<FieldMap>) -> (r: Option<usize>)
    requires
        a@.len() == b@.len(),
    ensures
        match r {
            Some(i) => changed_output(map_views(a@), map_views(b@), a@.len()) == Some(i as nat),
            None => changed_output(map_views(a@), map_views(b@), a@.len()) is None,
        },
{
    let mut i: usize = 0;
    while i < a.len()
        invariant
            a@.len() == b@.len(),
            i <= a@.len(),
            changed_output(map_views(a@), map_views(b@), i as nat) is None,
        decreases a@.len() - i,
    {
        if !a[i].same(&b[i]) {
            proof {
                lemma_changed_output(map_views(a@), map_views(b@), (i + 1) as nat, a@.len());
            }
            return Some(i);
        }
        i += 1;
    }
    None
}

/// Whether there is one verdict for each field of each input map.
pub open spec fn verdicts_fit(p: PsbtView, verdicts: Seq<Seq<SigVerdictView>>) -> bool {
    &&& verdicts.len() == p.inputs.len()
    &&& forall|i: int|
        0 <= i < verdicts.len() ==> (#[trigger] verdicts[i]).len() == p.inputs[i].len()
}

/// Validates a submission, given the verdict on each field of its input maps that is a
/// signature.
pub fn validate_with_verdicts(
    original: &Psbt,
    signed: &Psbt,
    signer: KeyFingerprint,
    verdicts: &Vec<Vec<SigVerdict>>,
) -> (r: Result<Vec<ExtractedSignature>, PsbtValidationError>)
    requires
        verdicts_fit(signed@, verdict_table(verdicts@)),
    ensures
        match r {
            Ok(sigs) => submission_outcome(original@, signed@, signer, verdict_table(verdicts@))
                == Ok::<Seq<ExtractedView>, ValidationFault>(extracted_views(sigs@)),
            Err(e) => submission_outcome(original@, signed@, signer, verdict_table(verdicts@))
                == Err::<Seq<ExtractedView>, ValidationFault>(e@),
        },
{
    if !same_unsigned_tx(&signed.global, &original.global) {
        return Err(PsbtValidationError::UnsignedTxModified);
    }
    if signed.inputs.len() != original.inputs.len() || signed.outputs.len()
        != original.outputs.len() {
        return Err(PsbtValidationError::InputOutputCountMismatch);
    }
    if !signed.global.side_fields().same(&original.global.side_fields()) {
        return Err(PsbtValidationError::GlobalFieldModified);
    }
    match find_changed_output(&original.outputs, &signed.outputs) {
        Some(i) => {
            return Err(PsbtValidationError::OutputFieldModified(i));
        },
        None => {},
    }
    let ghost table = verdict_table(verdicts@);
    let mut extracted: Vec<ExtractedSignature> = Vec::new();
    let mut first_incomplete: Option<usize> = None;
    let mut i: usize = 0;
    assert(extracted_views(extracted@) =~= Seq::<ExtractedView>::empty());
    while i < original.inputs.len()
        invariant
            i <= original.inputs@.len(),
            original.inputs@.len() == signed.inputs@.len(),
            original.outputs@.len() == signed.outputs@.len(),
            unsigned_tx(signed@.global) == unsigned_tx(original@.global),
            side_fields(signed@.global) == side_fields(original@.global),
            changed_output(original@.outputs, signed@.outputs, original@.outputs.len()) is None,
            table == verdict_table(verdicts@),
            verdicts_fit(signed@, table),
            match inputs_outcome(original@, signed@, signer, table, i as nat) {
                Err(_) => false,
                Ok((sigs, gap)) => {
                    &&& sigs == extracted_views(extracted@)
                    &&& match first_incomplete {
                        None => gap is None,
                        Some(k) => gap == Some(k as nat),
                    }
                },
            },
        decreases original.inputs@.len() - i,
    {
        assert(table[i as int] == verdict_views(verdicts@[i as int]@));
        assert(original@.inputs[i as int] == original.inputs@[i as int]@);
        assert(signed@.inputs[i as int] == signed.inputs@[i as int]@);
        match check_input(&original.inputs[i], &signed.inputs[i], i, signer, &verdicts[i]) {
            Err(e) => {
                proof {
                    lemma_inputs_fault(
                        original@,
                        signed@,
                        signer,
                        table,
                        (i + 1) as nat,
                        original@.inputs.len(),
                    );
                }
                return Err(e);
            },
            Ok(mut added) => {
                if added.len() == 0 && first_incomplete.is_none() {
                    first_incomplete = Some(i);
                }
                let ghost before = extracted_views(extracted@);
                let ghost new = extracted_views(added@);
                extracted.append(&mut added);
                assert(extracted_views(extracted@) =~= before + new);
            },
        }
        i += 1;
    }
    if extracted.len() == 0 {
        return Err(PsbtValidationError::NoNewSignatures);
    }
    match first_incomplete {
        Some(k) => Err(PsbtValidationError::IncompleteSubmission(k)),
        None => Ok(extracted),
    }
}

/// Checks one signature: it verifies against what the original document says is signed, never
/// against what another document says.
fn verify_partial_sig(
    original: &Psbt,
    document: &Vec<u8>,
    known: bool,
    index: usize,
    pair: &Pair,
) -> (r: SigVerdict)
    requires
        document@ == encode(original@),
        known == spent_outputs_known(original@, false),
        is_sig(pair@),
        pair@.value.len() > 0,
    ensures
        r@ == sig_verdict(original@, index as nat, pair@),
{
    if !known {
        let reason: &str = "the outputs that are spent are not known";
        return SigVerdict::NoSighash(reason.to_string());
    }
    match sighash_digest(document.as_slice(), index) {
        Err(reason) => SigVerdict::NoSighash(reason),
        Ok(digest) => {
            let der: Vec<u8> = copy_range(pair.value.as_slice(), 0, pair.value.len() - 1);
            let pubkey: Vec<u8> = copy_range(pair.key.as_slice(), 1, pair.key.len());
            assert(der@ =~= pair@.value.drop_last());
            assert(pubkey@ =~= pair@.key.drop_first());
            if verify_ecdsa(&digest, der.as_slice(), pubkey.as_slice()) {
                SigVerdict::Valid
            } else {
                SigVerdict::Invalid
            }
        },
    }
}

/// The verdicts on all fields of the input maps of a document.
fn verify_signatures(original: &Psbt, other: &Psbt, signer: Option<KeyFingerprint>) -> (r: Vec<
    Vec<SigVerdict>,
>)
    ensures
        verdict_table(r@) == verdicts_on(original@, other@, signer),
        verdicts_fit(other@, verdict_table(r@)),
{
    let document: Vec<u8> = original.serialize();
    let known: bool = has_spent_outputs(original, false);
    let ghost wanted = verdicts_on(original@, other@, signer);
    let mut table: Vec<Vec<SigVerdict>> = Vec::new();
    let mut i: usize = 0;
    while i < other.inputs.len()
        invariant
            i <= other.inputs@.len(),
            document@ == encode(original@),
            known == spent_outputs_known(original@, false),
            wanted == verdicts_on(original@, other@, signer),
            table@.len() == i,
            forall|k: int| 0 <= k < i ==> verdict_views((#[trigger] table@[k])@) == wanted[k],
        decreases other.inputs@.len() - i,
    {
        let mut row: Vec<SigVerdict> = Vec::new();
        let mut j: usize = 0;
        assert(other@.inputs[i as int] == other.inputs@[i as int]@);
        while j < other.inputs[i].pairs.len()
            invariant
                i < other.inputs@.len(),
                j <= other.inputs@[i as int].pairs@.len(),
                document@ == encode(original@),
                known == spent_outputs_known(original@, false),
                other@.inputs[i as int] == other.inputs@[i as int]@,
                row@.len() == j,
                forall|k: int|
                    0 <= k < j ==> (#[trigger] row@[k])@ == verdict_at(
                        original@,
                        other@,
                        signer,
                        i as int,
                        k,
                    ),
            decreases other.inputs@[i as int].pairs@.len() - j,
        {
            let pair: &Pair = &other.inputs[i].pairs[j];
            assert(other@.inputs[i as int][j as int] == pair@);
            let mut verdict: SigVerdict = SigVerdict::Invalid;
            if i < original.inputs.len() {
                let orig_in: &FieldMap = &original.inputs[i];
                assert(original@.inputs[i as int] == orig_in@);
                if pair.is_partial_sig() && !orig_in.has(pair.key.as_slice()) {
                    let pubkey: Vec<u8> = copy_range(pair.key.as_slice(), 1, pair.key.len());
                    assert(pubkey@ =~= pair@.key.drop_first());
                    let bound: bool = match signer {
                        None => true,
                        Some(f) => orig_in.bound_to(pubkey.as_slice(), f),
                    };
                    if bound && pair.value.len() > 0 && pair.value[pair.value.len() - 1] == 1 {
                        verdict = verify_partial_sig(original, &document, known, i, pair);
                    }
                }
            }
            row.push(verdict);
            j += 1;
        }
        assert(verdict_views(row@) =~= wanted[i as int]);
        table.push(row);
        i += 1;
    }
    assert(verdict_table(table@) =~= wanted);
    table
}

/// Verifies that `signed` is `original` plus partial signatures of the expected signer, with
/// at least one for every input.
///
/// Each new signature must be for a public key that the *original* document derives from the
/// master key with the expected fingerprint: a signature is only bytes, and anybody who saw a
/// cosigner's document could otherwise hand in that cosigner's signatures as their own. It must
/// sign all inputs and outputs, and verify against the *original* document.
///
/// Everything but the signatures must be unchanged, and the signatures of the original must
/// still be there. The first fault found is returned: the transaction, the number of inputs and
/// outputs, the global fields, the outputs, then input by input, and last that no signature is
/// new or that an input has none.
pub fn validate_signed_submission(
    original: &Psbt,
    signed: &Psbt,
    expected_fingerprint: &KeyFingerprint,
) -> (r: Result<Vec<ExtractedSignature>, PsbtValidationError>)
    ensures
        ({
            let verdicts = verdicts_on(original@, signed@, Some(*expected_fingerprint));
            match r {
                Ok(sigs) => submission_outcome(original@, signed@, *expected_fingerprint, verdicts)
                    == Ok::<Seq<ExtractedView>, ValidationFault>(extracted_views(sigs@)),
                Err(e) => submission_outcome(original@, signed@, *expected_fingerprint, verdicts)
                    == Err::<Seq<ExtractedView>, ValidationFault>(e@),
            }
        }),
{
    let verdicts: Vec<Vec<SigVerdict>> = verify_signatures(
        original,
        signed,
        Some(*expected_fingerprint),
    );
    validate_with_verdicts(original, signed, *expected_fingerprint, &verdicts)
}

/// What bytes that were read as a document, or the reason why they were not, come to.
pub open spec fn read_outcome(read: Result<(Seq<u8>, nat, nat), Seq<char>>) -> Result<
    PsbtView,
    ValidationFault,
> {
    match read {
        Err(reason) => Err(ValidationFault::Deserialize(reason)),
        Ok((bytes, inputs, outputs)) => match decode(bytes, inputs, outputs) {
            Some(p) => Ok(p),
            None => Err(ValidationFault::Deserialize("the maps of the document are malformed"@)),
        },
    }
}

/// The document that was read, as its maps.
pub fn document_from_read(read: Result<(Vec<u8>, usize, usize), String>) -> (r: Result<
    Psbt,
    PsbtValidationError,
>)
    ensures
        ({
            let found: Result<(Seq<u8>, nat, nat), Seq<char>> = match read {
                Ok((b, n, m)) => Ok((b@, n as nat, m as nat)),
                Err(e) => Err(e@),
            };
            match r {
                Ok(p) => read_outcome(found) == Ok::<PsbtView, ValidationFault>(p@),
                Err(e) => read_outcome(found) == Err::<PsbtView, ValidationFault>(e@),
            }
        }),
{
    match read {
        Err(reason) => Err(PsbtValidationError::Deserialize(reason)),
        Ok((bytes, inputs, outputs)) => match Psbt::from_frame(bytes.as_slice(), inputs, outputs) {
            Some(p) => Ok(p),
            None => {
                let reason: &str = "the maps of the document are malformed";
                Err(PsbtValidationError::Deserialize(reason.to_string()))
            },
        },
    }
}

/// What some bytes come to as a document: too many are refused before they are read.
pub open spec fn parse_outcome(bytes: Seq<u8>) -> Result<PsbtView, ValidationFault> {
    if bytes.len() > MAX_PSBT_BYTES {
        Err(ValidationFault::TooLarge { size: bytes.len(), max: MAX_PSBT_BYTES as nat })
    } else {
        read_outcome(canonical_psbt(bytes))
    }
}

/// Reads a document. Its fields come in the order in which documents are written.
pub fn parse_psbt(bytes: &[u8]) -> (r: Result<Psbt, PsbtValidationError>)
    ensures
        match r {
            Ok(p) => parse_outcome(bytes@) == Ok::<PsbtView, ValidationFault>(p@) && ordered(p@),
            Err(e) => parse_outcome(bytes@) == Err::<PsbtView, ValidationFault>(e@),
        },
{
    if bytes.len() > MAX_PSBT_BYTES {
        return Err(PsbtValidationError::TooLarge { size: bytes.len(), max: MAX_PSBT_BYTES });
    }
    document_from_read(read_document(bytes))
}

/// What the signatures that a document adds to the first `n` inputs of the original come to.
pub open spec fn added_sigs_outcome(
    original: PsbtView,
    merged: PsbtView,
    verdicts: Seq<Seq<SigVerdictView>>,
    n: nat,
) -> Result<(), ValidationFault>
    decreases n,
{
    if n == 0 {
        Ok(())
    } else {
        match added_sigs_outcome(original, merged, verdicts, (n - 1) as nat) {
            Err(e) => Err(e),
            Ok(_) => match new_sigs(
                original.inputs[n - 1],
                merged.inputs[n - 1],
                (n - 1) as nat,
                None,
                verdicts[n - 1],
                merged.inputs[n - 1].len(),
            ) {
                Err(e) => Err(e),
                Ok(_) => Ok(()),
            },
        }
    }
}

/// What a stored document is answered, given the verdict on each field that is a signature.
pub open spec fn merged_outcome(
    original: PsbtView,
    merged: PsbtView,
    verdicts: Seq<Seq<SigVerdictView>>,
) -> Result<(), ValidationFault> {
    if unsigned_tx(merged.global) != unsigned_tx(original.global) {
        Err(ValidationFault::UnsignedTxModified)
    } else if merged.inputs.len() != original.inputs.len() {
        Err(ValidationFault::InputOutputCountMismatch)
    } else {
        added_sigs_outcome(original, merged, verdicts, original.inputs.len())
    }
}

/// A fault among the first `n` inputs is the fault of the document.
proof fn lemma_added_sigs_fault(
    original: PsbtView,
    merged: PsbtView,
    verdicts: Seq<Seq<SigVerdictView>>,
    n: nat,
    m: nat,
)
    requires
        n <= m,
        added_sigs_outcome(original, merged, verdicts, n) is Err,
    ensures
        added_sigs_outcome(original, merged, verdicts, m) == added_sigs_outcome(
            original,
            merged,
            verdicts,
            n,
        ),
    decreases m,
{
    if n < m {
        lemma_added_sigs_fault(original, merged, verdicts, n, (m - 1) as nat);
    }
}

/// Verifies a stored document, given the verdict on each field of its input maps that is a
/// signature.
pub fn verify_merged_with_verdicts(
    original: &Psbt,
    merged: &Psbt,
    verdicts: &Vec<Vec<SigVerdict>>,
) -> (r: Result<(), PsbtValidationError>)
    requires
        verdicts_fit(merged@, verdict_table(verdicts@)),
    ensures
        match r {
            Ok(_) => merged_outcome(original@, merged@, verdict_table(verdicts@)) == Ok::<
                (),
                ValidationFault,
            >(()),
            Err(e) => merged_outcome(original@, merged@, verdict_table(verdicts@)) == Err::<
                (),
                ValidationFault,
            >(e@),
        },
{
    if !same_unsigned_tx(&merged.global, &original.global) {
        return Err(PsbtValidationError::UnsignedTxModified);
    }
    if merged.inputs.len() != original.inputs.len() {
        return Err(PsbtValidationError::InputOutputCountMismatch);
    }
    let ghost table = verdict_table(verdicts@);
    let mut i: usize = 0;
    while i < original.inputs.len()
        invariant
            i <= original.inputs@.len(),
            original.inputs@.len() == merged.inputs@.len(),
            unsigned_tx(merged@.global) == unsigned_tx(original@.global),
            table == verdict_table(verdicts@),
            verdicts_fit(merged@, table),
            added_sigs_outcome(original@, merged@, table, i as nat) is Ok,
        decreases original.inputs@.len() - i,
    {
        assert(table[i as int] == verdict_views(verdicts@[i as int]@));
        assert(original@.inputs[i as int] == original.inputs@[i as int]@);
        assert(merged@.inputs[i as int] == merged.inputs@[i as int]@);
        match collect_new_sigs(&original.inputs[i], &merged.inputs[i], i, None, &verdicts[i]) {
            Err(e) => {
                proof {
                    lemma_added_sigs_fault(
                        original@,
                        merged@,
                        table,
                        (i + 1) as nat,
                        original@.inputs.len(),
                    );
                }
                return Err(e);
            },
            Ok(_) => {},
        }
        i += 1;
    }
    Ok(())
}

/// Verifies a stored document again before it is used: it spends what the original spends, and
/// every signature that it adds signs everything and verifies against the original.
///
/// Finalization only looks at whether scripts are satisfied; a document that was damaged in
/// storage would otherwise become a transaction that the network refuses.
pub fn verify_merged_blob(original: &Psbt, merged: &Psbt) -> (r: Result<(), PsbtValidationError>)
    ensures
        ({
            let verdicts = verdicts_on(original@, merged@, None);
            match r {
                Ok(_) => merged_outcome(original@, merged@, verdicts) == Ok::<(), ValidationFault>(
                    (),
                ),
                Err(e) => merged_outcome(original@, merged@, verdicts) == Err::<
                    (),
                    ValidationFault,
                >(e@),
            }
        }),
{
    let verdicts: Vec<Vec<SigVerdict>> = verify_signatures(original, merged, None);
    verify_merged_with_verdicts(original, merged, &verdicts)
}

} // verus!
