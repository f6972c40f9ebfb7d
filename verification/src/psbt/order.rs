//! The order of the fields of a document, and what it makes of an accepted submission.

use vstd::prelude::*;

use crate::bytes::{lemma_bytes_less_irreflexive, lemma_bytes_less_transitive};
use crate::primitives::KeyFingerprint;
use crate::psbt::codec::{PairView, PsbtView};
use crate::psbt::fields::{
    compressed, is_side_field, is_sig, lemma_lookup_found, lookup, side_fields, sig_key,
    unsigned_tx_key, without_sigs,
};
use crate::psbt::laws::{law_accepted_submission, lemma_without_sigs_first};
use crate::psbt::merge::{lemma_put_sig_after, merge, pubkey_less, put_sig, stands_before};
use crate::psbt::validation::{
    input_outcome, inputs_outcome, is_new_sig, keeps_sigs, new_sigs, submission_outcome,
    ExtractedView, SigVerdictView,
};

verus! {

/// Where a field of an input map stands: first what tells the output that is spent (types 0
/// and 1), then the signatures, then everything else.
pub open spec fn field_rank(p: PairView) -> int {
    if p.key.len() > 0 && p.key[0] < 2 {
        0
    } else if is_sig(p) {
        1
    } else {
        2
    }
}

/// Whether one field may stand before another in an input map.
pub open spec fn may_precede(a: PairView, b: PairView) -> bool {
    &&& a.key != b.key
    &&& field_rank(a) <= field_rank(b)
    &&& is_sig(a) && is_sig(b) ==> pubkey_less(a.key.drop_first(), b.key.drop_first())
}

/// Whether the keys of an input map are distinct and its fields in order: the signatures stand
/// together, in the order of their public keys.
pub open spec fn map_ordered(m: Seq<PairView>) -> bool {
    forall|i: int, j: int| 0 <= i < j < m.len() ==> may_precede(#[trigger] m[i], #[trigger] m[j])
}

/// Whether a global map starts with the transaction and holds no second one.
pub open spec fn global_ordered(m: Seq<PairView>) -> bool {
    &&& m.len() > 0
    &&& m[0].key == unsigned_tx_key()
    &&& forall|j: int| 0 < j < m.len() ==> is_side_field(#[trigger] m[j])
}

/// Whether the maps of a document are in the order in which documents are written.
pub open spec fn ordered(p: PsbtView) -> bool {
    &&& global_ordered(p.global)
    &&& forall|i: int| 0 <= i < p.inputs.len() ==> map_ordered(#[trigger] p.inputs[i])
}

/// No public key comes before one that comes before it.
proof fn lemma_pubkey_less_asymmetric(a: Seq<u8>, b: Seq<u8>)
    requires
        pubkey_less(a, b),
    ensures
        !pubkey_less(b, a),
        a != b,
{
    lemma_bytes_less_irreflexive(compressed(a));
    if pubkey_less(b, a) {
        lemma_bytes_less_transitive(compressed(a), compressed(b), compressed(a));
    }
}

/// In an ordered map a key leads to the one value that stands there with it.
pub proof fn lemma_lookup_ordered(m: Seq<PairView>, i: int)
    requires
        map_ordered(m),
        0 <= i < m.len(),
    ensures
        lookup(m, m[i].key) == Some(m[i].value),
{
    lemma_lookup_found(m, m[i].key);
    match lookup(m, m[i].key) {
        Some(v) => {
            let k = choose|k: int|
                0 <= k < m.len() && (#[trigger] m[k]).key == m[i].key && m[k].value == v;
            if k < i {
                assert(may_precede(m[k], m[i]));
            } else if i < k {
                assert(may_precede(m[i], m[k]));
            }
        },
        None => {},
    }
}

/// The fields of an input map but for the signatures that are new.
spec fn old_fields(orig_in: Seq<PairView>, m: Seq<PairView>) -> Seq<PairView>
    decreases m.len(),
{
    if m.len() == 0 {
        Seq::empty()
    } else if is_new_sig(orig_in, m[0]) {
        old_fields(orig_in, m.drop_first())
    } else {
        seq![m[0]] + old_fields(orig_in, m.drop_first())
    }
}

/// What stays of a map without its new signatures stood there.
proof fn lemma_old_fields_members(orig_in: Seq<PairView>, m: Seq<PairView>)
    ensures
        forall|k: int|
            0 <= k < old_fields(orig_in, m).len() ==> m.contains(
                #[trigger] old_fields(orig_in, m)[k],
            ),
    decreases m.len(),
{
    if m.len() > 0 {
        let rest = m.drop_first();
        lemma_old_fields_members(orig_in, rest);
        let r = old_fields(orig_in, m);
        assert forall|k: int| 0 <= k < r.len() implies m.contains(#[trigger] r[k]) by {
            if is_new_sig(orig_in, m[0]) || k > 0 {
                let h = if is_new_sig(orig_in, m[0]) {
                    k
                } else {
                    k - 1
                };
                assert(r[k] == old_fields(orig_in, rest)[h]);
                let j = choose|j: int| 0 <= j < rest.len() && rest[j] == r[k];
                assert(m[j + 1] == r[k]);
            } else {
                assert(m[0] == r[k]);
            }
        }
    }
}

/// A field of a map that is no signature stands there without signatures.
proof fn lemma_without_sigs_members(m: Seq<PairView>)
    ensures
        forall|p: PairView| #[trigger]
            without_sigs(m).contains(p) ==> m.contains(p) && !is_sig(p),
    decreases m.len(),
{
    if m.len() > 0 {
        let init = m.drop_last();
        lemma_without_sigs_members(init);
        assert forall|p: PairView| #[trigger] without_sigs(m).contains(p) implies m.contains(p)
            && !is_sig(p) by {
            let w = without_sigs(m);
            let k = choose|k: int| 0 <= k < w.len() && w[k] == p;
            if !is_sig(m.last()) && k == w.len() - 1 {
                assert(m[m.len() - 1] == p);
            } else {
                assert(without_sigs(init)[k] == p);
                assert(without_sigs(init).contains(p));
                let j = choose|j: int| 0 <= j < init.len() && init[j] == p;
                assert(m[j] == p);
            }
        }
    }
}

/// The signatures of the one map are those of the other that are not new.
spec fn same_old_sigs(orig: Seq<PairView>, o: Seq<PairView>, g: Seq<PairView>) -> bool {
    forall|p: PairView|
        is_sig(p) ==> (#[trigger] o.contains(p) <==> g.contains(p) && !is_new_sig(orig, p))
}

/// An ordered map without its first field is ordered.
proof fn lemma_rest_ordered(m: Seq<PairView>)
    requires
        map_ordered(m),
        m.len() > 0,
    ensures
        map_ordered(m.drop_first()),
        forall|p: PairView| #[trigger]
            m.contains(p) <==> p == m[0] || m.drop_first().contains(p),
        forall|p: PairView| #[trigger] m.drop_first().contains(p) ==> may_precede(m[0], p),
{
    let rest = m.drop_first();
    assert forall|i: int, j: int| 0 <= i < j < rest.len() implies may_precede(
        #[trigger] rest[i],
        #[trigger] rest[j],
    ) by {
        assert(may_precede(m[i + 1], m[j + 1]));
    }
    assert forall|p: PairView| #[trigger] m.contains(p) <==> p == m[0] || rest.contains(p) by {
        if m.contains(p) && p != m[0] {
            let i = choose|i: int| 0 <= i < m.len() && m[i] == p;
            assert(rest[i - 1] == p);
        }
        if rest.contains(p) {
            let i = choose|i: int| 0 <= i < rest.len() && rest[i] == p;
            assert(m[i + 1] == p);
        }
        assert(m[0] == m[0]);
    }
    assert forall|p: PairView| #[trigger] rest.contains(p) implies may_precede(m[0], p) by {
        let i = choose|i: int| 0 <= i < rest.len() && rest[i] == p;
        assert(may_precede(m[0], m[i + 1]));
    }
}

/// Two ordered maps that agree but for new signatures agree once these are left out.
proof fn lemma_old_fields(orig: Seq<PairView>, o: Seq<PairView>, g: Seq<PairView>)
    requires
        map_ordered(o),
        map_ordered(g),
        without_sigs(o) == without_sigs(g),
        same_old_sigs(orig, o, g),
    ensures
        old_fields(orig, g) == o,
    decreases g.len(),
{
    lemma_without_sigs_members(o);
    lemma_without_sigs_members(g);
    if g.len() == 0 {
        if o.len() > 0 {
            assert(o.contains(o[0]));
            lemma_without_sigs_first(o);
            if is_sig(o[0]) {
                assert(g.contains(o[0]));
            } else {
                assert(without_sigs(o).len() > 0);
            }
        }
        assert(o =~= Seq::<PairView>::empty());
    } else {
        let rest = g.drop_first();
        lemma_rest_ordered(g);
        lemma_without_sigs_first(g);
        if is_new_sig(orig, g[0]) {
            assert forall|p: PairView| is_sig(p) implies (#[trigger] o.contains(p)
                <==> rest.contains(p) && !is_new_sig(orig, p)) by {
                assert(g.contains(p) <==> p == g[0] || rest.contains(p));
            }
            lemma_old_fields(orig, o, rest);
        } else {
            lemma_first_old_field(orig, o, g);
            let tail = o.drop_first();
            lemma_rest_ordered(o);
            lemma_without_sigs_first(o);
            assert(without_sigs(tail) == without_sigs(rest)) by {
                if !is_sig(g[0]) {
                    assert(without_sigs(o).drop_first() =~= without_sigs(tail));
                    assert(without_sigs(g).drop_first() =~= without_sigs(rest));
                }
            }
            assert forall|p: PairView| is_sig(p) implies (#[trigger] tail.contains(p)
                <==> rest.contains(p) && !is_new_sig(orig, p)) by {
                assert(o.contains(p) <==> p == o[0] || tail.contains(p));
                assert(g.contains(p) <==> p == g[0] || rest.contains(p));
                if tail.contains(p) {
                    assert(may_precede(o[0], p));
                }
                if rest.contains(p) {
                    assert(may_precede(g[0], p));
                }
            }
            lemma_old_fields(orig, tail, rest);
            assert(o =~= seq![o[0]] + tail);
        }
    }
}

/// Two ordered maps that agree but for new signatures start with the same field, where the one
/// with the new signatures does not start with such a one.
proof fn lemma_first_old_field(orig: Seq<PairView>, o: Seq<PairView>, g: Seq<PairView>)
    requires
        map_ordered(o),
        map_ordered(g),
        without_sigs(o) == without_sigs(g),
        same_old_sigs(orig, o, g),
        g.len() > 0,
        !is_new_sig(orig, g[0]),
    ensures
        o.len() > 0,
        o[0] == g[0],
{
    lemma_without_sigs_members(o);
    lemma_without_sigs_members(g);
    lemma_without_sigs_first(g);
    lemma_rest_ordered(g);
    assert(g.contains(g[0]));
    if is_sig(g[0]) {
        assert(o.contains(g[0]));
        lemma_rest_ordered(o);
        lemma_without_sigs_first(o);
        if o[0] != g[0] {
            assert(may_precede(o[0], g[0]));
            assert(o.contains(o[0]));
            if is_sig(o[0]) {
                assert(g.contains(o[0]));
                assert(may_precede(g[0], o[0]));
                lemma_pubkey_less_asymmetric(o[0].key.drop_first(), g[0].key.drop_first());
            } else {
                assert(without_sigs(o)[0] == o[0]);
                assert(without_sigs(g).contains(o[0]));
                assert(may_precede(g[0], o[0]));
            }
        }
    } else {
        assert(without_sigs(g)[0] == g[0]);
        assert(without_sigs(o).contains(g[0]));
        lemma_rest_ordered(o);
        lemma_without_sigs_first(o);
        if is_sig(o[0]) {
            assert(o.contains(o[0]));
            assert(g.contains(o[0]));
            assert(may_precede(g[0], o[0]));
            assert(may_precede(o[0], g[0]));
        } else {
            assert(without_sigs(o)[0] == o[0]);
        }
    }
}

/// An accepted input without its new signatures is the original's.
proof fn lemma_old_fields_of_accepted(o: Seq<PairView>, g: Seq<PairView>)
    requires
        map_ordered(o),
        map_ordered(g),
        keeps_sigs(o, g),
        without_sigs(o) == without_sigs(g),
    ensures
        old_fields(o, g) == o,
{
    assert forall|p: PairView| is_sig(p) implies (#[trigger] o.contains(p) <==> g.contains(p)
        && !is_new_sig(o, p)) by {
        if o.contains(p) {
            let i = choose|i: int| 0 <= i < o.len() && o[i] == p;
            lemma_lookup_ordered(o, i);
            assert(is_sig(o[i]));
            lemma_lookup_found(g, p.key);
            let k = choose|k: int|
                0 <= k < g.len() && (#[trigger] g[k]).key == p.key && g[k].value == p.value;
            assert(g[k] == p);
        }
        if g.contains(p) && !is_new_sig(o, p) {
            let k = choose|k: int| 0 <= k < g.len() && g[k] == p;
            lemma_lookup_ordered(g, k);
            lemma_lookup_found(o, p.key);
            let v = lookup(o, p.key)->0;
            let i = choose|i: int|
                0 <= i < o.len() && (#[trigger] o[i]).key == p.key && o[i].value == v;
            assert(is_sig(o[i]));
            assert(o[i] == p);
        }
    }
    lemma_old_fields(o, o, g);
}

/// Putting the next new signature into a map which has those before it.
proof fn lemma_put_next(o: Seq<PairView>, g: Seq<PairView>, n: int)
    requires
        map_ordered(g),
        0 <= n < g.len(),
        is_new_sig(o, g[n]),
    ensures
        put_sig(g.take(n) + old_fields(o, g.skip(n)), g[n].key, g[n].value) == g.take(n + 1)
            + old_fields(o, g.skip(n + 1)),
{
    let key = g[n].key;
    let value = g[n].value;
    let tail = old_fields(o, g.skip(n + 1));
    assert(g.skip(n)[0] == g[n]);
    assert(g.skip(n).drop_first() =~= g.skip(n + 1));
    let m = g.take(n) + tail;
    assert forall|i: int| 0 <= i < n implies stands_before(#[trigger] m[i], key) by {
        assert(m[i] == g[i]);
        assert(may_precede(g[i], g[n]));
        if is_sig(g[i]) {
            lemma_pubkey_less_asymmetric(g[i].key.drop_first(), key.drop_first());
        }
    }
    lemma_put_sig_after(m, key, value, n as nat);
    assert(m.take(n) =~= g.take(n));
    assert(m.skip(n) =~= tail);
    assert(put_sig(tail, key, value) =~= seq![g[n]] + tail) by {
        if tail.len() > 0 {
            lemma_old_fields_members(o, g.skip(n + 1));
            let after = g.skip(n + 1);
            assert(after.contains(tail[0]));
            let k = choose|k: int| 0 <= k < after.len() && after[k] == tail[0];
            assert(g[n + 1 + k] == tail[0]);
            assert(may_precede(g[n], g[n + 1 + k]));
            if is_sig(tail[0]) {
                lemma_pubkey_less_asymmetric(key.drop_first(), tail[0].key.drop_first());
            }
        } else {
            assert(seq![g[n]] + tail =~= seq![g[n]]);
        }
    }
    assert(g.take(n) + (seq![g[n]] + tail) =~= g.take(n + 1) + tail);
}

/// A document with the map of an input replaced.
spec fn with_input(p: PsbtView, i: int, m: Seq<PairView>) -> PsbtView {
    PsbtView { inputs: p.inputs.update(i, m), ..p }
}

/// Merging the signatures of the first `n` fields of an input, after others.
proof fn lemma_merge_fields(
    original: PsbtView,
    before: Seq<ExtractedView>,
    g: Seq<PairView>,
    index: nat,
    signer: Option<KeyFingerprint>,
    verdicts: Seq<SigVerdictView>,
    n: nat,
)
    requires
        index < original.inputs.len(),
        merge(original, before).inputs.len() == original.inputs.len(),
        merge(original, before).inputs[index as int] == original.inputs[index as int],
        map_ordered(g),
        old_fields(original.inputs[index as int], g) == original.inputs[index as int],
        n <= g.len(),
        new_sigs(original.inputs[index as int], g, index, signer, verdicts, n) is Ok,
    ensures
        merge(
            original,
            before + new_sigs(
                original.inputs[index as int],
                g,
                index,
                signer,
                verdicts,
                n,
            )->Ok_0,
        ) == with_input(
            merge(original, before),
            index as int,
            g.take(n as int) + old_fields(original.inputs[index as int], g.skip(n as int)),
        ),
    decreases n,
{
    let i = index as int;
    let o = original.inputs[i];
    let start = merge(original, before);
    let sigs = new_sigs(o, g, index, signer, verdicts, n)->Ok_0;
    if n == 0 {
        assert(before + sigs =~= before);
        assert(g.skip(0) =~= g);
        assert(g.take(0) + o =~= o);
        assert(start.inputs.update(i, o) =~= start.inputs);
    } else {
        let last = (n - 1) as nat;
        let init = new_sigs(o, g, index, signer, verdicts, last)->Ok_0;
        lemma_merge_fields(original, before, g, index, signer, verdicts, last);
        let p = g[n - 1];
        let m = g.take(n - 1) + old_fields(o, g.skip(n - 1));
        assert(g.skip(n - 1)[0] == p);
        assert(g.skip(n - 1).drop_first() =~= g.skip(n as int));
        if is_new_sig(o, p) {
            let s = ExtractedView {
                input_index: index,
                pubkey: p.key.drop_first(),
                signature: p.value,
            };
            assert(sigs == init.push(s));
            let all = before + sigs;
            assert(all.drop_last() =~= before + init);
            assert(all.last() == s);
            assert(sig_key(s.pubkey) =~= p.key);
            lemma_put_next(o, g, n - 1);
            assert(start.inputs.update(i, m).update(i, put_sig(m, p.key, p.value))
                =~= start.inputs.update(i, put_sig(m, p.key, p.value)));
        } else {
            assert(m =~= g.take(n as int) + old_fields(o, g.skip(n as int)));
        }
    }
}

/// Merging what a submission adds to the first `n` inputs.
proof fn lemma_merge_inputs(
    original: PsbtView,
    signed: PsbtView,
    signer: KeyFingerprint,
    verdicts: Seq<Seq<SigVerdictView>>,
    n: nat,
)
    requires
        n <= original.inputs.len(),
        original.inputs.len() == signed.inputs.len(),
        ordered(original),
        ordered(signed),
        inputs_outcome(original, signed, signer, verdicts, n) is Ok,
    ensures
        merge(original, (inputs_outcome(original, signed, signer, verdicts, n)->Ok_0).0) == (
        PsbtView {
            inputs: signed.inputs.take(n as int) + original.inputs.skip(n as int),
            ..original
        }),
    decreases n,
{
    let sigs = (inputs_outcome(original, signed, signer, verdicts, n)->Ok_0).0;
    if n == 0 {
        assert(signed.inputs.take(0) + original.inputs.skip(0) =~= original.inputs);
    } else {
        let last = (n - 1) as nat;
        let i = n - 1;
        lemma_merge_inputs(original, signed, signer, verdicts, last);
        let before = (inputs_outcome(original, signed, signer, verdicts, last)->Ok_0).0;
        let o = original.inputs[i];
        let g = signed.inputs[i];
        let added = input_outcome(o, g, last, signer, verdicts[i])->Ok_0;
        assert(sigs == before + added);
        let start = merge(original, before);
        assert(start.inputs[i] == o);
        assert(map_ordered(o) && map_ordered(g));
        lemma_old_fields_of_accepted(o, g);
        lemma_merge_fields(original, before, g, last, Some(signer), verdicts[i], g.len());
        assert(g.take(g.len() as int) + old_fields(o, g.skip(g.len() as int)) =~= g);
        assert(start.inputs.update(i, g) =~= signed.inputs.take(n as int)
            + original.inputs.skip(n as int));
    }
}

/// Where a global map is ordered, the fields beside the transaction are all but the first.
proof fn lemma_side_fields_ordered(m: Seq<PairView>)
    requires
        global_ordered(m),
    ensures
        side_fields(m) == m.drop_first(),
        lookup(m, unsigned_tx_key()) == Some(m[0].value),
    decreases m.len(),
{
    let init = m.drop_last();
    if m.len() == 1 {
        assert(side_fields(init) =~= Seq::<PairView>::empty());
        assert(m.drop_first() =~= Seq::<PairView>::empty());
        assert(lookup(init, unsigned_tx_key()) is None);
    } else {
        assert forall|j: int| 0 < j < init.len() implies is_side_field(#[trigger] init[j]) by {
            assert(init[j] == m[j]);
        }
        assert(is_side_field(m[m.len() - 1]));
        lemma_side_fields_ordered(init);
        assert(init.drop_first().push(m.last()) =~= m.drop_first());
    }
}

/// What is stored of an accepted submission is the submission: merging the signatures that were
/// extracted into the original gives the submitted document back.
pub proof fn law_merge_gives_submission_back(
    original: PsbtView,
    signed: PsbtView,
    signer: KeyFingerprint,
    verdicts: Seq<Seq<SigVerdictView>>,
)
    requires
        ordered(original),
        ordered(signed),
        submission_outcome(original, signed, signer, verdicts) is Ok,
    ensures
        merge(original, submission_outcome(original, signed, signer, verdicts)->Ok_0) == signed,
{
    let n = original.inputs.len();
    law_accepted_submission(original, signed, signer, verdicts);
    lemma_merge_inputs(original, signed, signer, verdicts, n);
    assert(signed.inputs.take(n as int) + original.inputs.skip(n as int) =~= signed.inputs);
    lemma_side_fields_ordered(original.global);
    lemma_side_fields_ordered(signed.global);
    assert(original.global =~= seq![original.global[0]] + original.global.drop_first());
    assert(signed.global =~= seq![signed.global[0]] + signed.global.drop_first());
}

/// Whether one signature was extracted before another: for an earlier input, or for the same
/// input and a public key that comes first.
pub open spec fn extracted_before(a: ExtractedView, b: ExtractedView) -> bool {
    a.input_index < b.input_index || a.input_index == b.input_index && pubkey_less(
        a.pubkey,
        b.pubkey,
    )
}

/// Whether signatures are for each input and public key at most once, in that order.
pub open spec fn extracted_in_order(sigs: Seq<ExtractedView>) -> bool {
    forall|k: int, l: int|
        0 <= k < l < sigs.len() ==> extracted_before(#[trigger] sigs[k], #[trigger] sigs[l])
}

/// The signatures of one input are in the order of its fields.
proof fn lemma_new_sigs_order(
    o: Seq<PairView>,
    g: Seq<PairView>,
    index: nat,
    signer: Option<KeyFingerprint>,
    verdicts: Seq<SigVerdictView>,
    n: nat,
)
    requires
        map_ordered(g),
        n <= g.len(),
        new_sigs(o, g, index, signer, verdicts, n) is Ok,
    ensures
        ({
            let sigs = new_sigs(o, g, index, signer, verdicts, n)->Ok_0;
            &&& extracted_in_order(sigs)
            &&& forall|k: int|
                0 <= k < sigs.len() ==> (#[trigger] sigs[k]).input_index == index && exists|j: int|
                    0 <= j < n && is_sig(#[trigger] g[j]) && sigs[k].pubkey == g[j].key.drop_first()
        }),
    decreases n,
{
    if n > 0 {
        lemma_new_sigs_order(o, g, index, signer, verdicts, (n - 1) as nat);
        let sigs = new_sigs(o, g, index, signer, verdicts, n)->Ok_0;
        let before = new_sigs(o, g, index, signer, verdicts, (n - 1) as nat)->Ok_0;
        let p = g[n - 1];
        if is_new_sig(o, p) {
            assert forall|k: int| 0 <= k < sigs.len() implies (
            #[trigger] sigs[k]).input_index == index && exists|j: int|
                0 <= j < n && is_sig(#[trigger] g[j]) && sigs[k].pubkey
                    == g[j].key.drop_first() by {
                if k < before.len() {
                    assert(sigs[k] == before[k]);
                } else {
                    assert(sigs[k].pubkey == g[n - 1].key.drop_first());
                }
            }
            assert forall|k: int, l: int| 0 <= k < l < sigs.len() implies extracted_before(
                #[trigger] sigs[k],
                #[trigger] sigs[l],
            ) by {
                assert(sigs[k] == before[k]);
                if l < before.len() {
                    assert(sigs[l] == before[l]);
                } else {
                    let j = choose|j: int|
                        0 <= j < n - 1 && is_sig(#[trigger] g[j]) && before[k].pubkey
                            == g[j].key.drop_first();
                    assert(may_precede(g[j], g[n - 1]));
                }
            }
        }
    }
}

/// The signatures of the first `n` inputs are in the order of these.
proof fn lemma_inputs_order(
    original: PsbtView,
    signed: PsbtView,
    signer: KeyFingerprint,
    verdicts: Seq<Seq<SigVerdictView>>,
    n: nat,
)
    requires
        ordered(signed),
        n <= signed.inputs.len(),
        inputs_outcome(original, signed, signer, verdicts, n) is Ok,
    ensures
        ({
            let sigs = (inputs_outcome(original, signed, signer, verdicts, n)->Ok_0).0;
            &&& extracted_in_order(sigs)
            &&& forall|k: int| 0 <= k < sigs.len() ==> (#[trigger] sigs[k]).input_index < n
        }),
    decreases n,
{
    if n > 0 {
        let last = (n - 1) as nat;
        lemma_inputs_order(original, signed, signer, verdicts, last);
        let sigs = (inputs_outcome(original, signed, signer, verdicts, n)->Ok_0).0;
        let before = (inputs_outcome(original, signed, signer, verdicts, last)->Ok_0).0;
        let o = original.inputs[last as int];
        let g = signed.inputs[last as int];
        let v = verdicts[last as int];
        let added = input_outcome(o, g, last, signer, v)->Ok_0;
        assert(map_ordered(g));
        lemma_new_sigs_order(o, g, last, Some(signer), v, g.len());
        assert(sigs == before + added);
        assert forall|k: int, l: int| 0 <= k < l < sigs.len() implies extracted_before(
            #[trigger] sigs[k],
            #[trigger] sigs[l],
        ) by {
            if l < before.len() {
                assert(extracted_before(before[k], before[l]));
            } else if k >= before.len() {
                assert(extracted_before(added[k - before.len()], added[l - before.len()]));
            } else {
                assert(before[k].input_index < last);
                assert(added[l - before.len()].input_index == last);
            }
        }
        assert forall|k: int| 0 <= k < sigs.len() implies (#[trigger] sigs[k]).input_index < n by {
            if k < before.len() {
                assert(sigs[k] == before[k]);
            } else {
                assert(sigs[k] == added[k - before.len()]);
            }
        }
    }
}

/// Of an accepted submission each signature is extracted once: input by input, and within an
/// input in the order of the public keys.
pub proof fn law_signatures_are_extracted_once(
    original: PsbtView,
    signed: PsbtView,
    signer: KeyFingerprint,
    verdicts: Seq<Seq<SigVerdictView>>,
)
    requires
        ordered(signed),
        submission_outcome(original, signed, signer, verdicts) is Ok,
    ensures
        extracted_in_order(submission_outcome(original, signed, signer, verdicts)->Ok_0),
{
    lemma_inputs_order(original, signed, signer, verdicts, original.inputs.len());
}

} // verus!
