//! Fingerprints in their order.

use vstd::prelude::*;
use vstd::relations::{sorted_by, total_ordering};
use vstd::seq_lib::{lemma_sorted_unique, to_multiset_insert};

use crate::primitives::KeyFingerprint;

verus! {

/// The order of fingerprints: that of their bytes.
pub open spec fn fingerprint_order() -> spec_fn(KeyFingerprint, KeyFingerprint) -> bool {
    |a: KeyFingerprint, b: KeyFingerprint| a.0 <= b.0
}

/// Fingerprints in their order.
pub open spec fn sorted_fingerprints(s: Seq<KeyFingerprint>) -> Seq<KeyFingerprint> {
    s.sort_by(fingerprint_order())
}

/// The order of fingerprints is total.
proof fn lemma_fingerprint_order_total()
    ensures
        total_ordering(fingerprint_order()),
{
}

/// Sorting keeps what is in a list, and how often.
pub proof fn law_sorted_fingerprints(s: Seq<KeyFingerprint>)
    ensures
        sorted_by(sorted_fingerprints(s), fingerprint_order()),
        sorted_fingerprints(s).to_multiset() == s.to_multiset(),
        sorted_fingerprints(s).len() == s.len(),
        s.no_duplicates() ==> sorted_fingerprints(s).no_duplicates(),
        forall|f: KeyFingerprint| sorted_fingerprints(s).contains(f) <==> #[trigger] s.contains(f),
{
    let r = sorted_fingerprints(s);
    lemma_fingerprint_order_total();
    s.lemma_sort_by_ensures(fingerprint_order());
    s.to_multiset_ensures();
    r.to_multiset_ensures();
    assert forall|f: KeyFingerprint| r.contains(f) <==> #[trigger] s.contains(f) by {
        assert(r.contains(f) <==> r.to_multiset().count(f) > 0);
        assert(s.contains(f) <==> s.to_multiset().count(f) > 0);
    }
    if s.no_duplicates() {
        s.lemma_multiset_has_no_duplicates();
        r.lemma_multiset_has_no_duplicates_conv();
    }
}

/// Sorts fingerprints.
pub fn sort_fingerprints(s: &Vec<KeyFingerprint>) -> (r: Vec<KeyFingerprint>)
    ensures
        r@ == sorted_fingerprints(s@),
{
    let mut r: Vec<KeyFingerprint> = Vec::new();
    let mut n: usize = 0;
    assert(s@.take(0) =~= Seq::<KeyFingerprint>::empty());
    while n < s.len()
        invariant
            n <= s@.len(),
            sorted_by(r@, fingerprint_order()),
            r@.to_multiset() == s@.take(n as int).to_multiset(),
        decreases s@.len() - n,
    {
        let ghost before = r@;
        let f: KeyFingerprint = s[n];
        let mut at: usize = 0;
        while at < r.len() && r[at].0 <= f.0
            invariant
                at <= r@.len(),
                before == r@,
                forall|i: int| 0 <= i < at ==> (#[trigger] before[i]).0 <= f.0,
            decreases r@.len() - at,
        {
            at += 1;
        }
        proof {
            to_multiset_insert(before, at as int, f);
            assert(s@.take(n + 1) =~= s@.take(n as int).push(f));
            s@.take(n as int).to_multiset_ensures();
            let leq = fingerprint_order();
            let new = before.insert(at as int, f);
            assert forall|i: int, j: int| 0 <= i < j < new.len() implies #[trigger] leq(
                new[i],
                new[j],
            ) by {
                if i < at && j < at {
                    assert(leq(before[i], before[j]));
                } else if i < at && j > at {
                    assert(leq(before[i], before[j - 1]));
                } else if i == at && j - 1 > at {
                    assert(leq(before[at as int], before[j - 1]));
                } else if i > at {
                    assert(leq(before[i - 1], before[j - 1]));
                }
            }
        }
        r.insert(at, f);
        n += 1;
    }
    proof {
        assert(s@.take(n as int) =~= s@);
        lemma_fingerprint_order_total();
        s@.lemma_sort_by_ensures(fingerprint_order());
        lemma_sorted_unique(r@, sorted_fingerprints(s@), fingerprint_order());
    }
    r
}

/// Whether a list holds a fingerprint twice.
pub fn has_repeated(s: &Vec<KeyFingerprint>) -> (r: bool)
    ensures
        r == !s@.no_duplicates(),
{
    let mut i: usize = 0;
    while i < s.len()
        invariant
            i <= s@.len(),
            forall|a: int, b: int| 0 <= a < b < i ==> s@[a] != s@[b],
        decreases s@.len() - i,
    {
        let mut j: usize = 0;
        while j < i
            invariant
                j <= i < s@.len(),
                forall|a: int| 0 <= a < j ==> s@[a] != s@[i as int],
            decreases i - j,
        {
            if s[j] == s[i] {
                assert(s@[j as int] == s@[i as int]);
                return true;
            }
            j += 1;
        }
        i += 1;
    }
    assert(s@.no_duplicates()) by {
        assert forall|a: int, b: int|
            0 <= a < s@.len() && 0 <= b < s@.len() && a != b implies s@[a] != s@[b] by {
            if a < b {
            } else {
                assert(s@[b] != s@[a]);
            }
        }
    }
    false
}

} // verus!
