//! Texts in their order.

use vstd::prelude::*;
use vstd::relations::{sorted_by, total_ordering};
use vstd::seq_lib::{lemma_sorted_unique, to_multiset_insert};
use vstd::utf8::{encode_utf8, encode_utf8_decode_utf8};

use crate::bytes::{
    bytes_equal, bytes_less, lemma_bytes_less_irreflexive, lemma_bytes_less_total,
    lemma_bytes_less_transitive,
};

verus! {

/// The order of texts: that of their bytes.
pub open spec fn text_le(a: Seq<char>, b: Seq<char>) -> bool {
    !bytes_less(encode_utf8(b), encode_utf8(a))
}

/// The order of texts as a relation.
pub open spec fn text_order() -> spec_fn(Seq<char>, Seq<char>) -> bool {
    |a: Seq<char>, b: Seq<char>| text_le(a, b)
}

/// Texts in their order, each as often as it was given.
pub open spec fn sorted_texts(texts: Seq<Seq<char>>) -> Seq<Seq<char>> {
    texts.sort_by(text_order())
}

/// What each text of a list holds.
pub open spec fn text_views(texts: Seq<String>) -> Seq<Seq<char>> {
    Seq::new(texts.len(), |i: int| texts[i]@)
}

/// Different texts have different bytes.
pub proof fn lemma_bytes_determine_text(a: Seq<char>, b: Seq<char>)
    requires
        encode_utf8(a) == encode_utf8(b),
    ensures
        a == b,
{
    encode_utf8_decode_utf8(a);
    encode_utf8_decode_utf8(b);
}

/// Whether two texts are the same.
pub fn same_text(a: &str, b: &str) -> (r: bool)
    ensures
        r == (a@ == b@),
{
    let r: bool = bytes_equal(a.as_bytes(), b.as_bytes());
    proof {
        if r {
            lemma_bytes_determine_text(a@, b@);
        }
    }
    r
}

/// The order of texts is total.
pub proof fn lemma_text_order_total()
    ensures
        total_ordering(text_order()),
{
    let leq = text_order();
    assert forall|a: Seq<char>| #[trigger] leq(a, a) by {
        lemma_bytes_less_irreflexive(encode_utf8(a));
    }
    assert forall|a: Seq<char>, b: Seq<char>| #[trigger] leq(a, b) && #[trigger] leq(
        b,
        a,
    ) implies a == b by {
        if encode_utf8(a) != encode_utf8(b) {
            lemma_bytes_less_total(encode_utf8(a), encode_utf8(b));
        } else {
            lemma_bytes_determine_text(a, b);
        }
    }
    assert forall|a: Seq<char>, b: Seq<char>, c: Seq<char>| #[trigger] leq(a, b) && #[trigger] leq(
        b,
        c,
    ) implies leq(a, c) by {
        lemma_text_le_transitive(a, b, c);
    }
    assert forall|a: Seq<char>, b: Seq<char>| #[trigger] leq(a, b) || #[trigger] leq(b, a) by {
        lemma_text_le_connected(a, b);
    }
}

proof fn lemma_text_le_transitive(a: Seq<char>, b: Seq<char>, c: Seq<char>)
    requires
        text_le(a, b),
        text_le(b, c),
    ensures
        text_le(a, c),
{
    let x = encode_utf8(a);
    let y = encode_utf8(b);
    let z = encode_utf8(c);
    if bytes_less(z, x) {
        if x != y {
            lemma_bytes_less_total(x, y);
            lemma_bytes_less_transitive(z, x, y);
        }
    }
}

proof fn lemma_text_le_connected(a: Seq<char>, b: Seq<char>)
    ensures
        text_le(a, b) || text_le(b, a),
{
    let x = encode_utf8(a);
    let y = encode_utf8(b);
    if bytes_less(x, y) && bytes_less(y, x) {
        lemma_bytes_less_transitive(x, y, x);
        lemma_bytes_less_irreflexive(x);
    }
}

/// The order in which texts are given does not matter to their sorted list.
pub proof fn law_sorted_texts_ignore_order(a: Seq<Seq<char>>, b: Seq<Seq<char>>)
    requires
        a.to_multiset() == b.to_multiset(),
    ensures
        sorted_texts(a) == sorted_texts(b),
{
    lemma_text_order_total();
    a.lemma_sort_by_ensures(text_order());
    b.lemma_sort_by_ensures(text_order());
    lemma_sorted_unique(sorted_texts(a), sorted_texts(b), text_order());
}

/// A sorted list with a text put in its place is sorted.
proof fn lemma_insert_sorted(s: Seq<Seq<char>>, t: Seq<char>, at: int)
    requires
        sorted_by(s, text_order()),
        0 <= at <= s.len(),
        forall|i: int| 0 <= i < at ==> text_le(#[trigger] s[i], t),
        at < s.len() ==> text_le(t, s[at]),
    ensures
        sorted_by(s.insert(at, t), text_order()),
{
    let r = s.insert(at, t);
    let leq = text_order();
    assert forall|i: int, j: int| 0 <= i < j < r.len() implies #[trigger] leq(r[i], r[j]) by {
        if i < at && j < at {
            assert(leq(s[i], s[j]));
        } else if i < at && j == at {
        } else if i < at {
            assert(leq(s[i], s[j - 1]));
        } else if i == at {
            if j - 1 > at {
                assert(leq(s[at], s[j - 1]));
                lemma_text_le_transitive(t, s[at], s[j - 1]);
            }
        } else {
            assert(leq(s[i - 1], s[j - 1]));
        }
    }
}

/// Sorting one more text puts it in its place: behind those that are not greater.
pub proof fn lemma_sorted_texts_insert(texts: Seq<Seq<char>>, t: Seq<char>, at: int)
    requires
        0 <= at <= sorted_texts(texts).len(),
        forall|i: int| 0 <= i < at ==> text_le(#[trigger] sorted_texts(texts)[i], t),
        at < sorted_texts(texts).len() ==> !text_le(sorted_texts(texts)[at], t),
    ensures
        sorted_texts(texts.push(t)) == sorted_texts(texts).insert(at, t),
{
    let before = sorted_texts(texts);
    let all = texts.push(t);
    lemma_text_order_total();
    texts.lemma_sort_by_ensures(text_order());
    all.lemma_sort_by_ensures(text_order());
    if at < before.len() {
        lemma_text_le_connected(before[at], t);
    }
    lemma_insert_sorted(before, t, at);
    to_multiset_insert(before, at, t);
    texts.to_multiset_ensures();
    lemma_sorted_unique(before.insert(at, t), sorted_texts(all), text_order());
}

/// Whether two lists of texts are the same.
pub fn same_texts(a: &Vec<String>, b: &Vec<String>) -> (r: bool)
    ensures
        r == (text_views(a@) == text_views(b@)),
{
    if a.len() != b.len() {
        assert(text_views(a@).len() != text_views(b@).len());
        return false;
    }
    let mut i: usize = 0;
    while i < a.len()
        invariant
            i <= a@.len(),
            a@.len() == b@.len(),
            forall|j: int| 0 <= j < i ==> (#[trigger] a@[j])@ == b@[j]@,
        decreases a@.len() - i,
    {
        if !same_text(a[i].as_str(), b[i].as_str()) {
            assert(text_views(a@)[i as int] != text_views(b@)[i as int]);
            return false;
        }
        i += 1;
    }
    assert(text_views(a@) =~= text_views(b@));
    true
}

/// Copies of texts.
pub fn copied_texts(texts: &Vec<String>) -> (r: Vec<String>)
    ensures
        text_views(r@) == text_views(texts@),
{
    let mut r: Vec<String> = Vec::new();
    let mut i: usize = 0;
    while i < texts.len()
        invariant
            i <= texts@.len(),
            r@.len() == i,
            forall|j: int| 0 <= j < i ==> (#[trigger] r@[j])@ == texts@[j]@,
        decreases texts@.len() - i,
    {
        r.push(texts[i].clone());
        i += 1;
    }
    assert(text_views(r@) =~= text_views(texts@));
    r
}

} // verus!
