//! The binary frame of a partially signed transaction: a magic prefix and a list of
//! key-value maps, one for the transaction, one per input and one per output.

use vstd::prelude::*;

use crate::bytes::{append_bytes, bytes_equal, copy_range};

verus! {

/// One field of a map: the field type and its key data, and the value stored under them.
#[derive(Debug)]
pub struct Pair {
    pub key: Vec<u8>,
    pub value: Vec<u8>,
}

/// What a [`Pair`] holds.
pub struct PairView {
    pub key: Seq<u8>,
    pub value: Seq<u8>,
}

impl View for Pair {
    type V = PairView;

    open spec fn view(&self) -> PairView {
        PairView { key: self.key@, value: self.value@ }
    }
}

/// A map of fields, in the order in which they stand in the document.
#[derive(Debug)]
pub struct FieldMap {
    pub pairs: Vec<Pair>,
}

impl View for FieldMap {
    type V = Seq<PairView>;

    open spec fn view(&self) -> Seq<PairView> {
        Seq::new(self.pairs@.len(), |i: int| self.pairs@[i]@)
    }
}

/// A partially signed transaction, as its maps.
#[derive(Debug)]
pub struct Psbt {
    pub global: FieldMap,
    pub inputs: Vec<FieldMap>,
    pub outputs: Vec<FieldMap>,
}

/// What a [`Psbt`] holds.
pub struct PsbtView {
    pub global: Seq<PairView>,
    pub inputs: Seq<Seq<PairView>>,
    pub outputs: Seq<Seq<PairView>>,
}

/// The fields of each map of a list.
pub open spec fn map_views(maps: Seq<FieldMap>) -> Seq<Seq<PairView>> {
    Seq::new(maps.len(), |i: int| maps[i]@)
}

impl View for Psbt {
    type V = PsbtView;

    open spec fn view(&self) -> PsbtView {
        PsbtView {
            global: self.global@,
            inputs: map_views(self.inputs@),
            outputs: map_views(self.outputs@),
        }
    }
}

/// The prefix of every document: `psbt` and the byte 0xff.
pub open spec fn magic() -> Seq<u8> {
    seq![0x70u8, 0x73u8, 0x62u8, 0x74u8, 0xffu8]
}

/// `v` in `n` bytes, the least significant first.
pub open spec fn le_bytes(v: nat, n: nat) -> Seq<u8>
    decreases n,
{
    if n == 0 {
        Seq::empty()
    } else {
        seq![(v % 256) as u8] + le_bytes(v / 256, (n - 1) as nat)
    }
}

/// The number whose bytes, the least significant first, are `b`.
pub open spec fn le_value(b: Seq<u8>) -> nat
    decreases b.len(),
{
    if b.len() == 0 {
        0
    } else {
        b[0] as nat + 256 * le_value(b.drop_first())
    }
}

/// A number in the variable-length form that precedes a byte string.
#[verifier::opaque]
pub open spec fn compact_size(n: nat) -> Seq<u8> {
    if n < 0xfd {
        seq![n as u8]
    } else if n <= 0xffff {
        seq![0xfdu8] + le_bytes(n, 2)
    } else if n <= 0xffff_ffff {
        seq![0xfeu8] + le_bytes(n, 4)
    } else {
        seq![0xffu8] + le_bytes(n, 8)
    }
}

/// A byte string, preceded by its length.
pub open spec fn encode_chunk(b: Seq<u8>) -> Seq<u8> {
    compact_size(b.len()) + b
}

/// A field: its key, then its value.
pub open spec fn encode_pair(p: PairView) -> Seq<u8> {
    encode_chunk(p.key) + encode_chunk(p.value)
}

/// Fields one after the other.
pub open spec fn encode_pairs(m: Seq<PairView>) -> Seq<u8>
    decreases m.len(),
{
    if m.len() == 0 {
        Seq::empty()
    } else {
        encode_pairs(m.drop_last()) + encode_pair(m.last())
    }
}

/// A map: its fields and the empty key that ends it.
pub open spec fn encode_map(m: Seq<PairView>) -> Seq<u8> {
    encode_pairs(m) + seq![0u8]
}

/// Maps one after the other.
pub open spec fn encode_maps(ms: Seq<Seq<PairView>>) -> Seq<u8>
    decreases ms.len(),
{
    if ms.len() == 0 {
        Seq::empty()
    } else {
        encode_maps(ms.drop_last()) + encode_map(ms.last())
    }
}

/// The bytes of a document.
pub open spec fn encode(p: PsbtView) -> Seq<u8> {
    magic() + encode_map(p.global) + encode_maps(p.inputs) + encode_maps(p.outputs)
}

/// The number at the start of `b` and how many bytes it takes, if it stands there in its
/// shortest form.
#[verifier::opaque]
pub open spec fn read_size(b: Seq<u8>) -> Option<(nat, nat)> {
    if b.len() == 0 {
        None
    } else {
        let n: nat = if b[0] < 0xfd {
            0
        } else if b[0] == 0xfd {
            2
        } else if b[0] == 0xfe {
            4
        } else {
            8
        };
        let least: nat = if b[0] < 0xfd {
            0
        } else if b[0] == 0xfd {
            0xfd
        } else if b[0] == 0xfe {
            0x1_0000
        } else {
            0x1_0000_0000
        };
        if b.len() < 1 + n {
            None
        } else {
            let v = if n == 0 {
                b[0] as nat
            } else {
                le_value(b.subrange(1, (1 + n) as int))
            };
            if v < least {
                None
            } else {
                Some((v, 1 + n))
            }
        }
    }
}

/// The byte string at the start of `b` and how many bytes it takes with its length.
pub open spec fn read_chunk(b: Seq<u8>) -> Option<(Seq<u8>, nat)> {
    match read_size(b) {
        None => None,
        Some((n, c)) => if b.len() < c + n {
            None
        } else {
            Some((b.subrange(c as int, (c + n) as int), c + n))
        },
    }
}

/// The map at the start of `b` and how many bytes it takes.
pub open spec fn read_map(b: Seq<u8>) -> Option<(Seq<PairView>, nat)>
    decreases b.len(),
{
    match read_chunk(b) {
        None => None,
        Some((key, c)) => if key.len() == 0 {
            Some((Seq::empty(), c))
        } else {
            match read_chunk(b.skip(c as int)) {
                None => None,
                Some((value, d)) => if c + d == 0 || c + d > b.len() {
                    None
                } else {
                    match read_map(b.skip((c + d) as int)) {
                        None => None,
                        Some((rest, e)) => Some(
                            (seq![PairView { key, value }] + rest, c + d + e),
                        ),
                    }
                },
            }
        },
    }
}

/// The `n` maps at the start of `b` and how many bytes they take.
pub open spec fn read_maps(b: Seq<u8>, n: nat) -> Option<(Seq<Seq<PairView>>, nat)>
    decreases n,
{
    if n == 0 {
        Some((Seq::empty(), 0))
    } else {
        match read_map(b) {
            None => None,
            Some((m, c)) => match read_maps(b.skip(c as int), (n - 1) as nat) {
                None => None,
                Some((rest, d)) => Some((seq![m] + rest, c + d)),
            },
        }
    }
}

/// The document whose bytes are `b`, with `inputs` input maps and `outputs` output maps, if
/// there is one.
pub open spec fn decode(b: Seq<u8>, inputs: nat, outputs: nat) -> Option<PsbtView> {
    if b.len() < 5 || b.take(5) != magic() {
        None
    } else {
        match read_map(b.skip(5)) {
            None => None,
            Some((global, c)) => match read_maps(b.skip((5 + c) as int), inputs) {
                None => None,
                Some((ins, d)) => match read_maps(b.skip((5 + c + d) as int), outputs) {
                    None => None,
                    Some((outs, e)) => if 5 + c + d + e != b.len() {
                        None
                    } else {
                        Some(PsbtView { global, inputs: ins, outputs: outs })
                    },
                },
            },
        }
    }
}

/// A document that has bytes: every key holds at least its type, and lengths fit in 64 bits.
pub open spec fn map_encodable(m: Seq<PairView>) -> bool {
    forall|i: int|
        0 <= i < m.len() ==> 0 < (#[trigger] m[i]).key.len() <= u64::MAX && m[i].value.len()
            <= u64::MAX
}

/// Every map of the document can be written.
pub open spec fn encodable(p: PsbtView) -> bool {
    &&& map_encodable(p.global)
    &&& forall|i: int| 0 <= i < p.inputs.len() ==> map_encodable(#[trigger] p.inputs[i])
    &&& forall|i: int| 0 <= i < p.outputs.len() ==> map_encodable(#[trigger] p.outputs[i])
}

/// 256 to the power `n`.
pub open spec fn pow256(n: nat) -> nat
    decreases n,
{
    if n == 0 {
        1
    } else {
        256 * pow256((n - 1) as nat)
    }
}

/// The first powers in figures.
proof fn lemma_pow256_values()
    ensures
        pow256(0) == 1,
        pow256(2) == 0x1_0000,
        pow256(4) == 0x1_0000_0000,
        pow256(7) == 0x100_0000_0000_0000,
        pow256(8) == 0x1_0000_0000_0000_0000,
{
    reveal_with_fuel(pow256, 10);
}

/// Larger exponents give larger powers.
proof fn lemma_pow256_grows(a: nat, b: nat)
    requires
        a <= b,
    ensures
        0 < pow256(a) <= pow256(b),
    decreases b,
{
    if a < b {
        lemma_pow256_grows(a, (b - 1) as nat);
    } else if a > 0 {
        lemma_pow256_grows((a - 1) as nat, (a - 1) as nat);
    }
}

/// What `n` bytes hold is less than 256 to the power `n`.
proof fn lemma_le_value_bound(b: Seq<u8>)
    ensures
        le_value(b) < pow256(b.len()),
    decreases b.len(),
{
    if b.len() > 0 {
        lemma_le_value_bound(b.drop_first());
    }
}

/// Writing a number that fits and reading it back.
proof fn lemma_le_write_read(v: nat, n: nat)
    requires
        v < pow256(n),
    ensures
        le_bytes(v, n).len() == n,
        le_value(le_bytes(v, n)) == v,
    decreases n,
{
    if n > 0 {
        assert(v / 256 < pow256((n - 1) as nat)) by (nonlinear_arith)
            requires
                v < 256 * pow256((n - 1) as nat),
        ;
        lemma_le_write_read(v / 256, (n - 1) as nat);
        let b = le_bytes(v, n);
        assert(b.drop_first() =~= le_bytes(v / 256, (n - 1) as nat));
    }
}

/// Reading a number and writing it back.
proof fn lemma_le_read_write(b: Seq<u8>)
    ensures
        le_bytes(le_value(b), b.len()) == b,
    decreases b.len(),
{
    if b.len() > 0 {
        lemma_le_read_write(b.drop_first());
        let v = le_value(b.drop_first());
        let w = b[0] as nat + 256 * v;
        assert(w % 256 == b[0] as nat && w / 256 == v) by (nonlinear_arith)
            requires
                w == b[0] as nat + 256 * v,
                (b[0] as nat) < 256,
        ;
    }
    assert(le_bytes(le_value(b), b.len()) =~= b);
}

/// A number written in its variable-length form is read back, whatever follows it.
proof fn lemma_size_write_read(n: nat, tail: Seq<u8>)
    requires
        n <= u64::MAX,
    ensures
        read_size(compact_size(n) + tail) == Some((n, compact_size(n).len())),
{
    reveal(compact_size);
    reveal(read_size);
    lemma_pow256_values();
    let b = compact_size(n) + tail;
    if n < 0xfd {
    } else if n <= 0xffff {
        lemma_le_write_read(n, 2);
        assert(b.subrange(1, 3) =~= le_bytes(n, 2));
    } else if n <= 0xffff_ffff {
        lemma_le_write_read(n, 4);
        assert(b.subrange(1, 5) =~= le_bytes(n, 4));
    } else {
        lemma_le_write_read(n, 8);
        assert(b.subrange(1, 9) =~= le_bytes(n, 8));
    }
}

/// A number that was read is the number whose variable-length form stands there.
proof fn lemma_size_read_write(b: Seq<u8>)
    requires
        read_size(b) is Some,
    ensures
        ({
            let (n, c) = read_size(b)->0;
            &&& n <= u64::MAX
            &&& 1 <= c <= b.len()
            &&& compact_size(n) == b.take(c as int)
        }),
{
    reveal(compact_size);
    reveal(read_size);
    lemma_pow256_values();
    let (n, c) = read_size(b)->0;
    if c > 1 {
        let s = b.subrange(1, c as int);
        lemma_le_read_write(s);
        lemma_le_value_bound(s);
        assert(b.take(c as int) =~= seq![b[0]] + s);
    } else {
        assert(b.take(1) =~= seq![b[0]]);
    }
}

/// A byte string written with its length is read back, whatever follows it.
proof fn lemma_chunk_write_read(s: Seq<u8>, tail: Seq<u8>)
    requires
        s.len() <= u64::MAX,
    ensures
        read_chunk(encode_chunk(s) + tail) == Some((s, encode_chunk(s).len())),
{
    lemma_size_write_read(s.len(), s + tail);
    let b = encode_chunk(s) + tail;
    assert(b =~= compact_size(s.len()) + (s + tail));
    let c = compact_size(s.len()).len();
    assert(b.subrange(c as int, (c + s.len()) as int) =~= s);
}

/// A byte string that was read is the one that stands there.
proof fn lemma_chunk_read_write(b: Seq<u8>)
    requires
        read_chunk(b) is Some,
    ensures
        ({
            let (s, c) = read_chunk(b)->0;
            &&& s.len() <= u64::MAX
            &&& 1 <= c <= b.len()
            &&& encode_chunk(s) == b.take(c as int)
        }),
{
    lemma_size_read_write(b);
    let (n, c) = read_size(b)->0;
    let s = b.subrange(c as int, (c + n) as int);
    assert(encode_chunk(s) =~= b.take((c + n) as int));
}

/// Fields one after the other, the first one taken apart.
proof fn lemma_encode_pairs_first(m: Seq<PairView>)
    requires
        m.len() > 0,
    ensures
        encode_pairs(m) == encode_pair(m[0]) + encode_pairs(m.drop_first()),
    decreases m.len(),
{
    if m.len() == 1 {
        assert(m.drop_last() =~= Seq::<PairView>::empty());
        assert(m.drop_first() =~= Seq::<PairView>::empty());
        assert(encode_pairs(m) =~= encode_pair(m[0]) + encode_pairs(m.drop_first()));
    } else {
        lemma_encode_pairs_first(m.drop_last());
        assert(m.drop_last().drop_first() =~= m.drop_first().drop_last());
        assert(m.drop_first().last() == m.last());
        assert(encode_pairs(m) =~= encode_pair(m[0]) + encode_pairs(m.drop_first()));
    }
}

/// Maps one after the other, the first one taken apart.
proof fn lemma_encode_maps_first(ms: Seq<Seq<PairView>>)
    requires
        ms.len() > 0,
    ensures
        encode_maps(ms) == encode_map(ms[0]) + encode_maps(ms.drop_first()),
    decreases ms.len(),
{
    if ms.len() == 1 {
        assert(ms.drop_last() =~= Seq::<Seq<PairView>>::empty());
        assert(ms.drop_first() =~= Seq::<Seq<PairView>>::empty());
        assert(encode_maps(ms) =~= encode_map(ms[0]) + encode_maps(ms.drop_first()));
    } else {
        lemma_encode_maps_first(ms.drop_last());
        assert(ms.drop_last().drop_first() =~= ms.drop_first().drop_last());
        assert(ms.drop_first().last() == ms.last());
        assert(encode_maps(ms) =~= encode_map(ms[0]) + encode_maps(ms.drop_first()));
    }
}

/// A map that was written is read back, whatever follows it.
proof fn lemma_map_write_read(m: Seq<PairView>, tail: Seq<u8>)
    requires
        map_encodable(m),
    ensures
        read_map(encode_map(m) + tail) == Some((m, encode_map(m).len())),
    decreases m.len(),
{
    let b = encode_map(m) + tail;
    if m.len() == 0 {
        let none: Seq<u8> = Seq::empty();
        lemma_chunk_write_read(none, tail);
        reveal(compact_size);
        assert(b =~= encode_chunk(none) + tail);
        assert(m =~= Seq::<PairView>::empty());
    } else {
        lemma_encode_pairs_first(m);
        let rest = m.drop_first();
        assert(map_encodable(rest)) by {
            assert forall|i: int| 0 <= i < rest.len() implies 0 < (
            #[trigger] rest[i]).key.len() <= u64::MAX && rest[i].value.len() <= u64::MAX by {
                assert(rest[i] == m[i + 1]);
            }
        }
        lemma_map_write_read(rest, tail);
        let key = m[0].key;
        let value = m[0].value;
        let after = encode_map(rest) + tail;
        let c = encode_chunk(key).len();
        let d = encode_chunk(value).len();
        assert(b =~= encode_chunk(key) + (encode_chunk(value) + after));
        lemma_chunk_write_read(key, encode_chunk(value) + after);
        assert(b.skip(c as int) =~= encode_chunk(value) + after);
        lemma_chunk_write_read(value, after);
        assert(b.skip((c + d) as int) =~= after);
        assert(read_chunk(b) == Some((key, c)));
        assert(read_chunk(b.skip(c as int)) == Some((value, d)));
        lemma_chunk_read_write(b);
        assert(read_map(b.skip((c + d) as int)) == Some((rest, encode_map(rest).len())));
        assert(seq![PairView { key, value }] + rest =~= m);
    }
}

/// A map that was read is the one that stands there.
proof fn lemma_map_read_write(b: Seq<u8>)
    requires
        read_map(b) is Some,
    ensures
        ({
            let (m, c) = read_map(b)->0;
            &&& map_encodable(m)
            &&& 1 <= c <= b.len()
            &&& encode_map(m) == b.take(c as int)
        }),
    decreases b.len(),
{
    lemma_chunk_read_write(b);
    let (key, c) = read_chunk(b)->0;
    if key.len() == 0 {
        lemma_size_read_write(b);
        reveal(compact_size);
        assert(encode_map(Seq::<PairView>::empty()) =~= seq![0u8]);
        assert(encode_chunk(key) =~= seq![0u8]);
    } else {
        let b1 = b.skip(c as int);
        lemma_chunk_read_write(b1);
        let (value, d) = read_chunk(b1)->0;
        let b2 = b.skip((c + d) as int);
        lemma_map_read_write(b2);
        let (rest, e) = read_map(b2)->0;
        let (m, n) = read_map(b)->0;
        assert(m.drop_first() =~= rest);
        lemma_encode_pairs_first(m);
        assert(map_encodable(m)) by {
            assert forall|i: int| 0 <= i < m.len() implies 0 < (
            #[trigger] m[i]).key.len() <= u64::MAX && m[i].value.len() <= u64::MAX by {
                if i > 0 {
                    assert(m[i] == rest[i - 1]);
                }
            }
        }
        assert(encode_map(m) =~= encode_chunk(key) + encode_chunk(value) + encode_map(rest));
        assert(b.take(n as int) =~= b.take(c as int) + b1.take(d as int) + b2.take(e as int));
    }
}

/// Maps that were written are read back, whatever follows them.
proof fn lemma_maps_write_read(ms: Seq<Seq<PairView>>, tail: Seq<u8>)
    requires
        forall|i: int| 0 <= i < ms.len() ==> map_encodable(#[trigger] ms[i]),
    ensures
        read_maps(encode_maps(ms) + tail, ms.len()) == Some((ms, encode_maps(ms).len())),
    decreases ms.len(),
{
    if ms.len() == 0 {
        assert(ms =~= Seq::<Seq<PairView>>::empty());
    } else {
        lemma_encode_maps_first(ms);
        let rest = ms.drop_first();
        assert forall|i: int| 0 <= i < rest.len() implies map_encodable(#[trigger] rest[i]) by {
            assert(rest[i] == ms[i + 1]);
        }
        lemma_maps_write_read(rest, tail);
        let b = encode_maps(ms) + tail;
        let after = encode_maps(rest) + tail;
        assert(b =~= encode_map(ms[0]) + after);
        lemma_map_write_read(ms[0], after);
        assert(b.skip(encode_map(ms[0]).len() as int) =~= after);
        assert(seq![ms[0]] + rest =~= ms);
    }
}

/// Maps that were read are those that stand there.
proof fn lemma_maps_read_write(b: Seq<u8>, n: nat)
    requires
        read_maps(b, n) is Some,
    ensures
        ({
            let (ms, c) = read_maps(b, n)->0;
            &&& ms.len() == n
            &&& forall|i: int| 0 <= i < ms.len() ==> map_encodable(#[trigger] ms[i])
            &&& c <= b.len()
            &&& encode_maps(ms) == b.take(c as int)
        }),
    decreases n,
{
    if n == 0 {
        assert(b.take(0) =~= Seq::<u8>::empty());
    } else {
        lemma_map_read_write(b);
        let (m, c) = read_map(b)->0;
        let b1 = b.skip(c as int);
        lemma_maps_read_write(b1, (n - 1) as nat);
        let (rest, d) = read_maps(b1, (n - 1) as nat)->0;
        let (ms, e) = read_maps(b, n)->0;
        assert(ms.drop_first() =~= rest);
        lemma_encode_maps_first(ms);
        assert forall|i: int| 0 <= i < ms.len() implies map_encodable(#[trigger] ms[i]) by {
            if i > 0 {
                assert(ms[i] == rest[i - 1]);
            }
        }
        assert(b.take(e as int) =~= b.take(c as int) + b1.take(d as int));
    }
}

/// The bytes of a map hold those of each of its fields.
proof fn lemma_map_holds_pair(m: Seq<PairView>, i: int)
    requires
        0 <= i < m.len(),
    ensures
        m[i].key.len() + m[i].value.len() <= encode_pairs(m).len(),
    decreases m.len(),
{
    if i < m.len() - 1 {
        lemma_map_holds_pair(m.drop_last(), i);
    }
}

/// The bytes of maps hold those of each map.
proof fn lemma_maps_hold_map(ms: Seq<Seq<PairView>>, i: int)
    requires
        0 <= i < ms.len(),
    ensures
        encode_map(ms[i]).len() <= encode_maps(ms).len(),
    decreases ms.len(),
{
    if i < ms.len() - 1 {
        lemma_maps_hold_map(ms.drop_last(), i);
    }
}

/// Whether every key of a map holds at least its type.
pub open spec fn keys_typed(m: Seq<PairView>) -> bool {
    forall|i: int| 0 <= i < m.len() ==> 0 < (#[trigger] m[i]).key.len()
}

/// A document whose keys hold their types and whose bytes are not too many can be written.
pub proof fn lemma_encodable(p: PsbtView)
    requires
        encode(p).len() <= u64::MAX,
        keys_typed(p.global),
        forall|i: int| 0 <= i < p.inputs.len() ==> keys_typed(#[trigger] p.inputs[i]),
        forall|i: int| 0 <= i < p.outputs.len() ==> keys_typed(#[trigger] p.outputs[i]),
    ensures
        encodable(p),
{
    lemma_map_encodable(p.global, encode(p).len());
    assert forall|i: int| 0 <= i < p.inputs.len() implies map_encodable(#[trigger] p.inputs[i]) by {
        lemma_maps_hold_map(p.inputs, i);
        lemma_map_encodable(p.inputs[i], encode(p).len());
    }
    assert forall|i: int| 0 <= i < p.outputs.len() implies map_encodable(
        #[trigger] p.outputs[i],
    ) by {
        lemma_maps_hold_map(p.outputs, i);
        lemma_map_encodable(p.outputs[i], encode(p).len());
    }
}

proof fn lemma_map_encodable(m: Seq<PairView>, n: nat)
    requires
        keys_typed(m),
        encode_map(m).len() <= n <= u64::MAX,
    ensures
        map_encodable(m),
{
    assert forall|i: int| 0 <= i < m.len() implies 0 < (#[trigger] m[i]).key.len() <= u64::MAX
        && m[i].value.len() <= u64::MAX by {
        lemma_map_holds_pair(m, i);
    }
}

/// What was written is read back: the bytes of a document decode to that document.
pub proof fn law_decode_of_encode(p: PsbtView)
    requires
        encodable(p),
    ensures
        decode(encode(p), p.inputs.len(), p.outputs.len()) == Some(p),
{
    let b = encode(p);
    let outs = encode_maps(p.outputs);
    let ins = encode_maps(p.inputs) + outs;
    let rest = encode_map(p.global) + ins;
    assert(b =~= magic() + rest);
    assert(b.take(5) =~= magic());
    assert(b.skip(5) =~= rest);
    lemma_map_write_read(p.global, ins);
    let c = encode_map(p.global).len();
    assert(b.skip((5 + c) as int) =~= ins);
    lemma_maps_write_read(p.inputs, outs);
    let d = encode_maps(p.inputs).len();
    assert(b.skip((5 + c + d) as int) =~= outs);
    let none: Seq<u8> = Seq::empty();
    lemma_maps_write_read(p.outputs, none);
    assert(outs + none =~= outs);
}

/// What is read stands there: a document that decodes has exactly the bytes it was read from,
/// so two different byte strings never decode to one document.
pub proof fn law_encode_of_decode(b: Seq<u8>, inputs: nat, outputs: nat)
    requires
        decode(b, inputs, outputs) is Some,
    ensures
        encode(decode(b, inputs, outputs)->0) == b,
        encodable(decode(b, inputs, outputs)->0),
        (decode(b, inputs, outputs)->0).inputs.len() == inputs,
        (decode(b, inputs, outputs)->0).outputs.len() == outputs,
{
    let b0 = b.skip(5);
    lemma_map_read_write(b0);
    let (global, c) = read_map(b0)->0;
    let b1 = b.skip((5 + c) as int);
    lemma_maps_read_write(b1, inputs);
    let (ins, d) = read_maps(b1, inputs)->0;
    let b2 = b.skip((5 + c + d) as int);
    lemma_maps_read_write(b2, outputs);
    let (outs, e) = read_maps(b2, outputs)->0;
    assert(b =~= b.take(5) + b0.take(c as int) + b1.take(d as int) + b2.take(e as int));
}

/// Appends the `n` low bytes of `v`, the least significant first.
pub fn push_le(out: &mut Vec<u8>, v: u64, n: usize)
    ensures
        final(out)@ == old(out)@ + le_bytes(v as nat, n as nat),
{
    let mut rest: u64 = v;
    let mut i: usize = 0;
    assert(out@ + le_bytes(v as nat, n as nat) =~= old(out)@ + le_bytes(v as nat, n as nat));
    while i < n
        invariant
            i <= n,
            out@ + le_bytes(rest as nat, (n - i) as nat) == old(out)@ + le_bytes(
                v as nat,
                n as nat,
            ),
        decreases n - i,
    {
        let ghost before = out@;
        out.push((rest % 256) as u8);
        assert(before + le_bytes(rest as nat, (n - i) as nat) =~= out@ + le_bytes(
            (rest / 256) as nat,
            (n - i - 1) as nat,
        ));
        rest = rest / 256;
        i += 1;
    }
    assert(out@ + le_bytes(rest as nat, 0) =~= out@);
}

/// Appends a number in its variable-length form.
pub fn push_size(out: &mut Vec<u8>, n: usize)
    ensures
        final(out)@ == old(out)@ + compact_size(n as nat),
{
    reveal(compact_size);
    if n < 0xfd {
        out.push(n as u8);
        assert(out@ =~= old(out)@ + compact_size(n as nat));
    } else {
        let v: u64 = n as u64;
        if v <= 0xffff {
            out.push(0xfd);
            push_le(out, v, 2);
        } else if v <= 0xffff_ffff {
            out.push(0xfe);
            push_le(out, v, 4);
        } else {
            out.push(0xff);
            push_le(out, v, 8);
        }
        assert(out@ =~= old(out)@ + compact_size(n as nat));
    }
}

/// Appends a byte string, preceded by its length.
pub fn push_chunk(out: &mut Vec<u8>, bytes: &[u8])
    ensures
        final(out)@ == old(out)@ + encode_chunk(bytes@),
{
    push_size(out, bytes.len());
    append_bytes(out, bytes);
    assert(out@ =~= old(out)@ + encode_chunk(bytes@));
}

/// Appends a map.
fn push_map(out: &mut Vec<u8>, map: &FieldMap)
    ensures
        final(out)@ == old(out)@ + encode_map(map@),
{
    let mut i: usize = 0;
    assert(map@.take(0) =~= Seq::<PairView>::empty());
    while i < map.pairs.len()
        invariant
            i <= map.pairs@.len(),
            out@ == old(out)@ + encode_pairs(map@.take(i as int)),
        decreases map.pairs@.len() - i,
    {
        push_chunk(out, map.pairs[i].key.as_slice());
        push_chunk(out, map.pairs[i].value.as_slice());
        i += 1;
        assert(map@.take(i as int).drop_last() =~= map@.take(i - 1));
        assert(out@ =~= old(out)@ + encode_pairs(map@.take(i as int)));
    }
    assert(map@.take(i as int) =~= map@);
    out.push(0);
    assert(out@ =~= old(out)@ + encode_map(map@));
}

/// Appends maps one after the other.
fn push_maps(out: &mut Vec<u8>, maps: &Vec<FieldMap>)
    ensures
        final(out)@ == old(out)@ + encode_maps(map_views(maps@)),
{
    let ghost views = map_views(maps@);
    let mut i: usize = 0;
    assert(views.take(0) =~= Seq::<Seq<PairView>>::empty());
    while i < maps.len()
        invariant
            i <= maps@.len(),
            views == map_views(maps@),
            out@ == old(out)@ + encode_maps(views.take(i as int)),
        decreases maps@.len() - i,
    {
        push_map(out, &maps[i]);
        i += 1;
        assert(views.take(i as int).drop_last() =~= views.take(i - 1));
        assert(out@ =~= old(out)@ + encode_maps(views.take(i as int)));
    }
    assert(views.take(i as int) =~= views);
}

/// Reads `n` bytes as a number, the least significant first.
fn read_le_at(b: &[u8], pos: usize, n: usize) -> (r: u64)
    requires
        n <= 8,
        pos + n <= b@.len() <= usize::MAX,
    ensures
        r == le_value(b@.subrange(pos as int, pos + n)),
    decreases n,
{
    if n == 0 {
        0
    } else {
        let high: u64 = read_le_at(b, pos + 1, n - 1);
        proof {
            let s = b@.subrange(pos as int, pos + n);
            assert(s.drop_first() =~= b@.subrange(pos + 1, pos + n));
            lemma_le_value_bound(s.drop_first());
            lemma_pow256_grows((n - 1) as nat, 7);
            lemma_pow256_values();
        }
        b[pos] as u64 + 256 * high
    }
}

/// Reads the byte string at `pos`; gives it with the position behind it.
fn read_chunk_at(b: &[u8], pos: usize) -> (r: Option<(Vec<u8>, usize)>)
    requires
        pos <= b@.len(),
    ensures
        match r {
            None => read_chunk(b@.skip(pos as int)) is None,
            Some((s, end)) => {
                &&& pos <= end <= b@.len()
                &&& read_chunk(b@.skip(pos as int)) == Some((s@, (end - pos) as nat))
            },
        },
{
    reveal(read_size);
    let ghost s = b@.skip(pos as int);
    if pos == b.len() {
        return None;
    }
    let first: u8 = b[pos];
    let n: usize = if first < 0xfd {
        0
    } else if first == 0xfd {
        2
    } else if first == 0xfe {
        4
    } else {
        8
    };
    let least: u64 = if first < 0xfd {
        0
    } else if first == 0xfd {
        0xfd
    } else if first == 0xfe {
        0x1_0000
    } else {
        0x1_0000_0000
    };
    if b.len() - pos < 1 + n {
        return None;
    }
    let size: u64 = if n == 0 {
        first as u64
    } else {
        read_le_at(b, pos + 1, n)
    };
    assert(s.subrange(1, 1 + n) =~= b@.subrange(pos + 1, pos + 1 + n));
    if size < least {
        return None;
    }
    let start: usize = pos + 1 + n;
    if ((b.len() - start) as u64) < size {
        return None;
    }
    let end: usize = start + size as usize;
    let chunk: Vec<u8> = copy_range(b, start, end);
    assert(s.subrange(1 + n, 1 + n + size) =~= b@.subrange(start as int, end as int));
    Some((chunk, end))
}

/// Reads the map at `pos`; gives it with the position behind it.
fn read_map_at(b: &[u8], pos: usize) -> (r: Option<(FieldMap, usize)>)
    requires
        pos <= b@.len(),
    ensures
        match r {
            None => read_map(b@.skip(pos as int)) is None,
            Some((m, end)) => {
                &&& pos <= end <= b@.len()
                &&& read_map(b@.skip(pos as int)) == Some((m@, (end - pos) as nat))
            },
        },
{
    let mut map: FieldMap = FieldMap { pairs: Vec::new() };
    let mut at: usize = pos;
    assert(map@ =~= Seq::<PairView>::empty());
    proof {
        if read_map(b@.skip(pos as int)) is Some {
            let (rest, e) = read_map(b@.skip(pos as int))->0;
            assert(map@ + rest =~= rest);
        }
    }
    loop
        invariant
            pos <= at <= b@.len(),
            match read_map(b@.skip(at as int)) {
                None => read_map(b@.skip(pos as int)) is None,
                Some((rest, e)) => read_map(b@.skip(pos as int)) == Some(
                    (map@ + rest, (at - pos + e) as nat),
                ),
            },
        decreases b@.len() - at,
    {
        let ghost s = b@.skip(at as int);
        let (key, after_key) = match read_chunk_at(b, at) {
            None => {
                return None;
            },
            Some(found) => found,
        };
        proof {
            lemma_chunk_read_write(s);
            assert(s.skip(after_key - at) =~= b@.skip(after_key as int));
        }
        if key.len() == 0 {
            assert(map@ + Seq::<PairView>::empty() =~= map@);
            return Some((map, after_key));
        }
        let (value, after_value) = match read_chunk_at(b, after_key) {
            None => {
                return None;
            },
            Some(found) => found,
        };
        let ghost before = map@;
        let ghost pair = PairView { key: key@, value: value@ };
        assert(s.skip(after_value - at) =~= b@.skip(after_value as int));
        map.pairs.push(Pair { key, value });
        assert(map@ =~= before.push(pair));
        proof {
            if read_map(b@.skip(after_value as int)) is Some {
                let (rest, e) = read_map(b@.skip(after_value as int))->0;
                assert(map@ + rest =~= before + (seq![pair] + rest));
            }
        }
        at = after_value;
    }
}

/// Reads `n` maps at `pos`; gives them with the position behind them.
fn read_maps_at(b: &[u8], pos: usize, n: usize) -> (r: Option<(Vec<FieldMap>, usize)>)
    requires
        pos <= b@.len(),
    ensures
        match r {
            None => read_maps(b@.skip(pos as int), n as nat) is None,
            Some((ms, end)) => {
                &&& pos <= end <= b@.len()
                &&& read_maps(b@.skip(pos as int), n as nat) == Some(
                    (map_views(ms@), (end - pos) as nat),
                )
            },
        },
{
    let mut maps: Vec<FieldMap> = Vec::new();
    let mut at: usize = pos;
    let mut left: usize = n;
    assert(map_views(maps@) =~= Seq::<Seq<PairView>>::empty());
    proof {
        if read_maps(b@.skip(pos as int), n as nat) is Some {
            let (rest, e) = read_maps(b@.skip(pos as int), n as nat)->0;
            assert(map_views(maps@) + rest =~= rest);
        }
    }
    while left > 0
        invariant
            pos <= at <= b@.len(),
            match read_maps(b@.skip(at as int), left as nat) {
                None => read_maps(b@.skip(pos as int), n as nat) is None,
                Some((rest, e)) => read_maps(b@.skip(pos as int), n as nat) == Some(
                    (map_views(maps@) + rest, (at - pos + e) as nat),
                ),
            },
        decreases left,
    {
        let (map, end) = match read_map_at(b, at) {
            None => {
                return None;
            },
            Some(found) => found,
        };
        let ghost before = map_views(maps@);
        let ghost m = map@;
        assert(b@.skip(at as int).skip(end - at) =~= b@.skip(end as int));
        maps.push(map);
        assert(map_views(maps@) =~= before.push(m));
        proof {
            if read_maps(b@.skip(end as int), (left - 1) as nat) is Some {
                let (rest, e) = read_maps(b@.skip(end as int), (left - 1) as nat)->0;
                assert(map_views(maps@) + rest =~= before + (seq![m] + rest));
            }
        }
        at = end;
        left -= 1;
    }
    assert(map_views(maps@) + Seq::<Seq<PairView>>::empty() =~= map_views(maps@));
    Some((maps, at))
}

/// Appends the prefix of every document.
fn push_magic(out: &mut Vec<u8>)
    ensures
        final(out)@ == old(out)@ + magic(),
{
    out.push(0x70);
    out.push(0x73);
    out.push(0x62);
    out.push(0x74);
    out.push(0xff);
    assert(out@ =~= old(out)@ + magic());
}

/// Whether the prefix of every document stands at the start.
fn has_magic(bytes: &[u8]) -> (r: bool)
    ensures
        r == (bytes@.len() >= 5 && bytes@.take(5) == magic()),
{
    if bytes.len() < 5 {
        return false;
    }
    let found: Vec<u8> = copy_range(bytes, 0, 5);
    let mut wanted: Vec<u8> = Vec::new();
    push_magic(&mut wanted);
    assert(wanted@ =~= magic());
    bytes_equal(found.as_slice(), wanted.as_slice())
}

impl Psbt {
    /// The bytes of the document.
    pub fn serialize(&self) -> (r: Vec<u8>)
        ensures
            r@ == encode(self@),
    {
        let mut out: Vec<u8> = Vec::new();
        push_magic(&mut out);
        assert(out@ =~= magic());
        push_map(&mut out, &self.global);
        push_maps(&mut out, &self.inputs);
        push_maps(&mut out, &self.outputs);
        out
    }

    /// The document whose bytes are `bytes`, with as many input and output maps as told.
    pub fn from_frame(bytes: &[u8], inputs: usize, outputs: usize) -> (r: Option<Psbt>)
        ensures
            match r {
                None => decode(bytes@, inputs as nat, outputs as nat) is None,
                Some(p) => decode(bytes@, inputs as nat, outputs as nat) == Some(p@),
            },
    {
        if !has_magic(bytes) {
            return None;
        }
        let (global, after_global) = match read_map_at(bytes, 5) {
            None => {
                return None;
            },
            Some(found) => found,
        };
        let (ins, after_ins) = match read_maps_at(bytes, after_global, inputs) {
            None => {
                return None;
            },
            Some(found) => found,
        };
        let (outs, end) = match read_maps_at(bytes, after_ins, outputs) {
            None => {
                return None;
            },
            Some(found) => found,
        };
        if end != bytes.len() {
            return None;
        }
        Some(Psbt { global, inputs: ins, outputs: outs })
    }
}

} // verus!
