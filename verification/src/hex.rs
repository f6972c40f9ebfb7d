//! Hexadecimal text.

use vstd::prelude::*;
use vstd::utf8::{encode_utf8, is_ascii_chars, is_ascii_chars_encode_utf8};

verus! {

/// The digits, in the order of their values.
pub open spec fn hex_digits() -> Seq<char> {
    seq!['0', '1', '2', '3', '4', '5', '6', '7', '8', '9', 'a', 'b', 'c', 'd', 'e', 'f']
}

/// The value of a digit; capital letters stand for the same values as small ones.
pub open spec fn digit_value(c: char) -> Option<nat> {
    if '0' <= c <= '9' {
        Some((c as u32 - '0' as u32) as nat)
    } else if 'a' <= c <= 'f' {
        Some((c as u32 - 'a' as u32 + 10) as nat)
    } else if 'A' <= c <= 'F' {
        Some((c as u32 - 'A' as u32 + 10) as nat)
    } else {
        None
    }
}

/// Whether every character is a digit.
pub open spec fn all_digits(s: Seq<char>) -> bool {
    forall|i: int| 0 <= i < s.len() ==> digit_value(#[trigger] s[i]) is Some
}

/// Whether every character is a digit, with no capital letter among them.
pub open spec fn all_small_digits(s: Seq<char>) -> bool {
    forall|i: int| 0 <= i < s.len() ==> '0' <= #[trigger] s[i] <= '9' || 'a' <= s[i] <= 'f'
}

/// Bytes as text: two digits per byte, the higher one first.
pub open spec fn to_hex(b: Seq<u8>) -> Seq<char> {
    Seq::new(
        2 * b.len(),
        |i: int|
            if i % 2 == 0 {
                hex_digits()[b[i / 2] as int / 16]
            } else {
                hex_digits()[b[i / 2] as int % 16]
            },
    )
}

/// The bytes that digits stand for, two by two.
pub open spec fn of_hex(s: Seq<char>) -> Seq<u8> {
    Seq::new(
        s.len() / 2,
        |i: int| (16 * digit_value(s[2 * i])->0 + digit_value(s[2 * i + 1])->0) as u8,
    )
}

/// The text of some bytes is read back as those bytes.
pub proof fn law_hex_round_trip(b: Seq<u8>)
    ensures
        all_small_digits(to_hex(b)),
        all_digits(to_hex(b)),
        of_hex(to_hex(b)) == b,
{
    let s = to_hex(b);
    assert forall|n: int| 0 <= n < 16 implies digit_value(#[trigger] hex_digits()[n]) == Some(
        n as nat,
    ) && ('0' <= hex_digits()[n] <= '9' || 'a' <= hex_digits()[n] <= 'f') by {}
    assert forall|i: int| 0 <= i < s.len() implies '0' <= #[trigger] s[i] <= '9' || 'a' <= s[i]
        <= 'f' by {
        let n = if i % 2 == 0 {
            b[i / 2] as int / 16
        } else {
            b[i / 2] as int % 16
        };
        assert(s[i] == hex_digits()[n]);
    }
    assert forall|i: int| 0 <= i < b.len() implies of_hex(s)[i] == b[i] by {
        assert(s[2 * i] == hex_digits()[b[i] as int / 16]);
        assert(s[2 * i + 1] == hex_digits()[b[i] as int % 16]) by {
            assert((2 * i + 1) % 2 == 1 && (2 * i + 1) / 2 == i);
        }
    }
    assert(of_hex(s) =~= b);
}

/// Whether a character is white space, by the Unicode property of that name.
pub open spec fn is_white_space(c: char) -> bool {
    let n = c as u32;
    ||| 0x9 <= n <= 0xd
    ||| n == 0x20
    ||| n == 0x85
    ||| n == 0xa0
    ||| n == 0x1680
    ||| 0x2000 <= n <= 0x200a
    ||| n == 0x2028
    ||| n == 0x2029
    ||| n == 0x202f
    ||| n == 0x205f
    ||| n == 0x3000
}

/// `s` without the white space at its start.
pub open spec fn trim_start(s: Seq<char>) -> Seq<char>
    decreases s.len(),
{
    if s.len() > 0 && is_white_space(s[0]) {
        trim_start(s.drop_first())
    } else {
        s
    }
}

/// `s` without the white space at its end.
pub open spec fn trim_end(s: Seq<char>) -> Seq<char>
    decreases s.len(),
{
    if s.len() > 0 && is_white_space(s.last()) {
        trim_end(s.drop_last())
    } else {
        s
    }
}

/// `str::trim` of the standard library: takes the white space off both ends of a text.
#[verifier::external_body]
fn trimmed(s: &str) -> (r: &str)
    ensures
        r@ == trim_end(trim_start(s@)),
{
    s.trim()
}

/// The value of one digit.
fn digit(b: u8) -> (r: Option<u8>)
    requires
        b < 128,
    ensures
        match r {
            None => digit_value(b as char) is None,
            Some(v) => v < 16 && digit_value(b as char) == Some(v as nat),
        },
{
    if 48 <= b && b <= 57 {
        Some(b - 48)
    } else if 97 <= b && b <= 102 {
        Some(b - 87)
    } else if 65 <= b && b <= 70 {
        Some(b - 55)
    } else {
        None
    }
}

/// Digits are ASCII characters.
pub proof fn lemma_digits_are_ascii(s: Seq<char>)
    requires
        all_digits(s),
    ensures
        is_ascii_chars(s),
{
    assert forall|i: int| 0 <= i < s.len() implies '\0' <= #[trigger] s[i] <= '\u{7f}' by {
        assert(digit_value(s[i]) is Some);
    }
}

/// The 32 bytes that 64 digits stand for; `None` if one of the characters is no digit.
pub fn hex_array(s: &str) -> (r: Option<[u8; 32]>)
    requires
        encode_utf8(s@).len() == 64,
    ensures
        match r {
            None => !all_digits(s@),
            Some(b) => s@.len() == 64 && all_digits(s@) && b@ == of_hex(s@),
        },
{
    if !s.is_ascii() {
        proof {
            if all_digits(s@) {
                lemma_digits_are_ascii(s@);
            }
        }
        return None;
    }
    proof {
        is_ascii_chars_encode_utf8(s@);
    }
    let bytes: &[u8] = s.as_bytes();
    let mut out: [u8; 32] = [0u8;32];
    let mut i: usize = 0;
    while i < 32
        invariant
            i <= 32,
            s@.len() == 64,
            is_ascii_chars(s@),
            bytes@ == encode_utf8(s@),
            bytes@.len() == 64,
            forall|j: int| 0 <= j < 64 ==> (#[trigger] s@[j]) as u8 == bytes@[j],
            forall|j: int| 0 <= j < 2 * i ==> digit_value(#[trigger] s@[j]) is Some,
            forall|j: int| 0 <= j < i ==> out@[j] == of_hex(s@)[j],
        decreases 32 - i,
    {
        let ghost c0 = s@[2 * i as int];
        let ghost c1 = s@[2 * i as int + 1];
        assert(c0 as u8 == bytes@[2 * i as int]);
        assert(c1 as u8 == bytes@[2 * i as int + 1]);
        assert((c0 as u8) as char == c0 && (c1 as u8) as char == c1);
        let hi: u8 = match digit(bytes[2 * i]) {
            None => {
                return None;
            },
            Some(v) => v,
        };
        let lo: u8 = match digit(bytes[2 * i + 1]) {
            None => {
                return None;
            },
            Some(v) => v,
        };
        out[i] = 16 * hi + lo;
        i += 1;
    }
    assert(out@ =~= of_hex(s@));
    Some(out)
}

/// The 32 bytes that a text of 64 digits without capital letters stands for.
pub fn small_hex_array(s: &str) -> (r: Option<[u8; 32]>)
    ensures
        match r {
            Some(b) => s@.len() == 64 && all_small_digits(s@) && b@ == of_hex(s@),
            None => s@.len() != 64 || !all_small_digits(s@),
        },
{
    if s.as_bytes().len() != 64 {
        proof {
            if s@.len() == 64 && all_small_digits(s@) {
                lemma_digits_are_ascii(s@);
                is_ascii_chars_encode_utf8(s@);
            }
        }
        return None;
    }
    let out: Option<[u8; 32]> = hex_array(s);
    if out.is_none() {
        return None;
    }
    proof {
        lemma_digits_are_ascii(s@);
        is_ascii_chars_encode_utf8(s@);
    }
    let bytes: &[u8] = s.as_bytes();
    let mut i: usize = 0;
    while i < bytes.len()
        invariant
            i <= bytes@.len(),
            bytes@.len() == s@.len(),
            all_digits(s@),
            forall|j: int| 0 <= j < s@.len() ==> (#[trigger] s@[j]) as u8 == bytes@[j],
            forall|j: int|
                0 <= j < i ==> '0' <= #[trigger] s@[j] <= '9' || 'a' <= s@[j] <= 'f',
        decreases bytes@.len() - i,
    {
        let ghost c = s@[i as int];
        assert(digit_value(c) is Some && c as u8 == bytes@[i as int]);
        if 65 <= bytes[i] && bytes[i] <= 70 {
            assert('A' <= c <= 'F');
            return None;
        }
        i += 1;
    }
    out
}

/// Appends the digit of a value.
pub(crate) fn push_digit(out: &mut String, n: usize)
    requires
        n < 16,
    ensures
        final(out)@ == old(out)@.push(hex_digits()[n as int]),
{
    let digits: &str = "0123456789abcdef";
    proof {
        reveal_strlit("0123456789abcdef");
    }
    assert(digits@ =~= hex_digits());
    let one: &str = digits.substring_ascii(n, n + 1);
    assert(one@ =~= seq![hex_digits()[n as int]]);
    out.append(one);
    assert(out@ =~= old(out)@.push(hex_digits()[n as int]));
}

/// Bytes as text.
pub fn hex_text(bytes: &[u8]) -> (r: String)
    ensures
        r@ == to_hex(bytes@),
{
    let mut out: String = String::new();
    let mut i: usize = 0;
    assert(out@ =~= to_hex(bytes@.take(0)));
    while i < bytes.len()
        invariant
            i <= bytes@.len(),
            out@ == to_hex(bytes@.take(i as int)),
        decreases bytes@.len() - i,
    {
        let ghost before = bytes@.take(i as int);
        let high: usize = bytes[i] as usize / 16;
        let low: usize = bytes[i] as usize % 16;
        push_digit(&mut out, high);
        push_digit(&mut out, low);
        i += 1;
        assert(out@ =~= to_hex(bytes@.take(i as int))) by {
            let now = bytes@.take(i as int);
            assert forall|j: int| 0 <= j < 2 * i implies out@[j] == to_hex(now)[j] by {
                if j < 2 * (i - 1) {
                    assert(to_hex(before)[j] == out@[j]);
                    assert(before[j / 2] == now[j / 2]);
                }
            }
        }
    }
    assert(bytes@.take(i as int) =~= bytes@);
    out
}

/// Why a seed cannot be read.
#[derive(Debug, PartialEq, Eq, Structural, Clone, Copy)]
pub enum SeedError {
    /// It is not 64 characters long.
    Length,
    /// One of the characters is no hexadecimal digit.
    Digit,
}

impl SeedError {
    /// The error in words.
    pub fn message(&self) -> (r: &'static str)
        ensures
            r@ == match *self {
                SeedError::Length => "seed must be 64 hex characters"@,
                SeedError::Digit => "invalid hex"@,
            },
    {
        match self {
            SeedError::Length => "seed must be 64 hex characters",
            SeedError::Digit => "invalid hex",
        }
    }
}

/// The 32 bytes that a seed in text form stands for, or why it cannot be read.
pub open spec fn seed_outcome(s: Seq<char>) -> Result<Seq<u8>, SeedError> {
    let t = trim_end(trim_start(s));
    if encode_utf8(t).len() != 64 {
        Err(SeedError::Length)
    } else if !all_digits(t) {
        Err(SeedError::Digit)
    } else {
        Ok(of_hex(t))
    }
}

/// Reads a 32-byte seed from 64 hexadecimal digits, with white space around them allowed.
///
/// The length is measured in bytes of UTF-8, so a text of 64 bytes with a character outside
/// ASCII fails as one that holds a wrong digit.
pub fn decode_hex_32(s: &str) -> (r: Result<[u8; 32], SeedError>)
    ensures
        match r {
            Ok(b) => seed_outcome(s@) == Ok::<Seq<u8>, SeedError>(b@),
            Err(e) => seed_outcome(s@) == Err::<Seq<u8>, SeedError>(e),
        },
{
    let t: &str = trimmed(s);
    if t.as_bytes().len() != 64 {
        return Err(SeedError::Length);
    }
    match hex_array(t) {
        Some(b) => Ok(b),
        None => Err(SeedError::Digit),
    }
}

/// The value of a hexadecimal digit in either case, told apart by its place in the alphabet.
pub open spec fn nibble(c: char) -> int {
    if '0' <= c <= '9' {
        c as int - 48
    } else if 'a' <= c <= 'f' {
        c as int - 97 + 10
    } else {
        c as int - 65 + 10
    }
}

/// A seed is read exactly where, without the white space around it, it is 64 characters long and
/// each is a hexadecimal digit of either case; byte by byte it is what the two digits say, the
/// higher one first. Else the answer tells whether the length or a digit is wrong.
pub proof fn law_seed_is_read_digit_by_digit(s: Seq<char>)
    ensures
        ({
            let t = trim_end(trim_start(s));
            let digits = forall|i: int|
                0 <= i < t.len() ==> '0' <= #[trigger] t[i] <= '9' || 'a' <= t[i] <= 'f' || 'A'
                    <= t[i] <= 'F';
            match seed_outcome(s) {
                Ok(b) => {
                    &&& encode_utf8(t).len() == 64
                    &&& digits
                    &&& b.len() == t.len() / 2
                    &&& forall|i: int|
                        0 <= i < b.len() ==> #[trigger] b[i] as int == 16 * nibble(t[2 * i])
                            + nibble(t[2 * i + 1])
                },
                Err(SeedError::Length) => encode_utf8(t).len() != 64,
                Err(SeedError::Digit) => encode_utf8(t).len() == 64 && !digits,
            }
        }),
{
    let t = trim_end(trim_start(s));
    if encode_utf8(t).len() == 64 && all_digits(t) {
        let b = of_hex(t);
        assert forall|i: int| 0 <= i < t.len() implies '0' <= #[trigger] t[i] <= '9' || 'a' <= t[i]
            <= 'f' || 'A' <= t[i] <= 'F' by {
            assert(digit_value(t[i]) is Some);
        }
        assert forall|i: int| 0 <= i < b.len() implies #[trigger] b[i] as int == 16 * nibble(
            t[2 * i],
        ) + nibble(t[2 * i + 1]) by {
            assert(digit_value(t[2 * i]) is Some && digit_value(t[2 * i + 1]) is Some);
        }
    } else if encode_utf8(t).len() == 64 {
        let i = choose|i: int| 0 <= i < t.len() && !(digit_value(#[trigger] t[i]) is Some);
        assert(digit_value(t[i]) is None);
    }
}

} // verus!
