//! Lowercase hex encoding, its inverse, and SHA-256 digests in hex.

use vstd::prelude::*;
use sha2::Digest;
use crate::text::{chars_of, string_of, trim, trim_bounds, is_hex_digit};

verus! {

/// The lowercase hex digits, in order of value.
pub open spec fn hex_alphabet() -> Seq<char> {
    seq!['0', '1', '2', '3', '4', '5', '6', '7', '8', '9', 'a', 'b', 'c', 'd', 'e', 'f']
}

const LOWER_HEX: [char; 16] = ['0', '1', '2', '3', '4', '5', '6', '7', '8', '9', 'a', 'b', 'c', 'd', 'e', 'f'];

/// Two lowercase hex digits per byte, high nibble first.
pub open spec fn hex_spec(bytes: Seq<u8>) -> Seq<char>
    decreases bytes.len(),
{
    if bytes.len() == 0 {
        Seq::empty()
    } else {
        let b = bytes.last();
        hex_spec(bytes.drop_last()).push(hex_alphabet()[(b / 16) as int]).push(hex_alphabet()[(b % 16) as int])
    }
}

/// `hex_spec`, as a vector of characters.
pub fn hex_chars(bytes: &[u8]) -> (r: Vec<char>)
    ensures
        r@ == hex_spec(bytes@),
{
    let mut r: Vec<char> = Vec::new();
    assert(LOWER_HEX@ == hex_alphabet());
    for i in 0..bytes.len()
        invariant
            LOWER_HEX@ == hex_alphabet(),
            r@ == hex_spec(bytes@.take(i as int)),
    {
        let b = bytes[i];
        r.push(LOWER_HEX[(b / 16) as usize]);
        r.push(LOWER_HEX[(b % 16) as usize]);
        assert(bytes@.take(i + 1).drop_last() == bytes@.take(i as int));
    }
    assert(bytes@.take(bytes.len() as int) == bytes@);
    r
}

/// Lowercase hex encoding of `bytes`: two digits per byte, high nibble first.
pub fn hex(bytes: &[u8]) -> (s: String)
    ensures
        s@ == hex_spec(bytes@),
{
    let v = hex_chars(bytes);
    string_of(&v)
}

/// Why `unhex` refused its input.
#[derive(Debug, Clone, Copy, PartialEq, Eq, Structural)]
pub enum UnhexError {
    /// The trimmed text holds a character outside ASCII.
    NonAscii,
    /// The trimmed text has an odd number of characters.
    OddLength,
    /// A pair of characters is not a hex number (`u8::from_str_radix(_, 16)`).
    InvalidDigit,
}

/// The value of a hex digit, either case.
pub open spec fn hex_value(c: char) -> int {
    if '0' <= c && c <= '9' {
        c as int - '0' as int
    } else if 'a' <= c && c <= 'f' {
        c as int - 'a' as int + 10
    } else {
        c as int - 'A' as int + 10
    }
}

/// `u8::from_str_radix` on two characters in base 16: two hex digits, or a
/// `+` sign followed by one.
pub open spec fn pair_value(a: char, b: char) -> Option<u8> {
    if a == '+' && is_hex_digit(b) {
        Some(hex_value(b) as u8)
    } else if is_hex_digit(a) && is_hex_digit(b) {
        Some((16 * hex_value(a) + hex_value(b)) as u8)
    } else {
        None
    }
}

/// Decodes consecutive pairs of characters; `None` when a pair is refused.
pub open spec fn decode_pairs(s: Seq<char>) -> Option<Seq<u8>>
    decreases s.len(),
{
    if s.len() < 2 {
        Some(Seq::empty())
    } else {
        match (decode_pairs(s.subrange(0, s.len() - 2)), pair_value(s[s.len() - 2], s[s.len() - 1])) {
            (Some(prefix), Some(b)) => Some(prefix.push(b)),
            _ => None,
        }
    }
}

pub open spec fn all_ascii(s: Seq<char>) -> bool {
    forall|i: int| 0 <= i < s.len() ==> #[trigger] s[i] <= '\u{7f}'
}

/// What `unhex` gives back for the text `s`.
pub open spec fn unhex_spec(s: Seq<char>) -> Result<Seq<u8>, UnhexError> {
    let t = trim(s);
    if !all_ascii(t) {
        Err(UnhexError::NonAscii)
    } else if t.len() % 2 != 0 {
        Err(UnhexError::OddLength)
    } else {
        match decode_pairs(t) {
            Some(b) => Ok(b),
            None => Err(UnhexError::InvalidDigit),
        }
    }
}

fn hex_digit_value(c: char) -> (r: Option<u8>)
    ensures
        match r {
            Some(v) => is_hex_digit(c) && v == hex_value(c) && v < 16,
            None => !is_hex_digit(c),
        },
{
    if '0' <= c && c <= '9' {
        Some(((c as u32) - ('0' as u32)) as u8)
    } else if 'a' <= c && c <= 'f' {
        Some(((c as u32) - ('a' as u32) + 10) as u8)
    } else if 'A' <= c && c <= 'F' {
        Some(((c as u32) - ('A' as u32) + 10) as u8)
    } else {
        None
    }
}

fn decode_pair(a: char, b: char) -> (r: Option<u8>)
    ensures
        r == pair_value(a, b),
{
    let hb = hex_digit_value(b);
    if a == '+' {
        return match hb {
            Some(vb) => Some(vb),
            None => None,
        };
    }
    match (hex_digit_value(a), hb) {
        (Some(va), Some(vb)) => Some(va * 16 + vb),
        _ => None,
    }
}

/// Decodes hex text: surrounding whitespace is ignored, the rest must be ASCII
/// of even length, and each pair of characters must parse as a base-16 `u8`.
pub fn unhex(s: &str) -> (r: Result<Vec<u8>, UnhexError>)
    ensures
        match r {
            Ok(v) => unhex_spec(s@) == Ok::<Seq<u8>, UnhexError>(v@),
            Err(e) => unhex_spec(s@) == Err::<Seq<u8>, UnhexError>(e),
        },
{
    let v = chars_of(s);
    let (lo, hi) = trim_bounds(&v, 0, v.len());
    assert(v@.subrange(0, v@.len() as int) == v@);
    let ghost t = v@.subrange(lo as int, hi as int);
    assert(t == trim(s@));
    let mut i = lo;
    while i < hi
        invariant
            lo <= i <= hi <= v@.len(),
            t == v@.subrange(lo as int, hi as int),
            t == trim(s@),
            forall|j: int| lo <= j < i ==> #[trigger] v@[j] <= '\u{7f}',
        decreases hi - i,
    {
        if v[i] > '\u{7f}' {
            assert(t[i - lo] > '\u{7f}');
            return Err(UnhexError::NonAscii);
        }
        i = i + 1;
    }
    assert(all_ascii(t)) by {
        assert forall|j: int| 0 <= j < t.len() implies #[trigger] t[j] <= '\u{7f}' by {
            assert(t[j] == v@[lo + j]);
        }
    }
    if (hi - lo) % 2 != 0 {
        return Err(UnhexError::OddLength);
    }
    let mut out: Vec<u8> = Vec::new();
    let mut k = lo;
    while k < hi
        invariant
            lo <= k <= hi <= v@.len(),
            (hi - lo) % 2 == 0,
            (k - lo) % 2 == 0,
            t == v@.subrange(lo as int, hi as int),
            t == trim(s@),
            all_ascii(t),
            decode_pairs(v@.subrange(lo as int, k as int)) == Some(out@),
        decreases hi - k,
    {
        let ghost pre = v@.subrange(lo as int, k as int);
        let ghost cur = v@.subrange(lo as int, k + 2);
        assert(cur.subrange(0, cur.len() - 2) == pre);
        match decode_pair(v[k], v[k + 1]) {
            Some(b) => {
                out.push(b);
            },
            None => {
                proof {
                    lemma_decode_pairs_prefix(t, (k - lo + 2) as int);
                }
                return Err(UnhexError::InvalidDigit);
            },
        }
        k = k + 2;
    }
    Ok(out)
}

/// A refused pair makes every longer even-length text refused.
proof fn lemma_decode_pairs_prefix(t: Seq<char>, n: int)
    requires
        2 <= n <= t.len(),
        n % 2 == 0,
        t.len() % 2 == 0,
        decode_pairs(t.subrange(0, n)) is None,
    ensures
        decode_pairs(t) is None,
    decreases t.len() - n,
{
    if n < t.len() {
        let u = t.subrange(0, n + 2);
        assert(u.subrange(0, u.len() - 2) == t.subrange(0, n));
        if n + 2 == t.len() {
            assert(u == t);
        } else {
            assert(t.subrange(0, n + 2).len() == n + 2);
            lemma_decode_pairs_prefix(t, n + 2);
        }
    } else {
        assert(t.subrange(0, n) == t);
    }
}

/// SHA-256 of a byte string.
pub uninterp spec fn sha256(data: Seq<u8>) -> Seq<u8>;

/// Calls `sha2::Sha256::digest`. Claimed: the digest is the SHA-256 of
/// `data`, 32 bytes long.
#[verifier::external_body]
fn sha256_digest(data: &[u8]) -> (d: Vec<u8>)
    ensures
        d@ == sha256(data@),
        d@.len() == 32,
{
    sha2::Sha256::digest(data).to_vec()
}

/// Lowercase hex of the SHA-256 of `data`: 64 hex digits.
pub fn sha256_hex(data: &[u8]) -> (s: String)
    ensures
        s@ == hex_spec(sha256(data@)),
        sha256(data@).len() == 32,
        s@.len() == 64,
        forall|i: int| 0 <= i < s@.len() ==> #[trigger] is_hex_digit(s@[i]),
{
    let d = sha256_digest(data);
    proof {
        lemma_hex_spec_shape(d@);
    }
    hex(d.as_slice())
}

} // verus!

verus! {

proof fn lemma_hex_digit_roundtrip(n: int)
    requires
        0 <= n < 16,
    ensures
        is_hex_digit(hex_alphabet()[n]),
        hex_value(hex_alphabet()[n]) == n,
        hex_alphabet()[n] != '+',
        !crate::text::is_ws(hex_alphabet()[n]),
        hex_alphabet()[n] <= '\u{7f}',
{
    assert(hex_alphabet() =~= seq!['0', '1', '2', '3', '4', '5', '6', '7', '8', '9', 'a', 'b', 'c', 'd', 'e', 'f']);
    if n < 10 {
        assert(hex_alphabet()[n] as int == '0' as int + n);
    } else {
        assert(hex_alphabet()[n] as int == 'a' as int + n - 10);
    }
}

proof fn lemma_hex_spec_shape(b: Seq<u8>)
    ensures
        hex_spec(b).len() == 2 * b.len(),
        forall|i: int| 0 <= i < hex_spec(b).len() ==> {
            &&& is_hex_digit(#[trigger] hex_spec(b)[i])
            &&& hex_spec(b)[i] != '+'
            &&& !crate::text::is_ws(hex_spec(b)[i])
            &&& hex_spec(b)[i] <= '\u{7f}'
        },
        decode_pairs(hex_spec(b)) == Some(b),
    decreases b.len(),
{
    if b.len() > 0 {
        let x = b.last();
        lemma_hex_spec_shape(b.drop_last());
        lemma_hex_digit_roundtrip((x / 16) as int);
        lemma_hex_digit_roundtrip((x % 16) as int);
        let h = hex_spec(b);
        assert(h.subrange(0, h.len() - 2) == hex_spec(b.drop_last()));
        assert(pair_value(h[h.len() - 2], h[h.len() - 1]) == Some(x));
        assert(b.drop_last().push(x) == b);
    }
}

/// Decoding the hex encoding of any bytes gives those bytes back.
pub proof fn law_unhex_of_hex(b: Seq<u8>)
    ensures
        unhex_spec(hex_spec(b)) == Ok::<Seq<u8>, UnhexError>(b),
{
    lemma_hex_spec_shape(b);
    let h = hex_spec(b);
    if h.len() > 0 {
        assert(!crate::text::is_ws(h.last()));
        assert(!crate::text::is_ws(h.first()));
    }
    assert(crate::text::trim_end(h) == h);
    assert(crate::text::trim_start(h) == h);
}

} // verus!

verus! {

/// The hex digit of `n`, lowercase.
pub fn hex_digit_char(n: u8) -> (c: char)
    requires
        n < 16,
    ensures
        c == hex_alphabet()[n as int],
{
    assert(LOWER_HEX@ == hex_alphabet());
    LOWER_HEX[n as usize]
}

/// The decimal digits of `n`, most significant first, without leading zeros
/// (`u64`'s `Display`).
pub open spec fn decimal_spec(n: nat) -> Seq<char>
    decreases n,
{
    if n < 10 {
        seq![hex_alphabet()[n as int]]
    } else {
        decimal_spec(n / 10).push(hex_alphabet()[(n % 10) as int])
    }
}

/// Appends the decimal digits of `n`.
pub fn push_decimal(out: &mut Vec<char>, n: u64)
    ensures
        final(out)@ == old(out)@ + decimal_spec(n as nat),
    decreases n,
{
    if n >= 10 {
        push_decimal(out, n / 10);
    }
    let d = hex_digit_char((n % 10) as u8);
    out.push(d);
    proof {
        if n < 10 {
            assert(n % 10 == n);
        }
    }
}

} // verus!
