//! ECDSA P-256 / SHA-256 signing keys: the secret scalar, how it is imported,
//! stored and loaded as text, its public point, and detached signatures.

use vstd::prelude::*;
use p256::ecdsa::signature::Signer;
use p256::pkcs8::DecodePrivateKey;
use rand_core::RngCore;
use crate::text::{chars_of, string_of, copy_range, trim, trim_bounds, is_hex_digit};
use crate::hex::{hex_spec, hex_chars, unhex, unhex_spec, UnhexError, law_unhex_of_hex};

verus! {

/// The order of the P-256 group.
pub open spec fn p256_order() -> int {
    0xffffffff00000000ffffffffffffffffbce6faada7179e84f3b9cac2fc632551int
}

/// The big-endian value of a byte string.
pub open spec fn be_value(b: Seq<u8>) -> int
    decreases b.len(),
{
    if b.len() == 0 {
        0
    } else {
        256 * be_value(b.drop_last()) + b.last()
    }
}

/// A P-256 secret scalar: 32 big-endian bytes of a value in `1..n`.
pub open spec fn valid_scalar(b: Seq<u8>) -> bool {
    b.len() == 32 && 0 < be_value(b) < p256_order()
}

/// A P-256 signing key, held as its secret scalar.
pub struct SigningKey {
    scalar: [u8; 32],
}

impl SigningKey {
    #[verifier::type_invariant]
    spec fn scalar_is_valid(self) -> bool {
        valid_scalar(self.scalar@)
    }

    /// The 32 big-endian bytes of the secret scalar.
    pub closed spec fn bytes(self) -> Seq<u8> {
        self.scalar@
    }

    /// The 32 big-endian bytes of the secret scalar.
    pub fn to_bytes(&self) -> (r: [u8; 32])
        ensures
            r@ == self.bytes(),
    {
        self.scalar
    }

    /// The key whose secret scalar is `bytes`, when they are one.
    pub fn from_scalar(bytes: &[u8]) -> (r: Option<SigningKey>)
        ensures
            r is Some <==> valid_scalar(bytes@),
            r matches Some(k) ==> k.bytes() == bytes@,
    {
        if bytes.len() != 32 {
            return None;
        }
        if !p256_accepts(bytes) {
            return None;
        }
        let mut scalar = [0u8; 32];
        for i in 0..32
            invariant
                bytes@.len() == 32,
                forall|j: int| 0 <= j < i ==> scalar@[j] == bytes@[j],
        {
            scalar[i] = bytes[i];
        }
        assert(scalar@ =~= bytes@);
        Some(SigningKey { scalar })
    }
}

/// Calls `p256::SecretKey::from_slice` on 32 bytes. Claimed, as its source
/// shows (`ScalarPrimitive::from_bytes`, then the zero check): it accepts
/// exactly the big-endian values in `1..n`.
#[verifier::external_body]
fn p256_accepts(bytes: &[u8]) -> (b: bool)
    requires
        bytes@.len() == 32,
    ensures
        b == valid_scalar(bytes@),
{
    p256::SecretKey::from_slice(bytes).is_ok()
}

/// Calls `rand_core::OsRng::try_fill_bytes` (the operating system's random
/// source, through `getrandom`) on a 32-byte buffer. It does not panic: a
/// failing source gives `None`. Nothing is claimed of the bytes or of when the
/// source fails.
#[verifier::external_body]
fn os_random_bytes() -> (r: Option<[u8; 32]>)
{
    let mut buf = [0u8; 32];
    match rand_core::OsRng.try_fill_bytes(&mut buf) {
        Ok(()) => Some(buf),
        Err(_) => None,
    }
}

/// How many 32-byte draws `generate` makes at most before giving up. A draw
/// is rejected only when it is zero or not below the group order, which is
/// about one chance in four billion.
pub const MAX_DRAWS: u32 = 64;

/// A fresh signing key from the operating system's random source: 32-byte
/// draws, each kept if it is a valid scalar (so the key is uniform over
/// `1..n`). `None` when the random source fails, or when no draw of the first
/// `MAX_DRAWS` is valid. Which key comes out is up to chance.
pub fn generate() -> (r: Option<SigningKey>)
    ensures
        r matches Some(k) ==> valid_scalar(k.bytes()),
{
    let mut tries: u32 = 0;
    while tries < MAX_DRAWS
        decreases MAX_DRAWS - tries,
    {
        let bytes = match os_random_bytes() {
            Some(b) => b,
            None => return None,
        };
        match SigningKey::from_scalar(bytes.as_slice()) {
            Some(k) => return Some(k),
            None => {},
        }
        tries = tries + 1;
    }
    None
}

/// The SEC1 uncompressed public point (`0x04 || X || Y`) of a secret scalar.
pub uninterp spec fn p256_public_point(scalar: Seq<u8>) -> Seq<u8>;

/// The DER ECDSA signature over SHA-256(`msg`) with RFC 6979 nonces.
pub uninterp spec fn p256_sign_der(scalar: Seq<u8>, msg: Seq<u8>) -> Seq<u8>;

/// Calls `VerifyingKey::to_encoded_point(false)` on the key's verifying key.
/// Claimed: the result is `p256_public_point` of the scalar, 65 bytes that
/// start with `0x04` (an uncompressed SEC1 point).
#[verifier::external_body]
fn encoded_point(scalar: &[u8; 32]) -> (r: [u8; 65])
    requires
        valid_scalar(scalar@),
    ensures
        r@ == p256_public_point(scalar@),
        r@[0] == 4,
{
    let key = p256::ecdsa::SigningKey::from_slice(scalar).unwrap();
    let mut out = [0u8; 65];
    out.copy_from_slice(key.verifying_key().to_encoded_point(false).as_bytes());
    out
}

/// Calls `Signer::sign` and `Signature::to_der`. Claimed: the result is
/// `p256_sign_der` of the scalar and the message (RFC 6979 makes it a
/// function of the two).
#[verifier::external_body]
fn der_signature(scalar: &[u8; 32], msg: &[u8]) -> (r: Vec<u8>)
    requires
        valid_scalar(scalar@),
    ensures
        r@ == p256_sign_der(scalar@, msg@),
{
    let key = p256::ecdsa::SigningKey::from_slice(scalar).unwrap();
    let sig: p256::ecdsa::Signature = key.sign(msg);
    sig.to_der().as_bytes().to_vec()
}

/// The 65-byte uncompressed public point (`0x04 || X || Y`): the trust anchor
/// that clients pin.
pub fn public_point(key: &SigningKey) -> (r: [u8; 65])
    ensures
        r@ == p256_public_point(key.bytes()),
        r@.len() == 65,
        r@[0] == 4,
{
    proof {
        use_type_invariant(key);
    }
    encoded_point(&key.scalar)
}

/// A detached DER ECDSA-P256 signature over SHA-256(`msg`).
pub fn sign(key: &SigningKey, msg: &[u8]) -> (r: Vec<u8>)
    ensures
        r@ == p256_sign_der(key.bytes(), msg@),
{
    proof {
        use_type_invariant(key);
    }
    der_signature(&key.scalar, msg)
}

// ── keys as text ─────────────────────────────────────────────────────────

/// Why a key text was refused.
#[derive(Debug)]
pub enum KeyError {
    /// The stored key is not hex.
    Hex(UnhexError),
    /// The stored key does not decode to 32 bytes; its length.
    WrongLength(usize),
    /// The 32 bytes are not a valid P-256 scalar.
    InvalidKey,
    /// The text is neither a hex scalar, a SEC1 PEM nor a PKCS#8 PEM; the
    /// PKCS#8 parser's message.
    Unparseable(String),
}

/// The text of the stored key file: the scalar in lowercase hex, then a
/// newline.
pub open spec fn key_text_spec(scalar: Seq<u8>) -> Seq<char> {
    hex_spec(scalar).push('\n')
}

/// The contents of the key file for `key`.
pub fn key_file_text(key: &SigningKey) -> (s: String)
    ensures
        s@ == key_text_spec(key.bytes()),
{
    let mut v = hex_chars(&key.scalar);
    v.push('\n');
    string_of(&v)
}

/// The outcome of `load_key` on the text `s`.
pub open spec fn is_load_outcome(s: Seq<char>, r: Result<SigningKey, KeyError>) -> bool {
    match unhex_spec(trim(s)) {
        Err(e) => r matches Err(KeyError::Hex(e2)) && e2 == e,
        Ok(b) => if b.len() != 32 {
            r matches Err(KeyError::WrongLength(n)) && n == b.len()
        } else if !valid_scalar(b) {
            r matches Err(KeyError::InvalidKey)
        } else {
            r matches Ok(k) && k.bytes() == b
        },
    }
}

/// Loads a stored key: hex text of a 32-byte scalar, surrounding whitespace
/// ignored.
pub fn load_key(text: &str) -> (r: Result<SigningKey, KeyError>)
    ensures
        is_load_outcome(text@, r),
{
    let v = chars_of(text);
    let (lo, hi) = trim_bounds(&v, 0, v.len());
    assert(v@.subrange(0, v@.len() as int) == v@);
    let t = string_of(&copy_range(&v, lo, hi));
    let bytes = match unhex(t.as_str()) {
        Ok(b) => b,
        Err(e) => return Err(KeyError::Hex(e)),
    };
    if bytes.len() != 32 {
        return Err(KeyError::WrongLength(bytes.len()));
    }
    match SigningKey::from_scalar(bytes.as_slice()) {
        Some(k) => Ok(k),
        None => Err(KeyError::InvalidKey),
    }
}

/// A stored key loads back as the key it was made from.
pub proof fn law_load_key_file_text(b: Seq<u8>)
    requires
        valid_scalar(b),
    ensures
        forall|r: Result<SigningKey, KeyError>| #[trigger] is_load_outcome(key_text_spec(b), r) ==> (
        r matches Ok(k) && k.bytes() == b),
{
    let h = hex_spec(b);
    let s = key_text_spec(b);
    law_unhex_of_hex(b);
    assert(crate::text::is_ws(s.last()));
    assert(s.drop_last() == h);
    assert(crate::text::trim_end(s) == crate::text::trim_end(h));
    assert(unhex_spec(h) == Ok::<Seq<u8>, UnhexError>(b));
    assert(crate::text::trim(h) == crate::text::trim(s));
    assert(unhex_spec(trim(s)) == unhex_spec(h)) by {
        lemma_trim_trim(h);
    }
}

proof fn lemma_trim_end_idem(s: Seq<char>)
    ensures
        crate::text::trim_end(crate::text::trim_end(s)) == crate::text::trim_end(s),
    decreases s.len(),
{
    if s.len() > 0 && crate::text::is_ws(s.last()) {
        lemma_trim_end_idem(s.drop_last());
    }
}

proof fn lemma_trim_start_idem(s: Seq<char>)
    ensures
        crate::text::trim_start(crate::text::trim_start(s)) == crate::text::trim_start(s),
    decreases s.len(),
{
    if s.len() > 0 && crate::text::is_ws(s.first()) {
        lemma_trim_start_idem(s.drop_first());
    }
}

proof fn lemma_trim_start_keeps_end(s: Seq<char>)
    requires
        s.len() == 0 || !crate::text::is_ws(s.last()),
    ensures
        crate::text::trim_end(crate::text::trim_start(s)) == crate::text::trim_start(s),
    decreases s.len(),
{
    if s.len() > 0 && crate::text::is_ws(s.first()) {
        lemma_trim_start_keeps_end(s.drop_first());
    }
}

proof fn lemma_trim_end_result(s: Seq<char>)
    ensures
        crate::text::trim_end(s).len() == 0 || !crate::text::is_ws(crate::text::trim_end(s).last()),
    decreases s.len(),
{
    if s.len() > 0 && crate::text::is_ws(s.last()) {
        lemma_trim_end_result(s.drop_last());
    }
}

/// Trimming twice is trimming once.
pub proof fn lemma_trim_trim(s: Seq<char>)
    ensures
        trim(trim(s)) == trim(s),
{
    let e = crate::text::trim_end(s);
    lemma_trim_end_result(s);
    lemma_trim_start_keeps_end(e);
    lemma_trim_start_idem(e);
}

} // verus!

verus! {

/// The scalar of a SEC1 `EC PRIVATE KEY` PEM document, when the text is one.
pub uninterp spec fn p256_sec1_pem_scalar(text: Seq<char>) -> Option<Seq<u8>>;

/// The scalar of a PKCS#8 `PRIVATE KEY` PEM document, or the parser's message.
pub uninterp spec fn p256_pkcs8_pem_scalar(text: Seq<char>) -> Result<Seq<u8>, Seq<char>>;

/// Calls `p256::SecretKey::from_sec1_pem` and `SecretKey::to_bytes`. Claimed:
/// the result is `p256_sec1_pem_scalar` of the text, and a decoded key is a
/// valid scalar (a `SecretKey` is never zero nor `>= n`).
#[verifier::external_body]
fn sec1_pem_scalar(text: &str) -> (r: Option<Vec<u8>>)
    ensures
        match r {
            Some(b) => p256_sec1_pem_scalar(text@) == Some(b@) && valid_scalar(b@),
            None => p256_sec1_pem_scalar(text@) is None,
        },
{
    p256::SecretKey::from_sec1_pem(text).ok().map(|k| k.to_bytes().to_vec())
}

/// Calls `DecodePrivateKey::from_pkcs8_pem` for `p256::SecretKey`, and
/// `SecretKey::to_bytes`, or the error's `to_string`. Claimed: the result is
/// `p256_pkcs8_pem_scalar` of the text, and a decoded key is a valid scalar.
#[verifier::external_body]
fn pkcs8_pem_scalar(text: &str) -> (r: Result<Vec<u8>, String>)
    ensures
        match r {
            Ok(b) => p256_pkcs8_pem_scalar(text@) == Ok::<Seq<u8>, Seq<char>>(b@) && valid_scalar(b@),
            Err(m) => p256_pkcs8_pem_scalar(text@) == Err::<Seq<u8>, Seq<char>>(m@),
        },
{
    p256::SecretKey::from_pkcs8_pem(text).map(|k| k.to_bytes().to_vec()).map_err(|e| e.to_string())
}

/// Exactly 64 hex digits.
pub open spec fn is_hex_scalar_text(t: Seq<char>) -> bool {
    t.len() == 64 && forall|i: int| 0 <= i < t.len() ==> is_hex_digit(#[trigger] t[i])
}

/// Whether `r` holds a key with scalar `b`, or `InvalidKey` when `b` is not
/// a valid scalar.
pub open spec fn is_key_from(b: Seq<u8>, r: Result<SigningKey, KeyError>) -> bool {
    if valid_scalar(b) {
        r matches Ok(k) && k.bytes() == b
    } else {
        r matches Err(KeyError::InvalidKey)
    }
}

/// The outcome of `import` on the text `s`: after trimming, 64 hex digits are
/// the scalar itself; otherwise a SEC1 PEM, then a PKCS#8 PEM is tried.
pub open spec fn is_import_outcome(s: Seq<char>, r: Result<SigningKey, KeyError>) -> bool {
    let t = trim(s);
    if is_hex_scalar_text(t) {
        match unhex_spec(t) {
            Err(e) => r matches Err(KeyError::Hex(e2)) && e2 == e,
            Ok(b) => is_key_from(b, r),
        }
    } else {
        match p256_sec1_pem_scalar(t) {
            Some(b) => r matches Ok(k) && k.bytes() == b,
            None => match p256_pkcs8_pem_scalar(t) {
                Ok(b) => r matches Ok(k) && k.bytes() == b,
                Err(m) => r matches Err(KeyError::Unparseable(m2)) && m2@ == m,
            },
        }
    }
}

fn key_from(bytes: &Vec<u8>) -> (r: Result<SigningKey, KeyError>)
    ensures
        is_key_from(bytes@, r),
{
    match SigningKey::from_scalar(bytes.as_slice()) {
        Some(k) => Ok(k),
        None => Err(KeyError::InvalidKey),
    }
}

/// Imports an existing P-256 private key given as text: a 64-digit hex scalar,
/// a SEC1 `EC PRIVATE KEY` PEM, or a PKCS#8 PEM.
pub fn import(text: &str) -> (r: Result<SigningKey, KeyError>)
    ensures
        is_import_outcome(text@, r),
{
    let v = chars_of(text);
    let (lo, hi) = trim_bounds(&v, 0, v.len());
    assert(v@.subrange(0, v@.len() as int) == v@);
    let tv = copy_range(&v, lo, hi);
    let t = string_of(&tv);
    let mut all_hex = tv.len() == 64;
    let mut i: usize = 0;
    while all_hex && i < tv.len()
        invariant
            i <= tv@.len(),
            all_hex ==> tv@.len() == 64 && forall|j: int| 0 <= j < i ==> is_hex_digit(#[trigger] tv@[j]),
            !all_hex ==> !is_hex_scalar_text(tv@),
        decreases tv.len() - i,
    {
        let c = tv[i];
        if !(('0' <= c && c <= '9') || ('a' <= c && c <= 'f') || ('A' <= c && c <= 'F')) {
            all_hex = false;
        }
        i = i + 1;
    }
    if all_hex {
        match unhex(t.as_str()) {
            Err(e) => Err(KeyError::Hex(e)),
            Ok(bytes) => key_from(&bytes),
        }
    } else {
        match sec1_pem_scalar(t.as_str()) {
            Some(b) => key_from(&b),
            None => match pkcs8_pem_scalar(t.as_str()) {
                Ok(b) => key_from(&b),
                Err(m) => Err(KeyError::Unparseable(m)),
            },
        }
    }
}

} // verus!
