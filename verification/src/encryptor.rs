//! Value encoding: identity pass-through, or authenticated encryption.
//!
//! In enabled mode, `encrypt` draws a fresh random 96-bit nonce, derives a
//! 256-bit key by hashing the passphrase with SHA-256, seals the value's
//! UTF-8 bytes with AES-256-GCM under that key and nonce, and returns the
//! base64 form of `nonce || ciphertext-with-tag`. `decrypt` reverses this,
//! reporting each way the input can be malformed as its own error.

use crate::strutil::{bytes_to_string, str_starts_with, str_trim_spaces};
use vstd::prelude::*;
use vstd::slice::slice_subrange;
use vstd::utf8::{decode_utf8, encode_utf8, valid_utf8};

verus! {

/// The longest value, in characters, that `encrypt` accepts; keeps the UTF-8
/// form of a value under AES-GCM's plaintext limit of 2^36 bytes.
pub const MAX_VALUE_LEN: usize = 0x1000_0000;

// ---------------------------------------------------------------------------
// Names for what the outside crates return
// ---------------------------------------------------------------------------

/// What `sha2::Sha256` digests a byte string to; a function of the input alone.
pub uninterp spec fn sha256_of(data: Seq<u8>) -> Seq<u8>;

/// What AES-256-GCM seals a plaintext to under a key and nonce: the ciphertext
/// with the authentication tag appended; a function of its arguments alone.
pub uninterp spec fn gcm_seal(key: Seq<u8>, nonce: Seq<u8>, plaintext: Seq<u8>) -> Seq<u8>;

/// What base64's padded standard engine encodes a byte string to; a function
/// of the input alone.
pub uninterp spec fn base64_of(data: Seq<u8>) -> Seq<char>;

/// The encryption key that a passphrase derives to.
pub open spec fn derived_key(passphrase: Seq<char>) -> Seq<u8> {
    sha256_of(encode_utf8(passphrase))
}

/// The characters that base64's padded standard alphabet can produce.
pub open spec fn is_base64_char(c: char) -> bool {
    ||| 'A' <= c && c <= 'Z'
    ||| 'a' <= c && c <= 'z'
    ||| '0' <= c && c <= '9'
    ||| c == '+'
    ||| c == '/'
    ||| c == '='
}

// ---------------------------------------------------------------------------
// Trusted wrappers
// ---------------------------------------------------------------------------

/// Relies on `sha2::Sha256`: a 32-byte digest that depends on the input
/// bytes alone.
#[verifier::external_body]
fn sha256(data: &[u8]) -> (r: Vec<u8>)
    ensures
        r@ == sha256_of(data@),
        r@.len() == 32,
{
    let digest = <sha2::Sha256 as sha2::Digest>::digest(data);
    digest.to_vec()
}

/// Relies on `rand::thread_rng` and `Rng::fill`: 12 bytes of randomness;
/// nothing is assumed about their values.
#[verifier::external_body]
fn random_nonce() -> (r: Vec<u8>)
    ensures
        r@.len() == 12,
{
    let mut bytes = [0u8; 12];
    rand::Rng::fill(&mut rand::thread_rng(), &mut bytes[..]);
    bytes.to_vec()
}

/// Relies on `aes_gcm::Aes256Gcm` through `aead::Aead::encrypt`: sealing is
/// deterministic in key, nonce and plaintext, appends the 16-byte tag, and
/// accepts any plaintext of at most 2^36 bytes.
#[verifier::external_body]
fn gcm_encrypt(key: &[u8], nonce: &[u8], plaintext: &[u8]) -> (r: Vec<u8>)
    requires
        key@.len() == 32,
        nonce@.len() == 12,
        plaintext@.len() <= 0x10_0000_0000,
    ensures
        r@ == gcm_seal(key@, nonce@, plaintext@),
        r@.len() == plaintext@.len() + 16,
{
    let cipher = <aes_gcm::Aes256Gcm as aes_gcm::KeyInit>::new_from_slice(key)
        .expect("key is 32 bytes");
    let nonce = aes_gcm::Nonce::from_slice(nonce);
    aes_gcm::aead::Aead::encrypt(&cipher, nonce, plaintext).expect("plaintext fits")
}

/// Relies on `aes_gcm::Aes256Gcm` through `aead::Aead::decrypt`: opening
/// succeeds exactly on the outputs of sealing under the same key and nonce,
/// and then returns the sealed plaintext, 16 bytes shorter than the input.
#[verifier::external_body]
fn gcm_open(key: &[u8], nonce: &[u8], ciphertext: &[u8]) -> (r: Option<Vec<u8>>)
    requires
        key@.len() == 32,
        nonce@.len() == 12,
    ensures
        r is None ==> forall|p: Seq<u8>|
            !(p.len() <= 0x10_0000_0000 && ciphertext@ == gcm_seal(key@, nonce@, p)),
        r matches Some(v) ==> ciphertext@ == gcm_seal(key@, nonce@, v@) && v@.len()
            <= 0x10_0000_0000 && ciphertext@.len() == v@.len() + 16 && (forall|p: Seq<u8>|
            p.len() <= 0x10_0000_0000 && ciphertext@ == gcm_seal(key@, nonce@, p) ==> p == v@),
{
    let cipher = <aes_gcm::Aes256Gcm as aes_gcm::KeyInit>::new_from_slice(key)
        .expect("key is 32 bytes");
    let nonce = aes_gcm::Nonce::from_slice(nonce);
    match aes_gcm::aead::Aead::decrypt(&cipher, nonce, ciphertext) {
        Ok(plaintext) => Some(plaintext),
        Err(_) => None,
    }
}

/// Relies on base64's padded standard engine: encoding is a function of the
/// bytes alone and draws on the standard alphabet and `=` only.
#[verifier::external_body]
fn b64_encode(data: &[u8]) -> (r: String)
    requires
        data@.len() < 0x6000_0000,
    ensures
        r@ == base64_of(data@),
        forall|i: int| 0 <= i < r@.len() ==> is_base64_char(#[trigger] r@[i]),
{
    base64::Engine::encode(&base64::engine::general_purpose::STANDARD, data)
}

/// Relies on base64's padded standard engine: decoding accepts exactly the
/// canonical encodings and inverts them.
#[verifier::external_body]
fn b64_decode(s: &str) -> (r: Option<Vec<u8>>)
    ensures
        r is None ==> forall|b: Seq<u8>| s@ != base64_of(b),
        r matches Some(v) ==> s@ == base64_of(v@) && (forall|b: Seq<u8>|
            s@ == base64_of(b) ==> b == v@),
{
    match base64::Engine::decode(&base64::engine::general_purpose::STANDARD, s) {
        Ok(v) => Some(v),
        Err(_) => None,
    }
}

// ---------------------------------------------------------------------------
// The shape of well-formed encrypted blobs
// ---------------------------------------------------------------------------

/// A plaintext small enough for AES-GCM.
pub open spec fn seal_fits(p: Seq<u8>) -> bool {
    p.len() <= 0x10_0000_0000
}

/// `blob` is the base64 form of `nonce || gcm_seal(key, nonce, utf8(plain))`.
pub open spec fn valid_seal(key: Seq<u8>, nonce: Seq<u8>, plain: Seq<char>, blob: Seq<char>) -> bool {
    &&& nonce.len() == 12
    &&& seal_fits(encode_utf8(plain))
    &&& gcm_seal(key, nonce, encode_utf8(plain)).len() == encode_utf8(plain).len() + 16
    &&& blob == base64_of(nonce + gcm_seal(key, nonce, encode_utf8(plain)))
}

/// `blob` is a well-formed encryption of `plain` under `key`, for some nonce.
pub open spec fn is_sealed(key: Seq<u8>, blob: Seq<char>, plain: Seq<char>) -> bool {
    exists|nonce: Seq<u8>| valid_seal(key, nonce, plain, blob)
}

/// The legacy literal wrapper `encrypted(` ... `)`.
pub open spec fn legacy_prefix() -> Seq<char> {
    seq!['e', 'n', 'c', 'r', 'y', 'p', 't', 'e', 'd', '(']
}

/// Whether `v` matches the legacy wrapper pattern `encrypted(<inner>)`.
pub open spec fn is_legacy_wrapped(v: Seq<char>) -> bool {
    v.len() >= 11 && v.subrange(0, 10) == legacy_prefix() && v.last() == ')'
}

/// The inner text of a legacy-wrapped value.
pub open spec fn legacy_inner(v: Seq<char>) -> Seq<char> {
    v.subrange(10, v.len() - 1)
}

/// Bytes `b` of a blob open under `key` to the plaintext bytes `p`: the first
/// 12 bytes are the nonce and the rest is the seal of `p`.
pub open spec fn opens_to(key: Seq<u8>, b: Seq<u8>, p: Seq<u8>) -> bool {
    &&& b.len() > 12
    &&& seal_fits(p)
    &&& b.skip(12) == gcm_seal(key, b.subrange(0, 12), p)
}

/// What a successful `decrypt` of `v` under `key` must return.
pub open spec fn decode_ok(key: Seq<u8>, v: Seq<char>, plain: Seq<char>) -> bool {
    if is_legacy_wrapped(v) {
        plain == legacy_inner(v)
    } else {
        is_sealed(key, v, plain)
    }
}

/// The ways `decrypt` of `v` under `key` fails, each tied to its error.
pub open spec fn decode_err(key: Seq<u8>, v: Seq<char>, e: DecodeError) -> bool {
    &&& !is_legacy_wrapped(v)
    &&& match e {
        DecodeError::InvalidEncoding => !(exists|b: Seq<u8>| v == base64_of(b)),
        DecodeError::PayloadTooShort => exists|b: Seq<u8>| v == base64_of(b) && b.len() <= 12,
        DecodeError::AuthenticationFailed => exists|b: Seq<u8>|
            v == base64_of(b) && b.len() > 12 && !(exists|p: Seq<u8>| opens_to(key, b, p)),
        DecodeError::InvalidText => exists|b: Seq<u8>, p: Seq<u8>|
            v == base64_of(b) && opens_to(key, b, p) && !valid_utf8(p),
    }
}

/// One error for each way a stored value can fail to decode.
#[derive(Clone, Copy, Debug, PartialEq, Eq, Structural)]
pub enum DecodeError {
    /// The value is not canonical base64.
    InvalidEncoding,
    /// The decoded payload is no longer than the 12-byte nonce.
    PayloadTooShort,
    /// The authentication tag does not match.
    AuthenticationFailed,
    /// The decrypted bytes are not valid UTF-8.
    InvalidText,
}

impl DecodeError {
    /// The sentinel text shown in place of a value that failed to decode.
    pub open spec fn message_spec(self) -> Seq<char> {
        match self {
            DecodeError::InvalidEncoding => "decryption error: invalid base64"@,
            DecodeError::PayloadTooShort => "decryption error: data too short"@,
            DecodeError::AuthenticationFailed => "decryption error: authentication failed"@,
            DecodeError::InvalidText => "decryption error: invalid utf8"@,
        }
    }

    /// The sentinel text of this error.
    pub fn message(&self) -> (r: String)
        ensures
            r@ == self.message_spec(),
    {
        match self {
            DecodeError::InvalidEncoding => "decryption error: invalid base64".to_owned(),
            DecodeError::PayloadTooShort => "decryption error: data too short".to_owned(),
            DecodeError::AuthenticationFailed => "decryption error: authentication failed".to_owned(),
            DecodeError::InvalidText => "decryption error: invalid utf8".to_owned(),
        }
    }
}

// ---------------------------------------------------------------------------
// The encryptor
// ---------------------------------------------------------------------------

/// Encodes and decodes individual values: pass-through when disabled,
/// authenticated encryption under a passphrase-derived key when enabled.
pub struct Encryptor {
    enabled: bool,
    passphrase: String,
}

impl Encryptor {
    /// Whether authenticated encryption is on.
    pub closed spec fn spec_enabled(&self) -> bool {
        self.enabled
    }

    /// The key every value is sealed under.
    pub closed spec fn spec_key(&self) -> Seq<u8> {
        derived_key(self.passphrase@)
    }

    pub fn new(enabled: bool, passphrase: String) -> (r: Encryptor)
        ensures
            r.spec_enabled() == enabled,
            r.spec_key() == derived_key(passphrase@),
    {
        Encryptor { enabled, passphrase }
    }

    /// Whether authenticated encryption is on.
    pub fn enabled(&self) -> (r: bool)
        ensures
            r == self.spec_enabled(),
    {
        self.enabled
    }

    /// Encode one value: the value itself when disabled; otherwise the base64
    /// form of a fresh nonce followed by the AES-256-GCM seal of its UTF-8
    /// bytes under the derived key.
    pub fn encrypt(&self, value: &str) -> (r: String)
        requires
            value@.len() <= MAX_VALUE_LEN,
        ensures
            !self.spec_enabled() ==> r@ == value@,
            self.spec_enabled() ==> is_sealed(self.spec_key(), r@, value@),
            self.spec_enabled() ==> forall|i: int|
                0 <= i < r@.len() ==> is_base64_char(#[trigger] r@[i]),
            self.spec_enabled() ==> !is_legacy_wrapped(r@),
    {
        if !self.enabled {
            return value.to_owned();
        }
        let pass_bytes = self.passphrase.as_str().as_bytes_vec();
        let key = sha256(pass_bytes.as_slice());
        let value_bytes = value.as_bytes_vec();
        proof {
            lemma_encode_utf8_len(value@);
        }
        let nonce = random_nonce();
        let mut sealed = gcm_encrypt(key.as_slice(), nonce.as_slice(), value_bytes.as_slice());
        let ghost nonce_bytes = nonce@;
        let mut blob = nonce;
        blob.append(&mut sealed);
        let encoded = b64_encode(blob.as_slice());
        proof {
            assert(valid_seal(self.spec_key(), nonce_bytes, value@, encoded@));
            lemma_base64_not_legacy(encoded@);
        }
        encoded
    }

    /// Decode one value: the value itself when disabled; otherwise the legacy
    /// wrapper's inner text, or the sealed plaintext, or the error naming the
    /// first stage that rejects the input.
    pub fn decrypt(&self, value: &str) -> (r: Result<String, DecodeError>)
        ensures
            !self.spec_enabled() ==> (r matches Ok(s) && s@ == value@),
            self.spec_enabled() ==> (r matches Ok(s) ==> decode_ok(self.spec_key(), value@, s@)),
            self.spec_enabled() ==> forall|p: Seq<char>|
                decode_ok(self.spec_key(), value@, p) ==> (r matches Ok(s) && s@ == p),
            self.spec_enabled() ==> (r matches Err(e) ==> decode_err(self.spec_key(), value@, e)),
            self.spec_enabled() ==> forall|e: DecodeError|
                decode_err(self.spec_key(), value@, e) ==> r == Err::<String, DecodeError>(e),
    {
        if !self.enabled {
            return Ok(value.to_owned());
        }
        let ghost key_g = self.spec_key();
        let ghost v = value@;
        let n = value.unicode_len();
        if str_starts_with(value, "encrypted(") && n >= 11 && value.get_char(n - 1) == ')' {
            proof {
                lemma_legacy_prefix_literal();
                assert(v.subrange(0, 10) =~= v.subrange(0, legacy_prefix().len() as int));
                assert(is_legacy_wrapped(v));
            }
            let inner = value.substring_char(10, n - 1);
            return Ok(inner.to_owned());
        }
        proof {
            lemma_legacy_prefix_literal();
            assert(!is_legacy_wrapped(v)) by {
                if is_legacy_wrapped(v) {
                    assert(v.subrange(0, 10) == legacy_prefix());
                    assert(legacy_prefix().is_prefix_of(v));
                    assert(v.last() == ')');
                }
            }
        }
        let decoded = b64_decode(value);
        match decoded {
            None => {
                proof {
                    assert forall|p: Seq<char>| !decode_ok(key_g, v, p) by {
                        if is_sealed(key_g, v, p) {
                            let nonce = choose|nonce: Seq<u8>| valid_seal(key_g, nonce, p, v);
                            assert(v == base64_of(nonce + gcm_seal(key_g, nonce, encode_utf8(p))));
                        }
                    }
                    assert forall|e: DecodeError| decode_err(key_g, v, e) implies e
                        == DecodeError::InvalidEncoding by {
                        if e != DecodeError::InvalidEncoding {
                            lemma_err_needs_payload(key_g, v, e);
                        }
                    }
                }
                Err(DecodeError::InvalidEncoding)
            },
            Some(d) => {
                proof {
                    assert(exists|b: Seq<u8>| v == base64_of(b));
                    assert forall|b: Seq<u8>| v == base64_of(b) implies b == d@ by {}
                }
                if d.len() <= 12 {
                    proof {
                        lemma_short_payload(key_g, v, d@);
                    }
                    return Err(DecodeError::PayloadTooShort);
                }
                let nonce = slice_subrange(d.as_slice(), 0, 12);
                let ciphertext = slice_subrange(d.as_slice(), 12, d.len());
                proof {
                    assert(ciphertext@ =~= d@.skip(12));
                }
                let pass_bytes = self.passphrase.as_str().as_bytes_vec();
                let key = sha256(pass_bytes.as_slice());
                let opened = gcm_open(key.as_slice(), nonce, ciphertext);
                match opened {
                    None => {
                        proof {
                            lemma_no_plaintext_opens(key_g, v, d@);
                        }
                        Err(DecodeError::AuthenticationFailed)
                    },
                    Some(p) => {
                        let ghost pt = p@;
                        proof {
                            assert(opens_to(key_g, d@, pt));
                        }
                        let text = bytes_to_string(p);
                        match text {
                            None => {
                                proof {
                                    lemma_invalid_text(key_g, v, d@, pt);
                                }
                                Err(DecodeError::InvalidText)
                            },
                            Some(s) => {
                                proof {
                                    broadcast use vstd::utf8::decode_utf8_encode_utf8;

                                    assert(d@.subrange(0, 12) + d@.skip(12) =~= d@);
                                    assert(valid_seal(key_g, d@.subrange(0, 12), s@, v));
                                    lemma_decode_ok_unique(key_g, v, d@, pt);
                                    lemma_no_error_when_open(key_g, v, d@, pt);
                                }
                                Ok(s)
                            },
                        }
                    },
                }
            },
        }
    }
}

/// Encode one value with the given encryptor.
pub fn encrypt_value(enc: &Encryptor, value: &str) -> (r: String)
    requires
        value@.len() <= MAX_VALUE_LEN,
    ensures
        encrypted_rel(enc.spec_enabled(), enc.spec_key(), value@, r@),
{
    enc.encrypt(value)
}

/// Decode one value with the given encryptor; a value that fails to decode
/// comes back as its error's sentinel text rather than aborting anything.
pub fn decrypt_value(enc: &Encryptor, value: &str) -> (r: String)
    ensures
        decrypted_rel(enc.spec_enabled(), enc.spec_key(), value@, r@),
{
    match enc.decrypt(value) {
        Ok(s) => s,
        Err(e) => e.message(),
    }
}

// ---------------------------------------------------------------------------
// Laws and supporting lemmas
// ---------------------------------------------------------------------------

/// How a stored text relates to the plaintext that produced it: what
/// `encrypt_value` guarantees of its result.
pub open spec fn encrypted_rel(enabled: bool, key: Seq<u8>, plain: Seq<char>, stored: Seq<char>) -> bool {
    if enabled {
        &&& is_sealed(key, stored, plain)
        &&& forall|i: int| 0 <= i < stored.len() ==> is_base64_char(#[trigger] stored[i])
        &&& !is_legacy_wrapped(stored)
    } else {
        stored == plain
    }
}

/// How a decoded text relates to the stored text it was read from: what
/// `decrypt_value` guarantees of its result.
pub open spec fn decrypted_rel(enabled: bool, key: Seq<u8>, stored: Seq<char>, plain: Seq<char>) -> bool {
    if enabled {
        &&& forall|p: Seq<char>| decode_ok(key, stored, p) ==> plain == p
        &&& forall|e: DecodeError| decode_err(key, stored, e) ==> plain == e.message_spec()
    } else {
        plain == stored
    }
}

/// Round trip at the store's level: decoding a stored text that encoding
/// produced gives back exactly the original plaintext, whether or not
/// encryption is enabled.
pub proof fn lemma_store_roundtrip(
    enabled: bool,
    key: Seq<u8>,
    plain: Seq<char>,
    stored: Seq<char>,
    reloaded: Seq<char>,
)
    requires
        encrypted_rel(enabled, key, plain, stored),
        decrypted_rel(enabled, key, stored, reloaded),
    ensures
        reloaded == plain,
{
    if enabled {
        lemma_encrypt_decrypt_roundtrip(key, stored, plain);
    }
}

/// Round trip: every blob that `encrypt` can produce in enabled mode is a
/// value that `decrypt` must decode back to the original plaintext. Together
/// with `encrypt`'s and `decrypt`'s contracts this says
/// `decrypt(encrypt(v)) == Ok(v)` whenever encryption is enabled; the
/// disabled half, `encrypt(v) == v`, is `encrypt`'s own contract.
pub proof fn lemma_encrypt_decrypt_roundtrip(key: Seq<u8>, blob: Seq<char>, plain: Seq<char>)
    requires
        is_sealed(key, blob, plain),
        forall|i: int| 0 <= i < blob.len() ==> is_base64_char(#[trigger] blob[i]),
    ensures
        decode_ok(key, blob, plain),
{
    lemma_base64_not_legacy(blob);
}

/// A string of base64 characters never matches the legacy wrapper pattern.
proof fn lemma_base64_not_legacy(blob: Seq<char>)
    requires
        forall|i: int| 0 <= i < blob.len() ==> is_base64_char(#[trigger] blob[i]),
    ensures
        !is_legacy_wrapped(blob),
{
    if is_legacy_wrapped(blob) {
        assert(blob.subrange(0, 10)[9] == '(');
        assert(blob[9] == '(');
        assert(is_base64_char(blob[9]));
    }
}

/// The literal `encrypted(` spells the legacy prefix.
proof fn lemma_legacy_prefix_literal()
    ensures
        "encrypted("@ == legacy_prefix(),
{
    reveal_strlit("encrypted(");
    assert("encrypted("@ =~= legacy_prefix());
}

/// The UTF-8 form of a string has at most four bytes per character.
pub proof fn lemma_encode_utf8_len(chars: Seq<char>)
    ensures
        encode_utf8(chars).len() <= 4 * chars.len(),
    decreases chars.len(),
{
    if chars.len() > 0 {
        lemma_encode_utf8_len(chars.drop_first());
    }
}

/// Every error but `InvalidEncoding` presupposes that the input is base64.
proof fn lemma_err_needs_payload(key: Seq<u8>, v: Seq<char>, e: DecodeError)
    requires
        decode_err(key, v, e),
        e != DecodeError::InvalidEncoding,
    ensures
        exists|b: Seq<u8>| v == base64_of(b),
{
    match e {
        DecodeError::InvalidEncoding => {},
        DecodeError::PayloadTooShort => {
            let b = choose|b: Seq<u8>| v == base64_of(b) && b.len() <= 12;
            assert(v == base64_of(b));
        },
        DecodeError::AuthenticationFailed => {
            let b = choose|b: Seq<u8>|
                v == base64_of(b) && b.len() > 12 && !(exists|p: Seq<u8>| opens_to(key, b, p));
            assert(v == base64_of(b));
        },
        DecodeError::InvalidText => {
            let (b, p) = choose|b: Seq<u8>, p: Seq<u8>|
                v == base64_of(b) && opens_to(key, b, p) && !valid_utf8(p);
            assert(v == base64_of(b));
        },
    }
}

/// A base64 payload of at most 12 bytes decodes to `PayloadTooShort` and to
/// nothing else. The first premise is what the base64 call on `v` establishes.
proof fn lemma_short_payload(key: Seq<u8>, v: Seq<char>, d: Seq<u8>)
    requires
        forall|b: Seq<u8>| v == base64_of(b) ==> b == d,
        !is_legacy_wrapped(v),
        v == base64_of(d),
        d.len() <= 12,
    ensures
        decode_err(key, v, DecodeError::PayloadTooShort),
        forall|p: Seq<char>| !decode_ok(key, v, p),
        forall|e: DecodeError| decode_err(key, v, e) ==> e == DecodeError::PayloadTooShort,
{
    assert(v == base64_of(d) && d.len() <= 12);
    assert forall|p: Seq<char>| !decode_ok(key, v, p) by {
        if is_sealed(key, v, p) {
            let nonce = choose|nonce: Seq<u8>| valid_seal(key, nonce, p, v);
            let blob = nonce + gcm_seal(key, nonce, encode_utf8(p));
            assert(blob == d);
            assert(blob.len() >= 12 + 16);
        }
    }
    assert forall|e: DecodeError| decode_err(key, v, e) implies e
        == DecodeError::PayloadTooShort by {
        match e {
            DecodeError::InvalidEncoding => {
                assert(v == base64_of(d));
            },
            DecodeError::PayloadTooShort => {},
            DecodeError::AuthenticationFailed => {
                let b = choose|b: Seq<u8>|
                    v == base64_of(b) && b.len() > 12 && !(exists|p: Seq<u8>| opens_to(key, b, p));
                assert(b == d);
            },
            DecodeError::InvalidText => {
                let (b, p) = choose|b: Seq<u8>, p: Seq<u8>|
                    v == base64_of(b) && opens_to(key, b, p) && !valid_utf8(p);
                assert(b == d);
            },
        }
    }
}

/// When AES-GCM rejects the payload of `d`, `AuthenticationFailed` is the one
/// outcome `decrypt`'s model admits for `v`. The first two premises are what
/// the base64 and AES-GCM calls establish.
proof fn lemma_no_plaintext_opens(key: Seq<u8>, v: Seq<char>, d: Seq<u8>)
    requires
        forall|b: Seq<u8>| v == base64_of(b) ==> b == d,
        forall|p: Seq<u8>| !(seal_fits(p) && d.skip(12) == gcm_seal(key, d.subrange(0, 12), p)),
        !is_legacy_wrapped(v),
        v == base64_of(d),
        d.len() > 12,
    ensures
        decode_err(key, v, DecodeError::AuthenticationFailed),
        forall|p: Seq<char>| !decode_ok(key, v, p),
        forall|e: DecodeError| decode_err(key, v, e) ==> e == DecodeError::AuthenticationFailed,
{
    assert forall|p: Seq<u8>| !opens_to(key, d, p) by {}
    assert(v == base64_of(d) && d.len() > 12 && !(exists|p: Seq<u8>| opens_to(key, d, p)));
    assert forall|p: Seq<char>| !decode_ok(key, v, p) by {
        if is_sealed(key, v, p) {
            let nonce = choose|nonce: Seq<u8>| valid_seal(key, nonce, p, v);
            let blob = nonce + gcm_seal(key, nonce, encode_utf8(p));
            assert(blob == d);
            assert(nonce =~= d.subrange(0, 12));
            assert(gcm_seal(key, nonce, encode_utf8(p)) =~= d.skip(12));
            assert(opens_to(key, d, encode_utf8(p)));
        }
    }
    assert forall|e: DecodeError| decode_err(key, v, e) implies e
        == DecodeError::AuthenticationFailed by {
        match e {
            DecodeError::InvalidEncoding => {
                assert(v == base64_of(d));
            },
            DecodeError::PayloadTooShort => {
                let b = choose|b: Seq<u8>| v == base64_of(b) && b.len() <= 12;
                assert(b == d);
            },
            DecodeError::AuthenticationFailed => {},
            DecodeError::InvalidText => {
                let (b, p) = choose|b: Seq<u8>, p: Seq<u8>|
                    v == base64_of(b) && opens_to(key, b, p) && !valid_utf8(p);
                assert(b == d);
                assert(opens_to(key, d, p));
            },
        }
    }
}

/// When the opened plaintext is not valid UTF-8, `InvalidText` is the one
/// outcome `decrypt`'s model admits for `v`. The first two premises are what
/// the base64 and AES-GCM calls establish.
proof fn lemma_invalid_text(key: Seq<u8>, v: Seq<char>, d: Seq<u8>, pt: Seq<u8>)
    requires
        forall|b: Seq<u8>| v == base64_of(b) ==> b == d,
        forall|q: Seq<u8>|
            seal_fits(q) && d.skip(12) == gcm_seal(key, d.subrange(0, 12), q) ==> q == pt,
        !is_legacy_wrapped(v),
        v == base64_of(d),
        d.len() > 12,
        opens_to(key, d, pt),
        !valid_utf8(pt),
    ensures
        decode_err(key, v, DecodeError::InvalidText),
        forall|p: Seq<char>| !decode_ok(key, v, p),
        forall|e: DecodeError| decode_err(key, v, e) ==> e == DecodeError::InvalidText,
{
    broadcast use vstd::utf8::encode_utf8_valid_utf8;

    assert(v == base64_of(d) && opens_to(key, d, pt) && !valid_utf8(pt));
    assert forall|p: Seq<char>| !decode_ok(key, v, p) by {
        if is_sealed(key, v, p) {
            let nonce = choose|nonce: Seq<u8>| valid_seal(key, nonce, p, v);
            let blob = nonce + gcm_seal(key, nonce, encode_utf8(p));
            assert(blob == d);
            assert(nonce =~= d.subrange(0, 12));
            assert(gcm_seal(key, nonce, encode_utf8(p)) =~= d.skip(12));
            assert(encode_utf8(p) == pt);
            assert(valid_utf8(pt));
        }
    }
    assert forall|e: DecodeError| decode_err(key, v, e) implies e == DecodeError::InvalidText by {
        match e {
            DecodeError::InvalidEncoding => {
                assert(v == base64_of(d));
            },
            DecodeError::PayloadTooShort => {
                let b = choose|b: Seq<u8>| v == base64_of(b) && b.len() <= 12;
                assert(b == d);
            },
            DecodeError::AuthenticationFailed => {
                let b = choose|b: Seq<u8>|
                    v == base64_of(b) && b.len() > 12 && !(exists|p: Seq<u8>| opens_to(key, b, p));
                assert(b == d);
                assert(opens_to(key, d, pt));
            },
            DecodeError::InvalidText => {},
        }
    }
}

/// When the payload of `d` opens to valid UTF-8, no error outcome is
/// admitted for `v`. The first two premises are what the base64 and AES-GCM
/// calls establish.
proof fn lemma_no_error_when_open(key: Seq<u8>, v: Seq<char>, d: Seq<u8>, pt: Seq<u8>)
    requires
        forall|b: Seq<u8>| v == base64_of(b) ==> b == d,
        forall|q: Seq<u8>|
            seal_fits(q) && d.skip(12) == gcm_seal(key, d.subrange(0, 12), q) ==> q == pt,
        !is_legacy_wrapped(v),
        v == base64_of(d),
        d.len() > 12,
        opens_to(key, d, pt),
        valid_utf8(pt),
    ensures
        forall|e: DecodeError| !decode_err(key, v, e),
{
    assert forall|e: DecodeError| !decode_err(key, v, e) by {
        if decode_err(key, v, e) {
            match e {
                DecodeError::InvalidEncoding => {
                    assert(v == base64_of(d));
                },
                DecodeError::PayloadTooShort => {
                    let b = choose|b: Seq<u8>| v == base64_of(b) && b.len() <= 12;
                    assert(b == d);
                },
                DecodeError::AuthenticationFailed => {
                    let b = choose|b: Seq<u8>|
                        v == base64_of(b) && b.len() > 12 && !(exists|p: Seq<u8>|
                            opens_to(key, b, p));
                    assert(b == d);
                    assert(opens_to(key, d, pt));
                },
                DecodeError::InvalidText => {
                    let (b, p) = choose|b: Seq<u8>, p: Seq<u8>|
                        v == base64_of(b) && opens_to(key, b, p) && !valid_utf8(p);
                    assert(b == d);
                    assert(p == pt);
                },
            }
        }
    }
}

/// Any plaintext that `decode_ok` admits for `v` equals the one that was
/// actually opened from `v`'s payload. The first two premises are what the
/// base64 and AES-GCM calls on `v`'s payload establish: each pins every
/// candidate preimage to the value the call returned.
proof fn lemma_decode_ok_unique(key: Seq<u8>, v: Seq<char>, d: Seq<u8>, pt: Seq<u8>)
    requires
        forall|b: Seq<u8>| v == base64_of(b) ==> b == d,
        forall|q: Seq<u8>|
            seal_fits(q) && d.skip(12) == gcm_seal(key, d.subrange(0, 12), q) ==> q == pt,
        !is_legacy_wrapped(v),
        d.len() > 12,
        valid_utf8(pt),
    ensures
        forall|p: Seq<char>| decode_ok(key, v, p) ==> p == decode_utf8(pt),
{
    broadcast use vstd::utf8::encode_utf8_decode_utf8;

    assert forall|p: Seq<char>| decode_ok(key, v, p) implies p == decode_utf8(pt) by {
        let nonce = choose|nonce: Seq<u8>| valid_seal(key, nonce, p, v);
        let blob = nonce + gcm_seal(key, nonce, encode_utf8(p));
        assert(blob == d);
        assert(nonce =~= d.subrange(0, 12));
        assert(gcm_seal(key, nonce, encode_utf8(p)) =~= d.skip(12));
        assert(encode_utf8(p) == pt);
        assert(decode_utf8(encode_utf8(p)) == p);
    }
}

} // verus!
