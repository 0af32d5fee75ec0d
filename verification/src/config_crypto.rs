//! Protection of paths kept in the configuration file.
//!
//! A path is sealed with AES-256-GCM under a key kept beside the configuration
//! and written as `"<base64 nonce>:<base64 ciphertext>"`.

use vstd::prelude::*;
use vstd::utf8::*;
use vstd::string::StringSliceAdditionalSpecFns;
use vstd::string::StringExecFns;
use crate::strings::{chars_of, string_from_chars, push_char, utf8_to_string, utf8_error_text};

verus! {

broadcast use {vstd::utf8::encode_utf8_decode_utf8, vstd::utf8::encode_utf8_valid_utf8};

#[verifier::external_type_specification]
#[verifier::external_body]
pub struct ExDecodeError(base64::DecodeError);

#[verifier::external_type_specification]
#[verifier::external_body]
pub struct ExAeadError(aes_gcm::Error);

/// Size of an AES-GCM nonce.
pub const NONCE_SIZE: usize = 12;

/// The longest plaintext AES-GCM seals, in bytes.
pub const AES_GCM_MAX_PLAINTEXT: u64 = 0x10_0000_0000;

/// Size of a configuration key.
pub const CONFIG_KEY_SIZE: usize = 32;

/// What the standard base64 engine writes for `data`.
pub uninterp spec fn base64_encoded(data: Seq<u8>) -> Seq<char>;

/// What the standard base64 engine reads from `text` (`None` for an error).
pub uninterp spec fn base64_decoded(text: Seq<char>) -> Option<Seq<u8>>;

/// What AES-256-GCM sealing gives (`None` for an error).
pub uninterp spec fn aes_gcm_sealed(key: Seq<u8>, nonce: Seq<u8>, plaintext: Seq<u8>) -> Option<Seq<u8>>;

/// What AES-256-GCM opening gives (`None` when it fails).
pub uninterp spec fn aes_gcm_opened(key: Seq<u8>, nonce: Seq<u8>, ciphertext: Seq<u8>) -> Option<Seq<u8>>;

/// Encodes `data` with base64's `general_purpose::STANDARD` engine (`Engine::encode`).
/// The text is named; as the crate documents, it reads back as `data` and is
/// made of `A-Z a-z 0-9 + / =`, so it holds no `:`.
#[verifier::external_body]
fn base64_encode(data: &[u8]) -> (res: String)
    requires
        data@.len() <= usize::MAX / 2,
    ensures
        res@ == base64_encoded(data@),
        base64_decoded(res@) == Some(data@),
        forall|i: int| 0 <= i < res@.len() ==> res@[i] != ':',
{
    base64::Engine::encode(&base64::engine::general_purpose::STANDARD, data)
}

/// Decodes `text` with base64's `general_purpose::STANDARD` engine (`Engine::decode`).
/// The outcome is named.
#[verifier::external_body]
fn base64_decode(text: &str) -> (res: Result<Vec<u8>, base64::DecodeError>)
    ensures
        base64_decoded(text@) == match res {
            Ok(d) => Some(d@),
            Err(_) => None::<Seq<u8>>,
        },
{
    base64::Engine::decode(&base64::engine::general_purpose::STANDARD, text)
}

/// A fresh random 12-byte nonce (`AeadCore::generate_nonce` for `Aes256Gcm` with `OsRng`).
/// Only its length is stated.
#[verifier::external_body]
fn random_nonce() -> (res: Vec<u8>)
    ensures
        res@.len() == NONCE_SIZE,
{
    <aes_gcm::Aes256Gcm as aes_gcm::AeadCore>::generate_nonce(aes_gcm::aead::OsRng).to_vec()
}

/// A fresh random 256-bit key (`KeyInit::generate_key` for `Aes256Gcm` with `OsRng`).
/// Nothing is stated of its bytes.
#[verifier::external_body]
fn generate_config_key() -> (res: [u8; 32]) {
    <aes_gcm::Aes256Gcm as aes_gcm::KeyInit>::generate_key(aes_gcm::aead::OsRng).into()
}

/// Seals `plaintext` with AES-256-GCM (`Aead::encrypt` on `Aes256Gcm::new`).
/// The outcome is named; as the `Aead` trait documents, opening what it seals
/// with the same key and nonce gives the plaintext back, and the ciphertext
/// is the plaintext's length plus the 16-byte tag. Sealing fails exactly
/// when the plaintext is longer than `P_MAX`, 2^36 bytes (the only check of
/// `encrypt_in_place_detached`; the tag is then appended to a `Vec`).
#[verifier::external_body]
fn aes_gcm_encrypt(key: &[u8; 32], nonce: &[u8], plaintext: &[u8]) -> (res: Result<Vec<u8>, aes_gcm::Error>)
    requires
        nonce@.len() == NONCE_SIZE,
    ensures
        res is Ok <==> plaintext@.len() <= AES_GCM_MAX_PLAINTEXT,
        aes_gcm_sealed(key@, nonce@, plaintext@) == match res {
            Ok(c) => Some(c@),
            Err(_) => None::<Seq<u8>>,
        },
        res matches Ok(c) ==> aes_gcm_opened(key@, nonce@, c@) == Some(plaintext@),
        res matches Ok(c) ==> c@.len() == plaintext@.len() + 16,
{
    let cipher = <aes_gcm::Aes256Gcm as aes_gcm::KeyInit>::new(key.into());
    aes_gcm::aead::Aead::encrypt(&cipher, aes_gcm::Nonce::from_slice(nonce), plaintext)
}

/// Opens `ciphertext` with AES-256-GCM (`Aead::decrypt` on `Aes256Gcm::new`).
/// The outcome is named.
#[verifier::external_body]
fn aes_gcm_decrypt(key: &[u8; 32], nonce: &[u8], ciphertext: &[u8]) -> (res: Result<Vec<u8>, aes_gcm::Error>)
    requires
        nonce@.len() == NONCE_SIZE,
    ensures
        aes_gcm_opened(key@, nonce@, ciphertext@) == match res {
            Ok(p) => Some(p@),
            Err(_) => None::<Seq<u8>>,
        },
{
    let cipher = <aes_gcm::Aes256Gcm as aes_gcm::KeyInit>::new(key.into());
    aes_gcm::aead::Aead::decrypt(&cipher, aes_gcm::Nonce::from_slice(nonce), ciphertext)
}

/// Why a protected path could not be read back or written.
#[derive(Debug)]
pub enum ConfigCryptoError {
    /// The text has no `:` between nonce and ciphertext.
    MissingSeparator,
    /// A part is not base64.
    Base64(base64::DecodeError),
    /// The nonce does not have 12 bytes; the length it has.
    InvalidNonceLength(usize),
    /// The ciphertext does not open.
    Cipher(aes_gcm::Error),
    /// AES-GCM refused to seal.
    Seal(aes_gcm::Error),
    /// The opened bytes are not UTF-8.
    InvalidUtf8(std::string::FromUtf8Error),
}

/// `Display` of base64's `DecodeError`: which symbol or length is wrong.
/// Nothing is stated of the text.
#[verifier::external_body]
fn base64_error_text(e: &base64::DecodeError) -> String {
    e.to_string()
}

/// `Display` of an `aes_gcm::Error` (aead's `Error`), which always writes
/// "aead::Error".
#[verifier::external_body]
fn aead_error_text(e: &aes_gcm::Error) -> (res: String)
    ensures
        res@ == "aead::Error"@,
{
    e.to_string()
}

/// The character of decimal digit `d`.
pub open spec fn digit_char(d: nat) -> char {
    (48 + d) as char
}

/// `n` written in decimal.
pub open spec fn decimal(n: nat) -> Seq<char>
    decreases n,
{
    if n < 10 {
        seq![digit_char(n)]
    } else {
        decimal(n / 10).push(digit_char(n % 10))
    }
}

/// Appends `n` in decimal to `out`.
fn push_decimal(out: &mut String, n: usize)
    ensures
        final(out)@ == old(out)@ + decimal(n as nat),
    decreases n,
{
    if n >= 10 {
        push_decimal(out, n / 10);
    }
    let d: u8 = (n % 10) as u8;
    let c: char = (48u8 + d) as char;
    assert(c == digit_char((n % 10) as nat));
    push_char(out, c);
    proof {
        if n >= 10 {
            assert(final(out)@ =~= old(out)@ + decimal(n as nat));
        }
    }
}

impl ConfigCryptoError {
    /// The error as text.
    pub fn message(&self) -> (res: String)
        ensures
            self is MissingSeparator ==> res@ == "Invalid encrypted format: missing ':' separator"@,
            self matches ConfigCryptoError::InvalidNonceLength(n)
                ==> res@ == "Invalid nonce length: "@ + decimal(n as nat) + " (expected 12)"@,
            self is Cipher ==> res@ == "AES-GCM decryption failed (wrong key or corrupted data)"@,
            self is Seal ==> res@ == "AES-GCM encryption failed: "@ + "aead::Error"@,
    {
        match self {
            ConfigCryptoError::MissingSeparator => "Invalid encrypted format: missing ':' separator".to_owned(),
            ConfigCryptoError::Base64(e) => base64_error_text(e),
            ConfigCryptoError::InvalidNonceLength(n) => {
                let mut res = "Invalid nonce length: ".to_owned();
                push_decimal(&mut res, *n);
                res.append(" (expected 12)");
                res
            },
            ConfigCryptoError::Cipher(_) => "AES-GCM decryption failed (wrong key or corrupted data)".to_owned(),
            ConfigCryptoError::Seal(e) => {
                let mut res = "AES-GCM encryption failed: ".to_owned();
                let t = aead_error_text(e);
                res.append(t.as_str());
                res
            },
            ConfigCryptoError::InvalidUtf8(e) => utf8_error_text(e),
        }
    }
}

/// The step at which reading a protected path stops.
#[derive(Debug, Clone, Copy, PartialEq, Eq, Structural)]
pub enum PathFailure {
    MissingSeparator,
    Base64,
    InvalidNonceLength,
    Cipher,
    InvalidUtf8,
}

/// True when `e` is the error that reports `f`.
pub open spec fn reports_path(e: ConfigCryptoError, f: PathFailure) -> bool {
    match f {
        PathFailure::MissingSeparator => e is MissingSeparator,
        PathFailure::Base64 => e is Base64,
        PathFailure::InvalidNonceLength => e is InvalidNonceLength,
        PathFailure::Cipher => e is Cipher,
        PathFailure::InvalidUtf8 => e is InvalidUtf8,
    }
}

/// Where the first `:` of `s` is, if any.
pub open spec fn first_colon(s: Seq<char>) -> Option<int> {
    if exists|i: int| 0 <= i < s.len() && s[i] == ':' {
        Some(choose|i: int| 0 <= i < s.len() && s[i] == ':' && forall|j: int| 0 <= j < i ==> s[j] != ':')
    } else {
        None
    }
}

/// What reading the protected path `s` with `key` gives.
pub open spec fn path_decryption(key: Seq<u8>, s: Seq<char>) -> Result<Seq<char>, PathFailure> {
    match first_colon(s) {
        None => Err(PathFailure::MissingSeparator),
        Some(c) => match base64_decoded(s.take(c)) {
            None => Err(PathFailure::Base64),
            Some(nonce) => match base64_decoded(s.skip(c + 1)) {
                None => Err(PathFailure::Base64),
                Some(ct) => if nonce.len() != NONCE_SIZE {
                    Err(PathFailure::InvalidNonceLength)
                } else {
                    match aes_gcm_opened(key, nonce, ct) {
                        None => Err(PathFailure::Cipher),
                        Some(p) => if valid_utf8(p) {
                            Ok(decode_utf8(p))
                        } else {
                            Err(PathFailure::InvalidUtf8)
                        },
                    }
                },
            },
        },
    }
}

/// The first `:` of `s` is at `i` when `s[i]` is `:` and none comes before.
proof fn lemma_first_colon(s: Seq<char>, i: int)
    requires
        0 <= i < s.len(),
        s[i] == ':',
        forall|j: int| 0 <= j < i ==> s[j] != ':',
    ensures
        first_colon(s) == Some(i),
{
    let c = choose|c: int| 0 <= c < s.len() && s[c] == ':' && forall|j: int| 0 <= j < c ==> s[j] != ':';
    if c < i {
        assert(s[c] != ':');
    } else if c > i {
        assert(s[i] != ':');
    }
}

/// Splits `s` at its first `:`.
fn split_at_colon(s: &str) -> (res: Option<(String, String)>)
    ensures
        match first_colon(s@) {
            Some(c) => res matches Some(p) && p.0@ == s@.take(c) && p.1@ == s@.skip(c + 1),
            None => res is None,
        },
{
    let chars = chars_of(s);
    let mut i: usize = 0;
    while i < chars.len()
        invariant
            chars@ == s@,
            i <= chars@.len(),
            forall|j: int| 0 <= j < i ==> chars@[j] != ':',
        decreases chars@.len() - i,
    {
        if chars[i] == ':' {
            proof { lemma_first_colon(s@, i as int); }
            let left = string_from_chars(&chars, 0, i);
            let right = string_from_chars(&chars, i + 1, chars.len());
            assert(left@ =~= s@.take(i as int));
            assert(right@ =~= s@.skip(i + 1));
            return Some((left, right));
        }
        i = i + 1;
    }
    None
}

/// The bytes that the part of `s` before its first `:` decodes to.
pub open spec fn nonce_part(s: Seq<char>) -> Option<Seq<u8>> {
    match first_colon(s) {
        Some(c) => base64_decoded(s.take(c)),
        None => None,
    }
}

/// Reads back a path written by `encrypt_keyfile_path` under `key`. A nonce
/// of the wrong length is reported with the length it has.
pub fn decrypt_keyfile_path(key: &[u8; 32], encrypted: &str) -> (res: Result<String, ConfigCryptoError>)
    ensures
        match path_decryption(key@, encrypted@) {
            Ok(p) => res matches Ok(s) && s@ == p,
            Err(f) => res matches Err(e) && reports_path(e, f),
        },
        res matches Err(ConfigCryptoError::InvalidNonceLength(n))
            ==> nonce_part(encrypted@) matches Some(nonce) && n == nonce.len(),
{
    let (nonce_b64, ct_b64) = match split_at_colon(encrypted) {
        Some(parts) => parts,
        None => return Err(ConfigCryptoError::MissingSeparator),
    };
    let nonce = match base64_decode(nonce_b64.as_str()) {
        Ok(n) => n,
        Err(e) => return Err(ConfigCryptoError::Base64(e)),
    };
    let ciphertext = match base64_decode(ct_b64.as_str()) {
        Ok(c) => c,
        Err(e) => return Err(ConfigCryptoError::Base64(e)),
    };
    if nonce.len() != NONCE_SIZE {
        return Err(ConfigCryptoError::InvalidNonceLength(nonce.len()));
    }
    let plaintext = match aes_gcm_decrypt(key, nonce.as_slice(), ciphertext.as_slice()) {
        Ok(p) => p,
        Err(e) => return Err(ConfigCryptoError::Cipher(e)),
    };
    match utf8_to_string(plaintext) {
        Ok(s) => Ok(s),
        Err(e) => Err(ConfigCryptoError::InvalidUtf8(e)),
    }
}

/// The protected form of `plaintext` under `key`, with a fresh random nonce:
/// `base64(nonce) + ":" + base64(ciphertext)`, the ciphertext being the
/// text's UTF-8 sealed with the 16-byte tag. What it writes reads back as
/// `plaintext` with the same key. Only a text of more than 2^36 bytes is
/// refused.
pub fn encrypt_keyfile_path(key: &[u8; 32], plaintext: &str) -> (res: Result<String, ConfigCryptoError>)
    requires
        plaintext@.len() <= usize::MAX / 16,
    ensures
        res is Ok <==> encode_utf8(plaintext@).len() <= AES_GCM_MAX_PLAINTEXT,
        res matches Ok(s) ==> exists|nonce: Seq<u8>, ct: Seq<u8>| {
            &&& nonce.len() == NONCE_SIZE
            &&& ct.len() == encode_utf8(plaintext@).len() + 16
            &&& aes_gcm_opened(key@, nonce, ct) == Some(encode_utf8(plaintext@))
            &&& s@ == #[trigger] base64_encoded(nonce).push(':') + #[trigger] base64_encoded(ct)
            &&& base64_decoded(base64_encoded(nonce)) == Some(nonce)
            &&& base64_decoded(base64_encoded(ct)) == Some(ct)
        },
        res matches Ok(s) ==> path_decryption(key@, s@) == Ok::<Seq<char>, PathFailure>(plaintext@),
        res matches Err(e) ==> e is Seal,
{
    let nonce = random_nonce();
    let bytes = plaintext.as_bytes();
    proof { crate::crypto::lemma_utf8_len_bound(plaintext@); }
    let ciphertext = match aes_gcm_encrypt(key, nonce.as_slice(), bytes) {
        Ok(c) => c,
        Err(e) => return Err(ConfigCryptoError::Seal(e)),
    };
    let nonce_b64 = base64_encode(nonce.as_slice());
    let ct_b64 = base64_encode(ciphertext.as_slice());
    let mut res = nonce_b64.clone();
    push_char(&mut res, ':');
    res.append(ct_b64.as_str());
    proof {
        lemma_protected_path_reads_back(key@, nonce@, ciphertext@, bytes@, res@);
        assert(res@ == base64_encoded(nonce@).push(':') + base64_encoded(ciphertext@));
    }
    Ok(res)
}

/// What `encrypt_keyfile_path` writes reads back: for a ciphertext that opens
/// to the UTF-8 of a text under a key and nonce, the text
/// `base64(nonce) + ":" + base64(ciphertext)` reads back as that text.
pub proof fn lemma_protected_path_reads_back(
    key: Seq<u8>,
    nonce: Seq<u8>,
    ct: Seq<u8>,
    plain: Seq<u8>,
    written: Seq<char>,
)
    requires
        nonce.len() == NONCE_SIZE,
        aes_gcm_opened(key, nonce, ct) == Some(plain),
        valid_utf8(plain),
        base64_decoded(base64_encoded(nonce)) == Some(nonce),
        base64_decoded(base64_encoded(ct)) == Some(ct),
        forall|i: int| 0 <= i < base64_encoded(nonce).len() ==> base64_encoded(nonce)[i] != ':',
        written == base64_encoded(nonce).push(':') + base64_encoded(ct),
    ensures
        path_decryption(key, written) == Ok::<Seq<char>, PathFailure>(decode_utf8(plain)),
{
    let n = base64_encoded(nonce).len() as int;
    assert forall|j: int| 0 <= j < n implies written[j] != ':' by {
        assert(written[j] == base64_encoded(nonce)[j]);
    }
    lemma_first_colon(written, n);
    assert(written.take(n) =~= base64_encoded(nonce));
    assert(written.skip(n + 1) =~= base64_encoded(ct));
}

/// A configuration key read from its file: the file's bytes when there are
/// exactly 32 of them.
pub fn config_key_from_file(contents: &[u8]) -> (res: Option<[u8; 32]>)
    ensures
        contents@.len() == CONFIG_KEY_SIZE ==> (res matches Some(k) && k@ == contents@),
        contents@.len() != CONFIG_KEY_SIZE ==> res is None,
{
    if contents.len() != CONFIG_KEY_SIZE {
        return None;
    }
    let h = crate::crypto::KeyfileHash::from_slice(contents);
    Some(h.hash)
}

/// The configuration key: the bytes of its file when the file holds exactly
/// 32 of them, else a fresh random key, which is then to be written to the
/// file (the flag says so).
pub fn config_key_or_new(stored: Option<&[u8]>) -> (res: ([u8; 32], bool))
    ensures
        match stored {
            Some(c) => if c@.len() == CONFIG_KEY_SIZE {
                res.0@ == c@ && !res.1
            } else {
                res.1
            },
            None => res.1,
        },
{
    if let Some(contents) = stored {
        if let Some(key) = config_key_from_file(contents) {
            return (key, false);
        }
    }
    (generate_config_key(), true)
}

} // verus!
