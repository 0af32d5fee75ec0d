//! Encryption of documents with a keyfile.
//!
//! An encrypted file is laid out as
//! `[4-byte magic "SED2"][32-byte salt][sealed data with its nonce and tag][32-byte keyfile hash]`.
//! The key is derived with Argon2i from the SHA-256 of the keyfile and the salt;
//! the data is sealed with XChaCha20-Poly1305 (orion's `aead`).

use vstd::prelude::*;
use vstd::utf8::*;
use vstd::string::StringSliceAdditionalSpecFns;
use crate::bytes::{append_bytes, bytes_range, bytes_eq};
use crate::strings::utf8_to_string;
use vstd::string::StringExecFns;

verus! {

broadcast use {vstd::utf8::encode_utf8_decode_utf8, vstd::utf8::encode_utf8_valid_utf8};

#[verifier::external_type_specification]
#[verifier::external_body]
pub struct ExUnknownCryptoError(orion::errors::UnknownCryptoError);

#[verifier::external_type_specification]
#[verifier::external_body]
pub struct ExIoError(std::io::Error);

/// Size of the magic number at the start of a file.
pub const MAGIC_SIZE: usize = 4;
/// Size of the salt that follows it.
pub const SALT_SIZE: usize = 32;
/// Size of the keyfile hash at the end of a file.
pub const KEYFILE_HASH_SIZE: usize = 32;
/// Size of the nonce and tag that the sealed data carries.
pub const SEAL_OVERHEAD: usize = 40;
/// Smallest size of a well-formed file.
pub const MIN_FILE_SIZE: usize = 108;
/// Argon2i iterations.
pub const KDF_ITERATIONS: u32 = 3;
/// Argon2i memory, in KiB.
pub const KDF_MEMORY: u32 = 19456;
/// Length of the derived key.
pub const KEY_SIZE: u32 = 32;
/// Size of a generated keyfile.
pub const KEYFILE_SIZE: usize = 256;
/// Largest plaintext that the sealing accepts (orion's `P_MAX`).
pub const MAX_SEAL_INPUT: u64 = 0x3F_FFFF_FFC0;

/// The magic number "SED2".
pub open spec fn magic() -> Seq<u8> {
    seq![0x53u8, 0x45u8, 0x44u8, 0x32u8]
}

/// What SHA-256 gives for `data`.
pub uninterp spec fn sha256(data: Seq<u8>) -> Seq<u8>;

/// What Argon2i key derivation gives for these inputs (`None` for an error).
pub uninterp spec fn argon2i_key(password: Seq<u8>, salt: Seq<u8>, iterations: u32, memory: u32, length: u32) -> Option<Seq<u8>>;

/// What opening `data` with `key` gives (`None` when it fails).
pub uninterp spec fn aead_open_result(key: Seq<u8>, data: Seq<u8>) -> Option<Seq<u8>>;

/// SHA-256 of `data` (`<sha2::Sha256 as Digest>::digest`). The result is
/// named; that it is 32 bytes long is what the type shows.
#[verifier::external_body]
fn sha256_digest(data: &[u8]) -> (res: [u8; 32])
    ensures
        res@ == sha256(data@),
{
    <sha2::Sha256 as sha2::Digest>::digest(data).into()
}

/// Argon2i derivation with `orion::kdf::derive_key`, the password and salt
/// converted with `Password::from_slice` and `Salt::from_slice`. The outcome is
/// named, and a derived key has the requested length. Orion's checks
/// (`Password`/`Salt::from_slice`, `derive_key`'s at least 3 iterations, and
/// `hazardous::kdf::argon2i::derive_key`'s bounds: salt of at least 8 bytes,
/// memory of at least 8 blocks, output of at least 4 bytes) pass on the
/// inputs of the success clause, which keeps every length within 32 bits.
#[verifier::external_body]
fn derive_key_bytes(password: &[u8], salt: &[u8], iterations: u32, memory: u32, length: u32)
    -> (res: Result<Vec<u8>, orion::errors::UnknownCryptoError>)
    ensures
        argon2i_key(password@, salt@, iterations, memory, length) == match res {
            Ok(k) => Some(k@),
            Err(_) => None::<Seq<u8>>,
        },
        res matches Ok(k) ==> k@.len() == length,
        1 <= password@.len() <= 0x7FFF_FFFF && 8 <= salt@.len() <= 0x7FFF_FFFF && iterations >= 3
            && memory >= 8 && 4 <= length <= 0x7FFF_FFFF ==> res is Ok,
{
    let password = orion::kdf::Password::from_slice(password)?;
    let salt = orion::kdf::Salt::from_slice(salt)?;
    let key = orion::kdf::derive_key(&password, &salt, iterations, memory, length)?;
    Ok(key.unprotected_as_bytes().to_vec())
}

/// Seals `plaintext` with `orion::aead::seal` under `key` (converted with
/// `aead::SecretKey::from_slice`). The nonce is random, so the sealed bytes
/// are not named; what is stated is what orion documents: opening them with
/// the same key gives the plaintext back, they are 40 bytes longer than it,
/// an empty plaintext or one longer than `P_MAX` is refused, and any other
/// under a 32-byte key is sealed (`seal` checks only the plaintext's length;
/// the XChaCha20 key takes exactly 32 bytes). A failure of the system's
/// random source makes orion panic; that is not excluded here.
#[verifier::external_body]
fn aead_seal(key: &[u8], plaintext: &[u8]) -> (res: Result<Vec<u8>, orion::errors::UnknownCryptoError>)
    ensures
        plaintext@.len() == 0 || plaintext@.len() > MAX_SEAL_INPUT ==> res is Err,
        key@.len() == 32 && 0 < plaintext@.len() <= MAX_SEAL_INPUT ==> res is Ok,
        res matches Ok(c) ==> c@.len() == plaintext@.len() + SEAL_OVERHEAD
            && aead_open_result(key@, c@) == Some(plaintext@),
{
    let key = orion::aead::SecretKey::from_slice(key)?;
    orion::aead::seal(&key, plaintext)
}

/// Opens `data` with `orion::aead::open` under `key` (converted with
/// `aead::SecretKey::from_slice`). The outcome is named.
#[verifier::external_body]
pub(crate) fn aead_open(key: &[u8], data: &[u8]) -> (res: Result<Vec<u8>, orion::errors::UnknownCryptoError>)
    ensures
        aead_open_result(key@, data@) == match res {
            Ok(p) => Some(p@),
            Err(_) => None::<Seq<u8>>,
        },
{
    let key = orion::aead::SecretKey::from_slice(key)?;
    orion::aead::open(&key, data)
}

/// A random salt of `length` bytes (`orion::kdf::Salt::generate`), as bytes.
/// Its bytes are not stated; `generate` refuses only a length of 0 or one
/// beyond `isize::MAX` (a failure of the random source makes it panic).
#[verifier::external_body]
fn random_salt(length: usize) -> (res: Result<Vec<u8>, orion::errors::UnknownCryptoError>)
    ensures
        res matches Ok(s) ==> s@.len() == length,
        1 <= length <= isize::MAX ==> res is Ok,
{
    let salt = orion::kdf::Salt::generate(length)?;
    Ok(salt.as_ref().to_vec())
}

/// `length` random bytes from the thread's generator (`rand::rng`, `RngCore::fill_bytes`).
/// Only their number is stated.
#[verifier::external_body]
pub(crate) fn random_bytes(length: usize) -> (res: Vec<u8>)
    ensures
        res@.len() == length,
{
    let mut data = vec![0u8; length];
    rand::RngCore::fill_bytes(&mut rand::rng(), &mut data);
    data
}

/// SHA-256 of a keyfile's content.
pub struct KeyfileHash {
    pub hash: [u8; 32],
}

impl KeyfileHash {
    /// The hash held in `data`, which must be 32 bytes long.
    pub fn from_slice(data: &[u8]) -> (res: Self)
        requires
            data@.len() == 32,
        ensures
            res.hash@ == data@,
    {
        let mut hash = [0u8; 32];
        let mut i: usize = 0;
        while i < 32
            invariant
                data@.len() == 32,
                i <= 32,
                hash@.len() == 32,
                forall|j: int| 0 <= j < i ==> hash@[j] == data@[j],
            decreases 32 - i,
        {
            hash[i] = data[i];
            i = i + 1;
        }
        assert(hash@ =~= data@);
        KeyfileHash { hash }
    }

    /// The 32 bytes of the hash.
    pub fn as_bytes(&self) -> (res: &[u8; 32])
        ensures
            res@ == self.hash@,
    {
        &self.hash
    }
}

/// Why encrypting or decrypting failed.
#[derive(Debug)]
pub enum CryptoError {
    IoError(std::io::Error),
    EncryptionError(orion::errors::UnknownCryptoError),
    InvalidFormat,
    InvalidMagicNumber,
    DecryptionFailed,
    KeyfileError(String),
}

impl From<std::io::Error> for CryptoError {
    /// An I/O failure.
    fn from(err: std::io::Error) -> (res: Self) {
        CryptoError::IoError(err)
    }
}

impl vstd::std_specs::convert::FromSpecImpl<std::io::Error> for CryptoError {
    open spec fn obeys_from_spec() -> bool {
        true
    }

    open spec fn from_spec(v: std::io::Error) -> CryptoError {
        CryptoError::IoError(v)
    }
}

impl From<orion::errors::UnknownCryptoError> for CryptoError {
    /// A failure inside the cryptographic primitives.
    fn from(err: orion::errors::UnknownCryptoError) -> (res: Self) {
        CryptoError::EncryptionError(err)
    }
}

impl vstd::std_specs::convert::FromSpecImpl<orion::errors::UnknownCryptoError> for CryptoError {
    open spec fn obeys_from_spec() -> bool {
        true
    }

    open spec fn from_spec(v: orion::errors::UnknownCryptoError) -> CryptoError {
        CryptoError::EncryptionError(v)
    }
}

/// `Display` of a `std::io::Error`, the operating system's message. Nothing
/// is stated of the text.
#[verifier::external_body]
fn io_error_text(e: &std::io::Error) -> String {
    e.to_string()
}

/// `Display` of orion's `UnknownCryptoError`, which always writes
/// "UnknownCryptoError".
#[verifier::external_body]
fn crypto_error_text(e: &orion::errors::UnknownCryptoError) -> (res: String)
    ensures
        res@ == "UnknownCryptoError"@,
{
    e.to_string()
}

/// The message shown for an error, when it is fixed by the error alone (an
/// I/O error carries the system's own words).
pub open spec fn error_message(e: CryptoError) -> Option<Seq<char>> {
    match e {
        CryptoError::IoError(_) => None,
        CryptoError::EncryptionError(_) => Some("Encryption Error: UnknownCryptoError"@),
        CryptoError::InvalidFormat => Some("Invalid file format - not a SED file"@),
        CryptoError::InvalidMagicNumber => Some("Invalid magic number"@),
        CryptoError::DecryptionFailed => Some("Decryption failed - wrong keyfile"@),
        CryptoError::KeyfileError(m) => Some("Keyfile Error: "@ + m@),
    }
}

impl CryptoError {
    /// The message shown for the error.
    pub fn message(&self) -> (res: String)
        ensures
            error_message(*self) matches Some(m) ==> res@ == m,
            self is IoError ==> exists|t: Seq<char>| res@ == "IO Error: "@ + t,
    {
        match self {
            CryptoError::IoError(e) => {
                let t = io_error_text(e);
                let mut res = "IO Error: ".to_owned();
                res.append(t.as_str());
                res
            },
            CryptoError::EncryptionError(e) => {
                let t = crypto_error_text(e);
                let mut res = "Encryption Error: ".to_owned();
                res.append(t.as_str());
                proof {
                    reveal_strlit("Encryption Error: ");
                    reveal_strlit("UnknownCryptoError");
                    reveal_strlit("Encryption Error: UnknownCryptoError");
                }
                assert(res@ =~= "Encryption Error: UnknownCryptoError"@);
                res
            },
            CryptoError::InvalidFormat => "Invalid file format - not a SED file".to_owned(),
            CryptoError::InvalidMagicNumber => "Invalid magic number".to_owned(),
            CryptoError::DecryptionFailed => "Decryption failed - wrong keyfile".to_owned(),
            CryptoError::KeyfileError(m) => {
                let mut res = "Keyfile Error: ".to_owned();
                res.append(m.as_str());
                res
            },
        }
    }
}

/// The step at which decryption stops.
#[derive(Debug, Clone, Copy, PartialEq, Eq, Structural)]
pub enum DecryptFailure {
    /// Too short, or the plaintext is not UTF-8.
    InvalidFormat,
    /// The file does not begin with "SED2".
    InvalidMagicNumber,
    /// The keyfile is empty.
    EmptyKeyfile,
    /// The keyfile's hash is not the one stored in the file.
    KeyfileMismatch,
    /// Key derivation failed.
    KeyDerivation,
    /// The sealed data does not open with the derived key.
    DecryptionFailed,
}

/// True when `e` is the error that reports `f`.
pub open spec fn reports(e: CryptoError, f: DecryptFailure) -> bool {
    match f {
        DecryptFailure::InvalidFormat => e is InvalidFormat,
        DecryptFailure::InvalidMagicNumber => e is InvalidMagicNumber,
        DecryptFailure::EmptyKeyfile => e matches CryptoError::KeyfileError(m) && m@ == "Keyfile is empty"@,
        DecryptFailure::KeyfileMismatch => e matches CryptoError::KeyfileError(m) && m@ == "Keyfile mismatch"@,
        DecryptFailure::KeyDerivation => e is EncryptionError,
        DecryptFailure::DecryptionFailed => e is DecryptionFailed,
    }
}

/// The salt of a file.
pub open spec fn file_salt(data: Seq<u8>) -> Seq<u8> {
    data.subrange(MAGIC_SIZE as int, (MAGIC_SIZE + SALT_SIZE) as int)
}

/// The sealed data of a file.
pub open spec fn file_sealed(data: Seq<u8>) -> Seq<u8> {
    data.subrange((MAGIC_SIZE + SALT_SIZE) as int, data.len() - KEYFILE_HASH_SIZE)
}

/// The keyfile hash stored at the end of a file.
pub open spec fn file_hash(data: Seq<u8>) -> Seq<u8> {
    data.subrange(data.len() - KEYFILE_HASH_SIZE, data.len() as int)
}

/// The bytes of a file that stores `sealed` under `salt` for a keyfile hashing to `hash`.
pub open spec fn file_layout(salt: Seq<u8>, sealed: Seq<u8>, hash: Seq<u8>) -> Seq<u8> {
    magic() + salt + sealed + hash
}

/// The key derived from a keyfile hash and a salt.
pub open spec fn file_key(hash: Seq<u8>, salt: Seq<u8>) -> Option<Seq<u8>> {
    argon2i_key(hash, salt, KDF_ITERATIONS, KDF_MEMORY, KEY_SIZE)
}

/// What decrypting `data` with a keyfile whose content is `keyfile` gives.
pub open spec fn decryption(keyfile: Seq<u8>, data: Seq<u8>) -> Result<Seq<char>, DecryptFailure> {
    if data.len() < MIN_FILE_SIZE {
        Err(DecryptFailure::InvalidFormat)
    } else if data.take(MAGIC_SIZE as int) != magic() {
        Err(DecryptFailure::InvalidMagicNumber)
    } else if keyfile.len() == 0 {
        Err(DecryptFailure::EmptyKeyfile)
    } else if sha256(keyfile) != file_hash(data) {
        Err(DecryptFailure::KeyfileMismatch)
    } else {
        match file_key(sha256(keyfile), file_salt(data)) {
            None => Err(DecryptFailure::KeyDerivation),
            Some(key) => match aead_open_result(key, file_sealed(data)) {
                None => Err(DecryptFailure::DecryptionFailed),
                Some(plain) => if valid_utf8(plain) {
                    Ok(decode_utf8(plain))
                } else {
                    Err(DecryptFailure::InvalidFormat)
                },
            },
        }
    }
}

/// The hash of a keyfile's content; an empty keyfile is refused.
pub fn hash_keyfile(keyfile_content: &[u8]) -> (res: Result<KeyfileHash, CryptoError>)
    ensures
        keyfile_content@.len() == 0 ==> (res matches Err(CryptoError::KeyfileError(m)) && m@ == "Keyfile is empty"@),
        keyfile_content@.len() > 0 ==> (res matches Ok(h) && h.hash@ == sha256(keyfile_content@)),
{
    if keyfile_content.len() == 0 {
        return Err(CryptoError::KeyfileError("Keyfile is empty".to_owned()));
    }
    let digest = sha256_digest(keyfile_content);
    Ok(KeyfileHash { hash: digest })
}

/// The encryption key derived from a keyfile hash and a salt.
pub fn derive_key_from_keyfile(keyfile_hash: &KeyfileHash, salt: &[u8]) -> (res: Result<Vec<u8>, CryptoError>)
    ensures
        match file_key(keyfile_hash.hash@, salt@) {
            Some(k) => res matches Ok(r) && r@ == k,
            None => res matches Err(CryptoError::EncryptionError(_)),
        },
        res matches Ok(k) ==> k@.len() == KEY_SIZE,
        8 <= salt@.len() <= 0x7FFF_FFFF ==> res is Ok,
{
    match derive_key_bytes(keyfile_hash.as_bytes(), salt, KDF_ITERATIONS, KDF_MEMORY, KEY_SIZE) {
        Ok(k) => Ok(k),
        Err(e) => Err(CryptoError::EncryptionError(e)),
    }
}

/// `KEYFILE_SIZE` random bytes for a new keyfile.
pub fn generate_keyfile_bytes() -> (res: Vec<u8>)
    ensures
        res@.len() == KEYFILE_SIZE,
{
    random_bytes(KEYFILE_SIZE)
}

/// The bytes of an encrypted file holding `content`, for the keyfile whose
/// content is `keyfile_content`. An empty keyfile, an empty text and a
/// text of more than `MAX_SEAL_INPUT` bytes are refused; anything else is
/// encrypted.
pub fn encrypt_content(content: &str, keyfile_content: &[u8]) -> (res: Result<Vec<u8>, CryptoError>)
    ensures
        keyfile_content@.len() == 0 ==> (res matches Err(CryptoError::KeyfileError(m)) && m@ == "Keyfile is empty"@),
        keyfile_content@.len() > 0 && (content@.len() == 0 || encode_utf8(content@).len() > MAX_SEAL_INPUT)
            ==> res matches Err(CryptoError::EncryptionError(_)),
        keyfile_content@.len() > 0 && content@.len() > 0 && encode_utf8(content@).len() <= MAX_SEAL_INPUT
            ==> res is Ok,
        res matches Ok(data) ==> exists|salt: Seq<u8>, sealed: Seq<u8>| {
            &&& salt.len() == SALT_SIZE
            &&& data@ == #[trigger] file_layout(salt, sealed, sha256(keyfile_content@))
            &&& file_key(sha256(keyfile_content@), salt) matches Some(key)
            &&& aead_open_result(key, sealed) == Some(encode_utf8(content@))
            &&& sealed.len() == encode_utf8(content@).len() + SEAL_OVERHEAD
        },
        res matches Ok(data) ==> decryption(keyfile_content@, data@) == Ok::<Seq<char>, DecryptFailure>(content@),
{
    let keyfile_hash = hash_keyfile(keyfile_content)?;
    let salt = match random_salt(SALT_SIZE) {
        Ok(s) => s,
        Err(e) => return Err(CryptoError::EncryptionError(e)),
    };
    let key = derive_key_from_keyfile(&keyfile_hash, salt.as_slice())?;
    let plaintext = content.as_bytes();
    proof { lemma_utf8_len_at_least(content@); }
    let sealed = match aead_seal(key.as_slice(), plaintext) {
        Ok(c) => c,
        Err(e) => return Err(CryptoError::EncryptionError(e)),
    };
    let mut file_data: Vec<u8> = Vec::new();
    append_bytes(&mut file_data, &[0x53u8, 0x45u8, 0x44u8, 0x32u8]);
    append_bytes(&mut file_data, salt.as_slice());
    append_bytes(&mut file_data, sealed.as_slice());
    append_bytes(&mut file_data, keyfile_hash.as_bytes());
    proof {
        assert(file_data@ =~= file_layout(salt@, sealed@, sha256(keyfile_content@)));
        lemma_encrypt_then_decrypt(keyfile_content@, content@, salt@, sealed@);
    }
    Ok(file_data)
}

/// Whether `data` begins with the magic number of an encrypted file; the
/// batch converter does not encrypt such a file again.
pub fn has_sen_magic(data: &[u8]) -> (res: bool)
    ensures
        res == (data@.len() >= MAGIC_SIZE && data@.take(MAGIC_SIZE as int) == magic()),
{
    if data.len() < MAGIC_SIZE {
        return false;
    }
    let head = bytes_range(data, 0, MAGIC_SIZE);
    proof {
        assert(head@ =~= data@.take(4));
        assert([0x53u8, 0x45u8, 0x44u8, 0x32u8]@ =~= magic());
    }
    bytes_eq(head.as_slice(), &[0x53u8, 0x45u8, 0x44u8, 0x32u8])
}

/// The checks of an encrypted file's form that come before the keyfile is
/// needed: too short a file is `InvalidFormat`, one without the magic
/// number `InvalidMagicNumber`.
pub fn check_file_format(file_data: &[u8]) -> (res: Result<(), CryptoError>)
    ensures
        file_data@.len() < MIN_FILE_SIZE ==> res matches Err(CryptoError::InvalidFormat),
        (file_data@.len() >= MIN_FILE_SIZE && file_data@.take(MAGIC_SIZE as int) != magic())
            ==> res matches Err(CryptoError::InvalidMagicNumber),
        (file_data@.len() >= MIN_FILE_SIZE && file_data@.take(MAGIC_SIZE as int) == magic()) ==> res is Ok,
{
    if file_data.len() < MIN_FILE_SIZE {
        return Err(CryptoError::InvalidFormat);
    }
    if !has_sen_magic(file_data) {
        return Err(CryptoError::InvalidMagicNumber);
    }
    Ok(())
}

/// The text stored in the encrypted file `file_data`, for the keyfile whose
/// content is `keyfile_content`.
pub fn decrypt_content(keyfile_content: &[u8], file_data: &[u8]) -> (res: Result<String, CryptoError>)
    ensures
        !(res matches Err(CryptoError::EncryptionError(_))),
        match decryption(keyfile_content@, file_data@) {
            Ok(text) => res matches Ok(s) && s@ == text,
            Err(f) => res matches Err(e) && reports(e, f),
        },
{
    let n = file_data.len();
    if n < MIN_FILE_SIZE {
        return Err(CryptoError::InvalidFormat);
    }
    let head = bytes_range(file_data, 0, MAGIC_SIZE);
    if !bytes_eq(head.as_slice(), &[0x53u8, 0x45u8, 0x44u8, 0x32u8]) {
        proof {
            assert(head@ =~= file_data@.take(4));
            assert([0x53u8, 0x45u8, 0x44u8, 0x32u8]@ =~= magic());
        }
        return Err(CryptoError::InvalidMagicNumber);
    }
    proof {
        assert([0x53u8, 0x45u8, 0x44u8, 0x32u8]@ =~= magic());
        assert(file_data@.take(4) =~= head@);
    }
    let hash_start = n - KEYFILE_HASH_SIZE;
    let salt_end = MAGIC_SIZE + SALT_SIZE;
    let salt = bytes_range(file_data, MAGIC_SIZE, salt_end);
    let sealed = bytes_range(file_data, salt_end, hash_start);
    let stored_hash = bytes_range(file_data, hash_start, n);
    let keyfile_hash = hash_keyfile(keyfile_content)?;
    if !bytes_eq(keyfile_hash.as_bytes(), stored_hash.as_slice()) {
        return Err(CryptoError::KeyfileError("Keyfile mismatch".to_owned()));
    }
    let key = derive_key_from_keyfile(&keyfile_hash, salt.as_slice())?;
    let plaintext = match aead_open(key.as_slice(), sealed.as_slice()) {
        Ok(p) => p,
        Err(_) => return Err(CryptoError::DecryptionFailed),
    };
    match utf8_to_string(plaintext) {
        Ok(s) => Ok(s),
        Err(_) => Err(CryptoError::InvalidFormat),
    }
}

/// Whether the encrypted file `file_data` was written for the keyfile whose
/// hash is `keyfile_hash`, read from the hash the file stores: a file too
/// short to be one is refused as `InvalidFormat`, one without the magic
/// number as `InvalidMagicNumber`.
pub fn check_key_compatibility(keyfile_hash: &KeyfileHash, file_data: &[u8]) -> (res: Result<bool, CryptoError>)
    ensures
        file_data@.len() < MIN_FILE_SIZE ==> res matches Err(CryptoError::InvalidFormat),
        (file_data@.len() >= MIN_FILE_SIZE && file_data@.take(MAGIC_SIZE as int) != magic())
            ==> res matches Err(CryptoError::InvalidMagicNumber),
        (file_data@.len() >= MIN_FILE_SIZE && file_data@.take(MAGIC_SIZE as int) == magic())
            ==> (res matches Ok(b) && b == (file_hash(file_data@) == keyfile_hash.hash@)),
{
    let n = file_data.len();
    if n < MIN_FILE_SIZE {
        return Err(CryptoError::InvalidFormat);
    }
    let head = bytes_range(file_data, 0, MAGIC_SIZE);
    proof {
        assert([0x53u8, 0x45u8, 0x44u8, 0x32u8]@ =~= magic());
        assert(head@ =~= file_data@.take(4));
    }
    if !bytes_eq(head.as_slice(), &[0x53u8, 0x45u8, 0x44u8, 0x32u8]) {
        return Err(CryptoError::InvalidMagicNumber);
    }
    let stored_hash = bytes_range(file_data, n - KEYFILE_HASH_SIZE, n);
    Ok(bytes_eq(keyfile_hash.as_bytes(), stored_hash.as_slice()))
}

/// A file that decrypts with a keyfile was written for it: its stored hash
/// is the keyfile's.
pub proof fn lemma_decryptable_is_compatible(keyfile: Seq<u8>, data: Seq<u8>)
    requires
        decryption(keyfile, data) is Ok,
    ensures
        data.len() >= MIN_FILE_SIZE,
        data.take(MAGIC_SIZE as int) == magic(),
        file_hash(data) == sha256(keyfile),
{
}

/// A character takes at least one byte in UTF-8.
pub proof fn lemma_utf8_len_at_least(s: Seq<char>)
    ensures
        encode_utf8(s).len() >= s.len(),
    decreases s.len(),
{
    if s.len() > 0 {
        lemma_utf8_len_at_least(s.drop_first());
    }
}

/// A character takes at most four bytes in UTF-8.
pub proof fn lemma_utf8_len_bound(s: Seq<char>)
    ensures
        encode_utf8(s).len() <= 4 * s.len(),
    decreases s.len(),
{
    if s.len() > 0 {
        lemma_utf8_len_bound(s.drop_first());
    }
}

/// Decrypting what encryption wrote gives the text back: a file laid out with
/// a salt, data that opens to the text's bytes under the key derived from the
/// keyfile's hash and that salt, and that hash, decrypts to the text with that keyfile.
pub proof fn lemma_encrypt_then_decrypt(keyfile: Seq<u8>, text: Seq<char>, salt: Seq<u8>, sealed: Seq<u8>)
    requires
        keyfile.len() > 0,
        salt.len() == SALT_SIZE,
        sha256(keyfile).len() == KEYFILE_HASH_SIZE,
        sealed.len() >= SEAL_OVERHEAD,
        file_key(sha256(keyfile), salt) matches Some(key)
            && aead_open_result(key, sealed) == Some(encode_utf8(text)),
    ensures
        decryption(keyfile, file_layout(salt, sealed, sha256(keyfile))) == Ok::<Seq<char>, DecryptFailure>(text),
{
    let data = file_layout(salt, sealed, sha256(keyfile));
    assert(data.take(4) =~= magic());
    assert(file_salt(data) =~= salt);
    assert(file_sealed(data) =~= sealed);
    assert(file_hash(data) =~= sha256(keyfile));
}

/// A file that `encrypt_content` wrote for one keyfile is refused, as a
/// keyfile mismatch, by any non-empty keyfile that hashes differently: its
/// text is only recovered with a keyfile that hashes like the first.
pub proof fn lemma_encrypted_refuses_other_keyfile(k1: Seq<u8>, k2: Seq<u8>, salt: Seq<u8>, sealed: Seq<u8>, content: Seq<char>)
    requires
        salt.len() == SALT_SIZE,
        sealed.len() == encode_utf8(content).len() + SEAL_OVERHEAD,
        sha256(k1).len() == KEYFILE_HASH_SIZE,
        k2.len() > 0,
        sha256(k2) != sha256(k1),
    ensures
        decryption(k2, file_layout(salt, sealed, sha256(k1)))
            == Err::<Seq<char>, DecryptFailure>(DecryptFailure::KeyfileMismatch),
{
    let data = file_layout(salt, sealed, sha256(k1));
    assert(data.take(MAGIC_SIZE as int) =~= magic());
    assert(file_hash(data) =~= sha256(k1));
    lemma_other_keyfile_refused(k2, data);
}

/// A keyfile whose hash differs from the one a file stores is refused before any decryption.
pub proof fn lemma_other_keyfile_refused(keyfile: Seq<u8>, data: Seq<u8>)
    requires
        data.len() >= MIN_FILE_SIZE,
        data.take(MAGIC_SIZE as int) == magic(),
        keyfile.len() > 0,
        sha256(keyfile) != file_hash(data),
    ensures
        decryption(keyfile, data) == Err::<Seq<char>, DecryptFailure>(DecryptFailure::KeyfileMismatch),
{
}

} // verus!
