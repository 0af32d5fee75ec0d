//! The parts of the user's preferences that are decided by rules rather than
//! read from the interface: defaults, font-name migration, and the protection
//! of the configuration file and of the paths it keeps.

use vstd::prelude::*;
use crate::crypto::{aead_open, aead_open_result, random_bytes};
use crate::bytes::{bytes_range, bytes_eq};
use crate::config_crypto::{encrypt_keyfile_path, decrypt_keyfile_path, path_decryption, PathFailure, AES_GCM_MAX_PLAINTEXT};
use vstd::utf8::encode_utf8;
use crate::strings::str_eq;

verus! {

#[verifier::external_type_specification]
#[verifier::external_body]
pub struct ExFromHexError(hex::FromHexError);

/// Where the toolbar stands.
#[derive(Debug, Clone, Copy, PartialEq, Eq, Structural)]
pub enum ToolbarPosition {
    Top,
    Left,
    Right,
}

impl Default for ToolbarPosition {
    fn default() -> (res: Self)
        ensures
            res == ToolbarPosition::Top,
    {
        ToolbarPosition::Top
    }
}

/// The interface font used when none is chosen.
pub fn default_ui_font() -> (res: String)
    ensures
        res@ == "Proportional (Default)"@,
{
    "Proportional (Default)".to_owned()
}

/// The editor font used when none is chosen.
pub fn default_editor_font() -> (res: String)
    ensures
        res@ == "Monospace (Default)"@,
{
    "Monospace (Default)".to_owned()
}

/// The current name of an interface font saved under an older name.
pub fn migrate_ui_font(name: String) -> (res: String)
    ensures
        name@ == "Proportional"@ ==> res@ == "Proportional (Default)"@,
        name@ != "Proportional"@ ==> res == name,
{
    if str_eq(name.as_str(), "Proportional") {
        default_ui_font()
    } else {
        name
    }
}

/// The current name of an editor font saved under an older name.
pub fn migrate_editor_font(name: String) -> (res: String)
    ensures
        name@ == "Monospace"@ ==> res@ == "Monospace (Default)"@,
        name@ != "Monospace"@ ==> res == name,
{
    if str_eq(name.as_str(), "Monospace") {
        default_editor_font()
    } else {
        name
    }
}

/// The magic number "SENC" that begins an encrypted configuration file.
pub open spec fn config_magic() -> Seq<u8> {
    seq![0x53u8, 0x45u8, 0x4Eu8, 0x43u8]
}

/// The sealed part of a configuration file, when the file begins with "SENC"
/// and has more than those four bytes; `None` for a plain-text file.
pub fn encrypted_config_body(content: &[u8]) -> (res: Option<Vec<u8>>)
    ensures
        (content@.len() > 4 && content@.take(4) == config_magic()) ==> (res matches Some(b) && b@ == content@.skip(4)),
        !(content@.len() > 4 && content@.take(4) == config_magic()) ==> res is None,
{
    if content.len() <= 4 {
        return None;
    }
    let head = bytes_range(content, 0, 4);
    assert([0x53u8, 0x45u8, 0x4Eu8, 0x43u8]@ =~= config_magic());
    assert(head@ =~= content@.take(4));
    if !bytes_eq(head.as_slice(), &[0x53u8, 0x45u8, 0x4Eu8, 0x43u8]) {
        return None;
    }
    let body = bytes_range(content, 4, content.len());
    assert(body@ =~= content@.skip(4));
    Some(body)
}

/// The configuration text sealed in `body` under `key`, when it opens.
pub fn open_config_body(key: &[u8], body: &[u8]) -> (res: Option<Vec<u8>>)
    ensures
        match aead_open_result(key@, body@) {
            Some(p) => res matches Some(r) && r@ == p,
            None => res is None,
        },
{
    match aead_open(key, body) {
        Ok(p) => Some(p),
        Err(_) => None,
    }
}

/// The value of a hexadecimal digit, either case; -1 for another character.
pub open spec fn hex_value(c: char) -> int {
    let v = c as u32;
    if 0x30 <= v <= 0x39 {
        v - 0x30
    } else if 0x61 <= v <= 0x66 {
        v - 0x61 + 10
    } else if 0x41 <= v <= 0x46 {
        v - 0x41 + 10
    } else {
        -1
    }
}

/// The bytes that hexadecimal `text` stands for: two digits per byte, the
/// high one first; `None` for an odd length or a character that is no digit.
pub open spec fn hex_decoded(text: Seq<char>) -> Option<Seq<u8>> {
    if text.len() % 2 == 0 && forall|i: int| 0 <= i < text.len() ==> hex_value(#[trigger] text[i]) >= 0 {
        Some(Seq::new(text.len() / 2, |k: int| (hex_value(text[2 * k]) * 16 + hex_value(text[2 * k + 1])) as u8))
    } else {
        None
    }
}

/// The lower-case hexadecimal digit for `n` (0 to 15).
pub open spec fn hex_digit(n: int) -> char {
    if n < 10 {
        (0x30 + n) as char
    } else {
        (0x61 + n - 10) as char
    }
}

/// `data` in lower-case hexadecimal, two digits per byte, the high one first.
pub open spec fn hex_encoded(data: Seq<u8>) -> Seq<char> {
    Seq::new(2 * data.len(), |i: int| hex_digit(if i % 2 == 0 { data[i / 2] as int / 16 } else { data[i / 2] as int % 16 }))
}

/// Decodes hexadecimal text (`hex::decode`): upper- and lower-case digits,
/// two per byte; an odd length or another character is an error.
#[verifier::external_body]
fn hex_decode(text: &str) -> (res: Result<Vec<u8>, hex::FromHexError>)
    ensures
        hex_decoded(text@) == match res {
            Ok(d) => Some(d@),
            Err(_) => None::<Seq<u8>>,
        },
{
    hex::decode(text)
}

/// Encodes bytes as lower-case hexadecimal (`hex::encode`).
#[verifier::external_body]
fn hex_encode(data: &[u8]) -> (res: String)
    requires
        data@.len() <= usize::MAX / 2,
    ensures
        res@ == hex_encoded(data@),
{
    hex::encode(data)
}

/// Hexadecimal text reads back as the bytes it was written from.
pub proof fn lemma_hex_roundtrip(data: Seq<u8>)
    ensures
        hex_decoded(hex_encoded(data)) == Some(data),
{
    let e = hex_encoded(data);
    assert forall|i: int| 0 <= i < e.len() implies hex_value(#[trigger] e[i]) >= 0 by {
        let b = data[i / 2] as int;
        let n: int = if i % 2 == 0 { b / 16 } else { b % 16 };
        assert(0 <= n < 16);
        lemma_hex_digit_value(n);
    }
    assert((2 * data.len()) % 2 == 0);
    let d = hex_decoded(e)->0;
    assert forall|k: int| 0 <= k < data.len() implies #[trigger] d[k] == data[k] by {
        assert((2 * k) / 2 == k && (2 * k) % 2 == 0);
        assert((2 * k + 1) / 2 == k && (2 * k + 1) % 2 == 1);
        let b = data[k] as int;
        lemma_hex_digit_value(b / 16);
        lemma_hex_digit_value(b % 16);
        assert((b / 16) * 16 + b % 16 == b) by (nonlinear_arith);
    }
    assert(d =~= data);
}

/// A digit's value is the number it was written for.
proof fn lemma_hex_digit_value(n: int)
    requires
        0 <= n < 16,
    ensures
        hex_value(hex_digit(n)) == n,
{

}

/// The key a keychain entry holds: the bytes of its text when that is
/// hexadecimal for exactly 32 bytes.
pub open spec fn kept_config_key(stored: Option<Seq<char>>) -> Option<Seq<u8>> {
    match stored {
        Some(t) => match hex_decoded(t) {
            Some(k) => if k.len() == 32 { Some(k) } else { None },
            None => None,
        },
        None => None,
    }
}

/// The configuration key held in the keychain entry `stored`, or a fresh one.
/// Returns the key and, for a fresh key, the text to store in its place;
/// that text reads back as the key.
pub fn stored_or_new_config_key(stored: Option<&str>) -> (res: (Vec<u8>, Option<String>))
    ensures
        match kept_config_key(match stored { Some(t) => Some(t@), None => None }) {
            Some(k) => res.0@ == k && res.1 is None,
            None => res.0@.len() == 32 && (res.1 matches Some(t) && hex_decoded(t@) == Some(res.0@)),
        },
{
    if let Some(text) = stored {
        if let Ok(bytes) = hex_decode(text) {
            if bytes.len() == 32 {
                return (bytes, None);
            }
        }
    }
    let key = random_bytes(32);
    let text = hex_encode(key.as_slice());
    proof { lemma_hex_roundtrip(key@); }
    (key, Some(text))
}

/// A fresh key, once its text is stored, is the key found there next time.
pub proof fn lemma_config_key_persists(key: Seq<u8>, text: Seq<char>)
    requires
        key.len() == 32,
        hex_decoded(text) == Some(key),
    ensures
        kept_config_key(Some(text)) == Some(key),
{
}

/// The in-memory path restored from its protected form `encrypted` with `key`:
/// unchanged (`current`) when there is no protected form, `None` when there
/// is no key or the form does not read back.
pub fn decrypted_path_field(encrypted: &Option<String>, key: &Option<[u8; 32]>, current: Option<String>)
    -> (res: Option<String>)
    ensures
        match (encrypted, key) {
            (None, _) => res == current,
            (Some(_), None) => res is None,
            (Some(e), Some(k)) => match path_decryption(k@, e@) {
                Ok(p) => res matches Some(r) && r@ == p,
                Err(_) => res is None,
            },
        },
{
    match encrypted {
        None => current,
        Some(e) => match key {
            None => None,
            Some(k) => match decrypt_keyfile_path(k, e.as_str()) {
                Ok(p) => Some(p),
                Err(_) => None,
            },
        },
    }
}

/// The protected form to save for the in-memory path `path` with `key`:
/// the previous one (`current`) when there is no path, no key, or sealing
/// fails, which happens only for a path of more than 2^36 bytes.
pub fn encrypted_path_field(path: &Option<String>, key: &Option<[u8; 32]>, current: Option<String>)
    -> (res: Option<String>)
    requires
        path matches Some(p) ==> p@.len() <= usize::MAX / 16,
    ensures
        (path is None || key is None) ==> res == current,
        match (path, key) {
            (Some(p), Some(k)) => if encode_utf8(p@).len() <= AES_GCM_MAX_PLAINTEXT {
                res matches Some(r) && path_decryption(k@, r@) == Ok::<Seq<char>, PathFailure>(p@)
            } else {
                res == current
            },
            _ => true,
        },
{
    match path {
        None => current,
        Some(p) => match key {
            None => current,
            Some(k) => match encrypt_keyfile_path(k, p.as_str()) {
                Ok(e) => Some(e),
                Err(_) => current,
            },
        },
    }
}

/// The keyfile a session starts with: the global keyfile when the settings
/// ask to use it, else none.
pub fn start_keyfile(use_global_keyfile: bool, global_keyfile_path: Option<String>) -> (res: Option<String>)
    ensures
        res == if use_global_keyfile { global_keyfile_path } else { None },
{
    if use_global_keyfile {
        global_keyfile_path
    } else {
        None
    }
}

} // verus!
