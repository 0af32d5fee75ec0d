use base64::Engine;
use sen::config_crypto::{config_key_from_file, config_key_or_new, decrypt_keyfile_path, encrypt_keyfile_path, ConfigCryptoError};
use sen::app_state::{access_status, KeyStatus};
use sen::crypto::{
    check_file_format, has_sen_magic, check_key_compatibility, decrypt_content, derive_key_from_keyfile, encrypt_content, generate_keyfile_bytes, hash_keyfile, CryptoError,
    KeyfileHash,
};
use sha2::Digest;

#[test]
fn test_keyfile_encrypt_decrypt() {
    let keyfile = generate_keyfile_bytes();
    let content = "Test content";

    let data = encrypt_content(content, &keyfile).unwrap();
    let decrypted = decrypt_content(&keyfile, &data).unwrap();

    assert_eq!(content, decrypted);
}

#[test]
fn encrypted_file_layout() {
    let keyfile = vec![7u8; 256];
    let content = "héllo";
    let data = encrypt_content(content, &keyfile).unwrap();
    assert_eq!(&data[0..4], b"SED2");
    assert_eq!(data.len(), 4 + 32 + content.len() + 40 + 32);
    let hash = sha2::Sha256::digest(&keyfile);
    assert_eq!(&data[data.len() - 32..], hash.as_slice());
    assert_eq!(hash_keyfile(&keyfile).unwrap().as_bytes(), hash.as_slice());
    assert_eq!(decrypt_content(&keyfile, &data).unwrap(), content);
}

#[test]
fn keyfile_generation_and_hash() {
    let a = generate_keyfile_bytes();
    let b = generate_keyfile_bytes();
    assert_eq!(a.len(), 256);
    assert_eq!(b.len(), 256);
    let h = KeyfileHash::from_slice(&[3u8; 32]);
    assert_eq!(h.as_bytes(), &[3u8; 32]);
    match hash_keyfile(&[]) {
        Err(CryptoError::KeyfileError(m)) => assert_eq!(m, "Keyfile is empty"),
        _ => panic!("an empty keyfile must be refused"),
    }
}

#[test]
fn derived_keys_are_repeatable() {
    let h = hash_keyfile(b"secret").unwrap();
    let salt = [9u8; 32];
    let k1 = derive_key_from_keyfile(&h, &salt).unwrap();
    let k2 = derive_key_from_keyfile(&h, &salt).unwrap();
    assert_eq!(k1.len(), 32);
    assert_eq!(k1, k2);
    let other = derive_key_from_keyfile(&h, &[8u8; 32]).unwrap();
    assert_ne!(k1, other);
}

#[test]
fn decrypt_errors() {
    let keyfile = vec![1u8; 64];
    let data = encrypt_content("some text", &keyfile).unwrap();

    assert!(matches!(decrypt_content(&keyfile, &data[..107]), Err(CryptoError::InvalidFormat)));

    let mut bad_magic = data.clone();
    bad_magic[0] = b'X';
    assert!(matches!(decrypt_content(&keyfile, &bad_magic), Err(CryptoError::InvalidMagicNumber)));

    match decrypt_content(&[], &data) {
        Err(CryptoError::KeyfileError(m)) => assert_eq!(m, "Keyfile is empty"),
        _ => panic!("an empty keyfile must be refused"),
    }

    match decrypt_content(&[2u8; 64], &data) {
        Err(CryptoError::KeyfileError(m)) => assert_eq!(m, "Keyfile mismatch"),
        _ => panic!("another keyfile must be refused"),
    }

    let mut tampered = data.clone();
    tampered[40] ^= 0xFF;
    assert!(matches!(decrypt_content(&keyfile, &tampered), Err(CryptoError::DecryptionFailed)));
}

#[test]
fn encrypt_errors() {
    match encrypt_content("text", &[]) {
        Err(CryptoError::KeyfileError(m)) => assert_eq!(m, "Keyfile is empty"),
        _ => panic!("an empty keyfile must be refused"),
    }
    assert!(matches!(encrypt_content("", &[5u8; 16]), Err(CryptoError::EncryptionError(_))));
}

#[test]
fn error_messages() {
    assert_eq!(CryptoError::InvalidFormat.message(), "Invalid file format - not a SED file");
    assert_eq!(CryptoError::InvalidMagicNumber.message(), "Invalid magic number");
    assert_eq!(CryptoError::DecryptionFailed.message(), "Decryption failed - wrong keyfile");
    assert_eq!(CryptoError::KeyfileError("Keyfile mismatch".to_string()).message(), "Keyfile Error: Keyfile mismatch");
    let io = CryptoError::IoError(std::io::Error::new(std::io::ErrorKind::Other, "disk full"));
    assert_eq!(io.message(), "IO Error: disk full");
    match encrypt_content("", &[5u8; 16]) {
        Err(e) => assert_eq!(e.message(), "Encryption Error: UnknownCryptoError"),
        Ok(_) => panic!("empty content cannot be sealed"),
    }
}

#[test]
fn protected_path_roundtrip() {
    let key = [4u8; 32];
    let sealed = encrypt_keyfile_path(&key, "/home/me/key.bin").unwrap();
    assert!(sealed.contains(':'));
    assert_ne!(sealed, "/home/me/key.bin");
    assert_eq!(decrypt_keyfile_path(&key, &sealed).unwrap(), "/home/me/key.bin");
    let again = encrypt_keyfile_path(&key, "/home/me/key.bin").unwrap();
    assert_eq!(decrypt_keyfile_path(&key, &again).unwrap(), "/home/me/key.bin");
}

#[test]
fn protected_path_errors() {
    let key = [4u8; 32];
    assert!(matches!(decrypt_keyfile_path(&key, "no separator here"), Err(ConfigCryptoError::MissingSeparator)));
    assert!(matches!(decrypt_keyfile_path(&key, "!!!:AAAA"), Err(ConfigCryptoError::Base64(_))));
    assert!(matches!(decrypt_keyfile_path(&key, "AAAA:AAAA"), Err(ConfigCryptoError::InvalidNonceLength(3))));
    let sealed = encrypt_keyfile_path(&key, "path").unwrap();
    assert!(matches!(decrypt_keyfile_path(&[5u8; 32], &sealed), Err(ConfigCryptoError::Cipher(_))));
}

#[test]
fn config_key_file_length() {
    assert_eq!(config_key_from_file(&[1u8; 32]), Some([1u8; 32]));
    assert_eq!(config_key_from_file(&[1u8; 31]), None);
    assert_eq!(config_key_from_file(&[1u8; 33]), None);
}

#[test]
fn key_compatibility_and_status() {
    let keyfile = vec![3u8; 40];
    let data = encrypt_content("x", &keyfile).unwrap();
    let right = hash_keyfile(&keyfile).unwrap();
    let wrong = hash_keyfile(&[4u8; 40]).unwrap();

    let ok = check_key_compatibility(&right, &data);
    assert!(matches!(ok, Ok(true)));
    assert_eq!(access_status(&ok), KeyStatus::Decryptable);

    let other = check_key_compatibility(&wrong, &data);
    assert!(matches!(other, Ok(false)));
    assert_eq!(access_status(&other), KeyStatus::WrongKey);

    let mut plain = data.clone();
    plain[1] = b'x';
    let not_sen = check_key_compatibility(&right, &plain);
    assert!(matches!(not_sen, Err(CryptoError::InvalidMagicNumber)));
    assert_eq!(access_status(&not_sen), KeyStatus::NotSen);

    let short = check_key_compatibility(&right, &data[..50]);
    assert!(matches!(short, Err(CryptoError::InvalidFormat)));
    assert_eq!(access_status(&short), KeyStatus::WrongKey);
}

#[test]
fn config_key_kept_or_made() {
    let stored = [7u8; 32];
    assert_eq!(config_key_or_new(Some(&stored)), (stored, false));
    let (a, fresh_a) = config_key_or_new(Some(&[1u8; 5]));
    assert!(fresh_a);
    let (b, fresh_b) = config_key_or_new(None);
    assert!(fresh_b);
    assert_ne!(a, b);
    assert_eq!(config_key_or_new(Some(&b)), (b, false));
}

#[test]
fn error_conversions() {
    let io: CryptoError = std::io::Error::new(std::io::ErrorKind::NotFound, "gone").into();
    assert!(matches!(io, CryptoError::IoError(_)));
    let inner = match encrypt_content("", &[1u8]) {
        Err(CryptoError::EncryptionError(e)) => e,
        _ => panic!("empty content cannot be sealed"),
    };
    let wrapped: CryptoError = inner.into();
    assert!(matches!(wrapped, CryptoError::EncryptionError(_)));
}

#[test]
fn protected_path_error_texts() {
    let key = [0u8; 32];
    let e = decrypt_keyfile_path(&key, "AAAA:AAAA").unwrap_err();
    assert_eq!(e.message(), "Invalid nonce length: 3 (expected 12)");
    let e = decrypt_keyfile_path(&key, "no separator").unwrap_err();
    assert_eq!(e.message(), "Invalid encrypted format: missing ':' separator");
    let sealed = encrypt_keyfile_path(&key, "p").unwrap();
    let e = decrypt_keyfile_path(&[1u8; 32], &sealed).unwrap_err();
    assert_eq!(e.message(), "AES-GCM decryption failed (wrong key or corrupted data)");
    let e = decrypt_keyfile_path(&key, "!!!:AAAA").unwrap_err();
    assert!(!e.message().is_empty());
}

#[test]
fn protected_path_layout() {
    let key = [9u8; 32];
    let sealed = encrypt_keyfile_path(&key, "abc").unwrap();
    let (n, c) = sealed.split_once(':').unwrap();
    let engine = base64::engine::general_purpose::STANDARD;
    assert_eq!(engine.decode(n).unwrap().len(), 12);
    assert_eq!(engine.decode(c).unwrap().len(), 3 + 16);
}

#[test]
fn file_form_is_checked_before_the_keyfile() {
    let mut data = vec![0x53u8, 0x45, 0x44, 0x32];
    assert!(has_sen_magic(&data));
    assert!(!has_sen_magic(b"SED"));
    assert!(!has_sen_magic(b"PLAIN TEXT"));
    assert!(matches!(check_file_format(&data), Err(CryptoError::InvalidFormat)));
    data.resize(108, 0);
    assert!(check_file_format(&data).is_ok());
    data[0] = b'X';
    assert!(matches!(check_file_format(&data), Err(CryptoError::InvalidMagicNumber)));
}

#[test]
fn encryption_succeeds_for_any_text_and_keyfile() {
    for text in ["a", "zażółć", "line\nline"] {
        let data = encrypt_content(text, b"k").unwrap();
        assert_eq!(decrypt_content(b"k", &data).unwrap(), text);
        assert!(matches!(decrypt_content(b"other", &data), Err(CryptoError::KeyfileError(_))));
    }
}
