use aes_gcm::aead::{Aead, KeyInit};
use aes_gcm::{Aes256Gcm, Key, Nonce};
use rustchatpro::base64::{base64_decode, base64_encode};
use rustchatpro::crypto::{decrypt, encrypt, encrypt_with_nonce, CryptoError, RoomKey};

#[test]
fn test_encrypt_decrypt_roundtrip() {
    let key = RoomKey::generate();
    let plaintext = "Hello RustChatPro!";

    let encrypted = encrypt(plaintext, &key).expect("encryption should succeed");

    assert_ne!(encrypted, plaintext);

    let decrypted = decrypt(&encrypted, &key).expect("decryption should succeed");

    assert_eq!(decrypted, plaintext);
}

#[test]
fn test_different_nonces() {
    let key = RoomKey::generate();
    let msg = "same message";

    let enc1 = encrypt(msg, &key).unwrap();
    let enc2 = encrypt(msg, &key).unwrap();

    assert_ne!(enc1, enc2, "same message should encrypt differently each time");
}

#[test]
fn test_wrong_key_fails() {
    let key1 = RoomKey::generate();
    let key2 = RoomKey::generate();

    let encrypted = encrypt("secret", &key1).unwrap();
    let result = decrypt(&encrypted, &key2);

    assert!(result.is_err(), "wrong key should fail to decrypt");
}

#[test]
fn test_room_key_hex_roundtrip() {
    let key = RoomKey::generate();
    let hex = key.to_hex();
    let key2 = RoomKey::from_hex(&hex).expect("hex roundtrip should work");

    assert_eq!(key.bytes, key2.bytes, "key should survive hex roundtrip");
}

#[test]
fn test_encrypt_empty_string() {
    let key = RoomKey::generate();
    let encrypted = encrypt("", &key).expect("should encrypt empty string");
    let decrypted = decrypt(&encrypted, &key).expect("should decrypt empty string");
    assert_eq!(decrypted, "");
}

#[test]
fn test_encrypt_long_message() {
    let key = RoomKey::generate();
    let long = "a".repeat(10000);
    let enc = encrypt(&long, &key).unwrap();
    let dec = decrypt(&enc, &key).unwrap();
    assert_eq!(dec, long);
}

#[test]
fn base64_known_vectors() {
    assert_eq!(base64_encode(b""), "");
    assert_eq!(base64_encode(b"f"), "Zg==");
    assert_eq!(base64_encode(b"fo"), "Zm8=");
    assert_eq!(base64_encode(b"foo"), "Zm9v");
    assert_eq!(base64_encode(b"foob"), "Zm9vYg==");
    assert_eq!(base64_encode(b"fooba"), "Zm9vYmE=");
    assert_eq!(base64_encode(b"foobar"), "Zm9vYmFy");
    assert_eq!(base64_encode(&[0xff, 0xfe, 0xfd]), "//79");
}

#[test]
fn base64_decodes_known_vectors() {
    assert_eq!(base64_decode("Zm9vYmFy").unwrap(), b"foobar".to_vec());
    assert_eq!(base64_decode("Zm9vYg==").unwrap(), b"foob".to_vec());
    assert_eq!(base64_decode("Zm8=").unwrap(), b"fo".to_vec());
    assert_eq!(base64_decode("").unwrap(), Vec::<u8>::new());
}

#[test]
fn base64_decode_is_lenient() {
    // missing padding, extra padding, a lone trailing symbol
    assert_eq!(base64_decode("Zg").unwrap(), vec![0x66]);
    assert_eq!(base64_decode("Zm9v====").unwrap(), b"foo".to_vec());
    assert_eq!(base64_decode("Zm9vY").unwrap(), b"foo".to_vec());
    // a third symbol outside the alphabet is skipped
    assert_eq!(base64_decode("Zm!v").unwrap(), vec![0x66, 0xef]);
}

#[test]
fn base64_decode_rejects_bad_leading_symbols() {
    assert_eq!(base64_decode("!!!!"), Err(CryptoError::InvalidBase64));
    assert_eq!(base64_decode("Zm9v=m9v"), Err(CryptoError::InvalidBase64));
}

#[test]
fn base64_roundtrip_all_lengths() {
    for n in 0..40usize {
        let data: Vec<u8> = (0..n).map(|i| (i * 37 + 11) as u8).collect();
        let text = base64_encode(&data);
        assert_eq!(base64_decode(&text).unwrap(), data);
    }
}

#[test]
fn hex_is_lowercase_two_digits() {
    let key = RoomKey { bytes: vec![0x00, 0x0a, 0xff, 0x10] };
    assert_eq!(key.to_hex(), "000aff10");
}

#[test]
fn hex_reads_both_cases_and_plus_sign() {
    assert_eq!(RoomKey::from_hex("0aFF").unwrap().bytes, vec![0x0a, 0xff]);
    assert_eq!(RoomKey::from_hex("+f").unwrap().bytes, vec![0x0f]);
    assert_eq!(RoomKey::from_hex("").unwrap().bytes, Vec::<u8>::new());
    assert_eq!(RoomKey::from_hex("zz").unwrap_err(), CryptoError::InvalidHex);
    assert_eq!(RoomKey::from_hex("-1").unwrap_err(), CryptoError::InvalidHex);
    // the error comes before the odd last digit is read
    assert_eq!(RoomKey::from_hex("0g1").unwrap_err(), CryptoError::InvalidHex);
}

#[test]
fn encrypt_with_nonce_puts_nonce_first() {
    let key = RoomKey { bytes: vec![7u8; 32] };
    let nonce = [0u8; 12];
    let text = encrypt_with_nonce("hi", &key, &nonce).unwrap();
    let raw = base64_decode(&text).unwrap();
    assert_eq!(raw.len(), 12 + 2 + 16);
    assert_eq!(&raw[..12], &nonce);
    assert_eq!(decrypt(&text, &key).unwrap(), "hi");
    // same nonce, same key, same text: same wire text
    assert_eq!(encrypt_with_nonce("hi", &key, &nonce).unwrap(), text);
}

#[test]
fn aes_gcm_known_answer() {
    // AES-256-GCM, zero key, zero nonce, empty plaintext: the tag is
    // 530f8afbc74536b9a963b4f1c4cb738b.
    let key = RoomKey { bytes: vec![0u8; 32] };
    let nonce = [0u8; 12];
    let text = encrypt_with_nonce("", &key, &nonce).unwrap();
    let raw = base64_decode(&text).unwrap();
    let tag: Vec<u8> = raw[12..].to_vec();
    let hex = RoomKey { bytes: tag }.to_hex();
    assert_eq!(hex, "530f8afbc74536b9a963b4f1c4cb738b");
}

#[test]
fn decrypt_errors() {
    let key = RoomKey::generate();
    assert_eq!(decrypt("AAAA", &key), Err(CryptoError::DataTooShort));
    assert_eq!(decrypt("!!!!", &key), Err(CryptoError::InvalidBase64));
    let other = RoomKey::generate();
    let enc = encrypt("secret", &other).unwrap();
    assert_eq!(decrypt(&enc, &key), Err(CryptoError::DecryptionFailed));
}

#[test]
fn decrypt_reports_bad_text_before_using_the_key() {
    let short = RoomKey { bytes: vec![1, 2, 3] };
    assert_eq!(decrypt("AAAA", &short), Err(CryptoError::DataTooShort));
    assert_eq!(decrypt("!!!!", &short), Err(CryptoError::InvalidBase64));
}

#[test]
fn sealed_text_length() {
    let key = RoomKey { bytes: vec![3u8; 32] };
    for n in [0usize, 1, 2, 3, 17, 100] {
        let text = "x".repeat(n);
        let enc = encrypt(&text, &key).unwrap();
        assert_eq!(base64_decode(&enc).unwrap().len(), 12 + n + 16);
        assert_eq!(enc.len(), 4 * ((n + 28 + 2) / 3));
    }
}

#[test]
fn error_messages_match() {
    assert_eq!(CryptoError::EncryptionFailed.message(), "Encryption failed: aead::Error");
    assert_eq!(CryptoError::InvalidBase64.message(), "Invalid base64");
    assert_eq!(CryptoError::DataTooShort.message(), "Data too short");
    assert_eq!(CryptoError::InvalidHex.message(), "Invalid hex: invalid digit found in string");
}

#[test]
fn generated_keys_have_32_bytes() {
    let key = RoomKey::generate();
    assert_eq!(key.bytes.len(), 32);
    assert_eq!(key.to_hex().len(), 64);
}

#[test]
fn decrypt_reports_where_utf8_breaks() {
    let kb = vec![5u8; 32];
    let cipher = Aes256Gcm::new(Key::<Aes256Gcm>::from_slice(&kb));
    let nonce = [0u8; 12];
    let sealed = cipher.encrypt(Nonce::from_slice(&nonce), &[b'o', b'k', 0xff][..]).unwrap();
    let mut wire = nonce.to_vec();
    wire.extend(sealed);
    let text = base64_encode(&wire);
    let err = decrypt(&text, &RoomKey { bytes: kb }).unwrap_err();
    assert_eq!(err, CryptoError::InvalidUtf8("invalid utf-8 sequence of 1 bytes from index 2".to_string()));
    assert_eq!(err.message(), "Invalid UTF-8: invalid utf-8 sequence of 1 bytes from index 2");
}
