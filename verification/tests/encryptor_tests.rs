use base64::Engine;
use daps::encryptor::{decrypt_value, encrypt_value, DecodeError, Encryptor};
use sha2::Digest;

#[test]
fn disabled_encode_is_identity() {
    let enc = Encryptor::new(false, "unused".to_string());
    assert_eq!(encrypt_value(&enc, "hello"), "hello");
    assert_eq!(decrypt_value(&enc, "hello"), "hello");
    assert_eq!(decrypt_value(&enc, "!!!not base64!!!"), "!!!not base64!!!");
}

#[test]
fn enabled_roundtrip_recovers_plaintext() {
    let enc = Encryptor::new(true, "passphrase".to_string());
    for value in ["s3cr3t", "", "a longer value with spaces", "h\u{e9}llo \u{2192} world"] {
        let blob = encrypt_value(&enc, value);
        assert_ne!(blob, value);
        assert_eq!(enc.decrypt(&blob), Ok(value.to_string()));
        assert_eq!(decrypt_value(&enc, &blob), value);
    }
}

#[test]
fn encryption_draws_fresh_nonces() {
    let enc = Encryptor::new(true, "passphrase".to_string());
    let a = encrypt_value(&enc, "same value");
    let b = encrypt_value(&enc, "same value");
    assert_ne!(a, b);
    assert_eq!(decrypt_value(&enc, &a), "same value");
    assert_eq!(decrypt_value(&enc, &b), "same value");
}

#[test]
fn blob_is_base64_of_nonce_and_ciphertext() {
    let enc = Encryptor::new(true, "passphrase".to_string());
    let blob = encrypt_value(&enc, "abc");
    let raw = base64::engine::general_purpose::STANDARD
        .decode(&blob)
        .expect("blob is valid base64");
    // 12-byte nonce, 3 bytes of ciphertext, 16-byte tag
    assert_eq!(raw.len(), 12 + 3 + 16);
}

#[test]
fn legacy_wrapper_returns_inner_text() {
    let enc = Encryptor::new(true, "passphrase".to_string());
    assert_eq!(enc.decrypt("encrypted(plain-old)"), Ok("plain-old".to_string()));
    assert_eq!(decrypt_value(&enc, "encrypted()"), "");
}

#[test]
fn non_base64_input_gives_invalid_encoding() {
    let enc = Encryptor::new(true, "passphrase".to_string());
    assert_eq!(enc.decrypt("*** definitely not base64 ***"), Err(DecodeError::InvalidEncoding));
    assert_eq!(
        decrypt_value(&enc, "*** definitely not base64 ***"),
        "decryption error: invalid base64"
    );
}

#[test]
fn short_payload_gives_payload_too_short() {
    let enc = Encryptor::new(true, "passphrase".to_string());
    // "AAAA" decodes to three zero bytes, shorter than the 12-byte nonce
    assert_eq!(enc.decrypt("AAAA"), Err(DecodeError::PayloadTooShort));
    assert_eq!(decrypt_value(&enc, "AAAA"), "decryption error: data too short");
    // the empty string is valid base64 of the empty payload
    assert_eq!(enc.decrypt(""), Err(DecodeError::PayloadTooShort));
}

#[test]
fn tampered_ciphertext_gives_authentication_failed() {
    let enc = Encryptor::new(true, "passphrase".to_string());
    let blob = encrypt_value(&enc, "sensitive");
    let mut raw = base64::engine::general_purpose::STANDARD.decode(&blob).unwrap();
    let last = raw.len() - 1;
    raw[last] ^= 0x01;
    let tampered = base64::engine::general_purpose::STANDARD.encode(&raw);
    assert_eq!(enc.decrypt(&tampered), Err(DecodeError::AuthenticationFailed));
    assert_eq!(decrypt_value(&enc, &tampered), "decryption error: authentication failed");
}

#[test]
fn wrong_passphrase_gives_authentication_failed() {
    let writer = Encryptor::new(true, "right key".to_string());
    let reader = Encryptor::new(true, "wrong key".to_string());
    let blob = encrypt_value(&writer, "value");
    assert_eq!(reader.decrypt(&blob), Err(DecodeError::AuthenticationFailed));
}

#[test]
fn non_utf8_plaintext_gives_invalid_text() {
    // seal bytes that are not valid UTF-8 under the same key derivation and
    // framing the encryptor uses
    let passphrase = "passphrase";
    let key_bytes = sha2::Sha256::digest(passphrase.as_bytes());
    let cipher =
        <aes_gcm::Aes256Gcm as aes_gcm::KeyInit>::new_from_slice(&key_bytes).expect("key size");
    let nonce_bytes = [7u8; 12];
    let nonce = aes_gcm::Nonce::from_slice(&nonce_bytes);
    let bad_text: &[u8] = &[0xff, 0xfe, 0xfd];
    let sealed = aes_gcm::aead::Aead::encrypt(&cipher, nonce, bad_text).unwrap();
    let mut raw = nonce_bytes.to_vec();
    raw.extend_from_slice(&sealed);
    let blob = base64::engine::general_purpose::STANDARD.encode(&raw);

    let enc = Encryptor::new(true, passphrase.to_string());
    assert_eq!(enc.decrypt(&blob), Err(DecodeError::InvalidText));
    assert_eq!(decrypt_value(&enc, &blob), "decryption error: invalid utf8");
}

#[test]
fn sentinel_messages_are_distinct() {
    let msgs = [
        DecodeError::InvalidEncoding.message(),
        DecodeError::PayloadTooShort.message(),
        DecodeError::AuthenticationFailed.message(),
        DecodeError::InvalidText.message(),
    ];
    for i in 0..msgs.len() {
        for j in 0..msgs.len() {
            if i != j {
                assert_ne!(msgs[i], msgs[j]);
            }
        }
    }
}
