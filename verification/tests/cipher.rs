use aes_gcm::aead::{Aead, KeyInit};
use aes_gcm::{Aes256Gcm, Key, Nonce};
use secure_notes::cipher::{decrypt_data, encrypt_data, seal_with_nonce, SecretKey};
use secure_notes::error::NoteError;

fn key(fill: u8) -> SecretKey {
    SecretKey::from_bytes(&[fill; 32]).unwrap()
}

#[test]
fn key_needs_exactly_32_bytes() {
    assert!(SecretKey::from_bytes(&[1u8; 31]).is_none());
    assert!(SecretKey::from_bytes(&[1u8; 33]).is_none());
    assert!(SecretKey::from_bytes(&[]).is_none());
    let k = SecretKey::from_bytes(&[7u8; 32]).unwrap();
    assert_eq!(k.as_bytes(), &[7u8; 32][..]);
}

#[test]
fn seal_then_open_gives_the_text_back() {
    let k = key(42);
    for text in ["", "a", "Buy Milk", "catatan rahasia", "h\u{e9}llo w\u{f6}rld \u{1f600}"] {
        let blob = encrypt_data(text, &k).unwrap();
        assert_eq!(blob.len(), 12 + text.len() + 16);
        assert_eq!(decrypt_data(&blob, &k).unwrap(), text);
    }
}

#[test]
fn two_seals_of_one_text_differ() {
    let k = key(42);
    let a = encrypt_data("same", &k).unwrap();
    let b = encrypt_data("same", &k).unwrap();
    assert_ne!(a, b);
    assert_ne!(a[..12], b[..12]);
}

#[test]
fn blob_starts_with_the_nonce() {
    let k = key(9);
    let nonce = [3u8; 12];
    let blob = seal_with_nonce("hello", &k, &nonce).unwrap();
    assert_eq!(&blob[..12], &nonce[..]);
    assert_eq!(blob.len(), 12 + 5 + 16);
    assert_ne!(&blob[12..17], b"hello");
    assert_eq!(decrypt_data(&blob, &k).unwrap(), "hello");
}

#[test]
fn sealing_with_a_given_nonce_is_repeatable() {
    let k = key(9);
    let nonce = [5u8; 12];
    let a = seal_with_nonce("hello", &k, &nonce).unwrap();
    let b = seal_with_nonce("hello", &k, &nonce).unwrap();
    assert_eq!(a, b);
}

#[test]
fn known_answer_for_the_empty_text() {
    // AES-256-GCM, all-zero key and nonce, empty plaintext: the tag alone.
    let k = key(0);
    let blob = seal_with_nonce("", &k, &[0u8; 12]).unwrap();
    let tag: [u8; 16] = [
        0x53, 0x0f, 0x8a, 0xfb, 0xc7, 0x45, 0x36, 0xb9, 0xa9, 0x63, 0xb4, 0xf1, 0xc4, 0xcb, 0x73,
        0x8b,
    ];
    assert_eq!(&blob[12..], &tag[..]);
}

#[test]
fn nonce_of_wrong_length_is_refused() {
    let k = key(9);
    assert_eq!(seal_with_nonce("x", &k, &[0u8; 11]), Err(NoteError::Encryption));
    assert_eq!(seal_with_nonce("x", &k, &[0u8; 13]), Err(NoteError::Encryption));
}

#[test]
fn every_flipped_bit_is_detected() {
    let k = key(42);
    let blob = encrypt_data("Buy Milk", &k).unwrap();
    for i in 0..blob.len() {
        for bit in 0..8 {
            let mut bad = blob.clone();
            bad[i] ^= 1 << bit;
            assert_eq!(decrypt_data(&bad, &k), Err(NoteError::Authentication));
        }
    }
}

#[test]
fn wrong_key_is_rejected() {
    let blob = encrypt_data("secret", &key(1)).unwrap();
    assert_eq!(decrypt_data(&blob, &key(2)), Err(NoteError::Authentication));
}

#[test]
fn short_blob_is_rejected() {
    let k = key(1);
    assert_eq!(decrypt_data(&[], &k), Err(NoteError::BlobTooShort));
    assert_eq!(decrypt_data(&[0u8; 11], &k), Err(NoteError::BlobTooShort));
    // A nonce with less than a tag behind it authenticates nothing.
    assert_eq!(decrypt_data(&[0u8; 12], &k), Err(NoteError::Authentication));
    assert_eq!(decrypt_data(&[0u8; 27], &k), Err(NoteError::Authentication));
}

#[test]
fn plaintext_that_is_not_utf8_is_rejected() {
    let raw = [8u8; 32];
    let cipher = Aes256Gcm::new(Key::<Aes256Gcm>::from_slice(&raw));
    let nonce = [1u8; 12];
    let ct = cipher.encrypt(Nonce::from_slice(&nonce), &[0xffu8, 0xfe][..]).unwrap();
    let mut blob = nonce.to_vec();
    blob.extend_from_slice(&ct);
    assert_eq!(decrypt_data(&blob, &key(8)), Err(NoteError::InvalidUtf8));
}
