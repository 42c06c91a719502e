use donutdb::crypto::{decrypt_data, derive_key, encrypt_data, open_blob, seal_with_nonce};
use donutdb::error::CoreError;

#[test]
fn derive_key_is_sha256_of_token() {
    let k = derive_key("abc");
    let expected: [u8; 32] = [
        0xba, 0x78, 0x16, 0xbf, 0x8f, 0x01, 0xcf, 0xea, 0x41, 0x41, 0x40, 0xde, 0x5d, 0xae, 0x22,
        0x23, 0xb0, 0x03, 0x61, 0xa3, 0x96, 0x17, 0x7a, 0x9c, 0xb4, 0x10, 0xff, 0x61, 0xf2, 0x00,
        0x15, 0xad,
    ];
    assert_eq!(k, expected);
    assert_eq!(derive_key("abc"), derive_key("abc"));
    assert_ne!(derive_key("abc"), derive_key("abd"));
}

#[test]
fn encrypt_then_decrypt_gives_plaintext() {
    for p in ["", "hello", "1\n2\n", "ünïcødé"] {
        let blob = encrypt_data(p, "key1").unwrap();
        assert_eq!(blob.len(), 12 + p.len() + 16);
        assert_eq!(decrypt_data(&blob, "key1"), Ok(p.to_string()));
    }
}

#[test]
fn encrypt_uses_fresh_nonces() {
    let a = encrypt_data("same", "key1").unwrap();
    let b = encrypt_data("same", "key1").unwrap();
    assert_ne!(a[..12], b[..12]);
}

#[test]
fn wrong_token_fails_to_decrypt() {
    let blob = encrypt_data("secret", "tokenA").unwrap();
    assert_eq!(decrypt_data(&blob, "tokenB"), Err(CoreError::DecryptionFailed));
}

#[test]
fn any_flipped_bit_fails_to_decrypt() {
    let blob = encrypt_data("data", "key1").unwrap();
    for i in 0..blob.len() {
        for bit in 0..8 {
            let mut t = blob.clone();
            t[i] ^= 1 << bit;
            assert_eq!(decrypt_data(&t, "key1"), Err(CoreError::DecryptionFailed));
        }
    }
}

#[test]
fn short_blob_is_invalid_format() {
    assert_eq!(decrypt_data(&[0u8; 11], "key1"), Err(CoreError::InvalidFormat));
    assert_eq!(decrypt_data(&[], "key1"), Err(CoreError::InvalidFormat));
    assert_eq!(decrypt_data(&[0u8; 12], "key1"), Err(CoreError::DecryptionFailed));
}

#[test]
fn seal_with_nonce_puts_nonce_in_front() {
    let nonce = [7u8; 12];
    let out = seal_with_nonce(b"abc", "key1", nonce).unwrap();
    assert_eq!(out.len(), 12 + 3 + 16);
    assert_eq!(out[..12], nonce);
    assert_ne!(out[12..15], *b"abc");
    assert_eq!(seal_with_nonce(b"abc", "key1", nonce).unwrap(), out);
    assert_eq!(open_blob(&out, "key1"), Ok(b"abc".to_vec()));
}

#[test]
fn non_text_plaintext_is_invalid_encoding() {
    let out = seal_with_nonce(&[0xff, 0xfe], "key1", [1u8; 12]).unwrap();
    assert_eq!(open_blob(&out, "key1"), Ok(vec![0xff, 0xfe]));
    assert_eq!(decrypt_data(&out, "key1"), Err(CoreError::InvalidEncoding));
}

#[test]
fn blob_length_is_nonce_plus_text_plus_tag() {
    assert_eq!(encrypt_data("", "key1").unwrap().len(), 28);
    assert_eq!(encrypt_data("hello", "key1").unwrap().len(), 33);
    let blob = seal_with_nonce(b"hello", "key1", [3u8; 12]).unwrap();
    assert_eq!(blob.len(), 33);
    assert_eq!(decrypt_data(&blob, "key1").unwrap().len() + 28, blob.len());
}
