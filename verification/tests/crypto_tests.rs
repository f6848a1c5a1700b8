use private_diary::crypto::{
    decrypt_file_bytes, decrypt_raw, derive_key, encrypt_file_bytes, encrypt_raw, random_dek,
    random_salt, seal, unseal, CryptoError, KdfParams, KEY_LEN, NONCE_LEN, TAG_LEN,
};

// Light KDF parameters so that the tests run fast.
fn fast_params() -> KdfParams {
    KdfParams {
        m_cost: 256,
        t_cost: 1,
        p_cost: 1,
    }
}

#[test]
fn encrypt_decrypt_roundtrip() {
    let key = random_dek().unwrap();
    let msg = "今天写了第一篇加密日记 hello".as_bytes();
    let (nonce, ct) = encrypt_raw(&key, msg).unwrap();
    assert_ne!(ct.as_slice(), msg, "密文不应等于明文");
    let pt = decrypt_raw(&key, &nonce, &ct).unwrap();
    assert_eq!(pt.as_slice(), msg);
}

#[test]
fn wrong_password_fails() {
    let salt = random_salt().unwrap();
    let key_ok = derive_key(b"correct horse", &salt, &fast_params()).unwrap();
    let key_bad = derive_key(b"Tr0ub4dor", &salt, &fast_params()).unwrap();
    let (nonce, ct) = encrypt_raw(&key_ok, b"secret").unwrap();
    // A wrong key must fail to decrypt (the tag does not authenticate).
    assert!(decrypt_raw(&key_bad, &nonce, &ct).is_err());
    // The right key still decrypts.
    assert_eq!(decrypt_raw(&key_ok, &nonce, &ct).unwrap(), b"secret");
}

#[test]
fn two_tier_change_password_keeps_data() {
    let params = fast_params();
    // Wrap the DEK under the old password.
    let salt_old = random_salt().unwrap();
    let kek_old = derive_key(b"old-pass", &salt_old, &params).unwrap();
    let dek = random_dek().unwrap();
    let wrapped = seal(&kek_old, &dek).unwrap();

    // Encrypt an entry with the DEK.
    let entry = encrypt_file_bytes(&dek, "# 标题\n正文".as_bytes()).unwrap();

    // Change password: take the DEK out with the old password, wrap it again.
    let recovered = unseal(&kek_old, &wrapped).unwrap();
    assert_eq!(recovered, dek.to_vec());
    let salt_new = random_salt().unwrap();
    let kek_new = derive_key(b"new-pass", &salt_new, &params).unwrap();
    let mut dek2 = [0u8; KEY_LEN];
    dek2.copy_from_slice(&recovered);
    let rewrapped = seal(&kek_new, &dek2).unwrap();

    // The old password no longer opens the new wrapping; the new one does,
    // and old entries still open with the same DEK.
    assert!(unseal(&kek_old, &rewrapped).is_err());
    let dek_after = unseal(&kek_new, &rewrapped).unwrap();
    assert_eq!(dek_after, dek.to_vec());
    let mut dek3 = [0u8; KEY_LEN];
    dek3.copy_from_slice(&dek_after);
    assert_eq!(
        String::from_utf8(decrypt_file_bytes(&dek3, &entry).unwrap()).unwrap(),
        "# 标题\n正文"
    );
}

#[test]
fn file_bytes_roundtrip_and_tamper_detection() {
    let key = random_dek().unwrap();
    let mut data = encrypt_file_bytes(&key, b"image-bytes").unwrap();
    assert_eq!(decrypt_file_bytes(&key, &data).unwrap(), b"image-bytes");
    // Flip the last byte: authentication fails.
    let last = data.len() - 1;
    data[last] ^= 0xff;
    assert!(decrypt_file_bytes(&key, &data).is_err());
}

#[test]
fn file_layout_is_nonce_then_ciphertext_and_tag() {
    let key = random_dek().unwrap();
    let data = encrypt_file_bytes(&key, b"hello").unwrap();
    assert_eq!(data.len(), NONCE_LEN + 5 + TAG_LEN);
    let pt = decrypt_raw(&key, &data[..NONCE_LEN], &data[NONCE_LEN..]).unwrap();
    assert_eq!(pt, b"hello");
}

#[test]
fn short_file_and_bad_nonce_are_refused() {
    let key = random_dek().unwrap();
    assert_eq!(decrypt_file_bytes(&key, &[0u8; 23]), Err(CryptoError::FileTooShort));
    // A nonce with less than a tag after it never opens.
    for n in 24..40 {
        assert_eq!(decrypt_file_bytes(&key, &vec![0u8; n]), Err(CryptoError::Decryption));
    }
    assert_eq!(decrypt_raw(&key, &[0u8; 12], &[0u8; 40]), Err(CryptoError::BadNonceLength));
    assert_eq!(decrypt_raw(&key, &[0u8; 24], &[0u8; 40]), Err(CryptoError::Decryption));
}

#[test]
fn sealed_dek_is_48_bytes_and_unseals() {
    let kek = random_dek().unwrap();
    let dek = random_dek().unwrap();
    let s = seal(&kek, &dek).unwrap();
    // 24-byte nonce -> 32 base64 chars; 48-byte ct -> 64 base64 chars.
    assert_eq!(s.nonce.len(), 32);
    assert_eq!(s.ct.len(), 64);
    assert_eq!(unseal(&kek, &s).unwrap(), dek.to_vec());
}

#[test]
fn bad_base64_in_sealed_is_refused() {
    let kek = random_dek().unwrap();
    let s = private_diary::crypto::Sealed {
        nonce: "not base64!".to_string(),
        ct: "AAAA".to_string(),
    };
    assert_eq!(unseal(&kek, &s), Err(CryptoError::Base64));
}

#[test]
fn kdf_parameter_errors() {
    let salt = [7u8; 16];
    let bad = KdfParams { m_cost: 4, t_cost: 1, p_cost: 1 };
    assert_eq!(derive_key(b"pw", &salt, &bad), Err(CryptoError::KdfParams));
    let bad_p = KdfParams { m_cost: 256, t_cost: 1, p_cost: 0x2000_0000 };
    assert_eq!(derive_key(b"pw", &salt, &bad_p), Err(CryptoError::KdfParams));
    assert_eq!(derive_key(b"pw", &[1u8; 4], &fast_params()), Err(CryptoError::KeyDerivation));
    let a = derive_key(b"pw", &salt, &fast_params()).unwrap();
    let b = derive_key(b"pw", &salt, &fast_params()).unwrap();
    assert_eq!(a, b, "derivation is deterministic");
    let c = derive_key(b"pw2", &salt, &fast_params()).unwrap();
    assert_ne!(a, c);
}

#[test]
fn default_kdf_params() {
    let p = KdfParams::default();
    assert_eq!((p.m_cost, p.t_cost, p.p_cost), (19_456, 2, 1));
}
