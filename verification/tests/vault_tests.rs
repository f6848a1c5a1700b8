use private_diary::commands::{
    change_password, open_dek, setup_password, unlock, CommandError, DekError,
};
use private_diary::crypto::{
    decrypt_file_bytes, derive_key, encrypt_file_bytes, random_dek,
    random_salt, seal, unseal, KdfParams, KEY_LEN,
};
use base64::Engine;
use private_diary::vault::{build_meta, default_true, Index, IndexEntry, KdfMeta, Settings, Vault};

fn base64_encode(b: &[u8]) -> String {
    base64::engine::general_purpose::STANDARD.encode(b)
}

fn base64_decode(s: &str) -> Result<Vec<u8>, base64::DecodeError> {
    base64::engine::general_purpose::STANDARD.decode(s)
}

fn fast() -> KdfParams {
    KdfParams {
        m_cost: 256,
        t_cost: 1,
        p_cost: 1,
    }
}

fn contains(haystack: &[u8], needle: &[u8]) -> bool {
    haystack.windows(needle.len()).any(|w| w == needle)
}

/// First-time set-up with light parameters: (dek, meta).
fn setup(password: &str, params: &KdfParams) -> ([u8; 32], private_diary::vault::Meta) {
    let salt = random_salt().unwrap();
    let kek = derive_key(password.as_bytes(), &salt, params).unwrap();
    let dek = random_dek().unwrap();
    let wrapped = seal(&kek, &dek).unwrap();
    let meta = build_meta("我的提示".to_string(), base64_encode(&salt), *params, wrapped, 1_719_000_000_000);
    (dek, meta)
}

#[test]
fn full_lifecycle_encrypts_at_rest_and_survives_password_change() {
    let params = fast();
    let password = "p@ss码123";
    let (dek, meta) = setup(password, &params);

    // An entry with a plaintext marker.
    let plaintext = "# 秘密\n只有我知道 SECRET-MARKER-XYZ";
    let id = "entry-1";
    let raw = encrypt_file_bytes(&dek, plaintext.as_bytes()).unwrap();
    let mut index = Index::default();
    index.entries.push(IndexEntry {
        id: id.to_string(),
        date: "2026-06-28".to_string(),
        title: "秘密".to_string(),
        created_at: 0,
        updated_at: 0,
    });
    assert_eq!(index.entries.len(), 1);

    // What is stored is ciphertext: the marker does not appear.
    assert!(!contains(&raw, b"SECRET-MARKER-XYZ"), "日记落盘必须是密文");
    assert_eq!(String::from_utf8(decrypt_file_bytes(&dek, &raw).unwrap()).unwrap(), plaintext);

    // The right password recovers the DEK, a wrong one fails.
    let salt = base64_decode(&meta.kdf.salt).unwrap();
    let kek_ok = derive_key(password.as_bytes(), &salt, &meta.kdf.params).unwrap();
    assert_eq!(unseal(&kek_ok, &meta.wrapped_dek).unwrap(), dek.to_vec());
    let kek_bad = derive_key(b"wrong", &salt, &meta.kdf.params).unwrap();
    assert!(unseal(&kek_bad, &meta.wrapped_dek).is_err());

    // After a password change old entries still decrypt.
    let new_salt = random_salt().unwrap();
    let new_kek = derive_key(b"newpass", &new_salt, &params).unwrap();
    let mut meta2 = meta;
    meta2.wrapped_dek = seal(&new_kek, &dek).unwrap();
    meta2.kdf = KdfMeta {
        algo: "argon2id".to_string(),
        params,
        salt: base64_encode(&new_salt),
    };
    let salt3 = base64_decode(&meta2.kdf.salt).unwrap();
    let kek3 = derive_key(b"newpass", &salt3, &meta2.kdf.params).unwrap();
    let dek3v = unseal(&kek3, &meta2.wrapped_dek).unwrap();
    let mut dek3 = [0u8; 32];
    dek3.copy_from_slice(&dek3v);
    assert_eq!(String::from_utf8(decrypt_file_bytes(&dek3, &raw).unwrap()).unwrap(), plaintext);
    // The old password no longer works.
    let kek_old = derive_key(password.as_bytes(), &salt3, &meta2.kdf.params).unwrap();
    assert!(unseal(&kek_old, &meta2.wrapped_dek).is_err());

    // Image blobs: ciphertext at rest, and the round trip is exact.
    let img = b"\x89PNG\r\n FAKE-IMAGE-BYTES";
    let raw_blob = encrypt_file_bytes(&dek, img).unwrap();
    assert!(!contains(&raw_blob, b"FAKE-IMAGE-BYTES"), "图片落盘必须是密文");
    assert_eq!(decrypt_file_bytes(&dek, &raw_blob).unwrap(), img);
}

#[test]
fn meta_of_a_new_vault() {
    let (_dek, meta) = setup("pw", &fast());
    assert_eq!(meta.version, 1);
    assert_eq!(meta.cipher, "xchacha20poly1305");
    assert_eq!(meta.kdf.algo, "argon2id");
    assert_eq!(meta.hint, "我的提示");
    assert_eq!(meta.created_at, 1_719_000_000_000);
}

#[test]
fn setup_then_unlock_gives_the_same_key() {
    let (meta, dek) = setup_password(false, "correct horse", "hint".to_string(), 1_700_000_000_000).unwrap();
    assert_eq!(meta.kdf.params, KdfParams::default());
    assert_eq!(meta.hint, "hint");
    assert_eq!(unlock(&meta, "correct horse").unwrap(), dek);
    assert_eq!(unlock(&meta, "wrong"), Err(CommandError::WrongPassword));
}

#[test]
fn setup_records_the_creation_time() {
    let (meta, _dek) = setup_password(false, "pw", "h".to_string(), 1_234_567).unwrap();
    assert_eq!(meta.created_at, 1_234_567);
}

#[test]
fn meta_fields_have_the_documented_sizes() {
    let (meta, _dek) = setup_password(false, "pw", String::new(), 1_700_000_000_000).unwrap();
    assert_eq!(base64_decode(&meta.kdf.salt).unwrap().len(), 16);
    assert_eq!(base64_decode(&meta.wrapped_dek.nonce).unwrap().len(), 24);
    assert_eq!(base64_decode(&meta.wrapped_dek.ct).unwrap().len(), 48);
    let m2 = change_password(&meta, "pw", "pw2", None).unwrap();
    assert_eq!(base64_decode(&m2.kdf.salt).unwrap().len(), 16);
    assert_eq!(base64_decode(&m2.wrapped_dek.nonce).unwrap().len(), 24);
    assert_eq!(base64_decode(&m2.wrapped_dek.ct).unwrap().len(), 48);
    assert_ne!(m2.kdf.salt, meta.kdf.salt);
}

#[test]
fn setup_refusals() {
    assert_eq!(
        setup_password(true, "pw", String::new(), 1_700_000_000_000).err(),
        Some(CommandError::VaultExists)
    );
    assert_eq!(
        setup_password(false, "", String::new(), 1_700_000_000_000).err(),
        Some(CommandError::EmptyPassword)
    );
}

#[test]
fn change_password_keeps_the_key() {
    let (meta, dek) = setup_password(false, "old-pass", "h1".to_string(), 1_700_000_000_000).unwrap();
    assert_eq!(
        change_password(&meta, "old-pass", "", None).err(),
        Some(CommandError::EmptyNewPassword)
    );
    assert_eq!(
        change_password(&meta, "not-it", "new-pass", None).err(),
        Some(CommandError::WrongOldPassword)
    );
    let m2 = change_password(&meta, "old-pass", "new-pass", None).unwrap();
    assert_eq!(m2.hint, "h1");
    assert_eq!(m2.created_at, meta.created_at);
    assert_eq!(unlock(&m2, "new-pass").unwrap(), dek);
    assert_eq!(unlock(&m2, "old-pass"), Err(CommandError::WrongPassword));
    let m3 = change_password(&m2, "new-pass", "third", Some("h3".to_string())).unwrap();
    assert_eq!(m3.hint, "h3");
    assert_eq!(open_dek(&m3, "third").unwrap(), dek);
    assert_eq!(open_dek(&m3, "new-pass"), Err(DekError::Unwrap));
}

#[test]
fn broken_salt_is_reported() {
    let (_, mut meta) = setup("pw", &fast());
    meta.kdf.salt = "%%%".to_string();
    assert_eq!(open_dek(&meta, "pw"), Err(DekError::SaltEncoding));
}

#[test]
fn vault_paths() {
    let v = Vault::new("/data/vault".to_string());
    assert_eq!(v.meta_path(), vec!["/data/vault", "meta.json"]);
    assert_eq!(v.index_path(), vec!["/data/vault", "index.enc"]);
    assert_eq!(v.entries_dir(), vec!["/data/vault", "entries"]);
    assert_eq!(v.blobs_dir(), vec!["/data/vault", "blobs"]);
    assert_eq!(v.entry_path("abc"), vec!["/data/vault", "entries", "abc.enc"]);
    assert_eq!(v.blob_path("img1"), vec!["/data/vault", "blobs", "img1.enc"]);
    assert_eq!(v.webdav_path(), vec!["/data/vault", "webdav.enc"]);
    assert_eq!(v.settings_path(), vec!["/data/vault", "settings.json"]);
}

#[test]
fn abs_drops_empty_segments() {
    let v = Vault::new("D".to_string());
    assert_eq!(v.abs("entries/x.enc"), vec!["D", "entries", "x.enc"]);
    assert_eq!(v.abs("/meta.json"), vec!["D", "meta.json"]);
    assert_eq!(v.abs("a//b/"), vec!["D", "a", "b"]);
    assert_eq!(v.abs(""), vec!["D"]);
}

#[test]
fn local_sync_files_lists_only_synced_files() {
    let v = Vault::new("D".to_string());
    let entries = vec!["a.enc".to_string(), "notes.txt".to_string(), "b.enc".to_string()];
    let blobs = vec!["img.enc".to_string(), "img.enc.conflict-1".to_string()];
    let files = v.local_sync_files(true, true, &entries, &blobs);
    assert_eq!(
        files,
        vec!["meta.json", "index.enc", "entries/a.enc", "entries/b.enc", "blobs/img.enc"]
    );
    let none = v.local_sync_files(false, false, &vec![], &vec!["webdav.enc".to_string()]);
    assert_eq!(none, vec!["blobs/webdav.enc"]);
    assert!(!files.iter().any(|f| f == "webdav.enc" || f == "sync_state.json"));
}

#[test]
fn default_settings() {
    let s = Settings::default();
    assert!(s.sync_pull_on_unlock);
    assert!(s.sync_push_on_exit);
    assert_eq!(s.sync_interval_min, 0);
    assert!(!s.sync_on_save);
    assert!(!s.auto_update_check);
    assert!(default_true());
}

#[test]
fn key_length_constant() {
    assert_eq!(KEY_LEN, 32);
}
