use private_diary::commands::{
    add_image, backup_entry, delete_entry, derive_title, image_data, import_image_name,
    merge_config, mime_for, ms_since_epoch, new_uuid, now_ms, public_config, restore_dek, restore_files,
    sanitize_ext, save_entry, split_name, CommandError, Session, SessionError,
};
use private_diary::commands::setup_password;
use base64::Engine;
use private_diary::crypto::CryptoError;

fn base64_encode(b: &[u8]) -> String {
    base64::engine::general_purpose::STANDARD.encode(b)
}
use private_diary::vault::{Index, IndexEntry, WebDavConfig};
use private_diary::webdav::RemoteEntry;

#[test]
fn titles() {
    assert_eq!(derive_title("# 标题\n正文"), "标题");
    assert_eq!(derive_title("\n\n  ## Hello world  \nbody"), "Hello world");
    assert_eq!(derive_title("  # Title"), "Title");
    assert_eq!(derive_title("\t#\n  x"), "x");
    assert_eq!(derive_title("\n\n## Hello world  \nbody"), "Hello world");
    assert_eq!(derive_title("###\n  \nsecond"), "second");
    assert_eq!(derive_title(""), "(无标题)");
    assert_eq!(derive_title("#\n# \n"), "(无标题)");
    assert_eq!(derive_title("# # nested"), "# nested");
    let long: String = "x".repeat(100);
    assert_eq!(derive_title(&long).chars().count(), 60);
    let cjk: String = "日".repeat(70);
    assert_eq!(derive_title(&cjk), "日".repeat(60));
    assert_eq!(derive_title("title\r\nmore"), "title");
}

#[test]
fn extensions_and_mime() {
    assert_eq!(sanitize_ext("PNG"), "png");
    assert_eq!(sanitize_ext(".J-p_G!"), "jpg");
    assert_eq!(sanitize_ext(""), "png");
    assert_eq!(sanitize_ext("图片"), "png");
    assert_eq!(mime_for("png"), "image/png");
    assert_eq!(mime_for("jpg"), "image/jpeg");
    assert_eq!(mime_for("jpeg"), "image/jpeg");
    assert_eq!(mime_for("gif"), "image/gif");
    assert_eq!(mime_for("webp"), "image/webp");
    assert_eq!(mime_for("bmp"), "image/bmp");
    assert_eq!(mime_for("svg"), "image/svg+xml");
    assert_eq!(mime_for("PNG"), "application/octet-stream");
    assert_eq!(mime_for("tiff"), "application/octet-stream");
}

#[test]
fn image_names() {
    assert_eq!(split_name("abc.PNG"), ("abc".to_string(), "png".to_string()));
    assert_eq!(split_name("a.b.Jpg"), ("a.b".to_string(), "jpg".to_string()));
    assert_eq!(split_name("noext"), ("noext".to_string(), "png".to_string()));
    assert_eq!(import_image_name("id1", Some("JPEG")), "id1.jpeg");
    assert_eq!(import_image_name("id1", None), "id1.png");
    assert_eq!(import_image_name("id1", Some("??")), "id1.png");
}

#[test]
fn pasted_images() {
    let img = add_image(&base64_encode(b"raw-bytes"), "Gif").unwrap();
    assert_eq!(img.bytes, b"raw-bytes");
    assert_eq!(img.id.len(), 36);
    assert_eq!(img.name, format!("{}.gif", img.id));
    assert_eq!(
        add_image("***", "png").err(),
        Some(CommandError::Crypto(CryptoError::Base64))
    );
    let d = image_data("jpg", b"abc");
    assert_eq!(d.mime, "image/jpeg");
    assert_eq!(d.data_base64, "YWJj");
}

#[test]
fn uuids_are_fresh_and_hyphenated() {
    let a = new_uuid().unwrap();
    let b = new_uuid().unwrap();
    assert_ne!(a, b);
    assert_eq!(a.len(), 36);
    for (i, c) in a.chars().enumerate() {
        if i == 8 || i == 13 || i == 18 || i == 23 {
            assert_eq!(c, '-');
        } else {
            assert!(c.is_ascii_hexdigit() && !c.is_ascii_uppercase());
        }
    }
    assert_eq!(a.chars().nth(14), Some('4'));
}

#[test]
fn clock_is_after_epoch() {
    assert!(now_ms() > 1_600_000_000_000);
}

fn entry(id: &str, date: &str) -> IndexEntry {
    IndexEntry {
        id: id.to_string(),
        date: date.to_string(),
        title: "t".to_string(),
        created_at: 1,
        updated_at: 1,
    }
}

#[test]
fn saving_entries() {
    let mut unlocked = Session::new();
    unlocked.set_dek([7u8; 32]);
    let mut index = Index::default();
    let id = save_entry(&unlocked, &mut index, None, "2026-01-01".to_string(), "# First\nx", 100).unwrap();
    assert_eq!(id.len(), 36);
    assert_eq!(index.entries.len(), 1);
    assert_eq!(index.entries[0].title, "First");
    assert_eq!(index.entries[0].created_at, 100);

    // Update in place: title, date and update time change; creation time stays.
    let same = save_entry(&unlocked, &mut index, Some(id.clone()), "2026-01-02".to_string(), "Second", 200).unwrap();
    assert_eq!(same, id);
    assert_eq!(index.entries.len(), 1);
    assert_eq!(index.entries[0].title, "Second");
    assert_eq!(index.entries[0].date, "2026-01-02");
    assert_eq!(index.entries[0].created_at, 100);
    assert_eq!(index.entries[0].updated_at, 200);

    // An id the index lacks is appended.
    let other = save_entry(&unlocked, &mut index, Some("given".to_string()), "2026-01-03".to_string(), "", 300).unwrap();
    assert_eq!(other, "given");
    assert_eq!(index.entries.len(), 2);
    assert_eq!(index.entries[1].title, "(无标题)");

    // An empty id means a new entry.
    let fresh = save_entry(&unlocked, &mut index, Some(String::new()), "2026-01-04".to_string(), "x", 400).unwrap();
    assert_ne!(fresh, "");
    assert_eq!(index.entries.len(), 3);
}

#[test]
fn saving_while_locked_is_refused() {
    let locked = Session::new();
    let mut index = Index::default();
    assert_eq!(
        save_entry(&locked, &mut index, None, "2026-01-01".to_string(), "x", 1),
        Err(CommandError::Locked)
    );
    assert!(index.entries.is_empty());
}

#[test]
fn clock_readings() {
    assert_eq!(ms_since_epoch(None), 0);
    assert_eq!(ms_since_epoch(Some(1_719_000_000_123)), 1_719_000_000_123);
    assert_eq!(ms_since_epoch(Some((1u128 << 64) + 5)), 5);
}

#[test]
fn stored_image_is_found_again() {
    let img = add_image(&base64_encode(b"\x89PNG-bytes"), ".JPeG!").unwrap();
    let (id, ext) = split_name(&img.name);
    assert_eq!(id, img.id);
    assert_eq!(ext, "jpeg");
    assert_eq!(img.bytes, b"\x89PNG-bytes".to_vec());
    let shown = image_data(&ext, &img.bytes);
    assert_eq!(shown.mime, "image/jpeg");
    assert_eq!(shown.data_base64, base64_encode(b"\x89PNG-bytes"));
}

#[test]
fn uuids_are_version_4() {
    let u = new_uuid().unwrap();
    let cs: Vec<char> = u.chars().collect();
    assert_eq!(cs.len(), 36);
    for i in [8, 13, 18, 23] {
        assert_eq!(cs[i], '-');
    }
    assert_eq!(cs[14], '4');
    assert!(matches!(cs[19], '8' | '9' | 'a' | 'b'));
    assert!(cs.iter().all(|c| *c == '-' || c.is_ascii_digit() || ('a'..='f').contains(c)));
}

#[test]
fn deleting_entries() {
    let mut index = Index::default();
    index.entries.push(entry("a", "d1"));
    index.entries.push(entry("b", "d2"));
    index.entries.push(entry("a", "d3"));
    index.entries.push(entry("c", "d4"));
    delete_entry(&mut index, "a");
    let ids: Vec<&str> = index.entries.iter().map(|e| e.id.as_str()).collect();
    assert_eq!(ids, vec!["b", "c"]);
    delete_entry(&mut index, "zzz");
    assert_eq!(index.entries.len(), 2);
}

#[test]
fn cloud_settings() {
    let p = public_config(None);
    assert_eq!(p.url, "https://dav.jianguoyun.com/dav/");
    assert_eq!(p.username, "");
    assert_eq!(p.remote_dir, "private-diary");
    assert!(!p.has_password && !p.configured);

    let stored = WebDavConfig {
        url: "u".to_string(),
        username: "me".to_string(),
        password: "secret".to_string(),
        remote_dir: "d".to_string(),
    };
    let c = merge_config(Some(stored), " https://x/ ", " me@x ", Some(String::new()), " dir ");
    assert_eq!(c.url, "https://x/");
    assert_eq!(c.username, "me@x");
    assert_eq!(c.remote_dir, "dir");
    assert_eq!(c.password, "secret", "an empty password keeps the stored one");
    let c2 = merge_config(None, "u", "n", None, "d");
    assert_eq!(c2.password, "");
    let c3 = merge_config(Some(c), "u", "n", Some("new".to_string()), "d");
    assert_eq!(c3.password, "new");
    let p3 = public_config(Some(c3));
    assert!(p3.has_password && p3.configured);
    assert_eq!(p3.url, "u");
}

fn remote(rel: &str, etag: &str, is_dir: bool) -> RemoteEntry {
    RemoteEntry {
        rel: rel.to_string(),
        etag: etag.to_string(),
        is_dir,
    }
}

#[test]
fn restore_needs_meta() {
    let listed = vec![remote("entries", "", true), remote("index.enc", "e1", false)];
    assert_eq!(restore_files(&listed).err(), Some(CommandError::NothingToRestore));
    let listed = vec![
        remote("meta.json", "m", false),
        remote("entries/b.enc", "x", false),
        remote("entries/a.enc", "y", false),
    ];
    let files = restore_files(&listed).unwrap();
    let keys: Vec<&str> = files.entries.iter().map(|(k, _)| k.as_str()).collect();
    assert_eq!(keys, vec!["entries/a.enc", "entries/b.enc", "meta.json"]);
}

#[test]
fn restore_with_the_diary_password() {
    let (meta, dek) = setup_password(false, "diary", String::new(), 1_700_000_000_000).unwrap();
    assert_eq!(restore_dek(&meta, "diary").unwrap(), dek);
    assert_eq!(restore_dek(&meta, "other"), Err(CommandError::WrongDiaryPassword));
    let mut broken = meta;
    broken.kdf.salt = "%%%".to_string();
    assert_eq!(restore_dek(&broken, "diary"), Err(CommandError::Crypto(CryptoError::Base64)));
    assert_eq!(
        private_diary::commands::change_password(&broken, "diary", "new", None).err(),
        Some(CommandError::Crypto(CryptoError::Base64))
    );
}

#[test]
fn backup_rewrites_blob_references() {
    let e = entry("0123456789abcdef", "2026-06-28");
    let md = "# t\n![](blob:0a1b-2c.PNG) and ![](blob:ffee.jpg) blob:zz.png";
    let item = backup_entry(&e, md).unwrap();
    assert_eq!(item.file_name, "2026-06-28-012345.md");
    assert_eq!(
        item.markdown,
        "# t\n![](images/0a1b-2c.PNG) and ![](images/ffee.jpg) blob:zz.png"
    );
    assert_eq!(item.images.len(), 2);
    assert_eq!(item.images[0].blob_id, "0a1b-2c");
    assert_eq!(item.images[0].file_name, "0a1b-2c.PNG");
    assert_eq!(item.images[1].file_name, "ffee.jpg");
    let short = backup_entry(&entry("ab", "d"), "none").unwrap();
    assert_eq!(short.file_name, "d-ab.md");
    assert!(short.images.is_empty());
}

#[test]
fn session_locks_and_unlocks() {
    let mut s = Session::new();
    assert!(!s.is_unlocked());
    assert_eq!(s.dek(), Err(SessionError::Locked));
    s.set_dek([9u8; 32]);
    assert!(s.is_unlocked());
    assert_eq!(s.dek().unwrap(), [9u8; 32]);
    s.set_dek([3u8; 32]);
    assert_eq!(s.dek().unwrap(), [3u8; 32]);
    s.clear();
    assert!(!s.is_unlocked());
    assert_eq!(s.dek(), Err(SessionError::Locked));
}
