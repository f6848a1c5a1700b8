use private_diary::sync::{
    collect_remote, conflict_name, converged, decide, hash_bytes, plan_sync, rebuild_baseline, FileState,
    PathMap, SyncAction, SyncReport,
};
use private_diary::webdav::RemoteEntry;

fn set(items: &[&str]) -> PathMap<()> {
    let mut m = PathMap::new();
    for i in items {
        m.insert(i.to_string(), ());
    }
    m
}

fn map(items: &[(&str, &str)]) -> PathMap<String> {
    let mut m = PathMap::new();
    for (k, v) in items {
        m.insert(k.to_string(), v.to_string());
    }
    m
}

fn base(items: &[(&str, &str, &str)]) -> PathMap<FileState> {
    let mut m = PathMap::new();
    for (k, h, e) in items {
        m.insert(
            k.to_string(),
            FileState {
                local_hash: h.to_string(),
                remote_etag: e.to_string(),
            },
        );
    }
    m
}

#[test]
fn sha256_hex() {
    assert_eq!(
        hash_bytes(b""),
        "e3b0c44298fc1c149afbf4c8996fb92427ae41e4649b934ca495991b7852b855"
    );
    assert_eq!(
        hash_bytes(b"abc"),
        "ba7816bf8f01cfea414140de5dae2223b00361a396177a9cb410ff61f20015ad"
    );
}

#[test]
fn path_map_keeps_paths_sorted_and_unique() {
    let mut m = PathMap::new();
    m.insert("b".to_string(), 1);
    m.insert("a".to_string(), 2);
    m.insert("c".to_string(), 3);
    m.insert("b".to_string(), 4);
    let keys: Vec<&str> = m.entries.iter().map(|(k, _)| k.as_str()).collect();
    assert_eq!(keys, vec!["a", "b", "c"]);
    assert_eq!(m.get("b"), Some(&4));
    assert_eq!(m.get("z"), None);
    assert!(m.contains("a"));
    // Order by code point, as String's Ord.
    let s = set(&["entries/b.enc", "blobs/x.enc", "index.enc", "meta.json", "entries/a.enc", "Z", "é"]);
    let keys: Vec<&str> = s.entries.iter().map(|(k, _)| k.as_str()).collect();
    let mut sorted = keys.clone();
    sorted.sort();
    assert_eq!(keys, sorted);
}

#[test]
fn decisions() {
    let b = FileState {
        local_hash: "h".to_string(),
        remote_etag: "e".to_string(),
    };
    let h = "h".to_string();
    let h2 = "h2".to_string();
    let e = "e".to_string();
    let e2 = "e2".to_string();
    // Unchanged on both sides.
    assert_eq!(decide(true, true, Some(&b), Some(&h), Some(&e)), SyncAction::Skip);
    // Local change only.
    assert_eq!(decide(true, true, Some(&b), Some(&h2), Some(&e)), SyncAction::Upload);
    // Remote change only.
    assert_eq!(decide(true, true, Some(&b), Some(&h), Some(&e2)), SyncAction::Download);
    // Both changed.
    assert_eq!(decide(true, true, Some(&b), Some(&h2), Some(&e2)), SyncAction::Reconcile);
    // On both sides with no baseline: both count as changed.
    assert_eq!(decide(true, true, None, Some(&h), Some(&e)), SyncAction::Reconcile);
    // Local only: always uploaded (data is kept even when the server deleted it).
    assert_eq!(decide(true, false, None, Some(&h), None), SyncAction::Upload);
    assert_eq!(decide(true, false, Some(&b), Some(&h), None), SyncAction::Upload);
    // Deleted locally, unchanged remotely: the deletion goes to the server.
    assert_eq!(decide(false, true, Some(&b), None, Some(&e)), SyncAction::DeleteRemote);
    // Deleted locally but changed remotely: download.
    assert_eq!(decide(false, true, Some(&b), None, Some(&e2)), SyncAction::Download);
    // New on the server.
    assert_eq!(decide(false, true, None, None, Some(&e)), SyncAction::Download);
    // Gone on both sides.
    assert_eq!(decide(false, false, Some(&b), None, None), SyncAction::Skip);
}

#[test]
fn plans_follow_path_order() {
    let local = set(&["meta.json", "entries/a.enc", "entries/new.enc"]);
    let hashes = map(&[("meta.json", "hm"), ("entries/a.enc", "ha2"), ("entries/new.enc", "hn")]);
    let remote = map(&[("meta.json", "em"), ("entries/a.enc", "ea"), ("blobs/r.enc", "er"), ("entries/gone.enc", "eg")]);
    let baseline = base(&[
        ("meta.json", "hm", "em"),
        ("entries/a.enc", "ha", "ea"),
        ("entries/gone.enc", "hg", "eg"),
    ]);
    let steps = plan_sync(&local, &hashes, &remote, &baseline);
    let got: Vec<(&str, SyncAction)> = steps.iter().map(|s| (s.rel.as_str(), s.action)).collect();
    assert_eq!(
        got,
        vec![
            ("blobs/r.enc", SyncAction::Download),
            ("entries/a.enc", SyncAction::Upload),
            ("entries/gone.enc", SyncAction::DeleteRemote),
            ("entries/new.enc", SyncAction::Upload),
            ("meta.json", SyncAction::Skip),
        ]
    );
}

#[test]
fn rebuilt_baseline_plans_nothing() {
    let local = set(&["meta.json", "index.enc"]);
    let hashes = map(&[("meta.json", "h1"), ("index.enc", "h2")]);
    let remote = map(&[("meta.json", "e1"), ("index.enc", "e2")]);
    let b = rebuild_baseline(&hashes, &remote);
    assert_eq!(b.get("meta.json").unwrap().remote_etag, "e1");
    assert_eq!(b.get("index.enc").unwrap().local_hash, "h2");
    let steps = plan_sync(&local, &hashes, &remote, &b);
    assert_eq!(steps.len(), 2);
    assert!(steps.iter().all(|s| s.action == SyncAction::Skip));
    // A file the server does not list gets an empty etag.
    let b2 = rebuild_baseline(&map(&[("x.enc", "h")]), &map(&[]));
    assert_eq!(b2.get("x.enc").unwrap().remote_etag, "");
}

#[test]
fn remote_listing_keeps_files_and_last_etag() {
    let listed = vec![
        RemoteEntry { rel: "entries".to_string(), etag: String::new(), is_dir: true },
        RemoteEntry { rel: "meta.json".to_string(), etag: "1".to_string(), is_dir: false },
        RemoteEntry { rel: "meta.json".to_string(), etag: "2".to_string(), is_dir: false },
    ];
    let m = collect_remote(&listed);
    assert_eq!(m.entries.len(), 1);
    assert_eq!(m.get("meta.json"), Some(&"2".to_string()));
    assert!(!m.contains("entries"));
}

#[test]
fn reports() {
    let mut r = SyncReport::new();
    assert!(r.is_quiet());
    r.note_upload();
    r.note_download();
    r.note_remote_delete();
    r.note_conflict("entries/a.enc");
    assert!(!r.is_quiet());
    assert_eq!((r.uploaded, r.downloaded, r.deleted_remote, r.conflicts), (1, 1, 1, 1));
    assert_eq!(
        r.messages,
        vec!["冲突：entries/a.enc 已保留本地副本(.conflict)，采用云端版本".to_string()]
    );
}

#[test]
fn convergence() {
    let h = "abc".to_string();
    assert!(converged(&"abc".to_string(), Some(&h)));
    assert!(!converged(&"abd".to_string(), Some(&h)));
    assert!(!converged(&"abc".to_string(), None));
    assert!(converged(&String::new(), None));
}

#[test]
fn conflict_copy_names() {
    assert_eq!(conflict_name("a.enc", 1719000000), "a.enc.conflict-1719000000");
    assert_eq!(conflict_name("meta.json", 0), "meta.json.conflict-0");
    assert_eq!(conflict_name("x", u64::MAX), format!("x.conflict-{}", u64::MAX));
}

#[test]
fn a_completed_run_leaves_nothing_to_do() {
    // First run: a new local file, a new remote file, a local deletion.
    let local = set(&["meta.json", "entries/new.enc"]);
    let hashes = map(&[("meta.json", "hm"), ("entries/new.enc", "hn")]);
    let remote = map(&[("meta.json", "em"), ("blobs/r.enc", "er"), ("entries/gone.enc", "eg")]);
    let baseline = base(&[("meta.json", "hm", "em"), ("entries/gone.enc", "hg", "eg")]);
    let steps = plan_sync(&local, &hashes, &remote, &baseline);
    assert!(steps.iter().any(|s| s.action != SyncAction::Skip));
    // What the run leaves: uploads and downloads on both sides, the deletion on neither.
    let after_files = set(&["meta.json", "entries/new.enc", "blobs/r.enc"]);
    let after_hashes = map(&[("meta.json", "hm"), ("entries/new.enc", "hn"), ("blobs/r.enc", "hr")]);
    let after_remote = map(&[("meta.json", "em"), ("entries/new.enc", "en"), ("blobs/r.enc", "er")]);
    let rebuilt = rebuild_baseline(&after_hashes, &after_remote);
    let second = plan_sync(&after_files, &after_hashes, &after_remote, &rebuilt);
    assert_eq!(second.len(), 3);
    assert!(second.iter().all(|s| s.action == SyncAction::Skip));
}
