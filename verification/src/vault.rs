//! The vault's on-disk layout and its records.
//!
//! ```text
//! vault/
//!   meta.json            plain (not secret): version/kdf/salt/hint; sealed: wrapped_dek
//!   index.enc            encrypted index: the entries (id/date/title/times)
//!   entries/<id>.enc     one diary entry = nonce ++ ciphertext, plaintext is Markdown
//!   blobs/<id>.enc       one image = nonce ++ ciphertext, plaintext is the image bytes
//! ```
//!
//! Paths are given as lists of segments, the first being the vault directory;
//! reading and writing the files is left to the caller.

use vstd::prelude::*;
use crate::crypto::{KdfParams, Sealed};
use crate::text::{
    append_chars, append_str, chars_of, ends_with_chars, ends_with_spec, split_char, split_spec,
    starts_with_spec, string_of, law_split_then_join,
};

verus! {

/// Version of the storage format.
pub const FORMAT_VERSION: u32 = 1;

/// The KDF description in `meta.json` (salt and parameters are not secret).
#[derive(Debug)]
pub struct KdfMeta {
    /// Always "argon2id".
    pub algo: String,
    /// Argon2id costs.
    pub params: KdfParams,
    /// base64 of the salt.
    pub salt: String,
}

/// The contents of `meta.json`.
#[derive(Debug)]
pub struct Meta {
    pub version: u32,
    /// Always "xchacha20poly1305".
    pub cipher: String,
    pub kdf: KdfMeta,
    /// Password hint (plain text, not secret).
    pub hint: String,
    /// The data key (DEK) sealed under the password-derived key (KEK).
    pub wrapped_dek: Sealed,
    pub created_at: u64,
}

/// One record of the encrypted index.
#[derive(Debug)]
pub struct IndexEntry {
    pub id: String,
    /// YYYY-MM-DD
    pub date: String,
    pub title: String,
    pub created_at: u64,
    pub updated_at: u64,
}

/// The abstract value of an index record.
pub ghost struct IndexEntryView {
    pub id: Seq<char>,
    pub date: Seq<char>,
    pub title: Seq<char>,
    pub created_at: u64,
    pub updated_at: u64,
}

impl View for IndexEntry {
    type V = IndexEntryView;

    open spec fn view(&self) -> IndexEntryView {
        IndexEntryView {
            id: self.id@,
            date: self.date@,
            title: self.title@,
            created_at: self.created_at,
            updated_at: self.updated_at,
        }
    }
}

/// The decrypted contents of `index.enc`.
#[derive(Debug)]
pub struct Index {
    pub entries: Vec<IndexEntry>,
}

impl View for Index {
    type V = Seq<IndexEntryView>;

    open spec fn view(&self) -> Seq<IndexEntryView> {
        self.entries@.map_values(|e: IndexEntry| e@)
    }
}

impl Default for Index {
    /// An index without entries.
    fn default() -> (i: Self)
        ensures
            i@ == Seq::<IndexEntryView>::empty(),
    {
        let i = Index { entries: Vec::new() };
        assert(i@ =~= Seq::<IndexEntryView>::empty());
        i
    }
}

/// The WebDAV settings (kept encrypted in `vault/webdav.enc`).
#[derive(Debug)]
pub struct WebDavConfig {
    pub url: String,
    pub username: String,
    pub password: String,
    pub remote_dir: String,
}

/// Application preferences (plain, in `vault/settings.json`).
#[derive(Debug, Clone, Copy, PartialEq, Eq)]
pub struct Settings {
    /// Pull after unlocking.
    pub sync_pull_on_unlock: bool,
    /// Push on exit.
    pub sync_push_on_exit: bool,
    /// Periodic sync, in minutes (0 = off).
    pub sync_interval_min: u32,
    /// Sync after saving.
    pub sync_on_save: bool,
    /// Check for updates at start-up.
    pub auto_update_check: bool,
}

impl Default for Settings {
    /// Pull on unlock and push on exit; everything else off.
    fn default() -> (s: Self)
        ensures
            s.sync_pull_on_unlock,
            s.sync_push_on_exit,
            s.sync_interval_min == 0,
            !s.sync_on_save,
            !s.auto_update_check,
    {
        Settings {
            sync_pull_on_unlock: true,
            sync_push_on_exit: true,
            sync_interval_min: 0,
            sync_on_save: false,
            auto_update_check: false,
        }
    }
}

/// The value a missing boolean preference takes when `settings.json` is read.
pub fn default_true() -> (b: bool)
    ensures
        b,
{
    true
}

/// The vault, located by its directory.
#[derive(Debug)]
pub struct Vault {
    pub dir: String,
}

/// The views of a path's segments.
pub open spec fn path_view(p: Seq<String>) -> Seq<Seq<char>> {
    p.map_values(|s: String| s@)
}

/// The non-empty pieces of a list of pieces, in order.
pub open spec fn drop_empty(s: Seq<Seq<char>>) -> Seq<Seq<char>>
    decreases s.len(),
{
    if s.len() == 0 {
        Seq::<Seq<char>>::empty()
    } else if s.last().len() == 0 {
        drop_empty(s.drop_last())
    } else {
        drop_empty(s.drop_last()).push(s.last())
    }
}

/// The segments of a relative path written with `/` (empty segments dropped).
pub open spec fn rel_segments(rel: Seq<char>) -> Seq<Seq<char>> {
    drop_empty(split_spec(rel, '/'))
}

proof fn lemma_drop_empty_elems(s: Seq<Seq<char>>)
    ensures
        drop_empty(s) == s.filter(|p: Seq<char>| p.len() > 0),
        forall|i: int| 0 <= i < drop_empty(s).len() ==> (#[trigger] drop_empty(s)[i]).len() > 0 && exists|k: int|
            0 <= k < s.len() && s[k] == drop_empty(s)[i],
    decreases s.len(),
{
    reveal(Seq::filter);
    if s.len() > 0 {
        let d = s.drop_last();
        lemma_drop_empty_elems(d);
        let r = drop_empty(s);
        let rd = drop_empty(d);
        assert forall|i: int| 0 <= i < r.len() implies (#[trigger] r[i]).len() > 0 && exists|k: int|
            0 <= k < s.len() && s[k] == r[i] by {
            if i < rd.len() {
                assert(r[i] == rd[i]);
                let k = choose|k: int| 0 <= k < d.len() && d[k] == rd[i];
                assert(s[k] == d[k]);
            } else {
                assert(r[i] == s.last());
                assert(s[s.len() - 1] == r[i]);
            }
        }
    }
}

/// The segments of a relative path are its pieces between `/` that are not
/// empty, in order: none is empty and none holds a `/`.
pub proof fn law_rel_segments_are_clean(rel: Seq<char>)
    ensures
        rel_segments(rel) == split_spec(rel, '/').filter(|p: Seq<char>| p.len() > 0),
        forall|i: int| 0 <= i < rel_segments(rel).len() ==> (#[trigger] rel_segments(rel)[i]).len() > 0,
        forall|i: int, j: int|
            0 <= i < rel_segments(rel).len() && 0 <= j < rel_segments(rel)[i].len() ==> #[trigger] rel_segments(rel)[i][j] != '/',
{
    let sp = split_spec(rel, '/');
    lemma_drop_empty_elems(sp);
    law_split_then_join(rel, '/');
    let r = rel_segments(rel);
    assert forall|i: int, j: int| 0 <= i < r.len() && 0 <= j < r[i].len() implies #[trigger] r[i][j] != '/' by {
        let k = choose|k: int| 0 <= k < sp.len() && sp[k] == r[i];
        assert(sp[k][j] == r[i][j]);
    }
}

/// `<name>.enc`
pub open spec fn enc_name(name: Seq<char>) -> Seq<char> {
    name + ".enc"@
}

/// The relative sync paths `<sub>/<name>` of the names that end in `.enc`, in order.
pub open spec fn enc_files(sub: Seq<char>, names: Seq<Seq<char>>) -> Seq<Seq<char>>
    decreases names.len(),
{
    if names.len() == 0 {
        Seq::<Seq<char>>::empty()
    } else if ends_with_spec(names.last(), ".enc"@) {
        enc_files(sub, names.drop_last()).push(sub + "/"@ + names.last())
    } else {
        enc_files(sub, names.drop_last())
    }
}

/// The files that take part in sync, as `local_sync_files` lists them.
pub open spec fn sync_files_spec(
    meta_exists: bool,
    index_exists: bool,
    entry_names: Seq<Seq<char>>,
    blob_names: Seq<Seq<char>>,
) -> Seq<Seq<char>> {
    (if meta_exists {
        seq!["meta.json"@]
    } else {
        Seq::<Seq<char>>::empty()
    }) + (if index_exists {
        seq!["index.enc"@]
    } else {
        Seq::<Seq<char>>::empty()
    }) + enc_files("entries"@, entry_names) + enc_files("blobs"@, blob_names)
}

/// A relative path that sync may carry: `meta.json`, `index.enc`,
/// `entries/*.enc` or `blobs/*.enc` (never `webdav.enc` nor `sync_state.json`).
pub open spec fn is_sync_path(p: Seq<char>) -> bool {
    ||| p == "meta.json"@
    ||| p == "index.enc"@
    ||| (starts_with_spec(p, "entries/"@) && ends_with_spec(p, ".enc"@))
    ||| (starts_with_spec(p, "blobs/"@) && ends_with_spec(p, ".enc"@))
}

/// A directory listing's sync paths are exactly `<sub>/<name>` for its names
/// that end in `.enc`: every such name is listed, and nothing else is.
pub proof fn law_enc_files_lists_every_enc_name(sub: Seq<char>, names: Seq<Seq<char>>)
    ensures
        forall|i: int|
            0 <= i < names.len() && ends_with_spec(#[trigger] names[i], ".enc"@) ==> enc_files(sub, names).contains(
                sub + "/"@ + names[i],
            ),
        forall|p: Seq<char>|
            #[trigger] enc_files(sub, names).contains(p) ==> exists|i: int|
                0 <= i < names.len() && ends_with_spec(#[trigger] names[i], ".enc"@) && p == sub + "/"@ + names[i],
    decreases names.len(),
{
    if names.len() > 0 {
        let pre = names.drop_last();
        law_enc_files_lists_every_enc_name(sub, pre);
        let f = enc_files(sub, names);
        let fp = enc_files(sub, pre);
        assert forall|i: int|
            0 <= i < names.len() && ends_with_spec(#[trigger] names[i], ".enc"@) implies f.contains(sub + "/"@ + names[i]) by {
            if i < names.len() - 1 {
                assert(pre[i] == names[i]);
                let k = choose|k: int| 0 <= k < fp.len() && fp[k] == sub + "/"@ + pre[i];
                if ends_with_spec(names.last(), ".enc"@) {
                    assert(f == fp.push(sub + "/"@ + names.last()));
                    assert(f[k] == fp[k]);
                } else {
                    assert(f == fp);
                }
            } else {
                assert(f == fp.push(sub + "/"@ + names.last()));
                assert(f[f.len() - 1] == sub + "/"@ + names[i]);
            }
        }
        assert forall|p: Seq<char>| #[trigger] f.contains(p) implies exists|i: int|
            0 <= i < names.len() && ends_with_spec(#[trigger] names[i], ".enc"@) && p == sub + "/"@ + names[i] by {
            let k = choose|k: int| 0 <= k < f.len() && f[k] == p;
            if ends_with_spec(names.last(), ".enc"@) && k == f.len() - 1 {
                assert(f == fp.push(sub + "/"@ + names.last()));
                assert(names[names.len() - 1] == names.last());
            } else {
                if ends_with_spec(names.last(), ".enc"@) {
                    assert(f == fp.push(sub + "/"@ + names.last()));
                } else {
                    assert(f == fp);
                }
                assert(fp[k] == p);
                assert(fp.contains(p));
                let i = choose|i: int| 0 <= i < pre.len() && ends_with_spec(#[trigger] pre[i], ".enc"@) && p == sub + "/"@ + pre[i];
                assert(names[i] == pre[i]);
            }
        }
    }
}

/// The synced files: `meta.json` and `index.enc` when they exist, and
/// `entries/<name>` and `blobs/<name>` for every listed name ending in `.enc`.
pub proof fn law_sync_set_lists_every_vault_file(
    meta_exists: bool,
    index_exists: bool,
    entry_names: Seq<Seq<char>>,
    blob_names: Seq<Seq<char>>,
)
    ensures
        meta_exists ==> sync_files_spec(meta_exists, index_exists, entry_names, blob_names).contains("meta.json"@),
        index_exists ==> sync_files_spec(meta_exists, index_exists, entry_names, blob_names).contains("index.enc"@),
        forall|i: int|
            0 <= i < entry_names.len() && ends_with_spec(#[trigger] entry_names[i], ".enc"@)
                ==> sync_files_spec(meta_exists, index_exists, entry_names, blob_names).contains("entries/"@ + entry_names[i]),
        forall|i: int|
            0 <= i < blob_names.len() && ends_with_spec(#[trigger] blob_names[i], ".enc"@)
                ==> sync_files_spec(meta_exists, index_exists, entry_names, blob_names).contains("blobs/"@ + blob_names[i]),
{
    reveal_strlit("entries");
    reveal_strlit("blobs");
    reveal_strlit("entries/");
    reveal_strlit("blobs/");
    reveal_strlit("/");
    law_enc_files_lists_every_enc_name("entries"@, entry_names);
    law_enc_files_lists_every_enc_name("blobs"@, blob_names);
    let head = (if meta_exists { seq!["meta.json"@] } else { Seq::<Seq<char>>::empty() }) + (if index_exists {
        seq!["index.enc"@]
    } else {
        Seq::<Seq<char>>::empty()
    });
    let ef = enc_files("entries"@, entry_names);
    let bf = enc_files("blobs"@, blob_names);
    let all = sync_files_spec(meta_exists, index_exists, entry_names, blob_names);
    assert(all == head + ef + bf);
    if meta_exists {
        assert(all[0] == "meta.json"@);
    }
    if index_exists {
        let k: int = if meta_exists { 1 } else { 0 };
        assert(all[k] == "index.enc"@);
    }
    assert forall|i: int|
        0 <= i < entry_names.len() && ends_with_spec(#[trigger] entry_names[i], ".enc"@) implies all.contains("entries/"@ + entry_names[i]) by {
        assert("entries"@ + "/"@ + entry_names[i] =~= "entries/"@ + entry_names[i]);
        let k = choose|k: int| 0 <= k < ef.len() && ef[k] == "entries"@ + "/"@ + entry_names[i];
        assert(all[head.len() + k] == ef[k]);
    }
    assert forall|i: int|
        0 <= i < blob_names.len() && ends_with_spec(#[trigger] blob_names[i], ".enc"@) implies all.contains("blobs/"@ + blob_names[i]) by {
        assert("blobs"@ + "/"@ + blob_names[i] =~= "blobs/"@ + blob_names[i]);
        let k = choose|k: int| 0 <= k < bf.len() && bf[k] == "blobs"@ + "/"@ + blob_names[i];
        assert(all[head.len() + ef.len() + k] == bf[k]);
    }
}

/// The cloud credentials (`webdav.enc`) and the local sync baseline
/// (`sync_state.json`) are never sync paths.
pub proof fn lemma_private_files_never_synced()
    ensures
        !is_sync_path("webdav.enc"@),
        !is_sync_path("sync_state.json"@),
{
    reveal_strlit("webdav.enc");
    reveal_strlit("sync_state.json");
    reveal_strlit("meta.json");
    reveal_strlit("index.enc");
    reveal_strlit("entries/");
    reveal_strlit("blobs/");
    reveal_strlit(".enc");
    assert("webdav.enc"@.take(8)[0] != "entries/"@[0]);
    assert("webdav.enc"@.take(6)[0] != "blobs/"@[0]);
    assert("sync_state.json"@.take(8)[0] != "entries/"@[0]);
    assert("sync_state.json"@.take(6)[0] != "blobs/"@[0]);
}

proof fn lemma_enc_files_are_sync_paths(sub: Seq<char>, names: Seq<Seq<char>>)
    requires
        sub == "entries"@ || sub == "blobs"@,
    ensures
        forall|i: int|
            0 <= i < enc_files(sub, names).len() ==> is_sync_path(#[trigger] enc_files(sub, names)[i]),
    decreases names.len(),
{
    reveal_strlit("entries");
    reveal_strlit("blobs");
    reveal_strlit("entries/");
    reveal_strlit("blobs/");
    reveal_strlit("/");
    reveal_strlit(".enc");
    if names.len() > 0 {
        let pre_files = enc_files(sub, names.drop_last());
        lemma_enc_files_are_sync_paths(sub, names.drop_last());
        if ends_with_spec(names.last(), ".enc"@) {
            let p = sub + "/"@ + names.last();
            let pre = sub + "/"@;
            assert(p.take(pre.len() as int) =~= pre);
            assert(p.skip(p.len() - 4) =~= names.last().skip(names.last().len() - 4));
            if sub == "entries"@ {
                assert(pre =~= "entries/"@);
            } else {
                assert(pre =~= "blobs/"@);
            }
            assert(is_sync_path(p));
            assert(enc_files(sub, names) == pre_files.push(p));
            assert forall|i: int| 0 <= i < enc_files(sub, names).len() implies is_sync_path(
                #[trigger] enc_files(sub, names)[i],
            ) by {
                if i < pre_files.len() {
                    assert(enc_files(sub, names)[i] == pre_files[i]);
                }
            }
        } else {
            assert(enc_files(sub, names) == pre_files);
        }
    }
}

/// Collects the names of one directory listing that end in `.enc`, as `<sub>/<name>`.
fn push_enc_files(out: &mut Vec<String>, sub: &str, names: &Vec<String>)
    ensures
        path_view(final(out)@) == path_view(old(out)@) + enc_files(sub@, names@.map_values(|s: String| s@)),
{
    let ghost nv = names@.map_values(|s: String| s@);
    let suffix = chars_of(".enc");
    let mut i: usize = 0;
    while i < names.len()
        invariant
            i <= names.len(),
            nv == names@.map_values(|s: String| s@),
            suffix@ == ".enc"@,
            path_view(out@) == path_view(old(out)@) + enc_files(sub@, nv.take(i as int)),
        decreases names.len() - i,
    {
        let name = chars_of(names[i].as_str());
        proof {
            assert(nv.take(i + 1).drop_last() =~= nv.take(i as int));
            assert(nv.take(i + 1).last() == names@[i as int]@);
        }
        let ghost before = path_view(out@);
        if ends_with_chars(&name, &suffix) {
            let mut p = chars_of(sub);
            append_str(&mut p, "/");
            append_chars(&mut p, &name);
            let s = string_of(&p);
            out.push(s);
            proof {
                assert(enc_files(sub@, nv.take(i + 1)) == enc_files(sub@, nv.take(i as int)).push(
                    sub@ + "/"@ + names@[i as int]@,
                ));
                assert(path_view(out@) =~= before.push(s@));
            }
            assert(path_view(out@) =~= path_view(old(out)@) + enc_files(sub@, nv.take(i + 1)));
        } else {
            assert(enc_files(sub@, nv.take(i + 1)) == enc_files(sub@, nv.take(i as int)));
            assert(path_view(out@) =~= path_view(old(out)@) + enc_files(sub@, nv.take(i + 1)));
        }
        i = i + 1;
    }
    assert(nv.take(names.len() as int) =~= nv);
}

/// A `String` holding the characters of a literal.
pub fn owned(s: &str) -> (r: String)
    ensures
        r@ == s@,
{
    s.to_owned()
}

/// `<name>.enc` as a `String`.
fn enc_file_name(name: &str) -> (r: String)
    ensures
        r@ == enc_name(name@),
{
    let mut v = chars_of(name);
    append_str(&mut v, ".enc");
    string_of(&v)
}

impl Vault {
    /// The vault located at `dir`.
    pub fn new(dir: String) -> (v: Self)
        ensures
            v.dir == dir,
    {
        Vault { dir }
    }

    /// `<dir>/meta.json`
    pub fn meta_path(&self) -> (p: Vec<String>)
        ensures
            path_view(p@) == seq![self.dir@, "meta.json"@],
    {
        let p = vec![self.dir.clone(), owned("meta.json")];
        assert(path_view(p@) =~= seq![self.dir@, "meta.json"@]);
        p
    }

    /// `<dir>/index.enc`
    pub fn index_path(&self) -> (p: Vec<String>)
        ensures
            path_view(p@) == seq![self.dir@, "index.enc"@],
    {
        let p = vec![self.dir.clone(), owned("index.enc")];
        assert(path_view(p@) =~= seq![self.dir@, "index.enc"@]);
        p
    }

    /// `<dir>/entries`
    pub fn entries_dir(&self) -> (p: Vec<String>)
        ensures
            path_view(p@) == seq![self.dir@, "entries"@],
    {
        let p = vec![self.dir.clone(), owned("entries")];
        assert(path_view(p@) =~= seq![self.dir@, "entries"@]);
        p
    }

    /// `<dir>/blobs`
    pub fn blobs_dir(&self) -> (p: Vec<String>)
        ensures
            path_view(p@) == seq![self.dir@, "blobs"@],
    {
        let p = vec![self.dir.clone(), owned("blobs")];
        assert(path_view(p@) =~= seq![self.dir@, "blobs"@]);
        p
    }

    /// `<dir>/entries/<id>.enc`
    pub fn entry_path(&self, id: &str) -> (p: Vec<String>)
        ensures
            path_view(p@) == seq![self.dir@, "entries"@, enc_name(id@)],
    {
        let p = vec![self.dir.clone(), owned("entries"), enc_file_name(id)];
        assert(path_view(p@) =~= seq![self.dir@, "entries"@, enc_name(id@)]);
        p
    }

    /// `<dir>/blobs/<id>.enc`
    pub fn blob_path(&self, id: &str) -> (p: Vec<String>)
        ensures
            path_view(p@) == seq![self.dir@, "blobs"@, enc_name(id@)],
    {
        let p = vec![self.dir.clone(), owned("blobs"), enc_file_name(id)];
        assert(path_view(p@) =~= seq![self.dir@, "blobs"@, enc_name(id@)]);
        p
    }

    /// `<dir>/webdav.enc`
    pub fn webdav_path(&self) -> (p: Vec<String>)
        ensures
            path_view(p@) == seq![self.dir@, "webdav.enc"@],
    {
        let p = vec![self.dir.clone(), owned("webdav.enc")];
        assert(path_view(p@) =~= seq![self.dir@, "webdav.enc"@]);
        p
    }

    /// `<dir>/settings.json`
    pub fn settings_path(&self) -> (p: Vec<String>)
        ensures
            path_view(p@) == seq![self.dir@, "settings.json"@],
    {
        let p = vec![self.dir.clone(), owned("settings.json")];
        assert(path_view(p@) =~= seq![self.dir@, "settings.json"@]);
        p
    }

    /// The absolute path of a relative path written with `/`: the vault
    /// directory followed by the non-empty segments of `rel`.
    pub fn abs(&self, rel: &str) -> (p: Vec<String>)
        ensures
            path_view(p@) == seq![self.dir@] + rel_segments(rel@),
    {
        let cs = chars_of(rel);
        let pieces = split_char(&cs, '/');
        let ghost sp = split_spec(rel@, '/');
        let mut p: Vec<String> = vec![self.dir.clone()];
        let mut i: usize = 0;
        assert(path_view(p@) =~= seq![self.dir@] + drop_empty(sp.take(0)));
        while i < pieces.len()
            invariant
                i <= pieces@.len(),
                pieces@.len() == sp.len(),
                forall|j: int| 0 <= j < pieces@.len() ==> #[trigger] pieces@[j]@ == sp[j],
                path_view(p@) == seq![self.dir@] + drop_empty(sp.take(i as int)),
            decreases pieces@.len() - i,
        {
            proof {
                assert(sp.take(i + 1).drop_last() =~= sp.take(i as int));
                assert(sp.take(i + 1).last() == pieces@[i as int]@);
            }
            let ghost before = path_view(p@);
            if pieces[i].len() > 0 {
                let seg = string_of(&pieces[i]);
                p.push(seg);
                assert(path_view(p@) =~= before.push(seg@));
                assert(drop_empty(sp.take(i + 1)) == drop_empty(sp.take(i as int)).push(sp[i as int]));
            } else {
                assert(drop_empty(sp.take(i + 1)) == drop_empty(sp.take(i as int)));
            }
            assert(path_view(p@) =~= seq![self.dir@] + drop_empty(sp.take(i + 1)));
            i = i + 1;
        }
        assert(sp.take(sp.len() as int) =~= sp);
        p
    }

    /// The relative paths of the local files that take part in sync, given
    /// whether `meta.json` and `index.enc` exist and the file names found in
    /// `entries/` and `blobs/`: `meta.json`, `index.enc`, `entries/*.enc`,
    /// `blobs/*.enc`. `webdav.enc` (cloud credentials) and `sync_state.json`
    /// (the local baseline) never take part.
    pub fn local_sync_files(
        &self,
        meta_exists: bool,
        index_exists: bool,
        entry_names: &Vec<String>,
        blob_names: &Vec<String>,
    ) -> (out: Vec<String>)
        ensures
            path_view(out@) == sync_files_spec(
                meta_exists,
                index_exists,
                entry_names@.map_values(|s: String| s@),
                blob_names@.map_values(|s: String| s@),
            ),
            forall|i: int| 0 <= i < out@.len() ==> is_sync_path(#[trigger] out@[i]@),
            meta_exists ==> path_view(out@).contains("meta.json"@),
            index_exists ==> path_view(out@).contains("index.enc"@),
            forall|i: int|
                0 <= i < entry_names@.len() && ends_with_spec(#[trigger] entry_names@[i]@, ".enc"@)
                    ==> path_view(out@).contains("entries/"@ + entry_names@[i]@),
            forall|i: int|
                0 <= i < blob_names@.len() && ends_with_spec(#[trigger] blob_names@[i]@, ".enc"@)
                    ==> path_view(out@).contains("blobs/"@ + blob_names@[i]@),
    {
        let mut out: Vec<String> = Vec::new();
        if meta_exists {
            out.push(owned("meta.json"));
        }
        if index_exists {
            out.push(owned("index.enc"));
        }
        assert(path_view(out@) =~= (if meta_exists {
            seq!["meta.json"@]
        } else {
            Seq::<Seq<char>>::empty()
        }) + (if index_exists {
            seq!["index.enc"@]
        } else {
            Seq::<Seq<char>>::empty()
        }));
        push_enc_files(&mut out, "entries", entry_names);
        push_enc_files(&mut out, "blobs", blob_names);
        proof {
            let ev = entry_names@.map_values(|s: String| s@);
            let bv = blob_names@.map_values(|s: String| s@);
            lemma_enc_files_are_sync_paths("entries"@, ev);
            lemma_enc_files_are_sync_paths("blobs"@, bv);
            let full = sync_files_spec(meta_exists, index_exists, ev, bv);
            assert(path_view(out@) =~= full);
            law_sync_set_lists_every_vault_file(meta_exists, index_exists, ev, bv);
            assert forall|i: int|
                0 <= i < entry_names@.len() && ends_with_spec(#[trigger] entry_names@[i]@, ".enc"@)
                    implies path_view(out@).contains("entries/"@ + entry_names@[i]@) by {
                assert(ev[i] == entry_names@[i]@);
            }
            assert forall|i: int|
                0 <= i < blob_names@.len() && ends_with_spec(#[trigger] blob_names@[i]@, ".enc"@)
                    implies path_view(out@).contains("blobs/"@ + blob_names@[i]@) by {
                assert(bv[i] == blob_names@[i]@);
            }
            assert forall|i: int| 0 <= i < out@.len() implies is_sync_path(#[trigger] out@[i]@) by {
                assert(out@[i]@ == path_view(out@)[i]);
            }
        }
        out
    }
}

/// The `meta.json` of a new vault created at `now` (milliseconds since the epoch).
pub fn build_meta(hint: String, salt_b64: String, params: KdfParams, wrapped_dek: Sealed, now: u64) -> (m: Meta)
    ensures
        m.created_at == now,
        m.version == FORMAT_VERSION,
        m.cipher@ == "xchacha20poly1305"@,
        m.kdf.algo@ == "argon2id"@,
        m.kdf.params == params,
        m.kdf.salt == salt_b64,
        m.hint == hint,
        m.wrapped_dek == wrapped_dek,
{
    Meta {
        version: FORMAT_VERSION,
        cipher: owned("xchacha20poly1305"),
        kdf: KdfMeta { algo: owned("argon2id"), params, salt: salt_b64 },
        hint,
        wrapped_dek,
        created_at: now,
    }
}

} // verus!
