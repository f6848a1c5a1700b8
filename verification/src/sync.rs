//! The two-way sync planner.
//!
//! For every file the last sync recorded a baseline: the hash of the local
//! content and the remote etag. A run compares both sides with that baseline
//! and decides per file whether to upload, download, propagate a deletion to
//! the server, or reconcile a file that changed on both sides (the local copy
//! is kept as `.conflict-<time>` and the server's version adopted, so nothing
//! is lost). The caller performs the transfers the plan lists.
//!
//! Files are kept in maps ordered by path (as `BTreeMap`/`BTreeSet` order
//! `String`s), so a plan visits the paths in ascending order.

use vstd::prelude::*;
use crate::text::{
    append_str, chars_of, lex_less, lex_lt, lemma_lex_asymmetric, lemma_lex_irreflexive,
    lemma_lex_total, lemma_lex_transitive, push_char, chars_equal, string_of,
};
use crate::webdav::RemoteEntry;
use sha2::Digest;

verus! {

// ───────────────────────── ordered maps keyed by path ─────────────────────────

/// Entries whose paths strictly increase (so no path occurs twice).
pub open spec fn sorted_keys<V>(s: Seq<(String, V)>) -> bool {
    forall|i: int, j: int| 0 <= i < j < s.len() ==> lex_lt(#[trigger] s[i].0@, #[trigger] s[j].0@)
}

/// Whether some entry has path `k`.
pub open spec fn has_key<V>(s: Seq<(String, V)>, k: Seq<char>) -> bool {
    exists|i: int| 0 <= i < s.len() && #[trigger] s[i].0@ == k
}

/// A position of path `k` (meaningful when `has_key(s, k)`).
pub open spec fn key_index<V>(s: Seq<(String, V)>, k: Seq<char>) -> int {
    choose|i: int| 0 <= i < s.len() && #[trigger] s[i].0@ == k
}

/// The value stored under path `k`, if any.
pub open spec fn value_of<V>(s: Seq<(String, V)>, k: Seq<char>) -> Option<V> {
    if has_key(s, k) {
        Some(s[key_index(s, k)].1)
    } else {
        None
    }
}

/// In a sorted map the entry with a given path is the only one.
pub proof fn lemma_value_at<V>(s: Seq<(String, V)>, i: int)
    requires
        sorted_keys(s),
        0 <= i < s.len(),
    ensures
        has_key(s, s[i].0@),
        value_of(s, s[i].0@) == Some(s[i].1),
{
    let k = s[i].0@;
    assert(has_key(s, k));
    let j = key_index(s, k);
    assert(0 <= j < s.len() && s[j].0@ == k);
    if j < i {
        assert(lex_lt(s[j].0@, s[i].0@));
        lemma_lex_irreflexive(k);
    } else if i < j {
        assert(lex_lt(s[i].0@, s[j].0@));
        lemma_lex_irreflexive(k);
    }
}

/// A map from relative paths to values, ordered by path.
#[derive(Debug)]
pub struct PathMap<V> {
    pub entries: Vec<(String, V)>,
}

impl<V> PathMap<V> {
    /// The well-formedness of the map: paths strictly increase.
    pub open spec fn wf(&self) -> bool {
        sorted_keys(self.entries@)
    }

    pub open spec fn has(&self, k: Seq<char>) -> bool {
        has_key(self.entries@, k)
    }

    pub open spec fn value(&self, k: Seq<char>) -> Option<V> {
        value_of(self.entries@, k)
    }

    /// The empty map.
    pub fn new() -> (m: Self)
        ensures
            m.wf(),
            m.entries@.len() == 0,
            forall|k: Seq<char>| !m.has(k),
    {
        PathMap { entries: Vec::new() }
    }

    /// The position of path `key`, if present.
    pub fn find(&self, key: &Vec<char>) -> (r: Option<usize>)
        requires
            self.wf(),
        ensures
            match r {
                Some(i) => i < self.entries@.len() && self.entries@[i as int].0@ == key@,
                None => !self.has(key@),
            },
    {
        let mut i: usize = 0;
        while i < self.entries.len()
            invariant
                i <= self.entries@.len(),
                forall|j: int| 0 <= j < i ==> #[trigger] self.entries@[j].0@ != key@,
            decreases self.entries@.len() - i,
        {
            let k = chars_of(self.entries[i].0.as_str());
            if chars_equal(&k, key) {
                return Some(i);
            }
            i = i + 1;
        }
        None
    }

    /// The value stored under `key`.
    pub fn get(&self, key: &str) -> (r: Option<&V>)
        requires
            self.wf(),
        ensures
            match r {
                Some(v) => self.value(key@) == Some(*v),
                None => self.value(key@) is None,
            },
    {
        let k = chars_of(key);
        match self.find(&k) {
            Some(i) => {
                proof {
                    lemma_value_at(self.entries@, i as int);
                }
                Some(&self.entries[i].1)
            },
            None => None,
        }
    }

    /// Whether `key` is present.
    pub fn contains(&self, key: &str) -> (b: bool)
        requires
            self.wf(),
        ensures
            b == self.has(key@),
    {
        let k = chars_of(key);
        match self.find(&k) {
            Some(i) => {
                assert(self.entries@[i as int].0@ == key@);
                true
            },
            None => false,
        }
    }

    /// Stores `v` under `key`, replacing a value stored there before.
    pub fn insert(&mut self, key: String, v: V)
        requires
            old(self).wf(),
        ensures
            final(self).wf(),
            forall|k: Seq<char>| #[trigger] final(self).has(k) <==> (old(self).has(k) || k == key@),
            final(self).value(key@) == Some(v),
            forall|k: Seq<char>|
                k != key@ ==> #[trigger] final(self).value(k) == old(self).value(k),
    {
        let kc = chars_of(key.as_str());
        let ghost old_s = self.entries@;
        let mut i: usize = 0;
        while i < self.entries.len()
            invariant
                i <= self.entries@.len(),
                self.entries@ == old_s,
                sorted_keys(old_s),
                kc@ == key@,
                forall|j: int| 0 <= j < i ==> lex_lt(#[trigger] old_s[j].0@, key@),
            ensures
                i <= self.entries@.len(),
                self.entries@ == old_s,
                forall|j: int| 0 <= j < i ==> lex_lt(#[trigger] old_s[j].0@, key@),
                i < self.entries@.len() ==> !lex_lt(old_s[i as int].0@, key@),
            decreases self.entries@.len() - i,
        {
            let c = chars_of(self.entries[i].0.as_str());
            if !lex_less(&c, &kc) {
                break;
            }
            i = i + 1;
        }
        // Now every entry before `i` is smaller than `key`, and the one at `i` is not.
        let mut replace = false;
        if i < self.entries.len() {
            let c = chars_of(self.entries[i].0.as_str());
            replace = chars_equal(&c, &kc);
        }
        if replace {
            self.entries.set(i, (key, v));
            proof {
                let s = self.entries@;
                assert(old_s[i as int].0@ == s[i as int].0@);
                assert(sorted_keys(s)) by {
                    assert forall|a: int, b: int| 0 <= a < b < s.len() implies lex_lt(
                        #[trigger] s[a].0@,
                        #[trigger] s[b].0@,
                    ) by {
                        assert(lex_lt(old_s[a].0@, old_s[b].0@));
                    }
                }
                assert forall|k: Seq<char>| #[trigger] has_key(s, k) <==> (has_key(old_s, k) || k
                    == key@) by {
                    if has_key(old_s, k) {
                        let j = choose|j: int| 0 <= j < old_s.len() && #[trigger] old_s[j].0@ == k;
                        assert(s[j].0@ == k);
                    }
                    if has_key(s, k) {
                        let j = choose|j: int| 0 <= j < s.len() && #[trigger] s[j].0@ == k;
                        assert(old_s[j].0@ == k);
                    }
                }
                lemma_value_at(s, i as int);
                assert forall|k: Seq<char>| k != key@ implies #[trigger] value_of(s, k) == value_of(
                    old_s,
                    k,
                ) by {
                    if has_key(old_s, k) {
                        let j = choose|j: int| 0 <= j < old_s.len() && #[trigger] old_s[j].0@ == k;
                        lemma_value_at(old_s, j);
                        assert(j != i);
                        assert(s[j] == old_s[j]);
                        lemma_value_at(s, j);
                    }
                }
            }
        } else {
            self.entries.insert(i, (key, v));
            proof {
                let s = self.entries@;
                if i < old_s.len() {
                    let c = old_s[i as int].0@;
                    assert(!lex_lt(c, key@));
                    assert(c != key@);
                    lemma_lex_total(c, key@);
                    assert(lex_lt(key@, c));
                }
                assert(sorted_keys(s)) by {
                    assert forall|a: int, b: int| 0 <= a < b < s.len() implies lex_lt(
                        #[trigger] s[a].0@,
                        #[trigger] s[b].0@,
                    ) by {
                        if b < i {
                            assert(lex_lt(old_s[a].0@, old_s[b].0@));
                        } else if b == i {
                            assert(s[a] == old_s[a]);
                        } else if a < i {
                            assert(s[b] == old_s[b - 1]);
                            assert(lex_lt(old_s[a].0@, key@));
                            if b - 1 > i {
                                assert(lex_lt(old_s[i as int].0@, old_s[b - 1].0@));
                                lemma_lex_transitive(key@, old_s[i as int].0@, old_s[b - 1].0@);
                            }
                            lemma_lex_transitive(old_s[a].0@, key@, old_s[b - 1].0@);
                        } else if a == i {
                            assert(s[b] == old_s[b - 1]);
                            if b - 1 > i {
                                assert(lex_lt(old_s[i as int].0@, old_s[b - 1].0@));
                                lemma_lex_transitive(key@, old_s[i as int].0@, old_s[b - 1].0@);
                            }
                        } else {
                            assert(s[a] == old_s[a - 1]);
                            assert(s[b] == old_s[b - 1]);
                            assert(lex_lt(old_s[a - 1].0@, old_s[b - 1].0@));
                        }
                    }
                }
                assert forall|k: Seq<char>| #[trigger] has_key(s, k) <==> (has_key(old_s, k) || k
                    == key@) by {
                    if has_key(old_s, k) {
                        let j = choose|j: int| 0 <= j < old_s.len() && #[trigger] old_s[j].0@ == k;
                        if j < i {
                            assert(s[j].0@ == k);
                        } else {
                            assert(s[j + 1].0@ == k);
                        }
                    }
                    if k == key@ {
                        assert(s[i as int].0@ == k);
                    }
                    if has_key(s, k) {
                        let j = choose|j: int| 0 <= j < s.len() && #[trigger] s[j].0@ == k;
                        if j < i {
                            assert(old_s[j].0@ == k);
                        } else if j > i {
                            assert(old_s[j - 1].0@ == k);
                        }
                    }
                }
                lemma_value_at(s, i as int);
                assert forall|k: Seq<char>| k != key@ implies #[trigger] value_of(s, k) == value_of(
                    old_s,
                    k,
                ) by {
                    if has_key(old_s, k) {
                        let j = choose|j: int| 0 <= j < old_s.len() && #[trigger] old_s[j].0@ == k;
                        lemma_value_at(old_s, j);
                        if j < i {
                            assert(s[j] == old_s[j]);
                            lemma_value_at(s, j);
                        } else {
                            assert(s[j + 1] == old_s[j]);
                            lemma_value_at(s, j + 1);
                        }
                    }
                }
            }
        }
    }
}

// ───────────────────────── hashing ─────────────────────────

/// The SHA-256 digest of some bytes.
pub uninterp spec fn sha256_digest(bytes: Seq<u8>) -> Seq<u8>;

/// `sha2::Sha256::digest`. Claims: the result is the named digest, 32 bytes long.
#[verifier::external_body]
fn sha256(bytes: &[u8]) -> (d: Vec<u8>)
    ensures
        d@ == sha256_digest(bytes@),
        d@.len() == 32,
{
    sha2::Sha256::digest(bytes).to_vec()
}

/// One lower-case hexadecimal digit.
pub open spec fn hex_digit(n: u8) -> char {
    if n < 10 {
        (('0' as u8) + n) as char
    } else {
        (('a' as u8) + n - 10) as char
    }
}

/// Lower-case hexadecimal, two digits per byte.
pub open spec fn hex_lower(b: Seq<u8>) -> Seq<char>
    decreases b.len(),
{
    if b.len() == 0 {
        Seq::<char>::empty()
    } else {
        hex_lower(b.drop_last()) + seq![hex_digit(b.last() / 16), hex_digit(b.last() % 16)]
    }
}

/// Hexadecimal takes two digits per byte.
pub proof fn lemma_hex_lower_len(b: Seq<u8>)
    ensures
        hex_lower(b).len() == 2 * b.len(),
    decreases b.len(),
{
    if b.len() > 0 {
        lemma_hex_lower_len(b.drop_last());
    }
}

/// The value of a lower-case hexadecimal digit.
pub open spec fn hex_value(c: char) -> int {
    if '0' <= c <= '9' {
        c as int - '0' as int
    } else {
        c as int - 'a' as int + 10
    }
}

/// Hexadecimal text is lower-case digits, two per byte, high half first, and
/// reading them back gives the bytes: so different bytes never give the
/// same text.
pub proof fn law_hex_reads_back(b: Seq<u8>)
    ensures
        hex_lower(b).len() == 2 * b.len(),
        forall|i: int|
            0 <= i < hex_lower(b).len() ==> ('0' <= #[trigger] hex_lower(b)[i] <= '9') || ('a' <= hex_lower(b)[i] <= 'f'),
        forall|i: int|
            0 <= i < b.len() ==> hex_value(#[trigger] hex_lower(b)[2 * i]) * 16 + hex_value(hex_lower(b)[2 * i + 1]) == b[i] as int,
    decreases b.len(),
{
    lemma_hex_lower_len(b);
    if b.len() > 0 {
        let d = b.drop_last();
        law_hex_reads_back(d);
        lemma_hex_lower_len(d);
        let h = hex_lower(b);
        let hd = hex_lower(d);
        let x = b.last();
        assert(h == hd + seq![hex_digit(x / 16), hex_digit(x % 16)]);
        assert(hex_value(hex_digit(x / 16)) == (x / 16) as int);
        assert(hex_value(hex_digit(x % 16)) == (x % 16) as int);
        assert forall|i: int| 0 <= i < h.len() implies ('0' <= #[trigger] h[i] <= '9') || ('a' <= h[i] <= 'f') by {
            if i < hd.len() {
                assert(h[i] == hd[i]);
            }
        }
        assert forall|i: int| 0 <= i < b.len() implies hex_value(#[trigger] h[2 * i]) * 16 + hex_value(h[2 * i + 1]) == b[i] as int by {
            if i < d.len() {
                assert(h[2 * i] == hd[2 * i]);
                assert(h[2 * i + 1] == hd[2 * i + 1]);
                assert(b[i] == d[i]);
            } else {
                assert(h[2 * i] == hex_digit(x / 16));
                assert(h[2 * i + 1] == hex_digit(x % 16));
            }
        }
    }
}

fn hex_digit_char(n: u8) -> (c: char)
    requires
        n < 16,
    ensures
        c == hex_digit(n),
{
    if n < 10 {
        (48u8 + n) as char
    } else {
        (97u8 + n - 10) as char
    }
}

/// The lower-case hex SHA-256 of some bytes: what the baseline records as a file's hash.
pub open spec fn hash_spec(b: Seq<u8>) -> Seq<char> {
    hex_lower(sha256_digest(b))
}

/// The lower-case hex SHA-256 of some bytes.
pub fn hash_bytes(b: &[u8]) -> (s: String)
    ensures
        s@ == hash_spec(b@),
        s@.len() == 64,
{
    let d = sha256(b);
    let mut s = String::new();
    let mut i: usize = 0;
    while i < d.len()
        invariant
            i <= d@.len(),
            d@ == sha256_digest(b@),
            s@ == hex_lower(d@.take(i as int)),
        decreases d@.len() - i,
    {
        let x = d[i];
        push_char(&mut s, hex_digit_char(x / 16));
        push_char(&mut s, hex_digit_char(x % 16));
        proof {
            assert(d@.take(i + 1).drop_last() =~= d@.take(i as int));
            assert(d@.take(i + 1).last() == x);
        }
        i = i + 1;
        assert(s@ =~= hex_lower(d@.take(i as int)));
    }
    assert(d@.take(d@.len() as int) =~= d@);
    proof {
        lemma_hex_lower_len(d@);
    }
    s
}

// ───────────────────────── decisions ─────────────────────────

/// The baseline a file had after the last sync.
#[derive(Debug)]
pub struct FileState {
    pub local_hash: String,
    pub remote_etag: String,
}

/// What to do with one file.
#[derive(Debug, Clone, Copy, PartialEq, Eq)]
pub enum SyncAction {
    /// Both sides agree with the baseline.
    Skip,
    /// Send the local file to the server.
    Upload,
    /// Fetch the server's file.
    Download,
    /// Delete the server's file (it was deleted locally).
    DeleteRemote,
    /// Both sides changed: fetch the server's file and compare.
    Reconcile,
}

/// Whether the local side changed since the baseline.
pub open spec fn local_changed(l: bool, base: Option<FileState>, lhash: Option<String>) -> bool {
    if !l {
        base is Some
    } else {
        match base {
            None => true,
            Some(b) => match lhash {
                Some(h) => b.local_hash@ != h@,
                None => true,
            },
        }
    }
}

/// Whether the remote side changed since the baseline.
pub open spec fn remote_changed(r: bool, base: Option<FileState>, retag: Option<String>) -> bool {
    if !r {
        base is Some
    } else {
        match base {
            None => true,
            Some(b) => match retag {
                Some(e) => b.remote_etag@ != e@,
                None => true,
            },
        }
    }
}

/// The decision for one file from its presence on both sides, its baseline,
/// its local hash and its remote etag.
pub open spec fn decide_spec(
    l: bool,
    r: bool,
    base: Option<FileState>,
    lhash: Option<String>,
    retag: Option<String>,
) -> SyncAction {
    let lc = local_changed(l, base, lhash);
    let rc = remote_changed(r, base, retag);
    if l && r {
        if !lc && !rc {
            SyncAction::Skip
        } else if lc && !rc {
            SyncAction::Upload
        } else if !lc && rc {
            SyncAction::Download
        } else {
            SyncAction::Reconcile
        }
    } else if l {
        // Present here, absent there: upload (new file, or deleted remotely
        // while still here; keeping the data wins).
        SyncAction::Upload
    } else if r {
        if base is Some && !rc {
            SyncAction::DeleteRemote
        } else {
            SyncAction::Download
        }
    } else {
        SyncAction::Skip
    }
}

/// For a file on both sides with a baseline, the decision follows which
/// side's text changed since the baseline: the local hash or the remote etag
/// differing from the recorded one (as strings) is a change on that side.
/// No change is `Skip`, a local change alone `Upload`, a remote change alone
/// `Download`, and changes on both sides `Reconcile`.
pub proof fn law_decide_follows_changes(b: FileState, h: String, e: String)
    ensures
        h@ == b.local_hash@ && e@ == b.remote_etag@ ==> decide_spec(true, true, Some(b), Some(h), Some(e)) == SyncAction::Skip,
        h@ != b.local_hash@ && e@ == b.remote_etag@ ==> decide_spec(true, true, Some(b), Some(h), Some(e)) == SyncAction::Upload,
        h@ == b.local_hash@ && e@ != b.remote_etag@ ==> decide_spec(true, true, Some(b), Some(h), Some(e)) == SyncAction::Download,
        h@ != b.local_hash@ && e@ != b.remote_etag@ ==> decide_spec(true, true, Some(b), Some(h), Some(e)) == SyncAction::Reconcile,
{
}

/// A file on one side only: a local file is always uploaded; a server file
/// is downloaded unless it was synced before and its etag is unchanged, in
/// which case the local deletion is propagated.
pub proof fn law_decide_one_side(base: Option<FileState>, h: Option<String>, e: String)
    ensures
        decide_spec(true, false, base, h, None) == SyncAction::Upload,
        base is None ==> decide_spec(false, true, base, h, Some(e)) == SyncAction::Download,
        base matches Some(b) && b.remote_etag@ == e@ ==> decide_spec(false, true, base, h, Some(e)) == SyncAction::DeleteRemote,
        base matches Some(b) && b.remote_etag@ != e@ ==> decide_spec(false, true, base, h, Some(e)) == SyncAction::Download,
{
}

/// A file on both sides that was never synced counts as changed on both:
/// it is reconciled (fetched and compared), never overwritten either way.
pub proof fn law_decide_first_sight(h: Option<String>, e: String)
    ensures
        decide_spec(true, true, None, h, Some(e)) == SyncAction::Reconcile,
{
}

fn opt_str_equal(a: &String, b: Option<&String>) -> (r: bool)
    ensures
        r == match b {
            Some(x) => a@ == x@,
            None => false,
        },
{
    match b {
        Some(x) => *a == *x,
        None => false,
    }
}

/// The decision for one file.
pub fn decide(
    l: bool,
    r: bool,
    base: Option<&FileState>,
    lhash: Option<&String>,
    retag: Option<&String>,
) -> (a: SyncAction)
    ensures
        a == decide_spec(
            l,
            r,
            match base { Some(b) => Some(*b), None => None },
            match lhash { Some(h) => Some(*h), None => None },
            match retag { Some(e) => Some(*e), None => None },
        ),
{
    let lc = if !l {
        base.is_some()
    } else {
        match base {
            None => true,
            Some(b) => !opt_str_equal(&b.local_hash, lhash),
        }
    };
    let rc = if !r {
        base.is_some()
    } else {
        match base {
            None => true,
            Some(b) => !opt_str_equal(&b.remote_etag, retag),
        }
    };
    if l && r {
        if !lc && !rc {
            SyncAction::Skip
        } else if lc && !rc {
            SyncAction::Upload
        } else if !lc && rc {
            SyncAction::Download
        } else {
            SyncAction::Reconcile
        }
    } else if l {
        SyncAction::Upload
    } else if r {
        if base.is_some() && !rc {
            SyncAction::DeleteRemote
        } else {
            SyncAction::Download
        }
    } else {
        SyncAction::Skip
    }
}

/// One planned step.
#[derive(Debug)]
pub struct SyncStep {
    pub rel: String,
    pub action: SyncAction,
}

/// Every path that some side or the baseline knows, once, in ascending order.
pub fn all_paths(
    local_files: &PathMap<()>,
    remote: &PathMap<String>,
    baseline: &PathMap<FileState>,
) -> (all: PathMap<()>)
    requires
        local_files.wf(),
        remote.wf(),
        baseline.wf(),
    ensures
        all.wf(),
        forall|k: Seq<char>| #[trigger] all.has(k) <==> (local_files.has(k) || remote.has(k) || baseline.has(k)),
{
    let mut all: PathMap<()> = PathMap::new();
    let mut i: usize = 0;
    while i < local_files.entries.len()
        invariant
            all.wf(),
            i <= local_files.entries@.len(),
            forall|k: Seq<char>| #[trigger] all.has(k) <==> exists|j: int| 0 <= j < i && #[trigger] local_files.entries@[j].0@ == k,
        decreases local_files.entries@.len() - i,
    {
        all.insert(local_files.entries[i].0.clone(), ());
        i = i + 1;
    }
    let mut i: usize = 0;
    while i < remote.entries.len()
        invariant
            all.wf(),
            i <= remote.entries@.len(),
            forall|k: Seq<char>| #[trigger] all.has(k) <==> (local_files.has(k) || exists|j: int| 0 <= j < i && #[trigger] remote.entries@[j].0@ == k),
        decreases remote.entries@.len() - i,
    {
        all.insert(remote.entries[i].0.clone(), ());
        i = i + 1;
    }
    let mut i: usize = 0;
    while i < baseline.entries.len()
        invariant
            all.wf(),
            i <= baseline.entries@.len(),
            forall|k: Seq<char>| #[trigger] all.has(k) <==> (local_files.has(k) || remote.has(k) || exists|j: int| 0 <= j < i && #[trigger] baseline.entries@[j].0@ == k),
        decreases baseline.entries@.len() - i,
    {
        all.insert(baseline.entries[i].0.clone(), ());
        i = i + 1;
    }
    all
}

/// The decision `plan_sync` takes for path `k`.
pub open spec fn planned_action(
    k: Seq<char>,
    local_files: PathMap<()>,
    local_hashes: PathMap<String>,
    remote: PathMap<String>,
    baseline: PathMap<FileState>,
) -> SyncAction {
    decide_spec(local_files.has(k), remote.has(k), baseline.value(k), local_hashes.value(k), remote.value(k))
}

/// Plans a run: one step for every path that the local files, the server's
/// listing or the baseline knows, in ascending order of path, with the
/// decision `decide_spec` takes for it.
#[verifier::spinoff_prover]
pub fn plan_sync(
    local_files: &PathMap<()>,
    local_hashes: &PathMap<String>,
    remote: &PathMap<String>,
    baseline: &PathMap<FileState>,
) -> (steps: Vec<SyncStep>)
    requires
        local_files.wf(),
        local_hashes.wf(),
        remote.wf(),
        baseline.wf(),
    ensures
        forall|i: int, j: int| 0 <= i < j < steps@.len() ==> lex_lt(#[trigger] steps@[i].rel@, #[trigger] steps@[j].rel@),
        forall|k: Seq<char>| (exists|i: int| 0 <= i < steps@.len() && #[trigger] steps@[i].rel@ == k) <==> (local_files.has(k) || remote.has(k) || baseline.has(k)),
        forall|i: int| 0 <= i < steps@.len() ==> #[trigger] steps@[i].action == planned_action(steps@[i].rel@, *local_files, *local_hashes, *remote, *baseline),
{
    let all = all_paths(local_files, remote, baseline);
    let mut steps: Vec<SyncStep> = Vec::new();
    let mut i: usize = 0;
    while i < all.entries.len()
        invariant
            all.wf(),
            local_files.wf(),
            local_hashes.wf(),
            remote.wf(),
            baseline.wf(),
            i <= all.entries@.len(),
            steps@.len() == i,
            forall|j: int| 0 <= j < i ==> #[trigger] steps@[j].rel@ == all.entries@[j].0@,
            forall|j: int| 0 <= j < i ==> #[trigger] steps@[j].action == planned_action(steps@[j].rel@, *local_files, *local_hashes, *remote, *baseline),
        decreases all.entries@.len() - i,
    {
        let rel = &all.entries[i].0;
        let l = local_files.contains(rel.as_str());
        let r = remote.contains(rel.as_str());
        let base = baseline.get(rel.as_str());
        let lhash = local_hashes.get(rel.as_str());
        let retag = remote.get(rel.as_str());
        let action = decide(l, r, base, lhash, retag);
        steps.push(SyncStep { rel: rel.clone(), action });
        i = i + 1;
    }
    proof {
        assert forall|a: int, b: int| 0 <= a < b < steps@.len() implies lex_lt(#[trigger] steps@[a].rel@, #[trigger] steps@[b].rel@) by {
            assert(steps@[a].rel@ == all.entries@[a].0@);
            assert(steps@[b].rel@ == all.entries@[b].0@);
        }
        assert forall|k: Seq<char>| (exists|i: int| 0 <= i < steps@.len() && #[trigger] steps@[i].rel@ == k) <==> (local_files.has(k) || remote.has(k) || baseline.has(k)) by {
            if exists|i: int| 0 <= i < steps@.len() && #[trigger] steps@[i].rel@ == k {
                let i = choose|i: int| 0 <= i < steps@.len() && #[trigger] steps@[i].rel@ == k;
                assert(all.entries@[i].0@ == k);
                assert(all.has(k));
            }
            if local_files.has(k) || remote.has(k) || baseline.has(k) {
                assert(all.has(k));
                let i = choose|i: int| 0 <= i < all.entries@.len() && #[trigger] all.entries@[i].0@ == k;
                assert(steps@[i].rel@ == k);
            }
        }
    }
    steps
}

/// No local data is lost by a plan: a file that is present locally is never
/// deleted on the server, and one that changed locally since the last sync is
/// either uploaded or reconciled (never overwritten by a plain download).
pub proof fn lemma_plan_keeps_local_changes(
    k: Seq<char>,
    local_files: PathMap<()>,
    local_hashes: PathMap<String>,
    remote: PathMap<String>,
    baseline: PathMap<FileState>,
)
    requires
        local_files.has(k),
    ensures
        planned_action(k, local_files, local_hashes, remote, baseline) != SyncAction::DeleteRemote,
        local_changed(true, baseline.value(k), local_hashes.value(k)) ==> (
            planned_action(k, local_files, local_hashes, remote, baseline) == SyncAction::Upload
            || planned_action(k, local_files, local_hashes, remote, baseline) == SyncAction::Reconcile),
{
}

/// A deletion reaches the server only for a file that was synced before, is
/// gone locally, and whose server copy still has the etag of the last sync.
pub proof fn lemma_remote_delete_only_when_deleted_here(
    k: Seq<char>,
    local_files: PathMap<()>,
    local_hashes: PathMap<String>,
    remote: PathMap<String>,
    baseline: PathMap<FileState>,
)
    requires
        planned_action(k, local_files, local_hashes, remote, baseline) == SyncAction::DeleteRemote,
    ensures
        !local_files.has(k),
        remote.has(k),
        baseline.value(k) matches Some(b) && remote.value(k) matches Some(e) && b.remote_etag@ == e@,
{
}

/// Every step but `Skip` leaves its path on both sides (`Upload`, `Download`,
/// `Reconcile`) or on neither (`DeleteRemote`), and `Skip` is planned only for
/// a path that is already on both sides or on neither; so once every step of
/// a plan has run, the local files and the server list the same paths, which
/// is what `lemma_rebuilt_baseline_is_quiet` needs of the next run.
pub proof fn lemma_skip_only_when_sides_agree(
    k: Seq<char>,
    local_files: PathMap<()>,
    local_hashes: PathMap<String>,
    remote: PathMap<String>,
    baseline: PathMap<FileState>,
)
    requires
        planned_action(k, local_files, local_hashes, remote, baseline) == SyncAction::Skip,
    ensures
        local_files.has(k) == remote.has(k),
{
}

/// Whether a path is present on one side once its step has run:
/// `Upload`, `Download` and `Reconcile` leave it there, `DeleteRemote`
/// removes it, and `Skip` leaves the side as it was.
pub open spec fn present_after(a: SyncAction, before: bool) -> bool {
    match a {
        SyncAction::Skip => before,
        SyncAction::DeleteRemote => false,
        _ => true,
    }
}

/// Whether `after_files` and `after_remote` are the local files and the
/// server's listing once every step of the plan for the first four maps has
/// run and nothing else changed.
pub open spec fn ran_plan(
    local_files: PathMap<()>,
    local_hashes: PathMap<String>,
    remote: PathMap<String>,
    baseline: PathMap<FileState>,
    after_files: PathMap<()>,
    after_remote: PathMap<String>,
) -> bool {
    forall|p: Seq<char>|
        #![trigger after_files.has(p)]
        #![trigger after_remote.has(p)]
        {
            &&& after_files.has(p) == present_after(
                planned_action(p, local_files, local_hashes, remote, baseline),
                local_files.has(p),
            )
            &&& after_remote.has(p) == present_after(
                planned_action(p, local_files, local_hashes, remote, baseline),
                remote.has(p),
            )
        }
}

/// Sync settles: after a run that carried out its whole plan (and rebuilt
/// the baseline from the files and listing it left, every local file being
/// readable), a second run over the unchanged files plans nothing but `Skip`.
pub proof fn law_second_run_is_quiet(
    k: Seq<char>,
    local_files: PathMap<()>,
    local_hashes: PathMap<String>,
    remote: PathMap<String>,
    baseline: PathMap<FileState>,
    after_files: PathMap<()>,
    after_hashes: PathMap<String>,
    after_remote: PathMap<String>,
    rebuilt: PathMap<FileState>,
)
    requires
        ran_plan(local_files, local_hashes, remote, baseline, after_files, after_remote),
        forall|p: Seq<char>| #[trigger] after_files.has(p) <==> after_hashes.has(p),
        is_rebuilt_baseline(rebuilt, after_hashes, after_remote),
    ensures
        planned_action(k, after_files, after_hashes, after_remote, rebuilt) == SyncAction::Skip,
{
    assert forall|p: Seq<char>| #[trigger] after_files.has(p) <==> after_remote.has(p) by {
        let a = planned_action(p, local_files, local_hashes, remote, baseline);
        if a == SyncAction::Skip {
            lemma_skip_only_when_sides_agree(p, local_files, local_hashes, remote, baseline);
        }
        assert(after_remote.has(p) == present_after(a, remote.has(p)));
    }
    lemma_rebuilt_baseline_is_quiet(k, after_files, after_hashes, after_remote, rebuilt);
}

/// A file whose local hash and remote etag both equal the baseline is skipped.
pub proof fn lemma_unchanged_file_is_skipped(
    k: Seq<char>,
    local_files: PathMap<()>,
    local_hashes: PathMap<String>,
    remote: PathMap<String>,
    baseline: PathMap<FileState>,
    b: FileState,
    h: String,
    e: String,
)
    requires
        local_files.has(k),
        baseline.value(k) == Some(b),
        local_hashes.value(k) == Some(h),
        remote.value(k) == Some(e),
        h@ == b.local_hash@,
        e@ == b.remote_etag@,
    ensures
        planned_action(k, local_files, local_hashes, remote, baseline) == SyncAction::Skip,
{
}

// ───────────────────────── conflict copies ─────────────────────────

/// The decimal digit for `d` (below 10).
pub open spec fn digit_char(d: nat) -> char {
    ((48 + d) as u32) as char
}

/// The decimal form of `n`, without leading zeros.
pub open spec fn decimal(n: nat) -> Seq<char>
    decreases n,
{
    if n < 10 {
        seq![digit_char(n)]
    } else {
        decimal(n / 10) + seq![digit_char(n % 10)]
    }
}

/// The number a string of decimal digits denotes.
pub open spec fn decimal_value(s: Seq<char>) -> int
    decreases s.len(),
{
    if s.len() == 0 {
        0
    } else {
        decimal_value(s.drop_last()) * 10 + (s.last() as int - '0' as int)
    }
}

/// The decimal form of a number is digits only, starts with a non-zero
/// digit unless the number is 0, and reads back as the number.
pub proof fn law_decimal_reads_back(n: nat)
    ensures
        decimal(n).len() > 0,
        forall|i: int| 0 <= i < decimal(n).len() ==> '0' <= #[trigger] decimal(n)[i] <= '9',
        n > 0 ==> decimal(n)[0] != '0',
        decimal_value(decimal(n)) == n,
    decreases n,
{
    if n >= 10 {
        law_decimal_reads_back(n / 10);
        let p = decimal(n / 10);
        let d = decimal(n);
        assert(d == p + seq![digit_char(n % 10)]);
        assert(d.drop_last() =~= p);
        assert forall|i: int| 0 <= i < d.len() implies '0' <= #[trigger] d[i] <= '9' by {
            if i < p.len() {
                assert(d[i] == p[i]);
            }
        }
        assert(d[0] == p[0]);
        assert(d.last() == digit_char(n % 10));
        assert(digit_char(n % 10) as int == 48 + n % 10);
        assert(decimal_value(d) == decimal_value(p) * 10 + (n % 10));
        assert((n / 10) * 10 + n % 10 == n);
    } else {
        let d = decimal(n);
        assert(digit_char(n) as int == 48 + n);
        assert(d.drop_last() =~= Seq::<char>::empty());
        assert(decimal_value(d) == decimal_value(d.drop_last()) * 10 + (d.last() as int - '0' as int));
    }
}

/// The copy a conflict keeps is named after the file: the file's name, then
/// `.conflict-`, then the seconds in decimal (digits that read back as them).
pub proof fn law_conflict_name_keeps_the_file_name(name: Seq<char>, secs: u64)
    ensures
        conflict_name_spec(name, secs).take(name.len() as int) == name,
        conflict_name_spec(name, secs).subrange(name.len() as int, name.len() as int + 10) == ".conflict-"@,
        decimal_value(conflict_name_spec(name, secs).skip(name.len() as int + 10)) == secs,
{
    reveal_strlit(".conflict-");
    law_decimal_reads_back(secs as nat);
    let c = conflict_name_spec(name, secs);
    assert(c.take(name.len() as int) =~= name);
    assert(c.subrange(name.len() as int, name.len() as int + 10) =~= ".conflict-"@);
    assert(c.skip(name.len() as int + 10) =~= decimal(secs as nat));
}

/// Appends the decimal form of `n`.
fn push_decimal(v: &mut Vec<char>, n: u64)
    ensures
        final(v)@ == old(v)@ + decimal(n as nat),
    decreases n,
{
    if n >= 10 {
        push_decimal(v, n / 10);
    }
    let d: u8 = (n % 10) as u8;
    let c = (48u8 + d) as char;
    assert(c == digit_char((n % 10) as nat));
    v.push(c);
}

/// The name of the copy a conflict keeps of a local file: `<name>.conflict-<secs>`,
/// with `secs` the seconds since the Unix epoch.
pub open spec fn conflict_name_spec(name: Seq<char>, secs: u64) -> Seq<char> {
    name + ".conflict-"@ + decimal(secs as nat)
}

/// The file name under which a conflict keeps the local copy of `name`.
pub fn conflict_name(name: &str, secs: u64) -> (r: String)
    ensures
        r@ == conflict_name_spec(name@, secs),
{
    let mut v = chars_of(name);
    append_str(&mut v, ".conflict-");
    push_decimal(&mut v, secs);
    string_of(&v)
}

// ───────────────────────── the report ─────────────────────────

/// What a run did.
#[derive(Debug)]
pub struct SyncReport {
    pub uploaded: u32,
    pub downloaded: u32,
    pub deleted_remote: u32,
    pub conflicts: u32,
    pub messages: Vec<String>,
}

/// The message recorded for a conflict on `rel`.
pub open spec fn conflict_message(rel: Seq<char>) -> Seq<char> {
    "冲突："@ + rel + " 已保留本地副本(.conflict)，采用云端版本"@
}

impl SyncReport {
    /// A report of a run that did nothing yet.
    pub fn new() -> (r: Self)
        ensures
            r.uploaded == 0,
            r.downloaded == 0,
            r.deleted_remote == 0,
            r.conflicts == 0,
            r.messages@.len() == 0,
    {
        SyncReport { uploaded: 0, downloaded: 0, deleted_remote: 0, conflicts: 0, messages: Vec::new() }
    }

    /// Counts an upload.
    pub fn note_upload(&mut self)
        requires
            old(self).uploaded < u32::MAX,
        ensures
            final(self).uploaded == old(self).uploaded + 1,
            final(self).downloaded == old(self).downloaded,
            final(self).deleted_remote == old(self).deleted_remote,
            final(self).conflicts == old(self).conflicts,
            final(self).messages@ == old(self).messages@,
    {
        self.uploaded = self.uploaded + 1;
    }

    /// Counts a download.
    pub fn note_download(&mut self)
        requires
            old(self).downloaded < u32::MAX,
        ensures
            final(self).uploaded == old(self).uploaded,
            final(self).downloaded == old(self).downloaded + 1,
            final(self).deleted_remote == old(self).deleted_remote,
            final(self).conflicts == old(self).conflicts,
            final(self).messages@ == old(self).messages@,
    {
        self.downloaded = self.downloaded + 1;
    }

    /// Counts a deletion propagated to the server.
    pub fn note_remote_delete(&mut self)
        requires
            old(self).deleted_remote < u32::MAX,
        ensures
            final(self).uploaded == old(self).uploaded,
            final(self).downloaded == old(self).downloaded,
            final(self).deleted_remote == old(self).deleted_remote + 1,
            final(self).conflicts == old(self).conflicts,
            final(self).messages@ == old(self).messages@,
    {
        self.deleted_remote = self.deleted_remote + 1;
    }

    /// Counts a conflict on `rel` and records its message.
    pub fn note_conflict(&mut self, rel: &str)
        requires
            old(self).conflicts < u32::MAX,
        ensures
            final(self).uploaded == old(self).uploaded,
            final(self).downloaded == old(self).downloaded,
            final(self).deleted_remote == old(self).deleted_remote,
            final(self).conflicts == old(self).conflicts + 1,
            final(self).messages@.len() == old(self).messages@.len() + 1,
            forall|i: int| 0 <= i < old(self).messages@.len() ==> #[trigger] final(self).messages@[i] == old(self).messages@[i],
            final(self).messages@.last()@ == conflict_message(rel@),
    {
        self.conflicts = self.conflicts + 1;
        let mut m = chars_of("冲突：");
        append_str(&mut m, rel);
        append_str(&mut m, " 已保留本地副本(.conflict)，采用云端版本");
        self.messages.push(crate::text::string_of(&m));
    }

    /// Whether the run transferred, deleted or reconciled nothing (the
    /// baseline then stays valid and need not be rebuilt).
    pub fn is_quiet(&self) -> (b: bool)
        ensures
            b == (self.uploaded + self.downloaded + self.deleted_remote + self.conflicts == 0),
    {
        (self.uploaded as u64) + (self.downloaded as u64) + (self.deleted_remote as u64)
            + (self.conflicts as u64) == 0
    }
}

/// Whether a file that changed on both sides has in fact converged: the
/// server's content hashes to the local hash (a missing local hash counts as
/// the empty string).
pub fn converged(remote_hash: &String, local_hash: Option<&String>) -> (b: bool)
    ensures
        b == match local_hash {
            Some(h) => remote_hash@ == h@,
            None => remote_hash@.len() == 0,
        },
{
    match local_hash {
        Some(h) => *remote_hash == *h,
        None => remote_hash.as_str().is_empty(),
    }
}

// ───────────────────────── listings and the baseline ─────────────────────────

/// The files of some `PROPFIND` listings (directories left out), as a map
/// from path to etag; a path listed twice keeps its last etag.
pub fn collect_remote(listed: &Vec<RemoteEntry>) -> (m: PathMap<String>)
    ensures
        m.wf(),
        forall|k: Seq<char>| #[trigger] m.has(k) <==> exists|i: int| 0 <= i < listed@.len() && !listed@[i].is_dir && #[trigger] listed@[i].rel@ == k,
        forall|i: int| 0 <= i < listed@.len() && !listed@[i].is_dir && (forall|j: int| i < j < listed@.len() && !listed@[j].is_dir ==> listed@[j].rel@ != listed@[i].rel@)
            ==> (#[trigger] m.value(listed@[i].rel@) is Some && m.value(listed@[i].rel@)->0@ == listed@[i].etag@),
{
    let mut m: PathMap<String> = PathMap::new();
    let mut i: usize = 0;
    while i < listed.len()
        invariant
            m.wf(),
            i <= listed@.len(),
            forall|k: Seq<char>| #[trigger] m.has(k) <==> exists|j: int| 0 <= j < i && !listed@[j].is_dir && #[trigger] listed@[j].rel@ == k,
            forall|a: int| 0 <= a < i && !listed@[a].is_dir && (forall|j: int| a < j < i && !listed@[j].is_dir ==> listed@[j].rel@ != listed@[a].rel@)
                ==> (#[trigger] m.value(listed@[a].rel@) is Some && m.value(listed@[a].rel@)->0@ == listed@[a].etag@),
        decreases listed@.len() - i,
    {
        let e = &listed[i];
        if !e.is_dir {
            m.insert(e.rel.clone(), e.etag.clone());
        }
        i = i + 1;
    }
    m
}

/// Whether `baseline` is what a run records after it transferred files: one
/// entry per readable local file, with its hash and the etag the server now
/// lists for it (empty when the server does not list it).
pub open spec fn is_rebuilt_baseline(
    baseline: PathMap<FileState>,
    local_hashes: PathMap<String>,
    remote: PathMap<String>,
) -> bool {
    &&& forall|k: Seq<char>| #[trigger] baseline.has(k) <==> local_hashes.has(k)
    &&& forall|k: Seq<char>|
        local_hashes.has(k) ==> {
            &&& (#[trigger] baseline.value(k))->0.local_hash@ == local_hashes.value(k)->0@
            &&& baseline.value(k)->0.remote_etag@ == match remote.value(k) {
                Some(e) => e@,
                None => Seq::<char>::empty(),
            }
        }
}

/// The baseline after a run: for every readable local file (path → hash of
/// its content), its hash and the server's current etag.
pub fn rebuild_baseline(local_hashes: &PathMap<String>, remote: &PathMap<String>) -> (b: PathMap<FileState>)
    requires
        local_hashes.wf(),
        remote.wf(),
    ensures
        b.wf(),
        is_rebuilt_baseline(b, *local_hashes, *remote),
{
    let mut b: PathMap<FileState> = PathMap::new();
    let mut i: usize = 0;
    while i < local_hashes.entries.len()
        invariant
            b.wf(),
            local_hashes.wf(),
            remote.wf(),
            i <= local_hashes.entries@.len(),
            forall|k: Seq<char>| #[trigger] b.has(k) <==> exists|j: int| 0 <= j < i && #[trigger] local_hashes.entries@[j].0@ == k,
            forall|j: int| 0 <= j < i ==> {
                &&& (#[trigger] b.value(local_hashes.entries@[j].0@))->0.local_hash@ == local_hashes.entries@[j].1@
                &&& b.value(local_hashes.entries@[j].0@)->0.remote_etag@ == match remote.value(local_hashes.entries@[j].0@) {
                    Some(e) => e@,
                    None => Seq::<char>::empty(),
                }
            },
        decreases local_hashes.entries@.len() - i,
    {
        let rel = &local_hashes.entries[i].0;
        let et = match remote.get(rel.as_str()) {
            Some(e) => e.clone(),
            None => String::new(),
        };
        let fs = FileState { local_hash: local_hashes.entries[i].1.clone(), remote_etag: et };
        proof {
            assert forall|j: int| 0 <= j < i implies local_hashes.entries@[j].0@ != rel@ by {
                assert(lex_lt(local_hashes.entries@[j].0@, local_hashes.entries@[i as int].0@));
                lemma_lex_irreflexive(rel@);
            }
        }
        b.insert(rel.clone(), fs);
        i = i + 1;
    }
    proof {
        assert forall|k: Seq<char>| local_hashes.has(k) implies {
            &&& (#[trigger] b.value(k))->0.local_hash@ == local_hashes.value(k)->0@
            &&& b.value(k)->0.remote_etag@ == match remote.value(k) {
                Some(e) => e@,
                None => Seq::<char>::empty(),
            }
        } by {
            let j = choose|j: int| 0 <= j < local_hashes.entries@.len() && #[trigger] local_hashes.entries@[j].0@ == k;
            lemma_value_at(local_hashes.entries@, j);
        }
        assert forall|k: Seq<char>| #[trigger] b.has(k) <==> local_hashes.has(k) by {
        }
    }
    b
}

/// A run right after the baseline was rebuilt from the same files plans
/// nothing: when every local file was hashed and the server lists exactly
/// the local files, every path's decision is `Skip`.
pub proof fn lemma_rebuilt_baseline_is_quiet(
    k: Seq<char>,
    local_files: PathMap<()>,
    local_hashes: PathMap<String>,
    remote: PathMap<String>,
    baseline: PathMap<FileState>,
)
    requires
        forall|p: Seq<char>| #[trigger] local_files.has(p) <==> local_hashes.has(p),
        forall|p: Seq<char>| #[trigger] local_files.has(p) <==> remote.has(p),
        is_rebuilt_baseline(baseline, local_hashes, remote),
    ensures
        planned_action(k, local_files, local_hashes, remote, baseline) == SyncAction::Skip,
{
    assert(local_files.has(k) <==> local_hashes.has(k));
    assert(local_files.has(k) <==> remote.has(k));
    assert(baseline.has(k) <==> local_hashes.has(k));
    if local_files.has(k) {
        assert(baseline.value(k) is Some);
        assert(local_hashes.value(k) is Some);
        assert(remote.value(k) is Some);
    }
}

} // verus!
