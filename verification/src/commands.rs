//! The decisions behind the application's commands: password set-up,
//! unlocking and password change (the two-tier DEK/KEK scheme), the index of
//! entries, image names, plaintext backup, cloud settings and restore.
//! Reading and writing files and talking to the server is left to the caller.

use vstd::prelude::*;
use crate::crypto::{
    base64_decode, base64_encode, base64_decoding, base64_encoding, derive_key, derive_key_spec,
    fill_random, random_dek, random_salt, seal, unseal, unseal_spec, CryptoError, KdfParams,
    Sealed, KEY_LEN, NONCE_LEN, SALT_LEN, TAG_LEN,
};
use crate::text::{
    append_chars, append_str, chars_of, copy_range, is_ascii_alnum, keep_ascii_alnum,
    rfind_char, rfind_spec, split_char, split_spec, string_of, to_lowercase, trim_chars,
    trim_spec, trim_start_chars, trim_start_spec, unicode_lowercase, ascii_lower,
    ascii_lower_char, str_equal, lemma_rfind_before_bounds, CharClass, all_ascii, rfind_before,
    lemma_trim_ends, unicode_white_space,
};
use crate::vault::{build_meta, Index, IndexEntry, IndexEntryView, KdfMeta, Meta, WebDavConfig};
use crate::webdav::RemoteEntry;
use crate::sync::{collect_remote, hex_lower, lemma_hex_lower_len, PathMap};

verus! {

// ───────────────────────── the clock ─────────────────────────

#[verifier::external_type_specification]
#[verifier::external_body]
pub struct ExSystemTime(std::time::SystemTime);

/// `SystemTime::now`: the wall clock. Nothing is claimed of it.
#[verifier::external_body]
fn system_now() -> std::time::SystemTime {
    std::time::SystemTime::now()
}

/// `SystemTime::duration_since(UNIX_EPOCH)`, `None` for a time before the
/// epoch. Nothing is claimed of the duration.
#[verifier::external_body]
fn since_unix_epoch(t: std::time::SystemTime) -> Option<std::time::Duration> {
    t.duration_since(std::time::UNIX_EPOCH).ok()
}

/// `Duration::as_millis`. Nothing is claimed of the value.
#[verifier::external_body]
fn duration_millis(d: &std::time::Duration) -> u128 {
    d.as_millis()
}

/// The stored form of a clock reading: the milliseconds since the Unix
/// epoch truncated to 64 bits, or 0 for a time before the epoch.
pub fn ms_since_epoch(d: Option<u128>) -> (r: u64)
    ensures
        r == match d {
            Some(ms) => ms as u64,
            None => 0u64,
        },
{
    match d {
        Some(ms) => {
            #[verifier::truncate]
            (ms as u64)
        },
        None => 0,
    }
}

/// Milliseconds since the Unix epoch (truncated to 64 bits), or 0 when the
/// clock reads a time before the epoch: `ms_since_epoch` of the clock's reading.
pub fn now_ms() -> u64 {
    let reading = match since_unix_epoch(system_now()) {
        Some(d) => Some(duration_millis(&d)),
        None => None,
    };
    ms_since_epoch(reading)
}

// ───────────────────────── identifiers ─────────────────────────

/// The bytes of the version-4 UUID built from 16 random bytes: the high
/// nibble of byte 6 set to the version (4), the two high bits of byte 8 to
/// the RFC 4122 variant (`10`).
pub open spec fn uuid_v4_bytes(random: Seq<u8>) -> Seq<u8> {
    random.update(6, (random[6] & 0x0f) | 0x40).update(8, (random[8] & 0x3f) | 0x80)
}

/// The text form of the version-4 UUID built from 16 random bytes: its bytes
/// in lower-case hexadecimal, grouped 8-4-4-4-12 with `-` between groups.
pub open spec fn uuid_v4_text(random: Seq<u8>) -> Seq<char> {
    let h = hex_lower(uuid_v4_bytes(random));
    h.subrange(0, 8) + seq!['-'] + h.subrange(8, 12) + seq!['-'] + h.subrange(12, 16) + seq!['-']
        + h.subrange(16, 20) + seq!['-'] + h.subrange(20, 32)
}

/// A UUID's text has 36 characters.
proof fn lemma_uuid_text_len(random: Seq<u8>)
    requires
        random.len() == 16,
    ensures
        uuid_v4_text(random).len() == 36,
{
    lemma_hex_lower_len(uuid_v4_bytes(random));
}

/// `uuid::Builder::from_random_bytes`, `Builder::into_uuid` and the
/// `Display` of `Uuid` (hyphenated, lower case). Claims: the text is the
/// version-4 UUID text of these bytes, as `uuid_v4_text` spells it out.
#[verifier::external_body]
fn uuid_text(random: &[u8; 16]) -> (s: String)
    ensures
        s@ == uuid_v4_text(random@),
{
    uuid::Builder::from_random_bytes(*random).into_uuid().to_string()
}

/// A fresh random (version 4) UUID in text form; fails only when the
/// operating system's random source does.
pub fn new_uuid() -> (r: Result<String, CryptoError>)
    ensures
        match r {
            Ok(s) => s@.len() == 36 && exists|b: Seq<u8>| b.len() == 16 && s@ == #[trigger] uuid_v4_text(b),
            Err(e) => e == CryptoError::Random,
        },
{
    let mut b = [0u8; 16];
    fill_random(&mut b)?;
    let s = uuid_text(&b);
    proof {
        lemma_uuid_text_len(b@);
    }
    Ok(s)
}

// ───────────────────────── errors ─────────────────────────

/// Why a command failed.
#[derive(Debug, Clone, Copy, PartialEq, Eq)]
pub enum CommandError {
    /// Setting up a password when the vault already exists.
    VaultExists,
    /// The password is empty.
    EmptyPassword,
    /// The new password is empty.
    EmptyNewPassword,
    /// The vault is locked: unlock first.
    Locked,
    /// Unlocking failed (any reason is reported as a wrong password).
    WrongPassword,
    /// The old password does not open the vault.
    WrongOldPassword,
    /// The diary password does not open the restored vault.
    WrongDiaryPassword,
    /// The sealed DEK does not hold 32 bytes.
    BadDekLength,
    /// The server has no `meta.json` to restore from.
    NothingToRestore,
    /// The blob-reference pattern did not compile.
    Pattern,
    /// A cryptographic operation failed.
    Crypto(CryptoError),
}

// ───────────────────────── titles and images ─────────────────────────

/// A line's title candidate: leading white space and then leading `#`
/// removed, then trimmed of white space (so "  # Title" gives "Title").
pub open spec fn line_title(line: Seq<char>) -> Seq<char> {
    trim_spec(
        trim_start_spec(trim_start_spec(line, CharClass::WhiteSpace), CharClass::Exactly('#')),
        CharClass::WhiteSpace,
    )
}

/// At most the first 60 characters.
pub open spec fn take_60(s: Seq<char>) -> Seq<char> {
    if s.len() <= 60 {
        s
    } else {
        s.take(60)
    }
}

/// The title of the first line (of `lines`) whose candidate is not empty.
pub open spec fn first_title(lines: Seq<Seq<char>>) -> Option<Seq<char>>
    decreases lines.len(),
{
    if lines.len() == 0 {
        None
    } else if line_title(lines[0]).len() > 0 {
        Some(take_60(line_title(lines[0])))
    } else {
        first_title(lines.drop_first())
    }
}

/// The title of a Markdown entry: its first line that is not empty once
/// leading white space and `#` and trailing white space are removed, cut to
/// 60 characters; "(无标题)" when there is none.
pub open spec fn derive_title_spec(md: Seq<char>) -> Seq<char> {
    match first_title(split_spec(md, '\n')) {
        Some(t) => t,
        None => "(无标题)"@,
    }
}

proof fn lemma_first_title_shape(lines: Seq<Seq<char>>)
    ensures
        first_title(lines) matches Some(t) ==> 0 < t.len() <= 60 && !unicode_white_space(t[0]),
    decreases lines.len(),
{
    if lines.len() > 0 {
        let lt = line_title(lines[0]);
        if lt.len() > 0 {
            lemma_trim_ends(
                trim_start_spec(trim_start_spec(lines[0], CharClass::WhiteSpace), CharClass::Exactly('#')),
                CharClass::WhiteSpace,
            );
            assert(take_60(lt)[0] == lt[0]);
        } else {
            lemma_first_title_shape(lines.drop_first());
        }
    }
}

/// A title is never empty, has at most 60 characters, and does not start
/// with white space.
pub proof fn law_title_shape(md: Seq<char>)
    ensures
        0 < derive_title_spec(md).len() <= 60,
        !unicode_white_space(derive_title_spec(md)[0]),
{
    reveal_strlit("(无标题)");
    lemma_first_title_shape(split_spec(md, '\n'));
}

/// The title of a Markdown entry.
pub fn derive_title(md: &str) -> (t: String)
    ensures
        t@ == derive_title_spec(md@),
{
    let cs = chars_of(md);
    let lines = split_char(&cs, '\n');
    let ghost sl = split_spec(md@, '\n');
    let mut i: usize = 0;
    assert(sl.skip(0) =~= sl);
    while i < lines.len()
        invariant
            i <= lines@.len(),
            sl == split_spec(md@, '\n'),
            lines@.len() == sl.len(),
            forall|j: int| 0 <= j < lines@.len() ==> #[trigger] lines@[j]@ == sl[j],
            first_title(sl) == first_title(sl.skip(i as int)),
        decreases lines@.len() - i,
    {
        let w = trim_start_chars(&lines[i], CharClass::WhiteSpace);
        let a = trim_start_chars(&w, CharClass::Exactly('#'));
        let t = trim_chars(&a, CharClass::WhiteSpace);
        assert(sl.skip(i as int)[0] == sl[i as int]);
        if t.len() > 0 {
            let n = if t.len() <= 60 {
                t.len()
            } else {
                60
            };
            let r = copy_range(&t, 0, n);
            assert(r@ =~= take_60(t@));
            assert(t@ == line_title(sl[i as int]));
            assert(sl.skip(i as int).len() > 0);
            assert(first_title(sl.skip(i as int)) == Some(take_60(t@)));
            return string_of(&r);
        }
        assert(sl.skip(i as int).drop_first() =~= sl.skip(i + 1));
        i = i + 1;
    }
    "(无标题)".to_owned()
}

/// An image extension as stored: its ASCII letters and digits in lower
/// case, or "png" when none remain.
pub open spec fn sanitize_ext_spec(ext: Seq<char>) -> Seq<char> {
    let e = keep_ascii_alnum(ext);
    if e.len() == 0 {
        "png"@
    } else {
        e.map_values(|c: char| ascii_lower(c))
    }
}

/// Whether `c` is an ASCII letter or digit.
fn ascii_alnum(c: char) -> (b: bool)
    ensures
        b == is_ascii_alnum(c),
{
    ('0' <= c && c <= '9') || ('a' <= c && c <= 'z') || ('A' <= c && c <= 'Z')
}

/// An image extension as stored.
pub fn sanitize_ext(ext: &str) -> (r: String)
    ensures
        r@ == sanitize_ext_spec(ext@),
{
    let cs = chars_of(ext);
    let mut e: Vec<char> = Vec::new();
    let mut i: usize = 0;
    while i < cs.len()
        invariant
            i <= cs@.len(),
            e@ == keep_ascii_alnum(cs@.take(i as int)),
        decreases cs@.len() - i,
    {
        proof {
            assert(cs@.take(i + 1).drop_last() =~= cs@.take(i as int));
            assert(cs@.take(i + 1).last() == cs@[i as int]);
        }
        if ascii_alnum(cs[i]) {
            e.push(cs[i]);
        }
        i = i + 1;
    }
    assert(cs@.take(cs@.len() as int) =~= cs@);
    if e.len() == 0 {
        return "png".to_owned();
    }
    let mut lower: Vec<char> = Vec::new();
    let mut j: usize = 0;
    while j < e.len()
        invariant
            j <= e@.len(),
            lower@ == e@.take(j as int).map_values(|c: char| ascii_lower(c)),
        decreases e@.len() - j,
    {
        lower.push(ascii_lower_char(e[j]));
        j = j + 1;
        assert(lower@ =~= e@.take(j as int).map_values(|c: char| ascii_lower(c)));
    }
    assert(e@.take(e@.len() as int) =~= e@);
    string_of(&lower)
}

/// The MIME type of an image extension.
pub open spec fn mime_spec(ext: Seq<char>) -> Seq<char> {
    if ext == "png"@ {
        "image/png"@
    } else if ext == "jpg"@ || ext == "jpeg"@ {
        "image/jpeg"@
    } else if ext == "gif"@ {
        "image/gif"@
    } else if ext == "webp"@ {
        "image/webp"@
    } else if ext == "bmp"@ {
        "image/bmp"@
    } else if ext == "svg"@ {
        "image/svg+xml"@
    } else {
        "application/octet-stream"@
    }
}

/// The MIME type of an image extension.
pub fn mime_for(ext: &str) -> (m: String)
    ensures
        m@ == mime_spec(ext@),
{
    if str_equal(ext, "png") {
        "image/png".to_owned()
    } else if str_equal(ext, "jpg") || str_equal(ext, "jpeg") {
        "image/jpeg".to_owned()
    } else if str_equal(ext, "gif") {
        "image/gif".to_owned()
    } else if str_equal(ext, "webp") {
        "image/webp".to_owned()
    } else if str_equal(ext, "bmp") {
        "image/bmp".to_owned()
    } else if str_equal(ext, "svg") {
        "image/svg+xml".to_owned()
    } else {
        "application/octet-stream".to_owned()
    }
}

/// The lower-case form of an extension (`str::to_lowercase`): ASCII text
/// has `A`..`Z` lowered and the rest kept; other text takes the Unicode mapping.
pub open spec fn ext_lowercase(s: Seq<char>) -> Seq<char> {
    if all_ascii(s) {
        s.map_values(|c: char| ascii_lower(c))
    } else {
        unicode_lowercase(s)
    }
}

/// "<id>.<ext>" split at its last `.` into (id, lower-cased ext); a name
/// without `.` is all id, with extension "png".
pub open spec fn split_name_spec(name: Seq<char>) -> (Seq<char>, Seq<char>) {
    match rfind_spec(name, '.') {
        Some(i) => (name.take(i), ext_lowercase(name.skip(i + 1))),
        None => (name, "png"@),
    }
}

/// Splits an image reference "<id>.<ext>".
pub fn split_name(name: &str) -> (r: (String, String))
    ensures
        r.0@ == split_name_spec(name@).0,
        r.1@ == split_name_spec(name@).1,
{
    let cs = chars_of(name);
    match rfind_char(&cs, '.') {
        Some(i) => {
            let id = copy_range(&cs, 0, i);
            let ext = copy_range(&cs, i + 1, cs.len());
            assert(id@ =~= cs@.take(i as int));
            assert(ext@ =~= cs@.skip(i + 1));
            let ext_s = string_of(&ext);
            (string_of(&id), to_lowercase(ext_s.as_str()))
        },
        None => (name.to_owned(), "png".to_owned()),
    }
}

/// The reference Markdown uses for a stored image: "<id>.<ext>".
pub open spec fn image_ref_spec(id: Seq<char>, ext: Seq<char>) -> Seq<char> {
    id + seq!['.'] + ext
}

/// Whether every character is an ASCII digit or lower-case letter.
pub open spec fn lower_alnum(s: Seq<char>) -> bool {
    forall|i: int| 0 <= i < s.len() ==> ('0' <= #[trigger] s[i] <= '9') || ('a' <= s[i] <= 'z')
}

proof fn lemma_keep_alnum(s: Seq<char>)
    ensures
        forall|i: int| 0 <= i < keep_ascii_alnum(s).len() ==> is_ascii_alnum(#[trigger] keep_ascii_alnum(s)[i]),
    decreases s.len(),
{
    if s.len() > 0 {
        let pre = keep_ascii_alnum(s.drop_last());
        lemma_keep_alnum(s.drop_last());
        if is_ascii_alnum(s.last()) {
            assert forall|i: int| 0 <= i < keep_ascii_alnum(s).len() implies is_ascii_alnum(#[trigger] keep_ascii_alnum(s)[i]) by {
                if i < pre.len() {
                    assert(keep_ascii_alnum(s)[i] == pre[i]);
                }
            }
        }
    }
}

/// A sanitized extension is made of ASCII digits and lower-case letters.
proof fn lemma_sanitized_lower_alnum(ext: Seq<char>)
    ensures
        lower_alnum(sanitize_ext_spec(ext)),
{
    reveal_strlit("png");
    let k = keep_ascii_alnum(ext);
    lemma_keep_alnum(ext);
    if k.len() > 0 {
        let e = k.map_values(|c: char| ascii_lower(c));
        assert forall|i: int| 0 <= i < e.len() implies ('0' <= #[trigger] e[i] <= '9') || ('a' <= e[i] <= 'z') by {
            assert(is_ascii_alnum(k[i]));
            assert(e[i] == ascii_lower(k[i]));
        }
    }
}

/// A stored extension is never empty and is made of ASCII digits and
/// lower-case letters only; an extension with no ASCII letter or digit is
/// stored as "png", and one made of lower-case letters and digits is kept.
pub proof fn law_sanitized_ext_is_lower_alnum(ext: Seq<char>)
    ensures
        sanitize_ext_spec(ext).len() > 0,
        lower_alnum(sanitize_ext_spec(ext)),
        (forall|i: int| 0 <= i < ext.len() ==> !is_ascii_alnum(#[trigger] ext[i])) ==> sanitize_ext_spec(ext) == "png"@,
        ext.len() > 0 && lower_alnum(ext) ==> sanitize_ext_spec(ext) == ext,
{
    reveal_strlit("png");
    lemma_sanitized_lower_alnum(ext);
    lemma_keep_alnum_all(ext);
    if ext.len() > 0 && lower_alnum(ext) {
        let k = keep_ascii_alnum(ext);
        assert(k =~= ext);
        assert(k.map_values(|c: char| ascii_lower(c)) =~= ext);
    }
}

/// Keeping the ASCII letters and digits drops nothing from a text made only
/// of them, and everything from a text with none of them.
proof fn lemma_keep_alnum_all(s: Seq<char>)
    ensures
        (forall|i: int| 0 <= i < s.len() ==> is_ascii_alnum(#[trigger] s[i])) ==> keep_ascii_alnum(s) == s,
        (forall|i: int| 0 <= i < s.len() ==> !is_ascii_alnum(#[trigger] s[i])) ==> keep_ascii_alnum(s).len() == 0,
    decreases s.len(),
{
    if s.len() > 0 {
        let d = s.drop_last();
        lemma_keep_alnum_all(d);
        if forall|i: int| 0 <= i < s.len() ==> is_ascii_alnum(#[trigger] s[i]) {
            assert forall|i: int| 0 <= i < d.len() implies is_ascii_alnum(#[trigger] d[i]) by {
                assert(d[i] == s[i]);
            }
            assert(is_ascii_alnum(s[s.len() - 1]));
            assert(d.push(s.last()) =~= s);
        }
        if forall|i: int| 0 <= i < s.len() ==> !is_ascii_alnum(#[trigger] s[i]) {
            assert forall|i: int| 0 <= i < d.len() implies !is_ascii_alnum(#[trigger] d[i]) by {
                assert(d[i] == s[i]);
            }
            assert(!is_ascii_alnum(s[s.len() - 1]));
        }
    }
}

proof fn lemma_rfind_last(s: Seq<char>, c: char, k: int, n: int)
    requires
        0 <= k < n <= s.len(),
        s[k] == c,
        forall|j: int| k < j < n ==> s[j] != c,
    ensures
        rfind_before(s, c, n) == Some(k),
    decreases n,
{
    if n - 1 > k {
        lemma_rfind_last(s, c, k, n - 1);
    }
}

/// The name an image is stored under splits back into its id and its
/// extension: `split_name` of "<id>.<sanitized ext>" gives that id and that
/// extension unchanged, so a stored image is found again under its blob id
/// and shown with the MIME type of the extension it was stored with.
pub proof fn law_image_name_round_trip(id: Seq<char>, ext: Seq<char>)
    ensures
        split_name_spec(image_ref_spec(id, sanitize_ext_spec(ext))) == (id, sanitize_ext_spec(ext)),
{
    let e = sanitize_ext_spec(ext);
    let name = image_ref_spec(id, e);
    lemma_sanitized_lower_alnum(ext);
    assert(name[id.len() as int] == '.');
    assert forall|j: int| id.len() < j < name.len() implies name[j] != '.' by {
        assert(name[j] == e[j - id.len() - 1]);
    }
    lemma_rfind_last(name, '.', id.len() as int, name.len() as int);
    assert(name.take(id.len() as int) =~= id);
    assert(name.skip(id.len() as int + 1) =~= e);
    assert(all_ascii(e)) by {
        assert forall|i: int| 0 <= i < e.len() implies (#[trigger] e[i] as u32) < 128 by {
            assert(('0' <= e[i] <= '9') || ('a' <= e[i] <= 'z'));
        }
    }
    assert(e.map_values(|c: char| ascii_lower(c)) =~= e);
}

fn image_ref(id: &str, ext: &str) -> (r: String)
    ensures
        r@ == image_ref_spec(id@, ext@),
{
    let mut v = chars_of(id);
    v.push('.');
    append_str(&mut v, ext);
    string_of(&v)
}

/// An image ready to be stored: its new blob id, its bytes and the
/// reference "<id>.<ext>" for the Markdown.
#[derive(Debug)]
pub struct NewImage {
    pub id: String,
    pub bytes: Vec<u8>,
    pub name: String,
}

/// A pasted image (base64 data and an extension): decodes the data and
/// gives it a fresh id; fails when the data is not base64 (or the random
/// source fails).
pub fn add_image(data_base64: &str, ext: &str) -> (r: Result<NewImage, CommandError>)
    ensures
        base64_decoding(data_base64@) is None ==> r == Err::<NewImage, CommandError>(CommandError::Crypto(CryptoError::Base64)),
        match r {
            Ok(img) => {
                &&& base64_decoding(data_base64@) == Some(img.bytes@)
                &&& img.id@.len() == 36
                &&& exists|b: Seq<u8>| b.len() == 16 && img.id@ == #[trigger] uuid_v4_text(b)
                &&& img.name@ == image_ref_spec(img.id@, sanitize_ext_spec(ext@))
            },
            Err(e) => (e == CommandError::Crypto(CryptoError::Base64) && base64_decoding(data_base64@) is None)
                || (e == CommandError::Crypto(CryptoError::Random) && base64_decoding(data_base64@) is Some),
        },
{
    let bytes = match base64_decode(data_base64) {
        Ok(b) => b,
        Err(_) => return Err(CommandError::Crypto(CryptoError::Base64)),
    };
    let id = match new_uuid() {
        Ok(s) => s,
        Err(e) => return Err(CommandError::Crypto(e)),
    };
    let e = sanitize_ext(ext);
    let name = image_ref(id.as_str(), e.as_str());
    Ok(NewImage { id, bytes, name })
}

/// The reference of an image imported from a file, given the file's
/// extension (if it has one that is valid text): "<id>.<ext>", the
/// extension sanitized, or "png" when there is none.
pub fn import_image_name(id: &str, ext: Option<&str>) -> (r: String)
    ensures
        r@ == image_ref_spec(id@, match ext {
            Some(e) => sanitize_ext_spec(e@),
            None => "png"@,
        }),
{
    let e = match ext {
        Some(x) => sanitize_ext(x),
        None => "png".to_owned(),
    };
    image_ref(id, e.as_str())
}

/// An image as the front end shows it.
#[derive(Debug)]
pub struct ImageData {
    pub mime: String,
    pub data_base64: String,
}

/// The data of a stored image with the given extension.
pub fn image_data(ext: &str, bytes: &[u8]) -> (d: ImageData)
    requires
        bytes@.len() <= usize::MAX / 2,
    ensures
        d.mime@ == mime_spec(ext@),
        d.data_base64@ == base64_encoding(bytes@),
{
    ImageData { mime: mime_for(ext), data_base64: base64_encode(bytes) }
}

// ───────────────────────── the index ─────────────────────────

/// The position of the first entry with id `id`.
pub open spec fn first_with_id(s: Seq<IndexEntryView>, id: Seq<char>) -> Option<int>
    decreases s.len(),
{
    if s.len() == 0 {
        None
    } else {
        match first_with_id(s.drop_last(), id) {
            Some(i) => Some(i),
            None => if s.last().id == id {
                Some(s.len() - 1)
            } else {
                None
            },
        }
    }
}

proof fn lemma_first_with_id(s: Seq<IndexEntryView>, id: Seq<char>)
    ensures
        match first_with_id(s, id) {
            Some(i) => 0 <= i < s.len() && s[i].id == id && forall|j: int| 0 <= j < i ==> s[j].id != id,
            None => forall|j: int| 0 <= j < s.len() ==> s[j].id != id,
        },
    decreases s.len(),
{
    if s.len() > 0 {
        let d = s.drop_last();
        lemma_first_with_id(d, id);
        assert(forall|j: int| 0 <= j < d.len() ==> d[j] == s[j]);
    }
}

/// A fresh index record.
pub open spec fn new_record(id: Seq<char>, date: Seq<char>, title: Seq<char>, now: u64) -> IndexEntryView {
    IndexEntryView { id, date, title, created_at: now, updated_at: now }
}

/// Saving under an existing id: the first record with that id gets the new
/// title, date and update time (its creation time stays); without such a
/// record one is appended.
pub open spec fn upsert_spec(
    s: Seq<IndexEntryView>,
    id: Seq<char>,
    date: Seq<char>,
    title: Seq<char>,
    now: u64,
) -> Seq<IndexEntryView> {
    match first_with_id(s, id) {
        Some(i) => s.update(i, IndexEntryView { title, date, updated_at: now, ..s[i] }),
        None => s.push(new_record(id, date, title, now)),
    }
}

/// Ids occur at most once.
pub open spec fn ids_unique(s: Seq<IndexEntryView>) -> bool {
    forall|i: int, j: int| 0 <= i < j < s.len() ==> #[trigger] s[i].id != #[trigger] s[j].id
}

/// Saving records the save: the index then holds a record with the saved
/// id, date and title, updated at `now`, and every other record is as it
/// was; it grows by one record (created at `now`, after the others) exactly
/// when the id was not there yet.
pub proof fn law_upsert_records_the_save(
    s: Seq<IndexEntryView>,
    id: Seq<char>,
    date: Seq<char>,
    title: Seq<char>,
    now: u64,
)
    ensures
        (exists|j: int| 0 <= j < s.len() && #[trigger] s[j].id == id) ==> upsert_spec(s, id, date, title, now).len() == s.len(),
        !(exists|j: int| 0 <= j < s.len() && #[trigger] s[j].id == id) ==> {
            &&& upsert_spec(s, id, date, title, now).len() == s.len() + 1
            &&& upsert_spec(s, id, date, title, now).take(s.len() as int) == s
            &&& upsert_spec(s, id, date, title, now).last().created_at == now
        },
        exists|i: int| {
            &&& 0 <= i < upsert_spec(s, id, date, title, now).len()
            &&& #[trigger] upsert_spec(s, id, date, title, now)[i].id == id
            &&& upsert_spec(s, id, date, title, now)[i].date == date
            &&& upsert_spec(s, id, date, title, now)[i].title == title
            &&& upsert_spec(s, id, date, title, now)[i].updated_at == now
            &&& forall|j: int| 0 <= j < s.len() && j != i ==> upsert_spec(s, id, date, title, now)[j] == s[j]
        },
{
    lemma_first_with_id(s, id);
    let t = upsert_spec(s, id, date, title, now);
    match first_with_id(s, id) {
        Some(k) => {
            assert(t[k].id == id);
        },
        None => {
            assert(t.take(s.len() as int) =~= s);
            assert(t[s.len() as int].id == id);
        },
    }
}

/// Saving under an existing id keeps ids unique.
pub proof fn lemma_upsert_keeps_ids_unique(
    s: Seq<IndexEntryView>,
    id: Seq<char>,
    date: Seq<char>,
    title: Seq<char>,
    now: u64,
)
    requires
        ids_unique(s),
    ensures
        ids_unique(upsert_spec(s, id, date, title, now)),
{
    lemma_first_with_id(s, id);
    let t = upsert_spec(s, id, date, title, now);
    match first_with_id(s, id) {
        Some(k) => {
            assert forall|i: int, j: int| 0 <= i < j < t.len() implies #[trigger] t[i].id != #[trigger] t[j].id by {
                assert(t[i].id == s[i].id);
                assert(t[j].id == s[j].id);
            }
        },
        None => {
            assert forall|i: int, j: int| 0 <= i < j < t.len() implies #[trigger] t[i].id != #[trigger] t[j].id by {
                if j < s.len() {
                    assert(t[i] == s[i]);
                    assert(t[j] == s[j]);
                } else {
                    assert(t[i] == s[i]);
                }
            }
        },
    }
}

/// Saving a new entry under a fresh id keeps ids unique when the id is not
/// used yet.
pub proof fn lemma_append_keeps_ids_unique(s: Seq<IndexEntryView>, e: IndexEntryView)
    requires
        ids_unique(s),
        forall|j: int| 0 <= j < s.len() ==> s[j].id != e.id,
    ensures
        ids_unique(s.push(e)),
{
    let t = s.push(e);
    assert forall|i: int, j: int| 0 <= i < j < t.len() implies #[trigger] t[i].id != #[trigger] t[j].id by {
        assert(t[i] == s[i]);
        if j < s.len() {
            assert(t[j] == s[j]);
        }
    }
}

/// The position of the first record with id `id`.
fn find_id_pos(entries: &Vec<IndexEntry>, id: &String) -> (r: Option<usize>)
    ensures
        first_with_id(entries@.map_values(|e: IndexEntry| e@), id@) == match r {
            Some(p) => Some(p as int),
            None => None::<int>,
        },
        r matches Some(p) ==> p < entries@.len(),
{
    let ghost s = entries@.map_values(|e: IndexEntry| e@);
    let mut i: usize = 0;
    while i < entries.len()
        invariant
            i <= entries@.len(),
            s == entries@.map_values(|e: IndexEntry| e@),
            forall|j: int| 0 <= j < i ==> s[j].id != id@,
        decreases entries@.len() - i,
    {
        if same_id(&entries[i], id) {
            proof {
                lemma_first_unique(s, id@, i as int);
            }
            return Some(i);
        }
        i = i + 1;
    }
    proof {
        lemma_first_with_id(s, id@);
        if first_with_id(s, id@) is Some {
            let k = first_with_id(s, id@)->0;
            assert(s[k].id == id@);
        }
    }
    None
}

fn same_id(e: &IndexEntry, id: &String) -> (b: bool)
    ensures
        b == (e.id@ == id@),
{
    e.id == *id
}

/// Saves an entry in the index and returns its id. With a non-empty `id`
/// the entry is updated in place (or appended if the index lacks it);
/// otherwise a new entry with a fresh UUID is appended. The title is
/// derived from the content. Refused, with the index untouched, while the
/// session is locked.
pub fn save_entry(session: &Session, index: &mut Index, id: Option<String>, date: String, content: &str, now: u64) -> (r: Result<String, CommandError>)
    ensures
        session.key() is None <==> r == Err::<String, CommandError>(CommandError::Locked),
        session.key() is None ==> final(index)@ == old(index)@,
        match r {
            Ok(eid) => match id {
                Some(x) if x@.len() > 0 => eid@ == x@ && final(index)@ == upsert_spec(old(index)@, x@, date@, derive_title_spec(content@), now),
                _ => eid@.len() == 36 && (exists|b: Seq<u8>| b.len() == 16 && eid@ == #[trigger] uuid_v4_text(b))
                    && final(index)@ == old(index)@.push(new_record(eid@, date@, derive_title_spec(content@), now)),
            },
            Err(e) => (e == CommandError::Locked && session.key() is None) || (e == CommandError::Crypto(CryptoError::Random) && final(index)@ == old(index)@ && match id {
                Some(x) => x@.len() == 0,
                None => true,
            }),
        },
        r matches Ok(eid) ==> exists|i: int| {
            &&& 0 <= i < final(index)@.len()
            &&& #[trigger] final(index)@[i].id == eid@
            &&& final(index)@[i].date == date@
            &&& final(index)@[i].title == derive_title_spec(content@)
            &&& final(index)@[i].updated_at == now
            &&& forall|j: int| 0 <= j < old(index)@.len() && j != i ==> final(index)@[j] == old(index)@[j]
        },
        r is Ok ==> final(index)@.len() == old(index)@.len() || final(index)@.len() == old(index)@.len() + 1,
{
    if !session.is_unlocked() {
        return Err(CommandError::Locked);
    }
    let title = derive_title(content);
    let ghost dv = date@;
    let ghost tv = title@;
    match id {
        Some(existing) if !existing.as_str().is_empty() => {
            let ghost s = index@;
            let pos = find_id_pos(&index.entries, &existing);
            match pos {
                Some(p) => {
                    let old_e = &index.entries[p];
                    let e = IndexEntry {
                        id: old_e.id.clone(),
                        date,
                        title,
                        created_at: old_e.created_at,
                        updated_at: now,
                    };
                    index.entries.set(p, e);
                    assert(index@ =~= upsert_spec(s, existing@, e.date@, e.title@, now));
                },
                None => {
                    let e = IndexEntry {
                        id: existing.clone(),
                        date,
                        title,
                        created_at: now,
                        updated_at: now,
                    };
                    index.entries.push(e);
                    assert(index@ =~= upsert_spec(s, existing@, e.date@, e.title@, now));
                },
            }
            proof {
                law_upsert_records_the_save(s, existing@, dv, tv, now);
                let t = upsert_spec(s, existing@, dv, tv, now);
                let i = choose|i: int| {
                    &&& 0 <= i < t.len()
                    &&& #[trigger] t[i].id == existing@
                    &&& t[i].date == dv
                    &&& t[i].title == tv
                    &&& t[i].updated_at == now
                    &&& forall|j: int| 0 <= j < s.len() && j != i ==> t[j] == s[j]
                };
                assert(index@[i].id == existing@);
                lemma_first_with_id(s, existing@);
            }
            Ok(existing)
        },
        _ => {
            let nid = match new_uuid() {
                Ok(n) => n,
                Err(e) => return Err(CommandError::Crypto(e)),
            };
            let ghost s = index@;
            let e = IndexEntry { id: nid.clone(), date, title, created_at: now, updated_at: now };
            index.entries.push(e);
            assert(index@ =~= s.push(new_record(nid@, e.date@, e.title@, now)));
            assert(index@[s.len() as int].id == nid@);
            Ok(nid)
        },
    }
}

proof fn lemma_first_unique(s: Seq<IndexEntryView>, id: Seq<char>, i: int)
    requires
        0 <= i < s.len(),
        s[i].id == id,
        forall|j: int| 0 <= j < i ==> s[j].id != id,
    ensures
        first_with_id(s, id) == Some(i),
{
    lemma_first_with_id(s, id);
    match first_with_id(s, id) {
        Some(k) => {
            if k > i {
            } else if k < i {
            }
        },
        None => {},
    }
}

/// The index without the records whose id is `id`.
pub open spec fn without_id(s: Seq<IndexEntryView>, id: Seq<char>) -> Seq<IndexEntryView>
    decreases s.len(),
{
    if s.len() == 0 {
        s
    } else if s.last().id == id {
        without_id(s.drop_last(), id)
    } else {
        without_id(s.drop_last(), id).push(s.last())
    }
}

/// Deleting keeps exactly the records whose id differs from the deleted
/// one, in their order.
pub proof fn law_delete_keeps_exactly_the_others(s: Seq<IndexEntryView>, id: Seq<char>)
    ensures
        without_id(s, id) == s.filter(|e: IndexEntryView| e.id != id),
    decreases s.len(),
{
    reveal(Seq::filter);
    if s.len() > 0 {
        law_delete_keeps_exactly_the_others(s.drop_last(), id);
    }
}

/// Removes every record with id `id` from the index, keeping the others in order.
pub fn delete_entry(index: &mut Index, id: &str)
    ensures
        final(index)@ == without_id(old(index)@, id@),
        final(index)@ == old(index)@.filter(|e: IndexEntryView| e.id != id@),
{
    proof {
        law_delete_keeps_exactly_the_others(index@, id@);
    }
    let ghost s = index@;
    let mut k: usize = 0;
    let ghost mut i: int = 0;
    assert(index@ =~= without_id(s.take(0), id@) + s.skip(0));
    while k < index.entries.len()
        invariant
            0 <= i <= s.len(),
            index@ == without_id(s.take(i), id@) + s.skip(i),
            k == without_id(s.take(i), id@).len(),
        decreases s.len() - i,
    {
        proof {
            assert(s.take(i + 1).drop_last() =~= s.take(i));
            assert(index@[k as int] == s[i]);
            assert(s.take(i + 1).last() == s[i]);
        }
        let ghost before = index@;
        let ghost w = without_id(s.take(i), id@);
        if str_equal(index.entries[k].id.as_str(), id) {
            assert(s[i].id == id@);
            assert(without_id(s.take(i + 1), id@) == w);
            let _gone = index.entries.remove(k);
            assert(index@ =~= before.remove(k as int));
            assert(index@ =~= without_id(s.take(i + 1), id@) + s.skip(i + 1));
        } else {
            assert(s[i].id != id@);
            assert(without_id(s.take(i + 1), id@) == w.push(s[i]));
            k = k + 1;
            assert(index@ =~= without_id(s.take(i + 1), id@) + s.skip(i + 1));
        }
        proof {
            i = i + 1;
        }
    }
    proof {
        assert(i == s.len());
        assert(s.take(i) =~= s);
        assert(index@ =~= without_id(s, id@));
    }
}

// ───────────────────────── keys ─────────────────────────

/// Why the data key could not be taken out of `meta.json`.
#[derive(Debug, Clone, Copy, PartialEq, Eq)]
pub enum DekError {
    /// The salt is not valid base64.
    SaltEncoding,
    /// Key derivation failed.
    Kdf(CryptoError),
    /// The sealed DEK does not open under the derived key (wrong password, or damaged data).
    Unwrap,
    /// The sealed DEK does not hold 32 bytes.
    Length,
}

/// The UTF-8 bytes of a password.
pub open spec fn password_bytes(p: Seq<char>) -> Seq<u8> {
    vstd::utf8::encode_utf8(p)
}

/// The data key that `meta.json` seals under the key derived from `password`.
pub open spec fn meta_dek(m: Meta, password: Seq<char>) -> Result<Seq<u8>, DekError> {
    match base64_decoding(m.kdf.salt@) {
        None => Err(DekError::SaltEncoding),
        Some(salt) => match derive_key_spec(password_bytes(password), salt, m.kdf.params) {
            Err(e) => Err(DekError::Kdf(e)),
            Ok(kek) => match unseal_spec(kek, m.wrapped_dek.nonce@, m.wrapped_dek.ct@) {
                Err(_) => Err(DekError::Unwrap),
                Ok(dek) => if dek.len() == KEY_LEN {
                    Ok(dek)
                } else {
                    Err(DekError::Length)
                },
            },
        },
    }
}

fn password_bytes_of(p: &str) -> (b: &[u8])
    ensures
        b@ == password_bytes(p@),
{
    p.as_bytes()
}

/// Copies 32 bytes into a key.
fn key_from_vec(v: &Vec<u8>) -> (k: [u8; KEY_LEN])
    requires
        v@.len() == KEY_LEN,
    ensures
        k@ == v@,
{
    let mut k = [0u8; KEY_LEN];
    let mut i: usize = 0;
    while i < KEY_LEN
        invariant
            i <= KEY_LEN,
            v@.len() == KEY_LEN,
            forall|j: int| 0 <= j < i ==> k@[j] == v@[j],
        decreases KEY_LEN - i,
    {
        k[i] = v[i];
        i = i + 1;
    }
    assert(k@ =~= v@);
    k
}

/// Derives the key-encryption key from the password and opens the sealed
/// data key of `meta.json`.
pub fn open_dek(meta: &Meta, password: &str) -> (r: Result<[u8; KEY_LEN], DekError>)
    ensures
        match r {
            Ok(k) => meta_dek(*meta, password@) == Ok::<Seq<u8>, DekError>(k@),
            Err(e) => meta_dek(*meta, password@) == Err::<Seq<u8>, DekError>(e),
        },
{
    let salt = match base64_decode(meta.kdf.salt.as_str()) {
        Ok(s) => s,
        Err(_) => return Err(DekError::SaltEncoding),
    };
    let kek = match derive_key(password_bytes_of(password), salt.as_slice(), &meta.kdf.params) {
        Ok(k) => k,
        Err(e) => return Err(DekError::Kdf(e)),
    };
    let dek = match unseal(&kek, &meta.wrapped_dek) {
        Ok(d) => d,
        Err(_) => return Err(DekError::Unwrap),
    };
    if dek.len() != KEY_LEN {
        return Err(DekError::Length);
    }
    Ok(key_from_vec(&dek))
}

/// What unlocking with `password` gives: the data key, or `WrongPassword`
/// whatever failed.
pub open spec fn unlock_spec(m: Meta, password: Seq<char>) -> Result<Seq<u8>, CommandError> {
    match meta_dek(m, password) {
        Ok(k) => Ok(k),
        Err(_) => Err(CommandError::WrongPassword),
    }
}

/// Unlocks with a password: the data key, or `WrongPassword` whatever failed.
pub fn unlock(meta: &Meta, password: &str) -> (r: Result<[u8; KEY_LEN], CommandError>)
    ensures
        match r {
            Ok(k) => unlock_spec(*meta, password@) == Ok::<Seq<u8>, CommandError>(k@),
            Err(e) => unlock_spec(*meta, password@) == Err::<Seq<u8>, CommandError>(e),
        },
{
    match open_dek(meta, password) {
        Ok(k) => Ok(k),
        Err(_) => Err(CommandError::WrongPassword),
    }
}

/// A key-derivation or encryption failure as a command error.
fn crypto_err<T>(r: Result<T, CryptoError>) -> (o: Result<T, CommandError>)
    ensures
        match r {
            Ok(v) => o == Ok::<T, CommandError>(v),
            Err(e) => o == Err::<T, CommandError>(CommandError::Crypto(e)),
        },
{
    match r {
        Ok(v) => Ok(v),
        Err(e) => Err(CommandError::Crypto(e)),
    }
}

/// Whether `m` is the `meta.json` of a vault set up with these values.
pub open spec fn fresh_meta(m: Meta, hint: Seq<char>, params: KdfParams) -> bool {
    &&& m.version == 1
    &&& m.cipher@ == "xchacha20poly1305"@
    &&& m.kdf.algo@ == "argon2id"@
    &&& m.kdf.params == params
    &&& m.hint@ == hint
}

/// The sizes `meta.json` has by its format: the salt decodes to 16 bytes,
/// the wrapped DEK's nonce to 24 and its ciphertext to 48 (a 32-byte key and
/// the 16-byte tag).
pub open spec fn meta_sizes_ok(m: Meta) -> bool {
    &&& base64_decoding(m.kdf.salt@) matches Some(s) && s.len() == SALT_LEN
    &&& base64_decoding(m.wrapped_dek.nonce@) matches Some(n) && n.len() == NONCE_LEN
    &&& base64_decoding(m.wrapped_dek.ct@) matches Some(c) && c.len() == KEY_LEN + TAG_LEN
}

/// First-time set-up: a random salt and a random data key (DEK); the DEK is
/// sealed under the key derived from the password, and the `meta.json` for
/// the new vault is returned with the DEK. Refused when the vault exists or
/// the password is empty.
pub fn setup_password(vault_exists: bool, password: &str, hint: String, now: u64) -> (r: Result<(Meta, [u8; KEY_LEN]), CommandError>)
    ensures
        r == Err::<(Meta, [u8; KEY_LEN]), CommandError>(CommandError::VaultExists) <==> vault_exists,
        r == Err::<(Meta, [u8; KEY_LEN]), CommandError>(CommandError::EmptyPassword) <==> (!vault_exists && password@.len() == 0),
        match r {
            Ok((m, dek)) => {
                &&& meta_dek(m, password@) == Ok::<Seq<u8>, DekError>(dek@)
                &&& fresh_meta(m, hint@, KdfParams { m_cost: 19_456, t_cost: 2, p_cost: 1 })
                &&& meta_sizes_ok(m)
                &&& m.created_at == now
            },
            Err(e) => if vault_exists {
                e == CommandError::VaultExists
            } else if password@.len() == 0 {
                e == CommandError::EmptyPassword
            } else {
                e == CommandError::Crypto(CryptoError::Random)
                    || (e == CommandError::Crypto(CryptoError::KeyDerivation) && password_bytes(password@).len() > 0xFFFF_FFFF)
            },
        },
{
    if vault_exists {
        return Err(CommandError::VaultExists);
    }
    if password.is_empty() {
        return Err(CommandError::EmptyPassword);
    }
    let params = KdfParams::default();
    let salt = crypto_err(random_salt())?;
    let kek = crypto_err(derive_key(password_bytes_of(password), salt.as_slice(), &params))?;
    let dek = crypto_err(random_dek())?;
    let wrapped = crypto_err(seal(&kek, dek.as_slice()))?;
    let salt_b64 = base64_encode(salt.as_slice());
    let meta = build_meta(hint, salt_b64, params, wrapped, now);
    Ok((meta, dek))
}

/// A Sealed field by field.
fn copy_sealed(s: &Sealed) -> (c: Sealed)
    ensures
        c.nonce@ == s.nonce@,
        c.ct@ == s.ct@,
{
    Sealed { nonce: s.nonce.clone(), ct: s.ct.clone() }
}

/// Changes the password: the data key is taken out with the old password and
/// sealed again under the key derived from the new password and a fresh
/// salt (with the default costs). The entries stay as they are; the hint is
/// replaced when a new one is given.
pub fn change_password(meta: &Meta, old_password: &str, new_password: &str, new_hint: Option<String>) -> (r: Result<Meta, CommandError>)
    ensures
        new_password@.len() == 0 ==> r == Err::<Meta, CommandError>(CommandError::EmptyNewPassword),
        new_password@.len() > 0 && meta_dek(*meta, old_password@) == Err::<Seq<u8>, DekError>(DekError::Unwrap) ==> r == Err::<Meta, CommandError>(CommandError::WrongOldPassword),
        match r {
            Ok(m) => {
                &&& meta_dek(*meta, old_password@) is Ok
                &&& meta_dek(m, new_password@) == meta_dek(*meta, old_password@)
                &&& meta_sizes_ok(m)
                &&& m.version == meta.version
                &&& m.cipher@ == meta.cipher@
                &&& m.created_at == meta.created_at
                &&& m.kdf.algo@ == "argon2id"@
                &&& m.kdf.params == (KdfParams { m_cost: 19_456, t_cost: 2, p_cost: 1 })
                &&& m.hint@ == match new_hint {
                    Some(h) => h@,
                    None => meta.hint@,
                }
            },
            Err(e) => if new_password@.len() == 0 {
                e == CommandError::EmptyNewPassword
            } else {
                match meta_dek(*meta, old_password@) {
                    Err(DekError::SaltEncoding) => e == CommandError::Crypto(CryptoError::Base64),
                    Err(DekError::Kdf(x)) => e == CommandError::Crypto(x),
                    Err(DekError::Unwrap) => e == CommandError::WrongOldPassword,
                    Err(DekError::Length) => e == CommandError::BadDekLength,
                    Ok(_) => e == CommandError::Crypto(CryptoError::Random)
                        || (e == CommandError::Crypto(CryptoError::KeyDerivation) && password_bytes(new_password@).len() > 0xFFFF_FFFF),
                }
            },
        },
{
    if new_password.is_empty() {
        return Err(CommandError::EmptyNewPassword);
    }
    let dek = match open_dek(meta, old_password) {
        Ok(k) => k,
        Err(DekError::SaltEncoding) => return Err(CommandError::Crypto(CryptoError::Base64)),
        Err(DekError::Kdf(e)) => return Err(CommandError::Crypto(e)),
        Err(DekError::Unwrap) => return Err(CommandError::WrongOldPassword),
        Err(DekError::Length) => return Err(CommandError::BadDekLength),
    };
    let params = KdfParams::default();
    let new_salt = crypto_err(random_salt())?;
    let new_kek = crypto_err(derive_key(password_bytes_of(new_password), new_salt.as_slice(), &params))?;
    let wrapped = crypto_err(seal(&new_kek, dek.as_slice()))?;
    let hint = match new_hint {
        Some(h) => h,
        None => meta.hint.clone(),
    };
    let m = Meta {
        version: meta.version,
        cipher: meta.cipher.clone(),
        kdf: KdfMeta { algo: "argon2id".to_owned(), params, salt: base64_encode(new_salt.as_slice()) },
        hint,
        wrapped_dek: wrapped,
        created_at: meta.created_at,
    };
    Ok(m)
}

/// A vault set up with a password unlocks with that password and gives back
/// the data key it was set up with (`setup_password` ensures the requirement).
pub proof fn law_unlock_after_setup(m: Meta, password: Seq<char>, dek: Seq<u8>)
    requires
        meta_dek(m, password) == Ok::<Seq<u8>, DekError>(dek),
    ensures
        unlock_spec(m, password) == Ok::<Seq<u8>, CommandError>(dek),
{
}

/// After a password change (`change_password` ensures the requirements) the
/// new password unlocks the vault with the same data key the old one gave,
/// so every encrypted file decrypts exactly as before.
pub proof fn law_password_change_keeps_data(
    old_meta: Meta,
    new_meta: Meta,
    old_password: Seq<char>,
    new_password: Seq<char>,
    data: Seq<u8>,
)
    requires
        meta_dek(old_meta, old_password) is Ok,
        meta_dek(new_meta, new_password) == meta_dek(old_meta, old_password),
    ensures
        unlock_spec(new_meta, new_password) is Ok,
        unlock_spec(new_meta, new_password) == unlock_spec(old_meta, old_password),
        crate::crypto::decrypt_file_spec(unlock_spec(new_meta, new_password)->Ok_0, data)
            == crate::crypto::decrypt_file_spec(unlock_spec(old_meta, old_password)->Ok_0, data),
{
}

// ───────────────────────── cloud settings and restore ─────────────────────────

/// The cloud settings as the front end sees them (never the password itself).
#[derive(Debug)]
pub struct WebDavConfigPublic {
    pub url: String,
    pub username: String,
    pub remote_dir: String,
    pub has_password: bool,
    pub configured: bool,
}

/// The public view of the stored cloud settings; defaults for Nutstore
/// when there are none.
pub fn public_config(cfg: Option<WebDavConfig>) -> (p: WebDavConfigPublic)
    ensures
        match cfg {
            Some(c) => p.url@ == c.url@ && p.username@ == c.username@ && p.remote_dir@ == c.remote_dir@
                && p.has_password == (c.password@.len() > 0) && p.configured,
            None => p.url@ == "https://dav.jianguoyun.com/dav/"@ && p.username@.len() == 0
                && p.remote_dir@ == "private-diary"@ && !p.has_password && !p.configured,
        },
{
    match cfg {
        Some(c) => {
            let has = !c.password.as_str().is_empty();
            WebDavConfigPublic { url: c.url, username: c.username, remote_dir: c.remote_dir, has_password: has, configured: true }
        },
        None => WebDavConfigPublic {
            url: "https://dav.jianguoyun.com/dav/".to_owned(),
            username: String::new(),
            remote_dir: "private-diary".to_owned(),
            has_password: false,
            configured: false,
        },
    }
}

/// New cloud settings: URL, user name and remote directory trimmed of white
/// space; a missing or empty password keeps the stored one (or is empty
/// when nothing is stored).
pub fn merge_config(existing: Option<WebDavConfig>, url: &str, username: &str, password: Option<String>, remote_dir: &str) -> (c: WebDavConfig)
    ensures
        c.url@ == trim_spec(url@, CharClass::WhiteSpace),
        c.username@ == trim_spec(username@, CharClass::WhiteSpace),
        c.remote_dir@ == trim_spec(remote_dir@, CharClass::WhiteSpace),
        c.password@ == match password {
            Some(p) if p@.len() > 0 => p@,
            _ => match existing {
                Some(e) => e.password@,
                None => Seq::<char>::empty(),
            },
        },
{
    let pass = match password {
        Some(p) if !p.as_str().is_empty() => p,
        _ => match existing {
            Some(e) => e.password,
            None => String::new(),
        },
    };
    WebDavConfig {
        url: crate::text::trim_str(url),
        username: crate::text::trim_str(username),
        password: pass,
        remote_dir: crate::text::trim_str(remote_dir),
    }
}

/// The files to download when restoring from the server: the listed
/// files (a path listed twice keeps its last etag); refused when there is
/// no `meta.json`.
pub fn restore_files(listed: &Vec<RemoteEntry>) -> (r: Result<PathMap<String>, CommandError>)
    ensures
        match r {
            Ok(m) => m.wf() && m.has("meta.json"@) && forall|k: Seq<char>| #[trigger] m.has(k) <==> exists|i: int| 0 <= i < listed@.len() && !listed@[i].is_dir && #[trigger] listed@[i].rel@ == k,
            Err(e) => e == CommandError::NothingToRestore && !exists|i: int| 0 <= i < listed@.len() && !listed@[i].is_dir && #[trigger] listed@[i].rel@ == "meta.json"@,
        },
{
    let m = collect_remote(listed);
    if !m.contains("meta.json") {
        return Err(CommandError::NothingToRestore);
    }
    Ok(m)
}

/// Opens the restored vault with the diary password.
pub fn restore_dek(meta: &Meta, diary_password: &str) -> (r: Result<[u8; KEY_LEN], CommandError>)
    ensures
        match r {
            Ok(k) => meta_dek(*meta, diary_password@) == Ok::<Seq<u8>, DekError>(k@),
            Err(e) => match meta_dek(*meta, diary_password@) {
                Err(DekError::SaltEncoding) => e == CommandError::Crypto(CryptoError::Base64),
                Err(DekError::Kdf(x)) => e == CommandError::Crypto(x),
                Err(DekError::Unwrap) => e == CommandError::WrongDiaryPassword,
                Err(DekError::Length) => e == CommandError::BadDekLength,
                Ok(_) => false,
            },
        },
{
    match open_dek(meta, diary_password) {
        Ok(k) => Ok(k),
        Err(DekError::SaltEncoding) => Err(CommandError::Crypto(CryptoError::Base64)),
        Err(DekError::Kdf(e)) => Err(CommandError::Crypto(e)),
        Err(DekError::Unwrap) => Err(CommandError::WrongDiaryPassword),
        Err(DekError::Length) => Err(CommandError::BadDekLength),
    }
}

// ───────────────────────── plaintext backup ─────────────────────────

/// The pattern of an image reference in Markdown: `blob:<id>.<ext>`.
pub const BLOB_PATTERN: &'static str = "blob:([0-9a-fA-F\\-]+)\\.([A-Za-z0-9]+)";

/// What a backup refers to an image as: `images/<id>.<ext>`.
pub const BLOB_REPLACEMENT: &'static str = "images/$1.$2";

/// For a regular expression and a text: the first two capture groups of
/// every match, in order (an unmatched group as empty), or `None` when the
/// pattern does not compile.
pub uninterp spec fn regex_capture_pairs(pattern: Seq<char>, text: Seq<char>) -> Option<Seq<(Seq<char>, Seq<char>)>>;

/// For a regular expression, a text and a replacement: the text with every
/// match replaced (`$n` expanding to group n), or `None` when the pattern
/// does not compile.
pub uninterp spec fn regex_replacement(pattern: Seq<char>, text: Seq<char>, replacement: Seq<char>) -> Option<Seq<char>>;

pub open spec fn pairs_view(v: Seq<(String, String)>) -> Seq<(Seq<char>, Seq<char>)> {
    v.map_values(|p: (String, String)| (p.0@, p.1@))
}

/// `regex::Regex::new` and `Regex::captures_iter`, keeping groups 1 and 2 of
/// each match. Claims: the result is the named list of group pairs.
#[verifier::external_body]
fn regex_captures(pattern: &str, text: &str) -> (r: Option<Vec<(String, String)>>)
    ensures
        regex_capture_pairs(pattern@, text@) == match r { Some(v) => Some(pairs_view(v@)), None => None::<Seq<(Seq<char>, Seq<char>)>> },
{
    let re = regex::Regex::new(pattern).ok()?;
    let group = |c: &regex::Captures, i: usize| c.get(i).map_or(String::new(), |m| m.as_str().to_string());
    Some(re.captures_iter(text).map(|c| (group(&c, 1), group(&c, 2))).collect())
}

/// `regex::Regex::new` and `Regex::replace_all`. Claims: the result is the
/// named replacement.
#[verifier::external_body]
fn regex_replace_all(pattern: &str, text: &str, replacement: &str) -> (r: Option<String>)
    ensures
        regex_replacement(pattern@, text@, replacement@) == match r { Some(s) => Some(s@), None => None::<Seq<char>> },
{
    let re = regex::Regex::new(pattern).ok()?;
    Some(re.replace_all(text, replacement).into_owned())
}

/// An image a backup copies: the blob to read and the file to write it to.
#[derive(Debug)]
pub struct BackupImage {
    pub blob_id: String,
    pub file_name: String,
}

/// One entry of a plaintext backup.
#[derive(Debug)]
pub struct BackupItem {
    /// `<date>-<first 6 characters of the id>.md`
    pub file_name: String,
    /// The Markdown with every `blob:<id>.<ext>` turned into `images/<id>.<ext>`.
    pub markdown: String,
    /// The images the entry refers to, in order.
    pub images: Vec<BackupImage>,
}

/// The file name of an entry in a backup.
pub open spec fn backup_name_spec(date: Seq<char>, id: Seq<char>) -> Seq<char> {
    date + seq!['-'] + (if id.len() <= 6 { id } else { id.take(6) }) + ".md"@
}

/// A backup file is named by the entry's date, `-`, the first six
/// characters of its id (all of a shorter id), and `.md`.
pub proof fn law_backup_name_parts(date: Seq<char>, id: Seq<char>)
    ensures
        ({
            let n = backup_name_spec(date, id);
            let m: int = if id.len() < 6 { id.len() as int } else { 6 };
            &&& n.len() == date.len() + 1 + m + 3
            &&& n.take(date.len() as int) == date
            &&& n[date.len() as int] == '-'
            &&& n.subrange(date.len() as int + 1, date.len() + 1 + m) == id.take(m)
            &&& n.skip(n.len() - 3) == ".md"@
        }),
{
    reveal_strlit(".md");
    let n = backup_name_spec(date, id);
    let m: int = if id.len() < 6 { id.len() as int } else { 6 };
    assert(n.take(date.len() as int) =~= date);
    assert(n.subrange(date.len() as int + 1, date.len() + 1 + m) =~= id.take(m));
    assert(n.skip(n.len() - 3) =~= ".md"@);
}

/// What a backup makes of an entry with its decrypted Markdown.
#[verifier::spinoff_prover]
pub fn backup_entry(entry: &IndexEntry, markdown: &str) -> (r: Result<BackupItem, CommandError>)
    ensures
        match r {
            Ok(item) => {
                &&& item.file_name@ == backup_name_spec(entry.date@, entry.id@)
                &&& regex_replacement(BLOB_PATTERN@, markdown@, BLOB_REPLACEMENT@) == Some(item.markdown@)
                &&& regex_capture_pairs(BLOB_PATTERN@, markdown@) matches Some(pairs) && pairs.len() == item.images@.len()
                    && forall|i: int| 0 <= i < pairs.len() ==> #[trigger] item.images@[i].blob_id@ == pairs[i].0
                        && item.images@[i].file_name@ == image_ref_spec(pairs[i].0, pairs[i].1)
            },
            Err(e) => e == CommandError::Pattern && (regex_capture_pairs(BLOB_PATTERN@, markdown@) is None || regex_replacement(BLOB_PATTERN@, markdown@, BLOB_REPLACEMENT@) is None),
        },
{
    let pairs = match regex_captures(BLOB_PATTERN, markdown) {
        Some(p) => p,
        None => return Err(CommandError::Pattern),
    };
    let rewritten = match regex_replace_all(BLOB_PATTERN, markdown, BLOB_REPLACEMENT) {
        Some(s) => s,
        None => return Err(CommandError::Pattern),
    };
    let mut images: Vec<BackupImage> = Vec::new();
    let mut i: usize = 0;
    while i < pairs.len()
        invariant
            i <= pairs@.len(),
            images@.len() == i,
            forall|j: int| 0 <= j < i ==> #[trigger] images@[j].blob_id@ == pairs@[j].0@ && images@[j].file_name@ == image_ref_spec(pairs@[j].0@, pairs@[j].1@),
        decreases pairs@.len() - i,
    {
        let (id, ext) = (&pairs[i].0, &pairs[i].1);
        images.push(BackupImage { blob_id: id.clone(), file_name: image_ref(id.as_str(), ext.as_str()) });
        i = i + 1;
    }
    let mut name = chars_of(entry.date.as_str());
    name.push('-');
    let idc = chars_of(entry.id.as_str());
    let n = if idc.len() <= 6 {
        idc.len()
    } else {
        6
    };
    let short = copy_range(&idc, 0, n);
    assert(short@ =~= (if idc@.len() <= 6 { idc@ } else { idc@.take(6) }));
    append_chars(&mut name, &short);
    append_str(&mut name, ".md");
    Ok(BackupItem { file_name: string_of(&name), markdown: rewritten, images })
}

// ───────────────────────── the session ─────────────────────────

/// `zeroize::Zeroize::zeroize` on a key: overwrites it with zeros in place
/// (volatile writes, so the compiler keeps them). Claims the key is then all zeros.
#[verifier::external_body]
fn wipe_key(key: &mut [u8; KEY_LEN])
    ensures
        final(key)@ == Seq::new(KEY_LEN as nat, |i: int| 0u8),
{
    zeroize::Zeroize::zeroize(key);
}

/// The data key while the vault is unlocked. It is never written anywhere;
/// locking wipes it.
#[derive(Debug)]
pub struct Session {
    dek: Option<[u8; KEY_LEN]>,
}

impl Session {
    /// The key held, if unlocked.
    pub closed spec fn key(&self) -> Option<Seq<u8>> {
        match self.dek {
            Some(k) => Some(k@),
            None => None,
        }
    }

    /// A locked session.
    pub fn new() -> (s: Self)
        ensures
            s.key() is None,
    {
        Session { dek: None }
    }

    /// A copy of the data key, or `Locked` when the vault is locked.
    pub fn dek(&self) -> (r: Result<[u8; KEY_LEN], SessionError>)
        ensures
            match r {
                Ok(k) => self.key() == Some(k@),
                Err(e) => self.key() is None && e == SessionError::Locked,
            },
    {
        match self.dek {
            Some(k) => Ok(k),
            None => Err(SessionError::Locked),
        }
    }

    /// Holds `dek` (wiping a key held before).
    pub fn set_dek(&mut self, dek: [u8; KEY_LEN])
        ensures
            final(self).key() == Some(dek@),
    {
        self.clear();
        self.dek = Some(dek);
    }

    /// Locks: wipes the key held and forgets it.
    pub fn clear(&mut self)
        ensures
            final(self).key() is None,
    {
        match &mut self.dek {
            Some(k) => wipe_key(k),
            None => {},
        }
        self.dek = None;
    }

    /// Whether a key is held.
    pub fn is_unlocked(&self) -> (b: bool)
        ensures
            b == self.key() is Some,
    {
        self.dek.is_some()
    }
}

/// Why the session refused.
#[derive(Debug, Clone, Copy, PartialEq, Eq)]
pub enum SessionError {
    /// The vault is locked: unlock first.
    Locked,
}

} // verus!
