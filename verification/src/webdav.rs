//! The logic of a minimal WebDAV client (as used with Nutstore/Jianguoyun):
//! where requests go, how HTTP statuses are judged, and how a `PROPFIND`
//! (Depth: 1) answer becomes a list of remote entries. Sending the requests
//! is left to the caller; only ciphertext is ever carried.

use vstd::prelude::*;
use quick_xml::events::Event;
use crate::text::{
    find_from, lemma_rfind_after, lemma_rfind_none, append_chars, append_str, chars_of, contains_chars, find_chars, find_spec, rfind_char,
    rfind_spec, starts_with_chars, starts_with_spec, string_of, trim_chars, trim_end_chars,
    trim_spec, trim_end_spec, copy_range, chars_equal, lemma_find_from_bounds,
    lemma_rfind_before_bounds, CharClass, lemma_trim_ends, unicode_white_space, lemma_trim_start_push,
    lemma_trim_end_keeps, lemma_trim_end_push_in_class, lemma_lead_count_bound, trim_start_spec,
};

verus! {

// ───────────────────────── outside calls ─────────────────────────

/// A parsing event of an XML document, reduced to what the listing needs.
#[derive(Debug)]
pub enum XmlStep {
    /// Start tag, with its qualified name.
    Start(String),
    /// Empty-element tag, with its qualified name.
    Empty(String),
    /// End tag, with its qualified name.
    End(String),
    /// Character data (after end-of-line normalisation).
    Text(String),
    /// Anything else (declarations, comments, references, ...).
    Other,
}

/// The abstract value of an `XmlStep`.
pub ghost enum XmlStepView {
    Start(Seq<char>),
    Empty(Seq<char>),
    End(Seq<char>),
    Text(Seq<char>),
    Other,
}

impl View for XmlStep {
    type V = XmlStepView;

    open spec fn view(&self) -> XmlStepView {
        match self {
            XmlStep::Start(n) => XmlStepView::Start(n@),
            XmlStep::Empty(n) => XmlStepView::Empty(n@),
            XmlStep::End(n) => XmlStepView::End(n@),
            XmlStep::Text(t) => XmlStepView::Text(t@),
            XmlStep::Other => XmlStepView::Other,
        }
    }
}

/// The events `quick_xml` reads from a document with text trimming on, up to
/// the end of the document; `None` when it reports a syntax error.
pub uninterp spec fn xml_event_list(xml: Seq<char>) -> Option<Seq<XmlStepView>>;

/// The percent-decoding of a string, decoded as UTF-8 with invalid sequences replaced.
pub uninterp spec fn percent_decoded(s: Seq<char>) -> Seq<char>;

/// `quick_xml::reader::Reader::from_str` (with `trim_text(true)`) and
/// `Reader::read_event`, read until `Event::Eof`. Claims: the steps are the
/// named event list of the document, each event kept by its kind and name
/// (`BytesText::xml10_content` for text), or `None` on a parse error.
#[verifier::external_body]
fn xml_events(xml: &str) -> (r: Option<Vec<XmlStep>>)
    ensures
        xml_event_list(xml@) == match r { Some(v) => Some(v@.map_values(|e: XmlStep| e@)), None => None::<Seq<XmlStepView>> },
{
    let mut reader = quick_xml::reader::Reader::from_str(xml);
    reader.config_mut().trim_text(true);
    let mut out = Vec::new();
    loop {
        out.push(match reader.read_event() {
            Ok(Event::Start(e)) => XmlStep::Start(e.name().as_ref().to_string()),
            Ok(Event::Empty(e)) => XmlStep::Empty(e.name().as_ref().to_string()),
            Ok(Event::End(e)) => XmlStep::End(e.name().as_ref().to_string()),
            Ok(Event::Text(t)) => XmlStep::Text(t.xml10_content().into_owned()),
            Ok(Event::Eof) => return Some(out),
            Ok(_) => XmlStep::Other,
            Err(_) => return None,
        });
    }
}

/// `percent_encoding::percent_decode_str` and `PercentDecode::decode_utf8_lossy`.
/// Claims: the result is the named decoding.
#[verifier::external_body]
fn percent_decode_lossy(s: &str) -> (r: String)
    ensures
        r@ == percent_decoded(s@),
{
    percent_encoding::percent_decode_str(s).decode_utf8_lossy().into_owned()
}

// ───────────────────────── types ─────────────────────────

/// One remote item from a `PROPFIND` listing.
#[derive(Debug)]
pub struct RemoteEntry {
    /// Path relative to the root, e.g. "meta.json" or "entries/x.enc".
    pub rel: String,
    pub etag: String,
    pub is_dir: bool,
}

/// The abstract value of a `RemoteEntry`.
pub ghost struct RemoteEntryView {
    pub rel: Seq<char>,
    pub etag: Seq<char>,
    pub is_dir: bool,
}

impl View for RemoteEntry {
    type V = RemoteEntryView;

    open spec fn view(&self) -> RemoteEntryView {
        RemoteEntryView { rel: self.rel@, etag: self.etag@, is_dir: self.is_dir }
    }
}

/// The account the client talks to: the collection that holds the vault
/// (no trailing slash) and the Basic-auth credentials.
#[derive(Debug)]
pub struct WebDav {
    /// e.g. https://dav.jianguoyun.com/dav/private-diary
    pub root: String,
    pub user: String,
    pub pass: String,
}

// ───────────────────────── URLs ─────────────────────────

/// The path part of a URL (everything from the first `/` after `://`).
pub open spec fn url_path_spec(u: Seq<char>) -> Seq<char> {
    match find_spec(u, "://"@) {
        Some(idx) => {
            let after = u.skip(idx + 3);
            match find_spec(after, seq!['/']) {
                Some(slash) => after.skip(slash),
                None => seq!['/'],
            }
        },
        None => if starts_with_spec(u, seq!['/']) {
            u
        } else {
            seq!['/'] + u
        },
    }
}

/// The path part of a URL, without pulling in a URL parser.
pub fn url_path(u: &str) -> (r: String)
    ensures
        r@ == url_path_spec(u@),
{
    let cs = chars_of(u);
    let sep = chars_of("://");
    proof {
        reveal_strlit("://");
    }
    let slash: Vec<char> = vec!['/'];
    assert(slash@ =~= seq!['/']);
    match find_chars(&cs, &sep) {
        Some(idx) => {
            proof {
                lemma_find_from_bounds(cs@, sep@, 0);
                assert(sep@.len() == 3);
                assert(find_spec(cs@, sep@) == Some(idx as int));
                assert(find_from(cs@, sep@, 0) == Some(idx as int));
                assert(idx + 3 <= cs@.len());
            }
            let n = cs.len();
            assert(idx + 3 <= n);
            let after = copy_range(&cs, idx + 3, cs.len());
            assert(after@ =~= cs@.skip(idx + 3));
            match find_chars(&after, &slash) {
                Some(s) => {
                    proof {
                        lemma_find_from_bounds(after@, slash@, 0);
                    }
                    let rest = copy_range(&after, s, after.len());
                    assert(rest@ =~= after@.skip(s as int));
                    string_of(&rest)
                },
                None => string_of(&slash),
            }
        },
        None => {
            if starts_with_chars(&cs, &slash) {
                string_of(&cs)
            } else {
                let mut v = slash;
                append_chars(&mut v, &cs);
                string_of(&v)
            }
        },
    }
}

/// The path part of any URL is an absolute path: it starts with `/`. A
/// string without `://` that already starts with `/` is its own path.
pub proof fn law_url_path_is_absolute(u: Seq<char>)
    ensures
        url_path_spec(u).len() > 0,
        url_path_spec(u)[0] == '/',
        find_spec(u, "://"@) is None && u.len() > 0 && u[0] == '/' ==> url_path_spec(u) == u,
{
    match find_spec(u, "://"@) {
        Some(idx) => {
            let after = u.skip(idx + 3);
            match find_spec(after, seq!['/']) {
                Some(slash) => {
                    lemma_find_from_bounds(after, seq!['/'], 0);
                    assert(after.subrange(slash, slash + 1)[0] == after[slash]);
                },
                None => {},
            }
        },
        None => {
            if starts_with_spec(u, seq!['/']) {
                assert(u.take(1)[0] == u[0]);
            }
            if u.len() > 0 && u[0] == '/' {
                assert(u.take(1) =~= seq!['/']);
            }
        },
    }
}

/// The root collection: the URL trimmed of white space and trailing `/`,
/// followed by `/<dir>` when the remote directory, trimmed of white space and
/// of `/` on both sides, is not empty.
pub open spec fn root_spec(url: Seq<char>, remote_dir: Seq<char>) -> Seq<char> {
    let base = trim_end_spec(trim_spec(url, CharClass::WhiteSpace), CharClass::Exactly('/'));
    let dir = trim_spec(trim_spec(remote_dir, CharClass::WhiteSpace), CharClass::Exactly('/'));
    if dir.len() == 0 {
        base
    } else {
        base + seq!['/'] + dir
    }
}

/// When a remote directory is given (non-empty once white space and `/`
/// are trimmed), the root ends with `/` followed by exactly that directory:
/// the directory is always joined with one separator.
pub proof fn law_root_joins_dir_with_slash(url: Seq<char>, remote_dir: Seq<char>)
    ensures
        ({
            let dir = trim_spec(trim_spec(remote_dir, CharClass::WhiteSpace), CharClass::Exactly('/'));
            let root = root_spec(url, remote_dir);
            dir.len() > 0 ==> root.len() > dir.len() && root.skip(root.len() - dir.len() - 1) == seq!['/'] + dir
        }),
{
    let dir = trim_spec(trim_spec(remote_dir, CharClass::WhiteSpace), CharClass::Exactly('/'));
    let root = root_spec(url, remote_dir);
    if dir.len() > 0 {
        assert(root.skip(root.len() - dir.len() - 1) =~= seq!['/'] + dir);
    }
}

/// A trailing `/` on the server URL makes no difference to the root (for a
/// URL that does not end in white space, which would sit before the `/`).
pub proof fn law_root_ignores_trailing_slash(url: Seq<char>, remote_dir: Seq<char>)
    requires
        url.len() == 0 || !unicode_white_space(url.last()),
    ensures
        root_spec(url + seq!['/'], remote_dir) == root_spec(url, remote_dir),
{
    let ws = CharClass::WhiteSpace;
    let sl = CharClass::Exactly('/');
    assert(url + seq!['/'] =~= url.push('/'));
    lemma_trim_start_push(url, '/', ws);
    let a = trim_start_spec(url, ws);
    lemma_trim_end_keeps(a.push('/'), ws);
    lemma_trim_end_push_in_class(a, '/', sl);
    lemma_lead_count_bound(url, ws);
    if a.len() > 0 {
        assert(a.last() == url.last());
    }
    lemma_trim_end_keeps(a, ws);
}

/// The URL of `rel` under `root` (the root itself for an empty `rel`).
pub open spec fn url_spec(root: Seq<char>, rel: Seq<char>) -> Seq<char> {
    if rel.len() == 0 {
        root
    } else {
        root + seq!['/'] + rel
    }
}

impl WebDav {
    /// The client for a server URL, credentials and remote directory.
    pub fn new(url: &str, user: &str, pass: &str, remote_dir: &str) -> (d: Self)
        ensures
            d.root@ == root_spec(url@, remote_dir@),
            d.user@ == user@,
            d.pass@ == pass@,
    {
        let u = chars_of(url);
        let u1 = trim_chars(&u, CharClass::WhiteSpace);
        let mut root = trim_end_chars(&u1, CharClass::Exactly('/'));
        let r = chars_of(remote_dir);
        let r1 = trim_chars(&r, CharClass::WhiteSpace);
        let dir = trim_chars(&r1, CharClass::Exactly('/'));
        if dir.len() > 0 {
            root.push('/');
            append_chars(&mut root, &dir);
        }
        WebDav { root: string_of(&root), user: user.to_owned(), pass: pass.to_owned() }
    }

    /// The URL of a path relative to the root.
    pub fn url(&self, rel: &str) -> (u: String)
        ensures
            u@ == url_spec(self.root@, rel@),
    {
        if rel.is_empty() {
            self.root.clone()
        } else {
            let mut v = chars_of(self.root.as_str());
            v.push('/');
            append_str(&mut v, rel);
            string_of(&v)
        }
    }
}

// ───────────────────────── HTTP statuses ─────────────────────────

/// A 2xx status (`StatusCode::is_success`).
pub open spec fn is_success(status: u16) -> bool {
    200 <= status <= 299
}

pub fn status_is_success(status: u16) -> (b: bool)
    ensures
        b == is_success(status),
{
    200 <= status && status <= 299
}

/// `MKCOL` succeeded or the collection already exists (201, 405, 301 or 2xx).
pub fn mkcol_ok(status: u16) -> (b: bool)
    ensures
        b == (status == 201 || status == 405 || status == 301 || is_success(status)),
{
    status == 201 || status == 405 || status == 301 || status_is_success(status)
}

/// `DELETE` succeeded or there was nothing to delete (2xx or 404).
pub fn delete_ok(status: u16) -> (b: bool)
    ensures
        b == (is_success(status) || status == 404),
{
    status_is_success(status) || status == 404
}

/// What to do with the answer to a `PROPFIND`.
#[derive(Debug, Clone, Copy, PartialEq, Eq)]
pub enum PropfindOutcome {
    /// 404: the collection does not exist; the listing is empty.
    Missing,
    /// 2xx or 207: parse the body.
    Listing,
    /// Anything else: the request failed.
    Failed,
}

pub fn propfind_outcome(status: u16) -> (o: PropfindOutcome)
    ensures
        o == (if status == 404 {
            PropfindOutcome::Missing
        } else if is_success(status) || status == 207 {
            PropfindOutcome::Listing
        } else {
            PropfindOutcome::Failed
        }),
{
    if status == 404 {
        PropfindOutcome::Missing
    } else if status_is_success(status) || status == 207 {
        PropfindOutcome::Listing
    } else {
        PropfindOutcome::Failed
    }
}

// ───────────────────────── PROPFIND parsing ─────────────────────────

/// The local part of a qualified XML name (after the last `:`).
pub open spec fn local_name_spec(s: Seq<char>) -> Seq<char> {
    match rfind_spec(s, ':') {
        Some(i) => s.skip(i + 1),
        None => s,
    }
}

/// The local part of a qualified name holds no `:`, ends the name, and is
/// the whole name when there is no prefix.
pub proof fn law_local_name_has_no_prefix(q: Seq<char>)
    ensures
        forall|i: int| 0 <= i < local_name_spec(q).len() ==> #[trigger] local_name_spec(q)[i] != ':',
        local_name_spec(q).len() <= q.len(),
        q.skip(q.len() - local_name_spec(q).len()) == local_name_spec(q),
        (forall|i: int| 0 <= i < q.len() ==> #[trigger] q[i] != ':') ==> local_name_spec(q) == q,
{
    lemma_rfind_before_bounds(q, ':', q.len() as int);
    lemma_rfind_none(q, ':', q.len() as int);
    match rfind_spec(q, ':') {
        Some(j) => {
            lemma_rfind_after(q, ':', q.len() as int);
            assert forall|i: int| 0 <= i < local_name_spec(q).len() implies #[trigger] local_name_spec(q)[i] != ':' by {
                assert(local_name_spec(q)[i] == q[j + 1 + i]);
            }
            assert(q.skip(q.len() - local_name_spec(q).len()) =~= q.skip(j + 1));
        },
        None => {
            assert(q.skip(0) =~= q);
        },
    }
}

/// The local part of a qualified XML name.
pub fn local_name(qname: &str) -> (r: String)
    ensures
        r@ == local_name_spec(qname@),
{
    let cs = chars_of(qname);
    match rfind_char(&cs, ':') {
        Some(i) => {
            let rest = copy_range(&cs, i + 1, cs.len());
            assert(rest@ =~= cs@.skip(i + 1));
            string_of(&rest)
        },
        None => qname.to_owned(),
    }
}

/// The parser's state between events.
pub ghost struct ListingState {
    pub href: Seq<char>,
    pub etag: Seq<char>,
    pub is_dir: bool,
    pub in_href: bool,
    pub in_etag: bool,
    pub entries: Seq<RemoteEntryView>,
}

pub open spec fn initial_listing_state() -> ListingState {
    ListingState {
        href: Seq::<char>::empty(),
        etag: Seq::<char>::empty(),
        is_dir: false,
        in_href: false,
        in_etag: false,
        entries: Seq::<RemoteEntryView>::empty(),
    }
}

/// What a finished `<response>` contributes: its href (reduced to a path when
/// it is a full URL, then percent-decoded) must lie under `base`; the rest,
/// trimmed of `/`, names the entry, unless it is empty (the root itself).
pub open spec fn response_entry(st: ListingState, base: Seq<char>) -> Option<RemoteEntryView> {
    let path = if find_spec(st.href, "://"@) is Some {
        url_path_spec(st.href)
    } else {
        st.href
    };
    let decoded = percent_decoded(path);
    if starts_with_spec(decoded, base) {
        let rel = trim_spec(decoded.skip(base.len() as int), CharClass::Exactly('/'));
        if rel.len() > 0 {
            Some(
                RemoteEntryView {
                    rel,
                    etag: trim_spec(st.etag, CharClass::WhiteSpace),
                    is_dir: st.is_dir,
                },
            )
        } else {
            None
        }
    } else {
        None
    }
}

/// The effect of one event on the parser's state.
pub open spec fn listing_step(st: ListingState, ev: XmlStepView, base: Seq<char>) -> ListingState {
    match ev {
        XmlStepView::Start(q) => {
            let n = local_name_spec(q);
            if n == "response"@ {
                ListingState {
                    href: Seq::<char>::empty(),
                    etag: Seq::<char>::empty(),
                    is_dir: false,
                    ..st
                }
            } else if n == "href"@ {
                ListingState { in_href: true, ..st }
            } else if n == "getetag"@ {
                ListingState { in_etag: true, ..st }
            } else if n == "collection"@ {
                ListingState { is_dir: true, ..st }
            } else {
                st
            }
        },
        XmlStepView::Empty(q) => {
            if local_name_spec(q) == "collection"@ {
                ListingState { is_dir: true, ..st }
            } else {
                st
            }
        },
        XmlStepView::Text(t) => {
            if st.in_href {
                ListingState { href: st.href + t, ..st }
            } else if st.in_etag {
                ListingState { etag: st.etag + t, ..st }
            } else {
                st
            }
        },
        XmlStepView::End(q) => {
            let n = local_name_spec(q);
            if n == "href"@ {
                ListingState { in_href: false, ..st }
            } else if n == "getetag"@ {
                ListingState { in_etag: false, ..st }
            } else if n == "response"@ {
                match response_entry(st, base) {
                    Some(e) => ListingState { entries: st.entries.push(e), ..st },
                    None => st,
                }
            } else {
                st
            }
        },
        XmlStepView::Other => st,
    }
}

/// The parser's state after a sequence of events.
pub open spec fn listing_after(evs: Seq<XmlStepView>, base: Seq<char>) -> ListingState
    decreases evs.len(),
{
    if evs.len() == 0 {
        initial_listing_state()
    } else {
        listing_step(listing_after(evs.drop_last(), base), evs.last(), base)
    }
}

/// The entries that a `PROPFIND` answer lists for `root`, or `None` when the
/// XML does not parse.
pub open spec fn propfind_spec(xml: Seq<char>, root: Seq<char>) -> Option<Seq<RemoteEntryView>> {
    match xml_event_list(xml) {
        Some(evs) => Some(listing_after(evs, url_path_spec(root)).entries),
        None => None,
    }
}

/// What every listed entry looks like: a non-empty path without `/` at
/// either end, and an etag without white space at either end.
pub open spec fn tidy_entry(e: RemoteEntryView) -> bool {
    &&& e.rel.len() > 0
    &&& e.rel[0] != '/'
    &&& e.rel.last() != '/'
    &&& e.etag.len() > 0 ==> !unicode_white_space(e.etag[0]) && !unicode_white_space(e.etag.last())
}

proof fn lemma_response_entry_tidy(st: ListingState, base: Seq<char>)
    ensures
        response_entry(st, base) matches Some(e) ==> tidy_entry(e),
{
    let path = if find_spec(st.href, "://"@) is Some {
        url_path_spec(st.href)
    } else {
        st.href
    };
    let decoded = percent_decoded(path);
    lemma_trim_ends(decoded.skip(base.len() as int), CharClass::Exactly('/'));
    lemma_trim_ends(st.etag, CharClass::WhiteSpace);
}

/// Every entry a `PROPFIND` listing yields has a non-empty path with no `/`
/// at either end and an etag with no white space at either end.
pub proof fn lemma_listing_entries_tidy(evs: Seq<XmlStepView>, base: Seq<char>)
    ensures
        forall|i: int|
            0 <= i < listing_after(evs, base).entries.len() ==> tidy_entry(
                #[trigger] listing_after(evs, base).entries[i],
            ),
    decreases evs.len(),
{
    if evs.len() > 0 {
        let pre = listing_after(evs.drop_last(), base);
        lemma_listing_entries_tidy(evs.drop_last(), base);
        lemma_response_entry_tidy(pre, base);
        let post = listing_after(evs, base);
        assert(post == listing_step(pre, evs.last(), base));
        assert(post.entries == pre.entries || (response_entry(pre, base) matches Some(e) && post.entries == pre.entries.push(e)));
        assert forall|i: int| 0 <= i < post.entries.len() implies tidy_entry(#[trigger] post.entries[i]) by {
            if i < pre.entries.len() {
                assert(post.entries[i] == pre.entries[i]);
            }
        }
    }
}

/// The executable parser state.
struct ListingParser {
    href: Vec<char>,
    etag: Vec<char>,
    is_dir: bool,
    in_href: bool,
    in_etag: bool,
    entries: Vec<RemoteEntry>,
}

impl ListingParser {
    spec fn state(&self) -> ListingState {
        ListingState {
            href: self.href@,
            etag: self.etag@,
            is_dir: self.is_dir,
            in_href: self.in_href,
            in_etag: self.in_etag,
            entries: self.entries@.map_values(|e: RemoteEntry| e@),
        }
    }
}

/// Whether a name equals a literal.
fn name_is(n: &Vec<char>, lit: &str) -> (b: bool)
    ensures
        b == (n@ == lit@),
{
    let l = chars_of(lit);
    chars_equal(n, &l)
}

/// The entry of a finished `<response>`, if any.
fn finish_response(p: &ListingParser, base: &Vec<char>) -> (r: Option<RemoteEntry>)
    ensures
        match r {
            Some(e) => response_entry(p.state(), base@) == Some(e@),
            None => response_entry(p.state(), base@) is None,
        },
{
    let sep = chars_of("://");
    let path = if contains_chars(&p.href, &sep) {
        let h = string_of(&p.href);
        chars_of(url_path(h.as_str()).as_str())
    } else {
        copy_range(&p.href, 0, p.href.len())
    };
    assert(p.href@.subrange(0, p.href@.len() as int) =~= p.href@);
    let ps = string_of(&path);
    let decoded = chars_of(percent_decode_lossy(ps.as_str()).as_str());
    if starts_with_chars(&decoded, base) {
        let rest = copy_range(&decoded, base.len(), decoded.len());
        assert(rest@ =~= decoded@.skip(base@.len() as int));
        let rel = trim_chars(&rest, CharClass::Exactly('/'));
        if rel.len() > 0 {
            let etag = trim_chars(&p.etag, CharClass::WhiteSpace);
            Some(RemoteEntry { rel: string_of(&rel), etag: string_of(&etag), is_dir: p.is_dir })
        } else {
            None
        }
    } else {
        None
    }
}

/// Applies one event to the parser.
fn listing_apply(p: &mut ListingParser, ev: &XmlStep, base: &Vec<char>)
    ensures
        final(p).state() == listing_step(old(p).state(), ev@, base@),
{
    match ev {
        XmlStep::Start(q) => {
            let n = chars_of(local_name(q.as_str()).as_str());
            if name_is(&n, "response") {
                p.href = Vec::new();
                p.etag = Vec::new();
                p.is_dir = false;
            } else if name_is(&n, "href") {
                p.in_href = true;
            } else if name_is(&n, "getetag") {
                p.in_etag = true;
            } else if name_is(&n, "collection") {
                p.is_dir = true;
            }
        },
        XmlStep::Empty(q) => {
            let n = chars_of(local_name(q.as_str()).as_str());
            if name_is(&n, "collection") {
                p.is_dir = true;
            }
        },
        XmlStep::Text(t) => {
            if p.in_href {
                append_str(&mut p.href, t.as_str());
            } else if p.in_etag {
                append_str(&mut p.etag, t.as_str());
            }
        },
        XmlStep::End(q) => {
            let n = chars_of(local_name(q.as_str()).as_str());
            if name_is(&n, "href") {
                p.in_href = false;
            } else if name_is(&n, "getetag") {
                p.in_etag = false;
            } else if name_is(&n, "response") {
                match finish_response(p, base) {
                    Some(e) => {
                        let ghost before = p.entries@;
                        p.entries.push(e);
                        assert(p.entries@.map_values(|x: RemoteEntry| x@) =~= before.map_values(
                            |x: RemoteEntry| x@,
                        ).push(e@));
                    },
                    None => {},
                }
            }
        },
        XmlStep::Other => {},
    }
    assert(p.state() =~~= listing_step(old(p).state(), ev@, base@));
}

/// The entries that a sequence of XML events of a `PROPFIND` (Depth: 1)
/// answer lists under `root`.
pub fn listing_entries(events: &Vec<XmlStep>, root: &str) -> (v: Vec<RemoteEntry>)
    ensures
        v@.map_values(|e: RemoteEntry| e@) == listing_after(
            events@.map_values(|e: XmlStep| e@),
            url_path_spec(root@),
        ).entries,
{
    let base = chars_of(url_path(root).as_str());
    let ghost evs = events@.map_values(|e: XmlStep| e@);
    let mut p = ListingParser {
        href: Vec::new(),
        etag: Vec::new(),
        is_dir: false,
        in_href: false,
        in_etag: false,
        entries: Vec::new(),
    };
    proof {
        assert(evs.take(0) =~= Seq::<XmlStepView>::empty());
        assert(p.entries@.map_values(|e: RemoteEntry| e@) =~= Seq::<RemoteEntryView>::empty());
        assert(p.href@ =~= Seq::<char>::empty());
        assert(p.etag@ =~= Seq::<char>::empty());
        assert(p.state() == initial_listing_state());
    }
    let mut i: usize = 0;
    while i < events.len()
        invariant
            i <= events@.len(),
            evs == events@.map_values(|e: XmlStep| e@),
            p.state() == listing_after(evs.take(i as int), base@),
        decreases events@.len() - i,
    {
        listing_apply(&mut p, &events[i], &base);
        proof {
            assert(evs.take(i + 1).drop_last() =~= evs.take(i as int));
            assert(evs.take(i + 1).last() == events@[i as int]@);
        }
        i = i + 1;
    }
    assert(evs.take(events@.len() as int) =~= evs);
    p.entries
}

/// Parses a `PROPFIND` (Depth: 1) answer into the entries under `root`.
/// Returns `None` when the XML does not parse.
pub fn parse_propfind(xml: &str, root: &str) -> (r: Option<Vec<RemoteEntry>>)
    ensures
        match r {
            Some(v) => propfind_spec(xml@, root@) == Some(v@.map_values(|e: RemoteEntry| e@)),
            None => propfind_spec(xml@, root@) is None,
        },
{
    match xml_events(xml) {
        Some(events) => Some(listing_entries(&events, root)),
        None => None,
    }
}

} // verus!
