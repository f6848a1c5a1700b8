use private_diary::webdav::{
    delete_ok, listing_entries, local_name, mkcol_ok, parse_propfind, XmlStep, propfind_outcome, status_is_success,
    url_path, PropfindOutcome, WebDav,
};

#[test]
fn url_paths() {
    assert_eq!(url_path("https://dav.jianguoyun.com/dav/private-diary"), "/dav/private-diary");
    assert_eq!(url_path("https://host"), "/");
    assert_eq!(url_path("/dav/x"), "/dav/x");
    assert_eq!(url_path("dav/x"), "/dav/x");
}

#[test]
fn roots_and_urls() {
    let d = WebDav::new(" https://dav.jianguoyun.com/dav/// ", "u", "p", " /private-diary/ ");
    assert_eq!(d.root, "https://dav.jianguoyun.com/dav/private-diary");
    assert_eq!(d.user, "u");
    assert_eq!(d.pass, "p");
    assert_eq!(d.url(""), d.root);
    assert_eq!(d.url("entries/a.enc"), "https://dav.jianguoyun.com/dav/private-diary/entries/a.enc");
    let bare = WebDav::new("https://h/dav/", "u", "p", "  ");
    assert_eq!(bare.root, "https://h/dav");
}

#[test]
fn statuses() {
    assert!(status_is_success(200) && status_is_success(299) && !status_is_success(300));
    assert!(mkcol_ok(201) && mkcol_ok(405) && mkcol_ok(301) && mkcol_ok(200));
    assert!(!mkcol_ok(409));
    assert!(delete_ok(204) && delete_ok(404) && !delete_ok(403));
    assert_eq!(propfind_outcome(404), PropfindOutcome::Missing);
    assert_eq!(propfind_outcome(207), PropfindOutcome::Listing);
    assert_eq!(propfind_outcome(200), PropfindOutcome::Listing);
    assert_eq!(propfind_outcome(401), PropfindOutcome::Failed);
}

#[test]
fn local_names() {
    assert_eq!(local_name("d:response"), "response");
    assert_eq!(local_name("href"), "href");
    assert_eq!(local_name("a:b:c"), "c");
}

#[test]
fn propfind_listing() {
    let xml = r#"<?xml version="1.0" encoding="utf-8"?>
<d:multistatus xmlns:d="DAV:">
  <d:response>
    <d:href>/dav/private-diary/</d:href>
    <d:propstat><d:prop><d:resourcetype><d:collection/></d:resourcetype><d:getetag>"root"</d:getetag></d:prop></d:propstat>
  </d:response>
  <d:response>
    <d:href>/dav/private-diary/meta.json</d:href>
    <d:propstat><d:prop><d:resourcetype/><d:getetag> "e1" </d:getetag></d:prop></d:propstat>
  </d:response>
  <d:response>
    <d:href>https://dav.jianguoyun.com/dav/private-diary/entries/</d:href>
    <d:propstat><d:prop><d:resourcetype><d:collection/></d:resourcetype></d:prop></d:propstat>
  </d:response>
  <d:response>
    <d:href>/dav/private-diary/blobs/%E5%9B%BE.enc</d:href>
    <d:propstat><d:prop><d:getetag>"e2"</d:getetag></d:prop></d:propstat>
  </d:response>
  <d:response>
    <d:href>/elsewhere/x</d:href>
  </d:response>
</d:multistatus>"#;
    let entries = parse_propfind(xml, "https://dav.jianguoyun.com/dav/private-diary").unwrap();
    let got: Vec<(&str, &str, bool)> = entries
        .iter()
        .map(|e| (e.rel.as_str(), e.etag.as_str(), e.is_dir))
        .collect();
    assert_eq!(
        got,
        vec![
            ("meta.json", "\"e1\"", false),
            ("entries", "", true),
            ("blobs/图.enc", "\"e2\"", false),
        ]
    );
}

#[test]
fn broken_xml_is_refused() {
    assert!(parse_propfind("<a><b></a>", "https://h/dav").is_none());
}

#[test]
fn listing_from_events() {
    let t = |x: &str| x.to_string();
    let events = vec![
        XmlStep::Start(t("d:multistatus")),
        XmlStep::Start(t("d:response")),
        XmlStep::Start(t("d:href")),
        XmlStep::Text(t("/dav/root/entries/a%20b.enc/")),
        XmlStep::End(t("d:href")),
        XmlStep::Start(t("d:getetag")),
        XmlStep::Text(t("\t\"e\" \n")),
        XmlStep::End(t("d:getetag")),
        XmlStep::End(t("d:response")),
        XmlStep::Start(t("d:response")),
        XmlStep::Start(t("d:href")),
        XmlStep::Text(t("/elsewhere/x")),
        XmlStep::End(t("d:href")),
        XmlStep::End(t("d:response")),
        XmlStep::Start(t("d:response")),
        XmlStep::Start(t("d:href")),
        XmlStep::Text(t("/dav/root/blobs")),
        XmlStep::End(t("d:href")),
        XmlStep::Empty(t("d:collection")),
        XmlStep::End(t("d:response")),
        XmlStep::Other,
        XmlStep::End(t("d:multistatus")),
    ];
    let got = listing_entries(&events, "https://h/dav/root");
    assert_eq!(got.len(), 2);
    assert_eq!(got[0].rel, "entries/a b.enc");
    assert_eq!(got[0].etag, "\"e\"");
    assert!(!got[0].is_dir);
    assert_eq!(got[1].rel, "blobs");
    assert!(got[1].is_dir);
}
