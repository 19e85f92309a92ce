use rustic_typster::parse::{
    hosted_entries, listing_links, raw_address, raw_content_url, read_listing, read_registry_page, Anchor,
    CrateEntry,
};

fn anchor(rel: Option<&str>, href: Option<&str>) -> Anchor {
    Anchor { rel: rel.map(String::from), href: href.map(String::from) }
}

#[test]
fn listing_links_classifies_anchors() {
    let anchors = vec![
        anchor(None, Some("/o/r/blob/main/src/lib.rs")),
        anchor(None, Some("/o/r/tree/main/src/sub")),
        anchor(Some("nofollow"), Some("/o/r/blob/main/src/skip.rs")),
        anchor(None, Some("/o/r/blob/main/README.md")),
        anchor(None, None),
        anchor(None, Some("/o/r/blob/main/src/main.rs")),
    ];
    let (files, folders) = listing_links(&anchors);
    assert_eq!(
        files,
        vec!["https://github.com/o/r/blob/main/src/lib.rs".to_string(), "https://github.com/o/r/blob/main/src/main.rs".to_string()]
    );
    assert_eq!(folders, vec!["https://github.com/o/r/tree/main/src/sub".to_string()]);
}

#[test]
fn read_listing_parses_row_headers() {
    let html = r#"<html><body><table>
        <tr><td role="rowheader"><span><a href="/o/r/tree/main/src">src</a></span></td></tr>
        <tr><td role="rowheader"><span><a href="/o/r/blob/main/build.rs">build.rs</a></span></td></tr>
        <tr><td role="rowheader"><span><a rel="nofollow" href="/o/r/blob/main/x.rs">x.rs</a></span></td></tr>
        <tr><td><a href="/o/r/blob/main/outside.rs">outside.rs</a></td></tr>
        </table></body></html>"#;
    let (files, folders) = read_listing(html);
    assert_eq!(files, vec!["https://github.com/o/r/blob/main/build.rs".to_string()]);
    assert_eq!(folders, vec!["https://github.com/o/r/tree/main/src".to_string()]);
}

#[test]
fn read_listing_of_page_without_rows() {
    let (files, folders) = read_listing("<html><body><p>nothing</p></body></html>");
    assert!(files.is_empty());
    assert!(folders.is_empty());
}

#[test]
fn raw_content_url_follows_raw_link() {
    let html = r#"<html><body><a id="other" href="/no">x</a><a id="raw-url" href="/o/r/raw/main/src/lib.rs">Raw</a></body></html>"#;
    assert_eq!(raw_content_url(html), Some("https://github.com/o/r/raw/main/src/lib.rs".to_string()));
    assert_eq!(raw_content_url("<html><body>no link</body></html>"), None);
    assert_eq!(raw_address(Some("/a".to_string())), Some("https://github.com/a".to_string()));
    assert_eq!(raw_address(None), None);
}

#[test]
fn registry_page_keeps_hosted_repositories() {
    let json = r#"{"crates":[
        {"id":"alpha","repository":"https://github.com/o/alpha"},
        {"id":"beta","repository":"https://gitlab.com/o/beta"},
        {"id":"gamma","repository":null},
        {"repository":"https://github.com/o/nameless"},
        {"id":"delta","repository":"https://github.com/o/delta"}
    ]}"#;
    let found = read_registry_page(json);
    let pairs: Vec<(String, String)> = found.into_iter().map(|s| (s.string, s.source)).collect();
    assert_eq!(
        pairs,
        vec![
            ("https://github.com/o/alpha".to_string(), "alpha".to_string()),
            ("https://github.com/o/delta".to_string(), "delta".to_string()),
        ]
    );
}

#[test]
fn registry_page_that_cannot_be_read_lists_none() {
    assert!(read_registry_page("not json").is_empty());
    assert!(read_registry_page(r#"{"crates": 5}"#).is_empty());
    assert!(read_registry_page(r#"{"other": []}"#).is_empty());
    assert!(read_registry_page(r#"{"crates": []}"#).is_empty());
}

#[test]
fn hosted_entries_needs_id_and_host() {
    let entries = vec![
        CrateEntry { id: Some("a".to_string()), repository: Some("https://github.com/o/a".to_string()) },
        CrateEntry { id: None, repository: Some("https://github.com/o/b".to_string()) },
        CrateEntry { id: Some("c".to_string()), repository: None },
    ];
    let found = hosted_entries(&entries);
    assert_eq!(found.len(), 1);
    assert_eq!(found[0].string, "https://github.com/o/a");
    assert_eq!(found[0].source, "a");
}
