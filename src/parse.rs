//! Reading the pages of the package registry and of the code host.
//!
//! HTML and JSON are parsed by outside crates; what this module decides on their output
//! (which links are files, which are folders, which registry entries point at a repository
//! on the code host) is verified.
use select::document::Document;
use select::predicate::{Attr, Name, Predicate};
use vstd::prelude::*;

use crate::text::{contains, ends_with, has_infix, has_suffix, string_views};
use crate::SrcString;

verus! {

/// An `a` element of a directory listing: its `rel` and `href` attributes.
#[derive(Debug)]
pub struct Anchor {
    pub rel: Option<String>,
    pub href: Option<String>,
}

/// One entry of a registry page: the package id and its repository address.
#[derive(Debug)]
pub struct CrateEntry {
    pub id: Option<String>,
    pub repository: Option<String>,
}

#[verifier::external_type_specification]
#[verifier::external_body]
pub struct ExJsonError(serde_json::Error);

pub open spec fn opt_view(o: Option<String>) -> Option<Seq<char>> {
    match o {
        Some(s) => Some(s@),
        None => None,
    }
}

pub open spec fn anchors_view(v: Seq<Anchor>) -> Seq<(Option<Seq<char>>, Option<Seq<char>>)> {
    v.map_values(|a: Anchor| (opt_view(a.rel), opt_view(a.href)))
}

pub open spec fn entries_view(v: Seq<CrateEntry>) -> Seq<(Option<Seq<char>>, Option<Seq<char>>)> {
    v.map_values(|e: CrateEntry| (opt_view(e.id), opt_view(e.repository)))
}

/// `(string, source)` of each line.
pub open spec fn src_views(v: Seq<SrcString>) -> Seq<(Seq<char>, Seq<char>)> {
    v.map_values(|s: SrcString| (s.string@, s.source@))
}

/// The `(rel, href)` attributes of the `a` elements below a `role="rowheader"` element of
/// `html`, in document order.
pub uninterp spec fn row_header_anchors(html: Seq<char>) -> Seq<(Option<Seq<char>>, Option<Seq<char>>)>;

/// The `href` of the first element of `html` whose `id` is `raw-url`, if it has one.
pub uninterp spec fn raw_url_href(html: Seq<char>) -> Option<Seq<char>>;

/// `None` where `json` is not JSON; else the `(id, repository)` string fields of each
/// element of its `crates` array, or `None` where `crates` is not an array.
pub uninterp spec fn registry_crates(json: Seq<char>) -> Option<
    Option<Seq<(Option<Seq<char>>, Option<Seq<char>>)>>,
>;

/// Relies on select's `Document::from`, `Document::find` with
/// `Attr("role", "rowheader").descendant(Name("a"))`, and `Node::attr`.
#[verifier::external_body]
fn find_row_header_anchors(html: &str) -> (r: Vec<Anchor>)
    ensures
        anchors_view(r@) == row_header_anchors(html@),
{
    let document = Document::from(html);
    let found = document.find(Attr("role", "rowheader").descendant(Name("a")));
    found.map(|n| Anchor { rel: n.attr("rel").map(String::from), href: n.attr("href").map(String::from) }).collect()
}

/// Relies on select's `Document::from`, `Document::find` with `Attr("id", "raw-url")`, and
/// `Node::attr`.
#[verifier::external_body]
fn find_raw_url_href(html: &str) -> (r: Option<String>)
    ensures
        opt_view(r) == raw_url_href(html@),
{
    let document = Document::from(html);
    let first = document.find(Attr("id", "raw-url")).next();
    first.and_then(|n| n.attr("href")).map(String::from)
}

/// Relies on `serde_json::from_str` into a `Value`, its indexing by key, `Value::as_array`
/// and `Value::as_str`.
#[verifier::external_body]
fn parse_registry_crates(json: &str) -> (r: Result<Option<Vec<CrateEntry>>, serde_json::Error>)
    ensures
        r is Err <==> registry_crates(json@) is None,
        r is Ok ==> match r->Ok_0 {
            Some(v) => registry_crates(json@)->Some_0 == Some(entries_view(v@)),
            None => registry_crates(json@)->Some_0 is None,
        },
{
    let value: serde_json::Value = serde_json::from_str(json)?;
    Ok(value["crates"].as_array().map(|v| v.iter().map(|c| CrateEntry {
        id: c["id"].as_str().map(String::from),
        repository: c["repository"].as_str().map(String::from),
    }).collect()))
}

/// The address on the code host of a site-relative path.
pub open spec fn on_host(path: Seq<char>) -> Seq<char> {
    "https://github.com"@ + path
}

/// A listing link to a source file: no `rel`, an `href` holding `blob` and ending in `.rs`.
pub open spec fn is_file_link(a: (Option<Seq<char>>, Option<Seq<char>>)) -> bool {
    a.0 is None && a.1 is Some && has_infix(a.1->Some_0, "blob"@) && has_suffix(
        a.1->Some_0,
        ".rs"@,
    )
}

/// A listing link to a subfolder: no `rel`, not a file, an `href` holding `tree`.
pub open spec fn is_folder_link(a: (Option<Seq<char>>, Option<Seq<char>>)) -> bool {
    a.0 is None && a.1 is Some && !is_file_link(a) && has_infix(a.1->Some_0, "tree"@)
}

/// Addresses of the file links among `s`, in order.
pub open spec fn file_links(s: Seq<(Option<Seq<char>>, Option<Seq<char>>)>) -> Seq<Seq<char>>
    decreases s.len(),
{
    if s.len() == 0 {
        Seq::empty()
    } else {
        let r = file_links(s.drop_last());
        if is_file_link(s.last()) {
            r.push(on_host(s.last().1->Some_0))
        } else {
            r
        }
    }
}

/// Addresses of the subfolder links among `s`, in order.
pub open spec fn folder_links(s: Seq<(Option<Seq<char>>, Option<Seq<char>>)>) -> Seq<Seq<char>>
    decreases s.len(),
{
    if s.len() == 0 {
        Seq::empty()
    } else {
        let r = folder_links(s.drop_last());
        if is_folder_link(s.last()) {
            r.push(on_host(s.last().1->Some_0))
        } else {
            r
        }
    }
}

/// A registry entry that names a package and a repository on the code host.
pub open spec fn is_hosted_entry(e: (Option<Seq<char>>, Option<Seq<char>>)) -> bool {
    e.0 is Some && e.1 is Some && has_infix(e.1->Some_0, "github.com"@)
}

/// `(repository, id)` of the hosted entries among `s`, in order.
pub open spec fn hosted_repos(s: Seq<(Option<Seq<char>>, Option<Seq<char>>)>) -> Seq<
    (Seq<char>, Seq<char>),
>
    decreases s.len(),
{
    if s.len() == 0 {
        Seq::empty()
    } else {
        let r = hosted_repos(s.drop_last());
        if is_hosted_entry(s.last()) {
            r.push((s.last().1->Some_0, s.last().0->Some_0))
        } else {
            r
        }
    }
}

/// The repositories that a registry page lists; none where the page cannot be read.
pub open spec fn page_repos(json: Seq<char>) -> Seq<(Seq<char>, Seq<char>)> {
    match registry_crates(json) {
        Some(Some(entries)) => hosted_repos(entries),
        _ => Seq::empty(),
    }
}

/// The raw-content address that a file page links to, if any.
pub open spec fn raw_link(href: Option<Seq<char>>) -> Option<Seq<char>> {
    match href {
        Some(h) => Some(on_host(h)),
        None => None,
    }
}

fn host_address(path: &str) -> (r: String)
    ensures
        r@ == on_host(path@),
{
    let mut r = "https://github.com".to_owned();
    r.append(path);
    r
}

/// The file and subfolder addresses of a directory listing, from its anchors.
pub fn listing_links(anchors: &Vec<Anchor>) -> (r: (Vec<String>, Vec<String>))
    ensures
        string_views(r.0@) == file_links(anchors_view(anchors@)),
        string_views(r.1@) == folder_links(anchors_view(anchors@)),
{
    let mut files: Vec<String> = Vec::new();
    let mut folders: Vec<String> = Vec::new();
    let mut i: usize = 0;
    while i < anchors.len()
        invariant
            i <= anchors@.len(),
            string_views(files@) == file_links(anchors_view(anchors@).subrange(0, i as int)),
            string_views(folders@) == folder_links(anchors_view(anchors@).subrange(0, i as int)),
        decreases anchors@.len() - i,
    {
        let ghost before = anchors_view(anchors@).subrange(0, i as int);
        let ghost after = anchors_view(anchors@).subrange(0, i + 1);
        proof {
            assert(after.drop_last() =~= before);
        }
        let a = &anchors[i];
        if a.rel.is_none() {
            if let Some(h) = &a.href {
                if contains(h.as_str(), "blob") && ends_with(h.as_str(), ".rs") {
                    files.push(host_address(h.as_str()));
                    proof {
                        assert(string_views(files@) =~= file_links(before).push(on_host(h@)));
                    }
                } else if contains(h.as_str(), "tree") {
                    folders.push(host_address(h.as_str()));
                    proof {
                        assert(string_views(folders@) =~= folder_links(before).push(on_host(h@)));
                    }
                }
            }
        }
        i = i + 1;
    }
    proof {
        assert(anchors_view(anchors@).subrange(0, i as int) =~= anchors_view(anchors@));
    }
    (files, folders)
}

/// The file and subfolder addresses of a directory listing page.
pub fn read_listing(html: &str) -> (r: (Vec<String>, Vec<String>))
    ensures
        string_views(r.0@) == file_links(row_header_anchors(html@)),
        string_views(r.1@) == folder_links(row_header_anchors(html@)),
{
    let anchors = find_row_header_anchors(html);
    listing_links(&anchors)
}

/// The raw-content address for a file page's `raw-url` link target.
pub fn raw_address(href: Option<String>) -> (r: Option<String>)
    ensures
        opt_view(r) == raw_link(opt_view(href)),
{
    match href {
        Some(h) => Some(host_address(h.as_str())),
        None => None,
    }
}

/// The raw-content address that a file page links to; `None` where the page has no
/// `raw-url` link.
pub fn raw_content_url(html: &str) -> (r: Option<String>)
    ensures
        opt_view(r) == raw_link(raw_url_href(html@)),
{
    raw_address(find_raw_url_href(html))
}

/// The hosted repositories among registry entries, as `(repository, id)` pairs in order.
pub fn hosted_entries(entries: &Vec<CrateEntry>) -> (r: Vec<SrcString>)
    ensures
        src_views(r@) == hosted_repos(entries_view(entries@)),
{
    let mut out: Vec<SrcString> = Vec::new();
    let mut i: usize = 0;
    while i < entries.len()
        invariant
            i <= entries@.len(),
            src_views(out@) == hosted_repos(entries_view(entries@).subrange(0, i as int)),
        decreases entries@.len() - i,
    {
        let ghost before = entries_view(entries@).subrange(0, i as int);
        let ghost after = entries_view(entries@).subrange(0, i + 1);
        proof {
            assert(after.drop_last() =~= before);
        }
        let e = &entries[i];
        if let (Some(id), Some(repo)) = (&e.id, &e.repository) {
            if contains(repo.as_str(), "github.com") {
                out.push(SrcString { string: repo.clone(), source: id.clone() });
                proof {
                    assert(src_views(out@) =~= hosted_repos(before).push((repo@, id@)));
                }
            }
        }
        i = i + 1;
    }
    proof {
        assert(entries_view(entries@).subrange(0, i as int) =~= entries_view(entries@));
    }
    out
}

/// The hosted repositories of a registry page, as `(repository, id)` pairs in order. A page
/// that is not JSON, or has no `crates` array, lists none.
pub fn read_registry_page(json: &str) -> (r: Vec<SrcString>)
    ensures
        src_views(r@) == page_repos(json@),
{
    match parse_registry_crates(json) {
        Ok(Some(entries)) => hosted_entries(&entries),
        _ => {
            let r: Vec<SrcString> = Vec::new();
            proof {
                assert(src_views(r@) =~= Seq::empty());
            }
            r
        },
    }
}

} // verus!
