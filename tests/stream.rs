use std::collections::HashMap;

use rustic_typster::fetch::{Repo, RepoStep, Request};
use rustic_typster::line_queue::{Action, LineQueue, MAX_ATTEMPTS};

/// Pages served by the fake network, and a record of what was asked for.
struct FakeNet {
    registry: Vec<String>,
    pages: HashMap<String, String>,
    asked: Vec<String>,
}

impl FakeNet {
    fn serve(&mut self, req: Request) -> Option<String> {
        match req {
            Request::RegistryPage(n) => {
                self.asked.push(format!("registry:{}", n));
                self.registry.get(n as usize - 1).cloned()
            }
            Request::Listing(u) | Request::FilePage(u) | Request::RawContent(u) => {
                self.asked.push(u.clone());
                self.pages.get(&u).cloned()
            }
        }
    }
}

enum End {
    Enough,
    Exhausted,
    Stopped,
}

fn drive(q: &mut LineQueue, net: &mut FakeNet, want: usize) -> (Vec<(String, String)>, End) {
    let mut out = Vec::new();
    loop {
        match q.next_action() {
            Action::Deliver(l) => {
                out.push((l.string, l.source));
                if out.len() == want {
                    return (out, End::Enough);
                }
            }
            Action::Fetch(req) => {
                let body = net.serve(req);
                q.fetched(body);
            }
            Action::Exhausted => return (out, End::Exhausted),
            Action::Stop => return (out, End::Stopped),
        }
    }
}

fn listing(hrefs: &[&str]) -> String {
    let rows: Vec<String> = hrefs
        .iter()
        .map(|h| format!(r#"<tr><td role="rowheader"><span><a href="{}">x</a></span></td></tr>"#, h))
        .collect();
    format!("<html><body><table>{}</table></body></html>", rows.join(""))
}

fn file_page(raw: &str) -> String {
    format!(r#"<html><body><a id="raw-url" href="{}">Raw</a></body></html>"#, raw)
}

fn content(tag: &str) -> String {
    let mut s = String::from("// header comment line\n\nuse io;\n");
    for i in 0..5 {
        s.push_str(&format!("    let {}_{} = compute({});\n", tag, i, i));
    }
    s
}

/// Two repositories, each with one file at the root and one in a subfolder.
fn two_repo_net() -> FakeNet {
    let mut pages = HashMap::new();
    for repo in ["alpha", "beta"] {
        let root = format!("https://github.com/o/{}", repo);
        pages.insert(
            root.clone(),
            listing(&[&format!("/o/{}/tree/main/src", repo), &format!("/o/{}/blob/main/lib.rs", repo)]),
        );
        pages.insert(
            format!("https://github.com/o/{}/tree/main/src", repo),
            listing(&[&format!("/o/{}/blob/main/src/mod.rs", repo)]),
        );
        for (file, tag) in [("lib.rs", "top"), ("src/mod.rs", "sub")] {
            let raw = format!("/o/{}/raw/main/{}", repo, file);
            pages.insert(format!("https://github.com/o/{}/blob/main/{}", repo, file), file_page(&raw));
            pages.insert(format!("https://github.com{}", raw), content(&format!("{}_{}", repo, tag)));
        }
    }
    let registry = vec![r#"{"crates":[
        {"id":"alpha","repository":"https://github.com/o/alpha"},
        {"id":"beta","repository":"https://github.com/o/beta"}]}"#
        .to_string()];
    FakeNet { registry, pages, asked: Vec::new() }
}

fn expected_lines() -> Vec<(String, String)> {
    let mut v = Vec::new();
    for repo in ["alpha", "beta"] {
        for tag in ["top", "sub"] {
            for i in 0..5 {
                v.push((format!("let {}_{}_{} = compute({});", repo, tag, i, i), repo.to_string()));
            }
        }
    }
    v
}

#[test]
fn twenty_lines_from_two_repositories_in_file_then_folder_order() {
    let mut net = two_repo_net();
    let mut q = LineQueue::new(5);
    let (lines, end) = drive(&mut q, &mut net, 20);
    assert!(matches!(end, End::Enough));
    assert_eq!(lines, expected_lines());
}

#[test]
fn stream_ends_when_registry_runs_dry() {
    let mut net = two_repo_net();
    let mut q = LineQueue::new(5);
    let (lines, end) = drive(&mut q, &mut net, 1000);
    assert!(matches!(end, End::Exhausted));
    assert_eq!(lines.len(), 20);
}

#[test]
fn three_empty_pages_exhaust_the_registry() {
    let empty = r#"{"crates":[{"id":"a","repository":"https://gitlab.com/o/a"},{"id":"b"}]}"#.to_string();
    let mut net = FakeNet { registry: vec![empty.clone(), empty.clone(), empty], pages: HashMap::new(), asked: Vec::new() };
    let mut q = LineQueue::new(3);
    let (lines, end) = drive(&mut q, &mut net, 10);
    assert!(matches!(end, End::Exhausted));
    assert!(lines.is_empty());
    assert_eq!(net.asked, vec!["registry:1", "registry:2", "registry:3"]);
    assert!(matches!(q.next_action(), Action::Exhausted));
}

#[test]
fn a_page_with_repositories_resets_the_empty_count() {
    let empty = r#"{"crates":[]}"#.to_string();
    let one = r#"{"crates":[{"id":"z","repository":"https://github.com/o/z"}]}"#.to_string();
    let mut net = FakeNet { registry: vec![empty.clone(), one, empty.clone(), empty.clone()], pages: HashMap::new(), asked: Vec::new() };
    net.pages.insert("https://github.com/o/z".to_string(), listing(&[]));
    let mut q = LineQueue::new(2);
    let (_, end) = drive(&mut q, &mut net, 10);
    assert!(matches!(end, End::Exhausted));
    assert_eq!(net.asked, vec!["registry:1", "registry:2", "https://github.com/o/z", "registry:3", "registry:4"]);
}

#[test]
fn cancelling_stops_all_fetching() {
    let mut net = two_repo_net();
    let mut q = LineQueue::new(5);
    let (lines, _) = drive(&mut q, &mut net, 3);
    assert_eq!(lines.len(), 3);
    q.cancel();
    assert!(q.is_cancelled());
    let asked_before = net.asked.len();
    let (more, end) = drive(&mut q, &mut net, 100);
    assert!(matches!(end, End::Stopped));
    assert!(more.is_empty());
    assert_eq!(net.asked.len(), asked_before);
    q.fetched(Some("late page".to_string()));
    assert!(matches!(q.next_action(), Action::Stop));
}

#[test]
fn lines_of_one_file_come_together() {
    let mut net = two_repo_net();
    let mut q = LineQueue::new(5);
    let (lines, _) = drive(&mut q, &mut net, 20);
    let files: Vec<String> = lines.iter().map(|(l, _)| l.rsplitn(2, '_').nth(1).unwrap().to_string()).collect();
    let mut seen: Vec<String> = Vec::new();
    for f in files {
        if seen.last() != Some(&f) {
            assert!(!seen.contains(&f), "file {} came back after another", f);
            seen.push(f);
        }
    }
    assert_eq!(seen.len(), 4);
}

#[test]
fn no_resolved_page_is_fetched_twice() {
    let mut net = two_repo_net();
    let mut q = LineQueue::new(5);
    let (lines, _) = drive(&mut q, &mut net, 20);
    assert_eq!(lines.len(), 20);
    let mut asked = net.asked.clone();
    let n = asked.len();
    asked.sort();
    asked.dedup();
    assert_eq!(asked.len(), n);
    // one registry page, then per repository: two listings, two file pages, two raw files
    assert_eq!(n, 13);
    assert!(n <= lines.len());
}

#[test]
fn failed_fetch_is_retried_then_skipped() {
    let mut net = two_repo_net();
    net.pages.remove("https://github.com/o/alpha/blob/main/lib.rs");
    let mut q = LineQueue::new(5);
    let (lines, _) = drive(&mut q, &mut net, 5);
    let tries = net.asked.iter().filter(|u| u.as_str() == "https://github.com/o/alpha/blob/main/lib.rs").count();
    assert_eq!(tries, MAX_ATTEMPTS as usize);
    assert_eq!(lines[0].0, "let alpha_sub_0 = compute(0);");
}

#[test]
fn file_page_without_raw_link_gives_no_lines() {
    let mut net = two_repo_net();
    net.pages.insert("https://github.com/o/alpha/blob/main/lib.rs".to_string(), "<html><body>moved</body></html>".to_string());
    let mut q = LineQueue::new(5);
    let (lines, _) = drive(&mut q, &mut net, 1);
    assert_eq!(lines[0].0, "let alpha_sub_0 = compute(0);");
    assert!(!net.asked.contains(&"https://github.com/o/alpha/raw/main/lib.rs".to_string()));
}

#[test]
fn repo_asks_for_its_root_listing_first() {
    let mut repo = Repo::new("pkg".to_string(), "https://github.com/o/pkg".to_string());
    match repo.get_line() {
        RepoStep::Fetch(Request::Listing(u)) => assert_eq!(u, "https://github.com/o/pkg"),
        other => panic!("unexpected step {:?}", other),
    }
    repo.fetched(&listing(&["/o/pkg/blob/main/a.rs"]));
    match repo.get_line() {
        RepoStep::Fetch(Request::FilePage(u)) => assert_eq!(u, "https://github.com/o/pkg/blob/main/a.rs"),
        other => panic!("unexpected step {:?}", other),
    }
    repo.fetched(&file_page("/o/pkg/raw/main/a.rs"));
    match repo.get_line() {
        RepoStep::Fetch(Request::RawContent(u)) => assert_eq!(u, "https://github.com/o/pkg/raw/main/a.rs"),
        other => panic!("unexpected step {:?}", other),
    }
    repo.fetched("let only_line = 1;\n");
    match repo.get_line() {
        RepoStep::Line(l) => {
            assert_eq!(l.string, "let only_line = 1;");
            assert_eq!(l.source, "pkg");
        }
        other => panic!("unexpected step {:?}", other),
    }
    assert!(matches!(repo.get_line(), RepoStep::Done));
}

#[test]
fn skipping_drops_the_pending_reference() {
    let mut repo = Repo::new("pkg".to_string(), "https://github.com/o/pkg".to_string());
    repo.skip();
    assert!(matches!(repo.get_line(), RepoStep::Done));
}
