use crawler::content::{is_html, ContentTypeError};
use crawler::frontier::{is_excluded, same_domain, CrawlConfig, Frontier};
use crawler::gate::RateGate;
use crawler::links::{get_urls_from_document, links_from_nodes, TagAttrs};
use crawler::queue::WorkQueue;
use crawler::mirror::{ends_with, mirror_path, up_to_last, PersistError};
use crawler::task::{follow_links, plan_page};
use crawler::text::{before_char, starts_with, text_less};
use crawler::urls::{normalize, NormalizeError, WebUrl};

fn url(s: &str) -> WebUrl {
    WebUrl::parse(s).expect("test URL parses")
}

fn config(crawl_external: bool, exclude: &[&str]) -> CrawlConfig {
    CrawlConfig {
        max_url_length: 300,
        crawl_external,
        download: false,
        exclude: exclude.iter().map(|s| s.to_string()).collect(),
        delay_ms: 100,
    }
}

fn texts(f: &Frontier) -> Vec<String> {
    (0..f.len()).map(|i| f.get(i).text.clone()).collect()
}

#[test]
fn parse_reads_parts() {
    let u = url("https://a.test/dir/page?x=1#top");
    assert_eq!(u.as_str(), "https://a.test/dir/page?x=1#top");
    assert_eq!(u.domain.as_deref(), Some("a.test"));
    assert_eq!(u.host.as_deref(), Some("a.test"));
    assert_eq!(u.path, "/dir/page");
    assert!(WebUrl::parse("not a url").is_none());
    let ip = url("http://127.0.0.1:8080/x");
    assert_eq!(ip.domain, None);
    assert_eq!(ip.host.as_deref(), Some("127.0.0.1"));
}

#[test]
fn normalize_strips_query_and_fragment() {
    let base = url("https://a.test/dir/");
    let a = normalize(&base, "/p?q=1#frag").unwrap();
    let b = normalize(&base, "/p").unwrap();
    assert_eq!(a.text, b.text);
    assert_eq!(a.text, "https://a.test/p");
}

#[test]
fn normalize_resolves_relative_references() {
    let base = url("https://a.test/dir/page.html");
    assert_eq!(normalize(&base, "other.html").unwrap().text, "https://a.test/dir/other.html");
    assert_eq!(normalize(&base, "../up#x").unwrap().text, "https://a.test/up");
    assert_eq!(normalize(&base, "https://other.test/x?y").unwrap().text, "https://other.test/x");
    assert_eq!(normalize(&base, "").unwrap().text, "https://a.test/dir/page.html");
}

#[test]
fn normalize_fragment_before_query() {
    let base = url("https://a.test/");
    assert_eq!(normalize(&base, "/p#frag?not-a-query").unwrap().text, "https://a.test/p");
}

#[test]
fn normalize_twice_is_stable() {
    let base = url("https://a.test/dir/");
    for x in ["../a/./b?x=1#y", "c", "https://other.test/q?z", "/p#f"] {
        let once = normalize(&base, x).unwrap();
        let twice = normalize(&base, &once.text).unwrap();
        assert_eq!(once.text, twice.text);
    }
}

#[test]
fn normalize_rejects_malformed_reference() {
    let base = url("https://a.test/");
    assert_eq!(normalize(&base, "http://[::1").unwrap_err(), NormalizeError::MalformedReference);
}

#[test]
fn record_keeps_one_entry_per_url() {
    let mut f = Frontier::new();
    assert!(f.record(url("https://a.test/b")));
    assert!(!f.record(url("https://a.test/b")));
    assert!(f.record(url("https://a.test/c")));
    assert!(!f.record(url("https://a.test/b")));
    assert_eq!(texts(&f), vec!["https://a.test/b", "https://a.test/c"]);
    assert!(f.contains(&"https://a.test/c".to_string()));
    assert!(!f.contains(&"https://a.test/d".to_string()));
}

#[test]
fn admit_start_checks_length_before_recording() {
    let mut f = Frontier::new();
    let seed = url("https://a.test/");
    assert!(!f.admit_start(&seed, 5));
    assert_eq!(f.len(), 0);
    assert!(f.admit_start(&seed, 15));
    assert!(!f.admit_start(&seed, 15));
    assert_eq!(texts(&f), vec!["https://a.test/"]);
}

#[test]
fn excluded_links_are_dropped() {
    let mut f = Frontier::new();
    let page = url("https://a.test/");
    f.record(page.clone());
    let links = vec!["/private/x".to_string(), "/b".to_string(), "/privateer".to_string()];
    let children = f.accept_links(&page, &links, &config(false, &["/private"]));
    let names: Vec<String> = children.iter().map(|c| c.text.clone()).collect();
    assert_eq!(names, vec!["https://a.test/b"]);
    assert_eq!(texts(&f), vec!["https://a.test/", "https://a.test/b"]);
}

#[test]
fn is_excluded_matches_prefixes() {
    let prefixes = vec!["/a".to_string(), "/img/".to_string()];
    assert!(is_excluded(&"/abc".to_string(), &prefixes));
    assert!(is_excluded(&"/img/x.png".to_string(), &prefixes));
    assert!(!is_excluded(&"/img".to_string(), &prefixes));
    assert!(!is_excluded(&"/b".to_string(), &Vec::new()));
}

#[test]
fn external_links_recorded_not_crawled() {
    let mut f = Frontier::new();
    let page = url("https://a.test/");
    let links = vec!["https://other.test/x".to_string()];
    let children = f.accept_links(&page, &links, &config(false, &[]));
    assert!(children.is_empty());
    assert_eq!(texts(&f), vec!["https://other.test/x"]);

    let mut g = Frontier::new();
    let children = g.accept_links(&page, &links, &config(true, &[]));
    assert_eq!(children.len(), 1);
    assert_eq!(children[0].text, "https://other.test/x");
}

#[test]
fn long_links_recorded_not_crawled() {
    let mut f = Frontier::new();
    let page = url("https://a.test/");
    let mut cfg = config(false, &[]);
    cfg.max_url_length = 17;
    let links = vec!["/b".to_string(), "/longer".to_string()];
    let children = f.accept_links(&page, &links, &cfg);
    let names: Vec<String> = children.iter().map(|c| c.text.clone()).collect();
    assert_eq!(names, vec!["https://a.test/b"]);
    assert_eq!(texts(&f), vec!["https://a.test/b", "https://a.test/longer"]);
}

#[test]
fn malformed_links_are_dropped() {
    let mut f = Frontier::new();
    let page = url("https://a.test/");
    let links = vec!["http://[::1".to_string(), "/ok".to_string()];
    let children = f.accept_links(&page, &links, &config(false, &[]));
    assert_eq!(children.len(), 1);
    assert_eq!(texts(&f), vec!["https://a.test/ok"]);
}

#[test]
fn end_to_end_scenario() {
    let mut f = Frontier::new();
    let seed = url("https://a.test/");
    let cfg = config(false, &[]);
    assert!(f.admit_start(&seed, cfg.max_url_length));
    let doc = r#"<html><body><a href="/b">b</a><a href="https://other.test/x">x</a><a href="/b?x=1">again</a></body></html>"#;
    let children = follow_links(&mut f, &seed, &cfg, doc);
    let names: Vec<String> = children.iter().map(|c| c.text.clone()).collect();
    assert_eq!(names, vec!["https://a.test/b"]);
    assert_eq!(texts(&f), vec!["https://a.test/", "https://a.test/b", "https://other.test/x"]);

    let grandchildren = follow_links(&mut f, &children[0], &cfg, "<p>no links</p>");
    assert!(grandchildren.is_empty());
    assert_eq!(f.len(), 3);

    let report = f.report(&seed);
    let all: Vec<&str> = report.all.iter().map(|u| u.as_str()).collect();
    let internal: Vec<&str> = report.internal.iter().map(|u| u.as_str()).collect();
    let external: Vec<&str> = report.external.iter().map(|u| u.as_str()).collect();
    assert_eq!(all, vec!["https://a.test/", "https://a.test/b", "https://other.test/x"]);
    assert_eq!(internal, vec!["https://a.test/", "https://a.test/b"]);
    assert_eq!(external, vec!["https://other.test/x"]);
}

#[test]
fn report_sorts_and_splits() {
    let mut f = Frontier::new();
    for s in ["https://z.test/", "https://a.test/b", "https://a.test/", "https://a.test/a", "http://a.test/"] {
        f.record(url(s));
    }
    let report = f.report(&url("https://a.test/"));
    let all: Vec<&str> = report.all.iter().map(|u| u.as_str()).collect();
    assert_eq!(all, vec!["http://a.test/", "https://a.test/", "https://a.test/a", "https://a.test/b", "https://z.test/"]);
    let internal: Vec<&str> = report.internal.iter().map(|u| u.as_str()).collect();
    assert_eq!(internal, vec!["http://a.test/", "https://a.test/", "https://a.test/a", "https://a.test/b"]);
    let external: Vec<&str> = report.external.iter().map(|u| u.as_str()).collect();
    assert_eq!(external, vec!["https://z.test/"]);
    assert_eq!(report.internal.len() + report.external.len(), f.len());
}

#[test]
fn report_of_empty_frontier() {
    let f = Frontier::new();
    let report = f.report(&url("https://a.test/"));
    assert!(report.all.is_empty() && report.internal.is_empty() && report.external.is_empty());
}

#[test]
fn gate_spaces_fetch_starts() {
    let mut g = RateGate::new(0, 100);
    assert_eq!(g.acquire(0), 100);
    assert_eq!(g.last_start, 100);
    assert_eq!(g.acquire(150), 50);
    assert_eq!(g.last_start, 200);
    assert_eq!(g.acquire(500), 0);
    assert_eq!(g.last_start, 500);
    assert_eq!(g.acquire(510), 90);
    assert_eq!(g.last_start, 600);
}

#[test]
fn gate_saturates_at_the_end_of_time() {
    let mut g = RateGate::new(u64::MAX - 10, 100);
    assert_eq!(g.acquire(u64::MAX - 20), 20);
    assert_eq!(g.last_start, u64::MAX);
    let mut z = RateGate::new(5, 0);
    assert_eq!(z.acquire(5), 0);
}

#[test]
fn content_type_classification() {
    assert_eq!(is_html(Some(&b"text/html"[..])), Ok(true));
    assert_eq!(is_html(Some(&b"text/html; charset=utf-8"[..])), Ok(true));
    assert_eq!(is_html(Some(&b"text/plain"[..])), Ok(false));
    assert_eq!(is_html(Some(&b"text/htmlx"[..])), Ok(false));
    assert_eq!(is_html(Some(&b"TEXT/HTML"[..])), Ok(false));
    assert_eq!(is_html(Some(&b" text/html"[..])), Ok(false));
    assert_eq!(is_html(Some(&b""[..])), Ok(false));
    assert_eq!(is_html(None), Err(ContentTypeError::Missing));
    assert_eq!(is_html(Some(&b"text/html\x01"[..])), Err(ContentTypeError::Unreadable));
    assert_eq!(is_html(Some("text/html; é".as_bytes())), Err(ContentTypeError::Unreadable));
    assert_eq!(is_html(Some(&b"text/html;\tq=1"[..])), Ok(true));
}

#[test]
fn links_from_document_in_order() {
    let doc = r#"<a href="/x">x</a><img src="/i.png"><link href><img src="s" href="h"><script src="/j.js"></script><p>t</p>"#;
    let links = get_urls_from_document(doc).unwrap();
    assert_eq!(links, vec!["/x", "/i.png", "h", "/j.js"]);
    assert_eq!(get_urls_from_document("").unwrap(), Vec::<String>::new());
}

#[test]
fn links_from_nodes_prefers_href() {
    let nodes = vec![
        None,
        Some(TagAttrs { href: Some(Some("a".to_string())), src: Some(Some("b".to_string())) }),
        Some(TagAttrs { href: Some(None), src: Some(Some("c".to_string())) }),
        Some(TagAttrs { href: None, src: Some(Some("d".to_string())) }),
        Some(TagAttrs { href: None, src: Some(None) }),
        Some(TagAttrs { href: None, src: None }),
    ];
    assert_eq!(links_from_nodes(&nodes), vec!["a", "d"]);
}

#[test]
fn mirror_paths() {
    let m = mirror_path(&url("https://a.test/"), true).unwrap();
    assert_eq!((m.file.as_str(), m.dir.as_str()), ("a.test/index.html", "a.test"));
    let m = mirror_path(&url("https://a.test/"), false).unwrap();
    assert_eq!((m.file.as_str(), m.dir.as_str()), ("a.test", ""));
    let m = mirror_path(&url("https://a.test/style.css"), false).unwrap();
    assert_eq!((m.file.as_str(), m.dir.as_str()), ("a.test/style.css", "a.test"));
    let m = mirror_path(&url("https://a.test/docs/"), true).unwrap();
    assert_eq!((m.file.as_str(), m.dir.as_str()), ("a.test/docs/index.html", "a.test/docs"));
    let m = mirror_path(&url("https://a.test/d/page.html"), true).unwrap();
    assert_eq!((m.file.as_str(), m.dir.as_str()), ("a.test/d/page.html", "a.test/d"));
    let m = mirror_path(&url("https://a.test/d/page?x=1"), true).unwrap();
    assert_eq!(m.file, "a.test/d/page/index.html");
    assert_eq!(mirror_path(&url("data:text/plain,hi"), false).unwrap_err(), PersistError::NoHost);
}

#[test]
fn plan_page_follows_kind_and_download() {
    let page = url("https://a.test/x/");
    let mut cfg = config(false, &[]);
    let p = plan_page(&page, &cfg, Some(&b"text/html"[..])).unwrap();
    assert!(p.is_html && p.extract && p.save.is_none());
    cfg.download = true;
    let p = plan_page(&page, &cfg, Some(&b"image/png"[..])).unwrap();
    assert!(!p.is_html && !p.extract);
    assert_eq!(p.save.unwrap().file, "a.test/x");
    let p = plan_page(&page, &cfg, Some(&b"text/html"[..])).unwrap();
    assert_eq!(p.save.unwrap().file, "a.test/x/index.html");
    assert_eq!(plan_page(&page, &cfg, None).unwrap_err(), ContentTypeError::Missing);
}

#[test]
fn text_helpers() {
    assert_eq!(before_char("a?b?c", '?'), "a");
    assert_eq!(before_char("abc", '?'), "abc");
    assert_eq!(before_char("", '?'), "");
    assert!(starts_with("/abc", "/a"));
    assert!(!starts_with("/a", "/abc"));
    assert!(starts_with("x", ""));
    assert!(ends_with("page.html", ".html"));
    assert!(!ends_with("html", ".html"));
    assert_eq!(up_to_last("a/b/c", '/'), "a/b");
    assert_eq!(up_to_last("abc", '/'), "");
    assert!(text_less("a", "b"));
    assert!(text_less("ab", "abc"));
    assert!(!text_less("abc", "ab"));
    assert!(!text_less("abc", "abc"));
    assert!(text_less("Z", "a"));
    assert!(same_domain(&Some("a".to_string()), &Some("a".to_string())));
    assert!(same_domain(&None, &None));
    assert!(!same_domain(&Some("a".to_string()), &None));
}

#[test]
fn queue_hands_out_in_order_until_done() {
    let mut q = WorkQueue::new(url("https://a.test/"));
    assert!(!q.is_done());
    let first = q.take().unwrap();
    assert_eq!(first.text, "https://a.test/");
    assert_eq!((q.waiting(), q.running()), (0, 1));
    assert!(q.take().is_none());
    assert!(!q.is_done());
    q.finish(vec![url("https://a.test/b"), url("https://a.test/c")]);
    assert_eq!((q.waiting(), q.running()), (2, 0));
    let b = q.take().unwrap();
    let c = q.take().unwrap();
    assert_eq!((b.text.as_str(), c.text.as_str()), ("https://a.test/b", "https://a.test/c"));
    q.finish(vec![url("https://a.test/d")]);
    assert_eq!((q.waiting(), q.running()), (1, 1));
    q.finish(Vec::new());
    let d = q.take().unwrap();
    assert_eq!(d.text, "https://a.test/d");
    q.finish(Vec::new());
    assert!(q.is_done());
    assert!(q.take().is_none());
}
