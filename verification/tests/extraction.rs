use link_crawler::links::{domain_root_of, extract_urls, resolve_hrefs, Link};

fn link(text: &str) -> Link {
    let u = url::Url::parse(text).unwrap();
    Link::new(u.to_string(), u.host_str().map(|h| h.to_owned()))
}

fn texts(links: &[Link]) -> Vec<String> {
    links.iter().map(|l| l.text.clone()).collect()
}

#[test]
fn test_extract_urls() {
    let body = r#"
            <a href="/">Home</a>
            <a href="/about">About</a>
            <p><a href="https://external-link.com">External</a></p>
        "#;
    let base_url = link("http://example.com");
    let result: Vec<String> = extract_urls(&base_url, body)
        .into_iter()
        .map(|u| u.text)
        .collect();
    assert_eq!(
        vec![
            "http://example.com/",
            "http://example.com/about",
            "https://external-link.com/"
        ],
        result
    );
}

#[test]
fn extraction_resolves_in_document_order() {
    let body = r#"<a href="/">a</a><a href="/about">b</a><a href="https://external.com">c</a>"#;
    let links = extract_urls(&link("http://example.com"), body);
    assert_eq!(
        texts(&links),
        vec!["http://example.com/", "http://example.com/about", "https://external.com/"]
    );
    assert_eq!(links[0].host.as_deref(), Some("example.com"));
    assert_eq!(links[1].host.as_deref(), Some("example.com"));
    assert_eq!(links[2].host.as_deref(), Some("external.com"));
}

#[test]
fn extraction_skips_anchors_without_href() {
    let body = r#"<a name="top">top</a><a href="/x">x</a><a>bare</a>"#;
    let links = extract_urls(&link("http://example.com"), body);
    assert_eq!(texts(&links), vec!["http://example.com/x"]);
}

#[test]
fn extraction_drops_what_does_not_resolve() {
    let body = r#"<a href="http://">bad</a><a href="/ok">ok</a><a href="https://[::1">bad</a>"#;
    let links = extract_urls(&link("http://example.com"), body);
    assert_eq!(texts(&links), vec!["http://example.com/ok"]);
}

#[test]
fn extraction_keeps_duplicates() {
    let body = r#"<a href="/a">1</a><a href="/a">2</a><a href="a">3</a>"#;
    let links = extract_urls(&link("http://example.com"), body);
    assert_eq!(
        texts(&links),
        vec!["http://example.com/a", "http://example.com/a", "http://example.com/a"]
    );
}

#[test]
fn extraction_of_a_page_without_anchors_is_empty() {
    assert!(extract_urls(&link("http://example.com"), "<p>nothing here</p>").is_empty());
    assert!(extract_urls(&link("http://example.com"), "").is_empty());
}

#[test]
fn extraction_resolves_relative_to_the_base_path() {
    let body = r#"<a href="c?q=1#f">c</a><a href="../up">up</a><a href="//other.org/p">o</a>"#;
    let links = extract_urls(&link("http://example.com/a/b"), body);
    assert_eq!(
        texts(&links),
        vec!["http://example.com/a/c?q=1#f", "http://example.com/up", "http://other.org/p"]
    );
    assert_eq!(links[2].host.as_deref(), Some("other.org"));
}

#[test]
fn extraction_with_a_base_that_is_no_url_gives_nothing() {
    let base = Link::new("not a url".to_owned(), None);
    assert!(extract_urls(&base, r#"<a href="/x">x</a>"#).is_empty());
}

#[test]
fn resolve_hrefs_takes_each_present_href() {
    let hrefs = vec![
        Some("/one".to_owned()),
        None,
        Some("http://".to_owned()),
        Some("mailto:someone@example.com".to_owned()),
    ];
    let links = resolve_hrefs(&link("http://example.com"), &hrefs);
    assert_eq!(texts(&links), vec!["http://example.com/one", "mailto:someone@example.com"]);
    assert_eq!(links[0].host.as_deref(), Some("example.com"));
    assert_eq!(links[1].host, None);
}

#[test]
fn link_has_host_compares_exactly() {
    let l = link("http://example.com/a");
    assert!(l.has_host(&"example.com".to_owned()));
    assert!(!l.has_host(&"www.example.com".to_owned()));
    assert!(!Link::new("mailto:a@b.c".to_owned(), None).has_host(&"b.c".to_owned()));
}

#[test]
fn domain_root_strips_path_query_and_fragment() {
    let root = domain_root_of(&link("https://example.com:8443/a/b.html?x=1&y=2#top")).unwrap();
    assert_eq!(root.text, "https://example.com:8443/");
    assert_eq!(root.host.as_deref(), Some("example.com"));
    let same = domain_root_of(&link("http://example.com")).unwrap();
    assert_eq!(same, link("http://example.com/"));
    let opaque = domain_root_of(&Link::new("mailto:someone@example.com?subject=x".to_owned(), None)).unwrap();
    assert_eq!(opaque.text, "mailto:");
    assert_eq!(opaque.host, None);
    assert!(domain_root_of(&Link::new("no url at all".to_owned(), None)).is_none());
}
