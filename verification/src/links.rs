//! Links: absolute URLs as the crawler sees them, and their extraction from
//! the anchors of an HTML document.

use vstd::prelude::*;

verus! {

/// An absolute URL: its serialisation and, where it has one, its host.
#[derive(Debug, PartialEq, Eq)]
pub struct Link {
    pub text: String,
    pub host: Option<String>,
}

/// What a `Link` stands for in contracts.
pub struct LinkView {
    pub text: Seq<char>,
    pub host: Option<Seq<char>>,
}

impl View for Link {
    type V = LinkView;

    open spec fn view(&self) -> LinkView {
        LinkView {
            text: self.text@,
            host: match self.host {
                Some(h) => Some(h@),
                None => None,
            },
        }
    }
}

impl Link {
    /// A link from its serialisation and its host.
    pub fn new(text: String, host: Option<String>) -> (link: Link)
        ensures
            link.text == text,
            link.host == host,
    {
        Link { text, host }
    }

    /// Whether this link's host is exactly `host`.
    pub fn has_host(&self, host: &String) -> (same: bool)
        ensures
            same == (self@.host == Some(host@)),
    {
        match &self.host {
            Some(h) => *h == *host,
            None => false,
        }
    }
}

/// The views of a sequence of links, in order.
pub open spec fn link_views(links: Seq<Link>) -> Seq<LinkView> {
    Seq::new(links.len(), |i: int| links[i]@)
}

/// The views of a sequence of optional strings, in order.
pub open spec fn href_texts(hrefs: Seq<Option<String>>) -> Seq<Option<Seq<char>>> {
    Seq::new(
        hrefs.len(),
        |i: int|
            match hrefs[i] {
                Some(h) => Some(h@),
                None => None,
            },
    )
}

/// For each element of the HTML document `body` that matches the CSS
/// selector `selector`, in the order in which the parsed document yields
/// them, its attribute `attr` where it has one; `None` where `selector` is
/// no selector.
pub uninterp spec fn selected_attrs(body: Seq<char>, selector: Seq<char>, attr: Seq<char>) -> Option<
    Seq<Option<Seq<char>>>,
>;

/// The URL that `href` denotes relative to the URL written as `base`, or
/// `None` where `base` is no URL or `href` does not resolve against it.
pub uninterp spec fn joined(base: Seq<char>, href: Seq<char>) -> Option<LinkView>;

/// The URL written as `url` with `path` in place of its path, or `None`
/// where `url` is no URL.
pub uninterp spec fn path_replaced(url: Seq<char>, path: Seq<char>) -> Option<LinkView>;

/// The URL written as `url` without its query, or `None` where `url` is no
/// URL.
pub uninterp spec fn query_removed(url: Seq<char>) -> Option<LinkView>;

/// The URL written as `url` without its fragment, or `None` where `url` is
/// no URL.
pub uninterp spec fn fragment_removed(url: Seq<char>) -> Option<LinkView>;

/// For each anchor of the HTML document `body`, in the order in which the
/// parsed document yields them, its `href` attribute where it has one.
pub open spec fn anchor_hrefs(body: Seq<char>) -> Seq<Option<Seq<char>>> {
    match selected_attrs(body, "a"@, "href"@) {
        Some(hrefs) => hrefs,
        None => Seq::empty(),
    }
}

/// The root of the domain of the URL written as `base`: that URL with an
/// empty path, without query and without fragment; `None` where `base` is
/// no URL.
pub open spec fn domain_root(base: Seq<char>) -> Option<LinkView> {
    match path_replaced(base, ""@) {
        Some(bare) => match query_removed(bare.text) {
            Some(plain) => fragment_removed(plain.text),
            None => None,
        },
        None => None,
    }
}

/// Trusted: parses `selector` with `scraper::Selector::parse` and `body`
/// with `scraper::Html::parse_document`, walks the matching elements with
/// `Html::select`, and reads the attribute of each with `Element::attr`.
/// The contract only gives that list its name: it is a function of the
/// three texts alone.
#[verifier::external_body]
fn select_attrs(body: &str, selector: &str, attr: &str) -> (found: Option<Vec<Option<String>>>)
    ensures
        match found {
            Some(values) => selected_attrs(body@, selector@, attr@) == Some(href_texts(values@)),
            None => selected_attrs(body@, selector@, attr@).is_none(),
        },
{
    match scraper::Selector::parse(selector) {
        Ok(s) => Some(
            scraper::Html::parse_document(body)
                .select(&s)
                .map(|n| n.value().attr(attr).map(|v| v.to_owned()))
                .collect(),
        ),
        Err(_) => None,
    }
}

/// Trusted: parses `base` with `url::Url::parse` and resolves `href` against
/// it with `Url::join`; the link holds the result's serialisation and
/// `Url::host_str`. The contract only gives that result its name.
#[verifier::external_body]
fn join_href(base: &str, href: &str) -> (link: Option<Link>)
    ensures
        match link {
            Some(l) => joined(base@, href@) == Some(l@),
            None => joined(base@, href@).is_none(),
        },
{
    match url::Url::parse(base).and_then(|b| b.join(href)) {
        Ok(u) => Some(Link { text: u.to_string(), host: u.host_str().map(|h| h.to_owned()) }),
        Err(_) => None,
    }
}

/// Trusted: parses `url` with `url::Url::parse` and gives it the path `path`
/// with `Url::set_path`; the link holds the result's serialisation and
/// `Url::host_str`. The contract only gives that result its name.
#[verifier::external_body]
fn replace_path(url: &str, path: &str) -> (link: Option<Link>)
    ensures
        match link {
            Some(l) => path_replaced(url@, path@) == Some(l@),
            None => path_replaced(url@, path@).is_none(),
        },
{
    match url::Url::parse(url) {
        Ok(mut u) => {
            u.set_path(path);
            Some(Link { text: u.to_string(), host: u.host_str().map(|h| h.to_owned()) })
        },
        Err(_) => None,
    }
}

/// Trusted: parses `url` with `url::Url::parse` and takes its query away
/// with `Url::set_query`; the link holds the result's serialisation and
/// `Url::host_str`. The contract only gives that result its name.
#[verifier::external_body]
fn remove_query(url: &str) -> (link: Option<Link>)
    ensures
        match link {
            Some(l) => query_removed(url@) == Some(l@),
            None => query_removed(url@).is_none(),
        },
{
    match url::Url::parse(url) {
        Ok(mut u) => {
            u.set_query(None);
            Some(Link { text: u.to_string(), host: u.host_str().map(|h| h.to_owned()) })
        },
        Err(_) => None,
    }
}

/// Trusted: parses `url` with `url::Url::parse` and takes its fragment away
/// with `Url::set_fragment`; the link holds the result's serialisation and
/// `Url::host_str`. The contract only gives that result its name.
#[verifier::external_body]
fn remove_fragment(url: &str) -> (link: Option<Link>)
    ensures
        match link {
            Some(l) => fragment_removed(url@) == Some(l@),
            None => fragment_removed(url@).is_none(),
        },
{
    match url::Url::parse(url) {
        Ok(mut u) => {
            u.set_fragment(None);
            Some(Link { text: u.to_string(), host: u.host_str().map(|h| h.to_owned()) })
        },
        Err(_) => None,
    }
}

/// The root of the domain of `url`: `url` without path, query and fragment;
/// `None` where `url` is no URL.
pub fn domain_root_of(url: &Link) -> (root: Option<Link>)
    ensures
        match root {
            Some(l) => domain_root(url.text@) == Some(l@),
            None => domain_root(url.text@).is_none(),
        },
{
    match replace_path(url.text.as_str(), "") {
        Some(bare) => match remove_query(bare.text.as_str()) {
            Some(plain) => remove_fragment(plain.text.as_str()),
            None => None,
        },
        None => None,
    }
}

/// The links that `hrefs` denote relative to `base`, in order: an anchor
/// without an `href` gives none, and neither does an `href` that does not
/// resolve. Nothing is removed for occurring twice.
pub open spec fn resolved_links(base: Seq<char>, hrefs: Seq<Option<Seq<char>>>) -> Seq<LinkView>
    decreases hrefs.len(),
{
    if hrefs.len() == 0 {
        Seq::empty()
    } else {
        let before = resolved_links(base, hrefs.drop_last());
        match hrefs.last() {
            Some(h) => match joined(base, h) {
                Some(l) => before.push(l),
                None => before,
            },
            None => before,
        }
    }
}

/// Resolves each `href` against `base_url`, keeping the order and dropping
/// what does not resolve.
pub fn resolve_hrefs(base_url: &Link, hrefs: &Vec<Option<String>>) -> (links: Vec<Link>)
    ensures
        link_views(links@) == resolved_links(base_url.text@, href_texts(hrefs@)),
{
    let mut links: Vec<Link> = Vec::new();
    let mut i: usize = 0;
    let ghost all = href_texts(hrefs@);
    assert(link_views(links@) =~= resolved_links(base_url.text@, all.take(0)));
    while i < hrefs.len()
        invariant
            i <= hrefs.len(),
            all == href_texts(hrefs@),
            link_views(links@) == resolved_links(base_url.text@, all.take(i as int)),
        decreases hrefs.len() - i,
    {
        let ghost before = link_views(links@);
        assert(all.take(i + 1).drop_last() =~= all.take(i as int));
        assert(all.take(i + 1).last() == all[i as int]);
        match &hrefs[i] {
            Some(h) => {
                match join_href(base_url.text.as_str(), h.as_str()) {
                    Some(l) => {
                        links.push(l);
                        assert(link_views(links@) =~= before.push(l@));
                    },
                    None => {},
                }
            },
            None => {},
        }
        i += 1;
    }
    assert(all.take(i as int) =~= all);
    links
}

/// The absolute URLs that the anchors of the HTML document `body` refer to,
/// in the order of the anchors, each `href` resolved against `base_url`. An
/// anchor without `href` and an `href` that does not resolve are passed over;
/// nothing is removed for occurring twice.
pub fn extract_urls(base_url: &Link, body: &str) -> (links: Vec<Link>)
    ensures
        link_views(links@) == resolved_links(base_url.text@, anchor_hrefs(body@)),
{
    match select_attrs(body, "a", "href") {
        Some(hrefs) => resolve_hrefs(base_url, &hrefs),
        None => {
            let links: Vec<Link> = Vec::new();
            assert(link_views(links@) =~= Seq::<LinkView>::empty());
            links
        },
    }
}

} // verus!
