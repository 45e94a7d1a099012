//! One crawl job: a queue of URLs still to fetch and the set of URLs already
//! taken from it. The job never fetches anything itself. Its caller takes the
//! next URL with `next_url`, fetches it, and hands the outcome to
//! `on_fetched`, until `next_url` has nothing left.

use crate::fetch::FetchOutcome;
use crate::links::{anchor_hrefs, domain_root, domain_root_of, extract_urls, link_views, resolved_links, Link, LinkView};
use crate::storage::{extends, law_recorded_all, recorded, recorded_all, texts, Storage};
use std::collections::VecDeque;
use vstd::hash_set::StringHashSet;
use vstd::prelude::*;

verus! {

/// A crawl job as a mathematical value.
pub struct JobView {
    /// The root of the domain that the job stays in; links are resolved
    /// against it.
    pub base: LinkView,
    /// The host of `base`.
    pub base_host: Seq<char>,
    /// The URLs still to fetch, the next one first.
    pub frontier: Seq<Seq<char>>,
    /// The URLs that were taken from the frontier to be fetched.
    pub visited: Set<Seq<char>>,
}

/// The traversal state of one crawl job.
pub struct CrawlJob {
    base: Link,
    base_host: String,
    frontier: VecDeque<String>,
    visited: StringHashSet,
}

/// The serialisations of a sequence of links, in order.
pub open spec fn link_texts(links: Seq<LinkView>) -> Seq<Seq<char>> {
    Seq::new(links.len(), |i: int| links[i].text)
}

/// How many entries at the front of `frontier` are in `visited`.
pub open spec fn leading_visited(frontier: Seq<Seq<char>>, visited: Set<Seq<char>>) -> int
    decreases frontier.len(),
{
    if frontier.len() == 0 || !visited.contains(frontier[0]) {
        0
    } else {
        1 + leading_visited(frontier.skip(1), visited)
    }
}

/// The URL that the job fetches next: the first of the frontier that is not
/// visited yet; `None` where there is none, and the job is complete.
pub open spec fn next_to_fetch(j: JobView) -> Option<Seq<char>> {
    let k = leading_visited(j.frontier, j.visited);
    if k >= j.frontier.len() {
        None
    } else {
        Some(j.frontier[k])
    }
}

/// The job after its next URL was taken: the visited entries before it are
/// gone from the frontier, and it is visited now.
pub open spec fn dequeued(j: JobView) -> JobView {
    let k = leading_visited(j.frontier, j.visited);
    if k >= j.frontier.len() {
        JobView { frontier: Seq::empty(), ..j }
    } else {
        JobView { frontier: j.frontier.skip(k + 1), visited: j.visited.insert(j.frontier[k]), ..j }
    }
}

/// Whether the job goes on to `link`: it is on the job's host and not
/// visited yet.
pub open spec fn follows(j: JobView, link: LinkView) -> bool {
    link.host == Some(j.base_host) && !j.visited.contains(link.text)
}

/// The job after it saw `link` on a page: `link` is at the end of the
/// frontier where the job follows it.
pub open spec fn observed(j: JobView, link: LinkView) -> JobView {
    if follows(j, link) {
        JobView { frontier: j.frontier.push(link.text), ..j }
    } else {
        j
    }
}

/// The job after it saw each of `links`, in order.
pub open spec fn absorbed(j: JobView, links: Seq<LinkView>) -> JobView
    decreases links.len(),
{
    if links.len() == 0 {
        j
    } else {
        observed(absorbed(j, links.drop_last()), links.last())
    }
}

/// The links that the outcome of a fetch shows to the job: those of a
/// document, resolved against the job's base, and none for any other
/// outcome.
pub open spec fn page_links(j: JobView, outcome: FetchOutcome) -> Seq<LinkView> {
    match outcome {
        FetchOutcome::Document(body) => resolved_links(j.base.text, anchor_hrefs(body@)),
        _ => Seq::empty(),
    }
}

/// The entries of the frontier before the next URL to fetch are visited, and
/// that URL is not.
pub proof fn lemma_leading_visited(frontier: Seq<Seq<char>>, visited: Set<Seq<char>>)
    ensures
        0 <= leading_visited(frontier, visited) <= frontier.len(),
        forall|i: int|
            0 <= i < leading_visited(frontier, visited) ==> visited.contains(#[trigger] frontier[i]),
        leading_visited(frontier, visited) < frontier.len() ==> !visited.contains(
            frontier[leading_visited(frontier, visited)],
        ),
    decreases frontier.len(),
{
    if frontier.len() == 0 || !visited.contains(frontier[0]) {
    } else {
        let rest = frontier.skip(1);
        lemma_leading_visited(rest, visited);
        let k = leading_visited(rest, visited);
        assert forall|i: int| 0 <= i < k + 1 implies visited.contains(#[trigger] frontier[i]) by {
            if i > 0 {
                assert(rest[i - 1] == frontier[i]);
            }
        }
        if k < rest.len() {
            assert(rest[k] == frontier[k + 1]);
        }
    }
}

impl View for CrawlJob {
    type V = JobView;

    closed spec fn view(&self) -> JobView {
        JobView {
            base: self.base@,
            base_host: self.base_host@,
            frontier: texts(self.frontier@),
            visited: self.visited@,
        }
    }
}

impl CrawlJob {
    /// The job's base is on the job's host.
    pub closed spec fn wf(&self) -> bool {
        self.base@.host == Some(self.base_host@)
    }

    /// A job for the domain of `base_url`: its base is `base_url` without
    /// path, query and fragment, its frontier holds that root alone, and
    /// nothing is visited. There is no job where `base_url` is no URL or has
    /// no host.
    pub fn new(base_url: &Link) -> (job: Option<CrawlJob>)
        ensures
            match domain_root(base_url.text@) {
                Some(root) => match root.host {
                    Some(host) => job.is_some() && job.unwrap().wf() && job.unwrap()@ == (JobView {
                        base: root,
                        base_host: host,
                        frontier: seq![root.text],
                        visited: Set::empty(),
                    }),
                    None => job.is_none(),
                },
                None => job.is_none(),
            },
    {
        match domain_root_of(base_url) {
            Some(root) => {
                let Link { text, host } = root;
                match host {
                    Some(h) => {
                        let mut frontier: VecDeque<String> = VecDeque::new();
                        frontier.push_back(text.clone());
                        let job = CrawlJob {
                            base: Link { text, host: Some(h.clone()) },
                            base_host: h,
                            frontier,
                            visited: StringHashSet::new(),
                        };
                        assert(job@.frontier =~= seq![root@.text]);
                        Some(job)
                    },
                    None => None,
                }
            },
            None => None,
        }
    }

    /// The host that the job stays on.
    pub fn base_host(&self) -> (host: &String)
        ensures
            host@ == self@.base_host,
    {
        &self.base_host
    }

    /// The root that links are resolved against.
    pub fn base(&self) -> (base: &Link)
        ensures
            base@ == self@.base,
    {
        &self.base
    }

    /// How many URLs wait in the frontier, counting what occurs twice.
    pub fn pending(&self) -> (n: usize)
        ensures
            n == self@.frontier.len(),
    {
        self.frontier.len()
    }

    /// Whether the job is complete: nothing waits in the frontier.
    pub fn is_complete(&self) -> (complete: bool)
        ensures
            complete == (self@.frontier.len() == 0),
    {
        self.frontier.len() == 0
    }

    /// Whether `url` was taken from the frontier before.
    pub fn has_visited(&self, url: &str) -> (seen: bool)
        ensures
            seen == self@.visited.contains(url@),
    {
        self.visited.contains(url)
    }

    /// Takes the next URL to fetch from the frontier and marks it visited.
    /// Entries that are visited already are dropped on the way. `None` means
    /// that the frontier is empty now and the job complete.
    pub fn next_url(&mut self) -> (url: Option<String>)
        requires
            old(self).wf(),
        ensures
            final(self).wf(),
            final(self)@ == dequeued(old(self)@),
            match url {
                Some(u) => next_to_fetch(old(self)@) == Some(u@) && !old(self)@.visited.contains(u@)
                    && final(self)@.visited.contains(u@),
                None => next_to_fetch(old(self)@).is_none() && final(self)@.frontier.len() == 0,
            },
    {
        let ghost start = self@;
        let ghost mut n: int = 0;
        assert(start.frontier.skip(0) =~= start.frontier);
        loop
            invariant
                start == old(self)@,
                self.wf(),
                self@.base == start.base,
                self@.base_host == start.base_host,
                self@.visited == start.visited,
                0 <= n <= start.frontier.len(),
                self@.frontier == start.frontier.skip(n),
                leading_visited(start.frontier, start.visited) == n + leading_visited(
                    start.frontier.skip(n),
                    start.visited,
                ),
            decreases self.frontier.len(),
        {
            let ghost queue = self.frontier@;
            let ghost rest = start.frontier.skip(n);
            assert(texts(queue) == rest);
            match self.frontier.pop_front() {
                None => {
                    proof {
                        assert(rest.len() == 0);
                        assert(leading_visited(rest, start.visited) == 0);
                        assert(self@.frontier =~= Seq::<Seq<char>>::empty());
                        assert(self@ =~= dequeued(start));
                    }
                    return None;
                },
                Some(u) => {
                    proof {
                        assert(rest.len() > 0);
                        assert(u@ == texts(queue)[0]);
                        assert(rest[0] == start.frontier[n]);
                        assert(texts(self.frontier@) =~= rest.skip(1));
                        assert(rest.skip(1) =~= start.frontier.skip(n + 1));
                    }
                    if self.visited.contains(u.as_str()) {
                        proof {
                            assert(leading_visited(rest, start.visited) == 1 + leading_visited(
                                rest.skip(1),
                                start.visited,
                            ));
                            n = n + 1;
                        }
                    } else {
                        self.visited.insert(u.clone());
                        proof {
                            assert(leading_visited(rest, start.visited) == 0);
                            assert(self@ =~= dequeued(start));
                        }
                        return Some(u);
                    }
                },
            }
        }
    }

    /// Sees one link of a fetched page: it is recorded under the job's host,
    /// whatever its own host, and joins the frontier where it is on the
    /// job's host and not visited yet.
    pub fn observe(&mut self, storage: &mut Storage, link: &Link)
        requires
            old(self).wf(),
            old(storage).wf(),
        ensures
            final(self).wf(),
            final(storage).wf(),
            final(storage)@ == recorded(old(storage)@, old(self)@.base_host, link@.text),
            extends(final(storage)@, old(storage)@),
            final(self)@ == observed(old(self)@, link@),
    {
        storage.record(self.base_host.as_str(), link.text.as_str());
        if link.has_host(&self.base_host) && !self.visited.contains(link.text.as_str()) {
            let ghost before = self@;
            self.frontier.push_back(link.text.clone());
            assert(self@.frontier =~= before.frontier.push(link@.text));
        }
    }

    /// Sees the links of a fetched page, in order.
    pub fn absorb(&mut self, storage: &mut Storage, links: &Vec<Link>)
        requires
            old(self).wf(),
            old(storage).wf(),
        ensures
            final(self).wf(),
            final(storage).wf(),
            final(storage)@ == recorded_all(
                old(storage)@,
                old(self)@.base_host,
                link_texts(link_views(links@)),
            ),
            extends(final(storage)@, old(storage)@),
            final(self)@ == absorbed(old(self)@, link_views(links@)),
    {
        proof {
            law_recorded_all(storage@, self@.base_host, link_texts(link_views(links@)));
        }
        let ghost job0 = self@;
        let ghost index0 = storage@;
        let ghost all = link_views(links@);
        let mut i: usize = 0;
        assert(link_texts(all.take(0)) =~= Seq::<Seq<char>>::empty());
        while i < links.len()
            invariant
                i <= links.len(),
                self.wf(),
                storage.wf(),
                all == link_views(links@),
                self@.base_host == job0.base_host,
                self@ == absorbed(job0, all.take(i as int)),
                storage@ == recorded_all(index0, job0.base_host, link_texts(all.take(i as int))),
            decreases links.len() - i,
        {
            proof {
                let next = all.take(i + 1);
                assert(next.drop_last() =~= all.take(i as int));
                assert(next.last() == links[i as int]@);
                assert(link_texts(next).drop_last() =~= link_texts(all.take(i as int)));
                assert(link_texts(next).last() == links[i as int]@.text);
            }
            self.observe(storage, &links[i]);
            i += 1;
        }
        assert(all.take(i as int) =~= all);
    }

    /// The links that the outcome of a fetch shows: those of a document, in
    /// the order of its anchors, and none where the fetch gave no document.
    pub fn links_of(&self, outcome: &FetchOutcome) -> (links: Vec<Link>)
        ensures
            link_views(links@) == page_links(self@, *outcome),
    {
        match outcome {
            FetchOutcome::Document(body) => extract_urls(&self.base, body.as_str()),
            _ => {
                let links: Vec<Link> = Vec::new();
                assert(link_views(links@) =~= Seq::<LinkView>::empty());
                links
            },
        }
    }

    /// Takes the outcome of fetching the URL that `next_url` gave last. The
    /// links of a document are seen in order. An outcome that is no document
    /// changes neither the job nor the index.
    pub fn on_fetched(&mut self, storage: &mut Storage, outcome: &FetchOutcome)
        requires
            old(self).wf(),
            old(storage).wf(),
        ensures
            final(self).wf(),
            final(storage).wf(),
            final(self)@ == absorbed(old(self)@, page_links(old(self)@, *outcome)),
            final(storage)@ == recorded_all(
                old(storage)@,
                old(self)@.base_host,
                link_texts(page_links(old(self)@, *outcome)),
            ),
            extends(final(storage)@, old(storage)@),
            !(outcome is Document) ==> final(self)@ == old(self)@ && final(storage)@ == old(storage)@,
    {
        let links = self.links_of(outcome);
        self.absorb(storage, &links);
    }
}

/// Whether every entry of the job's frontier is in `universe`.
pub open spec fn within(j: JobView, universe: Set<Seq<char>>) -> bool {
    forall|i: int| 0 <= i < j.frontier.len() ==> universe.contains(#[trigger] j.frontier[i])
}

/// How many URLs of `universe` the job has not visited.
pub open spec fn unvisited(j: JobView, universe: Set<Seq<char>>) -> nat {
    universe.difference(j.visited).len()
}

/// Whether `url` is the serialisation of one of `links` that the job follows.
pub open spec fn is_followed_link(j: JobView, links: Seq<LinkView>, url: Seq<char>) -> bool {
    exists|k: int| 0 <= k < links.len() && follows(j, #[trigger] links[k]) && links[k].text == url
}

/// The scope rule. Seeing the links of a page changes nothing of a job but
/// its frontier, and appends to it exactly the links that the job follows,
/// in order: those on the job's host that are not visited. A link to
/// another host is never enqueued.
pub proof fn law_only_followed_links_are_enqueued(j: JobView, links: Seq<LinkView>)
    ensures
        absorbed(j, links).base == j.base,
        absorbed(j, links).base_host == j.base_host,
        absorbed(j, links).visited == j.visited,
        absorbed(j, links).frontier == j.frontier + link_texts(
            links.filter(|l: LinkView| follows(j, l)),
        ),
        forall|i: int|
            j.frontier.len() <= i < absorbed(j, links).frontier.len() ==> is_followed_link(
                j,
                links,
                #[trigger] absorbed(j, links).frontier[i],
            ),
    decreases links.len(),
{
    reveal(Seq::filter);
    let pred = |l: LinkView| follows(j, l);
    if links.len() == 0 {
        assert(link_texts(links.filter(pred)) =~= Seq::<Seq<char>>::empty());
        assert(j.frontier + Seq::<Seq<char>>::empty() =~= j.frontier);
    } else {
        let init = links.drop_last();
        let last = links.last();
        law_only_followed_links_are_enqueued(j, init);
        let mid = absorbed(j, init);
        let end = absorbed(j, links);
        assert(follows(mid, last) == follows(j, last));
        let kept = init.filter(pred);
        if follows(j, last) {
            assert(links.filter(pred) == kept.push(last));
            assert(link_texts(kept.push(last)) =~= link_texts(kept).push(last.text));
            assert(end.frontier =~= j.frontier + link_texts(links.filter(pred)));
        } else {
            assert(links.filter(pred) == kept);
        }
        assert forall|i: int| j.frontier.len() <= i < end.frontier.len() implies is_followed_link(
            j,
            links,
            #[trigger] end.frontier[i],
        ) by {
            if i < mid.frontier.len() {
                assert(end.frontier[i] == mid.frontier[i]);
                assert(is_followed_link(j, init, mid.frontier[i]));
                let k = choose|k: int|
                    0 <= k < init.len() && follows(j, #[trigger] init[k]) && init[k].text
                        == mid.frontier[i];
                assert(links[k] == init[k]);
            } else {
                assert(links[links.len() - 1] == last);
            }
        }
    }
}

/// Termination. Let `universe` be a finite set of URLs that holds the
/// frontier and every link on the job's host that a page may show. A round
/// takes the next URL and sees the links of its page (none where the fetch
/// gave no document). The URL that a round takes was never taken before; it
/// is visited afterwards; the frontier stays in `universe`; and the number
/// of unvisited URLs of `universe` goes down. So no URL is fetched twice and
/// there are at most as many rounds as `universe` has URLs. Where no URL is
/// left to take, the frontier is empty and the job is complete.
pub proof fn law_each_round_visits_a_new_url(
    j: JobView,
    universe: Set<Seq<char>>,
    links: Seq<LinkView>,
)
    requires
        universe.finite(),
        within(j, universe),
        forall|k: int|
            0 <= k < links.len() && (#[trigger] links[k]).host == Some(j.base_host)
                ==> universe.contains(links[k].text),
    ensures
        match next_to_fetch(j) {
            Some(u) => {
                let after = absorbed(dequeued(j), links);
                &&& !j.visited.contains(u)
                &&& after.visited == j.visited.insert(u)
                &&& within(after, universe)
                &&& unvisited(after, universe) < unvisited(j, universe)
            },
            None => dequeued(j).frontier.len() == 0 && dequeued(j).visited == j.visited,
        },
{
    lemma_leading_visited(j.frontier, j.visited);
    let k = leading_visited(j.frontier, j.visited);
    if k < j.frontier.len() {
        let u = j.frontier[k];
        let taken = dequeued(j);
        let after = absorbed(taken, links);
        law_only_followed_links_are_enqueued(taken, links);
        assert forall|i: int| 0 <= i < after.frontier.len() implies universe.contains(
            #[trigger] after.frontier[i],
        ) by {
            if i < taken.frontier.len() {
                assert(after.frontier[i] == taken.frontier[i]);
                assert(taken.frontier[i] == j.frontier[i + k + 1]);
            } else {
                assert(is_followed_link(taken, links, after.frontier[i]));
                let n = choose|n: int|
                    0 <= n < links.len() && follows(taken, #[trigger] links[n]) && links[n].text
                        == after.frontier[i];
                assert(links[n].host == Some(j.base_host));
            }
        }
        assert(universe.contains(u));
        let left = universe.difference(j.visited);
        assert(left.contains(u));
        assert(universe.difference(after.visited) =~= left.remove(u));
    }
}

} // verus!
