//! The index of discovered links: for each host, the set of every URL that
//! was ever recorded under it. Records only grow.

use vstd::hash_map::StringHashMap;
use vstd::hash_set::StringHashSet;
use vstd::prelude::*;

verus! {

/// The index as a mathematical value: a set of URLs for each known host.
pub type Index = Map<Seq<char>, Set<Seq<char>>>;

/// The views of a sequence of strings, in order.
pub open spec fn texts(v: Seq<String>) -> Seq<Seq<char>> {
    Seq::new(v.len(), |i: int| v[i]@)
}

/// The URLs recorded under `host` in `m`: none where the host is unknown.
pub open spec fn members(m: Index, host: Seq<char>) -> Set<Seq<char>> {
    if m.dom().contains(host) {
        m[host]
    } else {
        Set::empty()
    }
}

/// The index `m` after `url` was recorded under `host`.
pub open spec fn recorded(m: Index, host: Seq<char>, url: Seq<char>) -> Index {
    m.insert(host, members(m, host).insert(url))
}

/// The index `m` after each of `urls` was recorded under `host`, in order.
pub open spec fn recorded_all(m: Index, host: Seq<char>, urls: Seq<Seq<char>>) -> Index
    decreases urls.len(),
{
    if urls.len() == 0 {
        m
    } else {
        recorded(recorded_all(m, host, urls.drop_last()), host, urls.last())
    }
}

/// `new` knows every host of `old`, and under each of them every URL that
/// `old` holds there.
pub open spec fn extends(new: Index, old: Index) -> bool {
    forall|h: Seq<char>| #[trigger]
        old.dom().contains(h) ==> new.dom().contains(h) && old[h].subset_of(new[h])
}

/// All distinct URLs discovered for one host: `urls` holds them in the order
/// in which they came, `seen` holds them for lookup.
pub struct DomainRecord {
    host: String,
    urls: Vec<String>,
    seen: StringHashSet,
}

/// The shared index, from host to the record of that host: `records` holds
/// the records in the order in which their hosts came, `places` holds the
/// place of each host's record.
pub struct Storage {
    records: Vec<DomainRecord>,
    places: StringHashMap<usize>,
}

/// What the index holds for one host at one moment.
#[derive(Debug, PartialEq, Eq)]
pub struct DomainSnapshot {
    pub count: usize,
    pub urls: Vec<String>,
}

/// A sequence without duplicates stays so when it takes an element that it
/// did not hold, and its set gains that element.
proof fn lemma_push_fresh(s: Seq<Seq<char>>, x: Seq<char>)
    requires
        s.no_duplicates(),
        !s.contains(x),
    ensures
        s.push(x).no_duplicates(),
        s.push(x).to_set() == s.to_set().insert(x),
{
    s.lemma_push_to_set_commute(x);
    assert forall|a: int, b: int|
        0 <= a < s.len() + 1 && 0 <= b < s.len() + 1 && a != b implies s.push(x)[a] != s.push(x)[b] by {
        if a < s.len() {
            assert(s[a] == s.push(x)[a]);
        }
        if b < s.len() {
            assert(s[b] == s.push(x)[b]);
        }
    }
}

/// A copy of `v`, string by string.
fn copy_texts(v: &Vec<String>) -> (out: Vec<String>)
    ensures
        texts(out@) == texts(v@),
{
    let mut out: Vec<String> = Vec::new();
    let mut i: usize = 0;
    while i < v.len()
        invariant
            i <= v.len(),
            out.len() == i,
            forall|j: int| 0 <= j < i ==> out[j]@ == v[j]@,
        decreases v.len() - i,
    {
        out.push(v[i].clone());
        i += 1;
    }
    assert(texts(out@) =~= texts(v@));
    out
}

impl View for Storage {
    type V = Index;

    closed spec fn view(&self) -> Index {
        Map::new(
            |h: Seq<char>| self.knows(h),
            |h: Seq<char>| texts(self.records[self.index_of(h)].urls@).to_set(),
        )
    }
}

impl Storage {
    /// Whether some record is kept for `host`.
    closed spec fn knows(&self, host: Seq<char>) -> bool {
        exists|i: int| 0 <= i < self.records.len() && #[trigger] self.records[i].host@ == host
    }

    /// The place of the record that is kept for `host`.
    closed spec fn index_of(&self, host: Seq<char>) -> int {
        choose|i: int| 0 <= i < self.records.len() && #[trigger] self.records[i].host@ == host
    }

    /// No host has two records.
    closed spec fn distinct_hosts(&self) -> bool {
        forall|i: int, j: int|
            0 <= i < j < self.records.len() ==> #[trigger] self.records[i].host@
                != #[trigger] self.records[j].host@
    }

    /// No host has two records, no record holds a URL twice, and the lookup
    /// structures agree with the records.
    pub closed spec fn wf(&self) -> bool {
        &&& self.distinct_hosts()
        &&& forall|i: int|
            0 <= i < self.records.len() ==> #[trigger] texts(self.records[i].urls@).no_duplicates()
        &&& forall|i: int|
            0 <= i < self.records.len() ==> #[trigger] self.records[i].seen@ == texts(
                self.records[i].urls@,
            ).to_set()
        &&& forall|i: int|
            0 <= i < self.records.len() ==> self.places@.dom().contains(
                #[trigger] self.records[i].host@,
            ) && self.places@[self.records[i].host@] == i
        &&& forall|h: Seq<char>| #[trigger]
            self.places@.dom().contains(h) ==> 0 <= self.places@[h] < self.records.len()
                && self.records[self.places@[h] as int].host@ == h
    }

    /// The record at place `i` is the one that the view shows for its host.
    proof fn lemma_view_at(&self, i: int)
        requires
            self.distinct_hosts(),
            0 <= i < self.records.len(),
        ensures
            self.knows(self.records[i].host@),
            self.index_of(self.records[i].host@) == i,
            self@.dom().contains(self.records[i].host@),
            self@[self.records[i].host@] == texts(self.records[i].urls@).to_set(),
    {
        let h = self.records[i].host@;
        let k = self.index_of(h);
        assert(self.records[k].host@ == h);
        if k < i {
            assert(self.records[k].host@ != self.records[i].host@);
        } else if i < k {
            assert(self.records[i].host@ != self.records[k].host@);
        }
    }

    /// An index that knows no host.
    pub fn new() -> (storage: Storage)
        ensures
            storage.wf(),
            storage@ == Map::<Seq<char>, Set<Seq<char>>>::empty(),
    {
        let storage = Storage { records: Vec::new(), places: StringHashMap::new() };
        assert(storage@ =~= Map::<Seq<char>, Set<Seq<char>>>::empty());
        storage
    }

    /// The place of the record for `host`, if there is one.
    fn position(&self, host: &str) -> (found: Option<usize>)
        requires
            self.wf(),
        ensures
            match found {
                Some(i) => i < self.records.len() && self.records[i as int].host@ == host@
                    && self@.dom().contains(host@),
                None => !self@.dom().contains(host@),
            },
    {
        match self.places.get(host) {
            Some(place) => {
                let i: usize = *place;
                proof {
                    self.lemma_view_at(i as int);
                }
                Some(i)
            },
            None => {
                proof {
                    if self.knows(host@) {
                        let k = self.index_of(host@);
                        assert(self.places@.dom().contains(self.records[k].host@));
                    }
                }
                None
            },
        }
    }

    /// Records `url` under `host`: the host's record is made if there was
    /// none, and holds `url` afterwards. Nothing else changes, and a URL that
    /// the record already held leaves the index as it was.
    pub fn record(&mut self, host: &str, url: &str)
        requires
            old(self).wf(),
        ensures
            final(self).wf(),
            final(self)@ == recorded(old(self)@, host@, url@),
            extends(final(self)@, old(self)@),
    {
        let ghost before = *self;
        match self.position(host) {
            Some(i) => {
                proof {
                    self.lemma_view_at(i as int);
                }
                if !self.records[i].seen.contains(url) {
                    let ghost old_urls = texts(self.records[i as int].urls@);
                    assert(old_urls.no_duplicates());
                    assert(!old_urls.contains(url@));
                    self.records[i].urls.push(url.to_owned());
                    self.records[i].seen.insert(url.to_owned());
                    proof {
                        let new_urls = texts(self.records[i as int].urls@);
                        assert(new_urls =~= old_urls.push(url@));
                        lemma_push_fresh(old_urls, url@);
                        assert forall|j: int| 0 <= j < self.records.len() implies #[trigger]
                            self.records[j].host@ == before.records[j].host@ by {}
                        assert forall|j: int| 0 <= j < self.records.len() && j != i implies #[trigger]
                            self.records[j].urls == before.records[j].urls && self.records[j].seen
                            == before.records[j].seen by {}
                        assert(self.distinct_hosts());
                        assert(self.wf());
                        self.lemma_same_hosts(before, i as int);
                    }
                } else {
                    proof {
                        let urls = texts(self.records[i as int].urls@);
                        assert(urls.to_set().insert(url@) =~= urls.to_set());
                        assert(self@ =~= recorded(before@, host@, url@));
                    }
                }
            },
            None => {
                let place = self.records.len();
                let mut urls: Vec<String> = Vec::new();
                urls.push(url.to_owned());
                let mut seen = StringHashSet::new();
                seen.insert(url.to_owned());
                self.records.push(DomainRecord { host: host.to_owned(), urls, seen });
                self.places.insert(host.to_owned(), place);
                proof {
                    let n = before.records.len() as int;
                    assert(texts(self.records[n].urls@) =~= Seq::<Seq<char>>::empty().push(url@));
                    lemma_push_fresh(Seq::<Seq<char>>::empty(), url@);
                    assert(Seq::<Seq<char>>::empty().to_set() =~= Set::<Seq<char>>::empty());
                    assert(!before.knows(host@));
                    assert forall|j: int| 0 <= j < n implies #[trigger] self.records[j]
                        == before.records[j] by {}
                    assert forall|j: int| 0 <= j < n implies #[trigger] self.records[j].host@
                        != host@ by {
                        assert(before.records[j].host@ != host@);
                    }
                    assert(self.distinct_hosts());
                    assert(self.wf());
                    self.lemma_one_more(before);
                }
            },
        }
        proof {
            law_record_extends(before@, host@, url@);
        }
    }

    /// Every known host, each once, in no order that callers may rely on.
    pub fn list_domains(&self) -> (hosts: Vec<String>)
        requires
            self.wf(),
        ensures
            texts(hosts@).no_duplicates(),
            texts(hosts@).to_set() == self@.dom(),
            hosts.len() == self@.dom().len(),
    {
        let mut hosts: Vec<String> = Vec::new();
        let mut i: usize = 0;
        while i < self.records.len()
            invariant
                i <= self.records.len(),
                hosts.len() == i,
                forall|j: int| 0 <= j < i ==> hosts[j]@ == self.records[j].host@,
            decreases self.records.len() - i,
        {
            hosts.push(self.records[i].host.clone());
            i += 1;
        }
        proof {
            let t = texts(hosts@);
            assert forall|a: int, b: int| 0 <= a < t.len() && 0 <= b < t.len() && a != b implies t[a]
                != t[b] by {
                if a < b {
                    assert(self.records[a].host@ != self.records[b].host@);
                } else {
                    assert(self.records[b].host@ != self.records[a].host@);
                }
            }
            assert forall|h: Seq<char>| t.to_set().contains(h) <==> self@.dom().contains(h) by {
                if t.contains(h) {
                    let k = choose|k: int| 0 <= k < t.len() && t[k] == h;
                    assert(self.records[k].host@ == h);
                }
                if self.knows(h) {
                    let k = self.index_of(h);
                    assert(t[k] == h);
                }
            }
            assert(t.to_set() =~= self@.dom());
            t.unique_seq_to_set();
        }
        hosts
    }

    /// What is recorded under `host`: the URLs, each once, and their number;
    /// `None` where nothing was ever recorded under it.
    pub fn get(&self, host: &str) -> (snapshot: Option<DomainSnapshot>)
        requires
            self.wf(),
        ensures
            snapshot.is_some() == self@.dom().contains(host@),
            match snapshot {
                Some(s) => {
                    &&& s.count == s.urls.len()
                    &&& s.count == self@[host@].len()
                    &&& texts(s.urls@).no_duplicates()
                    &&& texts(s.urls@).to_set() == self@[host@]
                },
                None => true,
            },
    {
        match self.position(host) {
            Some(i) => {
                let urls = copy_texts(&self.records[i].urls);
                proof {
                    self.lemma_view_at(i as int);
                    assert(texts(self.records[i as int].urls@).no_duplicates());
                    texts(urls@).unique_seq_to_set();
                }
                Some(DomainSnapshot { count: urls.len(), urls })
            },
            None => None,
        }
    }

    /// A storage that differs from `before` only in the URLs of the record at
    /// place `i` shows the same index but for that record's host.
    proof fn lemma_same_hosts(&self, before: Storage, i: int)
        requires
            self.distinct_hosts(),
            before.distinct_hosts(),
            0 <= i < before.records.len(),
            self.records.len() == before.records.len(),
            forall|j: int| 0 <= j < self.records.len() ==> #[trigger] self.records[j].host@ == before.records[j].host@,
            forall|j: int| 0 <= j < self.records.len() && j != i ==> #[trigger] self.records[j].urls == before.records[j].urls,
        ensures
            self@ == before@.insert(before.records[i].host@, texts(self.records[i].urls@).to_set()),
    {
        let target = before@.insert(before.records[i].host@, texts(self.records[i].urls@).to_set());
        assert forall|h: Seq<char>| self@.dom().contains(h) <==> target.dom().contains(h) by {
            if self.knows(h) {
                let k = self.index_of(h);
                assert(before.records[k].host@ == h);
            }
            if before.knows(h) {
                let k = before.index_of(h);
                assert(self.records[k].host@ == h);
            }
            assert(self.records[i].host@ == before.records[i].host@);
        }
        assert forall|h: Seq<char>| self@.dom().contains(h) implies #[trigger] self@[h] == target[h] by {
            let k = self.index_of(h);
            self.lemma_view_at(k);
            before.lemma_view_at(k);
            assert(self.records[k].host@ == before.records[k].host@);
            if k != i {
                assert(self.records[k].urls == before.records[k].urls);
                before.lemma_view_at(i);
            }
        }
        assert(self@ =~= target);
    }

    /// A storage with one record more than `before`, for a host that `before`
    /// did not know, shows the index of `before` and that record.
    proof fn lemma_one_more(&self, before: Storage)
        requires
            self.distinct_hosts(),
            before.distinct_hosts(),
            self.records.len() == before.records.len() + 1,
            forall|j: int| 0 <= j < before.records.len() ==> #[trigger] self.records[j] == before.records[j],
        ensures
            self@ == before@.insert(
                self.records@.last().host@,
                texts(self.records@.last().urls@).to_set(),
            ),
    {
        let n = before.records.len() as int;
        let target = before@.insert(self.records[n].host@, texts(self.records[n].urls@).to_set());
        self.lemma_view_at(n);
        assert forall|h: Seq<char>| self@.dom().contains(h) <==> target.dom().contains(h) by {
            if self.knows(h) {
                let k = self.index_of(h);
                if k < n {
                    assert(before.records[k].host@ == h);
                }
            }
            if before.knows(h) {
                let k = before.index_of(h);
                assert(self.records[k].host@ == h);
            }
        }
        assert forall|h: Seq<char>| self@.dom().contains(h) implies #[trigger] self@[h] == target[h] by {
            let k = self.index_of(h);
            self.lemma_view_at(k);
            if k < n {
                assert(self.records[k] == before.records[k]);
                before.lemma_view_at(k);
            }
        }
        assert(self@ =~= target);
    }
}

/// Recording never removes anything: the index after `record` holds every
/// host and every URL that it held before.
pub proof fn law_record_extends(m: Index, host: Seq<char>, url: Seq<char>)
    ensures
        extends(recorded(m, host, url), m),
{
}

/// Growth is kept over time: every index extends itself, and an index that
/// extends a second one extends whatever the second extends.
pub proof fn law_extends_is_a_preorder(a: Index, b: Index, c: Index)
    ensures
        extends(a, a),
        extends(c, b) && extends(b, a) ==> extends(c, a),
{
    if extends(c, b) && extends(b, a) {
        assert forall|h: Seq<char>| #[trigger] a.dom().contains(h) implies c.dom().contains(h)
            && a[h].subset_of(c[h]) by {
            assert(b.dom().contains(h));
        }
    }
}

/// Recording the same URL under the same host a second time changes nothing.
pub proof fn law_record_is_idempotent(m: Index, host: Seq<char>, url: Seq<char>)
    ensures
        recorded(recorded(m, host, url), host, url) == recorded(m, host, url),
{
    let once = recorded(m, host, url);
    assert(members(once, host).insert(url) =~= members(once, host));
    assert(recorded(once, host, url) =~= once);
}

/// Two recordings give the same index in either order, whatever their hosts.
pub proof fn law_records_commute(
    m: Index,
    host1: Seq<char>,
    url1: Seq<char>,
    host2: Seq<char>,
    url2: Seq<char>,
)
    ensures
        recorded(recorded(m, host1, url1), host2, url2) == recorded(
            recorded(m, host2, url2),
            host1,
            url1,
        ),
{
    let a = recorded(recorded(m, host1, url1), host2, url2);
    let b = recorded(recorded(m, host2, url2), host1, url1);
    if host1 == host2 {
        assert(members(recorded(m, host1, url1), host2).insert(url2) =~= members(
            recorded(m, host2, url2),
            host1,
        ).insert(url1));
    }
    assert(a =~= b);
}

/// Recording a sequence of URLs under one host adds exactly their set to
/// that host's record and touches no other host.
pub proof fn law_recorded_all(m: Index, host: Seq<char>, urls: Seq<Seq<char>>)
    ensures
        urls.len() == 0 ==> recorded_all(m, host, urls) == m,
        urls.len() > 0 ==> recorded_all(m, host, urls) == m.insert(
            host,
            members(m, host).union(urls.to_set()),
        ),
        extends(recorded_all(m, host, urls), m),
    decreases urls.len(),
{
    if urls.len() > 0 {
        let init = urls.drop_last();
        law_recorded_all(m, host, init);
        let mid = recorded_all(m, host, init);
        init.lemma_push_to_set_commute(urls.last());
        assert(urls =~= init.push(urls.last()));
        if init.len() == 0 {
            assert(init.to_set() =~= Set::<Seq<char>>::empty());
        }
        assert(members(mid, host).insert(urls.last()) =~= members(m, host).union(urls.to_set()));
        assert(recorded_all(m, host, urls) =~= m.insert(
            host,
            members(m, host).union(urls.to_set()),
        ));
    }
}

/// Writers converge: when two writers record the URLs `l1` and `l2` under
/// one host, then in whatever order `merged` their recordings take effect,
/// the host's record ends as what it held before together with both sets.
/// Nothing is lost, and no other host is touched.
pub proof fn law_writers_converge(
    m: Index,
    host: Seq<char>,
    l1: Seq<Seq<char>>,
    l2: Seq<Seq<char>>,
    merged: Seq<Seq<char>>,
)
    requires
        merged.to_set() == l1.to_set().union(l2.to_set()),
    ensures
        members(recorded_all(m, host, merged), host) == members(m, host).union(l1.to_set()).union(
            l2.to_set(),
        ),
        forall|other: Seq<char>|
            other != host ==> {
                &&& recorded_all(m, host, merged).dom().contains(other) == m.dom().contains(other)
                &&& #[trigger] members(recorded_all(m, host, merged), other) == members(m, other)
            },
{
    law_recorded_all(m, host, merged);
    if merged.len() == 0 {
        assert(merged.to_set() =~= Set::<Seq<char>>::empty());
    }
    assert(members(m, host).union(merged.to_set()) =~= members(m, host).union(l1.to_set()).union(
        l2.to_set(),
    ));
}

} // verus!
