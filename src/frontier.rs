//! The frontier: every URL the crawl has seen, each once, with the rules that
//! admit a URL, decide which discovered links are crawled, and report the result.
use vstd::prelude::*;
use crate::text::{has_prefix, lemma_text_lt_total, starts_with, text_less, text_lt};
use crate::urls::{normalize, normalized, WebUrl, UrlView};

verus! {

/// The serializations of a sequence of URLs.
pub open spec fn keys(s: Seq<UrlView>) -> Seq<Seq<char>> {
    s.map_values(|u: UrlView| u.text)
}

/// Whether a URL with serialization `k` is in `s`.
pub open spec fn has_key(s: Seq<UrlView>, k: Seq<char>) -> bool {
    exists|i: int| 0 <= i < s.len() && s[i].text == k
}

/// `s` after recording `u`: unchanged where `u` is already there, else with `u` at its end.
pub open spec fn recorded(s: Seq<UrlView>, u: UrlView) -> Seq<UrlView> {
    if has_key(s, u.text) {
        s
    } else {
        s.push(u)
    }
}

/// The settings of one crawl, fixed for its whole run.
#[derive(Clone, Debug)]
pub struct CrawlConfig {
    /// Longest URL text, in characters, that is fetched.
    pub max_url_length: u32,
    /// Whether links to other domains are crawled too.
    pub crawl_external: bool,
    /// Whether page bodies are saved to disk.
    pub download: bool,
    /// Path prefixes whose URLs are dropped.
    pub exclude: Vec<String>,
    /// Least time between the starts of two fetches, in milliseconds.
    pub delay_ms: u64,
}

/// Whether `path` begins with one of `prefixes`.
pub open spec fn excluded(path: Seq<char>, prefixes: Seq<Seq<char>>) -> bool {
    exists|j: int| 0 <= j < prefixes.len() && has_prefix(path, prefixes[j])
}

/// Whether a link `u` found on `page` is fetched in turn: it is on the page's
/// domain or external crawling is on, and its text is not too long.
pub open spec fn crawled(page: UrlView, u: UrlView, config: CrawlConfig) -> bool {
    (u.domain == page.domain || config.crawl_external) && u.text.len() <= config.max_url_length
}

/// Frontier and children after one more reference found on `page`: it is dropped
/// when it does not resolve, when its path is excluded, or when its URL has been
/// seen; else it is recorded, and it becomes a child when it is crawled.
pub open spec fn accept_one(
    f: Seq<UrlView>,
    c: Seq<UrlView>,
    page: UrlView,
    link: Seq<char>,
    config: CrawlConfig,
) -> (Seq<UrlView>, Seq<UrlView>) {
    match normalized(page.text, link) {
        None => (f, c),
        Some(u) => if excluded(u.path, config.exclude.deep_view()) || has_key(f, u.text) {
            (f, c)
        } else if crawled(page, u, config) {
            (f.push(u), c.push(u))
        } else {
            (f.push(u), c)
        },
    }
}

/// Frontier and children after the references `links` found on `page`, in order.
pub open spec fn accept_all(
    f: Seq<UrlView>,
    page: UrlView,
    links: Seq<Seq<char>>,
    config: CrawlConfig,
) -> (Seq<UrlView>, Seq<UrlView>)
    decreases links.len(),
{
    if links.len() == 0 {
        (f, Seq::empty())
    } else {
        let (f1, c1) = accept_all(f, page, links.drop_last(), config);
        accept_one(f1, c1, page, links.last(), config)
    }
}

/// Whether `path` begins with one of `prefixes`.
pub fn is_excluded(path: &String, prefixes: &Vec<String>) -> (r: bool)
    ensures
        r == excluded(path@, prefixes.deep_view()),
{
    let mut j: usize = 0;
    while j < prefixes.len()
        invariant
            j <= prefixes@.len(),
            forall|k: int| 0 <= k < j ==> !has_prefix(path@, prefixes.deep_view()[k]),
        decreases prefixes@.len() - j,
    {
        if starts_with(path.as_str(), prefixes[j].as_str()) {
            assert(has_prefix(path@, prefixes.deep_view()[j as int]));
            return true;
        }
        j = j + 1;
    }
    false
}

/// Whether a link `u` found on `page` is fetched in turn.
pub fn is_crawled(page: &WebUrl, u: &WebUrl, config: &CrawlConfig) -> (r: bool)
    ensures
        r == crawled(page@, u@, *config),
{
    (same_domain(&u.domain, &page.domain) || config.crawl_external) && u.text.as_str().unicode_len() <= config.max_url_length as usize
}

/// The views of a sequence of URLs.
pub open spec fn views(s: Seq<WebUrl>) -> Seq<UrlView> {
    s.map_values(|u: WebUrl| u@)
}

/// Each URL's text comes before the next one's.
pub open spec fn sorted_by_text(s: Seq<UrlView>) -> bool {
    forall|i: int| 0 <= i < s.len() - 1 ==> text_lt(#[trigger] s[i].text, s[i + 1].text)
}

/// `s` split, in order, into the URLs on `domain` and all others.
pub open spec fn partition(s: Seq<UrlView>, domain: Option<Seq<char>>) -> (Seq<UrlView>, Seq<UrlView>)
    decreases s.len(),
{
    if s.len() == 0 {
        (Seq::empty(), Seq::empty())
    } else {
        let (a, b) = partition(s.drop_last(), domain);
        if s.last().domain == domain {
            (a.push(s.last()), b)
        } else {
            (a, b.push(s.last()))
        }
    }
}

/// The outcome of a crawl: every URL seen, ordered by text, and the same URLs
/// split into those on the starting URL's domain and the others.
pub struct Report {
    pub all: Vec<WebUrl>,
    pub internal: Vec<WebUrl>,
    pub external: Vec<WebUrl>,
}

/// Whether two optional domains are the same.
pub fn same_domain(a: &Option<String>, b: &Option<String>) -> (r: bool)
    ensures
        r == (a.deep_view() == b.deep_view()),
{
    match (a, b) {
        (Some(x), Some(y)) => *x == *y,
        (None, None) => true,
        _ => false,
    }
}

/// The set of seen URLs, in order of discovery.
pub struct Frontier {
    urls: Vec<WebUrl>,
}

impl View for Frontier {
    type V = Seq<UrlView>;

    closed spec fn view(&self) -> Seq<UrlView> {
        self.urls@.map_values(|u: WebUrl| u@)
    }
}

impl Frontier {
    /// No URL is held twice.
    pub open spec fn wf(&self) -> bool {
        keys(self@).no_duplicates()
    }

    pub fn new() -> (r: Frontier)
        ensures
            r@ == Seq::<UrlView>::empty(),
            r.wf(),
    {
        let r = Frontier { urls: Vec::new() };
        assert(r@ =~= Seq::<UrlView>::empty());
        r
    }

    pub fn len(&self) -> (r: usize)
        ensures
            r == self@.len(),
    {
        self.urls.len()
    }

    /// The URL at position `i`, in order of discovery.
    pub fn get(&self, i: usize) -> (r: &WebUrl)
        requires
            i < self@.len(),
        ensures
            r@ == self@[i as int],
    {
        &self.urls[i]
    }

    /// Whether a URL with serialization `text` has been seen.
    pub fn contains(&self, text: &String) -> (r: bool)
        ensures
            r == has_key(self@, text@),
    {
        let mut i: usize = 0;
        while i < self.urls.len()
            invariant
                i <= self.urls@.len(),
                forall|j: int| 0 <= j < i ==> self@[j].text != text@,
            decreases self.urls@.len() - i,
        {
            if self.urls[i].text == *text {
                assert(self@[i as int].text == text@);
                return true;
            }
            i = i + 1;
        }
        false
    }

    /// Records `url` unless it has been seen; says whether it was new. The test
    /// and the insertion are one step.
    pub fn record(&mut self, url: WebUrl) -> (r: bool)
        requires
            old(self).wf(),
        ensures
            final(self).wf(),
            r == !has_key(old(self)@, url@.text),
            final(self)@ == recorded(old(self)@, url@),
    {
        if self.contains(&url.text) {
            false
        } else {
            proof {
                lemma_push_new_key(self@, url@);
            }
            self.urls.push(url);
            assert(self@ =~= old(self)@.push(url@));
            true
        }
    }

    /// Admits a starting URL: it is rejected, and not recorded, when its text is
    /// longer than `max_len` characters; else it is recorded, and admitted only if
    /// it was new.
    pub fn admit_start(&mut self, url: &WebUrl, max_len: u32) -> (r: bool)
        requires
            old(self).wf(),
        ensures
            final(self).wf(),
            r == (url@.text.len() <= max_len && !has_key(old(self)@, url@.text)),
            final(self)@ == if url@.text.len() <= max_len {
                recorded(old(self)@, url@)
            } else {
                old(self)@
            },
    {
        let n = url.text.as_str().unicode_len();
        if n > max_len as usize {
            return false;
        }
        self.record(url.duplicate())
    }

    /// Takes the references found on `page`, in document order: each is resolved and
    /// stripped, and recorded unless it is excluded or already seen. Returns those
    /// just recorded that are to be crawled, in the same order.
    pub fn accept_links(&mut self, page: &WebUrl, links: &Vec<String>, config: &CrawlConfig) -> (r: Vec<WebUrl>)
        requires
            old(self).wf(),
        ensures
            final(self).wf(),
            (final(self)@, r@.map_values(|u: WebUrl| u@)) == accept_all(
                old(self)@,
                page@,
                links.deep_view(),
                *config,
            ),
    {
        let mut children: Vec<WebUrl> = Vec::new();
        let mut i: usize = 0;
        while i < links.len()
            invariant
                self.wf(),
                i <= links@.len(),
                (self@, children@.map_values(|u: WebUrl| u@)) == accept_all(
                    old(self)@,
                    page@,
                    links.deep_view().take(i as int),
                    *config,
                ),
            decreases links@.len() - i,
        {
            let ghost before = children@.map_values(|u: WebUrl| u@);
            assert(links.deep_view().take(i + 1).drop_last() =~= links.deep_view().take(i as int));
            assert(links.deep_view().take(i + 1).last() == links@[i as int]@);
            match normalize(page, links[i].as_str()) {
                Err(_) => {},
                Ok(u) => {
                    if !is_excluded(&u.path, &config.exclude) {
                        let child = if is_crawled(page, &u, config) {
                            Some(u.duplicate())
                        } else {
                            None
                        };
                        if self.record(u) {
                            match child {
                                Some(c) => {
                                    children.push(c);
                                    assert(children@.map_values(|u: WebUrl| u@) =~= before.push(c@));
                                },
                                None => {},
                            }
                        }
                    }
                },
            }
            i = i + 1;
        }
        assert(links.deep_view().take(links@.len() as int) =~= links.deep_view());
        children
    }

    /// The seen URLs, ordered by their text.
    pub fn sorted(&self) -> (r: Vec<WebUrl>)
        requires
            self.wf(),
        ensures
            views(r@).len() == self@.len(),
            keys(views(r@)).no_duplicates(),
            sorted_by_text(views(r@)),
            forall|k: Seq<char>| has_key(views(r@), k) <==> has_key(self@, k),
    {
        let mut out: Vec<WebUrl> = Vec::new();
        let mut i: usize = 0;
        assert(keys(views(out@)) =~= Seq::empty());
        while i < self.urls.len()
            invariant
                self.wf(),
                i <= self@.len(),
                views(out@).len() == i,
                keys(views(out@)).no_duplicates(),
                sorted_by_text(views(out@)),
                forall|k: Seq<char>| has_key(views(out@), k) <==> has_key(self@.take(i as int), k),
            decreases self@.len() - i,
        {
            let x = &self.urls[i];
            assert(x@ == self@[i as int]);
            let mut p: usize = 0;
            while p < out.len() && text_less(out[p].text.as_str(), x.text.as_str())
                invariant
                    p <= out@.len(),
                    forall|q: int| 0 <= q < p ==> text_lt(#[trigger] views(out@)[q].text, x@.text),
                decreases out@.len() - p,
            {
                assert(views(out@)[p as int] == out@[p as int]@);
                p = p + 1;
            }
            let ghost old_out = views(out@);
            proof {
                lemma_new_key_absent(self@, i as int);
                assert(!has_key(old_out, x@.text));
                if p < old_out.len() {
                    assert(old_out[p as int] == out@[p as int]@);
                    assert(old_out[p as int].text != x@.text);
                    lemma_text_lt_total(old_out[p as int].text, x@.text);
                }
            }
            out.insert(p, x.duplicate());
            proof {
                assert(views(out@) =~= old_out.insert(p as int, x@));
                lemma_insert_sorted(old_out, x@, p as int);
                assert forall|k: Seq<char>| has_key(views(out@), k) <==> has_key(self@.take(i + 1), k) by {
                    lemma_has_key_insert(old_out, x@, p as int, k);
                    assert(self@.take(i + 1) =~= self@.take(i as int).push(x@));
                    lemma_has_key_push(self@.take(i as int), x@, k);
                }
            }
            i = i + 1;
        }
        assert(self@.take(self@.len() as int) =~= self@);
        out
    }

    /// Every seen URL ordered by text, and split by whether its domain is that of `seed`.
    pub fn report(&self, seed: &WebUrl) -> (r: Report)
        requires
            self.wf(),
        ensures
            views(r.all@).len() == self@.len(),
            keys(views(r.all@)).no_duplicates(),
            sorted_by_text(views(r.all@)),
            forall|k: Seq<char>| has_key(views(r.all@), k) <==> has_key(self@, k),
            (views(r.internal@), views(r.external@)) == partition(views(r.all@), seed@.domain),
    {
        let all = self.sorted();
        let mut internal: Vec<WebUrl> = Vec::new();
        let mut external: Vec<WebUrl> = Vec::new();
        let mut i: usize = 0;
        while i < all.len()
            invariant
                i <= all@.len(),
                (views(internal@), views(external@)) == partition(views(all@).take(i as int), seed@.domain),
            decreases all@.len() - i,
        {
            assert(views(all@).take(i + 1).drop_last() =~= views(all@).take(i as int));
            assert(views(all@).take(i + 1).last() == all@[i as int]@);
            let u = all[i].duplicate();
            if same_domain(&u.domain, &seed.domain) {
                internal.push(u);
                assert(views(internal@) =~= views(internal@).drop_last().push(u@));
            } else {
                external.push(u);
                assert(views(external@) =~= views(external@).drop_last().push(u@));
            }
            proof {
                let (a, b) = partition(views(all@).take(i as int), seed@.domain);
                if u@.domain == seed@.domain {
                    assert(views(internal@) =~= a.push(u@));
                    assert(views(external@) =~= b);
                } else {
                    assert(views(internal@) =~= a);
                    assert(views(external@) =~= b.push(u@));
                }
            }
            i = i + 1;
        }
        assert(views(all@).take(all@.len() as int) =~= views(all@));
        Report { all, internal, external }
    }
}

/// `s` after recording each of `us`, in order.
pub open spec fn record_all(s: Seq<UrlView>, us: Seq<UrlView>) -> Seq<UrlView>
    decreases us.len(),
{
    if us.len() == 0 {
        s
    } else {
        recorded(record_all(s, us.drop_last()), us.last())
    }
}

/// How many of the records of `us`, made in order from `s`, found their URL new.
pub open spec fn fresh_count(s: Seq<UrlView>, us: Seq<UrlView>) -> nat
    decreases us.len(),
{
    if us.len() == 0 {
        0
    } else {
        let before = record_all(s, us.drop_last());
        fresh_count(s, us.drop_last()) + if has_key(before, us.last().text) {
            0nat
        } else {
            1nat
        }
    }
}

/// However often one URL is discovered, the frontier then holds it exactly once,
/// and at most one of those discoveries finds it new, which is the only one that
/// may start a fetch of it; none does when it was there before.
pub proof fn law_single_entry(s: Seq<UrlView>, us: Seq<UrlView>, k: Seq<char>)
    requires
        keys(s).no_duplicates(),
        us.len() > 0,
        forall|i: int| 0 <= i < us.len() ==> us[i].text == k,
    ensures
        keys(record_all(s, us)).no_duplicates(),
        has_key(record_all(s, us), k),
        fresh_count(s, us) <= 1,
        has_key(s, k) ==> fresh_count(s, us) == 0,
    decreases us.len(),
{
    let prev = us.drop_last();
    let before = record_all(s, prev);
    if prev.len() == 0 {
        assert(before == s);
        if !has_key(s, k) {
            lemma_push_new_key(s, us.last());
            assert(record_all(s, us)[s.len() as int].text == k);
        }
    } else {
        law_single_entry(s, prev, k);
        assert(has_key(before, us.last().text));
    }
}

/// What recording references in turn keeps: the frontier stays free of repeats and
/// only grows; each child was new to the frontier it started from, is recorded, is
/// not excluded and is crawled; no child comes twice.
proof fn lemma_accept_all(f: Seq<UrlView>, page: UrlView, links: Seq<Seq<char>>, config: CrawlConfig)
    requires
        keys(f).no_duplicates(),
    ensures
        ({
            let (f2, c) = accept_all(f, page, links, config);
            &&& keys(f2).no_duplicates()
            &&& f.len() <= f2.len()
            &&& f2.take(f.len() as int) == f
            &&& keys(c).no_duplicates()
            &&& forall|i: int| 0 <= i < c.len() ==> {
                &&& !has_key(f, #[trigger] c[i].text)
                &&& has_key(f2, c[i].text)
                &&& !excluded(c[i].path, config.exclude.deep_view())
                &&& crawled(page, c[i], config)
            }
        }),
    decreases links.len(),
{
    if links.len() == 0 {
        assert(f.take(f.len() as int) =~= f);
        assert(keys(Seq::<UrlView>::empty()) =~= Seq::empty());
    } else {
        let (f1, c1) = accept_all(f, page, links.drop_last(), config);
        lemma_accept_all(f, page, links.drop_last(), config);
        match normalized(page.text, links.last()) {
            None => {},
            Some(u) => {
                if !excluded(u.path, config.exclude.deep_view()) && !has_key(f1, u.text) {
                    lemma_push_new_key(f1, u);
                    let f2 = f1.push(u);
                    assert(f2.take(f.len() as int) =~= f1.take(f.len() as int));
                    assert(has_key(f2, u.text)) by {
                        assert(f2[f1.len() as int] == u);
                    }
                    assert forall|i: int| 0 <= i < c1.len() implies has_key(f2, #[trigger] c1[i].text) by {
                        let j = choose|j: int| 0 <= j < f1.len() && f1[j].text == c1[i].text;
                        assert(f2[j] == f1[j]);
                    }
                    assert(!has_key(f, u.text)) by {
                        if has_key(f, u.text) {
                            let j = choose|j: int| 0 <= j < f.len() && f[j].text == u.text;
                            assert(f1[j] == f1.take(f.len() as int)[j]);
                        }
                    }
                    if crawled(page, u, config) {
                        let c2 = c1.push(u);
                        assert(keys(c2) =~= keys(c1).push(u.text));
                        assert forall|i: int, j: int|
                            0 <= i < keys(c2).len() && 0 <= j < keys(c2).len() && i != j
                            implies keys(c2)[i] != keys(c2)[j] by {
                            if i == c1.len() {
                                assert(has_key(f1, c1[j].text));
                            } else if j == c1.len() {
                                assert(has_key(f1, c1[i].text));
                            }
                        }
                        assert forall|i: int| 0 <= i < c2.len() implies {
                            &&& !has_key(f, #[trigger] c2[i].text)
                            &&& has_key(f2, c2[i].text)
                            &&& !excluded(c2[i].path, config.exclude.deep_view())
                            &&& crawled(page, c2[i], config)
                        } by {
                            if i < c1.len() {
                                assert(c2[i] == c1[i]);
                            }
                        }
                    }
                }
            },
        }
    }
}

/// A link whose path begins with an excluded prefix never becomes a child to crawl.
pub proof fn law_excluded_never_crawled(
    f: Seq<UrlView>,
    page: UrlView,
    links: Seq<Seq<char>>,
    config: CrawlConfig,
)
    requires
        keys(f).no_duplicates(),
    ensures
        forall|i: int| 0 <= i < accept_all(f, page, links, config).1.len()
            ==> !excluded(#[trigger] accept_all(f, page, links, config).1[i].path, config.exclude.deep_view()),
{
    lemma_accept_all(f, page, links, config);
    let c = accept_all(f, page, links, config).1;
    assert forall|i: int| 0 <= i < c.len() implies !excluded(#[trigger] c[i].path, config.exclude.deep_view()) by {
        assert(!has_key(f, c[i].text));
    }
}

/// The children that one page hands out are distinct URLs, none of them seen before
/// the page was read and all of them recorded after: no URL is handed out twice.
pub proof fn law_children_fresh(f: Seq<UrlView>, page: UrlView, links: Seq<Seq<char>>, config: CrawlConfig)
    requires
        keys(f).no_duplicates(),
    ensures
        keys(accept_all(f, page, links, config).1).no_duplicates(),
        forall|i: int| 0 <= i < accept_all(f, page, links, config).1.len() ==> {
            &&& !has_key(f, #[trigger] accept_all(f, page, links, config).1[i].text)
            &&& has_key(accept_all(f, page, links, config).0, accept_all(f, page, links, config).1[i].text)
        },
        accept_all(f, page, links, config).0.take(f.len() as int) == f,
{
    lemma_accept_all(f, page, links, config);
}

/// Every URL of the report is in exactly one of its two parts, and the two parts
/// together hold every URL seen.
pub proof fn law_partition_complete(s: Seq<UrlView>, domain: Option<Seq<char>>)
    requires
        keys(s).no_duplicates(),
    ensures
        forall|k: Seq<char>| has_key(s, k) <==> (has_key(partition(s, domain).0, k) || has_key(partition(s, domain).1, k)),
        forall|k: Seq<char>| !(has_key(partition(s, domain).0, k) && has_key(partition(s, domain).1, k)),
    decreases s.len(),
{
    if s.len() > 0 {
        let t = s.drop_last();
        assert(keys(t) =~= keys(s).drop_last());
        law_partition_complete(t, domain);
        let (a, b) = partition(t, domain);
        lemma_new_key_absent(s, t.len() as int);
        assert(s.take(t.len() as int) =~= t);
        assert(s =~= t.push(s.last()));
        assert forall|k: Seq<char>| has_key(s, k) <==> (has_key(partition(s, domain).0, k) || has_key(partition(s, domain).1, k)) by {
            lemma_has_key_push(t, s.last(), k);
            lemma_has_key_push(a, s.last(), k);
            lemma_has_key_push(b, s.last(), k);
        }
        assert forall|k: Seq<char>| !(has_key(partition(s, domain).0, k) && has_key(partition(s, domain).1, k)) by {
            lemma_has_key_push(a, s.last(), k);
            lemma_has_key_push(b, s.last(), k);
        }
    }
}

proof fn lemma_has_key_push(s: Seq<UrlView>, u: UrlView, k: Seq<char>)
    ensures
        has_key(s.push(u), k) <==> (has_key(s, k) || u.text == k),
{
    if has_key(s, k) {
        let j = choose|j: int| 0 <= j < s.len() && s[j].text == k;
        assert(s.push(u)[j] == s[j]);
    }
    if u.text == k {
        assert(s.push(u)[s.len() as int] == u);
    }
    if has_key(s.push(u), k) {
        let j = choose|j: int| 0 <= j < s.push(u).len() && s.push(u)[j].text == k;
        if j < s.len() {
            assert(s[j] == s.push(u)[j]);
        }
    }
}

proof fn lemma_has_key_insert(s: Seq<UrlView>, u: UrlView, p: int, k: Seq<char>)
    requires
        0 <= p <= s.len(),
    ensures
        has_key(s.insert(p, u), k) <==> (has_key(s, k) || u.text == k),
{
    let n = s.insert(p, u);
    if has_key(s, k) {
        let j = choose|j: int| 0 <= j < s.len() && s[j].text == k;
        if j < p {
            assert(n[j] == s[j]);
        } else {
            assert(n[j + 1] == s[j]);
        }
    }
    if u.text == k {
        assert(n[p] == u);
    }
    if has_key(n, k) {
        let j = choose|j: int| 0 <= j < n.len() && n[j].text == k;
        if j < p {
            assert(s[j] == n[j]);
        } else if j > p {
            assert(s[j - 1] == n[j]);
        }
    }
}

/// The element at `i` of a sequence without repeated texts does not occur before `i`.
proof fn lemma_new_key_absent(s: Seq<UrlView>, i: int)
    requires
        keys(s).no_duplicates(),
        0 <= i < s.len(),
    ensures
        !has_key(s.take(i), s[i].text),
{
    if has_key(s.take(i), s[i].text) {
        let j = choose|j: int| 0 <= j < s.take(i).len() && s.take(i)[j].text == s[i].text;
        assert(keys(s)[j] == keys(s)[i]);
    }
}

/// Inserting a new text at the place that keeps the order keeps the sequence
/// ordered and free of repeats.
proof fn lemma_insert_sorted(s: Seq<UrlView>, u: UrlView, p: int)
    requires
        0 <= p <= s.len(),
        sorted_by_text(s),
        keys(s).no_duplicates(),
        !has_key(s, u.text),
        forall|q: int| 0 <= q < p ==> text_lt(#[trigger] s[q].text, u.text),
        p < s.len() ==> text_lt(u.text, s[p].text),
    ensures
        sorted_by_text(s.insert(p, u)),
        keys(s.insert(p, u)).no_duplicates(),
{
    let n = s.insert(p, u);
    assert forall|i: int| 0 <= i < n.len() - 1 implies text_lt(#[trigger] n[i].text, n[i + 1].text) by {
        if i + 1 < p {
            assert(n[i] == s[i] && n[i + 1] == s[i + 1]);
        } else if i + 1 == p {
            assert(n[i] == s[i]);
        } else if i == p {
            assert(n[i + 1] == s[p]);
        } else {
            assert(n[i] == s[i - 1] && n[i + 1] == s[i]);
        }
    }
    assert forall|i: int, j: int| 0 <= i < keys(n).len() && 0 <= j < keys(n).len() && i != j
        implies keys(n)[i] != keys(n)[j] by {
        let si = if i < p { i } else { i - 1 };
        let sj = if j < p { j } else { j - 1 };
        if i == p {
            assert(n[j] == s[sj]);
        } else if j == p {
            assert(n[i] == s[si]);
        } else {
            assert(n[i] == s[si] && n[j] == s[sj]);
            assert(keys(s)[si] != keys(s)[sj]);
        }
    }
}

/// Appending a URL whose serialization is new keeps the serializations distinct.
proof fn lemma_push_new_key(s: Seq<UrlView>, u: UrlView)
    requires
        keys(s).no_duplicates(),
        !has_key(s, u.text),
    ensures
        keys(s.push(u)).no_duplicates(),
        keys(s.push(u)) == keys(s).push(u.text),
{
    assert(keys(s.push(u)) =~= keys(s).push(u.text));
    assert forall|i: int, j: int|
        0 <= i < keys(s.push(u)).len() && 0 <= j < keys(s.push(u)).len() && i != j
        implies keys(s.push(u))[i] != keys(s.push(u))[j] by {
        if i == s.len() {
            assert(s[j].text != u.text);
        } else if j == s.len() {
            assert(s[i].text != u.text);
        }
    }
}

} // verus!
