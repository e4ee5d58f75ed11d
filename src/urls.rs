//! Parsed URLs and their normalization into deduplication keys.
use vstd::prelude::*;
use crate::text::{before_char, prefix_before, lemma_prefix_before_idempotent};

verus! {

/// Serialization of `url::Url::parse(s)`, or `None` where it fails.
pub uninterp spec fn url_parse(s: Seq<char>) -> Option<Seq<char>>;

/// `url::Url::domain` of the URL that `s` parses to.
pub uninterp spec fn url_domain(s: Seq<char>) -> Option<Seq<char>>;

/// `url::Url::host_str` of the URL that `s` parses to.
pub uninterp spec fn url_host(s: Seq<char>) -> Option<Seq<char>>;

/// `url::Url::path` of the URL that `s` parses to.
pub uninterp spec fn url_path(s: Seq<char>) -> Seq<char>;

/// Serialization of `reference` resolved with `url::Url::join` against the URL
/// that `base` parses to, or `None` where either step fails.
pub uninterp spec fn url_join(base: Seq<char>, reference: Seq<char>) -> Option<Seq<char>>;

/// An absolute URL: its serialization and the parts the crawler reads.
#[derive(Clone, Debug)]
pub struct WebUrl {
    pub text: String,
    pub domain: Option<String>,
    pub host: Option<String>,
    pub path: String,
}

/// What a `WebUrl` holds, as sequences of characters.
pub ghost struct UrlView {
    pub text: Seq<char>,
    pub domain: Option<Seq<char>>,
    pub host: Option<Seq<char>>,
    pub path: Seq<char>,
}

impl View for WebUrl {
    type V = UrlView;

    open spec fn view(&self) -> UrlView {
        UrlView {
            text: self.text@,
            domain: self.domain.deep_view(),
            host: self.host.deep_view(),
            path: self.path@,
        }
    }
}

/// The URL that `s` parses to, as the parts that `WebUrl` holds.
pub open spec fn parsed(s: Seq<char>) -> Option<UrlView> {
    match url_parse(s) {
        None => None,
        Some(t) => Some(UrlView { text: t, domain: url_domain(s), host: url_host(s), path: url_path(s) }),
    }
}

/// A reference resolved against `base`, with query and then fragment cut off, each
/// cut re-read as a URL.
pub open spec fn normalized(base: Seq<char>, reference: Seq<char>) -> Option<UrlView> {
    match url_join(base, reference) {
        None => None,
        Some(j) => match url_parse(prefix_before(j, '?')) {
            None => None,
            Some(q) => parsed(prefix_before(q, '#')),
        },
    }
}

/// Cutting off the query and then the fragment of a URL text.
pub open spec fn strip_query_fragment(s: Seq<char>) -> Seq<char> {
    prefix_before(prefix_before(s, '?'), '#')
}

/// Relies on `url::Url::parse` and the accessors `as_str`, `domain`, `host_str` and
/// `path` of the URL it returns.
#[verifier::external_body]
fn parse_url(s: &str) -> (r: Option<WebUrl>)
    ensures
        r is None <==> url_parse(s@) is None,
        r matches Some(u) ==> url_parse(s@) == Some(u.text@),
        r matches Some(u) ==> u.domain.deep_view() == url_domain(s@),
        r matches Some(u) ==> u.host.deep_view() == url_host(s@),
        r matches Some(u) ==> u.path@ == url_path(s@),
{
    url::Url::parse(s).ok().map(|u| WebUrl {
        text: u.as_str().to_string(),
        domain: u.domain().map(|d| d.to_string()),
        host: u.host_str().map(|h| h.to_string()),
        path: u.path().to_string(),
    })
}

/// Relies on `url::Url::join`, on the URL that `url::Url::parse` reads from `base`.
#[verifier::external_body]
fn join_url(base: &str, reference: &str) -> (r: Option<String>)
    ensures
        r.deep_view() == url_join(base@, reference@),
{
    url::Url::parse(base).and_then(|b| b.join(reference)).ok().map(|u| u.as_str().to_string())
}

#[derive(Clone, Copy, Debug, PartialEq, Eq)]
pub enum NormalizeError {
    /// The reference could not be read as a URL, even relative to the base.
    MalformedReference,
}

impl WebUrl {
    /// Reads an absolute URL.
    pub fn parse(s: &str) -> (r: Option<WebUrl>)
        ensures
            match r {
                None => parsed(s@) is None,
                Some(u) => parsed(s@) == Some(u@),
            },
    {
        parse_url(s)
    }

    /// A copy with the same parts.
    pub fn duplicate(&self) -> (r: WebUrl)
        ensures
            r@ == self@,
    {
        let domain = match &self.domain {
            Some(d) => Some(d.clone()),
            None => None,
        };
        let host = match &self.host {
            Some(h) => Some(h.clone()),
            None => None,
        };
        WebUrl { text: self.text.clone(), domain, host, path: self.path.clone() }
    }

    pub fn as_str(&self) -> (r: &str)
        ensures
            r@ == self.text@,
    {
        self.text.as_str()
    }
}

/// Resolves `reference` against `base` and drops its query and fragment.
pub fn normalize(base: &WebUrl, reference: &str) -> (r: Result<WebUrl, NormalizeError>)
    ensures
        match r {
            Ok(u) => normalized(base.text@, reference@) == Some(u@),
            Err(e) => normalized(base.text@, reference@) is None
                && e == NormalizeError::MalformedReference,
        },
{
    let joined = match join_url(base.text.as_str(), reference) {
        Some(j) => j,
        None => return Err(NormalizeError::MalformedReference),
    };
    let no_query = before_char(joined.as_str(), '?');
    let without_query = match parse_url(no_query.as_str()) {
        Some(u) => u,
        None => return Err(NormalizeError::MalformedReference),
    };
    let no_fragment = before_char(without_query.text.as_str(), '#');
    match parse_url(no_fragment.as_str()) {
        Some(u) => Ok(u),
        None => Err(NormalizeError::MalformedReference),
    }
}

/// Cutting off query and fragment is idempotent: a text once stripped holds
/// neither `?` nor `#`, and stripping it again leaves it as it is.
pub proof fn lemma_strip_idempotent(s: Seq<char>)
    ensures
        !strip_query_fragment(s).contains('?'),
        !strip_query_fragment(s).contains('#'),
        strip_query_fragment(strip_query_fragment(s)) == strip_query_fragment(s),
{
    let q = prefix_before(s, '?');
    let t = prefix_before(q, '#');
    lemma_prefix_before_idempotent(s, '?');
    lemma_prefix_before_idempotent(q, '#');
    crate::text::lemma_cut_at_facts(q, '#');
    assert(!t.contains('?')) by {
        if t.contains('?') {
            let j = choose|j: int| 0 <= j < t.len() && t[j] == '?';
            assert(q[j] == '?');
        }
    }
    crate::text::lemma_cut_at_unique(t, '?', t.len());
    assert(t.take(t.len() as int) =~= t);
    assert(prefix_before(t, '?') == t);
}

} // verus!
