//! Pulling the link references out of an HTML document.
use vstd::prelude::*;
use vstd::string::StringSliceAdditionalSpecFns;

verus! {

/// One node of a parsed document, as the lookups of `href` and `src` on it: `None`
/// for a node that is not a tag; for a tag, each lookup is `None` when the attribute
/// is absent and `Some(None)` when it is present without a value.
pub uninterp spec fn tl_nodes(doc: Seq<char>) -> Seq<Option<(Option<Option<Seq<char>>>, Option<Option<Seq<char>>>)>>;

/// The `href` and `src` attributes of a tag.
#[derive(Clone, Debug)]
pub struct TagAttrs {
    pub href: Option<Option<String>>,
    pub src: Option<Option<String>>,
}

/// Why a document yields no links.
#[derive(Clone, Copy, Debug, PartialEq, Eq)]
pub enum HtmlParseError {
    /// The document is longer than the parser can index.
    TooLong,
}

/// A node's attribute lookups, as sequences of characters.
pub open spec fn node_view(n: Option<TagAttrs>) -> Option<(Option<Option<Seq<char>>>, Option<Option<Seq<char>>>)> {
    match n {
        None => None,
        Some(t) => Some((t.href.deep_view(), t.src.deep_view())),
    }
}

/// The reference a node carries: the value of its `href` if it has one, else of its
/// `src`; none for a node that is not a tag, or whose attribute has no value.
pub open spec fn link_of(n: Option<(Option<Option<Seq<char>>>, Option<Option<Seq<char>>>)>) -> Option<Seq<char>> {
    match n {
        None => None,
        Some((href, src)) => match href {
            Some(v) => v,
            None => match src {
                Some(v) => v,
                None => None,
            },
        },
    }
}

/// The references the nodes carry, in document order.
pub open spec fn links_of(nodes: Seq<Option<(Option<Option<Seq<char>>>, Option<Option<Seq<char>>>)>>) -> Seq<Seq<char>>
    decreases nodes.len(),
{
    if nodes.len() == 0 {
        Seq::empty()
    } else {
        let rest = links_of(nodes.drop_last());
        match link_of(nodes.last()) {
            Some(l) => rest.push(l),
            None => rest,
        }
    }
}

/// Relies on `tl::parse`, which fails only on input longer than `u32::MAX` bytes,
/// and on reading each of its nodes with `as_tag`, `attributes().get` and
/// `as_utf8_str`.
#[verifier::external_body]
fn parse_nodes(doc: &str) -> (r: Option<Vec<Option<TagAttrs>>>)
    ensures
        r is None <==> doc.spec_bytes().len() > u32::MAX,
        r matches Some(v) ==> v@.map_values(|n: Option<TagAttrs>| node_view(n)) == tl_nodes(doc@),
{
    let dom = tl::parse(doc, tl::ParserOptions::default()).ok()?;
    let text = |v: Option<&tl::Bytes>| v.map(|b| b.as_utf8_str().to_string());
    Some(dom.nodes().iter().map(|n| n.as_tag().map(|t| TagAttrs {
        href: t.attributes().get("href").map(text),
        src: t.attributes().get("src").map(text),
    })).collect())
}

/// The references carried by `nodes`, in order.
pub fn links_from_nodes(nodes: &Vec<Option<TagAttrs>>) -> (r: Vec<String>)
    ensures
        r.deep_view() == links_of(nodes@.map_values(|n: Option<TagAttrs>| node_view(n))),
{
    let ghost views = nodes@.map_values(|n: Option<TagAttrs>| node_view(n));
    let mut found: Vec<String> = Vec::new();
    let mut i: usize = 0;
    while i < nodes.len()
        invariant
            i <= nodes@.len(),
            views == nodes@.map_values(|n: Option<TagAttrs>| node_view(n)),
            found.deep_view() == links_of(views.take(i as int)),
        decreases nodes@.len() - i,
    {
        assert(views.take(i + 1).drop_last() =~= views.take(i as int));
        assert(views.take(i + 1).last() == node_view(nodes@[i as int]));
        let ghost before = found.deep_view();
        let value: Option<&String> = match &nodes[i] {
            None => None,
            Some(t) => match &t.href {
                Some(v) => v.as_ref(),
                None => match &t.src {
                    Some(v) => v.as_ref(),
                    None => None,
                },
            },
        };
        match value {
            Some(v) => {
                found.push(v.clone());
                assert(found.deep_view() =~= before.push(v@));
            },
            None => {},
        }
        i = i + 1;
    }
    assert(views.take(nodes@.len() as int) =~= views);
    found
}

/// The references of every tag of an HTML document that has `href` or `src`, in
/// document order, unchecked.
pub fn get_urls_from_document(doc: &str) -> (r: Result<Vec<String>, HtmlParseError>)
    ensures
        r is Err <==> doc.spec_bytes().len() > u32::MAX,
        r matches Ok(v) ==> v.deep_view() == links_of(tl_nodes(doc@)),
{
    match parse_nodes(doc) {
        None => Err(HtmlParseError::TooLong),
        Some(nodes) => Ok(links_from_nodes(&nodes)),
    }
}

} // verus!
