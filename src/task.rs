//! The decisions of one crawl task, between the fetch that the caller makes and
//! the child tasks that the caller starts.
use vstd::prelude::*;
use vstd::string::StringSliceAdditionalSpecFns;
use crate::content::{html_kind, is_html, ContentTypeError};
use crate::frontier::{accept_all, views, CrawlConfig, Frontier};
use crate::links::{get_urls_from_document, links_of, tl_nodes};
use crate::mirror::{mirror_file, before_last, mirror_path, MirrorPath};
use crate::urls::WebUrl;

verus! {

/// What to do with a fetched page.
#[derive(Clone, Debug)]
pub struct PagePlan {
    /// Whether the page is HTML.
    pub is_html: bool,
    /// Where to save the body, when it is saved.
    pub save: Option<MirrorPath>,
    /// Whether to read links from the body.
    pub extract: bool,
}

/// The plan for a page fetched from `url` whose `content-type` header holds
/// `content_type`: a page whose kind cannot be told is abandoned with that error;
/// otherwise the body is saved when downloading is on and the URL has a host, and
/// links are read exactly from HTML.
pub fn plan_page(url: &WebUrl, config: &CrawlConfig, content_type: Option<&[u8]>) -> (r: Result<PagePlan, ContentTypeError>)
    ensures
        ({
            let kind = html_kind(
                match content_type {
                    None => None,
                    Some(b) => Some(b@),
                },
            );
            match r {
                Err(e) => kind == Err::<bool, ContentTypeError>(e),
                Ok(p) => {
                    &&& kind == Ok::<bool, ContentTypeError>(p.is_html)
                    &&& p.extract == p.is_html
                    &&& (p.save is Some <==> config.download && url@.host is Some)
                    &&& (p.save matches Some(m) ==> m.file@ == mirror_file(url@.host->0, url@.path, p.is_html)
                        && m.dir@ == before_last(m.file@, '/'))
                },
            }
        }),
{
    let html = match is_html(content_type) {
        Ok(h) => h,
        Err(e) => return Err(e),
    };
    let save = if config.download {
        match mirror_path(url, html) {
            Ok(m) => Some(m),
            Err(_) => None,
        }
    } else {
        None
    };
    Ok(PagePlan { is_html: html, save, extract: html })
}

/// Reads the links of the HTML body `doc` of `page` and records them: returns the
/// children to crawl. A body that cannot be parsed yields none and records nothing.
pub fn follow_links(frontier: &mut Frontier, page: &WebUrl, config: &CrawlConfig, doc: &str) -> (r: Vec<WebUrl>)
    requires
        old(frontier).wf(),
    ensures
        final(frontier).wf(),
        doc.spec_bytes().len() > u32::MAX ==> final(frontier)@ == old(frontier)@ && r@.len() == 0,
        doc.spec_bytes().len() <= u32::MAX ==> (final(frontier)@, views(r@)) == accept_all(
            old(frontier)@,
            page@,
            links_of(tl_nodes(doc@)),
            *config,
        ),
{
    match get_urls_from_document(doc) {
        Err(_) => Vec::new(),
        Ok(links) => frontier.accept_links(page, &links, config),
    }
}

} // verus!
