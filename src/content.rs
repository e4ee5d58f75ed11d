//! Telling an HTML response from any other by its `content-type` header.
use vstd::prelude::*;
use crate::text::{cut_at, lemma_cut_at_unique, prefix_before};

verus! {

/// Why a response's kind could not be told.
#[derive(Clone, Copy, Debug, PartialEq, Eq)]
pub enum ContentTypeError {
    /// The response has no `content-type` header.
    Missing,
    /// The header's value is not visible ASCII text.
    Unreadable,
}

/// Whether every byte is visible ASCII or a tab: the bytes that a header value
/// may hold to be read as text.
pub open spec fn visible_ascii(b: Seq<u8>) -> bool {
    forall|i: int| 0 <= i < b.len() ==> (32 <= #[trigger] b[i] < 127 || b[i] == 9)
}

/// The bytes of `text/html`.
pub open spec fn html_media_type() -> Seq<u8> {
    seq![116u8, 101u8, 120u8, 116u8, 47u8, 104u8, 116u8, 109u8, 108u8]
}

/// The media type of a header value: what stands before its first `;`.
pub open spec fn media_type(b: Seq<u8>) -> Seq<u8> {
    prefix_before(b, 59u8)
}

/// The kind of a response with `content-type` value `value` (`None` where the
/// header is absent): HTML exactly when the media type is `text/html`.
pub open spec fn html_kind(value: Option<Seq<u8>>) -> Result<bool, ContentTypeError> {
    match value {
        None => Err(ContentTypeError::Missing),
        Some(b) => if visible_ascii(b) {
            Ok(media_type(b) == html_media_type())
        } else {
            Err(ContentTypeError::Unreadable)
        },
    }
}

/// Whether a response is HTML, from the value of its `content-type` header.
pub fn is_html(content_type: Option<&[u8]>) -> (r: Result<bool, ContentTypeError>)
    ensures
        r == html_kind(
            match content_type {
                None => None,
                Some(b) => Some(b@),
            },
        ),
{
    match content_type {
        None => Err(ContentTypeError::Missing),
        Some(b) => value_kind(b),
    }
}

/// The kind of a response whose `content-type` header holds `b`.
fn value_kind(b: &[u8]) -> (r: Result<bool, ContentTypeError>)
    ensures
        r == html_kind(Some(b@)),
{
    let n = b.len();
    let mut i: usize = 0;
    while i < n
        invariant
            n == b@.len(),
            i <= n,
            forall|j: int| 0 <= j < i ==> (32 <= #[trigger] b@[j] < 127 || b@[j] == 9),
        decreases n - i,
    {
        let c = b[i];
        if !((32 <= c && c < 127) || c == 9) {
            assert(!(32 <= b@[i as int] < 127 || b@[i as int] == 9));
            return Err(ContentTypeError::Unreadable);
        }
        i = i + 1;
    }
    let mut k: usize = 0;
    while k < n && b[k] != 59u8
        invariant
            n == b@.len(),
            k <= n,
            visible_ascii(b@),
            forall|j: int| 0 <= j < k ==> b@[j] != 59u8,
        decreases n - k,
    {
        k = k + 1;
    }
    proof {
        lemma_cut_at_unique(b@, 59u8, k as nat);
    }
    let want: Vec<u8> = vec![116u8, 101u8, 120u8, 116u8, 47u8, 104u8, 116u8, 109u8, 108u8];
    assert(want@ =~= html_media_type());
    assert(media_type(b@).len() == k);
    if k != want.len() {
        return Ok(false);
    }
    let mut j: usize = 0;
    while j < k
        invariant
            n == b@.len(),
            k <= n,
            k == want@.len(),
            want@ == html_media_type(),
            visible_ascii(b@),
            cut_at(b@, 59u8) == k,
            j <= k,
            forall|q: int| 0 <= q < j ==> b@[q] == want@[q],
        decreases k - j,
    {
        if b[j] != want[j] {
            assert(media_type(b@) == b@.take(k as int));
            assert(media_type(b@)[j as int] == b@[j as int]);
            assert(media_type(b@)[j as int] != html_media_type()[j as int]);
            return Ok(false);
        }
        j = j + 1;
    }
    assert(media_type(b@) =~= html_media_type());
    Ok(true)
}

} // verus!
