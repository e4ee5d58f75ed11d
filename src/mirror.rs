//! Where a fetched page is saved: a path mirroring its host and URL path.
use vstd::prelude::*;
use vstd::string::StringExecFns;
use crate::urls::WebUrl;

verus! {

/// `s` without its first character when that is `c`.
pub open spec fn drop_leading(s: Seq<char>, c: char) -> Seq<char> {
    if s.len() > 0 && s[0] == c {
        s.drop_first()
    } else {
        s
    }
}

/// `s` without its last character when that is `c`.
pub open spec fn drop_trailing(s: Seq<char>, c: char) -> Seq<char> {
    if s.len() > 0 && s.last() == c {
        s.drop_last()
    } else {
        s
    }
}

/// Whether `s` ends with `p`.
pub open spec fn has_suffix(s: Seq<char>, p: Seq<char>) -> bool {
    p.len() <= s.len() && s.skip(s.len() - p.len()) == p
}

/// The part of `s` before its last `c`, or nothing when `c` does not occur.
pub open spec fn before_last(s: Seq<char>, c: char) -> Seq<char>
    decreases s.len(),
{
    if s.len() == 0 {
        s
    } else if s.last() == c {
        s.drop_last()
    } else {
        before_last(s.drop_last(), c)
    }
}

/// A URL path with one leading `/` removed, then one trailing `/`, then one trailing `\\`.
pub open spec fn relative_path(path: Seq<char>) -> Seq<char> {
    drop_trailing(drop_trailing(drop_leading(path, '/'), '/'), '\\')
}

/// The file a page is saved to, relative to the working directory: `<host>/<path>`,
/// or `<host>` alone for an empty path; an HTML page whose path does not end in
/// `.html` is saved as `index.html` below that.
pub open spec fn mirror_file(host: Seq<char>, path: Seq<char>, is_html: bool) -> Seq<char> {
    let rel = relative_path(path);
    let base = if rel.len() == 0 {
        host
    } else {
        host + seq!['/'] + rel
    };
    if is_html && !has_suffix(rel, seq!['.', 'h', 't', 'm', 'l']) {
        base + seq!['/', 'i', 'n', 'd', 'e', 'x', '.', 'h', 't', 'm', 'l']
    } else {
        base
    }
}

/// Where a page is saved: the directory to create and the file to write, both
/// relative to the working directory.
#[derive(Clone, Debug)]
pub struct MirrorPath {
    pub dir: String,
    pub file: String,
}

/// Why a page cannot be saved.
#[derive(Clone, Copy, Debug, PartialEq, Eq)]
pub enum PersistError {
    /// The URL has no host to name the top directory.
    NoHost,
}

/// `s` without its first character when that is `c`.
fn trim_leading(s: &str, c: char) -> (r: String)
    ensures
        r@ == drop_leading(s@, c),
{
    let n = s.unicode_len();
    if n > 0 && s.get_char(0) == c {
        s.substring_char(1, n).to_owned()
    } else {
        s.to_owned()
    }
}

/// `s` without its last character when that is `c`.
fn trim_trailing(s: &str, c: char) -> (r: String)
    ensures
        r@ == drop_trailing(s@, c),
{
    let n = s.unicode_len();
    if n > 0 && s.get_char(n - 1) == c {
        s.substring_char(0, n - 1).to_owned()
    } else {
        s.to_owned()
    }
}

/// Whether `s` ends with `p`.
pub fn ends_with(s: &str, p: &str) -> (r: bool)
    ensures
        r == has_suffix(s@, p@),
{
    let n = s.unicode_len();
    let m = p.unicode_len();
    if m > n {
        return false;
    }
    let mut i: usize = 0;
    while i < m
        invariant
            n == s@.len(),
            m == p@.len(),
            m <= n,
            i <= m,
            forall|j: int| 0 <= j < i ==> s@[n - m + j] == p@[j],
        decreases m - i,
    {
        if s.get_char(n - m + i) != p.get_char(i) {
            assert(s@.skip(n - m)[i as int] != p@[i as int]);
            return false;
        }
        i = i + 1;
    }
    assert(s@.skip(n - m) =~= p@);
    true
}

/// The part of `s` before its last `c`, or nothing when `c` does not occur.
pub fn up_to_last(s: &str, c: char) -> (r: String)
    ensures
        r@ == before_last(s@, c),
{
    let n = s.unicode_len();
    let mut k: usize = n;
    assert(s@.take(n as int) =~= s@);
    while k > 0 && s.get_char(k - 1) != c
        invariant
            n == s@.len(),
            k <= n,
            before_last(s@.take(k as int), c) == before_last(s@, c),
        decreases k,
    {
        assert(s@.take(k as int).drop_last() =~= s@.take(k - 1));
        k = k - 1;
    }
    if k == 0 {
        assert(s@.take(0) =~= Seq::<char>::empty());
        String::new()
    } else {
        assert(s@.take(k as int).drop_last() =~= s@.take(k - 1));
        s.substring_char(0, k - 1).to_owned()
    }
}

/// The directory and file a page fetched from `url` is saved to.
pub fn mirror_path(url: &WebUrl, is_html: bool) -> (r: Result<MirrorPath, PersistError>)
    ensures
        r is Err <==> url@.host is None,
        r matches Err(e) ==> e == PersistError::NoHost,
        r matches Ok(m) ==> m.file@ == mirror_file(url@.host->0, url@.path, is_html)
            && m.dir@ == before_last(m.file@, '/'),
{
    let host = match &url.host {
        Some(h) => h,
        None => return Err(PersistError::NoHost),
    };
    let a = trim_leading(url.path.as_str(), '/');
    let b = trim_trailing(a.as_str(), '/');
    let rel = trim_trailing(b.as_str(), '\\');
    proof {
        reveal_strlit("/");
        reveal_strlit(".html");
        reveal_strlit("/index.html");
    }
    let ghost rel_v = relative_path(url@.path);
    assert(rel@ == rel_v);
    let mut file = host.clone();
    if rel.as_str().unicode_len() > 0 {
        file.append("/");
        file.append(rel.as_str());
        assert(file@ =~= host@ + seq!['/'] + rel_v);
    }
    if is_html && !ends_with(rel.as_str(), ".html") {
        let ghost base = file@;
        file.append("/index.html");
        assert(file@ =~= base + seq!['/', 'i', 'n', 'd', 'e', 'x', '.', 'h', 't', 'm', 'l']);
    }
    assert(".html"@ =~= seq!['.', 'h', 't', 'm', 'l']);
    assert(file@ == mirror_file(host@, url@.path, is_html));
    let dir = up_to_last(file.as_str(), '/');
    Ok(MirrorPath { dir, file })
}

} // verus!
