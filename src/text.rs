//! Character-sequence helpers shared by the crawler's modules.
use vstd::prelude::*;

verus! {

/// Index of the first occurrence of `c` in `s`, or `s.len()` when there is none.
pub open spec fn cut_at<A>(s: Seq<A>, c: A) -> nat
    decreases s.len(),
{
    if s.len() == 0 {
        0
    } else if s[0] == c {
        0
    } else {
        1 + cut_at(s.drop_first(), c)
    }
}

/// The part of `s` before the first `c` (all of `s` when `c` does not occur).
pub open spec fn prefix_before<A>(s: Seq<A>, c: A) -> Seq<A> {
    s.take(cut_at(s, c) as int)
}

/// Whether `s` begins with `p`.
pub open spec fn has_prefix(s: Seq<char>, p: Seq<char>) -> bool {
    p.len() <= s.len() && s.take(p.len() as int) == p
}

/// `k` is the first position of `c` in `s`, or the length of `s` when `c` is absent.
pub proof fn lemma_cut_at_unique<A>(s: Seq<A>, c: A, k: nat)
    requires
        k <= s.len(),
        forall|j: int| 0 <= j < k ==> s[j] != c,
        k == s.len() || s[k as int] == c,
    ensures
        cut_at(s, c) == k,
    decreases s.len(),
{
    if s.len() > 0 && s[0] != c {
        assert(k > 0);
        let t = s.drop_first();
        assert forall|j: int| 0 <= j < k - 1 implies t[j] != c by {
            assert(t[j] == s[j + 1]);
        }
        if k < s.len() {
            assert(t[k - 1] == s[k as int]);
        }
        lemma_cut_at_unique(t, c, (k - 1) as nat);
    }
}

/// What `cut_at` returns: a position no later than the end, with no `c` before it
/// and `c` at it unless it is the end.
pub proof fn lemma_cut_at_facts<A>(s: Seq<A>, c: A)
    ensures
        cut_at(s, c) <= s.len(),
        forall|j: int| 0 <= j < cut_at(s, c) ==> s[j] != c,
        cut_at(s, c) == s.len() || s[cut_at(s, c) as int] == c,
    decreases s.len(),
{
    if s.len() > 0 && s[0] != c {
        let t = s.drop_first();
        lemma_cut_at_facts(t, c);
        assert forall|j: int| 0 <= j < cut_at(s, c) implies s[j] != c by {
            if j > 0 {
                assert(s[j] == t[j - 1]);
            }
        }
    }
}

/// Cutting at `c` leaves no `c`, and cutting again changes nothing.
pub proof fn lemma_prefix_before_idempotent<A>(s: Seq<A>, c: A)
    ensures
        !prefix_before(s, c).contains(c),
        prefix_before(prefix_before(s, c), c) == prefix_before(s, c),
{
    lemma_cut_at_facts(s, c);
    let p = prefix_before(s, c);
    assert forall|j: int| 0 <= j < p.len() implies p[j] != c by {}
    lemma_cut_at_unique(p, c, p.len());
    assert(p.take(p.len() as int) =~= p);
}

/// The characters of `s` before the first `c`.
pub fn before_char(s: &str, c: char) -> (r: String)
    ensures
        r@ == prefix_before(s@, c),
{
    let n = s.unicode_len();
    let mut i: usize = 0;
    while i < n && s.get_char(i) != c
        invariant
            n == s@.len(),
            i <= n,
            forall|j: int| 0 <= j < i ==> s@[j] != c,
        decreases n - i,
    {
        i = i + 1;
    }
    proof {
        lemma_cut_at_unique(s@, c, i as nat);
    }
    s.substring_char(0, i).to_owned()
}

/// Whether `s` begins with `p`.
pub fn starts_with(s: &str, p: &str) -> (r: bool)
    ensures
        r == has_prefix(s@, p@),
{
    let n = s.unicode_len();
    let m = p.unicode_len();
    if m > n {
        return false;
    }
    let mut i: usize = 0;
    while i < m
        invariant
            n == s@.len(),
            m == p@.len(),
            m <= n,
            i <= m,
            forall|j: int| 0 <= j < i ==> s@[j] == p@[j],
        decreases m - i,
    {
        if s.get_char(i) != p.get_char(i) {
            assert(s@.take(m as int)[i as int] != p@[i as int]);
            return false;
        }
        i = i + 1;
    }
    assert(s@.take(m as int) =~= p@);
    true
}

/// `a` comes before `b`: at the first position where they differ `a` holds the
/// smaller character, or `a` is a proper prefix of `b`.
pub open spec fn text_lt(a: Seq<char>, b: Seq<char>) -> bool {
    exists|i: int| #![trigger a.take(i), b.take(i)]
        0 <= i <= a.len() && i <= b.len() && a.take(i) == b.take(i) && (
        (i == a.len() && i < b.len()) || (i < a.len() && i < b.len() && (a[i] as int) < (b[i] as int)))
}

/// Two different texts are ordered one way or the other, and never both ways.
pub proof fn lemma_text_lt_total(a: Seq<char>, b: Seq<char>)
    requires
        a != b,
    ensures
        text_lt(a, b) || text_lt(b, a),
        !(text_lt(a, b) && text_lt(b, a)),
{
    assert(a.take(0) =~= b.take(0));
    lemma_text_lt_from(a, b, 0);
    if text_lt(a, b) && text_lt(b, a) {
        let i = choose|i: int| #![trigger a.take(i), b.take(i)]
            0 <= i <= a.len() && i <= b.len() && a.take(i) == b.take(i) && (
            (i == a.len() && i < b.len()) || (i < a.len() && i < b.len() && (a[i] as int) < (b[i] as int)));
        let j = choose|j: int| #![trigger b.take(j), a.take(j)]
            0 <= j <= b.len() && j <= a.len() && b.take(j) == a.take(j) && (
            (j == b.len() && j < a.len()) || (j < b.len() && j < a.len() && (b[j] as int) < (a[j] as int)));
        if i < j {
            assert(a.take(j)[i] == b.take(j)[i]);
        } else if j < i {
            assert(a.take(i)[j] == b.take(i)[j]);
        }
    }
}

proof fn lemma_text_lt_from(a: Seq<char>, b: Seq<char>, i: int)
    requires
        a != b,
        0 <= i <= a.len(),
        i <= b.len(),
        a.take(i) == b.take(i),
    ensures
        text_lt(a, b) || text_lt(b, a),
    decreases a.len() - i,
{
    if i == a.len() && i == b.len() {
        assert(a =~= a.take(i));
        assert(b =~= b.take(i));
    } else if i == a.len() {
        assert(text_lt(a, b));
    } else if i == b.len() {
        assert(b.take(i) == a.take(i));
        assert(text_lt(b, a));
    } else if a[i] != b[i] {
        if (a[i] as int) < (b[i] as int) {
            assert(text_lt(a, b));
        } else {
            assert(b.take(i) == a.take(i));
            assert(text_lt(b, a));
        }
    } else {
        assert(a.take(i + 1) =~= a.take(i).push(a[i]));
        assert(b.take(i + 1) =~= b.take(i).push(b[i]));
        lemma_text_lt_from(a, b, i + 1);
    }
}

/// Whether `a` comes before `b`.
pub fn text_less(a: &str, b: &str) -> (r: bool)
    ensures
        r == text_lt(a@, b@),
{
    let na = a.unicode_len();
    let nb = b.unicode_len();
    let mut i: usize = 0;
    while i < na && i < nb && a.get_char(i) == b.get_char(i)
        invariant
            na == a@.len(),
            nb == b@.len(),
            i <= na,
            i <= nb,
            a@.take(i as int) == b@.take(i as int),
        decreases na - i,
    {
        assert(a@.take(i + 1) =~= a@.take(i as int).push(a@[i as int]));
        assert(b@.take(i + 1) =~= b@.take(i as int).push(b@[i as int]));
        i = i + 1;
    }
    let r = if i == na {
        i < nb
    } else if i == nb {
        false
    } else {
        (a.get_char(i) as u32) < (b.get_char(i) as u32)
    };
    proof {
        if r {
            assert(a@.take(i as int) == b@.take(i as int));
        } else if text_lt(a@, b@) {
            let k = choose|k: int| #![trigger a@.take(k), b@.take(k)]
                0 <= k <= a@.len() && k <= b@.len() && a@.take(k) == b@.take(k) && (
                (k == a@.len() && k < b@.len()) || (k < a@.len() && k < b@.len() && (a@[k] as int) < (b@[k] as int)));
            if k < i {
                assert(a@.take(i as int)[k] == b@.take(i as int)[k]);
            } else if k > i {
                assert(a@.take(k)[i as int] == b@.take(k)[i as int]);
            }
        }
    }
    r
}

} // verus!
