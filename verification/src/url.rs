//! Canonicalization of URLs and extraction of their domains.
//!
//! A canonical URL has its `http://` or `https://` scheme stripped, a leading
//! `www.` stripped, and everything from the first `?` on dropped. A domain is
//! the segment before the first `/` of the scheme-stripped URL, again with a
//! leading `www.` stripped.

use vstd::prelude::*;
use vstd::string::*;

verus! {

/// True when `p` is a prefix of `s`.
pub open spec fn has_prefix(s: Seq<char>, p: Seq<char>) -> bool {
    p.len() <= s.len() && s.subrange(0, p.len() as int) == p
}

/// The URL with a leading `http://` or `https://` scheme removed.
pub open spec fn strip_scheme(s: Seq<char>) -> Seq<char> {
    if has_prefix(s, "http://"@) {
        s.skip("http://"@.len() as int)
    } else if has_prefix(s, "https://"@) {
        s.skip("https://"@.len() as int)
    } else {
        s
    }
}

/// The string with a leading `www.` removed.
pub open spec fn strip_www(s: Seq<char>) -> Seq<char> {
    if has_prefix(s, "www."@) {
        s.skip("www."@.len() as int)
    } else {
        s
    }
}

/// The prefix of `s` that precedes the first occurrence of `c`; all of `s`
/// when `c` does not occur.
pub open spec fn take_until(s: Seq<char>, c: char) -> Seq<char> {
    match s.index_of_first(c) {
        Some(i) => s.take(i),
        None => s,
    }
}

/// Canonical form of a URL: scheme stripped, then a leading `www.` stripped,
/// then the query string (from the first `?` on) dropped.
pub open spec fn normalize_spec(s: Seq<char>) -> Seq<char> {
    take_until(strip_www(strip_scheme(s)), '?')
}

/// The domain of a URL: scheme stripped, then the segment before the first
/// `/`, then a leading `www.` stripped.
pub open spec fn domain_spec(s: Seq<char>) -> Seq<char> {
    strip_www(take_until(strip_scheme(s), '/'))
}

/// Whether the characters of `p` form a prefix of `s`.
pub fn str_has_prefix(s: &str, p: &str) -> (b: bool)
    ensures
        b == has_prefix(s@, p@),
{
    let sn = s.unicode_len();
    let pn = p.unicode_len();
    if pn > sn {
        return false;
    }
    let mut i: usize = 0;
    while i < pn
        invariant
            i <= pn,
            pn == p@.len(),
            sn == s@.len(),
            pn <= sn,
            forall|j: int| 0 <= j < i ==> s@[j] == p@[j],
        decreases pn - i,
    {
        let sc = s.get_char(i);
        let pc = p.get_char(i);
        if sc != pc {
            proof {
                assert(s@.subrange(0, p@.len() as int)[i as int] == s@[i as int]);
            }
            return false;
        }
        i += 1;
    }
    proof {
        assert(s@.subrange(0, p@.len() as int) =~= p@);
    }
    true
}

/// Whether two string slices hold the same characters.
pub fn str_eq(a: &str, b: &str) -> (r: bool)
    ensures
        r == (a@ == b@),
{
    let an = a.unicode_len();
    let bn = b.unicode_len();
    if an != bn {
        proof {
            assert(a@ != b@) by {
                if a@ == b@ {
                    assert(a@.len() == b@.len());
                }
            }
        }
        return false;
    }
    let mut i: usize = 0;
    while i < an
        invariant
            i <= an,
            an == a@.len(),
            an == b@.len(),
            forall|j: int| 0 <= j < i ==> a@[j] == b@[j],
        decreases an - i,
    {
        let ac = a.get_char(i);
        let bc = b.get_char(i);
        if ac != bc {
            return false;
        }
        i += 1;
    }
    proof {
        assert(a@ =~= b@);
    }
    true
}

/// Index of the first occurrence of `c` in `s`, if any.
pub fn find_first(s: &str, c: char) -> (r: Option<usize>)
    ensures
        match r {
            Some(i) => s@.index_of_first(c) == Some(i as int),
            None => s@.index_of_first(c) is None,
        },
{
    let n = s.unicode_len();
    let mut i: usize = 0;
    while i < n
        invariant
            i <= n,
            n == s@.len(),
            forall|j: int| 0 <= j < i ==> s@[j] != c,
        decreases n - i,
    {
        let sc = s.get_char(i);
        if sc == c {
            proof {
                s@.index_of_first_ensures(c);
                assert(s@.contains(c)) by {
                    assert(s@[i as int] == c);
                }
            }
            return Some(i);
        }
        i += 1;
    }
    proof {
        s@.index_of_first_ensures(c);
        if s@.index_of_first(c) is Some {
            let j = s@.index_of_first(c)->Some_0;
            assert(s@[j] == c);
            assert(false);
        }
    }
    None
}

/// Removes a leading `http://` or `https://` from `s`.
fn strip_scheme_exec(s: &str) -> (r: &str)
    ensures
        r@ == strip_scheme(s@),
{
    proof {
        reveal_strlit("http://");
        reveal_strlit("https://");
    }
    let n = s.unicode_len();
    if str_has_prefix(s, "http://") {
        let r = s.substring_char(7, n);
        proof {
            assert(r@ =~= strip_scheme(s@));
        }
        r
    } else if str_has_prefix(s, "https://") {
        let r = s.substring_char(8, n);
        proof {
            assert(r@ =~= strip_scheme(s@));
        }
        r
    } else {
        s
    }
}

/// Removes a leading `www.` from `s`.
fn strip_www_exec(s: &str) -> (r: &str)
    ensures
        r@ == strip_www(s@),
{
    proof {
        reveal_strlit("www.");
    }
    let n = s.unicode_len();
    if str_has_prefix(s, "www.") {
        let r = s.substring_char(4, n);
        proof {
            assert(r@ =~= strip_www(s@));
        }
        r
    } else {
        s
    }
}

/// The prefix of `s` before the first occurrence of `c`.
fn take_until_exec(s: &str, c: char) -> (r: &str)
    ensures
        r@ == take_until(s@, c),
{
    let n = s.unicode_len();
    match find_first(s, c) {
        Some(i) => {
            proof {
                s@.index_of_first_ensures(c);
            }
            let r = s.substring_char(0, i);
            proof {
                assert(r@ =~= take_until(s@, c));
            }
            r
        },
        None => s,
    }
}

/// Canonicalizes a URL: strips the scheme, a leading `www.`, and the query
/// string.
pub fn normalize_url(s: &str) -> (r: String)
    ensures
        r@ == normalize_spec(s@),
{
    let a = strip_scheme_exec(s);
    let b = strip_www_exec(a);
    let c = take_until_exec(b, '?');
    String::from_str(c)
}

/// Extracts the domain of a URL: the segment before the first `/` of the
/// scheme-stripped URL, with a leading `www.` removed.
pub fn url_to_domain(url: &str) -> (r: String)
    ensures
        r@ == domain_spec(url@),
{
    let a = strip_scheme_exec(url);
    let b = take_until_exec(a, '/');
    let c = strip_www_exec(b);
    String::from_str(c)
}

/// Law: taking the domain of a domain changes nothing, provided the domain
/// does not itself begin with `www.` (stripping one `www.` can uncover
/// another, so a URL such as `www.www.a.com` is left out).
pub proof fn lemma_domain_idempotent(u: Seq<char>)
    requires
        !has_prefix(domain_spec(u), "www."@),
    ensures
        domain_spec(domain_spec(u)) == domain_spec(u),
{
    reveal_strlit("http://");
    reveal_strlit("https://");
    reveal_strlit("www.");
    let t = take_until(strip_scheme(u), '/');
    let d = domain_spec(u);
    strip_scheme(u).index_of_first_ensures('/');
    assert(forall|k: int| 0 <= k < t.len() ==> t[k] != '/');
    assert(forall|k: int| 0 <= k < d.len() ==> d[k] != '/');
    if has_prefix(d, "http://"@) {
        assert(d.subrange(0, "http://"@.len() as int)[5] == d[5]);
        assert(false);
    }
    if has_prefix(d, "https://"@) {
        assert(d.subrange(0, "https://"@.len() as int)[6] == d[6]);
        assert(false);
    }
    assert(strip_scheme(d) == d);
    d.index_of_first_ensures('/');
    if d.index_of_first('/') is Some {
        let j = d.index_of_first('/')->Some_0;
        assert(d[j] == '/');
        assert(false);
    }
    assert(take_until(d, '/') == d);
    assert(domain_spec(d) == d);
}

} // verus!
