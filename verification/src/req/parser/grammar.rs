//! Which raw lines can start a request block.

use vstd::prelude::*;

use crate::req::curl::method_str;
use crate::req::model::HttpMethod;
use crate::text::{next_word, range_eq_str, starts_with, starts_with_str, words};

verus! {

/// The method that `m` names, if it names a supported one.
pub open spec fn method_of(m: Seq<char>) -> Option<HttpMethod> {
    if m == "GET"@ {
        Some(HttpMethod::Get)
    } else if m == "POST"@ {
        Some(HttpMethod::Post)
    } else if m == "PUT"@ {
        Some(HttpMethod::Put)
    } else if m == "PATCH"@ {
        Some(HttpMethod::Patch)
    } else if m == "DELETE"@ {
        Some(HttpMethod::Delete)
    } else if m == "HEAD"@ {
        Some(HttpMethod::Head)
    } else if m == "OPTIONS"@ {
        Some(HttpMethod::Options)
    } else {
        None
    }
}

/// `m` is one of the supported HTTP method names.
pub open spec fn is_http_method(m: Seq<char>) -> bool {
    method_of(m) is Some
}

/// `u` looks like an absolute URL, a template or an absolute path.
pub open spec fn looks_like_url(u: Seq<char>) -> bool {
    ||| starts_with(u, "http://"@)
    ||| starts_with(u, "https://"@)
    ||| starts_with(u, "{{"@)
    ||| (u.len() > 0 && u[0] == '/')
}

/// `line` is exactly two words: a supported method and something URL-like.
pub open spec fn looks_like_request_line(line: Seq<char>) -> bool {
    let w = words(line);
    w.len() == 2 && is_http_method(w[0]) && looks_like_url(w[1])
}

/// The method named by `v[lo..hi]`.
pub fn method_at(v: &Vec<char>, lo: usize, hi: usize) -> (m: Option<HttpMethod>)
    requires
        lo <= hi <= v.len(),
    ensures
        m == method_of(v@.subrange(lo as int, hi as int)),
{
    if range_eq_str(v, lo, hi, "GET") {
        Some(HttpMethod::Get)
    } else if range_eq_str(v, lo, hi, "POST") {
        Some(HttpMethod::Post)
    } else if range_eq_str(v, lo, hi, "PUT") {
        Some(HttpMethod::Put)
    } else if range_eq_str(v, lo, hi, "PATCH") {
        Some(HttpMethod::Patch)
    } else if range_eq_str(v, lo, hi, "DELETE") {
        Some(HttpMethod::Delete)
    } else if range_eq_str(v, lo, hi, "HEAD") {
        Some(HttpMethod::Head)
    } else if range_eq_str(v, lo, hi, "OPTIONS") {
        Some(HttpMethod::Options)
    } else {
        None
    }
}

/// Whether `v[lo..hi]` looks like a URL.
pub fn url_like_at(v: &Vec<char>, lo: usize, hi: usize) -> (b: bool)
    requires
        lo <= hi <= v.len(),
    ensures
        b == looks_like_url(v@.subrange(lo as int, hi as int)),
{
    starts_with_str(v, lo, hi, "http://") || starts_with_str(v, lo, hi, "https://")
        || starts_with_str(v, lo, hi, "{{") || (lo < hi && v[lo] == '/')
}

/// Returns true when the raw line `v[lo..hi]` can start a request block.
pub fn request_line_at(v: &Vec<char>, lo: usize, hi: usize) -> (b: bool)
    requires
        lo <= hi <= v.len(),
    ensures
        b == looks_like_request_line(v@.subrange(lo as int, hi as int)),
{
    let Some((a0, b0)) = next_word(v, lo, hi) else {
        return false;
    };
    let Some((a1, b1)) = next_word(v, b0, hi) else {
        return false;
    };
    if next_word(v, b1, hi).is_some() {
        return false;
    }
    method_at(v, a0, b0).is_some() && url_like_at(v, a1, b1)
}

/// A word names a method exactly when it is one of the seven method names,
/// and then the method is the one printed with that name.
pub proof fn lemma_method_of_names(w: Seq<char>)
    ensures
        match method_of(w) {
            Some(m) => method_str(m) == w,
            None => w != "GET"@ && w != "POST"@ && w != "PUT"@ && w != "PATCH"@ && w != "DELETE"@
                && w != "HEAD"@ && w != "OPTIONS"@,
        },
{
}

/// Every method is found again from its printed name.
pub proof fn lemma_method_of_method_str(m: HttpMethod)
    ensures
        method_of(method_str(m)) == Some(m),
{
    reveal_strlit("GET");
    reveal_strlit("POST");
    reveal_strlit("PUT");
    reveal_strlit("PATCH");
    reveal_strlit("DELETE");
    reveal_strlit("HEAD");
    reveal_strlit("OPTIONS");
    let (g, po, pu, pa, d, h) = ("GET"@, "POST"@, "PUT"@, "PATCH"@, "DELETE"@, "HEAD"@);
    assert(po != g) by { assert(po.len() != g.len()); }
    assert(pu != g) by { assert(pu[0] != g[0]); }
    assert(pu != po) by { assert(pu.len() != po.len()); }
    assert(pa != g && pa != po && pa != pu) by { assert(pa.len() == 5); }
    assert(d != g && d != po && d != pu && d != pa) by { assert(d.len() == 6 && d[0] != pa[0]); }
    assert(h != g && h != po && h != pu && h != pa && h != d) by {
        assert(h.len() == 4 && h[0] != po[0] && h[0] != g[0]);
    }
    match m {
        HttpMethod::Get => assert(method_str(m) == g),
        HttpMethod::Post => assert(method_str(m) == po),
        HttpMethod::Put => assert(method_str(m) == pu),
        HttpMethod::Patch => assert(method_str(m) == pa),
        HttpMethod::Delete => assert(method_str(m) == d),
        HttpMethod::Head => assert(method_str(m) == h),
        HttpMethod::Options => {
            let o = "OPTIONS"@;
            assert(o.len() == 7);
            assert(method_str(m) == o);
        },
    }
}

/// A request line is exactly two words: a method's name, then a URL that
/// starts with `http://`, `https://`, `{{` or `/`.
pub proof fn lemma_request_line_shape(line: Seq<char>)
    ensures
        looks_like_request_line(line) <==> {
            let w = words(line);
            &&& w.len() == 2
            &&& method_of(w[0]) is Some
            &&& {
                ||| starts_with(w[1], seq!['h', 't', 't', 'p', ':', '/', '/'])
                ||| starts_with(w[1], seq!['h', 't', 't', 'p', 's', ':', '/', '/'])
                ||| starts_with(w[1], seq!['{', '{'])
                ||| (w[1].len() > 0 && w[1][0] == '/')
            }
        },
{
    reveal_strlit("http://");
    reveal_strlit("https://");
    reveal_strlit("{{");
    assert("http://"@ =~= seq!['h', 't', 't', 'p', ':', '/', '/']);
    assert("https://"@ =~= seq!['h', 't', 't', 'p', 's', ':', '/', '/']);
    assert("{{"@ =~= seq!['{', '{']);
}

} // verus!
