//! Addresses: the default scheme, parsing, joining, and the canonical form
//! under which two addresses count as the same resource.
use vstd::prelude::*;
use crate::text::{
    contains, contains_seq, find_byte, first_index_from, lemma_first_index_from, matches_at,
    occurs_at, HASH,
};

verus! {

/// The bytes of `http://`.
pub open spec fn http_prefix() -> Seq<u8> {
    seq![104u8, 116, 116, 112, 58, 47, 47]
}

/// The bytes of `https://`.
pub open spec fn https_prefix() -> Seq<u8> {
    seq![104u8, 116, 116, 112, 115, 58, 47, 47]
}

/// An address names its scheme when either prefix occurs in it.
pub open spec fn has_scheme(url: Seq<u8>) -> bool {
    contains_seq(url, http_prefix()) || contains_seq(url, https_prefix())
}

/// The address itself where it names a scheme, else `https://` before it.
pub open spec fn with_scheme(url: Seq<u8>) -> Seq<u8> {
    if has_scheme(url) {
        url
    } else {
        https_prefix() + url
    }
}

/// An address is a web address when it starts with one of the two prefixes.
pub open spec fn is_web(url: Seq<u8>) -> bool {
    occurs_at(url, http_prefix(), 0) || occurs_at(url, https_prefix(), 0)
}

/// The address up to its first `#`.
pub open spec fn strip_fragment(url: Seq<u8>) -> Seq<u8> {
    url.subrange(0, first_index_from(url, 0, HASH))
}

/// An address is canonical when it holds no `#`.
pub open spec fn is_canonical(url: Seq<u8>) -> bool {
    forall|i: int| 0 <= i < url.len() ==> url[i] != HASH
}

/// The prefix `http://`.
pub fn http_bytes() -> (r: Vec<u8>)
    ensures
        r@ == http_prefix(),
{
    let r: Vec<u8> = vec![104u8, 116, 116, 112, 58, 47, 47];
    proof {
        assert(r@ =~= http_prefix());
    }
    r
}

/// The prefix `https://`.
pub fn https_bytes() -> (r: Vec<u8>)
    ensures
        r@ == https_prefix(),
{
    let r: Vec<u8> = vec![104u8, 116, 116, 112, 115, 58, 47, 47];
    proof {
        assert(r@ =~= https_prefix());
    }
    r
}

/// Puts `https://` before an address that names no scheme.
pub fn https_check(url: Vec<u8>) -> (r: Vec<u8>)
    ensures
        r@ == with_scheme(url@),
{
    let http = http_bytes();
    let https = https_bytes();
    if !contains(url.as_slice(), http.as_slice()) && !contains(url.as_slice(), https.as_slice()) {
        let mut out = https;
        let mut i: usize = 0;
        while i < url.len()
            invariant
                i <= url.len(),
                out@ == https_prefix() + url@.subrange(0, i as int),
            decreases url.len() - i,
        {
            out.push(url[i]);
            proof {
                assert(out@ =~= https_prefix() + url@.subrange(0, i + 1));
            }
            i += 1;
        }
        proof {
            assert(url@.subrange(0, url@.len() as int) =~= url@);
        }
        return out;
    }
    url
}

/// Whether an address starts with `http://` or `https://`.
pub fn starts_web(url: &[u8]) -> (r: bool)
    ensures
        r == is_web(url@),
{
    let http = http_bytes();
    let https = https_bytes();
    matches_at(url, http.as_slice(), 0) || matches_at(url, https.as_slice(), 0)
}

/// Cuts an address at its first `#`.
pub fn canonical(url: &[u8]) -> (r: Vec<u8>)
    ensures
        r@ == strip_fragment(url@),
        is_canonical(r@),
{
    let end = find_byte(url, 0, HASH);
    proof {
        lemma_first_index_from(url@, 0, HASH);
    }
    let mut out: Vec<u8> = Vec::new();
    let mut i: usize = 0;
    while i < end
        invariant
            i <= end <= url.len(),
            out@ == url@.subrange(0, i as int),
        decreases end - i,
    {
        out.push(url[i]);
        proof {
            assert(out@ =~= url@.subrange(0, i + 1));
        }
        i += 1;
    }
    out
}

/// Cutting at the first `#` leaves no `#`, and leaves an address without
/// one as it is.
pub proof fn lemma_strip_fragment(url: Seq<u8>)
    ensures
        is_canonical(strip_fragment(url)),
        is_canonical(url) ==> strip_fragment(url) == url,
        strip_fragment(strip_fragment(url)) == strip_fragment(url),
{
    lemma_first_index_from(url, 0, HASH);
    let s = strip_fragment(url);
    lemma_first_index_from(s, 0, HASH);
    assert(s.subrange(0, s.len() as int) =~= s);
    if is_canonical(url) {
        assert(url.subrange(0, url.len() as int) =~= url);
    }
}

/// Cutting the fragment off a web address leaves a web address.
pub proof fn lemma_strip_keeps_web(url: Seq<u8>)
    requires
        is_web(url),
    ensures
        is_web(strip_fragment(url)),
{
    lemma_first_index_from(url, 0, HASH);
    let cut = first_index_from(url, 0, HASH);
    let s = strip_fragment(url);
    if occurs_at(url, http_prefix(), 0) {
        let n = http_prefix().len() as int;
        if cut < n {
            assert(url.subrange(0, n)[cut] == url[cut]);
            assert(http_prefix()[cut] != HASH);
        }
        assert(s.subrange(0, n) =~= url.subrange(0, n));
    } else {
        let n = https_prefix().len() as int;
        if cut < n {
            assert(url.subrange(0, n)[cut] == url[cut]);
            assert(https_prefix()[cut] != HASH);
        }
        assert(s.subrange(0, n) =~= url.subrange(0, n));
    }
}

/// An address taken apart: its full text as the parser writes it, its
/// host where it has one, and its path.
pub struct ParsedUrl {
    pub text: Vec<u8>,
    pub host: Option<Vec<u8>>,
    pub path: Vec<u8>,
}

/// The host of an address, empty where it has none.
pub open spec fn host_or_empty(host: Option<Seq<u8>>) -> Seq<u8> {
    match host {
        Some(h) => h,
        None => Seq::<u8>::empty(),
    }
}

/// The plain values of a parsed address.
pub open spec fn parts_view(p: ParsedUrl) -> (Seq<u8>, Option<Seq<u8>>, Seq<u8>) {
    (
        p.text@,
        match p.host {
            Some(h) => Some(h@),
            None => None,
        },
        p.path@,
    )
}

/// What parsing an address gives: its text, host and path, or nothing where
/// it is no address.
pub uninterp spec fn url_parsed(input: Seq<u8>) -> Option<(Seq<u8>, Option<Seq<u8>>, Seq<u8>)>;

/// What resolving a reference against a base address gives, or nothing where
/// either cannot be read.
pub uninterp spec fn url_joined(base: Seq<u8>, reference: Seq<u8>) -> Option<Seq<u8>>;

/// Calls `url::Url::parse` and reads the result's `as_str`, `host_str` and
/// `path`. The contract only gives the outcome its name: nothing is
/// claimed of which inputs parse or of what the parts hold.
#[verifier::external_body]
pub(crate) fn parse_url(input: &[u8]) -> (r: Option<ParsedUrl>)
    ensures
        r.is_some() == url_parsed(input@).is_some(),
        r matches Some(p) ==> url_parsed(input@) == Some(parts_view(p)),
{
    let s = std::str::from_utf8(input).ok()?;
    let u = url::Url::parse(s).ok()?;
    Some(ParsedUrl {
        text: u.as_str().as_bytes().to_vec(),
        host: u.host_str().map(|h| h.as_bytes().to_vec()),
        path: u.path().as_bytes().to_vec(),
    })
}

/// Calls `url::Url::parse` on the base and `url::Url::join` on what it
/// gives, and reads the result's `as_str`. The contract only gives the
/// outcome its name: nothing is claimed of which references resolve.
#[verifier::external_body]
pub(crate) fn join_url(base: &[u8], reference: &[u8]) -> (r: Option<Vec<u8>>)
    ensures
        r.is_some() == url_joined(base@, reference@).is_some(),
        r matches Some(u) ==> url_joined(base@, reference@) == Some(u@),
{
    let b = std::str::from_utf8(base).ok()?;
    let t = std::str::from_utf8(reference).ok()?;
    let u = url::Url::parse(b).ok()?.join(t).ok()?;
    Some(u.as_str().as_bytes().to_vec())
}

} // verus!
