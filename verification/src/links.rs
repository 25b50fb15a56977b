//! The link extractor: from a page's body to the addresses it refers to.
use vstd::prelude::*;
use crate::address::{
    canonical, is_canonical, is_web, join_url, lemma_strip_fragment, lemma_strip_keeps_web,
    starts_web, strip_fragment, url_joined,
};
use crate::path_map::views;
use crate::text::{
    bytes_eq, contains, contains_seq, find_byte, first_index_from,
    lemma_first_index_from, lower_seq, matches_at, occurs_at, option_view, to_lower, APOSTROPHE,
    QUOTE,
};

verus! {

/// The bytes of `href=`.
pub open spec fn href_attr() -> Seq<u8> {
    seq![104u8, 114, 101, 102, 61]
}

/// The bytes of `src=`.
pub open spec fn src_attr() -> Seq<u8> {
    seq![115u8, 114, 99, 61]
}

/// The bytes of `html`.
pub open spec fn html_token() -> Seq<u8> {
    seq![104u8, 116, 109, 108]
}

/// A content type indicates a page when `html` occurs in it, in either
/// case.
pub open spec fn is_html(content_type: Seq<u8>) -> bool {
    contains_seq(lower_seq(content_type), html_token())
}

/// The bytes of `<html`.
pub open spec fn html_open() -> Seq<u8> {
    seq![60u8, 104, 116, 109, 108]
}

/// A body is scanned as a page when its content type indicates one, or
/// when it has no content type and `<html` occurs in it, in either case.
pub open spec fn is_page(content_type: Seq<u8>, body: Seq<u8>) -> bool {
    is_html(content_type) || (content_type.len() == 0 && contains_seq(
        lower_seq(body),
        html_open(),
    ))
}

/// The length of the attribute name that starts at `i`, with its `=`; 0
/// where none starts there.
pub open spec fn attr_len_at(body: Seq<u8>, i: int) -> int {
    if occurs_at(body, href_attr(), i) {
        5
    } else if occurs_at(body, src_attr(), i) {
        4
    } else {
        0
    }
}

/// The reference that an attribute at `i` holds: what stands between the
/// quote after the `=` and the next quote of the same kind.
pub open spec fn reference_at(body: Seq<u8>, i: int) -> Option<Seq<u8>> {
    let open = i + attr_len_at(body, i);
    if attr_len_at(body, i) == 0 || open >= body.len() {
        None
    } else if body[open] != QUOTE && body[open] != APOSTROPHE {
        None
    } else {
        let close = first_index_from(body, open + 1, body[open]);
        if close >= body.len() {
            None
        } else {
            Some(body.subrange(open + 1, close))
        }
    }
}

/// The references of the attributes that start before position `n`, in the
/// order of their positions.
pub open spec fn references_upto(body: Seq<u8>, n: int) -> Seq<Seq<u8>>
    decreases n,
{
    if n <= 0 {
        Seq::<Seq<u8>>::empty()
    } else {
        match reference_at(body, n - 1) {
            Some(v) => references_upto(body, n - 1).push(v),
            None => references_upto(body, n - 1),
        }
    }
}

/// All references of a body.
pub open spec fn references(body: Seq<u8>) -> Seq<Seq<u8>> {
    references_upto(body, body.len() as int)
}

/// What becomes of a resolved reference: a web address is kept, without
/// its fragment; anything else is no link.
pub open spec fn accepted(joined: Option<Seq<u8>>) -> Option<Seq<u8>> {
    match joined {
        Some(u) => if is_web(u) {
            Some(strip_fragment(u))
        } else {
            None
        },
        None => None,
    }
}

/// `u` behind `acc`, unless `acc` holds it already.
pub open spec fn add_unique(acc: Seq<Seq<u8>>, u: Seq<u8>) -> Seq<Seq<u8>> {
    if acc.contains(u) {
        acc
    } else {
        acc.push(u)
    }
}

/// The links that a list of references gives against a base address: each
/// accepted one once, in the order of first occurrence.
pub open spec fn resolved(base: Seq<u8>, refs: Seq<Seq<u8>>) -> Seq<Seq<u8>>
    decreases refs.len(),
{
    if refs.len() == 0 {
        Seq::<Seq<u8>>::empty()
    } else {
        let before = resolved(base, refs.drop_last());
        match accepted(url_joined(base, refs.last())) {
            Some(u) => add_unique(before, u),
            None => before,
        }
    }
}

/// The links of a body: none unless it is scanned as a page.
pub open spec fn links(base: Seq<u8>, content_type: Seq<u8>, body: Seq<u8>) -> Seq<Seq<u8>> {
    if is_page(content_type, body) {
        resolved(base, references(body))
    } else {
        Seq::<Seq<u8>>::empty()
    }
}

/// No address occurs twice in the list.
pub open spec fn distinct(list: Seq<Seq<u8>>) -> bool {
    forall|i: int, j: int| 0 <= i < j < list.len() ==> list[i] != list[j]
}

/// The links of a page are web addresses without a fragment, and none
/// occurs twice.
pub proof fn lemma_resolved(base: Seq<u8>, refs: Seq<Seq<u8>>)
    ensures
        distinct(resolved(base, refs)),
        forall|k: int|
            0 <= k < resolved(base, refs).len() ==> is_canonical(#[trigger] resolved(base, refs)[k])
                && is_web(resolved(base, refs)[k]),
    decreases refs.len(),
{
    if refs.len() > 0 {
        lemma_resolved(base, refs.drop_last());
        match url_joined(base, refs.last()) {
            Some(u) => {
                lemma_strip_fragment(u);
                if is_web(u) {
                    lemma_strip_keeps_web(u);
                }
            },
            None => {},
        }
    }
}

/// Whether a content type indicates a page.
pub fn content_is_html(content_type: &[u8]) -> (r: bool)
    ensures
        r == is_html(content_type@),
{
    let low = to_lower(content_type);
    let token: Vec<u8> = vec![104u8, 116, 109, 108];
    proof {
        assert(token@ =~= html_token());
    }
    contains(low.as_slice(), token.as_slice())
}

/// Whether a body is scanned as a page.
pub fn looks_like_page(content_type: &[u8], body: &[u8]) -> (r: bool)
    ensures
        r == is_page(content_type@, body@),
{
    if content_is_html(content_type) {
        return true;
    }
    if content_type.len() != 0 {
        return false;
    }
    let low = to_lower(body);
    let token: Vec<u8> = vec![60u8, 104, 116, 109, 108];
    proof {
        assert(token@ =~= html_open());
    }
    contains(low.as_slice(), token.as_slice())
}

/// The reference of the attribute that starts at `i`, if one does.
pub fn read_reference(body: &[u8], i: usize) -> (r: Option<Vec<u8>>)
    ensures
        r.is_some() == reference_at(body@, i as int).is_some(),
        r matches Some(v) ==> reference_at(body@, i as int) == Some(v@),
{
    let href: Vec<u8> = vec![104u8, 114, 101, 102, 61];
    let src: Vec<u8> = vec![115u8, 114, 99, 61];
    proof {
        assert(href@ =~= href_attr());
        assert(src@ =~= src_attr());
    }
    let k: usize = if matches_at(body, href.as_slice(), i) {
        5
    } else if matches_at(body, src.as_slice(), i) {
        4
    } else {
        0
    };
    if k == 0 || body.len() - i <= k {
        return None;
    }
    let open: usize = i + k;
    let q: u8 = body[open];
    if q != QUOTE && q != APOSTROPHE {
        return None;
    }
    let close = find_byte(body, open + 1, q);
    proof {
        lemma_first_index_from(body@, open + 1, q);
    }
    if close >= body.len() {
        return None;
    }
    let mut out: Vec<u8> = Vec::new();
    let mut j: usize = open + 1;
    while j < close
        invariant
            open + 1 <= j <= close < body.len(),
            out@ == body@.subrange(open + 1, j as int),
        decreases close - j,
    {
        out.push(body[j]);
        proof {
            assert(out@ =~= body@.subrange(open + 1, j + 1));
        }
        j += 1;
    }
    Some(out)
}

/// All references of a body, in the order of their positions.
pub fn find_references(body: &[u8]) -> (r: Vec<Vec<u8>>)
    ensures
        views(r@) == references(body@),
{
    let mut out: Vec<Vec<u8>> = Vec::new();
    let mut i: usize = 0;
    proof {
        assert(views(out@) =~= references_upto(body@, 0));
    }
    while i < body.len()
        invariant
            i <= body.len(),
            views(out@) == references_upto(body@, i as int),
        decreases body.len() - i,
    {
        let ghost old_out = views(out@);
        match read_reference(body, i) {
            Some(v) => {
                out.push(v);
                proof {
                    assert(views(out@) =~= old_out.push(v@));
                }
            },
            None => {},
        }
        i += 1;
    }
    out
}

/// Whether a list holds an address.
pub fn holds(list: &Vec<Vec<u8>>, u: &[u8]) -> (r: bool)
    ensures
        r == views(list@).contains(u@),
{
    let mut i: usize = 0;
    while i < list.len()
        invariant
            i <= list.len(),
            forall|j: int| 0 <= j < i ==> views(list@)[j] != u@,
        decreases list.len() - i,
    {
        if bytes_eq(list[i].as_slice(), u) {
            proof {
                assert(views(list@)[i as int] == u@);
            }
            return true;
        }
        i += 1;
    }
    false
}

/// Decides what becomes of a resolved reference: a web address is kept,
/// cut at its fragment; anything else is dropped.
pub fn accept_link(joined: Option<Vec<u8>>) -> (r: Option<Vec<u8>>)
    ensures
        r.is_some() == accepted(option_view(joined)).is_some(),
        r matches Some(u) ==> accepted(option_view(joined)) == Some(u@),
{
    match joined {
        Some(u) => {
            if starts_web(u.as_slice()) {
                Some(canonical(u.as_slice()))
            } else {
                None
            }
        },
        None => None,
    }
}

/// Resolves each reference against the base address and collects the
/// accepted ones, each once.
pub fn resolve_all(base: &[u8], refs: &Vec<Vec<u8>>) -> (r: Vec<Vec<u8>>)
    ensures
        views(r@) == resolved(base@, views(refs@)),
{
    let mut out: Vec<Vec<u8>> = Vec::new();
    let mut i: usize = 0;
    proof {
        assert(views(refs@).subrange(0, 0) =~= Seq::<Seq<u8>>::empty());
        assert(views(out@) =~= resolved(base@, views(refs@).subrange(0, 0)));
    }
    while i < refs.len()
        invariant
            i <= refs.len(),
            views(out@) == resolved(base@, views(refs@).subrange(0, i as int)),
        decreases refs.len() - i,
    {
        let ghost old_out = views(out@);
        proof {
            let prefix = views(refs@).subrange(0, i + 1);
            assert(prefix.drop_last() =~= views(refs@).subrange(0, i as int));
            assert(prefix.last() == refs@[i as int]@);
        }
        let joined = join_url(base, refs[i].as_slice());
        match accept_link(joined) {
            Some(u) => {
                if !holds(&out, u.as_slice()) {
                    out.push(u);
                    proof {
                        assert(views(out@) =~= old_out.push(u@));
                    }
                }
            },
            None => {},
        }
        i += 1;
    }
    proof {
        assert(views(refs@).subrange(0, refs@.len() as int) =~= views(refs@));
    }
    out
}

/// The addresses that a body refers to. A body that is not scanned as a
/// page has none. Each reference is resolved against the base
/// address; those that give a web address are kept, without fragment and
/// without repeats.
pub fn extract_links(base: &[u8], content_type: &[u8], body: &[u8]) -> (r: Vec<Vec<u8>>)
    ensures
        views(r@) == links(base@, content_type@, body@),
{
    if !looks_like_page(content_type, body) {
        let out: Vec<Vec<u8>> = Vec::new();
        proof {
            assert(views(out@) =~= Seq::<Seq<u8>>::empty());
        }
        return out;
    }
    let refs = find_references(body);
    resolve_all(base, &refs)
}

} // verus!
