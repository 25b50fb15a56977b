//! The path mapper: from an address to the local path that mirrors it.
use vstd::prelude::*;
use crate::address::{host_or_empty, parse_url, url_parsed};
use crate::text::{copy_bytes, DOT, SLASH, UNDERSCORE};

verus! {

/// The views of a list of byte strings.
pub open spec fn views(v: Seq<Vec<u8>>) -> Seq<Seq<u8>> {
    Seq::new(v.len(), |i: int| v[i]@)
}

/// A path cut at every `/`: one piece more than it has slashes.
pub open spec fn pieces(path: Seq<u8>) -> Seq<Seq<u8>>
    decreases path.len(),
{
    if path.len() == 0 {
        seq![Seq::<u8>::empty()]
    } else {
        let before = pieces(path.drop_last());
        if path.last() == SLASH {
            before.push(Seq::<u8>::empty())
        } else {
            before.drop_last().push(before.last().push(path.last()))
        }
    }
}

/// A piece is kept as a directory or file name unless it is empty, `.` or
/// `..`.
pub open spec fn keeps(seg: Seq<u8>) -> bool {
    seg.len() > 0 && seg != seq![DOT] && seg != seq![DOT, DOT]
}

/// The pieces that are kept, in order.
pub open spec fn kept(ps: Seq<Seq<u8>>) -> Seq<Seq<u8>>
    decreases ps.len(),
{
    if ps.len() == 0 {
        Seq::<Seq<u8>>::empty()
    } else if keeps(ps.last()) {
        kept(ps.drop_last()).push(ps.last())
    } else {
        kept(ps.drop_last())
    }
}

/// The bytes of `index.html`.
pub open spec fn index_name() -> Seq<u8> {
    seq![105u8, 110, 100, 101, 120, 46, 104, 116, 109, 108]
}

/// The bytes of `.html`.
pub open spec fn html_suffix() -> Seq<u8> {
    seq![46u8, 104, 116, 109, 108]
}

/// The file name that stands for a host's root: the host, with `_` for
/// each `/`, and `.html` behind it.
pub open spec fn host_name(host: Seq<u8>) -> Seq<u8> {
    Seq::new(host.len(), |i: int| if host[i] == SLASH { UNDERSCORE } else { host[i] })
        + html_suffix()
}

/// The local path of a host and a path component, as its segments from the
/// output root down. The kept pieces of the path are the segments; a path
/// that ends in `/` gets `index.html` below them; a path without any kept
/// piece is the host's root file.
pub open spec fn mapped(host: Seq<u8>, path: Seq<u8>) -> Seq<Seq<u8>> {
    let dirs = kept(pieces(path));
    if dirs.len() == 0 {
        seq![host_name(host)]
    } else if path.len() > 0 && path.last() == SLASH {
        dirs.push(index_name())
    } else {
        dirs
    }
}

/// A segment that names a child of the directory it is joined to: kept,
/// and without a `/`.
pub open spec fn safe_segment(seg: Seq<u8>) -> bool {
    keeps(seg) && forall|j: int| 0 <= j < seg.len() ==> seg[j] != SLASH
}

/// A local path, relative to the output root.
pub struct MappedPath {
    pub segments: Vec<Vec<u8>>,
}

impl MappedPath {
    /// The segments from the output root down.
    pub open spec fn view(&self) -> Seq<Seq<u8>> {
        views(self.segments@)
    }

    /// There is at least one segment, and each is safe.
    pub open spec fn wf(&self) -> bool {
        self@.len() > 0 && forall|k: int| 0 <= k < self@.len() ==> safe_segment(#[trigger] self@[k])
    }

    /// The last segment: the file's own name.
    pub fn file_name(&self) -> (r: Vec<u8>)
        requires
            self.wf(),
        ensures
            r@ == self@.last(),
    {
        copy_bytes(self.segments[self.segments.len() - 1].as_slice())
    }
}

/// No piece of a path holds a `/`.
pub proof fn lemma_pieces(path: Seq<u8>)
    ensures
        pieces(path).len() > 0,
        forall|k: int, j: int|
            0 <= k < pieces(path).len() && 0 <= j < pieces(path)[k].len() ==> pieces(path)[k][j]
                != SLASH,
    decreases path.len(),
{
    if path.len() > 0 {
        lemma_pieces(path.drop_last());
    }
}

/// Of pieces without a `/`, the kept ones are safe segments.
pub proof fn lemma_kept_safe(ps: Seq<Seq<u8>>)
    requires
        forall|k: int, j: int| 0 <= k < ps.len() && 0 <= j < ps[k].len() ==> ps[k][j] != SLASH,
    ensures
        forall|k: int| 0 <= k < kept(ps).len() ==> safe_segment(#[trigger] kept(ps)[k]),
    decreases ps.len(),
{
    if ps.len() > 0 {
        lemma_kept_safe(ps.drop_last());
        let last = ps[ps.len() - 1];
        assert(last == ps.last());
        assert forall|k: int| 0 <= k < kept(ps).len() implies safe_segment(#[trigger] kept(ps)[k]) by {
            if keeps(last) && k == kept(ps.drop_last()).len() {
                assert(kept(ps)[k] == last);
                assert forall|j: int| 0 <= j < last.len() implies last[j] != SLASH by {
                    assert(ps[ps.len() - 1][j] != SLASH);
                }
            } else {
                assert(kept(ps)[k] == kept(ps.drop_last())[k]);
            }
        }
    }
}

/// The mapped path never leaves the output root: it has a segment, and
/// every segment is safe, so none is `..` and none holds a `/`.
pub proof fn lemma_mapped_safe(host: Seq<u8>, path: Seq<u8>)
    ensures
        mapped(host, path).len() > 0,
        forall|k: int| 0 <= k < mapped(host, path).len() ==> safe_segment(#[trigger] mapped(host, path)[k]),
{
    lemma_pieces(path);
    lemma_kept_safe(pieces(path));
    let h = host_name(host);
    assert(h[h.len() - 1] == 108u8);
    assert(h.len() >= 5);
    assert(safe_segment(h)) by {
        assert forall|j: int| 0 <= j < h.len() implies h[j] != SLASH by {
            if j >= host.len() {
                assert(h[j] == html_suffix()[j - host.len()]);
            }
        }
    }
    assert(index_name()[0] == 105u8);
    assert(safe_segment(index_name()));
}

/// A path of the usual layout: it starts with `/`, and every piece behind
/// that is kept, so it names a file and holds no empty, `.` or `..` piece.
pub open spec fn plain(path: Seq<u8>) -> bool {
    &&& pieces(path).len() >= 2
    &&& pieces(path)[0].len() == 0
    &&& forall|k: int| 1 <= k < pieces(path).len() ==> keeps(#[trigger] pieces(path)[k])
}

/// The last piece of a path that does not end in `/` ends in the path's
/// last byte, and the pieces of the path without that byte are the same
/// but for it.
pub proof fn lemma_pieces_last(path: Seq<u8>)
    requires
        path.len() > 0,
    ensures
        pieces(path).len() > 0,
        path.last() == SLASH ==> pieces(path).last().len() == 0 && pieces(path).len() >= 2
            && pieces(path.drop_last()) == pieces(path).drop_last(),
        path.last() != SLASH ==> pieces(path).last().len() > 0 && pieces(path).last().last()
            == path.last() && pieces(path.drop_last()) == pieces(path).drop_last().push(
            pieces(path).last().drop_last(),
        ),
{
    lemma_pieces(path.drop_last());
    let before = pieces(path.drop_last());
    if path.last() == SLASH {
        assert(before.push(Seq::<u8>::empty()).drop_last() =~= before);
    } else {
        let grown = before.last().push(path.last());
        assert(grown.drop_last() =~= before.last());
        assert(before.drop_last().push(grown).drop_last() =~= before.drop_last());
        assert(before.drop_last().push(before.last()) =~= before);
    }
}

/// Two paths with the same pieces are the same path.
pub proof fn lemma_pieces_injective(a: Seq<u8>, b: Seq<u8>)
    requires
        pieces(a) == pieces(b),
    ensures
        a == b,
    decreases a.len(),
{
    if a.len() == 0 {
        if b.len() > 0 {
            lemma_pieces_last(b);
        }
        assert(a =~= b);
    } else {
        lemma_pieces_last(a);
        if b.len() == 0 {
            assert(false);
        } else {
            lemma_pieces_last(b);
            lemma_pieces_injective(a.drop_last(), b.drop_last());
            assert(a =~= a.drop_last().push(a.last()));
            assert(b =~= b.drop_last().push(b.last()));
        }
    }
}

/// Of pieces that are all kept but the first, which is empty, the kept
/// ones are all but the first.
pub proof fn lemma_kept_rest(ps: Seq<Seq<u8>>)
    requires
        ps.len() >= 1,
        ps[0].len() == 0,
        forall|k: int| 1 <= k < ps.len() ==> keeps(#[trigger] ps[k]),
    ensures
        kept(ps) == ps.drop_first(),
    decreases ps.len(),
{
    if ps.len() == 1 {
        assert(kept(ps.drop_last()) =~= Seq::<Seq<u8>>::empty());
        assert(kept(ps) =~= ps.drop_first());
    } else {
        let front = ps.drop_last();
        assert forall|k: int| 1 <= k < front.len() implies keeps(#[trigger] front[k]) by {
            assert(front[k] == ps[k]);
        }
        lemma_kept_rest(front);
        assert(keeps(ps[ps.len() - 1]));
        assert(kept(ps) =~= ps.drop_first());
    }
}

/// On paths of the usual layout the mapping is injective: two of them
/// that map to the same local path are the same path.
pub proof fn lemma_mapped_injective(host: Seq<u8>, a: Seq<u8>, b: Seq<u8>)
    requires
        plain(a),
        plain(b),
        mapped(host, a) == mapped(host, b),
    ensures
        a == b,
{
    lemma_kept_rest(pieces(a));
    lemma_kept_rest(pieces(b));
    let pa = pieces(a);
    let pb = pieces(b);
    assert(a.len() > 0 && b.len() > 0) by {
        if a.len() == 0 {
            assert(pieces(a).len() == 1);
        }
        if b.len() == 0 {
            assert(pieces(b).len() == 1);
        }
    }
    lemma_pieces_last(a);
    lemma_pieces_last(b);
    assert(keeps(pa[pa.len() - 1]));
    assert(keeps(pb[pb.len() - 1]));
    assert(mapped(host, a) == pa.drop_first());
    assert(mapped(host, b) == pb.drop_first());
    assert(pa.len() == pb.len()) by {
        assert(pa.drop_first().len() == pb.drop_first().len());
    }
    assert(pa =~= pb) by {
        assert forall|k: int| 0 <= k < pa.len() implies pa[k] == pb[k] by {
            if k == 0 {
                assert(pa[0] =~= pb[0]);
            } else {
                assert(pa.drop_first()[k - 1] == pa[k]);
                assert(pb.drop_first()[k - 1] == pb[k]);
            }
        }
    }
    lemma_pieces_injective(a, b);
}

/// The mapping depends on the host and the path alone: equal inputs give
/// equal paths.
pub proof fn lemma_mapped_deterministic(host_a: Seq<u8>, path_a: Seq<u8>, host_b: Seq<u8>, path_b: Seq<u8>)
    requires
        host_a == host_b,
        path_a == path_b,
    ensures
        mapped(host_a, path_a) == mapped(host_b, path_b),
{
}

/// Cuts a path at every `/`.
pub fn split_path(path: &[u8]) -> (r: Vec<Vec<u8>>)
    ensures
        views(r@) == pieces(path@),
{
    let mut done: Vec<Vec<u8>> = Vec::new();
    let mut cur: Vec<u8> = Vec::new();
    let mut i: usize = 0;
    proof {
        assert(path@.subrange(0, 0) =~= Seq::<u8>::empty());
        assert(views(done@).push(cur@) =~= pieces(path@.subrange(0, 0)));
    }
    while i < path.len()
        invariant
            i <= path.len(),
            views(done@).push(cur@) == pieces(path@.subrange(0, i as int)),
        decreases path.len() - i,
    {
        let b: u8 = path[i];
        let ghost before = pieces(path@.subrange(0, i as int));
        let ghost old_done = views(done@);
        let ghost old_cur = cur@;
        proof {
            let prefix = path@.subrange(0, i + 1);
            assert(prefix.drop_last() =~= path@.subrange(0, i as int));
            assert(prefix.last() == b);
        }
        if b == SLASH {
            done.push(cur);
            cur = Vec::new();
            proof {
                assert(views(done@) =~= old_done.push(old_cur));
                assert(views(done@).push(cur@) =~= before.push(Seq::<u8>::empty()));
            }
        } else {
            cur.push(b);
            proof {
                assert(before.drop_last() =~= old_done);
                assert(before.last() == old_cur);
            }
        }
        i += 1;
    }
    proof {
        assert(path@.subrange(0, path@.len() as int) =~= path@);
        let ghost_done = views(done@);
        assert(views(done@.push(cur)) =~= ghost_done.push(cur@));
    }
    done.push(cur);
    done
}

/// Whether a piece is kept.
pub fn is_kept(seg: &[u8]) -> (r: bool)
    ensures
        r == keeps(seg@),
{
    if seg.len() == 0 {
        return false;
    }
    if seg.len() == 1 && seg[0] == DOT {
        proof {
            assert(seg@ =~= seq![DOT]);
        }
        return false;
    }
    if seg.len() == 2 && seg[0] == DOT && seg[1] == DOT {
        proof {
            assert(seg@ =~= seq![DOT, DOT]);
        }
        return false;
    }
    proof {
        if seg@ == seq![DOT] {
            assert(seq![DOT].len() == 1);
            assert(seq![DOT][0] == DOT);
        }
        if seg@ == seq![DOT, DOT] {
            assert(seq![DOT, DOT].len() == 2);
            assert(seq![DOT, DOT][0] == DOT);
            assert(seq![DOT, DOT][1] == DOT);
        }
    }
    true
}

/// The kept pieces, in order.
pub fn keep_segments(ps: &Vec<Vec<u8>>) -> (r: Vec<Vec<u8>>)
    ensures
        views(r@) == kept(views(ps@)),
{
    let mut out: Vec<Vec<u8>> = Vec::new();
    let mut i: usize = 0;
    proof {
        assert(views(ps@).subrange(0, 0) =~= Seq::<Seq<u8>>::empty());
        assert(views(out@) =~= kept(views(ps@).subrange(0, 0)));
    }
    while i < ps.len()
        invariant
            i <= ps.len(),
            views(out@) == kept(views(ps@).subrange(0, i as int)),
        decreases ps.len() - i,
    {
        let ghost old_out = views(out@);
        proof {
            let prefix = views(ps@).subrange(0, i + 1);
            assert(prefix.drop_last() =~= views(ps@).subrange(0, i as int));
            assert(prefix.last() == ps@[i as int]@);
        }
        if is_kept(ps[i].as_slice()) {
            let seg = copy_bytes(ps[i].as_slice());
            out.push(seg);
            proof {
                assert(views(out@) =~= old_out.push(ps@[i as int]@));
            }
        }
        i += 1;
    }
    proof {
        assert(views(ps@).subrange(0, ps@.len() as int) =~= views(ps@));
    }
    out
}

/// The file name that stands for a host's root.
pub fn host_file(host: &[u8]) -> (r: Vec<u8>)
    ensures
        r@ == host_name(host@),
{
    let mut out: Vec<u8> = Vec::new();
    let mut i: usize = 0;
    while i < host.len()
        invariant
            i <= host.len(),
            out@.len() == i,
            forall|j: int| 0 <= j < i ==> out@[j] == (if host@[j] == SLASH { UNDERSCORE } else { host@[j] }),
        decreases host.len() - i,
    {
        let b: u8 = host[i];
        if b == SLASH {
            out.push(UNDERSCORE);
        } else {
            out.push(b);
        }
        i += 1;
    }
    out.push(46u8);
    out.push(104u8);
    out.push(116u8);
    out.push(109u8);
    out.push(108u8);
    proof {
        assert(out@ =~= host_name(host@));
    }
    out
}

/// Maps a host and a path component to the local path that mirrors them.
pub fn map_path(host: &[u8], path: &[u8]) -> (r: MappedPath)
    ensures
        r@ == mapped(host@, path@),
        r.wf(),
{
    let all = split_path(path);
    let mut dirs = keep_segments(&all);
    proof {
        lemma_mapped_safe(host@, path@);
    }
    if dirs.len() == 0 {
        let name = host_file(host);
        dirs.push(name);
        proof {
            assert(views(dirs@) =~= seq![host_name(host@)]);
        }
    } else if path.len() > 0 && path[path.len() - 1] == SLASH {
        let ghost old_dirs = views(dirs@);
        let name: Vec<u8> = vec![105u8, 110, 100, 101, 120, 46, 104, 116, 109, 108];
        proof {
            assert(name@ =~= index_name());
        }
        dirs.push(name);
        proof {
            assert(views(dirs@) =~= old_dirs.push(index_name()));
        }
    }
    MappedPath { segments: dirs }
}

/// Maps an address to its local path, where the address can be read.
pub fn map_url(url: &[u8]) -> (r: Option<MappedPath>)
    ensures
        r.is_some() == url_parsed(url@).is_some(),
        r matches Some(p) ==> p.wf() && p@ == mapped(
            host_or_empty(url_parsed(url@).unwrap().1),
            url_parsed(url@).unwrap().2,
        ),
{
    match parse_url(url) {
        Some(parts) => {
            let host: Vec<u8> = match parts.host {
                Some(h) => h,
                None => Vec::new(),
            };
            Some(map_path(host.as_slice(), parts.path.as_slice()))
        },
        None => None,
    }
}

/// The name under which a single download of an address is stored where
/// the caller names none: the file name of its mapped path.
pub fn default_file_name(url: &[u8]) -> (r: Option<Vec<u8>>)
    ensures
        r.is_some() == url_parsed(url@).is_some(),
        r matches Some(name) ==> name@ == mapped(
            host_or_empty(url_parsed(url@).unwrap().1),
            url_parsed(url@).unwrap().2,
        ).last(),
{
    match map_url(url) {
        Some(path) => Some(path.file_name()),
        None => None,
    }
}

} // verus!
