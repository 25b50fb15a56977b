//! The frontier controller: which address is fetched next, and what a
//! fetched page adds to the frontier. The caller does the fetching and the
//! writing, and reports each outcome back.
use vstd::prelude::*;
use crate::address::{canonical, is_canonical, lemma_strip_fragment, parse_url, strip_fragment, url_parsed};
use crate::headers::{content_type, HeaderSet};
use crate::links::{add_unique, distinct, extract_links, holds, links};
use crate::path_map::views;
use crate::text::copy_bytes;

verus! {

/// One address to fetch: its position in the order of discovery, and the
/// number of links that lead to it from the seed.
pub struct CrawlTask {
    pub id: usize,
    pub url: Vec<u8>,
    pub depth: usize,
}

/// What a fetch gave: the response's headers and body, or the reason why
/// there is none.
pub enum FetchResult {
    Success { headers: HeaderSet, body: Vec<u8> },
    Failure { reason: Vec<u8> },
}

/// The counts that a crawl reports at its end.
pub struct CrawlSummary {
    pub written: usize,
    pub failed: usize,
    pub bytes: u64,
}

/// Why a crawl could not start.
#[derive(Debug, PartialEq, Eq)]
pub enum CrawlError {
    /// The seed is no address.
    BadSeed,
}

/// The state of a crawl. `urls` is the visited set in the order of
/// discovery, `depths` the depth of each, and `done` whether its outcome
/// is recorded. The first `next` of them have been handed out, and
/// `completed` of those are done; the others are in flight. `level` is
/// the depth that is being fetched. `seed_failed` tells that the fetch of
/// the seed itself was recorded as failed: the one failure that the caller
/// reports as the crawl's own.
pub struct Crawler {
    pub urls: Vec<Vec<u8>>,
    pub depths: Vec<usize>,
    pub done: Vec<bool>,
    pub next: usize,
    pub completed: usize,
    pub level: usize,
    pub max_depth: usize,
    pub summary: CrawlSummary,
    pub seed_failed: bool,
}

/// The summary after one more outcome: a page that was fetched and stored
/// counts as written, with its bytes (the total stops at the largest
/// number); any other outcome counts as failed.
pub open spec fn tally(s: CrawlSummary, result: FetchResult, stored: bool) -> CrawlSummary {
    match result {
        FetchResult::Success { headers, body } => if stored {
            CrawlSummary {
                written: (s.written + 1) as usize,
                failed: s.failed,
                bytes: if s.bytes + body@.len() > u64::MAX {
                    u64::MAX
                } else {
                    (s.bytes + body@.len()) as u64
                },
            }
        } else {
            CrawlSummary { written: s.written, failed: (s.failed + 1) as usize, bytes: s.bytes }
        },
        FetchResult::Failure { reason } => CrawlSummary {
            written: s.written,
            failed: (s.failed + 1) as usize,
            bytes: s.bytes,
        },
    }
}

/// The number of recorded outcomes among the first `n` tasks.
pub open spec fn count_done(done: Seq<bool>, n: int) -> int
    decreases n,
{
    if n <= 0 {
        0
    } else {
        count_done(done, n - 1) + if done[n - 1] {
            1int
        } else {
            0int
        }
    }
}

/// The count lies between 0 and `n`, and reaches `n` only where every
/// outcome is recorded.
pub proof fn lemma_count_bounds(done: Seq<bool>, n: int)
    requires
        0 <= n <= done.len(),
    ensures
        0 <= count_done(done, n) <= n,
        forall|i: int| 0 <= i < n && !done[i] ==> count_done(done, n) < n,
    decreases n,
{
    if n > 0 {
        lemma_count_bounds(done, n - 1);
    }
}

/// The count over the first `n` tasks depends on those alone.
pub proof fn lemma_count_prefix(a: Seq<bool>, b: Seq<bool>, n: int)
    requires
        0 <= n <= a.len(),
        n <= b.len(),
        forall|i: int| 0 <= i < n ==> a[i] == b[i],
    ensures
        count_done(a, n) == count_done(b, n),
    decreases n,
{
    if n > 0 {
        lemma_count_prefix(a, b, n - 1);
    }
}

/// Recording one outcome that was open raises the count by one.
pub proof fn lemma_count_update(done: Seq<bool>, n: int, id: int)
    requires
        0 <= id < n <= done.len(),
        !done[id],
    ensures
        count_done(done.update(id, true), n) == count_done(done, n) + 1,
    decreases n,
{
    if n - 1 == id {
        lemma_count_prefix(done.update(id, true), done, n - 1);
    } else {
        lemma_count_update(done, n - 1, id);
    }
}

/// The visited set after a list of found addresses: each is cut at its
/// fragment and joins the set unless the set holds it.
pub open spec fn enqueue(visited: Seq<Seq<u8>>, found: Seq<Seq<u8>>) -> Seq<Seq<u8>>
    decreases found.len(),
{
    if found.len() == 0 {
        visited
    } else {
        add_unique(enqueue(visited, found.drop_last()), strip_fragment(found.last()))
    }
}

/// Enqueueing only appends: what was visited stays, in place.
pub proof fn lemma_enqueue_extends(visited: Seq<Seq<u8>>, found: Seq<Seq<u8>>)
    ensures
        enqueue(visited, found).len() >= visited.len(),
        enqueue(visited, found).subrange(0, visited.len() as int) == visited,
    decreases found.len(),
{
    if found.len() > 0 {
        lemma_enqueue_extends(visited, found.drop_last());
        let before = enqueue(visited, found.drop_last());
        assert(enqueue(visited, found).subrange(0, visited.len() as int) =~= before.subrange(
            0,
            visited.len() as int,
        ));
    } else {
        assert(visited.subrange(0, visited.len() as int) =~= visited);
    }
}

/// Enqueueing loses nothing and invents nothing: the new visited set
/// holds every found address in its canonical form, and whatever it holds
/// was visited before or is the canonical form of a found address.
pub proof fn lemma_enqueue_members(visited: Seq<Seq<u8>>, found: Seq<Seq<u8>>)
    ensures
        forall|j: int|
            0 <= j < found.len() ==> enqueue(visited, found).contains(
                strip_fragment(#[trigger] found[j]),
            ),
        forall|k: int|
            0 <= k < enqueue(visited, found).len() ==> visited.contains(
                #[trigger] enqueue(visited, found)[k],
            ) || exists|j: int|
                0 <= j < found.len() && enqueue(visited, found)[k] == strip_fragment(
                    #[trigger] found[j],
                ),
    decreases found.len(),
{
    let all = enqueue(visited, found);
    if found.len() == 0 {
        assert forall|k: int| 0 <= k < all.len() implies visited.contains(#[trigger] all[k]) by {
            assert(visited[k] == all[k]);
        }
    } else {
        let rest = found.drop_last();
        let before = enqueue(visited, rest);
        let u = strip_fragment(found.last());
        lemma_enqueue_members(visited, rest);
        assert forall|j: int| 0 <= j < found.len() implies all.contains(
            strip_fragment(#[trigger] found[j]),
        ) by {
            if j < rest.len() {
                assert(rest[j] == found[j]);
                let w = choose|w: int| 0 <= w < before.len() && before[w] == strip_fragment(rest[j]);
                assert(all[w] == before[w]);
            } else if before.contains(u) {
            } else {
                assert(all[before.len() as int] == u);
            }
        }
        assert forall|k: int| 0 <= k < all.len() implies visited.contains(#[trigger] all[k])
            || exists|j: int|
            0 <= j < found.len() && all[k] == strip_fragment(#[trigger] found[j]) by {
            if k < before.len() {
                assert(all[k] == before[k]);
                if !visited.contains(before[k]) {
                    let j = choose|j: int|
                        0 <= j < rest.len() && before[k] == strip_fragment(#[trigger] rest[j]);
                    assert(found[j] == rest[j]);
                }
            } else {
                assert(all[k] == strip_fragment(found[found.len() - 1]));
            }
        }
    }
}

impl Crawler {
    /// The invariant of a crawl.
    pub open spec fn wf(&self) -> bool {
        &&& self.urls@.len() == self.depths@.len()
        &&& self.urls@.len() == self.done@.len()
        &&& self.completed == count_done(self.done@, self.next as int)
        &&& forall|i: int| self.next <= i < self.done@.len() ==> !(#[trigger] self.done@[i])
        &&& forall|i: int|
            0 <= i < self.next && !(#[trigger] self.done@[i]) ==> self.depths@[i] == self.level
        &&& self.completed <= self.next <= self.urls@.len()
        &&& self.level <= self.max_depth
        &&& self.summary.written + self.summary.failed == self.completed
        &&& distinct(views(self.urls@))
        &&& forall|i: int| 0 <= i < self.urls@.len() ==> is_canonical(#[trigger] self.urls@[i]@)
        &&& forall|i: int, j: int|
            0 <= i <= j < self.depths@.len() ==> self.depths@[i] <= self.depths@[j]
        &&& forall|i: int|
            0 <= i < self.depths@.len() ==> #[trigger] self.depths@[i] <= self.max_depth
                && self.depths@[i] <= self.level + 1
        &&& forall|i: int| 0 <= i < self.next ==> #[trigger] self.depths@[i] <= self.level
        &&& forall|i: int|
            self.next <= i < self.depths@.len() ==> #[trigger] self.depths@[i] >= self.level
    }

    /// The number of tasks handed out whose outcome is not recorded yet.
    pub open spec fn in_flight(&self) -> int {
        self.next - self.completed
    }

    /// A task can be handed out when one is pending, fewer than `cap` are in
    /// flight, and either none is in flight or the pending task belongs to
    /// the level that is being fetched.
    pub open spec fn can_dispatch(&self, cap: usize) -> bool {
        &&& self.next < self.urls@.len()
        &&& self.in_flight() < cap
        &&& (self.in_flight() == 0 || self.depths@[self.next as int] == self.level)
    }

    /// The state that follows `before` when the outcome of task `id` is
    /// recorded and `added` is let into the frontier: the task is done and
    /// counted, the visited set has taken `added`, and every new address
    /// lies one level below the task.
    pub open spec fn follows(
        &self,
        before: Crawler,
        id: usize,
        result: FetchResult,
        stored: bool,
        added: Seq<Seq<u8>>,
    ) -> bool {
        &&& self.completed == before.completed + 1
        &&& self.next == before.next
        &&& self.level == before.level
        &&& self.max_depth == before.max_depth
        &&& self.summary == tally(before.summary, result, stored)
        &&& self.seed_failed == (before.seed_failed || (id == 0 && result is Failure))
        &&& views(self.urls@) == enqueue(views(before.urls@), added)
        &&& self.depths@.len() >= before.depths@.len()
        &&& self.depths@.subrange(0, before.depths@.len() as int) == before.depths@
        &&& forall|i: int|
            before.depths@.len() <= i < self.depths@.len() ==> self.depths@[i]
                == before.depths@[id as int] + 1
        &&& self.done@[id as int]
        &&& forall|i: int|
            0 <= i < self.done@.len() && i != id ==> self.done@[i] == (i < before.done@.len()
                && before.done@[i])
    }

    /// An outcome is taken for a task that is in flight: handed out, and
    /// without a recorded outcome.
    pub open spec fn accepts(&self, id: usize) -> bool {
        id < self.next && !self.done@[id as int]
    }

    /// The crawl is over when every visited address was handed out and
    /// every outcome is recorded.
    pub open spec fn finished(&self) -> bool {
        self.next == self.urls@.len() && self.completed == self.next
    }

    /// The addresses that the outcome of task `id` lets into the frontier:
    /// what was found on a fetched page above the last level, else nothing.
    pub open spec fn admitted(&self, id: usize, result: FetchResult, found: Seq<Seq<u8>>) -> Seq<
        Seq<u8>,
    > {
        if result is Success && self.depths@[id as int] < self.max_depth {
            found
        } else {
            Seq::<Seq<u8>>::empty()
        }
    }

    /// The addresses that the outcome of task `id` adds to the frontier's
    /// input: the links of a fetched page above the last level, else none.
    pub open spec fn discovered(&self, id: usize, result: FetchResult) -> Seq<Seq<u8>> {
        match result {
            FetchResult::Success { headers, body } => self.admitted(
                id,
                result,
                links(self.urls@[id as int]@, content_type(headers@), body@),
            ),
            FetchResult::Failure { reason } => Seq::<Seq<u8>>::empty(),
        }
    }

    /// A crawl that has visited the seed alone, cut at its fragment, at
    /// depth 0, and has handed out nothing.
    pub fn start(seed: &[u8], max_depth: usize) -> (c: Crawler)
        ensures
            c.wf(),
            views(c.urls@) == seq![strip_fragment(seed@)],
            c.depths@ == seq![0usize],
            c.done@ == seq![false],
            c.next == 0,
            c.completed == 0,
            c.level == 0,
            c.max_depth == max_depth,
            c.summary == (CrawlSummary { written: 0, failed: 0, bytes: 0 }),
            !c.seed_failed,
    {
        let mut urls: Vec<Vec<u8>> = Vec::new();
        urls.push(canonical(seed));
        let mut depths: Vec<usize> = Vec::new();
        depths.push(0);
        let mut done: Vec<bool> = Vec::new();
        done.push(false);
        proof {
            assert(done@ =~= seq![false]);
            assert(views(urls@) =~= seq![strip_fragment(seed@)]);
            assert(depths@ =~= seq![0usize]);
        }
        Crawler {
            urls,
            depths,
            done,
            next: 0,
            completed: 0,
            level: 0,
            max_depth,
            summary: CrawlSummary { written: 0, failed: 0, bytes: 0 },
            seed_failed: false,
        }
    }

    /// Starts a crawl at a seed. A seed that is no address is refused;
    /// any other is visited in the form the parser writes it.
    pub fn new(seed: &[u8], max_depth: usize) -> (r: Result<Crawler, CrawlError>)
        ensures
            r.is_ok() == url_parsed(seed@).is_some(),
            r matches Err(e) ==> e == CrawlError::BadSeed,
            r matches Ok(c) ==> {
                &&& c.wf()
                &&& views(c.urls@) == seq![strip_fragment(url_parsed(seed@).unwrap().0)]
                &&& c.depths@ == seq![0usize]
                &&& c.done@ == seq![false]
                &&& c.next == 0
                &&& c.completed == 0
                &&& c.level == 0
                &&& c.max_depth == max_depth
                &&& c.summary == (CrawlSummary { written: 0, failed: 0, bytes: 0 })
                &&& !c.seed_failed
            },
    {
        match parse_url(seed) {
            Some(parts) => Ok(Crawler::start(parts.text.as_slice(), max_depth)),
            None => Err(CrawlError::BadSeed),
        }
    }

    /// Whether the crawl is over.
    pub fn is_finished(&self) -> (r: bool)
        ensures
            r == self.finished(),
    {
        self.next == self.urls.len() && self.completed == self.next
    }

    /// Hands out the next task, if one can be handed out. With nothing in
    /// flight the crawl moves on to the depth of the pending task; with
    /// tasks in flight only a task of their depth is handed out, so a level
    /// is drained before the next begins.
    pub fn dispatch(&mut self, cap: usize) -> (r: Option<CrawlTask>)
        requires
            old(self).wf(),
        ensures
            final(self).wf(),
            r.is_some() == old(self).can_dispatch(cap),
            r.is_none() ==> *final(self) == *old(self),
            r matches Some(t) ==> {
                &&& t.id == old(self).next
                &&& t.url@ == old(self).urls@[t.id as int]@
                &&& t.depth == old(self).depths@[t.id as int]
                &&& t.depth <= old(self).max_depth
                &&& final(self).level == t.depth
                &&& old(self).in_flight() > 0 ==> t.depth == old(self).level
                &&& final(self).next == old(self).next + 1
                &&& final(self).urls == old(self).urls
                &&& final(self).depths == old(self).depths
                &&& final(self).done == old(self).done
                &&& final(self).completed == old(self).completed
                &&& final(self).max_depth == old(self).max_depth
                &&& final(self).summary == old(self).summary
                &&& final(self).seed_failed == old(self).seed_failed
            },
    {
        if self.next >= self.urls.len() {
            return None;
        }
        if self.next - self.completed >= cap {
            return None;
        }
        let depth: usize = self.depths[self.next];
        if self.next != self.completed && depth != self.level {
            return None;
        }
        let id: usize = self.next;
        let url = copy_bytes(self.urls[id].as_slice());
        proof {
            lemma_count_bounds(self.done@, id as int);
        }
        self.level = depth;
        self.next = id + 1;
        Some(CrawlTask { id, url, depth })
    }

    /// Records the outcome of a task and scans a fetched page for links.
    /// The outcome counts in the summary; the links of a fetched page above
    /// the last level join the visited set one level down, each once. An
    /// outcome that is not taken changes nothing.
    pub fn record(&mut self, id: usize, result: &FetchResult, stored: bool) -> (r: bool)
        requires
            old(self).wf(),
        ensures
            final(self).wf(),
            r == old(self).accepts(id),
            !r ==> *final(self) == *old(self),
            r ==> final(self).follows(
                *old(self),
                id,
                *result,
                stored,
                old(self).discovered(id, *result),
            ),
    {
        let found: Vec<Vec<u8>> = match result {
            FetchResult::Success { headers, body } => {
                if id < self.depths.len() && self.depths[id] < self.max_depth {
                    let kind = headers.content_type();
                    extract_links(self.urls[id].as_slice(), kind.as_slice(), body.as_slice())
                } else {
                    Vec::new()
                }
            },
            FetchResult::Failure { reason } => Vec::new(),
        };
        proof {
            if self.accepts(id) {
                assert(self.admitted(id, *result, views(found@)) =~= self.discovered(id, *result));
            }
        }
        self.record_found(id, result, stored, &found)
    }

    /// Records the outcome of a task, given the addresses found on its
    /// page. The outcome counts in the summary; what was found on a fetched
    /// page above the last level joins the visited set one level down, each
    /// address once. An outcome that is not taken changes nothing.
    pub fn record_found(
        &mut self,
        id: usize,
        result: &FetchResult,
        stored: bool,
        found: &Vec<Vec<u8>>,
    ) -> (r: bool)
        requires
            old(self).wf(),
        ensures
            final(self).wf(),
            r == old(self).accepts(id),
            !r ==> *final(self) == *old(self),
            r ==> final(self).follows(
                *old(self),
                id,
                *result,
                stored,
                old(self).admitted(id, *result, views(found@)),
            ),
    {
        if id >= self.next || self.done[id] {
            return false;
        }
        let depth: usize = self.depths[id];
        proof {
            lemma_count_bounds(self.done@, self.next as int);
        }
        let ghost urls0 = views(self.urls@);
        let ghost depths0 = self.depths@;
        let ghost before = *self;
        proof {
            assert(self.depths@.subrange(0, depths0.len() as int) =~= depths0);
            assert(self.done@.subrange(0, depths0.len() as int) =~= self.done@);
        }
        match result {
            FetchResult::Success { headers, body } => {
                if depth < self.max_depth {
                    let mut k: usize = 0;
                    proof {
                        assert(views(found@).subrange(0, 0) =~= Seq::<Seq<u8>>::empty());
                    }
                    while k < found.len()
                        invariant
                            k <= found.len(),
                            self.wf(),
                            depth < self.max_depth,
                            depth == self.level,
                            self.next == before.next,
                            self.completed == before.completed,
                            self.level == before.level,
                            self.max_depth == before.max_depth,
                            self.summary == before.summary,
                            self.seed_failed == before.seed_failed,
                            self.depths@.len() >= depths0.len(),
                            self.done@.subrange(0, depths0.len() as int) == before.done@,
                            self.depths@.subrange(0, depths0.len() as int) == depths0,
                            forall|i: int|
                                depths0.len() <= i < self.depths@.len() ==> self.depths@[i]
                                    == depth + 1,
                            views(self.urls@) == enqueue(
                                urls0,
                                views(found@).subrange(0, k as int),
                            ),
                        decreases found.len() - k,
                    {
                        let u = canonical(found[k].as_slice());
                        let ghost old_urls = views(self.urls@);
                        let ghost old_depths = self.depths@;
                        let ghost old_done = self.done@;
                        proof {
                            let prefix = views(found@).subrange(0, k + 1);
                            assert(prefix.drop_last() =~= views(found@).subrange(0, k as int));
                            assert(prefix.last() == found@[k as int]@);
                        }
                        if !holds(&self.urls, u.as_slice()) {
                            self.urls.push(u);
                            self.depths.push(depth + 1);
                            self.done.push(false);
                            proof {
                                lemma_count_prefix(self.done@, old_done, self.next as int);
                                assert(self.done@.subrange(0, depths0.len() as int)
                                    =~= old_done.subrange(0, depths0.len() as int));
                                assert(views(self.urls@) =~= old_urls.push(u@));
                                assert(self.depths@ == old_depths.push((depth + 1) as usize));
                                assert(self.depths@.subrange(0, depths0.len() as int)
                                    =~= old_depths.subrange(0, depths0.len() as int));
                                assert forall|i: int, j: int|
                                    0 <= i < j < views(self.urls@).len() implies views(
                                    self.urls@,
                                )[i] != views(self.urls@)[j] by {
                                    if j == old_urls.len() {
                                        assert(old_urls[i] != u@);
                                    } else {
                                        assert(old_urls[i] != old_urls[j]);
                                    }
                                }
                            }
                        }
                        k += 1;
                    }
                    proof {
                        assert(views(found@).subrange(0, found@.len() as int) =~= views(found@));
                    }
                }
                if stored {
                    self.summary.written = self.summary.written + 1;
                    let size: u64 = body.len() as u64;
                    if size > u64::MAX - self.summary.bytes {
                        self.summary.bytes = u64::MAX;
                    } else {
                        self.summary.bytes = self.summary.bytes + size;
                    }
                } else {
                    self.summary.failed = self.summary.failed + 1;
                }
            },
            FetchResult::Failure { reason } => {
                self.summary.failed = self.summary.failed + 1;
                if id == 0 {
                    self.seed_failed = true;
                }
            },
        }
        let ghost open = self.done@;
        self.done.set(id, true);
        self.completed = self.completed + 1;
        proof {
            lemma_count_update(open, self.next as int, id as int);
            lemma_count_bounds(self.done@, self.next as int);
            assert forall|i: int|
                0 <= i < self.done@.len() && i != id implies self.done@[i] == (i
                < before.done@.len() && before.done@[i]) by {
                if i < before.done@.len() {
                    assert(self.done@.subrange(0, depths0.len() as int)[i] == self.done@[i]);
                }
            }
        }
        true
    }
}

/// Two visited addresses that differ at most in their fragment are one
/// entry: no resource is handed out twice.
pub proof fn lemma_one_task_per_resource(c: Crawler, i: int, j: int)
    requires
        c.wf(),
        0 <= i < c.urls@.len(),
        0 <= j < c.urls@.len(),
        strip_fragment(c.urls@[i]@) == strip_fragment(c.urls@[j]@),
    ensures
        i == j,
{
    lemma_strip_fragment(c.urls@[i]@);
    lemma_strip_fragment(c.urls@[j]@);
    assert(views(c.urls@)[i] == c.urls@[i]@);
    assert(views(c.urls@)[j] == c.urls@[j]@);
}

/// A crawl that is not over never stalls: either an outcome is awaited,
/// or a task can be handed out to any caller that takes at least one.
pub proof fn lemma_progress(c: Crawler, cap: usize)
    requires
        c.wf(),
        !c.finished(),
        cap > 0,
    ensures
        c.in_flight() > 0 || c.can_dispatch(cap),
{
}

/// With nothing pending and nothing in flight the crawl is over.
pub proof fn lemma_finished(c: Crawler)
    requires
        c.wf(),
    ensures
        c.finished() <==> (c.in_flight() == 0 && forall|cap: usize| !c.can_dispatch(cap)),
{
    if !c.finished() && c.in_flight() == 0 {
        assert(c.can_dispatch(1));
    }
}

/// No visited address lies deeper than the bound, and none that was handed
/// out lies deeper than the level that is being fetched.
pub proof fn lemma_depth_bounded(c: Crawler, i: int)
    requires
        c.wf(),
        0 <= i < c.urls@.len(),
    ensures
        c.depths@[i] <= c.max_depth,
        i < c.next ==> c.depths@[i] <= c.level,
{
}

} // verus!
