//! The loader front end: request coalescing, dispatch, completion and
//! placeholder resolution.
//!
//! The loader owns the content cache, the pending-request queue and the set
//! of keys whose decode is in flight.  A driver submits paths, takes the
//! decode jobs that a dispatch pass emits, performs the file read and the
//! decode (on worker threads if it likes), and hands each outcome back via
//! [`ImageLoader::complete_decode`].  A key is never queued, dispatched or
//! decoded twice while a copy of it is still pending, and a decode result
//! that arrives after [`ImageLoader::invalidate_directory`] carries a stale
//! generation and is discarded.

use vstd::prelude::*;

use crate::cache::{
    CacheEntry, ContentCache, next_generation, spec_insert_if_absent,
};
use crate::decode::DecodeError;
use crate::placeholder::TwPlaceHolder;
use crate::queue::{key_views, PendingQueue, Priority};

verus! {

/// One unit of work for the driver: decode the file at `key`.  The job
/// carries the directory generation it was dispatched under, so that its
/// result can be recognised as stale after an invalidation.
pub struct DecodeJob {
    pub key: String,
    pub generation: u64,
}

/// A placeholder's resolved content: the cache entry to build the real
/// scene content from, and whether the placeholder came from navigation.
pub struct ResolvedContent<'a> {
    pub entry: &'a CacheEntry,
    pub from_next: bool,
}

/// The abstract state of a loader: what is cached, what is being decoded,
/// what waits in each queue class, and the current directory generation.
pub struct LoaderView {
    pub cached: Map<Seq<char>, CacheEntry>,
    pub in_flight: Seq<Seq<char>>,
    pub queued_interactive: Seq<Seq<char>>,
    pub queued_prefetch: Seq<Seq<char>>,
    pub generation: u64,
}

/// All queued keys in dispatch order: interactive requests first.
pub open spec fn queued(v: LoaderView) -> Seq<Seq<char>> {
    v.queued_interactive + v.queued_prefetch
}

/// Whether the loader already tracks `k`: cached, being decoded, or queued.
/// A submission for a tracked key is redundant and is coalesced.
pub open spec fn tracks(v: LoaderView, k: Seq<char>) -> bool {
    v.cached.contains_key(k) || v.in_flight.contains(k) || queued(v).contains(k)
}

/// Well-formedness: a key appears at most once across the in-flight set and
/// the two queue classes, and never while it is already cached.
pub open spec fn view_wf(v: LoaderView) -> bool {
    &&& (v.in_flight + queued(v)).no_duplicates()
    &&& forall|k: Seq<char>| #[trigger] v.in_flight.contains(k) ==> !v.cached.contains_key(k)
    &&& forall|k: Seq<char>| #[trigger] queued(v).contains(k) ==> !v.cached.contains_key(k)
}

/// The state of a fresh loader: nothing tracked, generation 0.
pub open spec fn spec_new() -> LoaderView {
    LoaderView {
        cached: Map::empty(),
        in_flight: Seq::empty(),
        queued_interactive: Seq::empty(),
        queued_prefetch: Seq::empty(),
        generation: 0,
    }
}

/// What a submission does: nothing for a tracked key, otherwise the key
/// joins the back of its class's queue.
pub open spec fn spec_submit(v: LoaderView, k: Seq<char>, p: Priority) -> LoaderView {
    if tracks(v, k) {
        v
    } else if p == Priority::Interactive {
        LoaderView { queued_interactive: v.queued_interactive.push(k), ..v }
    } else {
        LoaderView { queued_prefetch: v.queued_prefetch.push(k), ..v }
    }
}

/// What a dispatch pass does: every queued key becomes in flight, in
/// dispatch order (all interactive requests before all prefetches), and the
/// emitted job list names exactly those keys in that order.
pub open spec fn spec_dispatch(v: LoaderView) -> (LoaderView, Seq<Seq<char>>) {
    (
        LoaderView {
            in_flight: v.in_flight + queued(v),
            queued_interactive: Seq::empty(),
            queued_prefetch: Seq::empty(),
            ..v
        },
        queued(v),
    )
}

/// What completing a decode job does.  A job whose generation is stale or
/// whose key is not in flight is ignored.  Otherwise the in-flight mark is
/// released and, if the job succeeded with an entry for its own key, the
/// entry is inserted first-writer-wins.
pub open spec fn spec_complete(
    v: LoaderView,
    k: Seq<char>,
    g: u64,
    outcome: Option<CacheEntry>,
) -> LoaderView {
    if g != v.generation || !v.in_flight.contains(k) {
        v
    } else {
        let v1 = LoaderView { in_flight: remove_first(v.in_flight, k), ..v };
        match outcome {
            Some(e) => if e.key@ == k {
                LoaderView { cached: spec_insert_if_absent(v1.cached, e).0, ..v1 }
            } else {
                v1
            },
            None => v1,
        }
    }
}

/// Whether completing the job actually inserts its entry.
pub open spec fn spec_complete_inserts(
    v: LoaderView,
    k: Seq<char>,
    g: u64,
    outcome: Option<CacheEntry>,
) -> bool {
    &&& g == v.generation
    &&& v.in_flight.contains(k)
    &&& match outcome {
        Some(e) => e.key@ == k && !v.cached.contains_key(k),
        None => false,
    }
}

/// What a directory invalidation does: everything tracked is dropped and
/// the generation advances, so results still in flight become stale.
pub open spec fn spec_invalidate(v: LoaderView) -> LoaderView {
    LoaderView {
        cached: Map::empty(),
        in_flight: Seq::empty(),
        queued_interactive: Seq::empty(),
        queued_prefetch: Seq::empty(),
        generation: next_generation(v.generation),
    }
}

/// The entry a decode outcome carries, if it succeeded.
pub open spec fn ok_entry(outcome: Result<CacheEntry, DecodeError>) -> Option<CacheEntry> {
    match outcome {
        Ok(e) => Some(e),
        Err(_) => None,
    }
}

/// The keys of a job list, in order.
pub open spec fn job_keys(s: Seq<DecodeJob>) -> Seq<Seq<char>> {
    Seq::new(s.len(), |i: int| s[i].key@)
}

/// The index of the first occurrence of `k` in `s`, or -1 if none.
pub open spec fn find_first(s: Seq<Seq<char>>, k: Seq<char>) -> int
    decreases s.len(),
{
    if s.len() == 0 {
        -1
    } else if s[0] == k {
        0
    } else if find_first(s.drop_first(), k) < 0 {
        -1
    } else {
        find_first(s.drop_first(), k) + 1
    }
}

/// `s` with the first occurrence of `k` removed, if there is one.
pub open spec fn remove_first(s: Seq<Seq<char>>, k: Seq<char>) -> Seq<Seq<char>> {
    if s.contains(k) {
        s.remove(find_first(s, k))
    } else {
        s
    }
}

proof fn lemma_find_first_at(s: Seq<Seq<char>>, k: Seq<char>, i: int)
    requires
        0 <= i < s.len(),
        s[i] == k,
        forall|j: int| 0 <= j < i ==> s[j] != k,
    ensures
        s.contains(k),
        find_first(s, k) == i,
    decreases s.len(),
{
    if s[0] == k {
        assert(i == 0);
    } else {
        assert(i > 0);
        assert(forall|j: int| 0 <= j < i - 1 ==> s.drop_first()[j] == s[j + 1]);
        lemma_find_first_at(s.drop_first(), k, i - 1);
    }
}

proof fn lemma_no_dup_parts(a: Seq<Seq<char>>, b: Seq<Seq<char>>)
    requires
        (a + b).no_duplicates(),
    ensures
        a.no_duplicates(),
        b.no_duplicates(),
        forall|k: Seq<char>| #[trigger] a.contains(k) ==> !b.contains(k),
{
    assert forall|m: int, n: int| 0 <= m < n < a.len() implies a[m] != a[n] by {
        assert((a + b)[m] == a[m]);
        assert((a + b)[n] == a[n]);
    }
    assert forall|m: int, n: int| 0 <= m < n < b.len() implies b[m] != b[n] by {
        assert((a + b)[a.len() + m] == b[m]);
        assert((a + b)[a.len() + n] == b[n]);
    }
    assert forall|k: Seq<char>| #[trigger] a.contains(k) implies !b.contains(k) by {
        let m = choose|m: int| 0 <= m < a.len() && a[m] == k;
        if b.contains(k) {
            let n = choose|n: int| 0 <= n < b.len() && b[n] == k;
            assert((a + b)[m] == k);
            assert((a + b)[a.len() + n] == k);
        }
    }
}

/// Well-formedness survives a submission.
proof fn lemma_wf_submit(v: LoaderView, k: Seq<char>, p: Priority)
    requires
        view_wf(v),
    ensures
        view_wf(spec_submit(v, k, p)),
{
    if !tracks(v, k) {
        let v1 = spec_submit(v, k, p);
        let t = v.in_flight + queued(v);
        let s = v1.in_flight + queued(v1);
        let pos: int = if p == Priority::Interactive {
            v.in_flight.len() + v.queued_interactive.len() as int
        } else {
            t.len() as int
        };
        assert(forall|j: int| 0 <= j < pos ==> s[j] == t[j]);
        assert(s[pos] == k);
        assert(forall|j: int| pos < j < s.len() ==> s[j] == t[j - 1]);
        assert(forall|j: int| 0 <= j < t.len() ==> t[j] != k) by {
            assert forall|j: int| 0 <= j < t.len() implies t[j] != k by {
                if j < v.in_flight.len() {
                    if t[j] == k {
                        assert(v.in_flight.contains(k));
                    }
                } else {
                    if t[j] == k {
                        assert(queued(v)[j - v.in_flight.len()] == k);
                        assert(queued(v).contains(k));
                    }
                }
            }
        }
        assert forall|m: int, n: int| 0 <= m < n < s.len() implies s[m] != s[n] by {
            if m == pos {
                assert(s[n] == t[n - 1]);
            } else if n == pos {
                assert(s[m] == t[m]);
            }
        }
        assert forall|k2: Seq<char>| #[trigger] v1.in_flight.contains(k2) implies !v1.cached.contains_key(
            k2,
        ) by {
            assert(v.in_flight.contains(k2));
        }
        assert forall|k2: Seq<char>| #[trigger] queued(v1).contains(k2) implies !v1.cached.contains_key(
            k2,
        ) by {
            let j = choose|j: int| 0 <= j < queued(v1).len() && queued(v1)[j] == k2;
            if k2 != k {
                assert(queued(v1)[j] == s[v.in_flight.len() + j]);
                if v.in_flight.len() + j < pos {
                    assert(queued(v)[j] == k2);
                } else {
                    assert(queued(v)[j - 1] == k2);
                }
                assert(queued(v).contains(k2));
            }
        }
    }
}

/// Well-formedness survives a dispatch pass.
proof fn lemma_wf_dispatch(v: LoaderView)
    requires
        view_wf(v),
    ensures
        view_wf(spec_dispatch(v).0),
{
    let v1 = spec_dispatch(v).0;
    assert(v1.in_flight + queued(v1) =~= v.in_flight + queued(v));
    assert forall|k: Seq<char>| #[trigger] v1.in_flight.contains(k) implies !v1.cached.contains_key(
        k,
    ) by {
        let j = choose|j: int| 0 <= j < v1.in_flight.len() && v1.in_flight[j] == k;
        if j < v.in_flight.len() {
            assert(v.in_flight.contains(k));
        } else {
            assert(queued(v)[j - v.in_flight.len()] == k);
            assert(queued(v).contains(k));
        }
    }
}

/// The loader: the content cache, the pending queue and the in-flight set,
/// behind the narrow interface the scene layer drives once per tick.
pub struct ImageLoader {
    cache: ContentCache,
    queue: PendingQueue,
    in_flight: Vec<String>,
}

impl View for ImageLoader {
    type V = LoaderView;

    closed spec fn view(&self) -> LoaderView {
        LoaderView {
            cached: self.cache.mapping(),
            in_flight: key_views(self.in_flight@),
            queued_interactive: self.queue.interactive_keys(),
            queued_prefetch: self.queue.prefetch_keys(),
            generation: self.cache.generation_id(),
        }
    }
}

impl ImageLoader {
    #[verifier::type_invariant]
    spec fn inv(self) -> bool {
        view_wf(self.view())
    }

    /// A fresh loader: nothing cached, nothing pending, generation 0.
    pub fn new() -> (r: Self)
        ensures
            r@ == spec_new(),
    {
        let loader = ImageLoader {
            cache: ContentCache::new(),
            queue: PendingQueue::new(),
            in_flight: Vec::new(),
        };
        proof {
            assert(loader@.in_flight =~= Seq::<Seq<char>>::empty());
            assert(loader@ == spec_new());
            assert(loader@.in_flight + queued(loader@) =~= Seq::<Seq<char>>::empty());
        }
        loader
    }

    /// The current directory generation.
    pub fn current_generation(&self) -> (r: u64)
        ensures
            r == self@.generation,
    {
        self.cache.current_generation()
    }

    /// Submit a load request for `path`.  The path is used verbatim as the
    /// cache key, so the driver canonicalises it first: two spellings of
    /// one file must submit one key.  A request whose key is already
    /// cached, in flight or queued is coalesced: the loader is unchanged
    /// and the submission reports `false`.
    pub fn submit_request(&mut self, path: String, priority: Priority) -> (r: bool)
        ensures
            final(self)@ == spec_submit(old(self)@, path@, priority),
            r == !tracks(old(self)@, path@),
    {
        proof {
            use_type_invariant(&*self);
        }
        let ghost v0 = self@;
        let ghost k = path@;
        if self.cache.contains(&path) {
            return false;
        }
        match vec_find_key(&self.in_flight, &path) {
            Some(i) => {
                proof {
                    assert(v0.in_flight[i as int] == k);
                    assert(v0.in_flight.contains(k));
                }
                return false;
            },
            None => {},
        }
        let mut q = PendingQueue::new();
        proof {
            lemma_no_dup_parts(v0.in_flight, queued(v0));
            assert(v0.in_flight + (q.interactive_keys() + q.prefetch_keys()) =~= v0.in_flight);
        }
        core::mem::swap(&mut q, &mut self.queue);
        let enqueued = q.submit(path, priority);
        proof {
            if enqueued {
                assert(!queued(v0).contains(k)) by {
                    if queued(v0).contains(k) {
                        assert(v0.queued_interactive + v0.queued_prefetch == queued(v0));
                        let j = choose|j: int| 0 <= j < queued(v0).len() && queued(v0)[j] == k;
                        if j < v0.queued_interactive.len() {
                            assert(v0.queued_interactive.contains(k));
                            assert(q.has_key(k));
                        } else {
                            assert(v0.queued_prefetch.contains(k));
                        }
                    }
                }
            } else {
                assert(queued(v0).contains(k)) by {
                    assert(old(self).queue.has_key(k));
                    let j = choose|j: int|
                        0 <= j < old(self).queue.queued_keys().len() && old(
                            self,
                        ).queue.queued_keys()[j] == k;
                }
            }
            lemma_wf_submit(v0, k, priority);
        }
        self.queue = q;
        proof {
            assert(self@ == spec_submit(v0, k, priority));
        }
        enqueued
    }

    /// One dispatch pass: claim every pending request, in priority order,
    /// and emit one decode job per key.  The emitted keys join the
    /// in-flight set, so no second job can be emitted for them until their
    /// completion is reported.
    pub fn dispatch_ready_work(&mut self) -> (jobs: Vec<DecodeJob>)
        ensures
            final(self)@ == spec_dispatch(old(self)@).0,
            job_keys(jobs@) == spec_dispatch(old(self)@).1,
            forall|i: int| 0 <= i < jobs@.len() ==> jobs@[i].generation == old(self)@.generation,
    {
        proof {
            use_type_invariant(&*self);
        }
        let ghost v0 = self@;
        let generation = self.cache.current_generation();
        let mut q = PendingQueue::new();
        let mut infl: Vec<String> = Vec::new();
        proof {
            lemma_no_dup_parts(v0.in_flight, queued(v0));
            assert(v0.in_flight + (q.interactive_keys() + q.prefetch_keys()) =~= v0.in_flight);
        }
        core::mem::swap(&mut q, &mut self.queue);
        proof {
            assert(key_views(infl@) + (self.queue.interactive_keys()
                + self.queue.prefetch_keys()) =~= Seq::<Seq<char>>::empty());
        }
        core::mem::swap(&mut infl, &mut self.in_flight);
        let mut jobs: Vec<DecodeJob> = Vec::new();
        while !q.is_empty()
            invariant
                self@.cached == v0.cached,
                self@.generation == v0.generation,
                generation == v0.generation,
                self@.in_flight.len() == 0,
                self@.queued_interactive.len() == 0,
                self@.queued_prefetch.len() == 0,
                jobs@.len() <= queued(v0).len(),
                job_keys(jobs@) == queued(v0).take(jobs@.len() as int),
                key_views(infl@) == v0.in_flight + job_keys(jobs@),
                q.queued_keys() == queued(v0).skip(jobs@.len() as int),
                forall|i: int| 0 <= i < jobs@.len() ==> jobs@[i].generation == v0.generation,
                view_wf(v0),
            decreases q.queued_keys().len(),
        {
            let ghost n = jobs@.len() as int;
            let r = q.take_next();
            match r {
                Some(req) => {
                    proof {
                        assert(req.key@ == queued(v0).skip(n)[0]);
                        assert(req.key@ == queued(v0)[n]);
                        assert(queued(v0).contains(req.key@));
                    }
                    if self.cache.contains(&req.key) {
                        // a request already resolved by the time it is
                        // claimed would be dropped here; the invariant rules
                        // it out (a queued key is never cached)
                        proof {
                            assert(false);
                        }
                    } else {
                        let ghost infl0 = infl@;
                        let ghost jobs0 = jobs@;
                        let key_copy = req.key.clone();
                        infl.push(key_copy);
                        jobs.push(DecodeJob { key: req.key, generation });
                        proof {
                            assert(job_keys(jobs@) =~= job_keys(jobs0).push(req.key@));
                            assert(key_views(infl@) =~= key_views(infl0).push(req.key@));
                            assert(job_keys(jobs@) =~= queued(v0).take(n + 1)) by {
                                assert(forall|i: int|
                                    0 <= i < n ==> job_keys(jobs0)[i] == queued(v0).take(n)[i]);
                            }
                            assert(key_views(infl@) =~= v0.in_flight + job_keys(jobs@));
                            assert(q.queued_keys() =~= queued(v0).skip(n + 1)) by {
                                assert(q.queued_keys() =~= queued(v0).skip(n).drop_first());
                            }
                        }
                    }
                },
                None => {
                    // the loop condition just saw a non-empty queue
                    proof {
                        assert(false);
                    }
                },
            }
        }
        proof {
            assert(queued(v0).skip(jobs@.len() as int).len() == 0);
            assert(job_keys(jobs@) =~= queued(v0));
            assert(key_views(infl@) == spec_dispatch(v0).0.in_flight);
            lemma_wf_dispatch(v0);
            assert(key_views(infl@) + (self.queue.interactive_keys()
                + self.queue.prefetch_keys()) =~= key_views(infl@));
            assert(spec_dispatch(v0).0.in_flight + queued(spec_dispatch(v0).0) =~= key_views(
                infl@,
            ));
        }
        self.in_flight = infl;
        proof {
            assert(self@ == spec_dispatch(v0).0);
        }
        jobs
    }

    /// `poll_tick` is the once-per-frame entry point: it runs a dispatch
    /// pass and returns the decode jobs the driver must start.  Resolution
    /// is pull-based: the scene layer polls [`Self::try_take_resolved`] (or
    /// [`Self::try_resolve`]) per outstanding placeholder.
    pub fn poll_tick(&mut self) -> (jobs: Vec<DecodeJob>)
        ensures
            final(self)@ == spec_dispatch(old(self)@).0,
            job_keys(jobs@) == spec_dispatch(old(self)@).1,
            forall|i: int| 0 <= i < jobs@.len() ==> jobs@[i].generation == old(self)@.generation,
    {
        self.dispatch_ready_work()
    }

    /// Report the outcome of a decode job.  The in-flight mark is released;
    /// a successful entry for the job's own key is inserted first-writer-
    /// wins; a stale job (its generation predates an invalidation, or its
    /// key is not in flight) is ignored entirely.  Returns whether an entry
    /// was inserted.
    pub fn complete_decode(&mut self, job: DecodeJob, outcome: Result<CacheEntry, DecodeError>) -> (r:
        bool)
        ensures
            final(self)@ == spec_complete(old(self)@, job.key@, job.generation, ok_entry(outcome)),
            r == spec_complete_inserts(old(self)@, job.key@, job.generation, ok_entry(outcome)),
    {
        proof {
            use_type_invariant(&*self);
        }
        let ghost v0 = self@;
        let ghost k = job.key@;
        if job.generation != self.cache.current_generation() {
            return false;
        }
        let idx = vec_find_key(&self.in_flight, &job.key);
        let i = match idx {
            Some(i) => i,
            None => {
                return false;
            },
        };
        proof {
            lemma_find_first_at(v0.in_flight, k, i as int);
            lemma_no_dup_parts(v0.in_flight, queued(v0));
        }
        let mut infl: Vec<String> = Vec::new();
        proof {
            assert(key_views(infl@) + queued(v0) =~= queued(v0));
        }
        core::mem::swap(&mut infl, &mut self.in_flight);
        let _removed_key = infl.remove(i);
        proof {
            assert(key_views(infl@) =~= v0.in_flight.remove(i as int));
            assert(key_views(infl@) == remove_first(v0.in_flight, k));
            let s = v0.in_flight + queued(v0);
            let s1 = key_views(infl@) + queued(v0);
            assert forall|m: int, n: int| 0 <= m < n < s1.len() implies s1[m] != s1[n] by {
                assert(forall|j: int|
                    0 <= j < s1.len() ==> s1[j] == s[if j < i as int {
                        j
                    } else {
                        j + 1
                    }]);
            }
            assert forall|k2: Seq<char>| #[trigger] key_views(infl@).contains(k2) implies !v0.cached.contains_key(
                k2,
            ) by {
                let j = choose|j: int|
                    0 <= j < key_views(infl@).len() && key_views(infl@)[j] == k2;
                assert(v0.in_flight[if j < i as int {
                    j
                } else {
                    j + 1
                }] == k2);
                assert(v0.in_flight.contains(k2));
            }
        }
        self.in_flight = infl;
        let ghost v1 = spec_complete(v0, k, job.generation, ok_entry(outcome));
        match outcome {
            Ok(entry) => {
                if entry.key == job.key {
                    let mut c = ContentCache::new();
                    core::mem::swap(&mut c, &mut self.cache);
                    let inserted = c.insert_if_absent(entry, job.generation);
                    proof {
                        assert(!v0.cached.contains_key(k)) by {
                            assert(v0.in_flight.contains(k));
                        }
                        assert(inserted);
                        assert(!self@.in_flight.contains(k)) by {
                            if self@.in_flight.contains(k) {
                                let j = choose|j: int|
                                    0 <= j < self@.in_flight.len() && self@.in_flight[j] == k;
                                let s = v0.in_flight;
                                let jj: int = if j < i as int {
                                    j
                                } else {
                                    j + 1
                                };
                                assert(self@.in_flight == s.remove(i as int));
                                assert(s.remove(i as int)[j] == s[jj]);
                                assert(s[jj] == k);
                                assert(jj != i as int);
                                assert(s[i as int] == k);
                                if jj < i as int {
                                    assert(s[jj] != s[i as int]);
                                } else {
                                    assert(s[i as int] != s[jj]);
                                }
                            }
                        }
                        assert forall|k2: Seq<char>| #[trigger] self@.in_flight.contains(k2) implies !c.mapping().contains_key(
                            k2,
                        ) by {
                            let j = choose|j: int|
                                0 <= j < self@.in_flight.len() && self@.in_flight[j] == k2;
                            let s = v0.in_flight;
                            assert(s.remove(i as int)[j] == s[if j < i as int {
                                j
                            } else {
                                j + 1
                            }]);
                            assert(s.contains(k2));
                            assert(k2 != k);
                        }
                        assert forall|k2: Seq<char>| #[trigger] queued(self@).contains(k2) implies !c.mapping().contains_key(
                            k2,
                        ) by {
                            assert(queued(v0).contains(k2));
                            assert(!queued(v0).contains(k)) by {
                                assert(v0.in_flight.contains(k));
                            }
                        }
                    }
                    self.cache = c;
                    proof {
                        assert(self@ == v1);
                    }
                    inserted
                } else {
                    proof {
                        assert(self@ == v1);
                    }
                    false
                }
            },
            Err(_) => {
                proof {
                    assert(self@ == v1);
                }
                false
            },
        }
    }

    /// Look up the entry a placeholder is waiting for.  `Some` exactly when
    /// the entry is cached; until a worker inserts it, every poll returns
    /// `None` and the caller retries next tick.
    pub fn try_take_resolved(&self, path: &String) -> (r: Option<&CacheEntry>)
        ensures
            r is Some <==> self@.cached.contains_key(path@),
            r matches Some(e) ==> *e == self@.cached[path@],
    {
        self.cache.get(path)
    }

    /// Resolve one placeholder: `Some` exactly when its bitmap is cached.
    /// The caller then destroys the placeholder and builds the real content
    /// from the entry; a placeholder is consumed at most once.
    pub fn try_resolve<'a>(&'a self, placeholder: &TwPlaceHolder) -> (r: Option<ResolvedContent<
        'a,
    >>)
        ensures
            r is Some <==> self@.cached.contains_key(placeholder.twimage_path@),
            r matches Some(rc) ==> *rc.entry == self@.cached[placeholder.twimage_path@]
                && rc.from_next == placeholder.from_next,
    {
        match self.cache.get(&placeholder.twimage_path) {
            Some(entry) => Some(ResolvedContent { entry, from_next: placeholder.from_next }),
            None => None,
        }
    }

    /// The working directory changed: drop everything tracked and advance
    /// the generation, so that decode results for the old directory are
    /// refused when they arrive.
    pub fn invalidate_directory(&mut self)
        ensures
            final(self)@ == spec_invalidate(old(self)@),
    {
        proof {
            use_type_invariant(&*self);
        }
        let mut c = ContentCache::new();
        core::mem::swap(&mut c, &mut self.cache);
        c.clear();
        self.cache = c;
        let mut q = PendingQueue::new();
        proof {
            lemma_no_dup_parts(self@.in_flight, queued(self@));
            assert(self@.in_flight + (q.interactive_keys() + q.prefetch_keys()) =~= self@.in_flight);
        }
        core::mem::swap(&mut q, &mut self.queue);
        proof {
            assert(Seq::<Seq<char>>::empty() + queued(self@) =~= queued(self@));
        }
        self.in_flight = Vec::new();
        proof {
            assert(self@.in_flight =~= Seq::<Seq<char>>::empty());
            assert(self@ == spec_invalidate(old(self)@));
        }
    }
}

fn vec_find_key(v: &Vec<String>, key: &String) -> (r: Option<usize>)
    ensures
        r is None ==> !key_views(v@).contains(key@),
        r matches Some(i) ==> 0 <= i < v@.len() && v@[i as int]@ == key@ && forall|j: int|
            0 <= j < i ==> v@[j]@ != key@,
{
    let n = v.len();
    let mut i: usize = 0;
    while i < n
        invariant
            n == v@.len(),
            i <= n,
            forall|j: int| 0 <= j < i ==> v@[j]@ != key@,
        decreases n - i,
    {
        if v[i] == *key {
            return Some(i);
        }
        i = i + 1;
    }
    proof {
        assert(forall|j: int| 0 <= j < key_views(v@).len() ==> key_views(v@)[j] != key@);
    }
    None
}

/// No duplicate dispatch: a key submitted while untracked is tracked from
/// then on, so a second submission before its decode completes changes
/// nothing, and the next dispatch pass emits exactly one job for it.
pub proof fn lemma_no_duplicate_dispatch(v: LoaderView, k: Seq<char>, p1: Priority, p2: Priority)
    requires
        view_wf(v),
        !tracks(v, k),
    ensures
        spec_submit(spec_submit(v, k, p1), k, p2) == spec_submit(v, k, p1),
        spec_dispatch(spec_submit(v, k, p1)).1.to_multiset().count(k) == 1,
{
    let v1 = spec_submit(v, k, p1);
    assert(queued(v1).contains(k)) by {
        if p1 == Priority::Interactive {
            assert(queued(v1)[v.queued_interactive.len() as int] == k);
        } else {
            assert(queued(v1)[queued(v1).len() - 1] == k);
        }
    }
    lemma_wf_submit(v, k, p1);
    lemma_no_dup_parts(v1.in_flight, queued(v1));
    let jobs = spec_dispatch(v1).1;
    jobs.lemma_multiset_has_no_duplicates();
    broadcast use vstd::seq_lib::group_to_multiset_ensures;

    assert(jobs.to_multiset().count(k) > 0);
}

/// Resolution promotion: while a key is only in flight it is not yet
/// cached, so a placeholder for it cannot resolve; as soon as its decode
/// completes with an entry, the entry is cached under the key and every
/// later poll resolves to exactly that entry.
pub proof fn lemma_resolution_promotion(v: LoaderView, k: Seq<char>, e: CacheEntry)
    requires
        view_wf(v),
        v.in_flight.contains(k),
        e.key@ == k,
    ensures
        !v.cached.contains_key(k),
        spec_complete(v, k, v.generation, Some(e)).cached.contains_key(k),
        spec_complete(v, k, v.generation, Some(e)).cached[k] == e,
{
}

/// Directory invalidation: after it, no previously cached key is present,
/// and a late decode result tagged with the old generation is discarded
/// rather than inserted.
pub proof fn lemma_directory_invalidation(v: LoaderView, k: Seq<char>, e: CacheEntry)
    ensures
        spec_invalidate(v).generation != v.generation,
        !spec_invalidate(v).cached.contains_key(k),
        spec_complete(spec_invalidate(v), e.key@, v.generation, Some(e)) == spec_invalidate(v),
{
}

/// Priority ordering: whenever an interactive request and a prefetch
/// request are both pending, one dispatch pass emits the interactive one
/// first.
pub proof fn lemma_priority_ordering(v: LoaderView, ki: Seq<char>, kp: Seq<char>)
    requires
        v.queued_interactive.contains(ki),
        v.queued_prefetch.contains(kp),
    ensures
        exists|i: int, j: int|
            0 <= i < j < spec_dispatch(v).1.len() && spec_dispatch(v).1[i] == ki && spec_dispatch(
                v,
            ).1[j] == kp,
{
    let jobs = spec_dispatch(v).1;
    let i = choose|i: int| 0 <= i < v.queued_interactive.len() && v.queued_interactive[i] == ki;
    let j0 = choose|j: int| 0 <= j < v.queued_prefetch.len() && v.queued_prefetch[j] == kp;
    let j = v.queued_interactive.len() + j0;
    assert(jobs[i] == ki);
    assert(jobs[j] == kp);
    assert(0 <= i < j < jobs.len() && jobs[i] == ki && jobs[j] == kp);
}

/// The path that follows (or precedes) `current` in the directory's file
/// order; `None` at either end of the list or when `current` is not in it.
/// Navigation uses this to pick the next placeholder and prefetch target.
pub fn neighbor_in_order(files: &Vec<String>, current: &String, forward: bool) -> (r: Option<
    String,
>)
    ensures
        r is Some <==> spec_neighbor(key_views(files@), current@, forward) is Some,
        r matches Some(s) ==> spec_neighbor(key_views(files@), current@, forward) == Some(s@),
{
    let idx = vec_find_key(files, current);
    match idx {
        None => None,
        Some(i) => {
            let n = files.len();
            proof {
                lemma_find_first_at(key_views(files@), current@, i as int);
            }
            if forward {
                if i + 1 < n {
                    Some(files[i + 1].clone())
                } else {
                    None
                }
            } else {
                if i > 0 {
                    Some(files[i - 1].clone())
                } else {
                    None
                }
            }
        },
    }
}

/// The neighbour of `k` in `files`: the entry after (or before) the first
/// occurrence of `k`.
pub open spec fn spec_neighbor(files: Seq<Seq<char>>, k: Seq<char>, forward: bool) -> Option<
    Seq<char>,
> {
    if !files.contains(k) {
        None
    } else {
        let i = find_first(files, k);
        if forward {
            if i + 1 < files.len() {
                Some(files[i + 1])
            } else {
                None
            }
        } else {
            if i >= 1 {
                Some(files[i - 1])
            } else {
                None
            }
        }
    }
}

} // verus!
