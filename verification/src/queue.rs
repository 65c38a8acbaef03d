//! The pending-request queue.
//!
//! Requests wait in two FIFO lines, one per service class: interactive
//! requests (an explicit drop or a navigation target) are always served
//! before speculative prefetches of directory neighbours.  A key is queued
//! at most once across both classes.

use vstd::prelude::*;

verus! {

/// Service class of a pending request.  Interactive requests are dispatched
/// before prefetch requests whenever both are outstanding.
#[derive(Clone, Copy, PartialEq, Eq, Structural, Debug)]
pub enum Priority {
    Interactive,
    Prefetch,
}

/// One queued load request: the cache key to load and its service class.
pub struct PendingRequest {
    pub key: String,
    pub priority: Priority,
}

/// The views of a list of keys.
pub open spec fn key_views(s: Seq<String>) -> Seq<Seq<char>> {
    Seq::new(s.len(), |i: int| s[i]@)
}

proof fn lemma_key_views_push(s: Seq<String>, x: String)
    ensures
        key_views(s.push(x)) == key_views(s).push(x@),
{
    assert(key_views(s.push(x)) =~= key_views(s).push(x@));
}

/// Pending load requests, FIFO within each service class.
pub struct PendingQueue {
    interactive: Vec<String>,
    prefetch: Vec<String>,
}

impl PendingQueue {
    /// Keys waiting in the interactive class, in arrival order.
    pub closed spec fn interactive_keys(self) -> Seq<Seq<char>> {
        key_views(self.interactive@)
    }

    /// Keys waiting in the prefetch class, in arrival order.
    pub closed spec fn prefetch_keys(self) -> Seq<Seq<char>> {
        key_views(self.prefetch@)
    }

    /// All queued keys in dispatch order: the whole interactive class first,
    /// then the prefetch class.
    pub open spec fn queued_keys(self) -> Seq<Seq<char>> {
        self.interactive_keys() + self.prefetch_keys()
    }

    /// Whether `k` is queued in either class.
    pub open spec fn has_key(self, k: Seq<char>) -> bool {
        self.queued_keys().contains(k)
    }

    /// A key is queued at most once across both classes.
    #[verifier::type_invariant]
    pub(crate) open spec fn inv(self) -> bool {
        self.queued_keys().no_duplicates()
    }

    /// An empty queue.
    pub fn new() -> (r: Self)
        ensures
            r.interactive_keys() == Seq::<Seq<char>>::empty(),
            r.prefetch_keys() == Seq::<Seq<char>>::empty(),
    {
        let q = PendingQueue { interactive: Vec::new(), prefetch: Vec::new() };
        proof {
            assert(q.interactive_keys() =~= Seq::<Seq<char>>::empty());
            assert(q.prefetch_keys() =~= Seq::<Seq<char>>::empty());
        }
        q
    }

    /// Whether `key` is queued in either class.
    pub fn contains_key(&self, key: &String) -> (r: bool)
        ensures
            r == self.has_key(key@),
    {
        let in_interactive = vec_contains_key(&self.interactive, key);
        let in_prefetch = vec_contains_key(&self.prefetch, key);
        proof {
            if self.has_key(key@) {
                let i = choose|i: int|
                    0 <= i < self.queued_keys().len() && self.queued_keys()[i] == key@;
                if i < self.interactive_keys().len() {
                    assert(self.interactive_keys()[i] == key@);
                } else {
                    assert(self.prefetch_keys()[i - self.interactive_keys().len()] == key@);
                }
            }
            if in_interactive {
                let i = choose|i: int|
                    0 <= i < self.interactive_keys().len() && self.interactive_keys()[i] == key@;
                assert(self.queued_keys()[i] == key@);
            }
            if in_prefetch {
                let i = choose|i: int|
                    0 <= i < self.prefetch_keys().len() && self.prefetch_keys()[i] == key@;
                assert(self.queued_keys()[self.interactive_keys().len() + i] == key@);
            }
        }
        in_interactive || in_prefetch
    }

    /// Whether no request is pending.
    pub fn is_empty(&self) -> (r: bool)
        ensures
            r == (self.queued_keys().len() == 0),
    {
        self.interactive.is_empty() && self.prefetch.is_empty()
    }

    /// Enqueue `key` in its service class unless it is already queued; FIFO
    /// order within the class is preserved.  Returns whether the key was
    /// enqueued.
    pub fn submit(&mut self, key: String, priority: Priority) -> (r: bool)
        ensures
            r == !old(self).has_key(key@),
            !r ==> *final(self) == *old(self),
            r && priority == Priority::Interactive ==> final(self).interactive_keys()
                == old(self).interactive_keys().push(key@)
                && final(self).prefetch_keys() == old(self).prefetch_keys(),
            r && priority == Priority::Prefetch ==> final(self).prefetch_keys()
                == old(self).prefetch_keys().push(key@)
                && final(self).interactive_keys() == old(self).interactive_keys(),
    {
        proof {
            use_type_invariant(&*self);
        }
        if self.contains_key(&key) {
            return false;
        }
        let ghost k = key@;
        let ghost old_q = self.queued_keys();
        proof {
            assert(forall|j: int| 0 <= j < old_q.len() ==> old_q[j] != k);
        }
        match priority {
            Priority::Interactive => {
                let mut v: Vec<String> = Vec::new();
                proof {
                    lemma_parts_no_duplicates(self.interactive_keys(), self.prefetch_keys());
                    assert(key_views(Seq::<String>::empty()) =~= Seq::<Seq<char>>::empty());
                }
                core::mem::swap(&mut v, &mut self.interactive);
                v.push(key);
                proof {
                    lemma_key_views_push(v@.drop_last(), v@.last());
                    assert(v@.drop_last() =~= old(self).interactive@);
                    lemma_push_keeps_no_duplicates(
                        old(self).interactive_keys(),
                        old(self).prefetch_keys(),
                        k,
                        true,
                    );
                }
                self.interactive = v;
            },
            Priority::Prefetch => {
                let mut v: Vec<String> = Vec::new();
                proof {
                    lemma_parts_no_duplicates(self.interactive_keys(), self.prefetch_keys());
                    assert(key_views(Seq::<String>::empty()) =~= Seq::<Seq<char>>::empty());
                }
                core::mem::swap(&mut v, &mut self.prefetch);
                v.push(key);
                proof {
                    lemma_key_views_push(v@.drop_last(), v@.last());
                    assert(v@.drop_last() =~= old(self).prefetch@);
                    lemma_push_keeps_no_duplicates(
                        old(self).interactive_keys(),
                        old(self).prefetch_keys(),
                        k,
                        false,
                    );
                }
                self.prefetch = v;
            },
        }
        true
    }

    /// Take the next request to dispatch: the oldest interactive request if
    /// any, otherwise the oldest prefetch request, otherwise `None`, without
    /// blocking.
    pub fn take_next(&mut self) -> (r: Option<PendingRequest>)
        ensures
            r is None <==> old(self).queued_keys().len() == 0,
            r is None ==> *final(self) == *old(self),
            r matches Some(req) ==> req.key@ == old(self).queued_keys()[0]
                && final(self).queued_keys() == old(self).queued_keys().drop_first(),
            r matches Some(req) ==> (if old(self).interactive_keys().len() > 0 {
                req.priority == Priority::Interactive
                    && final(self).interactive_keys() == old(self).interactive_keys().drop_first()
                    && final(self).prefetch_keys() == old(self).prefetch_keys()
            } else {
                req.priority == Priority::Prefetch
                    && final(self).prefetch_keys() == old(self).prefetch_keys().drop_first()
                    && final(self).interactive_keys() == old(self).interactive_keys()
            }),
    {
        proof {
            use_type_invariant(&*self);
        }
        if self.interactive.len() > 0 {
            let mut v: Vec<String> = Vec::new();
            proof {
                lemma_parts_no_duplicates(self.interactive_keys(), self.prefetch_keys());
                assert(key_views(Seq::<String>::empty()) =~= Seq::<Seq<char>>::empty());
            }
            core::mem::swap(&mut v, &mut self.interactive);
            let key = v.remove(0);
            proof {
                assert(key_views(v@) =~= old(self).interactive_keys().drop_first());
                lemma_drop_first_keeps_no_duplicates(
                    old(self).interactive_keys(),
                    old(self).prefetch_keys(),
                );
                assert(key_views(v@) + self.prefetch_keys() =~= old(
                    self,
                ).queued_keys().drop_first());
            }
            self.interactive = v;
            Some(PendingRequest { key, priority: Priority::Interactive })
        } else if self.prefetch.len() > 0 {
            let mut v: Vec<String> = Vec::new();
            proof {
                lemma_parts_no_duplicates(self.interactive_keys(), self.prefetch_keys());
                assert(key_views(Seq::<String>::empty()) =~= Seq::<Seq<char>>::empty());
            }
            core::mem::swap(&mut v, &mut self.prefetch);
            let key = v.remove(0);
            proof {
                assert(old(self).queued_keys() =~= old(self).prefetch_keys());
                assert(key_views(v@) =~= old(self).prefetch_keys().drop_first());
                assert(self.interactive_keys() + key_views(v@) =~= old(
                    self,
                ).queued_keys().drop_first());
            }
            self.prefetch = v;
            Some(PendingRequest { key, priority: Priority::Prefetch })
        } else {
            proof {
                assert(self.queued_keys().len() == 0);
            }
            None
        }
    }

    /// Drop every pending request.
    pub fn clear(&mut self)
        ensures
            final(self).interactive_keys() == Seq::<Seq<char>>::empty(),
            final(self).prefetch_keys() == Seq::<Seq<char>>::empty(),
    {
        proof {
            use_type_invariant(&*self);
            lemma_parts_no_duplicates(self.interactive_keys(), self.prefetch_keys());
            assert(key_views(Seq::<String>::empty()) =~= Seq::<Seq<char>>::empty());
        }
        self.interactive = Vec::new();
        self.prefetch = Vec::new();
        proof {
            assert(self.interactive_keys() =~= Seq::<Seq<char>>::empty());
            assert(self.prefetch_keys() =~= Seq::<Seq<char>>::empty());
        }
    }
}

fn vec_contains_key(v: &Vec<String>, key: &String) -> (r: bool)
    ensures
        r == key_views(v@).contains(key@),
{
    let n = v.len();
    let mut i: usize = 0;
    while i < n
        invariant
            n == v@.len(),
            i <= n,
            forall|j: int| 0 <= j < i ==> v@[j]@ != key@,
        decreases n - i,
    {
        if v[i] == *key {
            assert(key_views(v@)[i as int] == key@);
            return true;
        }
        i = i + 1;
    }
    assert(forall|j: int| 0 <= j < key_views(v@).len() ==> key_views(v@)[j] != key@);
    false
}

proof fn lemma_parts_no_duplicates(qi: Seq<Seq<char>>, qp: Seq<Seq<char>>)
    requires
        (qi + qp).no_duplicates(),
    ensures
        qi.no_duplicates(),
        qp.no_duplicates(),
        (Seq::<Seq<char>>::empty() + qp) =~= qp,
        (qi + Seq::<Seq<char>>::empty()) =~= qi,
{
    assert forall|m: int, n: int| 0 <= m < n < qi.len() implies qi[m] != qi[n] by {
        assert((qi + qp)[m] == qi[m]);
        assert((qi + qp)[n] == qi[n]);
    }
    assert forall|m: int, n: int| 0 <= m < n < qp.len() implies qp[m] != qp[n] by {
        assert((qi + qp)[qi.len() + m] == qp[m]);
        assert((qi + qp)[qi.len() + n] == qp[n]);
    }
}

proof fn lemma_push_keeps_no_duplicates(
    qi: Seq<Seq<char>>,
    qp: Seq<Seq<char>>,
    k: Seq<char>,
    interactive: bool,
)
    requires
        (qi + qp).no_duplicates(),
        !(qi + qp).contains(k),
    ensures
        interactive ==> (qi.push(k) + qp).no_duplicates(),
        !interactive ==> (qi + qp.push(k)).no_duplicates(),
{
    assert(forall|j: int| 0 <= j < (qi + qp).len() ==> (qi + qp)[j] != k);
    if interactive {
        let s = qi.push(k) + qp;
        assert forall|m: int, n: int| 0 <= m < n < s.len() implies s[m] != s[n] by {
            assert(forall|j: int|
                0 <= j < s.len() && j != qi.len() ==> s[j] == (qi + qp)[if j < qi.len() {
                    j
                } else {
                    j - 1
                }]);
            assert(s[qi.len() as int] == k);
        }
    } else {
        let s = qi + qp.push(k);
        assert forall|m: int, n: int| 0 <= m < n < s.len() implies s[m] != s[n] by {
            assert(forall|j: int| 0 <= j < s.len() - 1 ==> s[j] == (qi + qp)[j]);
            assert(s[s.len() - 1] == k);
        }
    }
}

proof fn lemma_drop_first_keeps_no_duplicates(qi: Seq<Seq<char>>, qp: Seq<Seq<char>>)
    requires
        (qi + qp).no_duplicates(),
        qi.len() > 0,
    ensures
        (qi.drop_first() + qp).no_duplicates(),
{
    let s = qi.drop_first() + qp;
    assert forall|m: int, n: int| 0 <= m < n < s.len() implies s[m] != s[n] by {
        assert(forall|j: int| 0 <= j < s.len() ==> s[j] == (qi + qp)[j + 1]);
    }
}

} // verus!
