//! The content cache: a mapping from canonical file path to decoded bitmap.
//!
//! Entries are produced once per key and never mutated afterwards; insertion
//! is idempotent (first writer wins).  Clearing the cache advances a
//! *directory generation* counter, so a decode result that was started
//! before an invalidation can be recognised as stale and discarded instead
//! of repopulating a cache that was just cleared.

use vstd::prelude::*;

verus! {

/// Width, height and source path of one decoded image.
pub struct ImageMetadata {
    pub width: u32,
    pub height: u32,
    pub source_path: String,
}

/// Immutable owned pixel data: `width * height` 4-channel RGBA pixels,
/// premultiplied or alpha-padded depending on the source format.
pub struct DecodedImage {
    pub width: u32,
    pub height: u32,
    pub pixels: Vec<u8>,
}

/// One cache entry: the decoded bitmap plus its metadata, keyed by the
/// canonical path of the source file.
pub struct CacheEntry {
    pub key: String,
    pub bitmap: DecodedImage,
    pub metadata: ImageMetadata,
}

/// A well-formed entry: the metadata repeats the bitmap's dimensions and the
/// source path, and the bitmap holds exactly one 4-byte pixel per point.
pub open spec fn entry_wf(e: CacheEntry) -> bool {
    &&& e.metadata.width == e.bitmap.width
    &&& e.metadata.height == e.bitmap.height
    &&& e.metadata.source_path@ == e.key@
    &&& e.bitmap.pixels@.len() == 4 * e.bitmap.width * e.bitmap.height
}

/// The mapping that a sequence of entries represents.  Later entries shadow
/// earlier ones, but the cache never stores two entries with one key.
pub open spec fn entries_map(s: Seq<CacheEntry>) -> Map<Seq<char>, CacheEntry>
    decreases s.len(),
{
    if s.len() == 0 {
        Map::empty()
    } else {
        entries_map(s.drop_last()).insert(s.last().key@, s.last())
    }
}

/// No two entries share a key.
pub open spec fn distinct_entry_keys(s: Seq<CacheEntry>) -> bool {
    forall|i: int, j: int| 0 <= i < j < s.len() ==> s[i].key@ != s[j].key@
}

proof fn lemma_entries_map_contains(s: Seq<CacheEntry>, k: Seq<char>)
    ensures
        entries_map(s).contains_key(k) <==> exists|i: int| 0 <= i < s.len() && s[i].key@ == k,
    decreases s.len(),
{
    if s.len() > 0 {
        lemma_entries_map_contains(s.drop_last(), k);
        if s.last().key@ == k {
            assert(s[s.len() - 1].key@ == k);
        } else {
            if entries_map(s).contains_key(k) {
                let i = choose|i: int|
                    0 <= i < s.drop_last().len() && s.drop_last()[i].key@ == k;
                assert(s[i].key@ == k);
            }
            if exists|i: int| 0 <= i < s.len() && s[i].key@ == k {
                let i = choose|i: int| 0 <= i < s.len() && s[i].key@ == k;
                assert(i < s.len() - 1);
                assert(s.drop_last()[i].key@ == k);
            }
        }
    }
}

proof fn lemma_entries_map_index(s: Seq<CacheEntry>, k: Seq<char>, i: int)
    requires
        distinct_entry_keys(s),
        0 <= i < s.len(),
        s[i].key@ == k,
    ensures
        entries_map(s).contains_key(k),
        entries_map(s)[k] == s[i],
    decreases s.len(),
{
    if i < s.len() - 1 {
        assert(distinct_entry_keys(s.drop_last())) by {
            assert(forall|m: int, n: int|
                0 <= m < n < s.drop_last().len() ==> s.drop_last()[m].key@ == s[m].key@
                    && s.drop_last()[n].key@ == s[n].key@);
        }
        lemma_entries_map_index(s.drop_last(), k, i);
        assert(s.last().key@ != k);
    }
}

proof fn lemma_entries_map_push(s: Seq<CacheEntry>, e: CacheEntry)
    ensures
        entries_map(s.push(e)) == entries_map(s).insert(e.key@, e),
{
    assert(s.push(e).drop_last() =~= s);
    assert(s.push(e).last() == e);
}

/// The generation that follows `g`: the counter advances on every clear and
/// never repeats the generation it leaves.
pub open spec fn next_generation(g: u64) -> u64 {
    if g == u64::MAX {
        0
    } else {
        (g + 1) as u64
    }
}

/// What an insert-if-absent does to a cache mapping: nothing if the key is
/// already present (and it reports `false`), otherwise it adds the entry
/// under its key.
pub open spec fn spec_insert_if_absent(
    m: Map<Seq<char>, CacheEntry>,
    e: CacheEntry,
) -> (Map<Seq<char>, CacheEntry>, bool) {
    if m.contains_key(e.key@) {
        (m, false)
    } else {
        (m.insert(e.key@, e), true)
    }
}

/// Idempotent insert, first writer wins: once `e1` is inserted under a fresh
/// key, a second insert of any `e2` under the same key changes nothing and
/// reports `false`; the cache retains `e1`.
pub proof fn lemma_insert_if_absent_idempotent(
    m: Map<Seq<char>, CacheEntry>,
    e1: CacheEntry,
    e2: CacheEntry,
)
    requires
        !m.contains_key(e1.key@),
        e2.key@ == e1.key@,
    ensures
        spec_insert_if_absent(m, e1).1,
        spec_insert_if_absent(m, e1).0[e1.key@] == e1,
        spec_insert_if_absent(spec_insert_if_absent(m, e1).0, e2).0 == spec_insert_if_absent(
            m,
            e1,
        ).0,
        !spec_insert_if_absent(spec_insert_if_absent(m, e1).0, e2).1,
{
}

/// The lock-free core of the concurrent content cache: the mapping itself,
/// with idempotent insertion and generation-tagged invalidation.  A driver
/// that decodes on worker threads wraps one of these in a mutex; entries are
/// immutable once inserted, so no finer locking is needed.
pub struct ContentCache {
    entries: Vec<CacheEntry>,
    generation: u64,
}

impl ContentCache {
    /// The mapping from canonical path to entry that the cache holds.
    pub closed spec fn mapping(self) -> Map<Seq<char>, CacheEntry> {
        entries_map(self.entries@)
    }

    /// The current directory generation.
    pub closed spec fn generation_id(self) -> u64 {
        self.generation
    }

    #[verifier::type_invariant]
    spec fn inv(self) -> bool {
        distinct_entry_keys(self.entries@)
    }

    /// An empty cache at generation 0.
    pub fn new() -> (r: Self)
        ensures
            r.mapping() == Map::<Seq<char>, CacheEntry>::empty(),
            r.generation_id() == 0,
    {
        ContentCache { entries: Vec::new(), generation: 0 }
    }

    /// The generation that entries must carry to be accepted now.
    pub fn current_generation(&self) -> (r: u64)
        ensures
            r == self.generation_id(),
    {
        self.generation
    }

    /// Whether an entry for `key` is present.
    pub fn contains(&self, key: &String) -> (r: bool)
        ensures
            r == self.mapping().contains_key(key@),
    {
        proof {
            lemma_entries_map_contains(self.entries@, key@);
        }
        let n = self.entries.len();
        let mut i: usize = 0;
        while i < n
            invariant
                n == self.entries@.len(),
                i <= n,
                forall|j: int| 0 <= j < i ==> self.entries@[j].key@ != key@,
            decreases n - i,
        {
            if self.entries[i].key == *key {
                proof {
                    lemma_entries_map_contains(self.entries@, key@);
                }
                return true;
            }
            i = i + 1;
        }
        false
    }

    /// Look up the entry for `key`.
    pub fn get(&self, key: &String) -> (r: Option<&CacheEntry>)
        ensures
            r is Some <==> self.mapping().contains_key(key@),
            r matches Some(e) ==> *e == self.mapping()[key@],
    {
        proof {
            lemma_entries_map_contains(self.entries@, key@);
        }
        let n = self.entries.len();
        let mut i: usize = 0;
        while i < n
            invariant
                n == self.entries@.len(),
                i <= n,
                forall|j: int| 0 <= j < i ==> self.entries@[j].key@ != key@,
            decreases n - i,
        {
            if self.entries[i].key == *key {
                proof {
                    use_type_invariant(&*self);
                    lemma_entries_map_index(self.entries@, key@, i as int);
                }
                return Some(&self.entries[i]);
            }
            i = i + 1;
        }
        None
    }

    /// Insert `entry` under its key unless the key is already cached or the
    /// result is stale (its `generation` is not the cache's current one).
    /// Returns whether the insert happened.
    pub fn insert_if_absent(&mut self, entry: CacheEntry, generation: u64) -> (r: bool)
        ensures
            final(self).generation_id() == old(self).generation_id(),
            generation != old(self).generation_id() ==> final(self).mapping() == old(
                self,
            ).mapping() && r == false,
            generation == old(self).generation_id() ==> final(self).mapping()
                == spec_insert_if_absent(old(self).mapping(), entry).0 && r
                == spec_insert_if_absent(old(self).mapping(), entry).1,
    {
        if generation != self.generation {
            return false;
        }
        if self.contains(&entry.key) {
            return false;
        }
        proof {
            use_type_invariant(&*self);
            lemma_entries_map_contains(self.entries@, entry.key@);
            lemma_entries_map_push(self.entries@, entry);
            assert(forall|j: int|
                0 <= j < self.entries@.len() ==> self.entries@[j].key@ != entry.key@);
            assert(distinct_entry_keys(self.entries@.push(entry)));
        }
        let mut es: Vec<CacheEntry> = Vec::new();
        core::mem::swap(&mut es, &mut self.entries);
        es.push(entry);
        self.entries = es;
        true
    }

    /// Drop every entry and advance the directory generation, so that decode
    /// results still in flight for the old directory are refused later.
    pub fn clear(&mut self)
        ensures
            final(self).mapping() == Map::<Seq<char>, CacheEntry>::empty(),
            final(self).generation_id() == next_generation(old(self).generation_id()),
            final(self).generation_id() != old(self).generation_id(),
    {
        self.entries = Vec::new();
        if self.generation == u64::MAX {
            self.generation = 0;
        } else {
            self.generation = self.generation + 1;
        }
    }
}

} // verus!
