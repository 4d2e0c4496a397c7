//! The process-lifetime cache of previously discovered large files.
//!
//! The cache is bounded and size-ranked: after every merge it holds at most
//! 1000 entries, sorted by descending size, the smallest beyond capacity
//! dropped.  It is consulted only to seed preview snapshots and is never
//! authoritative; stale entries are acceptable because previews are always
//! superseded by a fresh scan's own results.

use vstd::prelude::*;
use crate::paths::path_under;

verus! {

/// One remembered file: its absolute path and its size in bytes.
#[derive(Debug)]
pub struct CachedFile {
    pub path: String,
    pub size: u64,
}

/// Entries sorted by descending size.
pub open spec fn cache_sorted(s: Seq<CachedFile>) -> bool {
    forall|i: int, j: int| 0 <= i < j < s.len() ==> #[trigger] s[i].size >= #[trigger] s[j].size
}

/// The plain-value view of cache entries: path characters and size.
pub open spec fn cache_view(s: Seq<CachedFile>) -> Seq<(Seq<char>, u64)> {
    s.map_values(|c: CachedFile| (c.path@, c.size))
}

/// The entries of `s` whose path is the queried directory or lies inside
/// it, in order, one entry per path: when the cache holds a path more than
/// once, the first occurrence — in a sorted cache, the largest recorded
/// size — is the one reported.
pub open spec fn query_spec(s: Seq<(Seq<char>, u64)>, t: Seq<char>) -> Seq<(Seq<char>, u64)>
    decreases s.len(),
{
    if s.len() == 0 {
        Seq::empty()
    } else {
        let rest = query_spec(s.drop_last(), t);
        if path_under(s.last().0, t) && !crate::sizemap::has_key(rest, s.last().0) {
            rest.push(s.last())
        } else {
            rest
        }
    }
}

/// Whether some already-collected entry holds path `p`.
fn holds_path(v: &Vec<CachedFile>, p: &str) -> (r: bool)
    ensures
        r == crate::sizemap::has_key(cache_view(v@), p@),
{
    let mut i: usize = 0;
    while i < v.len()
        invariant
            i <= v@.len(),
            forall|j: int| 0 <= j < i ==> (#[trigger] cache_view(v@)[j]).0 != p@,
        decreases v@.len() - i,
    {
        if crate::paths::str_eq(v[i].path.as_str(), p) {
            proof {
                assert((cache_view(v@)[i as int]).0 == p@);
            }
            return true;
        }
        proof {
            assert((cache_view(v@)[i as int]).0 == v@[i as int].path@);
        }
        i = i + 1;
    }
    proof {
        if crate::sizemap::has_key(cache_view(v@), p@) {
            let j = choose|j: int|
                0 <= j < cache_view(v@).len() && (#[trigger] cache_view(v@)[j]).0 == p@;
        }
    }
    false
}

/// The bounded, size-ranked store of previously discovered files.
#[derive(Debug)]
pub struct FileCache {
    pub entries: Vec<CachedFile>,
}

impl FileCache {
    /// Sorted descending and within capacity.
    pub open spec fn wf(&self) -> bool {
        &&& cache_sorted(self.entries@)
        &&& self.entries@.len() <= 1000
    }

    /// An empty cache.
    pub fn new() -> (r: FileCache)
        ensures
            r.wf(),
            r.entries@.len() == 0,
    {
        FileCache { entries: Vec::new() }
    }

    /// Merge a batch of newly discovered files into the cache: the result
    /// holds the largest entries of the old cache and the batch together,
    /// sorted by descending size and truncated to capacity.
    pub fn add(&mut self, batch: Vec<CachedFile>)
        ensures
            final(self).wf(),
            final(self).entries@.len() == (if old(self).entries@.len() + batch@.len() <= 1000 {
                old(self).entries@.len() + batch@.len() as int
            } else {
                1000int
            }),
            // The kept entries are a sorted prefix of some descending
            // ordering of everything merged: eviction drops the smallest.
            exists|s: Seq<CachedFile>|
                {
                    &&& #[trigger] s.to_multiset() == (old(self).entries@
                        + batch@).to_multiset()
                    &&& cache_sorted(s)
                    &&& final(self).entries@ == s.take(final(self).entries@.len() as int)
                },
    {
        proof {
            broadcast use vstd::seq_lib::group_to_multiset_ensures;

        }
        let ghost mine = self.entries@;
        let mut batch = batch;
        let ghost given = batch@;
        self.entries.append(&mut batch);
        sort_cache_desc(&mut self.entries);
        let ghost sorted_all = self.entries@;
        if self.entries.len() > 1000 {
            self.entries.truncate(1000);
        }
        proof {
            assert(self.entries@ =~= sorted_all.take(self.entries@.len() as int));
            assert(sorted_all.to_multiset() == (mine + given).to_multiset());
            assert(cache_sorted(self.entries@)) by {
                assert(forall|k: int|
                    0 <= k < self.entries@.len() ==> self.entries@[k] == sorted_all[k]);
            }
        }
    }

    /// The cached entries relevant to `target`: those whose path is the
    /// directory itself or nested under it, reported once per path (the
    /// first — in a sorted cache, largest — recorded size wins).  Reading
    /// the cache changes nothing, and the result is a function of the
    /// entries and the query alone.
    pub fn query(&self, target: &str) -> (r: Vec<CachedFile>)
        ensures
            cache_view(r@) == query_spec(cache_view(self.entries@), target@),
    {
        let mut out: Vec<CachedFile> = Vec::new();
        let mut i: usize = 0;
        proof {
            assert(cache_view(out@) =~= query_spec(cache_view(self.entries@.take(0)), target@));
        }
        while i < self.entries.len()
            invariant
                i <= self.entries@.len(),
                cache_view(out@) == query_spec(cache_view(self.entries@.take(i as int)), target@),
            decreases self.entries@.len() - i,
        {
            let e = &self.entries[i];
            let keep = crate::paths::under(e.path.as_str(), target) && !holds_path(
                &out,
                e.path.as_str(),
            );
            let ghost prev = out@;
            if keep {
                let copy = CachedFile { path: String::from_str(e.path.as_str()), size: e.size };
                out.push(copy);
            }
            proof {
                let whole = cache_view(self.entries@.take(i + 1));
                assert(self.entries@.take(i + 1).drop_last() =~= self.entries@.take(i as int));
                assert(whole.drop_last() =~= cache_view(self.entries@.take(i as int)));
                assert(whole.last() == (self.entries@[i as int].path@, self.entries@[i as int].size));
                assert(whole.len() == i + 1);
                if keep {
                    assert(cache_view(out@) =~= query_spec(whole.drop_last(), target@).push(
                        whole.last(),
                    ));
                    assert(cache_view(out@) =~= query_spec(whole, target@));
                } else {
                    assert(cache_view(out@) =~= query_spec(whole, target@));
                }
            }
            i = i + 1;
        }
        proof {
            assert(self.entries@.take(self.entries@.len() as int) =~= self.entries@);
        }
        out
    }
}

/// Determinism of `query`: with the same cache contents and the same
/// target, two reads see the same entries; `query` takes the cache by
/// shared reference, so no read can change it.
pub proof fn lemma_query_deterministic(
    s: Seq<(Seq<char>, u64)>,
    t: Seq<char>,
    r1: Seq<(Seq<char>, u64)>,
    r2: Seq<(Seq<char>, u64)>,
)
    requires
        r1 == query_spec(s, t),
        r2 == query_spec(s, t),
    ensures
        r1 == r2,
{
}

/// Sort cache entries by descending size, keeping exactly the same entries.
pub fn sort_cache_desc(v: &mut Vec<CachedFile>)
    ensures
        cache_sorted(final(v)@),
        final(v)@.to_multiset() == old(v)@.to_multiset(),
        final(v)@.len() == old(v)@.len(),
{
    proof {
        broadcast use vstd::seq_lib::group_to_multiset_ensures;

    }
    let ghost orig = v@;
    if v.len() <= 1 {
        return ;
    }
    let mut i: usize = 1;
    while i < v.len()
        invariant
            1 <= i <= v@.len(),
            v@.len() == orig.len(),
            v@.to_multiset() == orig.to_multiset(),
            cache_sorted(v@.take(i as int)),
        decreases v@.len() - i,
    {
        proof {
            broadcast use vstd::seq_lib::group_to_multiset_ensures;

        }
        let ghost before = v@;
        let x = v.remove(i);
        proof {
            assert(before.to_multiset().contains(x));
        }
        let ghost removed = v@;
        let mut j: usize = 0;
        while j < i && v[j].size >= x.size
            invariant
                0 <= j <= i,
                i < before.len(),
                v@ == removed,
                removed == before.remove(i as int),
                forall|k: int| 0 <= k < j ==> #[trigger] removed[k].size >= x.size,
            decreases i - j,
        {
            j = j + 1;
        }
        proof {
            assert(j < i ==> removed[j as int].size < x.size);
        }
        v.insert(j, x);
        proof {
            assert(v@.to_multiset() == orig.to_multiset()) by {
                assert(v@.to_multiset() == removed.to_multiset().insert(x));
                assert(removed.to_multiset() == before.to_multiset().remove(x));
                assert(before.to_multiset().contains(x));
                assert(before.to_multiset().remove(x).insert(x) =~= before.to_multiset());
            }
            assert(cache_sorted(v@.take(i as int + 1))) by {
                assert forall|a: int, b: int| 0 <= a < b < i + 1 implies #[trigger] v@.take(
                    i as int + 1,
                )[a].size >= #[trigger] v@.take(i as int + 1)[b].size by {
                    assert(forall|k: int|
                        0 <= k < i ==> removed[k] == (if k < i {
                            before[k]
                        } else {
                            before[k + 1]
                        }));
                    assert(forall|k: int|
                        0 <= k < v@.len() ==> v@[k] == (if k < j {
                            removed[k]
                        } else if k == j {
                            x
                        } else {
                            removed[k - 1]
                        }));
                    assert(cache_sorted(before.take(i as int)));
                }
            }
        }
        i = i + 1;
    }
    proof {
        assert(v@.take(v@.len() as int) =~= v@);
    }
}

} // verus!
