//! Flat path-to-size maps.
//!
//! Discovery produces flat maps from absolute file paths to byte sizes and
//! from directory paths to aggregate sizes.  Both are scan-local and small,
//! so they are association vectors with unique keys, viewed as sequences of
//! path/size pairs.

use vstd::prelude::*;
use crate::paths::path_inside;
use crate::paths::direct_child;

verus! {

/// Some entry holds key `k`.
pub open spec fn has_key(s: Seq<(Seq<char>, u64)>, k: Seq<char>) -> bool {
    exists|i: int| 0 <= i < s.len() && (#[trigger] s[i]).0 == k
}

/// No two entries share a key.
pub open spec fn keys_unique(s: Seq<(Seq<char>, u64)>) -> bool {
    forall|i: int, j: int|
        0 <= i < j < s.len() ==> (#[trigger] s[i]).0 != (#[trigger] s[j]).0
}

/// The value stored at key `k`, `0` if absent.
pub open spec fn val_of(s: Seq<(Seq<char>, u64)>, k: Seq<char>) -> u64
    decreases s.len(),
{
    if s.len() == 0 {
        0u64
    } else if s.last().0 == k {
        s.last().1
    } else {
        val_of(s.drop_last(), k)
    }
}

/// Sum of all stored sizes.
pub open spec fn sum_vals(s: Seq<(Seq<char>, u64)>) -> int
    decreases s.len(),
{
    if s.len() == 0 {
        0
    } else {
        sum_vals(s.drop_last()) + s.last().1
    }
}

/// Sum of the sizes of entries whose key lies strictly inside directory `d`.
pub open spec fn sum_inside(s: Seq<(Seq<char>, u64)>, d: Seq<char>) -> int
    decreases s.len(),
{
    if s.len() == 0 {
        0
    } else {
        sum_inside(s.drop_last(), d) + (if path_inside(s.last().0, d) {
            s.last().1 as int
        } else {
            0
        })
    }
}

/// Sum of the sizes of entries whose key is a direct entry of `d`.
pub open spec fn sum_direct(s: Seq<(Seq<char>, u64)>, d: Seq<char>) -> int
    decreases s.len(),
{
    if s.len() == 0 {
        0
    } else {
        sum_direct(s.drop_last(), d) + (if direct_child(s.last().0, d) {
            s.last().1 as int
        } else {
            0
        })
    }
}

pub proof fn lemma_sums_nonneg(s: Seq<(Seq<char>, u64)>, d: Seq<char>)
    ensures
        sum_vals(s) >= 0,
        0 <= sum_inside(s, d) <= sum_vals(s),
        0 <= sum_direct(s, d) <= sum_inside(s, d),
    decreases s.len(),
{
    if s.len() > 0 {
        lemma_sums_nonneg(s.drop_last(), d);
    }
}

/// The value at a key that entry `i` holds, under unique keys.
pub proof fn lemma_val_at(s: Seq<(Seq<char>, u64)>, i: int)
    requires
        keys_unique(s),
        0 <= i < s.len(),
    ensures
        val_of(s, s[i].0) == s[i].1,
    decreases s.len(),
{
    if i == s.len() - 1 {
    } else {
        assert(s.last().0 != s[i].0);
        lemma_val_at(s.drop_last(), i);
        assert(s.drop_last()[i] == s[i]);
    }
}

/// An entry inside `d` bounds that directory's sum from below.
pub proof fn lemma_sum_inside_entry(s: Seq<(Seq<char>, u64)>, i: int, d: Seq<char>)
    requires
        0 <= i < s.len(),
        path_inside(s[i].0, d),
    ensures
        sum_inside(s, d) >= s[i].1,
    decreases s.len(),
{
    lemma_sums_nonneg(s.drop_last(), d);
    if i < s.len() - 1 {
        lemma_sum_inside_entry(s.drop_last(), i, d);
    }
}

/// Appending an entry adds its size to each sum it falls under.
pub proof fn lemma_sums_push(s: Seq<(Seq<char>, u64)>, e: (Seq<char>, u64), d: Seq<char>)
    ensures
        sum_vals(s.push(e)) == sum_vals(s) + e.1,
        sum_inside(s.push(e), d) == sum_inside(s, d) + (if path_inside(e.0, d) {
            e.1 as int
        } else {
            0
        }),
        sum_direct(s.push(e), d) == sum_direct(s, d) + (if direct_child(e.0, d) {
            e.1 as int
        } else {
            0
        }),
{
    assert(s.push(e).drop_last() =~= s);
    assert(s.push(e).last() == e);
    assert(s.push(e).len() == s.len() + 1);
}

/// Raising one entry's size by `delta` raises each sum its key falls under
/// by `delta`.
pub proof fn lemma_sums_update(
    s: Seq<(Seq<char>, u64)>,
    j: int,
    v: u64,
    d: Seq<char>,
)
    requires
        0 <= j < s.len(),
        s[j].1 <= v,
    ensures
        sum_vals(s.update(j, (s[j].0, v))) == sum_vals(s) + v - s[j].1,
        sum_inside(s.update(j, (s[j].0, v)), d) == sum_inside(s, d) + (if path_inside(
            s[j].0,
            d,
        ) {
            v - s[j].1
        } else {
            0int
        }),
    decreases s.len(),
{
    let s2 = s.update(j, (s[j].0, v));
    assert(s2.len() == s.len());
    if j == s.len() - 1 {
        assert(s2.drop_last() =~= s.drop_last());
        assert(s2.last() == (s[j].0, v));
    } else {
        assert(s2.drop_last() =~= s.drop_last().update(j, (s[j].0, v)));
        assert(s.drop_last()[j] == s[j]);
        lemma_sums_update(s.drop_last(), j, v, d);
        assert(s2.last() == s.last());
    }
}

/// A flat map from absolute paths to sizes, keyed uniquely.
#[derive(Debug)]
pub struct SizeMap {
    pub entries: Vec<(String, u64)>,
}

impl View for SizeMap {
    type V = Seq<(Seq<char>, u64)>;

    open spec fn view(&self) -> Seq<(Seq<char>, u64)> {
        self.entries@.map_values(|e: (String, u64)| (e.0@, e.1))
    }
}

impl SizeMap {
    /// Unique keys.
    pub open spec fn wf(&self) -> bool {
        keys_unique(self@)
    }

    /// An empty map.
    pub fn new() -> (r: SizeMap)
        ensures
            r.wf(),
            r@.len() == 0,
    {
        SizeMap { entries: Vec::new() }
    }

    /// Number of entries.
    pub fn len(&self) -> (r: usize)
        ensures
            r == self@.len(),
    {
        self.entries.len()
    }

    /// Whether some entry holds key `k`.
    pub fn contains_path(&self, k: &str) -> (r: bool)
        ensures
            r == has_key(self@, k@),
    {
        let mut i: usize = 0;
        while i < self.entries.len()
            invariant
                i <= self.entries@.len(),
                self@.len() == self.entries@.len(),
                forall|j: int| 0 <= j < i ==> (#[trigger] self@[j]).0 != k@,
            decreases self.entries@.len() - i,
        {
            if crate::paths::str_eq(self.entries[i].0.as_str(), k) {
                proof {
                    assert((self@[i as int]).0 == k@);
                }
                return true;
            }
            i = i + 1;
        }
        false
    }

    /// The stored value at `k`, if any entry holds it.
    pub fn get(&self, k: &str) -> (r: Option<u64>)
        requires
            self.wf(),
        ensures
            has_key(self@, k@) ==> r == Option::Some(val_of(self@, k@)),
            !has_key(self@, k@) ==> r is None,
    {
        let mut i: usize = 0;
        while i < self.entries.len()
            invariant
                i <= self.entries@.len(),
                self@.len() == self.entries@.len(),
                self.wf(),
                forall|j: int| 0 <= j < i ==> (#[trigger] self@[j]).0 != k@,
            decreases self.entries@.len() - i,
        {
            if crate::paths::str_eq(self.entries[i].0.as_str(), k) {
                proof {
                    assert((self@[i as int]).0 == k@);
                    lemma_val_at(self@, i as int);
                }
                return Option::Some(self.entries[i].1);
            }
            i = i + 1;
        }
        Option::None
    }

    /// Record a key seen for the first time.
    pub fn insert_new(&mut self, k: String, v: u64)
        requires
            old(self).wf(),
            !has_key(old(self)@, k@),
        ensures
            final(self).wf(),
            final(self)@ == old(self)@.push((k@, v)),
    {
        let ghost pre = self@;
        self.entries.push((k, v));
        proof {
            assert(self@ =~= pre.push((k@, v)));
            assert forall|i: int, j: int| 0 <= i < j < self@.len() implies (
            #[trigger] self@[i]).0 != (#[trigger] self@[j]).0 by {
                if j == self@.len() - 1 {
                    assert(!has_key(pre, k@));
                    assert(0 <= i < pre.len() && (pre[i]).0 == pre[i].0);
                }
            }
        }
    }

    /// Add `delta` to the size stored at `k`, creating the entry at `delta`
    /// when absent.
    pub fn add_to(&mut self, k: &str, delta: u64)
        requires
            old(self).wf(),
            forall|j: int|
                0 <= j < old(self)@.len() && (#[trigger] old(self)@[j]).0 == k@ ==> old(
                    self,
                )@[j].1 + delta <= u64::MAX,
        ensures
            final(self).wf(),
            has_key(old(self)@, k@) ==> exists|j: int|
                {
                    &&& 0 <= j < old(self)@.len()
                    &&& (#[trigger] old(self)@[j]).0 == k@
                    &&& final(self)@ == old(self)@.update(
                        j,
                        (old(self)@[j].0, (old(self)@[j].1 + delta) as u64),
                    )
                },
            !has_key(old(self)@, k@) ==> final(self)@ == old(self)@.push((k@, delta)),
    {
        let ghost pre = self@;
        let mut i: usize = 0;
        while i < self.entries.len()
            invariant
                i <= self.entries@.len(),
                self@ == pre,
                pre == old(self)@,
                self@.len() == self.entries@.len(),
                self.wf(),
                forall|j: int| 0 <= j < i ==> (#[trigger] self@[j]).0 != k@,
                forall|j: int|
                    0 <= j < pre.len() && (#[trigger] pre[j]).0 == k@ ==> pre[j].1 + delta
                        <= u64::MAX,
            decreases self.entries@.len() - i,
        {
            if crate::paths::str_eq(self.entries[i].0.as_str(), k) {
                proof {
                    assert((self@[i as int]).0 == k@);
                }
                let old_v = self.entries[i].1;
                let cloned = self.entries[i].0.clone();
                self.entries.set(i, (cloned, old_v + delta));
                proof {
                    assert(self@ =~= pre.update(i as int, (pre[i as int].0, (pre[i as int].1
                        + delta) as u64)));
                    assert forall|a: int, b: int| 0 <= a < b < self@.len() implies (
                    #[trigger] self@[a]).0 != (#[trigger] self@[b]).0 by {
                        assert(pre[a].0 != pre[b].0);
                    }
                    let jj = i as int;
                    assert(0 <= jj < pre.len() && (#[trigger] pre[jj]).0 == k@ && self@
                        == pre.update(jj, (pre[jj].0, (pre[jj].1 + delta) as u64)));
                    assert(has_key(pre, k@));
                }
                return ;
            }
            i = i + 1;
        }
        let owned = String::from_str(k);
        let ghost pre2 = self@;
        self.entries.push((owned, delta));
        proof {
            assert(self@ =~= pre.push((k@, delta)));
            assert forall|a: int, b: int| 0 <= a < b < self@.len() implies (
            #[trigger] self@[a]).0 != (#[trigger] self@[b]).0 by {
                if b == self@.len() - 1 {
                    assert(pre[a].0 != k@);
                }
            }
        }
    }
}

} // verus!
