//! Scan sessions: multi-pass indexed discovery and the fallback scanner.
//!
//! The sessions hold the per-scan state and make every decision; callers
//! run the outside work (index queries, size-summary tools, metadata
//! lookups), handing each result back as plain values.  Cancellation is
//! observed at the checkpoints the methods define: pass boundaries for the
//! indexed scanner, per line for the fallback scanner.

use vstd::prelude::*;
use crate::ScanError;
use crate::ScanState;
use crate::node::FileNode;
use crate::node::kids;
use crate::node::sum_child_sizes;
use crate::node::sorted_desc;
use crate::node::wf_node;
use crate::paths::is_canonical_path;
use crate::paths::path_inside;
use crate::paths::path_under;
use crate::paths::root_seq;
use crate::paths::parent_of;
use crate::paths::lemma_parent_canonical;
use crate::paths::lemma_ancestor_chain;
use crate::paths::lemma_inside_trans;
use crate::sizemap::SizeMap;
use crate::sizemap::has_key;
use crate::sizemap::sum_vals;
use crate::sizemap::sum_inside;
use crate::sizemap::lemma_sums_nonneg;
use crate::cache::FileCache;
use crate::tree::files_inside;
use crate::tree::dirs_coherent;

verus! {

/// The minimum-size threshold of each discovery pass, in bytes: 100 MB,
/// 50 MB, 10 MB, 5 MB.
pub open spec fn pass_threshold_spec(i: int) -> int {
    if i == 0 {
        104857600
    } else if i == 1 {
        52428800
    } else if i == 2 {
        10485760
    } else {
        5242880
    }
}

/// Number of discovery passes.
pub open spec fn pass_count_spec() -> int {
    4
}

/// The thresholds strictly decrease from pass to pass: later passes only
/// ever widen the search downward.
pub proof fn lemma_thresholds_decreasing(i: int, j: int)
    requires
        0 <= i < j < pass_count_spec(),
    ensures
        pass_threshold_spec(i) > pass_threshold_spec(j),
{
}

/// Expand a literal `~` to the home directory; any other path is kept.
pub fn normalize_root(path: &str, home: &str) -> (r: String)
    ensures
        path@ == "~"@ ==> r@ == home@,
        path@ != "~"@ ==> r@ == path@,
{
    if crate::paths::str_eq(path, "~") {
        String::from_str(home)
    } else {
        String::from_str(path)
    }
}

/// Every directory between `p` and `root`, from the parent of `p` up to
/// `root` itself: exactly the canonical directories under `root` that
/// strictly contain `p`, each listed once.
fn ancestors_under(p: &str, root: &str) -> (r: Vec<String>)
    requires
        is_canonical_path(p@),
        is_canonical_path(root@),
        path_inside(p@, root@),
    ensures
        forall|t: int|
            0 <= t < r@.len() ==> {
                &&& is_canonical_path((#[trigger] r@[t])@)
                &&& path_inside(p@, r@[t]@)
                &&& path_under(r@[t]@, root@)
            },
        forall|d: Seq<char>|
            is_canonical_path(d) && path_inside(p@, d) && path_under(d, root@) ==> exists|t: int|
                0 <= t < r@.len() && (#[trigger] r@[t])@ == d,
        forall|t: int, u: int| 0 <= t < u < r@.len() ==> (#[trigger] r@[t])@.len() > (
        #[trigger] r@[u])@.len(),
{
    let mut r: Vec<String> = Vec::new();
    let mut cur: String = String::from_str(p);
    proof {
        assert(path_inside(p@, root@) ==> p@ != root@) by {
            if p@ == root@ {
                if root@ == root_seq() {
                    assert(p@.len() > 1 && p@.len() == 1);
                }
            }
        }
    }
    while !crate::paths::str_eq(cur.as_str(), root)
        invariant
            is_canonical_path(p@),
            is_canonical_path(root@),
            path_inside(p@, root@),
            is_canonical_path(cur@),
            path_under(cur@, root@),
            cur@ == p@ || path_inside(p@, cur@),
            cur@ != p@ ==> r@.len() > 0 && r@[r@.len() - 1]@ == cur@,
            cur@ == p@ ==> r@.len() == 0,
            forall|t: int|
                0 <= t < r@.len() ==> {
                    &&& is_canonical_path((#[trigger] r@[t])@)
                    &&& path_inside(p@, r@[t]@)
                    &&& path_under(r@[t]@, root@)
                },
            forall|t: int, u: int| 0 <= t < u < r@.len() ==> (#[trigger] r@[t])@.len() > (
            #[trigger] r@[u])@.len(),
            forall|d: Seq<char>|
                is_canonical_path(d) && path_inside(p@, d) && path_under(d, root@) ==> (exists|
                t: int|
                    0 <= t < r@.len() && (#[trigger] r@[t])@ == d) || cur@ == d || path_inside(
                    cur@,
                    d,
                ),
        decreases cur@.len(),
    {
        proof {
            assert(cur@ != root@);
            assert(path_inside(cur@, root@));
            assert(cur@ != root_seq()) by {
                if cur@ == root_seq() {
                    if root@ == root_seq() {
                        assert(cur@ == root@);
                    } else {
                        assert(cur@.len() > root@.len());
                        assert(root@.len() < 1);
                    }
                }
            }
            lemma_parent_canonical(cur@);
        }
        let par = match crate::paths::parent_dir(cur.as_str()) {
            Option::Some(q) => q,
            Option::None => {
                proof {
                    assert(false);
                }
                unreached()
            },
        };
        let ghost prev = r@;
        let ghost prev_cur = cur@;
        r.push(par.clone());
        cur = par;
        proof {
            let q = prev_cur;
            assert(cur@ == parent_of(q)->Some_0);
            // The new entry contains p and sits under root.
            assert(path_inside(q, cur@));
            assert(path_inside(p@, cur@)) by {
                if q != p@ {
                    lemma_inside_trans(p@, q, cur@);
                }
            }
            assert(path_under(cur@, root@)) by {
                lemma_ancestor_chain(q, root@);
            }
            // Lengths keep strictly decreasing.
            assert(forall|t: int|
                0 <= t < prev.len() ==> (#[trigger] prev[t])@.len() >= q.len()) by {
                if prev.len() > 0 {
                    assert(prev[prev.len() - 1]@ == q);
                }
            }
            assert(cur@.len() < q.len());
            assert forall|t: int, u: int| 0 <= t < u < r@.len() implies (#[trigger] r@[t])@.len()
                > (#[trigger] r@[u])@.len() by {
                if u < r@.len() - 1 {
                    assert(r@[t] == prev[t] && r@[u] == prev[u]);
                } else {
                    assert(r@[u]@ == cur@);
                    if t < prev.len() {
                        assert(r@[t] == prev[t]);
                    }
                }
            }
            // Whatever is not yet listed still lies at or below cur.
            assert forall|d: Seq<char>|
                is_canonical_path(d) && path_inside(p@, d) && path_under(d, root@) implies (exists|
            t: int|
                0 <= t < r@.len() && (#[trigger] r@[t])@ == d) || cur@ == d || path_inside(
                cur@,
                d,
            ) by {
                let listed_before = exists|t: int|
                    0 <= t < prev.len() && (#[trigger] prev[t])@ == d;
                if listed_before {
                    let t = choose|t: int| 0 <= t < prev.len() && (#[trigger] prev[t])@ == d;
                    assert(r@[t] == prev[t]);
                } else if q == d {
                    // q was the previous cur: it is in prev unless q == p,
                    // and d strictly inside p rules the latter out.
                    if q == p@ {
                        assert(path_inside(p@, d) && d == p@);
                        assert(d.len() < p@.len()) by {
                            if d == root_seq() {
                            }
                        }
                    } else {
                        assert(prev[prev.len() - 1]@ == q);
                        assert(r@[prev.len() - 1]@ == d);
                    }
                } else if path_inside(q, d) {
                    lemma_ancestor_chain(q, d);
                    if d == parent_of(q)->Some_0 {
                        assert(r@[r@.len() - 1]@ == cur@);
                    }
                }
            }
        }
    }
    proof {
        assert(cur@ == root@);
        assert forall|d: Seq<char>|
            is_canonical_path(d) && path_inside(p@, d) && path_under(d, root@) implies exists|
        t: int|
            0 <= t < r@.len() && (#[trigger] r@[t])@ == d by {
            let listed = exists|t: int| 0 <= t < r@.len() && (#[trigger] r@[t])@ == d;
            if !listed {
                if cur@ == d {
                    // d is the root itself, which the walk pushed last.
                    assert(p@ != root@);
                    assert(cur@ != p@);
                    assert(r@[r@.len() - 1]@ == cur@);
                } else {
                    // Nothing under the root strictly contains the root.
                    assert(path_inside(root@, d));
                    if d == root@ {
                        assert(root@.len() > d.len() || (d == root_seq() && root@.len() > 1));
                        assert(false);
                    } else {
                        assert(path_inside(d, root@));
                        if d == root_seq() {
                            assert(root@.len() > 1);
                            assert(d.len() > root@.len());
                        } else if root@ == root_seq() {
                            assert(d.len() > 1 && root@.len() > d.len());
                        } else {
                            assert(root@.len() > d.len() && d.len() > root@.len());
                        }
                        assert(false);
                    }
                }
            }
        }
    }
    r
}

/// Key `key` occurs among the first `k` ancestors.
pub open spec fn in_prefix(anc: Seq<String>, k: int, key: Seq<char>) -> bool {
    exists|t: int| 0 <= t < k && (#[trigger] anc[t])@ == key
}

/// One multi-pass indexed-search scan: the root and home paths, the pass
/// counter, the cumulative file map, the directory aggregate map, and the
/// running total of discovered bytes.
#[derive(Debug)]
pub struct IndexedScan {
    pub root: String,
    pub home: String,
    pub pass_idx: usize,
    pub files: SizeMap,
    pub dirs: SizeMap,
    pub total: u64,
}

impl IndexedScan {
    /// The session invariant: unique canonical keys, every file inside the
    /// root, every directory aggregate exactly the sum of the files inside
    /// that directory, the running total exact, and no directory under the
    /// root missing from the map while files lie inside it.
    pub open spec fn wf(&self) -> bool {
        &&& is_canonical_path(self.root@)
        &&& self.files.wf()
        &&& self.dirs.wf()
        &&& files_inside(self.files@, self.root@)
        &&& dirs_coherent(self.dirs@, self.files@, self.root@)
        &&& self.total == sum_vals(self.files@)
        &&& forall|d: Seq<char>|
            is_canonical_path(d) && path_under(d, self.root@) && !has_key(self.dirs@, d)
                ==> #[trigger] sum_inside(self.files@, d) == 0
    }

    /// A fresh session over canonical `root`.
    pub fn new(root: String, home: String) -> (r: IndexedScan)
        requires
            is_canonical_path(root@),
        ensures
            r.wf(),
            r.root@ == root@,
            r.home@ == home@,
            r.pass_idx == 0,
            r.files@.len() == 0,
            r.total == 0,
    {
        let r = IndexedScan {
            root,
            home,
            pass_idx: 0,
            files: SizeMap::new(),
            dirs: SizeMap::new(),
            total: 0,
        };
        proof {
            assert(sum_vals(r.files@) == 0);
            assert forall|d: Seq<char>|
                is_canonical_path(d) && path_under(d, r.root@) && !has_key(r.dirs@, d)
                    implies #[trigger] sum_inside(r.files@, d) == 0 by {
                assert(r.files@.len() == 0);
            }
        }
        r
    }

    /// Begin the next discovery pass.  At this checkpoint a cancelled scan
    /// stops with `Cancelled`; otherwise the pass threshold is handed out
    /// until the passes are exhausted.
    pub fn next_pass(&mut self, st: &ScanState) -> (r: Result<Option<u64>, ScanError>)
        requires
            old(self).wf(),
        ensures
            final(self).wf(),
            st.cancelled ==> r == Result::<Option<u64>, ScanError>::Err(ScanError::Cancelled)
                && *final(self) == *old(self),
            !st.cancelled && old(self).pass_idx >= pass_count_spec() ==> r == Result::<
                Option<u64>,
                ScanError,
            >::Ok(Option::<u64>::None) && *final(self) == *old(self),
            !st.cancelled && old(self).pass_idx < pass_count_spec() ==> {
                &&& r == Result::<Option<u64>, ScanError>::Ok(
                    Option::Some(pass_threshold_spec(old(self).pass_idx as int) as u64),
                )
                &&& final(self).pass_idx == old(self).pass_idx + 1
                &&& final(self).root == old(self).root
                &&& final(self).home == old(self).home
                &&& final(self).files == old(self).files
                &&& final(self).dirs == old(self).dirs
                &&& final(self).total == old(self).total
            },
    {
        if st.is_cancelled() {
            return Result::Err(ScanError::Cancelled);
        }
        if self.pass_idx >= 4 {
            return Result::Ok(Option::None);
        }
        let th: u64 = if self.pass_idx == 0 {
            104857600
        } else if self.pass_idx == 1 {
            52428800
        } else if self.pass_idx == 2 {
            10485760
        } else {
            5242880
        };
        self.pass_idx = self.pass_idx + 1;
        Result::Ok(Option::Some(th))
    }

    /// Take in one resolved index hit.  A hit is kept when its path is
    /// canonical, lies strictly inside the root and was not seen before
    /// (deduplication against earlier passes and the preview seed), and
    /// the running total stays within range; a kept file's size is added
    /// to every ancestor directory's aggregate up to the root.  Anything
    /// else is skipped.
    pub fn ingest_hit(&mut self, path: &str, size: u64)
        requires
            old(self).wf(),
        ensures
            final(self).wf(),
            final(self).root == old(self).root,
            final(self).home == old(self).home,
            final(self).pass_idx == old(self).pass_idx,
            ({
                let nf = final(self).files@;
                let nt = final(self).total;
                let of = old(self).files@;
                let ot = old(self).total;
                let acc = is_canonical_path(path@) && path_inside(path@, old(self).root@)
                    && !has_key(of, path@) && sum_vals(of) + size <= u64::MAX;
                &&& (acc ==> nf == of.push((path@, size)) && nt == ot + size)
                &&& (!acc ==> nf == of && nt == ot)
            }),
    {
        if !crate::paths::is_canonical(path) {
            return ;
        }
        if !crate::paths::inside(path, self.root.as_str()) {
            return ;
        }
        if self.files.contains_path(path) {
            return ;
        }
        if size > u64::MAX - self.total {
            return ;
        }
        let anc = ancestors_under(path, self.root.as_str());
        let ghost files0 = self.files@;
        let ghost rootv = self.root@;
        let ghost root0 = self.root;
        let ghost home0 = self.home;
        let ghost pass0 = self.pass_idx;
        let ghost total0 = self.total;
        let ghost fstruct0 = self.files;
        let mut k: usize = 0;
        while k < anc.len()
            invariant
                k <= anc@.len(),
                self.root@ == rootv,
                self.files@ == files0,
                self.root == root0,
                self.home == home0,
                self.pass_idx == pass0,
                self.total == total0,
                self.files == fstruct0,
                total0 == sum_vals(files0),
                size <= u64::MAX - total0,
                is_canonical_path(rootv),
                is_canonical_path(path@),
                path_inside(path@, rootv),
                self.files.wf(),
                files_inside(files0, rootv),
                sum_vals(files0) + size <= u64::MAX,
                !has_key(files0, path@),
                forall|t: int|
                    0 <= t < anc@.len() ==> {
                        &&& is_canonical_path((#[trigger] anc@[t])@)
                        &&& path_inside(path@, anc@[t]@)
                        &&& path_under(anc@[t]@, rootv)
                    },
                forall|d: Seq<char>|
                    is_canonical_path(d) && path_inside(path@, d) && path_under(d, rootv)
                        ==> in_prefix(anc@, anc@.len() as int, d),
                forall|t: int, u: int| 0 <= t < u < anc@.len() ==> (#[trigger] anc@[t])@.len() > (
                #[trigger] anc@[u])@.len(),
                self.dirs.wf(),
                forall|j: int|
                    0 <= j < self.dirs@.len() ==> {
                        &&& is_canonical_path((#[trigger] self.dirs@[j]).0)
                        &&& path_under(self.dirs@[j].0, rootv)
                        &&& self.dirs@[j].1 == sum_inside(files0, self.dirs@[j].0) + (
                        if in_prefix(anc@, k as int, self.dirs@[j].0) {
                            size as int
                        } else {
                            0
                        })
                    },
                forall|t: int| 0 <= t < k ==> has_key(self.dirs@, (#[trigger] anc@[t])@),
                forall|d: Seq<char>|
                    is_canonical_path(d) && path_under(d, rootv) && !has_key(self.dirs@, d)
                        ==> #[trigger] sum_inside(files0, d) == 0,
            decreases anc@.len() - k,
        {
            let akey: &str = anc[k].as_str();
            proof {
                lemma_sums_nonneg(files0, akey@);
                assert forall|j: int|
                    0 <= j < self.dirs@.len() && (#[trigger] self.dirs@[j]).0 == akey@ implies self.dirs@[j].1
                    + size <= u64::MAX by {
                    assert(!in_prefix(anc@, k as int, akey@)) by {
                        if in_prefix(anc@, k as int, akey@) {
                            let t = choose|t: int|
                                0 <= t < k && (#[trigger] anc@[t])@ == akey@;
                            assert(anc@[t]@.len() > anc@[k as int]@.len());
                        }
                    }
                }
            }
            let ghost dprev = self.dirs@;
            self.dirs.add_to(akey, size);
            proof {
                assert(!in_prefix(anc@, k as int, akey@)) by {
                    if in_prefix(anc@, k as int, akey@) {
                        let t = choose|t: int| 0 <= t < k && (#[trigger] anc@[t])@ == akey@;
                        assert(anc@[t]@.len() > anc@[k as int]@.len());
                    }
                }
                if has_key(dprev, akey@) {
                    let j0 = choose|j0: int|
                        {
                            &&& 0 <= j0 < dprev.len()
                            &&& (#[trigger] dprev[j0]).0 == akey@
                            &&& self.dirs@ == dprev.update(
                                j0,
                                (dprev[j0].0, (dprev[j0].1 + size) as u64),
                            )
                        };
                    assert forall|j: int| 0 <= j < self.dirs@.len() implies {
                        &&& is_canonical_path((#[trigger] self.dirs@[j]).0)
                        &&& path_under(self.dirs@[j].0, rootv)
                        &&& self.dirs@[j].1 == sum_inside(files0, self.dirs@[j].0) + (
                        if in_prefix(anc@, k + 1, self.dirs@[j].0) {
                            size as int
                        } else {
                            0
                        })
                    } by {
                        if j == j0 {
                            assert(in_prefix(anc@, k + 1, self.dirs@[j].0)) by {
                                assert((anc@[k as int])@ == self.dirs@[j].0);
                            }
                        } else {
                            assert(self.dirs@[j] == dprev[j]);
                            assert(dprev[j].0 != akey@);
                            assert(in_prefix(anc@, k + 1, dprev[j].0) == in_prefix(
                                anc@,
                                k as int,
                                dprev[j].0,
                            )) by {
                                if in_prefix(anc@, k + 1, dprev[j].0) {
                                    let t = choose|t: int|
                                        0 <= t < k + 1 && (#[trigger] anc@[t])@ == dprev[j].0;
                                    assert(t < k);
                                }
                                if in_prefix(anc@, k as int, dprev[j].0) {
                                    let t = choose|t: int|
                                        0 <= t < k && (#[trigger] anc@[t])@ == dprev[j].0;
                                }
                            }
                        }
                    }
                    assert forall|t: int| 0 <= t < k + 1 implies has_key(
                        self.dirs@,
                        (#[trigger] anc@[t])@,
                    ) by {
                        if t < k {
                            let jt = choose|jt: int|
                                0 <= jt < dprev.len() && (#[trigger] dprev[jt]).0 == anc@[t]@;
                            assert((self.dirs@[jt]).0 == anc@[t]@);
                        } else {
                            assert((self.dirs@[j0]).0 == akey@);
                        }
                    }
                    assert forall|d: Seq<char>|
                        is_canonical_path(d) && path_under(d, rootv) && !has_key(
                            self.dirs@,
                            d,
                        ) implies #[trigger] sum_inside(files0, d) == 0 by {
                        assert(!has_key(dprev, d)) by {
                            if has_key(dprev, d) {
                                let jd = choose|jd: int|
                                    0 <= jd < dprev.len() && (#[trigger] dprev[jd]).0 == d;
                                assert((self.dirs@[jd]).0 == d);
                            }
                        }
                    }
                } else {
                    assert(self.dirs@ == dprev.push((akey@, size)));
                    assert(sum_inside(files0, akey@) == 0);
                    assert forall|j: int| 0 <= j < self.dirs@.len() implies {
                        &&& is_canonical_path((#[trigger] self.dirs@[j]).0)
                        &&& path_under(self.dirs@[j].0, rootv)
                        &&& self.dirs@[j].1 == sum_inside(files0, self.dirs@[j].0) + (
                        if in_prefix(anc@, k + 1, self.dirs@[j].0) {
                            size as int
                        } else {
                            0
                        })
                    } by {
                        if j == self.dirs@.len() - 1 {
                            assert(self.dirs@[j] == (akey@, size));
                            assert(in_prefix(anc@, k + 1, akey@)) by {
                                assert((anc@[k as int])@ == akey@);
                            }
                        } else {
                            assert(self.dirs@[j] == dprev[j]);
                            assert(dprev[j].0 != akey@) by {
                                if dprev[j].0 == akey@ {
                                    assert(has_key(dprev, akey@));
                                }
                            }
                            assert(in_prefix(anc@, k + 1, dprev[j].0) == in_prefix(
                                anc@,
                                k as int,
                                dprev[j].0,
                            )) by {
                                if in_prefix(anc@, k + 1, dprev[j].0) {
                                    let t = choose|t: int|
                                        0 <= t < k + 1 && (#[trigger] anc@[t])@ == dprev[j].0;
                                    assert(t < k);
                                }
                                if in_prefix(anc@, k as int, dprev[j].0) {
                                    let t = choose|t: int|
                                        0 <= t < k && (#[trigger] anc@[t])@ == dprev[j].0;
                                }
                            }
                        }
                    }
                    assert forall|t: int| 0 <= t < k + 1 implies has_key(
                        self.dirs@,
                        (#[trigger] anc@[t])@,
                    ) by {
                        if t < k {
                            let jt = choose|jt: int|
                                0 <= jt < dprev.len() && (#[trigger] dprev[jt]).0 == anc@[t]@;
                            assert((self.dirs@[jt]).0 == anc@[t]@);
                        } else {
                            assert((self.dirs@[self.dirs@.len() - 1]).0 == akey@);
                        }
                    }
                    assert forall|d: Seq<char>|
                        is_canonical_path(d) && path_under(d, rootv) && !has_key(
                            self.dirs@,
                            d,
                        ) implies #[trigger] sum_inside(files0, d) == 0 by {
                        assert(!has_key(dprev, d)) by {
                            if has_key(dprev, d) {
                                let jd = choose|jd: int|
                                    0 <= jd < dprev.len() && (#[trigger] dprev[jd]).0 == d;
                                assert((self.dirs@[jd]).0 == d);
                            }
                        }
                    }
                }
            }
            k = k + 1;
        }
        let ghost dirs1 = self.dirs@;
        self.files.insert_new(String::from_str(path), size);
        self.total = self.total + size;
        proof {
            let e = (path@, size);
            assert(self.files@ == files0.push(e));
            crate::sizemap::lemma_sums_push(files0, e, rootv);
            assert(files_inside(self.files@, rootv)) by {
                assert(forall|j: int|
                    0 <= j < files0.len() ==> self.files@[j] == #[trigger] files0[j]);
                assert(self.files@[files0.len() as int] == e);
            }
            assert(dirs_coherent(dirs1, self.files@, rootv)) by {
                assert forall|j: int| 0 <= j < dirs1.len() implies {
                    &&& is_canonical_path((#[trigger] dirs1[j]).0)
                    &&& path_under(dirs1[j].0, rootv)
                    &&& dirs1[j].1 == sum_inside(self.files@, dirs1[j].0)
                } by {
                    let key = dirs1[j].0;
                    crate::sizemap::lemma_sums_push(files0, e, key);
                    if in_prefix(anc@, anc@.len() as int, key) {
                        let t = choose|t: int|
                            0 <= t < anc@.len() && (#[trigger] anc@[t])@ == key;
                        assert(path_inside(path@, key));
                    } else {
                        assert(!path_inside(path@, key)) by {
                            if path_inside(path@, key) {
                                assert(in_prefix(anc@, anc@.len() as int, key));
                            }
                        }
                    }
                }
            }
            assert forall|d: Seq<char>|
                is_canonical_path(d) && path_under(d, self.root@) && !has_key(
                    self.dirs@,
                    d,
                ) implies #[trigger] sum_inside(self.files@, d) == 0 by {
                assert(sum_inside(files0, d) == 0);
                crate::sizemap::lemma_sums_push(files0, e, d);
                assert(!path_inside(path@, d)) by {
                    if path_inside(path@, d) {
                        assert(in_prefix(anc@, anc@.len() as int, d));
                        let t = choose|t: int| 0 <= t < anc@.len() && (#[trigger] anc@[t])@ == d;
                        assert(has_key(self.dirs@, d));
                    }
                }
            }
        }
    }

    /// A session's maps attribute every file: the ancestor walk created a
    /// directory entry for each direct subdirectory holding discovered
    /// bytes, so nothing of weight escapes the regions.
    proof fn lemma_session_covered(
        dirs: Seq<(Seq<char>, u64)>,
        files: Seq<(Seq<char>, u64)>,
        root: Seq<char>,
    )
        requires
            is_canonical_path(root),
            files_inside(files, root),
            forall|d: Seq<char>|
                is_canonical_path(d) && path_under(d, root) && !has_key(dirs, d)
                    ==> #[trigger] sum_inside(files, d) == 0,
        ensures
            crate::tree::files_covered(dirs, files, root),
    {
        assert forall|i: int|
            0 <= i < files.len() implies crate::paths::direct_child((#[trigger] files[i]).0, root)
            || crate::tree::covered(dirs, files[i].0, root) || files[i].1 == 0 by {
            let p = files[i].0;
            if !crate::paths::direct_child(p, root) && files[i].1 > 0 {
                crate::paths::lemma_child_split(p, root);
                let a = choose|a: Seq<char>|
                    {
                        &&& is_canonical_path(a)
                        &&& #[trigger] path_inside(p, a)
                        &&& crate::paths::direct_child(a, root)
                    };
                crate::sizemap::lemma_sum_inside_entry(files, i, a);
                assert(sum_inside(files, a) > 0);
                assert(has_key(dirs, a));
                let j = choose|j: int| 0 <= j < dirs.len() && (#[trigger] dirs[j]).0 == a;
                assert(crate::tree::covered(dirs, p, root)) by {
                    assert(0 <= j < dirs.len() && crate::paths::direct_child(
                        (dirs[j]).0,
                        root,
                    ) && path_inside(p, dirs[j].0));
                }
            }
        }
    }

    /// Enough files are known to make an intermediate snapshot worth
    /// showing: more than ten.
    pub fn should_emit_preview(&self) -> (r: bool)
        ensures
            r == (self.files@.len() > 10),
    {
        self.files.len() > 10
    }

    /// Whether the maps are small enough for the snapshot's child list to
    /// be exhaustive and exactly summed: no more than a hundred entries in
    /// all, so the cap cannot drop anything.
    pub fn snapshot_exact(&self) -> (r: bool)
        ensures
            r == (self.dirs@.len() + self.files@.len() <= 100),
    {
        let d = self.dirs.len();
        if d > 100 {
            false
        } else {
            self.files.len() <= 100 - d
        }
    }

    /// How many distinct files have been discovered.
    pub fn file_count(&self) -> (r: usize)
        ensures
            r == self.files@.len(),
    {
        self.files.len()
    }

    /// Build the tree for the files known so far: the same construction
    /// serves intermediate previews and the final result.
    pub fn snapshot(&self) -> (r: FileNode)
        requires
            self.wf(),
        ensures
            wf_node(r),
            r.is_dir,
            r.path@ == self.root@,
            r.size == sum_vals(self.files@),
            r.name@ == crate::tree::root_name_spec(self.root@, self.home@),
            sorted_desc(kids(r)),
            kids(r).len() <= 100,
            self.dirs@.len() + self.files@.len() <= 100 ==> crate::node::sum_child_sizes(kids(r))
                == r.size,
    {
        let r = crate::tree::build_tree_from_files(
            &self.files,
            &self.dirs,
            self.root.as_str(),
            self.home.as_str(),
        );
        proof {
            if self.dirs@.len() + self.files@.len() <= 100 {
                Self::lemma_session_covered(self.dirs@, self.files@, self.root@);
                crate::tree::lemma_partition_exact(self.dirs@, self.files@, self.root@);
                crate::tree::lemma_partition(self.dirs@, self.files@, self.root@);
            }
        }
        r
    }

    /// End the scan: merge everything discovered into the file cache and
    /// return the final tree.
    pub fn finish(&self, cache: &mut FileCache) -> (r: FileNode)
        requires
            self.wf(),
            old(cache).wf(),
        ensures
            final(cache).wf(),
            final(cache).entries@.len() == (if old(cache).entries@.len() + self.files@.len()
                <= 1000 {
                old(cache).entries@.len() + self.files@.len() as int
            } else {
                1000int
            }),
            wf_node(r),
            r.is_dir,
            r.path@ == self.root@,
            r.size == sum_vals(self.files@),
            r.name@ == crate::tree::root_name_spec(self.root@, self.home@),
            sorted_desc(kids(r)),
            kids(r).len() <= 100,
            self.dirs@.len() + self.files@.len() <= 100 ==> sum_child_sizes(kids(r)) == r.size,
            // What was merged is the session's discovered files: the cache
            // becomes the sorted, capped merge of its old entries and a
            // batch whose plain-value view is exactly the file map.
            exists|s: Seq<crate::cache::CachedFile>, b: Seq<crate::cache::CachedFile>|
                #![trigger s.to_multiset(), crate::cache::cache_view(b)]
                {
                    &&& crate::cache::cache_view(b) == self.files@
                    &&& s.to_multiset() == (old(cache).entries@ + b).to_multiset()
                    &&& crate::cache::cache_sorted(s)
                    &&& final(cache).entries@ == s.take(final(cache).entries@.len() as int)
                },
    {
        let mut batch: Vec<crate::cache::CachedFile> = Vec::new();
        let mut i: usize = 0;
        while i < self.files.entries.len()
            invariant
                i <= self.files.entries@.len(),
                self.files@.len() == self.files.entries@.len(),
                crate::cache::cache_view(batch@) == self.files@.take(i as int),
            decreases self.files.entries@.len() - i,
        {
            let path = self.files.entries[i].0.clone();
            let size = self.files.entries[i].1;
            let entry = crate::cache::CachedFile { path, size };
            let ghost e = entry;
            let ghost prev = batch@;
            batch.push(entry);
            proof {
                assert(e.path@ == self.files@[i as int].0);
                assert(e.size == self.files@[i as int].1);
                assert(crate::cache::cache_view(prev).len() == i);
                assert(prev.len() == i);
                assert(batch@ == prev.push(e));
                assert forall|k: int|
                    0 <= k < i + 1 implies crate::cache::cache_view(batch@)[k] == self.files@.take(
                    i + 1,
                )[k] by {
                    if k < i {
                        assert(crate::cache::cache_view(prev)[k] == self.files@.take(i as int)[k]);
                        assert(batch@[k] == prev[k]);
                    } else {
                        assert(batch@[k] == e);
                    }
                }
                assert(crate::cache::cache_view(batch@) =~= self.files@.take(i + 1));
            }
            i = i + 1;
        }
        let ghost bs = batch@;
        proof {
            assert(crate::cache::cache_view(bs) =~= self.files@);
        }
        let ghost before = cache.entries@;
        cache.add(batch);
        proof {
            let s0 = choose|s0: Seq<crate::cache::CachedFile>|
                {
                    &&& #[trigger] s0.to_multiset() == (before + bs).to_multiset()
                    &&& crate::cache::cache_sorted(s0)
                    &&& cache.entries@ == s0.take(cache.entries@.len() as int)
                };
            assert(crate::cache::cache_view(bs) == self.files@ && s0.to_multiset() == (before
                + bs).to_multiset() && crate::cache::cache_sorted(s0) && cache.entries@
                == s0.take(cache.entries@.len() as int));
        }
        self.snapshot()
    }
}

/// A child that survives a crowded fallback scan: a directory, or a file
/// of at least one megabyte.
pub open spec fn crowd_keep(c: FileNode) -> bool {
    c.size >= 1048576 || c.is_dir
}

/// The crowd-surviving children, in order.
pub open spec fn crowd_filtered(cs: Seq<FileNode>) -> Seq<FileNode> {
    cs.filter(|c: FileNode| crowd_keep(c))
}

/// At most the first hundred.
pub open spec fn cap100(cs: Seq<FileNode>) -> Seq<FileNode> {
    if cs.len() <= 100 {
        cs
    } else {
        cs.take(100)
    }
}

/// Filtering peels one element off the right.
proof fn lemma_crowd_filtered_snoc(t: Seq<FileNode>)
    requires
        t.len() > 0,
    ensures
        crowd_keep(t.last()) ==> crowd_filtered(t) == crowd_filtered(t.drop_last()).push(t.last()),
        !crowd_keep(t.last()) ==> crowd_filtered(t) == crowd_filtered(t.drop_last()),
{
    reveal(Seq::filter);
    assert(crowd_filtered(t) == t.filter(|c: FileNode| crowd_keep(c)));
    assert(t.filter(|c: FileNode| crowd_keep(c)) == (if (|c: FileNode| crowd_keep(c))(t.last()) {
        t.drop_last().filter(|c: FileNode| crowd_keep(c)).push(t.last())
    } else {
        t.drop_last().filter(|c: FileNode| crowd_keep(c))
    }));
}

/// One fallback scan over the root's immediate children, fed by a
/// recursive size-summary tool line by line, with a raw-listing
/// sub-strategy when the tool yields nothing.
#[derive(Debug)]
pub struct FallbackScan {
    pub root: String,
    pub home: String,
    pub children: Vec<FileNode>,
    pub total: u64,
    /// How many summary-tool entries were handed in, seeds and raw
    /// listings aside: the sub-strategy trigger.
    pub tool_entries: usize,
}

impl FallbackScan {
    /// The session invariant: a canonical root, well-formed children, and
    /// the running total exactly their sum.
    pub open spec fn wf(&self) -> bool {
        &&& is_canonical_path(self.root@)
        &&& self.total == sum_child_sizes(self.children@)
        &&& forall|k: int| 0 <= k < self.children@.len() ==> wf_node(#[trigger] self.children@[k])
    }

    /// A fresh session over canonical `root`.
    pub fn new(root: String, home: String) -> (r: FallbackScan)
        requires
            is_canonical_path(root@),
        ensures
            r.wf(),
            r.root@ == root@,
            r.home@ == home@,
            r.children@.len() == 0,
            r.total == 0,
            r.tool_entries == 0,
    {
        let r = FallbackScan { root, home, children: Vec::new(), total: 0, tool_entries: 0 };
        proof {
            assert(sum_child_sizes(r.children@) == 0);
        }
        r
    }

    /// The per-line checkpoint: a cancelled scan stops with `Cancelled`;
    /// otherwise the line is parsed and a malformed one is skipped.
    pub fn check_line(&self, st: &ScanState, line: &str) -> (r: Result<
        Option<(u64, String)>,
        ScanError,
    >)
        ensures
            st.cancelled ==> r == Result::<Option<(u64, String)>, ScanError>::Err(
                ScanError::Cancelled,
            ),
            !st.cancelled ==> {
                &&& r is Ok
                &&& (r->Ok_0 is Some <==> crate::text::parse_du_line_spec(line@) is Some)
                &&& (r->Ok_0 is Some ==> r->Ok_0->Some_0.0 == crate::text::parse_du_line_spec(
                    line@,
                )->Some_0.0 && r->Ok_0->Some_0.1@ == crate::text::parse_du_line_spec(
                    line@,
                )->Some_0.1)
            },
    {
        if st.is_cancelled() {
            return Result::Err(ScanError::Cancelled);
        }
        Result::Ok(crate::text::parse_du_line(line))
    }

    /// Append one node directly under the root; its size joins the total.
    /// An entry whose size would push the total out of range is skipped.
    fn add_child(&mut self, name: &str, size: u64, is_dir: bool)
        requires
            old(self).wf(),
        ensures
            final(self).wf(),
            final(self).root == old(self).root,
            final(self).home == old(self).home,
            final(self).tool_entries == old(self).tool_entries,
            size > u64::MAX - old(self).total ==> final(self).children@ == old(self).children@
                && final(self).total == old(self).total,
            size <= u64::MAX - old(self).total ==> {
                &&& final(self).total == old(self).total + size
                &&& final(self).children@.len() == old(self).children@.len() + 1
                &&& final(self).children@.drop_last() == old(self).children@
                &&& final(self).children@.last().name@ == name@
                &&& final(self).children@.last().path@ == old(self).root@.take(
                    crate::paths::dir_prefix_len(old(self).root@),
                ) + "/"@ + name@
                &&& final(self).children@.last().size == size
                &&& final(self).children@.last().is_dir == is_dir
            },
    {
        if size > u64::MAX - self.total {
            return ;
        }
        // The filesystem root already ends in the separator.
        let mut path = if crate::paths::str_eq(self.root.as_str(), "/") {
            String::new()
        } else {
            String::from_str(self.root.as_str())
        };
        path.append("/");
        path.append(name);
        proof {
            reveal_strlit("/");
            if self.root@ == "/"@ {
                assert(self.root@ =~= root_seq());
                assert(self.root@.take(crate::paths::dir_prefix_len(self.root@)) =~= Seq::<
                    char,
                >::empty());
            } else {
                if self.root@ == root_seq() {
                    assert(self.root@ =~= "/"@);
                }
                assert(self.root@.take(crate::paths::dir_prefix_len(self.root@)) =~= self.root@);
            }
        }
        let node = FileNode {
            name: String::from_str(name),
            path,
            size,
            is_dir,
            children: Option::None,
        };
        proof {
            assert(kids(node) =~= Seq::<FileNode>::empty());
            assert(sum_child_sizes(kids(node)) == 0);
        }
        let ghost prev = self.children@;
        self.children.push(node);
        self.total = self.total + size;
        proof {
            crate::node::lemma_sum_child_sizes_snoc(prev, node);
            assert(self.children@.drop_last() =~= prev);
        }
    }

    /// Take in one parsed summary-tool entry: counted for the
    /// sub-strategy trigger, then appended under the root.
    pub fn push_entry(&mut self, name: &str, size: u64, is_dir: bool)
        requires
            old(self).wf(),
        ensures
            final(self).wf(),
            final(self).root == old(self).root,
            final(self).home == old(self).home,
            final(self).tool_entries == (if old(self).tool_entries == usize::MAX {
                old(self).tool_entries as int
            } else {
                old(self).tool_entries + 1
            }),
            size > u64::MAX - old(self).total ==> final(self).children@ == old(self).children@
                && final(self).total == old(self).total,
            size <= u64::MAX - old(self).total ==> {
                &&& final(self).total == old(self).total + size
                &&& final(self).children@.len() == old(self).children@.len() + 1
                &&& final(self).children@.drop_last() == old(self).children@
                &&& final(self).children@.last().name@ == name@
                &&& final(self).children@.last().path@ == old(self).root@.take(
                    crate::paths::dir_prefix_len(old(self).root@),
                ) + "/"@ + name@
                &&& final(self).children@.last().size == size
                &&& final(self).children@.last().is_dir == is_dir
            },
    {
        if self.tool_entries < usize::MAX {
            self.tool_entries = self.tool_entries + 1;
        }
        self.add_child(name, size, is_dir);
    }

    /// Whether the summary tool yielded no entries at all, whatever was
    /// seeded from the cache: the raw-listing sub-strategy runs only then.
    pub fn summary_yielded_nothing(&self) -> (r: bool)
        ensures
            r == (self.tool_entries == 0),
    {
        self.tool_entries == 0
    }

    /// Append one raw directory-listing entry, for the sub-strategy used
    /// when the summary tool yields nothing: hidden names (leading `.`)
    /// are skipped, a directory gets a fixed placeholder size of one
    /// megabyte pending deeper scanning, a file its true size.
    pub fn push_listing_entry(&mut self, name: &str, file_size: u64, is_dir: bool)
        requires
            old(self).wf(),
        ensures
            final(self).wf(),
            final(self).root == old(self).root,
            final(self).home == old(self).home,
            final(self).tool_entries == old(self).tool_entries,
            name@.len() > 0 && name@[0] == '.' ==> final(self).children@ == old(self).children@
                && final(self).total == old(self).total,
            name@.len() == 0 || name@[0] != '.' ==> {
                let sz = if is_dir {
                    1048576u64
                } else {
                    file_size
                };
                let oc = old(self).children@;
                let ot = old(self).total;
                let nc = final(self).children@;
                let nt = final(self).total;
                &&& (sz > u64::MAX - ot ==> nc == oc && nt == ot)
                &&& (sz <= u64::MAX - ot ==> nt == ot + sz && nc.len() == oc.len() + 1
                    && nc.last().name@ == name@ && nc.last().size == sz && nc.last().is_dir
                    == is_dir)
            },
    {
        let n: usize = name.unicode_len();
        if n > 0 && name.get_char(0) == '.' {
            return ;
        }
        let sz: u64 = if is_dir {
            1048576
        } else {
            file_size
        };
        self.add_child(name, sz, is_dir);
    }

    /// Seed one cached file discovered by an earlier scan: kept only when
    /// its path is canonical, named by its final component.
    pub fn seed_cached(&mut self, path: &str, size: u64, is_dir: bool)
        requires
            old(self).wf(),
        ensures
            final(self).wf(),
            final(self).root == old(self).root,
            final(self).home == old(self).home,
            final(self).tool_entries == old(self).tool_entries,
            !is_canonical_path(path@) || size > u64::MAX - old(self).total ==> final(self).children@
                == old(self).children@ && final(self).total == old(self).total,
            is_canonical_path(path@) && size <= u64::MAX - old(self).total ==> {
                &&& final(self).total == old(self).total + size
                &&& final(self).children@.len() == old(self).children@.len() + 1
                &&& final(self).children@.drop_last() == old(self).children@
                &&& final(self).children@.last().name@ == crate::paths::last_component_of(path@)
                &&& final(self).children@.last().path@ == path@
                &&& final(self).children@.last().size == size
                &&& final(self).children@.last().is_dir == is_dir
            },
    {
        if !crate::paths::is_canonical(path) {
            return ;
        }
        if size > u64::MAX - self.total {
            return ;
        }
        let node = FileNode {
            name: crate::paths::last_component(path),
            path: String::from_str(path),
            size,
            is_dir,
            children: Option::None,
        };
        proof {
            assert(kids(node) =~= Seq::<FileNode>::empty());
            assert(sum_child_sizes(kids(node)) == 0);
        }
        let ghost prev = self.children@;
        self.children.push(node);
        self.total = self.total + size;
        proof {
            crate::node::lemma_sum_child_sizes_snoc(prev, node);
            assert(self.children@.drop_last() =~= prev);
        }
    }

    /// Whether any entry was collected; when none was, the caller falls
    /// back to the raw listing.
    pub fn is_empty(&self) -> (r: bool)
        ensures
            r == (self.children@.len() == 0),
    {
        self.children.len() == 0
    }

    /// Close the session: sort the children by descending size; when more
    /// than 50 were collected, drop plain files under one megabyte and cap
    /// the list at 100; and wrap everything in the root node, whose size
    /// is the full total even where children were dropped.
    pub fn finalize(self) -> (r: FileNode)
        requires
            self.wf(),
        ensures
            wf_node(r),
            r.is_dir,
            r.path@ == self.root@,
            r.name@ == crate::tree::root_name_spec(self.root@, self.home@),
            r.size == self.total,
            sorted_desc(kids(r)),
            self.children@.len() <= 50 ==> kids(r).to_multiset() == self.children@.to_multiset()
                && sum_child_sizes(kids(r)) == r.size,
            // In a crowded scan the children are the qualifying prefix of a
            // descending ordering of everything collected, capped at 100.
            self.children@.len() > 50 ==> kids(r).len() <= 100 && exists|s: Seq<FileNode>|
                #![trigger s.to_multiset()]
                {
                    &&& s.to_multiset() == self.children@.to_multiset()
                    &&& sorted_desc(s)
                    &&& kids(r) == cap100(crowd_filtered(s))
                },
    {
        proof {
            broadcast use vstd::seq_lib::group_to_multiset_ensures;

        }
        let FallbackScan { root, home, mut children, total, tool_entries: _ } = self;
        let ghost orig = children@;
        crate::node::sort_nodes_desc(&mut children);
        proof {
            assert forall|k: int| 0 <= k < children@.len() implies wf_node(
                #[trigger] children@[k],
            ) by {
                assert(orig.contains(children@[k]));
                let idx = choose|idx: int| 0 <= idx < orig.len() && orig[idx] == children@[k];
                assert(wf_node(orig[idx]));
            }
        }
        let ghost sorted_full = children@;
        let filtered = children.len() > 50;
        let mut kept: Vec<FileNode>;
        if filtered {
            kept = Vec::new();
            let ghost mut c: int = 0;
            proof {
                assert(sum_child_sizes(children@) == total);
                assert(children@ =~= sorted_full.skip(0));
                assert(sorted_full.take(0) =~= Seq::<FileNode>::empty());
                assert(crowd_filtered(sorted_full.take(0)).len() == 0);
                assert(kept@ =~= cap100(crowd_filtered(sorted_full.take(0))));
            }
            while children.len() > 0
                invariant
                    0 <= c <= sorted_full.len(),
                    children@ == sorted_full.skip(c),
                    kept@ == cap100(crowd_filtered(sorted_full.take(c))),
                    sorted_desc(sorted_full),
                    sorted_desc(children@),
                    sorted_desc(kept@),
                    kept@.len() > 0 && children@.len() > 0 ==> kept@[kept@.len()
                        - 1].size >= children@[0].size,
                    sum_child_sizes(kept@) + sum_child_sizes(children@) <= total,
                    kept@.len() <= 100,
                    forall|k: int| 0 <= k < kept@.len() ==> wf_node(#[trigger] kept@[k]),
                    forall|k: int| 0 <= k < children@.len() ==> wf_node(#[trigger] children@[k]),
                    forall|k: int|
                        0 <= k < kept@.len() ==> (#[trigger] kept@[k]).size >= 1048576
                            || kept@[k].is_dir,
                decreases children@.len(),
            {
                let ghost cprev = children@;
                let ghost kprev = kept@;
                let x = children.remove(0);
                proof {
                    assert(children@ =~= cprev.drop_first());
                    assert(sum_child_sizes(cprev) == x.size + sum_child_sizes(children@));
                    crate::node::lemma_sum_child_sizes_take(children@, 0);
                    crate::node::lemma_sum_child_sizes_take(kprev, kprev.len() as int);
                    assert(x == sorted_full[c]) by {
                        assert(cprev[0] == sorted_full.skip(c)[0]);
                    }
                    assert(children@ =~= sorted_full.skip(c + 1));
                    assert(sorted_full.take(c + 1).drop_last() =~= sorted_full.take(c));
                    assert(sorted_full.take(c + 1).last() == sorted_full[c]);
                }
                if (x.size >= 1048576 || x.is_dir) && kept.len() < 100 {
                    kept.push(x);
                    proof {
                        crate::node::lemma_sum_child_sizes_snoc(kprev, x);
                        assert(sorted_desc(kept@)) by {
                            assert forall|a: int, b: int| 0 <= a < b < kept@.len() implies (
                            #[trigger] kept@[a]).size >= (#[trigger] kept@[b]).size by {
                                if b < kept@.len() - 1 {
                                    assert(kept@[a] == kprev[a] && kept@[b] == kprev[b]);
                                } else {
                                    assert(kept@[b] == x);
                                    assert(kept@[a] == kprev[a]);
                                    assert(kprev[a].size >= kprev[kprev.len() - 1].size);
                                }
                            }
                        }
                    }
                }
                proof {
                    let f0 = crowd_filtered(sorted_full.take(c));
                    let f1 = crowd_filtered(sorted_full.take(c + 1));
                    lemma_crowd_filtered_snoc(sorted_full.take(c + 1));
                    if crowd_keep(x) {
                        assert(f1 == f0.push(x));
                        if kprev.len() < 100 {
                            assert(f0.len() <= 100) by {
                                if f0.len() > 100 {
                                    assert(cap100(f0).len() == 100);
                                }
                            }
                            assert(kprev == f0);
                            assert(kept@ == kprev.push(x));
                            assert(f1.len() <= 100);
                            assert(kept@ == cap100(f1));
                        } else {
                            assert(kept@ == kprev);
                            assert(f0.len() >= 100) by {
                                if f0.len() < 100 {
                                    assert(cap100(f0) == f0);
                                }
                            }
                            assert(cap100(f1) =~= cap100(f0)) by {
                                assert(f1.len() > 100);
                                assert(forall|k: int|
                                    0 <= k < 100 ==> f1.take(100)[k] == #[trigger] f0[k]);
                                if f0.len() > 100 {
                                    assert(forall|k: int|
                                        0 <= k < 100 ==> #[trigger] f0.take(100)[k] == f0[k]);
                                }
                            }
                        }
                    } else {
                        assert(f1 == f0);
                        assert(kept@ == kprev);
                    }
                    c = c + 1;
                }
            }
            proof {
                assert(children@.len() == 0);
                assert(c == sorted_full.len());
                assert(sorted_full.take(c) =~= sorted_full);
                assert(kept@ == cap100(crowd_filtered(sorted_full)));
            }
        } else {
            kept = children;
        }
        let name: String = if crate::paths::str_eq(root.as_str(), "/") {
            proof {
                reveal_strlit("/");
                assert(root@ =~= root_seq());
            }
            String::from_str("Root")
        } else {
            proof {
                reveal_strlit("/");
                if root@ == root_seq() {
                    assert(root@.len() == 1 && root@[0] == '/');
                    assert(root@ =~= "/"@);
                }
            }
            if crate::paths::str_eq(root.as_str(), home.as_str()) {
                String::from_str("Home")
            } else {
                crate::paths::last_component(root.as_str())
            }
        };
        let kept_children: Option<Vec<FileNode>> = if kept.len() == 0 {
            Option::None
        } else {
            Option::Some(kept)
        };
        let r = FileNode { name, path: root, size: total, is_dir: true, children: kept_children };
        proof {
            if r.children is None {
                assert(kids(r) =~= Seq::<FileNode>::empty());
                assert(sum_child_sizes(kids(r)) == 0);
            }
            if !filtered {
                assert(sum_child_sizes(kids(r)) <= r.size);
            } else {
                assert(sum_child_sizes(Seq::<FileNode>::empty()) == 0);
                assert(kids(r) =~= cap100(crowd_filtered(sorted_full)));
                assert(sorted_full.to_multiset() == orig.to_multiset() && sorted_desc(sorted_full)
                    && kids(r) == cap100(crowd_filtered(sorted_full)));
            }
        }
        r
    }
}

/// The file map a sequence of hits builds up, in order: a hit is taken
/// when its path is canonical, lies strictly inside the root and is new,
/// and the running total stays in range; anything else is skipped.
pub open spec fn ingest_all(hits: Seq<(Seq<char>, u64)>, root: Seq<char>) -> Seq<(Seq<char>, u64)>
    decreases hits.len(),
{
    if hits.len() == 0 {
        Seq::empty()
    } else {
        let rest = ingest_all(hits.drop_last(), root);
        let e = hits.last();
        if is_canonical_path(e.0) && path_inside(e.0, root) && !has_key(rest, e.0) && sum_vals(
            rest,
        ) + e.1 <= u64::MAX {
            rest.push(e)
        } else {
            rest
        }
    }
}

/// A preview tree seeded from cache entries nested under `root`, or
/// nothing when the cache holds none.  The entries seed a separate
/// throwaway session: nothing is merged into an authoritative scan.
pub fn preview_from_cache(cache: &FileCache, root: &str, home: &str) -> (r: Option<FileNode>)
    requires
        is_canonical_path(root@),
    ensures
        r is Some ==> {
            &&& wf_node(r->Some_0)
            &&& r->Some_0.is_dir
            &&& r->Some_0.path@ == root@
            &&& r->Some_0.name@ == crate::tree::root_name_spec(root@, home@)
            &&& sorted_desc(kids(r->Some_0))
            &&& kids(r->Some_0).len() <= 100
            // The preview reports exactly the hits the seed run keeps.
            &&& r->Some_0.size == sum_vals(
                ingest_all(
                    crate::cache::query_spec(crate::cache::cache_view(cache.entries@), root@),
                    root@,
                ),
            )
        },
        r is None <==> crate::cache::query_spec(
            crate::cache::cache_view(cache.entries@),
            root@,
        ).len() == 0,
{
    let hits = cache.query(root);
    proof {
        assert(crate::cache::cache_view(hits@).len() == hits@.len());
    }
    if hits.len() == 0 {
        return Option::None;
    }
    let ghost hview = crate::cache::cache_view(hits@);
    let mut session = IndexedScan::new(String::from_str(root), String::from_str(home));
    let mut i: usize = 0;
    proof {
        assert(ingest_all(hview.take(0), root@) =~= Seq::<(Seq<char>, u64)>::empty());
        assert(session.files@ =~= ingest_all(hview.take(0), root@));
    }
    while i < hits.len()
        invariant
            i <= hits@.len(),
            hview == crate::cache::cache_view(hits@),
            hview.len() == hits@.len(),
            session.wf(),
            session.root@ == root@,
            session.home@ == home@,
            session.files@ == ingest_all(hview.take(i as int), root@),
        decreases hits@.len() - i,
    {
        proof {
            assert(hview.take(i + 1).drop_last() =~= hview.take(i as int));
            assert(hview.take(i + 1).last() == hview[i as int]);
            assert(hview[i as int] == (hits@[i as int].path@, hits@[i as int].size));
        }
        session.ingest_hit(hits[i].path.as_str(), hits[i].size);
        i = i + 1;
    }
    proof {
        assert(hview.take(hview.len() as int) =~= hview);
        assert(session.files@ == ingest_all(hview, root@));
    }
    Option::Some(session.snapshot())
}

} // verus!
