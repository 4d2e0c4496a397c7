//! The tree of disk-usage nodes handed to callers.

use vstd::prelude::*;

verus! {

/// One node of the disk-usage tree: an entry's name, its absolute path, its
/// aggregate size in bytes, whether it is a directory, and its children.
/// An absent child list and an empty one both mean a leaf or a pruned
/// directory; a directory's size is its aggregate even when children are
/// pruned.
#[derive(Debug)]
pub struct FileNode {
    pub name: String,
    pub path: String,
    pub size: u64,
    pub is_dir: bool,
    pub children: Option<Vec<FileNode>>,
}

/// A progress report: the status text shown to the user and the cumulative
/// number of items processed.
#[derive(Debug, Clone)]
pub struct ScanProgress {
    pub current_path: String,
    pub items_processed: u32,
}

/// The children of `n` as a sequence; absent and empty lists coincide.
pub open spec fn kids(n: FileNode) -> Seq<FileNode> {
    match n.children {
        Option::Some(cs) => cs@,
        Option::None => Seq::empty(),
    }
}

/// Sum of the sizes of the nodes of `cs`.
pub open spec fn sum_child_sizes(cs: Seq<FileNode>) -> int
    decreases cs.len(),
{
    if cs.len() == 0 {
        0
    } else {
        cs[0].size + sum_child_sizes(cs.drop_first())
    }
}

/// A well-formed tree: at every node the direct children's sizes sum to at
/// most the node's own size.
pub open spec fn wf_node(n: FileNode) -> bool
    decreases n,
{
    &&& sum_child_sizes(kids(n)) <= n.size
    &&& forall|i: int| 0 <= i < kids(n).len() ==> wf_node(#[trigger] kids(n)[i])
}

/// Children sorted by descending size.
pub open spec fn sorted_desc(cs: Seq<FileNode>) -> bool {
    forall|i: int, j: int| 0 <= i < j < cs.len() ==> #[trigger] cs[i].size >= #[trigger] cs[j].size
}

pub proof fn lemma_sum_child_sizes_snoc(cs: Seq<FileNode>, x: FileNode)
    ensures
        sum_child_sizes(cs.push(x)) == sum_child_sizes(cs) + x.size,
    decreases cs.len(),
{
    if cs.len() == 0 {
        assert(cs.push(x).drop_first() =~= Seq::<FileNode>::empty());
        assert(cs.push(x)[0] == x);
        assert(cs.push(x).len() == 1);
        assert(sum_child_sizes(Seq::<FileNode>::empty()) == 0);
    } else {
        lemma_sum_child_sizes_snoc(cs.drop_first(), x);
        assert(cs.push(x).drop_first() =~= cs.drop_first().push(x));
        assert(cs.push(x)[0] == cs[0]);
        assert(cs.push(x).len() > 0);
    }
}

pub proof fn lemma_sum_child_sizes_remove(cs: Seq<FileNode>, i: int)
    requires
        0 <= i < cs.len(),
    ensures
        sum_child_sizes(cs.remove(i)) == sum_child_sizes(cs) - cs[i].size,
    decreases cs.len(),
{
    if i == 0 {
        assert(cs.remove(0) =~= cs.drop_first());
    } else {
        lemma_sum_child_sizes_remove(cs.drop_first(), i - 1);
        assert(cs.remove(i).drop_first() =~= cs.drop_first().remove(i - 1));
        assert(cs.remove(i)[0] == cs[0]);
        assert(cs.remove(i).len() > 0);
    }
}

pub proof fn lemma_sum_child_sizes_insert(cs: Seq<FileNode>, i: int, x: FileNode)
    requires
        0 <= i <= cs.len(),
    ensures
        sum_child_sizes(cs.insert(i, x)) == sum_child_sizes(cs) + x.size,
    decreases cs.len(),
{
    if i == 0 {
        assert(cs.insert(0, x).drop_first() =~= cs);
        assert(cs.insert(0, x)[0] == x);
        assert(cs.insert(0, x).len() > 0);
    } else {
        lemma_sum_child_sizes_insert(cs.drop_first(), i - 1, x);
        assert(cs.insert(i, x).drop_first() =~= cs.drop_first().insert(i - 1, x));
        assert(cs.insert(i, x)[0] == cs[0]);
        assert(cs.insert(i, x).len() > 0);
    }
}

/// Sums of non-negative sizes only shrink when a prefix is kept.
pub proof fn lemma_sum_child_sizes_take(cs: Seq<FileNode>, k: int)
    requires
        0 <= k <= cs.len(),
    ensures
        sum_child_sizes(cs.take(k)) <= sum_child_sizes(cs),
        sum_child_sizes(cs) >= 0,
    decreases cs.len(),
{
    if cs.len() == 0 {
        assert(cs.take(k) =~= cs);
    } else if k == 0 {
        assert(cs.take(0) =~= Seq::<FileNode>::empty());
        lemma_sum_child_sizes_take(cs.drop_first(), 0);
    } else {
        lemma_sum_child_sizes_take(cs.drop_first(), k - 1);
        assert(cs.take(k).drop_first() =~= cs.drop_first().take(k - 1));
        assert(cs.take(k)[0] == cs[0]);
        assert(cs.take(k).len() > 0);
    }
}

/// Sort nodes by descending size, keeping exactly the same nodes.
pub fn sort_nodes_desc(v: &mut Vec<FileNode>)
    ensures
        sorted_desc(final(v)@),
        final(v)@.to_multiset() == old(v)@.to_multiset(),
        final(v)@.len() == old(v)@.len(),
        sum_child_sizes(final(v)@) == sum_child_sizes(old(v)@),
        forall|k: int|
            0 <= k < final(v)@.len() ==> old(v)@.contains(#[trigger] final(v)@[k]),
{
    proof {
        broadcast use vstd::seq_lib::group_to_multiset_ensures;

    }
    let ghost orig = v@;
    if v.len() <= 1 {
        return ;
    }
    let mut i: usize = 1;
    while i < v.len()
        invariant
            1 <= i <= v@.len(),
            v@.len() == orig.len(),
            v@.to_multiset() == orig.to_multiset(),
            sum_child_sizes(v@) == sum_child_sizes(orig),
            sorted_desc(v@.take(i as int)),
            forall|k: int| 0 <= k < v@.len() ==> orig.contains(#[trigger] v@[k]),
        decreases v@.len() - i,
    {
        proof {
            broadcast use vstd::seq_lib::group_to_multiset_ensures;

        }
        let ghost before = v@;
        let x = v.remove(i);
        proof {
            lemma_sum_child_sizes_remove(before, i as int);
            assert(before.to_multiset().contains(x));
        }
        let ghost removed = v@;
        let mut j: usize = 0;
        while j < i && v[j].size >= x.size
            invariant
                0 <= j <= i,
                i < before.len(),
                v@ == removed,
                removed == before.remove(i as int),
                forall|k: int| 0 <= k < j ==> #[trigger] removed[k].size >= x.size,
            decreases i - j,
        {
            j = j + 1;
        }
        proof {
            assert(j < i ==> removed[j as int].size < x.size);
        }
        v.insert(j, x);
        proof {
            lemma_sum_child_sizes_insert(removed, j as int, x);
            assert(v@.to_multiset() == orig.to_multiset()) by {
                assert(v@.to_multiset() == removed.to_multiset().insert(x));
                assert(removed.to_multiset() == before.to_multiset().remove(x));
                assert(before.to_multiset().contains(x));
                assert(before.to_multiset().remove(x).insert(x) =~= before.to_multiset());
            }
            // The prefix of length i + 1 is sorted: entries before j kept
            // their order and dominate x, x dominates what follows.
            assert(sorted_desc(v@.take(i as int + 1))) by {
                assert forall|a: int, b: int| 0 <= a < b < i + 1 implies #[trigger] v@.take(
                    i as int + 1,
                )[a].size >= #[trigger] v@.take(i as int + 1)[b].size by {
                    assert(forall|k: int|
                        0 <= k < i ==> removed[k] == (if k < i {
                            before[k]
                        } else {
                            before[k + 1]
                        }));
                    assert(forall|k: int|
                        0 <= k < v@.len() ==> v@[k] == (if k < j {
                            removed[k]
                        } else if k == j {
                            x
                        } else {
                            removed[k - 1]
                        }));
                    assert(sorted_desc(before.take(i as int)));
                }
            }
            assert(forall|k: int| 0 <= k < v@.len() ==> orig.contains(#[trigger] v@[k])) by {
                assert(forall|k: int|
                    0 <= k < v@.len() ==> v@[k] == x || removed.contains(v@[k]));
                assert(forall|k: int|
                    0 <= k < removed.len() ==> before.contains(#[trigger] removed[k]));
            }
        }
        i = i + 1;
    }
    proof {
        assert(v@.take(v@.len() as int) =~= v@);
        if orig.len() == 0 {
            assert(v@ =~= orig);
        }
    }
}

} // verus!
