//! Reconstruction of a pruned hierarchy from flat path-to-size maps.
//!
//! The builder takes the discovered file map, the directory aggregate map
//! and the scan root, and produces a single root node: one child per
//! direct subdirectory of the root that has a non-zero aggregate, carrying
//! the files found directly in it, plus one child per file found directly
//! in the root.  Only one level below the root is individually expanded —
//! a deliberate trade-off of fidelity for construction speed.  Children
//! are sorted by descending size and capped at 100.

use vstd::prelude::*;
use crate::node::FileNode;
use crate::node::kids;
use crate::node::sum_child_sizes;
use crate::node::sorted_desc;
use crate::node::wf_node;
use crate::node::sort_nodes_desc;
use crate::node::lemma_sum_child_sizes_snoc;
use crate::node::lemma_sum_child_sizes_take;
use crate::paths::is_canonical_path;
use crate::paths::path_inside;
use crate::paths::path_under;
use crate::paths::direct_child;
use crate::paths::root_seq;
use crate::paths::last_component_of;
use crate::paths::lemma_siblings_disjoint;
use crate::paths::lemma_direct_not_nested;
use crate::sizemap::SizeMap;
use crate::sizemap::sum_vals;
use crate::sizemap::sum_inside;
use crate::sizemap::sum_direct;
use crate::sizemap::keys_unique;
use crate::sizemap::lemma_sums_nonneg;
use crate::sizemap::lemma_sums_push;

verus! {

/// The name the root node carries: `Root` for the filesystem root, `Home`
/// for the home directory, otherwise the final path component.
pub open spec fn root_name_spec(root: Seq<char>, home: Seq<char>) -> Seq<char> {
    if root == root_seq() {
        "Root"@
    } else if root == home {
        "Home"@
    } else {
        last_component_of(root)
    }
}

/// The directory map entries are coherent with the file map: every stored
/// aggregate is exactly the sum of the file sizes inside its directory.
pub open spec fn dirs_coherent(
    dirs: Seq<(Seq<char>, u64)>,
    files: Seq<(Seq<char>, u64)>,
    root: Seq<char>,
) -> bool {
    forall|j: int|
        0 <= j < dirs.len() ==> {
            &&& is_canonical_path((#[trigger] dirs[j]).0)
            &&& path_under(dirs[j].0, root)
            &&& dirs[j].1 == sum_inside(files, dirs[j].0)
        }
}

/// All file keys are canonical paths strictly inside the root.
pub open spec fn files_inside(files: Seq<(Seq<char>, u64)>, root: Seq<char>) -> bool {
    forall|j: int|
        0 <= j < files.len() ==> {
            &&& is_canonical_path((#[trigger] files[j]).0)
            &&& path_inside(files[j].0, root)
        }
}

/// Sum, over the direct subdirectories of `root` among the directory
/// entries, of the file sizes inside each.
pub open spec fn sum_selected(
    dirs: Seq<(Seq<char>, u64)>,
    files: Seq<(Seq<char>, u64)>,
    root: Seq<char>,
) -> int
    decreases dirs.len(),
{
    if dirs.len() == 0 {
        0
    } else {
        sum_selected(dirs.drop_last(), files, root) + (if direct_child(dirs.last().0, root) {
            sum_inside(files, dirs.last().0)
        } else {
            0
        })
    }
}

/// `p` lies inside some direct subdirectory of `root` listed in `dirs`.
pub open spec fn covered(dirs: Seq<(Seq<char>, u64)>, p: Seq<char>, root: Seq<char>) -> bool {
    exists|j: int|
        0 <= j < dirs.len() && direct_child((#[trigger] dirs[j]).0, root) && path_inside(
            p,
            dirs[j].0,
        )
}

/// Every file is attributed somewhere: a direct entry of the root, inside
/// some listed direct subdirectory, or weightless.
pub open spec fn files_covered(
    dirs: Seq<(Seq<char>, u64)>,
    files: Seq<(Seq<char>, u64)>,
    root: Seq<char>,
) -> bool {
    forall|i: int|
        0 <= i < files.len() ==> direct_child((#[trigger] files[i]).0, root) || covered(
            dirs,
            files[i].0,
            root,
        ) || files[i].1 == 0
}

/// A file inside a listed subdirectory raises the per-subdirectory sums by
/// its full size.
proof fn lemma_selected_push_lb(
    dirs: Seq<(Seq<char>, u64)>,
    files: Seq<(Seq<char>, u64)>,
    e: (Seq<char>, u64),
    root: Seq<char>,
)
    requires
        covered(dirs, e.0, root),
    ensures
        sum_selected(dirs, files.push(e), root) >= sum_selected(dirs, files, root) + e.1,
    decreases dirs.len(),
{
    if dirs.len() == 0 {
        assert(!covered(dirs, e.0, root));
    } else {
        let rest = dirs.drop_last();
        let d = dirs.last().0;
        lemma_sums_push(files, e, d);
        if direct_child(d, root) && path_inside(e.0, d) {
            lemma_selected_push_plain(rest, files, e, root);
        } else {
            assert(covered(rest, e.0, root)) by {
                let j = choose|j: int|
                    0 <= j < dirs.len() && direct_child((#[trigger] dirs[j]).0, root)
                        && path_inside(e.0, dirs[j].0);
                assert(j < dirs.len() - 1);
                assert(rest[j] == dirs[j]);
            }
            lemma_selected_push_lb(rest, files, e, root);
        }
    }
}

/// One more file never lowers the per-subdirectory sums.
proof fn lemma_selected_push_plain(
    dirs: Seq<(Seq<char>, u64)>,
    files: Seq<(Seq<char>, u64)>,
    e: (Seq<char>, u64),
    root: Seq<char>,
)
    ensures
        sum_selected(dirs, files.push(e), root) >= sum_selected(dirs, files, root),
    decreases dirs.len(),
{
    if dirs.len() > 0 {
        lemma_selected_push_plain(dirs.drop_last(), files, e, root);
        lemma_sums_push(files, e, dirs.last().0);
    }
}

/// When every file is attributed, the disjoint-regions bound is exact.
pub proof fn lemma_partition_exact(
    dirs: Seq<(Seq<char>, u64)>,
    files: Seq<(Seq<char>, u64)>,
    root: Seq<char>,
)
    requires
        keys_unique(dirs),
        is_canonical_path(root),
        forall|j: int| 0 <= j < dirs.len() ==> is_canonical_path((#[trigger] dirs[j]).0),
        files_covered(dirs, files, root),
    ensures
        sum_selected(dirs, files, root) + sum_direct(files, root) >= sum_vals(files),
    decreases files.len(),
{
    if files.len() == 0 {
        lemma_selected_nonneg(dirs, files, root);
        lemma_sums_nonneg(files, root);
    } else {
        let fs0 = files.drop_last();
        let e = files.last();
        assert(files =~= fs0.push(e));
        assert(files_covered(dirs, fs0, root)) by {
            assert(forall|i: int| 0 <= i < fs0.len() ==> fs0[i] == #[trigger] files[i]);
        }
        lemma_partition_exact(dirs, fs0, root);
        lemma_sums_push(fs0, e, root);
        assert(direct_child(e.0, root) || covered(dirs, e.0, root) || e.1 == 0) by {
            assert(files[files.len() - 1] == e);
        }
        if direct_child(e.0, root) {
            lemma_selected_push_plain(dirs, fs0, e, root);
        } else if covered(dirs, e.0, root) {
            lemma_selected_push_lb(dirs, fs0, e, root);
        } else {
            lemma_selected_push_plain(dirs, fs0, e, root);
        }
    }
}

/// One more file raises the per-subdirectory sums by at most its size, and
/// only when some listed subdirectory contains it.
proof fn lemma_selected_push(
    dirs: Seq<(Seq<char>, u64)>,
    files: Seq<(Seq<char>, u64)>,
    e: (Seq<char>, u64),
    root: Seq<char>,
)
    requires
        keys_unique(dirs),
        is_canonical_path(root),
        forall|j: int| 0 <= j < dirs.len() ==> is_canonical_path((#[trigger] dirs[j]).0),
    ensures
        sum_selected(dirs, files.push(e), root) <= sum_selected(dirs, files, root) + (if covered(
            dirs,
            e.0,
            root,
        ) {
            e.1 as int
        } else {
            0
        }),
        sum_selected(dirs, files.push(e), root) >= sum_selected(dirs, files, root),
    decreases dirs.len(),
{
    if dirs.len() == 0 {
    } else {
        let rest = dirs.drop_last();
        let d = dirs.last().0;
        lemma_selected_push(rest, files, e, root);
        lemma_sums_push(files, e, d);
        assert(covered(rest, e.0, root) ==> covered(dirs, e.0, root)) by {
            if covered(rest, e.0, root) {
                let j = choose|j: int|
                    0 <= j < rest.len() && direct_child((#[trigger] rest[j]).0, root)
                        && path_inside(e.0, rest[j].0);
                assert(dirs[j] == rest[j]);
            }
        }
        if direct_child(d, root) && path_inside(e.0, d) {
            // No other listed subdirectory also contains the file.
            assert(!covered(rest, e.0, root)) by {
                if covered(rest, e.0, root) {
                    let j = choose|j: int|
                        0 <= j < rest.len() && direct_child((#[trigger] rest[j]).0, root)
                            && path_inside(e.0, rest[j].0);
                    assert(dirs[j] == rest[j]);
                    assert(dirs[j].0 != d);
                    lemma_siblings_disjoint(e.0, rest[j].0, d, root);
                }
            }
            assert(covered(dirs, e.0, root)) by {
                assert(0 <= dirs.len() - 1 < dirs.len() && direct_child(
                    (dirs[dirs.len() - 1]).0,
                    root,
                ) && path_inside(e.0, dirs[dirs.len() - 1].0));
            }
        }
    }
}

/// The disjoint-regions bound: the per-subdirectory sums plus the files
/// directly in the root never exceed the total of all files.
pub proof fn lemma_partition(
    dirs: Seq<(Seq<char>, u64)>,
    files: Seq<(Seq<char>, u64)>,
    root: Seq<char>,
)
    requires
        keys_unique(dirs),
        is_canonical_path(root),
        forall|j: int| 0 <= j < dirs.len() ==> is_canonical_path((#[trigger] dirs[j]).0),
    ensures
        sum_selected(dirs, files, root) + sum_direct(files, root) <= sum_vals(files),
        sum_selected(dirs, files, root) >= 0,
    decreases files.len(),
{
    lemma_selected_nonneg(dirs, files, root);
    if files.len() == 0 {
        assert(files =~= Seq::<(Seq<char>, u64)>::empty());
        lemma_selected_empty(dirs, root);
        lemma_sums_nonneg(files, root);
    } else {
        let fs0 = files.drop_last();
        let e = files.last();
        lemma_partition(dirs, fs0, root);
        assert(files =~= fs0.push(e));
        lemma_selected_push(dirs, fs0, e, root);
        lemma_sums_push(fs0, e, root);
        assert(sum_vals(files) == sum_vals(fs0) + e.1);
        assert(sum_direct(files, root) == sum_direct(fs0, root) + (if direct_child(e.0, root) {
            e.1 as int
        } else {
            0
        }));
        if direct_child(e.0, root) && covered(dirs, e.0, root) {
            let j = choose|j: int|
                0 <= j < dirs.len() && direct_child((#[trigger] dirs[j]).0, root) && path_inside(
                    e.0,
                    dirs[j].0,
                );
            lemma_direct_not_nested(e.0, dirs[j].0, root);
        }
    }
}

proof fn lemma_selected_empty(dirs: Seq<(Seq<char>, u64)>, root: Seq<char>)
    ensures
        sum_selected(dirs, Seq::empty(), root) == 0,
    decreases dirs.len(),
{
    if dirs.len() > 0 {
        lemma_selected_empty(dirs.drop_last(), root);
    }
}

proof fn lemma_selected_nonneg(
    dirs: Seq<(Seq<char>, u64)>,
    files: Seq<(Seq<char>, u64)>,
    root: Seq<char>,
)
    ensures
        sum_selected(dirs, files, root) >= 0,
    decreases dirs.len(),
{
    if dirs.len() > 0 {
        lemma_selected_nonneg(dirs.drop_last(), files, root);
        lemma_sums_nonneg(files, dirs.last().0);
    }
}

/// Some node of `ks` reports a directory at `path` with aggregate `size`.
pub open spec fn has_dir_kid(ks: Seq<FileNode>, path: Seq<char>, size: u64) -> bool {
    exists|k: int|
        0 <= k < ks.len() && (#[trigger] ks[k]).path@ == path && ks[k].size == size
            && ks[k].is_dir
}

/// Some node of `ks` reports a file at `path` of `size`.
pub open spec fn has_file_kid(ks: Seq<FileNode>, path: Seq<char>, size: u64) -> bool {
    exists|k: int|
        0 <= k < ks.len() && (#[trigger] ks[k]).path@ == path && ks[k].size == size
            && !ks[k].is_dir
}

/// `c` comes from the maps: it reports a listed direct subdirectory of the
/// root with its non-zero aggregate, or a listed file directly in the root
/// with its recorded size.  Nothing else may appear as a root child.
pub open spec fn kid_from_maps(
    c: FileNode,
    dirs: Seq<(Seq<char>, u64)>,
    files: Seq<(Seq<char>, u64)>,
    root: Seq<char>,
) -> bool {
    ||| exists|j: int|
        0 <= j < dirs.len() && (#[trigger] dirs[j]).0 == c.path@ && direct_child(
            dirs[j].0,
            root,
        ) && dirs[j].1 == c.size && dirs[j].1 > 0 && c.is_dir
    ||| exists|j: int|
        0 <= j < files.len() && (#[trigger] files[j]).0 == c.path@ && direct_child(
            files[j].0,
            root,
        ) && files[j].1 == c.size && !c.is_dir
}

/// The children report the maps faithfully: every child comes from the
/// maps, a qualifying entry missing from the children is outweighed by
/// every kept child (only the cap drops anything), and within the cap
/// nothing qualifying is missing.
#[verifier::opaque]
pub open spec fn kids_report_maps(
    ks: Seq<FileNode>,
    dirs: Seq<(Seq<char>, u64)>,
    files: Seq<(Seq<char>, u64)>,
    root: Seq<char>,
) -> bool {
    &&& forall|k: int|
        0 <= k < ks.len() ==> kid_from_maps(#[trigger] ks[k], dirs, files, root)
    &&& forall|j: int|
        0 <= j < dirs.len() && direct_child((#[trigger] dirs[j]).0, root) && dirs[j].1 > 0
            && !has_dir_kid(ks, dirs[j].0, dirs[j].1) ==> forall|k: int|
            0 <= k < ks.len() ==> (#[trigger] ks[k]).size >= dirs[j].1
    &&& forall|j: int|
        0 <= j < files.len() && direct_child((#[trigger] files[j]).0, root) && !has_file_kid(
            ks,
            files[j].0,
            files[j].1,
        ) ==> forall|k: int| 0 <= k < ks.len() ==> (#[trigger] ks[k]).size >= files[j].1
    &&& dirs.len() + files.len() <= 100 ==> {
        &&& forall|j: int|
            0 <= j < dirs.len() && direct_child((#[trigger] dirs[j]).0, root) && dirs[j].1 > 0
                ==> has_dir_kid(ks, dirs[j].0, dirs[j].1)
        &&& forall|j: int|
            0 <= j < files.len() && direct_child((#[trigger] files[j]).0, root) ==> has_file_kid(
                ks,
                files[j].0,
                files[j].1,
            )
    }
}

/// Carry the per-node facts of the built children across sorting and the
/// cap: the kept prefix stays well-formed and map-sourced, anything
/// qualifying that fell past the cap is outweighed by everything kept,
/// and under the cap nothing qualifying is missing.
proof fn lemma_finalize_tree(
    dview: Seq<(Seq<char>, u64)>,
    fview: Seq<(Seq<char>, u64)>,
    root: Seq<char>,
    built: Seq<FileNode>,
    sorted_all: Seq<FileNode>,
    ks: Seq<FileNode>,
)
    requires
        sorted_all.to_multiset() == built.to_multiset(),
        sorted_desc(sorted_all),
        forall|k: int| 0 <= k < ks.len() ==> #[trigger] ks[k] == sorted_all[k],
        ks.len() == (if sorted_all.len() <= 100 {
            sorted_all.len() as int
        } else {
            100int
        }),
        forall|k: int|
            0 <= k < built.len() ==> wf_node(#[trigger] built[k]) && kid_from_maps(
                built[k],
                dview,
                fview,
                root,
            ),
        forall|j: int|
            0 <= j < dview.len() && direct_child((#[trigger] dview[j]).0, root) && dview[j].1 > 0
                ==> has_dir_kid(built, dview[j].0, dview[j].1),
        forall|j: int|
            0 <= j < fview.len() && direct_child((#[trigger] fview[j]).0, root)
                ==> has_file_kid(built, fview[j].0, fview[j].1),
        built.len() <= dview.len() + fview.len(),
        sorted_all.len() == built.len(),
    ensures
        forall|k: int| 0 <= k < ks.len() ==> wf_node(#[trigger] ks[k]),
        kids_report_maps(ks, dview, fview, root),
{
    broadcast use vstd::seq_lib::group_to_multiset_ensures;

    assert forall|k: int| 0 <= k < ks.len() implies wf_node(#[trigger] ks[k]) && kid_from_maps(
        ks[k],
        dview,
        fview,
        root,
    ) by {
        assert(ks[k] == sorted_all[k]);
        assert(sorted_all.contains(sorted_all[k]));
        assert(sorted_all.to_multiset().count(sorted_all[k]) > 0);
        assert(built.to_multiset().count(sorted_all[k]) > 0);
        assert(built.contains(sorted_all[k]));
        let idx = choose|idx: int| 0 <= idx < built.len() && built[idx] == sorted_all[k];
        assert(wf_node(built[idx]) && kid_from_maps(built[idx], dview, fview, root));
    }
    assert forall|j: int|
        0 <= j < dview.len() && direct_child((#[trigger] dview[j]).0, root) && dview[j].1 > 0
            && !has_dir_kid(ks, dview[j].0, dview[j].1) implies forall|k: int|
        0 <= k < ks.len() ==> (#[trigger] ks[k]).size >= dview[j].1 by {
        let kb = choose|kb: int|
            0 <= kb < built.len() && (#[trigger] built[kb]).path@ == dview[j].0 && built[kb].size
                == dview[j].1 && built[kb].is_dir;
        let x = built[kb];
        assert(built.contains(x));
        assert(built.to_multiset().count(x) > 0);
        assert(sorted_all.to_multiset().count(x) > 0);
        assert(sorted_all.contains(x));
        let idx = choose|idx: int| 0 <= idx < sorted_all.len() && sorted_all[idx] == x;
        if idx < ks.len() {
            assert(ks[idx] == x);
            assert(0 <= idx < ks.len() && (ks[idx]).path@ == dview[j].0 && ks[idx].size
                == dview[j].1 && ks[idx].is_dir);
        } else {
            assert forall|k: int| 0 <= k < ks.len() implies (#[trigger] ks[k]).size
                >= dview[j].1 by {
                assert(ks[k] == sorted_all[k]);
                assert(sorted_all[k].size >= sorted_all[idx].size);
            }
        }
    }
    assert forall|j: int|
        0 <= j < fview.len() && direct_child((#[trigger] fview[j]).0, root) && !has_file_kid(
            ks,
            fview[j].0,
            fview[j].1,
        ) implies forall|k: int| 0 <= k < ks.len() ==> (#[trigger] ks[k]).size >= fview[j].1 by {
        let kb = choose|kb: int|
            0 <= kb < built.len() && (#[trigger] built[kb]).path@ == fview[j].0 && built[kb].size
                == fview[j].1 && !built[kb].is_dir;
        let x = built[kb];
        assert(built.contains(x));
        assert(built.to_multiset().count(x) > 0);
        assert(sorted_all.to_multiset().count(x) > 0);
        assert(sorted_all.contains(x));
        let idx = choose|idx: int| 0 <= idx < sorted_all.len() && sorted_all[idx] == x;
        if idx < ks.len() {
            assert(ks[idx] == x);
            assert(0 <= idx < ks.len() && (ks[idx]).path@ == fview[j].0 && ks[idx].size
                == fview[j].1 && !ks[idx].is_dir);
        } else {
            assert forall|k: int| 0 <= k < ks.len() implies (#[trigger] ks[k]).size
                >= fview[j].1 by {
                assert(ks[k] == sorted_all[k]);
                assert(sorted_all[k].size >= sorted_all[idx].size);
            }
        }
    }
    if dview.len() + fview.len() <= 100 {
        assert forall|j: int|
            0 <= j < dview.len() && direct_child((#[trigger] dview[j]).0, root) && dview[j].1
                > 0 implies has_dir_kid(ks, dview[j].0, dview[j].1) by {
            let kb = choose|kb: int|
                0 <= kb < built.len() && (#[trigger] built[kb]).path@ == dview[j].0
                    && built[kb].size == dview[j].1 && built[kb].is_dir;
            let x = built[kb];
            assert(built.contains(x));
            assert(built.to_multiset().count(x) > 0);
            assert(sorted_all.to_multiset().count(x) > 0);
            assert(sorted_all.contains(x));
            let idx = choose|idx: int| 0 <= idx < sorted_all.len() && sorted_all[idx] == x;
            assert(ks[idx] == x);
            assert(0 <= idx < ks.len() && (ks[idx]).path@ == dview[j].0 && ks[idx].size
                == dview[j].1 && ks[idx].is_dir);
        }
        assert forall|j: int|
            0 <= j < fview.len() && direct_child((#[trigger] fview[j]).0, root) implies has_file_kid(
            ks,
            fview[j].0,
            fview[j].1,
        ) by {
            let kb = choose|kb: int|
                0 <= kb < built.len() && (#[trigger] built[kb]).path@ == fview[j].0
                    && built[kb].size == fview[j].1 && !built[kb].is_dir;
            let x = built[kb];
            assert(built.contains(x));
            assert(built.to_multiset().count(x) > 0);
            assert(sorted_all.to_multiset().count(x) > 0);
            assert(sorted_all.contains(x));
            let idx = choose|idx: int| 0 <= idx < sorted_all.len() && sorted_all[idx] == x;
            assert(ks[idx] == x);
            assert(0 <= idx < ks.len() && (ks[idx]).path@ == fview[j].0 && ks[idx].size
                == fview[j].1 && !ks[idx].is_dir);
        }
    }
    assert(kids_report_maps(ks, dview, fview, root)) by {
        reveal(kids_report_maps);
    }
}

/// A leaf node for one discovered file.
fn make_file_node(path: &str, size: u64) -> (r: FileNode)
    requires
        is_canonical_path(path@),
    ensures
        wf_node(r),
        r.path@ == path@,
        r.size == size,
        !r.is_dir,
        r.name@ == last_component_of(path@),
        kids(r) =~= Seq::<FileNode>::empty(),
{
    let name = crate::paths::last_component(path);
    let r = FileNode {
        name,
        path: String::from_str(path),
        size,
        is_dir: false,
        children: Option::None,
    };
    proof {
        assert(kids(r) =~= Seq::<FileNode>::empty());
        assert(sum_child_sizes(kids(r)) == 0);
    }
    r
}

/// Collect the root's children from the maps: one directory node per
/// listed direct subdirectory with a non-zero aggregate, carrying the
/// files directly inside it, then one leaf per file directly in the root.
#[verifier::rlimit(60)]
fn collect_dir_children(files: &SizeMap, dirs: &SizeMap, root: &str) -> (out: Vec<FileNode>)
    requires
        files.wf(),
        dirs.wf(),
        is_canonical_path(root@),
        files_inside(files@, root@),
        dirs_coherent(dirs@, files@, root@),
    ensures
        sum_child_sizes(out@) == sum_selected(dirs@, files@, root@),
        out@.len() <= dirs@.len(),
        forall|k: int|
            0 <= k < out@.len() ==> wf_node(#[trigger] out@[k]) && kid_from_maps(
                out@[k],
                dirs@,
                files@,
                root@,
            ),
        forall|j: int|
            0 <= j < dirs@.len() && direct_child((#[trigger] dirs@[j]).0, root@) && dirs@[j].1 > 0
                ==> has_dir_kid(out@, dirs@[j].0, dirs@[j].1),
{
    let mut children: Vec<FileNode> = Vec::new();
    let ghost fview = files@;
    let ghost dview = dirs@;

    // One node per direct subdirectory of the root with a non-zero
    // aggregate, carrying the files directly inside it.
    let mut di: usize = 0;
    proof {
        assert(dview.take(0) =~= Seq::<(Seq<char>, u64)>::empty());
    }
    while di < dirs.entries.len()
        invariant
            di <= dview.len(),
            dview == dirs@,
            fview == files@,
            dview.len() == dirs.entries@.len(),
            files@.len() == files.entries@.len(),
            files.wf(),
            dirs.wf(),
            is_canonical_path(root@),
            files_inside(fview, root@),
            dirs_coherent(dview, fview, root@),
            forall|j: int|
                0 <= j < dview.len() ==> dview[j] == ((#[trigger] dirs.entries@[j]).0@,
                dirs.entries@[j].1),
            forall|j: int|
                0 <= j < fview.len() ==> fview[j] == ((#[trigger] files.entries@[j]).0@,
                files.entries@[j].1),
            sum_child_sizes(children@) == sum_selected(dview.take(di as int), fview, root@),
            children@.len() <= di,
            forall|k: int| 0 <= k < children@.len() ==> wf_node(#[trigger] children@[k]),
            forall|k: int|
                0 <= k < children@.len() ==> kid_from_maps(
                    #[trigger] children@[k],
                    dview,
                    fview,
                    root@,
                ),
            forall|j: int|
                0 <= j < di && direct_child((#[trigger] dview[j]).0, root@) && dview[j].1 > 0
                    ==> exists|k: int|
                    0 <= k < children@.len() && (#[trigger] children@[k]).path@ == dview[j].0
                        && children@[k].size == dview[j].1 && children@[k].is_dir,
        decreases dview.len() - di,
    {
        let dpath: &str = dirs.entries[di].0.as_str();
        let dval: u64 = dirs.entries[di].1;
        let selected = crate::paths::is_direct_child(dpath, root);
        proof {
            assert(dview.take(di + 1).drop_last() =~= dview.take(di as int));
            assert(dview.take(di + 1).last() == dview[di as int]);
        }
        if selected && dval > 0 {
            // Collect the files directly inside this subdirectory.
            let mut sub: Vec<FileNode> = Vec::new();
            let mut fi: usize = 0;
            proof {
                assert(fview.take(0) =~= Seq::<(Seq<char>, u64)>::empty());
            }
            while fi < files.entries.len()
                invariant
                    fi <= fview.len(),
                    fview == files@,
                    files@.len() == files.entries@.len(),
                    files_inside(fview, root@),
                    forall|j: int|
                        0 <= j < fview.len() ==> fview[j] == ((#[trigger] files.entries@[j]).0@,
                        files.entries@[j].1),
                    dpath@ == dview[di as int].0,
                    0 <= di < dview.len(),
                    dview == dirs@,
                    sum_child_sizes(sub@) == sum_direct(fview.take(fi as int), dpath@),
                    forall|k: int| 0 <= k < sub@.len() ==> wf_node(#[trigger] sub@[k]),
                decreases fview.len() - fi,
            {
                let fpath: &str = files.entries[fi].0.as_str();
                let fval: u64 = files.entries[fi].1;
                proof {
                    assert(fview.take(fi + 1).drop_last() =~= fview.take(fi as int));
                    assert(fview.take(fi + 1).last() == fview[fi as int]);
                }
                if crate::paths::is_direct_child(fpath, dpath) {
                    let leaf = make_file_node(fpath, fval);
                    let ghost prev = sub@;
                    sub.push(leaf);
                    proof {
                        lemma_sum_child_sizes_snoc(prev, leaf);
                    }
                }
                fi = fi + 1;
            }
            proof {
                assert(fview.take(fview.len() as int) =~= fview);
                lemma_sums_nonneg(fview, dpath@);
            }
            let sub_children: Option<Vec<FileNode>> = if sub.len() == 0 {
                Option::None
            } else {
                Option::Some(sub)
            };
            let dnode = FileNode {
                name: crate::paths::last_component(dpath),
                path: String::from_str(dpath),
                size: dval,
                is_dir: true,
                children: sub_children,
            };
            proof {
                assert(wf_node(dnode)) by {
                    assert(sum_child_sizes(kids(dnode)) <= dnode.size) by {
                        if dnode.children is Some {
                            assert(sum_child_sizes(kids(dnode)) == sum_direct(fview, dpath@));
                        } else {
                            assert(kids(dnode) =~= Seq::<FileNode>::empty());
                        }
                    }
                }
            }
            let ghost prev = children@;
            children.push(dnode);
            proof {
                lemma_sum_child_sizes_snoc(prev, dnode);
                assert(dnode.size == sum_inside(fview, dview[di as int].0));
                assert(kid_from_maps(dnode, dview, fview, root@)) by {
                    reveal(kid_from_maps);
                    assert(0 <= di < dview.len() && (#[trigger] dview[di as int]).0
                        == dnode.path@ && direct_child(dview[di as int].0, root@) && dview[di as int].1
                        == dnode.size && dview[di as int].1 > 0 && dnode.is_dir);
                }
                assert forall|j: int|
                    0 <= j < di + 1 && direct_child((#[trigger] dview[j]).0, root@) && dview[j].1
                        > 0 implies exists|k: int|
                    0 <= k < children@.len() && (#[trigger] children@[k]).path@ == dview[j].0
                        && children@[k].size == dview[j].1 && children@[k].is_dir by {
                    if j < di {
                        let k = choose|k: int|
                            0 <= k < prev.len() && (#[trigger] prev[k]).path@ == dview[j].0
                                && prev[k].size == dview[j].1 && prev[k].is_dir;
                        assert(children@[k] == prev[k]);
                    } else {
                        let k = prev.len() as int;
                        assert(children@[k] == dnode);
                        assert(children@[k].path@ == dview[j].0);
                    }
                }
            }
        } else {
            proof {
                if selected {
                    // A zero aggregate adds nothing to the running sum.
                    assert(sum_inside(fview, dview[di as int].0) == dview[di as int].1);
                }
            }
        }
        di = di + 1;
    }
    proof {
        assert(dview.take(dview.len() as int) =~= dview);
    }

    children
}

/// Append one leaf per file directly in the root, keeping every fact
/// already collected about the directory nodes.
#[verifier::rlimit(60)]
fn append_root_files(acc: Vec<FileNode>, files: &SizeMap, dirs: &SizeMap, root: &str) -> (out:
    Vec<FileNode>)
    requires
        files.wf(),
        is_canonical_path(root@),
        files_inside(files@, root@),
        forall|k: int|
            0 <= k < acc@.len() ==> wf_node(#[trigger] acc@[k]) && kid_from_maps(
                acc@[k],
                dirs@,
                files@,
                root@,
            ),
        forall|j: int|
            0 <= j < dirs@.len() && direct_child((#[trigger] dirs@[j]).0, root@) && dirs@[j].1 > 0
                ==> has_dir_kid(acc@, dirs@[j].0, dirs@[j].1),
    ensures
        sum_child_sizes(out@) == sum_child_sizes(acc@) + sum_direct(files@, root@),
        out@.len() <= acc@.len() + files@.len(),
        forall|k: int|
            0 <= k < out@.len() ==> wf_node(#[trigger] out@[k]) && kid_from_maps(
                out@[k],
                dirs@,
                files@,
                root@,
            ),
        forall|j: int|
            0 <= j < dirs@.len() && direct_child((#[trigger] dirs@[j]).0, root@) && dirs@[j].1 > 0
                ==> has_dir_kid(out@, dirs@[j].0, dirs@[j].1),
        forall|j: int|
            0 <= j < files@.len() && direct_child((#[trigger] files@[j]).0, root@)
                ==> has_file_kid(out@, files@[j].0, files@[j].1),
{
    let mut children: Vec<FileNode> = acc;
    let ghost base = children@;
    let ghost fview = files@;
    let ghost dview = dirs@;
    // The files directly in the root.
    let mut fi: usize = 0;
    proof {
        assert(fview.take(0) =~= Seq::<(Seq<char>, u64)>::empty());
    }
    while fi < files.entries.len()
        invariant
            fi <= fview.len(),
            fview == files@,
            dview == dirs@,
            files@.len() == files.entries@.len(),
            is_canonical_path(root@),
            files_inside(fview, root@),
            forall|j: int|
                0 <= j < fview.len() ==> fview[j] == ((#[trigger] files.entries@[j]).0@,
                files.entries@[j].1),
            sum_child_sizes(children@) == sum_child_sizes(base) + sum_direct(
                fview.take(fi as int),
                root@,
            ),
            children@.len() <= base.len() + fi,
            forall|k: int| 0 <= k < children@.len() ==> wf_node(#[trigger] children@[k]),
            forall|k: int|
                0 <= k < children@.len() ==> kid_from_maps(
                    #[trigger] children@[k],
                    dview,
                    fview,
                    root@,
                ),
            forall|j: int|
                0 <= j < dview.len() && direct_child((#[trigger] dview[j]).0, root@) && dview[j].1
                    > 0 ==> exists|k: int|
                    0 <= k < children@.len() && (#[trigger] children@[k]).path@ == dview[j].0
                        && children@[k].size == dview[j].1 && children@[k].is_dir,
            forall|j: int|
                0 <= j < fi && direct_child((#[trigger] fview[j]).0, root@) ==> exists|k: int|
                    0 <= k < children@.len() && (#[trigger] children@[k]).path@ == fview[j].0
                        && children@[k].size == fview[j].1 && !children@[k].is_dir,
        decreases fview.len() - fi,
    {
        let fpath: &str = files.entries[fi].0.as_str();
        let fval: u64 = files.entries[fi].1;
        proof {
            assert(fview.take(fi + 1).drop_last() =~= fview.take(fi as int));
            assert(fview.take(fi + 1).last() == fview[fi as int]);
        }
        if crate::paths::is_direct_child(fpath, root) {
            let leaf = make_file_node(fpath, fval);
            let ghost prev = children@;
            children.push(leaf);
            proof {
                lemma_sum_child_sizes_snoc(prev, leaf);
                assert(kid_from_maps(leaf, dview, fview, root@)) by {
                    reveal(kid_from_maps);
                    assert(0 <= fi < fview.len() && (#[trigger] fview[fi as int]).0
                        == leaf.path@ && direct_child(fview[fi as int].0, root@)
                        && fview[fi as int].1 == leaf.size && !leaf.is_dir);
                }
                assert forall|j: int|
                    0 <= j < dview.len() && direct_child((#[trigger] dview[j]).0, root@)
                        && dview[j].1 > 0 implies exists|k: int|
                    0 <= k < children@.len() && (#[trigger] children@[k]).path@ == dview[j].0
                        && children@[k].size == dview[j].1 && children@[k].is_dir by {
                    let k = choose|k: int|
                        0 <= k < prev.len() && (#[trigger] prev[k]).path@ == dview[j].0
                            && prev[k].size == dview[j].1 && prev[k].is_dir;
                    assert(children@[k] == prev[k]);
                }
                assert forall|j: int|
                    0 <= j < fi + 1 && direct_child((#[trigger] fview[j]).0, root@) implies exists|
                k: int|
                    0 <= k < children@.len() && (#[trigger] children@[k]).path@ == fview[j].0
                        && children@[k].size == fview[j].1 && !children@[k].is_dir by {
                    if j < fi {
                        let k = choose|k: int|
                            0 <= k < prev.len() && (#[trigger] prev[k]).path@ == fview[j].0
                                && prev[k].size == fview[j].1 && !prev[k].is_dir;
                        assert(children@[k] == prev[k]);
                    } else {
                        let k = prev.len() as int;
                        assert(children@[k] == leaf);
                    }
                }
            }
        }
        fi = fi + 1;
    }
    proof {
        assert(fview.take(fview.len() as int) =~= fview);
    }

    children
}

fn collect_children(files: &SizeMap, dirs: &SizeMap, root: &str) -> (out: Vec<FileNode>)
    requires
        files.wf(),
        dirs.wf(),
        is_canonical_path(root@),
        files_inside(files@, root@),
        dirs_coherent(dirs@, files@, root@),
    ensures
        sum_child_sizes(out@) == sum_selected(dirs@, files@, root@) + sum_direct(files@, root@),
        out@.len() <= dirs@.len() + files@.len(),
        forall|k: int|
            0 <= k < out@.len() ==> wf_node(#[trigger] out@[k]) && kid_from_maps(
                out@[k],
                dirs@,
                files@,
                root@,
            ),
        forall|j: int|
            0 <= j < dirs@.len() && direct_child((#[trigger] dirs@[j]).0, root@) && dirs@[j].1 > 0
                ==> has_dir_kid(out@, dirs@[j].0, dirs@[j].1),
        forall|j: int|
            0 <= j < files@.len() && direct_child((#[trigger] files@[j]).0, root@)
                ==> has_file_kid(out@, files@[j].0, files@[j].1),
{
    let dir_nodes = collect_dir_children(files, dirs, root);
    append_root_files(dir_nodes, files, dirs, root)
}

/// Sort nodes by descending size and keep at most the first hundred: the
/// result is the kept prefix of the returned descending ordering of the
/// input.
fn order_and_cap(v: Vec<FileNode>) -> (r: (Vec<FileNode>, Ghost<Seq<FileNode>>))
    ensures
        sorted_desc(r.0@),
        r.0@.len() == (if v@.len() <= 100 {
            v@.len() as int
        } else {
            100int
        }),
        sum_child_sizes(r.0@) <= sum_child_sizes(v@),
        v@.len() <= 100 ==> sum_child_sizes(r.0@) == sum_child_sizes(v@),
        r.1@.to_multiset() == v@.to_multiset(),
        r.1@.len() == v@.len(),
        sorted_desc(r.1@),
        r.0@ == r.1@.take(r.0@.len() as int),
{
    let ghost orig = v@;
    let mut v = v;
    sort_nodes_desc(&mut v);
    let ghost sorted_all = v@;
    if v.len() > 100 {
        v.truncate(100);
    }
    proof {
        if sorted_all.len() > 100 {
            assert(v@ =~= sorted_all.take(100));
            lemma_sum_child_sizes_take(sorted_all, 100);
        } else {
            assert(v@ =~= sorted_all.take(v@.len() as int));
        }
        assert(forall|k: int| 0 <= k < v@.len() ==> v@[k] == sorted_all[k]);
        assert(sorted_desc(v@));
    }
    (v, Ghost(sorted_all))
}

/// Build the root node from the flat maps.
///
/// The result's size is the exact total of the discovered files; its
/// children are the direct subdirectories of the root with non-zero
/// aggregates (each carrying the files directly inside it) and the files
/// directly in the root, sorted by descending size and capped at 100.  The
/// whole tree is well-formed: children never sum above their parent.
#[verifier::rlimit(60)]
pub fn build_tree_from_files(files: &SizeMap, dirs: &SizeMap, root: &str, home: &str) -> (r:
    FileNode)
    requires
        files.wf(),
        dirs.wf(),
        is_canonical_path(root@),
        files_inside(files@, root@),
        dirs_coherent(dirs@, files@, root@),
        sum_vals(files@) <= u64::MAX,
    ensures
        wf_node(r),
        r.is_dir,
        r.path@ == root@,
        r.name@ == root_name_spec(root@, home@),
        r.size == sum_vals(files@),
        sorted_desc(kids(r)),
        kids(r).len() <= 100,
        // Children come only from the maps, the cap keeps the largest, and
        // within the cap nothing qualifying is missing.
        kids_report_maps(kids(r), dirs@, files@, root@),
        dirs@.len() + files@.len() <= 100 ==> sum_child_sizes(kids(r)) == sum_selected(
            dirs@,
            files@,
            root@,
        ) + sum_direct(files@, root@),
{
    // Total size: the sum of every discovered file.
    let mut total: u64 = 0;
    let mut i: usize = 0;
    proof {
        assert(files@.take(0) =~= Seq::<(Seq<char>, u64)>::empty());
    }
    while i < files.entries.len()
        invariant
            i <= files@.len(),
            files@.len() == files.entries@.len(),
            forall|j: int|
                0 <= j < files@.len() ==> files@[j] == ((#[trigger] files.entries@[j]).0@,
                files.entries@[j].1),
            sum_vals(files@) <= u64::MAX,
            total == sum_vals(files@.take(i as int)),
        decreases files@.len() - i,
    {
        proof {
            assert(files@.take(i + 1).drop_last() =~= files@.take(i as int));
            assert(files@.take(i + 1).last() == files@[i as int]);
            lemma_sum_vals_take_bound(files@, i + 1);
        }
        total = total + files.entries[i].1;
        i = i + 1;
    }
    proof {
        assert(files@.take(files@.len() as int) =~= files@);
    }

    let built_vec = collect_children(files, dirs, root);
    let ghost built = built_vec@;
    proof {
        lemma_partition(dirs@, files@, root@);
        assert(sum_child_sizes(built) <= sum_vals(files@));
    }

    // Largest first, and only the largest hundred.
    let pair = order_and_cap(built_vec);
    let children = pair.0;
    let ghost sg = pair.1@;

    // Name the root: `Root` for `/`, `Home` for the home directory, else
    // the final component.
    let name: String = if crate::paths::str_eq(root, "/") {
        proof {
            reveal_strlit("/");
            assert(root@ =~= root_seq());
        }
        String::from_str("Root")
    } else {
        proof {
            reveal_strlit("/");
            if root@ == root_seq() {
                assert(root@.len() == 1 && root@[0] == '/');
                assert(root@ =~= "/"@);
            }
        }
        if crate::paths::str_eq(root, home) {
            String::from_str("Home")
        } else {
            crate::paths::last_component(root)
        }
    };

    let out_children: Option<Vec<FileNode>> = if children.len() == 0 {
        Option::None
    } else {
        Option::Some(children)
    };
    let r = FileNode {
        name,
        path: String::from_str(root),
        size: total,
        is_dir: true,
        children: out_children,
    };
    proof {
        if r.children is None {
            assert(kids(r) =~= Seq::<FileNode>::empty());
            assert(sum_child_sizes(kids(r)) == 0);
        }
        lemma_sums_nonneg(files@, root@);
        assert(forall|k: int| 0 <= k < kids(r).len() ==> #[trigger] kids(r)[k] == sg[k]);
        lemma_finalize_tree(dirs@, files@, root@, built, sg, kids(r));
        assert(sum_child_sizes(kids(r)) <= sum_vals(files@));
        assert(wf_node(r));
        if dirs@.len() + files@.len() <= 100 {
            assert(built.len() <= 100);
            assert(sg.len() <= 100);
            assert(sum_child_sizes(kids(r)) == sum_selected(dirs@, files@, root@) + sum_direct(
                files@,
                root@,
            ));
        }
    }
    r
}

proof fn lemma_sum_vals_take_bound(s: Seq<(Seq<char>, u64)>, k: int)
    requires
        0 <= k <= s.len(),
    ensures
        sum_vals(s.take(k)) <= sum_vals(s),
    decreases s.len(),
{
    if k == s.len() {
        assert(s.take(k) =~= s);
    } else {
        assert(s.drop_last().take(k) =~= s.take(k));
        lemma_sum_vals_take_bound(s.drop_last(), k);
    }
}

} // verus!
