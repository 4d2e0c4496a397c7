//! Absolute paths as plain strings.
//!
//! The engine works on canonical absolute paths: they start with `/`, have no
//! empty segment (no `//`), and no trailing `/` except for the filesystem
//! root `/` itself.  Nesting is the textual counterpart of component-wise
//! path containment: `p` lies strictly inside `d` when `d` is a proper
//! path-prefix of `p` followed by a separator.

use vstd::prelude::*;

verus! {

/// The view of the filesystem root path `/`.
pub open spec fn root_seq() -> Seq<char> {
    seq!['/']
}

/// `s` is a canonical absolute path: nonempty, leading `/`, no `//`, and no
/// trailing `/` unless `s` is `/` itself.
pub open spec fn is_canonical_path(s: Seq<char>) -> bool {
    &&& s.len() >= 1
    &&& s[0] == '/'
    &&& (s.len() == 1 || s[s.len() - 1] != '/')
    &&& forall|i: int| 0 <= i < s.len() - 1 ==> !(s[i] == '/' && #[trigger] s[i + 1] == '/')
}

/// `p` lies strictly inside directory `d`: `d` is a proper path-prefix of
/// `p` and the next character of `p` is the separator.  For `d == /` every
/// longer absolute path is inside.
pub open spec fn path_inside(p: Seq<char>, d: Seq<char>) -> bool {
    if d == root_seq() {
        p.len() > 1 && p[0] == '/'
    } else {
        &&& p.len() > d.len()
        &&& p.subrange(0, d.len() as int) == d
        &&& p[d.len() as int] == '/'
    }
}

/// `p` is `d` itself or lies strictly inside it.
pub open spec fn path_under(p: Seq<char>, d: Seq<char>) -> bool {
    p == d || path_inside(p, d)
}

/// The length of the prefix of `d` that its entries extend: `/` contributes
/// nothing but the separator, every other directory contributes itself.
pub open spec fn dir_prefix_len(d: Seq<char>) -> int {
    if d == root_seq() {
        0
    } else {
        d.len() as int
    }
}

/// `p` is a direct entry of directory `d`: strictly inside `d`, and the part
/// after `d`'s separator holds no further separator.
pub open spec fn direct_child(p: Seq<char>, d: Seq<char>) -> bool {
    &&& path_inside(p, d)
    &&& forall|i: int| dir_prefix_len(d) + 1 <= i < p.len() ==> #[trigger] p[i] != '/'
}

/// Index of the last `/` in `s`, or `-1` if none.
pub open spec fn last_slash(s: Seq<char>) -> int
    decreases s.len(),
{
    if s.len() == 0 {
        -1
    } else if s[s.len() - 1] == '/' {
        s.len() - 1
    } else {
        last_slash(s.drop_last())
    }
}

/// The parent directory of canonical `p`, or `None` for the root `/`.
pub open spec fn parent_of(p: Seq<char>) -> Option<Seq<char>> {
    if p == root_seq() {
        Option::None
    } else if last_slash(p) == 0 {
        Option::Some(root_seq())
    } else {
        Option::Some(p.subrange(0, last_slash(p)))
    }
}

/// The final path component of canonical `p` (everything after the last
/// separator).
pub open spec fn last_component_of(p: Seq<char>) -> Seq<char> {
    p.subrange(last_slash(p) + 1, p.len() as int)
}

pub proof fn lemma_last_slash_bounds(s: Seq<char>)
    ensures
        -1 <= last_slash(s) < s.len(),
        last_slash(s) >= 0 ==> s[last_slash(s)] == '/',
        forall|i: int| last_slash(s) < i < s.len() ==> #[trigger] s[i] != '/',
    decreases s.len(),
{
    if s.len() == 0 {
    } else if s[s.len() - 1] == '/' {
    } else {
        lemma_last_slash_bounds(s.drop_last());
        assert forall|i: int| last_slash(s) < i < s.len() implies #[trigger] s[i] != '/' by {
            if i < s.len() - 1 {
                assert(s.drop_last()[i] == s[i]);
            }
        }
    }
}

/// A slash occurs in canonical non-root `p`, so `last_slash` finds one.
pub proof fn lemma_last_slash_exists(p: Seq<char>)
    requires
        p.len() >= 1,
        p[0] == '/',
    ensures
        0 <= last_slash(p) < p.len(),
{
    lemma_last_slash_bounds(p);
    if last_slash(p) < 0 {
        assert(p[0] != '/');
    }
}

/// The parent of a canonical path other than `/` exists, is canonical,
/// contains `p`, and is strictly shorter.
pub proof fn lemma_parent_canonical(p: Seq<char>)
    requires
        is_canonical_path(p),
        p != root_seq(),
    ensures
        parent_of(p) is Some,
        is_canonical_path(parent_of(p)->Some_0),
        path_inside(p, parent_of(p)->Some_0),
        parent_of(p)->Some_0.len() < p.len(),
{
    lemma_last_slash_exists(p);
    lemma_last_slash_bounds(p);
    let ls = last_slash(p);
    if p.len() == 1 {
        assert(p =~= root_seq());
    }
    assert(p.len() >= 2);
    if ls == p.len() - 1 {
        assert(p[p.len() - 1] == '/');
    }
    assert(ls < p.len() - 1);
    if ls == 0 {
        assert(path_inside(p, root_seq()));
    } else {
        if ls == 1 {
            assert(p[ls] == '/');
            assert(!(p[0int] == '/' && p[0int + 1] == '/'));
            assert(false);
        }
        assert(ls >= 2);
        let d = p.subrange(0, ls);
        assert(d[0] == '/');
        assert(d[d.len() - 1] == p[ls - 1]);
        assert(!(p[ls - 1] == '/' && p[ls - 1 + 1] == '/'));
        assert(d[d.len() - 1] != '/');
        assert forall|i: int| 0 <= i < d.len() - 1 implies !(d[i] == '/'
            && #[trigger] d[i + 1] == '/') by {
            assert(d[i] == p[i] && d[i + 1] == p[i + 1]);
        }
        if d =~= root_seq() {
            assert(false);
        }
        assert(path_inside(p, d));
    }
}

/// Containment is transitive: inside `q` inside `d` puts `p` inside `d`.
pub proof fn lemma_inside_trans(p: Seq<char>, q: Seq<char>, d: Seq<char>)
    requires
        path_inside(p, q),
        path_inside(q, d),
    ensures
        path_inside(p, d),
{
    if d == root_seq() {
        if q == root_seq() {
        } else {
            assert(p[0] == q[0]) by {
                assert(p.subrange(0, q.len() as int)[0] == q[0]);
            }
        }
    } else if q == root_seq() {
        assert(d.len() == 0);
        assert(p.subrange(0, 0) =~= d);
    } else {
        assert(p.subrange(0, d.len() as int) =~= d) by {
            assert forall|i: int| 0 <= i < d.len() implies p.subrange(0, d.len() as int)[i]
                == d[i] by {
                assert(p.subrange(0, q.len() as int)[i] == q[i]);
                assert(q.subrange(0, d.len() as int)[i] == d[i]);
            }
        }
        assert(p[d.len() as int] == q[d.len() as int]) by {
            assert(p.subrange(0, q.len() as int)[d.len() as int] == q[d.len() as int]);
        }
    }
}

/// Every directory strictly containing `p` is the parent of `p` or contains
/// that parent in turn: ancestors form a single chain.
pub proof fn lemma_ancestor_chain(p: Seq<char>, d: Seq<char>)
    requires
        is_canonical_path(p),
        p != root_seq(),
        path_inside(p, d),
        d == root_seq() || is_canonical_path(d),
    ensures
        d == parent_of(p)->Some_0 || path_inside(parent_of(p)->Some_0, d),
{
    lemma_parent_canonical(p);
    lemma_last_slash_bounds(p);
    let ls = last_slash(p);
    let q = parent_of(p)->Some_0;
    assert(ls >= 1 ==> ls >= 2) by {
        if ls == 1 {
            assert(p[ls] == '/');
            assert(!(p[0int] == '/' && p[0int + 1] == '/'));
        }
    }
    if d == root_seq() {
        if q != root_seq() {
            assert(q[0] == p[0]);
            assert(path_inside(q, d));
        }
    } else {
        assert(p[d.len() as int] == '/') by {
            assert(p.subrange(0, d.len() as int) == d);
        }
        assert(d.len() <= ls);
        if d.len() == ls {
            assert(ls >= 1);
            assert(ls >= 2);
            assert(q =~= p.subrange(0, ls));
            assert(d =~= q) by {
                assert forall|i: int| 0 <= i < d.len() implies d[i] == q[i] by {
                    assert(p.subrange(0, d.len() as int)[i] == d[i]);
                }
            }
        } else {
            if ls == 0 {
                assert(d.len() < 0);
            }
            assert(ls >= 2);
            assert(q =~= p.subrange(0, ls));
            assert(path_inside(q, d)) by {
                assert(q.subrange(0, d.len() as int) =~= d) by {
                    assert forall|i: int| 0 <= i < d.len() implies q.subrange(
                        0,
                        d.len() as int,
                    )[i] == d[i] by {
                        assert(q[i] == p[i]);
                        assert(p.subrange(0, d.len() as int)[i] == d[i]);
                    }
                }
                assert(q[d.len() as int] == p[d.len() as int]);
            }
        }
    }
}

/// A path strictly inside a directory `d` that is itself a direct child of
/// `root` reaches past `d`'s separator, so `d` is at least two characters
/// longer than `root`'s entry prefix.
pub proof fn lemma_child_min_len(d: Seq<char>, root: Seq<char>)
    requires
        is_canonical_path(d),
        is_canonical_path(root),
        path_inside(d, root),
    ensures
        d.len() >= dir_prefix_len(root) + 2,
{
    if root == root_seq() {
    } else {
        assert(root.len() >= 2) by {
            if root.len() == 1 {
                assert(root =~= root_seq());
            }
        }
        if d.len() == root.len() + 1 {
            assert(d[d.len() - 1] == '/');
        }
    }
}

/// Two distinct direct subdirectories of the same root contain no common
/// path: sibling subtrees are disjoint.
pub proof fn lemma_siblings_disjoint(p: Seq<char>, d1: Seq<char>, d2: Seq<char>, root: Seq<char>)
    requires
        is_canonical_path(d1),
        is_canonical_path(d2),
        is_canonical_path(root),
        direct_child(d1, root),
        direct_child(d2, root),
        d1 != d2,
        path_inside(p, d1),
    ensures
        !path_inside(p, d2),
{
    lemma_child_min_len(d1, root);
    lemma_child_min_len(d2, root);
    if path_inside(p, d2) {
        assert(d1 != root_seq() && d2 != root_seq());
        assert(p.subrange(0, d1.len() as int) == d1);
        assert(p.subrange(0, d2.len() as int) == d2);
        if d1.len() == d2.len() {
            assert(d1 =~= d2);
        } else if d1.len() < d2.len() {
            assert(p[d1.len() as int] == '/');
            assert(d2[d1.len() as int] == '/') by {
                assert(p.subrange(0, d2.len() as int)[d1.len() as int] == d2[d1.len() as int]);
            }
            assert(dir_prefix_len(root) + 1 <= d1.len() < d2.len());
        } else {
            assert(p[d2.len() as int] == '/');
            assert(d1[d2.len() as int] == '/') by {
                assert(p.subrange(0, d1.len() as int)[d2.len() as int] == d1[d2.len() as int]);
            }
            assert(dir_prefix_len(root) + 1 <= d2.len() < d1.len());
        }
    }
}

/// First index at or after `i` holding `/`, else the length.
pub open spec fn first_slash_from(s: Seq<char>, i: int) -> int
    decreases s.len() - i,
{
    if i < 0 || i >= s.len() {
        s.len() as int
    } else if s[i] == '/' {
        i
    } else {
        first_slash_from(s, i + 1)
    }
}

pub proof fn lemma_first_slash_props(s: Seq<char>, i: int)
    requires
        0 <= i <= s.len(),
    ensures
        i <= first_slash_from(s, i) <= s.len(),
        forall|j: int| i <= j < first_slash_from(s, i) ==> #[trigger] s[j] != '/',
        first_slash_from(s, i) < s.len() ==> s[first_slash_from(s, i)] == '/',
    decreases s.len() - i,
{
    if i < s.len() && s[i] != '/' {
        lemma_first_slash_props(s, i + 1);
    }
}

/// A path strictly inside `root` that is not a direct entry of it lies
/// inside a direct subdirectory of `root`: the branch cut at the first
/// separator past `root`'s own.
pub proof fn lemma_child_split(p: Seq<char>, root: Seq<char>)
    requires
        is_canonical_path(p),
        is_canonical_path(root),
        path_inside(p, root),
        !direct_child(p, root),
    ensures
        exists|a: Seq<char>|
            {
                &&& is_canonical_path(a)
                &&& #[trigger] path_inside(p, a)
                &&& direct_child(a, root)
            },
{
    let pre = dir_prefix_len(root);
    assert(p[pre] == '/') by {
        if root == root_seq() {
        } else {
            assert(p[root.len() as int] == '/');
        }
    }
    assert(0 <= pre < p.len() - 1) by {
        lemma_child_min_len(p, root);
    }
    lemma_first_slash_props(p, pre + 1);
    let i0 = first_slash_from(p, pre + 1);
    assert(i0 < p.len()) by {
        if i0 == p.len() {
            assert(forall|j: int| pre + 1 <= j < p.len() ==> #[trigger] p[j] != '/');
            assert(direct_child(p, root));
        }
    }
    assert(i0 > pre + 1) by {
        if i0 == pre + 1 {
            assert(p[pre + 1] == '/');
            assert(!(p[pre] == '/' && p[pre + 1] == '/'));
        }
    }
    let a = p.subrange(0, i0);
    assert(is_canonical_path(a)) by {
        assert(a[0] == p[0]);
        assert(p[0] == '/') by {
            if root == root_seq() {
            } else {
                assert(p.subrange(0, root.len() as int)[0] == root[0]);
            }
        }
        assert(a[a.len() - 1] == p[i0 - 1]);
        assert(p[i0 - 1] != '/');
        assert forall|j: int| 0 <= j < a.len() - 1 implies !(a[j] == '/' && #[trigger] a[j + 1]
            == '/') by {
            assert(a[j] == p[j] && a[j + 1] == p[j + 1]);
        }
    }
    assert(a != root_seq()) by {
        assert(a.len() == i0 >= pre + 2 >= 2);
    }
    assert(path_inside(p, a)) by {
        assert(p.subrange(0, a.len() as int) =~= a);
        assert(p[a.len() as int] == '/');
    }
    assert(direct_child(a, root)) by {
        assert(path_inside(a, root)) by {
            if root == root_seq() {
                assert(a.len() > 1 && a[0] == '/');
            } else {
                assert(a.subrange(0, root.len() as int) =~= p.subrange(0, root.len() as int));
                assert(a[root.len() as int] == p[root.len() as int]);
            }
        }
        assert forall|j: int| pre + 1 <= j < a.len() implies #[trigger] a[j] != '/' by {
            assert(a[j] == p[j]);
        }
    }
}

/// Character-wise string equality.
pub fn str_eq(a: &str, b: &str) -> (r: bool)
    ensures
        r == (a@ == b@),
{
    let alen: usize = a.unicode_len();
    let blen: usize = b.unicode_len();
    if alen != blen {
        proof {
            if a@ == b@ {
                assert(a@.len() == b@.len());
            }
        }
        return false;
    }
    let mut i: usize = 0;
    while i < alen
        invariant
            i <= alen,
            alen == a@.len() && alen == b@.len(),
            forall|j: int| 0 <= j < i ==> a@[j] == b@[j],
        decreases alen - i,
    {
        if a.get_char(i) != b.get_char(i) {
            return false;
        }
        i = i + 1;
    }
    proof {
        assert(a@ =~= b@);
    }
    true
}

/// Whether `s` is a canonical absolute path.
pub fn is_canonical(s: &str) -> (r: bool)
    ensures
        r == is_canonical_path(s@),
{
    let n: usize = s.unicode_len();
    if n == 0 {
        return false;
    }
    if s.get_char(0) != '/' {
        return false;
    }
    if n > 1 && s.get_char(n - 1) == '/' {
        return false;
    }
    let mut i: usize = 0;
    while i + 1 < n
        invariant
            i < n,
            n == s@.len(),
            forall|j: int| 0 <= j < i ==> !(s@[j] == '/' && #[trigger] s@[j + 1] == '/'),
        decreases n - i,
    {
        if s.get_char(i) == '/' && s.get_char(i + 1) == '/' {
            return false;
        }
        i = i + 1;
    }
    true
}

/// Whether `p` lies strictly inside directory `d`.
pub fn inside(p: &str, d: &str) -> (r: bool)
    ensures
        r == path_inside(p@, d@),
{
    let plen: usize = p.unicode_len();
    let dlen: usize = d.unicode_len();
    if dlen == 1 && d.get_char(0) == '/' {
        proof {
            assert(d@ =~= root_seq());
        }
        return plen > 1 && p.get_char(0) == '/';
    }
    proof {
        if d@ == root_seq() {
            assert(d@.len() == 1 && d@[0] == '/');
        }
    }
    if plen <= dlen {
        return false;
    }
    if p.get_char(dlen) != '/' {
        return false;
    }
    let mut i: usize = 0;
    while i < dlen
        invariant
            i <= dlen,
            dlen == d@.len(),
            plen == p@.len(),
            plen > dlen,
            forall|j: int| 0 <= j < i ==> p@[j] == d@[j],
        decreases dlen - i,
    {
        if p.get_char(i) != d.get_char(i) {
            proof {
                if p@.subrange(0, dlen as int) == d@ {
                    assert(p@.subrange(0, dlen as int)[i as int] == d@[i as int]);
                }
            }
            return false;
        }
        i = i + 1;
    }
    proof {
        assert(p@.subrange(0, dlen as int) =~= d@);
    }
    true
}

/// Whether `p` equals `d` or lies strictly inside it.
pub fn under(p: &str, d: &str) -> (r: bool)
    ensures
        r == path_under(p@, d@),
{
    if str_eq(p, d) {
        true
    } else {
        inside(p, d)
    }
}

/// Whether `p` is a direct entry of directory `d`.
pub fn is_direct_child(p: &str, d: &str) -> (r: bool)
    ensures
        r == direct_child(p@, d@),
{
    if !inside(p, d) {
        return false;
    }
    let plen: usize = p.unicode_len();
    let dlen: usize = d.unicode_len();
    let start: usize = if dlen == 1 && d.get_char(0) == '/' {
        proof {
            assert(d@ =~= root_seq());
        }
        1
    } else {
        proof {
            if d@ == root_seq() {
                assert(d@.len() == 1 && d@[0] == '/');
            }
        }
        dlen + 1
    };
    proof {
        assert(start as int == dir_prefix_len(d@) + 1);
        assert(start <= plen) by {
            if d@ == root_seq() {
            }
        }
    }
    let mut i: usize = start;
    while i < plen
        invariant
            start <= i <= plen,
            plen == p@.len(),
            start as int == dir_prefix_len(d@) + 1,
            path_inside(p@, d@),
            forall|j: int| start <= j < i ==> #[trigger] p@[j] != '/',
        decreases plen - i,
    {
        if p.get_char(i) == '/' {
            return false;
        }
        i = i + 1;
    }
    true
}

/// The parent directory of canonical `p`, or `None` when `p` is `/`.
pub fn parent_dir(p: &str) -> (r: Option<String>)
    requires
        is_canonical_path(p@),
    ensures
        r is Some <==> parent_of(p@) is Some,
        r is Some ==> r->Some_0@ == parent_of(p@)->Some_0,
{
    let n: usize = p.unicode_len();
    proof {
        lemma_last_slash_exists(p@);
        lemma_last_slash_bounds(p@);
    }
    if n == 1 {
        proof {
            assert(p@ =~= root_seq());
        }
        return Option::None;
    }
    proof {
        if p@ == root_seq() {
            assert(p@.len() == 1);
        }
    }
    // Find the last separator by scanning from the end.
    let mut i: usize = n - 1;
    while i > 0 && p.get_char(i) != '/'
        invariant
            0 <= i < n,
            n == p@.len(),
            forall|j: int| i < j < n ==> #[trigger] p@[j] != '/',
        decreases i,
    {
        i = i - 1;
    }
    proof {
        assert(p@[i as int] == '/' ==> last_slash(p@) == i) by {
            if p@[i as int] == '/' && last_slash(p@) != i {
                assert(last_slash(p@) > i || last_slash(p@) < i);
            }
        }
        assert(p@[0] == '/');
    }
    if i == 0 {
        let r = String::from_str("/");
        proof {
            reveal_strlit("/");
            assert(r@ =~= root_seq());
        }
        Option::Some(r)
    } else {
        let sub = p.substring_char(0, i);
        Option::Some(String::from_str(sub))
    }
}

/// The final component of canonical `p`: the characters after the last
/// separator.
pub fn last_component(p: &str) -> (r: String)
    requires
        is_canonical_path(p@),
    ensures
        r@ == last_component_of(p@),
{
    let n: usize = p.unicode_len();
    proof {
        lemma_last_slash_exists(p@);
        lemma_last_slash_bounds(p@);
    }
    let mut i: usize = n - 1;
    while i > 0 && p.get_char(i) != '/'
        invariant
            0 <= i < n,
            n == p@.len(),
            forall|j: int| i < j < n ==> #[trigger] p@[j] != '/',
        decreases i,
    {
        i = i - 1;
    }
    proof {
        assert(p@[0] == '/');
        assert(p@[i as int] == '/');
        assert(last_slash(p@) == i) by {
            if last_slash(p@) != i {
                assert(last_slash(p@) > i || last_slash(p@) < i);
            }
        }
    }
    let sub = p.substring_char(i + 1, n);
    String::from_str(sub)
}

/// A direct entry of `root` lies inside no direct subdirectory of `root`.
pub proof fn lemma_direct_not_nested(p: Seq<char>, d: Seq<char>, root: Seq<char>)
    requires
        is_canonical_path(d),
        is_canonical_path(root),
        direct_child(p, root),
        path_inside(d, root),
    ensures
        !path_inside(p, d),
{
    lemma_child_min_len(d, root);
    if path_inside(p, d) {
        assert(d != root_seq());
        assert(p[d.len() as int] == '/');
        assert(dir_prefix_len(root) + 1 <= d.len() < p.len());
    }
}

} // verus!
