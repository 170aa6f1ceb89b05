use vstd::prelude::*;
use crate::node::{FileNode, FileStatus};
use crate::order::last_component;

verus! {

/// Index of the first of the first `k` of `cs` whose path ends in `c`, or -1.
pub open spec fn first_child(cs: Seq<FileNode>, c: Seq<char>, k: int) -> int
    decreases k,
{
    if k <= 0 {
        -1
    } else {
        let m = first_child(cs, c, k - 1);
        if m >= 0 {
            m
        } else if last_component(cs[k - 1]) == c {
            k - 1
        } else {
            -1
        }
    }
}

/// The node reached from `n` by following the components of `p`, each time
/// to the first child whose path ends in that component.
pub open spec fn node_at(n: FileNode, p: Seq<Seq<char>>) -> Option<FileNode>
    decreases p.len(),
{
    if p.len() == 0 {
        Some(n)
    } else {
        let j = first_child(n.children@, p[0], n.children@.len() as int);
        if 0 <= j < n.children@.len() {
            node_at(n.children@[j], p.drop_first())
        } else {
            None
        }
    }
}

/// The name, status, kind, size and modification time of a node.
pub open spec fn hdr(n: FileNode) -> (Seq<char>, FileStatus, bool, Option<u64>, Option<u64>) {
    (n.name@, n.status, n.is_dir, n.size, n.modified)
}

pub open spec fn is_prefix(q: Seq<Seq<char>>, s: Seq<Seq<char>>) -> bool {
    q.len() <= s.len() && s.take(q.len() as int) == q
}

pub proof fn lemma_first_child_range(cs: Seq<FileNode>, c: Seq<char>, k: int)
    ensures
        -1 <= first_child(cs, c, k) < k || (k <= 0 && first_child(cs, c, k) == -1),
        first_child(cs, c, k) >= 0 ==> last_component(cs[first_child(cs, c, k)]) == c,
    decreases k,
{
    if k > 0 {
        lemma_first_child_range(cs, c, k - 1);
    }
}

/// The first match depends only on the last components.
pub proof fn lemma_first_child_agree(a: Seq<FileNode>, b: Seq<FileNode>, c: Seq<char>, k: int)
    requires
        k <= a.len(),
        k <= b.len(),
        forall|i: int| 0 <= i < k ==> last_component(#[trigger] a[i]) == last_component(b[i]),
    ensures
        first_child(a, c, k) == first_child(b, c, k),
    decreases k,
{
    if k > 0 {
        lemma_first_child_agree(a, b, c, k - 1);
    }
}

pub proof fn lemma_first_child_stable(cs: Seq<FileNode>, c: Seq<char>, k: int, n: int)
    requires
        0 <= k <= n,
        first_child(cs, c, k) >= 0,
    ensures
        first_child(cs, c, n) == first_child(cs, c, k),
    decreases n - k,
{
    if n > k {
        lemma_first_child_stable(cs, c, k, n - 1);
    }
}

/// Lookups below a node depend on its children alone.
pub proof fn lemma_node_at_children(a: FileNode, b: FileNode, q: Seq<Seq<char>>)
    requires
        a.children@ == b.children@,
        q.len() > 0,
    ensures
        node_at(a, q) == node_at(b, q),
{
}

pub proof fn lemma_prefix_of_self(s: Seq<Seq<char>>)
    ensures
        is_prefix(s, s),
{
    assert(s.take(s.len() as int) =~= s);
}

/// With no two of `cs` ending in the same component, the first match for
/// the last component of `cs[i]` is `i`.
pub proof fn lemma_first_child_unique(cs: Seq<FileNode>, c: Seq<char>, i: int, n: int)
    requires
        0 <= i < n <= cs.len(),
        last_component(cs[i]) == c,
        forall|a: int, b: int| 0 <= a < n && 0 <= b < n && a != b ==> last_component(#[trigger] cs[a]) != last_component(#[trigger] cs[b]),
    ensures
        first_child(cs, c, n) == i,
{
    assert forall|a: int| 0 <= a < i implies last_component(#[trigger] cs[a]) != c by {
        assert(last_component(cs[a]) != last_component(cs[i]));
    }
    lemma_first_child_none(cs, c, i);
    assert(first_child(cs, c, i + 1) == i);
    lemma_first_child_stable(cs, c, i + 1, n);
}

/// No match among the first `k` when none of them ends in `c`.
pub proof fn lemma_first_child_none(cs: Seq<FileNode>, c: Seq<char>, k: int)
    requires
        0 <= k <= cs.len(),
        forall|a: int| 0 <= a < k ==> last_component(#[trigger] cs[a]) != c,
    ensures
        first_child(cs, c, k) == -1,
    decreases k,
{
    if k > 0 {
        lemma_first_child_none(cs, c, k - 1);
    }
}

} // verus!
