use vstd::prelude::*;
use crate::node::{FileNode, path_view};
use crate::compare::all_collapsed;

verus! {

/// `after` is `before` with the expanded flag of every directory reachable
/// through directories set to `value`; nothing else differs.
pub open spec fn all_dirs_set(before: FileNode, after: FileNode, value: bool) -> bool
    decreases before,
{
    if !before.is_dir {
        after == before
    } else {
        &&& after.name == before.name
        &&& after.path == before.path
        &&& after.is_dir == before.is_dir
        &&& after.status == before.status
        &&& after.size == before.size
        &&& after.modified == before.modified
        &&& after.expanded == value
        &&& after.children@.len() == before.children@.len()
        &&& forall|i: int|
            #![trigger after.children@[i]]
            0 <= i < before.children@.len() ==> all_dirs_set(before.children@[i], after.children@[i], value)
    }
}

/// `after` is `before` with the expanded flag of every node whose path is
/// `p` set to `value`; nothing else differs.
pub open spec fn expansion_set(before: FileNode, after: FileNode, p: Seq<Seq<char>>, value: bool) -> bool
    decreases before,
{
    &&& after.name == before.name
    &&& after.path == before.path
    &&& after.is_dir == before.is_dir
    &&& after.status == before.status
    &&& after.size == before.size
    &&& after.modified == before.modified
    &&& after.expanded == (if path_view(before.path@) == p {
        value
    } else {
        before.expanded
    })
    &&& after.children@.len() == before.children@.len()
    &&& forall|i: int|
        #![trigger after.children@[i]]
        0 <= i < before.children@.len() ==> expansion_set(before.children@[i], after.children@[i], p, value)
}

/// The expanded flag of the first node in pre-order whose path is `p`.
pub open spec fn expansion_at(n: FileNode, p: Seq<Seq<char>>) -> Option<bool>
    decreases n,
{
    if path_view(n.path@) == p {
        Some(n.expanded)
    } else {
        expansion_in_children(n, n.children@.len() as int, p)
    }
}

/// `expansion_at` over the first `k` children of `n`, the first found.
pub open spec fn expansion_in_children(n: FileNode, k: int, p: Seq<Seq<char>>) -> Option<bool>
    decreases n, k,
{
    if k <= 0 || k > n.children@.len() {
        None
    } else {
        match expansion_in_children(n, k - 1, p) {
            Some(e) => Some(e),
            None => expansion_at(n.children@[k - 1], p),
        }
    }
}

/// The index of the first of `saved` with the path and kind of `c`, or -1.
pub open spec fn match_in(saved: Seq<FileNode>, c: FileNode, k: int) -> int
    decreases k,
{
    if k <= 0 {
        -1
    } else {
        let m = match_in(saved, c, k - 1);
        if m >= 0 {
            m
        } else if path_view(saved[k - 1].path@) == path_view(c.path@) && saved[k - 1].is_dir == c.is_dir {
            k - 1
        } else {
            -1
        }
    }
}

/// `after` is `current` with the expanded flags carried over from `saved`
/// wherever a node matches by path and kind, walking both in lock-step
/// from matching children; nothing else differs.
pub open spec fn restored(current: FileNode, saved: FileNode, after: FileNode) -> bool
    decreases current,
{
    &&& after.name == current.name
    &&& after.path == current.path
    &&& after.is_dir == current.is_dir
    &&& after.status == current.status
    &&& after.size == current.size
    &&& after.modified == current.modified
    &&& after.expanded == (if current.is_dir && saved.is_dir && path_view(current.path@) == path_view(
        saved.path@,
    ) {
        saved.expanded
    } else {
        current.expanded
    })
    &&& after.children@.len() == current.children@.len()
    &&& forall|i: int|
        #![trigger after.children@[i]]
        0 <= i < current.children@.len() ==> {
            let m = match_in(saved.children@, current.children@[i], saved.children@.len() as int);
            if 0 <= m < saved.children@.len() {
                restored(current.children@[i], saved.children@[m], after.children@[i])
            } else {
                after.children@[i] == current.children@[i]
            }
        }
}

/// Whether two paths are equal, component by component.
pub fn same_path(a: &Vec<String>, b: &Vec<String>) -> (r: bool)
    ensures
        r == (path_view(a@) == path_view(b@)),
{
    if a.len() != b.len() {
        assert(path_view(a@).len() != path_view(b@).len());
        return false;
    }
    let mut i: usize = 0;
    while i < a.len()
        invariant
            a@.len() == b@.len(),
            i <= a@.len(),
            forall|j: int| 0 <= j < i ==> a@[j]@ == b@[j]@,
        decreases a@.len() - i,
    {
        if a[i] != b[i] {
            assert(path_view(a@)[i as int] != path_view(b@)[i as int]);
            return false;
        }
        i = i + 1;
    }
    assert(path_view(a@) =~= path_view(b@));
    true
}

/// Sets the expanded flag of every directory reachable through directories.
pub fn set_all_folders(node: &mut FileNode, value: bool)
    ensures
        all_dirs_set(*old(node), *final(node), value),
    decreases *old(node),
{
    if !node.is_dir {
        return;
    }
    let ghost start = *node;
    node.expanded = value;
    let mut i: usize = 0;
    while i < node.children.len()
        invariant
            i <= node.children@.len(),
            node.children@.len() == start.children@.len(),
            start == *old(node),
            start.is_dir,
            node.name == start.name,
            node.path == start.path,
            node.is_dir == start.is_dir,
            node.status == start.status,
            node.size == start.size,
            node.modified == start.modified,
            node.expanded == value,
            forall|j: int|
                #![trigger node.children@[j]]
                0 <= j < i ==> all_dirs_set(start.children@[j], node.children@[j], value),
            forall|j: int| i <= j < node.children@.len() ==> #[trigger] node.children@[j] == start.children@[j],
        decreases node.children@.len() - i,
    {
        assert(decreases_to!(start => start.children@[i as int]));
        set_all_folders(&mut node.children[i], value);
        i = i + 1;
    }
}

/// The expanded flag of the first node in pre-order with path `p`.
pub fn find_expansion(node: &FileNode, p: &Vec<String>) -> (r: Option<bool>)
    ensures
        r == expansion_at(*node, path_view(p@)),
    decreases *node,
{
    if same_path(&node.path, p) {
        return Some(node.expanded);
    }
    let mut i: usize = 0;
    while i < node.children.len()
        invariant
            i <= node.children@.len(),
            path_view(node.path@) != path_view(p@),
            expansion_in_children(*node, i as int, path_view(p@)) is None,
        decreases node.children@.len() - i,
    {
        assert(decreases_to!(*node => node.children@[i as int]));
        let found = find_expansion(&node.children[i], p);
        if found.is_some() {
            proof {
                lemma_found_in_children_stable(*node, i as int + 1, node.children@.len() as int, path_view(p@));
            }
            return found;
        }
        i = i + 1;
    }
    None
}

proof fn lemma_found_in_children_stable(n: FileNode, k: int, m: int, p: Seq<Seq<char>>)
    requires
        0 < k <= m <= n.children@.len(),
        expansion_in_children(n, k, p) is Some,
    ensures
        expansion_in_children(n, m, p) == expansion_in_children(n, k, p),
    decreases m - k,
{
    if m > k {
        lemma_found_in_children_stable(n, k, m - 1, p);
    }
}

/// Sets the expanded flag of every node with path `p` to `value`.
pub fn set_expansion(node: &mut FileNode, p: &Vec<String>, value: bool)
    ensures
        expansion_set(*old(node), *final(node), path_view(p@), value),
    decreases *old(node),
{
    let ghost start = *node;
    if same_path(&node.path, p) {
        node.expanded = value;
    }
    let mut i: usize = 0;
    while i < node.children.len()
        invariant
            i <= node.children@.len(),
            node.children@.len() == start.children@.len(),
            start == *old(node),
            node.name == start.name,
            node.path == start.path,
            node.is_dir == start.is_dir,
            node.status == start.status,
            node.size == start.size,
            node.modified == start.modified,
            node.expanded == (if path_view(start.path@) == path_view(p@) {
                value
            } else {
                start.expanded
            }),
            forall|j: int|
                #![trigger node.children@[j]]
                0 <= j < i ==> expansion_set(start.children@[j], node.children@[j], path_view(p@), value),
            forall|j: int| i <= j < node.children@.len() ==> #[trigger] node.children@[j] == start.children@[j],
        decreases node.children@.len() - i,
    {
        assert(decreases_to!(start => start.children@[i as int]));
        set_expansion(&mut node.children[i], p, value);
        i = i + 1;
    }
}

fn find_match(saved: &Vec<FileNode>, c: &FileNode) -> (r: Option<usize>)
    ensures
        match r {
            Some(j) => j < saved@.len() && j as int == match_in(saved@, *c, saved@.len() as int),
            None => match_in(saved@, *c, saved@.len() as int) == -1,
        },
{
    let mut j: usize = 0;
    while j < saved.len()
        invariant
            j <= saved@.len(),
            match_in(saved@, *c, j as int) == -1,
        decreases saved@.len() - j,
    {
        if saved[j].is_dir == c.is_dir && same_path(&saved[j].path, &c.path) {
            proof {
                lemma_match_in_stable(saved@, *c, j as int + 1, saved@.len() as int);
            }
            return Some(j);
        }
        j = j + 1;
    }
    None
}

proof fn lemma_match_in_stable(saved: Seq<FileNode>, c: FileNode, k: int, n: int)
    requires
        0 <= k <= n,
        match_in(saved, c, k) >= 0,
    ensures
        match_in(saved, c, n) == match_in(saved, c, k),
    decreases n - k,
{
    if n > k {
        lemma_match_in_stable(saved, c, k, n - 1);
    }
}

/// Carries the expanded flags of `saved` over to `current` wherever a node
/// matches by path and kind.
pub fn restore_expansion_state_safe(current: &mut FileNode, saved: &FileNode)
    ensures
        restored(*old(current), *saved, *final(current)),
    decreases *old(current),
{
    let ghost start = *current;
    if current.is_dir && saved.is_dir && same_path(&current.path, &saved.path) {
        current.expanded = saved.expanded;
    }
    let mut i: usize = 0;
    while i < current.children.len()
        invariant
            i <= current.children@.len(),
            current.children@.len() == start.children@.len(),
            start == *old(current),
            current.name == start.name,
            current.path == start.path,
            current.is_dir == start.is_dir,
            current.status == start.status,
            current.size == start.size,
            current.modified == start.modified,
            current.expanded == (if start.is_dir && saved.is_dir && path_view(start.path@) == path_view(
                saved.path@,
            ) {
                saved.expanded
            } else {
                start.expanded
            }),
            forall|j: int|
                #![trigger current.children@[j]]
                0 <= j < i ==> {
                    let m = match_in(saved.children@, start.children@[j], saved.children@.len() as int);
                    if 0 <= m < saved.children@.len() {
                        restored(start.children@[j], saved.children@[m], current.children@[j])
                    } else {
                        current.children@[j] == start.children@[j]
                    }
                },
            forall|j: int| i <= j < current.children@.len() ==> #[trigger] current.children@[j] == start.children@[j],
        decreases current.children@.len() - i,
    {
        match find_match(&saved.children, &current.children[i]) {
            Some(m) => {
                assert(decreases_to!(start => start.children@[i as int]));
                restore_expansion_state_safe(&mut current.children[i], &saved.children[m]);
            },
            None => {},
        }
        i = i + 1;
    }
}

/// After a refresh, a child that matches a saved child by path and kind
/// takes that child's expanded flag when both are directories; one without
/// a match, such as a directory the refresh added, keeps the flag it was
/// built with.
pub proof fn lemma_reconciled_child(current: FileNode, saved: FileNode, after: FileNode, i: int)
    requires
        restored(current, saved, after),
        0 <= i < current.children@.len(),
    ensures
        ({
            let m = match_in(saved.children@, current.children@[i], saved.children@.len() as int);
            &&& 0 <= m < saved.children@.len() && current.children@[i].is_dir
                ==> after.children@[i].expanded == saved.children@[m].expanded
            &&& !(0 <= m < saved.children@.len()) ==> after.children@[i].expanded
                == current.children@[i].expanded
        }),
{
    let m = match_in(saved.children@, current.children@[i], saved.children@.len() as int);
    assert(after.children@[i] == after.children@[i]);
    if 0 <= m < saved.children@.len() {
        lemma_match_in_found(saved.children@, current.children@[i], saved.children@.len() as int);
        assert(restored(current.children@[i], saved.children@[m], after.children@[i]));
    }
}

proof fn lemma_match_in_found(saved: Seq<FileNode>, c: FileNode, k: int)
    requires
        0 <= match_in(saved, c, k),
        k <= saved.len(),
    ensures
        path_view(saved[match_in(saved, c, k)].path@) == path_view(c.path@),
        saved[match_in(saved, c, k)].is_dir == c.is_dir,
    decreases k,
{
    if k > 0 && match_in(saved, c, k - 1) >= 0 {
        lemma_match_in_found(saved, c, k - 1);
    }
}

/// Reconciling a freshly built tree (every node below its root collapsed)
/// with the saved one: a child that matches a saved child by path and kind
/// takes that child's expanded flag when both are directories, and a child
/// without a match, such as a directory the refresh added, stays collapsed.
/// Applied level by level through `restored`, this holds at every depth.
pub proof fn lemma_refreshed_child_flags(current: FileNode, saved: FileNode, after: FileNode, i: int)
    requires
        restored(current, saved, after),
        all_collapsed(current),
        0 <= i < current.children@.len(),
    ensures
        ({
            let m = match_in(saved.children@, current.children@[i], saved.children@.len() as int);
            &&& 0 <= m < saved.children@.len() && current.children@[i].is_dir
                ==> after.children@[i].expanded == saved.children@[m].expanded
            &&& !(0 <= m < saved.children@.len()) ==> !after.children@[i].expanded
        }),
{
    lemma_reconciled_child(current, saved, after, i);
    assert(!current.children@[i].expanded);
}

} // verus!
