use vstd::prelude::*;
use crate::node::{FileNode, FileStatus};

verus! {

/// The statuses of a sequence of nodes, in order.
pub open spec fn statuses_of(nodes: Seq<FileNode>) -> Seq<FileStatus> {
    nodes.map_values(|n: FileNode| n.status)
}

/// The status of a directory whose children have `children` statuses and
/// whose own status was `own`: a directory without children keeps its own;
/// any difference, or one-sided children mixed with anything else, make it
/// Different; children all on one side make it that side's; else Same.
pub open spec fn combine(children: Seq<FileStatus>, own: FileStatus) -> FileStatus {
    let d = children.contains(FileStatus::Different);
    let lo = children.contains(FileStatus::LeftOnly);
    let ro = children.contains(FileStatus::RightOnly);
    let sa = children.contains(FileStatus::Same);
    if children.len() == 0 {
        own
    } else if d || (lo && ro) || (lo && sa) || (ro && sa) {
        FileStatus::Different
    } else if lo {
        FileStatus::LeftOnly
    } else if ro {
        FileStatus::RightOnly
    } else {
        FileStatus::Same
    }
}

/// `new` is `old` with every directory's status derived bottom-up from its
/// children; nothing else differs, and a file is left as it is.
pub open spec fn propagated(before: FileNode, after: FileNode) -> bool
    decreases before,
{
    if !before.is_dir {
        after == before
    } else {
    &&& after.name == before.name
    &&& after.path == before.path
    &&& after.is_dir == before.is_dir
    &&& after.expanded == before.expanded
    &&& after.size == before.size
    &&& after.modified == before.modified
    &&& after.children@.len() == before.children@.len()
    &&& forall|i: int|
        #![trigger before.children@[i]]
        0 <= i < before.children@.len() ==> propagated(before.children@[i], after.children@[i])
    &&& after.status == combine(statuses_of(after.children@), before.status)
    }
}

/// Recomputes the status of every directory below and at `node` from its
/// children, and returns the new status of `node`.
pub fn update_folder_status(node: &mut FileNode) -> (r: FileStatus)
    ensures
        propagated(*old(node), *final(node)),
        r == final(node).status,
    decreases *old(node),
{
    if !node.is_dir {
        return node.status;
    }
    let ghost start = *node;
    let n = node.children.len();
    let mut has_different = false;
    let mut has_left_only = false;
    let mut has_right_only = false;
    let mut has_same = false;
    let mut i: usize = 0;
    while i < n
        invariant
            0 <= i <= n,
            n == start.children@.len(),
            node.children@.len() == n,
            node.name == start.name,
            node.path == start.path,
            node.is_dir == start.is_dir,
            node.status == start.status,
            node.expanded == start.expanded,
            node.size == start.size,
            node.modified == start.modified,
            start == *old(node),
            forall|j: int| #![trigger start.children@[j]] 0 <= j < i ==> propagated(start.children@[j], node.children@[j]),
            forall|j: int| i <= j < n ==> #[trigger] node.children@[j] == start.children@[j],
            has_different == statuses_of(node.children@.take(i as int)).contains(FileStatus::Different),
            has_left_only == statuses_of(node.children@.take(i as int)).contains(FileStatus::LeftOnly),
            has_right_only == statuses_of(node.children@.take(i as int)).contains(FileStatus::RightOnly),
            has_same == statuses_of(node.children@.take(i as int)).contains(FileStatus::Same),
        decreases n - i,
    {
        let ghost before = node.children@;
        assert(decreases_to!(start => start.children@[i as int]));
        let s = update_folder_status(&mut node.children[i]);
        proof {
            let taken = statuses_of(node.children@.take(i + 1));
            assert(taken =~= statuses_of(before.take(i as int)).push(s));
            assert(statuses_of(node.children@.take(i as int)) =~= statuses_of(before.take(i as int)));
            assert(taken[i as int] == s);
            assert(forall|t: FileStatus| taken.contains(t) <==> (statuses_of(before.take(i as int)).contains(t) || s == t)) by {
                assert forall|t: FileStatus| taken.contains(t) implies (statuses_of(before.take(i as int)).contains(t) || s == t) by {
                    if taken.contains(t) {
                        let k = choose|k: int| 0 <= k < taken.len() && taken[k] == t;
                        if k < i {
                            assert(statuses_of(before.take(i as int))[k] == t);
                        }
                    }
                }
                assert forall|t: FileStatus| (statuses_of(before.take(i as int)).contains(t) || s == t) implies taken.contains(t) by {
                    if s == t {
                        assert(taken[i as int] == t);
                    } else {
                        let k = choose|k: int| 0 <= k < i && statuses_of(before.take(i as int))[k] == t;
                        assert(taken[k] == t);
                    }
                }
            }
        }
        match s {
            FileStatus::Different => { has_different = true; },
            FileStatus::LeftOnly => { has_left_only = true; },
            FileStatus::RightOnly => { has_right_only = true; },
            FileStatus::Same => { has_same = true; },
        }
        i = i + 1;
    }
    assert(node.children@.take(n as int) =~= node.children@);
    let new_status = if n == 0 {
        node.status
    } else if has_different {
        FileStatus::Different
    } else if has_left_only && has_right_only {
        FileStatus::Different
    } else if has_left_only && has_same {
        FileStatus::Different
    } else if has_right_only && has_same {
        FileStatus::Different
    } else if has_left_only {
        FileStatus::LeftOnly
    } else if has_right_only {
        FileStatus::RightOnly
    } else {
        FileStatus::Same
    };
    node.status = new_status;
    new_status
}

/// A directory's status from its children: one LeftOnly and one RightOnly
/// child make it Different; children all Same make it Same; children all
/// LeftOnly make it LeftOnly.
pub proof fn lemma_combine_cases(children: Seq<FileStatus>, own: FileStatus)
    ensures
        children.contains(FileStatus::LeftOnly) && children.contains(FileStatus::RightOnly)
            ==> combine(children, own) == FileStatus::Different,
        children.len() > 0 && (forall|i: int| 0 <= i < children.len() ==> children[i] == FileStatus::Same)
            ==> combine(children, own) == FileStatus::Same,
        children.len() > 0 && (forall|i: int| 0 <= i < children.len() ==> children[i] == FileStatus::LeftOnly)
            ==> combine(children, own) == FileStatus::LeftOnly,
{
    if children.len() > 0 && (forall|i: int| 0 <= i < children.len() ==> children[i] == FileStatus::Same) {
        assert(children[0] == FileStatus::Same);
        assert(children.contains(FileStatus::Same));
    }
    if children.len() > 0 && (forall|i: int| 0 <= i < children.len() ==> children[i] == FileStatus::LeftOnly) {
        assert(children[0] == FileStatus::LeftOnly);
        assert(children.contains(FileStatus::LeftOnly));
    }
}

} // verus!
