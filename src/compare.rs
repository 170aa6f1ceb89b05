use vstd::prelude::*;
use crate::node::{FileNode, FileStatus, aligned, path_view};
use crate::order::{
    child_order, labels_ok, last_component, lemma_child_order_covers, lemma_child_order_distinct,
    lemma_child_order_in_range,
    lemma_sort_keeps_alignment,
    sort_tree_recursive, sorted_tree,
};
use crate::status::{propagated, statuses_of, update_folder_status};
use crate::lookup::{
    first_child, hdr, is_prefix, lemma_first_child_agree, lemma_first_child_range, lemma_first_child_stable,
    lemma_first_child_unique,
    lemma_node_at_children, lemma_prefix_of_self, node_at,
};

verus! {

/// Metadata of one scanned entry.
#[derive(Clone, Copy, Debug, PartialEq, Eq, Structural)]
pub struct EntryMeta {
    pub is_dir: bool,
    /// Length in bytes.
    pub size: u64,
    /// Modification time in seconds since the Unix epoch.
    pub modified: Option<u64>,
}

/// One entry found below a scanned root, by its relative path.
pub struct ScanEntry {
    pub path: Vec<String>,
    pub meta: EntryMeta,
}

/// What a scan of one root found.
pub struct ScannedTree {
    /// The root directory as it was given.
    pub root: String,
    /// The last component of the root directory.
    pub root_name: String,
    /// Every entry below the root; an entry with the empty path stands for
    /// the root itself and is passed over.
    pub entries: Vec<ScanEntry>,
}

/// A relative path present on both sides, not as a directory on both: its
/// contents are still to be compared (a file against a directory never
/// compares equal).
pub struct ContentCheck {
    pub path: Vec<String>,
    pub left: EntryMeta,
    pub right: EntryMeta,
}

/// Two aligned trees whose file contents are not compared yet, with the
/// content comparisons still owed: one per path present on both sides that
/// is not a directory on both. Each such path is Same until its verdict is
/// given.
pub struct PendingComparison {
    left_tree: FileNode,
    right_tree: FileNode,
    left_dir: String,
    right_dir: String,
    checks: Vec<ContentCheck>,
}

/// The result of comparing two directories: two trees of equal shape.
pub struct DirectoryComparison {
    pub left_tree: FileNode,
    pub right_tree: FileNode,
    pub left_dir: String,
    pub right_dir: String,
}

/// A root node: named after its directory, with the empty path, expanded.
pub open spec fn is_root(n: FileNode, name: String) -> bool {
    &&& n.name == name
    &&& n.path@.len() == 0
    &&& n.is_dir
    &&& n.expanded
}

/// The two trees of a comparison mirror each other and are labelled by
/// their paths.
pub open spec fn well_aligned(l: FileNode, r: FileNode) -> bool {
    &&& aligned(l, r)
    &&& labels_ok(l)
    &&& labels_ok(r)
}

/// The fields of a node other than its children and status.
pub open spec fn same_header(a: FileNode, b: FileNode) -> bool {
    &&& a.name == b.name
    &&& a.path == b.path
    &&& a.is_dir == b.is_dir
    &&& a.expanded == b.expanded
    &&& a.size == b.size
    &&& a.modified == b.modified
}

/// The status of a path found on one side only.
pub open spec fn side_status(from_left: bool) -> FileStatus {
    if from_left {
        FileStatus::LeftOnly
    } else {
        FileStatus::RightOnly
    }
}

/// Whether placing an entry with metadata `meta` at `p` (read from
/// component `depth` on, below `n`) owes a content check: the right side
/// finds what the left side alone had, and not both are directories.
pub open spec fn check_owed(n: FileNode, p: Seq<Seq<char>>, depth: int, from_left: bool, meta: EntryMeta) -> bool {
    let x = node_at(n, p.skip(depth));
    &&& !from_left
    &&& x is Some
    &&& x->0.status == FileStatus::LeftOnly
    &&& !(x->0.is_dir && meta.is_dir)
}

/// `after` is `before` with the content check owed for `p`, if any, added:
/// for the whole path, with the left node's and the entry's metadata.
pub open spec fn check_added(
    before: Seq<ContentCheck>,
    after: Seq<ContentCheck>,
    n: FileNode,
    p: Seq<Seq<char>>,
    depth: int,
    from_left: bool,
    meta: EntryMeta,
) -> bool {
    let x = node_at(n, p.skip(depth));
    &&& after.len() == before.len() + (if check_owed(n, p, depth, from_left, meta) {
        1int
    } else {
        0int
    })
    &&& after.take(before.len() as int) == before
    &&& check_owed(n, p, depth, from_left, meta) ==> {
        &&& path_view(after[before.len() as int].path@) == p
        &&& after[before.len() as int].right == meta
        &&& after[before.len() as int].left == (EntryMeta {
            is_dir: x->0.is_dir,
            size: match x->0.size {
                Some(v) => v,
                None => 0,
            },
            modified: x->0.modified,
        })
    }
}

/// What stands at the path of a placed entry in one tree, given what stood
/// there (`found_here`: this tree is the side that found the entry): a new
/// node is named on the finding side and a placeholder on the other, with
/// the finding side's status `st`; an existing one is named on the finding
/// side and, when the right side finds what stood on the left only, becomes
/// Same.
pub open spec fn leaf_after(
    before: Option<FileNode>,
    last: Seq<char>,
    found_here: bool,
    from_left: bool,
    st: FileStatus,
    meta: EntryMeta,
) -> (Seq<char>, FileStatus, bool, Option<u64>, Option<u64>) {
    match before {
        None => if found_here {
            (last, st, meta.is_dir, if meta.is_dir { None } else { Some(meta.size) }, meta.modified)
        } else {
            (Seq::empty(), st, meta.is_dir, None, None)
        },
        Some(x) => {
            let status = if !from_left && x.status == FileStatus::LeftOnly {
                FileStatus::Same
            } else {
                x.status
            };
            if found_here {
                (last, status, x.is_dir, if x.is_dir { None } else { Some(meta.size) }, meta.modified)
            } else {
                (x.name@, status, x.is_dir, x.size, x.modified)
            }
        },
    }
}

/// `after` is `before` with an entry placed at the relative path `s`:
/// nothing off that path changes; each missing directory on the way is
/// added on both sides, named after its component, with status Same; the
/// entry's own node stands as `leaf_after` says.
pub open spec fn placed_in(
    before: FileNode,
    after: FileNode,
    s: Seq<Seq<char>>,
    found_here: bool,
    from_left: bool,
    st: FileStatus,
    meta: EntryMeta,
) -> bool {
    &&& forall|q: Seq<Seq<char>>| !is_prefix(q, s) ==> #[trigger] node_at(after, q) == node_at(before, q)
    &&& forall|q: Seq<Seq<char>>|
        is_prefix(q, s) && 0 < q.len() < s.len() ==> #[trigger] node_at(after, q) is Some && hdr(
            node_at(after, q)->0,
        ) == match node_at(before, q) {
            Some(x) => hdr(x),
            None => (q.last(), FileStatus::Same, true, None, None),
        }
    &&& node_at(after, s) is Some
    &&& hdr(node_at(after, s)->0) == leaf_after(node_at(before, s), s.last(), found_here, from_left, st, meta)
}

/// Appending a child whose path ends in `c`, where none did, and placing
/// into it, places into the parent.
proof fn lemma_lift_new_child(
    before: FileNode,
    after: FileNode,
    fresh: FileNode,
    child: FileNode,
    s: Seq<Seq<char>>,
    found_here: bool,
    from_left: bool,
    st: FileStatus,
    meta: EntryMeta,
)
    requires
        s.len() > 0,
        first_child(before.children@, s[0], before.children@.len() as int) == -1,
        after.children@ == before.children@.push(child),
        last_component(child) == s[0],
        fresh.children@.len() == 0,
        s.len() == 1 ==> hdr(child) == leaf_after(None, s[0], found_here, from_left, st, meta),
        s.len() == 1 ==> child.children@.len() == 0,
        s.len() > 1 ==> hdr(child) == (s[0], FileStatus::Same, true, None::<u64>, None::<u64>),
        s.len() > 1 ==> placed_in(fresh, child, s.drop_first(), found_here, from_left, st, meta),
    ensures
        placed_in(before, after, s, found_here, from_left, st, meta),
{
    let n = before.children@.len() as int;
    let c = s[0];
    assert forall|q: Seq<Seq<char>>| q.len() > 0 && q[0] != c implies #[trigger] node_at(after, q) == node_at(before, q) by {
        lemma_first_child_agree(after.children@, before.children@, q[0], n);
        lemma_first_child_range(before.children@, q[0], n);
        if first_child(after.children@, q[0], n) < 0 {
            assert(last_component(after.children@[n]) != q[0]);
        }
    }
    assert(first_child(after.children@, c, n + 1) == n) by {
        lemma_first_child_agree(after.children@, before.children@, c, n);
    }
    assert forall|q: Seq<Seq<char>>| q.len() > 0 && q[0] == c implies #[trigger] node_at(after, q) == node_at(child, q.drop_first())
        && node_at(before, q) is None by {
    }
    assert forall|q: Seq<Seq<char>>| !is_prefix(q, s) implies #[trigger] node_at(after, q) == node_at(before, q) by {
        if q.len() == 0 {
            assert(s.take(0) =~= q);
        }
        if q.len() > 0 && q[0] == c {
            let q1 = q.drop_first();
            let s1 = s.drop_first();
            if q1.len() == 0 {
                assert(s.take(1) =~= q);
            } else {
                if is_prefix(q1, s1) {
                    assert forall|i: int| 0 <= i < q.len() implies #[trigger] s.take(q.len() as int)[i] == q[i] by {
                        if i > 0 {
                            assert(s1.take(q1.len() as int)[i - 1] == q1[i - 1]);
                        }
                    }
                    assert(s.take(q.len() as int) =~= q);
                }
                if s.len() > 1 {
                    assert(node_at(child, q1) == node_at(fresh, q1));
                } else {
                    assert(node_at(child, q1) is None);
                }
                assert(node_at(fresh, q1) is None);
            }
        }
    }
    assert forall|q: Seq<Seq<char>>| is_prefix(q, s) && 0 < q.len() < s.len() implies #[trigger] node_at(after, q) is Some
        && hdr(node_at(after, q)->0) == match node_at(before, q) {
            Some(x) => hdr(x),
            None => (q.last(), FileStatus::Same, true, None, None),
        } by {
        assert(q[0] == s.take(q.len() as int)[0]);
        let q1 = q.drop_first();
        let s1 = s.drop_first();
        if q1.len() > 0 {
            assert(s1.take(q1.len() as int) =~= q1);
            assert(node_at(fresh, q1) is None);
            assert(q1.last() == q.last());
        } else {
            assert(q.last() == c);
        }
    }
    let s1 = s.drop_first();
    if s.len() > 1 {
        assert(s1.last() == s.last());
        assert(node_at(fresh, s1) is None);
    }
}

/// Placing into the first child whose path ends in `c` places into the
/// parent.
proof fn lemma_lift_existing_child(
    before: FileNode,
    after: FileNode,
    j: int,
    child: FileNode,
    s: Seq<Seq<char>>,
    found_here: bool,
    from_left: bool,
    st: FileStatus,
    meta: EntryMeta,
)
    requires
        s.len() > 0,
        0 <= j < before.children@.len(),
        first_child(before.children@, s[0], before.children@.len() as int) == j,
        after.children@ == before.children@.update(j, child),
        last_component(child) == last_component(before.children@[j]),
        s.len() == 1 ==> hdr(child) == leaf_after(Some(before.children@[j]), s[0], found_here, from_left, st, meta),
        s.len() == 1 ==> child.children@ == before.children@[j].children@,
        s.len() > 1 ==> hdr(child) == hdr(before.children@[j]),
        s.len() > 1 ==> placed_in(before.children@[j], child, s.drop_first(), found_here, from_left, st, meta),
    ensures
        placed_in(before, after, s, found_here, from_left, st, meta),
{
    let n = before.children@.len() as int;
    let c = s[0];
    lemma_first_child_range(before.children@, c, n);
    assert forall|q: Seq<Seq<char>>| q.len() > 0 implies first_child(after.children@, q[0], n) == first_child(before.children@, q[0], n) by {
        assert forall|i: int| 0 <= i < n implies last_component(#[trigger] after.children@[i]) == last_component(before.children@[i]) by {
        }
        lemma_first_child_agree(after.children@, before.children@, q[0], n);
    }
    assert forall|q: Seq<Seq<char>>| q.len() > 0 && q[0] != c implies #[trigger] node_at(after, q) == node_at(before, q) by {
        assert(first_child(after.children@, q[0], n) == first_child(before.children@, q[0], n));
        let m = first_child(before.children@, q[0], n);
        lemma_first_child_range(before.children@, q[0], n);
        if 0 <= m < n {
            assert(m != j);
        }
    }
    assert forall|q: Seq<Seq<char>>| q.len() > 0 && q[0] == c implies #[trigger] node_at(after, q) == node_at(child, q.drop_first())
        && node_at(before, q) == node_at(before.children@[j], q.drop_first()) by {
        assert(first_child(after.children@, q[0], n) == j);
    }
    assert forall|q: Seq<Seq<char>>| !is_prefix(q, s) implies #[trigger] node_at(after, q) == node_at(before, q) by {
        if q.len() == 0 {
            assert(s.take(0) =~= q);
        }
        if q.len() > 0 && q[0] == c {
            let q1 = q.drop_first();
            let s1 = s.drop_first();
            if q1.len() == 0 {
                assert(s.take(1) =~= q);
            } else {
                if is_prefix(q1, s1) {
                    assert forall|i: int| 0 <= i < q.len() implies #[trigger] s.take(q.len() as int)[i] == q[i] by {
                        if i > 0 {
                            assert(s1.take(q1.len() as int)[i - 1] == q1[i - 1]);
                        }
                    }
                    assert(s.take(q.len() as int) =~= q);
                }
                if s.len() == 1 {
                    lemma_node_at_children(child, before.children@[j], q1);
                }
            }
        }
    }
    assert forall|q: Seq<Seq<char>>| is_prefix(q, s) && 0 < q.len() < s.len() implies #[trigger] node_at(after, q) is Some
        && hdr(node_at(after, q)->0) == match node_at(before, q) {
            Some(x) => hdr(x),
            None => (q.last(), FileStatus::Same, true, None, None),
        } by {
        assert(q[0] == s.take(q.len() as int)[0]);
        let q1 = q.drop_first();
        let s1 = s.drop_first();
        if q1.len() > 0 {
            assert(s1.take(q1.len() as int) =~= q1);
            assert(q1.last() == q.last());
        }
    }
    let s1 = s.drop_first();
    if s.len() > 1 {
        assert(s1.last() == s.last());
    }
}

/// One of the first `k` entries has the path `q`.
pub open spec fn listed(es: Seq<ScanEntry>, k: int, q: Seq<Seq<char>>) -> bool {
    exists|i: int| 0 <= i < k && i < es.len() && #[trigger] path_view(es[i].path@) == q
}

/// `q` is a non-empty prefix of the path of one of the first `k` entries:
/// the entry or one of the directories it lies in.
pub open spec fn covered(es: Seq<ScanEntry>, k: int, q: Seq<Seq<char>>) -> bool {
    q.len() > 0 && exists|i: int| 0 <= i < k && i < es.len() && #[trigger] is_prefix(q, path_view(es[i].path@))
}

/// The status a path takes from the two listings: on the left and listed
/// on the right, Same; on the left only, LeftOnly; on the right only,
/// RightOnly.
pub open spec fn listed_status(le: Seq<ScanEntry>, kl: int, re: Seq<ScanEntry>, kr: int, q: Seq<Seq<char>>) -> FileStatus {
    if covered(le, kl, q) {
        if listed(re, kr, q) {
            FileStatus::Same
        } else {
            FileStatus::LeftOnly
        }
    } else {
        FileStatus::RightOnly
    }
}

/// The two trees hold exactly the paths covered by the first `kl` left
/// entries and the first `kr` right entries: each such path on both sides,
/// with the status `listed_status` gives, named on a side that has it and
/// blank on a side that does not; no other path.
#[verifier::opaque]
pub open spec fn holds_listings(
    l: FileNode,
    r: FileNode,
    le: Seq<ScanEntry>,
    kl: int,
    re: Seq<ScanEntry>,
    kr: int,
) -> bool {
    &&& forall|q: Seq<Seq<char>>|
        q.len() > 0 && !covered(le, kl, q) && !covered(re, kr, q) ==> #[trigger] node_at(l, q) is None
            && node_at(r, q) is None
    &&& forall|q: Seq<Seq<char>>|
        (covered(le, kl, q) || covered(re, kr, q)) ==> {
            &&& #[trigger] node_at(l, q) is Some
            &&& node_at(r, q) is Some
            &&& node_at(l, q)->0.status == listed_status(le, kl, re, kr, q)
            &&& node_at(r, q)->0.status == listed_status(le, kl, re, kr, q)
            &&& node_at(l, q)->0.name@ == (if covered(le, kl, q) {
                q.last()
            } else {
                Seq::empty()
            })
            &&& node_at(r, q)->0.name@ == (if listed(re, kr, q) || (covered(re, kr, q) && !covered(le, kl, q)) {
                q.last()
            } else {
                Seq::empty()
            })
        }
}

proof fn lemma_listed_step(es: Seq<ScanEntry>, k: int, q: Seq<Seq<char>>)
    requires
        0 <= k < es.len(),
    ensures
        listed(es, k + 1, q) == (listed(es, k, q) || path_view(es[k].path@) == q),
        covered(es, k + 1, q) == (covered(es, k, q) || (q.len() > 0 && is_prefix(q, path_view(es[k].path@)))),
{
    if listed(es, k + 1, q) && !listed(es, k, q) {
        let i = choose|i: int| 0 <= i < k + 1 && i < es.len() && #[trigger] path_view(es[i].path@) == q;
        assert(i == k);
    }
    if path_view(es[k].path@) == q {
        assert(listed(es, k + 1, q));
    }
    if listed(es, k, q) {
        let i = choose|i: int| 0 <= i < k && i < es.len() && #[trigger] path_view(es[i].path@) == q;
        assert(listed(es, k + 1, q));
    }
    if covered(es, k + 1, q) && !covered(es, k, q) {
        let i = choose|i: int| 0 <= i < k + 1 && i < es.len() && #[trigger] is_prefix(q, path_view(es[i].path@));
        assert(i == k);
    }
    if q.len() > 0 && is_prefix(q, path_view(es[k].path@)) {
        assert(covered(es, k + 1, q));
    }
    if covered(es, k, q) {
        let i = choose|i: int| 0 <= i < k && i < es.len() && #[trigger] is_prefix(q, path_view(es[i].path@));
        assert(covered(es, k + 1, q));
    }
}

/// Placing the next left entry (`from_left`, no right entry seen yet) or
/// the next right entry (all left entries seen), whose directories are
/// already there, keeps the trees holding the listings seen so far.
proof fn lemma_place_step(
    l: FileNode,
    r: FileNode,
    l2: FileNode,
    r2: FileNode,
    le: Seq<ScanEntry>,
    kl: int,
    re: Seq<ScanEntry>,
    kr: int,
    from_left: bool,
    meta: EntryMeta,
)
    requires
        holds_listings(l, r, le, kl, re, kr),
        from_left ==> 0 <= kl < le.len() && kr == 0,
        !from_left ==> kl == le.len() && 0 <= kr < re.len(),
        ({
            let s = if from_left {
                path_view(le[kl].path@)
            } else {
                path_view(re[kr].path@)
            };
            &&& s.len() > 0
            &&& forall|q: Seq<Seq<char>>|
                is_prefix(q, s) && 0 < q.len() < s.len() ==> #[trigger] covered(le, kl, q) || covered(re, kr, q)
            &&& placed_in(l, l2, s, from_left, from_left, side_status(from_left), meta)
            &&& placed_in(r, r2, s, !from_left, from_left, side_status(from_left), meta)
        }),
    ensures
        holds_listings(
            l2,
            r2,
            le,
            if from_left {
                kl + 1
            } else {
                kl
            },
            re,
            if from_left {
                kr
            } else {
                kr + 1
            },
        ),
{
    reveal(holds_listings);
    reveal(holds_metadata);
    reveal(checks_listed);
    let s = if from_left {
        path_view(le[kl].path@)
    } else {
        path_view(re[kr].path@)
    };
    let kl2 = if from_left { kl + 1 } else { kl };
    let kr2 = if from_left { kr } else { kr + 1 };
    lemma_prefix_of_self(s);
    assert forall|q: Seq<Seq<char>>| q.len() > 0 implies {
        &&& covered(le, kl2, q) == (covered(le, kl, q) || (from_left && is_prefix(q, s)))
        &&& listed(le, kl2, q) == (listed(le, kl, q) || (from_left && s == q))
        &&& covered(re, kr2, q) == (covered(re, kr, q) || (!from_left && is_prefix(q, s)))
        &&& listed(re, kr2, q) == (listed(re, kr, q) || (!from_left && s == q))
    } by {
        if from_left {
            lemma_listed_step(le, kl, q);
        } else {
            lemma_listed_step(re, kr, q);
        }
    }
    if from_left {
        assert forall|q: Seq<Seq<char>>| !covered(re, 0, q) && !listed(re, 0, q) by {
            if covered(re, 0, q) {
                let i = choose|i: int| 0 <= i < 0 && i < re.len() && #[trigger] is_prefix(q, path_view(re[i].path@));
            }
            if listed(re, 0, q) {
                let i = choose|i: int| 0 <= i < 0 && i < re.len() && #[trigger] path_view(re[i].path@) == q;
            }
        }
    }
    assert forall|q: Seq<Seq<char>>|
        q.len() > 0 && !covered(le, kl2, q) && !covered(re, kr2, q) implies #[trigger] node_at(l2, q) is None
            && node_at(r2, q) is None by {
        assert(!is_prefix(q, s));
        assert(node_at(l, q) is None);
    }
    assert forall|q: Seq<Seq<char>>|
        (covered(le, kl2, q) || covered(re, kr2, q)) implies {
            &&& #[trigger] node_at(l2, q) is Some
            &&& node_at(r2, q) is Some
            &&& node_at(l2, q)->0.status == listed_status(le, kl2, re, kr2, q)
            &&& node_at(r2, q)->0.status == listed_status(le, kl2, re, kr2, q)
            &&& node_at(l2, q)->0.name@ == (if covered(le, kl2, q) {
                q.last()
            } else {
                Seq::empty()
            })
            &&& node_at(r2, q)->0.name@ == (if listed(re, kr2, q) || (covered(re, kr2, q) && !covered(le, kl2, q)) {
                q.last()
            } else {
                Seq::empty()
            })
        } by {
        assert(q.len() > 0);
        if !is_prefix(q, s) {
            assert(node_at(l2, q) == node_at(l, q));
            assert(node_at(r2, q) == node_at(r, q));
            assert(q != s);
        } else if q.len() < s.len() {
            assert(q != s);
        } else {
            assert(q =~= s);
        }
    }
}

/// An entry with the empty path (a root) adds nothing to what the trees hold.
proof fn lemma_skip_empty(
    l: FileNode,
    r: FileNode,
    le: Seq<ScanEntry>,
    kl: int,
    re: Seq<ScanEntry>,
    kr: int,
    from_left: bool,
)
    requires
        holds_listings(l, r, le, kl, re, kr),
        from_left ==> 0 <= kl < le.len() && le[kl].path@.len() == 0,
        !from_left ==> 0 <= kr < re.len() && re[kr].path@.len() == 0,
    ensures
        holds_listings(
            l,
            r,
            le,
            if from_left {
                kl + 1
            } else {
                kl
            },
            re,
            if from_left {
                kr
            } else {
                kr + 1
            },
        ),
{
    reveal(holds_listings);
    reveal(holds_metadata);
    reveal(checks_listed);
    let kl2 = if from_left { kl + 1 } else { kl };
    let kr2 = if from_left { kr } else { kr + 1 };
    assert forall|q: Seq<Seq<char>>| q.len() > 0 implies {
        &&& covered(le, kl2, q) == covered(le, kl, q)
        &&& covered(re, kr2, q) == covered(re, kr, q)
        &&& listed(re, kr2, q) == listed(re, kr, q)
    } by {
        if from_left {
            lemma_listed_step(le, kl, q);
            assert(path_view(le[kl].path@).len() == 0);
        } else {
            lemma_listed_step(re, kr, q);
            assert(path_view(re[kr].path@).len() == 0);
        }
    }
    assert forall|q: Seq<Seq<char>>| q.len() == 0 implies !covered(le, kl2, q) && !covered(re, kr2, q)
        && !covered(le, kl, q) && !covered(re, kr, q) by {
    }
}

proof fn lemma_same_listing_same_cover(a: Seq<ScanEntry>, b: Seq<ScanEntry>, q: Seq<Seq<char>>)
    requires
        forall|p: Seq<Seq<char>>| listed(a, a.len() as int, p) ==> listed(b, b.len() as int, p),
        covered(a, a.len() as int, q),
    ensures
        covered(b, b.len() as int, q),
{
    let i = choose|i: int| 0 <= i < a.len() && i < a.len() && #[trigger] is_prefix(q, path_view(a[i].path@));
    let p = path_view(a[i].path@);
    assert(listed(a, a.len() as int, p));
    assert(listed(b, b.len() as int, p));
    let j = choose|j: int| 0 <= j < b.len() && j < b.len() && #[trigger] path_view(b[j].path@) == p;
    assert(is_prefix(q, path_view(b[j].path@)));
}

/// Aligning the same directories twice gives the same pending trees at
/// every path: what the two trees hold before any content is compared
/// depends only on which paths each side lists, not on the order of the
/// listings. Trees that hold two listings of the same paths have, at every
/// path, nodes on the same sides with the same status and name.
pub proof fn lemma_alignment_depends_on_listings(
    l1: FileNode,
    r1: FileNode,
    l2: FileNode,
    r2: FileNode,
    le1: Seq<ScanEntry>,
    re1: Seq<ScanEntry>,
    le2: Seq<ScanEntry>,
    re2: Seq<ScanEntry>,
)
    requires
        holds_listings(l1, r1, le1, le1.len() as int, re1, re1.len() as int),
        holds_listings(l2, r2, le2, le2.len() as int, re2, re2.len() as int),
        forall|p: Seq<Seq<char>>| listed(le1, le1.len() as int, p) == listed(le2, le2.len() as int, p),
        forall|p: Seq<Seq<char>>| listed(re1, re1.len() as int, p) == listed(re2, re2.len() as int, p),
    ensures
        forall|q: Seq<Seq<char>>|
            q.len() > 0 ==> {
                &&& (#[trigger] node_at(l1, q) is Some <==> node_at(l2, q) is Some)
                &&& (node_at(r1, q) is Some <==> node_at(r2, q) is Some)
                &&& node_at(l1, q) is Some ==> node_at(l1, q)->0.name@ == node_at(l2, q)->0.name@
                    && node_at(l1, q)->0.status == node_at(l2, q)->0.status
                &&& node_at(r1, q) is Some ==> node_at(r1, q)->0.name@ == node_at(r2, q)->0.name@
                    && node_at(r1, q)->0.status == node_at(r2, q)->0.status
            },
{
    reveal(holds_listings);
    reveal(holds_metadata);
    reveal(checks_listed);
    assert forall|q: Seq<Seq<char>>| q.len() > 0 implies {
        &&& covered(le1, le1.len() as int, q) == covered(le2, le2.len() as int, q)
        &&& covered(re1, re1.len() as int, q) == covered(re2, re2.len() as int, q)
    } by {
        if covered(le1, le1.len() as int, q) {
            lemma_same_listing_same_cover(le1, le2, q);
        }
        if covered(le2, le2.len() as int, q) {
            lemma_same_listing_same_cover(le2, le1, q);
        }
        if covered(re1, re1.len() as int, q) {
            lemma_same_listing_same_cover(re1, re2, q);
        }
        if covered(re2, re2.len() as int, q) {
            lemma_same_listing_same_cover(re2, re1, q);
        }
    }
}

/// `after` is `before` with the node at `s`, if there is one, marked
/// Different: the same paths stand, and each node differs at most in that
/// status.
pub open spec fn status_marked(before: FileNode, after: FileNode, s: Seq<Seq<char>>) -> bool {
    forall|q: Seq<Seq<char>>|
        {
            &&& (#[trigger] node_at(after, q) is Some <==> node_at(before, q) is Some)
            &&& node_at(before, q) is Some ==> same_header(node_at(after, q)->0, node_at(before, q)->0)
                && node_at(after, q)->0.status == (if q == s {
                FileStatus::Different
            } else {
                node_at(before, q)->0.status
            })
        }
}

/// One of the first `k` content checks has path `q` and a `false` verdict.
pub open spec fn failed_check(checks: Seq<ContentCheck>, verdicts: Seq<bool>, k: int, q: Seq<Seq<char>>) -> bool {
    exists|i: int|
        0 <= i < k && i < checks.len() && i < verdicts.len() && !verdicts[i] && #[trigger] path_view(
            checks[i].path@,
        ) == q
}

/// `after` is `before` with every path of a failed check among the first
/// `k` marked Different: the same paths stand, and each node differs at
/// most in that status.
pub open spec fn marks_applied(
    before: FileNode,
    after: FileNode,
    checks: Seq<ContentCheck>,
    verdicts: Seq<bool>,
    k: int,
) -> bool {
    forall|q: Seq<Seq<char>>|
        {
            &&& (#[trigger] node_at(after, q) is Some <==> node_at(before, q) is Some)
            &&& node_at(before, q) is Some ==> same_header(node_at(after, q)->0, node_at(before, q)->0)
                && node_at(after, q)->0.status == (if failed_check(checks, verdicts, k, q) {
                FileStatus::Different
            } else {
                node_at(before, q)->0.status
            })
        }
}

/// Marking inside the first child whose path ends in `s[0]` marks inside
/// the parent.
proof fn lemma_lift_mark(before: FileNode, after: FileNode, j: int, child: FileNode, s: Seq<Seq<char>>)
    requires
        s.len() > 0,
        0 <= j < before.children@.len(),
        first_child(before.children@, s[0], before.children@.len() as int) == j,
        after.children@ == before.children@.update(j, child),
        same_header(child, before.children@[j]),
        s.len() == 1 ==> child.status == FileStatus::Different && child.children@ == before.children@[j].children@,
        s.len() > 1 ==> child.status == before.children@[j].status && status_marked(before.children@[j], child, s.drop_first()),
        same_header(after, before),
        after.status == before.status,
    ensures
        status_marked(before, after, s),
{
    let n = before.children@.len() as int;
    let c = s[0];
    lemma_first_child_range(before.children@, c, n);
    assert forall|q: Seq<Seq<char>>| q.len() > 0 implies first_child(after.children@, q[0], n) == first_child(before.children@, q[0], n) by {
        assert forall|i: int| 0 <= i < n implies last_component(#[trigger] after.children@[i]) == last_component(before.children@[i]) by {
        }
        lemma_first_child_agree(after.children@, before.children@, q[0], n);
    }
    assert forall|q: Seq<Seq<char>>|
        {
            &&& (#[trigger] node_at(after, q) is Some <==> node_at(before, q) is Some)
            &&& node_at(before, q) is Some ==> same_header(node_at(after, q)->0, node_at(before, q)->0)
                && node_at(after, q)->0.status == (if q == s {
                FileStatus::Different
            } else {
                node_at(before, q)->0.status
            })
        } by {
        if q.len() == 0 {
            assert(q != s);
        } else {
            assert(first_child(after.children@, q[0], n) == first_child(before.children@, q[0], n));
            let m = first_child(before.children@, q[0], n);
            lemma_first_child_range(before.children@, q[0], n);
            if q[0] != c {
                assert(q != s);
                if 0 <= m < n {
                    assert(m != j);
                }
            } else {
                let q1 = q.drop_first();
                assert(first_child(after.children@, q[0], n) == j);
                assert(after.children@[j] == child);
                assert(node_at(after, q) == node_at(child, q1));
                assert(node_at(before, q) == node_at(before.children@[j], q1));
                if q1.len() == 0 {
                    if s.len() == 1 {
                        assert(q =~= s);
                    } else {
                        assert(q.len() != s.len());
                    }
                } else {
                    if s.len() == 1 {
                        assert(q.len() != s.len());
                        lemma_node_at_children(child, before.children@[j], q1);
                    } else {
                        let s1 = s.drop_first();
                        assert((q1 == s1) == (q == s)) by {
                            if q1 == s1 {
                                assert forall|i: int| 0 <= i < q.len() implies q[i] == s[i] by {
                                    if i > 0 {
                                        assert(q[i] == q1[i - 1]);
                                        assert(s[i] == s1[i - 1]);
                                    }
                                }
                                assert(q =~= s);
                            }
                            if q == s {
                                assert(q1 =~= s1);
                            }
                        }
                    }
                }
            }
        }
    }
}

proof fn lemma_marks_step(
    p: FileNode,
    a: FileNode,
    b: FileNode,
    checks: Seq<ContentCheck>,
    verdicts: Seq<bool>,
    k: int,
)
    requires
        marks_applied(p, a, checks, verdicts, k),
        0 <= k < checks.len(),
        k < verdicts.len() && !verdicts[k] ==> status_marked(a, b, path_view(checks[k].path@)),
        !(k < verdicts.len() && !verdicts[k]) ==> b == a,
    ensures
        marks_applied(p, b, checks, verdicts, k + 1),
{
    assert forall|q: Seq<Seq<char>>|
        #![trigger failed_check(checks, verdicts, k + 1, q)]
        failed_check(checks, verdicts, k + 1, q) == (failed_check(checks, verdicts, k, q) || (k < verdicts.len()
            && !verdicts[k] && path_view(checks[k].path@) == q)) by {
        if failed_check(checks, verdicts, k + 1, q) && !failed_check(checks, verdicts, k, q) {
            let i = choose|i: int|
                0 <= i < k + 1 && i < checks.len() && i < verdicts.len() && !verdicts[i] && #[trigger] path_view(
                    checks[i].path@,
                ) == q;
            assert(i == k);
        }
        if failed_check(checks, verdicts, k, q) {
            let i = choose|i: int|
                0 <= i < k && i < checks.len() && i < verdicts.len() && !verdicts[i] && #[trigger] path_view(
                    checks[i].path@,
                ) == q;
            assert(failed_check(checks, verdicts, k + 1, q));
        }
        if k < verdicts.len() && !verdicts[k] && path_view(checks[k].path@) == q {
            assert(failed_check(checks, verdicts, k + 1, q));
        }
    }
    assert forall|q: Seq<Seq<char>>|
        {
            &&& (#[trigger] node_at(b, q) is Some <==> node_at(p, q) is Some)
            &&& node_at(p, q) is Some ==> same_header(node_at(b, q)->0, node_at(p, q)->0)
                && node_at(b, q)->0.status == (if failed_check(checks, verdicts, k + 1, q) {
                FileStatus::Different
            } else {
                node_at(p, q)->0.status
            })
        } by {
        assert(node_at(a, q) is Some <==> node_at(p, q) is Some);
        assert(failed_check(checks, verdicts, k + 1, q) == (failed_check(checks, verdicts, k, q) || (k < verdicts.len()
            && !verdicts[k] && path_view(checks[k].path@) == q)));
    }
}

/// Every node below `n` is collapsed.
pub open spec fn all_collapsed(n: FileNode) -> bool
    decreases n,
{
    forall|i: int|
        #![trigger n.children@[i]]
        0 <= i < n.children@.len() ==> !n.children@[i].expanded && all_collapsed(n.children@[i])
}

proof fn lemma_collapsed_update(before: FileNode, after: FileNode, j: int, c: FileNode)
    requires
        all_collapsed(before),
        0 <= j < before.children@.len(),
        after.children@ == before.children@.update(j, c),
        !c.expanded,
        all_collapsed(c),
    ensures
        all_collapsed(after),
{
    assert forall|i: int| #![trigger after.children@[i]] 0 <= i < after.children@.len() implies !after.children@[i].expanded
        && all_collapsed(after.children@[i]) by {
        if i != j {
            assert(after.children@[i] == before.children@[i]);
        }
    }
}

proof fn lemma_collapsed_push(before: FileNode, after: FileNode, c: FileNode)
    requires
        all_collapsed(before),
        after.children@ == before.children@.push(c),
        !c.expanded,
        all_collapsed(c),
    ensures
        all_collapsed(after),
{
    assert forall|i: int| #![trigger after.children@[i]] 0 <= i < after.children@.len() implies !after.children@[i].expanded
        && all_collapsed(after.children@[i]) by {
        if i < before.children@.len() {
            assert(after.children@[i] == before.children@[i]);
        }
    }
}

proof fn lemma_collapsed_same_children(a: FileNode, b: FileNode)
    requires
        all_collapsed(a),
        b.children@ == a.children@,
    ensures
        all_collapsed(b),
{
    assert forall|i: int| #![trigger b.children@[i]] 0 <= i < b.children@.len() implies !b.children@[i].expanded
        && all_collapsed(b.children@[i]) by {
        assert(b.children@[i] == a.children@[i]);
    }
}

/// Sorting keeps every node below collapsed.
pub proof fn lemma_sort_keeps_collapsed(l: FileNode, l2: FileNode)
    requires
        all_collapsed(l),
        sorted_tree(l, l2),
    ensures
        all_collapsed(l2),
    decreases l2,
{
    lemma_child_order_in_range(l);
    assert forall|i: int| #![trigger l2.children@[i]] 0 <= i < l2.children@.len() implies !l2.children@[i].expanded
        && all_collapsed(l2.children@[i]) by {
        let j = child_order(l)[i];
        assert(sorted_tree(l.children@[j], l2.children@[i]));
        assert(!l.children@[j].expanded && all_collapsed(l.children@[j]));
        lemma_sort_keeps_collapsed(l.children@[j], l2.children@[i]);
    }
}

/// Propagating statuses keeps every node below collapsed.
pub proof fn lemma_propagation_keeps_collapsed(l: FileNode, l2: FileNode)
    requires
        all_collapsed(l),
        propagated(l, l2),
    ensures
        all_collapsed(l2),
    decreases l,
{
    if l.is_dir {
        assert forall|i: int| #![trigger l2.children@[i]] 0 <= i < l2.children@.len() implies !l2.children@[i].expanded
            && all_collapsed(l2.children@[i]) by {
            assert(propagated(l.children@[i], l2.children@[i]));
            assert(!l.children@[i].expanded && all_collapsed(l.children@[i]));
            lemma_propagation_keeps_collapsed(l.children@[i], l2.children@[i]);
        }
    }
}

/// Every content check is for a path present on the left and listed on the
/// right.
#[verifier::opaque]
pub open spec fn checks_listed(checks: Seq<ContentCheck>, le: Seq<ScanEntry>, kl: int, re: Seq<ScanEntry>, kr: int) -> bool {
    forall|i: int|
        0 <= i < checks.len() ==> covered(le, kl, #[trigger] path_view(checks[i].path@)) && listed(
            re,
            kr,
            path_view(checks[i].path@),
        )
}

proof fn lemma_checks_skip(c: Seq<ContentCheck>, le: Seq<ScanEntry>, kl: int, re: Seq<ScanEntry>, kr: int, from_left: bool)
    requires
        checks_listed(c, le, kl, re, kr),
        from_left ==> 0 <= kl < le.len(),
        !from_left ==> 0 <= kr < re.len(),
    ensures
        checks_listed(
            c,
            le,
            if from_left {
                kl + 1
            } else {
                kl
            },
            re,
            if from_left {
                kr
            } else {
                kr + 1
            },
        ),
{
    reveal(holds_listings);
    reveal(holds_metadata);
    reveal(checks_listed);
    assert forall|i: int| 0 <= i < c.len() implies covered(
        le,
        if from_left {
            kl + 1
        } else {
            kl
        },
        #[trigger] path_view(c[i].path@),
    ) && listed(
        re,
        if from_left {
            kr
        } else {
            kr + 1
        },
        path_view(c[i].path@),
    ) by {
        if from_left {
            lemma_listed_step(le, kl, path_view(c[i].path@));
        } else {
            lemma_listed_step(re, kr, path_view(c[i].path@));
        }
    }
}

proof fn lemma_checks_step(
    c0: Seq<ContentCheck>,
    c1: Seq<ContentCheck>,
    l: FileNode,
    r: FileNode,
    le: Seq<ScanEntry>,
    kl: int,
    re: Seq<ScanEntry>,
    kr: int,
    from_left: bool,
)
    requires
        checks_listed(c0, le, kl, re, kr),
        holds_listings(l, r, le, kl, re, kr),
        from_left ==> 0 <= kl < le.len(),
        !from_left ==> 0 <= kr < re.len() && re[kr].path@.len() > 0,
        check_added(
            c0,
            c1,
            l,
            if from_left {
                path_view(le[kl].path@)
            } else {
                path_view(re[kr].path@)
            },
            0,
            from_left,
            if from_left {
                le[kl].meta
            } else {
                re[kr].meta
            },
        ),
    ensures
        checks_listed(
            c1,
            le,
            if from_left {
                kl + 1
            } else {
                kl
            },
            re,
            if from_left {
                kr
            } else {
                kr + 1
            },
        ),
{
    reveal(holds_listings);
    reveal(holds_metadata);
    reveal(checks_listed);
    let kl2 = if from_left { kl + 1 } else { kl };
    let kr2 = if from_left { kr } else { kr + 1 };
    assert forall|i: int| 0 <= i < c1.len() implies covered(le, kl2, #[trigger] path_view(c1[i].path@)) && listed(
        re,
        kr2,
        path_view(c1[i].path@),
    ) by {
        let q = path_view(c1[i].path@);
        if from_left {
            lemma_listed_step(le, kl, q);
        } else {
            lemma_listed_step(re, kr, q);
        }
        if i < c0.len() {
            assert(c1[i] == c1.take(c0.len() as int)[i]);
            assert(c1[i] == c0[i]);
        } else {
            let s = path_view(re[kr].path@);
            assert(s.skip(0) =~= s);
            assert(q == s);
            assert(s.len() > 0);
            assert(node_at(l, s) is Some);
            assert(covered(le, kl, s) || covered(re, kr, s));
            assert(covered(le, kl, s));
        }
    }
}

/// Every directory an entry lies in is listed before it, as a recursive
/// walk that yields a directory before its contents lists them.
pub open spec fn parents_first(es: Seq<ScanEntry>) -> bool {
    forall|i: int, q: Seq<Seq<char>>|
        0 <= i < es.len() && 0 < q.len() < path_view(es[i].path@).len() && #[trigger] is_prefix(
            q,
            path_view(es[i].path@),
        ) ==> listed(es, i, q)
}

proof fn lemma_listed_covered(es: Seq<ScanEntry>, k: int, q: Seq<Seq<char>>)
    requires
        listed(es, k, q),
        q.len() > 0,
    ensures
        covered(es, k, q),
{
    let i = choose|i: int| 0 <= i < k && i < es.len() && #[trigger] path_view(es[i].path@) == q;
    lemma_prefix_of_self(q);
    assert(is_prefix(q, path_view(es[i].path@)));
}

/// In a listing whose directories come first, the paths covered are the
/// paths listed.
pub proof fn lemma_covered_is_listed(es: Seq<ScanEntry>, q: Seq<Seq<char>>)
    requires
        parents_first(es),
        q.len() > 0,
    ensures
        covered(es, es.len() as int, q) == listed(es, es.len() as int, q),
{
    if listed(es, es.len() as int, q) {
        lemma_listed_covered(es, es.len() as int, q);
    }
    if covered(es, es.len() as int, q) {
        let i = choose|i: int| 0 <= i < es.len() && i < es.len() && #[trigger] is_prefix(q, path_view(es[i].path@));
        if q.len() == path_view(es[i].path@).len() {
            assert(q =~= path_view(es[i].path@));
            assert(listed(es, es.len() as int, q));
        } else {
            assert(listed(es, i, q));
            let j = choose|j: int| 0 <= j < i && j < es.len() && #[trigger] path_view(es[j].path@) == q;
            assert(listed(es, es.len() as int, q));
        }
    }
}

/// The directories of entry `i` of a listing whose directories come first
/// are covered by the entries before it.
proof fn lemma_parents_covered(es: Seq<ScanEntry>, i: int)
    requires
        parents_first(es),
        0 <= i < es.len(),
    ensures
        forall|q: Seq<Seq<char>>|
            is_prefix(q, path_view(es[i].path@)) && 0 < q.len() < path_view(es[i].path@).len()
                ==> #[trigger] covered(es, i, q),
{
    assert forall|q: Seq<Seq<char>>|
        is_prefix(q, path_view(es[i].path@)) && 0 < q.len() < path_view(es[i].path@).len() implies #[trigger] covered(
            es,
            i,
            q,
        ) by {
        assert(listed(es, i, q));
        lemma_listed_covered(es, i, q);
    }
}

/// No two entries of a listing have the same path.
pub open spec fn unique_paths(es: Seq<ScanEntry>) -> bool {
    forall|i: int, j: int|
        #![trigger es[i], es[j]]
        0 <= i < j < es.len() ==> path_view(es[i].path@) != path_view(es[j].path@)
}

/// The node of each of the first `kl` left entries (and `kr` right
/// entries) carries that entry's kind (on the left), size (for a file) and
/// modification time; a side that does not list a path holds a placeholder
/// without size or time there.
#[verifier::opaque]
pub open spec fn holds_metadata(
    l: FileNode,
    r: FileNode,
    le: Seq<ScanEntry>,
    kl: int,
    re: Seq<ScanEntry>,
    kr: int,
) -> bool {
    &&& forall|i: int|
        #![trigger le[i]]
        0 <= i < kl && i < le.len() && le[i].path@.len() > 0 ==> {
            let q = path_view(le[i].path@);
            &&& node_at(l, q) is Some
            &&& node_at(l, q)->0.is_dir == le[i].meta.is_dir
            &&& node_at(l, q)->0.size == (if le[i].meta.is_dir {
                None
            } else {
                Some(le[i].meta.size)
            })
            &&& node_at(l, q)->0.modified == le[i].meta.modified
        }
    &&& forall|i: int|
        #![trigger re[i]]
        0 <= i < kr && i < re.len() && re[i].path@.len() > 0 ==> {
            let q = path_view(re[i].path@);
            &&& node_at(r, q) is Some
            &&& node_at(r, q)->0.size == (if node_at(r, q)->0.is_dir {
                None
            } else {
                Some(re[i].meta.size)
            })
            &&& node_at(r, q)->0.modified == re[i].meta.modified
        }
    &&& forall|q: Seq<Seq<char>>|
        (covered(le, kl, q) || covered(re, kr, q)) && !listed(le, kl, q) ==> #[trigger] node_at(l, q)->0.size is None
            && node_at(l, q)->0.modified is None
    &&& forall|q: Seq<Seq<char>>|
        (covered(le, kl, q) || covered(re, kr, q)) && !listed(re, kr, q) ==> #[trigger] node_at(r, q)->0.size is None
            && node_at(r, q)->0.modified is None
}

/// In a listing with unique paths whose directories come first, the path
/// of entry `k` lies in none of the entries before it.
proof fn lemma_not_covered_yet(es: Seq<ScanEntry>, k: int)
    requires
        parents_first(es),
        unique_paths(es),
        0 <= k < es.len(),
        es[k].path@.len() > 0,
    ensures
        !covered(es, k, path_view(es[k].path@)),
        !listed(es, k, path_view(es[k].path@)),
{
    let s = path_view(es[k].path@);
    if covered(es, k, s) {
        let j = choose|j: int| 0 <= j < k && j < es.len() && #[trigger] is_prefix(s, path_view(es[j].path@));
        if s.len() == path_view(es[j].path@).len() {
            assert(s =~= path_view(es[j].path@));
            assert(path_view(es[j].path@) != path_view(es[k].path@));
        } else {
            assert(listed(es, j, s));
            let m = choose|m: int| 0 <= m < j && m < es.len() && #[trigger] path_view(es[m].path@) == s;
            assert(path_view(es[m].path@) != path_view(es[k].path@));
        }
    }
    if listed(es, k, s) {
        let m = choose|m: int| 0 <= m < k && m < es.len() && #[trigger] path_view(es[m].path@) == s;
        assert(path_view(es[m].path@) != path_view(es[k].path@));
    }
}

proof fn lemma_meta_left_entries(
    l: FileNode,
    r: FileNode,
    l2: FileNode,
    r2: FileNode,
    le: Seq<ScanEntry>,
    kl: int,
    re: Seq<ScanEntry>,
    kr: int,
    from_left: bool,
)
    requires
        holds_listings(l, r, le, kl, re, kr),
        holds_metadata(l, r, le, kl, re, kr),
        parents_first(le),
        unique_paths(le),
        from_left ==> 0 <= kl < le.len() && kr == 0 && le[kl].path@.len() > 0,
        !from_left ==> kl == le.len() && 0 <= kr < re.len() && parents_first(re) && unique_paths(re)
            && re[kr].path@.len() > 0,
        ({
            let e = if from_left {
                le[kl]
            } else {
                re[kr]
            };
            let s = path_view(e.path@);
            &&& forall|q: Seq<Seq<char>>|
                is_prefix(q, s) && 0 < q.len() < s.len() ==> #[trigger] covered(le, kl, q) || covered(re, kr, q)
            &&& placed_in(l, l2, s, from_left, from_left, side_status(from_left), e.meta)
            &&& placed_in(r, r2, s, !from_left, from_left, side_status(from_left), e.meta)
        }),
    ensures
        forall|i: int|
        #![trigger le[i]]
        0 <= i < (if from_left {
                    kl + 1
                } else {
                    kl
                }) && i < le.len() && le[i].path@.len() > 0 ==> {
            let q = path_view(le[i].path@);
            &&& node_at(l2, q) is Some
            &&& node_at(l2, q)->0.is_dir == le[i].meta.is_dir
            &&& node_at(l2, q)->0.size == (if le[i].meta.is_dir {
                None
            } else {
                Some(le[i].meta.size)
            })
            &&& node_at(l2, q)->0.modified == le[i].meta.modified
        },
{
    reveal(holds_listings);
    reveal(holds_metadata);
    reveal(checks_listed);
    let e = if from_left { le[kl] } else { re[kr] };
    let s = path_view(e.path@);
    let kl2 = if from_left { kl + 1 } else { kl };
    let kr2 = if from_left { kr } else { kr + 1 };
    lemma_prefix_of_self(s);
    assert(s.len() > 0);
    assert forall|q: Seq<Seq<char>>| q.len() > 0 implies {
        &&& covered(le, kl2, q) == (covered(le, kl, q) || (from_left && is_prefix(q, s)))
        &&& listed(le, kl2, q) == (listed(le, kl, q) || (from_left && s == q))
        &&& covered(re, kr2, q) == (covered(re, kr, q) || (!from_left && is_prefix(q, s)))
        &&& listed(re, kr2, q) == (listed(re, kr, q) || (!from_left && s == q))
    } by {
        if from_left {
            lemma_listed_step(le, kl, q);
        } else {
            lemma_listed_step(re, kr, q);
        }
    }
    if from_left {
        lemma_not_covered_yet(le, kl);
        assert forall|q: Seq<Seq<char>>| !covered(re, 0, q) && !listed(re, 0, q) by {
            if covered(re, 0, q) {
                let i = choose|i: int| 0 <= i < 0 && i < re.len() && #[trigger] is_prefix(q, path_view(re[i].path@));
            }
            if listed(re, 0, q) {
                let i = choose|i: int| 0 <= i < 0 && i < re.len() && #[trigger] path_view(re[i].path@) == q;
            }
        }
        assert(node_at(l, s) is None);
    } else {
        lemma_not_covered_yet(re, kr);
        lemma_covered_is_listed(le, s);
    }
    assert forall|i: int|
        #![trigger le[i]]
        0 <= i < kl2 && i < le.len() && le[i].path@.len() > 0 implies {
            let q = path_view(le[i].path@);
            &&& node_at(l2, q) is Some
            &&& node_at(l2, q)->0.is_dir == le[i].meta.is_dir
            &&& node_at(l2, q)->0.size == (if le[i].meta.is_dir {
                None
            } else {
                Some(le[i].meta.size)
            })
            &&& node_at(l2, q)->0.modified == le[i].meta.modified
        } by {
        let q = path_view(le[i].path@);
        if from_left && i == kl {
            assert(q == s);
        } else {
            if from_left {
                assert(q != s);
            }
            if !is_prefix(q, s) {
                assert(node_at(l2, q) == node_at(l, q));
            } else if q.len() < s.len() {
                assert(node_at(l, q) is Some);
            } else {
                assert(q =~= s);
            }
        }
    }
}

proof fn lemma_meta_right_entries(
    l: FileNode,
    r: FileNode,
    l2: FileNode,
    r2: FileNode,
    le: Seq<ScanEntry>,
    kl: int,
    re: Seq<ScanEntry>,
    kr: int,
    from_left: bool,
)
    requires
        holds_listings(l, r, le, kl, re, kr),
        holds_metadata(l, r, le, kl, re, kr),
        parents_first(le),
        unique_paths(le),
        from_left ==> 0 <= kl < le.len() && kr == 0 && le[kl].path@.len() > 0,
        !from_left ==> kl == le.len() && 0 <= kr < re.len() && parents_first(re) && unique_paths(re)
            && re[kr].path@.len() > 0,
        ({
            let e = if from_left {
                le[kl]
            } else {
                re[kr]
            };
            let s = path_view(e.path@);
            &&& forall|q: Seq<Seq<char>>|
                is_prefix(q, s) && 0 < q.len() < s.len() ==> #[trigger] covered(le, kl, q) || covered(re, kr, q)
            &&& placed_in(l, l2, s, from_left, from_left, side_status(from_left), e.meta)
            &&& placed_in(r, r2, s, !from_left, from_left, side_status(from_left), e.meta)
        }),
    ensures
        forall|i: int|
        #![trigger re[i]]
        0 <= i < (if from_left {
                    kr
                } else {
                    kr + 1
                }) && i < re.len() && re[i].path@.len() > 0 ==> {
            let q = path_view(re[i].path@);
            &&& node_at(r2, q) is Some
            &&& node_at(r2, q)->0.size == (if node_at(r2, q)->0.is_dir {
                None
            } else {
                Some(re[i].meta.size)
            })
            &&& node_at(r2, q)->0.modified == re[i].meta.modified
        },
{
    reveal(holds_listings);
    reveal(holds_metadata);
    reveal(checks_listed);
    let e = if from_left { le[kl] } else { re[kr] };
    let s = path_view(e.path@);
    let kl2 = if from_left { kl + 1 } else { kl };
    let kr2 = if from_left { kr } else { kr + 1 };
    lemma_prefix_of_self(s);
    assert(s.len() > 0);
    assert forall|q: Seq<Seq<char>>| q.len() > 0 implies {
        &&& covered(le, kl2, q) == (covered(le, kl, q) || (from_left && is_prefix(q, s)))
        &&& listed(le, kl2, q) == (listed(le, kl, q) || (from_left && s == q))
        &&& covered(re, kr2, q) == (covered(re, kr, q) || (!from_left && is_prefix(q, s)))
        &&& listed(re, kr2, q) == (listed(re, kr, q) || (!from_left && s == q))
    } by {
        if from_left {
            lemma_listed_step(le, kl, q);
        } else {
            lemma_listed_step(re, kr, q);
        }
    }
    if from_left {
        lemma_not_covered_yet(le, kl);
        assert forall|q: Seq<Seq<char>>| !covered(re, 0, q) && !listed(re, 0, q) by {
            if covered(re, 0, q) {
                let i = choose|i: int| 0 <= i < 0 && i < re.len() && #[trigger] is_prefix(q, path_view(re[i].path@));
            }
            if listed(re, 0, q) {
                let i = choose|i: int| 0 <= i < 0 && i < re.len() && #[trigger] path_view(re[i].path@) == q;
            }
        }
        assert(node_at(l, s) is None);
    } else {
        lemma_not_covered_yet(re, kr);
        lemma_covered_is_listed(le, s);
    }
    assert forall|i: int|
        #![trigger re[i]]
        0 <= i < kr2 && i < re.len() && re[i].path@.len() > 0 implies {
            let q = path_view(re[i].path@);
            &&& node_at(r2, q) is Some
            &&& node_at(r2, q)->0.size == (if node_at(r2, q)->0.is_dir {
                None
            } else {
                Some(re[i].meta.size)
            })
            &&& node_at(r2, q)->0.modified == re[i].meta.modified
        } by {
        let q = path_view(re[i].path@);
        if !from_left && i == kr {
            assert(q == s);
        } else {
            if !from_left {
                assert(q != s);
            }
            if !is_prefix(q, s) {
                assert(node_at(r2, q) == node_at(r, q));
            } else if q.len() < s.len() {
                assert(node_at(r, q) is Some);
            } else {
                assert(q =~= s);
            }
        }
    }
}

proof fn lemma_meta_left_blanks(
    l: FileNode,
    r: FileNode,
    l2: FileNode,
    r2: FileNode,
    le: Seq<ScanEntry>,
    kl: int,
    re: Seq<ScanEntry>,
    kr: int,
    from_left: bool,
)
    requires
        holds_listings(l, r, le, kl, re, kr),
        holds_metadata(l, r, le, kl, re, kr),
        parents_first(le),
        unique_paths(le),
        from_left ==> 0 <= kl < le.len() && kr == 0 && le[kl].path@.len() > 0,
        !from_left ==> kl == le.len() && 0 <= kr < re.len() && parents_first(re) && unique_paths(re)
            && re[kr].path@.len() > 0,
        ({
            let e = if from_left {
                le[kl]
            } else {
                re[kr]
            };
            let s = path_view(e.path@);
            &&& forall|q: Seq<Seq<char>>|
                is_prefix(q, s) && 0 < q.len() < s.len() ==> #[trigger] covered(le, kl, q) || covered(re, kr, q)
            &&& placed_in(l, l2, s, from_left, from_left, side_status(from_left), e.meta)
            &&& placed_in(r, r2, s, !from_left, from_left, side_status(from_left), e.meta)
        }),
    ensures
        forall|q: Seq<Seq<char>>|
        (covered(le, (if from_left {
                    kl + 1
                } else {
                    kl
                }), q) || covered(re, (if from_left {
                    kr
                } else {
                    kr + 1
                }), q)) && !listed(le, (if from_left {
                    kl + 1
                } else {
                    kl
                }), q) ==> #[trigger] node_at(l2, q)->0.size is None
            && node_at(l2, q)->0.modified is None,
{
    reveal(holds_listings);
    reveal(holds_metadata);
    reveal(checks_listed);
    let e = if from_left { le[kl] } else { re[kr] };
    let s = path_view(e.path@);
    let kl2 = if from_left { kl + 1 } else { kl };
    let kr2 = if from_left { kr } else { kr + 1 };
    lemma_prefix_of_self(s);
    assert(s.len() > 0);
    assert forall|q: Seq<Seq<char>>| q.len() > 0 implies {
        &&& covered(le, kl2, q) == (covered(le, kl, q) || (from_left && is_prefix(q, s)))
        &&& listed(le, kl2, q) == (listed(le, kl, q) || (from_left && s == q))
        &&& covered(re, kr2, q) == (covered(re, kr, q) || (!from_left && is_prefix(q, s)))
        &&& listed(re, kr2, q) == (listed(re, kr, q) || (!from_left && s == q))
    } by {
        if from_left {
            lemma_listed_step(le, kl, q);
        } else {
            lemma_listed_step(re, kr, q);
        }
    }
    if from_left {
        lemma_not_covered_yet(le, kl);
        assert forall|q: Seq<Seq<char>>| !covered(re, 0, q) && !listed(re, 0, q) by {
            if covered(re, 0, q) {
                let i = choose|i: int| 0 <= i < 0 && i < re.len() && #[trigger] is_prefix(q, path_view(re[i].path@));
            }
            if listed(re, 0, q) {
                let i = choose|i: int| 0 <= i < 0 && i < re.len() && #[trigger] path_view(re[i].path@) == q;
            }
        }
        assert(node_at(l, s) is None);
    } else {
        lemma_not_covered_yet(re, kr);
        lemma_covered_is_listed(le, s);
    }
    assert forall|q: Seq<Seq<char>>|
        (covered(le, kl2, q) || covered(re, kr2, q)) && !listed(le, kl2, q) implies #[trigger] node_at(l2, q)->0.size is None
            && node_at(l2, q)->0.modified is None by {
        if !is_prefix(q, s) {
            assert(node_at(l2, q) == node_at(l, q));
        } else if q.len() < s.len() {
            assert(node_at(l, q) is Some);
        } else {
            assert(q =~= s);
        }
    }
}

proof fn lemma_meta_right_blanks(
    l: FileNode,
    r: FileNode,
    l2: FileNode,
    r2: FileNode,
    le: Seq<ScanEntry>,
    kl: int,
    re: Seq<ScanEntry>,
    kr: int,
    from_left: bool,
)
    requires
        holds_listings(l, r, le, kl, re, kr),
        holds_metadata(l, r, le, kl, re, kr),
        parents_first(le),
        unique_paths(le),
        from_left ==> 0 <= kl < le.len() && kr == 0 && le[kl].path@.len() > 0,
        !from_left ==> kl == le.len() && 0 <= kr < re.len() && parents_first(re) && unique_paths(re)
            && re[kr].path@.len() > 0,
        ({
            let e = if from_left {
                le[kl]
            } else {
                re[kr]
            };
            let s = path_view(e.path@);
            &&& forall|q: Seq<Seq<char>>|
                is_prefix(q, s) && 0 < q.len() < s.len() ==> #[trigger] covered(le, kl, q) || covered(re, kr, q)
            &&& placed_in(l, l2, s, from_left, from_left, side_status(from_left), e.meta)
            &&& placed_in(r, r2, s, !from_left, from_left, side_status(from_left), e.meta)
        }),
    ensures
        forall|q: Seq<Seq<char>>|
        (covered(le, (if from_left {
                    kl + 1
                } else {
                    kl
                }), q) || covered(re, (if from_left {
                    kr
                } else {
                    kr + 1
                }), q)) && !listed(re, (if from_left {
                    kr
                } else {
                    kr + 1
                }), q) ==> #[trigger] node_at(r2, q)->0.size is None
            && node_at(r2, q)->0.modified is None,
{
    reveal(holds_listings);
    reveal(holds_metadata);
    reveal(checks_listed);
    let e = if from_left { le[kl] } else { re[kr] };
    let s = path_view(e.path@);
    let kl2 = if from_left { kl + 1 } else { kl };
    let kr2 = if from_left { kr } else { kr + 1 };
    lemma_prefix_of_self(s);
    assert(s.len() > 0);
    assert forall|q: Seq<Seq<char>>| q.len() > 0 implies {
        &&& covered(le, kl2, q) == (covered(le, kl, q) || (from_left && is_prefix(q, s)))
        &&& listed(le, kl2, q) == (listed(le, kl, q) || (from_left && s == q))
        &&& covered(re, kr2, q) == (covered(re, kr, q) || (!from_left && is_prefix(q, s)))
        &&& listed(re, kr2, q) == (listed(re, kr, q) || (!from_left && s == q))
    } by {
        if from_left {
            lemma_listed_step(le, kl, q);
        } else {
            lemma_listed_step(re, kr, q);
        }
    }
    if from_left {
        lemma_not_covered_yet(le, kl);
        assert forall|q: Seq<Seq<char>>| !covered(re, 0, q) && !listed(re, 0, q) by {
            if covered(re, 0, q) {
                let i = choose|i: int| 0 <= i < 0 && i < re.len() && #[trigger] is_prefix(q, path_view(re[i].path@));
            }
            if listed(re, 0, q) {
                let i = choose|i: int| 0 <= i < 0 && i < re.len() && #[trigger] path_view(re[i].path@) == q;
            }
        }
        assert(node_at(l, s) is None);
    } else {
        lemma_not_covered_yet(re, kr);
        lemma_covered_is_listed(le, s);
    }
    assert forall|q: Seq<Seq<char>>|
        (covered(le, kl2, q) || covered(re, kr2, q)) && !listed(re, kr2, q) implies #[trigger] node_at(r2, q)->0.size is None
            && node_at(r2, q)->0.modified is None by {
        if !is_prefix(q, s) {
            assert(node_at(r2, q) == node_at(r, q));
        } else if q.len() < s.len() {
            assert(node_at(r, q) is Some);
        } else {
            assert(q =~= s);
        }
    }
}

/// `lemma_place_step` for the metadata the trees carry.
proof fn lemma_meta_step(
    l: FileNode,
    r: FileNode,
    l2: FileNode,
    r2: FileNode,
    le: Seq<ScanEntry>,
    kl: int,
    re: Seq<ScanEntry>,
    kr: int,
    from_left: bool,
)
    requires
        holds_listings(l, r, le, kl, re, kr),
        holds_metadata(l, r, le, kl, re, kr),
        parents_first(le),
        unique_paths(le),
        from_left ==> 0 <= kl < le.len() && kr == 0 && le[kl].path@.len() > 0,
        !from_left ==> kl == le.len() && 0 <= kr < re.len() && parents_first(re) && unique_paths(re)
            && re[kr].path@.len() > 0,
        ({
            let e = if from_left {
                le[kl]
            } else {
                re[kr]
            };
            let s = path_view(e.path@);
            &&& forall|q: Seq<Seq<char>>|
                is_prefix(q, s) && 0 < q.len() < s.len() ==> #[trigger] covered(le, kl, q) || covered(re, kr, q)
            &&& placed_in(l, l2, s, from_left, from_left, side_status(from_left), e.meta)
            &&& placed_in(r, r2, s, !from_left, from_left, side_status(from_left), e.meta)
        }),
    ensures
        holds_metadata(
            l2,
            r2,
            le,
            if from_left {
                kl + 1
            } else {
                kl
            },
            re,
            if from_left {
                kr
            } else {
                kr + 1
            },
        ),
{
    reveal(holds_metadata);
    lemma_meta_left_entries(l, r, l2, r2, le, kl, re, kr, from_left);
    lemma_meta_right_entries(l, r, l2, r2, le, kl, re, kr, from_left);
    lemma_meta_left_blanks(l, r, l2, r2, le, kl, re, kr, from_left);
    lemma_meta_right_blanks(l, r, l2, r2, le, kl, re, kr, from_left);
}

/// An entry with the empty path (a root) changes no metadata.
proof fn lemma_meta_skip(
    l: FileNode,
    r: FileNode,
    le: Seq<ScanEntry>,
    kl: int,
    re: Seq<ScanEntry>,
    kr: int,
    from_left: bool,
)
    requires
        holds_metadata(l, r, le, kl, re, kr),
        from_left ==> 0 <= kl < le.len() && le[kl].path@.len() == 0,
        !from_left ==> 0 <= kr < re.len() && re[kr].path@.len() == 0,
    ensures
        holds_metadata(
            l,
            r,
            le,
            if from_left {
                kl + 1
            } else {
                kl
            },
            re,
            if from_left {
                kr
            } else {
                kr + 1
            },
        ),
{
    reveal(holds_listings);
    reveal(holds_metadata);
    reveal(checks_listed);
    let kl2 = if from_left { kl + 1 } else { kl };
    let kr2 = if from_left { kr } else { kr + 1 };
    assert forall|q: Seq<Seq<char>>| q.len() > 0 implies {
        &&& covered(le, kl2, q) == covered(le, kl, q)
        &&& covered(re, kr2, q) == covered(re, kr, q)
        &&& listed(le, kl2, q) == listed(le, kl, q)
        &&& listed(re, kr2, q) == listed(re, kr, q)
    } by {
        if from_left {
            lemma_listed_step(le, kl, q);
            assert(path_view(le[kl].path@).len() == 0);
        } else {
            lemma_listed_step(re, kr, q);
            assert(path_view(re[kr].path@).len() == 0);
        }
    }
}

/// Two trees without children hold what no entries list.
proof fn lemma_nothing_listed(l: FileNode, r: FileNode, le: Seq<ScanEntry>, re: Seq<ScanEntry>)
    requires
        l.children@.len() == 0,
        r.children@.len() == 0,
    ensures
        holds_listings(l, r, le, 0, re, 0),
        holds_metadata(l, r, le, 0, re, 0),
        checks_listed(Seq::empty(), le, 0, re, 0),
        holds_kinds(l, r, le, 0, re, 0),
{
    reveal(holds_kinds);
    reveal(holds_listings);
    reveal(holds_metadata);
    reveal(checks_listed);
    assert forall|q: Seq<Seq<char>>| !covered(le, 0, q) && !covered(re, 0, q) && !listed(le, 0, q) && !listed(re, 0, q) by {
        if covered(le, 0, q) {
            let i = choose|i: int| 0 <= i < 0 && i < le.len() && #[trigger] is_prefix(q, path_view(le[i].path@));
        }
        if covered(re, 0, q) {
            let i = choose|i: int| 0 <= i < 0 && i < re.len() && #[trigger] is_prefix(q, path_view(re[i].path@));
        }
        if listed(le, 0, q) {
            let i = choose|i: int| 0 <= i < 0 && i < le.len() && #[trigger] path_view(le[i].path@) == q;
        }
        if listed(re, 0, q) {
            let i = choose|i: int| 0 <= i < 0 && i < re.len() && #[trigger] path_view(re[i].path@) == q;
        }
    }
}

/// A check's left metadata as taken from the left entry `m`: the kind and
/// time, and the size of a file.
pub open spec fn left_meta_of(c: EntryMeta, m: EntryMeta) -> bool {
    &&& c.is_dir == m.is_dir
    &&& c.modified == m.modified
    &&& !m.is_dir ==> c.size == m.size
}

/// The content checks are exactly the paths that both the left side and
/// the first `kr` right entries list, not as a directory on both sides: one
/// check per path, carrying both entries' kinds and times, the right
/// entry's size, and the left entry's size when it is a file.
#[verifier::opaque]
pub open spec fn checks_exact(checks: Seq<ContentCheck>, le: Seq<ScanEntry>, re: Seq<ScanEntry>, kr: int) -> bool {
    &&& forall|i: int, j: int|
        #![trigger checks[i], checks[j]]
        0 <= i < j < checks.len() ==> path_view(checks[i].path@) != path_view(checks[j].path@)
    &&& forall|i: int|
        #![trigger checks[i]]
        0 <= i < checks.len() ==> exists|a: int, b: int|
            #![trigger le[a], re[b]]
            0 <= a < le.len() && 0 <= b < kr && b < re.len() && path_view(le[a].path@) == path_view(checks[i].path@)
                && path_view(re[b].path@) == path_view(checks[i].path@) && !(le[a].meta.is_dir
                && re[b].meta.is_dir) && left_meta_of(checks[i].left, le[a].meta) && checks[i].right == re[b].meta
    &&& forall|a: int, b: int|
        #![trigger le[a], re[b]]
        0 <= a < le.len() && 0 <= b < kr && b < re.len() && re[b].path@.len() > 0 && path_view(le[a].path@)
            == path_view(re[b].path@) && !(le[a].meta.is_dir && re[b].meta.is_dir) ==> exists|i: int|
            0 <= i < checks.len() && #[trigger] path_view(checks[i].path@) == path_view(re[b].path@)
}

proof fn lemma_checks_exact_start(le: Seq<ScanEntry>, re: Seq<ScanEntry>)
    ensures
        checks_exact(Seq::empty(), le, re, 0),
{
    reveal(checks_exact);
}

proof fn lemma_checks_exact_skip(c: Seq<ContentCheck>, le: Seq<ScanEntry>, re: Seq<ScanEntry>, kr: int)
    requires
        checks_exact(c, le, re, kr),
        0 <= kr < re.len(),
        re[kr].path@.len() == 0,
    ensures
        checks_exact(c, le, re, kr + 1),
{
    reveal(checks_exact);
    assert forall|i: int| #![trigger c[i]] 0 <= i < c.len() implies exists|a: int, b: int|
        #![trigger le[a], re[b]]
        0 <= a < le.len() && 0 <= b < kr + 1 && b < re.len() && path_view(le[a].path@) == path_view(c[i].path@)
            && path_view(re[b].path@) == path_view(c[i].path@) && !(le[a].meta.is_dir && re[b].meta.is_dir)
            && left_meta_of(c[i].left, le[a].meta) && c[i].right == re[b].meta by {
        let (a, b) = choose|a: int, b: int|
            #![trigger le[a], re[b]]
            0 <= a < le.len() && 0 <= b < kr && b < re.len() && path_view(le[a].path@) == path_view(c[i].path@)
                && path_view(re[b].path@) == path_view(c[i].path@) && !(le[a].meta.is_dir && re[b].meta.is_dir)
                && left_meta_of(c[i].left, le[a].meta) && c[i].right == re[b].meta;
        assert(le[a] == le[a] && re[b] == re[b]);
    }
}

/// Placing right entry `kr` adds exactly the content check it owes.
#[verifier::rlimit(100)]
proof fn lemma_checks_exact_step(
    c0: Seq<ContentCheck>,
    c1: Seq<ContentCheck>,
    l: FileNode,
    r: FileNode,
    le: Seq<ScanEntry>,
    re: Seq<ScanEntry>,
    kr: int,
)
    requires
        checks_exact(c0, le, re, kr),
        holds_listings(l, r, le, le.len() as int, re, kr),
        holds_metadata(l, r, le, le.len() as int, re, kr),
        parents_first(le),
        parents_first(re),
        unique_paths(le),
        unique_paths(re),
        0 <= kr < re.len(),
        re[kr].path@.len() > 0,
        check_added(c0, c1, l, path_view(re[kr].path@), 0, false, re[kr].meta),
    ensures
        checks_exact(c1, le, re, kr + 1),
{
    reveal(checks_exact);
    reveal(holds_listings);
    reveal(holds_metadata);
    let s = path_view(re[kr].path@);
    let meta = re[kr].meta;
    assert(s.skip(0) =~= s);
    assert(s.len() > 0);
    lemma_not_covered_yet(re, kr);
    lemma_covered_is_listed(le, s);
    let owed = check_owed(l, s, 0, false, meta);
    let n0 = c0.len() as int;
    assert forall|i: int| 0 <= i < n0 implies #[trigger] c1[i] == c0[i] by {
        assert(c1.take(n0)[i] == c1[i]);
    }
    if owed {
        assert(node_at(l, s) is Some);
        assert(listed(le, le.len() as int, s));
    }
    // A left entry at `s`, if any, and what the left node there carries.
    assert forall|a: int|
        #![trigger le[a]]
        0 <= a < le.len() && le[a].path@.len() > 0 && path_view(le[a].path@) == s implies {
            &&& node_at(l, s) is Some
            &&& node_at(l, s)->0.status == FileStatus::LeftOnly
            &&& node_at(l, s)->0.is_dir == le[a].meta.is_dir
            &&& node_at(l, s)->0.size == (if le[a].meta.is_dir {
                None
            } else {
                Some(le[a].meta.size)
            })
            &&& node_at(l, s)->0.modified == le[a].meta.modified
        } by {
        assert(listed(le, le.len() as int, s));
        lemma_listed_covered(le, le.len() as int, s);
    }
    // Uniqueness.
    assert forall|i: int, j: int|
        #![trigger c1[i], c1[j]]
        0 <= i < j < c1.len() implies path_view(c1[i].path@) != path_view(c1[j].path@) by {
        if j < n0 {
            assert(c1[i] == c0[i] && c1[j] == c0[j]);
            assert(c0[i] == c0[i] && c0[j] == c0[j]);
        } else {
            assert(c1[i] == c0[i]);
            assert(c0[i] == c0[i]);
            let (a, b) = choose|a: int, b: int|
                #![trigger le[a], re[b]]
                0 <= a < le.len() && 0 <= b < kr && b < re.len() && path_view(le[a].path@) == path_view(c0[i].path@)
                    && path_view(re[b].path@) == path_view(c0[i].path@) && !(le[a].meta.is_dir && re[b].meta.is_dir) && left_meta_of(c0[i].left, le[a].meta) && c0[i].right == re[b].meta;
            assert(re[b] == re[b] && re[kr] == re[kr]);
        }
    }
    // Soundness.
    assert forall|i: int| #![trigger c1[i]] 0 <= i < c1.len() implies exists|a: int, b: int|
        #![trigger le[a], re[b]]
        0 <= a < le.len() && 0 <= b < kr + 1 && b < re.len() && path_view(le[a].path@) == path_view(c1[i].path@)
            && path_view(re[b].path@) == path_view(c1[i].path@) && !(le[a].meta.is_dir && re[b].meta.is_dir)
            && left_meta_of(c1[i].left, le[a].meta) && c1[i].right == re[b].meta by {
        if i < n0 {
            assert(c1[i] == c0[i]);
            assert(c0[i] == c0[i]);
            let (a, b) = choose|a: int, b: int|
                #![trigger le[a], re[b]]
                0 <= a < le.len() && 0 <= b < kr && b < re.len() && path_view(le[a].path@) == path_view(c0[i].path@)
                    && path_view(re[b].path@) == path_view(c0[i].path@) && !(le[a].meta.is_dir && re[b].meta.is_dir) && left_meta_of(c0[i].left, le[a].meta) && c0[i].right == re[b].meta;
            assert(le[a] == le[a] && re[b] == re[b]);
        } else {
            assert(owed);
            let a = choose|a: int| 0 <= a < le.len() && a < le.len() && #[trigger] path_view(le[a].path@) == s;
            assert(le[a] == le[a]);
            assert(path_view(le[a].path@).len() > 0);
            assert(le[a].path@.len() > 0);
            assert(!(le[a].meta.is_dir && re[kr].meta.is_dir));
            assert(left_meta_of(c1[i].left, le[a].meta));
            assert(le[a] == le[a] && re[kr] == re[kr]);
        }
    }
    // Completeness.
    assert forall|a: int, b: int|
        #![trigger le[a], re[b]]
        0 <= a < le.len() && 0 <= b < kr + 1 && b < re.len() && re[b].path@.len() > 0 && path_view(le[a].path@)
            == path_view(re[b].path@) && !(le[a].meta.is_dir && re[b].meta.is_dir) implies exists|i: int|
        0 <= i < c1.len() && #[trigger] path_view(c1[i].path@) == path_view(re[b].path@) by {
        if b < kr {
            assert(le[a] == le[a] && re[b] == re[b]);
            let i = choose|i: int| 0 <= i < c0.len() && #[trigger] path_view(c0[i].path@) == path_view(re[b].path@);
            assert(c1[i] == c0[i]);
        } else {
            assert(le[a] == le[a]);
            assert(le[a].path@.len() > 0);
            assert(owed);
            assert(path_view(c1[n0].path@) == s);
        }
    }
}

/// At every depth, each child's path is its parent's path followed by one
/// component, and no two children of a node end in the same component: a
/// path stands at most once in the tree, at the place its components name.
pub open spec fn well_formed(n: FileNode) -> bool
    decreases n,
{
    forall|i: int|
        #![trigger n.children@[i]]
        0 <= i < n.children@.len() ==> {
            &&& path_view(n.children@[i].path@) == path_view(n.path@).push(last_component(n.children@[i]))
            &&& forall|j: int|
                #![trigger n.children@[j]]
                0 <= j < n.children@.len() && j != i ==> last_component(n.children@[j]) != last_component(
                    n.children@[i],
                )
            &&& well_formed(n.children@[i])
        }
}

/// In a well-formed tree the node found at `q` has the path of its root
/// followed by `q`.
pub proof fn lemma_node_at_path(t: FileNode, q: Seq<Seq<char>>)
    requires
        well_formed(t),
        node_at(t, q) is Some,
    ensures
        path_view(node_at(t, q)->0.path@) == path_view(t.path@) + q,
    decreases q.len(),
{
    if q.len() == 0 {
        assert(path_view(t.path@) + q =~= path_view(t.path@));
    } else {
        let j = first_child(t.children@, q[0], t.children@.len() as int);
        lemma_first_child_range(t.children@, q[0], t.children@.len() as int);
        let c = t.children@[j];
        assert(well_formed(c));
        lemma_node_at_path(c, q.drop_first());
        assert(path_view(c.path@) == path_view(t.path@).push(q[0]));
        assert(path_view(t.path@).push(q[0]) + q.drop_first() =~= path_view(t.path@) + q);
    }
}

proof fn lemma_wf_same(a: FileNode, b: FileNode)
    requires
        well_formed(a),
        b.children@ == a.children@,
        path_view(b.path@) == path_view(a.path@),
    ensures
        well_formed(b),
{
    assert forall|i: int| #![trigger b.children@[i]] 0 <= i < b.children@.len() implies {
        &&& path_view(b.children@[i].path@) == path_view(b.path@).push(last_component(b.children@[i]))
        &&& forall|j: int|
            #![trigger b.children@[j]]
            0 <= j < b.children@.len() && j != i ==> last_component(b.children@[j]) != last_component(b.children@[i])
        &&& well_formed(b.children@[i])
    } by {
        assert(a.children@[i] == b.children@[i]);
        assert forall|j: int| #![trigger b.children@[j]] 0 <= j < b.children@.len() && j != i implies last_component(
            b.children@[j],
        ) != last_component(b.children@[i]) by {
            assert(a.children@[j] == b.children@[j]);
        }
    }
}

proof fn lemma_wf_update(before: FileNode, after: FileNode, j: int, c: FileNode)
    requires
        well_formed(before),
        0 <= j < before.children@.len(),
        after.children@ == before.children@.update(j, c),
        c.path == before.children@[j].path,
        well_formed(c),
        path_view(after.path@) == path_view(before.path@),
    ensures
        well_formed(after),
{
    assert forall|i: int| #![trigger after.children@[i]] 0 <= i < after.children@.len() implies {
        &&& path_view(after.children@[i].path@) == path_view(after.path@).push(last_component(after.children@[i]))
        &&& forall|k: int|
            #![trigger after.children@[k]]
            0 <= k < after.children@.len() && k != i ==> last_component(after.children@[k]) != last_component(
                after.children@[i],
            )
        &&& well_formed(after.children@[i])
    } by {
        assert(last_component(after.children@[i]) == last_component(before.children@[i]));
        assert(before.children@[i] == before.children@[i]);
        assert forall|k: int| #![trigger after.children@[k]] 0 <= k < after.children@.len() && k != i implies last_component(
            after.children@[k],
        ) != last_component(after.children@[i]) by {
            assert(last_component(after.children@[k]) == last_component(before.children@[k]));
            assert(before.children@[k] == before.children@[k]);
        }
    }
}

proof fn lemma_wf_push(before: FileNode, after: FileNode, c: FileNode)
    requires
        well_formed(before),
        after.children@ == before.children@.push(c),
        path_view(c.path@) == path_view(before.path@).push(last_component(c)),
        forall|k: int| 0 <= k < before.children@.len() ==> last_component(#[trigger] before.children@[k]) != last_component(c),
        well_formed(c),
        path_view(after.path@) == path_view(before.path@),
    ensures
        well_formed(after),
{
    let n = before.children@.len() as int;
    assert forall|i: int| #![trigger after.children@[i]] 0 <= i < after.children@.len() implies {
        &&& path_view(after.children@[i].path@) == path_view(after.path@).push(last_component(after.children@[i]))
        &&& forall|k: int|
            #![trigger after.children@[k]]
            0 <= k < after.children@.len() && k != i ==> last_component(after.children@[k]) != last_component(
                after.children@[i],
            )
        &&& well_formed(after.children@[i])
    } by {
        if i < n {
            assert(after.children@[i] == before.children@[i]);
        }
        assert forall|k: int| #![trigger after.children@[k]] 0 <= k < after.children@.len() && k != i implies last_component(
            after.children@[k],
        ) != last_component(after.children@[i]) by {
            if k < n {
                assert(after.children@[k] == before.children@[k]);
            }
            if i < n && k < n {
                assert(before.children@[i] == before.children@[i]);
            }
        }
    }
}

/// Sorting keeps a tree well formed.
pub proof fn lemma_sort_keeps_wf(l: FileNode, l2: FileNode)
    requires
        well_formed(l),
        sorted_tree(l, l2),
    ensures
        well_formed(l2),
    decreases l2,
{
    lemma_child_order_in_range(l);
    lemma_child_order_distinct(l);
    let p = child_order(l);
    assert forall|i: int| #![trigger l2.children@[i]] 0 <= i < l2.children@.len() implies {
        &&& path_view(l2.children@[i].path@) == path_view(l2.path@).push(last_component(l2.children@[i]))
        &&& forall|k: int|
            #![trigger l2.children@[k]]
            0 <= k < l2.children@.len() && k != i ==> last_component(l2.children@[k]) != last_component(
                l2.children@[i],
            )
        &&& well_formed(l2.children@[i])
    } by {
        assert(sorted_tree(l.children@[p[i]], l2.children@[i]));
        assert(l.children@[p[i]] == l.children@[p[i]]);
        lemma_sort_keeps_wf(l.children@[p[i]], l2.children@[i]);
        assert forall|k: int| #![trigger l2.children@[k]] 0 <= k < l2.children@.len() && k != i implies last_component(
            l2.children@[k],
        ) != last_component(l2.children@[i]) by {
            assert(sorted_tree(l.children@[p[k]], l2.children@[k]));
            assert(p[k] != p[i]);
            assert(l.children@[p[k]] == l.children@[p[k]]);
        }
    }
}

/// Propagating statuses keeps a tree well formed.
pub proof fn lemma_propagation_keeps_wf(l: FileNode, l2: FileNode)
    requires
        well_formed(l),
        propagated(l, l2),
    ensures
        well_formed(l2),
    decreases l,
{
    if l.is_dir {
        assert forall|i: int| #![trigger l2.children@[i]] 0 <= i < l2.children@.len() implies {
            &&& path_view(l2.children@[i].path@) == path_view(l2.path@).push(last_component(l2.children@[i]))
            &&& forall|k: int|
                #![trigger l2.children@[k]]
                0 <= k < l2.children@.len() && k != i ==> last_component(l2.children@[k]) != last_component(
                    l2.children@[i],
                )
            &&& well_formed(l2.children@[i])
        } by {
            assert(propagated(l.children@[i], l2.children@[i]));
            assert(l.children@[i] == l.children@[i]);
            lemma_propagation_keeps_wf(l.children@[i], l2.children@[i]);
            assert forall|k: int| #![trigger l2.children@[k]] 0 <= k < l2.children@.len() && k != i implies last_component(
                l2.children@[k],
            ) != last_component(l2.children@[i]) by {
                assert(propagated(l.children@[k], l2.children@[k]));
                assert(l.children@[k] == l.children@[k]);
            }
        }
    }
}

proof fn lemma_wf_distinct(n: FileNode)
    requires
        well_formed(n),
    ensures
        forall|a: int, b: int|
            0 <= a < n.children@.len() && 0 <= b < n.children@.len() && a != b ==> last_component(
                #[trigger] n.children@[a],
            ) != last_component(#[trigger] n.children@[b]),
{
    assert forall|a: int, b: int|
        0 <= a < n.children@.len() && 0 <= b < n.children@.len() && a != b implies last_component(
            #[trigger] n.children@[a],
        ) != last_component(#[trigger] n.children@[b]) by {
        assert(n.children@[b] == n.children@[b]);
    }
}

/// Sorting a well-formed tree keeps the node at every path, with all its
/// fields but its children.
pub proof fn lemma_sort_node_at(l: FileNode, l2: FileNode, q: Seq<Seq<char>>)
    requires
        well_formed(l),
        sorted_tree(l, l2),
    ensures
        node_at(l2, q) is Some <==> node_at(l, q) is Some,
        node_at(l, q) is Some ==> same_header(node_at(l2, q)->0, node_at(l, q)->0) && node_at(l2, q)->0.status
            == node_at(l, q)->0.status,
    decreases q.len(),
{
    if q.len() > 0 {
        lemma_sort_keeps_wf(l, l2);
        lemma_child_order_in_range(l);
        lemma_wf_distinct(l);
        lemma_wf_distinct(l2);
        let p = child_order(l);
        let c = q[0];
        let n = l.children@.len() as int;
        let j = first_child(l.children@, c, n);
        let i2 = first_child(l2.children@, c, n);
        lemma_first_child_range(l.children@, c, n);
        lemma_first_child_range(l2.children@, c, n);
        if 0 <= j < n {
            lemma_child_order_covers(l, j);
            let i = choose|i: int| 0 <= i < n && #[trigger] p[i] == j;
            assert(sorted_tree(l.children@[p[i]], l2.children@[i]));
            assert(last_component(l2.children@[i]) == c);
            lemma_first_child_unique(l2.children@, c, i, n);
            assert(well_formed(l.children@[j]));
            lemma_sort_node_at(l.children@[j], l2.children@[i], q.drop_first());
        } else if 0 <= i2 < n {
            assert(sorted_tree(l.children@[p[i2]], l2.children@[i2]));
            assert(last_component(l.children@[p[i2]]) == c);
            lemma_first_child_unique(l.children@, c, p[i2], n);
        }
    }
}

/// Propagating statuses keeps the node at every path, with all its fields
/// but its children and, for a directory, its status.
pub proof fn lemma_propagation_node_at(l: FileNode, l2: FileNode, q: Seq<Seq<char>>)
    requires
        propagated(l, l2),
    ensures
        node_at(l2, q) is Some <==> node_at(l, q) is Some,
        node_at(l, q) is Some ==> same_header(node_at(l2, q)->0, node_at(l, q)->0) && (!node_at(l, q)->0.is_dir
            ==> node_at(l2, q)->0.status == node_at(l, q)->0.status),
    decreases q.len(),
{
    if q.len() > 0 && l.is_dir {
        let n = l.children@.len() as int;
        let c = q[0];
        assert forall|i: int| 0 <= i < n implies last_component(#[trigger] l2.children@[i]) == last_component(
            l.children@[i],
        ) by {
            assert(propagated(l.children@[i], l2.children@[i]));
        }
        lemma_first_child_agree(l2.children@, l.children@, c, n);
        let j = first_child(l.children@, c, n);
        lemma_first_child_range(l.children@, c, n);
        if 0 <= j < n {
            assert(propagated(l.children@[j], l2.children@[j]));
            lemma_propagation_node_at(l.children@[j], l2.children@[j], q.drop_first());
        }
    }
}

/// Two trees hold the same paths, each with the same kind and status.
pub open spec fn same_statuses(a: FileNode, b: FileNode) -> bool {
    forall|q: Seq<Seq<char>>|
        {
            &&& (#[trigger] node_at(a, q) is Some <==> node_at(b, q) is Some)
            &&& node_at(a, q) is Some ==> node_at(a, q)->0.is_dir == node_at(b, q)->0.is_dir && node_at(a, q)->0.status
                == node_at(b, q)->0.status
        }
}

proof fn lemma_same_statuses_child(s1: FileNode, s2: FileNode, c: Seq<char>)
    requires
        same_statuses(s1, s2),
        node_at(s1, seq![c]) is Some,
    ensures
        ({
            let j1 = first_child(s1.children@, c, s1.children@.len() as int);
            let j2 = first_child(s2.children@, c, s2.children@.len() as int);
            &&& 0 <= j1 < s1.children@.len()
            &&& 0 <= j2 < s2.children@.len()
            &&& same_statuses(s1.children@[j1], s2.children@[j2])
        }),
{
    let j1 = first_child(s1.children@, c, s1.children@.len() as int);
    let j2 = first_child(s2.children@, c, s2.children@.len() as int);
    assert(node_at(s2, seq![c]) is Some);
    assert forall|q: Seq<Seq<char>>| #![trigger node_at(s1.children@[j1], q)] true implies {
        &&& node_at(s1.children@[j1], q) == node_at(s1, seq![c] + q)
        &&& node_at(s2.children@[j2], q) == node_at(s2, seq![c] + q)
    } by {
        assert((seq![c] + q)[0] == c);
        assert((seq![c] + q).drop_first() =~= q);
    }
    assert forall|q: Seq<Seq<char>>|
        {
            &&& (#[trigger] node_at(s1.children@[j1], q) is Some <==> node_at(s2.children@[j2], q) is Some)
            &&& node_at(s1.children@[j1], q) is Some ==> node_at(s1.children@[j1], q)->0.is_dir == node_at(
                s2.children@[j2],
                q,
            )->0.is_dir && node_at(s1.children@[j1], q)->0.status == node_at(s2.children@[j2], q)->0.status
        } by {
        assert(node_at(s1, seq![c] + q) == node_at(s1, seq![c] + q));
    }
}

#[verifier::rlimit(100)]
proof fn lemma_propagation_agrees_root(s1: FileNode, s2: FileNode, t1: FileNode, t2: FileNode)
    requires
        well_formed(s1),
        well_formed(s2),
        propagated(s1, t1),
        propagated(s2, t2),
        same_statuses(s1, s2),
    ensures
        t1.status == t2.status,
    decreases s1, 0nat,
{
    assert(node_at(s1, Seq::<Seq<char>>::empty()) == Some(s1));
    assert(node_at(s2, Seq::<Seq<char>>::empty()) == Some(s2));
    lemma_wf_distinct(s1);
    lemma_wf_distinct(s2);
    let n1 = s1.children@.len() as int;
    let n2 = s2.children@.len() as int;
    if s1.is_dir {
        // Each child of one side has a counterpart on the other with the same status after propagation.
        assert forall|k: int| #![trigger t1.children@[k]] 0 <= k < n1 implies exists|k2: int|
            0 <= k2 < n2 && #[trigger] t2.children@[k2].status == t1.children@[k].status by {
            let c = last_component(s1.children@[k]);
            lemma_first_child_unique(s1.children@, c, k, n1);
            assert(node_at(s1, seq![c]) == node_at(s1.children@[k], seq![c].drop_first()));
            assert(seq![c].drop_first() =~= Seq::<Seq<char>>::empty());
            lemma_same_statuses_child(s1, s2, c);
            let k2 = first_child(s2.children@, c, n2);
            assert(propagated(s1.children@[k], t1.children@[k]));
            assert(propagated(s2.children@[k2], t2.children@[k2]));
            assert(well_formed(s1.children@[k]));
            assert(well_formed(s2.children@[k2]));
            lemma_propagation_agrees(s1.children@[k], s2.children@[k2], t1.children@[k], t2.children@[k2]);
        }
        assert forall|k2: int| #![trigger t2.children@[k2]] 0 <= k2 < n2 implies exists|k: int|
            0 <= k < n1 && #[trigger] t1.children@[k].status == t2.children@[k2].status by {
            let c = last_component(s2.children@[k2]);
            lemma_first_child_unique(s2.children@, c, k2, n2);
            assert(seq![c].drop_first() =~= Seq::<Seq<char>>::empty());
            assert(node_at(s2, seq![c]) == node_at(s2.children@[k2], seq![c].drop_first()));
            assert(node_at(s1, seq![c]) is Some);
            lemma_same_statuses_child(s1, s2, c);
            let k = first_child(s1.children@, c, n1);
            lemma_first_child_range(s1.children@, c, n1);
            assert(k == k2 || true);
            assert(propagated(s1.children@[k], t1.children@[k]));
            assert(propagated(s2.children@[k2], t2.children@[k2]));
            assert(well_formed(s1.children@[k]));
            assert(well_formed(s2.children@[k2]));
            lemma_propagation_agrees(s1.children@[k], s2.children@[k2], t1.children@[k], t2.children@[k2]);
        }
        let st1 = statuses_of(t1.children@);
        let st2 = statuses_of(t2.children@);
        assert forall|x: FileStatus| st1.contains(x) <==> st2.contains(x) by {
            if st1.contains(x) {
                let k = choose|k: int| 0 <= k < st1.len() && st1[k] == x;
                let k2 = choose|k2: int| 0 <= k2 < n2 && #[trigger] t2.children@[k2].status == t1.children@[k].status;
                assert(st2[k2] == x);
            }
            if st2.contains(x) {
                let k2 = choose|k2: int| 0 <= k2 < st2.len() && st2[k2] == x;
                let k = choose|k: int| 0 <= k < n1 && #[trigger] t1.children@[k].status == t2.children@[k2].status;
                assert(st1[k] == x);
            }
        }
        if n1 > 0 {
            assert(st1.contains(st1[0]));
        }
        if n2 > 0 {
            assert(st2.contains(st2[0]));
        }
    }
}

#[verifier::rlimit(60)]
proof fn lemma_propagation_agrees_below(s1: FileNode, s2: FileNode, t1: FileNode, t2: FileNode)
    requires
        well_formed(s1),
        well_formed(s2),
        propagated(s1, t1),
        propagated(s2, t2),
        same_statuses(s1, s2),
        t1.status == t2.status,
    ensures
        same_statuses(t1, t2),
    decreases s1, 0nat,
{
    assert(node_at(s1, Seq::<Seq<char>>::empty()) == Some(s1));
    assert(node_at(s2, Seq::<Seq<char>>::empty()) == Some(s2));
    lemma_wf_distinct(s1);
    lemma_wf_distinct(s2);
    let n1 = s1.children@.len() as int;
    let n2 = s2.children@.len() as int;
    // Below the roots.
    assert forall|q: Seq<Seq<char>>|
        {
            &&& (#[trigger] node_at(t1, q) is Some <==> node_at(t2, q) is Some)
            &&& node_at(t1, q) is Some ==> node_at(t1, q)->0.is_dir == node_at(t2, q)->0.is_dir && node_at(t1, q)->0.status
                == node_at(t2, q)->0.status
        } by {
        lemma_propagation_node_at(s1, t1, q);
        lemma_propagation_node_at(s2, t2, q);
        if q.len() > 0 && s1.is_dir {
            let c = q[0];
            let j1 = first_child(s1.children@, c, n1);
            lemma_first_child_range(s1.children@, c, n1);
            if 0 <= j1 < n1 {
                assert(node_at(s1, seq![c]) == node_at(s1.children@[j1], seq![c].drop_first()));
                assert(seq![c].drop_first() =~= Seq::<Seq<char>>::empty());
                lemma_same_statuses_child(s1, s2, c);
                let j2 = first_child(s2.children@, c, n2);
                assert forall|i: int| 0 <= i < n1 implies last_component(#[trigger] t1.children@[i]) == last_component(
                    s1.children@[i],
                ) by {
                    assert(propagated(s1.children@[i], t1.children@[i]));
                }
                assert forall|i: int| 0 <= i < n2 implies last_component(#[trigger] t2.children@[i]) == last_component(
                    s2.children@[i],
                ) by {
                    assert(propagated(s2.children@[i], t2.children@[i]));
                }
                lemma_first_child_agree(t1.children@, s1.children@, c, n1);
                lemma_first_child_agree(t2.children@, s2.children@, c, n2);
                assert(propagated(s1.children@[j1], t1.children@[j1]));
                assert(propagated(s2.children@[j2], t2.children@[j2]));
                assert(well_formed(s1.children@[j1]));
                assert(well_formed(s2.children@[j2]));
                lemma_propagation_agrees(s1.children@[j1], s2.children@[j2], t1.children@[j1], t2.children@[j2]);
                assert(node_at(t1.children@[j1], q.drop_first()) == node_at(t1.children@[j1], q.drop_first()));
            } else {
                assert(node_at(s1, q) is None);
            }
        }
    }
}

/// Status propagation depends only on the paths a tree holds and on their
/// kinds and statuses: two well-formed trees that agree on those at every
/// path still agree after propagation.
pub proof fn lemma_propagation_agrees(s1: FileNode, s2: FileNode, t1: FileNode, t2: FileNode)
    requires
        well_formed(s1),
        well_formed(s2),
        propagated(s1, t1),
        propagated(s2, t2),
        same_statuses(s1, s2),
    ensures
        t1.status == t2.status,
        same_statuses(t1, t2),
    decreases s1, 1nat,
{
    lemma_propagation_agrees_root(s1, s2, t1, t2);
    lemma_propagation_agrees_below(s1, s2, t1, t2);
}

proof fn lemma_marks_agree(
    a1: FileNode,
    a2: FileNode,
    m1: FileNode,
    m2: FileNode,
    c1: Seq<ContentCheck>,
    v1: Seq<bool>,
    c2: Seq<ContentCheck>,
    v2: Seq<bool>,
)
    requires
        same_statuses(a1, a2),
        marks_applied(a1, m1, c1, v1, c1.len() as int),
        marks_applied(a2, m2, c2, v2, c2.len() as int),
        forall|q: Seq<Seq<char>>|
            #![trigger failed_check(c1, v1, c1.len() as int, q)]
            failed_check(c1, v1, c1.len() as int, q) == failed_check(c2, v2, c2.len() as int, q),
    ensures
        same_statuses(m1, m2),
{
    assert forall|q: Seq<Seq<char>>|
        {
            &&& (#[trigger] node_at(m1, q) is Some <==> node_at(m2, q) is Some)
            &&& node_at(m1, q) is Some ==> node_at(m1, q)->0.is_dir == node_at(m2, q)->0.is_dir && node_at(m1, q)->0.status
                == node_at(m2, q)->0.status
        } by {
        assert(node_at(a1, q) is Some <==> node_at(a2, q) is Some);
        assert(failed_check(c1, v1, c1.len() as int, q) == failed_check(c2, v2, c2.len() as int, q));
    }
}

proof fn lemma_sort_agrees(a: FileNode, b: FileNode, other: FileNode)
    requires
        well_formed(a),
        sorted_tree(a, b),
        same_statuses(a, other),
    ensures
        same_statuses(b, other),
{
    assert forall|q: Seq<Seq<char>>|
        {
            &&& (#[trigger] node_at(b, q) is Some <==> node_at(other, q) is Some)
            &&& node_at(b, q) is Some ==> node_at(b, q)->0.is_dir == node_at(other, q)->0.is_dir && node_at(b, q)->0.status
                == node_at(other, q)->0.status
        } by {
        lemma_sort_node_at(a, b, q);
        assert(node_at(a, q) is Some <==> node_at(other, q) is Some);
    }
}

proof fn lemma_same_statuses_symmetric(a: FileNode, b: FileNode)
    requires
        same_statuses(a, b),
    ensures
        same_statuses(b, a),
{
    assert forall|q: Seq<Seq<char>>|
        {
            &&& (#[trigger] node_at(b, q) is Some <==> node_at(a, q) is Some)
            &&& node_at(b, q) is Some ==> node_at(b, q)->0.is_dir == node_at(a, q)->0.is_dir && node_at(b, q)->0.status
                == node_at(a, q)->0.status
        } by {
        assert(node_at(a, q) is Some <==> node_at(b, q) is Some);
    }
}

/// Comparing unchanged directories twice gives the same status at every
/// path. Two finished trees agree on every path's presence, kind and
/// status when their pending trees agreed on those and the same paths
/// failed their content checks. `marked` and `sorted` are the trees that
/// `DirectoryComparison::new` states it went through.
pub proof fn lemma_comparison_repeatable(
    a1: FileNode,
    a2: FileNode,
    c1: Seq<ContentCheck>,
    v1: Seq<bool>,
    c2: Seq<ContentCheck>,
    v2: Seq<bool>,
    m1: FileNode,
    so1: FileNode,
    t1: FileNode,
    m2: FileNode,
    so2: FileNode,
    t2: FileNode,
)
    requires
        same_statuses(a1, a2),
        forall|q: Seq<Seq<char>>|
            #![trigger failed_check(c1, v1, c1.len() as int, q)]
            failed_check(c1, v1, c1.len() as int, q) == failed_check(c2, v2, c2.len() as int, q),
        marks_applied(a1, m1, c1, v1, c1.len() as int),
        well_formed(m1),
        sorted_tree(m1, so1),
        propagated(so1, t1),
        marks_applied(a2, m2, c2, v2, c2.len() as int),
        well_formed(m2),
        sorted_tree(m2, so2),
        propagated(so2, t2),
    ensures
        same_statuses(t1, t2),
{
    lemma_marks_agree(a1, a2, m1, m2, c1, v1, c2, v2);
    lemma_sort_agrees(m1, so1, m2);
    lemma_same_statuses_symmetric(so1, m2);
    lemma_sort_agrees(m2, so2, so1);
    lemma_same_statuses_symmetric(so2, so1);
    lemma_sort_keeps_wf(m1, so1);
    lemma_sort_keeps_wf(m2, so2);
    lemma_propagation_agrees(so1, so2, t1, t2);
}

/// Each node of a listed path has, on both sides, the kind of the entry
/// that lists it: the left entry's where the left side lists it, else the
/// right entry's.
#[verifier::opaque]
pub open spec fn holds_kinds(
    l: FileNode,
    r: FileNode,
    le: Seq<ScanEntry>,
    kl: int,
    re: Seq<ScanEntry>,
    kr: int,
) -> bool {
    &&& forall|i: int|
            #![trigger le[i]]
            0 <= i < kl && i < le.len() && le[i].path@.len() > 0 ==> {
            let q = path_view(le[i].path@);
            &&& node_at(l, q) is Some
            &&& node_at(r, q) is Some
            &&& node_at(l, q)->0.is_dir == le[i].meta.is_dir
            &&& node_at(r, q)->0.is_dir == le[i].meta.is_dir
        }
    &&& forall|i: int|
            #![trigger re[i]]
            0 <= i < kr && i < re.len() && re[i].path@.len() > 0 && !listed(le, kl, path_view(re[i].path@)) ==> {
            let q = path_view(re[i].path@);
            &&& node_at(l, q) is Some
            &&& node_at(r, q) is Some
            &&& node_at(l, q)->0.is_dir == re[i].meta.is_dir
            &&& node_at(r, q)->0.is_dir == re[i].meta.is_dir
        }
}

#[verifier::rlimit(60)]
proof fn lemma_kinds_left_entries(
    l: FileNode,
    r: FileNode,
    l2: FileNode,
    r2: FileNode,
    le: Seq<ScanEntry>,
    kl: int,
    re: Seq<ScanEntry>,
    kr: int,
    from_left: bool,
)
    requires
        holds_listings(l, r, le, kl, re, kr),
        holds_kinds(l, r, le, kl, re, kr),
        parents_first(le),
        unique_paths(le),
        from_left ==> 0 <= kl < le.len() && kr == 0 && le[kl].path@.len() > 0,
        !from_left ==> kl == le.len() && 0 <= kr < re.len() && parents_first(re) && unique_paths(re)
            && re[kr].path@.len() > 0,
        ({
            let e = if from_left {
                le[kl]
            } else {
                re[kr]
            };
            let s = path_view(e.path@);
            &&& forall|q: Seq<Seq<char>>|
                is_prefix(q, s) && 0 < q.len() < s.len() ==> #[trigger] covered(le, kl, q) || covered(re, kr, q)
            &&& placed_in(l, l2, s, from_left, from_left, side_status(from_left), e.meta)
            &&& placed_in(r, r2, s, !from_left, from_left, side_status(from_left), e.meta)
        }),
    ensures
        forall|i: int|
            #![trigger le[i]]
            0 <= i < (if from_left {
            kl + 1
        } else {
            kl
        }) && i < le.len() && le[i].path@.len() > 0 ==> {
            let q = path_view(le[i].path@);
            &&& node_at(l2, q) is Some
            &&& node_at(r2, q) is Some
            &&& node_at(l2, q)->0.is_dir == le[i].meta.is_dir
            &&& node_at(r2, q)->0.is_dir == le[i].meta.is_dir
        },
{
    reveal(holds_listings);
    reveal(holds_kinds);
    let e = if from_left { le[kl] } else { re[kr] };
    let s = path_view(e.path@);
    let kl2 = if from_left { kl + 1 } else { kl };
    let kr2 = if from_left { kr } else { kr + 1 };
    lemma_prefix_of_self(s);
    assert(s.len() > 0);
    assert forall|q: Seq<Seq<char>>| q.len() > 0 implies {
        &&& covered(le, kl2, q) == (covered(le, kl, q) || (from_left && is_prefix(q, s)))
        &&& listed(le, kl2, q) == (listed(le, kl, q) || (from_left && s == q))
        &&& covered(re, kr2, q) == (covered(re, kr, q) || (!from_left && is_prefix(q, s)))
        &&& listed(re, kr2, q) == (listed(re, kr, q) || (!from_left && s == q))
    } by {
        if from_left {
            lemma_listed_step(le, kl, q);
        } else {
            lemma_listed_step(re, kr, q);
        }
    }
    if from_left {
        lemma_not_covered_yet(le, kl);
        assert forall|q: Seq<Seq<char>>| !covered(re, 0, q) && !listed(re, 0, q) by {
            if covered(re, 0, q) {
                let i = choose|i: int| 0 <= i < 0 && i < re.len() && #[trigger] is_prefix(q, path_view(re[i].path@));
            }
            if listed(re, 0, q) {
                let i = choose|i: int| 0 <= i < 0 && i < re.len() && #[trigger] path_view(re[i].path@) == q;
            }
        }
        assert(node_at(l, s) is None);
    } else {
        lemma_not_covered_yet(re, kr);
        lemma_covered_is_listed(le, s);
    }
    assert forall|i: int|
        #![trigger le[i]]
        0 <= i < kl2 && i < le.len() && le[i].path@.len() > 0 implies {
            let q = path_view(le[i].path@);
            &&& node_at(l2, q) is Some
            &&& node_at(r2, q) is Some
            &&& node_at(l2, q)->0.is_dir == le[i].meta.is_dir
            &&& node_at(r2, q)->0.is_dir == le[i].meta.is_dir
        } by {
        let q = path_view(le[i].path@);
        if from_left && i == kl {
            assert(q == s);
        } else {
            if from_left {
                assert(q != s);
            }
            if !is_prefix(q, s) {
                assert(node_at(l2, q) == node_at(l, q));
                assert(node_at(r2, q) == node_at(r, q));
            } else if q.len() < s.len() {
                assert(node_at(l, q) is Some);
            } else {
                assert(q =~= s);
            }
        }
    }
}

#[verifier::rlimit(60)]
proof fn lemma_kinds_right_entries(
    l: FileNode,
    r: FileNode,
    l2: FileNode,
    r2: FileNode,
    le: Seq<ScanEntry>,
    kl: int,
    re: Seq<ScanEntry>,
    kr: int,
    from_left: bool,
)
    requires
        holds_listings(l, r, le, kl, re, kr),
        holds_kinds(l, r, le, kl, re, kr),
        parents_first(le),
        unique_paths(le),
        from_left ==> 0 <= kl < le.len() && kr == 0 && le[kl].path@.len() > 0,
        !from_left ==> kl == le.len() && 0 <= kr < re.len() && parents_first(re) && unique_paths(re)
            && re[kr].path@.len() > 0,
        ({
            let e = if from_left {
                le[kl]
            } else {
                re[kr]
            };
            let s = path_view(e.path@);
            &&& forall|q: Seq<Seq<char>>|
                is_prefix(q, s) && 0 < q.len() < s.len() ==> #[trigger] covered(le, kl, q) || covered(re, kr, q)
            &&& placed_in(l, l2, s, from_left, from_left, side_status(from_left), e.meta)
            &&& placed_in(r, r2, s, !from_left, from_left, side_status(from_left), e.meta)
        }),
    ensures
        forall|i: int|
            #![trigger re[i]]
            0 <= i < (if from_left {
            kr
        } else {
            kr + 1
        }) && i < re.len() && re[i].path@.len() > 0 && !listed(le, (if from_left {
            kl + 1
        } else {
            kl
        }), path_view(re[i].path@)) ==> {
            let q = path_view(re[i].path@);
            &&& node_at(l2, q) is Some
            &&& node_at(r2, q) is Some
            &&& node_at(l2, q)->0.is_dir == re[i].meta.is_dir
            &&& node_at(r2, q)->0.is_dir == re[i].meta.is_dir
        },
{
    reveal(holds_listings);
    reveal(holds_kinds);
    let e = if from_left { le[kl] } else { re[kr] };
    let s = path_view(e.path@);
    let kl2 = if from_left { kl + 1 } else { kl };
    let kr2 = if from_left { kr } else { kr + 1 };
    lemma_prefix_of_self(s);
    assert(s.len() > 0);
    assert forall|q: Seq<Seq<char>>| q.len() > 0 implies {
        &&& covered(le, kl2, q) == (covered(le, kl, q) || (from_left && is_prefix(q, s)))
        &&& listed(le, kl2, q) == (listed(le, kl, q) || (from_left && s == q))
        &&& covered(re, kr2, q) == (covered(re, kr, q) || (!from_left && is_prefix(q, s)))
        &&& listed(re, kr2, q) == (listed(re, kr, q) || (!from_left && s == q))
    } by {
        if from_left {
            lemma_listed_step(le, kl, q);
        } else {
            lemma_listed_step(re, kr, q);
        }
    }
    if from_left {
        lemma_not_covered_yet(le, kl);
        assert forall|q: Seq<Seq<char>>| !covered(re, 0, q) && !listed(re, 0, q) by {
            if covered(re, 0, q) {
                let i = choose|i: int| 0 <= i < 0 && i < re.len() && #[trigger] is_prefix(q, path_view(re[i].path@));
            }
            if listed(re, 0, q) {
                let i = choose|i: int| 0 <= i < 0 && i < re.len() && #[trigger] path_view(re[i].path@) == q;
            }
        }
        assert(node_at(l, s) is None);
    } else {
        lemma_not_covered_yet(re, kr);
        lemma_covered_is_listed(le, s);
    }
    assert forall|i: int|
        #![trigger re[i]]
        0 <= i < kr2 && i < re.len() && re[i].path@.len() > 0 && !listed(le, kl2, path_view(re[i].path@)) implies {
            let q = path_view(re[i].path@);
            &&& node_at(l2, q) is Some
            &&& node_at(r2, q) is Some
            &&& node_at(l2, q)->0.is_dir == re[i].meta.is_dir
            &&& node_at(r2, q)->0.is_dir == re[i].meta.is_dir
        } by {
        let q = path_view(re[i].path@);
        if !from_left && i == kr {
            assert(q == s);
        } else {
            if !from_left {
                assert(q != s);
            }
            if !is_prefix(q, s) {
                assert(node_at(l2, q) == node_at(l, q));
                assert(node_at(r2, q) == node_at(r, q));
            } else if q.len() < s.len() {
                assert(node_at(l, q) is Some);
            } else {
                assert(q =~= s);
            }
        }
    }
}

proof fn lemma_kinds_step(
    l: FileNode,
    r: FileNode,
    l2: FileNode,
    r2: FileNode,
    le: Seq<ScanEntry>,
    kl: int,
    re: Seq<ScanEntry>,
    kr: int,
    from_left: bool,
)
    requires
        holds_listings(l, r, le, kl, re, kr),
        holds_kinds(l, r, le, kl, re, kr),
        parents_first(le),
        unique_paths(le),
        from_left ==> 0 <= kl < le.len() && kr == 0 && le[kl].path@.len() > 0,
        !from_left ==> kl == le.len() && 0 <= kr < re.len() && parents_first(re) && unique_paths(re)
            && re[kr].path@.len() > 0,
        ({
            let e = if from_left {
                le[kl]
            } else {
                re[kr]
            };
            let s = path_view(e.path@);
            &&& forall|q: Seq<Seq<char>>|
                is_prefix(q, s) && 0 < q.len() < s.len() ==> #[trigger] covered(le, kl, q) || covered(re, kr, q)
            &&& placed_in(l, l2, s, from_left, from_left, side_status(from_left), e.meta)
            &&& placed_in(r, r2, s, !from_left, from_left, side_status(from_left), e.meta)
        }),
    ensures
        holds_kinds(
            l2,
            r2,
            le,
            if from_left {
                kl + 1
            } else {
                kl
            },
            re,
            if from_left {
                kr
            } else {
                kr + 1
            },
        ),
{
    reveal(holds_kinds);
    lemma_kinds_left_entries(l, r, l2, r2, le, kl, re, kr, from_left);
    lemma_kinds_right_entries(l, r, l2, r2, le, kl, re, kr, from_left);
}

/// An entry with the empty path (a root) changes no kinds.
proof fn lemma_kinds_skip(
    l: FileNode,
    r: FileNode,
    le: Seq<ScanEntry>,
    kl: int,
    re: Seq<ScanEntry>,
    kr: int,
    from_left: bool,
)
    requires
        holds_kinds(l, r, le, kl, re, kr),
        from_left ==> 0 <= kl < le.len() && le[kl].path@.len() == 0 && kr == 0,
        !from_left ==> 0 <= kr < re.len() && re[kr].path@.len() == 0,
    ensures
        holds_kinds(
            l,
            r,
            le,
            if from_left {
                kl + 1
            } else {
                kl
            },
            re,
            if from_left {
                kr
            } else {
                kr + 1
            },
        ),
{
    reveal(holds_kinds);
    let kl2 = if from_left { kl + 1 } else { kl };
    assert forall|q: Seq<Seq<char>>| q.len() > 0 implies listed(le, kl2, q) == listed(le, kl, q) by {
        if from_left {
            lemma_listed_step(le, kl, q);
            assert(path_view(le[kl].path@).len() == 0);
        }
    }
}

/// Two listings name the same paths with the same kinds.
pub open spec fn same_listing(a: Seq<ScanEntry>, b: Seq<ScanEntry>) -> bool {
    &&& forall|p: Seq<Seq<char>>| #[trigger] listed(a, a.len() as int, p) == listed(b, b.len() as int, p)
    &&& forall|i: int, j: int|
        #![trigger a[i], b[j]]
        0 <= i < a.len() && 0 <= j < b.len() && path_view(a[i].path@) == path_view(b[j].path@) ==> a[i].meta.is_dir
            == b[j].meta.is_dir
}

#[verifier::rlimit(60)]
proof fn lemma_pending_kind_at(
    l1: FileNode,
    r1: FileNode,
    l2: FileNode,
    r2: FileNode,
    le1: Seq<ScanEntry>,
    re1: Seq<ScanEntry>,
    le2: Seq<ScanEntry>,
    re2: Seq<ScanEntry>,
    q: Seq<Seq<char>>,
)
    requires
        holds_listings(l1, r1, le1, le1.len() as int, re1, re1.len() as int),
        holds_listings(l2, r2, le2, le2.len() as int, re2, re2.len() as int),
        holds_kinds(l1, r1, le1, le1.len() as int, re1, re1.len() as int),
        holds_kinds(l2, r2, le2, le2.len() as int, re2, re2.len() as int),
        parents_first(le1),
        parents_first(re1),
        parents_first(le2),
        parents_first(re2),
        same_listing(le1, le2),
        same_listing(re1, re2),
        q.len() > 0,
        node_at(l1, q) is Some || node_at(r1, q) is Some,
    ensures
        node_at(l1, q) is Some && node_at(r1, q) is Some && node_at(l2, q) is Some && node_at(r2, q) is Some,
        node_at(l1, q)->0.is_dir == node_at(l2, q)->0.is_dir,
        node_at(r1, q)->0.is_dir == node_at(r2, q)->0.is_dir,
{
    reveal(holds_listings);
    reveal(holds_kinds);
    lemma_covered_is_listed(le1, q);
    lemma_covered_is_listed(re1, q);
    lemma_covered_is_listed(le2, q);
    lemma_covered_is_listed(re2, q);
    assert(listed(le1, le1.len() as int, q) == listed(le2, le2.len() as int, q));
    assert(listed(re1, re1.len() as int, q) == listed(re2, re2.len() as int, q));
    if listed(le1, le1.len() as int, q) {
        let i = choose|i: int| 0 <= i < le1.len() && i < le1.len() && #[trigger] path_view(le1[i].path@) == q;
        let j = choose|j: int| 0 <= j < le2.len() && j < le2.len() && #[trigger] path_view(le2[j].path@) == q;
        assert(le1[i] == le1[i] && le2[j] == le2[j]);
        assert(le1[i].path@.len() > 0 && le2[j].path@.len() > 0);
    } else {
        assert(covered(re1, re1.len() as int, q));
        let i = choose|i: int| 0 <= i < re1.len() && i < re1.len() && #[trigger] path_view(re1[i].path@) == q;
        let j = choose|j: int| 0 <= j < re2.len() && j < re2.len() && #[trigger] path_view(re2[j].path@) == q;
        assert(re1[i] == re1[i] && re2[j] == re2[j]);
        assert(re1[i].path@.len() > 0 && re2[j].path@.len() > 0);
    }
}

/// Scanning unchanged directories twice gives pending trees that agree on
/// every path's presence, kind and status, on both sides: trees that hold
/// two scans listing the same paths with the same kinds (in any order),
/// below roots that agree, agree at every path.
pub proof fn lemma_pending_agree(
    l1: FileNode,
    r1: FileNode,
    l2: FileNode,
    r2: FileNode,
    le1: Seq<ScanEntry>,
    re1: Seq<ScanEntry>,
    le2: Seq<ScanEntry>,
    re2: Seq<ScanEntry>,
)
    requires
        holds_listings(l1, r1, le1, le1.len() as int, re1, re1.len() as int),
        holds_listings(l2, r2, le2, le2.len() as int, re2, re2.len() as int),
        holds_kinds(l1, r1, le1, le1.len() as int, re1, re1.len() as int),
        holds_kinds(l2, r2, le2, le2.len() as int, re2, re2.len() as int),
        parents_first(le1),
        parents_first(re1),
        parents_first(le2),
        parents_first(re2),
        same_listing(le1, le2),
        same_listing(re1, re2),
        l1.is_dir == l2.is_dir && l1.status == l2.status,
        r1.is_dir == r2.is_dir && r1.status == r2.status,
    ensures
        same_statuses(l1, l2),
        same_statuses(r1, r2),
{
    lemma_alignment_depends_on_listings(l1, r1, l2, r2, le1, re1, le2, re2);
    assert(node_at(l1, Seq::<Seq<char>>::empty()) == Some(l1));
    assert(node_at(l2, Seq::<Seq<char>>::empty()) == Some(l2));
    assert(node_at(r1, Seq::<Seq<char>>::empty()) == Some(r1));
    assert(node_at(r2, Seq::<Seq<char>>::empty()) == Some(r2));
    assert forall|q: Seq<Seq<char>>|
        {
            &&& (#[trigger] node_at(l1, q) is Some <==> node_at(l2, q) is Some)
            &&& node_at(l1, q) is Some ==> node_at(l1, q)->0.is_dir == node_at(l2, q)->0.is_dir && node_at(l1, q)->0.status
                == node_at(l2, q)->0.status
        } by {
        if q.len() > 0 && node_at(l1, q) is Some {
            lemma_pending_kind_at(l1, r1, l2, r2, le1, re1, le2, re2, q);
        }
    }
    assert forall|q: Seq<Seq<char>>|
        {
            &&& (#[trigger] node_at(r1, q) is Some <==> node_at(r2, q) is Some)
            &&& node_at(r1, q) is Some ==> node_at(r1, q)->0.is_dir == node_at(r2, q)->0.is_dir && node_at(r1, q)->0.status
                == node_at(r2, q)->0.status
        } by {
        assert(node_at(l1, q) == node_at(l1, q));
        if q.len() > 0 && node_at(r1, q) is Some {
            lemma_pending_kind_at(l1, r1, l2, r2, le1, re1, le2, re2, q);
        }
    }
}

/// Comparing unchanged directories twice gives the same result: two
/// comparisons built from scans that list the same paths with the same
/// kinds (in any order), whose content checks fail for the same paths,
/// end with trees that agree on every path's presence, kind and status, on
/// both sides. The trees `m`, `so` and `t` of each run are those that
/// `PendingComparison::align` and `DirectoryComparison::new` state.
pub proof fn lemma_rescan_repeatable(
    l1: FileNode,
    r1: FileNode,
    l2: FileNode,
    r2: FileNode,
    le1: Seq<ScanEntry>,
    re1: Seq<ScanEntry>,
    le2: Seq<ScanEntry>,
    re2: Seq<ScanEntry>,
    c1: Seq<ContentCheck>,
    v1: Seq<bool>,
    c2: Seq<ContentCheck>,
    v2: Seq<bool>,
    lm1: FileNode,
    lso1: FileNode,
    lt1: FileNode,
    rm1: FileNode,
    rso1: FileNode,
    rt1: FileNode,
    lm2: FileNode,
    lso2: FileNode,
    lt2: FileNode,
    rm2: FileNode,
    rso2: FileNode,
    rt2: FileNode,
)
    requires
        holds_listings(l1, r1, le1, le1.len() as int, re1, re1.len() as int),
        holds_listings(l2, r2, le2, le2.len() as int, re2, re2.len() as int),
        holds_kinds(l1, r1, le1, le1.len() as int, re1, re1.len() as int),
        holds_kinds(l2, r2, le2, le2.len() as int, re2, re2.len() as int),
        parents_first(le1),
        parents_first(re1),
        parents_first(le2),
        parents_first(re2),
        same_listing(le1, le2),
        same_listing(re1, re2),
        l1.is_dir == l2.is_dir && l1.status == l2.status,
        r1.is_dir == r2.is_dir && r1.status == r2.status,
        forall|q: Seq<Seq<char>>|
            #![trigger failed_check(c1, v1, c1.len() as int, q)]
            failed_check(c1, v1, c1.len() as int, q) == failed_check(c2, v2, c2.len() as int, q),
        marks_applied(l1, lm1, c1, v1, c1.len() as int) && well_formed(lm1) && sorted_tree(lm1, lso1)
            && propagated(lso1, lt1),
        marks_applied(r1, rm1, c1, v1, c1.len() as int) && well_formed(rm1) && sorted_tree(rm1, rso1)
            && propagated(rso1, rt1),
        marks_applied(l2, lm2, c2, v2, c2.len() as int) && well_formed(lm2) && sorted_tree(lm2, lso2)
            && propagated(lso2, lt2),
        marks_applied(r2, rm2, c2, v2, c2.len() as int) && well_formed(rm2) && sorted_tree(rm2, rso2)
            && propagated(rso2, rt2),
    ensures
        same_statuses(lt1, lt2),
        same_statuses(rt1, rt2),
{
    lemma_pending_agree(l1, r1, l2, r2, le1, re1, le2, re2);
    lemma_comparison_repeatable(l1, l2, c1, v1, c2, v2, lm1, lso1, lt1, lm2, lso2, lt2);
    lemma_comparison_repeatable(r1, r2, c1, v1, c2, v2, rm1, rso1, rt1, rm2, rso2, rt2);
}

/// A finished tree keeps the nodes of its pending tree, each with its
/// name, path, kind, size, time and expansion (as `DirectoryComparison::new`
/// states).
pub open spec fn keeps_headers(pending: FileNode, done: FileNode) -> bool {
    forall|q: Seq<Seq<char>>|
        {
            &&& (#[trigger] node_at(done, q) is Some <==> node_at(pending, q) is Some)
            &&& node_at(pending, q) is Some ==> same_header(node_at(done, q)->0, node_at(pending, q)->0)
        }
}

/// Comparing unchanged directories twice gives the same names at every
/// path: finished trees that keep the headers of pending trees holding two
/// scans of the same paths, below roots of the same names, name every path
/// alike on both sides.
pub proof fn lemma_rescan_same_names(
    l1: FileNode,
    r1: FileNode,
    l2: FileNode,
    r2: FileNode,
    le1: Seq<ScanEntry>,
    re1: Seq<ScanEntry>,
    le2: Seq<ScanEntry>,
    re2: Seq<ScanEntry>,
    lt1: FileNode,
    rt1: FileNode,
    lt2: FileNode,
    rt2: FileNode,
)
    requires
        holds_listings(l1, r1, le1, le1.len() as int, re1, re1.len() as int),
        holds_listings(l2, r2, le2, le2.len() as int, re2, re2.len() as int),
        forall|p: Seq<Seq<char>>| listed(le1, le1.len() as int, p) == listed(le2, le2.len() as int, p),
        forall|p: Seq<Seq<char>>| listed(re1, re1.len() as int, p) == listed(re2, re2.len() as int, p),
        l1.name == l2.name,
        r1.name == r2.name,
        keeps_headers(l1, lt1),
        keeps_headers(r1, rt1),
        keeps_headers(l2, lt2),
        keeps_headers(r2, rt2),
    ensures
        forall|q: Seq<Seq<char>>|
            #[trigger] node_at(lt1, q) is Some ==> node_at(lt2, q) is Some && node_at(lt1, q)->0.name@
                == node_at(lt2, q)->0.name@,
        forall|q: Seq<Seq<char>>|
            #[trigger] node_at(rt1, q) is Some ==> node_at(rt2, q) is Some && node_at(rt1, q)->0.name@
                == node_at(rt2, q)->0.name@,
{
    lemma_alignment_depends_on_listings(l1, r1, l2, r2, le1, re1, le2, re2);
    assert(node_at(l1, Seq::<Seq<char>>::empty()) == Some(l1));
    assert(node_at(l2, Seq::<Seq<char>>::empty()) == Some(l2));
    assert(node_at(r1, Seq::<Seq<char>>::empty()) == Some(r1));
    assert(node_at(r2, Seq::<Seq<char>>::empty()) == Some(r2));
    assert forall|q: Seq<Seq<char>>| #[trigger] node_at(lt1, q) is Some implies node_at(lt2, q) is Some
        && node_at(lt1, q)->0.name@ == node_at(lt2, q)->0.name@ by {
        assert(node_at(l1, q) == node_at(l1, q));
        assert(node_at(lt2, q) == node_at(lt2, q));
        if q.len() > 0 {
            assert(node_at(l1, q)->0.name@ == node_at(l2, q)->0.name@);
        }
    }
    assert forall|q: Seq<Seq<char>>| #[trigger] node_at(rt1, q) is Some implies node_at(rt2, q) is Some
        && node_at(rt1, q)->0.name@ == node_at(rt2, q)->0.name@ by {
        assert(node_at(l1, q) == node_at(l1, q));
        assert(node_at(r1, q) == node_at(r1, q));
        assert(node_at(rt2, q) == node_at(rt2, q));
    }
}

fn copy_prefix(p: &Vec<String>, n: usize) -> (r: Vec<String>)
    requires
        n <= p@.len(),
    ensures
        r@ == p@.take(n as int),
{
    let mut r: Vec<String> = Vec::new();
    let mut i: usize = 0;
    while i < n
        invariant
            i <= n,
            n <= p@.len(),
            r@ == p@.take(i as int),
        decreases n - i,
    {
        r.push(p[i].clone());
        assert(p@.take(i + 1) == p@.take(i as int).push(p@[i as int]));
        i = i + 1;
    }
    r
}

/// The position of the first child whose path ends in `comp`.
fn find_child(children: &Vec<FileNode>, comp: &String) -> (r: Option<usize>)
    ensures
        match r {
            Some(j) => j as int == first_child(children@, comp@, children@.len() as int),
            None => first_child(children@, comp@, children@.len() as int) == -1,
        },
        match r {
            Some(j) => j < children@.len() && last_component(children@[j as int]) == comp@
                && forall|k: int| 0 <= k < j ==> last_component(#[trigger] children@[k]) != comp@,
            None => forall|k: int|
                0 <= k < children@.len() ==> last_component(#[trigger] children@[k]) != comp@,
        },
{
    let mut j: usize = 0;
    while j < children.len()
        invariant
            j <= children@.len(),
            forall|k: int| 0 <= k < j ==> last_component(#[trigger] children@[k]) != comp@,
            first_child(children@, comp@, j as int) == -1,
        decreases children@.len() - j,
    {
        let p = &children[j].path;
        let matches = if p.len() > 0 {
            p[p.len() - 1] == *comp
        } else {
            comp.as_str().is_empty()
        };
        if matches {
            proof {
                assert(last_component(children@[j as int]) =~= comp@);
                assert(first_child(children@, comp@, j as int + 1) == j as int);
                lemma_first_child_stable(children@, comp@, j + 1, children@.len() as int);
            }
            return Some(j);
        }
        j = j + 1;
    }
    None
}

impl FileNode {
    /// A collapsed node without children, with the size (files only) and
    /// modification time of `metadata`, if given.
    pub fn new_with_metadata(
        name: String,
        path: Vec<String>,
        is_dir: bool,
        status: FileStatus,
        metadata: Option<EntryMeta>,
    ) -> (r: FileNode)
        ensures
            r.name == name,
            r.path == path,
            r.is_dir == is_dir,
            r.status == status,
            r.children@.len() == 0,
            !r.expanded,
            r.size == match metadata {
                Some(m) => if is_dir {
                    None
                } else {
                    Some(m.size)
                },
                None => None,
            },
            r.modified == match metadata {
                Some(m) => m.modified,
                None => None,
            },
    {
        let (size, modified) = match metadata {
            Some(m) => (if is_dir { None } else { Some(m.size) }, m.modified),
            None => (None, None),
        };
        FileNode { name, path, is_dir, status, children: Vec::new(), expanded: false, size, modified }
    }
}

/// Gives a node the name and metadata of the entry found at its path.
fn fill_from(n: &mut FileNode, name: &String, meta: EntryMeta)
    requires
        old(n).path@.len() > 0,
        last_component(*old(n)) == name@,
    ensures
        final(n).name == *name,
        final(n).path == old(n).path,
        final(n).is_dir == old(n).is_dir,
        final(n).status == old(n).status,
        final(n).children == old(n).children,
        final(n).expanded == old(n).expanded,
        final(n).size == (if old(n).is_dir {
            None
        } else {
            Some(meta.size)
        }),
        final(n).modified == meta.modified,
{
    n.name = name.clone();
    n.size = if n.is_dir { None } else { Some(meta.size) };
    n.modified = meta.modified;
}

/// Places the entry with path `comps` and metadata `meta`, found on the left
/// (`from_left`) or on the right, into both trees below `left` and `right`,
/// from component `depth` on. A path not yet there is added on both sides,
/// found on the finding side and a placeholder on the other, with the status
/// of that side. A path already there from the other side becomes present
/// on both, Same for now; when it is a file on the left, its content
/// comparison is recorded.
#[verifier::rlimit(60)]
fn place(
    left: &mut FileNode,
    right: &mut FileNode,
    comps: &Vec<String>,
    depth: usize,
    meta: EntryMeta,
    from_left: bool,
    checks: &mut Vec<ContentCheck>,
)
    requires
        depth < comps@.len(),
        well_aligned(*old(left), *old(right)),
        well_formed(*old(left)),
        well_formed(*old(right)),
        path_view(old(left).path@) == path_view(comps@).take(depth as int),
        path_view(old(right).path@) == path_view(comps@).take(depth as int),
        all_collapsed(*old(left)),
        all_collapsed(*old(right)),
    ensures
        well_formed(*final(left)),
        well_formed(*final(right)),
        all_collapsed(*final(left)),
        all_collapsed(*final(right)),
        well_aligned(*final(left), *final(right)),
        same_header(*final(left), *old(left)),
        same_header(*final(right), *old(right)),
        final(left).status == old(left).status,
        final(right).status == old(right).status,
        (forall|i: int| 0 <= i < old(checks)@.len() ==> (#[trigger] old(checks)@[i]).path@.len() > 0)
            ==> (forall|i: int| 0 <= i < final(checks)@.len() ==> (#[trigger] final(checks)@[i]).path@.len() > 0),
        placed_in(*old(left), *final(left), path_view(comps@).skip(depth as int), from_left, from_left,
            side_status(from_left), meta),
        placed_in(*old(right), *final(right), path_view(comps@).skip(depth as int), !from_left, from_left,
            side_status(from_left), meta),
        check_added(old(checks)@, final(checks)@, *old(left), path_view(comps@), depth as int, from_left, meta),
    decreases comps@.len() - depth, 0nat,
{
    let comp = &comps[depth];
    let is_last = depth == comps.len() - 1;
    let ghost l0 = *left;
    let ghost r0 = *right;
    let ghost c0 = checks@;
    match find_child(&left.children, comp) {
        None => {
            let path = copy_prefix(comps, depth + 1);
            let other_path = copy_prefix(comps, depth + 1);
            let is_dir = if is_last { meta.is_dir } else { true };
            let status = if !is_last {
                FileStatus::Same
            } else if from_left {
                FileStatus::LeftOnly
            } else {
                FileStatus::RightOnly
            };
            let found = FileNode::new_with_metadata(comp.clone(), path, is_dir, status, if is_last { Some(meta) } else { None });
            let other_name = if is_last { String::new() } else { comp.clone() };
            let blank = FileNode::new_with_metadata(other_name, other_path, is_dir, status, None);
            proof {
                assert(path_view(found.path@) =~= path_view(blank.path@));
                assert(found.path@.last() == comps@[depth as int]);
                assert(blank.path@.last() == comps@[depth as int]);
            }
            if from_left {
                left.children.push(found);
                right.children.push(blank);
            } else {
                left.children.push(blank);
                right.children.push(found);
            }
            let j = left.children.len() - 1;
            proof {
                assert(left.children@[j as int].path@.len() > 0);
                assert(aligned(left.children@[j as int], right.children@[j as int]));
                assert(labels_ok(left.children@[j as int]));
                assert(labels_ok(right.children@[j as int]));
                assert(forall|k: int| 0 <= k < j ==> left.children@[k] == l0.children@[k]);
                assert(forall|k: int| 0 <= k < j ==> right.children@[k] == r0.children@[k]);
                assert(aligned(*left, *right));
                assert(labels_ok(*left));
                assert(labels_ok(*right));
                lemma_collapsed_push(l0, *left, left.children@[j as int]);
                lemma_collapsed_push(r0, *right, right.children@[j as int]);
                assert(path_view(comps@).take(depth + 1) =~= path_view(comps@).take(depth as int).push(comps@[depth as int]@));
                assert(path_view(left.children@[j as int].path@) =~= path_view(comps@).take(depth + 1));
                assert(path_view(right.children@[j as int].path@) =~= path_view(comps@).take(depth + 1));
                lemma_aligned_last_components(l0, r0);
                assert forall|k: int| 0 <= k < r0.children@.len() implies last_component(#[trigger] r0.children@[k])
                    != last_component(right.children@[j as int]) by {
                    assert(last_component(l0.children@[k]) == last_component(r0.children@[k]));
                }
                lemma_wf_push(l0, *left, left.children@[j as int]);
                lemma_wf_push(r0, *right, right.children@[j as int]);
            }
            let ghost fresh_l = left.children@[j as int];
            let ghost fresh_r = right.children@[j as int];
            if !is_last {
                place_below(left, right, j, comps, depth + 1, meta, from_left, checks);
            }
            proof {
                let rest = path_view(comps@).skip(depth as int);
                assert(rest[0] == comps@[depth as int]@);
                if !is_last {
                    assert(rest.drop_first() =~= path_view(comps@).skip(depth + 1));
                }
                assert(left.children@ =~= l0.children@.push(left.children@[j as int]));
                assert(right.children@ =~= r0.children@.push(right.children@[j as int]));
                lemma_aligned_last_components(l0, r0);
                lemma_first_child_agree(l0.children@, r0.children@, rest[0], l0.children@.len() as int);
                lemma_lift_new_child(l0, *left, fresh_l, left.children@[j as int], rest, from_left, from_left,
                    side_status(from_left), meta);
                lemma_lift_new_child(r0, *right, fresh_r, right.children@[j as int], rest, !from_left, from_left,
                    side_status(from_left), meta);
                if !is_last {
                    assert(node_at(fresh_l, path_view(comps@).skip(depth + 1)) is None);
                } else {
                    assert(checks@.take(c0.len() as int) =~= c0);
                }
            }
        },
        Some(j) => {
            proof {
                assert(aligned(l0.children@[j as int], r0.children@[j as int]));
                assert(labels_ok(l0.children@[j as int]));
                assert(labels_ok(r0.children@[j as int]));
                assert(path_view(l0.children@[j as int].path@) == path_view(r0.children@[j as int].path@));
                let lp = l0.children@[j as int].path@;
                let rp = r0.children@[j as int].path@;
                assert(path_view(lp).len() == lp.len());
                assert(path_view(lp)[lp.len() - 1] == lp.last()@);
                assert(path_view(rp)[rp.len() - 1] == rp.last()@);
                assert(path_view(comps@).take(depth + 1) =~= path_view(comps@).take(depth as int).push(comps@[depth as int]@));
                assert(path_view(l0.children@[j as int].path@) == path_view(comps@).take(depth + 1));
                assert(path_view(r0.children@[j as int].path@) == path_view(comps@).take(depth + 1));
            }
            if is_last {
                settle_entry(left, right, j, comp, comps, meta, from_left, checks);
            } else {
                place_below(left, right, j, comps, depth + 1, meta, from_left, checks);
            }
            proof {
                let rest = path_view(comps@).skip(depth as int);
                assert(rest[0] == comps@[depth as int]@);
                if !is_last {
                    assert(rest.drop_first() =~= path_view(comps@).skip(depth + 1));
                }
                lemma_aligned_last_components(l0, r0);
                lemma_first_child_agree(l0.children@, r0.children@, rest[0], l0.children@.len() as int);
                lemma_lift_existing_child(l0, *left, j as int, left.children@[j as int], rest, from_left, from_left,
                    side_status(from_left), meta);
                lemma_lift_existing_child(r0, *right, j as int, right.children@[j as int], rest, !from_left, from_left,
                    side_status(from_left), meta);
                assert(node_at(l0, rest) == node_at(l0.children@[j as int], rest.drop_first()));
                if is_last {
                    assert(rest.drop_first().len() == 0);
                }
            }
        },
    }
}

/// Aligned nodes' children end in the same components.
proof fn lemma_aligned_last_components(l: FileNode, r: FileNode)
    requires
        aligned(l, r),
    ensures
        forall|i: int| 0 <= i < l.children@.len() ==> last_component(#[trigger] l.children@[i]) == last_component(r.children@[i]),
{
    assert forall|i: int| 0 <= i < l.children@.len() implies last_component(#[trigger] l.children@[i]) == last_component(r.children@[i]) by {
        assert(aligned(l.children@[i], r.children@[i]));
        let lp = l.children@[i].path@;
        let rp = r.children@[i].path@;
        assert(path_view(lp).len() == lp.len());
        assert(path_view(rp).len() == rp.len());
        if lp.len() > 0 {
            assert(path_view(lp)[lp.len() - 1] == lp.last()@);
            assert(path_view(rp)[rp.len() - 1] == rp.last()@);
        }
    }
}

/// `place` into the `j`-th children of both nodes.
fn place_below(
    left: &mut FileNode,
    right: &mut FileNode,
    j: usize,
    comps: &Vec<String>,
    depth: usize,
    meta: EntryMeta,
    from_left: bool,
    checks: &mut Vec<ContentCheck>,
)
    requires
        depth < comps@.len(),
        j < old(left).children@.len(),
        well_aligned(*old(left), *old(right)),
        well_formed(*old(left)),
        well_formed(*old(right)),
        path_view(old(left).children@[j as int].path@) == path_view(comps@).take(depth as int),
        path_view(old(right).children@[j as int].path@) == path_view(comps@).take(depth as int),
        all_collapsed(*old(left)),
        all_collapsed(*old(right)),
    ensures
        well_formed(*final(left)),
        well_formed(*final(right)),
        all_collapsed(*final(left)),
        all_collapsed(*final(right)),
        well_aligned(*final(left), *final(right)),
        same_header(*final(left), *old(left)),
        same_header(*final(right), *old(right)),
        final(left).status == old(left).status,
        final(right).status == old(right).status,
        (forall|i: int| 0 <= i < old(checks)@.len() ==> (#[trigger] old(checks)@[i]).path@.len() > 0)
            ==> (forall|i: int| 0 <= i < final(checks)@.len() ==> (#[trigger] final(checks)@[i]).path@.len() > 0),
        final(left).children@ == old(left).children@.update(j as int, final(left).children@[j as int]),
        final(right).children@ == old(right).children@.update(j as int, final(right).children@[j as int]),
        same_header(final(left).children@[j as int], old(left).children@[j as int]),
        same_header(final(right).children@[j as int], old(right).children@[j as int]),
        final(left).children@[j as int].status == old(left).children@[j as int].status,
        final(right).children@[j as int].status == old(right).children@[j as int].status,
        placed_in(old(left).children@[j as int], final(left).children@[j as int], path_view(comps@).skip(depth as int),
            from_left, from_left, side_status(from_left), meta),
        placed_in(old(right).children@[j as int], final(right).children@[j as int], path_view(comps@).skip(depth as int),
            !from_left, from_left, side_status(from_left), meta),
        check_added(old(checks)@, final(checks)@, old(left).children@[j as int], path_view(comps@), depth as int, from_left,
            meta),
    decreases comps@.len() - depth, 1nat,
{
    let ghost l0 = *left;
    let ghost r0 = *right;
    proof {
        assert(aligned(l0.children@[j as int], r0.children@[j as int]));
        assert(labels_ok(l0.children@[j as int]));
        assert(labels_ok(r0.children@[j as int]));
        assert(all_collapsed(l0.children@[j as int]) && !l0.children@[j as int].expanded);
        assert(all_collapsed(r0.children@[j as int]) && !r0.children@[j as int].expanded);
        assert(well_formed(l0.children@[j as int]));
        assert(well_formed(r0.children@[j as int]));
    }
    place(&mut left.children[j], &mut right.children[j], comps, depth, meta, from_left, checks);
    proof {
        lemma_collapsed_update(l0, *left, j as int, left.children@[j as int]);
        lemma_collapsed_update(r0, *right, j as int, right.children@[j as int]);
        assert(left.children@ =~= l0.children@.update(j as int, left.children@[j as int]));
        assert(right.children@ =~= r0.children@.update(j as int, right.children@[j as int]));
        lemma_wf_update(l0, *left, j as int, left.children@[j as int]);
        lemma_wf_update(r0, *right, j as int, right.children@[j as int]);
        assert forall|k: int| #![trigger left.children@[k]] 0 <= k < left.children@.len() implies aligned(left.children@[k], right.children@[k]) by {
            if k != j {
                assert(left.children@[k] == l0.children@[k]);
                assert(right.children@[k] == r0.children@[k]);
                assert(aligned(l0.children@[k], r0.children@[k]));
            }
        }
        assert forall|k: int| #![trigger left.children@[k]] 0 <= k < left.children@.len() implies {
            &&& left.children@[k].path@.len() > 0
            &&& (left.children@[k].name@.len() == 0 || left.children@[k].name@ == last_component(left.children@[k]))
            &&& labels_ok(left.children@[k])
        } by {
            if k != j {
                assert(left.children@[k] == l0.children@[k]);
            }
        }
        assert forall|k: int| #![trigger right.children@[k]] 0 <= k < right.children@.len() implies {
            &&& right.children@[k].path@.len() > 0
            &&& (right.children@[k].name@.len() == 0 || right.children@[k].name@ == last_component(right.children@[k]))
            &&& labels_ok(right.children@[k])
        } by {
            if k != j {
                assert(right.children@[k] == r0.children@[k]);
            }
        }
    }
}

/// The entry at an existing path: fills the finding side, and pairs it
/// with the left side when the path was there from the left only.
fn settle_entry(
    left: &mut FileNode,
    right: &mut FileNode,
    j: usize,
    comp: &String,
    comps: &Vec<String>,
    meta: EntryMeta,
    from_left: bool,
    checks: &mut Vec<ContentCheck>,
)
    requires
        j < old(left).children@.len(),
        well_aligned(*old(left), *old(right)),
        well_formed(*old(left)),
        well_formed(*old(right)),
        all_collapsed(*old(left)),
        all_collapsed(*old(right)),
        last_component(old(left).children@[j as int]) == comp@,
        last_component(old(right).children@[j as int]) == comp@,
        comps@.len() > 0,
    ensures
        well_formed(*final(left)),
        well_formed(*final(right)),
        all_collapsed(*final(left)),
        all_collapsed(*final(right)),
        final(left).children@ == old(left).children@.update(j as int, final(left).children@[j as int]),
        final(right).children@ == old(right).children@.update(j as int, final(right).children@[j as int]),
        final(left).children@[j as int].path == old(left).children@[j as int].path,
        final(right).children@[j as int].path == old(right).children@[j as int].path,
        final(left).children@[j as int].children@ == old(left).children@[j as int].children@,
        final(right).children@[j as int].children@ == old(right).children@[j as int].children@,
        hdr(final(left).children@[j as int]) == leaf_after(Some(old(left).children@[j as int]), comp@, from_left,
            from_left, side_status(from_left), meta),
        hdr(final(right).children@[j as int]) == leaf_after(Some(old(right).children@[j as int]), comp@, !from_left,
            from_left, side_status(from_left), meta),
        ({
            let x = old(left).children@[j as int];
            let owed = !from_left && x.status == FileStatus::LeftOnly && !(x.is_dir && meta.is_dir);
            &&& final(checks)@.len() == old(checks)@.len() + (if owed {
                1int
            } else {
                0int
            })
            &&& final(checks)@.take(old(checks)@.len() as int) == old(checks)@
            &&& owed ==> {
                &&& path_view(final(checks)@[old(checks)@.len() as int].path@) == path_view(comps@)
                &&& final(checks)@[old(checks)@.len() as int].right == meta
                &&& final(checks)@[old(checks)@.len() as int].left == (EntryMeta {
                    is_dir: x.is_dir,
                    size: match x.size {
                        Some(v) => v,
                        None => 0,
                    },
                    modified: x.modified,
                })
            }
        }),
        well_aligned(*final(left), *final(right)),
        same_header(*final(left), *old(left)),
        same_header(*final(right), *old(right)),
        final(left).status == old(left).status,
        final(right).status == old(right).status,
        (forall|i: int| 0 <= i < old(checks)@.len() ==> (#[trigger] old(checks)@[i]).path@.len() > 0)
            ==> (forall|i: int| 0 <= i < final(checks)@.len() ==> (#[trigger] final(checks)@[i]).path@.len() > 0),
{
    let ghost l0 = *left;
    let ghost r0 = *right;
    proof {
        assert(aligned(l0.children@[j as int], r0.children@[j as int]));
        assert(labels_ok(l0.children@[j as int]));
        assert(labels_ok(r0.children@[j as int]));
    }
    if from_left {
        fill_from(&mut left.children[j], comp, meta);
    } else {
        let was_left_only = left.children[j].status == FileStatus::LeftOnly;
        fill_from(&mut right.children[j], comp, meta);
        if was_left_only {
            left.children[j].status = FileStatus::Same;
            right.children[j].status = FileStatus::Same;
            if !(left.children[j].is_dir && meta.is_dir) {
                let left_meta = EntryMeta {
                    is_dir: left.children[j].is_dir,
                    size: match left.children[j].size { Some(s) => s, None => 0 },
                    modified: left.children[j].modified,
                };
                let ghost before_checks = checks@;
                checks.push(ContentCheck { path: copy_prefix(comps, comps.len()), left: left_meta, right: meta });
                assert(comps@.take(comps@.len() as int) =~= comps@);
                assert(checks@.take(before_checks.len() as int) =~= before_checks);
            }
        }
    }
    proof {
        assert(all_collapsed(l0.children@[j as int]) && !l0.children@[j as int].expanded);
        assert(all_collapsed(r0.children@[j as int]) && !r0.children@[j as int].expanded);
        lemma_collapsed_same_children(l0.children@[j as int], left.children@[j as int]);
        lemma_collapsed_same_children(r0.children@[j as int], right.children@[j as int]);
        assert(left.children@ =~= l0.children@.update(j as int, left.children@[j as int]));
        assert(right.children@ =~= r0.children@.update(j as int, right.children@[j as int]));
        lemma_collapsed_update(l0, *left, j as int, left.children@[j as int]);
        lemma_collapsed_update(r0, *right, j as int, right.children@[j as int]);
        assert(well_formed(l0.children@[j as int]));
        assert(well_formed(r0.children@[j as int]));
        lemma_wf_same(l0.children@[j as int], left.children@[j as int]);
        lemma_wf_same(r0.children@[j as int], right.children@[j as int]);
        lemma_wf_update(l0, *left, j as int, left.children@[j as int]);
        lemma_wf_update(r0, *right, j as int, right.children@[j as int]);
    }
    proof {
        assert(aligned(left.children@[j as int], right.children@[j as int]));
        assert forall|k: int| #![trigger left.children@[k]] 0 <= k < left.children@.len() implies aligned(left.children@[k], right.children@[k]) by {
            if k != j {
                assert(left.children@[k] == l0.children@[k]);
                assert(right.children@[k] == r0.children@[k]);
                assert(aligned(l0.children@[k], r0.children@[k]));
            }
        }
        assert forall|k: int| #![trigger left.children@[k]] 0 <= k < left.children@.len() implies {
            &&& left.children@[k].path@.len() > 0
            &&& (left.children@[k].name@.len() == 0 || left.children@[k].name@ == last_component(left.children@[k]))
            &&& labels_ok(left.children@[k])
        } by {
            if k != j {
                assert(left.children@[k] == l0.children@[k]);
            }
        }
        assert forall|k: int| #![trigger right.children@[k]] 0 <= k < right.children@.len() implies {
            &&& right.children@[k].path@.len() > 0
            &&& (right.children@[k].name@.len() == 0 || right.children@[k].name@ == last_component(right.children@[k]))
            &&& labels_ok(right.children@[k])
        } by {
            if k != j {
                assert(right.children@[k] == r0.children@[k]);
            }
        }
    }
}

/// A child of a child node counts as well placed below its parent.
pub open spec fn child_ok(c: FileNode) -> bool {
    &&& c.path@.len() > 0
    &&& (c.name@.len() == 0 || c.name@ == last_component(c))
    &&& labels_ok(c)
}

/// Replacing the `j`-th children of two well-aligned nodes by two aligned,
/// well-labelled nodes keeps them well aligned.
proof fn lemma_replace_child(l0: FileNode, r0: FileNode, l: FileNode, r: FileNode, j: int)
    requires
        well_aligned(l0, r0),
        0 <= j < l0.children@.len(),
        l.children@ == l0.children@.update(j, l.children@[j]),
        r.children@ == r0.children@.update(j, r.children@[j]),
        path_view(l.path@) == path_view(l0.path@),
        path_view(r.path@) == path_view(r0.path@),
        l.is_dir == l0.is_dir,
        r.is_dir == r0.is_dir,
        l.status == l0.status,
        r.status == r0.status,
        aligned(l.children@[j], r.children@[j]),
        child_ok(l.children@[j]),
        child_ok(r.children@[j]),
    ensures
        well_aligned(l, r),
{
    assert forall|k: int| #![trigger l.children@[k]] 0 <= k < l.children@.len() implies aligned(l.children@[k], r.children@[k]) by {
        if k != j {
            assert(aligned(l0.children@[k], r0.children@[k]));
        }
    }
    assert forall|k: int| #![trigger l.children@[k]] 0 <= k < l.children@.len() implies child_ok(l.children@[k]) by {
        if k != j {
            assert(l.children@[k] == l0.children@[k]);
        }
    }
    assert forall|k: int| #![trigger r.children@[k]] 0 <= k < r.children@.len() implies child_ok(r.children@[k]) by {
        if k != j {
            assert(r.children@[k] == r0.children@[k]);
        }
    }
}

/// Marks the path `comps` Different in both trees, if it is there.
fn mark_different(left: &mut FileNode, right: &mut FileNode, comps: &Vec<String>, depth: usize)
    requires
        depth < comps@.len(),
        well_aligned(*old(left), *old(right)),
        well_formed(*old(left)),
        well_formed(*old(right)),
        all_collapsed(*old(left)),
        all_collapsed(*old(right)),
    ensures
        well_formed(*final(left)),
        well_formed(*final(right)),
        all_collapsed(*final(left)),
        all_collapsed(*final(right)),
        well_aligned(*final(left), *final(right)),
        same_header(*final(left), *old(left)),
        same_header(*final(right), *old(right)),
        final(left).status == old(left).status,
        final(right).status == old(right).status,
        final(left).children@.len() == old(left).children@.len(),
        final(right).children@.len() == old(right).children@.len(),
        status_marked(*old(left), *final(left), path_view(comps@).skip(depth as int)),
        status_marked(*old(right), *final(right), path_view(comps@).skip(depth as int)),
    decreases comps@.len() - depth,
{
    let ghost l0 = *left;
    let ghost r0 = *right;
    let ghost rest = path_view(comps@).skip(depth as int);
    assert(rest[0] == comps@[depth as int]@);
    proof {
        lemma_aligned_last_components(l0, r0);
        lemma_first_child_agree(l0.children@, r0.children@, rest[0], l0.children@.len() as int);
    }
    match find_child(&left.children, &comps[depth]) {
        None => {
            proof {
                assert forall|q: Seq<Seq<char>>| node_at(*left, q) is Some implies q != rest by {
                    if q == rest {
                        assert(q[0] == rest[0]);
                    }
                }
                assert forall|q: Seq<Seq<char>>| node_at(*right, q) is Some implies q != rest by {
                    if q == rest {
                        assert(q[0] == rest[0]);
                    }
                }
            }
        },
        Some(j) => {
            proof {
                assert(aligned(l0.children@[j as int], r0.children@[j as int]));
                assert(child_ok(l0.children@[j as int]));
                assert(child_ok(r0.children@[j as int]));
                assert(all_collapsed(l0.children@[j as int]) && !l0.children@[j as int].expanded);
                assert(all_collapsed(r0.children@[j as int]) && !r0.children@[j as int].expanded);
                assert(well_formed(l0.children@[j as int]));
                assert(well_formed(r0.children@[j as int]));
            }
            if depth == comps.len() - 1 {
                left.children[j].status = FileStatus::Different;
                right.children[j].status = FileStatus::Different;
            } else {
                mark_different(&mut left.children[j], &mut right.children[j], comps, depth + 1);
            }
            proof {
                lemma_replace_child(l0, r0, *left, *right, j as int);
                if depth < comps.len() - 1 {
                    assert(rest.drop_first() =~= path_view(comps@).skip(depth + 1));
                }
                assert(left.children@ =~= l0.children@.update(j as int, left.children@[j as int]));
                assert(right.children@ =~= r0.children@.update(j as int, right.children@[j as int]));
                lemma_lift_mark(l0, *left, j as int, left.children@[j as int], rest);
                lemma_lift_mark(r0, *right, j as int, right.children@[j as int], rest);
                if depth == comps.len() - 1 {
                    lemma_collapsed_same_children(l0.children@[j as int], left.children@[j as int]);
                    lemma_collapsed_same_children(r0.children@[j as int], right.children@[j as int]);
                }
                lemma_collapsed_update(l0, *left, j as int, left.children@[j as int]);
                lemma_collapsed_update(r0, *right, j as int, right.children@[j as int]);
                if depth == comps.len() - 1 {
                    lemma_wf_same(l0.children@[j as int], left.children@[j as int]);
                    lemma_wf_same(r0.children@[j as int], right.children@[j as int]);
                }
                lemma_wf_update(l0, *left, j as int, left.children@[j as int]);
                lemma_wf_update(r0, *right, j as int, right.children@[j as int]);
            }
        },
    }
}

/// Propagating statuses keeps two mirrored trees mirrored.
pub proof fn lemma_propagation_keeps_alignment(l: FileNode, r: FileNode, l2: FileNode, r2: FileNode)
    requires
        aligned(l, r),
        propagated(l, l2),
        propagated(r, r2),
    ensures
        aligned(l2, r2),
    decreases l,
{
    assert forall|i: int| #![trigger l2.children@[i]] 0 <= i < l2.children@.len() implies aligned(
        l2.children@[i],
        r2.children@[i],
    ) by {
        assert(aligned(l.children@[i], r.children@[i]));
        if l.is_dir {
            assert(propagated(l.children@[i], l2.children@[i]));
            assert(propagated(r.children@[i], r2.children@[i]));
            lemma_propagation_keeps_alignment(l.children@[i], r.children@[i], l2.children@[i], r2.children@[i]);
        }
    }
    if l.is_dir {
        assert(statuses_of(l2.children@) =~= statuses_of(r2.children@)) by {
            assert forall|i: int| 0 <= i < l2.children@.len() implies #[trigger] l2.children@[i].status == r2.children@[i].status by {
                assert(aligned(l2.children@[i], r2.children@[i]));
            }
        }
    }
}

fn root_node(name: &String, children: Vec<FileNode>) -> (r: FileNode)
    ensures
        is_root(r, *name),
        r.status == FileStatus::Same,
        r.children == children,
{
    FileNode {
        name: name.clone(),
        path: Vec::new(),
        is_dir: true,
        status: FileStatus::Same,
        children,
        expanded: true,
        size: None,
        modified: None,
    }
}

impl PendingComparison {
    #[verifier::type_invariant]
    spec fn inv(self) -> bool {
        &&& well_aligned(self.left_tree, self.right_tree)
        &&& self.left_tree.path@.len() == 0
        &&& self.right_tree.path@.len() == 0
        &&& self.left_tree.is_dir
        &&& self.right_tree.is_dir
        &&& self.left_tree.expanded
        &&& self.right_tree.expanded
        &&& self.left_tree.status == FileStatus::Same
        &&& self.right_tree.status == FileStatus::Same
        &&& all_collapsed(self.left_tree)
        &&& all_collapsed(self.right_tree)
        &&& well_formed(self.left_tree)
        &&& well_formed(self.right_tree)
        &&& forall|i: int| 0 <= i < self.checks@.len() ==> (#[trigger] self.checks@[i]).path@.len() > 0
    }

    pub closed spec fn left_root(self) -> FileNode {
        self.left_tree
    }

    pub closed spec fn right_root(self) -> FileNode {
        self.right_tree
    }

    pub closed spec fn left_dir_spec(self) -> String {
        self.left_dir
    }

    pub closed spec fn right_dir_spec(self) -> String {
        self.right_dir
    }

    pub closed spec fn checks_spec(self) -> Seq<ContentCheck> {
        self.checks@
    }

    /// Builds the two aligned trees of two scans: every path found on
    /// either side, and every directory it lies in, stands in both trees,
    /// named where it was found and blank where it was not, with its status
    /// from the two listings; no other path stands there.
    pub fn align(left: &ScannedTree, right: &ScannedTree) -> (r: PendingComparison)
        ensures
            is_root(r.left_root(), left.root_name),
            is_root(r.right_root(), right.root_name),
            well_aligned(r.left_root(), r.right_root()),
            all_collapsed(r.left_root()),
            all_collapsed(r.right_root()),
            well_formed(r.left_root()),
            well_formed(r.right_root()),
            parents_first(left.entries@) && parents_first(right.entries@) ==> {
                &&& checks_listed(r.checks_spec(), left.entries@, left.entries@.len() as int, right.entries@,
                    right.entries@.len() as int)
                &&& holds_listings(
                    r.left_root(),
                    r.right_root(),
                    left.entries@,
                    left.entries@.len() as int,
                    right.entries@,
                    right.entries@.len() as int,
                )
            },
            parents_first(left.entries@) && parents_first(right.entries@) && unique_paths(left.entries@)
                && unique_paths(right.entries@) ==> checks_exact(
                r.checks_spec(),
                left.entries@,
                right.entries@,
                right.entries@.len() as int,
            ),
            parents_first(left.entries@) && parents_first(right.entries@) && unique_paths(left.entries@)
                && unique_paths(right.entries@) ==> holds_kinds(
                r.left_root(),
                r.right_root(),
                left.entries@,
                left.entries@.len() as int,
                right.entries@,
                right.entries@.len() as int,
            ),
            parents_first(left.entries@) && parents_first(right.entries@) && unique_paths(left.entries@)
                && unique_paths(right.entries@) ==> holds_metadata(
                r.left_root(),
                r.right_root(),
                left.entries@,
                left.entries@.len() as int,
                right.entries@,
                right.entries@.len() as int,
            ),
            r.left_dir_spec() == left.root,
            r.right_dir_spec() == right.root,
            (forall|i: int| 0 <= i < left.entries@.len() ==> (#[trigger] left.entries@[i]).path@.len() == 0)
                && (forall|i: int| 0 <= i < right.entries@.len() ==> (#[trigger] right.entries@[i]).path@.len() == 0)
                ==> r.left_root().children@.len() == 0 && r.right_root().children@.len() == 0
                    && r.checks_spec().len() == 0,
    {
        let mut left_tree = root_node(&left.root_name, Vec::new());
        let mut right_tree = root_node(&right.root_name, Vec::new());
        let mut checks: Vec<ContentCheck> = Vec::new();
        let ghost le = left.entries@;
        let ghost re = right.entries@;
        let ghost none_left = forall|i: int| 0 <= i < le.len() ==> (#[trigger] le[i]).path@.len() == 0;
        let ghost none_right = forall|i: int| 0 <= i < re.len() ==> (#[trigger] re[i]).path@.len() == 0;
        assert(path_view(left_tree.path@) =~= path_view(right_tree.path@));
        proof {
            lemma_nothing_listed(left_tree, right_tree, le, re);
        }
        let mut i: usize = 0;
        while i < left.entries.len()
            invariant
                i <= le.len(),
                le == left.entries@,
                re == right.entries@,
                well_aligned(left_tree, right_tree),
                is_root(left_tree, left.root_name),
                is_root(right_tree, right.root_name),
                left_tree.status == FileStatus::Same,
                right_tree.status == FileStatus::Same,
                parents_first(le) ==> holds_listings(left_tree, right_tree, le, i as int, re, 0),
                parents_first(le) ==> checks_listed(checks@, le, i as int, re, 0),
                parents_first(le) && unique_paths(le) ==> holds_metadata(left_tree, right_tree, le, i as int, re, 0),
                parents_first(le) && unique_paths(le) ==> holds_kinds(left_tree, right_tree, le, i as int, re, 0),
                checks@.len() == 0,
                all_collapsed(left_tree),
                all_collapsed(right_tree),
                well_formed(left_tree),
                well_formed(right_tree),
                forall|k: int| 0 <= k < checks@.len() ==> (#[trigger] checks@[k]).path@.len() > 0,
                none_left == (forall|k: int| 0 <= k < le.len() ==> (#[trigger] le[k]).path@.len() == 0),
                none_left ==> left_tree.children@.len() == 0 && right_tree.children@.len() == 0 && checks@.len() == 0,
            decreases le.len() - i,
        {
            let entry = &left.entries[i];
            let ghost l0 = left_tree;
            let ghost r0 = right_tree;
            if entry.path.len() > 0 {
                let ghost c0 = checks@;
                proof {
                    assert(path_view(entry.path@).take(0) =~= path_view(left_tree.path@));
                    assert(path_view(entry.path@).take(0) =~= path_view(right_tree.path@));
                }
                place(&mut left_tree, &mut right_tree, &entry.path, 0, entry.meta, true, &mut checks);
                proof {
                    if parents_first(le) {
                        lemma_parents_covered(le, i as int);
                        lemma_checks_step(c0, checks@, l0, r0, le, i as int, re, 0, true);
                        assert(path_view(entry.path@).skip(0) =~= path_view(entry.path@));
                        lemma_place_step(l0, r0, left_tree, right_tree, le, i as int, re, 0, true, entry.meta);
                        if unique_paths(le) {
                            lemma_meta_step(l0, r0, left_tree, right_tree, le, i as int, re, 0, true);
                            lemma_kinds_step(l0, r0, left_tree, right_tree, le, i as int, re, 0, true);
                        }
                    }
                }
            } else {
                proof {
                    if parents_first(le) && unique_paths(le) {
                        lemma_meta_skip(l0, r0, le, i as int, re, 0, true);
                        lemma_kinds_skip(l0, r0, le, i as int, re, 0, true);
                    }
                    if parents_first(le) {
                        lemma_skip_empty(l0, r0, le, i as int, re, 0, true);
                        lemma_checks_skip(checks@, le, i as int, re, 0, true);
                    }
                }
            }
            i = i + 1;
        }
        proof {
            assert(checks@ =~= Seq::<ContentCheck>::empty());
            lemma_checks_exact_start(le, re);
        }
        let mut i: usize = 0;
        while i < right.entries.len()
            invariant
                i <= re.len(),
                le == left.entries@,
                re == right.entries@,
                well_aligned(left_tree, right_tree),
                is_root(left_tree, left.root_name),
                is_root(right_tree, right.root_name),
                left_tree.status == FileStatus::Same,
                right_tree.status == FileStatus::Same,
                parents_first(le) && parents_first(re) ==> holds_listings(left_tree, right_tree, le, le.len() as int, re, i as int),
                parents_first(le) && parents_first(re) ==> checks_listed(checks@, le, le.len() as int, re, i as int),
                parents_first(le) && parents_first(re) && unique_paths(le) && unique_paths(re) ==> holds_metadata(
                    left_tree, right_tree, le, le.len() as int, re, i as int),
                parents_first(le) && parents_first(re) && unique_paths(le) && unique_paths(re) ==> holds_kinds(
                    left_tree, right_tree, le, le.len() as int, re, i as int),
                parents_first(le) && parents_first(re) && unique_paths(le) && unique_paths(re) ==> checks_exact(
                    checks@, le, re, i as int),
                all_collapsed(left_tree),
                all_collapsed(right_tree),
                well_formed(left_tree),
                well_formed(right_tree),
                forall|k: int| 0 <= k < checks@.len() ==> (#[trigger] checks@[k]).path@.len() > 0,
                none_left == (forall|k: int| 0 <= k < le.len() ==> (#[trigger] le[k]).path@.len() == 0),
                none_right == (forall|k: int| 0 <= k < re.len() ==> (#[trigger] re[k]).path@.len() == 0),
                none_left && none_right ==> left_tree.children@.len() == 0 && right_tree.children@.len() == 0
                    && checks@.len() == 0,
            decreases re.len() - i,
        {
            let entry = &right.entries[i];
            let ghost l0 = left_tree;
            let ghost r0 = right_tree;
            if entry.path.len() > 0 {
                let ghost c0 = checks@;
                proof {
                    assert(path_view(entry.path@).take(0) =~= path_view(left_tree.path@));
                    assert(path_view(entry.path@).take(0) =~= path_view(right_tree.path@));
                }
                place(&mut left_tree, &mut right_tree, &entry.path, 0, entry.meta, false, &mut checks);
                proof {
                    if parents_first(le) && parents_first(re) {
                        lemma_parents_covered(re, i as int);
                        lemma_checks_step(c0, checks@, l0, r0, le, le.len() as int, re, i as int, false);
                        assert(path_view(entry.path@).skip(0) =~= path_view(entry.path@));
                        lemma_place_step(l0, r0, left_tree, right_tree, le, le.len() as int, re, i as int, false, entry.meta);
                        if unique_paths(le) && unique_paths(re) {
                            lemma_meta_step(l0, r0, left_tree, right_tree, le, le.len() as int, re, i as int, false);
                            lemma_kinds_step(l0, r0, left_tree, right_tree, le, le.len() as int, re, i as int, false);
                            lemma_checks_exact_step(c0, checks@, l0, r0, le, re, i as int);
                        }
                    }
                }
            } else {
                proof {
                    if parents_first(le) && unique_paths(le) && parents_first(re) && unique_paths(re) {
                        lemma_meta_skip(l0, r0, le, le.len() as int, re, i as int, false);
                        lemma_kinds_skip(l0, r0, le, le.len() as int, re, i as int, false);
                        lemma_checks_exact_skip(checks@, le, re, i as int);
                    }
                    if parents_first(le) && parents_first(re) {
                        lemma_skip_empty(l0, r0, le, le.len() as int, re, i as int, false);
                        lemma_checks_skip(checks@, le, le.len() as int, re, i as int, false);
                    }
                }
            }
            i = i + 1;
        }
        PendingComparison {
            left_tree,
            right_tree,
            left_dir: left.root.clone(),
            right_dir: right.root.clone(),
            checks,
        }
    }

    /// The content comparisons still owed, in the order they were found.
    pub fn checks(&self) -> (r: &Vec<ContentCheck>)
        ensures
            r@ == self.checks_spec(),
    {
        &self.checks
    }
}

impl DirectoryComparison {
    /// Finishes a comparison, given one verdict per content check: each
    /// check whose verdict is `false` makes its path Different on both
    /// sides; then both trees are sorted and every directory takes its
    /// status from its children. The two trees keep the same shape.
    pub fn new(pending: PendingComparison, verdicts: &Vec<bool>) -> (r: DirectoryComparison)
        requires
            verdicts@.len() == pending.checks_spec().len(),
        ensures
            aligned(r.left_tree, r.right_tree),
            r.left_tree.path@.len() == 0,
            r.right_tree.path@.len() == 0,
            r.left_tree.name == pending.left_root().name,
            r.right_tree.name == pending.right_root().name,
            r.left_tree.expanded,
            r.right_tree.expanded,
            r.left_tree.is_dir,
            r.right_tree.is_dir,
            r.left_dir == pending.left_dir_spec(),
            r.right_dir == pending.right_dir_spec(),
            pending.left_root().children@.len() == 0 ==> r.left_tree.children@.len() == 0
                && r.left_tree.status == FileStatus::Same,
            pending.right_root().children@.len() == 0 ==> r.right_tree.children@.len() == 0
                && r.right_tree.status == FileStatus::Same,
            all_collapsed(r.left_tree),
            all_collapsed(r.right_tree),
            well_formed(r.left_tree),
            well_formed(r.right_tree),
            forall|q: Seq<Seq<char>>|
                {
                    &&& (#[trigger] node_at(r.left_tree, q) is Some <==> node_at(pending.left_root(), q) is Some)
                    &&& node_at(pending.left_root(), q) is Some ==> same_header(
                        node_at(r.left_tree, q)->0,
                        node_at(pending.left_root(), q)->0,
                    ) && (!node_at(pending.left_root(), q)->0.is_dir ==> node_at(r.left_tree, q)->0.status == (
                    if failed_check(pending.checks_spec(), verdicts@, pending.checks_spec().len() as int, q) {
                        FileStatus::Different
                    } else {
                        node_at(pending.left_root(), q)->0.status
                    }))
                },
            forall|q: Seq<Seq<char>>|
                {
                    &&& (#[trigger] node_at(r.right_tree, q) is Some <==> node_at(pending.right_root(), q) is Some)
                    &&& node_at(pending.right_root(), q) is Some ==> same_header(
                        node_at(r.right_tree, q)->0,
                        node_at(pending.right_root(), q)->0,
                    ) && (!node_at(pending.right_root(), q)->0.is_dir ==> node_at(r.right_tree, q)->0.status == (
                    if failed_check(pending.checks_spec(), verdicts@, pending.checks_spec().len() as int, q) {
                        FileStatus::Different
                    } else {
                        node_at(pending.right_root(), q)->0.status
                    }))
                },
            keeps_headers(pending.left_root(), r.left_tree),
            keeps_headers(pending.right_root(), r.right_tree),
            exists|marked: FileNode, sorted: FileNode|
                marks_applied(pending.left_root(), marked, pending.checks_spec(), verdicts@, pending.checks_spec().len() as int)
                    && well_formed(marked) && sorted_tree(marked, sorted) && propagated(sorted, r.left_tree),
            exists|marked: FileNode, sorted: FileNode|
                marks_applied(pending.right_root(), marked, pending.checks_spec(), verdicts@, pending.checks_spec().len() as int)
                    && well_formed(marked) && sorted_tree(marked, sorted) && propagated(sorted, r.right_tree),
    {
        proof {
            use_type_invariant(&pending);
        }
        let PendingComparison { left_tree, right_tree, left_dir, right_dir, checks } = pending;
        let mut left_tree = left_tree;
        let mut right_tree = right_tree;
        let ghost l0 = left_tree;
        let ghost r0 = right_tree;
        proof {
            assert forall|q: Seq<Seq<char>>| !failed_check(checks@, verdicts@, 0, q) by {
                if failed_check(checks@, verdicts@, 0, q) {
                    let k = choose|k: int|
                        0 <= k < 0 && k < checks@.len() && k < verdicts@.len() && !verdicts@[k] && #[trigger] path_view(
                            checks@[k].path@,
                        ) == q;
                }
            }
        }
        let mut i: usize = 0;
        while i < checks.len()
            invariant
                well_aligned(left_tree, right_tree),
                same_header(left_tree, l0),
                same_header(right_tree, r0),
                left_tree.status == l0.status,
                right_tree.status == r0.status,
                l0.children@.len() == 0 ==> left_tree.children@.len() == 0,
                r0.children@.len() == 0 ==> right_tree.children@.len() == 0,
                forall|i: int| 0 <= i < checks@.len() ==> (#[trigger] checks@[i]).path@.len() > 0,
                i <= checks@.len(),
                marks_applied(l0, left_tree, checks@, verdicts@, i as int),
                marks_applied(r0, right_tree, checks@, verdicts@, i as int),
                all_collapsed(left_tree),
                all_collapsed(right_tree),
                well_formed(left_tree),
                well_formed(right_tree),
            decreases checks@.len() - i,
        {
            let ghost la = left_tree;
            let ghost ra = right_tree;
            if i < verdicts.len() && !verdicts[i] {
                assert(checks@[i as int].path@.len() > 0);
                mark_different(&mut left_tree, &mut right_tree, &checks[i].path, 0);
                assert(path_view(checks@[i as int].path@).skip(0) =~= path_view(checks@[i as int].path@));
            }
            proof {
                lemma_marks_step(l0, la, left_tree, checks@, verdicts@, i as int);
                lemma_marks_step(r0, ra, right_tree, checks@, verdicts@, i as int);
            }
            i = i + 1;
        }
        let ghost l1 = left_tree;
        let ghost r1 = right_tree;
        sort_tree_recursive(&mut left_tree);
        sort_tree_recursive(&mut right_tree);
        proof {
            lemma_sort_keeps_alignment(l1, r1, left_tree, right_tree);
            lemma_sort_keeps_collapsed(l1, left_tree);
            lemma_sort_keeps_collapsed(r1, right_tree);
            lemma_sort_keeps_wf(l1, left_tree);
            lemma_sort_keeps_wf(r1, right_tree);
        }
        let ghost l2 = left_tree;
        let ghost r2 = right_tree;
        update_folder_status(&mut left_tree);
        update_folder_status(&mut right_tree);
        proof {
            lemma_propagation_keeps_alignment(l2, r2, left_tree, right_tree);
            lemma_propagation_keeps_collapsed(l2, left_tree);
            lemma_propagation_keeps_collapsed(r2, right_tree);
            lemma_propagation_keeps_wf(l2, left_tree);
            lemma_propagation_keeps_wf(r2, right_tree);
            assert forall|q: Seq<Seq<char>>| #![trigger node_at(left_tree, q)] true implies {
                &&& (node_at(left_tree, q) is Some <==> node_at(l0, q) is Some)
                &&& node_at(l0, q) is Some ==> same_header(node_at(left_tree, q)->0, node_at(l0, q)->0) && (
                    !node_at(l0, q)->0.is_dir ==> node_at(left_tree, q)->0.status == (if failed_check(
                    checks@, verdicts@, checks@.len() as int, q) {
                        FileStatus::Different
                    } else {
                        node_at(l0, q)->0.status
                    }))
            } by {
                lemma_sort_node_at(l1, l2, q);
                lemma_propagation_node_at(l2, left_tree, q);
                assert(node_at(l1, q) is Some <==> node_at(l0, q) is Some);
            }
            assert forall|q: Seq<Seq<char>>| #![trigger node_at(right_tree, q)] true implies {
                &&& (node_at(right_tree, q) is Some <==> node_at(r0, q) is Some)
                &&& node_at(r0, q) is Some ==> same_header(node_at(right_tree, q)->0, node_at(r0, q)->0) && (
                    !node_at(r0, q)->0.is_dir ==> node_at(right_tree, q)->0.status == (if failed_check(
                    checks@, verdicts@, checks@.len() as int, q) {
                        FileStatus::Different
                    } else {
                        node_at(r0, q)->0.status
                    }))
            } by {
                lemma_sort_node_at(r1, r2, q);
                lemma_propagation_node_at(r2, right_tree, q);
                assert(node_at(r1, q) is Some <==> node_at(r0, q) is Some);
            }
        }
        DirectoryComparison { left_tree, right_tree, left_dir, right_dir }
    }
}

} // verus!
