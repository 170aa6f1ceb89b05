use vstd::prelude::*;

verus! {

/// How one relative path compares between the left and the right tree.
#[derive(Clone, Copy, Debug, PartialEq, Eq, Structural)]
pub enum FileStatus {
    /// Present on both sides with equal content.
    Same,
    /// Present on both sides with different content.
    Different,
    /// Present on the left side only.
    LeftOnly,
    /// Present on the right side only.
    RightOnly,
}

/// One entry of a compared tree.
///
/// `path` is the relative path from the tree's root, one component per
/// element; the root itself has the empty path. A placeholder (the entry on
/// the side that lacks a path) has an empty `name` and no metadata.
#[derive(Debug)]
pub struct FileNode {
    pub name: String,
    pub path: Vec<String>,
    pub is_dir: bool,
    pub status: FileStatus,
    pub children: Vec<FileNode>,
    pub expanded: bool,
    pub size: Option<u64>,
    /// Modification time in seconds since the Unix epoch.
    pub modified: Option<u64>,
}

/// The components of a path as character sequences.
pub open spec fn path_view(p: Seq<String>) -> Seq<Seq<char>> {
    p.map_values(|s: String| s@)
}

/// Number of nodes in the tree rooted at `n`.
pub open spec fn node_count(n: FileNode) -> nat
    decreases n,
{
    1 + children_count(n, n.children@.len() as int)
}

/// Number of nodes in the first `k` child subtrees of `n`.
pub open spec fn children_count(n: FileNode, k: int) -> nat
    decreases n, k,
{
    if k <= 0 || k > n.children@.len() {
        0
    } else {
        children_count(n, k - 1) + node_count(n.children@[k - 1])
    }
}

/// Two trees mirror each other: the same relative path, kind and status at
/// every position, and the same number of children in the same order.
pub open spec fn aligned(l: FileNode, r: FileNode) -> bool
    decreases l,
{
    &&& path_view(l.path@) == path_view(r.path@)
    &&& l.is_dir == r.is_dir
    &&& l.status == r.status
    &&& l.children@.len() == r.children@.len()
    &&& forall|i: int|
        #![trigger l.children@[i]]
        0 <= i < l.children@.len() ==> aligned(l.children@[i], r.children@[i])
}

/// A copy of a path, component by component.
pub fn copy_path(p: &Vec<String>) -> (r: Vec<String>)
    ensures
        r@ == p@,
{
    let mut r: Vec<String> = Vec::new();
    let mut i: usize = 0;
    while i < p.len()
        invariant
            i <= p@.len(),
            r@ == p@.take(i as int),
        decreases p@.len() - i,
    {
        r.push(p[i].clone());
        assert(p@.take(i + 1) == p@.take(i as int).push(p@[i as int]));
        i = i + 1;
    }
    assert(p@.take(p@.len() as int) =~= p@);
    r
}

/// Two trees have the same shape: the same relative path and kind at every
/// position, and the same number of children in the same order.
pub open spec fn same_shape(l: FileNode, r: FileNode) -> bool
    decreases l,
{
    &&& path_view(l.path@) == path_view(r.path@)
    &&& l.is_dir == r.is_dir
    &&& l.children@.len() == r.children@.len()
    &&& forall|i: int|
        #![trigger l.children@[i]]
        0 <= i < l.children@.len() ==> same_shape(l.children@[i], r.children@[i])
}

impl FileNode {
    /// A node without children or metadata, collapsed.
    pub fn new(name: String, path: Vec<String>, is_dir: bool, status: FileStatus) -> (r: Self)
        ensures
            r.name == name,
            r.path == path,
            r.is_dir == is_dir,
            r.status == status,
            r.children@.len() == 0,
            !r.expanded,
            r.size is None,
            r.modified is None,
    {
        FileNode {
            name,
            path,
            is_dir,
            status,
            children: Vec::new(),
            expanded: false,
            size: None,
            modified: None,
        }
    }

    /// Flips the expanded flag of a directory; a file is left as it is.
    pub fn toggle_expanded(&mut self)
        ensures
            final(self).expanded == (if old(self).is_dir {
                !old(self).expanded
            } else {
                old(self).expanded
            }),
            final(self).name == old(self).name,
            final(self).path == old(self).path,
            final(self).is_dir == old(self).is_dir,
            final(self).status == old(self).status,
            final(self).children == old(self).children,
            final(self).size == old(self).size,
            final(self).modified == old(self).modified,
    {
        if self.is_dir {
            self.expanded = !self.expanded;
        }
    }
}

} // verus!
