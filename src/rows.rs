use vstd::prelude::*;
use vstd::string::*;
use crate::node::{FileNode, FileStatus, copy_path};

verus! {

/// Which rows a panel shows.
#[derive(Clone, Copy, Debug, PartialEq, Eq, Structural)]
pub enum FilterMode {
    /// Every row.
    All,
    /// Rows that differ or stand on one side only.
    Different,
    /// Rows that differ, with both sides present.
    DifferentNotOrphans,
}

/// One visible line of a panel, derived from one node.
#[derive(Debug)]
pub struct Row {
    /// The node's name, indented by depth and preceded by an icon.
    pub display: String,
    pub status: FileStatus,
    pub path: Vec<String>,
    pub is_dir: bool,
    pub size: Option<u64>,
    pub modified: Option<u64>,
}

/// Whether a node with `status` passes `filter`.
pub open spec fn passes(filter: FilterMode, status: FileStatus) -> bool {
    match filter {
        FilterMode::All => true,
        FilterMode::Different => status != FileStatus::Same,
        FilterMode::DifferentNotOrphans => status == FileStatus::Different,
    }
}

/// The depth of the children of a node at `depth`.
pub open spec fn deeper(depth: nat) -> nat {
    if depth < usize::MAX {
        depth + 1
    } else {
        depth
    }
}

/// The visible nodes of the tree at `n`, in order, each with its depth: a
/// node at depth 0 (a root) is not listed itself; a node is listed when it
/// passes the filter; the children of an expanded directory follow it.
pub open spec fn rows(n: FileNode, depth: nat, filter: FilterMode) -> Seq<(FileNode, nat)>
    decreases n,
{
    let own = if depth > 0 && passes(filter, n.status) {
        seq![(n, depth)]
    } else {
        Seq::empty()
    };
    if n.is_dir && n.expanded {
        own + child_rows(n, n.children@.len() as int, deeper(depth), filter)
    } else {
        own
    }
}

/// The visible nodes of the first `k` child subtrees of `n`.
pub open spec fn child_rows(n: FileNode, k: int, depth: nat, filter: FilterMode) -> Seq<(FileNode, nat)>
    decreases n, k,
{
    if k <= 0 || k > n.children@.len() {
        Seq::empty()
    } else {
        child_rows(n, k - 1, depth, filter) + rows(n.children@[k - 1], depth, filter)
    }
}

/// Two spaces for each level below the first.
pub open spec fn indent(levels: nat) -> Seq<char>
    decreases levels,
{
    if levels == 0 {
        Seq::empty()
    } else {
        indent((levels - 1) as nat) + seq![' ', ' ']
    }
}

/// The icon of a node: none for a placeholder.
pub open spec fn icon(n: FileNode) -> Seq<char> {
    if n.name@.len() == 0 {
        Seq::empty()
    } else if n.is_dir {
        if n.expanded {
            "\u{1F4C2}"@
        } else {
            "\u{1F4C1}"@
        }
    } else {
        "\u{1F4C4}"@
    }
}

/// The text of the row of `n` at `depth`.
pub open spec fn display_of(n: FileNode, depth: nat) -> Seq<char> {
    let pad = if depth > 0 {
        indent((depth - 1) as nat)
    } else {
        Seq::empty()
    };
    if n.name@.len() == 0 {
        pad
    } else {
        pad + icon(n) + seq![' '] + n.name@
    }
}

/// A row shows node `n` at `depth`.
pub open spec fn row_shows(r: Row, n: FileNode, depth: nat) -> bool {
    &&& r.display@ == display_of(n, depth)
    &&& r.status == n.status
    &&& r.path@ == n.path@
    &&& r.is_dir == n.is_dir
    &&& r.size == n.size
    &&& r.modified == n.modified
}

/// The rows `rs` show the visible nodes `vs`, one for one.
pub open spec fn rows_show(rs: Seq<Row>, vs: Seq<(FileNode, nat)>) -> bool {
    &&& rs.len() == vs.len()
    &&& forall|i: int| 0 <= i < rs.len() ==> row_shows(#[trigger] rs[i], vs[i].0, vs[i].1)
}

fn display_text(n: &FileNode, depth: usize) -> (r: String)
    ensures
        r@ == display_of(*n, depth as nat),
{
    let mut s = String::new();
    let levels: usize = if depth > 0 { depth - 1 } else { 0 };
    let mut i: usize = 0;
    proof {
        reveal_strlit("  ");
    }
    while i < levels
        invariant
            i <= levels,
            s@ == indent(i as nat),
            "  "@ == seq![' ', ' '],
        decreases levels - i,
    {
        s.append("  ");
        i = i + 1;
    }
    if n.name.as_str().is_empty() {
        return s;
    }
    if n.is_dir {
        if n.expanded {
            s.append("\u{1F4C2}");
        } else {
            s.append("\u{1F4C1}");
        }
    } else {
        s.append("\u{1F4C4}");
    }
    proof {
        reveal_strlit(" ");
    }
    let ghost before = s@;
    s.append(" ");
    assert(s@ == before + seq![' ']);
    s.append(n.name.as_str());
    assert(s@ == display_of(*n, depth as nat));
    s
}

fn row_of(n: &FileNode, depth: usize) -> (r: Row)
    ensures
        row_shows(r, *n, depth as nat),
{
    Row {
        display: display_text(n, depth),
        status: n.status,
        path: copy_path(&n.path),
        is_dir: n.is_dir,
        size: n.size,
        modified: n.modified,
    }
}

/// The rows of the tree at `node`, shown from `depth` on: exactly its
/// visible nodes, in order.
pub fn flatten_tree_with_filter(node: &FileNode, depth: usize, filter: FilterMode) -> (r: Vec<Row>)
    ensures
        rows_show(r@, rows(*node, depth as nat, filter)),
    decreases *node,
{
    let mut items: Vec<Row> = Vec::new();
    if depth > 0 && passes_exec(filter, node.status) {
        items.push(row_of(node, depth));
    }
    let ghost own = items@;
    if node.is_dir && node.expanded {
        let next: usize = if depth < usize::MAX { depth + 1 } else { depth };
        let mut i: usize = 0;
        while i < node.children.len()
            invariant
                i <= node.children@.len(),
                next as nat == deeper(depth as nat),
                rows_show(items@, (if depth > 0 && passes(filter, node.status) {
                    seq![(*node, depth as nat)]
                } else {
                    Seq::empty()
                }) + child_rows(*node, i as int, next as nat, filter)),
            decreases node.children@.len() - i,
        {
            assert(decreases_to!(*node => node.children@[i as int]));
            let mut sub = flatten_tree_with_filter(&node.children[i], next, filter);
            let ghost before = items@;
            let ghost subv = sub@;
            items.append(&mut sub);
            proof {
                let pre = (if depth > 0 && passes(filter, node.status) {
                    seq![(*node, depth as nat)]
                } else {
                    Seq::empty()
                });
                assert(child_rows(*node, i + 1, next as nat, filter) == child_rows(*node, i as int, next as nat, filter)
                    + rows(node.children@[i as int], next as nat, filter));
                assert(pre + child_rows(*node, i + 1, next as nat, filter) =~= (pre + child_rows(*node, i as int, next as nat, filter))
                    + rows(node.children@[i as int], next as nat, filter));
                let vs = pre + child_rows(*node, i + 1, next as nat, filter);
                assert forall|k: int| 0 <= k < items@.len() implies row_shows(#[trigger] items@[k], vs[k].0, vs[k].1) by {
                    if k < before.len() {
                        assert(items@[k] == before[k]);
                    } else {
                        assert(items@[k] == subv[k - before.len()]);
                    }
                }
            }
            i = i + 1;
        }
    }
    items
}

/// Whether a node with `status` passes `filter`.
pub fn passes_exec(filter: FilterMode, status: FileStatus) -> (r: bool)
    ensures
        r == passes(filter, status),
{
    match filter {
        FilterMode::All => true,
        FilterMode::Different => status != FileStatus::Same,
        FilterMode::DifferentNotOrphans => status == FileStatus::Different,
    }
}

} // verus!
