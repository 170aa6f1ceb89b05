use vstd::prelude::*;
use vstd::utf8::encode_utf8;
use crate::node::{FileNode, aligned, path_view, same_shape};

verus! {

/// The lowercase form of a string, character by character as Unicode defines it.
pub uninterp spec fn lower_of(s: Seq<char>) -> Seq<char>;

/// What a node is ordered by: whether it is a directory, its label in
/// lowercase, and its label as it is.
pub type KeyView = (bool, Seq<char>, Seq<char>);

/// The last component of a node's path (empty for a root).
pub open spec fn last_component(n: FileNode) -> Seq<char> {
    if n.path@.len() > 0 {
        n.path@.last()@
    } else {
        Seq::empty()
    }
}

/// The name a node is ordered by: its own, or for a placeholder the last
/// component of its path.
pub open spec fn label(n: FileNode) -> Seq<char> {
    if n.name@.len() > 0 {
        n.name@
    } else {
        last_component(n)
    }
}

pub open spec fn key_of(n: FileNode) -> KeyView {
    (n.is_dir, lower_of(label(n)), label(n))
}

pub open spec fn keys_of(nodes: Seq<FileNode>) -> Seq<KeyView> {
    nodes.map_values(|n: FileNode| key_of(n))
}

/// Lexicographic order of byte strings, a proper prefix first.
pub open spec fn bytes_less(a: Seq<u8>, b: Seq<u8>) -> bool
    decreases a.len(),
{
    if a.len() == 0 {
        b.len() > 0
    } else if b.len() == 0 {
        false
    } else if a[0] != b[0] {
        a[0] < b[0]
    } else {
        bytes_less(a.drop_first(), b.drop_first())
    }
}

/// Whether a node with key `a` is listed before one with key `b`:
/// directories first, then by lowercase label in the byte order of its UTF-8
/// form, then by the label itself.
pub open spec fn key_before(a: KeyView, b: KeyView) -> bool {
    if a.0 != b.0 {
        a.0
    } else if a.1 != b.1 {
        bytes_less(encode_utf8(a.1), encode_utf8(b.1))
    } else {
        bytes_less(encode_utf8(a.2), encode_utf8(b.2))
    }
}

/// Position of the first least key among the first `k` of `ks`.
pub open spec fn least_pos(ks: Seq<KeyView>, k: int) -> int
    decreases k,
{
    if k <= 1 {
        0
    } else {
        let m = least_pos(ks, k - 1);
        if key_before(ks[k - 1], ks[m]) {
            k - 1
        } else {
            m
        }
    }
}

/// The keys at the given indexes, in the order of the indexes.
pub open spec fn keys_at(keys: Seq<KeyView>, idx: Seq<int>) -> Seq<KeyView> {
    idx.map_values(|j: int| keys[j])
}

/// The order in which a stable selection sort takes the indexes `idx` of
/// `keys`: each time the first index whose key is least among those left.
pub open spec fn selection_perm(keys: Seq<KeyView>, idx: Seq<int>) -> Seq<int>
    decreases idx.len(),
{
    if idx.len() == 0 {
        Seq::empty()
    } else {
        let m = least_pos(keys_at(keys, idx), idx.len() as int);
        if 0 <= m < idx.len() {
            seq![idx[m]] + selection_perm(keys, idx.remove(m))
        } else {
            Seq::empty()
        }
    }
}

/// The indexes `0..n`.
pub open spec fn iota(n: nat) -> Seq<int> {
    Seq::new(n, |i: int| i)
}

/// The order in which a node's children are listed after sorting.
pub open spec fn child_order(n: FileNode) -> Seq<int> {
    selection_perm(keys_of(n.children@), iota(n.children@.len()))
}

/// `after` is `before` with the children of every node put in sorted order;
/// nothing else differs.
pub open spec fn sorted_tree(before: FileNode, after: FileNode) -> bool
    decreases after,
{
    let p = child_order(before);
    &&& after.name == before.name
    &&& after.path == before.path
    &&& after.is_dir == before.is_dir
    &&& after.status == before.status
    &&& after.expanded == before.expanded
    &&& after.size == before.size
    &&& after.modified == before.modified
    &&& after.children@.len() == before.children@.len()
    &&& forall|i: int|
        #![trigger after.children@[i]]
        0 <= i < before.children@.len() ==> sorted_tree(before.children@[p[i]], after.children@[i])
}

/// Every node below `n` has a non-empty path and is labelled by the last
/// component of its path, or is a placeholder without a name.
pub open spec fn labels_ok(n: FileNode) -> bool
    decreases n,
{
    forall|i: int|
        #![trigger n.children@[i]]
        0 <= i < n.children@.len() ==> {
            &&& n.children@[i].path@.len() > 0
            &&& (n.children@[i].name@.len() == 0 || n.children@[i].name@ == last_component(
                n.children@[i],
            ))
            &&& labels_ok(n.children@[i])
        }
}

/// Relies on str::to_lowercase: the lowercase form depends on the characters alone.
#[verifier::external_body]
fn lowercase(s: &str) -> (r: String)
    ensures
        r@ == lower_of(s@),
{
    s.to_lowercase()
}

struct SortKey {
    is_dir: bool,
    lowered: String,
    label: String,
}

spec fn key_view(k: SortKey) -> KeyView {
    (k.is_dir, k.lowered@, k.label@)
}

spec fn key_views(ks: Seq<SortKey>) -> Seq<KeyView> {
    ks.map_values(|k: SortKey| key_view(k))
}

fn sort_key(n: &FileNode) -> (k: SortKey)
    ensures
        key_view(k) == key_of(*n),
{
    let label = if !n.name.as_str().is_empty() {
        n.name.clone()
    } else if n.path.len() > 0 {
        n.path[n.path.len() - 1].clone()
    } else {
        String::new()
    };
    let lowered = lowercase(label.as_str());
    SortKey { is_dir: n.is_dir, lowered, label }
}

fn bytes_before(a: &[u8], b: &[u8]) -> (r: bool)
    ensures
        r == bytes_less(a@, b@),
{
    let mut i: usize = 0;
    assert(a@.skip(0) =~= a@ && b@.skip(0) =~= b@);
    while i < a.len() && i < b.len()
        invariant
            i <= a@.len(),
            i <= b@.len(),
            bytes_less(a@, b@) == bytes_less(a@.skip(i as int), b@.skip(i as int)),
        decreases a@.len() - i,
    {
        if a[i] != b[i] {
            return a[i] < b[i];
        }
        assert(a@.skip(i as int).drop_first() =~= a@.skip(i + 1));
        assert(b@.skip(i as int).drop_first() =~= b@.skip(i + 1));
        i = i + 1;
    }
    i == a.len() && i < b.len()
}

fn key_before_exec(a: &SortKey, b: &SortKey) -> (r: bool)
    ensures
        r == key_before(key_view(*a), key_view(*b)),
{
    if a.is_dir != b.is_dir {
        a.is_dir
    } else if a.lowered != b.lowered {
        bytes_before(a.lowered.as_str().as_bytes(), b.lowered.as_str().as_bytes())
    } else {
        bytes_before(a.label.as_str().as_bytes(), b.label.as_str().as_bytes())
    }
}

fn least_key(keys: &Vec<SortKey>) -> (m: usize)
    requires
        keys@.len() > 0,
    ensures
        m as int == least_pos(key_views(keys@), keys@.len() as int),
        m < keys@.len(),
{
    let mut m: usize = 0;
    let mut k: usize = 1;
    while k < keys.len()
        invariant
            1 <= k <= keys@.len(),
            m < k,
            m as int == least_pos(key_views(keys@), k as int),
        decreases keys@.len() - k,
    {
        if key_before_exec(&keys[k], &keys[m]) {
            m = k;
        }
        k = k + 1;
    }
    m
}

proof fn lemma_least_pos_bounds(ks: Seq<KeyView>, k: int)
    requires
        1 <= k,
    ensures
        0 <= least_pos(ks, k) < k,
    decreases k,
{
    if k > 1 {
        lemma_least_pos_bounds(ks, k - 1);
    }
}

/// The selection order takes each of `idx` once: it has the same length and
/// holds only members of `idx`.
proof fn lemma_selection_perm_members(keys: Seq<KeyView>, idx: Seq<int>)
    ensures
        selection_perm(keys, idx).len() == idx.len(),
        forall|i: int|
            0 <= i < idx.len() ==> #[trigger] idx.contains(selection_perm(keys, idx)[i]),
    decreases idx.len(),
{
    if idx.len() > 0 {
        let m = least_pos(keys_at(keys, idx), idx.len() as int);
        lemma_least_pos_bounds(keys_at(keys, idx), idx.len() as int);
        let rest = idx.remove(m);
        lemma_selection_perm_members(keys, rest);
        let p = selection_perm(keys, idx);
        assert(p == seq![idx[m]] + selection_perm(keys, rest));
        assert forall|i: int| 0 <= i < idx.len() implies #[trigger] idx.contains(p[i]) by {
            if i == 0 {
                assert(idx[m] == p[i]);
            } else {
                assert(p[i] == selection_perm(keys, rest)[i - 1]);
                assert(rest.contains(p[i]));
                let j = choose|j: int| 0 <= j < rest.len() && rest[j] == p[i];
                if j < m {
                    assert(idx[j] == p[i]);
                } else {
                    assert(idx[j + 1] == p[i]);
                }
            }
        }
    }
}

/// The selection order takes no index twice when `idx` holds none twice.
proof fn lemma_selection_perm_distinct(keys: Seq<KeyView>, idx: Seq<int>)
    requires
        idx.no_duplicates(),
    ensures
        selection_perm(keys, idx).no_duplicates(),
    decreases idx.len(),
{
    if idx.len() > 0 {
        let m = least_pos(keys_at(keys, idx), idx.len() as int);
        lemma_least_pos_bounds(keys_at(keys, idx), idx.len() as int);
        let rest = idx.remove(m);
        assert(rest.no_duplicates()) by {
            assert forall|a: int, b: int| 0 <= a < b < rest.len() implies rest[a] != rest[b] by {
                let a2 = if a < m { a } else { a + 1 };
                let b2 = if b < m { b } else { b + 1 };
                assert(rest[a] == idx[a2] && rest[b] == idx[b2]);
            }
        }
        lemma_selection_perm_distinct(keys, rest);
        lemma_selection_perm_members(keys, rest);
        let p = selection_perm(keys, idx);
        let tail = selection_perm(keys, rest);
        assert(p == seq![idx[m]] + tail);
        assert forall|a: int, b: int| 0 <= a < b < p.len() implies p[a] != p[b] by {
            if a == 0 {
                assert(p[b] == tail[b - 1]);
                assert(rest.contains(tail[b - 1]));
                let k = choose|k: int| 0 <= k < rest.len() && rest[k] == tail[b - 1];
                if k < m {
                    assert(idx[k] == p[b]);
                } else {
                    assert(idx[k + 1] == p[b]);
                }
            } else {
                assert(p[a] == tail[a - 1] && p[b] == tail[b - 1]);
            }
        }
    }
}

/// The selection order takes every index of `idx`.
proof fn lemma_selection_perm_covers(keys: Seq<KeyView>, idx: Seq<int>, x: int)
    requires
        idx.contains(x),
    ensures
        selection_perm(keys, idx).contains(x),
    decreases idx.len(),
{
    let m = least_pos(keys_at(keys, idx), idx.len() as int);
    lemma_least_pos_bounds(keys_at(keys, idx), idx.len() as int);
    let rest = idx.remove(m);
    let p = selection_perm(keys, idx);
    assert(p == seq![idx[m]] + selection_perm(keys, rest));
    if idx[m] == x {
        assert(p[0] == x);
    } else {
        let k = choose|k: int| 0 <= k < idx.len() && idx[k] == x;
        if k < m {
            assert(rest[k] == x);
        } else {
            assert(rest[k - 1] == x);
        }
        lemma_selection_perm_covers(keys, rest, x);
        let t = choose|t: int| 0 <= t < selection_perm(keys, rest).len() && selection_perm(keys, rest)[t] == x;
        assert(p[t + 1] == x);
    }
}

/// Every child position appears in a node's sorted order.
pub proof fn lemma_child_order_covers(n: FileNode, j: int)
    requires
        0 <= j < n.children@.len(),
    ensures
        exists|i: int| 0 <= i < n.children@.len() && #[trigger] child_order(n)[i] == j,
{
    let len = n.children@.len();
    assert(iota(len)[j] == j);
    lemma_selection_perm_covers(keys_of(n.children@), iota(len), j);
    lemma_selection_perm_members(keys_of(n.children@), iota(len));
    let i = choose|i: int| 0 <= i < child_order(n).len() && child_order(n)[i] == j;
}

/// A node's children are listed in a permutation of their positions.
pub proof fn lemma_child_order_distinct(n: FileNode)
    ensures
        child_order(n).no_duplicates(),
{
    let len = n.children@.len();
    assert(iota(len).no_duplicates());
    lemma_selection_perm_distinct(keys_of(n.children@), iota(len));
}

/// Every position of a node's sorted children comes from one of its children.
pub proof fn lemma_child_order_in_range(n: FileNode)
    ensures
        child_order(n).len() == n.children@.len(),
        forall|i: int|
            0 <= i < n.children@.len() ==> 0 <= #[trigger] child_order(n)[i] < n.children@.len(),
{
    let len = n.children@.len();
    lemma_selection_perm_members(keys_of(n.children@), iota(len));
    assert forall|i: int| 0 <= i < len implies 0 <= #[trigger] child_order(n)[i] < len by {
        assert(iota(len).contains(child_order(n)[i]));
    }
}

/// Orders the children of every node below and at `node`: directories
/// first, then by lowercase name, then by name. Breaking ties of lowercase
/// name by the name gives the order a stable sort leaves siblings in when
/// they were inserted in the lexicographic order of their paths, whatever
/// order they were in fact inserted in.
pub fn sort_tree_recursive(node: &mut FileNode)
    ensures
        sorted_tree(*old(node), *final(node)),
    decreases *old(node),
{
    let ghost start = *node;
    let n = node.children.len();
    let mut i: usize = 0;
    while i < n
        invariant
            0 <= i <= n,
            n == start.children@.len(),
            start == *old(node),
            node.children@.len() == n,
            node.name == start.name,
            node.path == start.path,
            node.is_dir == start.is_dir,
            node.status == start.status,
            node.expanded == start.expanded,
            node.size == start.size,
            node.modified == start.modified,
            forall|j: int|
                #![trigger node.children@[j]]
                0 <= j < i ==> sorted_tree(start.children@[j], node.children@[j]),
            forall|j: int| i <= j < n ==> #[trigger] node.children@[j] == start.children@[j],
        decreases n - i,
    {
        assert(decreases_to!(start => start.children@[i as int]));
        sort_tree_recursive(&mut node.children[i]);
        i = i + 1;
    }
    let ghost full = keys_of(start.children@);
    let mut keys: Vec<SortKey> = Vec::new();
    let mut i: usize = 0;
    while i < n
        invariant
            0 <= i <= n,
            n == start.children@.len(),
            node.children@.len() == n,
            keys@.len() == i,
            full == keys_of(start.children@),
            node.name == start.name,
            node.path == start.path,
            node.is_dir == start.is_dir,
            node.status == start.status,
            node.expanded == start.expanded,
            node.size == start.size,
            node.modified == start.modified,

            forall|j: int|
                #![trigger node.children@[j]]
                0 <= j < n ==> sorted_tree(start.children@[j], node.children@[j]),
            forall|j: int| 0 <= j < i ==> key_view(#[trigger] keys@[j]) == full[j],
        decreases n - i,
    {
        let k = sort_key(&node.children[i]);
        assert(key_of(node.children@[i as int]) == key_of(start.children@[i as int]));
        keys.push(k);
        i = i + 1;
    }
    let mut rest: Vec<FileNode> = Vec::new();
    std::mem::swap(&mut rest, &mut node.children);
    let mut out: Vec<FileNode> = Vec::new();
    let ghost mut idx: Seq<int> = iota(n as nat);
    let ghost mut taken: Seq<int> = Seq::empty();
    assert(keys_at(full, idx) =~= key_views(keys@));
    while rest.len() > 0
        invariant
            n == start.children@.len(),
            full == keys_of(start.children@),
            rest@.len() == idx.len(),
            keys@.len() == idx.len(),
            node.name == start.name,
            node.path == start.path,
            node.is_dir == start.is_dir,
            node.status == start.status,
            node.expanded == start.expanded,
            node.size == start.size,
            node.modified == start.modified,

            out@.len() == taken.len(),
            out@.len() + rest@.len() == n,
            keys_at(full, idx) == key_views(keys@),
            taken + selection_perm(full, idx) == selection_perm(full, iota(n as nat)),
            forall|j: int| 0 <= j < idx.len() ==> 0 <= #[trigger] idx[j] < n,
            forall|j: int|
                #![trigger rest@[j]]
                0 <= j < idx.len() ==> sorted_tree(start.children@[idx[j]], rest@[j]),
            forall|j: int| 0 <= j < taken.len() ==> 0 <= #[trigger] taken[j] < n,
            forall|j: int|
                #![trigger out@[j]]
                0 <= j < taken.len() ==> sorted_tree(start.children@[taken[j]], out@[j]),
        decreases rest@.len(),
    {
        let m = least_key(&keys);
        proof {
            assert(selection_perm(full, idx) == seq![idx[m as int]] + selection_perm(full, idx.remove(m as int)));
            assert(taken.push(idx[m as int]) + selection_perm(full, idx.remove(m as int)) =~= taken + selection_perm(full, idx));
        }
        let ghost old_rest = rest@;
        let ghost old_keys = keys@;
        let ghost old_out = out@;
        let ghost old_idx = idx;
        let ghost old_taken = taken;
        let c = rest.remove(m);
        keys.remove(m);
        out.push(c);
        proof {
            taken = taken.push(idx[m as int]);
            idx = idx.remove(m as int);
            assert forall|j: int| 0 <= j < idx.len() implies #[trigger] keys_at(full, idx)[j] == key_views(keys@)[j] by {
                if j < m {
                    assert(keys_at(full, old_idx)[j] == key_views(old_keys)[j]);
                } else {
                    assert(keys_at(full, old_idx)[j + 1] == key_views(old_keys)[j + 1]);
                }
            }
            assert(keys_at(full, idx) =~= key_views(keys@));
            assert(out@[old_out.len() as int] == old_rest[m as int]);
            assert(sorted_tree(start.children@[old_idx[m as int]], old_rest[m as int]));
            assert forall|j: int| #![trigger rest@[j]] 0 <= j < idx.len() implies sorted_tree(start.children@[idx[j]], rest@[j]) by {
                if j < m {
                    assert(old_rest[j] == rest@[j]);
                    assert(sorted_tree(start.children@[old_idx[j]], old_rest[j]));
                } else {
                    assert(old_rest[j + 1] == rest@[j]);
                    assert(sorted_tree(start.children@[old_idx[j + 1]], old_rest[j + 1]));
                }
            }
            assert(0 <= old_idx[m as int] < n);
            assert forall|j: int| #![trigger out@[j]] 0 <= j < taken.len() implies sorted_tree(start.children@[taken[j]], out@[j]) by {
                if j < old_out.len() {
                    assert(old_out[j] == out@[j]);
                    assert(old_taken[j] == taken[j]);
                    assert(sorted_tree(start.children@[old_taken[j]], old_out[j]));
                } else {
                    assert(taken[j] == old_idx[m as int]);
                }
            }
            assert forall|j: int| 0 <= j < taken.len() implies 0 <= #[trigger] taken[j] < n by {
                if j < old_out.len() {
                    assert(old_taken[j] == taken[j]);
                }
            }
        }
    }
    node.children = out;
    proof {
        assert(selection_perm(full, idx) == Seq::<int>::empty());
        assert(taken =~= child_order(start));
        assert(node.children@ == out@);
        assert forall|i: int| #![trigger node.children@[i]] 0 <= i < n implies sorted_tree(start.children@[child_order(start)[i]], node.children@[i]) by {
            assert(out@[i] == node.children@[i]);
        }
        assert(sorted_tree(start, *node));
    }
}

/// Sorting keeps two mirrored trees mirrored: aligned nodes carry the same
/// keys, so both sides' children are put in the same order.
pub proof fn lemma_sort_keeps_alignment(l: FileNode, r: FileNode, l2: FileNode, r2: FileNode)
    requires
        aligned(l, r),
        labels_ok(l),
        labels_ok(r),
        sorted_tree(l, l2),
        sorted_tree(r, r2),
    ensures
        aligned(l2, r2),
    decreases l,
{
    let len = l.children@.len();
    assert(keys_of(l.children@) =~= keys_of(r.children@)) by {
        assert forall|i: int| 0 <= i < len implies #[trigger] key_of(l.children@[i]) == key_of(
            r.children@[i],
        ) by {
            assert(aligned(l.children@[i], r.children@[i]));
            assert(path_view(l.children@[i].path@) == path_view(r.children@[i].path@));
            let lp = l.children@[i].path@;
            let rp = r.children@[i].path@;
            assert(path_view(lp).len() == lp.len());
            assert(path_view(lp)[lp.len() - 1] == lp.last()@);
            assert(path_view(rp)[rp.len() - 1] == rp.last()@);
        }
    }
    let p = child_order(l);
    assert(child_order(r) == p);
    lemma_child_order_in_range(l);
    assert forall|i: int| #![trigger l2.children@[i]] 0 <= i < len implies aligned(
        l2.children@[i],
        r2.children@[i],
    ) by {
        let j = p[i];
        assert(sorted_tree(l.children@[j], l2.children@[i]));
        assert(sorted_tree(r.children@[j], r2.children@[i]));
        assert(aligned(l.children@[j], r.children@[j]));
        assert(labels_ok(l.children@[j]));
        lemma_sort_keeps_alignment(l.children@[j], r.children@[j], l2.children@[i], r2.children@[i]);
    }
}

/// Sorting each of two trees of the same shape, whose nodes are named by
/// their paths or blank, leaves them of the same shape, row for row:
/// nodes at the same place carry the same keys, so both sides' children
/// are put in the same order.
pub proof fn lemma_sort_keeps_shape(l: FileNode, r: FileNode, l2: FileNode, r2: FileNode)
    requires
        same_shape(l, r),
        labels_ok(l),
        labels_ok(r),
        sorted_tree(l, l2),
        sorted_tree(r, r2),
    ensures
        same_shape(l2, r2),
    decreases l,
{
    let len = l.children@.len();
    assert(keys_of(l.children@) =~= keys_of(r.children@)) by {
        assert forall|i: int| 0 <= i < len implies #[trigger] key_of(l.children@[i]) == key_of(
            r.children@[i],
        ) by {
            assert(same_shape(l.children@[i], r.children@[i]));
            assert(path_view(l.children@[i].path@) == path_view(r.children@[i].path@));
            let lp = l.children@[i].path@;
            let rp = r.children@[i].path@;
            assert(path_view(lp).len() == lp.len());
            assert(path_view(lp)[lp.len() - 1] == lp.last()@);
            assert(path_view(rp)[rp.len() - 1] == rp.last()@);
        }
    }
    let p = child_order(l);
    assert(child_order(r) == p);
    lemma_child_order_in_range(l);
    assert forall|i: int| #![trigger l2.children@[i]] 0 <= i < len implies same_shape(
        l2.children@[i],
        r2.children@[i],
    ) by {
        let j = p[i];
        assert(sorted_tree(l.children@[j], l2.children@[i]));
        assert(sorted_tree(r.children@[j], r2.children@[i]));
        assert(same_shape(l.children@[j], r.children@[j]));
        assert(labels_ok(l.children@[j]));
        lemma_sort_keeps_shape(l.children@[j], r.children@[j], l2.children@[i], r2.children@[i]);
    }
}

proof fn lemma_bytes_less_irreflexive(a: Seq<u8>)
    ensures
        !bytes_less(a, a),
    decreases a.len(),
{
    if a.len() > 0 {
        lemma_bytes_less_irreflexive(a.drop_first());
    }
}

proof fn lemma_bytes_less_transitive(a: Seq<u8>, b: Seq<u8>, c: Seq<u8>)
    requires
        bytes_less(a, b),
        bytes_less(b, c),
    ensures
        bytes_less(a, c),
    decreases a.len(),
{
    if a.len() > 0 && b.len() > 0 && c.len() > 0 && a[0] == b[0] && b[0] == c[0] {
        lemma_bytes_less_transitive(a.drop_first(), b.drop_first(), c.drop_first());
    }
}

proof fn lemma_key_before_irreflexive(a: KeyView)
    ensures
        !key_before(a, a),
{
    lemma_bytes_less_irreflexive(encode_utf8(a.2));
}

proof fn lemma_key_before_transitive(a: KeyView, b: KeyView, c: KeyView)
    requires
        key_before(a, b),
        key_before(b, c),
    ensures
        key_before(a, c),
{
    if a.0 == b.0 && b.0 == c.0 {
        if a.1 != b.1 && b.1 != c.1 {
            lemma_bytes_less_transitive(encode_utf8(a.1), encode_utf8(b.1), encode_utf8(c.1));
            if a.1 == c.1 {
                lemma_bytes_less_irreflexive(encode_utf8(a.1));
            }
        } else if a.1 == b.1 && b.1 == c.1 {
            lemma_bytes_less_transitive(encode_utf8(a.2), encode_utf8(b.2), encode_utf8(c.2));
        }
    }
}

/// No key among the first `k` comes strictly before the one `least_pos` picks.
proof fn lemma_least_pos_least(ks: Seq<KeyView>, k: int)
    requires
        1 <= k <= ks.len(),
    ensures
        forall|j: int| 0 <= j < k ==> !key_before(#[trigger] ks[j], ks[least_pos(ks, k)]),
    decreases k,
{
    lemma_least_pos_bounds(ks, k);
    if k > 1 {
        lemma_least_pos_least(ks, k - 1);
        lemma_least_pos_bounds(ks, k - 1);
        let m = least_pos(ks, k - 1);
        let n = least_pos(ks, k);
        assert forall|j: int| 0 <= j < k implies !key_before(#[trigger] ks[j], ks[n]) by {
            if n == k - 1 {
                if j == k - 1 {
                    lemma_key_before_irreflexive(ks[j]);
                } else if key_before(ks[j], ks[k - 1]) {
                    lemma_key_before_transitive(ks[j], ks[k - 1], ks[m]);
                }
            }
        }
    } else {
        lemma_key_before_irreflexive(ks[0]);
    }
}

/// The selection order never lists a key after one that comes strictly
/// after it.
proof fn lemma_selection_sorted(keys: Seq<KeyView>, idx: Seq<int>)
    requires
        forall|t: int| 0 <= t < idx.len() ==> 0 <= #[trigger] idx[t] < keys.len(),
    ensures
        forall|i: int|
            0 <= i < selection_perm(keys, idx).len() - 1 ==> !key_before(
                keys[selection_perm(keys, idx)[i + 1]],
                keys[#[trigger] selection_perm(keys, idx)[i]],
            ),
    decreases idx.len(),
{
    if idx.len() > 0 {
        let ka = keys_at(keys, idx);
        let m = least_pos(ka, idx.len() as int);
        lemma_least_pos_bounds(ka, idx.len() as int);
        lemma_least_pos_least(ka, idx.len() as int);
        let rest = idx.remove(m);
        assert forall|t: int| 0 <= t < rest.len() implies 0 <= #[trigger] rest[t] < keys.len() by {
            if t < m {
                assert(rest[t] == idx[t]);
            } else {
                assert(rest[t] == idx[t + 1]);
            }
        }
        lemma_selection_sorted(keys, rest);
        lemma_selection_perm_members(keys, rest);
        let p = selection_perm(keys, idx);
        let tail = selection_perm(keys, rest);
        assert(p == seq![idx[m]] + tail);
        assert forall|i: int| 0 <= i < p.len() - 1 implies !key_before(keys[p[i + 1]], keys[#[trigger] p[i]]) by {
            if i == 0 {
                assert(p[1] == tail[0]);
                assert(rest.contains(tail[0]));
                let t = choose|t: int| 0 <= t < rest.len() && rest[t] == tail[0];
                let j = if t < m { t } else { t + 1 };
                assert(idx[j] == tail[0]);
                assert(ka[j] == keys[idx[j]]);
                assert(ka[m] == keys[idx[m]]);
            } else {
                assert(p[i] == tail[i - 1] && p[i + 1] == tail[i]);
            }
        }
    }
}

/// Sorted children come out directories first, then by lowercase name in
/// byte order, then by name: no child is followed by one whose key comes
/// strictly before its own.
pub proof fn lemma_sorted_children_in_order(before: FileNode, after: FileNode)
    requires
        sorted_tree(before, after),
    ensures
        forall|i: int|
            0 <= i < after.children@.len() - 1 ==> !key_before(
                key_of(after.children@[i + 1]),
                key_of(#[trigger] after.children@[i]),
            ),
{
    let n = before.children@.len();
    let p = child_order(before);
    let keys = keys_of(before.children@);
    lemma_child_order_in_range(before);
    assert forall|t: int| 0 <= t < iota(n).len() implies 0 <= #[trigger] iota(n)[t] < keys.len() by {
    }
    lemma_selection_sorted(keys, iota(n));
    assert forall|i: int| 0 <= i < after.children@.len() - 1 implies !key_before(
        key_of(after.children@[i + 1]),
        key_of(#[trigger] after.children@[i]),
    ) by {
        assert(sorted_tree(before.children@[p[i]], after.children@[i]));
        assert(sorted_tree(before.children@[p[i + 1]], after.children@[i + 1]));
        assert(key_of(after.children@[i]) == keys[p[i]]);
        assert(key_of(after.children@[i + 1]) == keys[p[i + 1]]);
    }
}

} // verus!
