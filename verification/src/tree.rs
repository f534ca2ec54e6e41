//! What it means for the pages of a store to hold a B-tree.
//!
//! The tree is described from outside by a `Shape`: the set of pages that
//! are nodes of the tree, the level of each (0 for a leaf), and for each the
//! interval of keys that belong below it. The pages hold a tree when every
//! node agrees with the shape and with its neighbours: its parent, its
//! children and, for a leaf, the leaf to its right.

use crate::node::{
    child_at, header, internal_key, leaf_key, leaf_value, INTERNAL_NODE_SLOTS, INVALID_PAGE_NUM,
    KIND_INTERNAL, KIND_LEAF, LEAF_NODE_MAX_CELLS,
};
use crate::pager::{PAGE_SIZE, TABLE_MAX_PAGES};
use vstd::prelude::*;

verus! {

/// The limits a table is opened with.
#[derive(Clone, Copy, Debug, PartialEq, Eq, Structural)]
pub struct Limits {
    /// Cells that a leaf holds before it is split.
    pub leaf_max_cells: u32,
    /// Cells that an internal node holds before it is split.
    pub internal_max_cells: u32,
    /// Rows after which an insert is refused.
    pub max_rows: u32,
}

impl Limits {
    /// Both kinds of node hold at least one cell and no more than fit in a
    /// page; an internal node leaves room for one more.
    pub open spec fn valid(self) -> bool {
        &&& 1 <= self.leaf_max_cells <= LEAF_NODE_MAX_CELLS
        &&& 1 <= self.internal_max_cells < INTERNAL_NODE_SLOTS
    }
}

/// A bound above every key.
pub open spec fn key_inf() -> int {
    0x1_0000_0000
}

/// The outline of a tree.
pub struct Shape {
    /// The pages that are nodes of the tree.
    pub live: Set<u32>,
    /// The level of each node: 0 for a leaf, one more than its children for an
    /// internal node.
    pub level: Map<u32, nat>,
    /// For each node, a bound below every key under it.
    pub lo: Map<u32, int>,
    /// For each node, the largest key that may stand under it: for a node on
    /// the right edge of the tree `key_inf()`, for any other node the largest
    /// key that does stand under it.
    pub hi: Map<u32, int>,
}

/// The page of the root.
pub open spec fn root_page() -> u32 {
    0
}

/// The cells of a leaf are in strictly ascending order of their keys, lie
/// in the leaf's interval, and reach its upper bound if there is one.
pub open spec fn leaf_ok(p: Seq<u8>, lo: int, hi: int, leaf_max: int) -> bool {
    &&& header(p).kind == KIND_LEAF
    &&& header(p).count <= leaf_max
    &&& forall|i: int, j: int|
        #![trigger leaf_key(p, i), leaf_key(p, j)]
        0 <= i < j < header(p).count ==> leaf_key(p, i) < leaf_key(p, j)
    &&& forall|i: int| 0 <= i < header(p).count ==> lo < #[trigger] leaf_key(p, i) <= hi
    &&& hi < key_inf() ==> header(p).count >= 1 && leaf_key(p, header(p).count - 1) == hi
}

/// The leaf to the right of leaf `n` starts where `n` ends; the last leaf
/// has none.
pub open spec fn chain_ok(ps: Seq<Seq<u8>>, w: Shape, n: u32) -> bool {
    let nx = header(ps[n as int]).link;
    &&& (w.hi[n] == key_inf()) <==> (nx == 0)
    &&& nx != 0 ==> w.live.contains(nx) && w.level[nx] == 0 && w.lo[nx] == w.hi[n]
}

/// Node `n` is a child of the node that it names as its parent.
pub open spec fn linked(ps: Seq<Seq<u8>>, w: Shape, n: u32) -> bool {
    let p = header(ps[n as int]).parent;
    &&& w.live.contains(p)
    &&& w.level[p] == w.level[n] + 1
    &&& exists|i: int|
        0 <= i <= header(ps[p as int]).count && #[trigger] child_at(ps[p as int], i) == n
}

/// The bound below child `i` of an internal node: the node's own for the
/// first child, for every other the key of the cell before.
pub open spec fn child_lo(p: Seq<u8>, lo: int, i: int) -> int {
    if i == 0 {
        lo
    } else {
        internal_key(p, i - 1) as int
    }
}

/// The bound above child `i` of an internal node: the key of its cell, and
/// the node's own for the rightmost child.
pub open spec fn child_hi(p: Seq<u8>, hi: int, i: int) -> int {
    if i == header(p).count {
        hi
    } else {
        internal_key(p, i) as int
    }
}

/// Child `i` of internal node `n` is a node one level down that names `n`
/// as its parent and has the interval that `n` gives it.
pub open spec fn child_ok(ps: Seq<Seq<u8>>, w: Shape, n: u32, i: int) -> bool {
    let p = ps[n as int];
    let c = child_at(p, i);
    &&& w.live.contains(c)
    &&& w.level[c] + 1 == w.level[n]
    &&& header(ps[c as int]).parent == n
    &&& w.lo[c] == child_lo(p, w.lo[n], i)
    &&& w.hi[c] == child_hi(p, w.hi[n], i)
}

/// The keys of an internal node stand in strictly ascending order.
pub open spec fn keys_sorted(p: Seq<u8>) -> bool {
    forall|i: int, j: int|
        #![trigger internal_key(p, i), internal_key(p, j)]
        0 <= i < j < header(p).count ==> internal_key(p, i) < internal_key(p, j)
}

/// An internal node has a rightmost child, and each of its children is in
/// order.
pub open spec fn internal_ok(ps: Seq<Seq<u8>>, w: Shape, n: u32, internal_max: int) -> bool {
    let p = ps[n as int];
    &&& header(p).kind == KIND_INTERNAL
    &&& header(p).count <= internal_max
    &&& header(p).link != INVALID_PAGE_NUM
    &&& keys_sorted(p)
    &&& forall|i: int| 0 <= i <= header(p).count ==> #[trigger] child_ok(ps, w, n, i)
}

/// What holds of every node of the tree by itself: it is a page in use
/// that the store hands out, its interval is not empty, and only the root
/// is marked as the root.
pub open spec fn node_base(ps: Seq<Seq<u8>>, num_pages: u32, w: Shape, n: u32) -> bool {
    &&& n < num_pages
    &&& n < TABLE_MAX_PAGES
    &&& -1 <= w.lo[n] < w.hi[n] <= key_inf()
    &&& w.level[n] <= w.level[root_page()]
    &&& header(ps[n as int]).root <==> n == root_page()
}

/// What holds of a node according to its level.
pub open spec fn node_struct(ps: Seq<Seq<u8>>, lim: Limits, w: Shape, n: u32) -> bool {
    if w.level[n] == 0 {
        &&& leaf_ok(ps[n as int], w.lo[n], w.hi[n], lim.leaf_max_cells as int)
        &&& chain_ok(ps, w, n)
        &&& n != root_page() ==> header(ps[n as int]).count >= 1
    } else {
        internal_ok(ps, w, n, lim.internal_max_cells as int)
    }
}

/// A node is in order by itself and towards its children.
pub open spec fn node_core(ps: Seq<Seq<u8>>, num_pages: u32, lim: Limits, w: Shape, n: u32) -> bool {
    &&& node_base(ps, num_pages, w, n)
    &&& node_struct(ps, lim, w, n)
}

/// Every node up to level `top` is in order by itself and towards its
/// children.
pub open spec fn below_ok(ps: Seq<Seq<u8>>, num_pages: u32, lim: Limits, w: Shape, top: nat) -> bool {
    &&& ps.len() == TABLE_MAX_PAGES
    &&& forall|n: int| 0 <= n < TABLE_MAX_PAGES ==> (#[trigger] ps[n]).len() == PAGE_SIZE
    &&& lim.valid()
    &&& forall|m: u32|
        w.live.contains(m) && w.level[m] <= top ==> #[trigger] node_core(ps, num_pages, lim, w, m)
}

/// The leaf at the end of the chain of rightmost children that starts at
/// node `n`.
pub open spec fn rightmost_leaf(ps: Seq<Seq<u8>>, w: Shape, n: u32) -> u32
    decreases w.level[n],
{
    let r = header(ps[n as int]).link;
    if w.level[n] > 0 && w.level[r] < w.level[n] {
        rightmost_leaf(ps, w, r)
    } else {
        n
    }
}

/// The largest key under node `n`: the last key of the leaf at the end of
/// the chain of rightmost children.
pub open spec fn node_max_key(ps: Seq<Seq<u8>>, w: Shape, n: u32) -> u32 {
    let l = rightmost_leaf(ps, w, n);
    leaf_key(ps[l as int], header(ps[l as int]).count - 1)
}

/// The chain of rightmost children can be followed from node `n` down to a
/// leaf that holds a key.
pub open spec fn walkable(ps: Seq<Seq<u8>>, num_pages: u32, lim: Limits, w: Shape, n: u32) -> bool {
    let p = ps[n as int];
    &&& ps.len() == TABLE_MAX_PAGES
    &&& forall|x: int| 0 <= x < TABLE_MAX_PAGES ==> (#[trigger] ps[x]).len() == PAGE_SIZE
    &&& n < num_pages
    &&& n < TABLE_MAX_PAGES
    &&& w.live.contains(n)
    &&& header(ps[rightmost_leaf(ps, w, n) as int]).count >= 1
    &&& if w.level[n] == 0 {
        header(p).kind == KIND_LEAF && header(p).count <= LEAF_NODE_MAX_CELLS
    } else {
        &&& header(p).kind == KIND_INTERNAL
        &&& w.live.contains(header(p).link)
        &&& w.level[header(p).link] + 1 == w.level[n]
        &&& below_ok(ps, num_pages, lim, w, w.level[header(p).link])
    }
}

/// A node that is in order, with every node below it, can be walked down
/// from, unless it is an empty root.
pub proof fn lemma_walkable(ps: Seq<Seq<u8>>, num_pages: u32, lim: Limits, w: Shape, n: u32)
    requires
        below_ok(ps, num_pages, lim, w, w.level[n]),
        w.live.contains(n),
        n != root_page() || w.level[n] > 0 || header(ps[n as int]).count >= 1,
    ensures
        walkable(ps, num_pages, lim, w, n),
{
    assert(node_core(ps, num_pages, lim, w, n));
    if w.level[n] > 0 {
        let p = ps[n as int];
        assert(child_ok(ps, w, n, header(p).count as int));
        lemma_rightmost_holds_key(ps, num_pages, lim, w, n);
    } else {
        if n != root_page() {
            lemma_rightmost_holds_key(ps, num_pages, lim, w, n);
        }
    }
}

/// The largest key under a node lies in the node's interval, and is the
/// interval's upper bound where there is one.
pub proof fn lemma_max_key(ps: Seq<Seq<u8>>, num_pages: u32, lim: Limits, w: Shape, n: u32)
    requires
        below_ok(ps, num_pages, lim, w, w.level[n]),
        w.live.contains(n),
        header(ps[rightmost_leaf(ps, w, n) as int]).count >= 1,
    ensures
        w.lo[n] < node_max_key(ps, w, n) <= w.hi[n],
        w.hi[n] < key_inf() ==> node_max_key(ps, w, n) == w.hi[n],
        w.live.contains(rightmost_leaf(ps, w, n)),
        w.level[rightmost_leaf(ps, w, n)] == 0,
        w.hi[rightmost_leaf(ps, w, n)] == w.hi[n],
    decreases w.level[n],
{
    assert(node_core(ps, num_pages, lim, w, n));
    let p = ps[n as int];
    if w.level[n] > 0 {
        let cnt = header(p).count as int;
        let r = header(p).link;
        assert(child_ok(ps, w, n, cnt));
        assert(child_at(p, cnt) == r);
        lemma_max_key(ps, num_pages, lim, w, r);
        assert(node_core(ps, num_pages, lim, w, r));
        if cnt > 0 {
            assert(child_ok(ps, w, n, 0));
            assert(node_core(ps, num_pages, lim, w, child_at(p, 0)));
            if cnt - 1 > 0 {
                assert(internal_key(p, 0) < internal_key(p, cnt - 1));
            }
        }
    } else {
        let cnt = header(p).count as int;
        assert(w.lo[n] < leaf_key(p, cnt - 1) <= w.hi[n]);
    }
}

/// A node of the tree is in order.
pub open spec fn node_ok(ps: Seq<Seq<u8>>, num_pages: u32, lim: Limits, w: Shape, n: u32) -> bool {
    &&& node_base(ps, num_pages, w, n)
    &&& n != root_page() ==> linked(ps, w, n)
    &&& node_struct(ps, lim, w, n)
}

/// The pages hold a tree of the given shape.
#[verifier::opaque]
pub open spec fn tree_ok(ps: Seq<Seq<u8>>, num_pages: u32, lim: Limits, w: Shape) -> bool {
    &&& ps.len() == TABLE_MAX_PAGES
    &&& forall|n: int| 0 <= n < TABLE_MAX_PAGES ==> (#[trigger] ps[n]).len() == PAGE_SIZE
    &&& 1 <= num_pages
    &&& lim.valid()
    &&& w.live.contains(root_page())
    &&& w.lo[root_page()] == -1
    &&& w.hi[root_page()] == key_inf()
    &&& w.level[root_page()] < num_pages
    &&& w.level[root_page()] < TABLE_MAX_PAGES
    &&& forall|n: u32| w.live.contains(n) ==> #[trigger] node_ok(ps, num_pages, lim, w, n)
}

/// What a tree is, spelled out.
pub proof fn lemma_tree_def(ps: Seq<Seq<u8>>, num_pages: u32, lim: Limits, w: Shape)
    ensures
        tree_ok(ps, num_pages, lim, w) <==> {
            &&& ps.len() == TABLE_MAX_PAGES
            &&& forall|n: int| 0 <= n < TABLE_MAX_PAGES ==> (#[trigger] ps[n]).len() == PAGE_SIZE
            &&& 1 <= num_pages
            &&& lim.valid()
            &&& w.live.contains(root_page())
            &&& w.lo[root_page()] == -1
            &&& w.hi[root_page()] == key_inf()
            &&& w.level[root_page()] < num_pages
            &&& w.level[root_page()] < TABLE_MAX_PAGES
            &&& forall|n: u32| w.live.contains(n) ==> #[trigger] node_ok(ps, num_pages, lim, w, n)
        },
{
    reveal(tree_ok);
}

/// What holds of a tree as a whole.
pub proof fn lemma_tree_basics(ps: Seq<Seq<u8>>, num_pages: u32, lim: Limits, w: Shape)
    requires
        tree_ok(ps, num_pages, lim, w),
    ensures
        ps.len() == TABLE_MAX_PAGES,
        forall|n: int| 0 <= n < TABLE_MAX_PAGES ==> (#[trigger] ps[n]).len() == PAGE_SIZE,
        1 <= num_pages,
        lim.valid(),
        w.live.contains(root_page()),
        w.lo[root_page()] == -1,
        w.hi[root_page()] == key_inf(),
        w.level[root_page()] < num_pages,
        w.level[root_page()] < TABLE_MAX_PAGES,
{
    reveal(tree_ok);
}

/// Every node of a tree is in order.
pub proof fn lemma_tree_node(ps: Seq<Seq<u8>>, num_pages: u32, lim: Limits, w: Shape, n: u32)
    requires
        tree_ok(ps, num_pages, lim, w),
        w.live.contains(n),
    ensures
        node_ok(ps, num_pages, lim, w, n),
        n < num_pages,
        n < TABLE_MAX_PAGES,
        ps.len() == TABLE_MAX_PAGES,
        ps[n as int].len() == PAGE_SIZE,
{
    reveal(tree_ok);
    assert(node_ok(ps, num_pages, lim, w, n));
}

/// Every node of a tree is a page in use.
pub proof fn lemma_live_bound(ps: Seq<Seq<u8>>, num_pages: u32, lim: Limits, w: Shape, n: u32)
    requires
        tree_ok(ps, num_pages, lim, w),
        w.live.contains(n),
    ensures
        n < num_pages,
        n < TABLE_MAX_PAGES,
        ps.len() == TABLE_MAX_PAGES,
        ps[n as int].len() == PAGE_SIZE,
{
    reveal(tree_ok);
    assert(node_ok(ps, num_pages, lim, w, n));
}

/// Cell `i` of leaf `n` holds key `k`.
pub open spec fn holds(ps: Seq<Seq<u8>>, w: Shape, n: u32, i: int, k: u32) -> bool {
    &&& w.live.contains(n)
    &&& w.level[n] == 0
    &&& 0 <= i < header(ps[n as int]).count
    &&& leaf_key(ps[n as int], i) == k
}

/// Some leaf holds key `k`.
pub open spec fn has_key(ps: Seq<Seq<u8>>, w: Shape, k: u32) -> bool {
    exists|n: u32, i: int| holds(ps, w, n, i, k)
}

/// The record that stands with key `k`.
pub open spec fn value_of(ps: Seq<Seq<u8>>, w: Shape, k: u32) -> Seq<u8> {
    let (n, i) = choose|n: u32, i: int| holds(ps, w, n, i, k);
    leaf_value(ps[n as int], i)
}

/// The rows of the tree: each key that a leaf holds, with its record.
pub open spec fn contents(ps: Seq<Seq<u8>>, w: Shape) -> Map<u32, Seq<u8>> {
    Map::new(|k: u32| has_key(ps, w, k), |k: u32| value_of(ps, w, k))
}

/// A child's interval lies inside its parent's.
pub proof fn lemma_child_interval(ps: Seq<Seq<u8>>, w: Shape, n: u32, internal_max: int, i: int)
    requires
        internal_ok(ps, w, n, internal_max),
        0 <= i <= header(ps[n as int]).count,
        forall|j: int|
            0 <= j <= header(ps[n as int]).count ==> w.lo[#[trigger] child_at(ps[n as int], j)]
                < w.hi[child_at(ps[n as int], j)],
    ensures
        w.lo[n] <= w.lo[child_at(ps[n as int], i)],
        w.hi[child_at(ps[n as int], i)] <= w.hi[n],
{
    let p = ps[n as int];
    let cnt = header(p).count as int;
    assert(child_ok(ps, w, n, i));
    assert(child_ok(ps, w, n, 0));
    assert(child_ok(ps, w, n, cnt));
    let c0 = child_at(p, 0);
    let cl = child_at(p, cnt);
    assert(w.lo[c0] < w.hi[c0]);
    assert(w.lo[cl] < w.hi[cl]);
    if cnt > 0 {
        // the first key is above the node's lower bound, the last below its upper bound
        assert(internal_key(p, 0) > w.lo[n]);
        assert(internal_key(p, cnt - 1) < w.hi[n]);
        if i > 0 {
            if i - 1 > 0 {
                assert(internal_key(p, 0) < internal_key(p, i - 1));
            }
        }
        if i < cnt {
            if i < cnt - 1 {
                assert(internal_key(p, i) < internal_key(p, cnt - 1));
            }
        }
    }
}

/// Two children of one node have intervals that do not overlap.
pub proof fn lemma_siblings_apart(
    ps: Seq<Seq<u8>>,
    w: Shape,
    n: u32,
    internal_max: int,
    i: int,
    j: int,
)
    requires
        internal_ok(ps, w, n, internal_max),
        0 <= i < j <= header(ps[n as int]).count,
    ensures
        w.hi[child_at(ps[n as int], i)] <= w.lo[child_at(ps[n as int], j)],
{
    let p = ps[n as int];
    assert(child_ok(ps, w, n, i));
    assert(child_ok(ps, w, n, j));
    if i < j - 1 {
        assert(internal_key(p, i) < internal_key(p, j - 1));
    }
}

/// Two different nodes of one level have intervals that do not overlap.
pub proof fn lemma_same_level_apart(
    ps: Seq<Seq<u8>>,
    num_pages: u32,
    lim: Limits,
    w: Shape,
    a: u32,
    b: u32,
)
    requires
        tree_ok(ps, num_pages, lim, w),
        w.live.contains(a),
        w.live.contains(b),
        w.level[a] == w.level[b],
        a != b,
    ensures
        w.hi[a] <= w.lo[b] || w.hi[b] <= w.lo[a],
    decreases w.level[root_page()] - w.level[a],
{
    reveal(tree_ok);
    assert(node_ok(ps, num_pages, lim, w, a));
    assert(node_ok(ps, num_pages, lim, w, b));
    if a == root_page() {
        let pb = header(ps[b as int]).parent;
        assert(node_ok(ps, num_pages, lim, w, pb));
    } else if b == root_page() {
        let pa = header(ps[a as int]).parent;
        assert(node_ok(ps, num_pages, lim, w, pa));
    } else {
        let pa = header(ps[a as int]).parent;
        let pb = header(ps[b as int]).parent;
        assert(node_ok(ps, num_pages, lim, w, pa));
        assert(node_ok(ps, num_pages, lim, w, pb));
        let i = choose|i: int|
            0 <= i <= header(ps[pa as int]).count && #[trigger] child_at(ps[pa as int], i) == a;
        let j = choose|j: int|
            0 <= j <= header(ps[pb as int]).count && #[trigger] child_at(ps[pb as int], j) == b;
        let im = lim.internal_max_cells as int;
        if pa == pb {
            if i < j {
                lemma_siblings_apart(ps, w, pa, im, i, j);
            } else {
                lemma_siblings_apart(ps, w, pa, im, j, i);
            }
        } else {
            lemma_same_level_apart(ps, num_pages, lim, w, pa, pb);
            lemma_children_have_intervals(ps, num_pages, lim, w, pa);
            lemma_children_have_intervals(ps, num_pages, lim, w, pb);
            lemma_child_interval(ps, w, pa, im, i);
            lemma_child_interval(ps, w, pb, im, j);
        }
    }
}

/// Every child of an internal node of the tree has an interval that is not
/// empty.
pub proof fn lemma_children_have_intervals(
    ps: Seq<Seq<u8>>,
    num_pages: u32,
    lim: Limits,
    w: Shape,
    n: u32,
)
    requires
        tree_ok(ps, num_pages, lim, w),
        w.live.contains(n),
        w.level[n] > 0,
    ensures
        forall|j: int|
            0 <= j <= header(ps[n as int]).count ==> w.lo[#[trigger] child_at(ps[n as int], j)]
                < w.hi[child_at(ps[n as int], j)],
{
    reveal(tree_ok);
    assert(node_ok(ps, num_pages, lim, w, n));
    assert forall|j: int| 0 <= j <= header(ps[n as int]).count implies w.lo[#[trigger] child_at(
        ps[n as int],
        j,
    )] < w.hi[child_at(ps[n as int], j)] by {
        assert(child_ok(ps, w, n, j));
        assert(node_ok(ps, num_pages, lim, w, child_at(ps[n as int], j)));
    }
}


/// `idx` is where `key` belongs among the keys of a leaf: every key before
/// is smaller, and no key from there on is.
pub open spec fn leaf_lower_bound(p: Seq<u8>, key: u32, idx: int) -> bool {
    &&& 0 <= idx <= header(p).count
    &&& forall|i: int| 0 <= i < idx ==> #[trigger] leaf_key(p, i) < key
    &&& forall|i: int| idx <= i < header(p).count ==> key <= #[trigger] leaf_key(p, i)
}

/// `idx` is where `key` belongs among the keys of an internal node: every
/// key before is smaller, and no key from there on is.
pub open spec fn internal_lower_bound(p: Seq<u8>, key: u32, idx: int) -> bool {
    &&& 0 <= idx <= header(p).count
    &&& forall|i: int| 0 <= i < idx ==> #[trigger] internal_key(p, i) < key
    &&& forall|i: int| idx <= i < header(p).count ==> key <= #[trigger] internal_key(p, i)
}

/// The keys of a leaf stand in strictly ascending order.
pub open spec fn leaf_sorted(p: Seq<u8>) -> bool {
    forall|i: int, j: int|
        #![trigger leaf_key(p, i), leaf_key(p, j)]
        0 <= i < j < header(p).count ==> leaf_key(p, i) < leaf_key(p, j)
}

/// A key stands in one cell of one leaf at most.
pub proof fn lemma_holds_unique(
    ps: Seq<Seq<u8>>,
    num_pages: u32,
    lim: Limits,
    w: Shape,
    k: u32,
    n1: u32,
    i1: int,
    n2: u32,
    i2: int,
)
    requires
        tree_ok(ps, num_pages, lim, w),
        holds(ps, w, n1, i1, k),
        holds(ps, w, n2, i2, k),
    ensures
        n1 == n2,
        i1 == i2,
{
    reveal(tree_ok);
    assert(node_ok(ps, num_pages, lim, w, n1));
    assert(node_ok(ps, num_pages, lim, w, n2));
    if n1 != n2 {
        lemma_same_level_apart(ps, num_pages, lim, w, n1, n2);
        assert(w.lo[n1] < leaf_key(ps[n1 as int], i1) <= w.hi[n1]);
        assert(w.lo[n2] < leaf_key(ps[n2 as int], i2) <= w.hi[n2]);
    }
    if i1 < i2 {
        assert(leaf_key(ps[n1 as int], i1) < leaf_key(ps[n1 as int], i2));
    }
    if i2 < i1 {
        assert(leaf_key(ps[n1 as int], i2) < leaf_key(ps[n1 as int], i1));
    }
}

/// The row of a key that stands in a cell is the record of that cell.
pub proof fn lemma_contents_at(
    ps: Seq<Seq<u8>>,
    num_pages: u32,
    lim: Limits,
    w: Shape,
    k: u32,
    n: u32,
    i: int,
)
    requires
        tree_ok(ps, num_pages, lim, w),
        holds(ps, w, n, i, k),
    ensures
        contents(ps, w).contains_key(k),
        contents(ps, w)[k] == leaf_value(ps[n as int], i),
{
    assert(has_key(ps, w, k));
    let (n2, i2) = choose|n2: u32, i2: int| holds(ps, w, n2, i2, k);
    lemma_holds_unique(ps, num_pages, lim, w, k, n, i, n2, i2);
}

/// A key is in the tree only if it stands where it belongs: in the leaf
/// whose interval it falls in, at the place that the order gives it.
pub proof fn lemma_key_at_its_place(
    ps: Seq<Seq<u8>>,
    num_pages: u32,
    lim: Limits,
    w: Shape,
    k: u32,
    n: u32,
    idx: int,
)
    requires
        tree_ok(ps, num_pages, lim, w),
        w.live.contains(n),
        w.level[n] == 0,
        w.lo[n] < k <= w.hi[n],
        leaf_lower_bound(ps[n as int], k, idx),
    ensures
        contents(ps, w).contains_key(k) <==> (idx < header(ps[n as int]).count && leaf_key(
            ps[n as int],
            idx,
        ) == k),
        contents(ps, w).contains_key(k) ==> contents(ps, w)[k] == leaf_value(ps[n as int], idx),
{
    reveal(tree_ok);
    let p = ps[n as int];
    if idx < header(p).count && leaf_key(p, idx) == k {
        assert(holds(ps, w, n, idx, k));
        lemma_contents_at(ps, num_pages, lim, w, k, n, idx);
    }
    if has_key(ps, w, k) {
        let (n2, i2) = choose|n2: u32, i2: int| holds(ps, w, n2, i2, k);
        assert(node_ok(ps, num_pages, lim, w, n));
        assert(node_ok(ps, num_pages, lim, w, n2));
        if n2 != n {
            lemma_same_level_apart(ps, num_pages, lim, w, n, n2);
            assert(w.lo[n2] < leaf_key(ps[n2 as int], i2) <= w.hi[n2]);
        }
        if i2 < idx {
            assert(leaf_key(p, i2) < k);
        }
        if i2 > idx {
            assert(k <= leaf_key(p, idx));
            assert(leaf_key(p, idx) < leaf_key(p, i2));
        }
    }
}


/// The chain of rightmost children below any node but an empty root ends in
/// a leaf that holds a key.
pub proof fn lemma_rightmost_holds_key(
    ps: Seq<Seq<u8>>,
    num_pages: u32,
    lim: Limits,
    w: Shape,
    n: u32,
)
    requires
        below_ok(ps, num_pages, lim, w, w.level[n]),
        w.live.contains(n),
        n != root_page() || w.level[n] > 0,
    ensures
        header(ps[rightmost_leaf(ps, w, n) as int]).count >= 1,
    decreases w.level[n],
{
    assert(node_core(ps, num_pages, lim, w, n));
    if w.level[n] > 0 {
        let p = ps[n as int];
        let cnt = header(p).count as int;
        let r = header(p).link;
        assert(child_ok(ps, w, n, cnt));
        assert(child_at(p, cnt) == r);
        assert(node_core(ps, num_pages, lim, w, r));
        if r == root_page() {
            // the root is no one's child: it stands on the highest level
            assert(w.level[n] <= w.level[root_page()]);
        }
        lemma_rightmost_holds_key(ps, num_pages, lim, w, r);
    }
}

/// The two trees have the same leaves, with the same cells in each.
pub open spec fn same_leaves(ps: Seq<Seq<u8>>, w: Shape, ps2: Seq<Seq<u8>>, w2: Shape) -> bool {
    forall|m: u32|
        (#[trigger] w2.live.contains(m) && w2.level[m] == 0) == (w.live.contains(m) && w.level[m]
            == 0) && (w.live.contains(m) && w.level[m] == 0 ==> same_leaf(
            ps[m as int],
            ps2[m as int],
        ))
}

/// Two pages hold the same leaf, but for the parent that it names.
pub open spec fn same_leaf(p: Seq<u8>, q: Seq<u8>) -> bool {
    &&& header(q).kind == header(p).kind
    &&& header(q).root == header(p).root
    &&& header(q).count == header(p).count
    &&& header(q).link == header(p).link
    &&& crate::node::body(q) == crate::node::body(p)
}

/// Every node below `level` holds in `ps2` what it holds in `ps`, but for
/// the parent that it names.
pub open spec fn kept_below(ps: Seq<Seq<u8>>, w: Shape, ps2: Seq<Seq<u8>>, level: int) -> bool {
    forall|m: u32|
        #[trigger] w.live.contains(m) && w.level[m] < level ==> same_leaf(
            ps[m as int],
            ps2[m as int],
        )
}

/// `rows` are the rows of the leaves: the keys that the leaves hold, each
/// with the record of the cell that holds it.
pub open spec fn rows_are(ps: Seq<Seq<u8>>, w: Shape, rows: Map<u32, Seq<u8>>) -> bool {
    &&& forall|k: u32| has_key(ps, w, k) == #[trigger] rows.dom().contains(k)
    &&& forall|m: u32, i: int, k: u32| #[trigger]
        holds(ps, w, m, i, k) ==> rows[k] == leaf_value(ps[m as int], i)
}

/// The rows of the leaves are the rows of the tree.
pub proof fn lemma_rows_are_contents(ps: Seq<Seq<u8>>, w: Shape, rows: Map<u32, Seq<u8>>)
    requires
        rows_are(ps, w, rows),
    ensures
        contents(ps, w) == rows,
{
    let a = contents(ps, w);
    assert forall|k: u32| #[trigger] a.dom().contains(k) implies a[k] == rows[k] by {
        assert(has_key(ps, w, k));
        let (m, i) = choose|m: u32, i: int| holds(ps, w, m, i, k);
        assert(holds(ps, w, m, i, k));
    }
    assert(a =~= rows);
}

/// In a tree, the rows of the tree are the rows of the leaves.
pub proof fn lemma_contents_rows(ps: Seq<Seq<u8>>, num_pages: u32, lim: Limits, w: Shape)
    requires
        tree_ok(ps, num_pages, lim, w),
    ensures
        rows_are(ps, w, contents(ps, w)),
{
    assert forall|m: u32, i: int, k: u32| #[trigger] holds(ps, w, m, i, k) implies contents(
        ps,
        w,
    )[k] == leaf_value(ps[m as int], i) by {
        lemma_contents_at(ps, num_pages, lim, w, k, m, i);
    }
}

/// Trees with the same leaves have the same rows.
pub proof fn lemma_same_leaves_rows(
    ps: Seq<Seq<u8>>,
    w: Shape,
    ps2: Seq<Seq<u8>>,
    w2: Shape,
    rows: Map<u32, Seq<u8>>,
)
    requires
        same_leaves(ps, w, ps2, w2),
        rows_are(ps, w, rows),
    ensures
        rows_are(ps2, w2, rows),
{
    assert forall|m: u32, i: int, k: u32| holds(ps2, w2, m, i, k) == holds(ps, w, m, i, k) by {
        assert(w2.live.contains(m) && w2.level[m] == 0 <==> w.live.contains(m) && w.level[m] == 0);
    }
    assert forall|k: u32| has_key(ps2, w2, k) == #[trigger] rows.dom().contains(k) by {
        if has_key(ps2, w2, k) {
            let (m, i) = choose|m: u32, i: int| holds(ps2, w2, m, i, k);
            assert(holds(ps, w, m, i, k));
            assert(has_key(ps, w, k));
        }
        if rows.dom().contains(k) {
            assert(has_key(ps, w, k));
            let (m, i) = choose|m: u32, i: int| holds(ps, w, m, i, k);
            assert(holds(ps2, w2, m, i, k));
        }
    }
    assert forall|m: u32, i: int, k: u32| #[trigger] holds(ps2, w2, m, i, k) implies rows[k]
        == leaf_value(ps2[m as int], i) by {
        assert(holds(ps, w, m, i, k));
    }
}


/// From an internal node that can be walked down from, the walk goes on at
/// its rightmost child.
pub proof fn lemma_walkable_down(ps: Seq<Seq<u8>>, num_pages: u32, lim: Limits, w: Shape, n: u32)
    requires
        walkable(ps, num_pages, lim, w, n),
        w.level[n] > 0,
    ensures
        walkable(ps, num_pages, lim, w, header(ps[n as int]).link),
        node_max_key(ps, w, n) == node_max_key(ps, w, header(ps[n as int]).link),
        rightmost_leaf(ps, w, n) == rightmost_leaf(ps, w, header(ps[n as int]).link),
{
    let r = header(ps[n as int]).link;
    assert(node_core(ps, num_pages, lim, w, r));
    if w.level[r] > 0 {
        let p = ps[r as int];
        assert(child_ok(ps, w, r, header(p).count as int));
    }
}


/// A leaf of the tree that holds a key can be walked down from.
pub proof fn lemma_leaf_walkable(ps: Seq<Seq<u8>>, num_pages: u32, lim: Limits, w: Shape, n: u32)
    requires
        tree_ok(ps, num_pages, lim, w),
        w.live.contains(n),
        w.level[n] == 0,
        header(ps[n as int]).count >= 1,
    ensures
        walkable(ps, num_pages, lim, w, n),
        node_max_key(ps, w, n) == leaf_key(ps[n as int], header(ps[n as int]).count - 1),
{
    reveal(tree_ok);
    assert(node_ok(ps, num_pages, lim, w, n));
}

/// A page that holds a leaf with a key can be walked down from, whatever
/// the rest of the pages hold.
pub proof fn lemma_leaf_walkable_after(
    ps: Seq<Seq<u8>>,
    num_pages: u32,
    lim: Limits,
    w: Shape,
    n: u32,
)
    requires
        ps.len() == TABLE_MAX_PAGES,
        forall|x: int| 0 <= x < TABLE_MAX_PAGES ==> (#[trigger] ps[x]).len() == PAGE_SIZE,
        n < num_pages,
        n < TABLE_MAX_PAGES,
        w.live.contains(n),
        w.level[n] == 0,
        header(ps[n as int]).kind == KIND_LEAF,
        1 <= header(ps[n as int]).count <= LEAF_NODE_MAX_CELLS,
    ensures
        walkable(ps, num_pages, lim, w, n),
        node_max_key(ps, w, n) == leaf_key(ps[n as int], header(ps[n as int]).count - 1),
{
}


/// Having the same leaves carries over from one step to the next.
pub proof fn lemma_same_leaves_trans(
    ps: Seq<Seq<u8>>,
    w: Shape,
    ps2: Seq<Seq<u8>>,
    w2: Shape,
    ps3: Seq<Seq<u8>>,
    w3: Shape,
)
    requires
        same_leaves(ps, w, ps2, w2),
        same_leaves(ps2, w2, ps3, w3),
    ensures
        same_leaves(ps, w, ps3, w3),
{
    assert forall|m: u32|
        (#[trigger] w3.live.contains(m) && w3.level[m] == 0) == (w.live.contains(m) && w.level[m]
            == 0) && (w.live.contains(m) && w.level[m] == 0 ==> same_leaf(
            ps[m as int],
            ps3[m as int],
        )) by {
        assert(w2.live.contains(m) && w2.level[m] == 0 <==> w.live.contains(m) && w.level[m] == 0);
    }
}

/// A node that can be walked down from can still be walked down from when
/// more pages are in use.
pub proof fn lemma_walkable_more(
    ps: Seq<Seq<u8>>,
    num_pages: u32,
    lim: Limits,
    w: Shape,
    n: u32,
    more: u32,
)
    requires
        walkable(ps, num_pages, lim, w, n),
        num_pages <= more,
    ensures
        walkable(ps, more, lim, w, n),
{
    if w.level[n] > 0 {
        let top = w.level[header(ps[n as int]).link];
        assert forall|m: u32| w.live.contains(m) && w.level[m] <= top implies #[trigger] node_core(
            ps,
            more,
            lim,
            w,
            m,
        ) by {
            assert(node_core(ps, num_pages, lim, w, m));
        }
    }
}


/// Every node of one shape of a tree is a node of any other shape of it,
/// and a leaf in both or in neither.
pub proof fn lemma_shape_nodes(
    ps: Seq<Seq<u8>>,
    num_pages: u32,
    lim: Limits,
    w1: Shape,
    w2: Shape,
    m: u32,
)
    requires
        tree_ok(ps, num_pages, lim, w1),
        tree_ok(ps, num_pages, lim, w2),
        w1.live.contains(m),
    ensures
        w2.live.contains(m),
        w1.level[m] == 0 <==> w2.level[m] == 0,
    decreases w1.level[root_page()] - w1.level[m],
{
    reveal(tree_ok);
    assert(node_ok(ps, num_pages, lim, w1, m));
    if m != root_page() {
        let p = header(ps[m as int]).parent;
        assert(node_ok(ps, num_pages, lim, w1, p));
        lemma_shape_nodes(ps, num_pages, lim, w1, w2, p);
        assert(node_ok(ps, num_pages, lim, w2, p));
        let i = choose|i: int|
            0 <= i <= header(ps[p as int]).count && #[trigger] child_at(ps[p as int], i) == m;
        assert(child_ok(ps, w2, p, i));
    }
    assert(node_ok(ps, num_pages, lim, w2, m));
}

/// The rows of a tree do not depend on the shape that describes it.
pub proof fn lemma_contents_unique(
    ps: Seq<Seq<u8>>,
    num_pages: u32,
    lim: Limits,
    w1: Shape,
    w2: Shape,
)
    requires
        tree_ok(ps, num_pages, lim, w1),
        tree_ok(ps, num_pages, lim, w2),
    ensures
        contents(ps, w1) == contents(ps, w2),
{
    assert forall|m: u32|
        (#[trigger] w2.live.contains(m) && w2.level[m] == 0) == (w1.live.contains(m) && w1.level[m]
            == 0) by {
        if w1.live.contains(m) {
            lemma_shape_nodes(ps, num_pages, lim, w1, w2, m);
        }
        if w2.live.contains(m) {
            lemma_shape_nodes(ps, num_pages, lim, w2, w1, m);
        }
    }
    assert(same_leaves(ps, w1, ps, w2));
    lemma_contents_rows(ps, num_pages, lim, w1);
    lemma_same_leaves_rows(ps, w1, ps, w2, contents(ps, w1));
    lemma_rows_are_contents(ps, w2, contents(ps, w1));
}

} // verus!
