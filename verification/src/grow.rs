//! Why the steps of an insertion keep the tree in order.

use crate::btree::{
    is_child_of, key_updated, leaf_cells_split, placed, root_promoted, spec_left_split_count,
};
use crate::tree::lemma_key_at_its_place;
use crate::tree::lemma_siblings_apart;
use crate::node::LEAF_NODE_MAX_CELLS;
use crate::tree::{lemma_contents_rows, rows_are};
use crate::node::{body, internal_cell_inserted, merged_cell, INTERNAL_NODE_SLOTS};
use crate::tree::{below_ok, internal_lower_bound, node_core};
use crate::node::{
    child_at, header, internal_child, internal_key, leaf_cell_inserted, leaf_key, leaf_value,
    merged_key, merged_value, Header, INVALID_PAGE_NUM, KIND_INTERNAL, KIND_LEAF,
};
use crate::pager::{PAGE_SIZE, TABLE_MAX_PAGES};
use crate::tree::{
    chain_ok, child_lo, child_ok, contents, has_key, holds, internal_ok, key_inf, keys_sorted,
    leaf_lower_bound, leaf_ok, lemma_contents_at, lemma_live_bound, lemma_tree_basics,
    lemma_tree_def, lemma_tree_node, linked, node_base, node_ok, root_page, tree_ok, Limits,
    Shape,
};
use vstd::prelude::*;

verus! {

/// Two shapes say the same of node `x`.
pub open spec fn agree(w: Shape, w2: Shape, x: u32) -> bool {
    &&& w2.live.contains(x) == w.live.contains(x)
    &&& w2.level[x] == w.level[x]
    &&& w2.lo[x] == w.lo[x]
    &&& w2.hi[x] == w.hi[x]
}

/// Two pages hold the same header but for the parent, and the same cells
/// of an internal node.
pub open spec fn same_children(p: Seq<u8>, q: Seq<u8>) -> bool {
    &&& header(q).kind == header(p).kind
    &&& header(q).count == header(p).count
    &&& header(q).link == header(p).link
    &&& forall|i: int|
        0 <= i < header(p).count ==> #[trigger] internal_child(q, i) == internal_child(p, i)
            && internal_key(q, i) == internal_key(p, i)
}

/// A node that was in order stays in order when nothing that it depends on
/// has changed: its own page, the cells of its parent, the parent recorded
/// in its children, and what the shape says of these and of the leaf to its
/// right.
pub proof fn lemma_node_frame(
    ps: Seq<Seq<u8>>,
    ps2: Seq<Seq<u8>>,
    np: u32,
    np2: u32,
    lim: Limits,
    w: Shape,
    w2: Shape,
    m: u32,
)
    requires
        w.live.contains(m),
        node_ok(ps, np, lim, w, m),
        ps2[m as int] == ps[m as int],
        np <= np2,
        w2.level[root_page()] >= w.level[root_page()],
        agree(w, w2, m),
        m != root_page() ==> linked(ps2, w2, m),
        w.level[m] > 0 ==> forall|i: int|
            0 <= i <= header(ps[m as int]).count ==> agree(
                w,
                w2,
                #[trigger] child_at(ps[m as int], i),
            ) && header(ps2[child_at(ps[m as int], i) as int]).parent == header(
                ps[child_at(ps[m as int], i) as int],
            ).parent,
        w.level[m] == 0 && header(ps[m as int]).link != 0 ==> w2.live.contains(
            header(ps[m as int]).link,
        ) && w2.level[header(ps[m as int]).link] == 0 && w2.lo[header(ps[m as int]).link]
            == w.lo[header(ps[m as int]).link],
    ensures
        node_ok(ps2, np2, lim, w2, m),
{
    let p = ps[m as int];
    if w.level[m] > 0 {
        assert forall|i: int| 0 <= i <= header(p).count implies #[trigger] child_ok(
            ps2,
            w2,
            m,
            i,
        ) by {
            assert(child_ok(ps, w, m, i));
            assert(agree(w, w2, child_at(p, i)));
        }
        assert(internal_ok(ps2, w2, m, lim.internal_max_cells as int));
    } else {
        assert(leaf_ok(ps2[m as int], w2.lo[m], w2.hi[m], lim.leaf_max_cells as int));
        assert(chain_ok(ps2, w2, m));
    }
}

/// Two pages hold internal nodes with the same children.
pub open spec fn same_kids(p: Seq<u8>, q: Seq<u8>) -> bool {
    &&& header(q).count == header(p).count
    &&& forall|i: int| 0 <= i <= header(p).count ==> #[trigger] child_at(q, i) == child_at(p, i)
}

/// Pages with the same header and cells hold the same children.
pub proof fn lemma_same_children_kids(p: Seq<u8>, q: Seq<u8>)
    requires
        same_children(p, q),
    ensures
        same_kids(p, q),
{
    assert forall|i: int| 0 <= i <= header(p).count implies #[trigger] child_at(q, i) == child_at(
        p,
        i,
    ) by {
        if i < header(p).count {
            assert(internal_child(q, i) == internal_child(p, i));
        }
    }
}

/// A node stays the child of its parent when neither the parent that it
/// names nor the children of that parent have changed.
pub proof fn lemma_still_linked(ps: Seq<Seq<u8>>, ps2: Seq<Seq<u8>>, w: Shape, w2: Shape, m: u32)
    requires
        linked(ps, w, m),
        header(ps2[m as int]).parent == header(ps[m as int]).parent,
        w2.level[m] == w.level[m],
        w2.live.contains(header(ps[m as int]).parent),
        w2.level[header(ps[m as int]).parent] == w.level[header(ps[m as int]).parent],
        same_kids(
            ps[header(ps[m as int]).parent as int],
            ps2[header(ps[m as int]).parent as int],
        ),
    ensures
        linked(ps2, w2, m),
{
    let par = header(ps[m as int]).parent;
    let i = choose|i: int|
        0 <= i <= header(ps[par as int]).count && #[trigger] child_at(ps[par as int], i) == m;
    assert(child_at(ps2[par as int], i) == m);
}

/// Entering a cell into a leaf that has room, at the place where its key
/// belongs, keeps the tree in order and adds one row.
pub proof fn lemma_leaf_insert(
    ps: Seq<Seq<u8>>,
    np: u32,
    lim: Limits,
    w: Shape,
    n: u32,
    q: Seq<u8>,
    idx: int,
    key: u32,
    value: Seq<u8>,
)
    requires
        tree_ok(ps, np, lim, w),
        w.live.contains(n),
        w.level[n] == 0,
        w.lo[n] < key <= w.hi[n],
        leaf_lower_bound(ps[n as int], key, idx),
        !(idx < header(ps[n as int]).count && leaf_key(ps[n as int], idx) == key),
        header(ps[n as int]).count < lim.leaf_max_cells,
        leaf_cell_inserted(ps[n as int], q, idx, key, value),
        q.len() == PAGE_SIZE,
    ensures
        tree_ok(ps.update(n as int, q), np, lim, w),
        contents(ps.update(n as int, q), w) == contents(ps, w).insert(key, value),
{
    reveal(tree_ok);
    let ps2 = ps.update(n as int, q);
    let p = ps[n as int];
    let cnt = header(p).count as int;
    assert(node_ok(ps, np, lim, w, n));
    // the leaf itself
    assert(leaf_ok(q, w.lo[n], w.hi[n], lim.leaf_max_cells as int)) by {
        assert forall|i: int, j: int| 0 <= i < j < header(q).count implies leaf_key(q, i)
            < leaf_key(q, j) by {
            assert(leaf_key(q, i) == merged_key(p, idx, key, i));
            assert(leaf_key(q, j) == merged_key(p, idx, key, j));
            if i < idx && j > idx {
                assert(leaf_key(p, i) < leaf_key(p, j - 1) || i == j - 1);
            }
        }
        assert forall|i: int| 0 <= i < header(q).count implies w.lo[n] < #[trigger] leaf_key(q, i)
            <= w.hi[n] by {
            assert(leaf_key(q, i) == merged_key(p, idx, key, i));
        }
        if w.hi[n] < key_inf() {
            assert(leaf_key(p, cnt - 1) == w.hi[n]);
            assert(idx <= cnt - 1);
            assert(leaf_key(q, cnt) == merged_key(p, idx, key, cnt));
        }
    }
    assert(node_ok(ps2, np, lim, w, n)) by {
        if n != root_page() {
            let par = header(p).parent;
            assert(node_ok(ps, np, lim, w, par));
            let i = choose|i: int|
                0 <= i <= header(ps[par as int]).count && #[trigger] child_at(ps[par as int], i)
                    == n;
            assert(child_at(ps2[par as int], i) == n);
        }
        assert(chain_ok(ps2, w, n));
    }
    assert forall|m: u32| w.live.contains(m) implies #[trigger] node_ok(ps2, np, lim, w, m) by {
        if m != n {
            assert(node_ok(ps, np, lim, w, m));
            if m != root_page() {
                assert(node_ok(ps, np, lim, w, header(ps[m as int]).parent));
                lemma_same_children_kids(
                    ps[header(ps[m as int]).parent as int],
                    ps2[header(ps[m as int]).parent as int],
                );
                lemma_still_linked(ps, ps2, w, w, m);
            }
            if w.level[m] > 0 {
                assert forall|i: int| 0 <= i <= header(ps[m as int]).count implies header(
                    ps2[#[trigger] child_at(ps[m as int], i) as int],
                ).parent == header(ps[child_at(ps[m as int], i) as int]).parent by {
                    assert(child_ok(ps, w, m, i));
                    assert(node_ok(ps, np, lim, w, child_at(ps[m as int], i)));
                }
            }
            lemma_node_frame(ps, ps2, np, np, lim, w, w, m);
        }
    }
    assert(tree_ok(ps2, np, lim, w));
    lemma_leaf_insert_contents(ps, np, lim, w, n, q, idx, key, value);
}

/// Where a key stands after a cell has entered a leaf that has room.
pub proof fn lemma_leaf_insert_holds(
    ps: Seq<Seq<u8>>,
    np: u32,
    lim: Limits,
    w: Shape,
    n: u32,
    q: Seq<u8>,
    idx: int,
    key: u32,
    value: Seq<u8>,
    m: u32,
    i: int,
    k: u32,
)
    requires
        tree_ok(ps, np, lim, w),
        w.live.contains(n),
        w.level[n] == 0,
        0 <= idx <= header(ps[n as int]).count,
        header(ps[n as int]).count < u32::MAX,
        leaf_cell_inserted(ps[n as int], q, idx, key, value),
    ensures
        holds(ps, w, m, i, k) ==> holds(
            ps.update(n as int, q),
            w,
            m,
            if m == n && i >= idx {
                i + 1
            } else {
                i
            },
            k,
        ) && leaf_value(
            ps.update(n as int, q)[m as int],
            if m == n && i >= idx {
                i + 1
            } else {
                i
            },
        ) == leaf_value(ps[m as int], i),
        holds(ps.update(n as int, q), w, m, i, k) && !(m == n && i == idx) ==> holds(
            ps,
            w,
            m,
            if m == n && i > idx {
                i - 1
            } else {
                i
            },
            k,
        ),
        holds(ps.update(n as int, q), w, n, idx, key),
        leaf_value(ps.update(n as int, q)[n as int], idx) == value,
{
    let ps2 = ps.update(n as int, q);
    let p = ps[n as int];
    lemma_live_bound(ps, np, lim, w, n);
    assert(ps2[n as int] == q);
    assert(leaf_key(q, idx) == merged_key(p, idx, key, idx));
    assert(leaf_value(q, idx) == merged_value(p, idx, value, idx));
    if holds(ps, w, m, i, k) {
        lemma_live_bound(ps, np, lim, w, m);
        if m == n {
            let i2 = if i >= idx {
                i + 1
            } else {
                i
            };
            assert(leaf_key(q, i2) == merged_key(p, idx, key, i2));
            assert(leaf_value(q, i2) == merged_value(p, idx, value, i2));
        }
    }
    if holds(ps2, w, m, i, k) && !(m == n && i == idx) {
        lemma_live_bound(ps, np, lim, w, m);
        if m == n {
            assert(leaf_key(q, i) == merged_key(p, idx, key, i));
        }
    }
}

/// The rows after a cell has entered a leaf that has room.
pub proof fn lemma_leaf_insert_contents(
    ps: Seq<Seq<u8>>,
    np: u32,
    lim: Limits,
    w: Shape,
    n: u32,
    q: Seq<u8>,
    idx: int,
    key: u32,
    value: Seq<u8>,
)
    requires
        tree_ok(ps, np, lim, w),
        tree_ok(ps.update(n as int, q), np, lim, w),
        w.live.contains(n),
        w.level[n] == 0,
        0 <= idx <= header(ps[n as int]).count,
        header(ps[n as int]).count < u32::MAX,
        leaf_cell_inserted(ps[n as int], q, idx, key, value),
    ensures
        contents(ps.update(n as int, q), w) == contents(ps, w).insert(key, value),
{
    let ps2 = ps.update(n as int, q);
    let a = contents(ps2, w);
    let b = contents(ps, w).insert(key, value);
    lemma_leaf_insert_holds(ps, np, lim, w, n, q, idx, key, value, n, idx, key);
    lemma_contents_at(ps2, np, lim, w, key, n, idx);
    assert forall|k: u32| #[trigger] b.dom().contains(k) implies a.dom().contains(k) && a[k]
        == b[k] by {
        if k != key {
            assert(has_key(ps, w, k));
            let (m, i) = choose|m: u32, i: int| holds(ps, w, m, i, k);
            lemma_contents_at(ps, np, lim, w, k, m, i);
            lemma_leaf_insert_holds(ps, np, lim, w, n, q, idx, key, value, m, i, k);
            let i2 = if m == n && i >= idx {
                i + 1
            } else {
                i
            };
            lemma_contents_at(ps2, np, lim, w, k, m, i2);
        }
    }
    assert forall|k: u32| #[trigger] a.dom().contains(k) implies b.dom().contains(k) by {
        assert(has_key(ps2, w, k));
        let (m, i) = choose|m: u32, i: int| holds(ps2, w, m, i, k);
        lemma_leaf_insert_holds(ps, np, lim, w, n, q, idx, key, value, m, i, k);
        if !(m == n && i == idx) {
            let i0 = if m == n && i > idx {
                i - 1
            } else {
                i
            };
            assert(holds(ps, w, m, i0, k));
            assert(has_key(ps, w, k));
        }
    }
    assert(a =~= b);
}

/// Page `q` is page `p` but for the parent recorded in it.
pub open spec fn reparented(p: Seq<u8>, q: Seq<u8>, parent: u32) -> bool {
    &&& header(q) == (Header { parent: parent, ..header(p) })
    &&& body(q) == body(p)
}

/// No internal node has `c` among its children.
pub open spec fn unlisted(ps: Seq<Seq<u8>>, w: Shape, c: u32) -> bool {
    forall|x: u32, i: int|
        w.live.contains(x) && w.level[x] > 0 && 0 <= i <= header(ps[x as int]).count
            ==> #[trigger] child_at(ps[x as int], i) != c
}

/// Child `i` of internal node `n` while child `c` waits to enter `n` as
/// child `g`: as `child_ok`, but the intervals of the children leave room
/// for `c` before child `g`, which is behind child `g - 1` where `g` is not
/// 0, and behind all children where `g` is their number.
pub open spec fn pend_child_ok(ps: Seq<Seq<u8>>, w: Shape, n: u32, i: int, c: u32, g: int) -> bool {
    let p = ps[n as int];
    let x = child_at(p, i);
    &&& w.live.contains(x)
    &&& w.level[x] + 1 == w.level[n]
    &&& header(ps[x as int]).parent == n
    &&& w.lo[x] == if i == g {
        w.hi[c]
    } else if i == 0 {
        w.lo[n]
    } else {
        internal_key(p, i - 1) as int
    }
    &&& w.hi[x] == if i < header(p).count {
        internal_key(p, i) as int
    } else if g == header(p).count + 1 {
        w.lo[c]
    } else {
        w.hi[n]
    }
}

/// Internal node `n` while child `c` waits to enter it as child `g`.
pub open spec fn pend_internal(
    ps: Seq<Seq<u8>>,
    w: Shape,
    n: u32,
    c: u32,
    g: int,
    internal_max: int,
) -> bool {
    let p = ps[n as int];
    &&& header(p).kind == KIND_INTERNAL
    &&& header(p).count <= internal_max
    &&& header(p).link != INVALID_PAGE_NUM
    &&& keys_sorted(p)
    &&& 0 <= g <= header(p).count + 1
    &&& forall|i: int| 0 <= i <= header(p).count ==> #[trigger] pend_child_ok(ps, w, n, i, c, g)
    &&& 1 <= g <= header(p).count ==> w.lo[c] == internal_key(p, g - 1)
    &&& g == 0 ==> w.lo[c] == w.lo[n]
    &&& g == header(p).count + 1 ==> w.hi[c] == w.hi[n]
}

/// The state in which child `c` waits to enter node `n`, as between the
/// split of a node and the entry of its new sibling into their parent: the
/// tree is in order but for `n`, which does not hold `c` yet and leaves
/// room for it as child `g`.
pub open spec fn pending(
    ps: Seq<Seq<u8>>,
    num_pages: u32,
    lim: Limits,
    w: Shape,
    n: u32,
    c: u32,
    g: int,
) -> bool {
    &&& ps.len() == TABLE_MAX_PAGES
    &&& forall|x: int| 0 <= x < TABLE_MAX_PAGES ==> (#[trigger] ps[x]).len() == PAGE_SIZE
    &&& 1 <= num_pages <= TABLE_MAX_PAGES
    &&& lim.valid()
    &&& w.live.contains(root_page())
    &&& w.lo[root_page()] == -1
    &&& w.hi[root_page()] == key_inf()
    &&& w.level[root_page()] < num_pages
    &&& w.live.contains(n)
    &&& w.live.contains(c)
    &&& n != c
    &&& c != root_page()
    &&& w.level[c] + 1 == w.level[n]
    &&& forall|x: u32|
        w.live.contains(x) && x != n && x != c ==> #[trigger] node_ok(ps, num_pages, lim, w, x)
    &&& node_core(ps, num_pages, lim, w, c)
    &&& node_base(ps, num_pages, w, n)
    &&& n != root_page() ==> linked(ps, w, n)
    &&& pend_internal(ps, w, n, c, g, lim.internal_max_cells as int)
    &&& unlisted(ps, w, c)
}

/// A waiting child has one place to enter its parent.
pub proof fn lemma_one_place(
    ps: Seq<Seq<u8>>,
    np: u32,
    lim: Limits,
    w: Shape,
    n: u32,
    c: u32,
    g: int,
    g2: int,
)
    requires
        pending(ps, np, lim, w, n, c, g),
        pending(ps, np, lim, w, n, c, g2),
    ensures
        g == g2,
{
    let lower = if g < g2 {
        g
    } else {
        g2
    };
    if g != g2 {
        assert(pend_child_ok(ps, w, n, lower, c, g));
        assert(pend_child_ok(ps, w, n, lower, c, g2));
        assert(node_base(ps, np, w, c));
    }
}

/// Child `i` of an internal node once `c` has entered as child `g`.
pub open spec fn child_after(p: Seq<u8>, c: u32, g: int, i: int) -> u32 {
    if i < g {
        child_at(p, i)
    } else if i == g {
        c
    } else {
        child_at(p, i - 1)
    }
}

/// Key `i` of an internal node once a child with lower bound `lo_c` and
/// largest key `cmax` has entered as child `g`: where it became the rightmost
/// child, its lower bound is the key of the child that was rightmost.
pub open spec fn key_after(p: Seq<u8>, lo_c: int, cmax: u32, g: int, i: int) -> int {
    if g == header(p).count + 1 {
        if i < header(p).count {
            internal_key(p, i) as int
        } else {
            lo_c
        }
    } else if i < g {
        internal_key(p, i) as int
    } else if i == g {
        cmax as int
    } else {
        internal_key(p, i - 1) as int
    }
}

/// Page `q` is page `p` after `c` has entered as child `g`.
pub open spec fn entered(p: Seq<u8>, q: Seq<u8>, c: u32, lo_c: int, cmax: u32, g: int) -> bool {
    &&& header(q) == (Header {
        count: (header(p).count + 1) as u32,
        link: child_after(p, c, g, header(p).count + 1),
        ..header(p)
    })
    &&& forall|i: int|
        0 <= i <= header(p).count ==> #[trigger] internal_child(q, i) == child_after(p, c, g, i)
    &&& forall|i: int|
        0 <= i <= header(p).count ==> #[trigger] internal_key(q, i) == key_after(
            p,
            lo_c,
            cmax,
            g,
            i,
        )
}

/// Which way a waiting child enters its parent: as the new rightmost child
/// if and only if its largest key is above the largest key under the
/// rightmost child; else at the place of its largest key, which is its upper
/// bound.
pub proof fn lemma_pending_place(
    ps: Seq<Seq<u8>>,
    np: u32,
    lim: Limits,
    w: Shape,
    n: u32,
    c: u32,
    g: int,
    cmax: u32,
    rmax: u32,
)
    requires
        pending(ps, np, lim, w, n, c, g),
        w.lo[c] < cmax <= w.hi[c],
        w.hi[c] < key_inf() ==> cmax == w.hi[c],
        w.lo[header(ps[n as int]).link] < rmax <= w.hi[header(ps[n as int]).link],
        w.hi[header(ps[n as int]).link] < key_inf() ==> rmax == w.hi[header(ps[n as int]).link],
    ensures
        cmax > rmax <==> g == header(ps[n as int]).count + 1,
        g == header(ps[n as int]).count + 1 ==> rmax == w.lo[c],
        g <= header(ps[n as int]).count ==> internal_lower_bound(ps[n as int], cmax, g) && cmax
            == w.hi[c],
        g < header(ps[n as int]).count ==> cmax < internal_key(ps[n as int], g),
{
    let p = ps[n as int];
    let cnt = header(p).count as int;
    let r = header(p).link;
    assert(pend_child_ok(ps, w, n, cnt, c, g));
    assert(child_at(p, cnt) == r);
    assert(r != c && r != n) by {
        assert(child_at(p, cnt) != c);
    }
    assert(node_ok(ps, np, lim, w, r));
    if g <= cnt {
        assert(pend_child_ok(ps, w, n, g, c, g));
        let x = child_at(p, g);
        assert(x != c);
        assert(node_ok(ps, np, lim, w, x));
        assert(w.lo[x] == w.hi[c]);
        if g < cnt {
            assert(internal_key(p, g) > w.hi[c]);
            if g < cnt - 1 {
                assert(internal_key(p, g) < internal_key(p, cnt - 1));
            }
        }
        assert(w.lo[r] >= w.hi[c]);
        assert forall|i: int| 0 <= i < g implies #[trigger] internal_key(p, i) < cmax by {
            if i < g - 1 {
                assert(internal_key(p, i) < internal_key(p, g - 1));
            }
        }
        assert forall|i: int| g <= i < cnt implies cmax <= #[trigger] internal_key(p, i) by {
            if g < i {
                assert(internal_key(p, g) < internal_key(p, i));
            }
        }
    }
}

/// What `placed` comes to for a waiting child.
pub proof fn lemma_placed_entered(
    ps: Seq<Seq<u8>>,
    np: u32,
    lim: Limits,
    w: Shape,
    n: u32,
    c: u32,
    g: int,
    q: Seq<u8>,
    cmax: u32,
    rmax: u32,
)
    requires
        pending(ps, np, lim, w, n, c, g),
        header(ps[n as int]).count < INTERNAL_NODE_SLOTS,
        w.lo[c] < cmax <= w.hi[c],
        w.hi[c] < key_inf() ==> cmax == w.hi[c],
        w.lo[header(ps[n as int]).link] < rmax <= w.hi[header(ps[n as int]).link],
        w.hi[header(ps[n as int]).link] < key_inf() ==> rmax == w.hi[header(ps[n as int]).link],
        placed(ps[n as int], q, c, cmax, rmax),
    ensures
        entered(ps[n as int], q, c, w.lo[c], cmax, g),
{
    let p = ps[n as int];
    let cnt = header(p).count as int;
    lemma_pending_place(ps, np, lim, w, n, c, g, cmax, rmax);
    if cmax > rmax {
        assert forall|i: int| 0 <= i <= cnt implies #[trigger] internal_child(q, i) == child_after(
            p,
            c,
            g,
            i,
        ) by {}
        assert forall|i: int| 0 <= i <= cnt implies #[trigger] internal_key(q, i) == key_after(
            p,
            w.lo[c],
            cmax,
            g,
            i,
        ) by {
            if i < cnt {
                assert(internal_child(q, i) == internal_child(p, i));
            }
        }
    } else {
        assert(internal_cell_inserted(p, q, g, c, cmax));
        assert forall|i: int| 0 <= i <= cnt implies #[trigger] internal_child(q, i) == child_after(
            p,
            c,
            g,
            i,
        ) by {
            assert((internal_child(q, i), internal_key(q, i)) == merged_cell(p, g, c, cmax, i));
        }
        assert forall|i: int| 0 <= i <= cnt implies #[trigger] internal_key(q, i) == key_after(
            p,
            w.lo[c],
            cmax,
            g,
            i,
        ) by {
            assert(internal_child(q, i) == child_after(p, c, g, i));
            assert((internal_child(q, i), internal_key(q, i)) == merged_cell(p, g, c, cmax, i));
        }
    }
}

/// Entering the waiting child into its parent, where the parent has room,
/// puts the tree in order.
pub proof fn lemma_place_pending(
    ps: Seq<Seq<u8>>,
    ps2: Seq<Seq<u8>>,
    np: u32,
    lim: Limits,
    w: Shape,
    n: u32,
    c: u32,
    g: int,
    cmax: u32,
)
    requires
        pending(ps, np, lim, w, n, c, g),
        header(ps[n as int]).count < lim.internal_max_cells,
        w.lo[c] < cmax <= w.hi[c],
        g <= header(ps[n as int]).count ==> cmax == w.hi[c],
        ps2.len() == ps.len(),
        forall|x: int| 0 <= x < ps.len() && x != n && x != c ==> ps2[x] == ps[x],
        ps2[n as int].len() == PAGE_SIZE,
        ps2[c as int].len() == PAGE_SIZE,
        reparented(ps[c as int], ps2[c as int], n),
        entered(ps[n as int], ps2[n as int], c, w.lo[c], cmax, g),
    ensures
        tree_ok(ps2, np, lim, w),
{
    lemma_place_parent(ps, ps2, np, lim, w, n, c, g, cmax);
    assert forall|x: u32| w.live.contains(x) implies #[trigger] node_ok(ps2, np, lim, w, x) by {
        if x == n {
        } else if x == c {
            lemma_place_child(ps, ps2, np, lim, w, n, c, g);
        } else {
            lemma_place_other(ps, ps2, np, lim, w, n, c, g, x);
        }
    }
    lemma_tree_def(ps2, np, lim, w);
}

/// The children of the parent after the entry, by their places before.
pub proof fn lemma_child_after(p: Seq<u8>, q: Seq<u8>, c: u32, lo_c: int, cmax: u32, g: int, i: int)
    requires
        entered(p, q, c, lo_c, cmax, g),
        header(p).count < u32::MAX,
        0 <= g <= header(p).count + 1,
        0 <= i <= header(p).count + 1,
    ensures
        child_at(q, i) == child_after(p, c, g, i),
{
    if i <= header(p).count {
        assert(internal_child(q, i) == child_after(p, c, g, i));
    }
}

/// The parent is in order once the waiting child has entered.
pub proof fn lemma_place_parent(
    ps: Seq<Seq<u8>>,
    ps2: Seq<Seq<u8>>,
    np: u32,
    lim: Limits,
    w: Shape,
    n: u32,
    c: u32,
    g: int,
    cmax: u32,
)
    requires
        pending(ps, np, lim, w, n, c, g),
        header(ps[n as int]).count < lim.internal_max_cells,
        w.lo[c] < cmax <= w.hi[c],
        g <= header(ps[n as int]).count ==> cmax == w.hi[c],
        ps2.len() == ps.len(),
        forall|x: int| 0 <= x < ps.len() && x != n && x != c ==> ps2[x] == ps[x],
        reparented(ps[c as int], ps2[c as int], n),
        entered(ps[n as int], ps2[n as int], c, w.lo[c], cmax, g),
    ensures
        node_ok(ps2, np, lim, w, n),
{
    let p = ps[n as int];
    let q = ps2[n as int];
    let cnt = header(p).count as int;
    assert forall|i: int| 0 <= i <= cnt implies w.live.contains(#[trigger] child_at(p, i))
        && child_at(p, i) != n && child_at(p, i) != c && child_at(p, i) < np && w.lo[child_at(
        p,
        i,
    )] < w.hi[child_at(p, i)] by {
        assert(pend_child_ok(ps, w, n, i, c, g));
        assert(node_ok(ps, np, lim, w, child_at(p, i)));
    }
    assert forall|i: int| 0 <= i <= cnt + 1 implies child_at(q, i) == child_after(p, c, g, i) by {
        lemma_child_after(p, q, c, w.lo[c], cmax, g, i);
    }
    // the keys before the entry, by the intervals of the children
    assert forall|i: int| 0 <= i < cnt implies w.lo[child_at(p, i)] < #[trigger] internal_key(p, i) by {
        assert(pend_child_ok(ps, w, n, i, c, g));
    }
    if g >= 1 {
        assert(pend_child_ok(ps, w, n, g - 1, c, g));
    }
    if g <= cnt {
        assert(pend_child_ok(ps, w, n, g, c, g));
    }
    assert(keys_sorted(q)) by {
        assert forall|i: int, j: int| 0 <= i < j < header(q).count implies internal_key(q, i)
            < internal_key(q, j) by {
            assert(internal_key(q, i) == key_after(p, w.lo[c], cmax, g, i));
            assert(internal_key(q, j) == key_after(p, w.lo[c], cmax, g, j));
            if g == cnt + 1 {
                if j < cnt {
                    assert(internal_key(p, i) < internal_key(p, j));
                } else {
                    // the last key is the lower bound of the new rightmost child
                    assert(pend_child_ok(ps, w, n, cnt, c, g));
                    if cnt >= 1 {
                        if i < cnt - 1 {
                            assert(internal_key(p, i) < internal_key(p, cnt - 1));
                        }
                        assert(w.lo[child_at(p, cnt)] == internal_key(p, cnt - 1));
                    }
                }
            } else {
                let oi = if i < g {
                    i
                } else {
                    i - 1
                };
                let oj = if j < g {
                    j
                } else {
                    j - 1
                };
                if i != g && j != g {
                    if oi < oj {
                        assert(internal_key(p, oi) < internal_key(p, oj));
                    }
                } else if i == g {
                    assert(w.lo[child_at(p, g)] == w.hi[c]);
                    if g < oj {
                        assert(internal_key(p, g) < internal_key(p, oj));
                    }
                } else {
                    if oi < g - 1 {
                        assert(internal_key(p, oi) < internal_key(p, g - 1));
                    }
                }
            }
        }
    }
    assert forall|i: int| 0 <= i <= header(q).count implies #[trigger] child_ok(ps2, w, n, i) by {
        assert(child_at(q, i) == child_after(p, c, g, i));
        if i < header(q).count {
            assert(internal_key(q, i) == key_after(p, w.lo[c], cmax, g, i));
        }
        if i > 0 {
            assert(internal_key(q, i - 1) == key_after(p, w.lo[c], cmax, g, i - 1));
        }
        if i < g {
            assert(pend_child_ok(ps, w, n, i, c, g));
        } else if i > g {
            assert(pend_child_ok(ps, w, n, i - 1, c, g));
        } else {
        }
    }
    if n != root_page() {
        let par = header(p).parent;
        let i = choose|i: int|
            0 <= i <= header(ps[par as int]).count && #[trigger] child_at(ps[par as int], i) == n;
        assert(w.level[par] == w.level[n] + 1);
        assert(par != c && par != n);
        assert(par < np) by {
            assert(node_ok(ps, np, lim, w, par));
        }
        assert(child_at(ps2[par as int], i) == n);
    }
}

/// The child that has entered is in order.
pub proof fn lemma_place_child(
    ps: Seq<Seq<u8>>,
    ps2: Seq<Seq<u8>>,
    np: u32,
    lim: Limits,
    w: Shape,
    n: u32,
    c: u32,
    g: int,
)
    requires
        pending(ps, np, lim, w, n, c, g),
        ps2.len() == ps.len(),
        forall|x: int| 0 <= x < ps.len() && x != n && x != c ==> ps2[x] == ps[x],
        reparented(ps[c as int], ps2[c as int], n),
        0 <= g <= header(ps2[n as int]).count,
        child_at(ps2[n as int], g) == c,
    ensures
        node_ok(ps2, np, lim, w, c),
{
    let p = ps[c as int];
    let pg2 = ps2[c as int];
    assert(node_core(ps, np, lim, w, c));
    assert(linked(ps2, w, c));
    assert(node_base(ps2, np, w, c));
    if w.level[c] > 0 {
        assert forall|i: int| 0 <= i <= header(pg2).count implies #[trigger] child_ok(ps2, w, c, i) by {
            assert(child_ok(ps, w, c, i));
            let x = child_at(p, i);
            assert(child_at(pg2, i) == x);
            assert(x != c && x != n);
            assert(node_ok(ps, np, lim, w, x));
        }
        assert(keys_sorted(pg2)) by {
            assert forall|i: int, j: int| 0 <= i < j < header(pg2).count implies internal_key(pg2, i)
                < internal_key(pg2, j) by {
                assert(internal_key(p, i) < internal_key(p, j));
            }
        }
        assert(internal_ok(ps2, w, c, lim.internal_max_cells as int));
    } else {
        assert(leaf_ok(pg2, w.lo[c], w.hi[c], lim.leaf_max_cells as int)) by {
            assert forall|i: int, j: int| 0 <= i < j < header(pg2).count implies leaf_key(pg2, i)
                < leaf_key(pg2, j) by {
                assert(leaf_key(p, i) < leaf_key(p, j));
            }
            assert forall|i: int| 0 <= i < header(pg2).count implies w.lo[c] < #[trigger] leaf_key(
                pg2,
                i,
            ) <= w.hi[c] by {
                assert(w.lo[c] < leaf_key(p, i) <= w.hi[c]);
            }
        }
        assert(chain_ok(ps2, w, c)) by {
            let nx = header(p).link;
            assert(chain_ok(ps, w, c));
        }
    }
}

/// Every other node stays in order when the waiting child enters.
pub proof fn lemma_place_other(
    ps: Seq<Seq<u8>>,
    ps2: Seq<Seq<u8>>,
    np: u32,
    lim: Limits,
    w: Shape,
    n: u32,
    c: u32,
    g: int,
    x: u32,
)
    requires
        pending(ps, np, lim, w, n, c, g),
        header(ps[n as int]).count < lim.internal_max_cells,
        ps2.len() == ps.len(),
        forall|y: int| 0 <= y < ps.len() && y != n && y != c ==> ps2[y] == ps[y],
        reparented(ps[c as int], ps2[c as int], n),
        exists|lo_c: int, cmax: u32| entered(ps[n as int], ps2[n as int], c, lo_c, cmax, g),
        w.live.contains(x),
        x != n,
        x != c,
    ensures
        node_ok(ps2, np, lim, w, x),
{
    assert(node_ok(ps, np, lim, w, x));
    let p = ps[x as int];
    let (lo_c, cmax) = choose|lo_c: int, cmax: u32|
        entered(ps[n as int], ps2[n as int], c, lo_c, cmax, g);
    if x != root_page() {
        let par = header(p).parent;
        let i = choose|i: int|
            0 <= i <= header(ps[par as int]).count && #[trigger] child_at(ps[par as int], i) == x;
        if par == n {
            let i2 = if i < g {
                i
            } else {
                i + 1
            };
            lemma_child_after(ps[n as int], ps2[n as int], c, lo_c, cmax, g, i2);
            assert(child_at(ps2[par as int], i2) == x);
        } else {
            if par == c {
                // a waiting child has no child that names it: it is one level too low
                assert(w.level[c] + 1 == w.level[n]);
                assert(node_core(ps, np, lim, w, c));
                assert(child_at(ps2[par as int], i) == x);
            } else {
                assert(node_ok(ps, np, lim, w, par));
                assert(child_at(ps2[par as int], i) == x);
            }
        }
        assert(linked(ps2, w, x));
    }
    if w.level[x] > 0 {
        assert forall|i: int| 0 <= i <= header(p).count implies agree(
            w,
            w,
            #[trigger] child_at(p, i),
        ) && header(ps2[child_at(p, i) as int]).parent == header(ps[child_at(p, i) as int]).parent by {
            assert(child_ok(ps, w, x, i));
            let y = child_at(p, i);
            assert(y != c);
            if y != n {
                assert(node_ok(ps, np, lim, w, y));
            }
        }
    }
    if w.level[x] == 0 && header(p).link != 0 {
        assert(chain_ok(ps, w, x));
    }
    lemma_node_frame(ps, ps2, np, np, lim, w, w, x);
}

/// While a child waits to enter, every node up to its level is in order by
/// itself and towards its children, and so is the rightmost child of the
/// node that it waits for.
pub proof fn lemma_pending_below(
    ps: Seq<Seq<u8>>,
    np: u32,
    lim: Limits,
    w: Shape,
    n: u32,
    c: u32,
    g: int,
)
    requires
        pending(ps, np, lim, w, n, c, g),
    ensures
        below_ok(ps, np, lim, w, w.level[c]),
        w.level[header(ps[n as int]).link] == w.level[c],
        w.live.contains(header(ps[n as int]).link),
        header(ps[n as int]).link != root_page(),
        header(ps[n as int]).link != c,
        header(ps[n as int]).link < np,
        n < np,
        c < np,
{
    assert forall|m: u32| w.live.contains(m) && w.level[m] <= w.level[c] implies #[trigger] node_core(
        ps,
        np,
        lim,
        w,
        m,
    ) by {
        if m != c {
            assert(node_ok(ps, np, lim, w, m));
        }
    }
    let p = ps[n as int];
    let cnt = header(p).count as int;
    assert(pend_child_ok(ps, w, n, cnt, c, g));
    let r = header(p).link;
    assert(child_at(p, cnt) == r);
    assert(child_at(p, cnt) != c);
    assert(node_ok(ps, np, lim, w, r));
}

/// The two halves of a split leaf are leaves in order: the first reaches up
/// to its last key, and the second starts there.
pub proof fn lemma_split_halves(
    p: Seq<u8>,
    q: Seq<u8>,
    r: Seq<u8>,
    lo: int,
    hi: int,
    idx: int,
    key: u32,
    value: Seq<u8>,
    left: int,
    leaf_max: int,
)
    requires
        leaf_ok(p, lo, hi, leaf_max),
        1 <= header(p).count == leaf_max <= LEAF_NODE_MAX_CELLS,
        left == spec_left_split_count(header(p).count),
        lo < key <= hi,
        leaf_lower_bound(p, key, idx),
        !(idx < header(p).count && leaf_key(p, idx) == key),
        leaf_cells_split(p, q, r, idx, key, value, left),
        header(q).kind == KIND_LEAF,
        header(r).kind == KIND_LEAF,
        header(q).count == left,
        header(r).count == header(p).count + 1 - left,
    ensures
        1 <= left <= header(p).count,
        header(r).count >= 1,
        lo < leaf_key(q, left - 1) < hi,
        leaf_ok(q, lo, leaf_key(q, left - 1) as int, leaf_max),
        leaf_ok(r, leaf_key(q, left - 1) as int, hi, leaf_max),
{
    let cnt = header(p).count as int;
    let m = leaf_key(q, left - 1) as int;
    // the merged cells are in strictly ascending order and in the interval
    assert forall|i: int, j: int|
        #![trigger merged_key(p, idx, key, i), merged_key(p, idx, key, j)]
        0 <= i < j <= cnt implies merged_key(p, idx, key, i) < merged_key(p, idx, key, j) by {
        let oi = if i < idx {
            i
        } else {
            i - 1
        };
        let oj = if j < idx {
            j
        } else {
            j - 1
        };
        if i != idx && j != idx {
            if oi < oj {
                assert(leaf_key(p, oi) < leaf_key(p, oj));
            }
        } else if i == idx {
            assert(key <= leaf_key(p, idx));
            if idx < oj {
                assert(leaf_key(p, idx) < leaf_key(p, oj));
            }
        } else {
            assert(leaf_key(p, idx - 1) < key);
            if oi < idx - 1 {
                assert(leaf_key(p, oi) < leaf_key(p, idx - 1));
            }
        }
    }
    assert forall|i: int| 0 <= i <= cnt implies lo < #[trigger] merged_key(p, idx, key, i) <= hi by {
        if i < idx {
            assert(lo < leaf_key(p, i) <= hi);
        } else if i > idx {
            assert(lo < leaf_key(p, i - 1) <= hi);
        }
    }
    assert(leaf_key(q, left - 1) == merged_key(p, idx, key, left - 1));
    assert(leaf_key(r, 0) == merged_key(p, idx, key, left));
    assert(merged_key(p, idx, key, left - 1) < merged_key(p, idx, key, left));
    assert(leaf_ok(q, lo, m, leaf_max)) by {
        assert forall|i: int, j: int| 0 <= i < j < header(q).count implies leaf_key(q, i)
            < leaf_key(q, j) by {
            assert(leaf_key(q, i) == merged_key(p, idx, key, i));
            assert(leaf_key(q, j) == merged_key(p, idx, key, j));
        }
        assert forall|i: int| 0 <= i < header(q).count implies lo < #[trigger] leaf_key(q, i)
            <= m by {
            assert(leaf_key(q, i) == merged_key(p, idx, key, i));
            if i < left - 1 {
                assert(merged_key(p, idx, key, i) < merged_key(p, idx, key, left - 1));
            }
        }
    }
    assert(leaf_ok(r, m, hi, leaf_max)) by {
        assert forall|i: int, j: int| 0 <= i < j < header(r).count implies leaf_key(r, i)
            < leaf_key(r, j) by {
            assert(leaf_key(r, i) == merged_key(p, idx, key, left + i));
            assert(leaf_key(r, j) == merged_key(p, idx, key, left + j));
        }
        assert forall|i: int| 0 <= i < header(r).count implies m < #[trigger] leaf_key(r, i)
            <= hi by {
            assert(leaf_key(r, i) == merged_key(p, idx, key, left + i));
            assert(merged_key(p, idx, key, left - 1) < merged_key(p, idx, key, left + i));
        }
        if hi < key_inf() {
            assert(leaf_key(p, cnt - 1) == hi);
            assert(idx <= cnt - 1);
            assert(leaf_key(r, cnt - left) == merged_key(p, idx, key, cnt));
        }
    }
}

/// Whether `m` is a leaf of the tree.
pub open spec fn is_leaf(w: Shape, m: u32) -> bool {
    w.live.contains(m) && w.level[m] == 0
}

/// The rows after a leaf was split: the cells of leaf `n`, with the new
/// cell among them, now stand in the leaves `a` and `b`, and every other
/// leaf is as it was.
pub proof fn lemma_split_rows(
    ps: Seq<Seq<u8>>,
    np: u32,
    lim: Limits,
    w: Shape,
    ps2: Seq<Seq<u8>>,
    w2: Shape,
    n: u32,
    a: u32,
    b: u32,
    idx: int,
    key: u32,
    value: Seq<u8>,
    left: int,
)
    requires
        tree_ok(ps, np, lim, w),
        is_leaf(w, n),
        !contents(ps, w).contains_key(key),
        0 <= idx <= header(ps[n as int]).count < u32::MAX,
        1 <= left <= header(ps[n as int]).count,
        a != b,
        !is_leaf(w, b),
        a == n || !is_leaf(w, a),
        forall|m: u32| is_leaf(w2, m) <==> (is_leaf(w, m) && m != n) || m == a || m == b,
        forall|m: u32|
            is_leaf(w, m) && m != n ==> header(#[trigger] ps2[m as int]).count == header(
                ps[m as int],
            ).count && body(ps2[m as int]) == body(ps[m as int]),
        header(ps2[a as int]).count == left,
        header(ps2[b as int]).count == header(ps[n as int]).count + 1 - left,
        leaf_cells_split(ps[n as int], ps2[a as int], ps2[b as int], idx, key, value, left),
    ensures
        rows_are(ps2, w2, contents(ps, w).insert(key, value)),
{
    let p = ps[n as int];
    let q = ps2[a as int];
    let r = ps2[b as int];
    let cnt = header(p).count as int;
    let rows = contents(ps, w).insert(key, value);
    lemma_contents_rows(ps, np, lim, w);
    // where each cell of the two halves comes from
    assert forall|m: u32, i: int, k: u32| #[trigger] holds(ps2, w2, m, i, k) implies rows.dom().contains(
        k,
    ) && rows[k] == leaf_value(ps2[m as int], i) by {
        if m == a || m == b {
            let j = if m == a {
                i
            } else {
                left + i
            };
            if m == a {
                assert(leaf_key(q, i) == merged_key(p, idx, key, j));
                assert(leaf_value(q, i) == merged_value(p, idx, value, j));
            } else {
                assert(leaf_key(r, i) == merged_key(p, idx, key, j));
                assert(leaf_value(r, i) == merged_value(p, idx, value, j));
            }
            if j < idx {
                assert(holds(ps, w, n, j, k));
                assert(has_key(ps, w, k));
            } else if j > idx {
                assert(holds(ps, w, n, j - 1, k));
                assert(has_key(ps, w, k));
            }
        } else {
            assert(is_leaf(w2, m));
            assert(is_leaf(w, m) && m != n);
            assert(header(ps2[m as int]).count == header(ps[m as int]).count);
            assert(holds(ps, w, m, i, k));
            assert(has_key(ps, w, k));
        }
    }
    assert forall|k: u32| has_key(ps2, w2, k) == #[trigger] rows.dom().contains(k) by {
        if has_key(ps2, w2, k) {
            let (m, i) = choose|m: u32, i: int| holds(ps2, w2, m, i, k);
            assert(holds(ps2, w2, m, i, k));
        }
        if rows.dom().contains(k) {
            let j = if k == key {
                idx
            } else {
                assert(has_key(ps, w, k));
                let (m, i) = choose|m: u32, i: int| holds(ps, w, m, i, k);
                if m == n {
                    if i < idx {
                        i
                    } else {
                        i + 1
                    }
                } else {
                    assert(is_leaf(w2, m));
                    assert(header(ps2[m as int]).count == header(ps[m as int]).count);
                    assert(holds(ps2, w2, m, i, k));
                    -1
                }
            };
            if j >= 0 {
                assert(merged_key(p, idx, key, j) == k);
                if j < left {
                    assert(leaf_key(q, j) == merged_key(p, idx, key, j));
                    assert(is_leaf(w2, a));
                    assert(holds(ps2, w2, a, j, k));
                } else {
                    assert(leaf_key(r, j - left) == merged_key(p, idx, key, left + (j - left)));
                    assert(is_leaf(w2, b));
                    assert(holds(ps2, w2, b, j - left, k));
                }
            }
        }
    }
}

/// The shape after leaf `n` was split at key `m` and page `b` took the
/// upper half.
pub open spec fn shape_leaf_split(w: Shape, n: u32, b: u32, m: int) -> Shape {
    Shape {
        live: w.live.insert(b),
        level: w.level.insert(b, 0),
        lo: w.lo.insert(b, m),
        hi: w.hi.insert(n, m).insert(b, w.hi[n]),
    }
}

/// The pages `ps2` are the pages `ps` after leaf `n`, which was full, has
/// been split for the entry of a cell at place `idx`: the upper half stands
/// in page `b`, which is the leaf to the right of `n` now, and the key that
/// the parent had for `n` has been replaced.
pub open spec fn leaf_split_done(
    ps: Seq<Seq<u8>>,
    ps2: Seq<Seq<u8>>,
    n: u32,
    b: u32,
    idx: int,
    key: u32,
    value: Seq<u8>,
) -> bool {
    let p = ps[n as int];
    let par = header(p).parent;
    let left = spec_left_split_count(header(p).count) as int;
    &&& ps2.len() == ps.len()
    &&& forall|x: int| 0 <= x < ps.len() ==> (#[trigger] ps2[x]).len() == PAGE_SIZE
    &&& forall|x: int|
        0 <= x < ps.len() && x != n && x != b && x != par ==> #[trigger] ps2[x] == ps[x]
    &&& header(ps2[n as int]) == (Header { count: left as u32, link: b, ..header(p) })
    &&& header(ps2[b as int]).kind == KIND_LEAF
    &&& !header(ps2[b as int]).root
    &&& header(ps2[b as int]).count == header(p).count + 1 - left
    &&& header(ps2[b as int]).link == header(p).link
    &&& leaf_cells_split(p, ps2[n as int], ps2[b as int], idx, key, value, left)
    &&& key_updated(
        ps[par as int],
        ps2[par as int],
        leaf_key(p, header(p).count - 1),
        leaf_key(ps2[n as int], left - 1),
    )
}

/// The page number after `np`.
pub open spec fn succ_page(np: u32) -> u32 {
    (np + 1) as u32
}

/// The key at which leaf `n` was split: the last key of its lower half.
pub open spec fn split_point(ps: Seq<Seq<u8>>, ps2: Seq<Seq<u8>>, n: u32) -> int {
    leaf_key(ps2[n as int], spec_left_split_count(header(ps[n as int]).count) - 1) as int
}

/// After a leaf that is not the root was split, its upper half waits to
/// enter the parent right behind it.
pub proof fn lemma_leaf_split_pending(
    ps: Seq<Seq<u8>>,
    np: u32,
    lim: Limits,
    w: Shape,
    ps2: Seq<Seq<u8>>,
    n: u32,
    idx: int,
    key: u32,
    value: Seq<u8>,
)
    requires
        tree_ok(ps, np, lim, w),
        is_leaf(w, n),
        n != root_page(),
        np < TABLE_MAX_PAGES,
        w.lo[n] < key <= w.hi[n],
        leaf_lower_bound(ps[n as int], key, idx),
        !(idx < header(ps[n as int]).count && leaf_key(ps[n as int], idx) == key),
        header(ps[n as int]).count == lim.leaf_max_cells,
        leaf_split_done(ps, ps2, n, np, idx, key, value),
    ensures
        exists|g: int| #[trigger]
            pending(
                ps2,
                succ_page(np),
                lim,
                shape_leaf_split(w, n, np, split_point(ps, ps2, n)),
                header(ps[n as int]).parent,
                np,
                g,
            ),
        header(ps2[header(ps[n as int]).parent as int]) == header(
            ps[header(ps[n as int]).parent as int],
        ),
{
    reveal(tree_ok);
    let p = ps[n as int];
    let q = ps2[n as int];
    let b = np;
    let r = ps2[b as int];
    let par = header(p).parent;
    let pp = ps[par as int];
    let pq = ps2[par as int];
    let cnt = header(p).count as int;
    let left = spec_left_split_count(header(p).count) as int;
    let m = leaf_key(q, left - 1) as int;
    let w2 = shape_leaf_split(w, n, b, m);
    let np2 = (np + 1) as u32;
    let old_max = leaf_key(p, cnt - 1);
    assert(node_ok(ps, np, lim, w, n));
    assert(node_ok(ps, np, lim, w, par));
    lemma_split_halves(p, q, r, w.lo[n], w.hi[n], idx, key, value, left, lim.leaf_max_cells as int);
    let j = choose|j: int| 0 <= j <= header(pp).count && #[trigger] child_at(pp, j) == n;
    let pc = header(pp).count as int;
    assert(child_ok(ps, w, par, j));
    assert(!w.live.contains(b)) by {
        if w.live.contains(b) {
            assert(node_ok(ps, np, lim, w, b));
        }
    }
    assert(par != n && par != b);
    // what the replacement of the key has done to the parent
    lemma_parent_key(ps, np, lim, w, n, j, old_max);
    assert(internal_lower_bound(pp, old_max, j));
    assert(header(pq) == header(pp));
    assert forall|i: int| 0 <= i <= pc implies child_at(pq, i) == child_at(pp, i) by {
        if i < pc && i != j {
            assert(internal_child(pq, i) == internal_child(pp, i));
        }
    }
    assert forall|i: int| 0 <= i < pc implies #[trigger] internal_key(pq, i) == (if i == j {
        m as u32
    } else {
        internal_key(pp, i)
    }) by {
        if i != j {
            assert(internal_child(pq, i) == internal_child(pp, i));
        }
    }
    assert forall|i: int| 0 <= i <= pc implies #[trigger] pend_child_ok(ps2, w2, par, i, b, j + 1) by {
        assert(child_ok(ps, w, par, i));
        let x = child_at(pp, i);
        assert(node_ok(ps, np, lim, w, x));
        if i != j {
            lemma_siblings_apart(ps, w, par, lim.internal_max_cells as int, if i < j {
                i
            } else {
                j
            }, if i < j {
                j
            } else {
                i
            });
            assert(x != n);
        }
        if i > 0 {
            assert(internal_key(pq, i - 1) == (if i - 1 == j {
                m as u32
            } else {
                internal_key(pp, i - 1)
            }));
        }
    }
    assert(keys_sorted(pq)) by {
        assert forall|i1: int, i2: int| 0 <= i1 < i2 < pc implies internal_key(pq, i1)
            < internal_key(pq, i2) by {
            assert(internal_key(pp, i1) < internal_key(pp, i2));
            assert(child_ok(ps, w, par, j));
            if i1 == j {
                // the new key is below the old one
            } else if i2 == j {
                // the new key is above the lower bound of the leaf
                if i1 < j - 1 {
                    assert(internal_key(pp, i1) < internal_key(pp, j - 1));
                }
            }
        }
    }
    assert(pend_internal(ps2, w2, par, b, j + 1, lim.internal_max_cells as int));
    assert(unlisted(ps2, w2, b)) by {
        assert forall|x: u32, i: int|
            w2.live.contains(x) && w2.level[x] > 0 && 0 <= i <= header(
                ps2[x as int],
            ).count implies #[trigger] child_at(ps2[x as int], i) != b by {
            assert(node_ok(ps, np, lim, w, x));
            if x == par {
                assert(child_at(pq, i) == child_at(pp, i));
            }
            assert(child_ok(ps, w, x, i));
            assert(w.live.contains(child_at(ps[x as int], i)));
        }
    }
    assert forall|x: u32| w2.live.contains(x) && x != par && x != b implies #[trigger] node_ok(
        ps2,
        np2,
        lim,
        w2,
        x,
    ) by {
        assert(node_ok(ps, np, lim, w, x));
        if x == n {
            assert(child_at(pq, j) == n);
            lemma_split_self(ps, np, lim, w, ps2, n, b, m, j);
        } else {
            lemma_split_other(ps, np, lim, w, ps2, n, b, m, par, x);
        }
    }
    assert(node_core(ps2, np2, lim, w2, b)) by {
        assert(chain_ok(ps, w, n));
        let nx = header(p).link;
        if nx != 0 {
            assert(w.lo[nx] == w.hi[n]);
            assert(nx != n);
            assert(nx != b);
        }
        assert(chain_ok(ps2, w2, b));
    }
    assert(node_base(ps2, np2, w2, par));
    if par != root_page() {
        let gp = header(pp).parent;
        assert(node_ok(ps, np, lim, w, gp));
        assert(gp != n && gp != b && gp != par);
        let t = choose|t: int|
            0 <= t <= header(ps[gp as int]).count && #[trigger] child_at(ps[gp as int], t) == par;
        assert(child_at(ps2[gp as int], t) == par);
        assert(linked(ps2, w2, par));
    }
    assert(pending(ps2, np2, lim, w2, par, b, j + 1));
    assert(np2 == succ_page(np));
    assert(m == split_point(ps, ps2, n));
    assert(pending(
        ps2,
        succ_page(np),
        lim,
        shape_leaf_split(w, n, np, split_point(ps, ps2, n)),
        header(ps[n as int]).parent,
        np,
        j + 1,
    ));
}

/// The key that a parent holds for its child `j` is where a key of that
/// child's subtree belongs among the parent's keys, if the key is the
/// largest under the child.
pub proof fn lemma_parent_key(
    ps: Seq<Seq<u8>>,
    np: u32,
    lim: Limits,
    w: Shape,
    n: u32,
    j: int,
    k: u32,
)
    requires
        tree_ok(ps, np, lim, w),
        w.live.contains(n),
        n != root_page(),
        0 <= j <= header(ps[header(ps[n as int]).parent as int]).count,
        child_at(ps[header(ps[n as int]).parent as int], j) == n,
        w.lo[n] < k <= w.hi[n],
    ensures
        internal_lower_bound(ps[header(ps[n as int]).parent as int], k, j),
{
    reveal(tree_ok);
    let par = header(ps[n as int]).parent;
    let pp = ps[par as int];
    let pc = header(pp).count as int;
    assert(node_ok(ps, np, lim, w, n));
    assert(node_ok(ps, np, lim, w, par));
    assert(child_ok(ps, w, par, j));
    assert forall|i: int| 0 <= i < j implies #[trigger] internal_key(pp, i) < k by {
        if i < j - 1 {
            assert(internal_key(pp, i) < internal_key(pp, j - 1));
        }
    }
    assert forall|i: int| j <= i < pc implies k <= #[trigger] internal_key(pp, i) by {
        if j < i {
            assert(internal_key(pp, j) < internal_key(pp, i));
        }
    }
}

/// A node that is neither the split leaf, nor its new sibling, nor their
/// parent stays in order through the split.
pub proof fn lemma_split_other(
    ps: Seq<Seq<u8>>,
    np: u32,
    lim: Limits,
    w: Shape,
    ps2: Seq<Seq<u8>>,
    n: u32,
    b: u32,
    m: int,
    par: u32,
    x: u32,
)
    requires
        tree_ok(ps, np, lim, w),
        is_leaf(w, n),
        n != root_page(),
        par == header(ps[n as int]).parent,
        b == np,
        np < TABLE_MAX_PAGES,
        ps2.len() == ps.len(),
        forall|y: int|
            0 <= y < ps.len() && y != n && y != b && y != par ==> #[trigger] ps2[y] == ps[y],
        header(ps2[par as int]) == header(ps[par as int]),
        forall|i: int|
            0 <= i <= header(ps[par as int]).count ==> child_at(ps2[par as int], i) == child_at(
                ps[par as int],
                i,
            ),
        header(ps2[n as int]).parent == header(ps[n as int]).parent,
        w.live.contains(x),
        x != n,
        x != b,
        x != par,
    ensures
        node_ok(ps2, (np + 1) as u32, lim, shape_leaf_split(w, n, b, m), x),
{
    reveal(tree_ok);
    let w2 = shape_leaf_split(w, n, b, m);
    assert(node_ok(ps, np, lim, w, x));
    assert(node_ok(ps, np, lim, w, n));
    let p = ps[x as int];
    assert(!w.live.contains(b)) by {
        if w.live.contains(b) {
            assert(node_ok(ps, np, lim, w, b));
        }
    }
    if x != root_page() {
        let xp = header(p).parent;
        assert(node_ok(ps, np, lim, w, xp));
        let i = choose|i: int|
            0 <= i <= header(ps[xp as int]).count && #[trigger] child_at(ps[xp as int], i) == x;
        assert(ps2[x as int] == ps[x as int]);
        assert(xp != n);
        assert(xp != b);
        assert(header(ps2[xp as int]).count == header(ps[xp as int]).count);
        assert(child_at(ps2[xp as int], i) == x);
        assert(w2.live.contains(xp));
        assert(w2.level[xp] == w2.level[x] + 1);
        assert(linked(ps2, w2, x));
    }
    if w.level[x] > 0 {
        assert forall|i: int| 0 <= i <= header(p).count implies agree(
            w,
            w2,
            #[trigger] child_at(p, i),
        ) && header(ps2[child_at(p, i) as int]).parent == header(ps[child_at(p, i) as int]).parent by {
            assert(child_ok(ps, w, x, i));
            let y = child_at(p, i);
            assert(node_ok(ps, np, lim, w, y));
            // the split leaf is the child of its parent alone
            if y == n {
                assert(header(ps[n as int]).parent == x);
            }
        }
    } else {
        if header(p).link != 0 {
            assert(chain_ok(ps, w, x));
        }
    }
    lemma_node_frame(ps, ps2, np, (np + 1) as u32, lim, w, w2, x);
}

/// The lower half of a split leaf is in order.
pub proof fn lemma_split_self(
    ps: Seq<Seq<u8>>,
    np: u32,
    lim: Limits,
    w: Shape,
    ps2: Seq<Seq<u8>>,
    n: u32,
    b: u32,
    m: int,
    j: int,
)
    requires
        node_ok(ps, np, lim, w, n),
        is_leaf(w, n),
        n != root_page(),
        b == np,
        np < TABLE_MAX_PAGES,
        !w.live.contains(b),
        b != 0,
        header(ps2[n as int]) == (Header {
            count: header(ps2[n as int]).count,
            link: b,
            ..header(ps[n as int])
        }),
        header(ps2[n as int]).count >= 1,
        w.lo[n] < m < w.hi[n],
        leaf_ok(ps2[n as int], w.lo[n], m, lim.leaf_max_cells as int),
        0 <= j <= header(ps2[header(ps[n as int]).parent as int]).count,
        child_at(ps2[header(ps[n as int]).parent as int], j) == n,
    ensures
        node_ok(ps2, (np + 1) as u32, lim, shape_leaf_split(w, n, b, m), n),
{
    let w2 = shape_leaf_split(w, n, b, m);
    let par = header(ps[n as int]).parent;
    assert(header(ps2[n as int]).parent == par);
    assert(w2.live.contains(par));
    assert(par != b);
    assert(w2.level[par] == w2.level[n] + 1);
    assert(linked(ps2, w2, n));
    assert(w2.hi[n] == m);
    assert(w2.lo[n] == w.lo[n]);
    assert(w2.lo[b] == m);
    assert(chain_ok(ps2, w2, n));
    assert(node_base(ps2, (np + 1) as u32, w2, n));
}

/// The pages `ps2` are the pages `ps` after leaf `n`, which was full, has
/// been cut in two for the entry of a cell at place `idx`: the upper half
/// stands in page `b`, which is the leaf to the right of `n` now.
pub open spec fn leaf_halved(
    ps: Seq<Seq<u8>>,
    ps2: Seq<Seq<u8>>,
    n: u32,
    b: u32,
    idx: int,
    key: u32,
    value: Seq<u8>,
) -> bool {
    let p = ps[n as int];
    let left = spec_left_split_count(header(p).count) as int;
    &&& ps2.len() == ps.len()
    &&& forall|x: int| 0 <= x < ps.len() ==> (#[trigger] ps2[x]).len() == PAGE_SIZE
    &&& forall|x: int| 0 <= x < ps.len() && x != n && x != b ==> #[trigger] ps2[x] == ps[x]
    &&& header(ps2[n as int]) == (Header { count: left as u32, link: b, ..header(p) })
    &&& header(ps2[b as int]).kind == KIND_LEAF
    &&& !header(ps2[b as int]).root
    &&& header(ps2[b as int]).count == header(p).count + 1 - left
    &&& header(ps2[b as int]).link == header(p).link
    &&& leaf_cells_split(p, ps2[n as int], ps2[b as int], idx, key, value, left)
}

/// The shape after a root that was a leaf was split at key `m`: page `a`
/// holds the lower half and page `b` the upper half, and the root is an
/// internal node above the two.
pub open spec fn shape_root_leaf_split(w: Shape, a: u32, b: u32, m: int) -> Shape {
    Shape {
        live: w.live.insert(a).insert(b),
        level: w.level.insert(root_page(), 1).insert(a, 0).insert(b, 0),
        lo: w.lo.insert(a, -1).insert(b, m),
        hi: w.hi.insert(a, m).insert(b, key_inf()),
    }
}

/// A tree whose root is a leaf has no other node.
pub proof fn lemma_only_root(ps: Seq<Seq<u8>>, np: u32, lim: Limits, w: Shape, x: u32)
    requires
        tree_ok(ps, np, lim, w),
        w.level[root_page()] == 0,
        w.live.contains(x),
    ensures
        x == root_page(),
{
    reveal(tree_ok);
    assert(node_ok(ps, np, lim, w, x));
    if x != root_page() {
        assert(node_ok(ps, np, lim, w, header(ps[x as int]).parent));
    }
}

/// After a root that was a leaf was split and promoted, the pages hold a
/// tree of three nodes, with the rows that were there and the new one.
pub proof fn lemma_root_leaf_split(
    ps: Seq<Seq<u8>>,
    np: u32,
    lim: Limits,
    w: Shape,
    ps1: Seq<Seq<u8>>,
    ps3: Seq<Seq<u8>>,
    idx: int,
    key: u32,
    value: Seq<u8>,
)
    requires
        tree_ok(ps, np, lim, w),
        w.level[root_page()] == 0,
        np + 2 <= TABLE_MAX_PAGES,
        leaf_lower_bound(ps[0], key, idx),
        !(idx < header(ps[0]).count && leaf_key(ps[0], idx) == key),
        header(ps[0]).count == lim.leaf_max_cells,
        leaf_halved(ps, ps1, root_page(), np, idx, key, value),
        root_promoted(ps1, ps3, succ_page(np), np, split_point(ps, ps1, root_page()) as u32),
        forall|x: int| 0 <= x < ps.len() ==> (#[trigger] ps3[x]).len() == PAGE_SIZE,
    ensures
        tree_ok(
            ps3,
            (np + 2) as u32,
            lim,
            shape_root_leaf_split(w, succ_page(np), np, split_point(ps, ps1, root_page())),
        ),
        rows_are(
            ps3,
            shape_root_leaf_split(w, succ_page(np), np, split_point(ps, ps1, root_page())),
            contents(ps, w).insert(key, value),
        ),
{
    let a = succ_page(np);
    let b = np;
    let p = ps[0];
    let q = ps1[0];
    let r = ps1[b as int];
    let left = spec_left_split_count(header(p).count) as int;
    let m = split_point(ps, ps1, root_page());
    let w3 = shape_root_leaf_split(w, a, b, m);
    let np3 = (np + 2) as u32;
    lemma_tree_basics(ps, np, lim, w);
    lemma_tree_node(ps, np, lim, w, root_page());
    lemma_split_halves(p, q, r, -1, key_inf(), idx, key, value, left, lim.leaf_max_cells as int);
    assert forall|x: u32| w.live.contains(x) implies x == root_page() by {
        lemma_only_root(ps, np, lim, w, x);
    }
    assert(!is_child_of(q, 0));
    let q3 = ps3[a as int];
    let r3 = ps3[b as int];
    assert(body(q3) == body(q));
    assert(body(r3) == body(r));
    assert(leaf_ok(q3, -1, m, lim.leaf_max_cells as int)) by {
        assert forall|i: int, j: int| 0 <= i < j < header(q3).count implies leaf_key(q3, i)
            < leaf_key(q3, j) by {
            assert(leaf_key(q, i) < leaf_key(q, j));
        }
        assert forall|i: int| 0 <= i < header(q3).count implies -1 < #[trigger] leaf_key(q3, i)
            <= m by {
            assert(-1 < leaf_key(q, i) <= m);
        }
    }
    assert(leaf_ok(r3, m, key_inf(), lim.leaf_max_cells as int)) by {
        assert forall|i: int, j: int| 0 <= i < j < header(r3).count implies leaf_key(r3, i)
            < leaf_key(r3, j) by {
            assert(leaf_key(r, i) < leaf_key(r, j));
        }
        assert forall|i: int| 0 <= i < header(r3).count implies m < #[trigger] leaf_key(r3, i)
            <= key_inf() by {
            assert(m < leaf_key(r, i) <= key_inf());
        }
    }
    assert(child_at(ps3[0], 0) == a);
    assert(child_at(ps3[0], 1) == b);
    assert(node_ok(ps3, np3, lim, w3, root_page())) by {
        assert(keys_sorted(ps3[0]));
        assert forall|i: int| 0 <= i <= 1 implies #[trigger] child_ok(ps3, w3, root_page(), i) by {
            if i == 0 {
                assert(child_lo(ps3[0], w3.lo[root_page()], 0) == -1);
            }
        }
        assert(internal_ok(ps3, w3, root_page(), lim.internal_max_cells as int));
    }
    assert(node_ok(ps3, np3, lim, w3, a)) by {
        assert(linked(ps3, w3, a));
        assert(chain_ok(ps3, w3, a));
    }
    assert(node_ok(ps3, np3, lim, w3, b)) by {
        assert(chain_ok(ps, w, root_page()));
        assert(linked(ps3, w3, b));
        assert(chain_ok(ps3, w3, b));
    }
    assert forall|x: u32| w3.live.contains(x) implies #[trigger] node_ok(ps3, np3, lim, w3, x) by {
        if x != a && x != b {
            assert(w.live.contains(x));
        }
    }
    lemma_tree_def(ps3, np3, lim, w3);
    // the rows
    lemma_key_at_its_place(ps, np, lim, w, key, root_page(), idx);
    assert forall|x: u32| is_leaf(w3, x) <==> (is_leaf(w, x) && x != root_page()) || x == a || x
        == b by {
        if is_leaf(w, x) {
            assert(x == root_page());
        }
    }
    assert(leaf_cells_split(p, q3, r3, idx, key, value, left)) by {
        assert forall|i: int|
            #![trigger leaf_key(q3, i)]
            0 <= i < left implies leaf_key(q3, i) == merged_key(p, idx, key, i) && leaf_value(q3, i)
                == merged_value(p, idx, value, i) by {
            assert(leaf_key(q, i) == merged_key(p, idx, key, i));
        }
        assert forall|i: int|
            #![trigger leaf_key(r3, i)]
            0 <= i < header(p).count + 1 - left implies leaf_key(r3, i) == merged_key(
                p,
                idx,
                key,
                left + i,
            ) && leaf_value(r3, i) == merged_value(p, idx, value, left + i) by {
            assert(leaf_key(r, i) == merged_key(p, idx, key, left + i));
        }
    }
    lemma_split_rows(ps, np, lim, w, ps3, w3, root_page(), a, b, idx, key, value, left);
}

} // verus!
