//! Why the split of an internal node keeps the tree in order.

use crate::btree::{
    is_child_from, is_child_of, key_updated, placed, root_promoted, upper_half_moved,
};
use crate::btree::same_above;
use crate::grow::{lemma_pending_below, succ_page};
use crate::tree::{lemma_max_key, lemma_rightmost_holds_key, lemma_walkable, node_max_key, walkable};
use crate::tree::{lemma_tree_def, tree_ok};
use crate::tree::{kept_below, same_leaf, same_leaves};
use crate::tree::lemma_siblings_apart;
use crate::grow::{
    agree, child_after, entered, lemma_node_frame, lemma_still_linked, pend_child_ok,
    pend_internal, pending, reparented, same_kids, unlisted,
};
use crate::node::leaf_key;
use crate::tree::{chain_ok, leaf_ok, linked};
use crate::node::{
    body, child_at, header, internal_cell_inserted, internal_child, internal_key, merged_cell,
    Header, INTERNAL_NODE_SLOTS, INVALID_PAGE_NUM, KIND_INTERNAL,
};
use crate::pager::{PAGE_SIZE, TABLE_MAX_PAGES};
use crate::tree::{
    child_lo, child_ok, internal_lower_bound, internal_ok, key_inf, keys_sorted, node_base,
    node_core, node_ok, root_page, Limits, Shape,
};
use vstd::prelude::*;

verus! {

/// The children of the internal node in page `p` once `c` has entered as
/// child `g`, in their order.
pub open spec fn kids(p: Seq<u8>, c: u32, g: int) -> Seq<u32> {
    Seq::new((header(p).count + 2) as nat, |i: int| child_after(p, c, g, i))
}

/// Node `i + 1` of `ks` starts where node `i` ends.
pub open spec fn adjacent(w: Shape, ks: Seq<u32>, i: int) -> bool {
    w.hi[ks[i]] == w.lo[ks[i + 1]]
}

/// The nodes `ks` stand side by side on the level below `level`: each
/// starts where the one before ends, the first at `lo` and the last up to
/// `hi`.
pub open spec fn kids_chain(w: Shape, ks: Seq<u32>, lo: int, hi: int, level: nat) -> bool {
    &&& ks.len() >= 1
    &&& forall|i: int|
        0 <= i < ks.len() ==> w.live.contains(#[trigger] ks[i]) && w.level[ks[i]] + 1 == level
            && w.lo[ks[i]] < w.hi[ks[i]] <= key_inf() && ks[i] != root_page()
    &&& forall|i: int| 0 <= i < ks.len() - 1 ==> #[trigger] adjacent(w, ks, i)
    &&& w.lo[ks[0]] == lo
    &&& w.hi[ks[ks.len() - 1]] == hi
}

/// Page `q` holds an internal node whose children are the `n` nodes of
/// `ks` from place `off` on, each but the last under its upper bound as
/// key.
pub open spec fn holds_kids(q: Seq<u8>, w: Shape, ks: Seq<u32>, off: int, n: int) -> bool {
    &&& header(q).kind == KIND_INTERNAL
    &&& header(q).count == n - 1
    &&& forall|i: int| 0 <= i < n ==> #[trigger] child_at(q, i) == ks[off + i]
    &&& forall|i: int| 0 <= i < n - 1 ==> #[trigger] internal_key(q, i) == w.hi[ks[off + i]]
}

/// Nodes that stand side by side stand in ascending order.
pub proof fn lemma_chain_order(w: Shape, ks: Seq<u32>, lo: int, hi: int, level: nat, i: int, j: int)
    requires
        kids_chain(w, ks, lo, hi, level),
        0 <= i < j < ks.len(),
    ensures
        w.hi[ks[i]] <= w.lo[ks[j]],
        w.hi[ks[i]] < w.hi[ks[j]],
        w.lo[ks[i]] < w.lo[ks[j]],
        ks[i] != ks[j],
    decreases j - i,
{
    assert(adjacent(w, ks, i));
    if i + 1 < j {
        lemma_chain_order(w, ks, lo, hi, level, i + 1, j);
    }
}

/// Every node of the chain lies between the ends of the chain.
pub proof fn lemma_chain_bounds(w: Shape, ks: Seq<u32>, lo: int, hi: int, level: nat, j: int)
    requires
        kids_chain(w, ks, lo, hi, level),
        0 <= j < ks.len(),
    ensures
        lo <= w.lo[ks[j]],
        w.hi[ks[j]] <= hi,
{
    if 0 < j {
        lemma_chain_order(w, ks, lo, hi, level, 0, j);
    }
    if j < ks.len() - 1 {
        lemma_chain_order(w, ks, lo, hi, level, j, ks.len() - 1);
    }
}

/// An internal node whose children stand side by side, each under its upper
/// bound as key, is in order towards its children.
pub proof fn lemma_internal_from_kids(
    ps: Seq<Seq<u8>>,
    w: Shape,
    x: u32,
    ks: Seq<u32>,
    off: int,
    n: int,
    lo: int,
    hi: int,
    internal_max: int,
)
    requires
        holds_kids(ps[x as int], w, ks, off, n),
        1 <= n,
        n - 1 <= internal_max,
        0 <= off,
        off + n <= ks.len(),
        kids_chain(w, ks, lo, hi, w.level[x]),
        w.lo[x] == w.lo[ks[off]],
        w.hi[x] == w.hi[ks[off + n - 1]],
        forall|i: int| 0 <= i < n ==> header(ps[#[trigger] ks[off + i] as int]).parent == x,
        header(ps[x as int]).link != INVALID_PAGE_NUM,
    ensures
        internal_ok(ps, w, x, internal_max),
{
    let q = ps[x as int];
    assert forall|i: int, j: int| 0 <= i < j < header(q).count implies internal_key(q, i)
        < internal_key(q, j) by {
        lemma_chain_order(w, ks, lo, hi, w.level[x], off + i, off + j);
    }
    assert forall|i: int| 0 <= i <= header(q).count implies #[trigger] child_ok(ps, w, x, i) by {
        let c = child_at(q, i);
        assert(c == ks[off + i]);
        if i > 0 {
            assert(internal_key(q, i - 1) == w.hi[ks[off + (i - 1)]]);
            assert(adjacent(w, ks, off + i - 1));
        }
        if i < header(q).count {
            assert(internal_key(q, i) == w.hi[ks[off + i]]);
        }
    }
}

/// While a child waits to enter a node, the children of the node and the
/// waiting child stand side by side, and each cell of the node holds the
/// upper bound of its child as key.
pub proof fn lemma_pending_kids(
    ps: Seq<Seq<u8>>,
    np: u32,
    lim: Limits,
    w: Shape,
    n: u32,
    c: u32,
    g: int,
)
    requires
        pending(ps, np, lim, w, n, c, g),
    ensures
        kids_chain(w, kids(ps[n as int], c, g), w.lo[n], w.hi[n], w.level[n]),
        kids(ps[n as int], c, g).len() == header(ps[n as int]).count + 2,
        forall|i: int|
            0 <= i < header(ps[n as int]).count ==> #[trigger] internal_key(ps[n as int], i)
                == w.hi[child_at(ps[n as int], i)],
        forall|i: int|
            0 <= i <= header(ps[n as int]).count + 1 ==> #[trigger] kids(ps[n as int], c, g)[i]
                < np && kids(ps[n as int], c, g)[i] != n,
        forall|i: int|
            0 <= i <= header(ps[n as int]).count + 1 && i != g ==> #[trigger] kids(
                ps[n as int],
                c,
                g,
            )[i] != c && header(ps[kids(ps[n as int], c, g)[i] as int]).parent == n,
        kids(ps[n as int], c, g)[g] == c,
{
    let p = ps[n as int];
    let cnt = header(p).count as int;
    let ks = kids(p, c, g);
    assert forall|i: int| 0 <= i < cnt implies #[trigger] internal_key(p, i) == w.hi[child_at(
        p,
        i,
    )] by {
        assert(pend_child_ok(ps, w, n, i, c, g));
    }
    assert forall|i: int| 0 <= i <= cnt + 1 implies w.live.contains(#[trigger] ks[i])
        && w.level[ks[i]] + 1 == w.level[n] && w.lo[ks[i]] < w.hi[ks[i]] <= key_inf() && ks[i]
        != root_page() && ks[i] < np && ks[i] != n && (i != g ==> ks[i] != c && header(
        ps[ks[i] as int],
    ).parent == n) by {
        if i == g {
            assert(node_core(ps, np, lim, w, c));
        } else {
            let o = if i < g {
                i
            } else {
                i - 1
            };
            assert(pend_child_ok(ps, w, n, o, c, g));
            assert(child_at(p, o) != c);
            assert(node_ok(ps, np, lim, w, child_at(p, o)));
        }
    }
    assert forall|i: int| 0 <= i < ks.len() - 1 implies #[trigger] adjacent(w, ks, i) by {
        // the chain at the waiting child and everywhere else
        if i + 1 < g {
            assert(pend_child_ok(ps, w, n, i, c, g));
            assert(pend_child_ok(ps, w, n, i + 1, c, g));
        } else if i + 1 == g {
            assert(pend_child_ok(ps, w, n, i, c, g));
        } else if i == g {
            assert(pend_child_ok(ps, w, n, g, c, g));
        } else {
            assert(pend_child_ok(ps, w, n, i - 1, c, g));
            assert(pend_child_ok(ps, w, n, i, c, g));
        }
    }
    assert(pend_child_ok(ps, w, n, 0, c, g));
    assert(pend_child_ok(ps, w, n, cnt, c, g));
}

/// The two halves of an internal node that was split before the waiting
/// child has entered one of them: page `x1` keeps the cells before cell
/// `mid` and has the child of that cell for its rightmost child, and page
/// `q1` holds the cells behind and the old rightmost child.
pub open spec fn halves_before(p: Seq<u8>, x1: Seq<u8>, q1: Seq<u8>, mid: int) -> bool {
    &&& 0 <= mid < header(p).count
    &&& header(x1).kind == KIND_INTERNAL
    &&& header(x1).count == mid
    &&& header(x1).link == internal_child(p, mid)
    &&& body(x1) == body(p)
    &&& header(q1).kind == KIND_INTERNAL
    &&& header(q1).count == header(p).count - mid - 1
    &&& header(q1).link == header(p).link
    &&& forall|j: int|
        0 <= j < header(p).count - mid - 1 ==> #[trigger] internal_child(q1, j) == internal_child(
            p,
            mid + 1 + j,
        ) && internal_key(q1, j) == internal_key(p, mid + 1 + j)
}

/// How many of the children stand in the lower half once the waiting child
/// has entered as child `g`.
pub open spec fn lower_kids(g: int, mid: int) -> int {
    if g <= mid {
        mid + 2
    } else {
        mid + 1
    }
}

/// The waiting child belongs in the lower half if and only if its largest
/// key is below the key of cell `mid`.
pub proof fn lemma_destination(
    ps: Seq<Seq<u8>>,
    np: u32,
    lim: Limits,
    w: Shape,
    n: u32,
    c: u32,
    g: int,
    mid: int,
    cmax: u32,
)
    requires
        pending(ps, np, lim, w, n, c, g),
        0 <= mid < header(ps[n as int]).count,
        w.lo[c] < cmax <= w.hi[c],
    ensures
        cmax < internal_key(ps[n as int], mid) <==> g <= mid,
        internal_key(ps[n as int], mid) == w.hi[child_at(ps[n as int], mid)],
        w.lo[n] < internal_key(ps[n as int], mid) < w.hi[n],
{
    let p = ps[n as int];
    let ks = kids(p, c, g);
    lemma_pending_kids(ps, np, lim, w, n, c, g);
    let cnt = header(p).count as int;
    let km = if g <= mid {
        mid + 1
    } else {
        mid
    };
    assert(ks[km] == child_at(p, mid));
    assert(internal_key(p, mid) == w.hi[child_at(p, mid)]);
    if g < km {
        lemma_chain_order(w, ks, w.lo[n], w.hi[n], w.level[n], g, km);
    }
    if km < g {
        lemma_chain_order(w, ks, w.lo[n], w.hi[n], w.level[n], km, g);
    }
    lemma_chain_bounds(w, ks, w.lo[n], w.hi[n], w.level[n], km);
    lemma_chain_order(w, ks, w.lo[n], w.hi[n], w.level[n], km, cnt + 1);
    lemma_chain_bounds(w, ks, w.lo[n], w.hi[n], w.level[n], cnt + 1);
}

/// Where the waiting child belongs in the lower half, that half holds the
/// first children once the child has entered it, and the upper half holds
/// the rest.
pub proof fn lemma_halves_lower(
    ps: Seq<Seq<u8>>,
    np: u32,
    lim: Limits,
    w: Shape,
    n: u32,
    c: u32,
    g: int,
    mid: int,
    x1: Seq<u8>,
    q1: Seq<u8>,
    x2: Seq<u8>,
    cmax: u32,
)
    requires
        pending(ps, np, lim, w, n, c, g),
        halves_before(ps[n as int], x1, q1, mid),
        header(ps[n as int]).count < INTERNAL_NODE_SLOTS,
        g <= mid,
        w.lo[c] < cmax <= w.hi[c],
        w.hi[c] < key_inf() ==> cmax == w.hi[c],
        placed(x1, x2, c, cmax, internal_key(ps[n as int], mid)),
    ensures
        holds_kids(x2, w, kids(ps[n as int], c, g), 0, mid + 2),
        holds_kids(q1, w, kids(ps[n as int], c, g), mid + 2, header(ps[n as int]).count - mid),
        header(x2) == (Header { count: (mid + 1) as u32, ..header(x1) }),
{
    let p = ps[n as int];
    let cnt = header(p).count as int;
    let ks = kids(p, c, g);
    lemma_pending_kids(ps, np, lim, w, n, c, g);
    lemma_destination(ps, np, lim, w, n, c, g, mid, cmax);
    let s = internal_key(p, mid);
    // the chain around the waiting child
    if g >= 1 {
        assert(adjacent(w, ks, g - 1));
        assert(ks[g - 1] == child_at(p, g - 1));
        assert(internal_key(p, g - 1) == w.lo[c]);
    }
    assert(adjacent(w, ks, g));
    assert(ks[g + 1] == child_at(p, g));
    assert(cmax == w.hi[c]);
    assert(internal_key(p, g) > cmax) by {
        assert(internal_key(p, g) == w.hi[child_at(p, g)]);
        assert(w.lo[ks[g + 1]] < w.hi[ks[g + 1]]);
    }
    assert(keys_sorted(p));
    assert(internal_lower_bound(x1, cmax, g)) by {
        assert forall|i: int| 0 <= i < g implies #[trigger] internal_key(x1, i) < cmax by {
            if i < g - 1 {
                assert(internal_key(p, i) < internal_key(p, g - 1));
            }
        }
        assert forall|i: int| g <= i < header(x1).count implies cmax <= #[trigger] internal_key(
            x1,
            i,
        ) by {
            if g < i {
                assert(internal_key(p, g) < internal_key(p, i));
            }
        }
    }
    assert(internal_cell_inserted(x1, x2, g, c, cmax));
    assert forall|i: int| 0 <= i < mid + 2 implies #[trigger] child_at(x2, i) == ks[0 + i] by {
        if i <= mid {
            assert((internal_child(x2, i), internal_key(x2, i)) == merged_cell(x1, g, c, cmax, i));
        }
    }
    assert forall|i: int| 0 <= i < mid + 1 implies #[trigger] internal_key(x2, i) == w.hi[ks[0
        + i]] by {
        assert((internal_child(x2, i), internal_key(x2, i)) == merged_cell(x1, g, c, cmax, i));
        if i < g {
            assert(internal_key(p, i) == w.hi[child_at(p, i)]);
        } else if i > g {
            assert(internal_key(p, i - 1) == w.hi[child_at(p, i - 1)]);
        }
    }
    assert forall|i: int| 0 <= i < cnt - mid implies #[trigger] child_at(q1, i) == ks[mid + 2
        + i] by {
        if i < cnt - mid - 1 {
            assert(internal_child(q1, i) == internal_child(p, mid + 1 + i));
        }
    }
    assert forall|i: int| 0 <= i < cnt - mid - 1 implies #[trigger] internal_key(q1, i)
        == w.hi[ks[mid + 2 + i]] by {
        assert(internal_child(q1, i) == internal_child(p, mid + 1 + i));
        assert(internal_key(p, mid + 1 + i) == w.hi[child_at(p, mid + 1 + i)]);
    }
}

/// What is known of the children of a node while a child waits to enter
/// it as child `g`.
pub open spec fn kids_known(p: Seq<u8>, w: Shape, c: u32, g: int, lo: int, hi: int, level: nat) -> bool {
    &&& kids_chain(w, kids(p, c, g), lo, hi, level)
    &&& 0 <= g <= header(p).count + 1
    &&& header(p).count < INTERNAL_NODE_SLOTS
    &&& keys_sorted(p)
    &&& forall|i: int|
        0 <= i < header(p).count ==> #[trigger] internal_key(p, i) == w.hi[child_at(p, i)]
}

/// Where the waiting child is the last of all children, it becomes the
/// rightmost child of the upper half.
pub proof fn lemma_upper_append(
    p: Seq<u8>,
    w: Shape,
    c: u32,
    g: int,
    lo: int,
    hi: int,
    level: nat,
    mid: int,
    x1: Seq<u8>,
    q1: Seq<u8>,
    q2: Seq<u8>,
    cmax: u32,
    rmax: u32,
)
    requires
        kids_known(p, w, c, g, lo, hi, level),
        halves_before(p, x1, q1, mid),
        g == header(p).count + 1,
        w.lo[c] < cmax <= w.hi[c],
        w.lo[header(p).link] < rmax <= w.hi[header(p).link],
        w.hi[header(p).link] < key_inf() ==> rmax == w.hi[header(p).link],
        placed(q1, q2, c, cmax, rmax),
    ensures
        holds_kids(q2, w, kids(p, c, g), mid + 1, header(p).count - mid + 1),
        header(q2).kind == header(q1).kind,
        header(q2).root == header(q1).root,
        header(q2).parent == header(q1).parent,
{
    let cnt = header(p).count as int;
    let cq = cnt - mid - 1;
    let ks = kids(p, c, g);
    let r = header(p).link;
    assert(ks[cnt] == r);
    assert(ks[cnt + 1] == c);
    assert(adjacent(w, ks, cnt));
    assert(w.lo[ks[cnt + 1]] < w.hi[ks[cnt + 1]] <= key_inf());
    assert(rmax == w.lo[c]);
    assert(cmax > rmax);
    assert forall|i: int| 0 <= i < cq + 2 implies #[trigger] child_at(q2, i) == ks[mid + 1 + i] by {
        if i < cq {
            assert(internal_child(q2, i) == internal_child(q1, i));
            assert(internal_child(q1, i) == internal_child(p, mid + 1 + i));
        }
    }
    assert forall|i: int| 0 <= i < cq + 1 implies #[trigger] internal_key(q2, i) == w.hi[ks[mid + 1
        + i]] by {
        if i < cq {
            assert(internal_child(q2, i) == internal_child(q1, i));
            assert(internal_child(q1, i) == internal_child(p, mid + 1 + i));
            assert(internal_key(p, mid + 1 + i) == w.hi[child_at(p, mid + 1 + i)]);
        }
    }
}

/// Where the waiting child belongs in the upper half but is not the last of
/// all children, it gets a cell there at the place of its upper bound.
pub proof fn lemma_upper_middle(
    p: Seq<u8>,
    w: Shape,
    c: u32,
    g: int,
    lo: int,
    hi: int,
    level: nat,
    mid: int,
    x1: Seq<u8>,
    q1: Seq<u8>,
    q2: Seq<u8>,
    cmax: u32,
    rmax: u32,
)
    requires
        kids_known(p, w, c, g, lo, hi, level),
        halves_before(p, x1, q1, mid),
        mid < g <= header(p).count,
        w.lo[c] < cmax <= w.hi[c],
        w.hi[c] < key_inf() ==> cmax == w.hi[c],
        w.lo[header(p).link] < rmax <= w.hi[header(p).link],
        placed(q1, q2, c, cmax, rmax),
    ensures
        holds_kids(q2, w, kids(p, c, g), mid + 1, header(p).count - mid + 1),
        header(q2).kind == header(q1).kind,
        header(q2).root == header(q1).root,
        header(q2).parent == header(q1).parent,
{
    let cnt = header(p).count as int;
    let cq = cnt - mid - 1;
    let gl = g - mid - 1;
    let ks = kids(p, c, g);
    let r = header(p).link;
    assert(ks[g] == c);
    assert(ks[g - 1] == child_at(p, g - 1));
    assert(ks[g + 1] == child_at(p, g));
    assert(ks[cnt + 1] == r);
    assert(adjacent(w, ks, g - 1));
    assert(adjacent(w, ks, g));
    assert(w.lo[ks[g + 1]] < w.hi[ks[g + 1]] <= key_inf());
    assert(cmax == w.hi[c]);
    assert(internal_key(p, g - 1) == w.lo[c]);
    if g < cnt {
        assert(internal_key(p, g) == w.hi[child_at(p, g)]);
        lemma_chain_order(w, ks, lo, hi, level, g + 1, cnt + 1);
    }
    assert(cmax <= rmax);
    assert(internal_lower_bound(q1, cmax, gl)) by {
        assert forall|i: int| 0 <= i < gl implies #[trigger] internal_key(q1, i) < cmax by {
            assert(internal_child(q1, i) == internal_child(p, mid + 1 + i));
            if mid + 1 + i < g - 1 {
                assert(internal_key(p, mid + 1 + i) < internal_key(p, g - 1));
            }
        }
        assert forall|i: int| gl <= i < header(q1).count implies cmax <= #[trigger] internal_key(
            q1,
            i,
        ) by {
            assert(internal_child(q1, i) == internal_child(p, mid + 1 + i));
            if g < mid + 1 + i {
                assert(internal_key(p, g) < internal_key(p, mid + 1 + i));
            }
        }
    }
    assert(internal_cell_inserted(q1, q2, gl, c, cmax));
    assert forall|j: int| 0 <= j < header(p).count - mid - 1 implies #[trigger] internal_child(q1, j)
        == internal_child(p, mid + 1 + j) && internal_key(q1, j) == internal_key(p, mid + 1 + j) by {}
    lemma_inserted_kids(p, w, c, g, mid, q1, q2, cmax);
}

/// The cells of the upper half once the waiting child has its cell there.
pub proof fn lemma_inserted_kids(
    p: Seq<u8>,
    w: Shape,
    c: u32,
    g: int,
    mid: int,
    q1: Seq<u8>,
    q2: Seq<u8>,
    cmax: u32,
)
    requires
        0 <= mid < g <= header(p).count < INTERNAL_NODE_SLOTS,
        header(q1).kind == KIND_INTERNAL,
        header(q1).count == header(p).count - mid - 1,
        header(q1).link == header(p).link,
        forall|j: int|
            0 <= j < header(p).count - mid - 1 ==> #[trigger] internal_child(q1, j)
                == internal_child(p, mid + 1 + j) && internal_key(q1, j) == internal_key(
                p,
                mid + 1 + j,
            ),
        forall|i: int|
            0 <= i < header(p).count ==> #[trigger] internal_key(p, i) == w.hi[child_at(p, i)],
        cmax == w.hi[c],
        internal_cell_inserted(q1, q2, g - mid - 1, c, cmax),
    ensures
        holds_kids(q2, w, kids(p, c, g), mid + 1, header(p).count - mid + 1),
{
    let cnt = header(p).count as int;
    let cq = cnt - mid - 1;
    let gl = g - mid - 1;
    let ks = kids(p, c, g);
    assert forall|i: int| 0 <= i < cq + 2 implies #[trigger] child_at(q2, i) == ks[mid + 1 + i] by {
        if i <= cq {
            assert((internal_child(q2, i), internal_key(q2, i)) == merged_cell(q1, gl, c, cmax, i));
            if i < gl {
                assert(internal_child(q1, i) == internal_child(p, mid + 1 + i));
            } else if i > gl {
                assert(internal_child(q1, i - 1) == internal_child(p, mid + 1 + (i - 1)));
            }
        }
    }
    assert forall|i: int| 0 <= i < cq + 1 implies #[trigger] internal_key(q2, i) == w.hi[ks[mid + 1
        + i]] by {
        assert((internal_child(q2, i), internal_key(q2, i)) == merged_cell(q1, gl, c, cmax, i));
        if i < gl {
            assert(internal_child(q1, i) == internal_child(p, mid + 1 + i));
            assert(internal_key(p, mid + 1 + i) == w.hi[child_at(p, mid + 1 + i)]);
        } else if i > gl {
            assert(internal_child(q1, i - 1) == internal_child(p, mid + 1 + (i - 1)));
            assert(internal_key(p, mid + i) == w.hi[child_at(p, mid + i)]);
        }
    }
}

/// Where the waiting child belongs in the upper half, the lower half holds
/// the first children, and the upper half holds the rest once the child has
/// entered it.
pub proof fn lemma_halves_upper(
    ps: Seq<Seq<u8>>,
    np: u32,
    lim: Limits,
    w: Shape,
    n: u32,
    c: u32,
    g: int,
    mid: int,
    x1: Seq<u8>,
    q1: Seq<u8>,
    q2: Seq<u8>,
    cmax: u32,
    rmax: u32,
)
    requires
        pending(ps, np, lim, w, n, c, g),
        halves_before(ps[n as int], x1, q1, mid),
        header(ps[n as int]).count < INTERNAL_NODE_SLOTS,
        g > mid,
        w.lo[c] < cmax <= w.hi[c],
        w.hi[c] < key_inf() ==> cmax == w.hi[c],
        w.lo[header(ps[n as int]).link] < rmax <= w.hi[header(ps[n as int]).link],
        w.hi[header(ps[n as int]).link] < key_inf() ==> rmax == w.hi[header(ps[n as int]).link],
        placed(q1, q2, c, cmax, rmax),
    ensures
        holds_kids(x1, w, kids(ps[n as int], c, g), 0, mid + 1),
        holds_kids(
            q2,
            w,
            kids(ps[n as int], c, g),
            mid + 1,
            header(ps[n as int]).count - mid + 1,
        ),
        header(q2).kind == header(q1).kind,
        header(q2).root == header(q1).root,
        header(q2).parent == header(q1).parent,
{
    let p = ps[n as int];
    let ks = kids(p, c, g);
    lemma_pending_kids(ps, np, lim, w, n, c, g);
    assert(kids_known(p, w, c, g, w.lo[n], w.hi[n], w.level[n]));
    assert forall|i: int| 0 <= i < mid + 1 implies #[trigger] child_at(x1, i) == ks[0 + i] by {}
    assert forall|i: int| 0 <= i < mid implies #[trigger] internal_key(x1, i) == w.hi[ks[0 + i]] by {
        assert(internal_key(p, i) == w.hi[child_at(p, i)]);
    }
    if g == header(p).count + 1 {
        lemma_upper_append(p, w, c, g, w.lo[n], w.hi[n], w.level[n], mid, x1, q1, q2, cmax, rmax);
    } else {
        lemma_upper_middle(p, w, c, g, w.lo[n], w.hi[n], w.level[n], mid, x1, q1, q2, cmax, rmax);
    }
}

/// Page `x` is one of the nodes `ks`.
pub open spec fn is_kid(ks: Seq<u32>, x: u32) -> bool {
    exists|i: int| 0 <= i < ks.len() && #[trigger] ks[i] == x
}

/// The pages `ps2` with shape `w2` come from the pages `ps` with shape `w`
/// by the split of node `n` while `c` waited to enter it as child `g`: the
/// first `nx` children stand under page `x` now and the rest under page
/// `q`, and nothing below the two has changed but the parent that the
/// children name.
pub open spec fn split_below(
    ps: Seq<Seq<u8>>,
    w: Shape,
    ps2: Seq<Seq<u8>>,
    w2: Shape,
    n: u32,
    c: u32,
    g: int,
    x: u32,
    q: u32,
    nx: int,
    gp: u32,
) -> bool {
    let ks = kids(ps[n as int], c, g);
    &&& ps2.len() == ps.len()
    &&& same_kids(ps[gp as int], ps2[gp as int]) || gp == n
    &&& header(ps2[gp as int]).parent == header(ps[gp as int]).parent || gp == n
    &&& 1 <= nx < ks.len()
    &&& w2.level[root_page()] >= w.level[root_page()]
    &&& w2.live.contains(x)
    &&& w2.live.contains(q)
    &&& w2.level[x] == w.level[n]
    &&& w2.level[q] == w.level[n]
    &&& x != q
    &&& !w.live.contains(q)
    &&& x == n || !w.live.contains(x)
    &&& forall|y: u32| w.live.contains(y) && y != n ==> #[trigger] agree(w, w2, y)
    &&& forall|i: int|
        0 <= i < ks.len() ==> reparented(ps[ks[i] as int], #[trigger] ps2[ks[i] as int], if i < nx {
            x
        } else {
            q
        })
    &&& holds_kids(ps2[x as int], w, ks, 0, nx)
    &&& holds_kids(ps2[q as int], w, ks, nx, ks.len() - nx)
    &&& forall|y: u32|
        w.live.contains(y) && y != n && y != gp && !is_kid(ks, y) ==> #[trigger] ps2[y as int]
            == ps[y as int]
}

/// A child of the split node is in order after the split.
pub proof fn lemma_split_kid(
    ps: Seq<Seq<u8>>,
    np: u32,
    lim: Limits,
    w: Shape,
    ps2: Seq<Seq<u8>>,
    np2: u32,
    w2: Shape,
    n: u32,
    c: u32,
    g: int,
    x: u32,
    q: u32,
    nx: int,
    gp: u32,
    i: int,
)
    requires
        pending(ps, np, lim, w, n, c, g),
        w.live.contains(gp),
        w.level[gp] >= w.level[n],
        split_below(ps, w, ps2, w2, n, c, g, x, q, nx, gp),
        np <= np2,
        0 <= i < kids(ps[n as int], c, g).len(),
    ensures
        node_ok(ps2, np2, lim, w2, kids(ps[n as int], c, g)[i]),
{
    let ks = kids(ps[n as int], c, g);
    let k = ks[i];
    let par = if i < nx {
        x
    } else {
        q
    };
    lemma_pending_kids(ps, np, lim, w, n, c, g);
    assert(w.live.contains(k));
    assert(agree(w, w2, k));
    assert(node_core(ps, np, lim, w, k)) by {
        if k != c {
            assert(k != n);
            assert(node_ok(ps, np, lim, w, k));
        }
    }
    let p = ps[k as int];
    let pg2 = ps2[k as int];
    assert(reparented(p, pg2, par));
    // the child names its new parent, and the parent holds it
    if i < nx {
        assert(child_at(ps2[x as int], i) == ks[0 + i]);
        assert(0 <= i <= header(ps2[x as int]).count);
    } else {
        assert(child_at(ps2[q as int], i - nx) == ks[nx + (i - nx)]);
        assert(0 <= i - nx <= header(ps2[q as int]).count);
    }
    assert(header(pg2).parent == par);
    assert(w2.live.contains(par));
    assert(w2.level[par] == w2.level[k] + 1);
    assert(linked(ps2, w2, k));
    assert(node_base(ps2, np2, w2, k));
    if w.level[k] > 0 {
        assert forall|j: int| 0 <= j <= header(pg2).count implies #[trigger] child_ok(ps2, w2, k, j) by {
            assert(child_ok(ps, w, k, j));
            let y = child_at(p, j);
            assert(child_at(pg2, j) == y);
            assert(agree(w, w2, y));
            if is_kid(ks, y) {
                let t = choose|t: int| 0 <= t < ks.len() && #[trigger] ks[t] == y;
                assert(w.level[ks[t]] + 1 == w.level[n]);
            }
            assert(ps2[y as int] == ps[y as int]);
        }
        assert(keys_sorted(pg2)) by {
            assert forall|a: int, b: int| 0 <= a < b < header(pg2).count implies internal_key(pg2, a)
                < internal_key(pg2, b) by {
                assert(internal_key(p, a) < internal_key(p, b));
            }
        }
        assert(internal_ok(ps2, w2, k, lim.internal_max_cells as int));
    } else {
        assert(leaf_ok(pg2, w2.lo[k], w2.hi[k], lim.leaf_max_cells as int)) by {
            assert forall|a: int, b: int| 0 <= a < b < header(pg2).count implies leaf_key(pg2, a)
                < leaf_key(pg2, b) by {
                assert(leaf_key(p, a) < leaf_key(p, b));
            }
            assert forall|a: int| 0 <= a < header(pg2).count implies w2.lo[k] < #[trigger] leaf_key(
                pg2,
                a,
            ) <= w2.hi[k] by {
                assert(w.lo[k] < leaf_key(p, a) <= w.hi[k]);
            }
        }
        assert(chain_ok(ps2, w2, k)) by {
            assert(chain_ok(ps, w, k));
            let nx2 = header(p).link;
            if nx2 != 0 {
                assert(agree(w, w2, nx2));
            }
        }
    }
}

/// A node that is neither the split node, nor its parent, nor one of its
/// children is in order after the split.
pub proof fn lemma_split_rest(
    ps: Seq<Seq<u8>>,
    np: u32,
    lim: Limits,
    w: Shape,
    ps2: Seq<Seq<u8>>,
    np2: u32,
    w2: Shape,
    n: u32,
    c: u32,
    g: int,
    x: u32,
    q: u32,
    nx: int,
    gp: u32,
    y: u32,
)
    requires
        pending(ps, np, lim, w, n, c, g),
        w.live.contains(gp),
        (n == root_page() && gp == n) || (n != root_page() && gp == header(ps[n as int]).parent),
        split_below(ps, w, ps2, w2, n, c, g, x, q, nx, gp),
        header(ps2[n as int]).parent == header(ps[n as int]).parent || n == root_page(),
        np <= np2,
        w.live.contains(y),
        y != n,
        y != gp,
        !is_kid(kids(ps[n as int], c, g), y),
    ensures
        node_ok(ps2, np2, lim, w2, y),
{
    let ks = kids(ps[n as int], c, g);
    lemma_pending_kids(ps, np, lim, w, n, c, g);
    assert(ks[g] == c);
    assert(y != c);
    assert(node_ok(ps, np, lim, w, y));
    assert(agree(w, w2, y));
    let p = ps[y as int];
    assert(ps2[y as int] == p);
    if y != root_page() {
        let par = header(p).parent;
        assert(w.live.contains(par));
        // the parent is not the split node: that one's children are all among `ks`
        if par == n {
            let i = choose|i: int|
                0 <= i <= header(ps[par as int]).count && #[trigger] child_at(ps[par as int], i)
                    == y;
            let i2 = if i < g {
                i
            } else {
                i + 1
            };
            assert(ks[i2] == y);
        }
        assert(agree(w, w2, par));
        assert(same_kids(ps[par as int], ps2[par as int])) by {
            if par == gp {
            } else if !is_kid(ks, par) {
                assert(ps2[par as int] == ps[par as int]);
            } else {
                let i = choose|i: int| 0 <= i < ks.len() && #[trigger] ks[i] == par;
                assert(reparented(ps[ks[i] as int], ps2[ks[i] as int], if i < nx {
                    x
                } else {
                    q
                }));
            }
        }
        lemma_still_linked(ps, ps2, w, w2, y);
    }
    if w.level[y] > 0 {
        assert forall|i: int| 0 <= i <= header(p).count implies agree(
            w,
            w2,
            #[trigger] child_at(p, i),
        ) && header(ps2[child_at(p, i) as int]).parent == header(ps[child_at(p, i) as int]).parent by {
            assert(child_ok(ps, w, y, i));
            let z = child_at(p, i);
            // a child of `y` names `y` as its parent, so it is no child of the split node
            if is_kid(ks, z) {
                let t = choose|t: int| 0 <= t < ks.len() && #[trigger] ks[t] == z;
                if t != g {
                    assert(header(ps[ks[t] as int]).parent == n);
                }
            }
            if z == n {
                assert(header(ps[n as int]).parent == y);
                assert(node_base(ps, np, w, y));
            }
            if z != n && z != gp {
                assert(ps2[z as int] == ps[z as int]);
            }
            if z != n {
                assert(agree(w, w2, z));
            }
        }
        // the split node is the child of its parent alone
        assert forall|i: int| 0 <= i <= header(p).count implies child_at(p, i) != n by {
            assert(child_ok(ps, w, y, i));
            if child_at(p, i) == n {
                assert(header(ps[n as int]).parent == y);
                assert(node_base(ps, np, w, y));
            }
        }
    } else {
        if header(p).link != 0 {
            assert(chain_ok(ps, w, y));
            assert(header(p).link != n);
            assert(agree(w, w2, header(p).link));
        }
    }
    lemma_node_frame(ps, ps2, np, np2, lim, w, w2, y);
}

/// Both halves of the split node are in order towards their children.
pub proof fn lemma_halves_ok(
    ps: Seq<Seq<u8>>,
    np: u32,
    lim: Limits,
    w: Shape,
    ps2: Seq<Seq<u8>>,
    w2: Shape,
    n: u32,
    c: u32,
    g: int,
    x: u32,
    q: u32,
    nx: int,
    gp: u32,
)
    requires
        pending(ps, np, lim, w, n, c, g),
        split_below(ps, w, ps2, w2, n, c, g, x, q, nx, gp),
        w2.lo[x] == w.lo[n],
        w2.hi[x] == w.hi[kids(ps[n as int], c, g)[nx - 1]],
        w2.lo[q] == w.hi[kids(ps[n as int], c, g)[nx - 1]],
        w2.hi[q] == w.hi[n],
        nx - 1 <= lim.internal_max_cells,
        kids(ps[n as int], c, g).len() - nx - 1 <= lim.internal_max_cells,
    ensures
        internal_ok(ps2, w2, x, lim.internal_max_cells as int),
        internal_ok(ps2, w2, q, lim.internal_max_cells as int),
        w.lo[n] < w.hi[kids(ps[n as int], c, g)[nx - 1]] < w.hi[n],
{
    let ks = kids(ps[n as int], c, g);
    let im = lim.internal_max_cells as int;
    lemma_pending_kids(ps, np, lim, w, n, c, g);
    assert forall|i: int| 0 <= i < ks.len() implies agree(w, w2, #[trigger] ks[i]) by {
        assert(w.live.contains(ks[i]));
    }
    assert(kids_chain(w2, ks, w.lo[n], w.hi[n], w2.level[x])) by {
        assert forall|i: int| 0 <= i < ks.len() - 1 implies #[trigger] adjacent(w2, ks, i) by {
            assert(adjacent(w, ks, i));
            assert(agree(w, w2, ks[i]));
            assert(agree(w, w2, ks[i + 1]));
        }
        assert forall|i: int| 0 <= i < ks.len() implies w2.live.contains(#[trigger] ks[i])
            && w2.level[ks[i]] + 1 == w2.level[x] && w2.lo[ks[i]] < w2.hi[ks[i]] <= key_inf()
            && ks[i] != root_page() by {
            assert(agree(w, w2, ks[i]));
        }
        assert(agree(w, w2, ks[0]));
        assert(agree(w, w2, ks[ks.len() - 1]));
    }
    assert(holds_kids(ps2[x as int], w2, ks, 0, nx)) by {
        assert forall|i: int| 0 <= i < nx - 1 implies #[trigger] internal_key(ps2[x as int], i)
            == w2.hi[ks[0 + i]] by {
            assert(agree(w, w2, ks[0 + i]));
        }
    }
    assert(holds_kids(ps2[q as int], w2, ks, nx, ks.len() - nx)) by {
        assert forall|i: int| 0 <= i < ks.len() - nx - 1 implies #[trigger] internal_key(
            ps2[q as int],
            i,
        ) == w2.hi[ks[nx + i]] by {
            assert(agree(w, w2, ks[nx + i]));
        }
    }
    assert(agree(w, w2, ks[nx - 1]));
    assert(agree(w, w2, ks[0]));
    assert(agree(w, w2, ks[nx]));
    assert(adjacent(w, ks, nx - 1));
    assert forall|i: int| 0 <= i < nx implies header(ps2[#[trigger] ks[0 + i] as int]).parent
        == x by {
        assert(reparented(ps[ks[i] as int], ps2[ks[i] as int], x));
    }
    assert forall|i: int| 0 <= i < ks.len() - nx implies header(
        ps2[#[trigger] ks[nx + i] as int],
    ).parent == q by {
        assert(reparented(ps[ks[nx + i] as int], ps2[ks[nx + i] as int], q));
    }
    assert(child_at(ps2[x as int], nx - 1) == ks[0 + (nx - 1)]);
    assert(child_at(ps2[q as int], ks.len() - nx - 1) == ks[nx + (ks.len() - nx - 1)]);
    assert(ks[nx - 1] < np);
    assert(ks[ks.len() - 1] < np);
    lemma_internal_from_kids(ps2, w2, x, ks, 0, nx, w.lo[n], w.hi[n], im);
    lemma_internal_from_kids(ps2, w2, q, ks, nx, ks.len() - nx, w.lo[n], w.hi[n], im);
    lemma_chain_bounds(w, ks, w.lo[n], w.hi[n], w.level[n], nx - 1);
    lemma_chain_order(w, ks, w.lo[n], w.hi[n], w.level[n], nx - 1, ks.len() - 1);
    if nx - 1 > 0 {
        lemma_chain_order(w, ks, w.lo[n], w.hi[n], w.level[n], 0, nx - 1);
    }
}

/// The shape after internal node `n` was split at key `s` and page `q`
/// took the upper half.
pub open spec fn shape_internal_split(w: Shape, n: u32, q: u32, s: int) -> Shape {
    Shape {
        live: w.live.insert(q),
        level: w.level.insert(q, w.level[n]),
        lo: w.lo.insert(q, s),
        hi: w.hi.insert(n, s).insert(q, w.hi[n]),
    }
}

/// After the split of a node, its parent waits for the new sibling: the
/// parent is in order but for the room that it leaves behind the split
/// node. Gives the place that the sibling will take.
pub proof fn lemma_parent_pending(
    ps: Seq<Seq<u8>>,
    np: u32,
    lim: Limits,
    w: Shape,
    ps2: Seq<Seq<u8>>,
    np2: u32,
    w2: Shape,
    n: u32,
    b: u32,
    s: u32,
    old_max: u32,
) -> (t: int)
    requires
        lim.valid(),
        w.live.contains(n),
        n != root_page(),
        node_base(ps, np, w, n),
        linked(ps, w, n),
        node_ok(ps, np, lim, w, header(ps[n as int]).parent),
        forall|i: int|
            0 <= i <= header(ps[header(ps[n as int]).parent as int]).count ==> node_base(
                ps,
                np,
                w,
                #[trigger] child_at(ps[header(ps[n as int]).parent as int], i),
            ),
        w.lo[n] < old_max <= w.hi[n],
        w.lo[n] < s < w.hi[n],
        key_updated(
            ps[header(ps[n as int]).parent as int],
            ps2[header(ps[n as int]).parent as int],
            old_max,
            s,
        ),
        w2 == shape_internal_split(w, n, b, s as int),
        !w.live.contains(b),
        b != root_page(),
        np <= np2 <= TABLE_MAX_PAGES,
        forall|i: int|
            0 <= i <= header(ps[header(ps[n as int]).parent as int]).count ==> header(
                ps2[#[trigger] child_at(ps[header(ps[n as int]).parent as int], i) as int],
            ).parent == header(
                ps[child_at(ps[header(ps[n as int]).parent as int], i) as int],
            ).parent,
        header(ps[n as int]).parent != root_page() ==> ps2[header(
            ps[header(ps[n as int]).parent as int],
        ).parent as int] == ps[header(ps[header(ps[n as int]).parent as int]).parent as int],
    ensures
        pend_internal(ps2, w2, header(ps[n as int]).parent, b, t, lim.internal_max_cells as int),
        node_base(ps2, np2, w2, header(ps[n as int]).parent),
        header(ps[n as int]).parent != root_page() ==> linked(
            ps2,
            w2,
            header(ps[n as int]).parent,
        ),
        same_kids(ps[header(ps[n as int]).parent as int], ps2[header(ps[n as int]).parent as int]),
        header(ps2[header(ps[n as int]).parent as int]) == header(
            ps[header(ps[n as int]).parent as int],
        ),
        0 <= t - 1 <= header(ps[header(ps[n as int]).parent as int]).count,
        child_at(ps[header(ps[n as int]).parent as int], t - 1) == n,
{
    let par = header(ps[n as int]).parent;
    let pp = ps[par as int];
    let pq = ps2[par as int];
    let pc = header(pp).count as int;
    let im = lim.internal_max_cells as int;
    let j = choose|j: int| 0 <= j <= header(pp).count && #[trigger] child_at(pp, j) == n;
    assert(child_ok(ps, w, par, j));
    assert(par != n && par != b);
    // where the old largest key belongs among the keys of the parent
    assert(internal_lower_bound(pp, old_max, j)) by {
        assert forall|i: int| 0 <= i < j implies #[trigger] internal_key(pp, i) < old_max by {
            if i < j - 1 {
                assert(internal_key(pp, i) < internal_key(pp, j - 1));
            }
        }
        assert forall|i: int| j <= i < pc implies old_max <= #[trigger] internal_key(pp, i) by {
            if j < i {
                assert(internal_key(pp, j) < internal_key(pp, i));
            }
        }
    }
    assert(header(pq) == header(pp));
    assert forall|i: int| 0 <= i <= pc implies #[trigger] child_at(pq, i) == child_at(pp, i) by {
        if i < pc && i != j {
            assert(internal_child(pq, i) == internal_child(pp, i));
        }
    }
    assert forall|i: int| 0 <= i < pc implies #[trigger] internal_key(pq, i) == (if i == j {
        s
    } else {
        internal_key(pp, i)
    }) by {
        if i != j {
            assert(internal_child(pq, i) == internal_child(pp, i));
        }
    }
    assert forall|i: int| 0 <= i <= pc implies #[trigger] pend_child_ok(ps2, w2, par, i, b, j + 1) by {
        assert(child_ok(ps, w, par, i));
        let y = child_at(pp, i);
        assert(child_at(pq, i) == y);
        assert(node_base(ps, np, w, y));
        if i != j {
            lemma_siblings_apart(ps, w, par, im, if i < j {
                i
            } else {
                j
            }, if i < j {
                j
            } else {
                i
            });
            assert(y != n);
        }
        if i > 0 {
            assert(internal_key(pq, i - 1) == (if i - 1 == j {
                s
            } else {
                internal_key(pp, i - 1)
            }));
        }
        if i < pc {
            assert(internal_key(pq, i) == (if i == j {
                s
            } else {
                internal_key(pp, i)
            }));
        }
    }
    assert(keys_sorted(pq)) by {
        assert forall|i1: int, i2: int| 0 <= i1 < i2 < pc implies internal_key(pq, i1)
            < internal_key(pq, i2) by {
            assert(internal_key(pp, i1) < internal_key(pp, i2));
            assert(internal_key(pq, i1) == (if i1 == j {
                s
            } else {
                internal_key(pp, i1)
            }));
            assert(internal_key(pq, i2) == (if i2 == j {
                s
            } else {
                internal_key(pp, i2)
            }));
            if i2 == j {
                if i1 < j - 1 {
                    assert(internal_key(pp, i1) < internal_key(pp, j - 1));
                }
            }
        }
    }
    if j < pc {
        assert(internal_key(pq, j) == (if j == j {
            s
        } else {
            internal_key(pp, j)
        }));
    }
    assert(pend_internal(ps2, w2, par, b, j + 1, im));
    if par != root_page() {
        let gpp = header(pp).parent;
        let t = choose|t: int|
            0 <= t <= header(ps[gpp as int]).count && #[trigger] child_at(ps[gpp as int], t) == par;
        assert(child_at(ps2[gpp as int], t) == par);
        assert(gpp != n && gpp != b);
        assert(linked(ps2, w2, par));
    }
    j + 1
}

/// The pages `ps2` are the pages `ps` but for the page `q`, which holds an
/// empty internal node.
pub open spec fn fresh_internal(ps: Seq<Seq<u8>>, ps2: Seq<Seq<u8>>, q: u32) -> bool {
    &&& ps2.len() == ps.len()
    &&& forall|y: int| 0 <= y < ps.len() && y != q ==> #[trigger] ps2[y] == ps[y]
    &&& header(ps2[q as int]).kind == KIND_INTERNAL
    &&& !header(ps2[q as int]).root
    &&& header(ps2[q as int]).count == 0
}

/// The pages `ps2` are the pages `ps` after the waiting child `c` has
/// entered the half in page `dest` and the key that the parent `par` holds
/// for the lower half has been replaced by `s`.
pub open spec fn split_finished(
    ps: Seq<Seq<u8>>,
    ps2: Seq<Seq<u8>>,
    dest: u32,
    c: u32,
    par: u32,
    cmax: u32,
    drm: u32,
    old_max: u32,
    s: u32,
) -> bool {
    &&& ps2.len() == ps.len()
    &&& forall|y: int| 0 <= y < ps.len() ==> (#[trigger] ps2[y]).len() == PAGE_SIZE
    &&& forall|y: int|
        0 <= y < ps.len() && y != dest && y != c && y != par ==> #[trigger] ps2[y] == ps[y]
    &&& placed(ps[dest as int], ps2[dest as int], c, cmax, drm)
    &&& reparented(ps[c as int], ps2[c as int], dest)
    &&& key_updated(ps[par as int], ps2[par as int], old_max, s)
}

/// The children of a node while a child waits to enter it are different
/// pages.
pub proof fn lemma_kids_distinct(
    ps: Seq<Seq<u8>>,
    np: u32,
    lim: Limits,
    w: Shape,
    n: u32,
    c: u32,
    g: int,
    i: int,
    j: int,
)
    requires
        pending(ps, np, lim, w, n, c, g),
        0 <= i < j < kids(ps[n as int], c, g).len(),
    ensures
        kids(ps[n as int], c, g)[i] != kids(ps[n as int], c, g)[j],
{
    lemma_pending_kids(ps, np, lim, w, n, c, g);
    lemma_chain_order(w, kids(ps[n as int], c, g), w.lo[n], w.hi[n], w.level[n], i, j);
}

/// The place among all children of child `o` of the node before the entry
/// of the waiting child as child `g`.
pub open spec fn kid_index(g: int, o: int) -> int {
    if o < g {
        o
    } else {
        o + 1
    }
}

/// The steps of the split of an internal node that is not the root, as
/// far as the pages go: `ps_a` has the new page made an empty internal node,
/// `ps_b` has the upper half moved, and `ps_f` has the waiting child entered
/// and the key in the parent replaced.
pub open spec fn nonroot_steps(
    ps: Seq<Seq<u8>>,
    np: u32,
    lim: Limits,
    w: Shape,
    n: u32,
    c: u32,
    g: int,
    ps_a: Seq<Seq<u8>>,
    ps_b: Seq<Seq<u8>>,
    ps_f: Seq<Seq<u8>>,
    mid: int,
    cmax: u32,
    rmax: u32,
    s: u32,
) -> bool {
    &&& pending(ps, np, lim, w, n, c, g)
    &&& n != root_page()
    &&& np < TABLE_MAX_PAGES
    &&& header(ps[n as int]).count == lim.internal_max_cells
    &&& mid == header(ps[n as int]).count / 2
    &&& w.lo[c] < cmax <= w.hi[c]
    &&& w.hi[c] < key_inf() ==> cmax == w.hi[c]
    &&& w.lo[header(ps[n as int]).link] < rmax <= w.hi[header(ps[n as int]).link]
    &&& w.hi[header(ps[n as int]).link] < key_inf() ==> rmax == w.hi[header(ps[n as int]).link]
    &&& s == internal_key(ps[n as int], mid)
    &&& fresh_internal(ps, ps_a, np)
    &&& upper_half_moved(ps_a, ps_b, n, np, mid)
    &&& split_finished(
        ps_b,
        ps_f,
        if cmax < s {
            n
        } else {
            np
        },
        c,
        header(ps[n as int]).parent,
        cmax,
        if cmax < s {
            s
        } else {
            rmax
        },
        rmax,
        s,
    )
}

/// What the steps leave of the pages of the parent and of the new page.
pub proof fn lemma_nonroot_pages(
    ps: Seq<Seq<u8>>,
    np: u32,
    lim: Limits,
    w: Shape,
    n: u32,
    c: u32,
    g: int,
    ps_a: Seq<Seq<u8>>,
    ps_b: Seq<Seq<u8>>,
    ps_f: Seq<Seq<u8>>,
    mid: int,
    cmax: u32,
    rmax: u32,
    s: u32,
)
    requires
        nonroot_steps(ps, np, lim, w, n, c, g, ps_a, ps_b, ps_f, mid, cmax, rmax, s),
    ensures
        !w.live.contains(np),
        header(ps[n as int]).parent != n,
        header(ps[n as int]).parent != np,
        header(ps[n as int]).parent != c,
        c != np,
        n != np,
        ps_b[header(ps[n as int]).parent as int] == ps[header(ps[n as int]).parent as int],
        ps_b[c as int] == ps[c as int],
        halves_before(ps[n as int], ps_b[n as int], ps_b[np as int], mid),
        header(ps_b[n as int]).parent == header(ps[n as int]).parent,
        header(ps_b[n as int]).root == header(ps[n as int]).root,
        !header(ps_b[np as int]).root,
        cmax < s <==> g <= mid,
        w.lo[n] < s < w.hi[n],
        s == w.hi[child_at(ps[n as int], mid)],
        holds_kids(ps_f[n as int], w, kids(ps[n as int], c, g), 0, lower_kids(g, mid)),
        holds_kids(
            ps_f[np as int],
            w,
            kids(ps[n as int], c, g),
            lower_kids(g, mid),
            kids(ps[n as int], c, g).len() - lower_kids(g, mid),
        ),
        header(ps_f[n as int]).parent == header(ps[n as int]).parent,
        header(ps_f[n as int]).root == header(ps[n as int]).root,
        !header(ps_f[np as int]).root,
{
    let q = np;
    let p = ps[n as int];
    let par = header(p).parent;
    let ks = kids(p, c, g);
    lemma_pending_kids(ps, np, lim, w, n, c, g);
    lemma_destination(ps, np, lim, w, n, c, g, mid, cmax);

    assert(node_ok(ps, np, lim, w, par));
    assert(node_base(ps, np, w, c));
    assert(!w.live.contains(q)) by {
        if w.live.contains(q) {
            if q != c {
                assert(node_ok(ps, np, lim, w, q));
            }
        }
    }
    assert(ps_a[n as int] == p);
    assert(ps_a[par as int] == ps[par as int]);
    assert(ps_a[c as int] == ps[c as int]);
    assert(!is_child_from(p, par, mid + 1)) by {
        if is_child_from(p, par, mid + 1) {
            let o = choose|o: int|
                mid + 1 <= o <= header(p).count && #[trigger] child_at(p, o) == par;
            assert(ks[kid_index(g, o)] == par);
            assert(w.level[ks[kid_index(g, o)]] + 1 == w.level[n]);
        }
    }
    assert(!is_child_from(p, c, mid + 1)) by {
        if is_child_from(p, c, mid + 1) {
            let o = choose|o: int|
                mid + 1 <= o <= header(p).count && #[trigger] child_at(p, o) == c;
            assert(ks[kid_index(g, o)] == c);
        }
    }
    assert(ps_a[n as int] == p);
    assert(halves_before(p, ps_b[n as int], ps_b[q as int], mid));
    if g <= mid {
        lemma_halves_lower(
            ps,
            np,
            lim,
            w,
            n,
            c,
            g,
            mid,
            ps_b[n as int],
            ps_b[q as int],
            ps_f[n as int],
            cmax,
        );
        assert(ps_f[q as int] == ps_b[q as int]);
    } else {
        lemma_halves_upper(
            ps,
            np,
            lim,
            w,
            n,
            c,
            g,
            mid,
            ps_b[n as int],
            ps_b[q as int],
            ps_f[q as int],
            cmax,
            rmax,
        );
        assert(ps_f[n as int] == ps_b[n as int]);
    }
}

/// What the steps leave of the page of a child of the node.
pub proof fn lemma_nonroot_kid(
    ps: Seq<Seq<u8>>,
    np: u32,
    lim: Limits,
    w: Shape,
    n: u32,
    c: u32,
    g: int,
    ps_a: Seq<Seq<u8>>,
    ps_b: Seq<Seq<u8>>,
    ps_f: Seq<Seq<u8>>,
    mid: int,
    cmax: u32,
    rmax: u32,
    s: u32,
    i: int,
)
    requires
        nonroot_steps(ps, np, lim, w, n, c, g, ps_a, ps_b, ps_f, mid, cmax, rmax, s),
        0 <= i < kids(ps[n as int], c, g).len(),
    ensures
        reparented(
            ps[kids(ps[n as int], c, g)[i] as int],
            ps_f[kids(ps[n as int], c, g)[i] as int],
            if i < lower_kids(g, mid) {
                n
            } else {
                np
            },
        ),
{
    let q = np;
    let p = ps[n as int];
    let par = header(p).parent;
    let ks = kids(p, c, g);
    let k = ks[i];
    lemma_pending_kids(ps, np, lim, w, n, c, g);
    lemma_nonroot_pages(ps, np, lim, w, n, c, g, ps_a, ps_b, ps_f, mid, cmax, rmax, s);
    assert(k < np && k != n);
    assert(ps_a[k as int] == ps[k as int]);
    if i == g {
        assert(k == c);
    } else {
        let o = if i < g {
            i
        } else {
            i - 1
        };
        assert(k == child_at(p, o));
        assert(k != c);
        assert(k != par) by {
            assert(w.level[k] + 1 == w.level[n]);
            assert(node_ok(ps, np, lim, w, par));
        }
        assert(ps_f[k as int] == ps_b[k as int]);
        if o > mid {
            assert(is_child_from(p, k, mid + 1));
        } else {
            assert(!is_child_from(p, k, mid + 1)) by {
                if is_child_from(p, k, mid + 1) {
                    let o2 = choose|o2: int|
                        mid + 1 <= o2 <= header(p).count && #[trigger] child_at(p, o2) == k;
                    assert(ks[kid_index(g, o2)] == child_at(p, o2));
                    lemma_kids_distinct(ps, np, lim, w, n, c, g, i, kid_index(g, o2));
                }
            }
            assert(header(ps[k as int]).parent == n);
        }
    }
}

/// What the steps leave of every page that is not among those of the node,
/// its children and its parent.
pub proof fn lemma_nonroot_other(
    ps: Seq<Seq<u8>>,
    np: u32,
    lim: Limits,
    w: Shape,
    n: u32,
    c: u32,
    g: int,
    ps_a: Seq<Seq<u8>>,
    ps_b: Seq<Seq<u8>>,
    ps_f: Seq<Seq<u8>>,
    mid: int,
    cmax: u32,
    rmax: u32,
    s: u32,
    y: u32,
)
    requires
        nonroot_steps(ps, np, lim, w, n, c, g, ps_a, ps_b, ps_f, mid, cmax, rmax, s),
        w.live.contains(y),
        y != n,
        y != header(ps[n as int]).parent,
        !is_kid(kids(ps[n as int], c, g), y),
    ensures
        ps_f[y as int] == ps[y as int],
{
    let p = ps[n as int];
    let ks = kids(p, c, g);
    lemma_pending_kids(ps, np, lim, w, n, c, g);
    lemma_nonroot_pages(ps, np, lim, w, n, c, g, ps_a, ps_b, ps_f, mid, cmax, rmax, s);
    assert(ks[g] == c);
    assert(y != c);
    assert(node_ok(ps, np, lim, w, y));
    assert(ps_a[y as int] == ps[y as int]);
    assert(!is_child_from(p, y, mid + 1)) by {
        if is_child_from(p, y, mid + 1) {
            let o = choose|o: int| mid + 1 <= o <= header(p).count && #[trigger] child_at(p, o) == y;
            assert(ks[kid_index(g, o)] == y);
        }
    }
}

/// The steps of the split bring the pages below the two halves into the
/// state that `split_below` describes.
pub proof fn lemma_nonroot_below(
    ps: Seq<Seq<u8>>,
    np: u32,
    lim: Limits,
    w: Shape,
    n: u32,
    c: u32,
    g: int,
    ps_a: Seq<Seq<u8>>,
    ps_b: Seq<Seq<u8>>,
    ps_f: Seq<Seq<u8>>,
    mid: int,
    cmax: u32,
    rmax: u32,
    s: u32,
)
    requires
        nonroot_steps(ps, np, lim, w, n, c, g, ps_a, ps_b, ps_f, mid, cmax, rmax, s),
    ensures
        split_below(
            ps,
            w,
            ps_f,
            shape_internal_split(w, n, np, s as int),
            n,
            c,
            g,
            n,
            np,
            lower_kids(g, mid),
            header(ps[n as int]).parent,
        ),
        key_updated(
            ps[header(ps[n as int]).parent as int],
            ps_f[header(ps[n as int]).parent as int],
            rmax,
            s,
        ),
        header(ps_f[n as int]).parent == header(ps[n as int]).parent,
        header(ps_f[n as int]).root == header(ps[n as int]).root,
        !header(ps_f[np as int]).root,
        s == w.hi[kids(ps[n as int], c, g)[lower_kids(g, mid) - 1]],
        w.lo[n] < s < w.hi[n],
        !w.live.contains(np),
{
    let q = np;
    let p = ps[n as int];
    let par = header(p).parent;
    let ks = kids(p, c, g);
    let nx = lower_kids(g, mid);
    let w2 = shape_internal_split(w, n, q, s as int);
    lemma_pending_kids(ps, np, lim, w, n, c, g);
    lemma_nonroot_pages(ps, np, lim, w, n, c, g, ps_a, ps_b, ps_f, mid, cmax, rmax, s);
    assert(ks[nx - 1] == child_at(p, mid));
    assert forall|i: int| 0 <= i < ks.len() implies reparented(
        ps[ks[i] as int],
        #[trigger] ps_f[ks[i] as int],
        if i < nx {
            n
        } else {
            q
        },
    ) by {
        lemma_nonroot_kid(ps, np, lim, w, n, c, g, ps_a, ps_b, ps_f, mid, cmax, rmax, s, i);
    }
    assert forall|y: u32|
        w.live.contains(y) && y != n && y != par && !is_kid(ks, y) implies #[trigger] ps_f[y as int]
        == ps[y as int] by {
        lemma_nonroot_other(ps, np, lim, w, n, c, g, ps_a, ps_b, ps_f, mid, cmax, rmax, s, y);
    }
    assert forall|y: u32| w.live.contains(y) && y != n implies #[trigger] agree(w, w2, y) by {}
    let t = lemma_nonroot_parent(ps, np, lim, w, n, c, g, ps_a, ps_b, ps_f, mid, cmax, rmax, s);
}

/// What the steps leave of the parent: it waits for the new page, and
/// holds the same children as before.
pub proof fn lemma_nonroot_parent(
    ps: Seq<Seq<u8>>,
    np: u32,
    lim: Limits,
    w: Shape,
    n: u32,
    c: u32,
    g: int,
    ps_a: Seq<Seq<u8>>,
    ps_b: Seq<Seq<u8>>,
    ps_f: Seq<Seq<u8>>,
    mid: int,
    cmax: u32,
    rmax: u32,
    s: u32,
) -> (t: int)
    requires
        nonroot_steps(ps, np, lim, w, n, c, g, ps_a, ps_b, ps_f, mid, cmax, rmax, s),
    ensures
        pend_internal(
            ps_f,
            shape_internal_split(w, n, np, s as int),
            header(ps[n as int]).parent,
            np,
            t,
            lim.internal_max_cells as int,
        ),
        node_base(
            ps_f,
            (np + 1) as u32,
            shape_internal_split(w, n, np, s as int),
            header(ps[n as int]).parent,
        ),
        header(ps[n as int]).parent != root_page() ==> linked(
            ps_f,
            shape_internal_split(w, n, np, s as int),
            header(ps[n as int]).parent,
        ),
        same_kids(ps[header(ps[n as int]).parent as int], ps_f[header(ps[n as int]).parent as int]),
        header(ps_f[header(ps[n as int]).parent as int]) == header(
            ps[header(ps[n as int]).parent as int],
        ),
        0 <= t - 1 <= header(ps[header(ps[n as int]).parent as int]).count,
        child_at(ps[header(ps[n as int]).parent as int], t - 1) == n,
{
    let q = np;
    let p = ps[n as int];
    let par = header(p).parent;
    let pp = ps[par as int];
    let ks = kids(p, c, g);
    let cnt = header(p).count as int;
    let w2 = shape_internal_split(w, n, q, s as int);
    lemma_pending_kids(ps, np, lim, w, n, c, g);
    lemma_nonroot_pages(ps, np, lim, w, n, c, g, ps_a, ps_b, ps_f, mid, cmax, rmax, s);
    assert(node_ok(ps, np, lim, w, par));
    // the largest key under the rightmost child lies in the interval of the node
    assert(ks[cnt + 1] == child_after(p, c, g, cnt + 1));
    let ri = if g == cnt + 1 {
        cnt
    } else {
        cnt + 1
    };
    assert(ks[ri] == header(p).link);
    lemma_chain_bounds(w, ks, w.lo[n], w.hi[n], w.level[n], ri);
    assert forall|i: int| 0 <= i <= header(pp).count implies node_base(
        ps,
        np,
        w,
        #[trigger] child_at(pp, i),
    ) by {
        assert(child_ok(ps, w, par, i));
        let y = child_at(pp, i);
        if y != n {
            assert(y != c);
            assert(node_ok(ps, np, lim, w, y));
        }
    }
    assert forall|i: int| 0 <= i <= header(pp).count implies header(
        ps_f[#[trigger] child_at(pp, i) as int],
    ).parent == header(ps[child_at(pp, i) as int]).parent by {
        assert(child_ok(ps, w, par, i));
        let y = child_at(pp, i);
        if y != n {
            assert(y != par);
            if is_kid(ks, y) {
                let t = choose|t: int| 0 <= t < ks.len() && #[trigger] ks[t] == y;
                assert(w.level[ks[t]] + 1 == w.level[n]);
            }
            lemma_nonroot_other(ps, np, lim, w, n, c, g, ps_a, ps_b, ps_f, mid, cmax, rmax, s, y);
        }
    }
    if par != root_page() {
        let gpp = header(pp).parent;
        assert(w.live.contains(gpp));
        assert(w.level[gpp] == w.level[par] + 1);
        if is_kid(ks, gpp) {
            let t = choose|t: int| 0 <= t < ks.len() && #[trigger] ks[t] == gpp;
            assert(w.level[ks[t]] + 1 == w.level[n]);
        }
        lemma_nonroot_other(ps, np, lim, w, n, c, g, ps_a, ps_b, ps_f, mid, cmax, rmax, s, gpp);
    }
    lemma_parent_pending(ps, np, lim, w, ps_f, (np + 1) as u32, w2, n, q, s, rmax)
}

/// After the split of an internal node that is not the root, the new page
/// with the upper half waits to enter the parent right behind the node.
/// Gives the place that it will take there.
pub proof fn lemma_split_nonroot(
    ps: Seq<Seq<u8>>,
    np: u32,
    lim: Limits,
    w: Shape,
    n: u32,
    c: u32,
    g: int,
    ps_a: Seq<Seq<u8>>,
    ps_b: Seq<Seq<u8>>,
    ps_f: Seq<Seq<u8>>,
    mid: int,
    cmax: u32,
    rmax: u32,
    s: u32,
) -> (t: int)
    requires
        nonroot_steps(ps, np, lim, w, n, c, g, ps_a, ps_b, ps_f, mid, cmax, rmax, s),
    ensures
        pending(
            ps_f,
            (np + 1) as u32,
            lim,
            shape_internal_split(w, n, np, s as int),
            header(ps[n as int]).parent,
            np,
            t,
        ),
        same_leaves(ps, w, ps_f, shape_internal_split(w, n, np, s as int)),
        same_above(
            ps,
            w,
            ps_f,
            shape_internal_split(w, n, np, s as int),
            w.level[header(ps[n as int]).parent] as int,
        ),
        w.live.contains(header(ps[n as int]).parent),
        w.level[header(ps[n as int]).parent] == w.level[n] + 1,
        w.level[header(ps[n as int]).parent] <= w.level[root_page()],
{
    let q = np;
    let p = ps[n as int];
    let par = header(p).parent;
    let ks = kids(p, c, g);
    let nx = lower_kids(g, mid);
    let w2 = shape_internal_split(w, n, q, s as int);
    let np2 = (np + 1) as u32;
    lemma_pending_kids(ps, np, lim, w, n, c, g);
    lemma_nonroot_below(ps, np, lim, w, n, c, g, ps_a, ps_b, ps_f, mid, cmax, rmax, s);
    assert(node_ok(ps, np, lim, w, par));
    assert(same_above(ps, w, ps_f, w2, w.level[par] as int)) by {
        let t0 = lemma_nonroot_parent(ps, np, lim, w, n, c, g, ps_a, ps_b, ps_f, mid, cmax, rmax, s);
        assert forall|m: u32| #[trigger] w.live.contains(m) && w.level[m] >= w.level[par] implies {
            &&& header(ps_f[m as int]).count == header(ps[m as int]).count
            &&& header(ps_f[m as int]).parent == header(ps[m as int]).parent
            &&& w2.level[m] == w.level[m]
            &&& w.level[m] <= w.level[root_page()]
            &&& m != root_page() ==> w.live.contains(header(ps[m as int]).parent)
                && w.level[header(ps[m as int]).parent] == w.level[m] + 1
        } by {
            assert(m != n && m != c);
            assert(node_ok(ps, np, lim, w, m));
            if m != par {
                if is_kid(ks, m) {
                    let i = choose|i: int| 0 <= i < ks.len() && #[trigger] ks[i] == m;
                    assert(w.level[ks[i]] + 1 == w.level[n]);
                }
                lemma_nonroot_other(
                    ps,
                    np,
                    lim,
                    w,
                    n,
                    c,
                    g,
                    ps_a,
                    ps_b,
                    ps_f,
                    mid,
                    cmax,
                    rmax,
                    s,
                    m,
                );
            }
        }
    }
    let t = lemma_nonroot_parent(ps, np, lim, w, n, c, g, ps_a, ps_b, ps_f, mid, cmax, rmax, s);
    lemma_halves_ok(ps, np, lim, w, ps_f, w2, n, c, g, n, q, nx, par);
    assert(node_ok(ps, np, lim, w, par));
    assert forall|y: u32| w2.live.contains(y) && y != par && y != q implies #[trigger] node_ok(
        ps_f,
        np2,
        lim,
        w2,
        y,
    ) by {
        if y == n {
            assert(child_at(ps_f[par as int], t - 1) == n);
            assert(linked(ps_f, w2, n));
            assert(node_base(ps_f, np2, w2, n));
        } else if is_kid(ks, y) {
            let i = choose|i: int| 0 <= i < ks.len() && #[trigger] ks[i] == y;
            lemma_split_kid(ps, np, lim, w, ps_f, np2, w2, n, c, g, n, q, nx, par, i);
        } else {
            lemma_split_rest(ps, np, lim, w, ps_f, np2, w2, n, c, g, n, q, nx, par, y);
        }
    }
    assert(node_core(ps_f, np2, lim, w2, q)) by {
        assert(node_base(ps_f, np2, w2, q));
    }
    lemma_split_unlisted(ps, np, lim, w, ps_f, w2, n, c, g, n, q, nx, par, q);
    assert(unlisted(ps_f, w2, q));
    lemma_split_same_leaves(ps, np, lim, w, ps_f, w2, n, c, g, n, q, nx, par);
    t
}

/// The split of an internal node that is not the root leaves the nodes
/// below it as they were, and the shape as it was for them.
pub proof fn lemma_nonroot_kept(
    ps: Seq<Seq<u8>>,
    np: u32,
    lim: Limits,
    w: Shape,
    n: u32,
    c: u32,
    g: int,
    ps_a: Seq<Seq<u8>>,
    ps_b: Seq<Seq<u8>>,
    ps_f: Seq<Seq<u8>>,
    mid: int,
    cmax: u32,
    rmax: u32,
    s: u32,
)
    requires
        nonroot_steps(ps, np, lim, w, n, c, g, ps_a, ps_b, ps_f, mid, cmax, rmax, s),
    ensures
        kept_below(ps, w, ps_f, w.level[n] as int),
        forall|m: u32|
            #[trigger] w.live.contains(m) && w.level[m] < w.level[n] ==> shape_internal_split(
                w,
                n,
                np,
                s as int,
            ).live.contains(m) && shape_internal_split(w, n, np, s as int).level[m] == w.level[m],
{
    let ks = kids(ps[n as int], c, g);
    let par = header(ps[n as int]).parent;
    lemma_pending_kids(ps, np, lim, w, n, c, g);
    lemma_nonroot_pages(ps, np, lim, w, n, c, g, ps_a, ps_b, ps_f, mid, cmax, rmax, s);
    assert(linked(ps, w, n));
    assert forall|m: u32| #[trigger] w.live.contains(m) && w.level[m] < w.level[n] implies same_leaf(
        ps[m as int],
        ps_f[m as int],
    ) by {
        if is_kid(ks, m) {
            let i = choose|i: int| 0 <= i < ks.len() && #[trigger] ks[i] == m;
            lemma_nonroot_kid(ps, np, lim, w, n, c, g, ps_a, ps_b, ps_f, mid, cmax, rmax, s, i);
        } else {
            lemma_nonroot_other(ps, np, lim, w, n, c, g, ps_a, ps_b, ps_f, mid, cmax, rmax, s, m);
        }
    }
}

/// The split of a root that is an internal node leaves the nodes below it
/// as they were.
pub proof fn lemma_root_kept(
    ps: Seq<Seq<u8>>,
    np: u32,
    lim: Limits,
    w: Shape,
    c: u32,
    g: int,
    ps_a: Seq<Seq<u8>>,
    ps_b: Seq<Seq<u8>>,
    ps_f: Seq<Seq<u8>>,
    mid: int,
    cmax: u32,
    rmax: u32,
    s: u32,
)
    requires
        root_steps(ps, np, lim, w, c, g, ps_a, ps_b, ps_f, mid, cmax, rmax, s),
    ensures
        kept_below(ps, w, ps_f, w.level[root_page()] as int),
{
    let ks = kids(ps[0], c, g);
    lemma_pending_kids(ps, np, lim, w, root_page(), c, g);
    assert forall|m: u32| #[trigger]
        w.live.contains(m) && w.level[m] < w.level[root_page()] implies same_leaf(
        ps[m as int],
        ps_f[m as int],
    ) by {
        if is_kid(ks, m) {
            let i = choose|i: int| 0 <= i < ks.len() && #[trigger] ks[i] == m;
            lemma_root_kid(ps, np, lim, w, c, g, ps_a, ps_b, ps_f, mid, cmax, rmax, s, i);
        } else {
            lemma_root_other(ps, np, lim, w, c, g, ps_a, ps_b, ps_f, mid, cmax, rmax, s, m);
        }
    }
}

/// The children of the two halves of a split node: with the waiting child
/// `c` at its place `g` among the children of the node in page `p`, page
/// `x` holds the children up to the one at the middle of `p`, and page `q`
/// the others.
pub open spec fn halves_of(p: Seq<u8>, w: Shape, x: Seq<u8>, q: Seq<u8>, c: u32, g: int) -> bool {
    let ks = kids(p, c, g);
    let nx = lower_kids(g, (header(p).count / 2) as int);
    &&& holds_kids(x, w, ks, 0, nx)
    &&& holds_kids(q, w, ks, nx, ks.len() - nx)
}

/// What the two halves of a split node hold stays when the pages of the
/// halves change in nothing but the parent that they name.
pub proof fn lemma_halves_kept(
    p: Seq<u8>,
    w: Shape,
    x: Seq<u8>,
    q: Seq<u8>,
    x2: Seq<u8>,
    q2: Seq<u8>,
    c: u32,
    g: int,
)
    requires
        halves_of(p, w, x, q, c, g),
        same_leaf(x, x2),
        same_leaf(q, q2),
    ensures
        halves_of(p, w, x2, q2, c, g),
{
    let ks = kids(p, c, g);
    let nx = lower_kids(g, (header(p).count / 2) as int);
    assert forall|i: int| 0 <= i < nx implies #[trigger] child_at(x2, i) == ks[i] by {
        assert(child_at(x, i) == ks[0 + i]);
    }
    assert forall|i: int| 0 <= i < nx - 1 implies #[trigger] internal_key(x2, i) == w.hi[ks[i]] by {
        assert(internal_key(x, i) == w.hi[ks[0 + i]]);
    }
    assert forall|i: int| 0 <= i < ks.len() - nx implies #[trigger] child_at(q2, i) == ks[nx + i] by {
        assert(child_at(q, i) == ks[nx + i]);
    }
    assert forall|i: int| 0 <= i < ks.len() - nx - 1 implies #[trigger] internal_key(q2, i)
        == w.hi[ks[nx + i]] by {
        assert(internal_key(q, i) == w.hi[ks[nx + i]]);
    }
}

/// After the split of an internal node that is not the root, and whatever
/// became of the nodes above it since: the two halves hold the children of
/// the node and the child that waited, and the nodes below are as they
/// were.
pub proof fn lemma_nonroot_done(
    ps: Seq<Seq<u8>>,
    np: u32,
    lim: Limits,
    w: Shape,
    n: u32,
    c: u32,
    g: int,
    ps_a: Seq<Seq<u8>>,
    ps_b: Seq<Seq<u8>>,
    ps_f: Seq<Seq<u8>>,
    mid: int,
    cmax: u32,
    rmax: u32,
    s: u32,
    ps_z: Seq<Seq<u8>>,
)
    requires
        nonroot_steps(ps, np, lim, w, n, c, g, ps_a, ps_b, ps_f, mid, cmax, rmax, s),
        kept_below(ps_f, shape_internal_split(w, n, np, s as int), ps_z, (w.level[n] + 1) as int),
    ensures
        kept_below(ps, w, ps_z, w.level[n] as int),
        forall|g2: int| #[trigger]
            pending(ps, np, lim, w, n, c, g2) ==> halves_of(
                ps[n as int],
                w,
                ps_z[n as int],
                ps_z[np as int],
                c,
                g2,
            ),
{
    let w2 = shape_internal_split(w, n, np, s as int);
    lemma_nonroot_pages(ps, np, lim, w, n, c, g, ps_a, ps_b, ps_f, mid, cmax, rmax, s);
    lemma_nonroot_kept(ps, np, lim, w, n, c, g, ps_a, ps_b, ps_f, mid, cmax, rmax, s);
    assert(w2.live.contains(n) && w2.level[n] < w.level[n] + 1);
    assert(w2.live.contains(np) && w2.level[np] < w.level[n] + 1);
    assert(same_leaf(ps_f[n as int], ps_z[n as int]));
    assert(same_leaf(ps_f[np as int], ps_z[np as int]));
    assert(halves_of(ps[n as int], w, ps_f[n as int], ps_f[np as int], c, g));
    lemma_halves_kept(
        ps[n as int],
        w,
        ps_f[n as int],
        ps_f[np as int],
        ps_z[n as int],
        ps_z[np as int],
        c,
        g,
    );
    assert forall|g2: int| #[trigger] pending(ps, np, lim, w, n, c, g2) implies halves_of(
        ps[n as int],
        w,
        ps_z[n as int],
        ps_z[np as int],
        c,
        g2,
    ) by {
        crate::grow::lemma_one_place(ps, np, lim, w, n, c, g, g2);
    }
    assert forall|m: u32| #[trigger] w.live.contains(m) && w.level[m] < w.level[n] implies same_leaf(
        ps[m as int],
        ps_z[m as int],
    ) by {
        assert(w2.live.contains(m) && w2.level[m] < w.level[n] + 1);
        assert(same_leaf(ps[m as int], ps_f[m as int]));
        assert(same_leaf(ps_f[m as int], ps_z[m as int]));
    }
}

/// After the split of a root that is an internal node: the two halves hold
/// the children of the root and the child that waited, and the nodes below
/// are as they were.
pub proof fn lemma_root_done(
    ps: Seq<Seq<u8>>,
    np: u32,
    lim: Limits,
    w: Shape,
    c: u32,
    g: int,
    ps_a: Seq<Seq<u8>>,
    ps_b: Seq<Seq<u8>>,
    ps_f: Seq<Seq<u8>>,
    mid: int,
    cmax: u32,
    rmax: u32,
    s: u32,
)
    requires
        root_steps(ps, np, lim, w, c, g, ps_a, ps_b, ps_f, mid, cmax, rmax, s),
    ensures
        kept_below(ps, w, ps_f, w.level[root_page()] as int),
        forall|g2: int| #[trigger]
            pending(ps, np, lim, w, root_page(), c, g2) ==> halves_of(
                ps[0],
                w,
                ps_f[succ_page(np) as int],
                ps_f[np as int],
                c,
                g2,
            ),
{
    lemma_root_pages(ps, np, lim, w, c, g, ps_a, ps_b, ps_f, mid, cmax, rmax, s);
    lemma_root_kept(ps, np, lim, w, c, g, ps_a, ps_b, ps_f, mid, cmax, rmax, s);
    assert(halves_of(ps[0], w, ps_f[succ_page(np) as int], ps_f[np as int], c, g));
    assert forall|g2: int| #[trigger] pending(ps, np, lim, w, root_page(), c, g2) implies halves_of(
        ps[0],
        w,
        ps_f[succ_page(np) as int],
        ps_f[np as int],
        c,
        g2,
    ) by {
        crate::grow::lemma_one_place(ps, np, lim, w, root_page(), c, g, g2);
    }
}

/// No node holds a page as a child after the split that was not in use
/// before.
pub proof fn lemma_split_unlisted(
    ps: Seq<Seq<u8>>,
    np: u32,
    lim: Limits,
    w: Shape,
    ps2: Seq<Seq<u8>>,
    w2: Shape,
    n: u32,
    c: u32,
    g: int,
    x: u32,
    q: u32,
    nx: int,
    gp: u32,
    fresh: u32,
)
    requires
        pending(ps, np, lim, w, n, c, g),
        split_below(ps, w, ps2, w2, n, c, g, x, q, nx, gp),
        (n == root_page() && gp == n) || (n != root_page() && gp == header(ps[n as int]).parent),
        fresh >= np,
        forall|m: u32| w2.live.contains(m) ==> w.live.contains(m) || m == x || m == q,
        x == n || forall|i: int|
            0 <= i <= header(ps2[n as int]).count ==> #[trigger] child_at(ps2[n as int], i) < np,
    ensures
        forall|y: u32, i: int|
            w2.live.contains(y) && w2.level[y] > 0 && 0 <= i <= header(ps2[y as int]).count
                ==> #[trigger] child_at(ps2[y as int], i) != fresh,
{
    let ks = kids(ps[n as int], c, g);
    lemma_pending_kids(ps, np, lim, w, n, c, g);
    assert forall|y: u32, i: int|
        w2.live.contains(y) && w2.level[y] > 0 && 0 <= i <= header(
            ps2[y as int],
        ).count implies #[trigger] child_at(ps2[y as int], i) != fresh by {
        if y == x {
            assert(child_at(ps2[x as int], i) == ks[0 + i]);
            assert(ks[0 + i] < np);
        } else if y == q {
            assert(child_at(ps2[q as int], i) == ks[nx + i]);
            assert(ks[nx + i] < np);
        } else if y == n {
        } else {
            assert(w.live.contains(y));
            assert(agree(w, w2, y));
            assert(same_kids(ps[y as int], ps2[y as int])) by {
                if y == gp {
                } else if is_kid(ks, y) {
                    let t = choose|t: int| 0 <= t < ks.len() && #[trigger] ks[t] == y;
                    assert(reparented(ps[ks[t] as int], ps2[ks[t] as int], if t < nx {
                        x
                    } else {
                        q
                    }));
                } else {
                    assert(ps2[y as int] == ps[y as int]);
                }
            }
            assert(ks[g] == c);
            if y == c {
                assert(node_core(ps, np, lim, w, c));
            } else {
                assert(node_ok(ps, np, lim, w, y));
            }
            assert(child_ok(ps, w, y, i));
            let z = child_at(ps[y as int], i);
            assert(child_at(ps2[y as int], i) == z);
            assert(w.live.contains(z));
            if z != n && z != c {
                assert(node_ok(ps, np, lim, w, z));
            } else {
                assert(node_base(ps, np, w, z));
            }
        }
    }
}

/// The leaves are the same after the split, with the same cells.
pub proof fn lemma_split_same_leaves(
    ps: Seq<Seq<u8>>,
    np: u32,
    lim: Limits,
    w: Shape,
    ps2: Seq<Seq<u8>>,
    w2: Shape,
    n: u32,
    c: u32,
    g: int,
    x: u32,
    q: u32,
    nx: int,
    gp: u32,
)
    requires
        pending(ps, np, lim, w, n, c, g),
        split_below(ps, w, ps2, w2, n, c, g, x, q, nx, gp),
        w2.level[n] > 0,
        w.level[gp] > 0,
        forall|m: u32| w2.live.contains(m) ==> w.live.contains(m) || m == x || m == q,
    ensures
        same_leaves(ps, w, ps2, w2),
{
    let ks = kids(ps[n as int], c, g);
    lemma_pending_kids(ps, np, lim, w, n, c, g);
    assert forall|m: u32|
        (#[trigger] w2.live.contains(m) && w2.level[m] == 0) == (w.live.contains(m) && w.level[m]
            == 0) && (w.live.contains(m) && w.level[m] == 0 ==> same_leaf(
            ps[m as int],
            ps2[m as int],
        )) by {
        if w.live.contains(m) && m != n {
            assert(agree(w, w2, m));
        }
        assert(w.level[n] > 0);
        if w2.live.contains(m) && !w.live.contains(m) {
            assert(m == x || m == q);
        }
        if w.live.contains(m) && w.level[m] == 0 {
            if is_kid(ks, m) {
                let i = choose|i: int| 0 <= i < ks.len() && #[trigger] ks[i] == m;
                assert(reparented(ps[ks[i] as int], ps2[ks[i] as int], if i < nx {
                    x
                } else {
                    q
                }));
            } else {
                assert(ps2[m as int] == ps[m as int]);
            }
        }
    }
}

/// The shape after a root that was an internal node was split at key `s`:
/// page `x` holds the lower half and page `q` the upper half, and the root
/// stands one level higher, above the two.
pub open spec fn shape_root_split(w: Shape, x: u32, q: u32, s: int) -> Shape {
    Shape {
        live: w.live.insert(x).insert(q),
        level: w.level.insert(root_page(), w.level[root_page()] + 1).insert(
            x,
            w.level[root_page()],
        ).insert(q, w.level[root_page()]),
        lo: w.lo.insert(x, -1).insert(q, s),
        hi: w.hi.insert(x, s).insert(q, key_inf()),
    }
}

/// The steps of the split of a root that is an internal node, as far as
/// the pages go: `ps_a` has the root promoted, `ps_b` has the upper half
/// moved from the left child of the root to the right one, and `ps_f` has
/// the waiting child entered and the key in the root replaced.
pub open spec fn root_steps(
    ps: Seq<Seq<u8>>,
    np: u32,
    lim: Limits,
    w: Shape,
    c: u32,
    g: int,
    ps_a: Seq<Seq<u8>>,
    ps_b: Seq<Seq<u8>>,
    ps_f: Seq<Seq<u8>>,
    mid: int,
    cmax: u32,
    rmax: u32,
    s: u32,
) -> bool {
    &&& pending(ps, np, lim, w, root_page(), c, g)
    &&& np + 2 <= TABLE_MAX_PAGES
    &&& header(ps[0]).count == lim.internal_max_cells
    &&& mid == header(ps[0]).count / 2
    &&& w.lo[c] < cmax <= w.hi[c]
    &&& w.hi[c] < key_inf() ==> cmax == w.hi[c]
    &&& w.lo[header(ps[0]).link] < rmax <= w.hi[header(ps[0]).link]
    &&& w.hi[header(ps[0]).link] < key_inf() ==> rmax == w.hi[header(ps[0]).link]
    &&& s == internal_key(ps[0], mid)
    &&& root_promoted(ps, ps_a, succ_page(np), np, rmax)
    &&& upper_half_moved(ps_a, ps_b, succ_page(np), np, mid)
    &&& split_finished(
        ps_b,
        ps_f,
        if cmax < s {
            succ_page(np)
        } else {
            np
        },
        c,
        root_page(),
        cmax,
        if cmax < s {
            s
        } else {
            rmax
        },
        rmax,
        s,
    )
}

/// What the steps leave of the pages of the root and of the two halves.
pub proof fn lemma_root_pages(
    ps: Seq<Seq<u8>>,
    np: u32,
    lim: Limits,
    w: Shape,
    c: u32,
    g: int,
    ps_a: Seq<Seq<u8>>,
    ps_b: Seq<Seq<u8>>,
    ps_f: Seq<Seq<u8>>,
    mid: int,
    cmax: u32,
    rmax: u32,
    s: u32,
)
    requires
        root_steps(ps, np, lim, w, c, g, ps_a, ps_b, ps_f, mid, cmax, rmax, s),
    ensures
        !w.live.contains(np),
        !w.live.contains(succ_page(np)),
        c != np,
        c != succ_page(np),
        c != root_page(),
        ps_b[c as int] == ps[c as int],
        ps_b[0] == ps_a[0],
        halves_before(ps[0], ps_b[succ_page(np) as int], ps_b[np as int], mid),
        cmax < s <==> g <= mid,
        -1 < s < key_inf(),
        s == w.hi[child_at(ps[0], mid)],
        holds_kids(ps_f[succ_page(np) as int], w, kids(ps[0], c, g), 0, lower_kids(g, mid)),
        holds_kids(
            ps_f[np as int],
            w,
            kids(ps[0], c, g),
            lower_kids(g, mid),
            kids(ps[0], c, g).len() - lower_kids(g, mid),
        ),
        header(ps_f[succ_page(np) as int]).parent == 0,
        !header(ps_f[succ_page(np) as int]).root,
        header(ps_f[np as int]).parent == 0,
        !header(ps_f[np as int]).root,
        header(ps_f[0]) == header(ps_a[0]),
        internal_child(ps_f[0], 0) == succ_page(np),
        internal_key(ps_f[0], 0) == s,
        forall|i: int|
            0 <= i <= header(ps[0]).count ==> is_child_from(ps_a[succ_page(np) as int], #[trigger] child_at(ps[0], i), mid + 1)
                == (i > mid),
{
    let q = np;
    let x = succ_page(np);
    let p = ps[0];
    let ks = kids(p, c, g);
    let n = root_page();
    lemma_pending_kids(ps, np, lim, w, n, c, g);
    lemma_destination(ps, np, lim, w, n, c, g, mid, cmax);
    assert(node_base(ps, np, w, c));
    assert(node_base(ps, np, w, n));
    assert(!w.live.contains(q)) by {
        if w.live.contains(q) {
            if q != c && q != n {
                assert(node_ok(ps, np, lim, w, q));
            }
        }
    }
    assert(!w.live.contains(x)) by {
        if w.live.contains(x) {
            if x != c && x != n {
                assert(node_ok(ps, np, lim, w, x));
            }
        }
    }
    let pa = ps_a[x as int];
    assert(body(pa) == body(p));
    assert(header(pa).count == header(p).count);
    assert(header(pa).link == header(p).link);
    assert forall|i: int| 0 <= i <= header(p).count implies #[trigger] child_at(pa, i) == child_at(
        p,
        i,
    ) by {}
    assert(!is_child_of(p, c)) by {
        if is_child_of(p, c) {
            let o = choose|o: int| 0 <= o < header(p).count + 1 && #[trigger] child_at(p, o) == c;
            assert(ks[kid_index(g, o)] == c);
        }
    }
    assert(ps_a[c as int] == ps[c as int]);
    assert(!is_child_from(pa, c, mid + 1)) by {
        if is_child_from(pa, c, mid + 1) {
            let o = choose|o: int| mid + 1 <= o <= header(pa).count && #[trigger] child_at(pa, o) == c;
            assert(child_at(p, o) == c);
            assert(ks[kid_index(g, o)] == c);
        }
    }
    assert(!is_child_from(pa, 0, mid + 1)) by {
        if is_child_from(pa, 0, mid + 1) {
            let o = choose|o: int|
                mid + 1 <= o <= header(pa).count && #[trigger] child_at(pa, o) == 0u32;
            assert(child_at(p, o) == 0u32);
            assert(ks[kid_index(g, o)] == 0u32);
        }
    }
    assert forall|i: int| 0 <= i <= header(p).count implies is_child_from(
        pa,
        #[trigger] child_at(p, i),
        mid + 1,
    ) == (i > mid) by {
        let k = child_at(p, i);
        if i > mid {
            assert(child_at(pa, i) == k);
        } else {
            if is_child_from(pa, k, mid + 1) {
                let o = choose|o: int|
                    mid + 1 <= o <= header(pa).count && #[trigger] child_at(pa, o) == k;
                assert(child_at(p, o) == k);
                assert(ks[kid_index(g, o)] == k);
                assert(ks[kid_index(g, i)] == k);
                lemma_kids_distinct(ps, np, lim, w, n, c, g, kid_index(g, i), kid_index(g, o));
            }
        }
    }
    assert(halves_before(p, ps_b[x as int], ps_b[q as int], mid)) by {
        assert forall|j: int| 0 <= j < header(p).count - mid - 1 implies #[trigger] internal_child(
            ps_b[q as int],
            j,
        ) == internal_child(p, mid + 1 + j) && internal_key(ps_b[q as int], j) == internal_key(
            p,
            mid + 1 + j,
        ) by {
            assert(internal_child(ps_b[q as int], j) == internal_child(pa, mid + 1 + j));
        }
    }
    if g <= mid {
        lemma_halves_lower(
            ps,
            np,
            lim,
            w,
            n,
            c,
            g,
            mid,
            ps_b[x as int],
            ps_b[q as int],
            ps_f[x as int],
            cmax,
        );
        assert(ps_f[q as int] == ps_b[q as int]);
    } else {
        lemma_halves_upper(
            ps,
            np,
            lim,
            w,
            n,
            c,
            g,
            mid,
            ps_b[x as int],
            ps_b[q as int],
            ps_f[q as int],
            cmax,
            rmax,
        );
        assert(ps_f[x as int] == ps_b[x as int]);
    }
    // the key in the root
    let r0 = ps_b[0];
    assert(r0 == ps_a[0]);
    assert(internal_lower_bound(r0, rmax, 0)) by {
        assert forall|i: int| 0 <= i < header(r0).count implies rmax <= #[trigger] internal_key(
            r0,
            i,
        ) by {}
    }
}

/// What the steps leave of the page of a child of the old root.
pub proof fn lemma_root_kid(
    ps: Seq<Seq<u8>>,
    np: u32,
    lim: Limits,
    w: Shape,
    c: u32,
    g: int,
    ps_a: Seq<Seq<u8>>,
    ps_b: Seq<Seq<u8>>,
    ps_f: Seq<Seq<u8>>,
    mid: int,
    cmax: u32,
    rmax: u32,
    s: u32,
    i: int,
)
    requires
        root_steps(ps, np, lim, w, c, g, ps_a, ps_b, ps_f, mid, cmax, rmax, s),
        0 <= i < kids(ps[0], c, g).len(),
    ensures
        reparented(
            ps[kids(ps[0], c, g)[i] as int],
            ps_f[kids(ps[0], c, g)[i] as int],
            if i < lower_kids(g, mid) {
                succ_page(np)
            } else {
                np
            },
        ),
{
    let q = np;
    let x = succ_page(np);
    let p = ps[0];
    let n = root_page();
    let ks = kids(p, c, g);
    let k = ks[i];
    lemma_pending_kids(ps, np, lim, w, n, c, g);
    lemma_root_pages(ps, np, lim, w, c, g, ps_a, ps_b, ps_f, mid, cmax, rmax, s);
    assert(k < np && k != n);
    if i == g {
        assert(k == c);
    } else {
        let o = if i < g {
            i
        } else {
            i - 1
        };
        assert(k == child_at(p, o));
        assert(k != c);
        assert(is_child_of(p, k)) by {
            assert(0 <= o < header(p).count + 1 && child_at(p, o) == k);
        }
        assert(reparented(ps[k as int], ps_a[k as int], x));
        assert(ps_f[k as int] == ps_b[k as int]);
        assert(is_child_from(ps_a[x as int], child_at(p, o), mid + 1) == (o > mid));
    }
}

/// What the steps leave of every page that is neither the root nor one of
/// its children.
pub proof fn lemma_root_other(
    ps: Seq<Seq<u8>>,
    np: u32,
    lim: Limits,
    w: Shape,
    c: u32,
    g: int,
    ps_a: Seq<Seq<u8>>,
    ps_b: Seq<Seq<u8>>,
    ps_f: Seq<Seq<u8>>,
    mid: int,
    cmax: u32,
    rmax: u32,
    s: u32,
    y: u32,
)
    requires
        root_steps(ps, np, lim, w, c, g, ps_a, ps_b, ps_f, mid, cmax, rmax, s),
        w.live.contains(y),
        y != root_page(),
        !is_kid(kids(ps[0], c, g), y),
    ensures
        ps_f[y as int] == ps[y as int],
{
    let p = ps[0];
    let x = succ_page(np);
    let n = root_page();
    let ks = kids(p, c, g);
    lemma_pending_kids(ps, np, lim, w, n, c, g);
    lemma_root_pages(ps, np, lim, w, c, g, ps_a, ps_b, ps_f, mid, cmax, rmax, s);
    assert(ks[g] == c);
    assert(y != c);
    assert(node_ok(ps, np, lim, w, y));
    assert(!is_child_of(p, y)) by {
        if is_child_of(p, y) {
            let o = choose|o: int| 0 <= o < header(p).count + 1 && #[trigger] child_at(p, o) == y;
            assert(ks[kid_index(g, o)] == y);
        }
    }
    assert(ps_a[y as int] == ps[y as int]);
    let pa = ps_a[x as int];
    assert(!is_child_from(pa, y, mid + 1)) by {
        if is_child_from(pa, y, mid + 1) {
            let o = choose|o: int| mid + 1 <= o <= header(pa).count && #[trigger] child_at(pa, o) == y;
            assert(child_at(p, o) == y);
            assert(ks[kid_index(g, o)] == y);
        }
    }
}

/// After the split of a root that is an internal node, the pages hold a
/// tree that is one level higher, with the same leaves.
pub proof fn lemma_split_root(
    ps: Seq<Seq<u8>>,
    np: u32,
    lim: Limits,
    w: Shape,
    c: u32,
    g: int,
    ps_a: Seq<Seq<u8>>,
    ps_b: Seq<Seq<u8>>,
    ps_f: Seq<Seq<u8>>,
    mid: int,
    cmax: u32,
    rmax: u32,
    s: u32,
)
    requires
        root_steps(ps, np, lim, w, c, g, ps_a, ps_b, ps_f, mid, cmax, rmax, s),
    ensures
        tree_ok(ps_f, (np + 2) as u32, lim, shape_root_split(w, succ_page(np), np, s as int)),
        same_leaves(ps, w, ps_f, shape_root_split(w, succ_page(np), np, s as int)),
{
    let q = np;
    let x = succ_page(np);
    let n = root_page();
    let p = ps[0];
    let ks = kids(p, c, g);
    let nx = lower_kids(g, mid);
    let w2 = shape_root_split(w, x, q, s as int);
    let np2 = (np + 2) as u32;
    lemma_pending_kids(ps, np, lim, w, n, c, g);
    lemma_root_pages(ps, np, lim, w, c, g, ps_a, ps_b, ps_f, mid, cmax, rmax, s);
    assert(node_base(ps, np, w, n));
    assert(ks[nx - 1] == child_at(p, mid));
    assert forall|i: int| 0 <= i < ks.len() implies reparented(
        ps[ks[i] as int],
        #[trigger] ps_f[ks[i] as int],
        if i < nx {
            x
        } else {
            q
        },
    ) by {
        lemma_root_kid(ps, np, lim, w, c, g, ps_a, ps_b, ps_f, mid, cmax, rmax, s, i);
    }
    assert forall|y: u32|
        w.live.contains(y) && y != n && y != n && !is_kid(ks, y) implies #[trigger] ps_f[y as int]
        == ps[y as int] by {
        lemma_root_other(ps, np, lim, w, c, g, ps_a, ps_b, ps_f, mid, cmax, rmax, s, y);
    }
    assert forall|y: u32| w.live.contains(y) && y != n implies #[trigger] agree(w, w2, y) by {}
    assert(split_below(ps, w, ps_f, w2, n, c, g, x, q, nx, n));
    lemma_halves_ok(ps, np, lim, w, ps_f, w2, n, c, g, x, q, nx, n);
    assert(child_at(ps_f[0], 0) == x);
    assert(child_at(ps_f[0], 1) == q);
    assert(node_ok(ps_f, np2, lim, w2, n)) by {
        assert(keys_sorted(ps_f[0]));
        assert forall|i: int| 0 <= i <= 1 implies #[trigger] child_ok(ps_f, w2, n, i) by {
            if i == 0 {
                assert(child_lo(ps_f[0], w2.lo[n], 0) == -1);
            }
        }
        assert(internal_ok(ps_f, w2, n, lim.internal_max_cells as int));
        assert(node_base(ps_f, np2, w2, n));
    }
    assert(node_ok(ps_f, np2, lim, w2, x)) by {
        assert(linked(ps_f, w2, x));
        assert(node_base(ps_f, np2, w2, x));
    }
    assert(node_ok(ps_f, np2, lim, w2, q)) by {
        assert(linked(ps_f, w2, q));
        assert(node_base(ps_f, np2, w2, q));
    }
    assert forall|y: u32| w2.live.contains(y) implies #[trigger] node_ok(ps_f, np2, lim, w2, y) by {
        if y == n || y == x || y == q {
        } else if is_kid(ks, y) {
            let i = choose|i: int| 0 <= i < ks.len() && #[trigger] ks[i] == y;
            lemma_split_kid(ps, np, lim, w, ps_f, np2, w2, n, c, g, x, q, nx, n, i);
        } else {
            lemma_split_rest(ps, np, lim, w, ps_f, np2, w2, n, c, g, x, q, nx, n, y);
        }
    }
    lemma_tree_def(ps_f, np2, lim, w2);
    lemma_split_same_leaves(ps, np, lim, w, ps_f, w2, n, c, g, x, q, nx, n);
}

/// A node that a child waits to enter can be walked down from, and the walk
/// leads into its rightmost child.
pub proof fn lemma_pending_walkable(
    ps: Seq<Seq<u8>>,
    np: u32,
    lim: Limits,
    w: Shape,
    n: u32,
    c: u32,
    g: int,
)
    requires
        pending(ps, np, lim, w, n, c, g),
    ensures
        walkable(ps, np, lim, w, n),
        node_max_key(ps, w, n) == node_max_key(ps, w, header(ps[n as int]).link),
{
    let r = header(ps[n as int]).link;
    lemma_pending_below(ps, np, lim, w, n, c, g);
    lemma_rightmost_holds_key(ps, np, lim, w, r);
    assert(node_base(ps, np, w, n));
}

/// The child of a cell of a node that a child waits to enter can be walked
/// down from, and the largest key under it is the key of the cell.
pub proof fn lemma_pending_mid(
    ps: Seq<Seq<u8>>,
    np: u32,
    lim: Limits,
    w: Shape,
    n: u32,
    c: u32,
    g: int,
    mid: int,
)
    requires
        pending(ps, np, lim, w, n, c, g),
        0 <= mid < header(ps[n as int]).count,
    ensures
        walkable(ps, np, lim, w, child_at(ps[n as int], mid)),
        node_max_key(ps, w, child_at(ps[n as int], mid)) == internal_key(ps[n as int], mid),
        child_at(ps[n as int], mid) != INVALID_PAGE_NUM,
        forall|i: int|
            0 <= i <= header(ps[n as int]).count ==> 0 < #[trigger] child_at(ps[n as int], i) < np
                && child_at(ps[n as int], i) != c && child_at(ps[n as int], i) != n,
        header(ps[n as int]).root <==> n == root_page(),
        n != root_page() ==> header(ps[n as int]).parent < np && header(ps[n as int]).parent != n,
        lim.valid(),
{
    let p = ps[n as int];
    let k = child_at(p, mid);
    lemma_pending_below(ps, np, lim, w, n, c, g);
    assert(pend_child_ok(ps, w, n, mid, c, g));
    assert(node_ok(ps, np, lim, w, k));
    lemma_rightmost_holds_key(ps, np, lim, w, k);
    lemma_max_key(ps, np, lim, w, k);
    lemma_walkable(ps, np, lim, w, k);
    assert forall|i: int| 0 <= i <= header(p).count implies 0 < #[trigger] child_at(p, i) < np
        && child_at(p, i) != c && child_at(p, i) != n by {
        assert(pend_child_ok(ps, w, n, i, c, g));
        assert(node_ok(ps, np, lim, w, child_at(p, i)));
    }
    assert(node_base(ps, np, w, n));
    if n != root_page() {
        assert(node_ok(ps, np, lim, w, header(p).parent));
    }
}

/// The two halves of a node whose keys are in order have their keys in
/// order.
pub proof fn lemma_halves_sorted(p: Seq<u8>, x1: Seq<u8>, q1: Seq<u8>, mid: int)
    requires
        keys_sorted(p),
        0 <= mid < header(p).count,
        header(x1).count == mid,
        body(x1) == body(p),
        header(q1).count == header(p).count - mid - 1,
        forall|j: int|
            0 <= j < header(p).count - mid - 1 ==> #[trigger] internal_child(q1, j)
                == internal_child(p, mid + 1 + j) && internal_key(q1, j) == internal_key(
                p,
                mid + 1 + j,
            ),
    ensures
        keys_sorted(x1),
        keys_sorted(q1),
{
    assert forall|i: int, j: int| 0 <= i < j < header(x1).count implies internal_key(x1, i)
        < internal_key(x1, j) by {
        assert(internal_key(p, i) < internal_key(p, j));
    }
    assert forall|i: int, j: int| 0 <= i < j < header(q1).count implies internal_key(q1, i)
        < internal_key(q1, j) by {
        assert(internal_child(q1, i) == internal_child(p, mid + 1 + i));
        assert(internal_child(q1, j) == internal_child(p, mid + 1 + j));
        assert(internal_key(p, mid + 1 + i) < internal_key(p, mid + 1 + j));
    }
}

/// The page of the parent is untouched while the upper half of a node that
/// is not the root moves.
pub proof fn lemma_pending_parent_page(
    ps: Seq<Seq<u8>>,
    np: u32,
    lim: Limits,
    w: Shape,
    n: u32,
    c: u32,
    g: int,
    ps_a: Seq<Seq<u8>>,
    ps_b: Seq<Seq<u8>>,
    mid: int,
)
    requires
        pending(ps, np, lim, w, n, c, g),
        n != root_page(),
        np < TABLE_MAX_PAGES,
        0 <= mid < header(ps[n as int]).count,
        fresh_internal(ps, ps_a, np),
        upper_half_moved(ps_a, ps_b, n, np, mid),
    ensures
        ps_b[header(ps[n as int]).parent as int] == ps[header(ps[n as int]).parent as int],
        ps_b[c as int] == ps[c as int],
        header(ps[n as int]).parent != c,
        header(ps[n as int]).parent != np,
        header(ps[n as int]).parent != n,
        c != np,
{
    let p = ps[n as int];
    let par = header(p).parent;
    let ks = kids(p, c, g);
    lemma_pending_kids(ps, np, lim, w, n, c, g);
    assert(node_ok(ps, np, lim, w, par));
    assert(node_base(ps, np, w, c));
    assert(ps_a[n as int] == p);
    assert(!is_child_from(p, par, mid + 1)) by {
        if is_child_from(p, par, mid + 1) {
            let o = choose|o: int|
                mid + 1 <= o <= header(p).count && #[trigger] child_at(p, o) == par;
            assert(ks[kid_index(g, o)] == par);
            assert(w.level[ks[kid_index(g, o)]] + 1 == w.level[n]);
        }
    }
    assert(!is_child_from(p, c, mid + 1)) by {
        if is_child_from(p, c, mid + 1) {
            let o = choose|o: int| mid + 1 <= o <= header(p).count && #[trigger] child_at(p, o) == c;
            assert(ks[kid_index(g, o)] == c);
        }
    }
}

} // verus!
