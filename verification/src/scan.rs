//! The walk over all rows in the order of their keys.

use crate::cursor::Cursor;
use crate::node::{
    child_at, get_leaf_node_key, get_leaf_node_num_cells, header, leaf_key, leaf_value, KIND_LEAF,
    LEAF_NODE_MAX_CELLS, NODE_TYPE_OFFSET,
};
use crate::pager::TABLE_MAX_PAGES;
use crate::row::ROW_SIZE;
use crate::table::{lemma_order, Table};
use crate::tree::{
    chain_ok, contents, has_key, holds, key_inf, lemma_contents_at, lemma_same_level_apart,
    lemma_tree_basics, lemma_tree_node, linked, node_ok, root_page, tree_ok, Limits, Shape,
};
use vstd::prelude::*;
use vstd::set_lib::{lemma_int_range, lemma_len_subset, lemma_map_size_bound, set_int_range};

verus! {

/// `out` holds the rows of the table with a key below `bound`, in the
/// order of their keys, each key with its record.
pub open spec fn rows_below(t: &Table, out: Seq<(u32, Vec<u8>)>, bound: int) -> bool {
    &&& forall|i: int, j: int|
        #![trigger out[i], out[j]]
        0 <= i < j < out.len() ==> out[i].0 < out[j].0
    &&& forall|i: int|
        0 <= i < out.len() ==> t@.contains_key((#[trigger] out[i]).0) && t@[out[i].0] == out[i].1@
            && out[i].0 < bound
    &&& forall|k: u32|
        #[trigger] t@.contains_key(k) && k < bound ==> exists|i: int|
            0 <= i < out.len() && (#[trigger] out[i]).0 == k
}

/// What a walk over the table gives: all rows in the order of their keys,
/// each key with its record. The walk starts on the first cell of the first
/// leaf whether the leaf holds a cell or not, so that an empty table gives
/// what stands in the place of that cell.
pub open spec fn is_scan(t: &Table, out: Seq<(u32, Vec<u8>)>) -> bool {
    if t@.dom() =~= Set::<u32>::empty() {
        &&& out.len() == 1
        &&& out[0].0 == leaf_key(t.pager@[0], 0)
        &&& out[0].1@ == leaf_value(t.pager@[0], 0)
    } else {
        rows_below(t, out, key_inf())
    }
}

/// A key of the tree that falls in the interval of a leaf stands in that
/// leaf.
pub proof fn lemma_key_in_leaf(
    ps: Seq<Seq<u8>>,
    np: u32,
    lim: Limits,
    w: Shape,
    n: u32,
    k: u32,
) -> (i: int)
    requires
        tree_ok(ps, np, lim, w),
        w.live.contains(n),
        w.level[n] == 0,
        w.lo[n] < k <= w.hi[n],
        contents(ps, w).contains_key(k),
    ensures
        holds(ps, w, n, i, k),
{
    reveal(tree_ok);
    assert(has_key(ps, w, k));
    let (m, i) = choose|m: u32, i: int| holds(ps, w, m, i, k);
    assert(node_ok(ps, np, lim, w, n));
    assert(node_ok(ps, np, lim, w, m));
    if m != n {
        lemma_same_level_apart(ps, np, lim, w, n, m);
        assert(w.lo[m] < leaf_key(ps[m as int], i) <= w.hi[m]);
    }
    i
}

/// The walk may go on from a cell to the place behind it: no key of the
/// tree lies between the key of the cell and the key at the next place.
pub proof fn lemma_scan_step(t: &Table, c: Cursor, k: u32)
    requires
        t.wf(),
        t.shape@.live.contains(c.page_num),
        t.shape@.level[c.page_num] == 0,
        c.cell_num < header(t.pager@[c.page_num as int]).count,
        !c.end_of_table,
        t@.contains_key(k),
        k > leaf_key(t.pager@[c.page_num as int], c.cell_num as int),
    ensures
        !c.advanced(t).end_of_table,
        k >= leaf_key(t.pager@[c.advanced(t).page_num as int], c.advanced(t).cell_num as int),
{
    let ps = t.pager@;
    let w = t.shape@;
    let np = t.pager.num_pages;
    let lim = t.limits;
    let n = c.page_num;
    let p = ps[n as int];
    let cnt = header(p).count as int;
    lemma_tree_node(ps, np, lim, w, n);
    assert(w.lo[n] < leaf_key(p, c.cell_num as int) <= w.hi[n]);
    if k <= w.hi[n] {
        let i = lemma_key_in_leaf(ps, np, lim, w, n, k);
        assert(0 <= i < cnt && leaf_key(p, i) == k);
        if i <= c.cell_num {
            if i < c.cell_num {
                assert(leaf_key(p, i) < leaf_key(p, c.cell_num as int));
            }
        }
        assert(c.cell_num + 1 <= i);
        assert(c.advanced(t).page_num == n && c.advanced(t).cell_num == c.cell_num + 1);
        if c.cell_num + 1 < i {
            assert(leaf_key(p, c.cell_num + 1) < leaf_key(p, i));
        }
    } else {
        assert(chain_ok(ps, w, n));
        let nx = header(p).link;
        assert(nx != 0);
        lemma_tree_node(ps, np, lim, w, nx);
        if c.cell_num + 1 < cnt {
            assert(w.lo[n] < leaf_key(p, c.cell_num + 1) <= w.hi[n]);
        } else {
            // the first key of the next leaf is the first key above the bound
            assert(c.advanced(t).page_num == nx && c.advanced(t).cell_num == 0);
            lemma_first_key(t, nx, k);
        }
    }
}

/// No key of the tree above the lower bound of a leaf is below the first
/// key of the leaf.
pub proof fn lemma_first_key(t: &Table, n: u32, k: u32)
    requires
        t.wf(),
        t.shape@.live.contains(n),
        t.shape@.level[n] == 0,
        header(t.pager@[n as int]).count >= 1,
        t@.contains_key(k),
        k > t.shape@.lo[n],
    ensures
        k >= leaf_key(t.pager@[n as int], 0),
{
    let ps = t.pager@;
    let w = t.shape@;
    let p = ps[n as int];
    lemma_tree_node(ps, t.pager.num_pages, t.limits, w, n);
    if k < leaf_key(p, 0) {
        assert(w.lo[n] < leaf_key(p, 0) <= w.hi[n]);
        let i = lemma_key_in_leaf(ps, t.pager.num_pages, t.limits, w, n, k);
        if 0 < i {
            assert(leaf_key(p, 0) < leaf_key(p, i));
        }
    }
}

/// A table whose root is a leaf without cells has no rows, and any other
/// table has some.
pub proof fn lemma_empty(t: &Table)
    requires
        t.wf(),
    ensures
        (t@.dom() =~= Set::<u32>::empty()) <==> (t.shape@.level[root_page()] == 0 && header(
            t.pager@[0],
        ).count == 0),
{
    reveal(tree_ok);
    let ps = t.pager@;
    let w = t.shape@;
    let np = t.pager.num_pages;
    let lim = t.limits;
    assert(node_ok(ps, np, lim, w, root_page()));
    if w.level[root_page()] == 0 && header(ps[0]).count == 0 {
        assert forall|k: u32| !t@.dom().contains(k) by {
            if t@.dom().contains(k) {
                assert(has_key(ps, w, k));
                let (m, i) = choose|m: u32, i: int| holds(ps, w, m, i, k);
                crate::grow::lemma_only_root(ps, np, lim, w, m);
            }
        }
    } else {
        let n = crate::tree::rightmost_leaf(ps, w, root_page());
        assert(crate::tree::below_ok(ps, np, lim, w, w.level[root_page()])) by {
            assert forall|m: u32|
                w.live.contains(m) && w.level[m] <= w.level[root_page()] implies #[trigger] crate::tree::node_core(
                ps,
                np,
                lim,
                w,
                m,
            ) by {
                assert(node_ok(ps, np, lim, w, m));
            }
        }
        if w.level[root_page()] > 0 {
            crate::tree::lemma_rightmost_holds_key(ps, np, lim, w, root_page());
        }
        crate::tree::lemma_max_key(ps, np, lim, w, root_page());
        let k = leaf_key(ps[n as int], header(ps[n as int]).count - 1);
        assert(holds(ps, w, n, header(ps[n as int]).count - 1, k));
        assert(has_key(ps, w, k));
        assert(t@.dom().contains(k));
    }
}

impl Table {
    /// Walks over the table from the first cell of the first leaf to the
    /// end, and gives the key and the record of each cell passed.
    pub fn scan(&mut self) -> (out: Vec<(u32, Vec<u8>)>)
        requires
            old(self).wf(),
        ensures
            final(self).wf(),
            final(self).same_state(old(self)),
            is_scan(old(self), out@),
            forall|i: int| 0 <= i < out@.len() ==> (#[trigger] out@[i]).1@.len() == ROW_SIZE,
    {
        let ghost t0 = *self;
        let ghost ps = self.pager@;
        let ghost w = self.shape@;
        let ghost np = self.pager.num_pages;
        let ghost lim = self.limits;
        let mut out: Vec<(u32, Vec<u8>)> = Vec::new();
        let mut cursor = Cursor::table_start(self);
        proof {
            lemma_empty(&t0);
            lemma_tree_node(ps, np, lim, w, cursor.page_num);
            lemma_tree_basics(ps, np, lim, w);
        }
        let ghost empty = t0@.dom() =~= Set::<u32>::empty();
        proof {
            if !empty {
                // the walk starts on a cell, and no key lies before it
                assert forall|k: u32| #[trigger] t0@.contains_key(k) implies k >= leaf_key(
                    ps[cursor.page_num as int],
                    0,
                ) by {
                    lemma_first_key(&t0, cursor.page_num, k);
                }
            } else {
                assert(cursor.page_num == root_page()) by {
                    crate::grow::lemma_only_root(ps, np, lim, w, cursor.page_num);
                }
            }
        }
        while !cursor.end_of_table
            invariant
                self.wf(),
                self.same_state(&t0),
                t0.wf(),
                ps == t0.pager@,
                w == t0.shape@,
                np == t0.pager.num_pages,
                lim == t0.limits,
                empty == (t0@.dom() =~= Set::<u32>::empty()),
                empty ==> w.level[root_page()] == 0,
                empty ==> cursor.page_num == 0 && header(ps[0]).count == 0 && if cursor.end_of_table {
                    is_scan(&t0, out@)
                } else {
                    out@.len() == 0 && cursor.cell_num == 0
                },
                !empty ==> rows_below(
                    &t0,
                    out@,
                    if cursor.end_of_table {
                        key_inf()
                    } else {
                        leaf_key(ps[cursor.page_num as int], cursor.cell_num as int) as int
                    },
                ),
                !empty && !cursor.end_of_table ==> w.live.contains(cursor.page_num)
                    && w.level[cursor.page_num] == 0 && cursor.cell_num < header(
                    ps[cursor.page_num as int],
                ).count,
                !cursor.end_of_table ==> w.live.contains(cursor.page_num),
                forall|i: int| 0 <= i < out@.len() ==> (#[trigger] out@[i]).1@.len() == ROW_SIZE,
            decreases
                    if cursor.end_of_table {
                        0
                    } else {
                        key_inf() + 1 - (if empty {
                            0
                        } else {
                            leaf_key(ps[cursor.page_num as int], cursor.cell_num as int) as int
                        })
                    },
        {
            let ghost c0 = cursor;
            let ghost out0 = out@;
            proof {
                lemma_tree_node(ps, np, lim, w, cursor.page_num);
                lemma_tree_basics(ps, np, lim, w);
            }
            let page = self.pager.page(cursor.page_num);
            let key = get_leaf_node_key(page, cursor.cell_num);
            let value = cursor.cursor_value(self);
            out.push((key, value));
            cursor.advance_cursor(self);
            proof {
                assert(cursor == c0.advanced(&t0));
                if !empty {
                    lemma_scan_next(&t0, c0, out0, out@);
                } else {
                    assert(chain_ok(ps, w, root_page()));
                    assert(cursor.end_of_table);
                    assert(out@.len() == 1);
                    assert(is_scan(&t0, out@));
                }
            }
        }
        out
    }
}

/// One step of the walk: the cell under the cursor joins the rows walked
/// over, and they are the rows below the key at the next place.
pub proof fn lemma_scan_next(
    t: &Table,
    c: Cursor,
    out0: Seq<(u32, Vec<u8>)>,
    out: Seq<(u32, Vec<u8>)>,
)
    requires
        t.wf(),
        t.shape@.live.contains(c.page_num),
        t.shape@.level[c.page_num] == 0,
        c.cell_num < header(t.pager@[c.page_num as int]).count,
        !c.end_of_table,
        rows_below(t, out0, leaf_key(t.pager@[c.page_num as int], c.cell_num as int) as int),
        out.len() == out0.len() + 1,
        forall|i: int| 0 <= i < out0.len() ==> out[i] == out0[i],
        out[out0.len() as int].0 == leaf_key(t.pager@[c.page_num as int], c.cell_num as int),
        out[out0.len() as int].1@ == leaf_value(t.pager@[c.page_num as int], c.cell_num as int),
    ensures
        rows_below(
            t,
            out,
            if c.advanced(t).end_of_table {
                key_inf()
            } else {
                leaf_key(t.pager@[c.advanced(t).page_num as int], c.advanced(t).cell_num as int) as int
            },
        ),
        !c.advanced(t).end_of_table ==> t.shape@.live.contains(c.advanced(t).page_num)
            && t.shape@.level[c.advanced(t).page_num] == 0 && c.advanced(t).cell_num < header(
            t.pager@[c.advanced(t).page_num as int],
        ).count && leaf_key(t.pager@[c.advanced(t).page_num as int], c.advanced(t).cell_num as int)
            > leaf_key(t.pager@[c.page_num as int], c.cell_num as int),
{
    let ps = t.pager@;
    let w = t.shape@;
    let np = t.pager.num_pages;
    let lim = t.limits;
    let n = c.page_num;
    let p = ps[n as int];
    let cur = leaf_key(p, c.cell_num as int);
    let a = c.advanced(t);
    let bound = if a.end_of_table {
        key_inf()
    } else {
        leaf_key(ps[a.page_num as int], a.cell_num as int) as int
    };
    lemma_tree_node(ps, np, lim, w, n);
    lemma_tree_basics(ps, np, lim, w);
    assert(holds(ps, w, n, c.cell_num as int, cur));
    lemma_contents_at(ps, np, lim, w, cur, n, c.cell_num as int);
    assert(chain_ok(ps, w, n));
    assert(w.lo[n] < cur <= w.hi[n]);
    if !a.end_of_table {
        if a.page_num == n {
            assert(cur < leaf_key(p, c.cell_num + 1));
        } else {
            lemma_tree_node(ps, np, lim, w, a.page_num);
            assert(w.lo[a.page_num] < leaf_key(ps[a.page_num as int], 0) <= w.hi[a.page_num]);
        }
    }
    assert forall|i: int, j: int|
        #![trigger out[i], out[j]]
        0 <= i < j < out.len() implies out[i].0 < out[j].0 by {
        if j < out0.len() {
            assert(out0[i].0 < out0[j].0);
        } else {
            assert(out0[i].0 < cur);
        }
    }
    assert forall|i: int| 0 <= i < out.len() implies t@.contains_key((#[trigger] out[i]).0)
        && t@[out[i].0] == out[i].1@ && out[i].0 < bound by {
        if i < out0.len() {
            assert(out0[i].0 < cur);
        }
    }
    assert forall|k: u32| #[trigger] t@.contains_key(k) && k < bound implies exists|i: int|
        0 <= i < out.len() && (#[trigger] out[i]).0 == k by {
        if k < cur {
            let i = choose|i: int| 0 <= i < out0.len() && (#[trigger] out0[i]).0 == k;
            assert(out[i].0 == k);
        } else if k == cur {
            assert(out[out0.len() as int].0 == k);
        } else {
            lemma_scan_step(t, c, k);
        }
    }
}

/// The key in cell slot `s` of the pages, where the slots are counted page
/// after page and every page has as many as a leaf has cells.
pub open spec fn slot_key(ps: Seq<Seq<u8>>, s: int) -> u32 {
    leaf_key(ps[s / (LEAF_NODE_MAX_CELLS as int)], s % (LEAF_NODE_MAX_CELLS as int))
}

/// A table holds no more rows than its pages have cells.
pub proof fn lemma_row_bound(t: &Table)
    requires
        t.wf(),
    ensures
        t@.dom().finite(),
        t@.dom().len() <= TABLE_MAX_PAGES * LEAF_NODE_MAX_CELLS,
{
    let ps = t.pager@;
    let w = t.shape@;
    let np = t.pager.num_pages;
    let lim = t.limits;
    let slots = set_int_range(0, TABLE_MAX_PAGES * LEAF_NODE_MAX_CELLS);
    let key_of = |s: int| slot_key(ps, s);
    let keys = slots.map(key_of);
    lemma_int_range(0, TABLE_MAX_PAGES * LEAF_NODE_MAX_CELLS);
    lemma_map_size_bound(slots, keys, key_of);
    lemma_tree_basics(ps, np, lim, w);
    assert forall|k: u32| t@.dom().contains(k) implies keys.contains(k) by {
        let (n, i) = choose|n: u32, i: int| holds(ps, w, n, i, k);
        lemma_tree_node(ps, np, lim, w, n);
        let s = n * LEAF_NODE_MAX_CELLS + i;
        assert(s / (LEAF_NODE_MAX_CELLS as int) == n && s % (LEAF_NODE_MAX_CELLS as int) == i);
        assert(slots.contains(s));
        assert(key_of(s) == k);
    }
    lemma_len_subset(t@.dom(), keys);
}

/// The key in cell slot `s` under the root, where the slots are counted
/// child after child of the root and every child has `cells` of them.
pub open spec fn child_slot_key(ps: Seq<Seq<u8>>, cells: int, s: int) -> u32 {
    leaf_key(ps[child_at(ps[0], s / cells) as int], s % cells)
}

/// A tree of no more than two levels, a root with leaves below it or a
/// leaf alone, holds no more rows than the children of a root have cells.
/// A table with more rows has a tree of three levels or more: below its
/// root stands an internal node.
pub proof fn lemma_shallow_tree(t: &Table)
    requires
        t.wf(),
        t.shape@.level[root_page()] <= 1,
    ensures
        t@.dom().finite(),
        t@.dom().len() <= (t.limits.internal_max_cells + 1) * t.limits.leaf_max_cells,
{
    let ps = t.pager@;
    let w = t.shape@;
    let np = t.pager.num_pages;
    let lim = t.limits;
    let cells = lim.leaf_max_cells as int;
    let children = lim.internal_max_cells + 1;
    let root = root_page();
    lemma_tree_basics(ps, np, lim, w);
    lemma_tree_node(ps, np, lim, w, root);
    assert(0 <= children * cells) by (nonlinear_arith)
        requires
            0 <= children,
            0 <= cells,
    ;
    let slots = set_int_range(0, children * cells);
    lemma_int_range(0, children * cells);
    if w.level[root] == 0 {
        let key_of = |s: int| leaf_key(ps[0], s);
        let keys = slots.map(key_of);
        lemma_map_size_bound(slots, keys, key_of);
        assert forall|k: u32| t@.dom().contains(k) implies keys.contains(k) by {
            let (n, i) = choose|n: u32, i: int| holds(ps, w, n, i, k);
            lemma_tree_node(ps, np, lim, w, n);
            if n != root {
                assert(linked(ps, w, n));
                lemma_tree_node(ps, np, lim, w, header(ps[n as int]).parent);
            }
            assert(i < children * cells) by (nonlinear_arith)
                requires
                    i < cells,
                    0 <= cells,
                    1 <= children,
            ;
            assert(slots.contains(i));
            assert(key_of(i) == k);
        }
        lemma_len_subset(t@.dom(), keys);
    } else {
        let key_of = |s: int| child_slot_key(ps, cells, s);
        let keys = slots.map(key_of);
        lemma_map_size_bound(slots, keys, key_of);
        assert forall|k: u32| t@.dom().contains(k) implies keys.contains(k) by {
            let (n, j) = choose|n: u32, j: int| holds(ps, w, n, j, k);
            lemma_tree_node(ps, np, lim, w, n);
            assert(linked(ps, w, n));
            let parent = header(ps[n as int]).parent;
            lemma_tree_node(ps, np, lim, w, parent);
            if parent != root {
                assert(linked(ps, w, parent));
                lemma_tree_node(ps, np, lim, w, header(ps[parent as int]).parent);
            }
            let i = choose|i: int|
                0 <= i <= header(ps[parent as int]).count && #[trigger] child_at(
                    ps[parent as int],
                    i,
                ) == n;
            let s = i * cells + j;
            vstd::arithmetic::div_mod::lemma_fundamental_div_mod_converse(s, cells, i, j);
            assert(0 <= s < children * cells) by (nonlinear_arith)
                requires
                    s == i * cells + j,
                    0 <= i < children,
                    0 <= j < cells,
            ;
            assert(slots.contains(s));
            assert(key_of(s) == k);
        }
        lemma_len_subset(t@.dom(), keys);
    }
}

/// A walk over a table that has rows is as long as the table has rows.
pub proof fn lemma_scan_len(t: &Table, out: Seq<(u32, Vec<u8>)>)
    requires
        rows_below(t, out, key_inf()),
    ensures
        t@.dom().finite(),
        out.len() == t@.dom().len(),
{
    let keys = Seq::new(out.len(), |i: int| out[i].0);
    assert forall|i: int, j: int| 0 <= i < keys.len() && 0 <= j < keys.len() && i != j implies keys[i]
        != keys[j] by {
        if i < j {
            assert(out[i].0 < out[j].0);
        } else {
            assert(out[j].0 < out[i].0);
        }
    }
    keys.unique_seq_to_set();
    vstd::seq_lib::seq_to_set_is_finite(keys);
    assert forall|k: u32| keys.to_set().contains(k) <==> t@.dom().contains(k) by {
        if keys.to_set().contains(k) {
            let i = choose|i: int| 0 <= i < keys.len() && keys[i] == k;
            assert(t@.contains_key(out[i].0));
        }
        if t@.contains_key(k) {
            let i = choose|i: int| 0 <= i < out.len() && (#[trigger] out[i]).0 == k;
            assert(keys[i] == k);
        }
    }
    assert(keys.to_set() =~= t@.dom());
}

impl Table {
    /// The number of rows that the tree holds, found by a walk over them.
    pub fn count_rows(&mut self) -> (n: u32)
        requires
            old(self).wf(),
        ensures
            final(self).wf(),
            final(self).same_state(old(self)),
            old(self)@.dom().finite(),
            n == old(self)@.dom().len(),
    {
        let ghost t0 = *self;
        let out = self.scan();
        proof {
            lemma_row_bound(&t0);
            lemma_empty(&t0);
            lemma_tree_basics(t0.pager@, t0.pager.num_pages, t0.limits, t0.shape@);
            lemma_order(&t0, root_page());
        }
        let root = self.pager.page(0);
        if root.read_u8(NODE_TYPE_OFFSET) == KIND_LEAF && get_leaf_node_num_cells(root) == 0 {
            0
        } else {
            proof {
                lemma_scan_len(&t0, out@);
            }
            out.len() as u32
        }
    }
}

} // verus!
