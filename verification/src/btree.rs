//! The operations on the tree: search from a node down, and insertion with
//! the splits that it sets off.

use crate::cursor::Cursor;
use crate::node::{
    insert_internal_cell, internal_cell_inserted, internal_cells_same_except, internal_child,
    read_internal_child, set_internal_node_cell, set_internal_node_num_cells,
    set_internal_node_right_child, Header,
};
use crate::node::{
    child_at, get_internal_node_child_page_num, get_internal_node_key,
    get_internal_node_num_cells, get_internal_node_right_child, get_leaf_node_key, header,
    internal_key, leaf_key, Node, NodeType, INTERNAL_NODE_SLOTS, KIND_INTERNAL, KIND_LEAF,
    LEAF_NODE_MAX_CELLS,
};
use crate::node::{
    get_leaf_node_num_cells, get_leaf_node_value, leaf_cells_same_except, leaf_value, merged_key,
    merged_value, set_leaf_node_cell,
};
use crate::pager::{Page, Pager, PAGE_SIZE, TABLE_MAX_PAGES};
use crate::row::ROW_SIZE;
use crate::table::Table;
use crate::grow::entered;
use crate::grow::{
    lemma_pending_below, lemma_pending_place, lemma_place_pending, lemma_placed_entered, pending,
};
use crate::grow::{
    leaf_halved, leaf_split_done, lemma_leaf_split_pending, lemma_root_leaf_split,
    lemma_split_halves, lemma_split_rows, reparented, shape_leaf_split, shape_root_leaf_split,
    split_point, succ_page,
};
use crate::node::{is_node_root, set_leaf_node_next_leaf, set_leaf_node_num_cells};
use crate::grow::is_leaf;
use crate::node::merged_cell;
use crate::error::DbError;
use crate::grow::lemma_leaf_insert;
use crate::node::{insert_leaf_cell, leaf_cell_inserted};
use crate::row::Row;
use crate::tree::{kept_below, same_leaf, Limits, Shape};
use crate::split::{halves_of, lemma_nonroot_done, lemma_root_done};
use crate::split::{
    lemma_halves_sorted, lemma_pending_kids, lemma_pending_mid, lemma_pending_parent_page,
    lemma_pending_walkable, lemma_split_nonroot, lemma_split_root, nonroot_steps, root_steps,
    shape_internal_split, shape_root_split,
};
use crate::tree::{lemma_same_leaves_trans, lemma_walkable_more, linked, node_base};
use crate::tree::{
    key_inf, lemma_key_at_its_place, lemma_leaf_walkable, lemma_leaf_walkable_after,
    lemma_rows_are_contents, lemma_same_leaves_rows, lemma_tree_basics, lemma_tree_node,
};
use crate::node::{body, INVALID_PAGE_NUM};
use crate::tree::{
    lemma_max_key, lemma_rightmost_holds_key, lemma_walkable, lemma_walkable_down, root_page,
    same_leaves, walkable,
};
use crate::tree::{
    child_ok, internal_lower_bound, keys_sorted, leaf_lower_bound, leaf_sorted, node_core,
    node_max_key, node_ok, tree_ok,
};
use vstd::prelude::*;

verus! {

impl Node {
    /// Binary search in a leaf: the index of the first cell whose key is not
    /// smaller than `key`, which is the number of cells where every key is
    /// smaller.
    pub fn find_key_in_leaf_node(table: &mut Table, page_num: u32, key: u32) -> (c: Cursor)
        requires
            old(table).pager.wf(),
            page_num < old(table).pager.num_pages,
            page_num < TABLE_MAX_PAGES,
            header(old(table).pager@[page_num as int]).count <= LEAF_NODE_MAX_CELLS,
            leaf_sorted(old(table).pager@[page_num as int]),
        ensures
            final(table).pager.wf(),
            final(table).same_state(old(table)),
            c.page_num == page_num,
            !c.end_of_table,
            leaf_lower_bound(old(table).pager@[page_num as int], key, c.cell_num as int),
    {
        let node = table.pager.page(page_num);
        let num_cells = Node::get_leaf_node_num_cells(node);
        let mut min_index: u32 = 0;
        let mut one_past_max_index: u32 = num_cells;
        while one_past_max_index != min_index
            invariant
                node.wf(),
                num_cells == header(node@).count,
                num_cells <= LEAF_NODE_MAX_CELLS,
                leaf_sorted(node@),
                min_index <= one_past_max_index <= num_cells,
                forall|i: int| 0 <= i < min_index ==> #[trigger] leaf_key(node@, i) < key,
                forall|i: int|
                    one_past_max_index <= i < num_cells ==> key <= #[trigger] leaf_key(node@, i),
            decreases one_past_max_index - min_index,
        {
            let index = (one_past_max_index + min_index) / 2;
            let key_at_index = get_leaf_node_key(node, index);
            if key > key_at_index {
                proof {
                    assert forall|i: int| 0 <= i < index + 1 implies #[trigger] leaf_key(node@, i)
                        < key by {
                        if i < index {
                            assert(leaf_key(node@, i) < leaf_key(node@, index as int));
                        }
                    }
                }
                min_index = index + 1;
            } else {
                proof {
                    assert forall|i: int| index <= i < num_cells implies key <= #[trigger] leaf_key(
                        node@,
                        i,
                    ) by {
                        if index < i {
                            assert(leaf_key(node@, index as int) < leaf_key(node@, i));
                        }
                    }
                }
                one_past_max_index = index;
            }
        }
        Cursor { page_num, cell_num: min_index, end_of_table: false }
    }

    /// Binary search among the keys of an internal node: the index of the
    /// first cell whose key is not smaller than `key`, which is the number
    /// of cells where every key is smaller.
    pub fn find_key_cell_index_internal_node(page: &Page, key: u32) -> (idx: u32)
        requires
            page.wf(),
            header(page@).count <= INTERNAL_NODE_SLOTS,
            keys_sorted(page@),
        ensures
            internal_lower_bound(page@, key, idx as int),
    {
        let num_cells = get_internal_node_num_cells(page);
        let mut min_index: u32 = 0;
        let mut max_index: u32 = num_cells;
        while min_index != max_index
            invariant
                page.wf(),
                num_cells == header(page@).count,
                num_cells <= INTERNAL_NODE_SLOTS,
                keys_sorted(page@),
                min_index <= max_index <= num_cells,
                forall|i: int| 0 <= i < min_index ==> #[trigger] internal_key(page@, i) < key,
                forall|i: int| max_index <= i < num_cells ==> key <= #[trigger] internal_key(page@, i),
            decreases max_index - min_index,
        {
            let index = (max_index + min_index) / 2;
            let key_at_index = get_internal_node_key(page, index);
            if key > key_at_index {
                proof {
                    assert forall|i: int| 0 <= i < index + 1 implies #[trigger] internal_key(
                        page@,
                        i,
                    ) < key by {
                        if i < index {
                            assert(internal_key(page@, i) < internal_key(page@, index as int));
                        }
                    }
                }
                min_index = index + 1;
            } else {
                proof {
                    assert forall|i: int| index <= i < num_cells implies key
                        <= #[trigger] internal_key(page@, i) by {
                        if index < i {
                            assert(internal_key(page@, index as int) < internal_key(page@, i));
                        }
                    }
                }
                max_index = index;
            }
        }
        min_index
    }

    /// Searches from an internal node down: picks the child whose interval
    /// `key` falls in, and goes on there until it reaches a leaf.
    pub fn find_key_in_internal_node(table: &mut Table, page_num: u32, key: u32) -> (c: Cursor)
        requires
            old(table).wf(),
            old(table).shape@.live.contains(page_num),
            old(table).shape@.level[page_num] > 0,
            old(table).shape@.lo[page_num] < key <= old(table).shape@.hi[page_num],
        ensures
            final(table).wf(),
            final(table).same_state(old(table)),
            c.positioned(final(table), key),
        decreases old(table).shape@.level[page_num],
    {
        let ghost ps = table.pager@;
        let ghost w = table.shape@;
        let ghost np = table.pager.num_pages;
        let ghost lim = table.limits;
        proof {
            reveal(tree_ok);
            assert(node_ok(ps, np, lim, w, page_num));
        }
        let node = table.pager.page(page_num);
        let cell_index = Node::find_key_cell_index_internal_node(node, key);
        proof {
            assert(child_ok(ps, w, page_num, cell_index as int));
            assert(node_ok(ps, np, lim, w, child_at(ps[page_num as int], cell_index as int)));
        }
        let child_node_page_num = get_internal_node_child_page_num(node, cell_index);
        let child = table.pager.page(child_node_page_num);
        let child_type = Node::get_node_type(child);
        match child_type {
            NodeType::INTERNAL => Node::find_key_in_internal_node(table, child_node_page_num, key),
            NodeType::LEAF => Node::find_key_in_leaf_node(table, child_node_page_num, key),
        }
    }
}

/// The largest key under a node: follows the rightmost children down to a
/// leaf and gives the last key there. That leaf must hold a key.
pub fn get_node_max_key(table: &mut Table, page_num: u32) -> (key: u32)
    requires
        old(table).pager.wf(),
        walkable(
            old(table).pager@,
            old(table).pager.num_pages,
            old(table).limits,
            old(table).shape@,
            page_num,
        ),
    ensures
        final(table).pager.wf(),
        final(table).same_state(old(table)),
        key == node_max_key(old(table).pager@, old(table).shape@, page_num),
    decreases old(table).shape@.level[page_num],
{
    let ghost ps = table.pager@;
    let ghost w = table.shape@;
    let ghost np = table.pager.num_pages;
    let ghost lim = table.limits;
    let node = table.pager.page(page_num);
    match Node::get_node_type(node) {
        NodeType::INTERNAL => {
            let right_child_page_num = get_internal_node_right_child(node);
            proof {
                assert(node_core(ps, np, lim, w, right_child_page_num));
                lemma_walkable_down(ps, np, lim, w, page_num);
            }
            get_node_max_key(table, right_child_page_num)
        },
        NodeType::LEAF => {
            let num_cells = Node::get_leaf_node_num_cells(node);
            get_leaf_node_key(node, num_cells - 1)
        },
    }
}

/// A key has one place only among the keys of an internal node.
pub proof fn lemma_lower_bound_unique(p: Seq<u8>, key: u32, i: int, j: int)
    requires
        internal_lower_bound(p, key, i),
        internal_lower_bound(p, key, j),
    ensures
        i == j,
{
    if i < j {
        assert(internal_key(p, i) < key);
        assert(key <= internal_key(p, i));
    }
    if j < i {
        assert(internal_key(p, j) < key);
        assert(key <= internal_key(p, j));
    }
}

/// Page `q` is page `p` after a child with largest key `cmax` has entered,
/// where `rmax` is the largest key under the rightmost child. A child with
/// keys above all others becomes the rightmost child, and the one that was
/// rightmost gets a cell. Any other child gets a cell at the place of its
/// largest key.
pub open spec fn placed(p: Seq<u8>, q: Seq<u8>, child: u32, cmax: u32, rmax: u32) -> bool {
    if cmax > rmax {
        &&& header(q) == (Header {
            count: (header(p).count + 1) as u32,
            link: child,
            ..header(p)
        })
        &&& internal_child(q, header(p).count as int) == header(p).link
        &&& internal_key(q, header(p).count as int) == rmax
        &&& internal_cells_same_except(p, q, header(p).count as int)
    } else {
        forall|idx: int| #[trigger]
            internal_lower_bound(p, cmax, idx) ==> internal_cell_inserted(p, q, idx, child, cmax)
    }
}

/// Enters a child into an internal node that has room and a rightmost
/// child.
pub fn place_child(page: &mut Page, child_page_num: u32, child_max_key: u32, right_child_max_key: u32)
    requires
        old(page).wf(),
        header(old(page)@).count < INTERNAL_NODE_SLOTS,
        keys_sorted(old(page)@),
    ensures
        final(page).wf(),
        placed(old(page)@, final(page)@, child_page_num, child_max_key, right_child_max_key),
{
    let num_cells = get_internal_node_num_cells(page);
    let right_child = get_internal_node_right_child(page);
    let ghost pg0 = page@;
    if child_max_key > right_child_max_key {
        set_internal_node_cell(page, num_cells, right_child, right_child_max_key);
        let ghost pg1 = page@;
        set_internal_node_right_child(page, child_page_num);
        let ghost pg2 = page@;
        set_internal_node_num_cells(page, num_cells + 1);
        let ghost pg3 = page@;
        proof {
            assert forall|j: int| 0 <= j < INTERNAL_NODE_SLOTS && j != num_cells implies #[trigger] internal_child(
                pg3,
                j,
            ) == internal_child(pg0, j) && internal_key(pg3, j) == internal_key(pg0, j) by {
                assert(internal_child(pg1, j) == internal_child(pg0, j));
            }
            assert(internal_cells_same_except(pg0, pg3, num_cells as int));
        }
    } else {
        let cell_index = Node::find_key_cell_index_internal_node(page, child_max_key);
        insert_internal_cell(page, cell_index, child_page_num, child_max_key);
        proof {
            assert forall|idx: int| #[trigger]
                internal_lower_bound(pg0, child_max_key, idx) implies internal_cell_inserted(
                pg0,
                page@,
                idx,
                child_page_num,
                child_max_key,
            ) by {
                lemma_lower_bound_unique(pg0, child_max_key, idx, cell_index as int);
            }
        }
    }
}

/// Page `q` is page `p` after the key that stood for a child was replaced:
/// `key` is a key of that child, and `new_key` its largest key now. The
/// rightmost child has no key, and for it nothing changes.
pub open spec fn key_updated(p: Seq<u8>, q: Seq<u8>, key: u32, new_key: u32) -> bool {
    forall|idx: int| #[trigger]
        internal_lower_bound(p, key, idx) ==> if idx == header(p).count {
            q == p
        } else {
            &&& header(q) == header(p)
            &&& internal_child(q, idx) == internal_child(p, idx)
            &&& internal_key(q, idx) == new_key
            &&& internal_cells_same_except(p, q, idx)
        }
}

impl Node {
    /// Replaces the key that stands for the child under which `key` belongs
    /// by `new_key`.
    pub fn update_internal_node_key(page: &mut Page, key: u32, new_key: u32)
        requires
            old(page).wf(),
            header(old(page)@).count <= INTERNAL_NODE_SLOTS,
            keys_sorted(old(page)@),
        ensures
            final(page).wf(),
            key_updated(old(page)@, final(page)@, key, new_key),
    {
        let old_child_cell_num = Node::find_key_cell_index_internal_node(page, key);
        let num_cells = get_internal_node_num_cells(page);
        let ghost pg0 = page@;
        proof {
            assert forall|idx: int| #[trigger]
                internal_lower_bound(pg0, key, idx) implies idx == old_child_cell_num by {
                lemma_lower_bound_unique(pg0, key, idx, old_child_cell_num as int);
            }
        }
        if num_cells == old_child_cell_num {
            return ;
        }
        let child_page_num = read_internal_child(page, old_child_cell_num);
        set_internal_node_cell(page, old_child_cell_num, child_page_num, new_key);
    }
}

/// What an entry into an internal node leaves alone: the leaves with their
/// cells, the file image, and the counts and limits of the table.
pub open spec fn grown(old_t: &Table, new_t: &Table) -> bool {
    &&& same_leaves(old_t.pager@, old_t.shape@, new_t.pager@, new_t.shape@)
    &&& new_t.pager.file == old_t.pager.file
    &&& new_t.pager.file_length == old_t.pager.file_length
    &&& new_t.num_rows == old_t.num_rows
    &&& new_t.root_page_num == old_t.root_page_num
    &&& new_t.limits == old_t.limits
}

/// Child `c` waits to enter node `n` of the tree: the tree is in order but
/// for `n`, which does not hold `c` yet, and the children of `n` leave room
/// for the keys under `c` at one place: before the first of them, between
/// two of them, or behind the last. So stands the new sibling of a child
/// that was split.
pub open spec fn waiting(t: &Table, n: u32, c: u32) -> bool {
    exists|g: int| pending(t.pager@, t.pager.num_pages, t.limits, t.shape@, n, c, g)
}

/// Page `n` holds an internal node with room for one more child, whose
/// keys are in order, and the largest keys can be found under `c` and under
/// the rightmost child of the node, where it has one. Nothing is asked of
/// where the keys of `c` stand among the others.
pub open spec fn may_enter(t: &Table, n: u32, c: u32) -> bool {
    let ps = t.pager@;
    let p = ps[n as int];
    &&& n < t.pager.num_pages <= TABLE_MAX_PAGES
    &&& n != c
    &&& header(p).kind == KIND_INTERNAL
    &&& header(p).count < t.limits.internal_max_cells
    &&& header(p).count < INTERNAL_NODE_SLOTS
    &&& keys_sorted(p)
    &&& walkable(ps, t.pager.num_pages, t.limits, t.shape@, c)
    &&& header(p).link != INVALID_PAGE_NUM ==> walkable(
        ps,
        t.pager.num_pages,
        t.limits,
        t.shape@,
        header(p).link,
    )
}

/// The table `new_t` is the table `old_t` after child `c` has entered the
/// node in page `n`, which had room. Where the node had no rightmost child,
/// `c` is that child now and nothing else has changed. Else `c` stands in
/// the node by its largest key, as `placed` says, and names `n` as its
/// parent. No other page has changed.
pub open spec fn child_placed(old_t: &Table, new_t: &Table, n: u32, c: u32) -> bool {
    let ps = old_t.pager@;
    let w = old_t.shape@;
    let p = ps[n as int];
    let q = new_t.pager@[n as int];
    &&& new_t.shape@ == w
    &&& new_t.pager.num_pages == old_t.pager.num_pages
    &&& new_t.pager.file == old_t.pager.file
    &&& new_t.pager.file_length == old_t.pager.file_length
    &&& new_t.num_rows == old_t.num_rows
    &&& new_t.root_page_num == old_t.root_page_num
    &&& new_t.limits == old_t.limits
    &&& new_t.pager@.len() == ps.len()
    &&& forall|x: int|
        0 <= x < ps.len() && x != n && x != c ==> #[trigger] new_t.pager@[x] == ps[x]
    &&& if header(p).link == INVALID_PAGE_NUM {
        &&& header(q) == (Header { link: c, ..header(p) })
        &&& body(q) == body(p)
        &&& new_t.pager@[c as int] == ps[c as int]
    } else {
        &&& placed(p, q, c, node_max_key(ps, w, c), node_max_key(ps, w, header(p).link))
        &&& reparented(ps[c as int], new_t.pager@[c as int], n)
    }
}

/// The table `new_t` is the table `old_t` after node `n` was full and was
/// split for the waiting child `c`. The children of `n`, with `c` at the
/// place that was left for it, stand in two nodes: the children up to the
/// one at the middle of `n` in the lower one, the others in the upper one,
/// which is the first page that was not in use. The lower one is `n`, or
/// for the root, which keeps its page, the page after that of the upper
/// one.
pub open spec fn halves_hold(old_t: &Table, new_t: &Table, n: u32, c: u32) -> bool {
    let ps = old_t.pager@;
    let np = old_t.pager.num_pages;
    let low = if n == root_page() {
        succ_page(np)
    } else {
        n
    };
    forall|g: int| #[trigger]
        pending(ps, np, old_t.limits, old_t.shape@, n, c, g) ==> halves_of(
            ps[n as int],
            old_t.shape@,
            new_t.pager@[low as int],
            new_t.pager@[np as int],
            c,
            g,
        )
}

/// The table `new_t` is the table `old_t` after the waiting child `c` has
/// entered node `n`, which had room: the child stands at the place that was
/// left for it, under its largest key or as the rightmost child, and names
/// `n` as its parent. No other page and nothing of the shape has changed.
pub open spec fn child_entered(old_t: &Table, new_t: &Table, n: u32, c: u32) -> bool {
    let ps = old_t.pager@;
    let w = old_t.shape@;
    &&& new_t.shape@ == w
    &&& new_t.pager@.len() == ps.len()
    &&& forall|x: int|
        0 <= x < ps.len() && x != n && x != c ==> #[trigger] new_t.pager@[x] == ps[x]
    &&& reparented(ps[c as int], new_t.pager@[c as int], n)
    &&& forall|g: int| #[trigger]
        pending(ps, old_t.pager.num_pages, old_t.limits, w, n, c, g) ==> entered(
            ps[n as int],
            new_t.pager@[n as int],
            c,
            w.lo[c],
            node_max_key(ps, w, c),
            g,
        )
}

impl Node {
    /// Enters a child into an internal node. A node without a rightmost
    /// child takes the child as that. A node with room takes it by its
    /// largest key: as the rightmost child where that key is above all
    /// others, else in a cell at the place of the key. A full node is split;
    /// that is for a node of the tree and a child that waits to enter it.
    /// Of such a child more is said, whether the node is full or not: the
    /// tree is in order again afterwards and holds the leaves that it held.
    pub fn internal_node_insert(table: &mut Table, page_num: u32, child_page_num: u32)
        requires
            old(table).pager.wf(),
            old(table).root_page_num == root_page(),
            may_enter(old(table), page_num, child_page_num) || (waiting(
                old(table),
                page_num,
                child_page_num,
            ) && room_above(old(table), page_num)),
        ensures
            final(table).pager.wf(),
            header(old(table).pager@[page_num as int]).count < old(
                table,
            ).limits.internal_max_cells ==> child_placed(
                old(table),
                final(table),
                page_num,
                child_page_num,
            ),
            waiting(old(table), page_num, child_page_num) ==> {
                &&& final(table).wf()
                &&& grown(old(table), final(table))
                &&& final(table).pager.num_pages == old(table).pager.num_pages + cost_above(
                    old(table).pager@,
                    old(table).shape@,
                    old(table).limits,
                    page_num,
                )
                &&& header(old(table).pager@[page_num as int]).count < old(
                    table,
                ).limits.internal_max_cells ==> child_entered(
                    old(table),
                    final(table),
                    page_num,
                    child_page_num,
                )
                &&& header(old(table).pager@[page_num as int]).count >= old(
                    table,
                ).limits.internal_max_cells ==> halves_hold(
                    old(table),
                    final(table),
                    page_num,
                    child_page_num,
                )
                &&& kept_below(
                    old(table).pager@,
                    old(table).shape@,
                    final(table).pager@,
                    old(table).shape@.level[page_num] as int,
                )
            },
        decreases
                old(table).shape@.level[root_page()] - old(table).shape@.level[page_num],
                1int,
    {
        let ghost ps = table.pager@;
        let ghost w = table.shape@;
        let ghost np = table.pager.num_pages;
        let ghost lim = table.limits;
        let ghost wait = waiting(table, page_num, child_page_num);
        let ghost g = choose|g: int| pending(ps, np, lim, w, page_num, child_page_num, g);
        let ghost r = header(ps[page_num as int]).link;
        let num_cells = get_internal_node_num_cells(table.pager.page(page_num));
        if num_cells >= table.limits.internal_max_cells {
            proof {
                assert(pending(
                    table.pager@,
                    table.pager.num_pages,
                    table.limits,
                    table.shape@,
                    page_num,
                    child_page_num,
                    g,
                ));
            }
            Node::internal_node_split_and_insert(table, page_num, child_page_num);
            return ;
        }
        proof {
            if wait {
                lemma_pending_below(ps, np, lim, w, page_num, child_page_num, g);
                lemma_rightmost_holds_key(ps, np, lim, w, child_page_num);
                lemma_max_key(ps, np, lim, w, child_page_num);
                lemma_walkable(ps, np, lim, w, child_page_num);
                lemma_rightmost_holds_key(ps, np, lim, w, r);
                lemma_max_key(ps, np, lim, w, r);
                lemma_walkable(ps, np, lim, w, r);
            }
        }
        let child_max_key = get_node_max_key(table, child_page_num);
        let node = table.pager.page(page_num);
        let right_child_page_num = get_internal_node_right_child(node);
        if right_child_page_num == INVALID_PAGE_NUM {
            let node = table.pager.page_mut(page_num);
            set_internal_node_right_child(node, child_page_num);
            return ;
        }
        let right_child_max_key = get_node_max_key(table, right_child_page_num);
        let node = table.pager.page_mut(page_num);
        place_child(node, child_page_num, child_max_key, right_child_max_key);
        let child = table.pager.page_mut(child_page_num);
        Node::set_parent_node(child, page_num);
        proof {
            let ps2 = table.pager@;
            if wait {
                lemma_placed_entered(
                    ps,
                    np,
                    lim,
                    w,
                    page_num,
                    child_page_num,
                    g,
                    ps2[page_num as int],
                    child_max_key,
                    right_child_max_key,
                );
                lemma_pending_place(
                    ps,
                    np,
                    lim,
                    w,
                    page_num,
                    child_page_num,
                    g,
                    child_max_key,
                    right_child_max_key,
                );
                lemma_place_pending(ps, ps2, np, lim, w, page_num, child_page_num, g, child_max_key);
                assert forall|m: u32| w.live.contains(m) && w.level[m] == 0 implies same_leaf(
                    ps[m as int],
                    ps2[m as int],
                ) by {
                    if m != child_page_num && m != page_num {
                        assert(node_ok(ps, np, lim, w, m));
                    }
                }
                assert(same_leaves(ps, w, ps2, w));
                assert forall|m: u32| #[trigger]
                    w.live.contains(m) && w.level[m] < w.level[page_num] implies same_leaf(
                    ps[m as int],
                    ps2[m as int],
                ) by {
                    if m != child_page_num && m != page_num {
                        assert(node_ok(ps, np, lim, w, m));
                    }
                }
                assert forall|g2: int| #[trigger]
                    pending(ps, np, lim, w, page_num, child_page_num, g2) implies entered(
                    ps[page_num as int],
                    ps2[page_num as int],
                    child_page_num,
                    w.lo[child_page_num],
                    node_max_key(ps, w, child_page_num),
                    g2,
                ) by {
                    lemma_placed_entered(
                        ps,
                        np,
                        lim,
                        w,
                        page_num,
                        child_page_num,
                        g2,
                        ps2[page_num as int],
                        child_max_key,
                        right_child_max_key,
                    );
                }
            }
        }
    }
}

/// The cells of a full leaf `p`, with one more cell entered at place `idx`,
/// stand in two pages: the first `left` of them at the front of `q`, the
/// rest at the front of `r`.
pub open spec fn leaf_cells_split(
    p: Seq<u8>,
    q: Seq<u8>,
    r: Seq<u8>,
    idx: int,
    key: u32,
    value: Seq<u8>,
    left: int,
) -> bool {
    &&& forall|i: int|
        #![trigger leaf_key(q, i)]
        0 <= i < left ==> leaf_key(q, i) == merged_key(p, idx, key, i) && leaf_value(q, i)
            == merged_value(p, idx, value, i)
    &&& forall|i: int|
        #![trigger leaf_key(r, i)]
        0 <= i < header(p).count + 1 - left ==> leaf_key(r, i) == merged_key(
            p,
            idx,
            key,
            left + i,
        ) && leaf_value(r, i) == merged_value(p, idx, value, left + i)
}

/// How many cells stay in a leaf that is split after it held `max_cells`
/// and one more entered: the larger half.
pub open spec fn spec_left_split_count(max_cells: u32) -> u32 {
    ((max_cells + 2) / 2) as u32
}

/// How many cells stay in a leaf that is split after it held `max_cells`
/// and one more entered.
pub fn left_split_count(max_cells: u32) -> (left: u32)
    requires
        max_cells <= LEAF_NODE_MAX_CELLS,
    ensures
        left == spec_left_split_count(max_cells),
{
    (max_cells + 1) - (max_cells + 1) / 2
}

/// The state of the spreading of cells when the places from `i` on are
/// done: `g_old` and `g_new` are the two pages now, and `p` is the leaf as
/// it was.
pub open spec fn spread(
    p: Seq<u8>,
    g_old: Seq<u8>,
    g_new: Seq<u8>,
    idx: int,
    key: u32,
    value: Seq<u8>,
    left: int,
    i: int,
) -> bool {
    &&& forall|j: int|
        #![trigger leaf_key(g_old, j)]
        0 <= j < i && j < header(p).count ==> leaf_key(g_old, j) == leaf_key(p, j) && leaf_value(
            g_old,
            j,
        ) == leaf_value(p, j)
    &&& forall|j: int|
        #![trigger leaf_key(g_old, j)]
        0 <= j < left && i <= j ==> leaf_key(g_old, j) == merged_key(p, idx, key, j) && leaf_value(
            g_old,
            j,
        ) == merged_value(p, idx, value, j)
    &&& forall|j: int|
        #![trigger leaf_key(g_new, j)]
        0 <= j < header(p).count + 1 - left && i <= left + j ==> leaf_key(g_new, j) == merged_key(
            p,
            idx,
            key,
            left + j,
        ) && leaf_value(g_new, j) == merged_value(p, idx, value, left + j)
}

/// One step of the spreading: the cell for place `i` is written, into the
/// second page if `i` is not among the first `left` places.
pub proof fn lemma_spread_step(
    p: Seq<u8>,
    g_old: Seq<u8>,
    g_new: Seq<u8>,
    d: Seq<u8>,
    idx: int,
    key: u32,
    value: Seq<u8>,
    left: int,
    i: int,
)
    requires
        spread(p, g_old, g_new, idx, key, value, left, i + 1),
        0 <= i <= header(p).count <= LEAF_NODE_MAX_CELLS,
        1 <= left <= header(p).count,
        0 <= idx <= header(p).count,
        i >= left ==> leaf_cells_same_except(g_new, d, i - left) && leaf_key(d, i - left)
            == merged_key(p, idx, key, i) && leaf_value(d, i - left) == merged_value(
            p,
            idx,
            value,
            i,
        ),
        i < left ==> leaf_cells_same_except(g_old, d, i) && leaf_key(d, i) == merged_key(
            p,
            idx,
            key,
            i,
        ) && leaf_value(d, i) == merged_value(p, idx, value, i),
    ensures
        i >= left ==> spread(p, g_old, d, idx, key, value, left, i),
        i < left ==> spread(p, d, g_new, idx, key, value, left, i),
{
    if i >= left {
        assert forall|j: int|
            #![trigger leaf_key(d, j)]
            0 <= j < header(p).count + 1 - left && i <= left + j implies leaf_key(d, j)
                == merged_key(p, idx, key, left + j) && leaf_value(d, j) == merged_value(
                p,
                idx,
                value,
                left + j,
            ) by {
            if left + j != i {
                assert(leaf_key(g_new, j) == merged_key(p, idx, key, left + j));
            }
        }
    } else {
        assert forall|j: int|
            #![trigger leaf_key(d, j)]
            0 <= j < i && j < header(p).count implies leaf_key(d, j) == leaf_key(p, j)
                && leaf_value(d, j) == leaf_value(p, j) by {
            assert(leaf_key(g_old, j) == leaf_key(p, j));
        }
        assert forall|j: int|
            #![trigger leaf_key(d, j)]
            0 <= j < left && i <= j implies leaf_key(d, j) == merged_key(p, idx, key, j)
                && leaf_value(d, j) == merged_value(p, idx, value, j) by {
            if j != i {
                assert(leaf_key(g_old, j) == merged_key(p, idx, key, j));
            }
        }
    }
}

/// Spreads the cells of a full leaf, with one more cell entered at place
/// `cell_num`, over the leaf and a second page, last cell first.
pub fn distribute_leaf_cells(
    pager: &mut Pager,
    old_page_num: u32,
    new_page_num: u32,
    cell_num: u32,
    key: u32,
    value: &Vec<u8>,
)
    requires
        old(pager).wf(),
        old(pager).num_pages <= TABLE_MAX_PAGES,
        old_page_num < old(pager).num_pages,
        new_page_num < old(pager).num_pages,
        old_page_num != new_page_num,
        1 <= header(old(pager)@[old_page_num as int]).count <= LEAF_NODE_MAX_CELLS,
        cell_num <= header(old(pager)@[old_page_num as int]).count,
        value@.len() == ROW_SIZE,
    ensures
        final(pager).wf(),
        final(pager).num_pages == old(pager).num_pages,
        final(pager).file == old(pager).file,
        final(pager).file_length == old(pager).file_length,
        final(pager)@.len() == old(pager)@.len(),
        forall|x: int|
            0 <= x < TABLE_MAX_PAGES && x != old_page_num && x != new_page_num ==> final(pager)@[x]
                == old(pager)@[x],
        header(final(pager)@[old_page_num as int]) == header(old(pager)@[old_page_num as int]),
        header(final(pager)@[new_page_num as int]) == header(old(pager)@[new_page_num as int]),
        leaf_cells_split(
            old(pager)@[old_page_num as int],
            final(pager)@[old_page_num as int],
            final(pager)@[new_page_num as int],
            cell_num as int,
            key,
            value@,
            spec_left_split_count(header(old(pager)@[old_page_num as int]).count) as int,
        ),
{
    let ghost ps = pager@;
    let ghost p = ps[old_page_num as int];
    let ghost idx = cell_num as int;
    proof {
        pager.lemma_view_pages();
    }
    let max_cells = get_leaf_node_num_cells(pager.page(old_page_num));
    let left = left_split_count(max_cells);
    let mut i: u32 = max_cells + 1;
    let ghost mut g_old = pager@[old_page_num as int];
    let ghost mut g_new = pager@[new_page_num as int];
    while i > 0
        invariant
            pager.wf(),
            pager.num_pages == old(pager).num_pages,
            pager.num_pages <= TABLE_MAX_PAGES,
            pager.file == old(pager).file,
            pager.file_length == old(pager).file_length,
            pager@.len() == TABLE_MAX_PAGES,
            ps.len() == TABLE_MAX_PAGES,
            p == ps[old_page_num as int],
            p.len() == PAGE_SIZE,
            old_page_num < pager.num_pages,
            new_page_num < pager.num_pages,
            old_page_num != new_page_num,
            max_cells == header(p).count,
            1 <= max_cells <= LEAF_NODE_MAX_CELLS,
            left == spec_left_split_count(max_cells),
            idx == cell_num,
            cell_num <= max_cells,
            value@.len() == ROW_SIZE,
            0 <= i <= max_cells + 1,
            forall|x: int|
                0 <= x < TABLE_MAX_PAGES && x != old_page_num && x != new_page_num ==> pager@[x]
                    == ps[x],
            pager@[old_page_num as int] == g_old,
            pager@[new_page_num as int] == g_new,
            header(g_old) == header(p),
            header(g_new) == header(ps[new_page_num as int]),
            spread(p, g_old, g_new, idx, key, value@, left as int, i as int),
        decreases i,
    {
        i -= 1;
        let to_new = i >= left;
        let cell: u32 = if to_new {
            i - left
        } else {
            i
        };
        let dest_num = if to_new {
            new_page_num
        } else {
            old_page_num
        };
        if i == cell_num {
            let dest = pager.page_mut(dest_num);
            set_leaf_node_cell(dest, cell, key, value);
        } else {
            let src_cell: u32 = if i > cell_num {
                i - 1
            } else {
                i
            };
            let src = pager.page(old_page_num);
            let k = get_leaf_node_key(src, src_cell);
            let v = get_leaf_node_value(src, src_cell);
            proof {
                assert(leaf_key(g_old, src_cell as int) == leaf_key(p, src_cell as int));
            }
            let dest = pager.page_mut(dest_num);
            set_leaf_node_cell(dest, cell, k, &v);
        }
        let ghost d = pager@[dest_num as int];
        proof {
            lemma_spread_step(p, g_old, g_new, d, idx, key, value@, left as int, i as int);
            if to_new {
                g_new = d;
            } else {
                g_old = d;
            }
        }
    }
    proof {
        assert forall|j: int|
            #![trigger leaf_key(g_old, j)]
            0 <= j < left implies leaf_key(g_old, j) == merged_key(p, idx, key, j) && leaf_value(
            g_old,
            j,
        ) == merged_value(p, idx, value@, j) by {}
        assert forall|j: int|
            #![trigger leaf_key(g_new, j)]
            0 <= j < header(p).count + 1 - left implies leaf_key(g_new, j) == merged_key(
            p,
            idx,
            key,
            left + j,
        ) && leaf_value(g_new, j) == merged_value(p, idx, value@, left + j) by {}
        assert(leaf_cells_split(p, g_old, g_new, idx, key, value@, left as int));
    }
}

/// Page `x` is among the first `i` children of the internal node in page
/// `p`.
pub open spec fn is_child_below(p: Seq<u8>, x: u32, i: int) -> bool {
    exists|j: int| 0 <= j < i && #[trigger] child_at(p, j) == x
}

/// Page `x` is a child of the node in page `p`.
pub open spec fn is_child_of(p: Seq<u8>, x: u32) -> bool {
    header(p).kind == KIND_INTERNAL && is_child_below(p, x, header(p).count + 1)
}

/// The pages `ps2` are the pages `ps` after the root was promoted: its
/// content has moved to page `left`, and the root page holds an internal
/// node with that page for its only cell, under the key `left_max`, and page
/// `right` for its rightmost child. Both name the root as their parent, and
/// the children of the old root name page `left`. Where the root was an
/// internal node, page `right` is an empty internal node.
pub open spec fn root_promoted(
    ps: Seq<Seq<u8>>,
    ps2: Seq<Seq<u8>>,
    left: u32,
    right: u32,
    left_max: u32,
) -> bool {
    let pg0 = ps[0];
    &&& ps2.len() == ps.len()
    &&& header(ps2[0]) == (Header {
        kind: KIND_INTERNAL,
        root: true,
        parent: header(pg0).parent,
        count: 1,
        link: right,
    })
    &&& internal_child(ps2[0], 0) == left
    &&& internal_key(ps2[0], 0) == left_max
    &&& header(ps2[left as int]) == (Header { root: false, parent: 0, ..header(pg0) })
    &&& body(ps2[left as int]) == body(pg0)
    &&& body(ps2[right as int]) == body(ps[right as int])
    &&& header(ps2[right as int]) == if header(pg0).kind == KIND_INTERNAL {
        Header { kind: KIND_INTERNAL, root: false, parent: 0, count: 0, link: INVALID_PAGE_NUM }
    } else {
        Header { parent: 0, ..header(ps[right as int]) }
    }
    &&& forall|x: int|
        0 < x < TABLE_MAX_PAGES && x != left && x != right ==> if is_child_of(pg0, x as u32) {
            reparented(ps[x], #[trigger] ps2[x], left)
        } else {
            ps2[x] == ps[x]
        }
}

/// The state of the pages while the children of the old root, now in page
/// `left`, are given their new parent: the first `i` of them are done.
pub open spec fn reparenting(
    ps: Seq<Seq<u8>>,
    cur: Seq<Seq<u8>>,
    pg0: Seq<u8>,
    left: u32,
    right: u32,
    i: int,
) -> bool {
    &&& cur.len() == ps.len()
    &&& forall|x: int|
        0 < x < TABLE_MAX_PAGES && x != left && x != right ==> if is_child_below(pg0, x as u32, i) {
            reparented(ps[x], #[trigger] cur[x], left)
        } else {
            cur[x] == ps[x]
        }
}

/// One step of giving the children their new parent.
pub proof fn lemma_reparenting_step(
    ps: Seq<Seq<u8>>,
    cur: Seq<Seq<u8>>,
    nxt: Seq<Seq<u8>>,
    pg0: Seq<u8>,
    left: u32,
    right: u32,
    i: int,
)
    requires
        reparenting(ps, cur, pg0, left, right, i),
        ps.len() == TABLE_MAX_PAGES,
        0 <= i,
        0 < child_at(pg0, i) < TABLE_MAX_PAGES,
        child_at(pg0, i) != left,
        child_at(pg0, i) != right,
        nxt.len() == cur.len(),
        forall|x: int| 0 <= x < TABLE_MAX_PAGES && x != child_at(pg0, i) ==> nxt[x] == cur[x],
        reparented(cur[child_at(pg0, i) as int], nxt[child_at(pg0, i) as int], left),
    ensures
        reparenting(ps, nxt, pg0, left, right, i + 1),
{
    let c = child_at(pg0, i);
    assert forall|x: int| 0 < x < TABLE_MAX_PAGES && x != left && x != right implies if is_child_below(
        pg0,
        x as u32,
        i + 1,
    ) {
        reparented(ps[x], #[trigger] nxt[x], left)
    } else {
        nxt[x] == ps[x]
    } by {
        if x == c {
            assert(is_child_below(pg0, x as u32, i + 1));
        } else {
            assert(nxt[x] == cur[x]);
            if is_child_below(pg0, x as u32, i + 1) {
                let j = choose|j: int| 0 <= j < i + 1 && #[trigger] child_at(pg0, j) == x as u32;
                assert(j < i);
                assert(is_child_below(pg0, x as u32, i));
            } else {
                if is_child_below(pg0, x as u32, i) {
                    let j = choose|j: int| 0 <= j < i && #[trigger] child_at(pg0, j) == x as u32;
                    assert(0 <= j < i + 1 && child_at(pg0, j) == x as u32);
                }
            }
        }
    }
}

impl Node {
    /// Promotes the root: its content moves to a new page, which becomes the
    /// left child of the root, and page `right_child_page_num` becomes the
    /// right child. The page of the root stays the page of the root.
    pub fn create_new_root(table: &mut Table, right_child_page_num: u32)
        requires
            old(table).pager.wf(),
            old(table).root_page_num == root_page(),
            old(table).pager.num_pages < TABLE_MAX_PAGES,
            0 < right_child_page_num < old(table).pager.num_pages,
            walkable(
                old(table).pager@,
                old(table).pager.num_pages,
                old(table).limits,
                old(table).shape@,
                root_page(),
            ),
            header(old(table).pager@[0]).kind == KIND_INTERNAL ==> header(
                old(table).pager@[0],
            ).count < INTERNAL_NODE_SLOTS && forall|i: int|
                0 <= i <= header(old(table).pager@[0]).count ==> 0 < #[trigger] child_at(
                    old(table).pager@[0],
                    i,
                ) < old(table).pager.num_pages && child_at(old(table).pager@[0], i)
                    != right_child_page_num,
        ensures
            final(table).pager.wf(),
            final(table).pager.num_pages == old(table).pager.num_pages + 1,
            final(table).pager.file == old(table).pager.file,
            final(table).pager.file_length == old(table).pager.file_length,
            final(table).num_rows == old(table).num_rows,
            final(table).root_page_num == old(table).root_page_num,
            final(table).limits == old(table).limits,
            final(table).shape@ == old(table).shape@,
            root_promoted(
                old(table).pager@,
                final(table).pager@,
                old(table).pager.num_pages,
                right_child_page_num,
                node_max_key(old(table).pager@, old(table).shape@, root_page()),
            ),
    {
        let ghost ps = table.pager@;
        let ghost pg0 = ps[0];
        proof {
            table.pager.lemma_view_pages();
        }
        let root_page_num = table.root_page_num;
        let left_child_max_key = get_node_max_key(table, root_page_num);
        let left_child_page_num = table.pager.get_unused_page_num();
        let root = table.pager.page(root_page_num);
        let root_copy = root.duplicate();
        let root_is_internal = match Node::get_node_type(root) {
            NodeType::INTERNAL => true,
            NodeType::LEAF => false,
        };
        if root_is_internal {
            let right_child = table.pager.page_mut(right_child_page_num);
            Node::initialize_internal_node(right_child);
        }
        let left_child = table.pager.page_mut(left_child_page_num);
        *left_child = root_copy;
        Node::set_node_root(left_child, false);
        Node::set_parent_node(left_child, root_page_num);
        let ghost mid = table.pager@;
        proof {
            table.pager.lemma_view_pages();
            assert(reparenting(ps, mid, pg0, left_child_page_num, right_child_page_num, 0)) by {
                assert forall|x: int|
                    0 < x < TABLE_MAX_PAGES && x != left_child_page_num && x
                        != right_child_page_num implies !is_child_below(pg0, x as u32, 0)
                    && #[trigger] mid[x] == ps[x] by {}
            }
        }
        if root_is_internal {
            let num_cells = get_internal_node_num_cells(table.pager.page(left_child_page_num));
            let mut i: u32 = 0;
            while i <= num_cells
                invariant
                    table.pager.wf(),
                    table.pager.num_pages == old(table).pager.num_pages + 1,
                    table.pager.file == old(table).pager.file,
                    table.pager.file_length == old(table).pager.file_length,
                    table.num_rows == old(table).num_rows,
                    table.root_page_num == old(table).root_page_num,
                    table.limits == old(table).limits,
                    table.shape@ == old(table).shape@,
                    ps.len() == TABLE_MAX_PAGES,
                    pg0 == ps[0],
                    left_child_page_num == old(table).pager.num_pages,
                    0 < right_child_page_num < left_child_page_num,
                    left_child_page_num < TABLE_MAX_PAGES,
                    num_cells == header(pg0).count,
                    num_cells < INTERNAL_NODE_SLOTS,
                    0 <= i <= num_cells + 1,
                    forall|j: int|
                        0 <= j <= header(pg0).count ==> 0 < #[trigger] child_at(pg0, j)
                            < left_child_page_num && child_at(pg0, j) != right_child_page_num,
                    table.pager@[0] == mid[0],
                    table.pager@[left_child_page_num as int] == mid[left_child_page_num as int],
                    table.pager@[right_child_page_num as int] == mid[right_child_page_num as int],
                    header(mid[left_child_page_num as int]).count == header(pg0).count,
                    header(mid[left_child_page_num as int]).link == header(pg0).link,
                    body(mid[left_child_page_num as int]) == body(pg0),
                    reparenting(
                        ps,
                        table.pager@,
                        pg0,
                        left_child_page_num,
                        right_child_page_num,
                        i as int,
                    ),
                decreases num_cells + 1 - i,
            {
                let ghost cur = table.pager@;
                let left_child = table.pager.page(left_child_page_num);
                proof {
                    assert(child_at(left_child@, i as int) == child_at(pg0, i as int));
                }
                let child_page_num = get_internal_node_child_page_num(left_child, i);
                let child = table.pager.page_mut(child_page_num);
                Node::set_parent_node(child, left_child_page_num);
                proof {
                    let nxt = table.pager@;
                    assert(reparented(cur[child_page_num as int], nxt[child_page_num as int], left_child_page_num)) by {
                        if is_child_below(pg0, child_page_num, i as int) {
                        }
                    }
                    lemma_reparenting_step(
                        ps,
                        cur,
                        nxt,
                        pg0,
                        left_child_page_num,
                        right_child_page_num,
                        i as int,
                    );
                }
                i += 1;
            }
        }
        let ghost before_root = table.pager@;
        let root = table.pager.page_mut(root_page_num);
        Node::initialize_internal_node(root);
        Node::set_node_root(root, true);
        set_internal_node_num_cells(root, 1);
        set_internal_node_cell(root, 0, left_child_page_num, left_child_max_key);
        set_internal_node_right_child(root, right_child_page_num);
        let right_child = table.pager.page_mut(right_child_page_num);
        Node::set_parent_node(right_child, root_page_num);
        proof {
            let ps2 = table.pager@;
            assert forall|x: int|
                0 < x < TABLE_MAX_PAGES && x != left_child_page_num && x
                    != right_child_page_num implies if is_child_of(pg0, x as u32) {
                reparented(ps[x], #[trigger] ps2[x], left_child_page_num)
            } else {
                ps2[x] == ps[x]
            } by {
                assert(ps2[x] == before_root[x]);
                if !root_is_internal {
                    assert(!is_child_of(pg0, x as u32));
                    assert(!is_child_below(pg0, x as u32, 0));
                }
            }
        }
    }
}

/// The pages that the splits above node `n` take where `n` itself is
/// split: none where the parent has room, one and what the splits above it
/// take where the parent is full, and one for the promotion of the root
/// where `n` is the root.
pub open spec fn cost_from(ps: Seq<Seq<u8>>, w: Shape, lim: Limits, n: u32) -> int
    decreases w.level[root_page()] - w.level[n],
{
    let par = header(ps[n as int]).parent;
    if n == root_page() || w.level[n] >= w.level[root_page()] || w.level[par] <= w.level[n]
        || w.level[par] > w.level[root_page()] {
        1
    } else if header(ps[par as int]).count < lim.internal_max_cells {
        0
    } else {
        1 + cost_from(ps, w, lim, par)
    }
}

/// The pages that the entry of one more child into node `n` takes: none
/// where the node has room, and else one for its split and what the splits
/// above it take.
pub open spec fn cost_above(ps: Seq<Seq<u8>>, w: Shape, lim: Limits, n: u32) -> int {
    if header(ps[n as int]).count < lim.internal_max_cells {
        0
    } else {
        1 + cost_from(ps, w, lim, n)
    }
}

/// Whether the pages are free that the split of the full leaf `leaf` takes,
/// with the splits that it sets off above.
pub open spec fn room_to_split(t: &Table, leaf: u32) -> bool {
    t.pager.num_pages + 1 + cost_from(t.pager@, t.shape@, t.limits, leaf) <= TABLE_MAX_PAGES
}

/// From level `l` on, the two trees have the same nodes, with the same
/// parents and the same numbers of cells, and in the first every node but
/// the root is one level below its parent.
pub open spec fn same_above(
    ps: Seq<Seq<u8>>,
    w: Shape,
    ps2: Seq<Seq<u8>>,
    w2: Shape,
    l: int,
) -> bool {
    &&& w2.level[root_page()] == w.level[root_page()]
    &&& forall|m: u32|
        #[trigger] w.live.contains(m) && w.level[m] >= l ==> {
            &&& header(ps2[m as int]).count == header(ps[m as int]).count
            &&& header(ps2[m as int]).parent == header(ps[m as int]).parent
            &&& w2.level[m] == w.level[m]
            &&& w.level[m] <= w.level[root_page()]
            &&& m != root_page() ==> w.live.contains(header(ps[m as int]).parent)
                && w.level[header(ps[m as int]).parent] == w.level[m] + 1
        }
}

/// What the splits above a node take is the same in two trees that are the
/// same from the level of the node on.
pub proof fn lemma_cost_frame(
    ps: Seq<Seq<u8>>,
    w: Shape,
    ps2: Seq<Seq<u8>>,
    w2: Shape,
    lim: Limits,
    n: u32,
)
    requires
        same_above(ps, w, ps2, w2, w.level[n] as int),
        w.live.contains(n),
    ensures
        cost_from(ps2, w2, lim, n) == cost_from(ps, w, lim, n),
        cost_above(ps2, w2, lim, n) == cost_above(ps, w, lim, n),
    decreases w.level[root_page()] - w.level[n],
{
    if n != root_page() && w.level[n] < w.level[root_page()] {
        let par = header(ps[n as int]).parent;
        assert(w.live.contains(par));
        assert(w.level[par] == w.level[n] + 1);
        if w.level[par] <= w.level[root_page()] {
            lemma_cost_frame(ps, w, ps2, w2, lim, par);
        }
    }
}

/// The table `new_t` is the table `old_t` after the full leaf of the cursor
/// was split for the entry of a cell at the place of the cursor. The cells
/// of the leaf, with the new one among them, stand in two leaves: the larger
/// half in the first, which is the leaf itself or, where it was the root,
/// the new left child of the root, and the rest in the second, a new page
/// that is the leaf to the right of the first.
pub open spec fn leaf_was_split(
    old_t: &Table,
    new_t: &Table,
    c: Cursor,
    key: u32,
    value: Seq<u8>,
) -> bool {
    let p = old_t.pager@[c.page_num as int];
    let second = old_t.pager.num_pages;
    let first = if c.page_num == root_page() {
        succ_page(second)
    } else {
        c.page_num
    };
    let left = spec_left_split_count(header(p).count) as int;
    let q = new_t.pager@[first as int];
    let r = new_t.pager@[second as int];
    &&& header(q).kind == KIND_LEAF
    &&& header(r).kind == KIND_LEAF
    &&& header(q).count == left
    &&& header(r).count == header(p).count + 1 - left
    &&& header(q).link == second
    &&& header(r).link == header(p).link
    &&& leaf_cells_split(p, q, r, c.cell_num as int, key, value, left)
}

/// Leaves with the same cells hold the two halves of a split leaf alike.
pub proof fn lemma_split_carried(
    p: Seq<u8>,
    q: Seq<u8>,
    r: Seq<u8>,
    q2: Seq<u8>,
    r2: Seq<u8>,
    idx: int,
    key: u32,
    value: Seq<u8>,
    left: int,
)
    requires
        leaf_cells_split(p, q, r, idx, key, value, left),
        body(q2) == body(q),
        body(r2) == body(r),
    ensures
        leaf_cells_split(p, q2, r2, idx, key, value, left),
{
    assert forall|i: int|
        #![trigger leaf_key(q2, i)]
        0 <= i < left implies leaf_key(q2, i) == merged_key(p, idx, key, i) && leaf_value(q2, i)
            == merged_value(p, idx, value, i) by {
        assert(leaf_key(q, i) == merged_key(p, idx, key, i));
    }
    assert forall|i: int|
        #![trigger leaf_key(r2, i)]
        0 <= i < header(p).count + 1 - left implies leaf_key(r2, i) == merged_key(
            p,
            idx,
            key,
            left + i,
        ) && leaf_value(r2, i) == merged_value(p, idx, value, left + i) by {
        assert(leaf_key(r, i) == merged_key(p, idx, key, left + i));
    }
}

impl Node {
    /// Splits a full leaf for the entry of a row at the place of the cursor:
    /// the upper half of the cells, the new one among them, moves to a new
    /// leaf to the right. The new leaf enters the parent, and where the leaf
    /// was the root, the root is promoted.
    pub fn split_leaf_node_and_insert(table: &mut Table, cursor: Cursor, key: u32, value: &Row)
        requires
            old(table).wf(),
            cursor.positioned(old(table), key),
            !old(table)@.contains_key(key),
            header(old(table).pager@[cursor.page_num as int]).count == old(
                table,
            ).limits.leaf_max_cells,
            room_to_split(old(table), cursor.page_num),
        ensures
            final(table).wf(),
            final(table)@ == old(table)@.insert(key, value.encode()),
            leaf_was_split(old(table), final(table), cursor, key, value.encode()),
            final(table).pager.num_pages == old(table).pager.num_pages + 1 + cost_from(
                old(table).pager@,
                old(table).shape@,
                old(table).limits,
                cursor.page_num,
            ),
            final(table).root_page_num == old(table).root_page_num,
            final(table).num_rows == old(table).num_rows,
            final(table).limits == old(table).limits,
            final(table).pager.file == old(table).pager.file,
            final(table).pager.file_length == old(table).pager.file_length,
    {
        let ghost ps = table.pager@;
        let ghost w = table.shape@;
        let ghost np = table.pager.num_pages;
        let ghost lim = table.limits;
        let ghost idx = cursor.cell_num as int;
        let ghost rows = table@.insert(key, value.encode());
        let old_node_page_num = cursor.page_num;
        proof {
            lemma_tree_basics(ps, np, lim, w);
            lemma_tree_node(ps, np, lim, w, old_node_page_num);
            lemma_tree_node(ps, np, lim, w, root_page());
            lemma_key_at_its_place(ps, np, lim, w, key, old_node_page_num, idx);
            lemma_leaf_walkable(ps, np, lim, w, old_node_page_num);
        }
        proof {
            lemma_cost_nonnegative(ps, w, lim, old_node_page_num);
        }
        let bytes = value.serialize_row();
        let new_page_num = table.pager.get_unused_page_num();
        let old_max_key = get_node_max_key(table, old_node_page_num);
        let new_node = table.pager.page_mut(new_page_num);
        Node::initialize_leaf_node(new_node);
        distribute_leaf_cells(
            &mut table.pager,
            old_node_page_num,
            new_page_num,
            cursor.cell_num,
            key,
            &bytes,
        );
        let max_cells = table.limits.leaf_max_cells;
        let left = left_split_count(max_cells);
        let old_node = table.pager.page_mut(old_node_page_num);
        let old_leaf_prev_sibling = Node::get_leaf_node_next_leaf(old_node);
        set_leaf_node_num_cells(old_node, left);
        set_leaf_node_next_leaf(old_node, new_page_num);
        let old_is_root = is_node_root(old_node);
        let parent_node = Node::get_parent_node(old_node);
        let new_node = table.pager.page_mut(new_page_num);
        set_leaf_node_num_cells(new_node, max_cells + 1 - left);
        set_leaf_node_next_leaf(new_node, old_leaf_prev_sibling);
        let ghost ps1 = table.pager@;
        proof {
            table.pager.lemma_view_pages();
            lemma_halved(
                ps,
                ps1,
                old_node_page_num,
                new_page_num,
                idx,
                key,
                bytes@,
                table.pager@[old_node_page_num as int],
                table.pager@[new_page_num as int],
            );
        }
        if old_is_root {
            proof {
                lemma_split_halves(
                    ps[0],
                    ps1[0],
                    ps1[new_page_num as int],
                    -1,
                    key_inf(),
                    idx,
                    key,
                    bytes@,
                    left as int,
                    lim.leaf_max_cells as int,
                );
                lemma_leaf_walkable_after(ps1, succ_page(np), lim, w, root_page());
            }
            Node::create_new_root(table, new_page_num);
            let ghost ps3 = table.pager@;
            let ghost w3 = shape_root_leaf_split(
                w,
                succ_page(np),
                np,
                split_point(ps, ps1, root_page()),
            );
            proof {
                table.pager.lemma_view_pages();
                lemma_root_leaf_split(ps, np, lim, w, ps1, ps3, idx, key, bytes@);
                lemma_rows_are_contents(ps3, w3, rows);
                lemma_split_carried(
                    ps[0],
                    ps1[0],
                    ps1[new_page_num as int],
                    ps3[succ_page(np) as int],
                    ps3[new_page_num as int],
                    idx,
                    key,
                    bytes@,
                    left as int,
                );
            }
            table.shape = Ghost(w3);
        } else {
            let ghost m = split_point(ps, ps1, old_node_page_num);
            let ghost w2 = shape_leaf_split(w, old_node_page_num, new_page_num, m);
            proof {
                lemma_tree_node(ps, np, lim, w, parent_node);
                lemma_split_halves(
                    ps[old_node_page_num as int],
                    ps1[old_node_page_num as int],
                    ps1[new_page_num as int],
                    w.lo[old_node_page_num],
                    w.hi[old_node_page_num],
                    idx,
                    key,
                    bytes@,
                    left as int,
                    lim.leaf_max_cells as int,
                );
                lemma_leaf_walkable_after(ps1, succ_page(np), lim, w, old_node_page_num);
            }
            let new_max_key = get_node_max_key(table, old_node_page_num);
            let parent = table.pager.page_mut(parent_node);
            Node::update_internal_node_key(parent, old_max_key, new_max_key);
            let ghost ps2 = table.pager@;
            table.shape = Ghost(w2);
            proof {
                table.pager.lemma_view_pages();
                assert(leaf_split_done(ps, ps2, old_node_page_num, new_page_num, idx, key, bytes@));
                lemma_leaf_split_pending(ps, np, lim, w, ps2, old_node_page_num, idx, key, bytes@);
                assert(!w.live.contains(new_page_num)) by {
                    if w.live.contains(new_page_num) {
                        lemma_tree_node(ps, np, lim, w, new_page_num);
                    }
                }
                assert forall|x: u32| is_leaf(w, x) && x != old_node_page_num implies header(
                    #[trigger] ps2[x as int],
                ).count == header(ps[x as int]).count && body(ps2[x as int]) == body(
                    ps[x as int],
                ) by {
                    lemma_tree_node(ps, np, lim, w, x);
                    assert(x != parent_node);
                }
                lemma_split_rows(
                    ps,
                    np,
                    lim,
                    w,
                    ps2,
                    w2,
                    old_node_page_num,
                    old_node_page_num,
                    new_page_num,
                    idx,
                    key,
                    bytes@,
                    left as int,
                );
            }
            proof {
                assert(same_above(ps, w, ps2, w2, w.level[parent_node] as int)) by {
                    assert forall|m: u32|
                        #[trigger] w.live.contains(m) && w.level[m] >= w.level[parent_node] implies {
                        &&& header(ps2[m as int]).count == header(ps[m as int]).count
                        &&& header(ps2[m as int]).parent == header(ps[m as int]).parent
                        &&& w2.level[m] == w.level[m]
                        &&& w.level[m] <= w.level[root_page()]
                        &&& m != root_page() ==> w.live.contains(header(ps[m as int]).parent)
                            && w.level[header(ps[m as int]).parent] == w.level[m] + 1
                    } by {
                        lemma_tree_node(ps, np, lim, w, m);
                    }
                }
                lemma_cost_frame(ps, w, ps2, w2, lim, parent_node);
                let g = choose|g: int| #[trigger]
                    pending(ps2, succ_page(np), lim, w2, parent_node, new_page_num, g);
                assert(pending(
                    table.pager@,
                    table.pager.num_pages,
                    table.limits,
                    table.shape@,
                    parent_node,
                    new_page_num,
                    g,
                ));
            }
            Node::internal_node_insert(table, parent_node, new_page_num);
            proof {
                lemma_same_leaves_rows(ps2, w2, table.pager@, table.shape@, rows);
                lemma_rows_are_contents(table.pager@, table.shape@, rows);
                assert(w2.live.contains(old_node_page_num) && w2.level[old_node_page_num] == 0);
                assert(w2.live.contains(new_page_num) && w2.level[new_page_num] == 0);
                assert(table.shape@.live.contains(old_node_page_num));
                assert(table.shape@.live.contains(new_page_num));
                assert(same_leaf(
                    ps2[old_node_page_num as int],
                    table.pager@[old_node_page_num as int],
                ));
                assert(same_leaf(ps2[new_page_num as int], table.pager@[new_page_num as int]));
                lemma_split_carried(
                    ps[old_node_page_num as int],
                    ps2[old_node_page_num as int],
                    ps2[new_page_num as int],
                    table.pager@[old_node_page_num as int],
                    table.pager@[new_page_num as int],
                    idx,
                    key,
                    bytes@,
                    left as int,
                );
            }
        }
    }
}

/// What the steps of cutting a leaf in two come to.
pub proof fn lemma_halved(
    ps: Seq<Seq<u8>>,
    ps1: Seq<Seq<u8>>,
    n: u32,
    b: u32,
    idx: int,
    key: u32,
    value: Seq<u8>,
    q: Seq<u8>,
    r: Seq<u8>,
)
    requires
        ps.len() == TABLE_MAX_PAGES,
        ps1.len() == TABLE_MAX_PAGES,
        n < TABLE_MAX_PAGES,
        b < TABLE_MAX_PAGES,
        n != b,
        q == ps1[n as int],
        r == ps1[b as int],
        forall|x: int| 0 <= x < ps.len() ==> (#[trigger] ps1[x]).len() == PAGE_SIZE,
        forall|x: int| 0 <= x < ps.len() && x != n && x != b ==> #[trigger] ps1[x] == ps[x],
        header(q) == (Header {
            count: spec_left_split_count(header(ps[n as int]).count),
            link: b,
            ..header(ps[n as int])
        }),
        header(r).kind == KIND_LEAF,
        !header(r).root,
        header(r).count == header(ps[n as int]).count + 1 - spec_left_split_count(
            header(ps[n as int]).count,
        ),
        header(r).link == header(ps[n as int]).link,
        exists|q0: Seq<u8>, r0: Seq<u8>|
            body(q0) == body(q) && body(r0) == body(r) && leaf_cells_split(
                ps[n as int],
                q0,
                r0,
                idx,
                key,
                value,
                spec_left_split_count(header(ps[n as int]).count) as int,
            ),
    ensures
        leaf_halved(ps, ps1, n, b, idx, key, value),
{
    let p = ps[n as int];
    let left = spec_left_split_count(header(p).count) as int;
    let (q0, r0) = choose|q0: Seq<u8>, r0: Seq<u8>|
        body(q0) == body(q) && body(r0) == body(r) && leaf_cells_split(
            p,
            q0,
            r0,
            idx,
            key,
            value,
            left,
        );
    assert forall|i: int|
        #![trigger leaf_key(q, i)]
        0 <= i < left implies leaf_key(q, i) == merged_key(p, idx, key, i) && leaf_value(q, i)
            == merged_value(p, idx, value, i) by {
        assert(leaf_key(q0, i) == merged_key(p, idx, key, i));
    }
    assert forall|i: int|
        #![trigger leaf_key(r, i)]
        0 <= i < header(p).count + 1 - left implies leaf_key(r, i) == merged_key(
            p,
            idx,
            key,
            left + i,
        ) && leaf_value(r, i) == merged_value(p, idx, value, left + i) by {
        assert(leaf_key(r0, i) == merged_key(p, idx, key, left + i));
    }
    assert(leaf_cells_split(p, q, r, idx, key, value, left));
}

/// Page `x` is one of the children of the node in page `p` from child
/// `from` on.
pub open spec fn is_child_from(p: Seq<u8>, x: u32, from: int) -> bool {
    exists|j: int| from <= j <= header(p).count && #[trigger] child_at(p, j) == x
}

/// The pages `ps2` are the pages `ps` after the upper half of the internal
/// node in page `old` has moved to the empty internal node in page `new`:
/// the cells behind cell `mid` and the rightmost child. The child of cell
/// `mid` is the rightmost child of the old node now. The children that have
/// moved name page `new` as their parent.
pub open spec fn upper_half_moved(
    ps: Seq<Seq<u8>>,
    ps2: Seq<Seq<u8>>,
    old: u32,
    new: u32,
    mid: int,
) -> bool {
    let p = ps[old as int];
    &&& ps2.len() == ps.len()
    &&& header(ps2[old as int]) == (Header {
        count: mid as u32,
        link: internal_child(p, mid),
        ..header(p)
    })
    &&& body(ps2[old as int]) == body(p)
    &&& header(ps2[new as int]) == (Header {
        count: (header(p).count - mid - 1) as u32,
        link: header(p).link,
        ..header(ps[new as int])
    })
    &&& forall|j: int|
        0 <= j < header(p).count - mid - 1 ==> #[trigger] internal_child(ps2[new as int], j)
            == internal_child(p, mid + 1 + j) && internal_key(ps2[new as int], j) == internal_key(
            p,
            mid + 1 + j,
        )
    &&& forall|x: int|
        0 <= x < TABLE_MAX_PAGES && x != old && x != new ==> if is_child_from(
            p,
            x as u32,
            mid + 1,
        ) {
            reparented(ps[x], #[trigger] ps2[x], new)
        } else {
            ps2[x] == ps[x]
        }
}

/// The state of the pages while the upper half of an internal node moves:
/// the children from child `i` on have moved.
pub open spec fn upper_half_moving(
    ps: Seq<Seq<u8>>,
    cur: Seq<Seq<u8>>,
    old: u32,
    new: u32,
    i: int,
) -> bool {
    let p = ps[old as int];
    &&& cur.len() == ps.len()
    &&& header(cur[old as int]) == (Header { link: INVALID_PAGE_NUM, ..header(p) })
    &&& body(cur[old as int]) == body(p)
    &&& header(cur[new as int]) == (Header {
        count: (header(p).count - i) as u32,
        link: header(p).link,
        ..header(ps[new as int])
    })
    &&& forall|j: int|
        0 <= j < header(p).count - i ==> #[trigger] internal_child(cur[new as int], j)
            == internal_child(p, i + j) && internal_key(cur[new as int], j) == internal_key(
            p,
            i + j,
        )
    &&& forall|x: int|
        0 <= x < TABLE_MAX_PAGES && x != old && x != new ==> if is_child_from(p, x as u32, i) {
            reparented(ps[x], #[trigger] cur[x], new)
        } else {
            cur[x] == ps[x]
        }
}

/// One step of the move: cell `i - 1` moves to the front of the new node.
pub proof fn lemma_upper_half_step(
    ps: Seq<Seq<u8>>,
    cur: Seq<Seq<u8>>,
    mid_state: Seq<Seq<u8>>,
    nxt: Seq<Seq<u8>>,
    old: u32,
    new: u32,
    i: int,
)
    requires
        upper_half_moving(ps, cur, old, new, i),
        ps.len() == TABLE_MAX_PAGES,
        old < TABLE_MAX_PAGES,
        new < TABLE_MAX_PAGES,
        old != new,
        1 <= i <= header(ps[old as int]).count < INTERNAL_NODE_SLOTS,
        internal_child(ps[old as int], i - 1) < TABLE_MAX_PAGES,
        internal_child(ps[old as int], i - 1) != old,
        internal_child(ps[old as int], i - 1) != new,
        mid_state.len() == cur.len(),
        forall|x: int| 0 <= x < TABLE_MAX_PAGES && x != new ==> mid_state[x] == cur[x],
        internal_cell_inserted(
            cur[new as int],
            mid_state[new as int],
            0,
            internal_child(ps[old as int], i - 1),
            internal_key(ps[old as int], i - 1),
        ),
        nxt.len() == cur.len(),
        forall|x: int|
            0 <= x < TABLE_MAX_PAGES && x != internal_child(ps[old as int], i - 1) ==> nxt[x]
                == mid_state[x],
        reparented(
            mid_state[internal_child(ps[old as int], i - 1) as int],
            nxt[internal_child(ps[old as int], i - 1) as int],
            new,
        ),
    ensures
        upper_half_moving(ps, nxt, old, new, i - 1),
{
    let p = ps[old as int];
    let c = internal_child(p, i - 1);
    let q0 = cur[new as int];
    let q1 = nxt[new as int];
    assert(q1 == mid_state[new as int]);
    assert(child_at(p, i - 1) == c);
    assert forall|j: int| 0 <= j < header(p).count - (i - 1) implies #[trigger] internal_child(q1, j)
        == internal_child(p, i - 1 + j) && internal_key(q1, j) == internal_key(p, i - 1 + j) by {
        assert((internal_child(q1, j), internal_key(q1, j)) == merged_cell(
            q0,
            0,
            c,
            internal_key(p, i - 1),
            j,
        ));
        if j > 0 {
            assert(internal_child(q0, j - 1) == internal_child(p, i + (j - 1)));
        }
    }
    assert forall|x: int| 0 <= x < TABLE_MAX_PAGES && x != old && x != new implies if is_child_from(
        p,
        x as u32,
        i - 1,
    ) {
        reparented(ps[x], #[trigger] nxt[x], new)
    } else {
        nxt[x] == ps[x]
    } by {
        if x == c {
            assert(is_child_from(p, x as u32, i - 1));
            assert(mid_state[x] == cur[x]);
        } else {
            assert(nxt[x] == cur[x]);
            if is_child_from(p, x as u32, i - 1) {
                let j = choose|j: int|
                    i - 1 <= j <= header(p).count && #[trigger] child_at(p, j) == x as u32;
                assert(j != i - 1);
                assert(is_child_from(p, x as u32, i));
            } else {
                if is_child_from(p, x as u32, i) {
                    let j = choose|j: int|
                        i <= j <= header(p).count && #[trigger] child_at(p, j) == x as u32;
                    assert(i - 1 <= j <= header(p).count && child_at(p, j) == x as u32);
                }
            }
        }
    }
}

/// Moves the upper half of a full internal node to an empty internal node:
/// first the rightmost child, then the cells behind cell `mid`, last cell
/// first. The child of cell `mid` becomes the rightmost child of the old
/// node, which keeps the cells before.
pub fn move_upper_half(pager: &mut Pager, old_page_num: u32, new_page_num: u32, mid: u32)
    requires
        old(pager).wf(),
        old(pager).num_pages <= TABLE_MAX_PAGES,
        old_page_num < old(pager).num_pages,
        new_page_num < old(pager).num_pages,
        old_page_num != new_page_num,
        mid < header(old(pager)@[old_page_num as int]).count < INTERNAL_NODE_SLOTS,
        header(old(pager)@[new_page_num as int]).count == 0,
        forall|i: int|
            0 <= i <= header(old(pager)@[old_page_num as int]).count ==> #[trigger] child_at(
                old(pager)@[old_page_num as int],
                i,
            ) < old(pager).num_pages && child_at(old(pager)@[old_page_num as int], i)
                != old_page_num && child_at(old(pager)@[old_page_num as int], i) != new_page_num,
    ensures
        final(pager).wf(),
        final(pager).num_pages == old(pager).num_pages,
        final(pager).file == old(pager).file,
        final(pager).file_length == old(pager).file_length,
        upper_half_moved(old(pager)@, final(pager)@, old_page_num, new_page_num, mid as int),
{
    let ghost ps = pager@;
    let ghost p = ps[old_page_num as int];
    proof {
        pager.lemma_view_pages();
    }
    let old_node = pager.page_mut(old_page_num);
    let num_cells = get_internal_node_num_cells(old_node);
    let right_child = get_internal_node_right_child(old_node);
    set_internal_node_right_child(old_node, INVALID_PAGE_NUM);
    let new_node = pager.page_mut(new_page_num);
    set_internal_node_right_child(new_node, right_child);
    proof {
        assert(child_at(p, num_cells as int) == right_child);
    }
    let right_child_node = pager.page_mut(right_child);
    Node::set_parent_node(right_child_node, new_page_num);
    proof {
        let cur = pager@;
        assert forall|x: int|
            0 <= x < TABLE_MAX_PAGES && x != old_page_num && x != new_page_num implies if is_child_from(
            p,
            x as u32,
            num_cells as int,
        ) {
            reparented(ps[x], #[trigger] cur[x], new_page_num)
        } else {
            cur[x] == ps[x]
        } by {
            if x == right_child {
                assert(is_child_from(p, x as u32, num_cells as int));
            } else {
                if is_child_from(p, x as u32, num_cells as int) {
                    let j = choose|j: int|
                        num_cells <= j <= header(p).count && #[trigger] child_at(p, j) == x as u32;
                }
            }
        }
    }
    let mut i: u32 = num_cells;
    while i > mid + 1
        invariant
            pager.wf(),
            pager.num_pages == old(pager).num_pages,
            pager.num_pages <= TABLE_MAX_PAGES,
            pager.file == old(pager).file,
            pager.file_length == old(pager).file_length,
            ps.len() == TABLE_MAX_PAGES,
            p == ps[old_page_num as int],
            old_page_num < pager.num_pages,
            new_page_num < pager.num_pages,
            old_page_num != new_page_num,
            num_cells == header(p).count,
            mid < num_cells < INTERNAL_NODE_SLOTS,
            mid + 1 <= i <= num_cells,
            forall|j: int|
                0 <= j <= header(p).count ==> #[trigger] child_at(p, j) < pager.num_pages
                    && child_at(p, j) != old_page_num && child_at(p, j) != new_page_num,
            upper_half_moving(ps, pager@, old_page_num, new_page_num, i as int),
        decreases i,
    {
        let ghost cur = pager@;
        proof {
            pager.lemma_view_pages();
            assert(child_at(p, i - 1) == internal_child(p, i - 1));
        }
        let old_node = pager.page(old_page_num);
        let cell_child_page_num = read_internal_child(old_node, i - 1);
        let cell_key = get_internal_node_key(old_node, i - 1);
        let new_node = pager.page_mut(new_page_num);
        insert_internal_cell(new_node, 0, cell_child_page_num, cell_key);
        let ghost mid_state = pager@;
        let cell_child = pager.page_mut(cell_child_page_num);
        Node::set_parent_node(cell_child, new_page_num);
        proof {
            lemma_upper_half_step(
                ps,
                cur,
                mid_state,
                pager@,
                old_page_num,
                new_page_num,
                i as int,
            );
        }
        i -= 1;
    }
    let ghost cur = pager@;
    proof {
        pager.lemma_view_pages();
    }
    let old_node = pager.page_mut(old_page_num);
    let mid_child = read_internal_child(old_node, mid);
    set_internal_node_right_child(old_node, mid_child);
    set_internal_node_num_cells(old_node, mid);
    proof {
        lemma_upper_half_done(ps, cur, pager@, old_page_num, new_page_num, mid as int);
    }
}

/// The last step of the move: the child of cell `mid` becomes the rightmost
/// child of the old node, which keeps the cells before.
pub proof fn lemma_upper_half_done(
    ps: Seq<Seq<u8>>,
    cur: Seq<Seq<u8>>,
    nxt: Seq<Seq<u8>>,
    old: u32,
    new: u32,
    mid: int,
)
    requires
        upper_half_moving(ps, cur, old, new, mid + 1),
        ps.len() == TABLE_MAX_PAGES,
        old < TABLE_MAX_PAGES,
        new < TABLE_MAX_PAGES,
        old != new,
        0 <= mid < header(ps[old as int]).count < INTERNAL_NODE_SLOTS,
        nxt.len() == cur.len(),
        forall|x: int| 0 <= x < TABLE_MAX_PAGES && x != old ==> nxt[x] == cur[x],
        header(nxt[old as int]) == (Header {
            count: mid as u32,
            link: internal_child(cur[old as int], mid),
            ..header(cur[old as int])
        }),
        body(nxt[old as int]) == body(cur[old as int]),
    ensures
        upper_half_moved(ps, nxt, old, new, mid),
{
    let pg = ps[old as int];
    assert(internal_child(cur[old as int], mid) == internal_child(pg, mid));
    assert(nxt[new as int] == cur[new as int]);
    assert forall|j: int| 0 <= j < header(pg).count - mid - 1 implies #[trigger] internal_child(
        nxt[new as int],
        j,
    ) == internal_child(pg, mid + 1 + j) && internal_key(nxt[new as int], j) == internal_key(
        pg,
        mid + 1 + j,
    ) by {
        assert(internal_child(cur[new as int], j) == internal_child(pg, mid + 1 + j));
    }
    assert forall|x: int| 0 <= x < TABLE_MAX_PAGES && x != old && x != new implies if is_child_from(
        pg,
        x as u32,
        mid + 1,
    ) {
        reparented(ps[x], #[trigger] nxt[x], new)
    } else {
        nxt[x] == ps[x]
    } by {
        assert(nxt[x] == cur[x]);
    }
}

/// The splits above a node take no fewer than no pages.
pub proof fn lemma_cost_nonnegative(ps: Seq<Seq<u8>>, w: Shape, lim: Limits, n: u32)
    ensures
        cost_from(ps, w, lim, n) >= 0,
        cost_above(ps, w, lim, n) >= 0,
    decreases w.level[root_page()] - w.level[n],
{
    let par = header(ps[n as int]).parent;
    if !(n == root_page() || w.level[n] >= w.level[root_page()] || w.level[par] <= w.level[n]
        || w.level[par] > w.level[root_page()]) {
        lemma_cost_nonnegative(ps, w, lim, par);
    }
}

/// Whether the pages are free that the entry of a child into node
/// `page_num` takes, with the splits that it sets off.
pub open spec fn room_above(t: &Table, page_num: u32) -> bool {
    t.pager.num_pages + cost_above(t.pager@, t.shape@, t.limits, page_num) <= TABLE_MAX_PAGES
}

impl Node {
    /// Splits a full internal node for the entry of a child. The upper half
    /// of the children moves to a new node, and the child enters the half
    /// where its keys belong. Where the node is the root, the root is
    /// promoted first and its left child is split; else the new node enters
    /// the parent in its turn.
    pub fn internal_node_split_and_insert(table: &mut Table, page_num: u32, child_page_num: u32)
        requires
            old(table).pager.wf(),
            old(table).root_page_num == root_page(),
            waiting(old(table), page_num, child_page_num),
            header(old(table).pager@[page_num as int]).count == old(
                table,
            ).limits.internal_max_cells,
            room_above(old(table), page_num),
        ensures
            final(table).wf(),
            grown(old(table), final(table)),
            final(table).pager.num_pages == old(table).pager.num_pages + cost_above(
                old(table).pager@,
                old(table).shape@,
                old(table).limits,
                page_num,
            ),
            halves_hold(old(table), final(table), page_num, child_page_num),
            kept_below(
                old(table).pager@,
                old(table).shape@,
                final(table).pager@,
                old(table).shape@.level[page_num] as int,
            ),
        decreases
                old(table).shape@.level[root_page()] - old(table).shape@.level[page_num],
                0int,
    {
        let ghost ps = table.pager@;
        let ghost w = table.shape@;
        let ghost np = table.pager.num_pages;
        let ghost lim = table.limits;
        let ghost g = choose|g: int| pending(ps, np, lim, w, page_num, child_page_num, g);
        let ghost r = header(ps[page_num as int]).link;
        let ghost p = ps[page_num as int];
        let num_cells = table.limits.internal_max_cells;
        let mid = num_cells / 2;
        proof {
            lemma_cost_nonnegative(ps, w, lim, page_num);
            lemma_pending_below(ps, np, lim, w, page_num, child_page_num, g);
            lemma_rightmost_holds_key(ps, np, lim, w, child_page_num);
            lemma_max_key(ps, np, lim, w, child_page_num);
            lemma_walkable(ps, np, lim, w, child_page_num);
            lemma_rightmost_holds_key(ps, np, lim, w, r);
            lemma_max_key(ps, np, lim, w, r);
            lemma_walkable(ps, np, lim, w, r);
            lemma_pending_walkable(ps, np, lim, w, page_num, child_page_num, g);
            lemma_pending_kids(ps, np, lim, w, page_num, child_page_num, g);
            lemma_pending_mid(ps, np, lim, w, page_num, child_page_num, g, mid as int);
        }
        let child_max = get_node_max_key(table, child_page_num);
        let old_max_key = get_node_max_key(table, page_num);
        let old_node = table.pager.page(page_num);
        let mid_child = get_internal_node_child_page_num(old_node, mid);
        let splitting_root = is_node_root(old_node);
        let old_parent = Node::get_parent_node(old_node);
        let max_after_split = get_node_max_key(table, mid_child);
        let new_page_num = table.pager.get_unused_page_num();
        let new_node = table.pager.page_mut(new_page_num);
        let old_page_num: u32;
        let parent_page_num: u32;
        if splitting_root {
            proof {
                assert(table.pager@ == ps);
                lemma_walkable_more(ps, np, lim, w, page_num, table.pager.num_pages);
            }
            Node::create_new_root(table, new_page_num);
            parent_page_num = table.root_page_num;
            let parent = table.pager.page(parent_page_num);
            old_page_num = get_internal_node_child_page_num(parent, 0);
        } else {
            parent_page_num = old_parent;
            old_page_num = page_num;
            Node::initialize_internal_node(new_node);
        }
        let ghost ps_a = table.pager@;
        proof {
            table.pager.lemma_view_pages();
            assert forall|i: int| 0 <= i <= header(ps_a[old_page_num as int]).count implies #[trigger] child_at(
                ps_a[old_page_num as int],
                i,
            ) == child_at(p, i) by {}
        }
        move_upper_half(&mut table.pager, old_page_num, new_page_num, mid);
        let ghost ps_b = table.pager@;
        let to_old = child_max < max_after_split;
        let destination_page_num = if to_old {
            old_page_num
        } else {
            new_page_num
        };
        let destination_right_max = if to_old {
            max_after_split
        } else {
            old_max_key
        };
        proof {
            table.pager.lemma_view_pages();
            lemma_halves_sorted(p, ps_b[old_page_num as int], ps_b[new_page_num as int], mid as int);
        }
        let destination = table.pager.page_mut(destination_page_num);
        place_child(destination, child_page_num, child_max, destination_right_max);
        let child = table.pager.page_mut(child_page_num);
        Node::set_parent_node(child, destination_page_num);
        proof {
            table.pager.lemma_view_pages();
            if splitting_root {
                assert(keys_sorted(table.pager@[parent_page_num as int]));
            } else {
                assert(node_ok(ps, np, lim, w, parent_page_num));
                assert(table.pager@[parent_page_num as int] == ps[parent_page_num as int]) by {
                    lemma_pending_parent_page(
                        ps,
                        np,
                        lim,
                        w,
                        page_num,
                        child_page_num,
                        g,
                        ps_a,
                        ps_b,
                        mid as int,
                    );
                }
            }
        }
        let parent = table.pager.page_mut(parent_page_num);
        Node::update_internal_node_key(parent, old_max_key, max_after_split);
        let ghost ps_f = table.pager@;
        proof {
            table.pager.lemma_view_pages();
        }
        if splitting_root {
            let ghost w2 = shape_root_split(w, succ_page(np), np, max_after_split as int);
            proof {
                assert(root_steps(
                    ps,
                    np,
                    lim,
                    w,
                    child_page_num,
                    g,
                    ps_a,
                    ps_b,
                    ps_f,
                    mid as int,
                    child_max,
                    old_max_key,
                    max_after_split,
                ));
                lemma_split_root(
                    ps,
                    np,
                    lim,
                    w,
                    child_page_num,
                    g,
                    ps_a,
                    ps_b,
                    ps_f,
                    mid as int,
                    child_max,
                    old_max_key,
                    max_after_split,
                );
                lemma_root_done(
                    ps,
                    np,
                    lim,
                    w,
                    child_page_num,
                    g,
                    ps_a,
                    ps_b,
                    ps_f,
                    mid as int,
                    child_max,
                    old_max_key,
                    max_after_split,
                );
            }
            table.shape = Ghost(w2);
        } else {
            let ghost w2 = shape_internal_split(w, page_num, np, max_after_split as int);
            let ghost mut t: int = 0;
            proof {
                assert(nonroot_steps(
                    ps,
                    np,
                    lim,
                    w,
                    page_num,
                    child_page_num,
                    g,
                    ps_a,
                    ps_b,
                    ps_f,
                    mid as int,
                    child_max,
                    old_max_key,
                    max_after_split,
                ));
                t = lemma_split_nonroot(
                    ps,
                    np,
                    lim,
                    w,
                    page_num,
                    child_page_num,
                    g,
                    ps_a,
                    ps_b,
                    ps_f,
                    mid as int,
                    child_max,
                    old_max_key,
                    max_after_split,
                );
                assert(node_base(ps, np, w, page_num));
                assert(linked(ps, w, page_num));
                lemma_cost_frame(ps, w, ps_f, w2, lim, parent_page_num);
            }
            table.shape = Ghost(w2);
            proof {
                assert(pending(
                    table.pager@,
                    table.pager.num_pages,
                    table.limits,
                    table.shape@,
                    parent_page_num,
                    new_page_num,
                    t,
                ));
            }
            Node::internal_node_insert(table, parent_page_num, new_page_num);
            proof {
                lemma_same_leaves_trans(ps, w, ps_f, w2, table.pager@, table.shape@);
                lemma_nonroot_done(
                    ps,
                    np,
                    lim,
                    w,
                    page_num,
                    child_page_num,
                    g,
                    ps_a,
                    ps_b,
                    ps_f,
                    mid as int,
                    child_max,
                    old_max_key,
                    max_after_split,
                    table.pager@,
                );
            }
        }
    }
}

/// The pages that the split of a leaf takes, with the splits that it sets
/// off above: one for the leaf, one for every full node above that follows
/// on a full node, and one for the promotion of the root where the splits
/// reach it.
pub fn split_cost(table: &mut Table, page_num: u32) -> (cost: u32)
    requires
        old(table).wf(),
        old(table).shape@.live.contains(page_num),
    ensures
        final(table).wf(),
        final(table).same_state(old(table)),
        cost == 1 + cost_from(old(table).pager@, old(table).shape@, old(table).limits, page_num),
        cost <= TABLE_MAX_PAGES + 1,
{
    let ghost ps = table.pager@;
    let ghost w = table.shape@;
    let ghost np = table.pager.num_pages;
    let ghost lim = table.limits;
    let mut cost: u32 = 1;
    let mut current: u32 = page_num;
    proof {
        lemma_tree_basics(ps, np, lim, w);
        lemma_tree_node(ps, np, lim, w, page_num);
    }
    loop
        invariant_except_break
            cost <= 1 + w.level[current],
            cost + cost_from(ps, w, lim, current) == 1 + cost_from(ps, w, lim, page_num),
        invariant
            table.wf(),
            table.same_state(old(table)),
            ps == table.pager@,
            w == table.shape@,
            np == table.pager.num_pages,
            lim == table.limits,
            w.live.contains(current),
            w.live.contains(page_num),
            w.level[root_page()] < TABLE_MAX_PAGES,
            w.level[current] <= w.level[root_page()],
        ensures
            table.wf(),
            table.same_state(old(table)),
            cost <= TABLE_MAX_PAGES + 1,
            cost == 1 + cost_from(ps, w, lim, page_num),
        decreases w.level[root_page()] - w.level[current],
    {
        proof {
            lemma_tree_node(ps, np, lim, w, current);
        }
        let node = table.pager.page(current);
        if is_node_root(node) {
            cost += 1;
            break ;
        }
        let parent = Node::get_parent_node(node);
        proof {
            lemma_tree_node(ps, np, lim, w, parent);
            lemma_tree_basics(ps, np, lim, w);
        }
        let parent_cells = get_internal_node_num_cells(table.pager.page(parent));
        if parent_cells < table.limits.internal_max_cells {
            break ;
        }
        cost += 1;
        current = parent;
    }
    cost
}

/// The table `new_t` is the table `old_t` after a cell has entered at the
/// place of the cursor, in a leaf that had room: the cells from there on have
/// moved one place to the right, and nothing else has changed.
pub open spec fn entered_leaf(
    old_t: &Table,
    new_t: &Table,
    c: Cursor,
    key: u32,
    value: Seq<u8>,
) -> bool {
    &&& new_t.shape@ == old_t.shape@
    &&& new_t.pager.num_pages == old_t.pager.num_pages
    &&& new_t.pager@.len() == old_t.pager@.len()
    &&& forall|n: int|
        0 <= n < old_t.pager@.len() && n != c.page_num ==> #[trigger] new_t.pager@[n]
            == old_t.pager@[n]
    &&& leaf_cell_inserted(
        old_t.pager@[c.page_num as int],
        new_t.pager@[c.page_num as int],
        c.cell_num as int,
        key,
        value,
    )
}

/// The leaf of the cursor has room for one more cell.
pub open spec fn leaf_has_room(t: &Table, c: Cursor) -> bool {
    header(t.pager@[c.page_num as int]).count < t.limits.leaf_max_cells
}

impl Node {
    /// Enters a row at the place of the cursor, which stands where the key
    /// of the row belongs. A key that the table holds already is refused. A
    /// leaf that is full is split, if the pages for that are free; if they
    /// are not, the table is full.
    pub fn leaf_node_insert(table: &mut Table, cursor: Cursor, key: u32, value: &Row) -> (r: Result<
        (),
        DbError,
    >)
        requires
            old(table).wf(),
            cursor.positioned(old(table), key),
            old(table).num_rows < u32::MAX,
        ensures
            final(table).wf(),
            match r {
                Ok(_) => {
                    &&& !old(table)@.contains_key(key)
                    &&& leaf_has_room(old(table), cursor) || room_to_split(
                        old(table),
                        cursor.page_num,
                    )
                    &&& leaf_has_room(old(table), cursor) ==> entered_leaf(
                        old(table),
                        final(table),
                        cursor,
                        key,
                        value.encode(),
                    )
                    &&& !leaf_has_room(old(table), cursor) ==> leaf_was_split(
                        old(table),
                        final(table),
                        cursor,
                        key,
                        value.encode(),
                    ) && final(table).pager.num_pages == old(table).pager.num_pages + 1
                        + cost_from(
                        old(table).pager@,
                        old(table).shape@,
                        old(table).limits,
                        cursor.page_num,
                    )
                    &&& final(table)@ == old(table)@.insert(key, value.encode())
                    &&& final(table).num_rows == old(table).num_rows + 1
                    &&& final(table).limits == old(table).limits
                    &&& final(table).root_page_num == old(table).root_page_num
                    &&& final(table).pager.file == old(table).pager.file
                    &&& final(table).pager.file_length == old(table).pager.file_length
                },
                Err(e) => {
                    &&& final(table).same_state(old(table))
                    &&& if old(table)@.contains_key(key) {
                        e == DbError::DuplicateKey
                    } else {
                        e == DbError::TableFull && !leaf_has_room(old(table), cursor)
                            && !room_to_split(old(table), cursor.page_num)
                    }
                },
            },
    {
        let ghost ps = table.pager@;
        let ghost w = table.shape@;
        let ghost np = table.pager.num_pages;
        let ghost lim = table.limits;
        proof {
            lemma_tree_basics(ps, np, lim, w);
            lemma_tree_node(ps, np, lim, w, cursor.page_num);
            cursor.lemma_positioned(table, key);
        }
        let node = table.pager.page(cursor.page_num);
        let num_cells = Node::get_leaf_node_num_cells(node);
        if cursor.cell_num < num_cells {
            let key_at_index = get_leaf_node_key(node, cursor.cell_num);
            if key_at_index == key {
                return Err(DbError::DuplicateKey);
            }
        }
        if num_cells >= table.limits.leaf_max_cells {
            let cost = split_cost(table, cursor.page_num);
            if cost > TABLE_MAX_PAGES || table.pager.num_pages > TABLE_MAX_PAGES - cost {
                return Err(DbError::TableFull);
            }
            Node::split_leaf_node_and_insert(table, cursor, key, value);
        } else {
            let bytes = value.serialize_row();
            let node = table.pager.page_mut(cursor.page_num);
            insert_leaf_cell(node, cursor.cell_num, key, &bytes);
            proof {
                lemma_leaf_insert(
                    ps,
                    np,
                    lim,
                    w,
                    cursor.page_num,
                    table.pager@[cursor.page_num as int],
                    cursor.cell_num as int,
                    key,
                    bytes@,
                );
                assert(table.pager@ =~= ps.update(
                    cursor.page_num as int,
                    table.pager@[cursor.page_num as int],
                ));
            }
        }
        table.num_rows += 1;
        Ok(())
    }
}

} // verus!
