//! Finding out whether the pages of a table hold a tree.
//!
//! An outline of the tree is drawn up from the root down: for every page
//! that a node names as its child, the level and the interval of keys that
//! the node gives it. Then every page of the outline is held against what
//! has to be true of a node of the tree.

use crate::node::{
    child_at, get_internal_node_key, get_internal_node_num_cells, get_internal_node_right_child,
    get_leaf_node_key, header, internal_key, is_node_root, leaf_key, read_internal_child, Node,
    INTERNAL_NODE_SLOTS, INVALID_PAGE_NUM, KIND_INTERNAL, KIND_LEAF, LEAF_NODE_MAX_CELLS,
    NODE_TYPE_OFFSET,
};
use crate::error::DbError;
use crate::pager::{Pager, TABLE_MAX_PAGES};
use crate::table::Table;
use crate::tree::{
    chain_ok, child_ok, internal_ok, keys_sorted, leaf_ok, lemma_tree_basics, lemma_tree_def,
    lemma_tree_node, linked, node_base, node_ok, node_struct, root_page, tree_ok, Limits, Shape,
};
use vstd::prelude::*;

verus! {

/// An outline of a tree, with a place for every page of the store: whether
/// the page is a node, and if so its level and its interval of keys.
pub struct Outline {
    pub live: Vec<bool>,
    pub level: Vec<u32>,
    pub lo: Vec<i64>,
    pub hi: Vec<i64>,
}

impl Outline {
    /// The outline has a place for every page.
    pub open spec fn wf(&self) -> bool {
        &&& self.live@.len() == TABLE_MAX_PAGES
        &&& self.level@.len() == TABLE_MAX_PAGES
        &&& self.lo@.len() == TABLE_MAX_PAGES
        &&& self.hi@.len() == TABLE_MAX_PAGES
    }

    /// The shape that the outline stands for.
    pub open spec fn shape(&self) -> Shape {
        Shape {
            live: Set::new(|n: u32| n < TABLE_MAX_PAGES && self.live@[n as int]),
            level: Map::new(|n: u32| n < TABLE_MAX_PAGES, |n: u32| self.level@[n as int] as nat),
            lo: Map::new(|n: u32| n < TABLE_MAX_PAGES, |n: u32| self.lo@[n as int] as int),
            hi: Map::new(|n: u32| n < TABLE_MAX_PAGES, |n: u32| self.hi@[n as int] as int),
        }
    }

    /// An outline without nodes.
    pub fn empty() -> (o: Outline)
        ensures
            o.wf(),
            forall|n: int| 0 <= n < TABLE_MAX_PAGES ==> !o.live@[n],
    {
        let mut o = Outline { live: Vec::new(), level: Vec::new(), lo: Vec::new(), hi: Vec::new() };
        let mut i: u32 = 0;
        while i < TABLE_MAX_PAGES
            invariant
                i <= TABLE_MAX_PAGES,
                o.live@.len() == i,
                o.level@.len() == i,
                o.lo@.len() == i,
                o.hi@.len() == i,
                forall|n: int| 0 <= n < i ==> !o.live@[n],
            decreases TABLE_MAX_PAGES - i,
        {
            o.live.push(false);
            o.level.push(0);
            o.lo.push(0);
            o.hi.push(0);
            i += 1;
        }
        o
    }
}

/// Whatever the outline has for a node is a node of the shape, with the
/// level and the interval that the shape gives it.
pub open spec fn sound(o: &Outline, w: Shape) -> bool {
    forall|n: int|
        0 <= n < TABLE_MAX_PAGES && #[trigger] o.live@[n] ==> w.live.contains(n as u32)
            && o.level@[n] == w.level[n as u32] && o.lo@[n] == w.lo[n as u32] && o.hi@[n]
            == w.hi[n as u32]
}

/// The outline has every node of the shape that stands no more than `k`
/// levels below the root.
pub open spec fn covered(o: &Outline, w: Shape, k: int) -> bool {
    forall|n: u32|
        #[trigger] w.live.contains(n) && w.level[root_page()] - w.level[n] <= k ==> n
            < TABLE_MAX_PAGES && o.live@[n as int]
}

/// The outline has the nodes of the shape and no others, each with the
/// level and the interval that the shape gives it.
pub open spec fn agrees(o: &Outline, w: Shape) -> bool {
    &&& sound(o, w)
    &&& forall|n: u32| #[trigger] w.live.contains(n) ==> n < TABLE_MAX_PAGES && o.live@[n as int]
}

/// The number of pages that a tree can stand in: the pages in use, as far
/// as the store hands pages out.
pub open spec fn spec_pages_in_reach(num_pages: u32) -> u32 {
    if num_pages < TABLE_MAX_PAGES {
        num_pages
    } else {
        TABLE_MAX_PAGES
    }
}

/// The number of pages that a tree can stand in.
fn pages_in_reach(pager: &Pager) -> (cap: u32)
    ensures
        cap == spec_pages_in_reach(pager.num_pages),
{
    if pager.num_pages < TABLE_MAX_PAGES {
        pager.num_pages
    } else {
        TABLE_MAX_PAGES
    }
}

/// The number of levels below the root, as far as the first children tell:
/// the number of internal nodes on the way from the root down its first
/// children.
fn sketch_height(pager: &mut Pager, Ghost(lim): Ghost<Limits>, Ghost(w): Ghost<Shape>) -> (h: u32)
    requires
        old(pager).wf(),
        1 <= old(pager).num_pages,
    ensures
        untouched(old(pager), final(pager)),
        h <= TABLE_MAX_PAGES,
        tree_ok(old(pager)@, old(pager).num_pages, lim, w) ==> h == w.level[root_page()],
{
    let ghost ps = pager@;
    let ghost np = pager.num_pages;
    let ghost holds = tree_ok(ps, np, lim, w);
    let cap = pages_in_reach(pager);
    let mut h: u32 = 0;
    let mut current: u32 = 0;
    let mut steps: u32 = 0;
    proof {
        if holds {
            lemma_tree_basics(ps, np, lim, w);
        }
    }
    while steps < cap
        invariant
            untouched(old(pager), pager),
            ps == pager@,
            np == pager.num_pages,
            cap == spec_pages_in_reach(np),
            holds == tree_ok(ps, np, lim, w),
            current < cap,
            h == steps,
            steps <= cap,
            holds ==> w.live.contains(current) && w.level[current] + h == w.level[root_page()]
                && w.level[root_page()] < cap,
        decreases cap - steps,
    {
        proof {
            if holds {
                lemma_tree_node(ps, np, lim, w, current);
                lemma_tree_basics(ps, np, lim, w);
            }
        }
        let page = pager.page(current);
        if page.read_u8(NODE_TYPE_OFFSET) != KIND_INTERNAL {
            return h;
        }
        let count = get_internal_node_num_cells(page);
        let child = if count == 0 {
            get_internal_node_right_child(page)
        } else {
            read_internal_child(page, 0)
        };
        proof {
            if holds {
                assert(child_ok(ps, w, current, 0));
                assert(child_at(ps[current as int], 0) == child);
                lemma_tree_node(ps, np, lim, w, child);
            }
        }
        if child >= cap {
            return h;
        }
        current = child;
        h += 1;
        steps += 1;
    }
    h
}

/// All children of node `p` up to child `upto` are in the outline.
pub open spec fn kids_outlined(o: &Outline, p: Seq<u8>, upto: int) -> bool {
    forall|j: int|
        0 <= j < upto ==> #[trigger] child_at(p, j) < TABLE_MAX_PAGES && o.live@[child_at(
            p,
            j,
        ) as int]
}

/// The children of every node of the shape that stands no more than `k`
/// levels below the root, in a page below `upto`, are in the outline.
pub open spec fn expanded(o: &Outline, ps: Seq<Seq<u8>>, w: Shape, k: int, upto: int) -> bool {
    forall|p: u32|
        #[trigger] w.live.contains(p) && p < upto && w.level[p] > 0 && w.level[root_page()]
            - w.level[p] <= k ==> kids_outlined(o, ps[p as int], header(ps[p as int]).count + 1)
}

/// Once the children of all nodes down to a level are in the outline, the
/// nodes of the next level are.
proof fn lemma_covered_next(
    o: &Outline,
    ps: Seq<Seq<u8>>,
    np: u32,
    lim: Limits,
    w: Shape,
    k: int,
)
    requires
        tree_ok(ps, np, lim, w),
        0 <= k,
        covered(o, w, k),
        expanded(o, ps, w, k, spec_pages_in_reach(np) as int),
    ensures
        covered(o, w, k + 1),
{
    assert forall|n: u32|
        #[trigger] w.live.contains(n) && w.level[root_page()] - w.level[n] <= k + 1 implies n
        < TABLE_MAX_PAGES && o.live@[n as int] by {
        lemma_tree_node(ps, np, lim, w, n);
        if w.level[root_page()] - w.level[n] == k + 1 {
            let p = header(ps[n as int]).parent;
            lemma_tree_node(ps, np, lim, w, p);
            let i = choose|i: int|
                0 <= i <= header(ps[p as int]).count && #[trigger] child_at(ps[p as int], i) == n;
            assert(kids_outlined(o, ps[p as int], header(ps[p as int]).count + 1));
            assert(child_at(ps[p as int], i) < TABLE_MAX_PAGES);
        }
    }
}

/// Draws up the outline of the tree from the root down, level by level.
/// Where the pages hold a tree, the outline is its shape.
fn sketch(pager: &mut Pager, limits: Limits, Ghost(w): Ghost<Shape>) -> (o: Outline)
    requires
        old(pager).wf(),
        1 <= old(pager).num_pages,
    ensures
        untouched(old(pager), final(pager)),
        o.wf(),
        tree_ok(old(pager)@, old(pager).num_pages, limits, w) ==> agrees(&o, w),
{
    let ghost ps = pager@;
    let ghost holds = tree_ok(ps, pager.num_pages, limits, w);
    let mut o = Outline::empty();
    let h = sketch_height(pager, Ghost(limits), Ghost(w));
    o.live.set(0, true);
    o.level.set(0, h);
    o.lo.set(0, -1);
    o.hi.set(0, 0x1_0000_0000);
    let ghost np = pager.num_pages;
    let cap = pages_in_reach(pager);
    proof {
        if holds {
            lemma_tree_basics(ps, np, limits, w);
            assert forall|n: u32|
                #[trigger] w.live.contains(n) && w.level[root_page()] - w.level[n]
                    <= 0 implies n < TABLE_MAX_PAGES && o.live@[n as int] by {
                lemma_tree_node(ps, np, limits, w, n);
                if n != root_page() {
                    lemma_tree_node(ps, np, limits, w, header(ps[n as int]).parent);
                }
            }
        }
    }
    let mut pass: u32 = 0;
    while pass < cap
        invariant
            untouched(old(pager), pager),
            ps == pager@,
            holds == tree_ok(ps, np, limits, w),
            np == pager.num_pages,
            cap == spec_pages_in_reach(np),
            o.wf(),
            pass <= cap,
            holds ==> sound(&o, w) && covered(&o, w, pass as int),
        decreases cap - pass,
    {
        let mut n: u32 = 0;
        while n < cap
            invariant
                untouched(old(pager), pager),
                ps == pager@,
                holds == tree_ok(ps, np, limits, w),
                np == pager.num_pages,
                cap == spec_pages_in_reach(np),
                o.wf(),
                pass < cap,
                n <= cap,
                holds ==> sound(&o, w) && covered(&o, w, pass as int) && expanded(
                    &o,
                    ps,
                    w,
                    pass as int,
                    n as int,
                ),
            decreases cap - n,
        {
            let ghost o_before = o;
            proof {
                if holds {
                    lemma_tree_basics(ps, np, limits, w);
                    if w.live.contains(n) {
                        lemma_tree_node(ps, np, limits, w, n);
                    }
                }
            }
            if o.live[n as usize] && o.level[n as usize] > 0 {
                let page = pager.page(n);
                let count = get_internal_node_num_cells(page);
                if page.read_u8(NODE_TYPE_OFFSET) == KIND_INTERNAL && count < INTERNAL_NODE_SLOTS {
                    let mut i: u32 = 0;
                    while i <= count
                        invariant
                            page.wf(),
                            page@ == ps[n as int],
                            holds == tree_ok(ps, np, limits, w),
                            count == header(page@).count,
                            count < INTERNAL_NODE_SLOTS,
                            cap == spec_pages_in_reach(np),
                            n < cap,
                            o.wf(),
                            i <= count + 1,
                            o.live@[n as int],
                            o.level@[n as int] > 0,
                            o.level@[n as int] == o_before.level@[n as int],
                            o.lo@[n as int] == o_before.lo@[n as int],
                            o.hi@[n as int] == o_before.hi@[n as int],
                            forall|m: int|
                                0 <= m < TABLE_MAX_PAGES && o_before.live@[m] ==> #[trigger] o.live@[m],
                            holds ==> sound(&o, w) && kids_outlined(&o, page@, i as int),
                        decreases count + 1 - i,
                    {
                        let child = if i == count {
                            get_internal_node_right_child(page)
                        } else {
                            read_internal_child(page, i)
                        };
                        let ghost o_mid = o;
                        proof {
                            assert(child_at(page@, i as int) == child);
                            if holds {
                                lemma_tree_node(ps, np, limits, w, n);
                                assert(child_ok(ps, w, n, i as int));
                                lemma_tree_node(ps, np, limits, w, child);
                            }
                        }
                        if child < cap && child != n && !o.live[child as usize] {
                            let lo = if i == 0 {
                                o.lo[n as usize]
                            } else {
                                get_internal_node_key(page, i - 1) as i64
                            };
                            let hi = if i == count {
                                o.hi[n as usize]
                            } else {
                                get_internal_node_key(page, i) as i64
                            };
                            let level = o.level[n as usize] - 1;
                            o.live.set(child as usize, true);
                            o.level.set(child as usize, level);
                            o.lo.set(child as usize, lo);
                            o.hi.set(child as usize, hi);
                        }
                        proof {
                            if holds {
                                assert(o.live@[child as int]);
                                assert forall|j: int| 0 <= j < i + 1 implies #[trigger] child_at(
                                    page@,
                                    j,
                                ) < TABLE_MAX_PAGES && o.live@[child_at(page@, j) as int] by {
                                    if j < i {
                                        assert(o_mid.live@[child_at(page@, j) as int]);
                                    }
                                }
                            }
                        }
                        i += 1;
                    }
                }
            }
            proof {
                if holds {
                    assert forall|p: u32|
                        #[trigger] w.live.contains(p) && p < n + 1 && w.level[p] > 0
                            && w.level[root_page()] - w.level[p] <= pass implies kids_outlined(
                        &o,
                        ps[p as int],
                        header(ps[p as int]).count + 1,
                    ) by {
                        if p < n {
                            assert(kids_outlined(
                                &o_before,
                                ps[p as int],
                                header(ps[p as int]).count + 1,
                            ));
                            assert forall|j: int|
                                0 <= j < header(ps[p as int]).count + 1 implies #[trigger] child_at(
                                ps[p as int],
                                j,
                            ) < TABLE_MAX_PAGES && o.live@[child_at(ps[p as int], j) as int] by {
                                assert(o_before.live@[child_at(ps[p as int], j) as int]);
                            }
                        } else {
                            assert(o_before.live@[n as int]);
                        }
                    }
                    assert forall|m: u32|
                        #[trigger] w.live.contains(m) && w.level[root_page()] - w.level[m]
                            <= pass implies m < TABLE_MAX_PAGES && o.live@[m as int] by {
                        assert(o_before.live@[m as int]);
                    }
                }
            }
            n += 1;
        }
        proof {
            if holds {
                lemma_covered_next(&o, ps, np, limits, w, pass as int);
            }
        }
        pass += 1;
    }
    proof {
        if holds {
            lemma_tree_basics(ps, np, limits, w);
            assert forall|n: u32| #[trigger] w.live.contains(n) implies n < TABLE_MAX_PAGES
                && o.live@[n as int] by {
                lemma_tree_node(ps, np, limits, w, n);
            }
        }
    }
    o
}

/// What looking at one node leaves of the store: nothing has changed.
pub open spec fn untouched(old_p: &Pager, new_p: &Pager) -> bool {
    &&& new_p.wf()
    &&& new_p@ == old_p@
    &&& new_p.num_pages == old_p.num_pages
    &&& new_p.file == old_p.file
    &&& new_p.file_length == old_p.file_length
}

/// The pages hold a tree of shape `w`, and the outline is that shape.
pub open spec fn known(ps: Seq<Seq<u8>>, np: u32, lim: Limits, w: Shape, o: &Outline) -> bool {
    tree_ok(ps, np, lim, w) && agrees(o, w)
}

/// Whether page `n` is in order by itself as the outline has it.
fn base_in_order(
    pager: &mut Pager,
    o: &Outline,
    n: u32,
    Ghost(lim): Ghost<Limits>,
    Ghost(w): Ghost<Shape>,
) -> (ok: bool)
    requires
        old(pager).wf(),
        o.wf(),
        n < old(pager).num_pages,
        n < TABLE_MAX_PAGES,
        o.live@[n as int],
    ensures
        untouched(old(pager), final(pager)),
        ok ==> node_base(old(pager)@, old(pager).num_pages, o.shape(), n),
        known(old(pager)@, old(pager).num_pages, lim, w, o) ==> ok,
{
    let ghost ps = pager@;
    let ghost np = pager.num_pages;
    proof {
        if known(ps, np, lim, w, o) {
            lemma_tree_basics(ps, np, lim, w);
            lemma_tree_node(ps, np, lim, w, n);
            assert(o.live@[0]);
        }
    }
    let lo = o.lo[n as usize];
    let hi = o.hi[n as usize];
    let page = pager.page(n);
    let root = is_node_root(page);
    -1 <= lo && lo < hi && hi <= 0x1_0000_0000 && o.level[n as usize] <= o.level[0] && root == (n
        == 0)
}

/// Whether page `n` is a child of the node that it names as its parent, as
/// the outline has the two.
fn linked_in_order(
    pager: &mut Pager,
    o: &Outline,
    n: u32,
    Ghost(lim): Ghost<Limits>,
    Ghost(w): Ghost<Shape>,
) -> (ok: bool)
    requires
        old(pager).wf(),
        o.wf(),
        n < old(pager).num_pages,
        n < TABLE_MAX_PAGES,
        o.live@[n as int],
        n != root_page(),
    ensures
        untouched(old(pager), final(pager)),
        ok ==> linked(old(pager)@, o.shape(), n),
        known(old(pager)@, old(pager).num_pages, lim, w, o) ==> ok,
{
    let ghost ps = pager@;
    let ghost np = pager.num_pages;
    let ghost holds = known(ps, np, lim, w, o);
    proof {
        pager.lemma_view_pages();
        if holds {
            lemma_tree_basics(ps, np, lim, w);
            lemma_tree_node(ps, np, lim, w, n);
            lemma_tree_node(ps, np, lim, w, header(ps[n as int]).parent);
            assert(o.live@[header(ps[n as int]).parent as int]);
        }
    }
    let parent = Node::get_parent_node(pager.page(n));
    if parent >= pages_in_reach(pager) || !o.live[parent as usize] {
        return false;
    }
    if o.level[parent as usize] == 0 || o.level[parent as usize] - 1 != o.level[n as usize] {
        return false;
    }
    let count = get_internal_node_num_cells(pager.page(parent));
    if count >= INTERNAL_NODE_SLOTS {
        return false;
    }
    let mut i: u32 = 0;
    while i <= count
        invariant
            untouched(old(pager), pager),
            ps == pager@,
            o.wf(),
            n < pager.num_pages,
            n < TABLE_MAX_PAGES,
            parent < pager.num_pages,
            parent < TABLE_MAX_PAGES,
            parent == header(ps[n as int]).parent,
            o.live@[parent as int],
            o.level@[parent as int] == o.level@[n as int] + 1,
            count == header(ps[parent as int]).count,
            count < INTERNAL_NODE_SLOTS,
            i <= count + 1,
            forall|j: int| 0 <= j < i ==> #[trigger] child_at(ps[parent as int], j) != n,
        decreases count + 1 - i,
    {
        let page = pager.page(parent);
        let child = if i == count {
            get_internal_node_right_child(page)
        } else {
            read_internal_child(page, i)
        };
        if child == n {
            assert(child_at(ps[parent as int], i as int) == n);
            return true;
        }
        assert(child_at(ps[parent as int], i as int) != n);
        i += 1;
    }
    false
}

/// Whether page `n` is a leaf in order, as the outline has it.
fn leaf_in_order(
    pager: &mut Pager,
    o: &Outline,
    limits: Limits,
    n: u32,
    Ghost(w): Ghost<Shape>,
) -> (ok: bool)
    requires
        old(pager).wf(),
        o.wf(),
        limits.valid(),
        n < old(pager).num_pages,
        n < TABLE_MAX_PAGES,
        o.live@[n as int],
        o.level@[n as int] == 0,
    ensures
        untouched(old(pager), final(pager)),
        ok ==> node_struct(old(pager)@, limits, o.shape(), n),
        known(old(pager)@, old(pager).num_pages, limits, w, o) ==> ok,
{
    let ghost ps = pager@;
    let ghost ws = o.shape();
    let ghost holds = known(ps, pager.num_pages, limits, w, o);
    let lo = o.lo[n as usize];
    let hi = o.hi[n as usize];
    let np = pager.num_pages;
    proof {
        pager.lemma_view_pages();
        if holds {
            lemma_tree_node(ps, np, limits, w, n);
            assert(chain_ok(ps, w, n));
            if header(ps[n as int]).link != 0 {
                lemma_tree_node(ps, np, limits, w, header(ps[n as int]).link);
                assert(o.live@[header(ps[n as int]).link as int]);
            }
        }
    }
    let ghost p = ps[n as int];
    let (kind, count, next) = {
        let page = pager.page(n);
        (
            page.read_u8(NODE_TYPE_OFFSET),
            get_internal_node_num_cells(page),
            get_internal_node_right_child(page),
        )
    };
    if kind != KIND_LEAF || count > limits.leaf_max_cells {
        return false;
    }
    if n != 0 && count == 0 {
        return false;
    }
    let mut i: u32 = 0;
    while i < count
        invariant
            untouched(old(pager), pager),
            ps == pager@,
            p == ps[n as int],
            n < pager.num_pages,
            n < TABLE_MAX_PAGES,
            np == pager.num_pages,
            holds == known(ps, np, limits, w, o),
            holds ==> leaf_ok(p, lo as int, hi as int, limits.leaf_max_cells as int),
            count == header(p).count,
            count <= LEAF_NODE_MAX_CELLS,
            i <= count,
            forall|a: int, b: int|
                #![trigger leaf_key(p, a), leaf_key(p, b)]
                0 <= a < b < i ==> leaf_key(p, a) < leaf_key(p, b),
            forall|a: int| 0 <= a < i ==> lo < #[trigger] leaf_key(p, a) <= hi,
        decreases count - i,
    {
        let page = pager.page(n);
        let key = get_leaf_node_key(page, i) as i64;
        if !(lo < key && key <= hi) {
            return false;
        }
        if i > 0 {
            let before = get_leaf_node_key(page, i - 1) as i64;
            proof {
                if holds {
                    assert(leaf_key(p, i - 1) < leaf_key(p, i as int));
                }
            }
            if !(before < key) {
                return false;
            }
            proof {
                assert forall|a: int, b: int|
                    #![trigger leaf_key(p, a), leaf_key(p, b)]
                    0 <= a < b < i + 1 implies leaf_key(p, a) < leaf_key(p, b) by {
                    if b == i && a < i - 1 {
                        assert(leaf_key(p, a) < leaf_key(p, i - 1));
                    }
                }
            }
        }
        i += 1;
    }
    if hi < 0x1_0000_0000 {
        if count == 0 || get_leaf_node_key(pager.page(n), count - 1) as i64 != hi {
            return false;
        }
    }
    if (hi == 0x1_0000_0000) != (next == 0) {
        return false;
    }
    if next != 0 {
        if next >= pages_in_reach(pager) || !o.live[next as usize] || o.level[next as usize] != 0
            || o.lo[next as usize] != hi {
            return false;
        }
    }
    proof {
        assert(leaf_ok(p, ws.lo[n], ws.hi[n], limits.leaf_max_cells as int));
        assert(chain_ok(ps, ws, n));
    }
    true
}

/// Whether page `n` is an internal node in order towards its children, as
/// the outline has them.
fn internal_in_order(
    pager: &mut Pager,
    o: &Outline,
    limits: Limits,
    n: u32,
    Ghost(w): Ghost<Shape>,
) -> (ok: bool)
    requires
        old(pager).wf(),
        o.wf(),
        limits.valid(),
        n < old(pager).num_pages,
        n < TABLE_MAX_PAGES,
        o.live@[n as int],
        o.level@[n as int] > 0,
    ensures
        untouched(old(pager), final(pager)),
        ok ==> node_struct(old(pager)@, limits, o.shape(), n),
        known(old(pager)@, old(pager).num_pages, limits, w, o) ==> ok,
{
    let ghost ps = pager@;
    let ghost ws = o.shape();
    let ghost p = ps[n as int];
    let ghost holds = known(ps, pager.num_pages, limits, w, o);
    let lo = o.lo[n as usize];
    let hi = o.hi[n as usize];
    let level = o.level[n as usize];
    let np = pager.num_pages;
    proof {
        pager.lemma_view_pages();
        if holds {
            lemma_tree_node(ps, np, limits, w, n);
        }
    }
    let (count, right) = {
        let page = pager.page(n);
        if page.read_u8(NODE_TYPE_OFFSET) != KIND_INTERNAL {
            return false;
        }
        (get_internal_node_num_cells(page), get_internal_node_right_child(page))
    };
    if count > limits.internal_max_cells || right == INVALID_PAGE_NUM {
        return false;
    }
    let mut i: u32 = 0;
    while i <= count
        invariant
            untouched(old(pager), pager),
            ps == pager@,
            p == ps[n as int],
            ws == o.shape(),
            o.wf(),
            np == pager.num_pages,
            n < np,
            n < TABLE_MAX_PAGES,
            holds == known(ps, np, limits, w, o),
            holds ==> internal_ok(ps, w, n, limits.internal_max_cells as int) && w.live.contains(
                n,
            ),
            lo == o.lo@[n as int],
            hi == o.hi@[n as int],
            level == o.level@[n as int],
            level > 0,
            count == header(p).count,
            right == header(p).link,
            count < INTERNAL_NODE_SLOTS,
            i <= count + 1,
            forall|a: int, b: int|
                #![trigger internal_key(p, a), internal_key(p, b)]
                0 <= a < b < i && b < count ==> internal_key(p, a) < internal_key(p, b),
            forall|a: int| 0 <= a < i ==> #[trigger] child_ok(ps, ws, n, a),
        decreases count + 1 - i,
    {
        proof {
            if holds {
                assert(child_ok(ps, w, n, i as int));
                lemma_tree_node(ps, np, limits, w, child_at(p, i as int));
                assert(o.live@[child_at(p, i as int) as int]);
                assert(o.live@[n as int]);
                if i > 0 && i < count {
                    assert(internal_key(p, i - 1) < internal_key(p, i as int));
                }
            }
        }
        let page = pager.page(n);
        let child = if i == count {
            right
        } else {
            read_internal_child(page, i)
        };
        let child_low = if i == 0 {
            lo
        } else {
            get_internal_node_key(page, i - 1) as i64
        };
        let child_high = if i == count {
            hi
        } else {
            get_internal_node_key(page, i) as i64
        };
        proof {
            assert(child_at(p, i as int) == child);
        }
        if i > 0 && i < count {
            if !(child_low < child_high) {
                return false;
            }
            proof {
                assert forall|a: int, b: int|
                    #![trigger internal_key(p, a), internal_key(p, b)]
                    0 <= a < b < i + 1 && b < count implies internal_key(p, a) < internal_key(
                    p,
                    b,
                ) by {
                    if b == i && a < i - 1 {
                        assert(internal_key(p, a) < internal_key(p, i - 1));
                    }
                }
            }
        }
        if child >= pages_in_reach(pager) || !o.live[child as usize] {
            return false;
        }
        if o.level[child as usize] != level - 1 || o.lo[child as usize] != child_low
            || o.hi[child as usize] != child_high {
            return false;
        }
        let child_page = pager.page(child);
        if Node::get_parent_node(child_page) != n {
            return false;
        }
        proof {
            assert(child_ok(ps, ws, n, i as int));
        }
        i += 1;
    }
    proof {
        assert(keys_sorted(p));
        assert(internal_ok(ps, ws, n, limits.internal_max_cells as int));
    }
    true
}

impl Table {
    /// Finds out whether the pages of the table hold a tree, for the limits
    /// of the table. If they do, the table is well formed from then on; if
    /// they do not, a violated invariant is reported and nothing changes.
    pub fn validate(&mut self) -> (r: Result<(), DbError>)
        requires
            old(self).pager.wf(),
        ensures
            final(self).pager.wf(),
            final(self).pager@ == old(self).pager@,
            final(self).pager.num_pages == old(self).pager.num_pages,
            final(self).pager.file == old(self).pager.file,
            final(self).pager.file_length == old(self).pager.file_length,
            final(self).num_rows == old(self).num_rows,
            final(self).root_page_num == old(self).root_page_num,
            final(self).limits == old(self).limits,
            r is Ok <==> old(self).holds_tree(),
            match r {
                Ok(_) => final(self).wf(),
                Err(e) => e == DbError::InvariantViolation && final(self).shape@ == old(
                    self,
                ).shape@,
            },
    {
        let limits = self.limits;
        let np = self.pager.num_pages;
        let ghost ps = self.pager@;
        let ghost w0 = choose|w0: Shape| tree_ok(ps, np, limits, w0);
        let ghost holds = self.holds_tree();
        proof {
            if holds {
                lemma_tree_basics(ps, np, limits, w0);
            }
        }
        if self.root_page_num != 0 || np < 1 || limits.leaf_max_cells < 1 || limits.leaf_max_cells
            > LEAF_NODE_MAX_CELLS || limits.internal_max_cells < 1 || limits.internal_max_cells
            >= INTERNAL_NODE_SLOTS {
            return Err(DbError::InvariantViolation);
        }
        let o = sketch(&mut self.pager, limits, Ghost(w0));
        let ghost w = o.shape();
        proof {
            if holds {
                assert(o.live@[0]);
            }
        }
        if !o.live[0] || o.lo[0] != -1 || o.hi[0] != 0x1_0000_0000 || o.level[0] >= pages_in_reach(
            &self.pager,
        ) {
            return Err(DbError::InvariantViolation);
        }
        let mut n: u32 = 0;
        while n < TABLE_MAX_PAGES
            invariant
                self.pager.wf(),
                self.pager@ == old(self).pager@,
                self.pager.num_pages == old(self).pager.num_pages,
                self.pager.file == old(self).pager.file,
                self.pager.file_length == old(self).pager.file_length,
                self.num_rows == old(self).num_rows,
                self.root_page_num == old(self).root_page_num,
                self.limits == old(self).limits,
                self.shape@ == old(self).shape@,
                limits == self.limits,
                limits.valid(),
                np == self.pager.num_pages,
                ps == self.pager@,
                w == o.shape(),
                o.wf(),
                holds == old(self).holds_tree(),
                holds ==> known(ps, np, limits, w0, &o),
                n <= TABLE_MAX_PAGES,
                forall|m: u32| m < n && w.live.contains(m) ==> #[trigger] node_ok(ps, np, limits, w, m),
            decreases TABLE_MAX_PAGES - n,
        {
            if o.live[n as usize] {
                proof {
                    if holds {
                        lemma_tree_node(ps, np, limits, w0, n);
                    }
                }
                if n >= np {
                    return Err(DbError::InvariantViolation);
                }
                if !base_in_order(&mut self.pager, &o, n, Ghost(limits), Ghost(w0)) {
                    return Err(DbError::InvariantViolation);
                }
                if n != 0 && !linked_in_order(&mut self.pager, &o, n, Ghost(limits), Ghost(w0)) {
                    return Err(DbError::InvariantViolation);
                }
                let in_order = if o.level[n as usize] == 0 {
                    leaf_in_order(&mut self.pager, &o, limits, n, Ghost(w0))
                } else {
                    internal_in_order(&mut self.pager, &o, limits, n, Ghost(w0))
                };
                if !in_order {
                    return Err(DbError::InvariantViolation);
                }
            }
            n += 1;
        }
        proof {
            self.pager.lemma_view_pages();
            assert forall|m: u32| w.live.contains(m) implies #[trigger] node_ok(
                ps,
                np,
                limits,
                w,
                m,
            ) by {}
            lemma_tree_def(ps, np, limits, w);
        }
        self.shape = Ghost(w);
        Ok(())
    }

    /// The page of the root is page 0, and the pages hold a tree for the
    /// limits of the table.
    pub open spec fn holds_tree(&self) -> bool {
        self.root_page_num == root_page() && crate::table::some_tree(
            self.pager@,
            self.pager.num_pages,
            self.limits,
        )
    }
}

} // verus!
