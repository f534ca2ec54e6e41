//! The layout of a node inside a page, and the operations on one node.
//!
//! Every node starts with a common header: one byte for the kind of node, one
//! byte that marks the root, and the parent's page number. A count of cells
//! and one page number follow: in a leaf the next leaf to the right, in an
//! internal node the rightmost child. The cells fill the rest: in a leaf a
//! key and a record each, in an internal node a child's page number and the
//! largest key below that child. All integers are big-endian and four bytes
//! wide.

use crate::codec::{be32, lemma_be32_put32_other, lemma_be32_put32_same, put32, splice};
use crate::pager::{Page, PAGE_SIZE};
use crate::row::ROW_SIZE;
use vstd::prelude::*;

verus! {

pub const NODE_TYPE_OFFSET: usize = 0;

pub const IS_ROOT_OFFSET: usize = 1;

pub const PARENT_POINTER_OFFSET: usize = 2;

pub const COMMON_NODE_HEADER_SIZE: usize = 6;

pub const LEAF_NODE_NUM_CELLS_OFFSET: usize = 6;

pub const LEAF_NODE_NEXT_LEAF_OFFSET: usize = 10;

pub const LEAF_NODE_HEADER_SIZE: usize = 14;

pub const LEAF_NODE_KEY_SIZE: usize = 4;

pub const LEAF_NODE_VALUE_SIZE: usize = ROW_SIZE;

pub const LEAF_NODE_CELL_SIZE: usize = 1156;

pub const LEAF_NODE_SPACE_FOR_CELLS: usize = 4082;

/// Cells that fit in a leaf: the space for cells divided by the size of one.
pub const LEAF_NODE_MAX_CELLS: u32 = 3;

pub const INTERNAL_NODE_NUM_KEYS_OFFSET: usize = 6;

pub const INTERNAL_NODE_RIGHT_CHILD_OFFSET: usize = 10;

pub const INTERNAL_NODE_HEADER_SIZE: usize = 14;

pub const INTERNAL_NODE_CELL_SIZE: usize = 8;

/// Cells that fit in an internal node.
pub const INTERNAL_NODE_SLOTS: u32 = 510;

/// Cells that an internal node holds before it is split, unless the table
/// was opened with another limit.
pub const INTERNAL_NODE_MAX_CELLS: u32 = 3;

/// The page number that stands for "no page": an internal node under
/// construction has it for its rightmost child.
pub const INVALID_PAGE_NUM: u32 = 0xFFFF_FFFF;

/// The byte that marks an internal node.
pub const KIND_INTERNAL: u8 = 1;

/// The byte that marks a leaf.
pub const KIND_LEAF: u8 = 2;

/// The two kinds of node.
#[derive(Clone, Copy, Debug, PartialEq, Eq, Structural)]
pub enum NodeType {
    INTERNAL,
    LEAF,
}

impl NodeType {
    /// The byte that stands for a kind of node.
    pub open spec fn spec_to_value(self) -> u8 {
        match self {
            NodeType::INTERNAL => KIND_INTERNAL,
            NodeType::LEAF => KIND_LEAF,
        }
    }

    /// The kind of node that a byte stands for, if any.
    pub open spec fn spec_from_value(value: u8) -> Option<NodeType> {
        if value == KIND_INTERNAL {
            Some(NodeType::INTERNAL)
        } else if value == KIND_LEAF {
            Some(NodeType::LEAF)
        } else {
            None
        }
    }

    /// The kind of node that a byte stands for, if any.
    pub fn from_value(value: u8) -> (r: Option<NodeType>)
        ensures
            r == Self::spec_from_value(value),
    {
        if value == 1 {
            Some(NodeType::INTERNAL)
        } else if value == 2 {
            Some(NodeType::LEAF)
        } else {
            None
        }
    }

    /// The byte that stands for a kind of node.
    pub fn to_value(self) -> (r: u8)
        ensures
            r == self.spec_to_value(),
            Self::spec_from_value(r) == Some(self),
    {
        match self {
            NodeType::INTERNAL => 1,
            NodeType::LEAF => 2,
        }
    }
}

/// The fields that every node has.
pub struct Header {
    /// The byte for the kind of node.
    pub kind: u8,
    /// Whether the node is marked as the root.
    pub root: bool,
    /// The parent's page number; without meaning in the root.
    pub parent: u32,
    /// The number of cells.
    pub count: u32,
    /// In a leaf the next leaf, 0 for none; in an internal node the
    /// rightmost child.
    pub link: u32,
}

/// The header that a page holds.
pub open spec fn header(p: Seq<u8>) -> Header {
    Header {
        kind: p[NODE_TYPE_OFFSET as int],
        root: p[IS_ROOT_OFFSET as int] != 0,
        parent: be32(p, PARENT_POINTER_OFFSET as int),
        count: be32(p, LEAF_NODE_NUM_CELLS_OFFSET as int),
        link: be32(p, LEAF_NODE_NEXT_LEAF_OFFSET as int),
    }
}

/// The part of a page behind the header, where the cells are.
pub open spec fn body(p: Seq<u8>) -> Seq<u8> {
    p.subrange(LEAF_NODE_HEADER_SIZE as int, PAGE_SIZE as int)
}

/// The key in cell `i` of a leaf.
pub open spec fn leaf_key(p: Seq<u8>, i: int) -> u32 {
    be32(body(p), i * LEAF_NODE_CELL_SIZE)
}

/// The record in cell `i` of a leaf.
pub open spec fn leaf_value(p: Seq<u8>, i: int) -> Seq<u8> {
    body(p).subrange(i * LEAF_NODE_CELL_SIZE + LEAF_NODE_KEY_SIZE, (i + 1) * LEAF_NODE_CELL_SIZE)
}

/// The child in cell `i` of an internal node.
pub open spec fn internal_child(p: Seq<u8>, i: int) -> u32 {
    be32(body(p), i * INTERNAL_NODE_CELL_SIZE)
}

/// The key in cell `i` of an internal node.
pub open spec fn internal_key(p: Seq<u8>, i: int) -> u32 {
    be32(body(p), i * INTERNAL_NODE_CELL_SIZE + 4)
}

/// Child `i` of an internal node: the child of cell `i`, and for `i` equal to
/// the number of cells the rightmost child.
pub open spec fn child_at(p: Seq<u8>, i: int) -> u32 {
    if i == header(p).count {
        header(p).link
    } else {
        internal_child(p, i)
    }
}

/// The byte offset, within a page, of cell `cell_num` of a leaf.
pub fn get_leaf_node_cell_ptr(cell_num: u32) -> (off: usize)
    requires
        cell_num < LEAF_NODE_MAX_CELLS,
    ensures
        off == LEAF_NODE_HEADER_SIZE + cell_num * LEAF_NODE_CELL_SIZE,
        off + LEAF_NODE_CELL_SIZE <= PAGE_SIZE,
{
    LEAF_NODE_HEADER_SIZE + cell_num as usize * LEAF_NODE_CELL_SIZE
}

/// The byte offset, within a page, of cell `cell_num` of an internal node.
pub fn get_internal_node_cell_ptr(cell_num: u32) -> (off: usize)
    requires
        cell_num < INTERNAL_NODE_SLOTS,
    ensures
        off == INTERNAL_NODE_HEADER_SIZE + cell_num * INTERNAL_NODE_CELL_SIZE,
        off + INTERNAL_NODE_CELL_SIZE <= PAGE_SIZE,
{
    INTERNAL_NODE_HEADER_SIZE + cell_num as usize * INTERNAL_NODE_CELL_SIZE
}

/// Writing an integer into the header changes that field and nothing else.
pub proof fn lemma_put32_header(p: Seq<u8>, off: int, v: u32)
    requires
        p.len() == PAGE_SIZE,
        off == PARENT_POINTER_OFFSET || off == LEAF_NODE_NUM_CELLS_OFFSET || off
            == LEAF_NODE_NEXT_LEAF_OFFSET,
    ensures
        put32(p, off, v).len() == PAGE_SIZE,
        body(put32(p, off, v)) == body(p),
        header(put32(p, off, v)) == (Header {
            parent: if off == PARENT_POINTER_OFFSET {
                v
            } else {
                header(p).parent
            },
            count: if off == LEAF_NODE_NUM_CELLS_OFFSET {
                v
            } else {
                header(p).count
            },
            link: if off == LEAF_NODE_NEXT_LEAF_OFFSET {
                v
            } else {
                header(p).link
            },
            ..header(p)
        }),
{
    let q = put32(p, off, v);
    lemma_be32_put32_same(p, off, v);
    if off != PARENT_POINTER_OFFSET {
        lemma_be32_put32_other(p, off, v, PARENT_POINTER_OFFSET as int);
    }
    if off != LEAF_NODE_NUM_CELLS_OFFSET {
        lemma_be32_put32_other(p, off, v, LEAF_NODE_NUM_CELLS_OFFSET as int);
    }
    if off != LEAF_NODE_NEXT_LEAF_OFFSET {
        lemma_be32_put32_other(p, off, v, LEAF_NODE_NEXT_LEAF_OFFSET as int);
    }
    assert(body(q) =~= body(p));
}

/// Writing one of the two leading bytes changes that byte and nothing else.
pub proof fn lemma_update_header_byte(p: Seq<u8>, off: int, b: u8)
    requires
        p.len() == PAGE_SIZE,
        off == NODE_TYPE_OFFSET || off == IS_ROOT_OFFSET,
    ensures
        body(p.update(off, b)) == body(p),
        header(p.update(off, b)) == (Header {
            kind: if off == NODE_TYPE_OFFSET {
                b
            } else {
                header(p).kind
            },
            root: if off == IS_ROOT_OFFSET {
                b != 0
            } else {
                header(p).root
            },
            ..header(p)
        }),
{
    reveal(be32);
    assert(body(p.update(off, b)) =~= body(p));
}

/// Writing an integer behind the header leaves the header alone and writes
/// the integer into the body.
pub proof fn lemma_put32_body(p: Seq<u8>, off: int, v: u32)
    requires
        p.len() == PAGE_SIZE,
        LEAF_NODE_HEADER_SIZE <= off,
        off + 4 <= PAGE_SIZE,
    ensures
        put32(p, off, v).len() == PAGE_SIZE,
        header(put32(p, off, v)) == header(p),
        body(put32(p, off, v)) == put32(body(p), off - LEAF_NODE_HEADER_SIZE, v),
{
    lemma_be32_put32_other(p, off, v, PARENT_POINTER_OFFSET as int);
    lemma_be32_put32_other(p, off, v, LEAF_NODE_NUM_CELLS_OFFSET as int);
    lemma_be32_put32_other(p, off, v, LEAF_NODE_NEXT_LEAF_OFFSET as int);
    assert(body(put32(p, off, v)) =~= put32(body(p), off - LEAF_NODE_HEADER_SIZE, v));
}

/// Writing bytes behind the header leaves the header alone and writes the
/// bytes into the body.
pub proof fn lemma_splice_body(p: Seq<u8>, off: int, src: Seq<u8>)
    requires
        p.len() == PAGE_SIZE,
        LEAF_NODE_HEADER_SIZE <= off,
        off + src.len() <= PAGE_SIZE,
    ensures
        splice(p, off, src).len() == PAGE_SIZE,
        header(splice(p, off, src)) == header(p),
        body(splice(p, off, src)) == splice(body(p), off - LEAF_NODE_HEADER_SIZE, src),
{
    reveal(be32);
    assert(body(splice(p, off, src)) =~= splice(body(p), off - LEAF_NODE_HEADER_SIZE, src));
}

/// What writing the key of leaf cell `i` does to the cells.
pub proof fn lemma_leaf_key_written(p: Seq<u8>, q: Seq<u8>, i: int, key: u32)
    requires
        p.len() == PAGE_SIZE,
        q.len() == PAGE_SIZE,
        0 <= i < LEAF_NODE_MAX_CELLS,
        body(q) == put32(body(p), i * LEAF_NODE_CELL_SIZE, key),
    ensures
        leaf_key(q, i) == key,
        forall|j: int| 0 <= j < LEAF_NODE_MAX_CELLS && j != i ==> leaf_key(q, j) == leaf_key(p, j),
        forall|j: int| 0 <= j < LEAF_NODE_MAX_CELLS ==> leaf_value(q, j) == leaf_value(p, j),
{
    let b = body(p);
    lemma_be32_put32_same(b, i * LEAF_NODE_CELL_SIZE, key);
    assert forall|j: int| 0 <= j < LEAF_NODE_MAX_CELLS && j != i implies leaf_key(q, j)
        == leaf_key(p, j) by {
        lemma_be32_put32_other(b, i * LEAF_NODE_CELL_SIZE, key, j * LEAF_NODE_CELL_SIZE);
    }
    assert forall|j: int| 0 <= j < LEAF_NODE_MAX_CELLS implies leaf_value(q, j) == leaf_value(
        p,
        j,
    ) by {
        assert(leaf_value(q, j) =~= leaf_value(p, j));
    }
}

/// What writing the record of leaf cell `i` does to the cells.
pub proof fn lemma_leaf_value_written(p: Seq<u8>, q: Seq<u8>, i: int, value: Seq<u8>)
    requires
        p.len() == PAGE_SIZE,
        q.len() == PAGE_SIZE,
        0 <= i < LEAF_NODE_MAX_CELLS,
        value.len() == ROW_SIZE,
        body(q) == splice(body(p), i * LEAF_NODE_CELL_SIZE + LEAF_NODE_KEY_SIZE, value),
    ensures
        leaf_value(q, i) == value,
        forall|j: int| 0 <= j < LEAF_NODE_MAX_CELLS ==> leaf_key(q, j) == leaf_key(p, j),
        forall|j: int|
            0 <= j < LEAF_NODE_MAX_CELLS && j != i ==> leaf_value(q, j) == leaf_value(p, j),
{
    reveal(be32);
    assert(leaf_value(q, i) =~= value);
    assert forall|j: int| 0 <= j < LEAF_NODE_MAX_CELLS && j != i implies leaf_value(q, j)
        == leaf_value(p, j) by {
        assert(leaf_value(q, j) =~= leaf_value(p, j));
    }
}

/// What writing one half of internal cell `i` does to the cells: `d` is 0
/// for the child and 4 for the key.
pub proof fn lemma_internal_written(p: Seq<u8>, q: Seq<u8>, i: int, d: int, v: u32)
    requires
        p.len() == PAGE_SIZE,
        q.len() == PAGE_SIZE,
        0 <= i < INTERNAL_NODE_SLOTS,
        d == 0 || d == 4,
        body(q) == put32(body(p), i * INTERNAL_NODE_CELL_SIZE + d, v),
    ensures
        d == 0 ==> internal_child(q, i) == v && internal_key(q, i) == internal_key(p, i),
        d == 4 ==> internal_key(q, i) == v && internal_child(q, i) == internal_child(p, i),
        forall|j: int|
            0 <= j < INTERNAL_NODE_SLOTS && j != i ==> internal_child(q, j) == internal_child(p, j)
                && internal_key(q, j) == internal_key(p, j),
{
    let b = body(p);
    let off = i * INTERNAL_NODE_CELL_SIZE + d;
    lemma_be32_put32_same(b, off, v);
    lemma_be32_put32_other(b, off, v, i * INTERNAL_NODE_CELL_SIZE + (4 - d));
    assert forall|j: int| 0 <= j < INTERNAL_NODE_SLOTS && j != i implies internal_child(q, j)
        == internal_child(p, j) && internal_key(q, j) == internal_key(p, j) by {
        lemma_be32_put32_other(b, off, v, j * INTERNAL_NODE_CELL_SIZE);
        lemma_be32_put32_other(b, off, v, j * INTERNAL_NODE_CELL_SIZE + 4);
    }
}


/// Every leaf cell but cell `i` is the same in both pages.
pub open spec fn leaf_cells_same_except(p: Seq<u8>, q: Seq<u8>, i: int) -> bool {
    forall|j: int|
        0 <= j < LEAF_NODE_MAX_CELLS && j != i ==> #[trigger] leaf_key(q, j) == leaf_key(p, j)
            && leaf_value(q, j) == leaf_value(p, j)
}

/// Every internal cell but cell `i` is the same in both pages.
pub open spec fn internal_cells_same_except(p: Seq<u8>, q: Seq<u8>, i: int) -> bool {
    forall|j: int|
        0 <= j < INTERNAL_NODE_SLOTS && j != i ==> #[trigger] internal_child(q, j)
            == internal_child(p, j) && internal_key(q, j) == internal_key(p, j)
}

/// Marker type that carries the operations on nodes.
pub struct Node;

impl Node {
    pub fn get_leaf_node_num_cells(page: &Page) -> (n: u32)
        requires
            page.wf(),
        ensures
            n == header(page@).count,
    {
        page.read_u32(LEAF_NODE_NUM_CELLS_OFFSET)
    }

    pub fn get_leaf_node_next_leaf(page: &Page) -> (n: u32)
        requires
            page.wf(),
        ensures
            n == header(page@).link,
    {
        page.read_u32(LEAF_NODE_NEXT_LEAF_OFFSET)
    }

    /// The byte offset, within a page, of the record in cell `cell_num`.
    pub fn get_leaf_node_value_ptr(cell_num: u32) -> (off: usize)
        requires
            cell_num < LEAF_NODE_MAX_CELLS,
        ensures
            off == LEAF_NODE_HEADER_SIZE + cell_num * LEAF_NODE_CELL_SIZE + LEAF_NODE_KEY_SIZE,
            off + LEAF_NODE_VALUE_SIZE <= PAGE_SIZE,
    {
        get_leaf_node_cell_ptr(cell_num) + LEAF_NODE_KEY_SIZE
    }

    /// Makes the page an empty leaf that is not the root and has no leaf to
    /// its right. The parent's page number and the cells stay as they were.
    pub fn initialize_leaf_node(page: &mut Page)
        requires
            old(page).wf(),
        ensures
            final(page).wf(),
            header(final(page)@) == (Header {
                kind: KIND_LEAF,
                root: false,
                count: 0,
                link: 0,
                ..header(old(page)@)
            }),
            body(final(page)@) == body(old(page)@),
    {
        Node::set_node_type(page, NodeType::LEAF);
        Node::set_node_root(page, false);
        set_leaf_node_num_cells(page, 0);
        set_leaf_node_next_leaf(page, 0);
    }

    /// Makes the page an empty internal node that is not the root and has no
    /// rightmost child yet. The parent's page number and the cells stay as
    /// they were.
    pub fn initialize_internal_node(page: &mut Page)
        requires
            old(page).wf(),
        ensures
            final(page).wf(),
            header(final(page)@) == (Header {
                kind: KIND_INTERNAL,
                root: false,
                count: 0,
                link: INVALID_PAGE_NUM,
                ..header(old(page)@)
            }),
            body(final(page)@) == body(old(page)@),
    {
        Node::set_node_type(page, NodeType::INTERNAL);
        Node::set_node_root(page, false);
        set_internal_node_num_cells(page, 0);
        set_internal_node_right_child(page, INVALID_PAGE_NUM);
    }

    /// The kind of node in the page. The page must hold one of the two bytes
    /// that stand for a kind.
    pub fn get_node_type(page: &Page) -> (t: NodeType)
        requires
            page.wf(),
            header(page@).kind == KIND_INTERNAL || header(page@).kind == KIND_LEAF,
        ensures
            t.spec_to_value() == header(page@).kind,
    {
        let value = page.read_u8(NODE_TYPE_OFFSET);
        match NodeType::from_value(value) {
            Some(t) => t,
            None => vstd::pervasive::unreached(),
        }
    }

    pub fn set_node_type(page: &mut Page, node_type: NodeType)
        requires
            old(page).wf(),
        ensures
            final(page).wf(),
            header(final(page)@) == (Header {
                kind: node_type.spec_to_value(),
                ..header(old(page)@)
            }),
            body(final(page)@) == body(old(page)@),
    {
        let b = node_type.to_value();
        proof {
            lemma_update_header_byte(page@, NODE_TYPE_OFFSET as int, b);
        }
        page.write_u8(NODE_TYPE_OFFSET, b);
    }

    pub fn set_node_root(page: &mut Page, is_root: bool)
        requires
            old(page).wf(),
        ensures
            final(page).wf(),
            header(final(page)@) == (Header { root: is_root, ..header(old(page)@) }),
            body(final(page)@) == body(old(page)@),
    {
        let b: u8 = if is_root {
            1
        } else {
            0
        };
        proof {
            lemma_update_header_byte(page@, IS_ROOT_OFFSET as int, b);
        }
        page.write_u8(IS_ROOT_OFFSET, b);
    }

    pub fn set_parent_node(page: &mut Page, parent_page_num: u32)
        requires
            old(page).wf(),
        ensures
            final(page).wf(),
            header(final(page)@) == (Header { parent: parent_page_num, ..header(old(page)@) }),
            body(final(page)@) == body(old(page)@),
    {
        proof {
            lemma_put32_header(page@, PARENT_POINTER_OFFSET as int, parent_page_num);
        }
        page.write_u32(PARENT_POINTER_OFFSET, parent_page_num);
    }

    pub fn get_parent_node(page: &Page) -> (n: u32)
        requires
            page.wf(),
        ensures
            n == header(page@).parent,
    {
        page.read_u32(PARENT_POINTER_OFFSET)
    }
}

pub fn set_leaf_node_num_cells(page: &mut Page, num_cells: u32)
    requires
        old(page).wf(),
    ensures
        final(page).wf(),
        header(final(page)@) == (Header { count: num_cells, ..header(old(page)@) }),
        body(final(page)@) == body(old(page)@),
{
    proof {
        lemma_put32_header(page@, LEAF_NODE_NUM_CELLS_OFFSET as int, num_cells);
    }
    page.write_u32(LEAF_NODE_NUM_CELLS_OFFSET, num_cells);
}

pub fn set_leaf_node_next_leaf(page: &mut Page, next_leaf_no: u32)
    requires
        old(page).wf(),
    ensures
        final(page).wf(),
        header(final(page)@) == (Header { link: next_leaf_no, ..header(old(page)@) }),
        body(final(page)@) == body(old(page)@),
{
    proof {
        lemma_put32_header(page@, LEAF_NODE_NEXT_LEAF_OFFSET as int, next_leaf_no);
    }
    page.write_u32(LEAF_NODE_NEXT_LEAF_OFFSET, next_leaf_no);
}

pub fn get_leaf_node_num_cells(page: &Page) -> (n: u32)
    requires
        page.wf(),
    ensures
        n == header(page@).count,
{
    page.read_u32(LEAF_NODE_NUM_CELLS_OFFSET)
}

pub fn set_leaf_node_key(page: &mut Page, cell_num: u32, key: u32)
    requires
        old(page).wf(),
        cell_num < LEAF_NODE_MAX_CELLS,
    ensures
        final(page).wf(),
        header(final(page)@) == header(old(page)@),
        leaf_key(final(page)@, cell_num as int) == key,
        leaf_value(final(page)@, cell_num as int) == leaf_value(old(page)@, cell_num as int),
        leaf_cells_same_except(old(page)@, final(page)@, cell_num as int),
{
    let off = get_leaf_node_cell_ptr(cell_num);
    proof {
        lemma_put32_body(page@, off as int, key);
        lemma_leaf_key_written(page@, put32(page@, off as int, key), cell_num as int, key);
    }
    page.write_u32(off, key);
}

pub fn get_leaf_node_key(page: &Page, cell_num: u32) -> (key: u32)
    requires
        page.wf(),
        cell_num < LEAF_NODE_MAX_CELLS,
    ensures
        key == leaf_key(page@, cell_num as int),
{
    let off = get_leaf_node_cell_ptr(cell_num);
    proof {
        let b = body(page@);
        let o = cell_num as int * LEAF_NODE_CELL_SIZE as int;
        crate::codec::lemma_be32_same_bytes(b, o, page@, off as int);
    }
    page.read_u32(off)
}

/// A copy of the record in cell `cell_num` of a leaf.
pub fn get_leaf_node_value(page: &Page, cell_num: u32) -> (value: Vec<u8>)
    requires
        page.wf(),
        cell_num < LEAF_NODE_MAX_CELLS,
    ensures
        value@ == leaf_value(page@, cell_num as int),
        value@.len() == ROW_SIZE,
{
    let off = Node::get_leaf_node_value_ptr(cell_num);
    let value = page.read_bytes(off, LEAF_NODE_VALUE_SIZE);
    assert(value@ =~= leaf_value(page@, cell_num as int));
    value
}

/// Writes a record into cell `cell_num` of a leaf.
pub fn set_leaf_node_value(page: &mut Page, cell_num: u32, value: &Vec<u8>)
    requires
        old(page).wf(),
        cell_num < LEAF_NODE_MAX_CELLS,
        value@.len() == ROW_SIZE,
    ensures
        final(page).wf(),
        header(final(page)@) == header(old(page)@),
        leaf_key(final(page)@, cell_num as int) == leaf_key(old(page)@, cell_num as int),
        leaf_value(final(page)@, cell_num as int) == value@,
        leaf_cells_same_except(old(page)@, final(page)@, cell_num as int),
{
    let off = Node::get_leaf_node_value_ptr(cell_num);
    proof {
        lemma_splice_body(page@, off as int, value@);
        lemma_leaf_value_written(
            page@,
            splice(page@, off as int, value@),
            cell_num as int,
            value@,
        );
    }
    page.write_bytes(off, value);
}

pub fn is_node_root(page: &Page) -> (b: bool)
    requires
        page.wf(),
    ensures
        b == header(page@).root,
{
    page.read_u8(IS_ROOT_OFFSET) != 0
}

pub fn set_internal_node_num_cells(page: &mut Page, num_cells: u32)
    requires
        old(page).wf(),
    ensures
        final(page).wf(),
        header(final(page)@) == (Header { count: num_cells, ..header(old(page)@) }),
        body(final(page)@) == body(old(page)@),
{
    proof {
        lemma_put32_header(page@, INTERNAL_NODE_NUM_KEYS_OFFSET as int, num_cells);
    }
    page.write_u32(INTERNAL_NODE_NUM_KEYS_OFFSET, num_cells);
}

pub fn get_internal_node_num_cells(page: &Page) -> (n: u32)
    requires
        page.wf(),
    ensures
        n == header(page@).count,
{
    page.read_u32(INTERNAL_NODE_NUM_KEYS_OFFSET)
}

pub fn get_internal_node_key(page: &Page, cell_num: u32) -> (key: u32)
    requires
        page.wf(),
        cell_num < INTERNAL_NODE_SLOTS,
    ensures
        key == internal_key(page@, cell_num as int),
{
    let off = get_internal_node_cell_ptr(cell_num) + 4;
    proof {
        let b = body(page@);
        let o = cell_num as int * INTERNAL_NODE_CELL_SIZE as int + 4;
        crate::codec::lemma_be32_same_bytes(b, o, page@, off as int);
    }
    page.read_u32(off)
}

/// Child `cell_num` of an internal node: the child of that cell, and for
/// `cell_num` equal to the number of cells the rightmost child. There must be
/// such a child.
pub fn get_internal_node_child_page_num(page: &Page, cell_num: u32) -> (child: u32)
    requires
        page.wf(),
        header(page@).count <= INTERNAL_NODE_SLOTS,
        cell_num <= header(page@).count,
        child_at(page@, cell_num as int) != INVALID_PAGE_NUM,
    ensures
        child == child_at(page@, cell_num as int),
{
    let num_cells = get_internal_node_num_cells(page);
    if cell_num == num_cells {
        get_internal_node_right_child(page)
    } else {
        let off = get_internal_node_cell_ptr(cell_num);
        proof {
            let b = body(page@);
            let o = cell_num as int * INTERNAL_NODE_CELL_SIZE as int;
            crate::codec::lemma_be32_same_bytes(b, o, page@, off as int);
        }
        page.read_u32(off)
    }
}

pub fn set_internal_node_right_child(page: &mut Page, page_num: u32)
    requires
        old(page).wf(),
    ensures
        final(page).wf(),
        header(final(page)@) == (Header { link: page_num, ..header(old(page)@) }),
        body(final(page)@) == body(old(page)@),
{
    proof {
        lemma_put32_header(page@, INTERNAL_NODE_RIGHT_CHILD_OFFSET as int, page_num);
    }
    page.write_u32(INTERNAL_NODE_RIGHT_CHILD_OFFSET, page_num);
}

pub fn get_internal_node_right_child(page: &Page) -> (n: u32)
    requires
        page.wf(),
    ensures
        n == header(page@).link,
{
    page.read_u32(INTERNAL_NODE_RIGHT_CHILD_OFFSET)
}

pub fn set_internal_node_cell(page: &mut Page, cell_num: u32, child_page_num: u32, key: u32)
    requires
        old(page).wf(),
        cell_num < INTERNAL_NODE_SLOTS,
    ensures
        final(page).wf(),
        header(final(page)@) == header(old(page)@),
        internal_child(final(page)@, cell_num as int) == child_page_num,
        internal_key(final(page)@, cell_num as int) == key,
        internal_cells_same_except(old(page)@, final(page)@, cell_num as int),
{
    let off = get_internal_node_cell_ptr(cell_num);
    let ghost pg0 = page@;
    proof {
        lemma_put32_body(pg0, off as int, child_page_num);
        lemma_internal_written(pg0, put32(pg0, off as int, child_page_num), cell_num as int, 0, child_page_num);
    }
    page.write_u32(off, child_page_num);
    let ghost pg1 = page@;
    proof {
        lemma_put32_body(pg1, off + 4, key);
        lemma_internal_written(pg1, put32(pg1, off + 4, key), cell_num as int, 4, key);
    }
    page.write_u32(off + 4, key);
}


/// The key at place `i` among the cells of a leaf once a cell with `key` has
/// entered at place `idx`.
pub open spec fn merged_key(p: Seq<u8>, idx: int, key: u32, i: int) -> u32 {
    if i < idx {
        leaf_key(p, i)
    } else if i == idx {
        key
    } else {
        leaf_key(p, i - 1)
    }
}

/// The record at place `i` among the cells of a leaf once a cell with
/// `value` has entered at place `idx`.
pub open spec fn merged_value(p: Seq<u8>, idx: int, value: Seq<u8>, i: int) -> Seq<u8> {
    if i < idx {
        leaf_value(p, i)
    } else if i == idx {
        value
    } else {
        leaf_value(p, i - 1)
    }
}

/// Page `q` is page `p` with a cell entered at place `idx`: the cells from
/// there on have moved one place to the right.
pub open spec fn leaf_cell_inserted(p: Seq<u8>, q: Seq<u8>, idx: int, key: u32, value: Seq<u8>) -> bool {
    &&& header(q) == (Header { count: (header(p).count + 1) as u32, ..header(p) })
    &&& forall|i: int|
        0 <= i <= header(p).count ==> #[trigger] leaf_key(q, i) == merged_key(p, idx, key, i)
    &&& forall|i: int|
        0 <= i <= header(p).count ==> #[trigger] leaf_value(q, i) == merged_value(p, idx, value, i)
}

/// Enters a cell at place `cell_num` of a leaf that has room: the cells from
/// there on move one place to the right, last cell first.
pub fn insert_leaf_cell(page: &mut Page, cell_num: u32, key: u32, value: &Vec<u8>)
    requires
        old(page).wf(),
        header(old(page)@).count < LEAF_NODE_MAX_CELLS,
        cell_num <= header(old(page)@).count,
        value@.len() == ROW_SIZE,
    ensures
        final(page).wf(),
        leaf_cell_inserted(old(page)@, final(page)@, cell_num as int, key, value@),
{
    let num_cells = get_leaf_node_num_cells(page);
    let ghost pg0 = page@;
    let mut i: u32 = num_cells;
    while i > cell_num
        invariant
            page.wf(),
            pg0.len() == PAGE_SIZE,
            num_cells == header(pg0).count,
            num_cells < LEAF_NODE_MAX_CELLS,
            cell_num <= i <= num_cells,
            header(page@) == header(pg0),
            forall|j: int|
                0 <= j <= i && j < LEAF_NODE_MAX_CELLS ==> #[trigger] leaf_key(page@, j) == leaf_key(
                    pg0,
                    j,
                ) && leaf_value(page@, j) == leaf_value(pg0, j),
            forall|j: int|
                i < j <= num_cells ==> #[trigger] leaf_key(page@, j) == leaf_key(pg0, j - 1)
                    && leaf_value(page@, j) == leaf_value(pg0, j - 1),
        decreases i,
    {
        let k = get_leaf_node_key(page, i - 1);
        let v = get_leaf_node_value(page, i - 1);
        let ghost pg1 = page@;
        set_leaf_node_key(page, i, k);
        let ghost pg2 = page@;
        set_leaf_node_value(page, i, &v);
        let ghost pg3 = page@;
        proof {
            assert forall|j: int| 0 <= j <= i - 1 && j < LEAF_NODE_MAX_CELLS implies #[trigger] leaf_key(
                pg3,
                j,
            ) == leaf_key(pg0, j) && leaf_value(pg3, j) == leaf_value(pg0, j) by {
                assert(leaf_key(pg2, j) == leaf_key(pg1, j));
                assert(leaf_key(pg3, j) == leaf_key(pg2, j));
            }
            assert forall|j: int| i - 1 < j <= num_cells implies #[trigger] leaf_key(pg3, j)
                == leaf_key(pg0, j - 1) && leaf_value(pg3, j) == leaf_value(pg0, j - 1) by {
                if j != i {
                    assert(leaf_key(pg2, j) == leaf_key(pg1, j));
                    assert(leaf_key(pg3, j) == leaf_key(pg2, j));
                    assert(leaf_key(pg1, j) == leaf_key(pg0, j - 1));
                } else {
                    assert(leaf_key(pg1, i - 1) == leaf_key(pg0, i - 1));
                    assert(leaf_value(pg1, i - 1) == leaf_value(pg0, i - 1));
                    assert(leaf_key(pg3, i as int) == k);
                    assert(leaf_value(pg3, i as int) == v@);
                }
            }
        }
        assert(forall|j: int| i - 1 < j <= num_cells ==> #[trigger] leaf_key(page@, j) == leaf_key(pg0, j - 1) && leaf_value(page@, j) == leaf_value(pg0, j - 1));
        i -= 1;
    }
    let ghost pg1 = page@;
    set_leaf_node_key(page, cell_num, key);
    let ghost pg2 = page@;
    set_leaf_node_value(page, cell_num, value);
    let ghost pg3 = page@;
    set_leaf_node_num_cells(page, num_cells + 1);
    proof {
        let q = page@;
        assert forall|j: int| 0 <= j <= header(pg0).count implies #[trigger] leaf_key(q, j)
            == merged_key(pg0, cell_num as int, key, j) by {
            if j != cell_num {
                assert(leaf_key(pg2, j) == leaf_key(pg1, j));
                assert(leaf_key(pg3, j) == leaf_key(pg2, j));
            }
        }
        assert forall|j: int| 0 <= j <= header(pg0).count implies #[trigger] leaf_value(q, j)
            == merged_value(pg0, cell_num as int, value@, j) by {
            if j != cell_num {
                assert(leaf_key(pg2, j) == leaf_key(pg1, j));
                assert(leaf_key(pg3, j) == leaf_key(pg2, j));
            }
        }
    }
}

/// The cell at place `i` of an internal node once a cell has entered at
/// place `idx`.
pub open spec fn merged_cell(p: Seq<u8>, idx: int, child: u32, key: u32, i: int) -> (u32, u32) {
    if i < idx {
        (internal_child(p, i), internal_key(p, i))
    } else if i == idx {
        (child, key)
    } else {
        (internal_child(p, i - 1), internal_key(p, i - 1))
    }
}

/// Page `q` is page `p` with a cell entered at place `idx`: the cells from
/// there on have moved one place to the right.
pub open spec fn internal_cell_inserted(p: Seq<u8>, q: Seq<u8>, idx: int, child: u32, key: u32) -> bool {
    &&& header(q) == (Header { count: (header(p).count + 1) as u32, ..header(p) })
    &&& forall|i: int|
        0 <= i <= header(p).count ==> (#[trigger] internal_child(q, i), internal_key(q, i))
            == merged_cell(p, idx, child, key, i)
}

/// Enters a cell at place `cell_num` of an internal node that has room: the
/// cells from there on move one place to the right, last cell first.
pub fn insert_internal_cell(page: &mut Page, cell_num: u32, child: u32, key: u32)
    requires
        old(page).wf(),
        header(old(page)@).count < INTERNAL_NODE_SLOTS,
        cell_num <= header(old(page)@).count,
    ensures
        final(page).wf(),
        internal_cell_inserted(old(page)@, final(page)@, cell_num as int, child, key),
{
    let num_cells = get_internal_node_num_cells(page);
    let ghost pg0 = page@;
    let mut i: u32 = num_cells;
    while i > cell_num
        invariant
            page.wf(),
            pg0.len() == PAGE_SIZE,
            num_cells == header(pg0).count,
            num_cells < INTERNAL_NODE_SLOTS,
            cell_num <= i <= num_cells,
            header(page@) == header(pg0),
            forall|j: int|
                0 <= j <= i && j < INTERNAL_NODE_SLOTS ==> #[trigger] internal_child(page@, j)
                    == internal_child(pg0, j) && internal_key(page@, j) == internal_key(pg0, j),
            forall|j: int|
                i < j <= num_cells ==> #[trigger] internal_child(page@, j) == internal_child(
                    pg0,
                    j - 1,
                ) && internal_key(page@, j) == internal_key(pg0, j - 1),
        decreases i,
    {
        let k = get_internal_node_key(page, i - 1);
        let ghost pg1 = page@;
        proof {
            assert(internal_child(pg1, i - 1) == internal_child(pg0, i - 1));
        }
        let c = read_internal_child(page, i - 1);
        set_internal_node_cell(page, i, c, k);
        let ghost pg2 = page@;
        proof {
            assert forall|j: int| 0 <= j <= i - 1 && j < INTERNAL_NODE_SLOTS implies #[trigger] internal_child(
                pg2,
                j,
            ) == internal_child(pg0, j) && internal_key(pg2, j) == internal_key(pg0, j) by {
                assert(internal_child(pg2, j) == internal_child(pg1, j));
            }
            assert forall|j: int| i - 1 < j <= num_cells implies #[trigger] internal_child(pg2, j)
                == internal_child(pg0, j - 1) && internal_key(pg2, j) == internal_key(pg0, j - 1) by {
                if j != i {
                    assert(internal_child(pg2, j) == internal_child(pg1, j));
                }
            }
        }
        i -= 1;
    }
    let ghost pg1 = page@;
    set_internal_node_cell(page, cell_num, child, key);
    let ghost pg2 = page@;
    set_internal_node_num_cells(page, num_cells + 1);
    proof {
        let q = page@;
        assert forall|j: int| 0 <= j <= header(pg0).count implies (
            #[trigger] internal_child(q, j),
            internal_key(q, j),
        ) == merged_cell(pg0, cell_num as int, child, key, j) by {
            if j != cell_num {
                assert(internal_child(pg2, j) == internal_child(pg1, j));
            }
        }
    }
}

/// The page number in the child field of cell `cell_num`, whatever it is.
pub fn read_internal_child(page: &Page, cell_num: u32) -> (child: u32)
    requires
        page.wf(),
        cell_num < INTERNAL_NODE_SLOTS,
    ensures
        child == internal_child(page@, cell_num as int),
{
    let off = get_internal_node_cell_ptr(cell_num);
    proof {
        let b = body(page@);
        let o = cell_num as int * INTERNAL_NODE_CELL_SIZE as int;
        crate::codec::lemma_be32_same_bytes(b, o, page@, off as int);
    }
    page.read_u32(off)
}


/// Writes the key and the record of cell `cell_num` of a leaf.
pub fn set_leaf_node_cell(page: &mut Page, cell_num: u32, key: u32, value: &Vec<u8>)
    requires
        old(page).wf(),
        cell_num < LEAF_NODE_MAX_CELLS,
        value@.len() == ROW_SIZE,
    ensures
        final(page).wf(),
        header(final(page)@) == header(old(page)@),
        leaf_key(final(page)@, cell_num as int) == key,
        leaf_value(final(page)@, cell_num as int) == value@,
        leaf_cells_same_except(old(page)@, final(page)@, cell_num as int),
{
    let ghost pg0 = page@;
    set_leaf_node_key(page, cell_num, key);
    let ghost pg1 = page@;
    set_leaf_node_value(page, cell_num, value);
    let ghost pg2 = page@;
    proof {
        assert forall|j: int| 0 <= j < LEAF_NODE_MAX_CELLS && j != cell_num implies #[trigger] leaf_key(
            pg2,
            j,
        ) == leaf_key(pg0, j) && leaf_value(pg2, j) == leaf_value(pg0, j) by {
            assert(leaf_key(pg1, j) == leaf_key(pg0, j));
            assert(leaf_key(pg2, j) == leaf_key(pg1, j));
        }
    }
}

} // verus!
