//! A position in the table: a cell of a leaf, or the end.

use crate::node::{
    get_leaf_node_value, header, leaf_key, leaf_value, Node, NodeType, LEAF_NODE_MAX_CELLS,
};
use crate::table::Table;
use crate::tree::{leaf_lower_bound, lemma_key_at_its_place, node_ok, root_page, tree_ok};
use crate::row::ROW_SIZE;
use vstd::prelude::*;

verus! {

/// A position in a table. It is made for one operation and does not outlive
/// a change of the table.
#[derive(Clone, Copy, Debug, PartialEq, Eq, Structural)]
pub struct Cursor {
    pub page_num: u32,
    pub cell_num: u32,
    pub end_of_table: bool,
}

impl Cursor {
    /// The cursor stands where `key` belongs: in the leaf whose interval the
    /// key falls in, on the first cell whose key is not smaller.
    pub open spec fn positioned(self, t: &Table, key: u32) -> bool {
        let w = t.shape@;
        let p = t.pager@[self.page_num as int];
        &&& w.live.contains(self.page_num)
        &&& w.level[self.page_num] == 0
        &&& w.lo[self.page_num] < key <= w.hi[self.page_num]
        &&& leaf_lower_bound(p, key, self.cell_num as int)
        &&& !self.end_of_table
    }

    /// The cursor stands on the cell that holds `key`.
    pub open spec fn on_key(self, t: &Table, key: u32) -> bool {
        let p = t.pager@[self.page_num as int];
        self.cell_num < header(p).count && leaf_key(p, self.cell_num as int) == key
    }

    /// A cursor that stands where a key belongs stands on the key if and
    /// only if the table holds it, and then on its row.
    pub proof fn lemma_positioned(self, t: &Table, key: u32)
        requires
            t.wf(),
            self.positioned(t, key),
        ensures
            t@.contains_key(key) <==> self.on_key(t, key),
            t@.contains_key(key) ==> t@[key] == leaf_value(
                t.pager@[self.page_num as int],
                self.cell_num as int,
            ),
    {
        lemma_key_at_its_place(
            t.pager@,
            t.pager.num_pages,
            t.limits,
            t.shape@,
            key,
            self.page_num,
            self.cell_num as int,
        );
    }

    /// The position of the smallest key.
    pub fn table_start(table: &mut Table) -> (c: Cursor)
        requires
            old(table).wf(),
        ensures
            final(table).wf(),
            final(table).same_state(old(table)),
            c.positioned(final(table), 0),
    {
        Cursor::find_key(table, 0)
    }

    /// The position of `key`, or, where the table does not hold it, the
    /// position at which it has to be inserted.
    pub fn find_key(table: &mut Table, key: u32) -> (c: Cursor)
        requires
            old(table).wf(),
        ensures
            final(table).wf(),
            final(table).same_state(old(table)),
            c.positioned(final(table), key),
    {
        let root_page_num = table.root_page_num;
        proof {
            reveal(tree_ok);
            assert(node_ok(
                table.pager@,
                table.pager.num_pages,
                table.limits,
                table.shape@,
                root_page(),
            ));
        }
        let root_node = table.pager.page(root_page_num);
        let node_type = Node::get_node_type(root_node);
        match node_type {
            NodeType::LEAF => Node::find_key_in_leaf_node(table, root_page_num, key),
            NodeType::INTERNAL => Node::find_key_in_internal_node(table, root_page_num, key),
        }
    }

    /// A copy of the record in the cell that the cursor stands on.
    pub fn cursor_value(&self, table: &mut Table) -> (value: Vec<u8>)
        requires
            old(table).pager.wf(),
            self.page_num < old(table).pager.num_pages,
            self.page_num < crate::pager::TABLE_MAX_PAGES,
            self.cell_num < LEAF_NODE_MAX_CELLS,
        ensures
            final(table).pager.wf(),
            final(table).same_state(old(table)),
            value@ == leaf_value(old(table).pager@[self.page_num as int], self.cell_num as int),
            value@.len() == ROW_SIZE,
    {
        let page = table.pager.page(self.page_num);
        get_leaf_node_value(page, self.cell_num)
    }

    /// Moves to the next cell. Behind the last cell of a leaf the cursor
    /// moves to the first cell of the leaf to the right, and where there is
    /// none it has reached the end.
    pub fn advance_cursor(&mut self, table: &mut Table)
        requires
            old(table).pager.wf(),
            old(self).page_num < old(table).pager.num_pages,
            old(self).page_num < crate::pager::TABLE_MAX_PAGES,
            old(self).cell_num < u32::MAX,
        ensures
            final(table).pager.wf(),
            final(table).same_state(old(table)),
            *final(self) == old(self).advanced(old(table)),
    {
        let node = table.pager.page(self.page_num);
        let num_cells = Node::get_leaf_node_num_cells(node);
        self.cell_num += 1;
        if self.cell_num >= num_cells {
            let sibling_page_num = Node::get_leaf_node_next_leaf(node);
            let is_last_leaf = sibling_page_num == 0;
            if is_last_leaf {
                self.end_of_table = true;
            } else {
                self.page_num = sibling_page_num;
                self.cell_num = 0;
            }
        }
    }

    /// The cursor one step further.
    pub open spec fn advanced(self, t: &Table) -> Cursor {
        let p = t.pager@[self.page_num as int];
        if self.cell_num + 1 < header(p).count {
            Cursor { cell_num: (self.cell_num + 1) as u32, ..self }
        } else if header(p).link == 0 {
            Cursor { cell_num: (self.cell_num + 1) as u32, end_of_table: true, ..self }
        } else {
            Cursor { page_num: header(p).link, cell_num: 0, ..self }
        }
    }
}

} // verus!
