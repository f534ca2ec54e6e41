//! The table: the page store, the page of the root, and the count of rows.

use crate::error::DbError;
use crate::node::{
    body, child_at, header, internal_key, Header, Node, INTERNAL_NODE_MAX_CELLS, KIND_INTERNAL,
    KIND_LEAF, LEAF_NODE_HEADER_SIZE, LEAF_NODE_MAX_CELLS,
};
use crate::tree::{
    below_ok, child_ok, keys_sorted, leaf_sorted, lemma_max_key, lemma_rightmost_holds_key,
    node_core, node_max_key,
};
use crate::pager::{
    file_page, lemma_store_page, zero_bytes, Pager, PAGE_SIZE, TABLE_MAX_PAGES,
};
use crate::tree::{
    contents, key_inf, lemma_contents_unique, lemma_tree_basics, node_ok, root_page, tree_ok, Limits,
    Shape,
};
use crate::row::ROW_SIZE;
use vstd::prelude::*;

verus! {

/// Records that fit in a page, the header of the node not counted.
pub const ROWS_PER_PAGE: u32 = 3;

/// Rows after which an insert is refused, unless the table was opened with
/// another limit.
pub const TABLE_MAX_ROWS: u32 = 300;

/// A table of rows, kept as a B-tree in the pages of a store.
pub struct Table {
    /// Rows counted since the table was opened, on top of what the length of
    /// the file stood for then.
    pub num_rows: u32,
    pub pager: Pager,
    /// The page of the root. It never changes.
    pub root_page_num: u32,
    pub limits: Limits,
    /// The outline of the tree that the pages hold.
    pub shape: Ghost<Shape>,
}

impl View for Table {
    type V = Map<u32, Seq<u8>>;

    /// The rows of the table: each id with the bytes of its record.
    open spec fn view(&self) -> Map<u32, Seq<u8>> {
        contents(self.pager@, self.shape@)
    }
}

impl Table {
    /// The store is well formed and its pages hold a tree.
    pub open spec fn wf(&self) -> bool {
        &&& self.pager.wf()
        &&& self.root_page_num == root_page()
        &&& tree_ok(self.pager@, self.pager.num_pages, self.limits, self.shape@)
    }

    /// Two tables with the same pages, the same tree and the same counts.
    /// They may differ in which pages are in the cache.
    pub open spec fn same_state(&self, other: &Table) -> bool {
        &&& self.pager@ == other.pager@
        &&& self.pager.num_pages == other.pager.num_pages
        &&& self.pager.file == other.pager.file
        &&& self.pager.file_length == other.pager.file_length
        &&& self.num_rows == other.num_rows
        &&& self.root_page_num == other.root_page_num
        &&& self.limits == other.limits
        &&& self.shape@ == other.shape@
    }

    /// The limits of a table that is opened without any: a leaf holds as
    /// many cells as fit in a page.
    pub open spec fn spec_default_limits() -> Limits {
        Limits {
            leaf_max_cells: LEAF_NODE_MAX_CELLS,
            internal_max_cells: INTERNAL_NODE_MAX_CELLS,
            max_rows: TABLE_MAX_ROWS,
        }
    }

    /// The limits of a table that is opened without any.
    pub fn default_limits() -> (lim: Limits)
        ensures
            lim.valid(),
            lim == Self::spec_default_limits(),
    {
        Limits {
            leaf_max_cells: LEAF_NODE_MAX_CELLS,
            internal_max_cells: INTERNAL_NODE_MAX_CELLS,
            max_rows: TABLE_MAX_ROWS,
        }
    }

    /// A table without rows, with the default limits.
    pub fn new_table() -> (t: Table)
        ensures
            Self::opened(Seq::<u8>::empty(), Self::spec_default_limits(), Ok(t)),
    {
        match Table::db_open(Vec::new()) {
            Ok(t) => t,
            Err(_) => vstd::pervasive::unreached(),
        }
    }

    /// Lets the table go, with everything in it.
    pub fn free_table(self) {
    }

    /// The place of row `row_num` where rows stand one behind the other, as
    /// many in a page as fit: the page, and the byte in the page where the
    /// row starts.
    pub fn row_slot(row_num: u32) -> (slot: (u32, usize))
        ensures
            slot.0 == row_num / ROWS_PER_PAGE,
            slot.1 == (row_num % ROWS_PER_PAGE) * ROW_SIZE,
    {
        let page_num = row_num / ROWS_PER_PAGE;
        let row_offset = (row_num % ROWS_PER_PAGE) as usize * ROW_SIZE;
        (page_num, row_offset)
    }

    /// Opens a table over the image of its file, with the default limits.
    pub fn db_open(file: Vec<u8>) -> (r: Result<Table, DbError>)
        requires
            file@.len() <= u32::MAX,
        ensures
            Self::opened(file@, Self::spec_default_limits(), r),
    {
        Table::db_open_with_limits(file, Table::default_limits())
    }

    /// What opening a table over a file image gives. A file that is not a
    /// whole number of pages is refused as malformed. An empty file gives an
    /// empty table, whose root is an empty leaf in page 0 with nothing but
    /// zero behind its header. Any other file gives the table that its pages
    /// hold, and is refused where they hold none. The rows that the table
    /// holds are counted.
    pub open spec fn opened(file: Seq<u8>, limits: Limits, r: Result<Table, DbError>) -> bool {
        match r {
            Ok(t) => {
                &&& file.len() % (PAGE_SIZE as nat) == 0
                &&& t.wf()
                &&& t.limits == limits
                &&& t@.dom().finite()
                &&& t.num_rows == t@.dom().len()
                &&& t.pager.file_length == file.len()
                &&& if file.len() == 0 {
                    &&& t@ == Map::<u32, Seq<u8>>::empty()
                    &&& t.pager.num_pages == 1
                    &&& header(t.pager@[0]) == (Header {
                        kind: KIND_LEAF,
                        root: true,
                        parent: 0,
                        count: 0,
                        link: 0,
                    })
                    &&& body(t.pager@[0]) == zero_bytes((PAGE_SIZE - LEAF_NODE_HEADER_SIZE) as nat)
                } else {
                    &&& t.pager.num_pages == file.len() / (PAGE_SIZE as nat)
                    &&& t.pager@ == file_pages(file)
                }
            },
            Err(e) => if file.len() % (PAGE_SIZE as nat) != 0 {
                e == DbError::MalformedFile
            } else {
                &&& e == DbError::InvariantViolation
                &&& file.len() > 0
                &&& !some_tree(file_pages(file), file_page_count(file), limits)
            },
        }
    }

    /// Opens a table over the image of its file, with limits of the caller's
    /// choice.
    pub fn db_open_with_limits(file: Vec<u8>, limits: Limits) -> (r: Result<Table, DbError>)
        requires
            limits.valid(),
            file@.len() <= u32::MAX,
        ensures
            Self::opened(file@, limits, r),
    {
        let mut pager = match Pager::open(file) {
            Ok(p) => p,
            Err(e) => { return Err(e); },
        };
        let num_rows: u32 = 0;
        if pager.num_pages == 0 {
            assert(pager@[0] =~= zero_bytes(PAGE_SIZE as nat));
            let root = pager.page_mut(0);
            assert(body(root@) =~= zero_bytes((PAGE_SIZE - LEAF_NODE_HEADER_SIZE) as nat));
            Node::initialize_leaf_node(root);
            Node::set_node_root(root, true);
            Node::set_parent_node(root, 0);
            let ghost w = Shape {
                live: set![0u32],
                level: map![0u32 => 0nat],
                lo: map![0u32 => -1int],
                hi: map![0u32 => key_inf()],
            };
            let t = Table { num_rows, pager, root_page_num: 0, limits, shape: Ghost(w) };
            proof {
                reveal(tree_ok);
                t.pager.lemma_view_pages();
                assert(node_ok(t.pager@, t.pager.num_pages, limits, w, 0u32));
                assert(t@ =~= Map::<u32, Seq<u8>>::empty());
            }
            Ok(t)
        } else {
            let ghost w = Shape {
                live: Set::<u32>::empty(),
                level: Map::<u32, nat>::empty(),
                lo: Map::<u32, int>::empty(),
                hi: Map::<u32, int>::empty(),
            };
            let mut t = Table { num_rows, pager, root_page_num: 0, limits, shape: Ghost(w) };
            proof {
                assert forall|n: int| 0 <= n < TABLE_MAX_PAGES implies #[trigger] t.pager@[n]
                    == file_page(file@, n) by {
                    assert(!t.pager.resident(n));
                }
                assert(t.pager@ =~= file_pages(file@));
            }
            match t.validate() {
                Ok(_) => {
                    t.num_rows = t.count_rows();
                    Ok(t)
                },
                Err(e) => Err(e),
            }
        }
    }

    /// Writes every page in use to its place in the file image, as far as
    /// the store hands pages out. What the image holds beyond stays.
    pub fn flush_pages(&mut self)
        requires
            old(self).pager.wf(),
        ensures
            final(self).pager.wf(),
            final(self).pager@ == old(self).pager@,
            final(self).pager.num_pages == old(self).pager.num_pages,
            final(self).pager.file_length == old(self).pager.file_length,
            final(self).num_rows == old(self).num_rows,
            final(self).root_page_num == old(self).root_page_num,
            final(self).limits == old(self).limits,
            final(self).shape@ == old(self).shape@,
            is_image(final(self).pager.file@, old(self).pager@, old(self).pager.num_pages),
            kept_beyond(old(self).pager.file@, final(self).pager.file@),
    {
        let n = if self.pager.num_pages < TABLE_MAX_PAGES {
            self.pager.num_pages
        } else {
            TABLE_MAX_PAGES
        };
        let ghost view0 = self.pager@;
        let ghost first = self.pager.file@;
        let mut i: u32 = 0;
        while i < n
            invariant
                self.pager.wf(),
                self.pager@ == view0,
                self.pager.num_pages == old(self).pager.num_pages,
                n <= self.pager.num_pages,
                n <= TABLE_MAX_PAGES,
                n == self.pager.num_pages || n == TABLE_MAX_PAGES,
                i <= n,
                kept_beyond(first, self.pager.file@),
                self.pager.file_length == old(self).pager.file_length,
                self.num_rows == old(self).num_rows,
                self.root_page_num == old(self).root_page_num,
                self.limits == old(self).limits,
                self.shape@ == old(self).shape@,
                self.pager.file@.len() >= i * PAGE_SIZE,
                forall|m: int| 0 <= m < i ==> #[trigger] file_page(self.pager.file@, m) == view0[m],
            decreases n - i,
        {
            let ghost file0 = self.pager.file@;
            proof {
                self.pager.lemma_view_pages();
            }
            let r = self.pager.flush_page(i as usize);
            proof {
                lemma_store_page(file0, i as int, view0[i as int]);
                assert(self.pager.file@ == crate::pager::store_page(file0, i as int, view0[i as int]));
                lemma_kept_beyond(first, file0, i as int, view0[i as int]);
                assert forall|m: int| 0 <= m < i + 1 implies #[trigger] file_page(
                    self.pager.file@,
                    m,
                ) == view0[m] by {
                    if m < i {
                        assert(file_page(file0, m) == view0[m]);
                    }
                }
            }
            i += 1;
        }
        proof {
            assert forall|m: int| 0 <= m < TABLE_MAX_PAGES implies #[trigger] file_page(
                self.pager.file@,
                m,
            ) == view0[m] by {
                if m >= n {
                    assert(!self.pager.resident(m));
                    assert(view0[m] == self.pager.content(m));
                }
            }
        }
    }

    /// Lets every page go from the cache. What was not written to the file
    /// image before is lost.
    pub fn free_pages(&mut self)
        requires
            old(self).pager.wf(),
        ensures
            final(self).pager.wf(),
            forall|m: int| 0 <= m < TABLE_MAX_PAGES ==> !final(self).pager.resident(m),
            final(self).pager.file == old(self).pager.file,
            final(self).pager.num_pages == old(self).pager.num_pages,
            final(self).pager.file_length == old(self).pager.file_length,
            final(self).num_rows == old(self).num_rows,
            final(self).root_page_num == old(self).root_page_num,
            final(self).limits == old(self).limits,
            final(self).shape@ == old(self).shape@,
    {
        let n = self.pager.pages.len();
        let mut i: usize = 0;
        while i < n
            invariant
                n == TABLE_MAX_PAGES,
                self.pager.pages@.len() == n,
                self.pager.file@.len() <= self.pager.num_pages * PAGE_SIZE,
                i <= n,
                forall|m: int| 0 <= m < i ==> (#[trigger] self.pager.pages@[m]) is None,
                forall|m: int|
                    i <= m < n ==> #[trigger] self.pager.pages@[m] == old(self).pager.pages@[m],
                old(self).pager.wf(),
                self.pager.file == old(self).pager.file,
                self.pager.num_pages == old(self).pager.num_pages,
                self.pager.file_length == old(self).pager.file_length,
                self.num_rows == old(self).num_rows,
                self.root_page_num == old(self).root_page_num,
                self.limits == old(self).limits,
                self.shape@ == old(self).shape@,
            decreases n - i,
        {
            self.pager.pages.set(i, None);
            i += 1;
        }
    }

    /// Closes the table: every page in use is written to the file image,
    /// the cache is let go, and the image is handed out to be stored.
    pub fn db_close(self) -> (file: Vec<u8>)
        requires
            self.pager.wf(),
        ensures
            is_image(file@, self.pager@, self.pager.num_pages),
            kept_beyond(self.pager.file@, file@),
    {
        let mut table = self;
        table.flush_pages();
        table.free_pages();
        table.pager.file
    }

    /// A table that is closed can be opened again over what the closing
    /// gave, with the same limits, and holds the same tree and the same rows
    /// then.
    pub proof fn lemma_reopen(self, file: Seq<u8>, r: Result<Table, DbError>)
        requires
            self.wf(),
            is_image(file, self.pager@, self.pager.num_pages),
            Self::opened(file, self.limits, r),
        ensures
            r is Ok,
            r->Ok_0.wf(),
            r->Ok_0@ == self@,
            r->Ok_0.pager@ == self.pager@,
            r->Ok_0.pager.num_pages == self.pager.num_pages,
            r->Ok_0.num_rows == self@.dom().len(),
            forall|pairs: Seq<(u32, Vec<u8>)>|
                crate::scan::is_scan(&self, pairs) == #[trigger] crate::scan::is_scan(
                    &r->Ok_0,
                    pairs,
                ),
    {
        lemma_tree_basics(self.pager@, self.pager.num_pages, self.limits, self.shape@);
        assert(file_pages(file) =~= self.pager@);
        assert(file.len() / (PAGE_SIZE as nat) == self.pager.num_pages);
        match r {
            Ok(again) => {
                lemma_contents_unique(
                    self.pager@,
                    self.pager.num_pages,
                    self.limits,
                    self.shape@,
                    again.shape@,
                );
            },
            Err(e) => {
                assert(tree_ok(
                    file_pages(file),
                    file_page_count(file),
                    self.limits,
                    self.shape@,
                ));
            },
        }
    }
}

/// The number of pages of a file image.
pub open spec fn file_page_count(file: Seq<u8>) -> u32 {
    (file.len() / (PAGE_SIZE as nat)) as u32
}

/// The pages hold a tree of some shape.
pub open spec fn some_tree(ps: Seq<Seq<u8>>, num_pages: u32, lim: Limits) -> bool {
    exists|w: Shape| tree_ok(ps, num_pages, lim, w)
}

/// The pages of a file image.
pub open spec fn file_pages(file: Seq<u8>) -> Seq<Seq<u8>> {
    Seq::new(TABLE_MAX_PAGES as nat, |n: int| file_page(file, n))
}

/// The order of the keys in every node of a table. In a leaf the keys of
/// the cells are in strictly ascending order. In an internal node the keys
/// of the cells are in strictly ascending order, each is the largest key
/// under the child of its cell, and the largest key under the rightmost
/// child is above them all.
pub proof fn lemma_order(t: &Table, n: u32)
    requires
        t.wf(),
        t.shape@.live.contains(n),
    ensures
        t.shape@.level[n] == 0 <==> header(t.pager@[n as int]).kind == KIND_LEAF,
        t.shape@.level[n] > 0 <==> header(t.pager@[n as int]).kind == KIND_INTERNAL,
        t.shape@.level[n] == 0 ==> leaf_sorted(t.pager@[n as int]),
        t.shape@.level[n] > 0 ==> keys_sorted(t.pager@[n as int]),
        t.shape@.level[n] > 0 ==> forall|i: int|
            0 <= i < header(t.pager@[n as int]).count ==> #[trigger] internal_key(
                t.pager@[n as int],
                i,
            ) == node_max_key(t.pager@, t.shape@, child_at(t.pager@[n as int], i)),
        t.shape@.level[n] > 0 ==> forall|i: int|
            0 <= i < header(t.pager@[n as int]).count ==> #[trigger] internal_key(
                t.pager@[n as int],
                i,
            ) < node_max_key(t.pager@, t.shape@, header(t.pager@[n as int]).link),
{
    reveal(tree_ok);
    let ps = t.pager@;
    let w = t.shape@;
    let np = t.pager.num_pages;
    let lim = t.limits;
    let p = ps[n as int];
    assert(node_ok(ps, np, lim, w, n));
    if w.level[n] > 0 {
        let cnt = header(p).count as int;
        assert(below_ok(ps, np, lim, w, w.level[n])) by {
            assert forall|m: u32| w.live.contains(m) && w.level[m] <= w.level[n] implies #[trigger] node_core(
                ps,
                np,
                lim,
                w,
                m,
            ) by {
                assert(node_ok(ps, np, lim, w, m));
            }
        }
        assert forall|i: int| 0 <= i <= cnt implies w.lo[#[trigger] child_at(p, i)] < node_max_key(
            ps,
            w,
            child_at(p, i),
        ) <= w.hi[child_at(p, i)] && (i < cnt ==> node_max_key(ps, w, child_at(p, i))
            == internal_key(p, i)) by {
            assert(child_ok(ps, w, n, i));
            let c = child_at(p, i);
            assert(node_ok(ps, np, lim, w, c));
            lemma_rightmost_holds_key(ps, np, lim, w, c);
            lemma_max_key(ps, np, lim, w, c);
        }
        assert(child_at(p, cnt) == header(p).link);
        assert(child_ok(ps, w, n, cnt));
        assert forall|i: int| 0 <= i < cnt implies #[trigger] internal_key(p, i) < node_max_key(
            ps,
            w,
            header(p).link,
        ) by {
            if i < cnt - 1 {
                assert(internal_key(p, i) < internal_key(p, cnt - 1));
            }
        }
    }
}

/// Behind the pages that the store hands out, the file image `after` holds
/// what the file image `before` holds.
pub open spec fn kept_beyond(before: Seq<u8>, after: Seq<u8>) -> bool {
    forall|j: int| #[trigger] kept_at(before, after, j)
}

/// Where byte `j` of the file image `before` lies behind the pages that
/// the store hands out, the file image `after` holds the same byte there.
pub open spec fn kept_at(before: Seq<u8>, after: Seq<u8>, j: int) -> bool {
    TABLE_MAX_PAGES * PAGE_SIZE <= j < before.len() ==> j < after.len() && after[j] == before[j]
}

/// Writing a page that the store hands out leaves the file image as it is
/// behind such pages.
pub proof fn lemma_kept_beyond(first: Seq<u8>, file: Seq<u8>, n: int, page: Seq<u8>)
    requires
        kept_beyond(first, file),
        0 <= n < TABLE_MAX_PAGES,
        page.len() == PAGE_SIZE,
    ensures
        kept_beyond(first, crate::pager::store_page(file, n, page)),
{
    let after = crate::pager::store_page(file, n, page);
    assert forall|j: int| #[trigger] kept_at(first, after, j) by {
        assert(kept_at(first, file, j));
    }
}

/// `file` is the image of a store with the pages `pages`, of which
/// `num_pages` are in use: it is that many pages long, and holds each page
/// that the store hands out.
pub open spec fn is_image(file: Seq<u8>, pages: Seq<Seq<u8>>, num_pages: u32) -> bool {
    &&& file.len() == num_pages * PAGE_SIZE
    &&& forall|m: int| 0 <= m < TABLE_MAX_PAGES ==> #[trigger] file_page(file, m) == pages[m]
}

} // verus!
