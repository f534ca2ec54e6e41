use rustql::cursor::Cursor;
use rustql::error::DbError;
use rustql::node::{
    get_internal_node_child_page_num, get_internal_node_key, get_internal_node_num_cells,
    get_internal_node_right_child, get_leaf_node_key, insert_leaf_cell, is_node_root, Node,
    NodeType, INVALID_PAGE_NUM,
};
use rustql::pager::{Pager, PAGE_SIZE, TABLE_MAX_PAGES};
use rustql::row::Row;
use rustql::statement::Statement;
use rustql::table::{Table, TABLE_MAX_ROWS};
use rustql::tree::Limits;
use rustql::{execute_insert, execute_select};

fn small_limits() -> Limits {
    Limits { leaf_max_cells: 2, internal_max_cells: 3, max_rows: 1000 }
}

fn open_small() -> Table {
    Table::db_open_with_limits(Vec::new(), small_limits()).unwrap()
}

fn insert(table: &mut Table, id: u32) -> Result<(), DbError> {
    let statement =
        Statement::prepare_statement(format!("insert {} user{} mail{}", id, id, id).as_str())
            .unwrap();
    execute_insert(&statement, table)
}

fn keys(table: &mut Table) -> Vec<u32> {
    table.scan().iter().map(|pair| pair.0).collect()
}

fn text_of(chars: &[char]) -> String {
    chars.iter().filter(|c| **c != '\0').collect()
}

fn leaf_keys(table: &mut Table, page_num: u32) -> Vec<u32> {
    let page = table.pager.get_page(page_num).unwrap();
    let count = Node::get_leaf_node_num_cells(page);
    (0..count).map(|i| get_leaf_node_key(page, i)).collect()
}

fn kind(table: &mut Table, page_num: u32) -> NodeType {
    Node::get_node_type(table.pager.get_page(page_num).unwrap())
}

// The largest key under a node, after a look at the order of everything
// under it: the keys of each node ascend, each key of an internal node is
// the largest key under its child, and every child names its parent.
fn inspect_subtree(table: &mut Table, page_num: u32, depth: u32) -> (u32, u32) {
    match kind(table, page_num) {
        NodeType::LEAF => {
            let found = leaf_keys(table, page_num);
            assert!(!found.is_empty());
            for pair in found.windows(2) {
                assert!(pair[0] < pair[1]);
            }
            (*found.last().unwrap(), depth)
        }
        NodeType::INTERNAL => {
            let (count, right) = {
                let page = table.pager.get_page(page_num).unwrap();
                (get_internal_node_num_cells(page), get_internal_node_right_child(page))
            };
            let mut last_key: Option<u32> = None;
            let mut leaf_depth: Option<u32> = None;
            for i in 0..count {
                let (child, key) = {
                    let page = table.pager.get_page(page_num).unwrap();
                    (get_internal_node_child_page_num(page, i), get_internal_node_key(page, i))
                };
                assert_eq!(Node::get_parent_node(table.pager.get_page(child).unwrap()), page_num);
                let (max, d) = inspect_subtree(table, child, depth + 1);
                assert_eq!(max, key);
                if let Some(previous) = last_key {
                    assert!(previous < key);
                }
                if let Some(expected) = leaf_depth {
                    assert_eq!(expected, d);
                }
                last_key = Some(key);
                leaf_depth = Some(d);
            }
            assert_eq!(Node::get_parent_node(table.pager.get_page(right).unwrap()), page_num);
            let (max, d) = inspect_subtree(table, right, depth + 1);
            if let Some(previous) = last_key {
                assert!(previous < max);
            }
            if let Some(expected) = leaf_depth {
                assert_eq!(expected, d);
            }
            (max, d)
        }
    }
}

#[test]
fn split_with_leaf_capacity_two() {
    let mut table = open_small();
    for id in [1, 2, 3] {
        assert_eq!(insert(&mut table, id), Ok(()));
    }
    assert_eq!(kind(&mut table, 0), NodeType::INTERNAL);
    let (count, left, key, right) = {
        let root = table.pager.get_page(0).unwrap();
        assert!(is_node_root(root));
        (
            get_internal_node_num_cells(root),
            get_internal_node_child_page_num(root, 0),
            get_internal_node_key(root, 0),
            get_internal_node_right_child(root),
        )
    };
    assert_eq!(count, 1);
    assert_eq!(key, 2);
    assert_eq!(kind(&mut table, left), NodeType::LEAF);
    assert_eq!(kind(&mut table, right), NodeType::LEAF);
    assert_eq!(leaf_keys(&mut table, left), vec![1, 2]);
    assert_eq!(leaf_keys(&mut table, right), vec![3]);
    let next_of_left = Node::get_leaf_node_next_leaf(table.pager.get_page(left).unwrap());
    let next_of_right = Node::get_leaf_node_next_leaf(table.pager.get_page(right).unwrap());
    assert_eq!(next_of_left, right);
    assert_eq!(next_of_right, 0);
    assert!(!is_node_root(table.pager.get_page(left).unwrap()));
    assert_eq!(Node::get_parent_node(table.pager.get_page(left).unwrap()), 0);
    assert_eq!(Node::get_parent_node(table.pager.get_page(right).unwrap()), 0);
    assert_eq!(keys(&mut table), vec![1, 2, 3]);
    assert_eq!(table.root_page_num, 0);
}

#[test]
fn scan_after_multi_level_split() {
    let mut table = open_small();
    for id in 1..=17 {
        assert_eq!(insert(&mut table, id), Ok(()));
    }
    assert_eq!(kind(&mut table, 0), NodeType::INTERNAL);
    let first_child = {
        let root = table.pager.get_page(0).unwrap();
        get_internal_node_child_page_num(root, 0)
    };
    assert_eq!(kind(&mut table, first_child), NodeType::INTERNAL);
    let (max, depth) = inspect_subtree(&mut table, 0, 1);
    assert_eq!(max, 17);
    assert!(depth > 2);
    assert_eq!(keys(&mut table), (1..=17).collect::<Vec<u32>>());
}

#[test]
fn keys_in_any_order_come_out_in_order() {
    let mut table = open_small();
    let mut id: u32 = 7;
    let mut expected: Vec<u32> = Vec::new();
    for _ in 0..60 {
        id = (id * 37 + 11) % 101;
        let outcome = insert(&mut table, id);
        if expected.contains(&id) {
            assert_eq!(outcome, Err(DbError::DuplicateKey));
        } else {
            assert_eq!(outcome, Ok(()));
            expected.push(id);
        }
        inspect_subtree(&mut table, 0, 1);
    }
    expected.sort();
    assert_eq!(keys(&mut table), expected);
    assert_eq!(table.num_rows as usize, expected.len());
}

#[test]
fn keys_in_descending_order_come_out_in_order() {
    let mut table = Table::db_open(Vec::new()).unwrap();
    for id in (1..=40).rev() {
        assert_eq!(insert(&mut table, id), Ok(()));
        inspect_subtree(&mut table, 0, 1);
    }
    assert_eq!(keys(&mut table), (1..=40).collect::<Vec<u32>>());
}

#[test]
fn row_comes_back_as_it_went_in() {
    let mut table = open_small();
    let statement = Statement::prepare_statement("insert 42 zo\u{e9} a\u{20ac}b\u{1f600}").unwrap();
    assert_eq!(execute_insert(&statement, &mut table), Ok(()));
    let rows = execute_select(&mut table);
    assert_eq!(rows.len(), 1);
    assert_eq!(rows[0].id, 42);
    assert_eq!(text_of(&rows[0].username), "zo\u{e9}");
    assert_eq!(text_of(&rows[0].email), "a\u{20ac}b\u{1f600}");
    assert_eq!(rows[0].username, statement.row_to_insert.username);
    assert_eq!(rows[0].email, statement.row_to_insert.email);
}

#[test]
fn same_id_twice_leaves_one_row() {
    let mut table = open_small();
    assert_eq!(insert(&mut table, 5), Ok(()));
    let before = table.scan();
    let second = Statement::prepare_statement("insert 5 other other").unwrap();
    assert_eq!(execute_insert(&second, &mut table), Err(DbError::DuplicateKey));
    assert_eq!(table.scan(), before);
    assert_eq!(table.num_rows, 1);
    let rows = execute_select(&mut table);
    assert_eq!(rows.len(), 1);
    assert_eq!(text_of(&rows[0].username), "user5");
}

#[test]
fn duplicate_in_a_full_leaf_is_refused() {
    let mut table = open_small();
    assert_eq!(insert(&mut table, 1), Ok(()));
    assert_eq!(insert(&mut table, 2), Ok(()));
    let pages = table.pager.num_pages;
    assert_eq!(insert(&mut table, 2), Err(DbError::DuplicateKey));
    assert_eq!(insert(&mut table, 1), Err(DbError::DuplicateKey));
    assert_eq!(table.pager.num_pages, pages);
    assert_eq!(keys(&mut table), vec![1, 2]);
}

#[test]
fn row_limit_is_kept() {
    let limits = Limits { leaf_max_cells: 3, internal_max_cells: 3, max_rows: 4 };
    let mut table = Table::db_open_with_limits(Vec::new(), limits).unwrap();
    for id in 1..=4 {
        assert_eq!(insert(&mut table, id), Ok(()));
    }
    assert_eq!(insert(&mut table, 5), Err(DbError::TableFull));
    assert_eq!(insert(&mut table, 1), Err(DbError::TableFull));
    assert_eq!(table.num_rows, 4);
    assert_eq!(keys(&mut table), vec![1, 2, 3, 4]);
}

#[test]
fn page_limit_is_kept() {
    let mut table = Table::db_open(Vec::new()).unwrap();
    assert_eq!(table.limits.max_rows, TABLE_MAX_ROWS);
    let mut id = 0;
    let refused = loop {
        id += 1;
        match insert(&mut table, id) {
            Ok(()) => {}
            Err(e) => break e,
        }
    };
    assert_eq!(refused, DbError::TableFull);
    assert!(id < TABLE_MAX_ROWS);
    assert!(table.pager.num_pages <= TABLE_MAX_PAGES);
    let last = Cursor::find_key(&mut table, id);
    let cost = rustql::btree::split_cost(&mut table, last.page_num);
    assert!(table.pager.num_pages + cost > TABLE_MAX_PAGES);
    assert!(table.pager.num_pages + 6 > TABLE_MAX_PAGES);
    let rows = table.num_rows;
    let pages = table.pager.num_pages;
    assert_eq!(rows, id - 1);
    assert_eq!(insert(&mut table, id), Err(DbError::TableFull));
    assert_eq!(table.num_rows, rows);
    assert_eq!(table.pager.num_pages, pages);
    assert_eq!(keys(&mut table), (1..id).collect::<Vec<u32>>());
    inspect_subtree(&mut table, 0, 1);
}

#[test]
fn closed_and_opened_again() {
    let mut table = open_small();
    for id in [9, 3, 14, 1, 7, 12, 5, 10, 2, 8] {
        assert_eq!(insert(&mut table, id), Ok(()));
    }
    let before = table.scan();
    let tree = rustql::run(".btree", &mut table);
    let pages = table.pager.num_pages;
    let file = table.db_close();
    assert_eq!(file.len(), pages as usize * PAGE_SIZE);
    let mut again = Table::db_open_with_limits(file, small_limits()).unwrap();
    assert_eq!(again.pager.num_pages, pages);
    assert_eq!(again.scan(), before);
    assert_eq!(rustql::run(".btree", &mut again), tree);
    assert_eq!(insert(&mut again, 6), Ok(()));
    assert_eq!(keys(&mut again), vec![1, 2, 3, 5, 6, 7, 8, 9, 10, 12, 14]);
}

#[test]
fn empty_table_has_an_empty_root_leaf() {
    let mut table = Table::db_open(Vec::new()).unwrap();
    assert_eq!(table.num_rows, 0);
    assert_eq!(table.root_page_num, 0);
    assert_eq!(table.pager.num_pages, 1);
    assert_eq!(kind(&mut table, 0), NodeType::LEAF);
    let root = table.pager.get_page(0).unwrap();
    assert!(is_node_root(root));
    assert_eq!(Node::get_leaf_node_num_cells(root), 0);
    assert_eq!(Node::get_leaf_node_next_leaf(root), 0);
    let file = table.db_close();
    assert_eq!(file.len(), PAGE_SIZE);
    assert_eq!(&file[0..14], &[2, 1, 0, 0, 0, 0, 0, 0, 0, 0, 0, 0, 0, 0]);
}

#[test]
fn files_that_are_refused() {
    assert_eq!(Pager::open(vec![0u8; 5]).err(), Some(DbError::MalformedFile));
    assert_eq!(Table::db_open(vec![0u8; PAGE_SIZE + 1]).err(), Some(DbError::MalformedFile));
    let no_tree = vec![0u8; (TABLE_MAX_PAGES as usize + 1) * PAGE_SIZE];
    assert_eq!(Table::db_open(no_tree).err(), Some(DbError::InvariantViolation));
    let mut pager = Pager::open(vec![0u8; 2 * PAGE_SIZE]).unwrap();
    assert_eq!(pager.num_pages, 2);
    assert_eq!(pager.file_length, 2 * PAGE_SIZE as u32);
    assert_eq!(pager.get_page(TABLE_MAX_PAGES).err(), Some(DbError::PageOutOfBounds));
    assert_eq!(pager.flush_page(TABLE_MAX_PAGES as usize), Err(DbError::PageOutOfBounds));
    assert!(pager.get_page(TABLE_MAX_PAGES - 1).is_ok());
}

#[test]
fn pages_come_from_the_file_and_go_back() {
    let mut file = vec![0u8; 2 * PAGE_SIZE];
    file[PAGE_SIZE + 3] = 77;
    let mut pager = Pager::open(file).unwrap();
    assert_eq!(pager.get_unused_page_num(), 2);
    assert_eq!(pager.get_page(1).unwrap().read_u8(3), 77);
    assert_eq!(pager.get_page(1).unwrap().read_u8(4), 0);
    pager.get_page(1).unwrap().write_u8(4, 9);
    assert_eq!(pager.file[PAGE_SIZE + 4], 0);
    assert_eq!(pager.flush_page(1), Ok(()));
    assert_eq!(pager.file[PAGE_SIZE + 4], 9);
    assert_eq!(pager.num_pages, 2);
    pager.get_page(4).unwrap().write_u8(0, 5);
    assert_eq!(pager.num_pages, 5);
    assert_eq!(pager.get_unused_page_num(), 5);
    assert_eq!(pager.flush_page(4), Ok(()));
    assert_eq!(pager.file.len(), 5 * PAGE_SIZE);
    assert_eq!(pager.file[4 * PAGE_SIZE], 5);
    assert_eq!(pager.file[3 * PAGE_SIZE], 0);
}

#[test]
fn cursor_finds_and_advances() {
    let mut table = open_small();
    for id in [10, 20, 30, 40, 50] {
        assert_eq!(insert(&mut table, id), Ok(()));
    }
    let start = Cursor::table_start(&mut table);
    assert_eq!(start.cell_num, 0);
    assert!(!start.end_of_table);
    assert_eq!(leaf_keys(&mut table, start.page_num)[0], 10);
    let found = Cursor::find_key(&mut table, 30);
    assert_eq!(leaf_keys(&mut table, found.page_num)[found.cell_num as usize], 30);
    let record = found.cursor_value(&mut table);
    assert_eq!(Row::deserialize_row(&record).id, 30);
    let absent = Cursor::find_key(&mut table, 35);
    let leaf = leaf_keys(&mut table, absent.page_num);
    assert!(absent.cell_num as usize == leaf.len() || leaf[absent.cell_num as usize] > 35);
    let mut cursor = Cursor::table_start(&mut table);
    let mut seen = Vec::new();
    while !cursor.end_of_table {
        seen.push(leaf_keys(&mut table, cursor.page_num)[cursor.cell_num as usize]);
        cursor.advance_cursor(&mut table);
    }
    assert_eq!(seen, vec![10, 20, 30, 40, 50]);
}

#[test]
fn largest_key_and_height() {
    let mut table = open_small();
    for id in 1..=9 {
        assert_eq!(insert(&mut table, id), Ok(()));
    }
    assert_eq!(rustql::btree::get_node_max_key(&mut table, 0), 9);
    let first = Cursor::table_start(&mut table);
    assert_eq!(rustql::btree::get_node_max_key(&mut table, first.page_num), 2);
    let (_, depth) = inspect_subtree(&mut table, 0, 1);
    assert_eq!(depth, 3);
    // the first leaf is full, its parent has room
    assert_eq!(rustql::btree::split_cost(&mut table, first.page_num), 1);
    // the last leaf holds keys 9 alone in a parent with two children
    let last = Cursor::find_key(&mut table, 9);
    assert_eq!(rustql::btree::split_cost(&mut table, last.page_num), 1);
}

#[test]
fn rows_one_behind_the_other() {
    assert_eq!(Table::row_slot(0), (0, 0));
    assert_eq!(Table::row_slot(2), (0, 2 * 1152));
    assert_eq!(Table::row_slot(3), (1, 0));
    assert_eq!(Table::row_slot(299), (99, 2 * 1152));
    assert_eq!(rustql::table::ROWS_PER_PAGE as usize, PAGE_SIZE / rustql::row::ROW_SIZE);
    assert_eq!(TABLE_MAX_ROWS, rustql::table::ROWS_PER_PAGE * TABLE_MAX_PAGES);
    let mut table = Table::new_table();
    assert_eq!(table.num_rows, 0);
    assert_eq!(table.scan().len(), 1);
    assert_eq!(insert(&mut table, 1), Ok(()));
    assert_eq!(keys(&mut table), vec![1]);
    table.free_pages();
    assert_eq!(table.pager.file.len(), 0);
    table.free_table();
}

#[test]
fn smallest_and_largest_keys() {
    let mut table = open_small();
    let with_id = |id: u32| {
        let mut statement = Statement::prepare_statement("insert 1 edge edge").unwrap();
        statement.row_to_insert.id = id;
        statement
    };
    for id in [u32::MAX, 0, u32::MAX - 1, 1, 0x8000_0000] {
        assert_eq!(execute_insert(&with_id(id), &mut table), Ok(()));
        assert_eq!(table.validate(), Ok(()));
    }
    assert_eq!(execute_insert(&with_id(u32::MAX), &mut table), Err(DbError::DuplicateKey));
    assert_eq!(execute_insert(&with_id(0), &mut table), Err(DbError::DuplicateKey));
    assert_eq!(keys(&mut table), vec![0, 1, 0x8000_0000, u32::MAX - 1, u32::MAX]);
    assert_eq!(rustql::btree::get_node_max_key(&mut table, 0), u32::MAX);
    let rows = execute_select(&mut table);
    assert_eq!(rows[4].id, u32::MAX);
    assert_eq!(
        rustql::run("select", &mut table).lines().last().unwrap(),
        "4294967295,['e', 'd', 'g', 'e'],['e', 'd', 'g', 'e']"
    );
}

#[test]
fn store_opens_over_any_whole_number_of_pages() {
    let count = TABLE_MAX_PAGES as usize + 1;
    let mut file = vec![0u8; count * PAGE_SIZE];
    file[99 * PAGE_SIZE + 7] = 31;
    let mut pager = Pager::open(file).unwrap();
    assert_eq!(pager.num_pages, TABLE_MAX_PAGES + 1);
    assert_eq!(pager.file_length as usize, count * PAGE_SIZE);
    assert_eq!(pager.pages.len(), TABLE_MAX_PAGES as usize);
    assert!(pager.pages.iter().all(|slot| slot.is_none()));
    assert_eq!(pager.get_page(TABLE_MAX_PAGES).err(), Some(DbError::PageOutOfBounds));
    assert_eq!(pager.get_page(99).unwrap().read_u8(7), 31);
    assert_eq!(pager.num_pages, TABLE_MAX_PAGES + 1);
    assert_eq!(Pager::open(vec![0u8; count * PAGE_SIZE - 1]).err(), Some(DbError::MalformedFile));
    assert_eq!(Pager::open(Vec::new()).unwrap().num_pages, 0);
}

#[test]
fn page_stays_in_the_cache() {
    let mut pager = Pager::open(vec![0u8; 3 * PAGE_SIZE]).unwrap();
    pager.get_page(1).unwrap().write_u8(0, 4);
    assert!(pager.pages[1].is_some());
    assert!(pager.pages[0].is_none());
    assert!(pager.pages[2].is_none());
    // the file does not know of the change, the cache does
    assert_eq!(pager.file[PAGE_SIZE], 0);
    assert_eq!(pager.get_page(1).unwrap().read_u8(0), 4);
    pager.get_page(2).unwrap();
    assert!(pager.pages[1].is_some());
    assert!(pager.pages[2].is_some());
    assert_eq!(pager.flush_page(1), Ok(()));
    assert!(pager.pages[1].is_some());
    assert!(pager.pages[2].is_some());
    assert!(pager.pages[0].is_none());
    assert_eq!(pager.get_page(1).unwrap().read_u8(0), 4);
}

#[test]
fn new_table_is_zero_behind_the_header() {
    let mut table = Table::db_open(Vec::new()).unwrap();
    let rows = execute_select(&mut table);
    assert_eq!(rows.len(), 1);
    assert_eq!(rows[0].id, 0);
    assert!(rows[0].username.iter().all(|c| *c == '\0'));
    assert!(rows[0].email.iter().all(|c| *c == '\0'));
    let file = table.db_close();
    assert!(file[14..].iter().all(|b| *b == 0));
}

#[test]
fn rows_are_counted_when_a_table_is_opened() {
    let mut table = Table::db_open(Vec::new()).unwrap();
    assert_eq!(insert(&mut table, 5), Ok(()));
    assert_eq!(table.num_rows, 1);
    assert_eq!(table.count_rows(), 1);
    let again = Table::db_open(table.db_close()).unwrap();
    assert_eq!(again.num_rows, 1);

    let mut table = open_small();
    for id in 1..=11 {
        assert_eq!(insert(&mut table, id), Ok(()));
    }
    assert_eq!(table.count_rows(), 11);
    let mut again = Table::db_open_with_limits(table.db_close(), small_limits()).unwrap();
    assert_eq!(again.num_rows, 11);
    assert_eq!(again.count_rows(), 11);

    let mut empty = Table::db_open(Vec::new()).unwrap();
    assert_eq!(empty.count_rows(), 0);
    let again = Table::db_open(empty.db_close()).unwrap();
    assert_eq!(again.num_rows, 0);
}

#[test]
fn row_limit_holds_after_a_table_is_opened_again() {
    let limits = Limits { leaf_max_cells: 3, internal_max_cells: 3, max_rows: 4 };
    let mut table = Table::db_open_with_limits(Vec::new(), limits).unwrap();
    for id in 1..=3 {
        assert_eq!(insert(&mut table, id), Ok(()));
    }
    let mut again = Table::db_open_with_limits(table.db_close(), limits).unwrap();
    assert_eq!(insert(&mut again, 4), Ok(()));
    assert_eq!(insert(&mut again, 5), Err(DbError::TableFull));
    assert_eq!(keys(&mut again), vec![1, 2, 3, 4]);
}

#[test]
fn internal_node_without_a_key_shows_its_child() {
    let limits = Limits { leaf_max_cells: 1, internal_max_cells: 1, max_rows: 1000 };
    let mut table = Table::db_open_with_limits(Vec::new(), limits).unwrap();
    for id in 1..=6 {
        assert_eq!(insert(&mut table, id), Ok(()));
    }
    assert_eq!(table.validate(), Ok(()));
    let text = rustql::run(".btree", &mut table);
    assert!(text.contains("- internal (size 0)\n"));
    for id in 1..=6 {
        let line = format!("- {}\n", id);
        assert_eq!(text.matches(line.as_str()).count(), 1, "key {} in {}", id, text);
    }
    assert_eq!(keys(&mut table), vec![1, 2, 3, 4, 5, 6]);
}

#[test]
fn full_internal_node_keeps_its_lower_half() {
    // leaves of one cell, internal nodes of three: the fifth row splits the
    // root, which held the leaves of 1, 2, 3 and 4
    let limits = Limits { leaf_max_cells: 1, internal_max_cells: 3, max_rows: 1000 };
    let mut table = Table::db_open_with_limits(Vec::new(), limits).unwrap();
    for id in 1..=4 {
        assert_eq!(insert(&mut table, id), Ok(()));
    }
    assert_eq!(kind(&mut table, 0), NodeType::INTERNAL);
    let root = table.pager.get_page(0).unwrap();
    assert_eq!(get_internal_node_num_cells(root), 3);
    let unused = table.pager.get_unused_page_num();
    assert_eq!(insert(&mut table, 5), Ok(()));
    let root = table.pager.get_page(0).unwrap();
    assert_eq!(get_internal_node_num_cells(root), 1);
    let upper = get_internal_node_right_child(root);
    let lower = get_internal_node_child_page_num(root, 0);
    assert_eq!(get_internal_node_key(root, 0), 2);
    // the new leaf took the first unused page, the upper half the next,
    // and the lower half the one after
    assert_eq!(upper, unused + 1);
    assert_eq!(lower, unused + 2);
    let low = table.pager.get_page(lower).unwrap();
    assert_eq!(get_internal_node_num_cells(low), 1);
    let low_children =
        vec![get_internal_node_child_page_num(low, 0), get_internal_node_right_child(low)];
    assert_eq!(get_internal_node_key(low, 0), 1);
    let high = table.pager.get_page(upper).unwrap();
    assert_eq!(get_internal_node_num_cells(high), 2);
    let high_children = vec![
        get_internal_node_child_page_num(high, 0),
        get_internal_node_child_page_num(high, 1),
        get_internal_node_right_child(high),
    ];
    assert_eq!(get_internal_node_key(high, 0), 3);
    assert_eq!(get_internal_node_key(high, 1), 4);
    let mut found = Vec::new();
    for child in low_children.iter().chain(high_children.iter()) {
        found.extend(leaf_keys(&mut table, *child));
    }
    assert_eq!(found, vec![1, 2, 3, 4, 5]);
    assert_eq!(table.validate(), Ok(()));
}

#[test]
fn child_enters_a_node_by_its_largest_key() {
    // a root with the leaves of 10, 20 and of 30
    let mut table = open_small();
    for id in [10, 20, 30] {
        assert_eq!(insert(&mut table, id), Ok(()));
    }
    assert_eq!(kind(&mut table, 0), NodeType::INTERNAL);
    let first = get_internal_node_child_page_num(table.pager.get_page(0).unwrap(), 0);
    let last = get_internal_node_right_child(table.pager.get_page(0).unwrap());
    // a leaf of its own with a key below all others enters before them
    let below = table.pager.get_unused_page_num();
    let page = table.pager.get_page(below).unwrap();
    Node::initialize_leaf_node(page);
    insert_leaf_cell(page, 0, 5, &vec![0u8; 1152]);
    Node::internal_node_insert(&mut table, 0, below);
    let root = table.pager.get_page(0).unwrap();
    assert_eq!(get_internal_node_num_cells(root), 2);
    assert_eq!(get_internal_node_child_page_num(root, 0), below);
    assert_eq!(get_internal_node_key(root, 0), 5);
    assert_eq!(get_internal_node_child_page_num(root, 1), first);
    assert_eq!(get_internal_node_key(root, 1), 20);
    assert_eq!(get_internal_node_right_child(root), last);
    assert_eq!(Node::get_parent_node(table.pager.get_page(below).unwrap()), 0);
    // one with a key above all others becomes the rightmost child
    let above = table.pager.get_unused_page_num();
    let page = table.pager.get_page(above).unwrap();
    Node::initialize_leaf_node(page);
    insert_leaf_cell(page, 0, 40, &vec![0u8; 1152]);
    Node::internal_node_insert(&mut table, 0, above);
    let root = table.pager.get_page(0).unwrap();
    assert_eq!(get_internal_node_num_cells(root), 3);
    assert_eq!(get_internal_node_right_child(root), above);
    assert_eq!(get_internal_node_child_page_num(root, 2), last);
    assert_eq!(get_internal_node_key(root, 2), 30);
}

#[test]
fn first_child_of_a_node_is_its_rightmost() {
    let mut table = open_small();
    assert_eq!(insert(&mut table, 1), Ok(()));
    let leaf = table.pager.get_unused_page_num();
    let page = table.pager.get_page(leaf).unwrap();
    Node::initialize_leaf_node(page);
    insert_leaf_cell(page, 0, 7, &vec![0u8; 1152]);
    let node = table.pager.get_unused_page_num();
    let page = table.pager.get_page(node).unwrap();
    Node::initialize_internal_node(page);
    assert_eq!(get_internal_node_right_child(page), INVALID_PAGE_NUM);
    Node::internal_node_insert(&mut table, node, leaf);
    let page = table.pager.get_page(node).unwrap();
    assert_eq!(get_internal_node_num_cells(page), 0);
    assert_eq!(get_internal_node_right_child(page), leaf);
}

#[test]
fn table_over_more_pages_than_the_store_hands_out() {
    let mut table = Table::db_open(Vec::new()).unwrap();
    for id in [1, 2] {
        assert_eq!(insert(&mut table, id), Ok(()));
    }
    let mut file = table.db_close();
    assert_eq!(file.len(), PAGE_SIZE);
    let count = TABLE_MAX_PAGES as usize + 3;
    file.resize(count * PAGE_SIZE, 0xAB);
    let mut table = Table::db_open(file).unwrap();
    assert_eq!(table.pager.num_pages as usize, count);
    assert_eq!(table.num_rows, 2);
    assert_eq!(keys(&mut table), vec![1, 2]);
    // the leaf has room for one more row; for a split there is no page
    assert_eq!(insert(&mut table, 3), Ok(()));
    assert_eq!(insert(&mut table, 4), Err(DbError::TableFull));
    assert_eq!(insert(&mut table, 3), Err(DbError::DuplicateKey));
    assert_eq!(keys(&mut table), vec![1, 2, 3]);
    assert_eq!(table.validate(), Ok(()));
    assert_eq!(table.pager.get_page(TABLE_MAX_PAGES).err(), Some(DbError::PageOutOfBounds));
    let file = table.db_close();
    assert_eq!(file.len(), count * PAGE_SIZE);
    assert!(file[TABLE_MAX_PAGES as usize * PAGE_SIZE..].iter().all(|b| *b == 0xAB));
    let mut again = Table::db_open(file).unwrap();
    assert_eq!(again.num_rows, 3);
    assert_eq!(keys(&mut again), vec![1, 2, 3]);
}
