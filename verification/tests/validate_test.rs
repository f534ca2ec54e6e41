use rustql::error::DbError;
use rustql::node::{set_internal_node_cell, set_leaf_node_key, set_leaf_node_num_cells, Node};
use rustql::pager::PAGE_SIZE;
use rustql::statement::Statement;
use rustql::table::Table;
use rustql::tree::Limits;

fn limits() -> Limits {
    Limits { leaf_max_cells: 2, internal_max_cells: 3, max_rows: 1000 }
}

fn file_with(ids: &[u32]) -> Vec<u8> {
    let mut table = Table::db_open_with_limits(Vec::new(), limits()).unwrap();
    for id in ids {
        let statement =
            Statement::prepare_statement(format!("insert {} u{} m{}", id, id, id).as_str())
                .unwrap();
        assert_eq!(rustql::execute_insert(&statement, &mut table), Ok(()));
        assert_eq!(table.validate(), Ok(()));
    }
    table.db_close()
}

fn reopened(file: Vec<u8>) -> Table {
    Table::db_open_with_limits(file, limits()).unwrap()
}

fn refused(file: Vec<u8>) -> Option<DbError> {
    Table::db_open_with_limits(file, limits()).err()
}

#[test]
fn trees_are_found_in_order() {
    let sequential: Vec<u32> = (1..=30).collect();
    let mut table = reopened(file_with(&sequential));
    assert_eq!(table.validate(), Ok(()));
    assert_eq!(table.scan().len(), 30);
    let mut table = reopened(file_with(&[50, 3, 77, 21, 8, 64, 90, 1, 33, 45, 12, 99, 70]));
    assert_eq!(table.validate(), Ok(()));
    let mut table = reopened(file_with(&[]));
    assert_eq!(table.validate(), Ok(()));
    let mut fresh = Table::db_open(Vec::new()).unwrap();
    assert_eq!(fresh.validate(), Ok(()));
}

#[test]
fn other_limits_do_not_fit() {
    let file = file_with(&[1, 2, 3, 4, 5, 6, 7, 8, 9, 10, 11, 12, 13, 14, 15, 16, 17]);
    let narrow = Limits { leaf_max_cells: 1, internal_max_cells: 3, max_rows: 1000 };
    assert_eq!(
        Table::db_open_with_limits(file.clone(), narrow).err(),
        Some(DbError::InvariantViolation)
    );
    let wide = Limits { leaf_max_cells: 3, internal_max_cells: 5, max_rows: 1000 };
    let mut table = Table::db_open_with_limits(file, wide).unwrap();
    assert_eq!(table.validate(), Ok(()));
}

#[test]
fn broken_pages_are_found_out() {
    let file = file_with(&[1, 2, 3, 4, 5, 6, 7]);

    let mut garbage = file.clone();
    garbage[0] = 9;
    assert_eq!(refused(garbage), Some(DbError::InvariantViolation));

    let mut not_root = file.clone();
    not_root[1] = 0;
    assert_eq!(refused(not_root), Some(DbError::InvariantViolation));

    let mut zero = vec![0u8; 3 * PAGE_SIZE];
    zero[PAGE_SIZE] = 1;
    assert_eq!(refused(zero), Some(DbError::InvariantViolation));
    assert_eq!(refused(vec![0u8; PAGE_SIZE]), Some(DbError::InvariantViolation));

    let mut table = reopened(file.clone());
    let root_key = rustql::node::get_internal_node_key(table.pager.get_page(0).unwrap(), 0);
    let root_child =
        rustql::node::get_internal_node_child_page_num(table.pager.get_page(0).unwrap(), 0);
    set_internal_node_cell(table.pager.get_page(0).unwrap(), 0, root_child, root_key + 1);
    assert_eq!(table.validate(), Err(DbError::InvariantViolation));

    let mut table = reopened(file.clone());
    let leaf = rustql::cursor::Cursor::table_start(&mut table).page_num;
    set_leaf_node_key(table.pager.get_page(leaf).unwrap(), 0, 2);
    assert_eq!(table.validate(), Err(DbError::InvariantViolation));

    let mut table = reopened(file.clone());
    let leaf = rustql::cursor::Cursor::table_start(&mut table).page_num;
    Node::set_parent_node(table.pager.get_page(leaf).unwrap(), leaf);
    assert_eq!(table.validate(), Err(DbError::InvariantViolation));

    let mut table = reopened(file.clone());
    let leaf = rustql::cursor::Cursor::table_start(&mut table).page_num;
    rustql::node::set_leaf_node_next_leaf(table.pager.get_page(leaf).unwrap(), 0);
    assert_eq!(table.validate(), Err(DbError::InvariantViolation));

    let mut table = reopened(file.clone());
    let leaf = rustql::cursor::Cursor::table_start(&mut table).page_num;
    set_leaf_node_num_cells(table.pager.get_page(leaf).unwrap(), 1);
    assert_eq!(table.validate(), Err(DbError::InvariantViolation));

    let mut table = reopened(file);
    assert_eq!(table.validate(), Ok(()));
}
