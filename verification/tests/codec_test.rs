use rustql::btree::{left_split_count, place_child};
use rustql::codec::{read_be32, read_be32_slice, write_be32};
use rustql::node::{
    get_internal_node_cell_ptr, get_internal_node_key, get_internal_node_num_cells,
    get_internal_node_right_child, get_leaf_node_cell_ptr, get_leaf_node_key,
    get_leaf_node_value, insert_internal_cell, insert_leaf_cell, read_internal_child,
    set_internal_node_cell, set_internal_node_num_cells, set_internal_node_right_child,
    set_leaf_node_cell, set_leaf_node_num_cells, Node, NodeType, INVALID_PAGE_NUM,
    LEAF_NODE_MAX_CELLS,
};
use rustql::pager::{Page, PAGE_SIZE};
use rustql::row::{
    bytes_to_char, bytes_to_char_array, char_array_to_bytes, char_array_to_bytes1, char_to_bytes,
    remove_default_chars, Row, ROW_SIZE,
};
use rustql::statement::{parse_i32, Statement, StatementError, StatementType};
use rustql::text::{number_text, row_line};

#[test]
fn integers_are_big_endian() {
    let mut bytes = vec![0u8; 8];
    write_be32(&mut bytes, 2, 0x0102_0304);
    assert_eq!(bytes, vec![0, 0, 1, 2, 3, 4, 0, 0]);
    assert_eq!(read_be32(&bytes, 2), 0x0102_0304);
    assert_eq!(read_be32(&bytes, 3), 0x0203_0400);
    assert_eq!(read_be32_slice(&[0xFF, 0xFF, 0xFF, 0xFE], 0), 0xFFFF_FFFE);
    write_be32(&mut bytes, 4, 0xFFFF_FFFF);
    assert_eq!(bytes, vec![0, 0, 1, 2, 255, 255, 255, 255]);
}

#[test]
fn node_layout() {
    assert_eq!(get_leaf_node_cell_ptr(0), 14);
    assert_eq!(get_leaf_node_cell_ptr(2), 14 + 2 * 1156);
    assert_eq!(Node::get_leaf_node_value_ptr(1), 14 + 1156 + 4);
    assert_eq!(get_internal_node_cell_ptr(0), 14);
    assert_eq!(get_internal_node_cell_ptr(3), 14 + 3 * 8);
    assert_eq!(LEAF_NODE_MAX_CELLS as usize, (PAGE_SIZE - 14) / (ROW_SIZE + 4));
    let mut page = Page::zeroed();
    assert_eq!(page.data.len(), PAGE_SIZE);
    Node::initialize_internal_node(&mut page);
    Node::set_node_root(&mut page, true);
    Node::set_parent_node(&mut page, 0x0A0B_0C0D);
    set_internal_node_num_cells(&mut page, 2);
    set_internal_node_cell(&mut page, 1, 7, 500);
    assert_eq!(&page.data[0..14], &[1, 1, 0x0A, 0x0B, 0x0C, 0x0D, 0, 0, 0, 2, 255, 255, 255, 255]);
    assert_eq!(&page.data[22..30], &[0, 0, 0, 7, 0, 0, 1, 0xF4]);
    assert_eq!(Node::get_node_type(&page), NodeType::INTERNAL);
    assert_eq!(get_internal_node_right_child(&page), INVALID_PAGE_NUM);
    assert_eq!(Node::get_parent_node(&page), 0x0A0B_0C0D);
    Node::initialize_leaf_node(&mut page);
    assert_eq!(&page.data[0..14], &[2, 0, 0x0A, 0x0B, 0x0C, 0x0D, 0, 0, 0, 0, 0, 0, 0, 0]);
    assert_eq!(Node::get_node_type(&page), NodeType::LEAF);
    assert_eq!(NodeType::from_value(1), Some(NodeType::INTERNAL));
    assert_eq!(NodeType::from_value(2), Some(NodeType::LEAF));
    assert_eq!(NodeType::from_value(0), None);
    assert_eq!(NodeType::from_value(3), None);
    assert_eq!(NodeType::LEAF.to_value(), 2);
    assert_eq!(NodeType::INTERNAL.to_value(), 1);
}

#[test]
fn cells_move_to_make_room() {
    let mut page = Page::zeroed();
    Node::initialize_leaf_node(&mut page);
    let record = |b: u8| vec![b; ROW_SIZE];
    insert_leaf_cell(&mut page, 0, 20, &record(2));
    insert_leaf_cell(&mut page, 0, 10, &record(1));
    insert_leaf_cell(&mut page, 1, 15, &record(9));
    assert_eq!(Node::get_leaf_node_num_cells(&page), 3);
    assert_eq!(get_leaf_node_key(&page, 0), 10);
    assert_eq!(get_leaf_node_key(&page, 1), 15);
    assert_eq!(get_leaf_node_key(&page, 2), 20);
    assert_eq!(get_leaf_node_value(&page, 0), record(1));
    assert_eq!(get_leaf_node_value(&page, 1), record(9));
    assert_eq!(get_leaf_node_value(&page, 2), record(2));
    set_leaf_node_cell(&mut page, 1, 16, &record(8));
    set_leaf_node_num_cells(&mut page, 2);
    assert_eq!(get_leaf_node_key(&page, 1), 16);
    assert_eq!(get_leaf_node_key(&page, 2), 20);
    assert_eq!(
        Node::print_leaf_node(&page),
        "leaf (size 2)\n  - 0 : 10\n  - 1 : 16\n"
    );

    let mut node = Page::zeroed();
    Node::initialize_internal_node(&mut node);
    set_internal_node_right_child(&mut node, 9);
    insert_internal_cell(&mut node, 0, 5, 50);
    insert_internal_cell(&mut node, 0, 3, 30);
    insert_internal_cell(&mut node, 1, 4, 40);
    assert_eq!(get_internal_node_num_cells(&node), 3);
    let cells: Vec<(u32, u32)> =
        (0..3).map(|i| (read_internal_child(&node, i), get_internal_node_key(&node, i))).collect();
    assert_eq!(cells, vec![(3, 30), (4, 40), (5, 50)]);
    assert_eq!(Node::find_key_cell_index_internal_node(&node, 30), 0);
    assert_eq!(Node::find_key_cell_index_internal_node(&node, 31), 1);
    assert_eq!(Node::find_key_cell_index_internal_node(&node, 50), 2);
    assert_eq!(Node::find_key_cell_index_internal_node(&node, 51), 3);
    Node::update_internal_node_key(&mut node, 35, 38);
    assert_eq!(get_internal_node_key(&node, 1), 38);
    assert_eq!(read_internal_child(&node, 1), 4);
    Node::update_internal_node_key(&mut node, 60, 70);
    assert_eq!(get_internal_node_key(&node, 2), 50);
}

#[test]
fn a_child_enters_where_its_keys_belong() {
    let mut node = Page::zeroed();
    Node::initialize_internal_node(&mut node);
    set_internal_node_right_child(&mut node, 9);
    insert_internal_cell(&mut node, 0, 3, 30);
    place_child(&mut node, 11, 120, 90);
    assert_eq!(get_internal_node_num_cells(&node), 2);
    assert_eq!(get_internal_node_right_child(&node), 11);
    assert_eq!((read_internal_child(&node, 1), get_internal_node_key(&node, 1)), (9, 90));
    place_child(&mut node, 12, 60, 120);
    assert_eq!(get_internal_node_num_cells(&node), 3);
    assert_eq!(get_internal_node_right_child(&node), 11);
    assert_eq!((read_internal_child(&node, 1), get_internal_node_key(&node, 1)), (12, 60));
    assert_eq!((read_internal_child(&node, 2), get_internal_node_key(&node, 2)), (9, 90));
}

#[test]
fn the_larger_half_stays() {
    assert_eq!(left_split_count(1), 1);
    assert_eq!(left_split_count(2), 2);
    assert_eq!(left_split_count(3), 2);
}

#[test]
fn characters_take_four_bytes() {
    assert_eq!(char_to_bytes('a'), [0x61, 0, 0, 0]);
    assert_eq!(char_to_bytes('\0'), [0, 0, 0, 0]);
    assert_eq!(char_to_bytes('\u{e9}'), [0xC3, 0xA9, 0, 0]);
    assert_eq!(char_to_bytes('\u{20ac}'), [0xE2, 0x82, 0xAC, 0]);
    assert_eq!(char_to_bytes('\u{1f600}'), [0xF0, 0x9F, 0x98, 0x80]);
    assert_eq!(bytes_to_char(0x61, 0, 0, 0), 'a');
    assert_eq!(bytes_to_char(0xC3, 0xA9, 0, 0), '\u{e9}');
    assert_eq!(bytes_to_char(0xE2, 0x82, 0xAC, 0), '\u{20ac}');
    assert_eq!(bytes_to_char(0xF0, 0x9F, 0x98, 0x80), '\u{1f600}');
    assert_eq!(bytes_to_char(0x61, 0x62, 0, 0), 'a');
    assert_eq!(bytes_to_char(0xFF, 0, 0, 0), '\0');
    assert_eq!(bytes_to_char(0xC0, 0x80, 0, 0), '\0');
    assert_eq!(bytes_to_char(0xED, 0xA0, 0x80, 0), '\0');
    assert_eq!(bytes_to_char(0xF4, 0x90, 0x80, 0x80), '\0');
    assert_eq!(char_array_to_bytes(&['a', '\u{e9}']), vec![0x61, 0, 0, 0, 0xC3, 0xA9, 0, 0]);
    assert_eq!(char_array_to_bytes1(&['a', '\u{e9}']), vec![0x61, 0, 0, 0, 0xC3, 0xA9, 0, 0]);
    assert_eq!(bytes_to_char_array(&[0x61, 0, 0, 0, 0xC3, 0xA9, 0, 0]), vec!['a', '\u{e9}']);
    assert_eq!(remove_default_chars(&['\0', 'a', '\0', 'b', '\0']), vec!['a', 'b']);
}

#[test]
fn rows_are_records() {
    let mut username = ['\0'; 32];
    let mut email = ['\0'; 255];
    username[0] = 'x';
    email[0] = 'y';
    email[254] = 'z';
    let row = Row { id: 0x0102_0304, username, email };
    let record = row.serialize_row();
    assert_eq!(record.len(), ROW_SIZE);
    assert_eq!(&record[0..4], &[1, 2, 3, 4]);
    assert_eq!(&record[4..12], &[0x78, 0, 0, 0, 0, 0, 0, 0]);
    assert_eq!(&record[132..136], &[0x79, 0, 0, 0]);
    assert_eq!(&record[1148..1152], &[0x7A, 0, 0, 0]);
    let back = Row::deserialize_row(&record);
    assert_eq!(back.id, row.id);
    assert_eq!(back.username, row.username);
    assert_eq!(back.email, row.email);
    assert_eq!(Row::print_row(&row), "16909060,['x'],['y', 'z']\n");
}

#[test]
fn numbers_in_text() {
    assert_eq!(number_text(0), "0");
    assert_eq!(number_text(7), "7");
    assert_eq!(number_text(10), "10");
    assert_eq!(number_text(4294967295), "4294967295");
    assert_eq!(Node::indent(0), "");
    assert_eq!(Node::indent(3), "      ");
    let chars = |s: &str| s.chars().collect::<Vec<char>>();
    assert_eq!(parse_i32(&chars("0")), Some(0));
    assert_eq!(parse_i32(&chars("-0")), Some(0));
    assert_eq!(parse_i32(&chars("+17")), Some(17));
    assert_eq!(parse_i32(&chars("2147483647")), Some(2147483647));
    assert_eq!(parse_i32(&chars("2147483648")), None);
    assert_eq!(parse_i32(&chars("-2147483648")), Some(-2147483648));
    assert_eq!(parse_i32(&chars("-2147483649")), None);
    assert_eq!(parse_i32(&chars("99999999999999999999999")), None);
    assert_eq!(parse_i32(&chars("")), None);
    assert_eq!(parse_i32(&chars("-")), None);
    assert_eq!(parse_i32(&chars("12a")), None);
    assert_eq!(parse_i32(&chars("1 2")), None);
}

#[test]
fn statements_are_read() {
    let insert = Statement::prepare_statement("insert 12 ann ann@example.org too many").unwrap();
    assert_eq!(insert.statement_type, StatementType::INSERT);
    assert_eq!(insert.row_to_insert.id, 12);
    assert_eq!(insert.row_to_insert.username[0..4], ['a', 'n', 'n', '\0']);
    assert_eq!(insert.row_to_insert.email[0..3], ['a', 'n', 'n']);
    assert_eq!(insert.row_to_insert.email[15], '\0');
    let select = Statement::prepare_statement("select").unwrap();
    assert_eq!(select.statement_type, StatementType::SELECT);
    assert_eq!(select.row_to_insert.id, 0);
    assert_eq!(select.row_to_insert.username, ['a'; 32]);
    assert_eq!(select.row_to_insert.email, ['a'; 255]);
    let update = Statement::prepare_statement("update 1 a b").unwrap();
    assert_eq!(update.statement_type, StatementType::UPDATE);
    let error = |s: &str| Statement::prepare_statement(s).err();
    assert_eq!(error("delete 1"), Some(StatementError::Unrecognized));
    assert_eq!(error(""), Some(StatementError::Unrecognized));
    assert_eq!(error("Insert 1 a b"), Some(StatementError::Unrecognized));
    assert_eq!(error("insert"), Some(StatementError::Syntax));
    assert_eq!(error("insert 1 a"), Some(StatementError::Syntax));
    assert_eq!(error("insert  1 a b"), Some(StatementError::Syntax));
    assert_eq!(error("insert x a b"), Some(StatementError::Syntax));
    assert_eq!(error("insert 4294967296 a b"), Some(StatementError::Syntax));
    assert_eq!(error("insert -5 a b"), Some(StatementError::NegativeId));
    let long = "\u{e9}".repeat(17);
    assert_eq!(
        error(format!("insert x {} b", long).as_str()),
        Some(StatementError::StringTooLong)
    );
    assert!(Statement::prepare_statement(format!("insert 1 {} b", "\u{e9}".repeat(16)).as_str())
        .is_ok());
    assert_eq!(StatementType::from_str("select"), Ok(StatementType::SELECT));
    assert_eq!(StatementType::from_str("selec"), Err(()));
    assert_eq!(StatementError::Syntax.message(), "Syntax error. Could not parse statement.");
    assert_eq!(StatementError::Unrecognized.message(), "Unrecognized statement.");
}

#[test]
fn lines_are_run() {
    let mut table = rustql::table::Table::db_open(Vec::new()).unwrap();
    assert_eq!(rustql::run("", &mut table), "");
    assert_eq!(rustql::run("   \n", &mut table), "");
    assert_eq!(rustql::run("  insert 3 c d \n", &mut table), "Executed.\n");
    assert_eq!(rustql::run("\tselect\r\n", &mut table), "3,['c'],['d']\n");
    assert_eq!(rustql::run("update", &mut table), "Update statement will be executed\n");
    assert_eq!(rustql::run("frobnicate", &mut table), "Unrecognized statement.\n");
    assert_eq!(rustql::run("insert 1", &mut table), "Syntax error. Could not parse statement.\n");
    assert_eq!(rustql::run(".btree", &mut table), "Tree:\n- leaf (size 1)\n  - 3\n");
    assert_eq!(rustql::run(".other", &mut table), "Unrecognised command '.other'\n");
    assert_eq!(rustql::run("insert 4 it's \"q\"", &mut table), "Executed.\n");
    assert_eq!(
        rustql::run("select", &mut table),
        "3,['c'],['d']\n4,['i', 't', '\\'', 's'],['\"', 'q', '\"']\n"
    );
    assert_eq!(rustql::error::DbError::DuplicateKey.message(), "Error:Duplicate key");
    assert_eq!(rustql::error::DbError::TableFull.message(), "Table is full");
}

#[test]
fn line_of_a_row() {
    assert_eq!(row_line(7, "['a']", "['b', 'c']"), "7,['a'],['b', 'c']\n");
    assert_eq!(row_line(0, "[]", "[]"), "0,[],[]\n");
    assert_eq!(row_line(4294967295, "", "x"), "4294967295,,x\n");
}
