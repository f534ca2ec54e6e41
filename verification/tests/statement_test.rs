use rustql::row::{COLUMN_EMAIL_SIZE, COLUMN_USERNAME_SIZE};
use rustql::table::{Table, ROWS_PER_PAGE};
use rustql::tree::Limits;

fn open_empty() -> Table {
    Table::db_open(Vec::new()).unwrap()
}

#[test]
fn it_insert_and_select() {
    let mut table: Table = open_empty();
    let result = rustql::run("insert 1 pravin email", &mut table);
    assert_eq!(result, "Executed.\n");
    let result = rustql::run("select", &mut table);
    assert_eq!(
        result,
        "1,['p', 'r', 'a', 'v', 'i', 'n'],['e', 'm', 'a', 'i', 'l']\n"
    );
    let file = rustql::exit_process(table);
    let mut table: Table = Table::db_open(file).unwrap();
    let result = rustql::run("select", &mut table);
    assert_eq!(
        result,
        "1,['p', 'r', 'a', 'v', 'i', 'n'],['e', 'm', 'a', 'i', 'l']\n"
    );
}

#[test]
fn insert_more_than_1_page() {
    let mut table: Table = open_empty();
    for i in 1..=ROWS_PER_PAGE + 1 {
        let result = rustql::run(
            format!("insert {} pravin{} email{}", i, i, i).as_str(),
            &mut table,
        );
        assert_eq!(result, "Executed.\n");
    }
    let result = rustql::run("select", &mut table);
    assert_eq!(result, get_expected_result(ROWS_PER_PAGE + 1));
    let file = rustql::exit_process(table);
    let mut table: Table = Table::db_open(file).unwrap();
    let result = rustql::run("select", &mut table);
    assert_eq!(result, get_expected_result(ROWS_PER_PAGE + 1));
}

fn get_expected_result(count: u32) -> String {
    let mut result = String::new();
    for i in 1..=count {
        let name = format!("pravin{}", i);
        let email = format!("email{}", i);
        let name_list = name.chars().collect::<Vec<char>>();
        let email_list = email.chars().collect::<Vec<char>>();
        result.push_str(&format!("{},{:?},{:?}\n", i, name_list, email_list));
    }
    result
}

#[test]
fn test_table_full() {
    let max_rows: u32 = 10;
    let limits = Limits { leaf_max_cells: 3, internal_max_cells: 3, max_rows };
    let mut table: Table = Table::db_open_with_limits(Vec::new(), limits).unwrap();
    for i in 1..=max_rows + 1 {
        let result = rustql::run(
            format!("insert {} pravin{} email{}", i, i, i).as_str(),
            &mut table,
        );
        if i <= max_rows {
            assert_eq!(result, "Executed.\n")
        } else {
            assert_eq!(result, "Table is full\n")
        }
    }
    assert_eq!(table.num_rows, max_rows);
}

#[test]
fn max_string_length_insert() {
    let mut table: Table = open_empty();
    let username: String = ['a'; COLUMN_USERNAME_SIZE].iter().collect();
    let email: String = ['b'; COLUMN_EMAIL_SIZE].iter().collect();
    let result = rustql::run(
        format!("insert 1 {} {}", username, email).as_str(),
        &mut table,
    );
    assert_eq!(result, "Executed.\n");
    let result = rustql::run("select", &mut table);
    let printed_username = format!("[{}]", repeat_character("a", COLUMN_USERNAME_SIZE));
    let printed_email = format!("[{}]", repeat_character("b", COLUMN_EMAIL_SIZE));
    let expected_result = format!("1,{},{}\n", printed_username, printed_email);
    assert_eq!(result, expected_result);
}

#[test]
fn test_too_long_string() {
    let mut table: Table = open_empty();
    let username: String = ['a'; COLUMN_USERNAME_SIZE + 1].iter().collect();
    let email: String = ['b'; 10].iter().collect();
    let result = rustql::run(
        format!("insert 1 {} {}", username, email).as_str(),
        &mut table,
    );
    assert_eq!(result, "String is too long.\n");
}

#[test]
fn id_must_be_positive() {
    let mut table: Table = open_empty();
    let result = rustql::run("insert -1 pravin email", &mut table);
    assert_eq!(result, "Id must be positive.\n");
    let result = rustql::run("select", &mut table);
    assert_eq!(result, "0,[],[]\n");
}

fn repeat_character(character: &str, count: usize) -> String {
    let mut result = String::new();
    for _ in 0..count {
        result.push('\'');
        result.push_str(character);
        result.push('\'');
        result.push(',');
        result.push(' ');
    }
    result.pop();
    result.pop();
    result
}

#[test]
fn print_tree() {
    let mut table: Table = open_empty();
    let ids: Vec<u32> = (1..=9).collect();
    for id in ids {
        let result = rustql::run(
            format!("insert {} pravin{} email{}", id, id, id).as_str(),
            &mut table,
        );
        assert_eq!(result, "Executed.\n");
    }
    let result = rustql::run(".btree", &mut table);
    assert_eq!(
        result,
        "Tree:\n- internal (size 3)\n  - leaf (size 2)\n    - 1\n    - 2\n  - key 2\n  - leaf (size 2)\n    - 3\n    - 4\n  - key 4\n  - leaf (size 2)\n    - 5\n    - 6\n  - key 6\n  - leaf (size 3)\n    - 7\n    - 8\n    - 9\n"
    );
    let result = rustql::run(
        format!("insert {} pravin{} email{}", 17, 17, 17).as_str(),
        &mut table,
    );
    assert_eq!(result, "Executed.\n");
}

#[test]
fn test_duplicate_keys() {
    let mut table: Table = open_empty();
    let result = rustql::run("insert 1 pravin1 email1", &mut table);
    assert_eq!(result, "Executed.\n");
    let result = rustql::run("insert 1 pravin2 email2", &mut table);
    assert_eq!(result, "Error:Duplicate key\n")
}
