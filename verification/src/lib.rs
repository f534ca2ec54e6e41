//! A single-file, page-backed table store: fixed-size pages hold a B-tree
//! whose leaves keep fixed-width records keyed by a 32-bit id.

pub mod btree;
pub mod codec;
pub mod cursor;
pub mod error;
pub mod grow;
pub mod node;
pub mod pager;
pub mod row;
pub mod scan;
pub mod split;
pub mod statement;
pub mod table;
pub mod text;
pub mod tree;
pub mod validate;

use crate::btree::{leaf_has_room, room_to_split};
use crate::cursor::Cursor;
use crate::error::DbError;
use crate::node::Node;
use crate::row::Row;
use crate::scan::is_scan;
use crate::statement::{spec_prepare, Parsed, Statement, StatementType};
use crate::table::{is_image, Table};
use crate::tree::{lemma_same_level_apart, root_page};
use vstd::prelude::*;
use vstd::string::{StrSliceExecFns, StringExecFns};

verus! {

/// Whether a row with key `key` can be inserted: the table is below its
/// limit of rows and does not hold the key, and the leaf where the key
/// belongs has room or can be split.
pub open spec fn can_insert(t: &Table, key: u32) -> bool {
    &&& t.num_rows < t.limits.max_rows
    &&& !t@.contains_key(key)
    &&& exists|c: Cursor| #[trigger]
        c.positioned(t, key) && (leaf_has_room(t, c) || room_to_split(t, c.page_num))
}

/// The error that an insert of a row with key `key` ends in where it
/// cannot be done: the table is full where its limit of rows is reached or
/// a split lacks pages, and else the key is a duplicate.
pub open spec fn insert_error(t: &Table, key: u32) -> DbError {
    if t.num_rows >= t.limits.max_rows {
        DbError::TableFull
    } else if t@.contains_key(key) {
        DbError::DuplicateKey
    } else {
        DbError::TableFull
    }
}

/// What an insert does to a table: it adds the row if it can, and else it
/// leaves the table as it is and says why.
pub open spec fn inserted(old_t: &Table, new_t: &Table, row: Row, r: Result<(), DbError>) -> bool {
    &&& new_t.wf()
    &&& match r {
        Ok(_) => {
            &&& can_insert(old_t, row.id)
            &&& new_t@ == old_t@.insert(row.id, row.encode())
            &&& new_t.num_rows == old_t.num_rows + 1
            &&& new_t.limits == old_t.limits
            &&& new_t.root_page_num == old_t.root_page_num
        },
        Err(e) => {
            &&& !can_insert(old_t, row.id)
            &&& e == insert_error(old_t, row.id)
            &&& new_t.same_state(old_t)
        },
    }
}

/// Two cursors that stand where the same key belongs stand in the same
/// leaf.
pub proof fn lemma_positioned_unique(t: &Table, key: u32, a: Cursor, b: Cursor)
    requires
        t.wf(),
        a.positioned(t, key),
        b.positioned(t, key),
    ensures
        a.page_num == b.page_num,
{
    if a.page_num != b.page_num {
        lemma_same_level_apart(
            t.pager@,
            t.pager.num_pages,
            t.limits,
            t.shape@,
            a.page_num,
            b.page_num,
        );
    }
}

/// Inserts the row of a statement into a table.
pub fn execute_insert(statement: &Statement, table: &mut Table) -> (r: Result<(), DbError>)
    requires
        old(table).wf(),
    ensures
        inserted(old(table), final(table), statement.row_to_insert, r),
{
    let ghost t0 = *table;
    let key = statement.row_to_insert.id;
    if table.num_rows >= table.limits.max_rows {
        return Err(DbError::TableFull);
    }
    let cursor = Cursor::find_key(table, key);
    let ghost t1 = *table;
    proof {
        assert(cursor.positioned(&t0, key));
        assert(t1@ == t0@);
    }
    let r = Node::leaf_node_insert(table, cursor, key, &statement.row_to_insert);
    proof {
        assert(leaf_has_room(&t1, cursor) == leaf_has_room(&t0, cursor));
        assert(room_to_split(&t1, cursor.page_num) == room_to_split(&t0, cursor.page_num));
        if r is Err {
            assert forall|c: Cursor| #[trigger]
                c.positioned(&t0, key) && !t0@.contains_key(key) implies !(leaf_has_room(&t0, c)
                || room_to_split(&t0, c.page_num)) by {
                lemma_positioned_unique(&t0, key, c, cursor);
            }
        }
    }
    r
}

/// The rows are what the records of the pairs stand for, one for one.
pub open spec fn decoded(rows: Seq<Row>, pairs: Seq<(u32, Vec<u8>)>) -> bool {
    &&& rows.len() == pairs.len()
    &&& forall|i: int| 0 <= i < rows.len() ==> (#[trigger] rows[i]).decodes(pairs[i].1@)
}

/// The rows are what a walk over the table gives: all rows in the order of
/// their keys.
pub open spec fn is_select(t: &Table, rows: Seq<Row>) -> bool {
    exists|pairs: Seq<(u32, Vec<u8>)>| is_scan(t, pairs) && #[trigger] decoded(rows, pairs)
}

/// All rows of a table, in the order of their keys.
pub fn execute_select(table: &mut Table) -> (rows: Vec<Row>)
    requires
        old(table).wf(),
    ensures
        final(table).wf(),
        final(table).same_state(old(table)),
        is_select(old(table), rows@),
{
    let pairs = table.scan();
    let mut rows: Vec<Row> = Vec::new();
    let mut i: usize = 0;
    while i < pairs.len()
        invariant
            i <= pairs@.len(),
            rows@.len() == i,
            forall|j: int| 0 <= j < pairs@.len() ==> (#[trigger] pairs@[j]).1@.len()
                == crate::row::ROW_SIZE,
            forall|j: int| 0 <= j < i ==> (#[trigger] rows@[j]).decodes(pairs@[j].1@),
        decreases pairs@.len() - i,
    {
        let record = &pairs[i].1;
        let row = Row::deserialize_row(record.as_slice());
        proof {
            assert(record@.subrange(0, crate::row::ROW_SIZE as int) =~= record@);
        }
        rows.push(row);
        i += 1;
    }
    proof {
        assert(decoded(rows@, pairs@));
    }
    rows
}

/// A row that was inserted comes out of the next walk over the table as it
/// went in: some row that the walk gives has its id and its two texts.
pub proof fn lemma_row_comes_back(old_t: &Table, new_t: &Table, row: Row, rows: Seq<Row>)
    requires
        old_t.wf(),
        inserted(old_t, new_t, row, Ok(())),
        is_select(new_t, rows),
    ensures
        exists|i: int|
            0 <= i < rows.len() && (#[trigger] rows[i]).id == row.id && rows[i].username@
                == row.username@ && rows[i].email@ == row.email@,
{
    let pairs = choose|pairs: Seq<(u32, Vec<u8>)>| is_scan(new_t, pairs) && #[trigger] decoded(
        rows,
        pairs,
    );
    assert(new_t@.contains_key(row.id));
    assert(new_t@.dom().contains(row.id));
    assert(!(new_t@.dom() =~= Set::<u32>::empty()));
    let i = choose|i: int| 0 <= i < pairs.len() && (#[trigger] pairs[i]).0 == row.id;
    assert(rows[i].decodes(pairs[i].1@));
    row.lemma_round_trip(rows[i]);
}

/// Where a table holds a row with an id, a second insert with that id is
/// refused as a duplicate, unless the table has reached its limit of rows,
/// and the table stays as it is: a walk over it gives one row with that id
/// and no more.
pub proof fn lemma_same_id_twice(
    t: &Table,
    after: &Table,
    row: Row,
    r: Result<(), DbError>,
    pairs: Seq<(u32, Vec<u8>)>,
)
    requires
        t.wf(),
        t@.contains_key(row.id),
        t.num_rows < t.limits.max_rows,
        inserted(t, after, row, r),
        is_scan(after, pairs),
    ensures
        r == Err::<(), DbError>(DbError::DuplicateKey),
        after@ == t@,
        after.num_rows == t.num_rows,
        exists|i: int|
            0 <= i < pairs.len() && (#[trigger] pairs[i]).0 == row.id && forall|j: int|
                0 <= j < pairs.len() && j != i ==> (#[trigger] pairs[j]).0 != row.id,
{
    assert(after@.dom().contains(row.id));
    assert(!(after@.dom() =~= Set::<u32>::empty()));
    let i = choose|i: int| 0 <= i < pairs.len() && (#[trigger] pairs[i]).0 == row.id;
    assert forall|j: int| 0 <= j < pairs.len() && j != i implies (#[trigger] pairs[j]).0
        != row.id by {
        if j < i {
            assert(pairs[j].0 < pairs[i].0);
        } else {
            assert(pairs[i].0 < pairs[j].0);
        }
    }
}

/// A table that has reached its limit of rows takes no more: an insert is
/// refused because the table is full, and the count of rows and the rows
/// stay as they are.
pub proof fn lemma_full_table(t: &Table, after: &Table, row: Row, r: Result<(), DbError>)
    requires
        t.num_rows >= t.limits.max_rows,
        inserted(t, after, row, r),
    ensures
        r == Err::<(), DbError>(DbError::TableFull),
        after.num_rows == t.num_rows,
        after@ == t@,
{
}

/// The count of rows stays the number of rows: where it is that before an
/// insert, as it is in a table that was opened, it is that afterwards.
pub proof fn lemma_rows_counted(t: &Table, after: &Table, row: Row, r: Result<(), DbError>)
    requires
        t.wf(),
        t.num_rows == t@.dom().len(),
        inserted(t, after, row, r),
    ensures
        after@.dom().finite(),
        after.num_rows == after@.dom().len(),
{
    crate::scan::lemma_row_bound(t);
    if r is Ok {
        assert(after@.dom() =~= t@.dom().insert(row.id));
    } else {
        crate::scan::lemma_row_bound(after);
    }
}

/// Characters of code 0 alone leave nothing when those of code 0 are
/// taken out.
pub proof fn lemma_only_default(chars: Seq<char>)
    requires
        forall|i: int| 0 <= i < chars.len() ==> chars[i] == '\0',
    ensures
        crate::row::without_default(chars) == Seq::<char>::empty(),
    decreases chars.len(),
{
    if chars.len() > 0 {
        lemma_only_default(chars.drop_last());
    }
}

/// A select on a table that was opened over an empty file, before any row
/// was inserted, gives one row: what stands in the place of the first cell
/// of the empty root, a record of zero bytes. Its id is 0, and its two
/// texts hold nothing once the characters of code 0 are taken out.
pub proof fn lemma_new_table_select(t: &Table, rows: Seq<Row>)
    requires
        Table::opened(Seq::<u8>::empty(), t.limits, Ok::<Table, DbError>(*t)),
        is_select(t, rows),
    ensures
        rows.len() == 1,
        rows[0].id == 0,
        crate::row::without_default(rows[0].username@) == Seq::<char>::empty(),
        crate::row::without_default(rows[0].email@) == Seq::<char>::empty(),
{
    let pairs = choose|pairs: Seq<(u32, Vec<u8>)>| is_scan(t, pairs) && #[trigger] decoded(rows, pairs);
    let page = t.pager@[0];
    let record = pairs[0].1@;
    assert(t@.dom() =~= Set::<u32>::empty());
    assert(record == crate::node::leaf_value(page, 0));
    assert forall|i: int| 0 <= i < record.len() implies record[i] == 0u8 by {
        assert(crate::node::body(page)[i + crate::node::LEAF_NODE_KEY_SIZE] == 0u8);
    }
    assert(rows[0].decodes(record));
    assert(rows[0].id == 0) by {
        reveal(crate::codec::be32);
    }
    let name = record.subrange(crate::row::USERNAME_OFFSET as int, crate::row::EMAIL_OFFSET as int);
    let mail = record.subrange(crate::row::EMAIL_OFFSET as int, crate::row::ROW_SIZE as int);
    assert forall|i: int| 0 <= i < rows[0].username@.len() implies rows[0].username@[i] == '\0' by {
        assert(name.subrange(4 * i, 4 * i + 4)[0] == 0u8);
    }
    assert forall|i: int| 0 <= i < rows[0].email@.len() implies rows[0].email@[i] == '\0' by {
        assert(mail.subrange(4 * i, 4 * i + 4)[0] == 0u8);
    }
    lemma_only_default(rows[0].username@);
    lemma_only_default(rows[0].email@);
}

/// Closes a table and hands out the image of its file.
pub fn exit_process(table: Table) -> (file: Vec<u8>)
    requires
        table.pager.wf(),
    ensures
        is_image(file@, table.pager@, table.pager.num_pages),
        crate::table::kept_beyond(table.pager.file@, file@),
{
    table.db_close()
}

/// The lines in which rows are shown, one after the other.
pub open spec fn rows_text(rows: Seq<Row>) -> Seq<char>
    decreases rows.len(),
{
    if rows.len() == 0 {
        Seq::<char>::empty()
    } else {
        rows_text(rows.drop_last()) + rows.last().spec_print_row()
    }
}

/// The line in which the outcome of an insert is reported.
pub open spec fn insert_text(r: Result<(), DbError>) -> Seq<char> {
    match r {
        Ok(_) => "Executed.\n"@,
        Err(e) => e.spec_message() + "\n"@,
    }
}

/// What running a statement does to a table, and the text that it gives.
/// A line that is no statement gives the text of its error. An insert adds
/// its row if it can and reports the outcome. A select shows all rows in the
/// order of their keys, and an update is only announced.
pub open spec fn statement_run(
    old_t: &Table,
    new_t: &Table,
    parsed: Parsed,
    text: Seq<char>,
) -> bool {
    &&& new_t.wf()
    &&& match parsed {
        Parsed::Error { error } => new_t.same_state(old_t) && text == error.spec_message() + "\n"@,
        Parsed::Insert { id, username, email } => exists|st: Statement, r: Result<(), DbError>|
            st.is_parsed(parsed) && #[trigger] inserted(old_t, new_t, st.row_to_insert, r) && text
                == insert_text(r),
        Parsed::Other { statement_type } => new_t.same_state(old_t) && match statement_type {
            StatementType::SELECT => exists|rows: Seq<Row>| #[trigger]
                is_select(old_t, rows) && text == rows_text(rows),
            _ => text == "Update statement will be executed\n"@,
        },
    }
}

/// Runs a statement, given as a line of text, on a table, and gives the
/// text to show.
pub fn execute_statement(command: &str, table: &mut Table) -> (text: String)
    requires
        old(table).wf(),
    ensures
        statement_run(old(table), final(table), spec_prepare(command@), text@),
{
    let ghost t0 = *table;
    match Statement::prepare_statement(command) {
        Ok(statement) => match statement.statement_type {
            StatementType::INSERT => {
                let r = execute_insert(&statement, table);
                let text = match r {
                    Ok(_) => String::from_str("Executed.\n"),
                    Err(e) => {
                        let mut text = e.message();
                        text.append("\n");
                        text
                    },
                };
                proof {
                    assert(statement.is_parsed(spec_prepare(command@)) && inserted(
                        &t0,
                        table,
                        statement.row_to_insert,
                        r,
                    ) && text@ == insert_text(r));
                }
                text
            },
            StatementType::UPDATE => String::from_str("Update statement will be executed\n"),
            StatementType::SELECT => {
                let rows = execute_select(table);
                let mut text = String::new();
                let mut i: usize = 0;
                while i < rows.len()
                    invariant
                        i <= rows@.len(),
                        text@ == rows_text(rows@.subrange(0, i as int)),
                    decreases rows@.len() - i,
                {
                    proof {
                        let t = rows@.subrange(0, i + 1);
                        assert(t.drop_last() =~= rows@.subrange(0, i as int));
                        assert(t.last() == rows@[i as int]);
                    }
                    text.append(Row::print_row(&rows[i]).as_str());
                    i += 1;
                }
                proof {
                    assert(rows@.subrange(0, rows@.len() as int) =~= rows@);
                    assert(is_select(&t0, rows@) && text@ == rows_text(rows@));
                }
                text
            },
        },
        Err(error) => {
            let mut text = error.message();
            text.append("\n");
            text
        },
    }
}

/// Whether a character is white space.
pub open spec fn is_white_space(c: char) -> bool {
    let v = c as u32;
    ||| 0x09 <= v <= 0x0D
    ||| v == 0x20
    ||| v == 0x85
    ||| v == 0xA0
    ||| v == 0x1680
    ||| 0x2000 <= v <= 0x200A
    ||| v == 0x2028
    ||| v == 0x2029
    ||| v == 0x202F
    ||| v == 0x205F
    ||| v == 0x3000
}

/// The place of the first character from `from` on that is no white space,
/// and the length of the text where there is none.
pub open spec fn first_black(s: Seq<char>, from: int) -> int
    decreases s.len() - from,
{
    if from >= s.len() {
        s.len() as int
    } else if !is_white_space(s[from]) {
        from
    } else {
        first_black(s, from + 1)
    }
}

/// The place behind the last character before `to` that is no white space,
/// and `from` where there is none behind `from`.
pub open spec fn last_black(s: Seq<char>, from: int, to: int) -> int
    decreases to - from,
{
    if to <= from {
        from
    } else if !is_white_space(s[to - 1]) {
        to
    } else {
        last_black(s, from, to - 1)
    }
}

/// The text without the white space at its two ends.
pub open spec fn trimmed(s: Seq<char>) -> Seq<char> {
    s.subrange(first_black(s, 0), last_black(s, first_black(s, 0), s.len() as int))
}

/// Whether a character is white space.
pub fn white_space(c: char) -> (b: bool)
    ensures
        b == is_white_space(c),
{
    let v = c as u32;
    (0x09 <= v && v <= 0x0D) || v == 0x20 || v == 0x85 || v == 0xA0 || v == 0x1680 || (0x2000 <= v
        && v <= 0x200A) || v == 0x2028 || v == 0x2029 || v == 0x202F || v == 0x205F || v == 0x3000
}

/// The text without the white space at its two ends.
pub fn trim_text(s: &str) -> (r: &str)
    ensures
        r@ == trimmed(s@),
{
    let len = s.unicode_len();
    let mut from: usize = 0;
    while from < len && white_space(s.get_char(from))
        invariant
            len == s@.len(),
            from <= len,
            first_black(s@, 0) == first_black(s@, from as int),
        decreases len - from,
    {
        from += 1;
    }
    let mut to: usize = len;
    while to > from && white_space(s.get_char(to - 1))
        invariant
            len == s@.len(),
            from <= to <= len,
            last_black(s@, from as int, len as int) == last_black(s@, from as int, to as int),
        decreases to - from,
    {
        to -= 1;
    }
    s.substring_char(from, to)
}

/// What running a command that starts with a dot gives: the text that
/// shows the tree for `.btree`, and for any other a line that says that the
/// command is not known.
pub open spec fn meta_text(t: &Table, command: Seq<char>) -> Seq<char> {
    if command == ".btree"@ {
        "Tree:\n"@ + crate::text::node_text(t.pager@, t.shape@, root_page(), 0)
    } else {
        "Unrecognised command '"@ + command + "'\n"@
    }
}

/// Runs a command that starts with a dot.
pub fn execute_meta_command(command: &str, table: &mut Table) -> (text: String)
    requires
        old(table).wf(),
    ensures
        final(table).wf(),
        final(table).same_state(old(table)),
        text@ == meta_text(old(table), command@),
{
    if String::from_str(command) == String::from_str(".btree") {
        proof {
            crate::tree::lemma_tree_basics(
                table.pager@,
                table.pager.num_pages,
                table.limits,
                table.shape@,
            );
        }
        let mut text = String::from_str("Tree:\n");
        let root = table.root_page_num;
        text.append(Node::print_tree(table, root, 0).as_str());
        text
    } else {
        let mut text = String::from_str("Unrecognised command '");
        text.append(command);
        text.append("'\n");
        text
    }
}

/// What running a line of text does to a table, and the text that it
/// gives. White space at the two ends of the line does not count. An empty
/// line does nothing, a line that starts with a dot is a command about the
/// table, and any other line is a statement.
pub open spec fn ran(old_t: &Table, new_t: &Table, command: Seq<char>, text: Seq<char>) -> bool {
    let line = trimmed(command);
    if line.len() == 0 {
        new_t.wf() && new_t.same_state(old_t) && text == Seq::<char>::empty()
    } else if line[0] == '.' {
        new_t.wf() && new_t.same_state(old_t) && text == meta_text(old_t, line)
    } else {
        statement_run(old_t, new_t, spec_prepare(line), text)
    }
}

/// Runs a line of text on a table and gives the text to show.
pub fn run(command: &str, table: &mut Table) -> (text: String)
    requires
        old(table).wf(),
    ensures
        ran(old(table), final(table), command@, text@),
{
    let command = trim_text(command);
    if command.unicode_len() == 0 {
        return String::new();
    }
    if command.get_char(0) == '.' {
        execute_meta_command(command, table)
    } else {
        execute_statement(command, table)
    }
}

} // verus!
