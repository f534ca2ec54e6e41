//! The texts in which rows, nodes and errors are shown.

use crate::error::DbError;
use crate::node::{
    child_at, get_internal_node_child_page_num, get_internal_node_key,
    get_internal_node_num_cells, get_internal_node_right_child, get_leaf_node_key,
    get_leaf_node_num_cells, header, internal_key, leaf_key, Node, NodeType, LEAF_NODE_MAX_CELLS,
};
use crate::pager::Page;
use crate::row::{remove_default_chars, without_default, Row};
use crate::table::Table;
use crate::tree::{child_ok, lemma_tree_basics, lemma_tree_node, node_ok, Shape};
use vstd::prelude::*;
use vstd::string::StringExecFns;

verus! {

/// The character for a decimal digit.
pub open spec fn digit_char(d: int) -> char {
    if d == 0 {
        '0'
    } else if d == 1 {
        '1'
    } else if d == 2 {
        '2'
    } else if d == 3 {
        '3'
    } else if d == 4 {
        '4'
    } else if d == 5 {
        '5'
    } else if d == 6 {
        '6'
    } else if d == 7 {
        '7'
    } else if d == 8 {
        '8'
    } else {
        '9'
    }
}

/// The decimal digits of a number.
pub open spec fn decimal(n: nat) -> Seq<char>
    decreases n,
{
    if n < 10 {
        seq![digit_char(n as int)]
    } else {
        decimal(n / 10).push(digit_char((n % 10) as int))
    }
}

/// The text of one decimal digit.
fn digit_text(d: u32) -> (text: &'static str)
    requires
        d < 10,
    ensures
        text@ == seq![digit_char(d as int)],
{
    proof {
        reveal_strlit("0");
        reveal_strlit("1");
        reveal_strlit("2");
        reveal_strlit("3");
        reveal_strlit("4");
        reveal_strlit("5");
        reveal_strlit("6");
        reveal_strlit("7");
        reveal_strlit("8");
        reveal_strlit("9");
    }
    let text = if d == 0 {
        "0"
    } else if d == 1 {
        "1"
    } else if d == 2 {
        "2"
    } else if d == 3 {
        "3"
    } else if d == 4 {
        "4"
    } else if d == 5 {
        "5"
    } else if d == 6 {
        "6"
    } else if d == 7 {
        "7"
    } else if d == 8 {
        "8"
    } else {
        "9"
    };
    assert(text@ =~= seq![digit_char(d as int)]);
    text
}

/// The decimal digits of a number, as a text.
pub fn number_text(v: u32) -> (text: String)
    ensures
        text@ == decimal(v as nat),
    decreases v,
{
    if v < 10 {
        String::from_str(digit_text(v))
    } else {
        let mut text = number_text(v / 10);
        text.append(digit_text(v % 10));
        assert(text@ =~= decimal((v / 10) as nat).push(digit_char((v % 10) as int)));
        text
    }
}

/// The text in which the standard library shows a list of characters for
/// debugging: brackets around the characters, each between single quotes
/// and escaped where it cannot be shown as it is.
pub uninterp spec fn debug_text(chars: Seq<char>) -> Seq<char>;

/// The text in which the standard library shows a list of characters for
/// debugging: the formatting of a `Vec<char>` with `{:?}`, which goes by
/// the implementations of `Debug` for `Vec` and for `char`. Nothing is
/// claimed of the text but that the characters alone decide it, and that
/// is not proved.
#[verifier::external_body]
fn format_chars(chars: &Vec<char>) -> (text: String)
    ensures
        text@ == debug_text(chars@),
{
    format!("{:?}", chars)
}

/// The line for a row, of its id and the texts that show its two fields:
/// the id in decimal, a comma, the first text, a comma, the second text, and
/// the end of the line.
pub fn row_line(id: u32, username_text: &str, email_text: &str) -> (text: String)
    ensures
        text@ == decimal(id as nat) + ","@ + username_text@ + ","@ + email_text@ + "\n"@,
{
    let mut text = number_text(id);
    text.append(",");
    text.append(username_text);
    text.append(",");
    text.append(email_text);
    text.append("\n");
    text
}

impl Row {
    /// The line in which a row is shown: the id, then the two texts without
    /// what fills up their fields, each as a list of characters.
    pub open spec fn spec_print_row(self) -> Seq<char> {
        decimal(self.id as nat) + ","@ + debug_text(without_default(self.username@)) + ","@
            + debug_text(without_default(self.email@)) + "\n"@
    }

    /// The line in which a row is shown.
    pub fn print_row(row: &Row) -> (text: String)
        ensures
            text@ == row.spec_print_row(),
    {
        let username = format_chars(&remove_default_chars(&row.username));
        let email = format_chars(&remove_default_chars(&row.email));
        row_line(row.id, username.as_str(), email.as_str())
    }
}

impl DbError {
    /// The text in which the error is reported.
    pub open spec fn spec_message(&self) -> Seq<char> {
        match self {
            DbError::DuplicateKey => "Error:Duplicate key"@,
            DbError::TableFull => "Table is full"@,
            DbError::PageOutOfBounds => "Tried to fetch page number out of bounds"@,
            DbError::MalformedFile => "Db file is not whole no of page size"@,
            DbError::InvariantViolation => "Tried to access invalid Page num"@,
        }
    }

    /// The text in which the error is reported.
    pub fn message(&self) -> (text: String)
        ensures
            text@ == self.spec_message(),
    {
        match self {
            DbError::DuplicateKey => String::from_str("Error:Duplicate key"),
            DbError::TableFull => String::from_str("Table is full"),
            DbError::PageOutOfBounds => String::from_str("Tried to fetch page number out of bounds"),
            DbError::MalformedFile => String::from_str("Db file is not whole no of page size"),
            DbError::InvariantViolation => String::from_str("Tried to access invalid Page num"),
        }
    }
}

/// Two blanks for every level of indentation.
pub open spec fn spec_indent(level: nat) -> Seq<char>
    decreases level,
{
    if level == 0 {
        Seq::<char>::empty()
    } else {
        spec_indent((level - 1) as nat) + "  "@
    }
}

/// The lines for the cells of a leaf from cell `from` on: the number of the
/// cell and its key.
pub open spec fn leaf_lines(p: Seq<u8>, from: int) -> Seq<char>
    decreases header(p).count - from,
{
    if from >= header(p).count {
        Seq::<char>::empty()
    } else {
        "  - "@ + decimal(from as nat) + " : "@ + decimal(leaf_key(p, from) as nat) + "\n"@
            + leaf_lines(p, from + 1)
    }
}

/// The text that shows a leaf: its size, then a line for every cell.
pub open spec fn spec_print_leaf_node(p: Seq<u8>) -> Seq<char> {
    "leaf (size "@ + decimal(header(p).count as nat) + ")\n"@ + leaf_lines(p, 0)
}

impl Node {
    /// The indentation for a level of the tree.
    pub fn indent(level: u32) -> (text: String)
        ensures
            text@ == spec_indent(level as nat),
    {
        let mut text = String::new();
        let mut i: u32 = 0;
        while i < level
            invariant
                i <= level,
                text@ == spec_indent(i as nat),
            decreases level - i,
        {
            text.append("  ");
            i += 1;
        }
        text
    }

    /// The text that shows a leaf.
    pub fn print_leaf_node(page: &Page) -> (text: String)
        requires
            page.wf(),
            header(page@).count <= LEAF_NODE_MAX_CELLS,
        ensures
            text@ == spec_print_leaf_node(page@),
    {
        let num_cells = Node::get_leaf_node_num_cells(page);
        let mut text = String::from_str("leaf (size ");
        text.append(number_text(num_cells).as_str());
        text.append(")\n");
        let ghost head = text@;
        let mut i: u32 = 0;
        while i < num_cells
            invariant
                page.wf(),
                num_cells == header(page@).count,
                num_cells <= LEAF_NODE_MAX_CELLS,
                i <= num_cells,
                text@ + leaf_lines(page@, i as int) == head + leaf_lines(page@, 0),
            decreases num_cells - i,
        {
            let key = get_leaf_node_key(page, i);
            let ghost before = text@;
            text.append("  - ");
            text.append(number_text(i).as_str());
            text.append(" : ");
            text.append(number_text(key).as_str());
            text.append("\n");
            proof {
                let line = "  - "@ + decimal(i as nat) + " : "@ + decimal(key as nat) + "\n"@;
                assert(text@ =~= before + line);
                assert(leaf_lines(page@, i as int) =~= line + leaf_lines(page@, i + 1));
                assert(text@ + leaf_lines(page@, i + 1) =~= before + leaf_lines(page@, i as int));
            }
            i += 1;
        }
        proof {
            assert(leaf_lines(page@, num_cells as int) =~= Seq::<char>::empty());
            assert(text@ =~= text@ + leaf_lines(page@, num_cells as int));
        }
        text
    }
}

/// The lines for the keys of a leaf from cell `from` on, as they stand in
/// the text that shows a tree.
pub open spec fn key_lines(p: Seq<u8>, ind: nat, from: int) -> Seq<char>
    decreases header(p).count - from,
{
    if from >= header(p).count {
        Seq::<char>::empty()
    } else {
        spec_indent(ind) + "- "@ + decimal(leaf_key(p, from) as nat) + "\n"@ + key_lines(
            p,
            ind,
            from + 1,
        )
    }
}

/// The text that shows the first `k` cells of internal node `n`: for each
/// the text of its child, then a line with its key.
pub open spec fn cells_text(ps: Seq<Seq<u8>>, w: Shape, n: u32, ind: nat, k: int) -> Seq<char>
    decreases w.level[n], k,
{
    if k <= 0 {
        Seq::<char>::empty()
    } else {
        let c = child_at(ps[n as int], k - 1);
        cells_text(ps, w, n, ind, k - 1) + (if w.level[c] < w.level[n] {
            node_text(ps, w, c, ind + 1)
        } else {
            Seq::<char>::empty()
        }) + spec_indent(ind + 1) + "- key "@ + decimal(internal_key(ps[n as int], k - 1) as nat)
            + "\n"@
    }
}

/// The text that shows the tree below node `n`: a line for the node, then
/// the keys of a leaf, or the children and keys of an internal node with the
/// rightmost child last, also where the node has no key. Each level is
/// indented by two blanks more.
pub open spec fn node_text(ps: Seq<Seq<u8>>, w: Shape, n: u32, ind: nat) -> Seq<char>
    decreases w.level[n], header(ps[n as int]).count + 1,
{
    let p = ps[n as int];
    if w.level[n] == 0 {
        spec_indent(ind) + "- leaf (size "@ + decimal(header(p).count as nat) + ")\n"@ + key_lines(
            p,
            ind + 1,
            0,
        )
    } else {
        spec_indent(ind) + "- internal (size "@ + decimal(header(p).count as nat) + ")\n"@
            + cells_text(ps, w, n, ind, header(p).count as int) + (if w.level[header(p).link]
            < w.level[n] {
            node_text(ps, w, header(p).link, ind + 1)
        } else {
            Seq::<char>::empty()
        })
    }
}

impl Node {
    /// The text that shows the tree below a node.
    pub fn print_tree(table: &mut Table, page_num: u32, indentation_level: u32) -> (text: String)
        requires
            old(table).wf(),
            old(table).shape@.live.contains(page_num),
            indentation_level + old(table).shape@.level[page_num] < u32::MAX,
        ensures
            final(table).wf(),
            final(table).same_state(old(table)),
            text@ == node_text(
                old(table).pager@,
                old(table).shape@,
                page_num,
                indentation_level as nat,
            ),
        decreases old(table).shape@.level[page_num],
    {
        let ghost ps = table.pager@;
        let ghost w = table.shape@;
        let ghost np = table.pager.num_pages;
        let ghost lim = table.limits;
        let ghost ind = indentation_level as nat;
        let ghost p = ps[page_num as int];
        proof {
            lemma_tree_basics(ps, np, lim, w);
            lemma_tree_node(ps, np, lim, w, page_num);
        }
        let node = table.pager.page(page_num);
        let mut text = Node::indent(indentation_level);
        match Node::get_node_type(node) {
            NodeType::LEAF => {
                let num_keys = get_leaf_node_num_cells(node);
                text.append("- leaf (size ");
                text.append(number_text(num_keys).as_str());
                text.append(")\n");
                let ghost head = text@;
                let mut i: u32 = 0;
                while i < num_keys
                    invariant
                        node.wf(),
                        node@ == p,
                        num_keys == header(p).count,
                        num_keys <= LEAF_NODE_MAX_CELLS,
                        i <= num_keys,
                        ind == indentation_level,
                        indentation_level < u32::MAX,
                        text@ + key_lines(p, ind + 1, i as int) == head + key_lines(p, ind + 1, 0),
                    decreases num_keys - i,
                {
                    let key = get_leaf_node_key(node, i);
                    let ghost before = text@;
                    text.append(Node::indent(indentation_level + 1).as_str());
                    text.append("- ");
                    text.append(number_text(key).as_str());
                    text.append("\n");
                    proof {
                        let line = spec_indent(ind + 1) + "- "@ + decimal(key as nat) + "\n"@;
                        assert(text@ =~= before + line);
                        assert(key_lines(p, ind + 1, i as int) =~= line + key_lines(
                            p,
                            ind + 1,
                            i + 1,
                        ));
                        assert(text@ + key_lines(p, ind + 1, i + 1) =~= before + key_lines(
                            p,
                            ind + 1,
                            i as int,
                        ));
                    }
                    i += 1;
                }
                proof {
                    assert(key_lines(p, ind + 1, num_keys as int) =~= Seq::<char>::empty());
                    assert(text@ =~= text@ + key_lines(p, ind + 1, num_keys as int));
                }
            },
            NodeType::INTERNAL => {
                let num_cells = get_internal_node_num_cells(node);
                text.append("- internal (size ");
                text.append(number_text(num_cells).as_str());
                text.append(")\n");
                let ghost head = text@;
                let mut i: u32 = 0;
                while i < num_cells
                    invariant
                        table.wf(),
                        table.same_state(old(table)),
                        ps == table.pager@,
                        w == table.shape@,
                        np == table.pager.num_pages,
                        lim == table.limits,
                        p == ps[page_num as int],
                        w.live.contains(page_num),
                        w.level[page_num] > 0,
                        node_ok(ps, np, lim, w, page_num),
                        page_num < np,
                        num_cells == header(p).count,
                        i <= num_cells,
                        ind == indentation_level,
                        indentation_level + w.level[page_num] < u32::MAX,
                        text@ == head + cells_text(ps, w, page_num, ind, i as int),
                    decreases num_cells - i,
                {
                    proof {
                        lemma_tree_basics(ps, np, lim, w);
                        assert(child_ok(ps, w, page_num, i as int));
                        lemma_tree_node(ps, np, lim, w, child_at(p, i as int));
                    }
                    let node = table.pager.page(page_num);
                    let child_num = get_internal_node_child_page_num(node, i);
                    let key = get_internal_node_key(node, i);
                    let ghost before = text@;
                    let child_text = Node::print_tree(table, child_num, indentation_level + 1);
                    text.append(child_text.as_str());
                    text.append(Node::indent(indentation_level + 1).as_str());
                    text.append("- key ");
                    text.append(number_text(key).as_str());
                    text.append("\n");
                    proof {
                        assert(text@ =~= before + node_text(ps, w, child_num, ind + 1)
                            + spec_indent(ind + 1) + "- key "@ + decimal(key as nat) + "\n"@);
                        assert(text@ =~= head + cells_text(ps, w, page_num, ind, i + 1));
                    }
                    i += 1;
                }
                proof {
                    assert(child_ok(ps, w, page_num, num_cells as int));
                    lemma_tree_node(ps, np, lim, w, header(p).link);
                }
                let node = table.pager.page(page_num);
                let child_num = get_internal_node_right_child(node);
                let child_text = Node::print_tree(table, child_num, indentation_level + 1);
                text.append(child_text.as_str());
            },
        }
        text
    }
}

} // verus!
