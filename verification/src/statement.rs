//! Statements: the lines of text that ask for a row to be inserted or for
//! all rows to be shown.

use crate::row::{Row, COLUMN_EMAIL_SIZE, COLUMN_USERNAME_SIZE};
use vstd::prelude::*;
use vstd::string::{StrSliceExecFns, StringExecFns};

verus! {

/// The kinds of statement.
#[derive(Clone, Copy, Debug, PartialEq, Eq, Structural)]
pub enum StatementType {
    INSERT,
    UPDATE,
    SELECT,
}

/// Why a line of text is no statement.
#[derive(Clone, Copy, Debug, PartialEq, Eq, Structural)]
pub enum StatementError {
    /// A text is longer than its field.
    StringTooLong,
    /// The id is below zero.
    NegativeId,
    /// The first word is not the name of a kind of statement.
    Unrecognized,
    /// A word is missing, or the id is no number.
    Syntax,
}

/// A statement: its kind and, for an insert, the row to insert.
pub struct Statement {
    pub statement_type: StatementType,
    pub row_to_insert: Row,
}

/// The place of the first blank in `s` from place `from` on, and the length
/// of `s` where there is none.
pub open spec fn next_space(s: Seq<char>, from: int) -> int
    decreases s.len() - from,
{
    if from >= s.len() {
        s.len() as int
    } else if s[from] == ' ' {
        from
    } else {
        next_space(s, from + 1)
    }
}

/// The place of the first blank from `from` on is a place of the text or
/// its end, and no blank stands before it.
pub proof fn lemma_next_space(s: Seq<char>, from: int)
    requires
        0 <= from <= s.len(),
    ensures
        from <= next_space(s, from) <= s.len(),
        next_space(s, from) < s.len() ==> s[next_space(s, from)] == ' ',
        forall|i: int| from <= i < next_space(s, from) ==> s[i] != ' ',
    decreases s.len() - from,
{
    if from < s.len() && s[from] != ' ' {
        lemma_next_space(s, from + 1);
    }
}

/// Whether a character is a decimal digit.
pub open spec fn is_digit(c: char) -> bool {
    '0' <= c <= '9'
}

/// Whether every character is a decimal digit.
pub open spec fn all_digits(d: Seq<char>) -> bool {
    forall|i: int| 0 <= i < d.len() ==> is_digit(#[trigger] d[i])
}

/// The number that a sequence of decimal digits stands for.
pub open spec fn digits_value(d: Seq<char>) -> int
    decreases d.len(),
{
    if d.len() == 0 {
        0
    } else {
        10 * digits_value(d.drop_last()) + (d.last() as u32 - '0' as u32)
    }
}

/// The number that a word stands for, if it is a number that a signed
/// integer of 32 bits can hold: digits, with or without a sign before them.
pub open spec fn spec_parse_i32(tok: Seq<char>) -> Option<int> {
    let signed = tok.len() > 0 && (tok[0] == '-' || tok[0] == '+');
    let digits = if signed {
        tok.subrange(1, tok.len() as int)
    } else {
        tok
    };
    let v = if tok.len() > 0 && tok[0] == '-' {
        -digits_value(digits)
    } else {
        digits_value(digits)
    };
    if digits.len() > 0 && all_digits(digits) && -0x8000_0000 <= v <= 0x7FFF_FFFF {
        Some(v)
    } else {
        None
    }
}

/// The number of bytes that a character takes in UTF-8.
pub open spec fn char_width(c: char) -> int {
    let v = c as u32;
    if v < 0x80 {
        1
    } else if v < 0x800 {
        2
    } else if v < 0x1_0000 {
        3
    } else {
        4
    }
}

/// The number of bytes that a text takes in UTF-8.
pub open spec fn utf8_len(s: Seq<char>) -> int
    decreases s.len(),
{
    if s.len() == 0 {
        0
    } else {
        utf8_len(s.drop_last()) + char_width(s.last())
    }
}

/// A text takes at least as many bytes as it has characters.
pub proof fn lemma_utf8_len(s: Seq<char>)
    ensures
        utf8_len(s) >= s.len(),
    decreases s.len(),
{
    if s.len() > 0 {
        lemma_utf8_len(s.drop_last());
    }
}

/// A text in a field of `n` characters: the text, filled up with the
/// character of code 0.
pub open spec fn padded(s: Seq<char>, n: int) -> Seq<char> {
    Seq::new(
        n as nat,
        |i: int|
            if i < s.len() {
                s[i]
            } else {
                '\0'
            },
    )
}

/// What a line of text asks for.
pub enum Parsed {
    /// Insert a row with this id and these texts.
    Insert { id: u32, username: Seq<char>, email: Seq<char> },
    /// A statement of another kind.
    Other { statement_type: StatementType },
    /// The line is no statement.
    Error { error: StatementError },
}

/// The kind of statement that a word names.
pub open spec fn spec_statement_type(word: Seq<char>) -> Option<StatementType> {
    if word == "insert"@ {
        Some(StatementType::INSERT)
    } else if word == "update"@ {
        Some(StatementType::UPDATE)
    } else if word == "select"@ {
        Some(StatementType::SELECT)
    } else {
        None
    }
}

/// What a line of text asks for. The words of the line are what stands
/// between single blanks. The first names the kind of statement. An insert
/// goes on with the id and the two texts; what follows these is not read.
pub open spec fn spec_prepare(s: Seq<char>) -> Parsed {
    let e0 = next_space(s, 0);
    let e1 = next_space(s, e0 + 1);
    let e2 = next_space(s, e1 + 1);
    let e3 = next_space(s, e2 + 1);
    match spec_statement_type(s.subrange(0, e0)) {
        None => Parsed::Error { error: StatementError::Unrecognized },
        Some(StatementType::INSERT) => {
            if e2 >= s.len() {
                Parsed::Error { error: StatementError::Syntax }
            } else {
                let id = s.subrange(e0 + 1, e1);
                let username = s.subrange(e1 + 1, e2);
                let email = s.subrange(e2 + 1, e3);
                if utf8_len(username) > COLUMN_USERNAME_SIZE || utf8_len(email)
                    > COLUMN_EMAIL_SIZE {
                    Parsed::Error { error: StatementError::StringTooLong }
                } else {
                    match spec_parse_i32(id) {
                        None => Parsed::Error { error: StatementError::Syntax },
                        Some(v) => if v < 0 {
                            Parsed::Error { error: StatementError::NegativeId }
                        } else {
                            Parsed::Insert { id: v as u32, username, email }
                        },
                    }
                }
            }
        },
        Some(t) => Parsed::Other { statement_type: t },
    }
}

impl StatementError {
    /// The text in which the error is reported.
    pub fn message(&self) -> (text: String)
        ensures
            text@ == self.spec_message(),
    {
        match self {
            StatementError::StringTooLong => String::from_str("String is too long."),
            StatementError::NegativeId => String::from_str("Id must be positive."),
            StatementError::Unrecognized => String::from_str("Unrecognized statement."),
            StatementError::Syntax => String::from_str("Syntax error. Could not parse statement."),
        }
    }

    /// The text in which the error is reported.
    pub open spec fn spec_message(&self) -> Seq<char> {
        match self {
            StatementError::StringTooLong => "String is too long."@,
            StatementError::NegativeId => "Id must be positive."@,
            StatementError::Unrecognized => "Unrecognized statement."@,
            StatementError::Syntax => "Syntax error. Could not parse statement."@,
        }
    }
}

/// The place of the first blank in `s` from place `from` on.
pub fn find_space(s: &str, len: usize, from: usize) -> (e: usize)
    requires
        len == s@.len(),
        from <= len,
    ensures
        e == next_space(s@, from as int),
        from <= e <= len,
{
    let mut i: usize = from;
    proof {
        lemma_next_space(s@, from as int);
    }
    while i < len
        invariant
            len == s@.len(),
            from <= i <= len,
            next_space(s@, from as int) == next_space(s@, i as int),
        decreases len - i,
    {
        if s.get_char(i) == ' ' {
            return i;
        }
        i += 1;
    }
    i
}

/// The characters of `s` from place `from` to place `to`.
pub fn word_chars(s: &str, from: usize, to: usize) -> (out: Vec<char>)
    requires
        from <= to <= s@.len(),
    ensures
        out@ == s@.subrange(from as int, to as int),
{
    let mut out: Vec<char> = Vec::new();
    let mut i: usize = from;
    while i < to
        invariant
            from <= i <= to <= s@.len(),
            out@ == s@.subrange(from as int, i as int),
        decreases to - i,
    {
        out.push(s.get_char(i));
        i += 1;
        assert(out@ =~= s@.subrange(from as int, i as int));
    }
    out
}

/// The number that the digits stand for, if they are digits and the number
/// is no more than `limit`.
pub fn parse_digits(chars: &Vec<char>, from: usize, limit: u64) -> (r: Option<u64>)
    requires
        from <= chars@.len(),
        limit <= 0x8000_0000,
    ensures
        r matches Some(v) ==> v == digits_value(chars@.subrange(from as int, chars@.len() as int))
            && v <= limit,
        r is Some <==> from < chars@.len() && (forall|i: int|
            from <= i < chars@.len() ==> is_digit(#[trigger] chars@[i])) && digits_value(
            chars@.subrange(from as int, chars@.len() as int),
        ) <= limit,
{
    if from >= chars.len() {
        return None;
    }
    let ghost all = chars@.subrange(from as int, chars@.len() as int);
    let mut acc: u64 = 0;
    let mut over: bool = false;
    let mut i: usize = from;
    while i < chars.len()
        invariant
            from <= i <= chars@.len(),
            all == chars@.subrange(from as int, chars@.len() as int),
            limit <= 0x8000_0000,
            forall|j: int| from <= j < i ==> is_digit(#[trigger] chars@[j]),
            !over ==> acc == digits_value(chars@.subrange(from as int, i as int)) && acc <= limit,
            over ==> digits_value(chars@.subrange(from as int, i as int)) > limit,
        decreases chars@.len() - i,
    {
        let c = chars[i];
        if !(c >= '0' && c <= '9') {
            return None;
        }
        let d: u64 = (c as u32 - '0' as u32) as u64;
        proof {
            let t = chars@.subrange(from as int, i + 1);
            assert(t.drop_last() =~= chars@.subrange(from as int, i as int));
            assert(t.last() == c);
        }
        if !over {
            let next = acc * 10 + d;
            if next > limit {
                over = true;
            } else {
                acc = next;
            }
        }
        i += 1;
    }
    assert(chars@.subrange(from as int, chars@.len() as int) =~= all);
    if over {
        None
    } else {
        Some(acc)
    }
}

/// The number that digits stand for is not below zero.
pub proof fn lemma_digits_nonnegative(d: Seq<char>)
    requires
        all_digits(d),
    ensures
        digits_value(d) >= 0,
    decreases d.len(),
{
    if d.len() > 0 {
        assert forall|i: int| 0 <= i < d.drop_last().len() implies is_digit(
            #[trigger] d.drop_last()[i],
        ) by {
            assert(is_digit(d[i]));
        }
        lemma_digits_nonnegative(d.drop_last());
        assert(is_digit(d[d.len() - 1]));
    }
}

/// The characters of a word from a place on are digits if and only if the
/// characters of the rest of the word are.
pub proof fn lemma_all_digits(s: Seq<char>, from: int)
    requires
        0 <= from <= s.len(),
    ensures
        (forall|i: int| from <= i < s.len() ==> is_digit(#[trigger] s[i])) <==> all_digits(
            s.subrange(from, s.len() as int),
        ),
{
    let t = s.subrange(from, s.len() as int);
    if forall|i: int| from <= i < s.len() ==> is_digit(#[trigger] s[i]) {
        assert forall|i: int| 0 <= i < t.len() implies is_digit(#[trigger] t[i]) by {
            assert(is_digit(s[from + i]));
        }
    }
    if forall|i: int| 0 <= i < t.len() ==> is_digit(#[trigger] t[i]) {
        assert forall|i: int| from <= i < s.len() implies is_digit(#[trigger] s[i]) by {
            assert(is_digit(t[i - from]));
        }
    }
}

/// The number that a word stands for, if it is a number that a signed
/// integer of 32 bits can hold.
pub fn parse_i32(chars: &Vec<char>) -> (r: Option<i32>)
    ensures
        match r {
            Some(v) => spec_parse_i32(chars@) == Some(v as int),
            None => spec_parse_i32(chars@) is None,
        },
{
    if chars.len() == 0 {
        return None;
    }
    let first = chars[0];
    let ghost rest = chars@.subrange(1, chars@.len() as int);
    proof {
        assert(chars@.subrange(0, chars@.len() as int) =~= chars@);
        lemma_all_digits(chars@, 1);
        lemma_all_digits(chars@, 0);
        if all_digits(rest) {
            lemma_digits_nonnegative(rest);
        }
        if all_digits(chars@) {
            lemma_digits_nonnegative(chars@);
        }
    }
    if first == '-' {
        match parse_digits(chars, 1, 0x8000_0000) {
            Some(v) => {
                if v == 0x8000_0000 {
                    Some(-0x8000_0000i32)
                } else {
                    let x: i32 = v as i32;
                    Some(0 - x)
                }
            },
            None => None,
        }
    } else if first == '+' {
        match parse_digits(chars, 1, 0x7FFF_FFFF) {
            Some(v) => Some(v as i32),
            None => None,
        }
    } else {
        match parse_digits(chars, 0, 0x7FFF_FFFF) {
            Some(v) => Some(v as i32),
            None => None,
        }
    }
}

impl StatementType {
    /// The kind of statement that a word names.
    pub fn from_str(input: &str) -> (r: Result<StatementType, ()>)
        ensures
            match r {
                Ok(t) => spec_statement_type(input@) == Some(t),
                Err(_) => spec_statement_type(input@) is None,
            },
    {
        let word = String::from_str(input);
        if word == String::from_str("insert") {
            Ok(StatementType::INSERT)
        } else if word == String::from_str("update") {
            Ok(StatementType::UPDATE)
        } else if word == String::from_str("select") {
            Ok(StatementType::SELECT)
        } else {
            Err(())
        }
    }
}


/// Whether the characters take more than `limit` bytes in UTF-8.
pub fn utf8_exceeds(chars: &Vec<char>, limit: usize) -> (r: bool)
    requires
        limit <= 1024,
    ensures
        r == (utf8_len(chars@) > limit),
{
    let mut n: usize = 0;
    let mut i: usize = 0;
    while i < chars.len()
        invariant
            i <= chars@.len(),
            limit <= 1024,
            n == utf8_len(chars@.subrange(0, i as int)),
            n <= limit,
        decreases chars@.len() - i,
    {
        let v = chars[i] as u32;
        proof {
            let t = chars@.subrange(0, i + 1);
            assert(t.drop_last() =~= chars@.subrange(0, i as int));
            assert(t.last() == chars@[i as int]);
            lemma_utf8_len_grows(chars@, i + 1);
        }
        if v < 0x80 {
            n += 1;
        } else if v < 0x800 {
            n += 2;
        } else if v < 0x1_0000 {
            n += 3;
        } else {
            n += 4;
        }
        if n > limit {
            return true;
        }
        i += 1;
    }
    assert(chars@.subrange(0, chars@.len() as int) =~= chars@);
    false
}

/// A text takes at least as many bytes as any of its beginnings.
pub proof fn lemma_utf8_len_grows(s: Seq<char>, i: int)
    requires
        0 <= i <= s.len(),
    ensures
        utf8_len(s.subrange(0, i)) <= utf8_len(s),
    decreases s.len() - i,
{
    if i < s.len() {
        lemma_utf8_len_grows(s, i + 1);
        let t = s.subrange(0, i + 1);
        assert(t.drop_last() =~= s.subrange(0, i));
    } else {
        assert(s.subrange(0, i) =~= s);
    }
}

impl Statement {
    /// The statement is what `parsed` asks for. A statement that is no
    /// insert carries a row of id 0 whose fields are filled with the letter
    /// a.
    pub open spec fn is_parsed(&self, parsed: Parsed) -> bool {
        match parsed {
            Parsed::Insert { id, username, email } => {
                &&& self.statement_type == StatementType::INSERT
                &&& self.row_to_insert.id == id
                &&& self.row_to_insert.username@ == padded(username, COLUMN_USERNAME_SIZE as int)
                &&& self.row_to_insert.email@ == padded(email, COLUMN_EMAIL_SIZE as int)
            },
            Parsed::Other { statement_type } => {
                &&& self.statement_type == statement_type
                &&& self.row_to_insert.id == 0
                &&& self.row_to_insert.username@ == Seq::new(
                    COLUMN_USERNAME_SIZE as nat,
                    |i: int| 'a',
                )
                &&& self.row_to_insert.email@ == Seq::new(COLUMN_EMAIL_SIZE as nat, |i: int| 'a')
            },
            Parsed::Error { error } => false,
        }
    }

    /// Reads a statement from a line of text.
    pub fn prepare_statement(command: &str) -> (r: Result<Statement, StatementError>)
        ensures
            match r {
                Ok(statement) => statement.is_parsed(spec_prepare(command@)),
                Err(e) => spec_prepare(command@) == (Parsed::Error { error: e }),
            },
    {
        let len = command.unicode_len();
        let e0 = find_space(command, len, 0);
        let statement_type = match StatementType::from_str(command.substring_char(0, e0)) {
            Ok(t) => t,
            Err(_) => { return Err(StatementError::Unrecognized); },
        };
        let mut username: [char; 32] = ['a'; 32];
        let mut email: [char; 255] = ['a'; 255];
        let mut id: u32 = 0;
        match statement_type {
            StatementType::INSERT => {
                let e1 = if e0 < len {
                    find_space(command, len, e0 + 1)
                } else {
                    len
                };
                let e2 = if e1 < len {
                    find_space(command, len, e1 + 1)
                } else {
                    len
                };
                if e2 >= len {
                    return Err(StatementError::Syntax);
                }
                let e3 = find_space(command, len, e2 + 1);
                let id_chars = word_chars(command, e0 + 1, e1);
                let username_chars = word_chars(command, e1 + 1, e2);
                let email_chars = word_chars(command, e2 + 1, e3);
                if utf8_exceeds(&username_chars, COLUMN_USERNAME_SIZE) || utf8_exceeds(
                    &email_chars,
                    COLUMN_EMAIL_SIZE,
                ) {
                    return Err(StatementError::StringTooLong);
                }
                let parsed_id = match parse_i32(&id_chars) {
                    Some(v) => v,
                    None => { return Err(StatementError::Syntax); },
                };
                if parsed_id < 0 {
                    return Err(StatementError::NegativeId);
                }
                id = parsed_id as u32;
                proof {
                    lemma_utf8_len(username_chars@);
                    lemma_utf8_len(email_chars@);
                }
                username = ['\0'; 32];
                email = ['\0'; 255];
                let mut i: usize = 0;
                while i < username_chars.len()
                    invariant
                        i <= username_chars@.len() <= COLUMN_USERNAME_SIZE,
                        forall|j: int|
                            0 <= j < COLUMN_USERNAME_SIZE ==> #[trigger] username@[j] == if j < i {
                                username_chars@[j]
                            } else {
                                '\0'
                            },
                    decreases username_chars@.len() - i,
                {
                    username[i] = username_chars[i];
                    i += 1;
                }
                let mut i: usize = 0;
                while i < email_chars.len()
                    invariant
                        i <= email_chars@.len() <= COLUMN_EMAIL_SIZE,
                        forall|j: int|
                            0 <= j < COLUMN_EMAIL_SIZE ==> #[trigger] email@[j] == if j < i {
                                email_chars@[j]
                            } else {
                                '\0'
                            },
                    decreases email_chars@.len() - i,
                {
                    email[i] = email_chars[i];
                    i += 1;
                }
                proof {
                    assert(username@ =~= padded(username_chars@, COLUMN_USERNAME_SIZE as int));
                    assert(email@ =~= padded(email_chars@, COLUMN_EMAIL_SIZE as int));
                }
            },
            _ => {
                proof {
                    assert(username@ =~= Seq::new(COLUMN_USERNAME_SIZE as nat, |i: int| 'a'));
                    assert(email@ =~= Seq::new(COLUMN_EMAIL_SIZE as nat, |i: int| 'a'));
                }
            },
        }
        Ok(Statement { statement_type, row_to_insert: Row { id, username, email } })
    }
}

} // verus!
