//! Rows and their fixed-width form in a page.
//!
//! A record starts with the id, big-endian. The characters of the two texts
//! follow, each in four bytes: its UTF-8 form, filled up with zero bytes.

use crate::codec::{be32, put32, write_be32};
use vstd::prelude::*;

verus! {

pub const COLUMN_USERNAME_SIZE: usize = 32;

pub const COLUMN_EMAIL_SIZE: usize = 255;

pub const ID_SIZE: usize = 4;

pub const USERNAME_SIZE: usize = 128;

pub const EMAIL_SIZE: usize = 1020;

pub const ID_OFFSET: usize = 0;

pub const USERNAME_OFFSET: usize = 4;

pub const EMAIL_OFFSET: usize = 132;

/// Bytes in a record.
pub const ROW_SIZE: usize = 1152;

/// A row: an id and two texts, each in a field of fixed width that is
/// filled up with the character of code 0.
#[derive(Clone, Copy, Debug)]
pub struct Row {
    pub id: u32,
    pub username: [char; 32],
    pub email: [char; 255],
}

/// The four bytes that stand for a character: its UTF-8 form, then zero
/// bytes.
pub open spec fn char_bytes(c: char) -> Seq<u8> {
    let v = c as u32 as int;
    if v < 0x80 {
        seq![v as u8, 0u8, 0u8, 0u8]
    } else if v < 0x800 {
        seq![(0xC0 + v / 0x40) as u8, (0x80 + v % 0x40) as u8, 0u8, 0u8]
    } else if v < 0x1_0000 {
        seq![
            (0xE0 + v / 0x1000) as u8,
            (0x80 + v / 0x40 % 0x40) as u8,
            (0x80 + v % 0x40) as u8,
            0u8,
        ]
    } else {
        seq![
            (0xF0 + v / 0x4_0000) as u8,
            (0x80 + v / 0x1000 % 0x40) as u8,
            (0x80 + v / 0x40 % 0x40) as u8,
            (0x80 + v % 0x40) as u8,
        ]
    }
}

/// The bytes that stand for a sequence of characters, four for each.
pub open spec fn chars_bytes(chars: Seq<char>) -> Seq<u8> {
    Seq::new(4 * chars.len(), |i: int| char_bytes(chars[i / 4])[i % 4])
}

impl Row {
    /// The record that stands for the row.
    pub open spec fn encode(self) -> Seq<u8> {
        put32(Seq::new(ID_SIZE as nat, |i: int| 0u8), 0, self.id) + chars_bytes(self.username@)
            + chars_bytes(self.email@)
    }

    /// A record has `ROW_SIZE` bytes and starts with the id.
    pub proof fn lemma_encode(self)
        ensures
            self.encode().len() == ROW_SIZE,
            be32(self.encode(), 0) == self.id,
            self.encode().subrange(USERNAME_OFFSET as int, EMAIL_OFFSET as int) == chars_bytes(
                self.username@,
            ),
            self.encode().subrange(EMAIL_OFFSET as int, ROW_SIZE as int) == chars_bytes(
                self.email@,
            ),
    {
        let z = Seq::new(ID_SIZE as nat, |i: int| 0u8);
        crate::codec::lemma_be32_put32_same(z, 0, self.id);
        crate::codec::lemma_be32_same_bytes(self.encode(), 0, put32(z, 0, self.id), 0);
        assert(self.encode().subrange(USERNAME_OFFSET as int, EMAIL_OFFSET as int)
            =~= chars_bytes(self.username@));
        assert(self.encode().subrange(EMAIL_OFFSET as int, ROW_SIZE as int) =~= chars_bytes(
            self.email@,
        ));
    }

    /// The record that stands for the row.
    pub fn serialize_row(&self) -> (out: Vec<u8>)
        ensures
            out@ == self.encode(),
            out@.len() == ROW_SIZE,
    {
        let mut out: Vec<u8> = Vec::new();
        out.push(0u8);
        out.push(0u8);
        out.push(0u8);
        out.push(0u8);
        let ghost z = out@;
        write_be32(&mut out, ID_OFFSET, self.id);
        let ghost head = out@;
        let username_bytes = char_array_to_bytes1(&self.username);
        let email_bytes = char_array_to_bytes1(&self.email);
        let mut i: usize = 0;
        while i < USERNAME_SIZE
            invariant
                i <= USERNAME_SIZE,
                username_bytes@.len() == USERNAME_SIZE,
                out@ == head + username_bytes@.subrange(0, i as int),
            decreases USERNAME_SIZE - i,
        {
            out.push(username_bytes[i]);
            i += 1;
            assert(out@ =~= head + username_bytes@.subrange(0, i as int));
        }
        assert(username_bytes@.subrange(0, USERNAME_SIZE as int) =~= username_bytes@);
        let ghost mid = out@;
        let mut i: usize = 0;
        while i < EMAIL_SIZE
            invariant
                i <= EMAIL_SIZE,
                email_bytes@.len() == EMAIL_SIZE,
                out@ == mid + email_bytes@.subrange(0, i as int),
            decreases EMAIL_SIZE - i,
        {
            out.push(email_bytes[i]);
            i += 1;
            assert(out@ =~= mid + email_bytes@.subrange(0, i as int));
        }
        assert(email_bytes@.subrange(0, EMAIL_SIZE as int) =~= email_bytes@);
        assert(z =~= Seq::new(ID_SIZE as nat, |i: int| 0u8));
        out
    }
}

/// The four bytes that stand for a character.
pub fn char_to_bytes(c: char) -> (bytes: [u8; 4])
    ensures
        bytes@ == char_bytes(c),
{
    let v: u32 = c as u32;
    let mut bytes: [u8; 4] = [0u8; 4];
    if v < 0x80 {
        bytes[0] = v as u8;
    } else if v < 0x800 {
        bytes[0] = (0xC0 + v / 0x40) as u8;
        bytes[1] = (0x80 + v % 0x40) as u8;
    } else if v < 0x1_0000 {
        bytes[0] = (0xE0 + v / 0x1000) as u8;
        bytes[1] = (0x80 + v / 0x40 % 0x40) as u8;
        bytes[2] = (0x80 + v % 0x40) as u8;
    } else {
        assert(v <= 0x10_FFFF);
        bytes[0] = (0xF0 + v / 0x4_0000) as u8;
        bytes[1] = (0x80 + v / 0x1000 % 0x40) as u8;
        bytes[2] = (0x80 + v / 0x40 % 0x40) as u8;
        bytes[3] = (0x80 + v % 0x40) as u8;
    }
    assert(bytes@ =~= char_bytes(c));
    bytes
}

/// The bytes that stand for the characters, four for each.
pub fn char_array_to_bytes1(char_array: &[char]) -> (result: Vec<u8>)
    requires
        4 * char_array@.len() <= usize::MAX,
    ensures
        result@ == chars_bytes(char_array@),
{
    let n = char_array.len();
    let mut result: Vec<u8> = Vec::new();
    let mut i: usize = 0;
    while i < n
        invariant
            n == char_array@.len(),
            i <= n,
            result@.len() == 4 * i,
            forall|j: int| 0 <= j < 4 * i ==> #[trigger] result@[j] == char_bytes(char_array@[j / 4])[j % 4],
        decreases n - i,
    {
        let b = char_to_bytes(char_array[i]);
        result.push(b[0]);
        result.push(b[1]);
        result.push(b[2]);
        result.push(b[3]);
        i += 1;
    }
    assert(result@ =~= chars_bytes(char_array@));
    result
}

/// The bytes that stand for the characters, four for each.
pub fn char_array_to_bytes(char_array: &[char]) -> (result: Vec<u8>)
    requires
        4 * char_array@.len() <= usize::MAX,
    ensures
        result@ == chars_bytes(char_array@),
{
    char_array_to_bytes1(char_array)
}


/// Whether a byte is a continuation byte of UTF-8.
pub open spec fn is_continuation(b: u8) -> bool {
    0x80 <= b < 0xC0
}

/// The code of the character that four bytes stand for: the code that the
/// first bytes hold in UTF-8, whatever follows, and 0 where they hold none.
pub open spec fn group_code(b: Seq<u8>) -> u32 {
    let b0 = b[0] as int;
    let b1 = b[1] as int;
    let b2 = b[2] as int;
    let b3 = b[3] as int;
    if b0 < 0x80 {
        b0 as u32
    } else if 0xC0 <= b0 < 0xE0 && is_continuation(b[1]) {
        let v = (b0 - 0xC0) * 0x40 + (b1 - 0x80);
        if v >= 0x80 {
            v as u32
        } else {
            0
        }
    } else if 0xE0 <= b0 < 0xF0 && is_continuation(b[1]) && is_continuation(b[2]) {
        let v = (b0 - 0xE0) * 0x1000 + (b1 - 0x80) * 0x40 + (b2 - 0x80);
        if v >= 0x800 && !(0xD800 <= v <= 0xDFFF) {
            v as u32
        } else {
            0
        }
    } else if 0xF0 <= b0 < 0xF8 && is_continuation(b[1]) && is_continuation(b[2])
        && is_continuation(b[3]) {
        let v = (b0 - 0xF0) * 0x4_0000 + (b1 - 0x80) * 0x1000 + (b2 - 0x80) * 0x40 + (b3 - 0x80);
        if 0x1_0000 <= v <= 0x10_FFFF {
            v as u32
        } else {
            0
        }
    } else {
        0
    }
}

/// The characters that a sequence of bytes stands for, one for every four
/// bytes.
pub open spec fn bytes_chars(bytes: Seq<u8>) -> Seq<char> {
    Seq::new(bytes.len() / 4, |i: int| group_code(bytes.subrange(4 * i, 4 * i + 4)) as char)
}

/// The four bytes that stand for a character stand for that character.
pub proof fn lemma_group_code(c: char)
    ensures
        char_bytes(c).len() == 4,
        group_code(char_bytes(c)) == c as u32,
{
    let v = c as u32 as int;
    assert(v <= 0x10_FFFF);
    assert(!(0xD800 <= v <= 0xDFFF));
}

/// The bytes that stand for a sequence of characters stand for these
/// characters.
pub proof fn lemma_bytes_chars(chars: Seq<char>)
    ensures
        bytes_chars(chars_bytes(chars)) == chars,
{
    let bytes = chars_bytes(chars);
    assert forall|i: int| 0 <= i < chars.len() implies bytes_chars(bytes)[i] == chars[i] by {
        assert(bytes.subrange(4 * i, 4 * i + 4) =~= char_bytes(chars[i])) by {
            lemma_group_code(chars[i]);
            assert forall|j: int| 0 <= j < 4 implies bytes.subrange(4 * i, 4 * i + 4)[j]
                == char_bytes(chars[i])[j] by {
                assert((4 * i + j) / 4 == i);
                assert((4 * i + j) % 4 == j);
            }
        }
        lemma_group_code(chars[i]);
        let u = chars[i] as u32;
        vstd::utf8::char_u32_cast(chars[i], u);
    }
    assert(bytes_chars(bytes) =~= chars);
}

/// The character of a code, if the code is one of a character: a call of
/// `char::from_u32` of the standard library. That it gives the character
/// for every code but those of surrogates and those above 0x10FFFF, and
/// nothing for these, is taken from its documentation and not proved.
#[verifier::external_body]
fn char_from_u32(v: u32) -> (r: Option<char>)
    ensures
        r == if v < 0xD800 || 0xE000 <= v <= 0x10_FFFF {
            Some(v as char)
        } else {
            None::<char>
        },
{
    char::from_u32(v)
}

/// The character that four bytes stand for.
pub fn bytes_to_char(b0: u8, b1: u8, b2: u8, b3: u8) -> (c: char)
    ensures
        c == group_code(seq![b0, b1, b2, b3]) as char,
{
    let mut v: u32 = 0;
    if b0 < 0x80 {
        v = b0 as u32;
    } else if 0xC0 <= b0 && b0 < 0xE0 && 0x80 <= b1 && b1 < 0xC0 {
        let x: u32 = (b0 as u32 - 0xC0) * 0x40 + (b1 as u32 - 0x80);
        if x >= 0x80 {
            v = x;
        }
    } else if 0xE0 <= b0 && b0 < 0xF0 && 0x80 <= b1 && b1 < 0xC0 && 0x80 <= b2 && b2 < 0xC0 {
        let x: u32 = (b0 as u32 - 0xE0) * 0x1000 + (b1 as u32 - 0x80) * 0x40 + (b2 as u32 - 0x80);
        if x >= 0x800 && !(0xD800 <= x && x <= 0xDFFF) {
            v = x;
        }
    } else if 0xF0 <= b0 && b0 < 0xF8 && 0x80 <= b1 && b1 < 0xC0 && 0x80 <= b2 && b2 < 0xC0 && 0x80
        <= b3 && b3 < 0xC0 {
        let x: u32 = (b0 as u32 - 0xF0) * 0x4_0000 + (b1 as u32 - 0x80) * 0x1000 + (b2 as u32
            - 0x80) * 0x40 + (b3 as u32 - 0x80);
        if 0x1_0000 <= x && x <= 0x10_FFFF {
            v = x;
        }
    }
    match char_from_u32(v) {
        Some(c) => c,
        None => '\0',
    }
}

/// The characters that the bytes stand for, one for every four bytes.
pub fn bytes_to_char_array(bytes_array: &[u8]) -> (chars: Vec<char>)
    requires
        bytes_array@.len() % 4 == 0,
    ensures
        chars@ == bytes_chars(bytes_array@),
{
    let len = bytes_array.len();
    let n = len / 4;
    let mut chars: Vec<char> = Vec::new();
    let mut i: usize = 0;
    while i < n
        invariant
            len == bytes_array@.len(),
            n == bytes_array@.len() / 4,
            bytes_array@.len() % 4 == 0,
            i <= n,
            chars@.len() == i,
            forall|j: int| 0 <= j < i ==> #[trigger] chars@[j] == bytes_chars(bytes_array@)[j],
        decreases n - i,
    {
        assert(4 * i + 3 < len);
        let c = bytes_to_char(
            bytes_array[4 * i],
            bytes_array[4 * i + 1],
            bytes_array[4 * i + 2],
            bytes_array[4 * i + 3],
        );
        proof {
            assert(bytes_array@.subrange(4 * i as int, 4 * i + 4) =~= seq![
                bytes_array@[4 * i as int],
                bytes_array@[4 * i + 1],
                bytes_array@[4 * i + 2],
                bytes_array@[4 * i + 3],
            ]);
        }
        chars.push(c);
        i += 1;
    }
    assert(chars@ =~= bytes_chars(bytes_array@));
    chars
}

impl Row {
    /// The row is what the record stands for.
    pub open spec fn decodes(self, record: Seq<u8>) -> bool {
        &&& self.id == be32(record, ID_OFFSET as int)
        &&& self.username@ == bytes_chars(
            record.subrange(USERNAME_OFFSET as int, EMAIL_OFFSET as int),
        )
        &&& self.email@ == bytes_chars(record.subrange(EMAIL_OFFSET as int, ROW_SIZE as int))
    }

    /// A record stands for the row that it was made from, and for no other.
    pub proof fn lemma_round_trip(self, other: Row)
        requires
            other.decodes(self.encode()),
        ensures
            other.id == self.id,
            other.username@ == self.username@,
            other.email@ == self.email@,
    {
        self.lemma_encode();
        lemma_bytes_chars(self.username@);
        lemma_bytes_chars(self.email@);
    }

    /// The row that the first `ROW_SIZE` bytes of `source` stand for.
    pub fn deserialize_row(source: &[u8]) -> (row: Row)
        requires
            source@.len() >= ROW_SIZE,
        ensures
            row.decodes(source@.subrange(0, ROW_SIZE as int)),
    {
        let ghost record = source@.subrange(0, ROW_SIZE as int);
        let id = crate::codec::read_be32_slice(source, ID_OFFSET);
        let mut username: [char; 32] = ['\0'; 32];
        let mut email: [char; 255] = ['\0'; 255];
        let mut i: usize = 0;
        while i < COLUMN_USERNAME_SIZE
            invariant
                i <= COLUMN_USERNAME_SIZE,
                source@.len() >= ROW_SIZE,
                record == source@.subrange(0, ROW_SIZE as int),
                forall|j: int|
                    0 <= j < i ==> #[trigger] username@[j] == bytes_chars(
                        record.subrange(USERNAME_OFFSET as int, EMAIL_OFFSET as int),
                    )[j],
            decreases COLUMN_USERNAME_SIZE - i,
        {
            let o = USERNAME_OFFSET + 4 * i;
            let c = bytes_to_char(source[o], source[o + 1], source[o + 2], source[o + 3]);
            proof {
                assert(record.subrange(USERNAME_OFFSET as int, EMAIL_OFFSET as int).subrange(
                    4 * i as int,
                    4 * i + 4,
                ) =~= seq![source@[o as int], source@[o + 1], source@[o + 2], source@[o + 3]]);
            }
            username[i] = c;
            i += 1;
        }
        let mut i: usize = 0;
        while i < COLUMN_EMAIL_SIZE
            invariant
                i <= COLUMN_EMAIL_SIZE,
                source@.len() >= ROW_SIZE,
                record == source@.subrange(0, ROW_SIZE as int),
                forall|j: int|
                    0 <= j < i ==> #[trigger] email@[j] == bytes_chars(
                        record.subrange(EMAIL_OFFSET as int, ROW_SIZE as int),
                    )[j],
            decreases COLUMN_EMAIL_SIZE - i,
        {
            let o = EMAIL_OFFSET + 4 * i;
            let c = bytes_to_char(source[o], source[o + 1], source[o + 2], source[o + 3]);
            proof {
                assert(record.subrange(EMAIL_OFFSET as int, ROW_SIZE as int).subrange(
                    4 * i as int,
                    4 * i + 4,
                ) =~= seq![source@[o as int], source@[o + 1], source@[o + 2], source@[o + 3]]);
            }
            email[i] = c;
            i += 1;
        }
        proof {
            assert(username@ =~= bytes_chars(
                record.subrange(USERNAME_OFFSET as int, EMAIL_OFFSET as int),
            ));
            assert(email@ =~= bytes_chars(record.subrange(EMAIL_OFFSET as int, ROW_SIZE as int)));
            crate::codec::lemma_be32_same_bytes(record, 0, source@, 0);
        }
        Row { id, username, email }
    }
}

/// The characters without those of code 0.
pub open spec fn without_default(chars: Seq<char>) -> Seq<char>
    decreases chars.len(),
{
    if chars.len() == 0 {
        chars
    } else if chars.last() == '\0' {
        without_default(chars.drop_last())
    } else {
        without_default(chars.drop_last()).push(chars.last())
    }
}

/// The characters without those of code 0, with which the fields of a row
/// are filled up.
pub fn remove_default_chars(chars: &[char]) -> (out: Vec<char>)
    ensures
        out@ == without_default(chars@),
{
    let mut out: Vec<char> = Vec::new();
    let n = chars.len();
    let mut i: usize = 0;
    while i < n
        invariant
            n == chars@.len(),
            i <= n,
            out@ == without_default(chars@.subrange(0, i as int)),
        decreases n - i,
    {
        let c = chars[i];
        proof {
            let t = chars@.subrange(0, i + 1);
            assert(t.drop_last() =~= chars@.subrange(0, i as int));
            assert(t.last() == c);
        }
        if c != '\0' {
            out.push(c);
        }
        i += 1;
    }
    assert(chars@.subrange(0, n as int) =~= chars@);
    out
}

} // verus!
