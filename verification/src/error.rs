use vstd::prelude::*;

verus! {

/// The ways an operation of the store can fail.
#[derive(Clone, Copy, Debug, PartialEq, Eq, Structural)]
pub enum DbError {
    /// An insert named an id that the table already holds.
    DuplicateKey,
    /// The row budget or the page budget is used up.
    TableFull,
    /// A page number lies beyond the last page the store may hold.
    PageOutOfBounds,
    /// The backing file is not a whole number of pages long.
    MalformedFile,
    /// A node refers to a slot or a child that does not exist.
    InvariantViolation,
}

} // verus!
