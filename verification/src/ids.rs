//! Identifier newtypes: table-local indices, store-global indices, and the
//! revision counter used to name store states.

use vstd::prelude::*;

verus! {

/// Identifies a table in a database.
#[derive(Clone, Copy, PartialEq, Eq, PartialOrd, Ord, Hash, Debug, Structural)]
pub struct TableIndex(pub u32);

/// Identifies a value within a table.
#[derive(Clone, Copy, PartialEq, Eq, PartialOrd, Ord, Hash, Debug, Structural)]
pub struct Index(pub u32);

impl Index {
    pub fn from_u32(x: u32) -> (r: Index)
        ensures
            r.0 == x,
    {
        Index(x)
    }

    pub fn as_u32(self) -> (r: u32)
        ensures
            r == self.0,
    {
        self.0
    }

    pub fn to_usize(&self) -> (r: usize)
        ensures
            r == self.0,
    {
        self.0 as usize
    }

    pub fn from_usize(index: usize) -> (r: Index)
        requires
            index <= u32::MAX,
        ensures
            r.0 == index,
    {
        Index(index as u32)
    }
}

/// A global database index: a table plus a value within that table.
#[derive(Clone, Copy, PartialEq, Eq, PartialOrd, Ord, Hash, Debug, Structural)]
pub struct DbIndex {
    /// Identifies the table.
    pub table: TableIndex,
    /// Identifies the value within the table.
    pub value: Index,
}

impl DbIndex {
    pub fn new(table: TableIndex, value: Index) -> (r: DbIndex)
        ensures
            r.table == table,
            r.value == value,
    {
        DbIndex { table, value }
    }
}

/// Names a store revision.
#[derive(Clone, Copy, PartialEq, Eq, PartialOrd, Ord, Hash, Debug, Structural)]
pub struct RevIndex(pub u32);

impl RevIndex {
    pub fn new(revision: u32) -> (r: RevIndex)
        ensures
            r.0 == revision,
    {
        RevIndex(revision)
    }
}

/// An entity identifier type: a dense index convertible to and from `u32`.
pub trait EntityId: Copy {
    fn from_u32(id: u32) -> Self;

    fn to_u32(self) -> u32;
}

/// A relation viewed as a keyed collection.
pub trait Relation {
    type Key;

    type Value;
}

} // verus!
