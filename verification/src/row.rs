//! Row values: scalar attributes plus foreign-key slots, and the revision
//! wrapper that row tables store.

use vstd::prelude::*;

verus! {

/// A scalar attribute value.
#[derive(Clone, Debug, PartialEq, Eq)]
pub enum Value {
    Int(i64),
    Text(String),
}

impl Value {
    /// An equal copy.
    pub fn dup(&self) -> (r: Value)
        ensures
            r == *self,
    {
        match self {
            Value::Int(i) => Value::Int(*i),
            Value::Text(s) => Value::Text(s.clone()),
        }
    }
}

/// The caller-visible content of a row: one `Value` per declared attribute and
/// one foreign-key slot per declared relation of its entity type.
///
/// `fks[r]` is the identifier of the destination row of relation `r`, or
/// `None` when the (optional) relation has no target.
#[derive(Clone, Debug)]
pub struct RowData {
    pub attrs: Vec<Value>,
    pub fks: Vec<Option<u32>>,
}

impl RowData {
    /// A copy with the same attribute values and foreign keys.
    pub fn dup(&self) -> (r: RowData)
        ensures
            r.attrs@ == self.attrs@,
            r.fks@ == self.fks@,
    {
        let mut attrs: Vec<Value> = Vec::new();
        let mut i: usize = 0;
        while i < self.attrs.len()
            invariant
                i <= self.attrs@.len(),
                attrs@.len() == i,
                forall|j: int| 0 <= j < i ==> attrs@[j] == self.attrs@[j],
            decreases self.attrs@.len() - i,
        {
            attrs.push(self.attrs[i].dup());
            i += 1;
        }
        let mut fks: Vec<Option<u32>> = Vec::new();
        let mut j: usize = 0;
        while j < self.fks.len()
            invariant
                j <= self.fks@.len(),
                fks@.len() == j,
                forall|j2: int| 0 <= j2 < j ==> fks@[j2] == self.fks@[j2],
            decreases self.fks@.len() - j,
        {
            fks.push(self.fks[j]);
            j += 1;
        }
        proof {
            assert(attrs@ =~= self.attrs@);
            assert(fks@ =~= self.fks@);
        }
        RowData { attrs, fks }
    }
}

/// A stored row: its content plus a revision counter.
///
/// The revision is bumped on every in-place change, so that two snapshots can
/// tell "same identifier, different content" apart without comparing the
/// content itself; equality of `Row` deliberately compares revisions only.
#[derive(Clone, Debug)]
pub struct Row {
    pub data: RowData,
    pub revision: u64,
}

impl PartialEq for Row {
    fn eq(&self, other: &Row) -> (r: bool) {
        self.revision == other.revision
    }
}

impl vstd::std_specs::cmp::PartialEqSpecImpl for Row {
    open spec fn obeys_eq_spec() -> bool {
        true
    }

    open spec fn eq_spec(&self, other: &Row) -> bool {
        self.revision == other.revision
    }
}

} // verus!
