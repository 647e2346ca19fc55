//! The versioned row table: a persistent ordered map from dense `u32`
//! identifiers to revisioned rows, with a monotonically increasing
//! next-identifier counter and snapshot diffing.

use vstd::prelude::*;

use crate::pmap;
use crate::row::{Row, RowData};
use im::ordmap::OrdMap;

verus! {

/// One difference between two snapshots of a table.
#[derive(Clone, Debug)]
pub enum Delta<V> {
    Insert(V),
    Remove(V),
    Update { old: V, new: V },
}

/// Whether the two table states differ at key `k`: present in one side only,
/// or present in both with different revisions.
pub open spec fn row_differs(p: Map<u32, Row>, c: Map<u32, Row>, k: u32) -> bool {
    ||| (p.contains_key(k) && !c.contains_key(k))
    ||| (!p.contains_key(k) && c.contains_key(k))
    ||| (p.contains_key(k) && c.contains_key(k) && p[k].revision != c[k].revision)
}

/// Whether `d` correctly describes, at key `k`, how table state `c` differs
/// from table state `p`.
pub open spec fn entry_matches(p: Map<u32, Row>, c: Map<u32, Row>, k: u32, d: Delta<RowData>) -> bool {
    match d {
        Delta::Insert(v) => !p.contains_key(k) && c.contains_key(k) && v == c[k].data,
        Delta::Remove(v) => p.contains_key(k) && !c.contains_key(k) && v == p[k].data,
        Delta::Update { old, new } => p.contains_key(k) && c.contains_key(k) && old == p[k].data
            && new == c[k].data && p[k].revision != c[k].revision,
    }
}

/// Whether `ds` is exactly the sequence of differences between table states
/// `p` and `c`: ascending by key, every entry a real difference, and every
/// difference recorded.
pub open spec fn is_table_diff(
    p: Map<u32, Row>,
    c: Map<u32, Row>,
    ds: Seq<(u32, Delta<RowData>)>,
) -> bool {
    &&& forall|i: int, j: int| 0 <= i < j < ds.len() ==> ds[i].0 < ds[j].0
    &&& forall|i: int| 0 <= i < ds.len() ==> entry_matches(p, c, (#[trigger] ds[i]).0, ds[i].1)
    &&& forall|k: u32|
        row_differs(p, c, k) ==> exists|i: int| 0 <= i < ds.len() && (#[trigger] ds[i]).0 == k
}

/// Whether `d` is the content of some live row of table state `m`.
pub open spec fn is_row_value_of(m: Map<u32, Row>, d: RowData) -> bool {
    exists|k: u32| #[trigger] m.dom().contains(k) && d == m[k].data
}

/// Delta soundness, reflexive case: a diff between equal table states is
/// empty — no spurious events are ever reported.
pub proof fn lemma_diff_of_equal_is_empty(m: Map<u32, Row>, ds: Seq<(u32, Delta<RowData>)>)
    requires
        is_table_diff(m, m, ds),
    ensures
        ds.len() == 0,
{
    if ds.len() > 0 {
        assert(entry_matches(m, m, ds[0].0, ds[0].1));
    }
}

/// Delta soundness, single insertion: diffing across exactly one fresh
/// insertion yields exactly that insertion.
pub proof fn lemma_diff_after_insert(
    p: Map<u32, Row>,
    k: u32,
    row: Row,
    ds: Seq<(u32, Delta<RowData>)>,
)
    requires
        !p.contains_key(k),
        is_table_diff(p, p.insert(k, row), ds),
    ensures
        ds.len() == 1,
        ds[0].0 == k,
        ds[0].1 == Delta::Insert(row.data),
{
    let c = p.insert(k, row);
    assert(row_differs(p, c, k));
    let i = choose|i: int| 0 <= i < ds.len() && (#[trigger] ds[i]).0 == k;
    assert forall|j: int| 0 <= j < ds.len() implies (#[trigger] ds[j]).0 == k by {
        assert(entry_matches(p, c, ds[j].0, ds[j].1));
        if ds[j].0 != k {
            assert(c[ds[j].0] == p[ds[j].0]);
        }
    }
    if ds.len() > 1 {
        assert(ds[0].0 < ds[1].0);
        assert(ds[0].0 == k && ds[1].0 == k);
    }
    assert(entry_matches(p, c, ds[0].0, ds[0].1));
    match ds[0].1 {
        Delta::Insert(v) => {
            assert(v == c[k].data);
        },
        Delta::Remove(_) => {
            assert(c.contains_key(k));
        },
        Delta::Update { .. } => {
            assert(!p.contains_key(k));
        },
    }
}

/// Delta soundness, single removal: diffing across exactly one removal of a
/// live row yields exactly that removal, carrying the removed content.
pub proof fn lemma_diff_after_remove(p: Map<u32, Row>, k: u32, ds: Seq<(u32, Delta<RowData>)>)
    requires
        p.contains_key(k),
        is_table_diff(p, p.remove(k), ds),
    ensures
        ds.len() == 1,
        ds[0].0 == k,
        ds[0].1 == Delta::Remove(p[k].data),
{
    let c = p.remove(k);
    assert(row_differs(p, c, k));
    let i = choose|i: int| 0 <= i < ds.len() && (#[trigger] ds[i]).0 == k;
    assert forall|j: int| 0 <= j < ds.len() implies (#[trigger] ds[j]).0 == k by {
        assert(entry_matches(p, c, ds[j].0, ds[j].1));
        if ds[j].0 != k {
            assert(c[ds[j].0] == p[ds[j].0]);
        }
    }
    if ds.len() > 1 {
        assert(ds[0].0 < ds[1].0);
        assert(ds[0].0 == k && ds[1].0 == k);
    }
    assert(entry_matches(p, c, ds[0].0, ds[0].1));
    match ds[0].1 {
        Delta::Remove(v) => {
            assert(v == p[k].data);
        },
        Delta::Insert(_) => {
            assert(!c.contains_key(k));
        },
        Delta::Update { .. } => {
            assert(!c.contains_key(k));
        },
    }
}

/// Stores the rows of one entity type.
pub struct Table {
    map: OrdMap<u32, Row>,
    next_id: u32,
}

impl View for Table {
    type V = Map<u32, Row>;

    closed spec fn view(&self) -> Map<u32, Row> {
        pmap::row_map_of(self.map)
    }
}

impl Table {
    /// The identifier the next insertion will be assigned. Identifiers below
    /// it are never handed out again, so a removed slot is never silently
    /// aliased by a later row.
    pub closed spec fn next(self) -> u32 {
        self.next_id
    }

    /// There are finitely many rows, and every live identifier was assigned
    /// before `next`.
    pub open spec fn wf(self) -> bool {
        &&& self@.dom().finite()
        &&& forall|k: u32| self@.contains_key(k) ==> k < self.next()
    }

    pub fn new() -> (r: Table)
        ensures
            r@ == Map::<u32, Row>::empty(),
            r.next() == 0,
            r.wf(),
    {
        let r = Table { map: pmap::row_map_new(), next_id: 0 };
        proof {
            assert(r@ =~= Map::<u32, Row>::empty());
        }
        r
    }

    /// Assigns the next identifier to `data`, stores it as a fresh row with
    /// revision 0, and returns the identifier.
    pub fn insert_at(&mut self, data: RowData) -> (id: u32)
        requires
            old(self).next() < u32::MAX,
        ensures
            id == old(self).next(),
            final(self)@ == old(self)@.insert(id, (Row { data: data, revision: 0 })),
            final(self).next() == old(self).next() + 1,
            old(self).wf() ==> final(self).wf(),
    {
        let id = self.next_id;
        self.next_id = id + 1;
        pmap::row_map_insert(&mut self.map, id, Row { data, revision: 0 });
        id
    }

    /// Removes the row stored under `id` and returns its content, or `None`
    /// if there is no such row.
    pub fn remove(&mut self, id: u32) -> (r: Option<RowData>)
        ensures
            final(self)@ == old(self)@.remove(id),
            final(self).next() == old(self).next(),
            match r {
                Some(d) => old(self)@.contains_key(id) && d == old(self)@[id].data,
                None => !old(self)@.contains_key(id),
            },
            old(self).wf() ==> final(self).wf(),
    {
        match pmap::row_map_remove(&mut self.map, id) {
            Some(row) => Some(row.data),
            None => None,
        }
    }

    /// Removes and returns the full stored row, revision included.
    pub(crate) fn take(&mut self, id: u32) -> (r: Option<Row>)
        ensures
            final(self)@ == old(self)@.remove(id),
            final(self).next() == old(self).next(),
            match r {
                Some(row) => old(self)@.contains_key(id) && row == old(self)@[id],
                None => !old(self)@.contains_key(id),
            },
            old(self).wf() ==> final(self).wf(),
    {
        pmap::row_map_remove(&mut self.map, id)
    }

    /// Stores `row` under `id`, an identifier that has already been assigned.
    pub(crate) fn put(&mut self, id: u32, row: Row)
        requires
            id < old(self).next(),
        ensures
            final(self)@ == old(self)@.insert(id, row),
            final(self).next() == old(self).next(),
            old(self).wf() ==> final(self).wf(),
    {
        pmap::row_map_insert(&mut self.map, id, row);
    }

    pub fn get(&self, id: u32) -> (r: Option<&RowData>)
        ensures
            match r {
                Some(d) => self@.contains_key(id) && *d == self@[id].data,
                None => !self@.contains_key(id),
            },
    {
        match pmap::row_map_get(&self.map, id) {
            Some(row) => Some(&row.data),
            None => None,
        }
    }

    pub fn contains(&self, id: u32) -> (r: bool)
        ensures
            r == self@.contains_key(id),
    {
        pmap::row_map_get(&self.map, id).is_some()
    }

    pub fn len(&self) -> (r: usize)
        requires
            self.wf(),
        ensures
            r == self@.dom().len(),
    {
        pmap::row_map_len(&self.map)
    }

    pub fn is_empty(&self) -> (r: bool)
        requires
            self.wf(),
        ensures
            r == (self@.dom().len() == 0),
    {
        pmap::row_map_len(&self.map) == 0
    }

    pub fn clear(&mut self)
        ensures
            final(self)@ == Map::<u32, Row>::empty(),
            final(self).next() == old(self).next(),
            final(self).wf(),
    {
        self.map = pmap::row_map_new();
        proof {
            assert(self@ =~= Map::<u32, Row>::empty());
        }
    }

    pub fn next_id(&self) -> (r: u32)
        ensures
            r == self.next(),
    {
        self.next_id
    }

    /// Every live `(identifier, content)` pair, in ascending identifier
    /// order.
    pub fn entries(&self) -> (r: Vec<(u32, RowData)>)
        ensures
            forall|i: int, j: int| 0 <= i < j < r@.len() ==> r@[i].0 < r@[j].0,
            forall|i: int|
                0 <= i < r@.len() ==> self@.contains_key((#[trigger] r@[i]).0) && r@[i].1
                    == self@[r@[i].0].data,
            forall|k: u32|
                self@.contains_key(k) ==> exists|i: int|
                    0 <= i < r@.len() && (#[trigger] r@[i]).0 == k,
    {
        pmap::row_map_to_vec(&self.map)
    }

    /// Every live identifier, in ascending order.
    pub fn keys(&self) -> (r: Vec<u32>)
        ensures
            forall|i: int, j: int| 0 <= i < j < r@.len() ==> r@[i] < r@[j],
            forall|i: int| 0 <= i < r@.len() ==> self@.contains_key(#[trigger] r@[i]),
            forall|k: u32|
                self@.contains_key(k) ==> exists|i: int| 0 <= i < r@.len() && #[trigger] r@[i] == k,
    {
        let entries = self.entries();
        let mut r: Vec<u32> = Vec::new();
        let mut i: usize = 0;
        while i < entries.len()
            invariant
                i <= entries@.len(),
                r@.len() == i,
                forall|j: int| 0 <= j < i ==> r@[j] == entries@[j].0,
                forall|a: int, b: int| 0 <= a < b < entries@.len() ==> entries@[a].0 < entries@[b].0,
                forall|j: int|
                    0 <= j < entries@.len() ==> self@.contains_key((#[trigger] entries@[j]).0),
                forall|k: u32|
                    self@.contains_key(k) ==> exists|j: int|
                        0 <= j < entries@.len() && (#[trigger] entries@[j]).0 == k,
            decreases entries@.len() - i,
        {
            r.push(entries[i].0);
            i += 1;
        }
        proof {
            assert forall|k: u32| self@.contains_key(k) implies exists|i: int|
                0 <= i < r@.len() && #[trigger] r@[i] == k by {
                let j = choose|j: int| 0 <= j < entries@.len() && (#[trigger] entries@[j]).0 == k;
                assert(r@[j] == k);
            }
        }
        r
    }

    /// The content of every live row.
    pub fn values(&self) -> (r: Vec<RowData>)
        ensures
            forall|i: int| 0 <= i < r@.len() ==> is_row_value_of(self@, #[trigger] r@[i]),
    {
        let ghost m = self@;
        let mut entries = self.entries();
        let mut r: Vec<RowData> = Vec::new();
        while entries.len() != 0
            invariant
                m == self@,
                forall|i: int|
                    0 <= i < entries@.len() ==> m.contains_key((#[trigger] entries@[i]).0)
                        && entries@[i].1 == m[entries@[i].0].data,
                forall|i: int| 0 <= i < r@.len() ==> is_row_value_of(m, #[trigger] r@[i]),
            decreases entries@.len(),
        {
            let ghost before = entries@;
            if let Some(e) = entries.pop() {
                r.push(e.1);
                proof {
                    assert(before[before.len() - 1] == e);
                    assert(m.dom().contains(e.0) && r@[r@.len() - 1] == m[e.0].data);
                    assert(is_row_value_of(m, r@[r@.len() - 1]));
                }
            }
        }
        r
    }

    /// A structurally shared copy: an independent snapshot with the same
    /// rows, revisions and next identifier, taken in O(1).
    pub fn snapshot(&self) -> (r: Table)
        ensures
            r@ == self@,
            r.next() == self.next(),
    {
        Table { map: pmap::row_map_clone(&self.map), next_id: self.next_id }
    }

    /// Exactly one difference per identifier whose presence or revision
    /// differs between `prev` and `self`, in ascending identifier order.
    pub fn delta(&self, prev: &Table) -> (r: Vec<(u32, Delta<RowData>)>)
        ensures
            is_table_diff(prev@, self@, r@),
    {
        pmap::row_map_diff(prev.raw_map(), self.raw_map())
    }

    pub(crate) fn raw_map(&self) -> (r: &OrdMap<u32, Row>)
        ensures
            pmap::row_map_of(*r) == self@,
    {
        &self.map
    }
}

} // verus!
