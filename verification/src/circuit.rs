//! Differential operators: integration of row-level deltas into maintained
//! Z-sets, and the indexed delta-join that turns a single change on one side
//! of a foreign-key join into the affected join-result deltas.

use vstd::prelude::*;

use crate::pmap;
use crate::row::RowData;
use im::ordmap::OrdMap;

verus! {

/// A value with a signed multiplicity; multiplicity 0 means "absent".
#[derive(Clone, Debug)]
pub struct ZVal {
    pub value: RowData,
    pub multiplicity: i64,
}

/// A change to a keyed Z-set: +1 for an insertion, -1 for a removal.
#[derive(Clone, Debug)]
pub struct ZDelta {
    pub key: u32,
    pub value: RowData,
    pub multiplicity: i64,
}

/// A value of a join result — the two joined rows — with its multiplicity.
#[derive(Clone, Debug)]
pub struct ZPairVal {
    pub left: RowData,
    pub right: RowData,
    pub multiplicity: i64,
}

/// A change to a join result, keyed by the joined rows' identifiers.
#[derive(Clone, Debug)]
pub struct ZPairDelta {
    pub dst: u32,
    pub src: u32,
    pub left: RowData,
    pub right: RowData,
    pub multiplicity: i64,
}

/// Integration operator: maintains the running per-key sum of multiplicities
/// of a stream of deltas, which is the materialized current state.
pub struct Integrate {
    state: OrdMap<u32, ZVal>,
}

impl Integrate {
    /// The materialized Z-set.
    pub closed spec fn state(self) -> Map<u32, ZVal> {
        pmap::zmap_of(self.state)
    }

    /// The current multiplicity of key `k`; 0 when absent.
    pub open spec fn mult_of(self, k: u32) -> int {
        if self.state().contains_key(k) {
            self.state()[k].multiplicity as int
        } else {
            0
        }
    }

    pub fn new() -> (r: Integrate)
        ensures
            forall|k: u32| !r.state().contains_key(k),
    {
        Integrate { state: pmap::zmap_new() }
    }

    /// Folds one delta into the running state: the key's multiplicity grows
    /// by the delta's, and the first value seen for a key stays as its
    /// representative.
    pub fn eval(&mut self, d: ZDelta)
        requires
            i64::MIN <= old(self).mult_of(d.key) + d.multiplicity <= i64::MAX,
        ensures
            final(self).state().dom() == old(self).state().dom().insert(d.key),
            forall|k: u32|
                k != d.key && old(self).state().contains_key(k) ==> final(self).state()[k] == (
                #[trigger] old(self).state()[k]),
            final(self).mult_of(d.key) == old(self).mult_of(d.key) + d.multiplicity,
            final(self).state()[d.key].value == (if old(self).state().contains_key(d.key) {
                old(self).state()[d.key].value
            } else {
                d.value
            }),
    {
        let ghost pre = self.state();
        let nv = match pmap::zmap_remove(&mut self.state, d.key) {
            Some(z) => ZVal { value: z.value, multiplicity: z.multiplicity + d.multiplicity },
            None => ZVal { value: d.value, multiplicity: d.multiplicity },
        };
        pmap::zmap_insert(&mut self.state, d.key, nv);
        proof {
            assert(self.state().dom() =~= pre.dom().insert(d.key));
        }
    }

    pub fn get(&self, k: u32) -> (r: Option<&ZVal>)
        ensures
            match r {
                Some(v) => self.state().contains_key(k) && *v == self.state()[k],
                None => !self.state().contains_key(k),
            },
    {
        pmap::zmap_get(&self.state, k)
    }

    /// The multiplicity of `k` in the materialized state; 0 when absent.
    pub fn multiplicity(&self, k: u32) -> (r: i64)
        ensures
            r == self.mult_of(k),
    {
        match pmap::zmap_get(&self.state, k) {
            Some(v) => v.multiplicity,
            None => 0,
        }
    }

    /// The materialized state as a list, ascending by key; values are
    /// copies.
    pub fn entries(&self) -> (r: Vec<(u32, ZVal)>)
        ensures
            forall|i: int, j: int| 0 <= i < j < r@.len() ==> r@[i].0 < r@[j].0,
            forall|i: int|
                0 <= i < r@.len() ==> self.state().contains_key((#[trigger] r@[i]).0)
                    && r@[i].1.multiplicity == self.state()[r@[i].0].multiplicity
                    && r@[i].1.value.attrs@ == self.state()[r@[i].0].value.attrs@
                    && r@[i].1.value.fks@ == self.state()[r@[i].0].value.fks@,
            forall|k: u32|
                self.state().contains_key(k) ==> exists|i: int|
                    0 <= i < r@.len() && (#[trigger] r@[i]).0 == k,
    {
        pmap::zmap_to_vec(&self.state)
    }
}

/// Integration operator over join-result deltas, keyed by the pair of the
/// two joined rows' identifiers.
pub struct IntegratePairs {
    state: OrdMap<(u32, u32), ZPairVal>,
}

impl IntegratePairs {
    /// The materialized Z-set.
    pub closed spec fn state(self) -> Map<(u32, u32), ZPairVal> {
        pmap::pzmap_of(self.state)
    }

    /// The current multiplicity of key `k`; 0 when absent.
    pub open spec fn mult_of(self, k: (u32, u32)) -> int {
        if self.state().contains_key(k) {
            self.state()[k].multiplicity as int
        } else {
            0
        }
    }

    pub fn new() -> (r: IntegratePairs)
        ensures
            forall|k: (u32, u32)| !r.state().contains_key(k),
    {
        IntegratePairs { state: pmap::pzmap_new() }
    }

    /// Folds one join delta into the running state.
    pub fn eval(&mut self, d: ZPairDelta)
        requires
            i64::MIN <= old(self).mult_of((d.dst, d.src)) + d.multiplicity <= i64::MAX,
        ensures
            final(self).state().dom() == old(self).state().dom().insert((d.dst, d.src)),
            forall|k: (u32, u32)|
                k != (d.dst, d.src) && old(self).state().contains_key(k) ==> final(self).state()[k]
                    == (#[trigger] old(self).state()[k]),
            final(self).mult_of((d.dst, d.src)) == old(self).mult_of((d.dst, d.src))
                + d.multiplicity,
            final(self).state()[(d.dst, d.src)].left == (if old(self).state().contains_key(
                (d.dst, d.src),
            ) {
                old(self).state()[(d.dst, d.src)].left
            } else {
                d.left
            }),
            final(self).state()[(d.dst, d.src)].right == (if old(self).state().contains_key(
                (d.dst, d.src),
            ) {
                old(self).state()[(d.dst, d.src)].right
            } else {
                d.right
            }),
    {
        let ghost pre = self.state();
        let key = (d.dst, d.src);
        let nv = match pmap::pzmap_remove(&mut self.state, key) {
            Some(z) => ZPairVal {
                left: z.left,
                right: z.right,
                multiplicity: z.multiplicity + d.multiplicity,
            },
            None => ZPairVal { left: d.left, right: d.right, multiplicity: d.multiplicity },
        };
        pmap::pzmap_insert(&mut self.state, key, nv);
        proof {
            assert(self.state().dom() =~= pre.dom().insert(key));
        }
    }

    /// The multiplicity of `k` in the materialized state; 0 when absent.
    pub fn multiplicity(&self, k: (u32, u32)) -> (r: i64)
        ensures
            r == self.mult_of(k),
    {
        match pmap::pzmap_get(&self.state, k) {
            Some(v) => v.multiplicity,
            None => 0,
        }
    }

    /// The materialized state as a list, ascending by key; values are
    /// copies.
    pub fn entries(&self) -> (r: Vec<((u32, u32), ZPairVal)>)
        ensures
            forall|i: int|
                0 <= i < r@.len() ==> self.state().contains_key((#[trigger] r@[i]).0)
                    && r@[i].1.multiplicity == self.state()[r@[i].0].multiplicity
                    && r@[i].1.left.attrs@ == self.state()[r@[i].0].left.attrs@
                    && r@[i].1.right.attrs@ == self.state()[r@[i].0].right.attrs@,
            forall|k: (u32, u32)|
                self.state().contains_key(k) ==> exists|i: int|
                    0 <= i < r@.len() && (#[trigger] r@[i]).0 == k,
    {
        pmap::pzmap_to_vec(&self.state)
    }
}

/// Indexed delta-join on a foreign key: joins the materialized state of a
/// destination table against single deltas of the source table whose
/// `fks[rel]` slot names the destination.
pub struct FkJoinIndexed {
    pub rel: usize,
}

impl FkJoinIndexed {
    pub fn new(rel: usize) -> (r: FkJoinIndexed)
        ensures
            r.rel == rel,
    {
        FkJoinIndexed { rel }
    }

    /// Joins one source-side delta against the integrated destination state:
    /// the affected join-result delta, if the destination is materialized,
    /// keyed `(destination, source)` with the product of the two
    /// multiplicities — never a recomputation of the whole result.
    pub fn eval(&self, dsts: &Integrate, d: ZDelta) -> (out: Option<ZPairDelta>)
        requires
            (self.rel as int) < d.value.fks@.len(),
            match d.value.fks@[self.rel as int] {
                Some(dk) => i64::MIN <= dsts.mult_of(dk) * d.multiplicity <= i64::MAX,
                None => true,
            },
        ensures
            match out {
                Some(o) => {
                    &&& d.value.fks@[self.rel as int] == Some(o.dst)
                    &&& dsts.state().contains_key(o.dst)
                    &&& o.src == d.key
                    &&& o.multiplicity == dsts.state()[o.dst].multiplicity * d.multiplicity
                    &&& o.left.attrs@ == dsts.state()[o.dst].value.attrs@
                    &&& o.left.fks@ == dsts.state()[o.dst].value.fks@
                    &&& o.right == d.value
                },
                None => match d.value.fks@[self.rel as int] {
                    Some(dk) => !dsts.state().contains_key(dk),
                    None => true,
                },
            },
    {
        match d.value.fks[self.rel] {
            Some(dk) => match dsts.get(dk) {
                Some(z) => {
                    let va = z.value.dup();
                    Some(
                        ZPairDelta {
                            dst: dk,
                            src: d.key,
                            left: va,
                            right: d.value,
                            multiplicity: z.multiplicity * d.multiplicity,
                        },
                    )
                },
                None => None,
            },
            None => None,
        }
    }
}

} // verus!
