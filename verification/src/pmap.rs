//! Trusted surface over `im::ordmap::OrdMap`, the persistent (structurally
//! shared) ordered map that backs row tables and relationship indices.
//!
//! Each wrapper makes exactly one call into `im` and states over the
//! uninterpreted content functions (`row_map_of`, `pair_set_of`,
//! `uniq_map_of`, `zmap_of`, `pzmap_of`) what that call does, as im's source
//! shows it.

use vstd::prelude::*;

use crate::circuit::{ZPairVal, ZVal};
use crate::row::Row;
use crate::row::RowData;
use crate::table::is_table_diff;
use crate::table::Delta;
use im::ordmap::DiffItem;
use im::ordmap::OrdMap;

verus! {

#[verifier::external_type_specification]
#[verifier::external_body]
#[verifier::reject_recursive_types(K)]
#[verifier::reject_recursive_types(V)]
pub struct ExOrdMap<K, V>(OrdMap<K, V>);

/// The entries that a row table's map holds.
pub uninterp spec fn row_map_of(m: OrdMap<u32, Row>) -> Map<u32, Row>;

/// The pairs that a non-unique relationship index holds.
pub uninterp spec fn pair_set_of(m: OrdMap<(u32, u32), ()>) -> Set<(u32, u32)>;

/// The entries that a unique relationship index holds.
pub uninterp spec fn uniq_map_of(m: OrdMap<u32, u32>) -> Map<u32, u32>;

/// Relies on `im::ordmap::OrdMap::new`: the new map is empty.
#[verifier::external_body]
pub(crate) fn row_map_new() -> (r: OrdMap<u32, Row>)
    ensures
        forall|k: u32| !row_map_of(r).contains_key(k),
{
    OrdMap::new()
}

/// Relies on `im::ordmap::OrdMap::insert`: the mapping for `k` becomes `v`,
/// all other mappings are unchanged.
#[verifier::external_body]
pub(crate) fn row_map_insert(m: &mut OrdMap<u32, Row>, k: u32, v: Row)
    ensures
        row_map_of(*final(m)) == row_map_of(*old(m)).insert(k, v),
{
    m.insert(k, v);
}

/// Relies on `im::ordmap::OrdMap::remove`: the mapping for `k` is removed and
/// returned, all other mappings are unchanged.
#[verifier::external_body]
pub(crate) fn row_map_remove(m: &mut OrdMap<u32, Row>, k: u32) -> (r: Option<Row>)
    ensures
        row_map_of(*final(m)) == row_map_of(*old(m)).remove(k),
        match r {
            Some(v) => row_map_of(*old(m)).contains_key(k) && v == row_map_of(*old(m))[k],
            None => !row_map_of(*old(m)).contains_key(k),
        },
{
    m.remove(&k)
}

/// Relies on `im::ordmap::OrdMap::get`.
#[verifier::external_body]
pub(crate) fn row_map_get<'a>(m: &'a OrdMap<u32, Row>, k: u32) -> (r: Option<&'a Row>)
    ensures
        match r {
            Some(v) => row_map_of(*m).contains_key(k) && *v == row_map_of(*m)[k],
            None => !row_map_of(*m).contains_key(k),
        },
{
    m.get(&k)
}

/// Relies on `im::ordmap::OrdMap::len`.
#[verifier::external_body]
pub(crate) fn row_map_len(m: &OrdMap<u32, Row>) -> (r: usize)
    ensures
        row_map_of(*m).dom().finite() ==> r == row_map_of(*m).dom().len(),
{
    m.len()
}

/// Relies on `im::ordmap::OrdMap::clone`: an O(1) structurally shared copy
/// with the same entries.
#[verifier::external_body]
pub(crate) fn row_map_clone(m: &OrdMap<u32, Row>) -> (r: OrdMap<u32, Row>)
    ensures
        row_map_of(r) == row_map_of(*m),
{
    m.clone()
}

/// Relies on `im::ordmap::OrdMap::iter`: every entry once, in ascending key
/// order.
#[verifier::external_body]
pub(crate) fn row_map_to_vec(m: &OrdMap<u32, Row>) -> (r: Vec<(u32, RowData)>)
    ensures
        forall|i: int, j: int| 0 <= i < j < r@.len() ==> r@[i].0 < r@[j].0,
        forall|i: int|
            0 <= i < r@.len() ==> row_map_of(*m).contains_key((#[trigger] r@[i]).0) && r@[i].1
                == row_map_of(*m)[r@[i].0].data,
        forall|k: u32|
            row_map_of(*m).contains_key(k) ==> exists|i: int|
                0 <= i < r@.len() && (#[trigger] r@[i]).0 == k,
{
    m.iter().map(|(k, v)| (*k, v.data.clone())).collect()
}

/// Relies on `im::ordmap::OrdMap::diff`: one item per key whose mapping
/// differs between the two maps, in ascending key order, holding that key's
/// old and new content. `Row`'s `PartialEq`, which the diff uses to compare
/// two rows stored under the same key, compares their revisions.
#[verifier::external_body]
pub(crate) fn row_map_diff(prev: &OrdMap<u32, Row>, cur: &OrdMap<u32, Row>) -> (r: Vec<
    (u32, Delta<RowData>),
>)
    ensures
        is_table_diff(row_map_of(*prev), row_map_of(*cur), r@),
{
    prev.diff(cur)
        .map(|item| match item {
            DiffItem::Add(k, v) => (*k, Delta::Insert(v.data.clone())),
            DiffItem::Remove(k, v) => (*k, Delta::Remove(v.data.clone())),
            DiffItem::Update { old, new } => (
                *old.0,
                Delta::Update { old: old.1.data.clone(), new: new.1.data.clone() },
            ),
        })
        .collect()
}

/// Relies on `im::ordmap::OrdMap::new`: the new map is empty.
#[verifier::external_body]
pub(crate) fn pair_set_new() -> (r: OrdMap<(u32, u32), ()>)
    ensures
        pair_set_of(r) == Set::<(u32, u32)>::empty(),
{
    OrdMap::new()
}

/// Relies on `im::ordmap::OrdMap::insert`.
#[verifier::external_body]
pub(crate) fn pair_set_insert(m: &mut OrdMap<(u32, u32), ()>, k: (u32, u32))
    ensures
        pair_set_of(*final(m)) == pair_set_of(*old(m)).insert(k),
{
    m.insert(k, ());
}

/// Relies on `im::ordmap::OrdMap::remove`.
#[verifier::external_body]
pub(crate) fn pair_set_remove(m: &mut OrdMap<(u32, u32), ()>, k: (u32, u32))
    ensures
        pair_set_of(*final(m)) == pair_set_of(*old(m)).remove(k),
{
    m.remove(&k);
}

/// Relies on `im::ordmap::OrdMap::clone`: an O(1) structurally shared copy.
#[verifier::external_body]
pub(crate) fn pair_set_clone(m: &OrdMap<(u32, u32), ()>) -> (r: OrdMap<(u32, u32), ()>)
    ensures
        pair_set_of(r) == pair_set_of(*m),
{
    m.clone()
}

/// Relies on `im::ordmap::OrdMap::range`, and on tuples ordering
/// lexicographically: the second components of exactly those pairs whose
/// first component is `d`, in ascending order.
#[verifier::external_body]
pub(crate) fn pair_set_sources(m: &OrdMap<(u32, u32), ()>, d: u32) -> (r: Vec<u32>)
    ensures
        forall|i: int, j: int| 0 <= i < j < r@.len() ==> r@[i] < r@[j],
        forall|i: int| 0 <= i < r@.len() ==> pair_set_of(*m).contains((d, #[trigger] r@[i])),
        forall|s: u32|
            pair_set_of(*m).contains((d, s)) ==> exists|i: int|
                0 <= i < r@.len() && #[trigger] r@[i] == s,
{
    m.range((d, u32::MIN)..=(d, u32::MAX)).map(|(k, _v)| k.1).collect()
}

/// Relies on `im::ordmap::OrdMap::new`: the new map is empty.
#[verifier::external_body]
pub(crate) fn uniq_map_new() -> (r: OrdMap<u32, u32>)
    ensures
        forall|k: u32| !uniq_map_of(r).contains_key(k),
{
    OrdMap::new()
}

/// Relies on `im::ordmap::OrdMap::insert`.
#[verifier::external_body]
pub(crate) fn uniq_map_insert(m: &mut OrdMap<u32, u32>, k: u32, v: u32)
    ensures
        uniq_map_of(*final(m)) == uniq_map_of(*old(m)).insert(k, v),
{
    m.insert(k, v);
}

/// Relies on `im::ordmap::OrdMap::remove`.
#[verifier::external_body]
pub(crate) fn uniq_map_remove(m: &mut OrdMap<u32, u32>, k: u32)
    ensures
        uniq_map_of(*final(m)) == uniq_map_of(*old(m)).remove(k),
{
    m.remove(&k);
}

/// Relies on `im::ordmap::OrdMap::get`.
#[verifier::external_body]
pub(crate) fn uniq_map_get(m: &OrdMap<u32, u32>, k: u32) -> (r: Option<u32>)
    ensures
        match r {
            Some(v) => uniq_map_of(*m).contains_key(k) && v == uniq_map_of(*m)[k],
            None => !uniq_map_of(*m).contains_key(k),
        },
{
    m.get(&k).copied()
}

/// Relies on `im::ordmap::OrdMap::clone`: an O(1) structurally shared copy.
#[verifier::external_body]
pub(crate) fn uniq_map_clone(m: &OrdMap<u32, u32>) -> (r: OrdMap<u32, u32>)
    ensures
        uniq_map_of(r) == uniq_map_of(*m),
{
    m.clone()
}

/// The entries that an integrated Z-set keyed by row identifier holds.
pub uninterp spec fn zmap_of(m: OrdMap<u32, ZVal>) -> Map<u32, ZVal>;

/// The entries that an integrated Z-set keyed by join pairs holds.
pub uninterp spec fn pzmap_of(m: OrdMap<(u32, u32), ZPairVal>) -> Map<(u32, u32), ZPairVal>;

/// Relies on `im::ordmap::OrdMap::new`: the new map is empty.
#[verifier::external_body]
pub(crate) fn zmap_new() -> (r: OrdMap<u32, ZVal>)
    ensures
        forall|k: u32| !zmap_of(r).contains_key(k),
{
    OrdMap::new()
}

/// Relies on `im::ordmap::OrdMap::insert`.
#[verifier::external_body]
pub(crate) fn zmap_insert(m: &mut OrdMap<u32, ZVal>, k: u32, v: ZVal)
    ensures
        zmap_of(*final(m)) == zmap_of(*old(m)).insert(k, v),
{
    m.insert(k, v);
}

/// Relies on `im::ordmap::OrdMap::remove`.
#[verifier::external_body]
pub(crate) fn zmap_remove(m: &mut OrdMap<u32, ZVal>, k: u32) -> (r: Option<ZVal>)
    ensures
        zmap_of(*final(m)) == zmap_of(*old(m)).remove(k),
        match r {
            Some(v) => zmap_of(*old(m)).contains_key(k) && v == zmap_of(*old(m))[k],
            None => !zmap_of(*old(m)).contains_key(k),
        },
{
    m.remove(&k)
}

/// Relies on `im::ordmap::OrdMap::get`.
#[verifier::external_body]
pub(crate) fn zmap_get<'a>(m: &'a OrdMap<u32, ZVal>, k: u32) -> (r: Option<&'a ZVal>)
    ensures
        match r {
            Some(v) => zmap_of(*m).contains_key(k) && *v == zmap_of(*m)[k],
            None => !zmap_of(*m).contains_key(k),
        },
{
    m.get(&k)
}

/// Relies on `im::ordmap::OrdMap::iter`: every entry once, ascending; values
/// are cloned, so only their content is promised, not their identity.
#[verifier::external_body]
pub(crate) fn zmap_to_vec(m: &OrdMap<u32, ZVal>) -> (r: Vec<(u32, ZVal)>)
    ensures
        forall|i: int, j: int| 0 <= i < j < r@.len() ==> r@[i].0 < r@[j].0,
        forall|i: int|
            0 <= i < r@.len() ==> zmap_of(*m).contains_key((#[trigger] r@[i]).0) && r@[i].1.multiplicity
                == zmap_of(*m)[r@[i].0].multiplicity && r@[i].1.value.attrs@ == zmap_of(*m)[
                r@[i].0
            ].value.attrs@ && r@[i].1.value.fks@ == zmap_of(*m)[r@[i].0].value.fks@,
        forall|k: u32|
            zmap_of(*m).contains_key(k) ==> exists|i: int|
                0 <= i < r@.len() && (#[trigger] r@[i]).0 == k,
{
    m.iter().map(|(k, v)| (*k, v.clone())).collect()
}

/// Relies on `im::ordmap::OrdMap::new`: the new map is empty.
#[verifier::external_body]
pub(crate) fn pzmap_new() -> (r: OrdMap<(u32, u32), ZPairVal>)
    ensures
        forall|k: (u32, u32)| !pzmap_of(r).contains_key(k),
{
    OrdMap::new()
}

/// Relies on `im::ordmap::OrdMap::insert`.
#[verifier::external_body]
pub(crate) fn pzmap_insert(m: &mut OrdMap<(u32, u32), ZPairVal>, k: (u32, u32), v: ZPairVal)
    ensures
        pzmap_of(*final(m)) == pzmap_of(*old(m)).insert(k, v),
{
    m.insert(k, v);
}

/// Relies on `im::ordmap::OrdMap::remove`.
#[verifier::external_body]
pub(crate) fn pzmap_remove(m: &mut OrdMap<(u32, u32), ZPairVal>, k: (u32, u32)) -> (r: Option<
    ZPairVal,
>)
    ensures
        pzmap_of(*final(m)) == pzmap_of(*old(m)).remove(k),
        match r {
            Some(v) => pzmap_of(*old(m)).contains_key(k) && v == pzmap_of(*old(m))[k],
            None => !pzmap_of(*old(m)).contains_key(k),
        },
{
    m.remove(&k)
}

/// Relies on `im::ordmap::OrdMap::get`.
#[verifier::external_body]
pub(crate) fn pzmap_get<'a>(m: &'a OrdMap<(u32, u32), ZPairVal>, k: (u32, u32)) -> (r: Option<
    &'a ZPairVal,
>)
    ensures
        match r {
            Some(v) => pzmap_of(*m).contains_key(k) && *v == pzmap_of(*m)[k],
            None => !pzmap_of(*m).contains_key(k),
        },
{
    m.get(&k)
}

/// Relies on `im::ordmap::OrdMap::iter`: every entry once, in ascending
/// lexicographic key order; values are cloned, so only their content is
/// promised.
#[verifier::external_body]
pub(crate) fn pzmap_to_vec(m: &OrdMap<(u32, u32), ZPairVal>) -> (r: Vec<((u32, u32), ZPairVal)>)
    ensures
        forall|i: int, j: int|
            0 <= i < j < r@.len() ==> (r@[i].0.0 < r@[j].0.0 || (r@[i].0.0 == r@[j].0.0
                && r@[i].0.1 < r@[j].0.1)),
        forall|i: int|
            0 <= i < r@.len() ==> pzmap_of(*m).contains_key((#[trigger] r@[i]).0)
                && r@[i].1.multiplicity == pzmap_of(*m)[r@[i].0].multiplicity
                && r@[i].1.left.attrs@ == pzmap_of(*m)[r@[i].0].left.attrs@
                && r@[i].1.right.attrs@ == pzmap_of(*m)[r@[i].0].right.attrs@,
        forall|k: (u32, u32)|
            pzmap_of(*m).contains_key(k) ==> exists|i: int|
                0 <= i < r@.len() && (#[trigger] r@[i]).0 == k,
{
    m.iter().map(|(k, v)| (*k, v.clone())).collect()
}

} // verus!
