//! The store: per-entity row tables, derived relationship indices, a change
//! log, and the referential-integrity engine that keeps them consistent as
//! one logical state under insert, update and delete.

use vstd::prelude::*;

use crate::changes;
use crate::changes::{ChangeEvent, ChangeRec};
use crate::error::{Error, SchemaError};
use crate::pmap;
use crate::row::{Row, RowData, Value};
use crate::schema::{
    is_unique, rel_valid, resolve_rule, resolved_rule, schema_error_matches, schema_matches,
    schema_valid, DeleteRule, Multiplicity, RelDecl, Schema,
};
use crate::table::{entry_matches, is_table_diff, row_differs, Delta, Table};
use im::ordmap::OrdMap;

verus! {

/// One relationship index, inverting a foreign key: an ordered set of
/// `(destination, source)` pairs for relations whose inverse side is
/// to-many, and a destination-keyed map for unique relations.
pub enum RelIndex {
    Pairs(OrdMap<(u32, u32), ()>),
    Uniq(OrdMap<u32, u32>),
}

impl RelIndex {
    /// The unified model of either shape: the set of `(destination, source)`
    /// pairs the index holds.
    pub open spec fn pairs(self) -> Set<(u32, u32)> {
        match self {
            RelIndex::Pairs(m) => pmap::pair_set_of(m),
            RelIndex::Uniq(m) => Set::new(
                |p: (u32, u32)| pmap::uniq_map_of(m).contains_pair(p.0, p.1),
            ),
        }
    }

    pub open spec fn is_uniq_shape(self) -> bool {
        self is Uniq
    }
}

/// An entity-relational store with referential-integrity enforcement.
pub struct Store {
    schema: Schema,
    tables: Vec<Table>,
    indices: Vec<Vec<RelIndex>>,
    log: Vec<ChangeRec>,
    clock: u64,
    tick: u64,
}

impl Store {
    // ----- model accessors -----
    pub closed spec fn sch(self) -> Schema {
        self.schema
    }

    pub closed spec fn tabs(self) -> Seq<Table> {
        self.tables@
    }

    pub closed spec fn idxs(self) -> Seq<Seq<RelIndex>> {
        Seq::new(self.indices@.len(), |e: int| self.indices@[e]@)
    }

    pub closed spec fn log_seq(self) -> Seq<ChangeRec> {
        self.log@
    }

    /// The caller-supplied timestamp that new change records carry.
    pub closed spec fn now(self) -> u64 {
        self.clock
    }

    /// An internal mutation counter bounding every stored revision.
    pub closed spec fn ticks(self) -> u64 {
        self.tick
    }

    pub open spec fn n_ents(self) -> int {
        self.sch().entities@.len() as int
    }

    pub open spec fn n_attrs_of(self, e: int) -> int {
        self.sch().entities@[e].n_attrs as int
    }

    pub open spec fn rels_of(self, e: int) -> Seq<RelDecl> {
        self.sch().entities@[e].rels@
    }

    /// The rows of entity `e`, as a map from identifier to stored row.
    pub open spec fn tab(self, e: int) -> Map<u32, Row> {
        self.tabs()[e]@
    }

    pub open spec fn tab_next(self, e: int) -> u32 {
        self.tabs()[e].next()
    }

    /// The `(destination, source)` pairs of the index of relation `r` of
    /// entity `e`.
    pub open spec fn idx(self, e: int, r: int) -> Set<(u32, u32)> {
        self.idxs()[e][r].pairs()
    }

    /// Whether entity `e` has a live row `k`.
    pub open spec fn live(self, e: int, k: u32) -> bool {
        0 <= e < self.n_ents() && self.tab(e).contains_key(k)
    }

    /// The content of live row `k` of entity `e`.
    pub open spec fn row_at(self, e: int, k: u32) -> RowData {
        self.tab(e)[k].data
    }

    /// The foreign key of relation `r` in live row `k` of entity `e`.
    pub open spec fn fk_at(self, e: int, k: u32, r: int) -> Option<u32> {
        self.row_at(e, k).fks@[r]
    }

    // ----- well-formedness -----
    /// Tables and indices line up with the schema, indices have the shape
    /// their relation's multiplicity demands, and identifier counters bound
    /// all live identifiers.
    pub open spec fn shapes_ok(self) -> bool {
        &&& schema_valid(self.sch())
        &&& self.tabs().len() == self.n_ents()
        &&& self.idxs().len() == self.n_ents()
        &&& forall|e: int|
            0 <= e < self.n_ents() ==> (#[trigger] self.idxs()[e]).len() == self.rels_of(e).len()
        &&& forall|e: int, r: int|
            0 <= e < self.n_ents() && 0 <= r < self.rels_of(e).len() ==> ((
            #[trigger] self.idxs()[e][r]).is_uniq_shape() <==> is_unique(self.rels_of(e)[r]))
        &&& forall|e: int| 0 <= e < self.n_ents() ==> (#[trigger] self.tabs()[e]).wf()
    }

    /// Every live row has the shape its entity declares, and required
    /// foreign keys are present.
    pub open spec fn rows_ok(self) -> bool {
        forall|e: int, k: u32|
            #![trigger self.tab(e).dom().contains(k)]
            0 <= e < self.n_ents() && self.tab(e).contains_key(k) ==> {
                let d = self.tab(e)[k].data;
                &&& d.attrs@.len() == self.n_attrs_of(e)
                &&& d.fks@.len() == self.rels_of(e).len()
                &&& forall|r: int|
                    0 <= r < self.rels_of(e).len() && (#[trigger] self.rels_of(e)[r]).mult
                        == Multiplicity::One ==> d.fks@[r] is Some
            }
    }

    /// Referential integrity: every stored foreign key references a live row
    /// of the relation's destination entity type.
    pub open spec fn ref_integrity_ok(self) -> bool {
        forall|e: int, k: u32, r: int|
            #![trigger self.fk_at(e, k, r)]
            0 <= e < self.n_ents() && self.tab(e).contains_key(k) && 0 <= r < self.rels_of(
                e,
            ).len() ==> match self.fk_at(e, k, r) {
                Some(d) => self.tab(self.rels_of(e)[r].dst as int).contains_key(d),
                None => true,
            }
    }

    /// Index/row consistency: the index of relation `r` of entity `e` holds
    /// `(d, s)` exactly when live row `s` of `e` has foreign key `d` in slot
    /// `r`.
    pub open spec fn indices_ok(self) -> bool {
        forall|e: int, r: int, p: (u32, u32)|
            #![trigger self.idx(e, r).contains(p)]
            0 <= e < self.n_ents() && 0 <= r < self.rels_of(e).len() ==> (self.idx(e, r).contains(
                p,
            ) <==> (self.tab(e).contains_key(p.1) && self.tab(e)[p.1].data.fks@[r] == Some(p.0)))
    }

    /// Every stored revision is bounded by the mutation counter.
    pub open spec fn revs_ok(self) -> bool {
        forall|e: int, k: u32|
            #![trigger self.tab(e).dom().contains(k)]
            0 <= e < self.n_ents() && self.tab(e).contains_key(k) ==> self.tab(e)[k].revision
                < self.ticks()
    }

    /// The change log is timestamp-sorted and bounded by the current clock.
    pub open spec fn log_ok(self) -> bool {
        &&& changes::log_sorted(self.log_seq())
        &&& forall|i: int|
            0 <= i < self.log_seq().len() ==> (#[trigger] self.log_seq()[i]).at <= self.now()
    }

    /// The store invariant: every operation requires and preserves it.
    pub open spec fn wf(self) -> bool {
        &&& self.shapes_ok()
        &&& self.rows_ok()
        &&& self.ref_integrity_ok()
        &&& self.indices_ok()
        &&& self.revs_ok()
        &&& self.log_ok()
    }

    // ----- relating two stores -----
    /// The two stores declare the same schema.
    pub open spec fn same_schema(self, other: Store) -> bool {
        schema_matches(self.sch(), other.sch())
    }

    /// The two stores hold the same rows, revisions, counters and indices.
    pub open spec fn same_data(self, other: Store) -> bool {
        &&& self.same_schema(other)
        &&& self.n_ents() == other.n_ents()
        &&& self.tabs().len() == other.tabs().len()
        &&& forall|e: int|
            0 <= e < self.n_ents() ==> #[trigger] self.tab(e) == other.tab(e) && self.tab_next(e)
                == other.tab_next(e)
        &&& forall|e: int, r: int|
            0 <= e < self.n_ents() && 0 <= r < self.rels_of(e).len() ==> #[trigger] self.idx(e, r)
                == other.idx(e, r) && self.idxs()[e][r].is_uniq_shape()
                == other.idxs()[e][r].is_uniq_shape()
        &&& self.idxs().len() == other.idxs().len()
        &&& forall|e: int|
            0 <= e < self.n_ents() ==> (#[trigger] self.idxs()[e]).len() == other.idxs()[e].len()
    }

    /// Well-formedness only depends on a store's data, change log and
    /// mutation counter, so it carries over between stores with the same
    /// data.
    pub proof fn lemma_same_data_wf(self, other: Store)
        requires
            self.same_data(other),
            other.wf(),
            self.log_ok(),
            self.ticks() == other.ticks(),
        ensures
            self.wf(),
    {
        crate::schema::lemma_schema_matches_valid(self.sch(), other.sch());
        assert forall|e: int| 0 <= e < self.n_ents() implies (#[trigger] self.tabs()[e]).wf() by {
            assert(other.tabs()[e].wf());
            assert(self.tab(e) == other.tab(e));
            assert(self.tab_next(e) == other.tab_next(e));
        }
        assert forall|e: int, k: u32|
            #![trigger self.tab(e).dom().contains(k)]
            0 <= e < self.n_ents() && self.tab(e).contains_key(k) implies {
            let d = self.tab(e)[k].data;
            &&& d.attrs@.len() == self.n_attrs_of(e)
            &&& d.fks@.len() == self.rels_of(e).len()
            &&& forall|r: int|
                0 <= r < self.rels_of(e).len() && (#[trigger] self.rels_of(e)[r]).mult
                    == Multiplicity::One ==> d.fks@[r] is Some
            &&& self.tab(e)[k].revision < self.ticks()
        } by {
            assert(other.tab(e).dom().contains(k));
            assert(self.rels_of(e) == other.rels_of(e));
        }
        assert forall|e: int, k: u32, r: int|
            #![trigger self.fk_at(e, k, r)]
            0 <= e < self.n_ents() && self.tab(e).contains_key(k) && 0 <= r < self.rels_of(
                e,
            ).len() implies match self.fk_at(e, k, r) {
            Some(d) => self.tab(self.rels_of(e)[r].dst as int).contains_key(d),
            None => true,
        } by {
            assert(other.tab(e).dom().contains(k));
            assert(self.rels_of(e) == other.rels_of(e));
            assert(other.fk_at(e, k, r) == self.fk_at(e, k, r));
            match self.fk_at(e, k, r) {
                Some(d) => {
                    let dst = self.rels_of(e)[r].dst as int;
                    assert(rel_valid(other.rels_of(e)[r], other.n_ents()));
                    assert(other.tab(dst).contains_key(d));
                },
                None => {},
            }
        }
        assert forall|e: int, r: int|
            0 <= e < self.n_ents() && 0 <= r < self.rels_of(e).len() implies ((
        #[trigger] self.idxs()[e][r]).is_uniq_shape() <==> is_unique(self.rels_of(e)[r])) by {
            assert(self.rels_of(e) == other.rels_of(e));
            assert(self.idx(e, r) == other.idx(e, r));
            assert(self.idxs()[e][r].is_uniq_shape() == other.idxs()[e][r].is_uniq_shape());
            assert(other.idxs()[e][r].is_uniq_shape() <==> is_unique(other.rels_of(e)[r]));
        }
        assert forall|e: int, r: int, p: (u32, u32)|
            #![trigger self.idx(e, r).contains(p)]
            0 <= e < self.n_ents() && 0 <= r < self.rels_of(e).len() implies (self.idx(
            e,
            r,
        ).contains(p) <==> (self.tab(e).contains_key(p.1) && self.tab(e)[p.1].data.fks@[r] == Some(
            p.0,
        ))) by {
            assert(self.rels_of(e) == other.rels_of(e));
            assert(self.idx(e, r) == other.idx(e, r));
            assert(other.idx(e, r).contains(p) <==> (other.tab(e).contains_key(p.1) && other.tab(
                e,
            )[p.1].data.fks@[r] == Some(p.0)));
        }
    }

    // ----- insertion checks -----
    /// What, if anything, relation slot `r` of a prospective row of entity
    /// `ent` would violate: a missing required target, a dead destination, or
    /// a second source for a unique relation.
    pub open spec fn rel_check(self, ent: int, data: RowData, r: int) -> Option<Error> {
        let rel = self.rels_of(ent)[r];
        match data.fks@[r] {
            None => if rel.mult == Multiplicity::One {
                Some(Error::RelationshipTooFewTargets)
            } else {
                None
            },
            Some(d) => if !self.tab(rel.dst as int).contains_key(d) {
                Some(Error::ForeignKeyViolation)
            } else if is_unique(rel) && (exists|s: u32| self.idx(ent, r).contains((d, s))) {
                Some(Error::RelationshipTooManyTargets)
            } else {
                None
            },
        }
    }

    /// The first violated relation check at slot `r` or later.
    pub open spec fn first_rel_err_from(self, ent: int, data: RowData, r: int) -> Option<Error>
        decreases self.rels_of(ent).len() - r,
    {
        if r < 0 || r >= self.rels_of(ent).len() {
            None
        } else {
            match self.rel_check(ent, data, r) {
                Some(e) => Some(e),
                None => self.first_rel_err_from(ent, data, r + 1),
            }
        }
    }

    /// The error inserting `data` into entity `ent` would return, or `None`
    /// when the insertion is owed success.
    pub open spec fn insert_check(self, ent: int, data: RowData) -> Option<Error> {
        self.first_rel_err_from(ent, data, 0)
    }

    /// When no check from `r` on fails, each individual one from `r` on
    /// passes.
    proof fn lemma_no_rel_err(self, ent: int, data: RowData, r: int)
        requires
            0 <= r <= self.rels_of(ent).len(),
            self.first_rel_err_from(ent, data, r) is None,
        ensures
            forall|r2: int|
                r <= r2 < self.rels_of(ent).len() ==> self.rel_check(ent, data, r2) is None,
        decreases self.rels_of(ent).len() - r,
    {
        if r < self.rels_of(ent).len() {
            self.lemma_no_rel_err(ent, data, r + 1);
        }
    }

    /// After a fully checked insertion of `data` as row `id` of `ent`, with
    /// its index entries added, the store invariant holds again.
    proof fn lemma_insert_restores_wf(
        self,
        prev: Store,
        ent: int,
        data: RowData,
        id: u32,
        fkv: Seq<Option<u32>>,
    )
        requires
            prev.wf(),
            0 <= ent < prev.n_ents(),
            data.attrs@.len() == prev.n_attrs_of(ent),
            data.fks@.len() == prev.rels_of(ent).len(),
            fkv == data.fks@,
            id == prev.tab_next(ent),
            prev.ticks() < u64::MAX,
            forall|r: int|
                0 <= r < prev.rels_of(ent).len() ==> prev.rel_check(ent, data, r) is None,
            self.sch() == prev.sch(),
            self.tabs() == prev.tabs().update(ent, self.tabs()[ent]),
            self.tab(ent) == prev.tab(ent).insert(id, (Row { data: data, revision: 0 })),
            self.tab_next(ent) == id + 1,
            self.tabs()[ent].wf(),
            self.idxs().len() == prev.idxs().len(),
            forall|e2: int|
                0 <= e2 < prev.n_ents() && e2 != ent ==> #[trigger] self.idxs()[e2]
                    == prev.idxs()[e2],
            self.idxs()[ent].len() == prev.idxs()[ent].len(),
            forall|r3: int|
                0 <= r3 < prev.rels_of(ent).len() ==> (#[trigger] self.idxs()[ent][
                    r3
                ]).is_uniq_shape() == prev.idxs()[ent][r3].is_uniq_shape(),
            forall|r3: int|
                0 <= r3 < prev.rels_of(ent).len() ==> #[trigger] self.idx(ent, r3)
                    == (match fkv[r3] {
                    Some(d) => prev.idx(ent, r3).insert((d, id)),
                    None => prev.idx(ent, r3),
                }),
            self.log_seq().len() == prev.log_seq().len() + 1,
            forall|i: int|
                0 <= i < prev.log_seq().len() ==> #[trigger] self.log_seq()[i]
                    == prev.log_seq()[i],
            self.log_seq().last().at == prev.now(),
            self.now() == prev.now(),
            self.ticks() == prev.ticks() + 1,
        ensures
            self.wf(),
            self.same_schema(prev),
            forall|e2: int|
                0 <= e2 < prev.n_ents() && e2 != ent ==> #[trigger] self.tab(e2) == prev.tab(e2)
                    && self.tab_next(e2) == prev.tab_next(e2),
    {
        assert(self.n_ents() == prev.n_ents());
        assert forall|e2: int|
            0 <= e2 < prev.n_ents() && e2 != ent implies #[trigger] self.tab(e2) == prev.tab(e2)
            && self.tab_next(e2) == prev.tab_next(e2) by {
            assert(self.tabs()[e2] == prev.tabs()[e2]);
        }
        assert forall|e2: int, r3: int|
            0 <= e2 < prev.n_ents() && e2 != ent && 0 <= r3 < prev.rels_of(e2).len() implies
            #[trigger] self.idx(e2, r3) == prev.idx(e2, r3) && self.idxs()[e2][r3].is_uniq_shape()
            == prev.idxs()[e2][r3].is_uniq_shape() by {
            assert(self.idxs()[e2] == prev.idxs()[e2]);
        }
        // The fresh identifier is live in no previous table or index.
        assert(!prev.tab(ent).contains_key(id));
        assert forall|r3: int, d: u32|
            0 <= r3 < prev.rels_of(ent).len() implies !(#[trigger] prev.idx(ent, r3).contains(
            (d, id),
        )) by {
            if prev.idx(ent, r3).contains((d, id)) {
                assert(prev.tab(ent).contains_key(id));
            }
        }
        // shapes_ok
        assert forall|e2: int| 0 <= e2 < self.n_ents() implies (#[trigger] self.tabs()[e2]).wf() by {
            if e2 != ent {
                assert(self.tabs()[e2] == prev.tabs()[e2]);
            }
        }
        assert(self.shapes_ok());
        // rows_ok and revs_ok
        assert forall|e2: int, k: u32|
            #![trigger self.tab(e2).dom().contains(k)]
            0 <= e2 < self.n_ents() && self.tab(e2).contains_key(k) implies {
            let d = self.tab(e2)[k].data;
            &&& d.attrs@.len() == self.n_attrs_of(e2)
            &&& d.fks@.len() == self.rels_of(e2).len()
            &&& forall|r: int|
                0 <= r < self.rels_of(e2).len() && (#[trigger] self.rels_of(e2)[r]).mult
                    == Multiplicity::One ==> d.fks@[r] is Some
            &&& self.tab(e2)[k].revision < self.ticks()
        } by {
            if e2 == ent && k == id {
                assert(self.tab(e2)[k] == Row { data: data, revision: 0 });
                assert forall|r: int|
                    0 <= r < self.rels_of(e2).len() && (#[trigger] self.rels_of(e2)[r]).mult
                        == Multiplicity::One implies data.fks@[r] is Some by {
                    assert(prev.rel_check(ent, data, r) is None);
                }
            } else {
                if e2 == ent {
                    assert(self.tab(e2)[k] == prev.tab(e2)[k]);
                } else {
                    assert(self.tab(e2) == prev.tab(e2));
                }
                assert(prev.tab(e2).contains_key(k));
                assert(prev.tab(e2).dom().contains(k));
            }
        }
        // ref_integrity_ok
        assert forall|e2: int, k: u32, r: int|
            #![trigger self.fk_at(e2, k, r)]
            0 <= e2 < self.n_ents() && self.tab(e2).contains_key(k) && 0 <= r < self.rels_of(
                e2,
            ).len() implies match self.fk_at(e2, k, r) {
            Some(d) => self.tab(self.rels_of(e2)[r].dst as int).contains_key(d),
            None => true,
        } by {
            let dst = self.rels_of(e2)[r].dst as int;
            assert(rel_valid(prev.rels_of(e2)[r], prev.n_ents()));
            if e2 == ent && k == id {
                match data.fks@[r] {
                    Some(d) => {
                        assert(prev.rel_check(ent, data, r) is None);
                        assert(prev.tab(dst).contains_key(d));
                        if dst == ent {
                            assert(self.tab(dst).contains_key(d));
                        } else {
                            assert(self.tab(dst) == prev.tab(dst));
                        }
                    },
                    None => {},
                }
            } else {
                if e2 == ent {
                    assert(self.tab(e2)[k] == prev.tab(e2)[k]);
                } else {
                    assert(self.tab(e2) == prev.tab(e2));
                }
                assert(prev.tab(e2).contains_key(k));
                assert(prev.fk_at(e2, k, r) == self.fk_at(e2, k, r));
                match self.fk_at(e2, k, r) {
                    Some(d) => {
                        assert(prev.tab(dst).contains_key(d));
                        if dst == ent {
                            assert(self.tab(dst).contains_key(d));
                        } else {
                            assert(self.tab(dst) == prev.tab(dst));
                        }
                    },
                    None => {},
                }
            }
        }
        // indices_ok
        assert forall|e2: int, r: int, p: (u32, u32)|
            #![trigger self.idx(e2, r).contains(p)]
            0 <= e2 < self.n_ents() && 0 <= r < self.rels_of(e2).len() implies (self.idx(
            e2,
            r,
        ).contains(p) <==> (self.tab(e2).contains_key(p.1) && self.tab(e2)[p.1].data.fks@[r]
            == Some(p.0))) by {
            if e2 == ent {
                assert(prev.idx(ent, r).contains(p) <==> (prev.tab(ent).contains_key(p.1)
                    && prev.tab(ent)[p.1].data.fks@[r] == Some(p.0)));
                if p.1 == id {
                    assert(!prev.idx(ent, r).contains(p));
                    assert(self.tab(ent)[id] == Row { data: data, revision: 0 });
                } else {
                    assert(self.tab(ent).contains_key(p.1) == prev.tab(ent).contains_key(p.1));
                    if prev.tab(ent).contains_key(p.1) {
                        assert(self.tab(ent)[p.1] == prev.tab(ent)[p.1]);
                    }
                }
            } else {
                assert(self.idx(e2, r) == prev.idx(e2, r));
                assert(self.tab(e2) == prev.tab(e2));
                assert(prev.idx(e2, r).contains(p) <==> (prev.tab(e2).contains_key(p.1)
                    && prev.tab(e2)[p.1].data.fks@[r] == Some(p.0)));
            }
        }
        // log_ok
        assert forall|i: int, j: int|
            0 <= i <= j < self.log_seq().len() implies (#[trigger] self.log_seq()[i]).at <= (
        #[trigger] self.log_seq()[j]).at by {
            if j < prev.log_seq().len() {
                assert(prev.log_seq()[i].at <= prev.log_seq()[j].at);
            } else {
                if i < prev.log_seq().len() {
                    assert(prev.log_seq()[i].at <= prev.now());
                }
            }
        }
        assert forall|i: int|
            0 <= i < self.log_seq().len() implies (#[trigger] self.log_seq()[i]).at
            <= self.now() by {
            if i < prev.log_seq().len() {
                assert(prev.log_seq()[i].at <= prev.now());
            }
        }
        assert(self.wf());
    }

    // ----- construction -----
    /// Validates `schema` and returns an empty store for it, or the first
    /// schema violation found.
    pub fn new(schema: Schema) -> (r: Result<Store, SchemaError>)
        ensures
            r is Ok <==> schema_valid(schema),
            match r {
                Ok(s) => {
                    &&& s.wf()
                    &&& schema_matches(s.sch(), schema)
                    &&& s.n_ents() == schema.entities@.len()
                    &&& forall|e: int|
                        0 <= e < s.n_ents() ==> (#[trigger] s.tab(e)).dom() =~= Set::<u32>::empty()
                            && s.tab_next(e) == 0
                    &&& s.log_seq().len() == 0
                    &&& s.now() == 0
                    &&& s.ticks() == 1
                },
                Err(err) => schema_error_matches(schema, err),
            },
    {
        if let Err(err) = schema.validate() {
            return Err(err);
        }
        let n = schema.entities.len();
        let mut tables: Vec<Table> = Vec::new();
        let mut indices: Vec<Vec<RelIndex>> = Vec::new();
        let mut e: usize = 0;
        while e < n
            invariant
                n == schema.entities@.len(),
                e <= n,
                tables@.len() == e,
                indices@.len() == e,
                forall|e2: int|
                    0 <= e2 < e ==> (#[trigger] tables@[e2])@ =~= Map::<u32, Row>::empty()
                        && tables@[e2].next() == 0 && tables@[e2].wf(),
                forall|e2: int|
                    0 <= e2 < e ==> (#[trigger] indices@[e2])@.len()
                        == schema.entities@[e2].rels@.len(),
                forall|e2: int, r2: int|
                    0 <= e2 < e && 0 <= r2 < indices@[e2]@.len() ==> ((#[trigger] indices@[e2]@[
                        r2
                    ]).is_uniq_shape() <==> is_unique(schema.entities@[e2].rels@[r2]))
                        && indices@[e2]@[r2].pairs() =~= Set::<(u32, u32)>::empty(),
            decreases n - e,
        {
            tables.push(Table::new());
            let m = schema.entities[e].rels.len();
            let mut row_indices: Vec<RelIndex> = Vec::new();
            let mut r: usize = 0;
            while r < m
                invariant
                    n == schema.entities@.len(),
                    e < n,
                    m == schema.entities@[e as int].rels@.len(),
                    r <= m,
                    row_indices@.len() == r,
                    forall|r2: int|
                        0 <= r2 < r ==> ((#[trigger] row_indices@[r2]).is_uniq_shape()
                            <==> is_unique(schema.entities@[e as int].rels@[r2])) && row_indices@[
                            r2
                        ].pairs() =~= Set::<(u32, u32)>::empty(),
                decreases m - r,
            {
                let rel = schema.entities[e].rels[r];
                if rel.inv_mult == Multiplicity::Many {
                    let idx = RelIndex::Pairs(pmap::pair_set_new());
                    proof {
                        assert(idx.pairs() =~= Set::<(u32, u32)>::empty());
                    }
                    row_indices.push(idx);
                } else {
                    let idx = RelIndex::Uniq(pmap::uniq_map_new());
                    proof {
                        assert(idx.pairs() =~= Set::<(u32, u32)>::empty());
                    }
                    row_indices.push(idx);
                }
                r += 1;
            }
            indices.push(row_indices);
            e += 1;
        }
        let s = Store { schema, tables, indices, log: Vec::new(), clock: 0, tick: 1 };
        proof {
            assert forall|e2: int| 0 <= e2 < s.n_ents() implies (#[trigger] s.tab(e2)).dom()
                =~= Set::<u32>::empty() && s.tab_next(e2) == 0 by {
                assert(s.tabs()[e2]@ =~= Map::<u32, Row>::empty());
            }
            assert(s.wf());
        }
        Ok(s)
    }

    // ----- reading -----
    pub fn n_entities(&self) -> (r: usize)
        ensures
            r == self.n_ents(),
    {
        self.schema.entities.len()
    }

    pub fn contains(&self, ent: usize, id: u32) -> (r: bool)
        requires
            self.wf(),
            ent < self.n_ents(),
        ensures
            r == self.live(ent as int, id),
    {
        self.tables[ent].contains(id)
    }

    pub fn get(&self, ent: usize, id: u32) -> (r: Option<&RowData>)
        requires
            self.wf(),
            ent < self.n_ents(),
        ensures
            match r {
                Some(d) => self.live(ent as int, id) && *d == self.row_at(ent as int, id),
                None => !self.live(ent as int, id),
            },
    {
        self.tables[ent].get(id)
    }

    pub fn len(&self, ent: usize) -> (r: usize)
        requires
            self.wf(),
            ent < self.n_ents(),
        ensures
            r == self.tab(ent as int).dom().len(),
    {
        self.tables[ent].len()
    }

    pub fn next_id(&self, ent: usize) -> (r: u32)
        requires
            self.wf(),
            ent < self.n_ents(),
        ensures
            r == self.tab_next(ent as int),
    {
        self.tables[ent].next_id()
    }

    /// Every live identifier of entity `ent`, ascending.
    pub fn keys(&self, ent: usize) -> (r: Vec<u32>)
        requires
            self.wf(),
            ent < self.n_ents(),
        ensures
            forall|i: int, j: int| 0 <= i < j < r@.len() ==> r@[i] < r@[j],
            forall|i: int| 0 <= i < r@.len() ==> self.live(ent as int, #[trigger] r@[i]),
            forall|k: u32|
                self.live(ent as int, k) ==> exists|i: int|
                    0 <= i < r@.len() && #[trigger] r@[i] == k,
    {
        self.tables[ent].keys()
    }

    /// Every live `(identifier, content)` pair of entity `ent`, ascending.
    pub fn entries(&self, ent: usize) -> (r: Vec<(u32, RowData)>)
        requires
            self.wf(),
            ent < self.n_ents(),
        ensures
            forall|i: int, j: int| 0 <= i < j < r@.len() ==> r@[i].0 < r@[j].0,
            forall|i: int|
                0 <= i < r@.len() ==> self.live(ent as int, (#[trigger] r@[i]).0) && r@[i].1
                    == self.row_at(ent as int, r@[i].0),
            forall|k: u32|
                self.live(ent as int, k) ==> exists|i: int|
                    0 <= i < r@.len() && (#[trigger] r@[i]).0 == k,
    {
        self.tables[ent].entries()
    }

    /// The sources referencing destination `dst` through relation `rel` of
    /// entity `ent`, ascending.
    pub fn sources_for(&self, ent: usize, rel: usize, dst: u32) -> (r: Vec<u32>)
        requires
            self.wf(),
            ent < self.n_ents(),
            rel < self.rels_of(ent as int).len(),
        ensures
            forall|i: int, j: int| 0 <= i < j < r@.len() ==> r@[i] < r@[j],
            forall|i: int|
                0 <= i < r@.len() ==> self.idx(ent as int, rel as int).contains(
                    (dst, #[trigger] r@[i]),
                ),
            forall|s: u32|
                self.idx(ent as int, rel as int).contains((dst, s)) ==> exists|i: int|
                    0 <= i < r@.len() && #[trigger] r@[i] == s,
    {
        proof {
            assert(self.indices@.len() == self.idxs().len());
            assert(self.indices@[ent as int]@ == self.idxs()[ent as int]);
        }
        match &self.indices[ent][rel] {
            RelIndex::Pairs(m) => pmap::pair_set_sources(m, dst),
            RelIndex::Uniq(m) => {
                let mut r: Vec<u32> = Vec::new();
                if let Some(s) = pmap::uniq_map_get(m, dst) {
                    r.push(s);
                }
                proof {
                    assert forall|s: u32|
                        self.idx(ent as int, rel as int).contains((dst, s)) implies exists|i: int|
                        0 <= i < r@.len() && #[trigger] r@[i] == s by {
                        assert(pmap::uniq_map_of(*m).contains_pair(dst, s));
                        assert(r@[0] == s);
                    }
                }
                r
            },
        }
    }

    // ----- clock and change log -----
    pub fn clock(&self) -> (r: u64)
        ensures
            r == self.now(),
    {
        self.clock
    }

    pub fn tick_count(&self) -> (r: u64)
        ensures
            r == self.ticks(),
    {
        self.tick
    }

    /// Advances the timestamp that subsequent change records will carry; the
    /// caller guarantees timestamps never decrease.
    pub fn set_clock(&mut self, t: u64)
        requires
            old(self).wf(),
            t >= old(self).now(),
        ensures
            final(self).wf(),
            final(self).now() == t,
            final(self).same_data(*old(self)),
            final(self).log_seq() == old(self).log_seq(),
            final(self).ticks() == old(self).ticks(),
    {
        self.clock = t;
        proof {
            assert forall|i: int|
                0 <= i < self.log_seq().len() implies (#[trigger] self.log_seq()[i]).at
                <= self.now() by {
                assert(old(self).log_seq()[i].at <= old(self).now());
            }
            assert(self.tabs() == old(self).tabs());
            assert(self.idxs() == old(self).idxs());
            assert(self.same_data(*old(self)));
            self.lemma_same_data_wf(*old(self));
        }
    }

    /// All change records with timestamp at least `t`, oldest first.
    pub fn changes_since(&self, t: u64) -> (r: Vec<&ChangeRec>)
        requires
            self.wf(),
        ensures
            r@.len() <= self.log_seq().len(),
            forall|i: int|
                0 <= i < r@.len() ==> *(#[trigger] r@[i]) == self.log_seq()[self.log_seq().len()
                    - r@.len() + i],
            forall|i: int| 0 <= i < r@.len() ==> (#[trigger] r@[i]).at >= t,
            forall|j: int|
                0 <= j < self.log_seq().len() - r@.len() ==> (#[trigger] self.log_seq()[j]).at < t,
    {
        changes::since(&self.log, t)
    }

    /// The full change log, oldest first.
    pub fn change_log(&self) -> (r: &Vec<ChangeRec>)
        ensures
            r@ == self.log_seq(),
    {
        &self.log
    }

    // ----- snapshots and diffing -----
    /// An independent snapshot: the same schema, rows, revisions, indices and
    /// counters, sharing structure with `self` so the copy is O(1) per table.
    /// The snapshot starts its own, empty change log.
    pub fn snapshot(&self) -> (r: Store)
        requires
            self.wf(),
        ensures
            r.wf(),
            r.same_data(*self),
            r.log_seq().len() == 0,
            r.now() == self.now(),
            r.ticks() == self.ticks(),
    {
        let n = self.tables.len();
        let mut tables: Vec<Table> = Vec::new();
        let mut indices: Vec<Vec<RelIndex>> = Vec::new();
        let mut e: usize = 0;
        while e < n
            invariant
                self.wf(),
                n == self.tabs().len(),
                e <= n,
                tables@.len() == e,
                indices@.len() == e,
                forall|e2: int|
                    0 <= e2 < e ==> (#[trigger] tables@[e2])@ == self.tab(e2) && tables@[e2].next()
                        == self.tab_next(e2),
                forall|e2: int|
                    0 <= e2 < e ==> (#[trigger] indices@[e2])@.len() == self.idxs()[e2].len(),
                forall|e2: int, r2: int|
                    0 <= e2 < e && 0 <= r2 < indices@[e2]@.len() ==> (#[trigger] indices@[e2]@[
                        r2
                    ]).pairs() == self.idxs()[e2][r2].pairs() && indices@[e2]@[r2].is_uniq_shape()
                        == self.idxs()[e2][r2].is_uniq_shape(),
            decreases n - e,
        {
            tables.push(self.tables[e].snapshot());
            let m = self.indices[e].len();
            let mut row_indices: Vec<RelIndex> = Vec::new();
            let mut r: usize = 0;
            while r < m
                invariant
                    self.wf(),
                    e < self.idxs().len(),
                    m == self.idxs()[e as int].len(),
                    r <= m,
                    row_indices@.len() == r,
                    forall|r2: int|
                        0 <= r2 < r ==> (#[trigger] row_indices@[r2]).pairs() == self.idxs()[
                            e as int
                        ][r2].pairs() && row_indices@[r2].is_uniq_shape() == self.idxs()[e as int][
                            r2
                        ].is_uniq_shape(),
                decreases m - r,
            {
                match &self.indices[e][r] {
                    RelIndex::Pairs(m2) => {
                        let idx = RelIndex::Pairs(pmap::pair_set_clone(m2));
                        proof {
                            assert(idx.pairs() =~= self.idxs()[e as int][r as int].pairs());
                        }
                        row_indices.push(idx);
                    },
                    RelIndex::Uniq(m2) => {
                        let idx = RelIndex::Uniq(pmap::uniq_map_clone(m2));
                        proof {
                            assert(idx.pairs() =~= self.idxs()[e as int][r as int].pairs());
                        }
                        row_indices.push(idx);
                    },
                }
                r += 1;
            }
            indices.push(row_indices);
            e += 1;
        }
        let s = Store {
            schema: self.schema.dup(),
            tables,
            indices,
            log: Vec::new(),
            clock: self.clock,
            tick: self.tick,
        };
        proof {
            assert(s.idxs().len() == self.idxs().len());
            assert forall|e2: int, r2: int|
                0 <= e2 < s.n_ents() && 0 <= r2 < s.rels_of(e2).len() implies #[trigger] s.idx(
                e2,
                r2,
            ) == self.idx(e2, r2) && s.idxs()[e2][r2].is_uniq_shape() == self.idxs()[e2][
                r2
            ].is_uniq_shape() by {
                assert(s.idxs()[e2] == indices@[e2]@);
            }
            assert(s.same_data(*self));
            s.lemma_same_data_wf(*self);
        }
        s
    }

    /// Exactly one difference per identifier, per entity, between `prev` and
    /// `self`: ascending identifier order within each entity's list.
    pub fn diff(&self, prev: &Store) -> (r: Vec<Vec<(u32, Delta<RowData>)>>)
        requires
            self.wf(),
            prev.wf(),
            prev.n_ents() == self.n_ents(),
        ensures
            r@.len() == self.n_ents(),
            forall|e: int|
                0 <= e < self.n_ents() ==> is_table_diff(
                    prev.tab(e),
                    self.tab(e),
                    (#[trigger] r@[e])@,
                ),
    {
        let n = self.tables.len();
        let mut r: Vec<Vec<(u32, Delta<RowData>)>> = Vec::new();
        let mut e: usize = 0;
        while e < n
            invariant
                self.wf(),
                prev.wf(),
                prev.n_ents() == self.n_ents(),
                n == self.tabs().len(),
                e <= n,
                r@.len() == e,
                forall|e2: int|
                    0 <= e2 < e ==> is_table_diff(
                        prev.tab(e2),
                        self.tab(e2),
                        (#[trigger] r@[e2])@,
                    ),
            decreases n - e,
        {
            r.push(self.tables[e].delta(&prev.tables[e]));
            e += 1;
        }
        r
    }

    // ----- delete checking -----
    /// Deleting `a` forces deleting `b` through relation `r` of `b`'s
    /// entity: the relation points `b` at `a` and carries a `Cascade` rule.
    pub open spec fn cascade_edge_via(self, a: (usize, u32), b: (usize, u32), r: int) -> bool {
        &&& a.0 < self.n_ents()
        &&& b.0 < self.n_ents()
        &&& self.tab(b.0 as int).contains_key(b.1)
        &&& 0 <= r < self.rels_of(b.0 as int).len()
        &&& self.rels_of(b.0 as int)[r].dst == a.0
        &&& resolved_rule(self.rels_of(b.0 as int)[r]) == DeleteRule::Cascade
        &&& self.fk_at(b.0 as int, b.1, r) == Some(a.1)
    }

    /// Deleting `a` forces deleting `b` through some relation.
    pub open spec fn cascade_edge(self, a: (usize, u32), b: (usize, u32)) -> bool {
        exists|r: int| self.cascade_edge_via(a, b, r)
    }

    /// `p` is a chain of cascade edges starting at `root`.
    pub open spec fn cascade_path(self, root: (usize, u32), p: Seq<(usize, u32)>) -> bool {
        &&& p.len() > 0
        &&& p[0] == root
        &&& forall|i: int| 0 < i < p.len() ==> self.cascade_edge(p[i - 1], #[trigger] p[i])
    }

    /// `t` must go if `root` goes: it ends a cascade chain from `root`.
    /// Every row reaches itself.
    pub open spec fn cascade_reaches(self, root: (usize, u32), t: (usize, u32)) -> bool {
        exists|p: Seq<(usize, u32)>| self.cascade_path(root, p) && p.last() == t
    }

    /// Some live row references `t` through a relation whose delete rule is
    /// `Deny`.
    pub open spec fn deny_blocked_at(self, t: (usize, u32)) -> bool {
        exists|e: int, s: u32, r: int|
            {
                &&& 0 <= e < self.n_ents()
                &&& 0 <= r < self.rels_of(e).len()
                &&& self.rels_of(e)[r].dst == t.0
                &&& resolved_rule(self.rels_of(e)[r]) == DeleteRule::Deny
                &&& self.tab(e).contains_key(s)
                &&& #[trigger] self.fk_at(e, s, r) == Some(t.1)
            }
    }

    /// Deleting `root` is denied: a row it cascades into (itself included)
    /// is protected by a `Deny` rule.
    pub open spec fn delete_blocked(self, root: (usize, u32)) -> bool {
        exists|t: (usize, u32)| self.cascade_reaches(root, t) && self.deny_blocked_at(t)
    }

    /// `plan` lists exactly the rows that deleting `root` removes: every row
    /// `root` cascades into, each once, each live, none `Deny`-protected.
    pub open spec fn delete_plan_ok(self, root: (usize, u32), plan: Seq<(usize, u32)>) -> bool {
        &&& plan.len() > 0
        &&& plan[0] == root
        &&& plan.no_duplicates()
        &&& forall|i: int|
            0 <= i < plan.len() ==> self.cascade_reaches(root, #[trigger] plan[i]) && plan[i].0
                < self.n_ents() && self.tab(plan[i].0 as int).contains_key(plan[i].1)
                && !self.deny_blocked_at(plan[i])
        &&& forall|t: (usize, u32)| self.cascade_reaches(root, t) ==> plan.contains(t)
    }

    /// Every live row, tagged with its entity.
    pub open spec fn live_pairs(self) -> Set<(usize, u32)> {
        Set::new(|p: (usize, u32)| self.live(p.0 as int, p.1))
    }

    /// The live rows of entities below `e`.
    pub open spec fn live_pairs_below(self, e: int) -> Set<(usize, u32)> {
        Set::new(|p: (usize, u32)| (p.0 as int) < e && self.live(p.0 as int, p.1))
    }

    proof fn lemma_live_pairs_below_finite(self, e: int)
        requires
            self.wf(),
            0 <= e <= self.n_ents(),
        ensures
            self.live_pairs_below(e).finite(),
        decreases e,
    {
        if e == 0 {
            assert(self.live_pairs_below(0) =~= Set::<(usize, u32)>::empty());
        } else {
            self.lemma_live_pairs_below_finite(e - 1);
            let dom = self.tab(e - 1).dom();
            assert(self.tabs()[e - 1].wf());
            let mapped = dom.map(|k: u32| (((e - 1) as usize), k));
            dom.lemma_map_finite(|k: u32| (((e - 1) as usize), k));
            assert forall|p: (usize, u32)|
                self.live_pairs_below(e).contains(p) implies self.live_pairs_below(e - 1).union(
                mapped,
            ).contains(p) by {
                if p.0 as int == e - 1 {
                    assert(dom.contains(p.1));
                    assert(mapped.contains((((e - 1) as usize), p.1)));
                    assert(p == (((e - 1) as usize), p.1));
                }
            }
            assert(self.live_pairs_below(e) =~= self.live_pairs_below(e - 1).union(mapped).intersect(
                self.live_pairs_below(e),
            ));
            vstd::set_lib::lemma_len_intersect(
                self.live_pairs_below(e - 1).union(mapped),
                self.live_pairs_below(e),
            );
        }
    }

    proof fn lemma_live_pairs_finite(self)
        requires
            self.wf(),
        ensures
            self.live_pairs().finite(),
    {
        self.lemma_live_pairs_below_finite(self.n_ents());
        assert(self.live_pairs() =~= self.live_pairs_below(self.n_ents()));
    }

    /// Reachability is reflexive.
    proof fn lemma_reaches_self(self, root: (usize, u32))
        ensures
            self.cascade_reaches(root, root),
    {
        let p = seq![root];
        assert(self.cascade_path(root, p));
        assert(p.last() == root);
    }

    /// Reachability extends along a cascade edge.
    proof fn lemma_reaches_step(self, root: (usize, u32), a: (usize, u32), b: (usize, u32))
        requires
            self.cascade_reaches(root, a),
            self.cascade_edge(a, b),
        ensures
            self.cascade_reaches(root, b),
    {
        let p = choose|p: Seq<(usize, u32)>| self.cascade_path(root, p) && p.last() == a;
        let q = p.push(b);
        assert forall|i: int| 0 < i < q.len() implies self.cascade_edge(
            q[i - 1],
            #[trigger] q[i],
        ) by {
            if i < p.len() {
                assert(self.cascade_edge(p[i - 1], p[i]));
            } else {
                assert(q[i - 1] == a && q[i] == b);
            }
        }
        assert(self.cascade_path(root, q) && q.last() == b);
    }

    /// Any row a cascade chain from `root` ends at belongs to every
    /// edge-closed collection that holds `root`.
    proof fn lemma_path_end_in_closed(
        self,
        root: (usize, u32),
        plan: Seq<(usize, u32)>,
        p: Seq<(usize, u32)>,
    )
        requires
            self.cascade_path(root, p),
            plan.contains(root),
            forall|i: int, b: (usize, u32)|
                0 <= i < plan.len() && #[trigger] self.cascade_edge(plan[i], b) ==> plan.contains(
                    b,
                ),
        ensures
            plan.contains(p.last()),
        decreases p.len(),
    {
        if p.len() == 1 {
            assert(p.last() == root);
        } else {
            let q = p.drop_last();
            assert(self.cascade_path(root, q));
            self.lemma_path_end_in_closed(root, plan, q);
            let j = choose|j: int| 0 <= j < plan.len() && plan[j] == q.last();
            assert(self.cascade_edge(p[p.len() - 2], p[p.len() - 1]));
            assert(self.cascade_edge(plan[j], p.last()));
        }
    }

    /// A reference scan for one live row: either some `Deny`-rule relation
    /// references it, or the complete list of rows that a `Cascade` rule
    /// forces out with it.
    fn collect_refs(&self, cur: (usize, u32)) -> (res: Result<Vec<(usize, u32)>, Error>)
        requires
            self.wf(),
            cur.0 < self.n_ents(),
            self.tab(cur.0 as int).contains_key(cur.1),
        ensures
            match res {
                Ok(next) => {
                    &&& !self.deny_blocked_at(cur)
                    &&& forall|i: int|
                        0 <= i < next@.len() ==> self.cascade_edge(cur, #[trigger] next@[i])
                    &&& forall|b: (usize, u32)|
                        #[trigger] self.cascade_edge(cur, b) ==> next@.contains(b)
                },
                Err(e) => e == Error::RelationshipDeniedDelete && self.deny_blocked_at(cur),
            },
    {
        let n = self.n_entities();
        let mut out: Vec<(usize, u32)> = Vec::new();
        let mut e2: usize = 0;
        while e2 < n
            invariant
                self.wf(),
                n == self.n_ents(),
                cur.0 < self.n_ents(),
                self.tab(cur.0 as int).contains_key(cur.1),
                e2 <= n,
                forall|i: int|
                    0 <= i < out@.len() ==> self.cascade_edge(cur, #[trigger] out@[i]),
                forall|b: (usize, u32), r: int|
                    (b.0 as int) < e2 && #[trigger] self.cascade_edge_via(cur, b, r)
                        ==> out@.contains(b),
                forall|e3: int, s: u32, r: int|
                    {
                        &&& 0 <= e3 < e2
                        &&& 0 <= r < self.rels_of(e3).len()
                        &&& self.rels_of(e3)[r].dst == cur.0
                        &&& resolved_rule(self.rels_of(e3)[r]) == DeleteRule::Deny
                        &&& self.tab(e3).contains_key(s)
                    } ==> #[trigger] self.fk_at(e3, s, r) != Some(cur.1),
            decreases n - e2,
        {
            let m = self.schema.entities[e2].rels.len();
            let mut r2: usize = 0;
            while r2 < m
                invariant
                    self.wf(),
                    n == self.n_ents(),
                    cur.0 < self.n_ents(),
                    self.tab(cur.0 as int).contains_key(cur.1),
                    e2 < n,
                    m == self.rels_of(e2 as int).len(),
                    r2 <= m,
                    forall|i: int|
                        0 <= i < out@.len() ==> self.cascade_edge(cur, #[trigger] out@[i]),
                    forall|b: (usize, u32), r: int|
                        (b.0 as int) < e2 && #[trigger] self.cascade_edge_via(cur, b, r)
                            ==> out@.contains(b),
                    forall|b: (usize, u32), r: int|
                        b.0 == e2 && 0 <= r < r2 && #[trigger] self.cascade_edge_via(cur, b, r)
                            ==> out@.contains(b),
                    forall|e3: int, s: u32, r: int|
                        {
                            &&& 0 <= e3 < e2
                            &&& 0 <= r < self.rels_of(e3).len()
                            &&& self.rels_of(e3)[r].dst == cur.0
                            &&& resolved_rule(self.rels_of(e3)[r]) == DeleteRule::Deny
                            &&& self.tab(e3).contains_key(s)
                        } ==> #[trigger] self.fk_at(e3, s, r) != Some(cur.1),
                    forall|s: u32, r: int|
                        {
                            &&& 0 <= r < r2
                            &&& self.rels_of(e2 as int)[r].dst == cur.0
                            &&& resolved_rule(self.rels_of(e2 as int)[r]) == DeleteRule::Deny
                            &&& self.tab(e2 as int).contains_key(s)
                        } ==> #[trigger] self.fk_at(e2 as int, s, r) != Some(cur.1),
                decreases m - r2,
            {
                let rel = self.schema.entities[e2].rels[r2];
                if rel.dst == cur.0 {
                    let rule = resolve_rule(&rel);
                    if rule == DeleteRule::Deny {
                        let srcs = self.sources_for(e2, r2, cur.1);
                        if srcs.len() != 0 {
                            proof {
                                let s0 = srcs@[0];
                                assert(self.idx(e2 as int, r2 as int).contains((cur.1, s0)));
                                assert(self.tab(e2 as int).contains_key(s0));
                                assert(self.fk_at(e2 as int, s0, r2 as int) == Some(cur.1));
                                assert(self.deny_blocked_at(cur));
                            }
                            return Err(Error::RelationshipDeniedDelete);
                        }
                        proof {
                            assert forall|sx: u32|
                                self.tab(e2 as int).contains_key(sx) implies #[trigger] self.fk_at(
                                e2 as int,
                                sx,
                                r2 as int,
                            ) != Some(cur.1) by {
                                if self.fk_at(e2 as int, sx, r2 as int) == Some(cur.1) {
                                    assert(self.idx(e2 as int, r2 as int).contains((cur.1, sx)));
                                    assert(exists|i: int|
                                        0 <= i < srcs@.len() && #[trigger] srcs@[i] == sx);
                                }
                            }
                            assert forall|b: (usize, u32), r: int|
                                b.0 == e2 && 0 <= r < r2 + 1 && #[trigger] self.cascade_edge_via(
                                    cur,
                                    b,
                                    r,
                                ) implies out@.contains(b) by {
                                if r == r2 {
                                    assert(resolved_rule(self.rels_of(e2 as int)[r])
                                        == DeleteRule::Deny);
                                }
                            }
                        }
                    } else if rule == DeleteRule::Cascade {
                        let srcs = self.sources_for(e2, r2, cur.1);
                        let ghost out_before = out@;
                        let mut si: usize = 0;
                        while si < srcs.len()
                            invariant
                                self.wf(),
                                cur.0 < self.n_ents(),
                                self.tab(cur.0 as int).contains_key(cur.1),
                                e2 < n,
                                n == self.n_ents(),
                                r2 < self.rels_of(e2 as int).len(),
                                self.rels_of(e2 as int)[r2 as int].dst == cur.0,
                                resolved_rule(self.rels_of(e2 as int)[r2 as int])
                                    == DeleteRule::Cascade,
                                si <= srcs@.len(),
                                out@.len() == out_before.len() + si,
                                forall|i: int|
                                    0 <= i < out_before.len() ==> #[trigger] out@[i]
                                        == out_before[i],
                                forall|i: int|
                                    0 <= i < si ==> #[trigger] out@[out_before.len() + i] == (
                                    e2,
                                    srcs@[i],
                                ),
                                forall|i: int|
                                    0 <= i < srcs@.len() ==> self.idx(
                                        e2 as int,
                                        r2 as int,
                                    ).contains((cur.1, #[trigger] srcs@[i])),
                                forall|i: int|
                                    0 <= i < out@.len() ==> self.cascade_edge(
                                        cur,
                                        #[trigger] out@[i],
                                    ),
                            decreases srcs@.len() - si,
                        {
                            let sv = srcs[si];
                            proof {
                                assert(self.idx(e2 as int, r2 as int).contains((cur.1, sv)));
                                assert(self.tab(e2 as int).contains_key(sv));
                                assert(self.fk_at(e2 as int, sv, r2 as int) == Some(cur.1));
                                assert(self.cascade_edge_via(cur, (e2, sv), r2 as int));
                                assert(self.cascade_edge(cur, (e2, sv)));
                            }
                            out.push((e2, sv));
                            si += 1;
                        }
                        proof {
                            assert forall|b: (usize, u32), r: int|
                                b.0 == e2 && 0 <= r < r2 + 1 && #[trigger] self.cascade_edge_via(
                                    cur,
                                    b,
                                    r,
                                ) implies out@.contains(b) by {
                                if r == r2 {
                                    assert(self.idx(e2 as int, r2 as int).contains(
                                        (cur.1, b.1),
                                    ));
                                    let i = choose|i: int|
                                        0 <= i < srcs@.len() && #[trigger] srcs@[i] == b.1;
                                    assert(out@[out_before.len() + i] == (e2, srcs@[i]));
                                } else {
                                    let j = choose|j: int|
                                        0 <= j < out_before.len() && out_before[j] == b;
                                    assert(out@[j] == b);
                                }
                            }
                            assert forall|b: (usize, u32), r: int|
                                (b.0 as int) < e2 && #[trigger] self.cascade_edge_via(
                                    cur,
                                    b,
                                    r,
                                ) implies out@.contains(b) by {
                                let j = choose|j: int|
                                    0 <= j < out_before.len() && out_before[j] == b;
                                assert(out@[j] == b);
                            }
                        }
                    } else {
                        proof {
                            assert forall|b: (usize, u32), r: int|
                                b.0 == e2 && 0 <= r < r2 + 1 && #[trigger] self.cascade_edge_via(
                                    cur,
                                    b,
                                    r,
                                ) implies out@.contains(b) by {
                                if r == r2 {
                                    assert(resolved_rule(self.rels_of(e2 as int)[r])
                                        != DeleteRule::Cascade);
                                }
                            }
                        }
                    }
                } else {
                    proof {
                        assert forall|b: (usize, u32), r: int|
                            b.0 == e2 && 0 <= r < r2 + 1 && #[trigger] self.cascade_edge_via(
                                cur,
                                b,
                                r,
                            ) implies out@.contains(b) by {
                            if r == r2 {
                                assert(self.rels_of(e2 as int)[r].dst != cur.0);
                            }
                        }
                    }
                }
                r2 += 1;
            }
            proof {
                assert forall|b: (usize, u32), r: int|
                    (b.0 as int) < e2 + 1 && #[trigger] self.cascade_edge_via(
                        cur,
                        b,
                        r,
                    ) implies out@.contains(b) by {
                    if b.0 == e2 {
                        assert(0 <= r < self.rels_of(e2 as int).len());
                    }
                }
            }
            e2 += 1;
        }
        proof {
            assert(!self.deny_blocked_at(cur)) by {
                if self.deny_blocked_at(cur) {
                    let (e3, s, r) = choose|e3: int, s: u32, r: int|
                        {
                            &&& 0 <= e3 < self.n_ents()
                            &&& 0 <= r < self.rels_of(e3).len()
                            &&& self.rels_of(e3)[r].dst == cur.0
                            &&& resolved_rule(self.rels_of(e3)[r]) == DeleteRule::Deny
                            &&& self.tab(e3).contains_key(s)
                            &&& #[trigger] self.fk_at(e3, s, r) == Some(cur.1)
                        };
                }
            }
            assert forall|b: (usize, u32)| #[trigger] self.cascade_edge(cur, b) implies out@.contains(
                b,
            ) by {
                let r = choose|r: int| self.cascade_edge_via(cur, b, r);
            }
        }
        Ok(out)
    }

    /// Whether slot `r` of surviving row `(e, k)` would be nullified by the
    /// disappearance of the rows in `gone`: it points at one of them.
    pub open spec fn fk_gone(self, e: int, k: u32, r: int, gone: Set<(usize, u32)>) -> bool {
        match self.fk_at(e, k, r) {
            Some(d) => gone.contains(((self.rels_of(e)[r].dst), d)),
            None => false,
        }
    }

    /// Whether any foreign-key slot of row `(e, k)` points into `gone`.
    pub open spec fn row_loses_fk(self, e: int, k: u32, gone: Set<(usize, u32)>) -> bool {
        exists|r: int| 0 <= r < self.rels_of(e).len() && #[trigger] self.fk_gone(e, k, r, gone)
    }

    /// How a store left by a successful deletion relates to the store it
    /// started from: the planned rows are gone, identifier counters and all
    /// other rows' attributes stand, and exactly the surviving foreign keys
    /// that pointed at deleted rows are now absent, with those rows'
    /// revisions bumped.
    pub open spec fn deleted_state(self, prev: Store, plan: Seq<(usize, u32)>) -> bool {
        let gone = plan.to_set();
        &&& forall|e: int|
            0 <= e < prev.n_ents() ==> #[trigger] self.tab_next(e) == prev.tab_next(e)
        &&& forall|p: (usize, u32)|
            #![trigger self.tab(p.0 as int).dom().contains(p.1)]
            (p.0 as int) < prev.n_ents() ==> (self.tab(p.0 as int).contains_key(p.1) <==> (
            prev.tab(p.0 as int).contains_key(p.1) && !plan.contains(p)))
        &&& forall|p: (usize, u32)|
            #![trigger self.tab(p.0 as int).dom().contains(p.1)]
            (p.0 as int) < prev.n_ents() && self.tab(p.0 as int).contains_key(p.1) ==> {
                let e = p.0 as int;
                let k = p.1;
                &&& self.tab(e)[k].data.attrs@ == prev.tab(e)[k].data.attrs@
                &&& self.tab(e)[k].data.fks@.len() == prev.tab(e)[k].data.fks@.len()
                &&& forall|r: int|
                    0 <= r < prev.rels_of(e).len() ==> #[trigger] self.fk_at(e, k, r) == (
                    if prev.fk_gone(e, k, r, gone) {
                        None
                    } else {
                        prev.fk_at(e, k, r)
                    })
                &&& self.tab(e)[k].revision == (if prev.row_loses_fk(e, k, gone) {
                    prev.ticks()
                } else {
                    prev.tab(e)[k].revision
                })
            }
    }

    /// The surviving rows that reference `dst` through some relation, with
    /// that relation's slot: everything the deletion of `dst` must nullify.
    /// Rows listed in `plan` do not count as survivors.
    fn collect_nullify_refs(&self, dst: (usize, u32), plan: &Vec<(usize, u32)>) -> (out: Vec<
        (usize, u32, usize, u32),
    >)
        requires
            self.wf(),
            dst.0 < self.n_ents(),
        ensures
            forall|i: int|
                0 <= i < out@.len() ==> {
                    let t = #[trigger] out@[i];
                    &&& t.3 == dst.1
                    &&& (t.0 as int) < self.n_ents()
                    &&& (t.2 as int) < self.rels_of(t.0 as int).len()
                    &&& self.rels_of(t.0 as int)[t.2 as int].dst == dst.0
                    &&& self.tab(t.0 as int).contains_key(t.1)
                    &&& !plan@.contains((t.0, t.1))
                    &&& self.fk_at(t.0 as int, t.1, t.2 as int) == Some(dst.1)
                },
            forall|e2: int, s: u32, r2: int|
                {
                    &&& 0 <= e2 < self.n_ents()
                    &&& 0 <= r2 < self.rels_of(e2).len()
                    &&& self.rels_of(e2)[r2].dst == dst.0
                    &&& self.tab(e2).contains_key(s)
                    &&& !plan@.contains(((e2 as usize), s))
                    &&& #[trigger] self.fk_at(e2, s, r2) == Some(dst.1)
                } ==> out@.contains(((e2 as usize), s, (r2 as usize), dst.1)),
    {
        let n = self.n_entities();
        let mut out: Vec<(usize, u32, usize, u32)> = Vec::new();
        let mut e2: usize = 0;
        while e2 < n
            invariant
                self.wf(),
                n == self.n_ents(),
                dst.0 < self.n_ents(),
                e2 <= n,
                forall|i: int|
                    0 <= i < out@.len() ==> {
                        let t = #[trigger] out@[i];
                        &&& t.3 == dst.1
                        &&& (t.0 as int) < self.n_ents()
                        &&& (t.2 as int) < self.rels_of(t.0 as int).len()
                        &&& self.rels_of(t.0 as int)[t.2 as int].dst == dst.0
                        &&& self.tab(t.0 as int).contains_key(t.1)
                        &&& !plan@.contains((t.0, t.1))
                        &&& self.fk_at(t.0 as int, t.1, t.2 as int) == Some(dst.1)
                    },
                forall|e3: int, s: u32, r2: int|
                    {
                        &&& 0 <= e3 < e2
                        &&& 0 <= r2 < self.rels_of(e3).len()
                        &&& self.rels_of(e3)[r2].dst == dst.0
                        &&& self.tab(e3).contains_key(s)
                        &&& !plan@.contains(((e3 as usize), s))
                        &&& #[trigger] self.fk_at(e3, s, r2) == Some(dst.1)
                    } ==> out@.contains(((e3 as usize), s, (r2 as usize), dst.1)),
            decreases n - e2,
        {
            let m = self.schema.entities[e2].rels.len();
            let mut r2: usize = 0;
            while r2 < m
                invariant
                    self.wf(),
                    n == self.n_ents(),
                    dst.0 < self.n_ents(),
                    e2 < n,
                    m == self.rels_of(e2 as int).len(),
                    r2 <= m,
                    forall|i: int|
                        0 <= i < out@.len() ==> {
                            let t = #[trigger] out@[i];
                            &&& t.3 == dst.1
                            &&& (t.0 as int) < self.n_ents()
                            &&& (t.2 as int) < self.rels_of(t.0 as int).len()
                            &&& self.rels_of(t.0 as int)[t.2 as int].dst == dst.0
                            &&& self.tab(t.0 as int).contains_key(t.1)
                            &&& !plan@.contains((t.0, t.1))
                            &&& self.fk_at(t.0 as int, t.1, t.2 as int) == Some(dst.1)
                        },
                    forall|e3: int, s: u32, r3: int|
                        {
                            &&& 0 <= e3 < e2
                            &&& 0 <= r3 < self.rels_of(e3).len()
                            &&& self.rels_of(e3)[r3].dst == dst.0
                            &&& self.tab(e3).contains_key(s)
                            &&& !plan@.contains(((e3 as usize), s))
                            &&& #[trigger] self.fk_at(e3, s, r3) == Some(dst.1)
                        } ==> out@.contains(((e3 as usize), s, (r3 as usize), dst.1)),
                    forall|s: u32, r3: int|
                        {
                            &&& 0 <= r3 < r2
                            &&& self.rels_of(e2 as int)[r3].dst == dst.0
                            &&& self.tab(e2 as int).contains_key(s)
                            &&& !plan@.contains(((e2 as usize), s))
                            &&& #[trigger] self.fk_at(e2 as int, s, r3) == Some(dst.1)
                        } ==> out@.contains((e2, s, (r3 as usize), dst.1)),
                decreases m - r2,
            {
                let rel = self.schema.entities[e2].rels[r2];
                if rel.dst == dst.0 {
                    let srcs = self.sources_for(e2, r2, dst.1);
                    let ghost out_before = out@;
                    let mut si: usize = 0;
                    while si < srcs.len()
                        invariant
                            self.wf(),
                            n == self.n_ents(),
                            dst.0 < self.n_ents(),
                            e2 < n,
                            r2 < self.rels_of(e2 as int).len(),
                            self.rels_of(e2 as int)[r2 as int].dst == dst.0,
                            si <= srcs@.len(),
                            forall|i: int, j: int|
                                0 <= i < j < srcs@.len() ==> srcs@[i] < srcs@[j],
                            forall|i: int|
                                0 <= i < srcs@.len() ==> self.idx(e2 as int, r2 as int).contains(
                                    (dst.1, #[trigger] srcs@[i]),
                                ),
                            out@.len() >= out_before.len(),
                            forall|i: int|
                                0 <= i < out_before.len() ==> #[trigger] out@[i]
                                    == out_before[i],
                            forall|i: int|
                                out_before.len() <= i < out@.len() ==> {
                                    let t = #[trigger] out@[i];
                                    t.0 == e2 && t.2 == r2 && t.3 == dst.1 && exists|j: int|
                                        0 <= j < si && #[trigger] srcs@[j] == t.1
                                },
                            forall|i: int|
                                0 <= i < out@.len() ==> {
                                    let t = #[trigger] out@[i];
                                    &&& t.3 == dst.1
                                    &&& (t.0 as int) < self.n_ents()
                                    &&& (t.2 as int) < self.rels_of(t.0 as int).len()
                                    &&& self.rels_of(t.0 as int)[t.2 as int].dst == dst.0
                                    &&& self.tab(t.0 as int).contains_key(t.1)
                                    &&& !plan@.contains((t.0, t.1))
                                    &&& self.fk_at(t.0 as int, t.1, t.2 as int) == Some(dst.1)
                                },
                            forall|j: int|
                                0 <= j < si && !plan@.contains((e2, #[trigger] srcs@[j]))
                                    ==> out@.contains((e2, srcs@[j], r2, dst.1)),
                        decreases srcs@.len() - si,
                    {
                        let sv = srcs[si];
                        proof {
                            assert(self.idx(e2 as int, r2 as int).contains((dst.1, sv)));
                            assert(self.tab(e2 as int).contains_key(sv));
                            assert(self.fk_at(e2 as int, sv, r2 as int) == Some(dst.1));
                        }
                        if !Self::list_contains(plan, (e2, sv)) {
                            let ghost ob = out@;
                            out.push((e2, sv, r2, dst.1));
                            proof {
                                assert forall|j: int|
                                    0 <= j < si + 1 && !plan@.contains(
                                        (e2, #[trigger] srcs@[j]),
                                    ) implies out@.contains((e2, srcs@[j], r2, dst.1)) by {
                                    if j < si {
                                        let jj = choose|jj: int|
                                            0 <= jj < ob.len() && ob[jj] == (
                                            e2,
                                            srcs@[j],
                                            r2,
                                            dst.1,
                                            );
                                        assert(out@[jj] == (e2, srcs@[j], r2, dst.1));
                                    } else {
                                        assert(out@[out@.len() - 1] == (e2, sv, r2, dst.1));
                                    }
                                }
                            }
                        } else {
                            proof {
                                assert forall|j: int|
                                    0 <= j < si + 1 && !plan@.contains(
                                        (e2, #[trigger] srcs@[j]),
                                    ) implies out@.contains((e2, srcs@[j], r2, dst.1)) by {}
                            }
                        }
                        si += 1;
                    }
                    proof {
                        assert forall|sx: u32, r3: int|
                            {
                                &&& 0 <= r3 < r2 + 1
                                &&& self.rels_of(e2 as int)[r3].dst == dst.0
                                &&& self.tab(e2 as int).contains_key(sx)
                                &&& !plan@.contains(((e2 as usize), sx))
                                &&& #[trigger] self.fk_at(e2 as int, sx, r3) == Some(dst.1)
                            } implies out@.contains((e2, sx, (r3 as usize), dst.1)) by {
                            if r3 == r2 {
                                assert(self.idx(e2 as int, r2 as int).contains((dst.1, sx)));
                                let j = choose|j: int|
                                    0 <= j < srcs@.len() && #[trigger] srcs@[j] == sx;
                            } else {
                                let jj = choose|jj: int|
                                    0 <= jj < out_before.len() && out_before[jj] == (
                                    e2,
                                    sx,
                                    (r3 as usize),
                                    dst.1,
                                    );
                                assert(out@[jj] == out_before[jj]);
                            }
                        }
                        assert forall|e3: int, sx: u32, r3: int|
                            {
                                &&& 0 <= e3 < e2
                                &&& 0 <= r3 < self.rels_of(e3).len()
                                &&& self.rels_of(e3)[r3].dst == dst.0
                                &&& self.tab(e3).contains_key(sx)
                                &&& !plan@.contains(((e3 as usize), sx))
                                &&& #[trigger] self.fk_at(e3, sx, r3) == Some(dst.1)
                            } implies out@.contains(((e3 as usize), sx, (r3 as usize), dst.1)) by {
                            let jj = choose|jj: int|
                                0 <= jj < out_before.len() && out_before[jj] == (
                                (e3 as usize),
                                sx,
                                (r3 as usize),
                                dst.1,
                                );
                            assert(out@[jj] == out_before[jj]);
                        }
                    }
                } else {
                    proof {
                        assert forall|sx: u32, r3: int|
                            {
                                &&& 0 <= r3 < r2 + 1
                                &&& self.rels_of(e2 as int)[r3].dst == dst.0
                                &&& self.tab(e2 as int).contains_key(sx)
                                &&& !plan@.contains(((e2 as usize), sx))
                                &&& #[trigger] self.fk_at(e2 as int, sx, r3) == Some(dst.1)
                            } implies out@.contains((e2, sx, (r3 as usize), dst.1)) by {
                            if r3 == r2 {
                                assert(self.rels_of(e2 as int)[r3].dst != dst.0);
                            }
                        }
                    }
                }
                r2 += 1;
            }
            proof {
                assert forall|e3: int, sx: u32, r3: int|
                    {
                        &&& 0 <= e3 < e2 + 1
                        &&& 0 <= r3 < self.rels_of(e3).len()
                        &&& self.rels_of(e3)[r3].dst == dst.0
                        &&& self.tab(e3).contains_key(sx)
                        &&& !plan@.contains(((e3 as usize), sx))
                        &&& #[trigger] self.fk_at(e3, sx, r3) == Some(dst.1)
                    } implies out@.contains(((e3 as usize), sx, (r3 as usize), dst.1)) by {
                    if e3 == e2 {
                        assert(0 <= r3 < self.rels_of(e2 as int).len());
                    }
                }
            }
            e2 += 1;
        }
        out
    }

    /// Dry run of [`Store::delete`]: computes the full deletion plan, in
    /// discovery order starting at the requested row, or the error the
    /// deletion would return; nothing is mutated either way.
    pub fn check_delete(&self, ent: usize, id: u32) -> (res: Result<Vec<(usize, u32)>, Error>)
        requires
            self.wf(),
            ent < self.n_ents(),
        ensures
            res is Ok <==> (self.live(ent as int, id) && !self.delete_blocked((ent, id))),
            match res {
                Ok(plan) => self.delete_plan_ok((ent, id), plan@),
                Err(e) => if !self.live(ent as int, id) {
                    e == Error::EntityNotFound
                } else {
                    e == Error::RelationshipDeniedDelete && self.delete_blocked((ent, id))
                },
            },
    {
        if !self.tables[ent].contains(id) {
            return Err(Error::EntityNotFound);
        }
        let ghost root = (ent, id);
        proof {
            self.lemma_live_pairs_finite();
            self.lemma_reaches_self(root);
        }
        let mut plan: Vec<(usize, u32)> = Vec::new();
        let mut work: Vec<(usize, u32)> = Vec::new();
        work.push((ent, id));
        proof {
            assert(work@[0] == root);
            assert(work@.contains(root));
            assert(work@ =~= seq![root]);
        }
        while work.len() != 0
            invariant
                self.wf(),
                ent < self.n_ents(),
                root == (ent, id),
                self.live(ent as int, id),
                plan@.no_duplicates(),
                forall|i: int|
                    0 <= i < plan@.len() ==> self.cascade_reaches(root, #[trigger] plan@[i])
                        && plan@[i].0 < self.n_ents() && self.tab(
                        plan@[i].0 as int,
                    ).contains_key(plan@[i].1) && !self.deny_blocked_at(plan@[i]),
                forall|i: int|
                    0 <= i < work@.len() ==> self.cascade_reaches(root, #[trigger] work@[i])
                        && work@[i].0 < self.n_ents() && self.tab(
                        work@[i].0 as int,
                    ).contains_key(work@[i].1),
                plan@.len() == 0 ==> work@ =~= seq![root],
                plan@.len() > 0 ==> plan@[0] == root,
                plan@.contains(root) || work@.contains(root),
                forall|i: int, b: (usize, u32)|
                    0 <= i < plan@.len() && #[trigger] self.cascade_edge(plan@[i], b)
                        ==> plan@.contains(b) || work@.contains(b),
            decreases self.live_pairs().len() - plan@.len(), work@.len(),
        {
            proof {
                self.lemma_live_pairs_finite();
                assert forall|q: (usize, u32)|
                    plan@.to_set().contains(q) implies self.live_pairs().contains(q) by {
                    let i = choose|i: int| 0 <= i < plan@.len() && plan@[i] == q;
                }
                vstd::set_lib::lemma_len_subset(plan@.to_set(), self.live_pairs());
                plan@.unique_seq_to_set();
            }
            let ghost prev_work = work@;
            let cur = work.pop().unwrap();
            proof {
                assert(cur == prev_work.last());
                assert(work@ == prev_work.drop_last());
                assert forall|b: (usize, u32)|
                    prev_work.contains(b) implies work@.contains(b) || b == cur by {
                    let i = choose|i: int| 0 <= i < prev_work.len() && prev_work[i] == b;
                    if i < prev_work.len() - 1 {
                        assert(work@[i] == b);
                    }
                }
            }
            if Self::list_contains(&plan, cur) {
                proof {
                    assert forall|i: int, b: (usize, u32)|
                        0 <= i < plan@.len() && #[trigger] self.cascade_edge(
                            plan@[i],
                            b,
                        ) implies plan@.contains(b) || work@.contains(b) by {
                        if prev_work.contains(b) {
                            assert(work@.contains(b) || b == cur);
                        }
                    }
                }
                continue ;
            }
            let next = match self.collect_refs(cur) {
                Err(e) => {
                    proof {
                        assert(self.delete_blocked(root));
                    }
                    return Err(e);
                },
                Ok(next) => next,
            };
            let ghost work_start = work@;
            let mut wi: usize = 0;
            while wi < next.len()
                invariant
                    self.wf(),
                    root == (ent, id),
                    self.cascade_reaches(root, cur),
                    cur.0 < self.n_ents(),
                    self.tab(cur.0 as int).contains_key(cur.1),
                    wi <= next@.len(),
                    forall|i: int|
                        0 <= i < next@.len() ==> self.cascade_edge(cur, #[trigger] next@[i]),
                    work@.len() == work_start.len() + wi,
                    forall|i: int|
                        0 <= i < work_start.len() ==> #[trigger] work@[i] == work_start[i],
                    forall|i: int|
                        0 <= i < wi ==> #[trigger] work@[work_start.len() + i] == next@[i],
                    forall|i: int|
                        0 <= i < work@.len() ==> self.cascade_reaches(root, #[trigger] work@[i])
                            && work@[i].0 < self.n_ents() && self.tab(
                            work@[i].0 as int,
                        ).contains_key(work@[i].1),
                decreases next@.len() - wi,
            {
                let x = next[wi];
                proof {
                    assert(self.cascade_edge(cur, x));
                    let r = choose|r: int| self.cascade_edge_via(cur, x, r);
                    assert(self.cascade_edge_via(cur, x, r));
                    self.lemma_reaches_step(root, cur, x);
                }
                work.push(x);
                wi += 1;
            }
            let ghost work_after = work@;
            let ghost plan_before = plan@;
            plan.push(cur);
            proof {
                assert(plan@ == plan_before.push(cur));
                assert forall|i: int|
                    0 <= i < plan@.len() implies self.cascade_reaches(root, #[trigger] plan@[i])
                    && plan@[i].0 < self.n_ents() && self.tab(plan@[i].0 as int).contains_key(
                    plan@[i].1,
                ) && !self.deny_blocked_at(plan@[i]) by {
                    if i < plan_before.len() {
                        assert(plan@[i] == plan_before[i]);
                    } else {
                        assert(plan@[i] == cur);
                    }
                }
                assert(plan@.no_duplicates()) by {
                    assert(!plan_before.contains(cur));
                }
                assert(plan@[0] == root) by {
                    if plan_before.len() == 0 {
                        assert(prev_work =~= seq![root]);
                        assert(cur == root);
                    }
                }
                assert(plan@.contains(root)) by {
                    if plan_before.len() > 0 {
                        assert(plan@[0] == plan_before[0]);
                    } else {
                        assert(plan@[0] == cur);
                    }
                }
                assert forall|i: int, b: (usize, u32)|
                    0 <= i < plan@.len() && #[trigger] self.cascade_edge(
                        plan@[i],
                        b,
                    ) implies plan@.contains(b) || work@.contains(b) by {
                    if i < plan_before.len() {
                        assert(plan@[i] == plan_before[i]);
                        assert(plan_before.contains(b) || prev_work.contains(b));
                        if plan_before.contains(b) {
                            let j = choose|j: int|
                                0 <= j < plan_before.len() && plan_before[j] == b;
                            assert(plan@[j] == b);
                        } else {
                            assert(work_start.contains(b) || b == cur);
                            if b == cur {
                                assert(plan@[plan@.len() - 1] == cur);
                            } else {
                                let j = choose|j: int|
                                    0 <= j < work_start.len() && work_start[j] == b;
                                assert(work@[j] == work_start[j]);
                            }
                        }
                    } else {
                        assert(plan@[i] == cur);
                        assert(next@.contains(b));
                        let j = choose|j: int| 0 <= j < next@.len() && next@[j] == b;
                        assert(work@[work_start.len() + j] == next@[j]);
                    }
                }
                // termination bookkeeping
                self.lemma_live_pairs_finite();
                plan@.unique_seq_to_set();
                assert(plan@.to_set() =~= plan_before.to_set().insert(cur)) by {
                    assert forall|q: (usize, u32)|
                        plan@.contains(q) implies plan_before.contains(q) || q == cur by {
                        let ii = choose|ii: int| 0 <= ii < plan@.len() && plan@[ii] == q;
                        if ii < plan_before.len() {
                            assert(plan_before[ii] == q);
                        }
                    }
                    assert forall|q: (usize, u32)|
                        plan_before.contains(q) implies plan@.contains(q) by {
                        let ii = choose|ii: int|
                            0 <= ii < plan_before.len() && plan_before[ii] == q;
                        assert(plan@[ii] == q);
                    }
                    assert(plan@[plan@.len() - 1] == cur);
                }
                assert forall|q: (usize, u32)|
                    plan@.to_set().contains(q) implies self.live_pairs().contains(q) by {
                    let i = choose|i: int| 0 <= i < plan@.len() && plan@[i] == q;
                }
                vstd::set_lib::lemma_len_subset(plan@.to_set(), self.live_pairs());
            }
        }
        proof {
            assert(plan@.contains(root));
            assert forall|t: (usize, u32)|
                self.cascade_reaches(root, t) implies plan@.contains(t) by {
                let p = choose|p: Seq<(usize, u32)>| self.cascade_path(root, p) && p.last() == t;
                self.lemma_path_end_in_closed(root, plan@, p);
            }
            assert(!self.delete_blocked(root)) by {
                if self.delete_blocked(root) {
                    let t0 = choose|t0: (usize, u32)|
                        self.cascade_reaches(root, t0) && self.deny_blocked_at(t0);
                    assert(plan@.contains(t0));
                    let i = choose|i: int| 0 <= i < plan@.len() && plan@[i] == t0;
                }
            }
        }
        Ok(plan)
    }

    /// Whether one of the first `upto` nullification entries targets slot
    /// `r` of row `(e, k)`.
    pub open spec fn null_applied(
        nulls: Seq<(usize, u32, usize, u32)>,
        upto: int,
        e: int,
        k: u32,
        r: int,
    ) -> bool {
        exists|ii: int|
            0 <= ii < upto && ((#[trigger] nulls[ii]).0 as int) == e && nulls[ii].1 == k && (
            nulls[ii].2 as int) == r
    }

    /// Whether one of the first `upto` nullification entries targets row
    /// `(e, k)` at all.
    pub open spec fn row_nulled(
        nulls: Seq<(usize, u32, usize, u32)>,
        upto: int,
        e: int,
        k: u32,
    ) -> bool {
        exists|ii: int|
            0 <= ii < upto && ((#[trigger] nulls[ii]).0 as int) == e && nulls[ii].1 == k
    }

    /// The stable facts every deletion phase preserves.
    pub open spec fn del_frame(self, prev: Store) -> bool {
        &&& self.sch() == prev.sch()
        &&& self.now() == prev.now()
        &&& self.ticks() == prev.ticks()
        &&& self.tabs().len() == prev.tabs().len()
        &&& self.idxs().len() == prev.idxs().len()
        &&& forall|e: int|
            0 <= e < prev.n_ents() ==> #[trigger] self.tab_next(e) == prev.tab_next(e) && self.tabs()[e].wf()
                && self.idxs()[e].len() == prev.idxs()[e].len()
        &&& forall|e: int, r: int|
            0 <= e < prev.n_ents() && 0 <= r < prev.rels_of(e).len() ==> (#[trigger] self.idxs()[
                e
            ][r]).is_uniq_shape() == prev.idxs()[e][r].is_uniq_shape()
    }

    /// The state in the middle of the removal pass: the first `upto` planned
    /// rows are gone, together with every index entry whose source row is
    /// gone; all remaining rows are untouched.
    pub open spec fn removal_state(self, prev: Store, plan: Seq<(usize, u32)>, upto: int) -> bool {
        let done = plan.subrange(0, upto);
        &&& self.del_frame(prev)
        &&& forall|p: (usize, u32)|
            #![trigger self.tab(p.0 as int).dom().contains(p.1)]
            (p.0 as int) < prev.n_ents() ==> (self.tab(p.0 as int).contains_key(p.1) <==> (
            prev.tab(p.0 as int).contains_key(p.1) && !done.contains(p)))
        &&& forall|p: (usize, u32)|
            #![trigger self.tab(p.0 as int).dom().contains(p.1)]
            (p.0 as int) < prev.n_ents() && self.tab(p.0 as int).contains_key(p.1) ==> self.tab(
                p.0 as int,
            )[p.1] == prev.tab(p.0 as int)[p.1]
        &&& forall|e: int, r: int, d: u32, sx: u32|
            #![trigger self.idx(e, r).contains((d, sx))]
            0 <= e < prev.n_ents() && 0 <= r < prev.rels_of(e).len() ==> (self.idx(e, r).contains(
                (d, sx),
            ) <==> (prev.idx(e, r).contains((d, sx)) && !done.contains(((e as usize), sx))))
    }

    /// The state in the middle of the nullify pass: all planned rows are
    /// gone, and the first `upto` nullification entries are applied.
    pub open spec fn nullify_state(
        self,
        prev: Store,
        plan: Seq<(usize, u32)>,
        nulls: Seq<(usize, u32, usize, u32)>,
        upto: int,
    ) -> bool {
        &&& self.del_frame(prev)
        &&& forall|p: (usize, u32)|
            #![trigger self.tab(p.0 as int).dom().contains(p.1)]
            (p.0 as int) < prev.n_ents() ==> (self.tab(p.0 as int).contains_key(p.1) <==> (
            prev.tab(p.0 as int).contains_key(p.1) && !plan.contains(p)))
        &&& forall|p: (usize, u32)|
            #![trigger self.tab(p.0 as int).dom().contains(p.1)]
            (p.0 as int) < prev.n_ents() && self.tab(p.0 as int).contains_key(p.1) ==> {
                let e = p.0 as int;
                let k = p.1;
                &&& self.tab(e)[k].data.attrs@ == prev.tab(e)[k].data.attrs@
                &&& self.tab(e)[k].data.fks@.len() == prev.tab(e)[k].data.fks@.len()
                &&& forall|r: int|
                    0 <= r < prev.rels_of(e).len() ==> #[trigger] self.fk_at(e, k, r) == (
                    if Self::null_applied(nulls, upto, e, k, r) {
                        None
                    } else {
                        prev.fk_at(e, k, r)
                    })
                &&& self.tab(e)[k].revision == (if Self::row_nulled(nulls, upto, e, k) {
                    prev.ticks()
                } else {
                    prev.tab(e)[k].revision
                })
            }
        &&& forall|e: int, r: int, d: u32, sx: u32|
            #![trigger self.idx(e, r).contains((d, sx))]
            0 <= e < prev.n_ents() && 0 <= r < prev.rels_of(e).len() ==> (self.idx(e, r).contains(
                (d, sx),
            ) <==> (prev.idx(e, r).contains((d, sx)) && !plan.contains(((e as usize), sx))
                && !Self::null_applied(nulls, upto, e, sx, r)))
    }

    /// Every nullification entry is a real surviving reference into the
    /// deletion plan.
    pub open spec fn nulls_sound(
        self,
        plan: Seq<(usize, u32)>,
        nulls: Seq<(usize, u32, usize, u32)>,
    ) -> bool {
        forall|i: int|
            0 <= i < nulls.len() ==> {
                let t = #[trigger] nulls[i];
                &&& (t.0 as int) < self.n_ents()
                &&& (t.2 as int) < self.rels_of(t.0 as int).len()
                &&& self.tab(t.0 as int).contains_key(t.1)
                &&& !plan.contains((t.0, t.1))
                &&& self.fk_at(t.0 as int, t.1, t.2 as int) == Some(t.3)
                &&& plan.contains(((self.rels_of(t.0 as int)[t.2 as int].dst), t.3))
            }
    }

    /// Every surviving reference into the deletion plan has a nullification
    /// entry.
    pub open spec fn nulls_complete(
        self,
        plan: Seq<(usize, u32)>,
        nulls: Seq<(usize, u32, usize, u32)>,
    ) -> bool {
        forall|e2: int, sx: u32, r2: int|
            {
                &&& 0 <= e2 < self.n_ents()
                &&& 0 <= r2 < self.rels_of(e2).len()
                &&& self.tab(e2).contains_key(sx)
                &&& !plan.contains(((e2 as usize), sx))
                &&& #[trigger] self.fk_gone(e2, sx, r2, plan.to_set())
            } ==> Self::null_applied(nulls, nulls.len() as int, e2, sx, r2)
    }

    /// After the removal and nullify passes of a checked deletion, the store
    /// invariant holds again and the store is in the advertised final state.
    #[verifier::rlimit(60)]
    proof fn lemma_delete_restores_wf(
        self,
        prev: Store,
        root: (usize, u32),
        plan: Seq<(usize, u32)>,
        nulls: Seq<(usize, u32, usize, u32)>,
    )
        requires
            prev.wf(),
            prev.delete_plan_ok(root, plan),
            prev.nulls_sound(plan, nulls),
            prev.nulls_complete(plan, nulls),
            self.del_frame_except_ticks(prev),
            self.ticks() == prev.ticks() + 1,
            self.nullify_state_rows(prev, plan, nulls),
            self.log_seq().len() >= prev.log_seq().len(),
            forall|i: int|
                0 <= i < prev.log_seq().len() ==> #[trigger] self.log_seq()[i]
                    == prev.log_seq()[i],
            forall|i: int|
                prev.log_seq().len() <= i < self.log_seq().len() ==> (#[trigger] self.log_seq()[
                    i
                ]).at == prev.now(),
        ensures
            self.wf(),
            self.same_schema(prev),
            self.deleted_state(prev, plan),
    {
        let gone = plan.to_set();
        assert(self.n_ents() == prev.n_ents());
        vstd::std_specs::vec::axiom_spec_len(&prev.sch().entities);
        assert(prev.n_ents() <= usize::MAX);
        // Surviving references into the plan are nullified slots; their
        // relation's rule can only be Nullify, so they are optional.
        assert forall|e: int, k: u32, r: int|
            0 <= e < prev.n_ents() && self.tab(e).contains_key(k) && 0 <= r < prev.rels_of(
                e,
            ).len() && prev.fk_gone(e, k, r, gone) implies resolved_rule(prev.rels_of(e)[r])
            == DeleteRule::Nullify && prev.rels_of(e)[r].mult == Multiplicity::ZeroOrOne by {
            let pp = (((e as usize)), k);
            assert(self.tab(pp.0 as int).dom().contains(pp.1));
            assert(prev.tab(e).contains_key(k));
            let d = prev.fk_at(e, k, r)->Some_0;
            let a = ((prev.rels_of(e)[r].dst), d);
            assert(gone.contains(a));
            assert(plan.contains(a));
            let ai = choose|ai: int| 0 <= ai < plan.len() && plan[ai] == a;
            assert(prev.cascade_reaches(root, a));
            assert(!prev.deny_blocked_at(a));
            let rule = resolved_rule(prev.rels_of(e)[r]);
            if rule == DeleteRule::Cascade {
                assert(prev.cascade_edge_via(a, ((e as usize), k), r));
                assert(prev.cascade_edge(a, ((e as usize), k)));
                prev.lemma_reaches_step(root, a, ((e as usize), k));
                assert(plan.contains(((e as usize), k)));
                assert(!self.tab(e).contains_key(k));
            } else if rule == DeleteRule::Deny {
                assert(prev.fk_at(e, k, r) == Some(a.1));
                assert(prev.deny_blocked_at(a));
            }
            assert(rule == DeleteRule::Nullify);
            assert(rel_valid(prev.rels_of(e)[r], prev.n_ents()));
        }
        // null_applied over the whole list coincides with fk_gone.
        assert forall|e: int, k: u32, r: int|
            0 <= e < prev.n_ents() && self.tab(e).contains_key(k) && 0 <= r < prev.rels_of(
                e,
            ).len() implies (Self::null_applied(nulls, nulls.len() as int, e, k, r)
            == prev.fk_gone(e, k, r, gone)) by {
            let pp = (((e as usize)), k);
            assert(self.tab(pp.0 as int).dom().contains(pp.1));
            assert(prev.tab(e).contains_key(k));
            assert(!plan.contains(((e as usize), k)));
            if Self::null_applied(nulls, nulls.len() as int, e, k, r) {
                let ii = choose|ii: int|
                    0 <= ii < nulls.len() && ((#[trigger] nulls[ii]).0 as int) == e
                        && nulls[ii].1 == k && (nulls[ii].2 as int) == r;
                assert(prev.fk_at(e, k, r) == Some(nulls[ii].3));
                assert(gone.contains(((prev.rels_of(e)[r].dst), nulls[ii].3)));
            }
            if prev.fk_gone(e, k, r, gone) {
                assert(Self::null_applied(nulls, nulls.len() as int, e, k, r));
            }
        }
        assert forall|e: int, k: u32|
            0 <= e < prev.n_ents() && self.tab(e).contains_key(k) implies (Self::row_nulled(
            nulls,
            nulls.len() as int,
            e,
            k,
        ) == prev.row_loses_fk(e, k, gone)) by {
            if Self::row_nulled(nulls, nulls.len() as int, e, k) {
                let ii = choose|ii: int|
                    0 <= ii < nulls.len() && ((#[trigger] nulls[ii]).0 as int) == e
                        && nulls[ii].1 == k;
                let r = nulls[ii].2 as int;
                assert(Self::null_applied(nulls, nulls.len() as int, e, k, r));
                assert(prev.fk_gone(e, k, r, gone));
            }
            if prev.row_loses_fk(e, k, gone) {
                let r = choose|r: int|
                    0 <= r < prev.rels_of(e).len() && #[trigger] prev.fk_gone(e, k, r, gone);
                assert(Self::null_applied(nulls, nulls.len() as int, e, k, r));
                let ii = choose|ii: int|
                    0 <= ii < nulls.len() && ((#[trigger] nulls[ii]).0 as int) == e
                        && nulls[ii].1 == k && (nulls[ii].2 as int) == r;
                assert(Self::row_nulled(nulls, nulls.len() as int, e, k));
            }
        }
        // rows_ok and revs_ok
        assert forall|e: int, k: u32|
            #![trigger self.tab(e).dom().contains(k)]
            0 <= e < self.n_ents() && self.tab(e).contains_key(k) implies {
            let d = self.tab(e)[k].data;
            &&& d.attrs@.len() == self.n_attrs_of(e)
            &&& d.fks@.len() == self.rels_of(e).len()
            &&& forall|r: int|
                0 <= r < self.rels_of(e).len() && (#[trigger] self.rels_of(e)[r]).mult
                    == Multiplicity::One ==> d.fks@[r] is Some
            &&& self.tab(e)[k].revision < self.ticks()
        } by {
            let pp = (((e as usize)), k);
            assert(self.tab(pp.0 as int).dom().contains(pp.1));
            assert(prev.tab(e).dom().contains(k));
            assert forall|r: int|
                0 <= r < self.rels_of(e).len() && (#[trigger] self.rels_of(e)[r]).mult
                    == Multiplicity::One implies self.tab(e)[k].data.fks@[r] is Some by {
                assert(self.fk_at(e, k, r) == (if prev.fk_gone(e, k, r, gone) {
                    None
                } else {
                    prev.fk_at(e, k, r)
                }));
                if prev.fk_gone(e, k, r, gone) {
                    assert(prev.rels_of(e)[r].mult == Multiplicity::ZeroOrOne);
                }
            }
        }
        // ref_integrity_ok
        assert forall|e: int, k: u32, r: int|
            #![trigger self.fk_at(e, k, r)]
            0 <= e < self.n_ents() && self.tab(e).contains_key(k) && 0 <= r < self.rels_of(
                e,
            ).len() implies match self.fk_at(e, k, r) {
            Some(d) => self.tab(self.rels_of(e)[r].dst as int).contains_key(d),
            None => true,
        } by {
            let pp = (((e as usize)), k);
            assert(self.tab(pp.0 as int).dom().contains(pp.1));
            assert(prev.tab(e).dom().contains(k));
            match self.fk_at(e, k, r) {
                Some(d) => {
                    assert(!prev.fk_gone(e, k, r, gone));
                    assert(prev.fk_at(e, k, r) == Some(d));
                    let dst = self.rels_of(e)[r].dst;
                    assert(rel_valid(prev.rels_of(e)[r], prev.n_ents()));
                    assert(prev.tab(dst as int).contains_key(d));
                    assert(!gone.contains((dst, d)));
                    assert(!plan.contains((dst, d)));
                    let qq = (dst, d);
                    assert(prev.tab(qq.0 as int).dom().contains(qq.1));
                    assert(self.tab(qq.0 as int).dom().contains(qq.1) <==> (prev.tab(
                        qq.0 as int,
                    ).contains_key(qq.1) && !plan.contains(qq)));
                    assert(self.tab(dst as int).contains_key(d));
                },
                None => {},
            }
        }
        // indices_ok
        assert forall|e: int, r: int, p: (u32, u32)|
            #![trigger self.idx(e, r).contains(p)]
            0 <= e < self.n_ents() && 0 <= r < self.rels_of(e).len() implies (self.idx(
            e,
            r,
        ).contains(p) <==> (self.tab(e).contains_key(p.1) && self.tab(e)[p.1].data.fks@[r]
            == Some(p.0))) by {
            let d = p.0;
            let sx = p.1;
            assert(self.idx(e, r).contains((d, sx)) <==> (prev.idx(e, r).contains((d, sx))
                && !plan.contains(((e as usize), sx)) && !Self::null_applied(
                nulls,
                nulls.len() as int,
                e,
                sx,
                r,
            )));
            assert(prev.idx(e, r).contains((d, sx)) <==> (prev.tab(e).contains_key(sx)
                && prev.tab(e)[sx].data.fks@[r] == Some(d)));
            if self.tab(e).contains_key(sx) {
                let pp = (((e as usize)), sx);
                assert(self.tab(pp.0 as int).dom().contains(pp.1));
                assert(prev.tab(e).dom().contains(sx));
                assert(self.fk_at(e, sx, r) == (if prev.fk_gone(e, sx, r, gone) {
                    None
                } else {
                    prev.fk_at(e, sx, r)
                }));
            }
        }
        // log_ok
        assert forall|i: int, j: int|
            0 <= i <= j < self.log_seq().len() implies (#[trigger] self.log_seq()[i]).at <= (
        #[trigger] self.log_seq()[j]).at by {
            if j < prev.log_seq().len() {
                assert(prev.log_seq()[i].at <= prev.log_seq()[j].at);
            } else if i < prev.log_seq().len() {
                assert(prev.log_seq()[i].at <= prev.now());
            }
        }
        assert forall|i: int|
            0 <= i < self.log_seq().len() implies (#[trigger] self.log_seq()[i]).at
            <= self.now() by {
            if i < prev.log_seq().len() {
                assert(prev.log_seq()[i].at <= prev.now());
            }
        }
        assert forall|e: int, r: int|
            0 <= e < self.n_ents() && 0 <= r < self.rels_of(e).len() implies ((
        #[trigger] self.idxs()[e][r]).is_uniq_shape() <==> is_unique(self.rels_of(e)[r])) by {
            assert(self.idxs()[e][r].is_uniq_shape() == prev.idxs()[e][r].is_uniq_shape());
            assert(prev.idxs()[e][r].is_uniq_shape() <==> is_unique(prev.rels_of(e)[r]));
        }
        assert forall|e: int| 0 <= e < self.n_ents() implies (#[trigger] self.tabs()[e]).wf() by {
            assert(self.tab_next(e) == prev.tab_next(e));
        }
        assert forall|e: int|
            0 <= e < self.n_ents() implies (#[trigger] self.idxs()[e]).len() == self.rels_of(
            e,
        ).len() by {
            assert(self.tab_next(e) == prev.tab_next(e));
            assert(prev.idxs()[e].len() == prev.rels_of(e).len());
        }
        assert(schema_valid(self.sch()));
        assert(self.tabs().len() == self.n_ents());
        assert(self.idxs().len() == self.n_ents());
        assert(self.shapes_ok());
        assert(self.rows_ok());
        assert(self.ref_integrity_ok());
        assert(self.indices_ok());
        assert(self.revs_ok());
        assert(self.log_ok());
        assert(self.wf());
        assert(self.deleted_state(prev, plan));
    }

    /// [`Store::del_frame`] without the mutation-counter clause, for the
    /// moment after the counter was advanced.
    pub open spec fn del_frame_except_ticks(self, prev: Store) -> bool {
        &&& self.sch() == prev.sch()
        &&& self.now() == prev.now()
        &&& self.tabs().len() == prev.tabs().len()
        &&& self.idxs().len() == prev.idxs().len()
        &&& forall|e: int|
            0 <= e < prev.n_ents() ==> #[trigger] self.tab_next(e) == prev.tab_next(e) && self.tabs()[e].wf()
                && self.idxs()[e].len() == prev.idxs()[e].len()
        &&& forall|e: int, r: int|
            0 <= e < prev.n_ents() && 0 <= r < prev.rels_of(e).len() ==> (#[trigger] self.idxs()[
                e
            ][r]).is_uniq_shape() == prev.idxs()[e][r].is_uniq_shape()
    }

    /// The row and index clauses of [`Store::nullify_state`] with every
    /// entry applied.
    pub open spec fn nullify_state_rows(
        self,
        prev: Store,
        plan: Seq<(usize, u32)>,
        nulls: Seq<(usize, u32, usize, u32)>,
    ) -> bool {
        &&& forall|p: (usize, u32)|
            #![trigger self.tab(p.0 as int).dom().contains(p.1)]
            (p.0 as int) < prev.n_ents() ==> (self.tab(p.0 as int).contains_key(p.1) <==> (
            prev.tab(p.0 as int).contains_key(p.1) && !plan.contains(p)))
        &&& forall|p: (usize, u32)|
            #![trigger self.tab(p.0 as int).dom().contains(p.1)]
            (p.0 as int) < prev.n_ents() && self.tab(p.0 as int).contains_key(p.1) ==> {
                let e = p.0 as int;
                let k = p.1;
                &&& self.tab(e)[k].data.attrs@ == prev.tab(e)[k].data.attrs@
                &&& self.tab(e)[k].data.fks@.len() == prev.tab(e)[k].data.fks@.len()
                &&& forall|r: int|
                    0 <= r < prev.rels_of(e).len() ==> #[trigger] self.fk_at(e, k, r) == (
                    if Self::null_applied(nulls, nulls.len() as int, e, k, r) {
                        None
                    } else {
                        prev.fk_at(e, k, r)
                    })
                &&& self.tab(e)[k].revision == (if Self::row_nulled(
                    nulls,
                    nulls.len() as int,
                    e,
                    k,
                ) {
                    prev.ticks()
                } else {
                    prev.tab(e)[k].revision
                })
            }
        &&& forall|e: int, r: int, d: u32, sx: u32|
            #![trigger self.idx(e, r).contains((d, sx))]
            0 <= e < prev.n_ents() && 0 <= r < prev.rels_of(e).len() ==> (self.idx(e, r).contains(
                (d, sx),
            ) <==> (prev.idx(e, r).contains((d, sx)) && !plan.contains(((e as usize), sx))
                && !Self::null_applied(nulls, nulls.len() as int, e, sx, r)))
    }

    /// Linear membership scan.
    fn list_contains(v: &Vec<(usize, u32)>, x: (usize, u32)) -> (b: bool)
        ensures
            b == v@.contains(x),
    {
        let mut i: usize = 0;
        while i < v.len()
            invariant
                i <= v@.len(),
                forall|j: int| 0 <= j < i ==> v@[j] != x,
            decreases v@.len() - i,
        {
            if v[i].0 == x.0 && v[i].1 == x.1 {
                proof {
                    assert(v@[i as int] == x);
                }
                return true;
            }
            i += 1;
        }
        false
    }

    /// Deletes row `id` of entity `ent` as one atomic operation: the
    /// transitive cascade closure is checked first (failing with nothing
    /// mutated if a `Deny` rule protects any of it), then every planned row
    /// is removed with its index entries and a `Removed` record, and every
    /// surviving optional reference to a removed row is set to `None` with
    /// an `FkChanged` record. Returns the removed identifiers, the requested
    /// row first.
    #[verifier::rlimit(100)]
    pub fn delete(&mut self, ent: usize, id: u32) -> (res: Result<Vec<(usize, u32)>, Error>)
        requires
            old(self).wf(),
            ent < old(self).n_ents(),
            old(self).ticks() < u64::MAX,
        ensures
            final(self).wf(),
            final(self).same_schema(*old(self)),
            res is Ok <==> (old(self).live(ent as int, id) && !old(self).delete_blocked(
                (ent, id),
            )),
            match res {
                Ok(removed) => {
                    &&& old(self).delete_plan_ok((ent, id), removed@)
                    &&& final(self).deleted_state(*old(self), removed@)
                    &&& final(self).log_seq().len() >= old(self).log_seq().len()
                    &&& forall|i: int|
                        0 <= i < old(self).log_seq().len() ==> #[trigger] final(self).log_seq()[i]
                            == old(self).log_seq()[i]
                    &&& forall|i: int|
                        old(self).log_seq().len() <= i < final(self).log_seq().len() ==> (
                        #[trigger] final(self).log_seq()[i]).at == old(self).now()
                    &&& final(self).now() == old(self).now()
                    &&& final(self).ticks() == old(self).ticks() + 1
                },
                Err(e) => {
                    &&& *final(self) == *old(self)
                    &&& if !old(self).live(ent as int, id) {
                        e == Error::EntityNotFound
                    } else {
                        e == Error::RelationshipDeniedDelete && old(self).delete_blocked(
                            (ent, id),
                        )
                    }
                },
            },
    {
        let plan = match self.check_delete(ent, id) {
            Ok(p) => p,
            Err(e) => {
                return Err(e);
            },
        };
        let ghost prev = *self;
        let ghost root = (ent, id);
        // Read phase: gather every surviving reference into the plan.
        let mut nulls: Vec<(usize, u32, usize, u32)> = Vec::new();
        let mut j: usize = 0;
        while j < plan.len()
            invariant
                self.wf(),
                *self == prev,
                prev.delete_plan_ok(root, plan@),
                j <= plan@.len(),
                prev.nulls_sound(plan@, nulls@),
                forall|e2: int, sx: u32, r2: int, jj: int|
                    #![trigger prev.fk_at(e2, sx, r2), plan@[jj]]
                    {
                        &&& 0 <= jj < j
                        &&& 0 <= e2 < prev.n_ents()
                        &&& 0 <= r2 < prev.rels_of(e2).len()
                        &&& prev.tab(e2).contains_key(sx)
                        &&& !plan@.contains(((e2 as usize), sx))
                        &&& prev.rels_of(e2)[r2].dst == plan@[jj].0
                        &&& prev.fk_at(e2, sx, r2) == Some(plan@[jj].1)
                    } ==> Self::null_applied(nulls@, nulls@.len() as int, e2, sx, r2),
            decreases plan@.len() - j,
        {
            let dstp = plan[j];
            proof {
                assert(dstp.0 < prev.n_ents());
                vstd::std_specs::vec::axiom_spec_len(&prev.sch().entities);
            }
            let more = self.collect_nullify_refs(dstp, &plan);
            let ghost nb = nulls@;
            let mut k2: usize = 0;
            while k2 < more.len()
                invariant
                    k2 <= more@.len(),
                    nulls@.len() == nb.len() + k2,
                    forall|ii: int| 0 <= ii < nb.len() ==> #[trigger] nulls@[ii] == nb[ii],
                    forall|ii: int|
                        0 <= ii < k2 ==> #[trigger] nulls@[nb.len() + ii] == more@[ii],
                decreases more@.len() - k2,
            {
                let x = more[k2];
                nulls.push(x);
                k2 += 1;
            }
            proof {
                assert(plan@.contains(plan@[j as int]));
                assert forall|i: int|
                    0 <= i < nulls@.len() implies {
                    let t = #[trigger] nulls@[i];
                    &&& (t.0 as int) < prev.n_ents()
                    &&& (t.2 as int) < prev.rels_of(t.0 as int).len()
                    &&& prev.tab(t.0 as int).contains_key(t.1)
                    &&& !plan@.contains((t.0, t.1))
                    &&& prev.fk_at(t.0 as int, t.1, t.2 as int) == Some(t.3)
                    &&& plan@.contains(((prev.rels_of(t.0 as int)[t.2 as int].dst), t.3))
                } by {
                    if i < nb.len() {
                        assert(nulls@[i] == nb[i]);
                    } else {
                        let mi = i - nb.len();
                        assert(nulls@[nb.len() + mi] == more@[mi]);
                        assert(nulls@[i] == more@[mi]);
                    }
                }
                assert forall|e2: int, sx: u32, r2: int, jj: int|
                    #![trigger prev.fk_at(e2, sx, r2), plan@[jj]]
                    {
                        &&& 0 <= jj < j + 1
                        &&& 0 <= e2 < prev.n_ents()
                        &&& 0 <= r2 < prev.rels_of(e2).len()
                        &&& prev.tab(e2).contains_key(sx)
                        &&& !plan@.contains(((e2 as usize), sx))
                        &&& prev.rels_of(e2)[r2].dst == plan@[jj].0
                        &&& prev.fk_at(e2, sx, r2) == Some(plan@[jj].1)
                    } implies Self::null_applied(nulls@, nulls@.len() as int, e2, sx, r2) by {
                    if jj == j {
                        vstd::std_specs::vec::axiom_spec_len(&prev.sch().entities);
                        vstd::std_specs::vec::axiom_spec_len(&prev.sch().entities@[e2].rels);
                        assert(more@.contains(((e2 as usize), sx, (r2 as usize), plan@[jj].1)));
                        let mi = choose|mi: int|
                            0 <= mi < more@.len() && more@[mi] == (
                            (e2 as usize),
                            sx,
                            (r2 as usize),
                            plan@[jj as int].1,
                            );
                        assert(nulls@[nb.len() + mi] == more@[mi]);
                        assert(((nulls@[nb.len() + mi]).0 as int) == e2 && nulls@[nb.len()
                            + mi].1 == sx && ((nulls@[nb.len() + mi]).2 as int) == r2);
                        assert(Self::null_applied(nulls@, nulls@.len() as int, e2, sx, r2));
                    } else {
                        assert(Self::null_applied(nb, nb.len() as int, e2, sx, r2));
                        let ii = choose|ii: int|
                            0 <= ii < nb.len() && ((#[trigger] nb[ii]).0 as int) == e2
                                && nb[ii].1 == sx && (nb[ii].2 as int) == r2;
                        assert(nulls@[ii] == nb[ii]);
                        assert(((nulls@[ii]).0 as int) == e2 && nulls@[ii].1 == sx && ((
                        nulls@[ii]).2 as int) == r2);
                        assert(Self::null_applied(nulls@, nulls@.len() as int, e2, sx, r2));
                    }
                }
            }
            j += 1;
        }
        proof {
            assert(prev.nulls_complete(plan@, nulls@)) by {
                assert forall|e2: int, sx: u32, r2: int|
                    {
                        &&& 0 <= e2 < prev.n_ents()
                        &&& 0 <= r2 < prev.rels_of(e2).len()
                        &&& prev.tab(e2).contains_key(sx)
                        &&& !plan@.contains(((e2 as usize), sx))
                        &&& #[trigger] prev.fk_gone(e2, sx, r2, plan@.to_set())
                    } implies Self::null_applied(nulls@, nulls@.len() as int, e2, sx, r2) by {
                    let d = prev.fk_at(e2, sx, r2)->Some_0;
                    let a = ((prev.rels_of(e2)[r2].dst), d);
                    assert(plan@.to_set().contains(a));
                    assert(plan@.contains(a));
                    let jj = choose|jj: int| 0 <= jj < plan@.len() && plan@[jj] == a;
                    assert(prev.fk_at(e2, sx, r2) == Some(plan@[jj].1));
                }
            }
        }
        // Removal pass: take out every planned row, with its outgoing index
        // entries, oldest discovery first.
        proof {
            assert(plan@.subrange(0, 0) =~= Seq::<(usize, u32)>::empty());
            assert(self.removal_state(prev, plan@, 0));
        }
        let mut i: usize = 0;
        while i < plan.len()
            invariant
                prev.wf(),
                prev.delete_plan_ok(root, plan@),
                prev.ticks() < u64::MAX,
                i <= plan@.len(),
                self.removal_state(prev, plan@, i as int),
                self.log_seq().len() == prev.log_seq().len() + i,
                forall|ii: int|
                    0 <= ii < prev.log_seq().len() ==> #[trigger] self.log_seq()[ii]
                        == prev.log_seq()[ii],
                forall|ii: int|
                    prev.log_seq().len() <= ii < self.log_seq().len() ==> (
                    #[trigger] self.log_seq()[ii]).at == prev.now(),
            decreases plan@.len() - i,
        {
            let pr = plan[i];
            let e = pr.0;
            let k = pr.1;
            let ghost done = plan@.subrange(0, i as int);
            proof {
                vstd::std_specs::vec::axiom_spec_len(&prev.sch().entities);
                assert(pr == plan@[i as int]);
                assert(prev.tab(pr.0 as int).contains_key(pr.1));
                assert(!done.contains(pr)) by {
                    if done.contains(pr) {
                        let ii = choose|ii: int| 0 <= ii < done.len() && done[ii] == pr;
                        assert(plan@[ii] == plan@[i as int]);
                    }
                }
                assert(self.tab(pr.0 as int).dom().contains(pr.1));
                assert(self.tabs().len() == prev.tabs().len());
                assert(prev.tabs().len() == prev.n_ents());
            }
            let ghost pretake = *self;
            let t = &mut self.tables[e];
            let row = t.take(k).unwrap();
            proof {
                assert(row == prev.tab(e as int)[k]);
                assert(prev.tab(e as int).dom().contains(k));
                assert(row.data.fks@.len() == prev.rels_of(e as int).len());
            }
            let ghost rowfks = row.data.fks@;
            let nr = self.schema.entities[e].rels.len();
            proof {
                assert(self.tabs() == pretake.tabs().update(e as int, self.tabs()[e as int]));
                assert(self.idxs() == pretake.idxs());
                assert(self.log_seq() == pretake.log_seq());
                assert(self.tab(e as int) == pretake.tab(e as int).remove(k));
                assert(self.del_frame(prev)) by {
                    assert forall|e3: int|
                        0 <= e3 < prev.n_ents() implies #[trigger] self.tab_next(e3)
                        == prev.tab_next(e3) && self.tabs()[e3].wf() && self.idxs()[e3].len()
                        == prev.idxs()[e3].len() by {
                        if e3 != e as int {
                            assert(self.tabs()[e3] == pretake.tabs()[e3]);
                        }
                        assert(pretake.tab_next(e3) == prev.tab_next(e3));
                        assert(pretake.tabs()[e3].wf());
                        assert(pretake.idxs()[e3].len() == prev.idxs()[e3].len());
                    }
                    assert forall|e3: int, r3: int|
                        0 <= e3 < prev.n_ents() && 0 <= r3 < prev.rels_of(e3).len() implies (
                    #[trigger] self.idxs()[e3][r3]).is_uniq_shape() == prev.idxs()[e3][
                        r3
                    ].is_uniq_shape() by {
                        assert(pretake.idxs()[e3][r3].is_uniq_shape() == prev.idxs()[e3][
                            r3
                        ].is_uniq_shape());
                    }
                }
                assert forall|p: (usize, u32)|
                    #![trigger self.tab(p.0 as int).dom().contains(p.1)]
                    (p.0 as int) < prev.n_ents() implies (self.tab(p.0 as int).contains_key(p.1)
                        <==> (prev.tab(p.0 as int).contains_key(p.1) && !done.contains(p) && p
                        != pr)) by {
                    assert(pretake.tab(p.0 as int).contains_key(p.1) <==> (prev.tab(
                        p.0 as int,
                    ).contains_key(p.1) && !done.contains(p)));
                    if p.0 as int == e as int {
                        assert(self.tab(p.0 as int) == pretake.tab(p.0 as int).remove(k));
                    } else {
                        assert(self.tabs()[p.0 as int] == pretake.tabs()[p.0 as int]);
                    }
                }
                assert forall|p: (usize, u32)|
                    #![trigger self.tab(p.0 as int).dom().contains(p.1)]
                    (p.0 as int) < prev.n_ents() && self.tab(p.0 as int).contains_key(
                        p.1,
                    ) implies self.tab(p.0 as int)[p.1] == prev.tab(p.0 as int)[p.1] by {
                    assert(pretake.tab(p.0 as int).dom().contains(p.1));
                    if p.0 as int == e as int {
                        assert(self.tab(p.0 as int)[p.1] == pretake.tab(p.0 as int)[p.1]);
                    } else {
                        assert(self.tabs()[p.0 as int] == pretake.tabs()[p.0 as int]);
                    }
                }
                assert forall|e3: int, r3: int, d2: u32, s2: u32|
                    #![trigger self.idx(e3, r3).contains((d2, s2))]
                    0 <= e3 < prev.n_ents() && 0 <= r3 < prev.rels_of(e3).len() implies (self.idx(
                    e3,
                    r3,
                ).contains((d2, s2)) <==> (prev.idx(e3, r3).contains((d2, s2)) && !done.contains(
                    ((e3 as usize), s2),
                ) && !(e3 == e as int && s2 == k && r3 < 0 && rowfks[r3] == Some(d2)))) by {
                    assert(self.idx(e3, r3) == pretake.idx(e3, r3));
                    assert(pretake.idx(e3, r3).contains((d2, s2)) <==> (prev.idx(e3, r3).contains(
                        (d2, s2),
                    ) && !done.contains(((e3 as usize), s2))));
                }
            }
            let mut r: usize = 0;
            while r < nr
                invariant
                    prev.wf(),
                    e == pr.0,
                    k == pr.1,
                    (pr.0 as int) < prev.n_ents(),
                    prev.tab(pr.0 as int).contains_key(pr.1),
                    done == plan@.subrange(0, i as int),
                    i <= plan@.len(),
                    !done.contains(pr),
                    nr == prev.rels_of(e as int).len(),
                    rowfks == prev.tab(e as int)[k].data.fks@,
                    row.data.fks@ == rowfks,
                    rowfks.len() == nr,
                    r <= nr,
                    self.del_frame(prev),
                    forall|p: (usize, u32)|
                        #![trigger self.tab(p.0 as int).dom().contains(p.1)]
                        (p.0 as int) < prev.n_ents() ==> (self.tab(p.0 as int).contains_key(p.1)
                            <==> (prev.tab(p.0 as int).contains_key(p.1) && !done.contains(p) && p
                            != pr)),
                    forall|p: (usize, u32)|
                        #![trigger self.tab(p.0 as int).dom().contains(p.1)]
                        (p.0 as int) < prev.n_ents() && self.tab(p.0 as int).contains_key(p.1)
                            ==> self.tab(p.0 as int)[p.1] == prev.tab(p.0 as int)[p.1],
                    forall|e3: int, r3: int, d2: u32, s2: u32|
                        #![trigger self.idx(e3, r3).contains((d2, s2))]
                        0 <= e3 < prev.n_ents() && 0 <= r3 < prev.rels_of(e3).len() ==> (self.idx(
                            e3,
                            r3,
                        ).contains((d2, s2)) <==> (prev.idx(e3, r3).contains((d2, s2))
                            && !done.contains(((e3 as usize), s2)) && !(e3 == e as int && s2 == k
                            && r3 < r && rowfks[r3] == Some(d2)))),
                    self.log_seq().len() == prev.log_seq().len() + i,
                    forall|ii: int|
                        0 <= ii < prev.log_seq().len() ==> #[trigger] self.log_seq()[ii]
                            == prev.log_seq()[ii],
                    forall|ii: int|
                        prev.log_seq().len() <= ii < self.log_seq().len() ==> (
                        #[trigger] self.log_seq()[ii]).at == prev.now(),
                decreases nr - r,
            {
                let ghost pre = *self;
                proof {
                    vstd::std_specs::vec::axiom_spec_len(&prev.sch().entities);
                }
                match row.data.fks[r] {
                    Some(d) => {
                        proof {
                            assert(prev.fk_at(e as int, k, r as int) == Some(d));
                            assert(prev.idx(e as int, r as int).contains((d, k)));
                            assert(self.idx(e as int, r as int).contains((d, k)));
                            assert(self.tab_next(e as int) == prev.tab_next(e as int));
                            assert(self.indices@.len() == self.idxs().len());
                            assert(self.idxs().len() == prev.idxs().len());
                            assert(prev.idxs().len() == prev.n_ents());
                            assert(self.indices@[e as int]@.len() == self.idxs()[e as int].len());
                            assert(self.idxs()[e as int].len() == prev.idxs()[e as int].len());
                            assert(prev.idxs()[e as int].len() == prev.rels_of(e as int).len());
                        }
                        match &mut self.indices[e][r] {
                            RelIndex::Pairs(m) => pmap::pair_set_remove(m, (d, k)),
                            RelIndex::Uniq(m) => {
                                proof {
                                    assert(pmap::uniq_map_of(*m).contains_pair(d, k));
                                }
                                pmap::uniq_map_remove(m, d)
                            },
                        }
                        proof {
                            assert(self.tabs() == pre.tabs());
                            assert(self.log_seq() == pre.log_seq());
                            assert forall|e3: int|
                                0 <= e3 < prev.n_ents() && e3 != e as int implies
                                #[trigger] self.idxs()[e3] == pre.idxs()[e3] by {
                                assert(self.indices@[e3] == pre.indices@[e3]);
                            }
                            assert forall|r3: int|
                                0 <= r3 < prev.rels_of(e as int).len() && r3 != r as int implies
                                #[trigger] self.idxs()[e as int][r3] == pre.idxs()[e as int][
                                r3
                            ] by {
                                assert(self.indices@[e as int]@[r3] == pre.indices@[e as int]@[
                                    r3
                                ]);
                            }
                            assert(self.idx(e as int, r as int) =~= pre.idx(
                                e as int,
                                r as int,
                            ).remove((d, k)));
                            assert(self.del_frame(prev)) by {
                                assert forall|e3: int|
                                    0 <= e3 < prev.n_ents() implies #[trigger] self.tab_next(e3)
                                    == prev.tab_next(e3) && self.tabs()[e3].wf() && self.idxs()[
                                    e3
                                ].len() == prev.idxs()[e3].len() by {
                                    assert(self.tabs() == pre.tabs());
                                    assert(pre.tab_next(e3) == prev.tab_next(e3));
                                    assert(pre.tabs()[e3].wf());
                                    if e3 != e as int {
                                        assert(self.idxs()[e3] == pre.idxs()[e3]);
                                    } else {
                                        assert(self.indices@[e3]@.len() == pre.indices@[
                                            e3
                                        ]@.len());
                                    }
                                    assert(pre.idxs()[e3].len() == prev.idxs()[e3].len());
                                }
                                assert forall|e3: int, r3: int|
                                    0 <= e3 < prev.n_ents() && 0 <= r3 < prev.rels_of(
                                        e3,
                                    ).len() implies (#[trigger] self.idxs()[e3][
                                    r3
                                ]).is_uniq_shape() == prev.idxs()[e3][r3].is_uniq_shape() by {
                                    if e3 != e as int {
                                        assert(self.idxs()[e3] == pre.idxs()[e3]);
                                    } else if r3 != r as int {
                                        assert(self.indices@[e3]@[r3] == pre.indices@[e3]@[r3]);
                                    } else {
                                        assert(self.idxs()[e3][r3].is_uniq_shape() == pre.idxs()[
                                            e3
                                        ][r3].is_uniq_shape());
                                    }
                                    assert(pre.idxs()[e3][r3].is_uniq_shape() == prev.idxs()[e3][
                                        r3
                                    ].is_uniq_shape());
                                }
                            }
                            assert forall|p: (usize, u32)|
                                #![trigger self.tab(p.0 as int).dom().contains(p.1)]
                                (p.0 as int) < prev.n_ents() implies ((self.tab(
                                p.0 as int,
                            ).contains_key(p.1) <==> (prev.tab(p.0 as int).contains_key(p.1)
                                && !done.contains(p) && p != pr)) && (self.tab(
                                p.0 as int,
                            ).contains_key(p.1) ==> self.tab(p.0 as int)[p.1] == prev.tab(
                                p.0 as int,
                            )[p.1])) by {
                                assert(self.tabs() == pre.tabs());
                                assert(pre.tab(p.0 as int).contains_key(p.1) <==> (prev.tab(
                                    p.0 as int,
                                ).contains_key(p.1) && !done.contains(p) && p != pr));
                                if pre.tab(p.0 as int).contains_key(p.1) {
                                    assert(pre.tab(p.0 as int)[p.1] == prev.tab(p.0 as int)[
                                        p.1
                                    ]);
                                }
                            }
                            assert forall|e3: int, r3: int, d2: u32, s2: u32|
                                #![trigger self.idx(e3, r3).contains((d2, s2))]
                                0 <= e3 < prev.n_ents() && 0 <= r3 < prev.rels_of(
                                    e3,
                                ).len() implies (self.idx(e3, r3).contains((d2, s2)) <==> (
                            prev.idx(e3, r3).contains((d2, s2)) && !done.contains(
                                ((e3 as usize), s2),
                            ) && !(e3 == e as int && s2 == k && r3 < r + 1 && rowfks[r3] == Some(
                                d2,
                            )))) by {
                                if e3 == e as int && r3 == r as int {
                                    assert(pre.idx(e3, r3).contains((d2, s2)) <==> (prev.idx(
                                        e3,
                                        r3,
                                    ).contains((d2, s2)) && !done.contains(((e3 as usize), s2))
                                        && !(s2 == k && r3 < r && rowfks[r3] == Some(d2))));
                                } else {
                                    assert(self.idx(e3, r3) == pre.idx(e3, r3));
                                }
                            }
                        }
                    },
                    None => {
                        proof {
                            assert forall|e3: int, r3: int, d2: u32, s2: u32|
                                #![trigger self.idx(e3, r3).contains((d2, s2))]
                                0 <= e3 < prev.n_ents() && 0 <= r3 < prev.rels_of(
                                    e3,
                                ).len() implies (self.idx(e3, r3).contains((d2, s2)) <==> (
                            prev.idx(e3, r3).contains((d2, s2)) && !done.contains(
                                ((e3 as usize), s2),
                            ) && !(e3 == e as int && s2 == k && r3 < r + 1 && rowfks[r3] == Some(
                                d2,
                            )))) by {
                                if e3 == e as int && s2 == k && r3 == r as int {
                                    assert(rowfks[r3] is None);
                                }
                            }
                        }
                    },
                }
                r += 1;
            }
            let ghost mid = *self;
            self.log.push(
                ChangeRec {
                    at: self.clock,
                    event: ChangeEvent::Removed { entity: e, id: k, row: row.data },
                },
            );
            proof {
                assert(self.tabs() == mid.tabs());
                assert(self.idxs() == mid.idxs());
                let done1 = plan@.subrange(0, i as int + 1);
                assert(done1 =~= done.push(pr));
                assert forall|p: (usize, u32)|
                    done1.contains(p) <==> (done.contains(p) || p == pr) by {
                    if done1.contains(p) {
                        let ii = choose|ii: int| 0 <= ii < done1.len() && done1[ii] == p;
                        if ii < done.len() {
                            assert(done[ii] == p);
                        }
                    }
                    if done.contains(p) {
                        let ii = choose|ii: int| 0 <= ii < done.len() && done[ii] == p;
                        assert(done1[ii] == p);
                    }
                    if p == pr {
                        assert(done1[done1.len() - 1] == pr);
                    }
                }
                assert forall|e3: int, r3: int, d2: u32, s2: u32|
                    #![trigger self.idx(e3, r3).contains((d2, s2))]
                    0 <= e3 < prev.n_ents() && 0 <= r3 < prev.rels_of(e3).len() implies (self.idx(
                    e3,
                    r3,
                ).contains((d2, s2)) <==> (prev.idx(e3, r3).contains((d2, s2)) && !done1.contains(
                    ((e3 as usize), s2),
                ))) by {
                    assert(mid.idx(e3, r3) == self.idx(e3, r3));
                    assert(mid.idx(e3, r3).contains((d2, s2)) <==> (prev.idx(e3, r3).contains(
                        (d2, s2),
                    ) && !done.contains(((e3 as usize), s2)) && !(e3 == e as int && s2 == k && r3
                        < nr && rowfks[r3] == Some(d2))));
                    if e3 == e as int && s2 == k {
                        if prev.idx(e3, r3).contains((d2, s2)) {
                            assert(prev.fk_at(e3, k, r3) == Some(d2));
                            assert(rowfks[r3] == Some(d2));
                        }
                    }
                }
                assert forall|p: (usize, u32)|
                    #![trigger self.tab(p.0 as int).dom().contains(p.1)]
                    (p.0 as int) < prev.n_ents() implies ((self.tab(p.0 as int).contains_key(p.1)
                        <==> (prev.tab(p.0 as int).contains_key(p.1) && !done1.contains(p))) && (
                    self.tab(p.0 as int).contains_key(p.1) ==> self.tab(p.0 as int)[p.1]
                        == prev.tab(p.0 as int)[p.1])) by {
                    assert(self.tabs() == mid.tabs());
                    assert(mid.tab(p.0 as int).contains_key(p.1) <==> (prev.tab(
                        p.0 as int,
                    ).contains_key(p.1) && !done.contains(p) && p != pr));
                    if mid.tab(p.0 as int).contains_key(p.1) {
                        assert(mid.tab(p.0 as int)[p.1] == prev.tab(p.0 as int)[p.1]);
                    }
                }
                assert(self.del_frame(prev)) by {
                    assert forall|e3: int|
                        0 <= e3 < prev.n_ents() implies #[trigger] self.tab_next(e3)
                        == prev.tab_next(e3) && self.tabs()[e3].wf() && self.idxs()[e3].len()
                        == prev.idxs()[e3].len() by {
                        assert(mid.tab_next(e3) == prev.tab_next(e3));
                        assert(mid.tabs()[e3].wf());
                        assert(mid.idxs()[e3].len() == prev.idxs()[e3].len());
                    }
                    assert forall|e3: int, r3: int|
                        0 <= e3 < prev.n_ents() && 0 <= r3 < prev.rels_of(e3).len() implies (
                    #[trigger] self.idxs()[e3][r3]).is_uniq_shape() == prev.idxs()[e3][
                        r3
                    ].is_uniq_shape() by {
                        assert(mid.idxs()[e3][r3].is_uniq_shape() == prev.idxs()[e3][
                            r3
                        ].is_uniq_shape());
                    }
                }
                assert(self.removal_state(prev, plan@, i as int + 1));
            }
            i += 1;
        }
        // Nullify pass: clear every surviving reference into the plan.
        proof {
            vstd::std_specs::vec::axiom_spec_len(&prev.sch().entities);
            assert(plan@.subrange(0, plan@.len() as int) =~= plan@);
            assert forall|p: (usize, u32)|
                #![trigger self.tab(p.0 as int).dom().contains(p.1)]
                (p.0 as int) < prev.n_ents() implies (self.tab(p.0 as int).contains_key(p.1) <==> (
            prev.tab(p.0 as int).contains_key(p.1) && !plan@.contains(p))) by {}
            assert(self.nullify_state(prev, plan@, nulls@, 0));
        }
        let tk = self.tick;
        let mut b: usize = 0;
        while b < nulls.len()
            invariant
                prev.wf(),
                prev.delete_plan_ok(root, plan@),
                prev.nulls_sound(plan@, nulls@),
                prev.ticks() < u64::MAX,
                tk == prev.ticks(),
                b <= nulls@.len(),
                self.nullify_state(prev, plan@, nulls@, b as int),
                self.log_seq().len() == prev.log_seq().len() + plan@.len() + b,
                forall|ii: int|
                    0 <= ii < prev.log_seq().len() ==> #[trigger] self.log_seq()[ii]
                        == prev.log_seq()[ii],
                forall|ii: int|
                    prev.log_seq().len() <= ii < self.log_seq().len() ==> (
                    #[trigger] self.log_seq()[ii]).at == prev.now(),
            decreases nulls@.len() - b,
        {
            let t4 = nulls[b];
            let e2 = t4.0;
            let sx = t4.1;
            let r2 = t4.2;
            let dk = t4.3;
            proof {
                vstd::std_specs::vec::axiom_spec_len(&prev.sch().entities);
                assert(t4 == nulls@[b as int]);
                assert(prev.tab(t4.0 as int).contains_key(t4.1));
                assert(!plan@.contains((t4.0, t4.1)));
                let pp = (t4.0, t4.1);
                assert(self.tab(pp.0 as int).dom().contains(pp.1));
                assert(self.tab(t4.0 as int).dom().contains(t4.1));
                assert(self.tabs().len() == prev.tabs().len());
                assert(prev.tabs().len() == prev.n_ents());
                assert(prev.fk_at(e2 as int, sx, r2 as int) == Some(dk));
            }
            let ghost pre = *self;
            proof {
                assert(self.tab_next(e2 as int) == prev.tab_next(e2 as int));
                assert(prev.tabs()[e2 as int].wf());
                assert(sx < prev.tab_next(e2 as int));
                assert(self.indices@.len() == self.idxs().len());
                assert(self.idxs().len() == prev.idxs().len());
                assert(prev.idxs().len() == prev.n_ents());
                assert(self.indices@[e2 as int]@.len() == self.idxs()[e2 as int].len());
                assert(self.idxs()[e2 as int].len() == prev.idxs()[e2 as int].len());
                assert(prev.idxs()[e2 as int].len() == prev.rels_of(e2 as int).len());
            }
            let tt = &mut self.tables[e2];
            let mut row = tt.take(sx).unwrap();
            proof {
                assert(row == pre.tab(e2 as int)[sx]);
                let pp = (t4.0, t4.1);
                assert(pre.tab(pp.0 as int).dom().contains(pp.1));
                assert(prev.tab(e2 as int).dom().contains(sx));
                assert(row.data.fks@.len() == prev.tab(e2 as int)[sx].data.fks@.len());
                assert(row.data.fks@.len() == prev.rels_of(e2 as int).len());
            }
            let ghost oldrow = row;
            row.data.fks[r2] = None;
            row.revision = tk;
            tt.put(sx, row);
            proof {
                assert(self.tabs() == pre.tabs().update(e2 as int, self.tabs()[e2 as int]));
                assert(self.tab(e2 as int) == pre.tab(e2 as int).insert(
                    sx,
                    self.tab(e2 as int)[sx],
                ));
                assert(self.tab(e2 as int)[sx].data.fks@ =~= oldrow.data.fks@.update(
                    r2 as int,
                    None::<u32>,
                ));
                assert(self.tab(e2 as int)[sx].data.attrs@ == oldrow.data.attrs@);
                assert(self.tab(e2 as int)[sx].revision == tk);
            }
            let ghost pre2 = *self;
            match &mut self.indices[e2][r2] {
                RelIndex::Pairs(m) => pmap::pair_set_remove(m, (dk, sx)),
                RelIndex::Uniq(m) => {
                    proof {
                        assert(pre2.idxs() == pre.idxs());
                        if pmap::uniq_map_of(*m).contains_key(dk) {
                            let other = pmap::uniq_map_of(*m)[dk];
                            assert(pmap::uniq_map_of(*m).contains_pair(dk, other));
                            assert(pre2.idx(e2 as int, r2 as int).contains((dk, other)));
                            assert(pre.idx(e2 as int, r2 as int).contains((dk, other)));
                            assert(prev.idx(e2 as int, r2 as int).contains((dk, other)));
                            assert(prev.fk_at(e2 as int, other, r2 as int) == Some(dk));
                            assert(prev.idx(e2 as int, r2 as int).contains((dk, sx)));
                        }
                    }
                    pmap::uniq_map_remove(m, dk)
                },
            }
            self.log.push(
                ChangeRec {
                    at: self.clock,
                    event: ChangeEvent::FkChanged {
                        entity: e2,
                        id: sx,
                        rel: r2,
                        old_target: Some(dk),
                        new_target: None,
                    },
                },
            );
            proof {
                assert(self.tabs() == pre2.tabs());
                assert forall|e3: int|
                    0 <= e3 < prev.n_ents() && e3 != e2 as int implies #[trigger] self.idxs()[e3]
                    == pre2.idxs()[e3] by {}
                assert forall|r3: int|
                    0 <= r3 < prev.rels_of(e2 as int).len() && r3 != r2 as int implies
                    #[trigger] self.idxs()[e2 as int][r3] == pre2.idxs()[e2 as int][r3] by {}
                assert(self.idx(e2 as int, r2 as int) =~= pre2.idx(e2 as int, r2 as int).remove(
                    (dk, sx),
                ));
                // the nullify state advances by one entry
                assert(self.nullify_state(prev, plan@, nulls@, b as int + 1)) by {
                    assert(self.del_frame(prev)) by {
                        assert forall|e3: int|
                            0 <= e3 < prev.n_ents() implies #[trigger] self.tab_next(e3)
                            == prev.tab_next(e3) && self.tabs()[e3].wf() && self.idxs()[e3].len()
                            == prev.idxs()[e3].len() by {
                            assert(pre.tab_next(e3) == prev.tab_next(e3));
                            assert(pre.tabs()[e3].wf());
                            assert(pre.idxs()[e3].len() == prev.idxs()[e3].len());
                            if e3 != e2 as int {
                                assert(self.tabs()[e3] == pre.tabs()[e3]);
                                assert(self.idxs()[e3] == pre.idxs()[e3]);
                            } else {
                                assert(self.indices@[e3]@.len() == pre.indices@[e3]@.len());
                            }
                        }
                        assert forall|e3: int, r3: int|
                            0 <= e3 < prev.n_ents() && 0 <= r3 < prev.rels_of(e3).len() implies (
                        #[trigger] self.idxs()[e3][r3]).is_uniq_shape() == prev.idxs()[e3][
                            r3
                        ].is_uniq_shape() by {
                            if e3 != e2 as int {
                                assert(self.idxs()[e3] == pre.idxs()[e3]);
                            } else if r3 != r2 as int {
                                assert(self.indices@[e3]@[r3] == pre.indices@[e3]@[r3]);
                            } else {
                                assert(self.idxs()[e3][r3].is_uniq_shape() == pre.idxs()[e3][
                                    r3
                                ].is_uniq_shape());
                            }
                            assert(pre.idxs()[e3][r3].is_uniq_shape() == prev.idxs()[e3][
                                r3
                            ].is_uniq_shape());
                        }
                    }
                    assert forall|p: (usize, u32)|
                        #![trigger self.tab(p.0 as int).dom().contains(p.1)]
                        (p.0 as int) < prev.n_ents() implies (self.tab(p.0 as int).contains_key(
                        p.1,
                    ) <==> (prev.tab(p.0 as int).contains_key(p.1) && !plan@.contains(p))) by {
                        if p.0 as int == e2 as int {
                            assert(self.tab(p.0 as int).dom() == pre.tab(p.0 as int).dom());
                        } else {
                            assert(self.tab(p.0 as int) == pre.tab(p.0 as int));
                        }
                    }
                    assert forall|p: (usize, u32)|
                        #![trigger self.tab(p.0 as int).dom().contains(p.1)]
                        (p.0 as int) < prev.n_ents() && self.tab(p.0 as int).contains_key(
                            p.1,
                        ) implies {
                        let e = p.0 as int;
                        let kk = p.1;
                        &&& self.tab(e)[kk].data.attrs@ == prev.tab(e)[kk].data.attrs@
                        &&& self.tab(e)[kk].data.fks@.len() == prev.tab(e)[kk].data.fks@.len()
                        &&& forall|r3: int|
                            0 <= r3 < prev.rels_of(e).len() ==> #[trigger] self.fk_at(e, kk, r3)
                                == (if Self::null_applied(nulls@, b as int + 1, e, kk, r3) {
                                None
                            } else {
                                prev.fk_at(e, kk, r3)
                            })
                        &&& self.tab(e)[kk].revision == (if Self::row_nulled(
                            nulls@,
                            b as int + 1,
                            e,
                            kk,
                        ) {
                            prev.ticks()
                        } else {
                            prev.tab(e)[kk].revision
                        })
                    } by {
                        let e = p.0 as int;
                        let kk = p.1;
                        assert(pre.tab(e).dom().contains(kk));
                        if e == e2 as int && kk == sx {
                            assert(Self::row_nulled(nulls@, b as int + 1, e, kk)) by {
                                assert(((nulls@[b as int]).0 as int) == e && nulls@[b as int].1
                                    == kk);
                            }
                            assert forall|r3: int|
                                0 <= r3 < prev.rels_of(e).len() implies #[trigger] self.fk_at(
                                e,
                                kk,
                                r3,
                            ) == (if Self::null_applied(nulls@, b as int + 1, e, kk, r3) {
                                None
                            } else {
                                prev.fk_at(e, kk, r3)
                            }) by {
                                if r3 == r2 as int {
                                    assert(Self::null_applied(nulls@, b as int + 1, e, kk, r3))
                                        by {
                                        assert(((nulls@[b as int]).0 as int) == e
                                            && nulls@[b as int].1 == kk && ((
                                        nulls@[b as int]).2 as int) == r3);
                                    }
                                    assert(self.fk_at(e, kk, r3) is None);
                                } else {
                                    assert(self.fk_at(e, kk, r3) == pre.fk_at(e, kk, r3));
                                    assert(Self::null_applied(nulls@, b as int + 1, e, kk, r3)
                                        == Self::null_applied(nulls@, b as int, e, kk, r3)) by {
                                        if Self::null_applied(
                                            nulls@,
                                            b as int + 1,
                                            e,
                                            kk,
                                            r3,
                                        ) {
                                            let ii = choose|ii: int|
                                                0 <= ii < b + 1 && ((
                                                #[trigger] nulls@[ii]).0 as int) == e
                                                    && nulls@[ii].1 == kk && (
                                                nulls@[ii].2 as int) == r3;
                                            assert(ii < b);
                                        }
                                    }
                                }
                            }
                        } else {
                            assert(self.tab(e)[kk] == pre.tab(e)[kk]);
                            assert(Self::row_nulled(nulls@, b as int + 1, e, kk)
                                == Self::row_nulled(nulls@, b as int, e, kk)) by {
                                if Self::row_nulled(nulls@, b as int + 1, e, kk) {
                                    let ii = choose|ii: int|
                                        0 <= ii < b + 1 && ((#[trigger] nulls@[ii]).0 as int)
                                            == e && nulls@[ii].1 == kk;
                                    assert(ii < b);
                                }
                            }
                            assert forall|r3: int|
                                0 <= r3 < prev.rels_of(e).len() implies #[trigger] self.fk_at(
                                e,
                                kk,
                                r3,
                            ) == (if Self::null_applied(nulls@, b as int + 1, e, kk, r3) {
                                None
                            } else {
                                prev.fk_at(e, kk, r3)
                            }) by {
                                assert(Self::null_applied(nulls@, b as int + 1, e, kk, r3)
                                    == Self::null_applied(nulls@, b as int, e, kk, r3)) by {
                                    if Self::null_applied(nulls@, b as int + 1, e, kk, r3) {
                                        let ii = choose|ii: int|
                                            0 <= ii < b + 1 && ((
                                            #[trigger] nulls@[ii]).0 as int) == e && nulls@[ii].1
                                                == kk && (nulls@[ii].2 as int) == r3;
                                        assert(ii < b);
                                    }
                                }
                                assert(pre.fk_at(e, kk, r3) == (if Self::null_applied(
                                    nulls@,
                                    b as int,
                                    e,
                                    kk,
                                    r3,
                                ) {
                                    None
                                } else {
                                    prev.fk_at(e, kk, r3)
                                }));
                                assert(self.fk_at(e, kk, r3) == pre.fk_at(e, kk, r3));
                            }
                        }
                    }
                    assert forall|e3: int, r3: int, d2: u32, s2: u32|
                        #![trigger self.idx(e3, r3).contains((d2, s2))]
                        0 <= e3 < prev.n_ents() && 0 <= r3 < prev.rels_of(e3).len() implies (
                    self.idx(e3, r3).contains((d2, s2)) <==> (prev.idx(e3, r3).contains((d2, s2))
                        && !plan@.contains(((e3 as usize), s2)) && !Self::null_applied(
                        nulls@,
                        b as int + 1,
                        e3,
                        s2,
                        r3,
                    ))) by {
                        assert(pre2.idxs() == pre.idxs());
                        assert(pre.idx(e3, r3).contains((d2, s2)) <==> (prev.idx(e3, r3).contains(
                            (d2, s2),
                        ) && !plan@.contains(((e3 as usize), s2)) && !Self::null_applied(
                            nulls@,
                            b as int,
                            e3,
                            s2,
                            r3,
                        )));
                        assert(Self::null_applied(nulls@, b as int + 1, e3, s2, r3) == (
                        Self::null_applied(nulls@, b as int, e3, s2, r3) || (e3 == e2 as int && s2
                            == sx && r3 == r2 as int))) by {
                            if Self::null_applied(nulls@, b as int + 1, e3, s2, r3) {
                                let ii = choose|ii: int|
                                    0 <= ii < b + 1 && ((#[trigger] nulls@[ii]).0 as int) == e3
                                        && nulls@[ii].1 == s2 && (nulls@[ii].2 as int) == r3;
                                if ii == b {
                                    assert((e3 == e2 as int && s2 == sx && r3 == r2 as int));
                                }
                            }
                            if e3 == e2 as int && s2 == sx && r3 == r2 as int {
                                assert(((nulls@[b as int]).0 as int) == e3 && nulls@[b as int].1
                                    == s2 && ((nulls@[b as int]).2 as int) == r3);
                            }
                        }
                        if e3 == e2 as int && r3 == r2 as int {
                            if s2 == sx {
                                assert(!self.idx(e3, r3).contains((d2, s2)));
                            } else {
                                assert(self.idx(e3, r3).contains((d2, s2)) == pre2.idx(
                                    e3,
                                    r3,
                                ).contains((d2, s2)));
                            }
                        } else {
                            assert(self.idx(e3, r3) == pre2.idx(e3, r3));
                        }
                    }
                }
            }
            b += 1;
        }
        let ghost fin0 = *self;
        self.tick = self.tick + 1;
        proof {
            vstd::std_specs::vec::axiom_spec_len(&prev.sch().entities);
            assert(self.tabs() == fin0.tabs());
            assert(self.idxs() == fin0.idxs());
            assert(self.log_seq() == fin0.log_seq());
            assert(self.del_frame_except_ticks(prev)) by {
                assert forall|e3: int|
                    0 <= e3 < prev.n_ents() implies #[trigger] self.tab_next(e3)
                    == prev.tab_next(e3) && self.tabs()[e3].wf() && self.idxs()[e3].len()
                    == prev.idxs()[e3].len() by {
                    assert(fin0.tab_next(e3) == prev.tab_next(e3));
                    assert(fin0.tabs()[e3].wf());
                }
                assert forall|e3: int, r3: int|
                    0 <= e3 < prev.n_ents() && 0 <= r3 < prev.rels_of(e3).len() implies (
                #[trigger] self.idxs()[e3][r3]).is_uniq_shape() == prev.idxs()[e3][
                    r3
                ].is_uniq_shape() by {
                    assert(fin0.idxs()[e3][r3].is_uniq_shape() == prev.idxs()[e3][
                        r3
                    ].is_uniq_shape());
                }
            }
            assert(self.nullify_state_rows(prev, plan@, nulls@)) by {
                assert forall|p: (usize, u32)|
                    #![trigger self.tab(p.0 as int).dom().contains(p.1)]
                    (p.0 as int) < prev.n_ents() implies (self.tab(p.0 as int).contains_key(p.1)
                        <==> (prev.tab(p.0 as int).contains_key(p.1) && !plan@.contains(p))) by {
                    assert(fin0.tab(p.0 as int) == self.tab(p.0 as int));
                    assert(fin0.tab(p.0 as int).dom().contains(p.1) <==> (prev.tab(
                        p.0 as int,
                    ).contains_key(p.1) && !plan@.contains(p)));
                }
                assert forall|p: (usize, u32)|
                    #![trigger self.tab(p.0 as int).dom().contains(p.1)]
                    (p.0 as int) < prev.n_ents() && self.tab(p.0 as int).contains_key(
                        p.1,
                    ) implies {
                    let e = p.0 as int;
                    let kk = p.1;
                    &&& self.tab(e)[kk].data.attrs@ == prev.tab(e)[kk].data.attrs@
                    &&& self.tab(e)[kk].data.fks@.len() == prev.tab(e)[kk].data.fks@.len()
                    &&& forall|r3: int|
                        0 <= r3 < prev.rels_of(e).len() ==> #[trigger] self.fk_at(e, kk, r3) == (
                        if Self::null_applied(nulls@, nulls@.len() as int, e, kk, r3) {
                            None
                        } else {
                            prev.fk_at(e, kk, r3)
                        })
                    &&& self.tab(e)[kk].revision == (if Self::row_nulled(
                        nulls@,
                        nulls@.len() as int,
                        e,
                        kk,
                    ) {
                        prev.ticks()
                    } else {
                        prev.tab(e)[kk].revision
                    })
                } by {
                    let e = p.0 as int;
                    let kk = p.1;
                    assert(fin0.tab(e) == self.tab(e));
                    assert(fin0.tab(e).dom().contains(kk));
                    assert forall|r3: int|
                        0 <= r3 < prev.rels_of(e).len() implies #[trigger] self.fk_at(e, kk, r3)
                        == (if Self::null_applied(nulls@, nulls@.len() as int, e, kk, r3) {
                        None
                    } else {
                        prev.fk_at(e, kk, r3)
                    }) by {
                        assert(fin0.fk_at(e, kk, r3) == (if Self::null_applied(
                            nulls@,
                            nulls@.len() as int,
                            e,
                            kk,
                            r3,
                        ) {
                            None
                        } else {
                            prev.fk_at(e, kk, r3)
                        }));
                        assert(self.fk_at(e, kk, r3) == fin0.fk_at(e, kk, r3));
                    }
                }
                assert forall|e3: int, r3: int, d2: u32, s2: u32|
                    #![trigger self.idx(e3, r3).contains((d2, s2))]
                    0 <= e3 < prev.n_ents() && 0 <= r3 < prev.rels_of(e3).len() implies (self.idx(
                    e3,
                    r3,
                ).contains((d2, s2)) <==> (prev.idx(e3, r3).contains((d2, s2)) && !plan@.contains(
                    ((e3 as usize), s2),
                ) && !Self::null_applied(nulls@, nulls@.len() as int, e3, s2, r3))) by {
                    assert(self.idx(e3, r3) == fin0.idx(e3, r3));
                    assert(fin0.idx(e3, r3).contains((d2, s2)) <==> (prev.idx(e3, r3).contains(
                        (d2, s2),
                    ) && !plan@.contains(((e3 as usize), s2)) && !Self::null_applied(
                        nulls@,
                        nulls@.len() as int,
                        e3,
                        s2,
                        r3,
                    )));
                }
            }
            self.lemma_delete_restores_wf(prev, root, plan@, nulls@);
        }
        Ok(plan)
    }

    // ----- insertion -----
    /// Inserts a row for entity `ent`: validates every foreign key and every
    /// inverse-side multiplicity bound first, and only then commits the row,
    /// its index entries and an `Inserted` change record, assigning the next
    /// identifier.
    pub fn insert(&mut self, ent: usize, data: RowData) -> (res: Result<u32, Error>)
        requires
            old(self).wf(),
            ent < old(self).n_ents(),
            data.attrs@.len() == old(self).n_attrs_of(ent as int),
            data.fks@.len() == old(self).rels_of(ent as int).len(),
            old(self).tab_next(ent as int) < u32::MAX,
            old(self).ticks() < u64::MAX,
        ensures
            final(self).wf(),
            final(self).same_schema(*old(self)),
            match res {
                Ok(id) => {
                    &&& old(self).insert_check(ent as int, data) is None
                    &&& id == old(self).tab_next(ent as int)
                    &&& final(self).tab(ent as int) == old(self).tab(ent as int).insert(
                        id,
                        (Row { data: data, revision: 0 }),
                    )
                    &&& final(self).tab_next(ent as int) == id + 1
                    &&& forall|e2: int|
                        0 <= e2 < old(self).n_ents() && e2 != ent ==> final(self).tab(e2) == old(
                            self,
                        ).tab(e2) && final(self).tab_next(e2) == old(self).tab_next(e2)
                    &&& final(self).log_seq() == old(self).log_seq().push(
                        (ChangeRec {
                            at: old(self).now(),
                            event: ChangeEvent::Inserted { entity: ent, id },
                        }),
                    )
                    &&& final(self).now() == old(self).now()
                    &&& final(self).ticks() == old(self).ticks() + 1
                },
                Err(e) => {
                    &&& *final(self) == *old(self)
                    &&& old(self).insert_check(ent as int, data) == Some(e)
                },
            },
    {
        let n_rels = self.schema.entities[ent].rels.len();
        proof {
            assert(self.indices@.len() == self.idxs().len());
            assert(self.indices@[ent as int]@ == self.idxs()[ent as int]);
        }
        // Check phase: no mutation happens until every relation slot passed.
        let mut r: usize = 0;
        while r < n_rels
            invariant
                self.wf(),
                ent < self.n_ents(),
                n_rels == self.rels_of(ent as int).len(),
                data.fks@.len() == n_rels,
                r <= n_rels,
                self.insert_check(ent as int, data) == self.first_rel_err_from(
                    ent as int,
                    data,
                    r as int,
                ),
            decreases n_rels - r,
        {
            let rel = self.schema.entities[ent].rels[r];
            let ghost rc = self.rel_check(ent as int, data, r as int);
            match data.fks[r] {
                None => {
                    if rel.mult == Multiplicity::One {
                        proof {
                            assert(rc == Some(Error::RelationshipTooFewTargets));
                        }
                        return Err(Error::RelationshipTooFewTargets);
                    }
                },
                Some(d) => {
                    if !self.tables[rel.dst].contains(d) {
                        proof {
                            assert(rc == Some(Error::ForeignKeyViolation));
                        }
                        return Err(Error::ForeignKeyViolation);
                    }
                    proof {
                        assert(self.indices@[ent as int]@ == self.idxs()[ent as int]);
                    }
                    let occupied = match &self.indices[ent][r] {
                        RelIndex::Uniq(m) => pmap::uniq_map_get(m, d).is_some(),
                        RelIndex::Pairs(_) => false,
                    };
                    if occupied {
                        proof {
                            let m = self.idxs()[ent as int][r as int];
                            assert(m.is_uniq_shape());
                            assert(is_unique(self.rels_of(ent as int)[r as int]));
                            let s = pmap::uniq_map_of(m->Uniq_0)[d];
                            assert(pmap::uniq_map_of(m->Uniq_0).contains_pair(d, s));
                            assert(self.idx(ent as int, r as int).contains((d, s)));
                            assert(rc == Some(Error::RelationshipTooManyTargets));
                        }
                        return Err(Error::RelationshipTooManyTargets);
                    }
                    proof {
                        if is_unique(self.rels_of(ent as int)[r as int]) {
                            assert(self.idxs()[ent as int][r as int].is_uniq_shape());
                            assert forall|s: u32|
                                !self.idx(ent as int, r as int).contains((d, s)) by {
                                let m = self.idxs()[ent as int][r as int];
                                if self.idx(ent as int, r as int).contains((d, s)) {
                                    assert(pmap::uniq_map_of(m->Uniq_0).contains_pair(d, s));
                                }
                            }
                        }
                    }
                },
            }
            proof {
                assert(rc is None);
            }
            r += 1;
        }
        proof {
            assert(self.insert_check(ent as int, data) is None);
            self.lemma_no_rel_err(ent as int, data, 0);
        }
        // Commit phase.
        let ghost prev = *self;
        let mut fkv: Vec<Option<u32>> = Vec::new();
        let mut i: usize = 0;
        while i < n_rels
            invariant
                n_rels == data.fks@.len(),
                i <= n_rels,
                fkv@.len() == i,
                forall|j: int| 0 <= j < i ==> fkv@[j] == data.fks@[j],
            decreases n_rels - i,
        {
            fkv.push(data.fks[i]);
            i += 1;
        }
        proof {
            assert(fkv@ =~= data.fks@);
        }
        let t = &mut self.tables[ent];
        let id = t.insert_at(data);
        proof {
            assert(self.tabs() == prev.tabs().update(
                ent as int,
                self.tabs()[ent as int],
            ));
            assert(self.tab(ent as int) == prev.tab(ent as int).insert(
                id,
                (Row { data: data, revision: 0 }),
            ));
        }
        let mut r2: usize = 0;
        while r2 < n_rels
            invariant
                prev.wf(),
                ent < prev.n_ents(),
                n_rels == prev.rels_of(ent as int).len(),
                fkv@.len() == n_rels,
                fkv@ == data.fks@,
                r2 <= n_rels,
                forall|r3: int|
                    0 <= r3 < n_rels ==> prev.rel_check(ent as int, data, r3) is None,
                self.sch() == prev.sch(),
                self.log_seq() == prev.log_seq(),
                self.now() == prev.now(),
                self.ticks() == prev.ticks(),
                self.tabs() == prev.tabs().update(ent as int, self.tabs()[ent as int]),
                self.tab(ent as int) == prev.tab(ent as int).insert(
                    id,
                    (Row { data: data, revision: 0 }),
                ),
                self.tab_next(ent as int) == id + 1,
                id == prev.tab_next(ent as int),
                self.tabs()[ent as int].wf(),
                self.idxs().len() == prev.idxs().len(),
                forall|e2: int|
                    0 <= e2 < prev.n_ents() && e2 != ent ==> #[trigger] self.idxs()[e2]
                        == prev.idxs()[e2],
                self.idxs()[ent as int].len() == prev.idxs()[ent as int].len(),
                forall|r3: int|
                    0 <= r3 < n_rels ==> (#[trigger] self.idxs()[ent as int][r3]).is_uniq_shape()
                        == prev.idxs()[ent as int][r3].is_uniq_shape(),
                forall|r3: int|
                    r2 <= r3 < n_rels ==> #[trigger] self.idx(ent as int, r3) == prev.idx(
                        ent as int,
                        r3,
                    ),
                forall|r3: int|
                    0 <= r3 < r2 ==> #[trigger] self.idx(ent as int, r3) == (match fkv@[r3] {
                        Some(d) => prev.idx(ent as int, r3).insert((d, id)),
                        None => prev.idx(ent as int, r3),
                    }),
            decreases n_rels - r2,
        {
            let ghost pre = *self;
            match fkv[r2] {
                Some(d) => {
                    proof {
                        assert(prev.rel_check(ent as int, data, r2 as int) is None);
                        assert(pre.idx(ent as int, r2 as int) == prev.idx(ent as int, r2 as int));
                    }
                    match &mut self.indices[ent][r2] {
                        RelIndex::Pairs(m) => pmap::pair_set_insert(m, (d, id)),
                        RelIndex::Uniq(m) => pmap::uniq_map_insert(m, d, id),
                    }
                    proof {
                        assert(self.tabs() == pre.tabs());
                        assert forall|e2: int|
                            0 <= e2 < prev.n_ents() && e2 != ent implies #[trigger] self.idxs()[e2]
                            == prev.idxs()[e2] by {
                            assert(self.idxs()[e2] == pre.idxs()[e2]);
                            assert(pre.idxs()[e2] == prev.idxs()[e2]);
                        }
                        assert forall|r3: int|
                            0 <= r3 < n_rels && r3 != r2 implies #[trigger] self.idxs()[
                            ent as int
                        ][r3] == pre.idxs()[ent as int][r3] by {}
                        if pre.idxs()[ent as int][r2 as int].is_uniq_shape() {
                            assert(is_unique(prev.rels_of(ent as int)[r2 as int]));
                            assert forall|sx: u32|
                                !(#[trigger] prev.idx(ent as int, r2 as int).contains(
                                    (d, sx),
                                )) by {
                                if prev.idx(ent as int, r2 as int).contains((d, sx)) {
                                    assert(exists|s2: u32|
                                        prev.idx(ent as int, r2 as int).contains((d, s2)));
                                    assert(prev.rel_check(ent as int, data, r2 as int) is Some);
                                }
                            }
                            assert(self.idx(ent as int, r2 as int) =~= pre.idx(
                                ent as int,
                                r2 as int,
                            ).insert((d, id)));
                        } else {
                            assert(self.idx(ent as int, r2 as int) =~= pre.idx(
                                ent as int,
                                r2 as int,
                            ).insert((d, id)));
                        }
                    }
                },
                None => {},
            }
            proof {
                assert forall|r3: int|
                    r2 + 1 <= r3 < n_rels implies #[trigger] self.idx(ent as int, r3) == prev.idx(
                    ent as int,
                    r3,
                ) by {
                    assert(self.idxs()[ent as int][r3] == pre.idxs()[ent as int][r3]);
                    assert(pre.idx(ent as int, r3) == prev.idx(ent as int, r3));
                }
                assert forall|r3: int|
                    0 <= r3 < r2 + 1 implies #[trigger] self.idx(ent as int, r3)
                    == (match fkv[r3] {
                    Some(d2) => prev.idx(ent as int, r3).insert((d2, id)),
                    None => prev.idx(ent as int, r3),
                }) by {
                    if r3 < r2 {
                        assert(self.idxs()[ent as int][r3] == pre.idxs()[ent as int][r3]);
                        assert(pre.idx(ent as int, r3) == (match fkv@[r3] {
                            Some(d2) => prev.idx(ent as int, r3).insert((d2, id)),
                            None => prev.idx(ent as int, r3),
                        }));
                    } else {
                        assert(pre.idx(ent as int, r3) == prev.idx(ent as int, r3));
                        if fkv@[r3] is None {
                            assert(self.idxs()[ent as int][r3] == pre.idxs()[ent as int][r3]);
                        }
                    }
                }
            }
            r2 += 1;
        }
        let ghost mid = *self;
        self.log.push(
            ChangeRec { at: self.clock, event: ChangeEvent::Inserted { entity: ent, id } },
        );
        self.tick = self.tick + 1;
        proof {
            assert(self.tabs() == mid.tabs());
            assert(self.idxs() == mid.idxs());
            assert(self.sch() == mid.sch());
            assert forall|r3: int|
                0 <= r3 < prev.rels_of(ent as int).len() implies #[trigger] self.idx(
                ent as int,
                r3,
            ) == (match fkv@[r3] {
                Some(d2) => prev.idx(ent as int, r3).insert((d2, id)),
                None => prev.idx(ent as int, r3),
            }) by {
                assert(mid.idx(ent as int, r3) == (match fkv@[r3] {
                    Some(d2) => prev.idx(ent as int, r3).insert((d2, id)),
                    None => prev.idx(ent as int, r3),
                }));
            }
            assert forall|e2: int|
                0 <= e2 < prev.n_ents() && e2 != ent implies #[trigger] self.idxs()[e2]
                == prev.idxs()[e2] by {
                assert(mid.idxs()[e2] == prev.idxs()[e2]);
            }
            assert forall|r3: int|
                0 <= r3 < prev.rels_of(ent as int).len() implies (#[trigger] self.idxs()[
                ent as int
            ][r3]).is_uniq_shape() == prev.idxs()[ent as int][r3].is_uniq_shape() by {
                assert(mid.idxs()[ent as int][r3].is_uniq_shape() == prev.idxs()[ent as int][
                    r3
                ].is_uniq_shape());
            }
            self.lemma_insert_restores_wf(prev, ent as int, data, id, fkv@);
        }
        Ok(id)
    }

    // ----- updates -----
    /// After replacing row `id` of `ent` with one of equal shape and
    /// identical foreign keys, the store invariant holds again.
    proof fn lemma_update_attr_restores_wf(self, prev: Store, ent: int, id: u32)
        requires
            prev.wf(),
            0 <= ent < prev.n_ents(),
            prev.tab(ent).contains_key(id),
            self.sch() == prev.sch(),
            self.tabs() == prev.tabs().update(ent, self.tabs()[ent]),
            self.tabs()[ent].wf(),
            self.tab(ent) == prev.tab(ent).insert(id, self.tab(ent)[id]),
            self.tab(ent)[id].data.attrs@.len() == prev.tab(ent)[id].data.attrs@.len(),
            self.tab(ent)[id].data.fks@ == prev.tab(ent)[id].data.fks@,
            self.tab(ent)[id].revision < self.ticks(),
            self.tab_next(ent) == prev.tab_next(ent),
            self.idxs() == prev.idxs(),
            self.log_seq().len() == prev.log_seq().len() + 1,
            forall|i: int|
                0 <= i < prev.log_seq().len() ==> #[trigger] self.log_seq()[i]
                    == prev.log_seq()[i],
            self.log_seq().last().at == prev.now(),
            self.now() == prev.now(),
            self.ticks() == prev.ticks() + 1,
        ensures
            self.wf(),
            self.same_schema(prev),
            forall|e2: int|
                0 <= e2 < prev.n_ents() && e2 != ent ==> #[trigger] self.tab(e2) == prev.tab(e2)
                    && self.tab_next(e2) == prev.tab_next(e2),
            self.tab(ent).dom() == prev.tab(ent).dom(),
    {
        assert(self.n_ents() == prev.n_ents());
        assert(self.tab(ent).dom() =~= prev.tab(ent).dom());
        assert forall|e2: int|
            0 <= e2 < prev.n_ents() && e2 != ent implies #[trigger] self.tab(e2) == prev.tab(e2)
            && self.tab_next(e2) == prev.tab_next(e2) by {
            assert(self.tabs()[e2] == prev.tabs()[e2]);
        }
        assert forall|e2: int| 0 <= e2 < self.n_ents() implies (#[trigger] self.tabs()[e2]).wf() by {
            if e2 != ent {
                assert(self.tabs()[e2] == prev.tabs()[e2]);
            }
        }
        assert(self.shapes_ok());
        assert forall|e2: int, k: u32|
            #![trigger self.tab(e2).dom().contains(k)]
            0 <= e2 < self.n_ents() && self.tab(e2).contains_key(k) implies {
            let d = self.tab(e2)[k].data;
            &&& d.attrs@.len() == self.n_attrs_of(e2)
            &&& d.fks@.len() == self.rels_of(e2).len()
            &&& forall|r: int|
                0 <= r < self.rels_of(e2).len() && (#[trigger] self.rels_of(e2)[r]).mult
                    == Multiplicity::One ==> d.fks@[r] is Some
            &&& self.tab(e2)[k].revision < self.ticks()
        } by {
            assert(prev.tab(e2).dom().contains(k));
            if !(e2 == ent && k == id) {
                if e2 == ent {
                    assert(self.tab(e2)[k] == prev.tab(e2)[k]);
                } else {
                    assert(self.tab(e2) == prev.tab(e2));
                }
            }
        }
        assert forall|e2: int, k: u32, r: int|
            #![trigger self.fk_at(e2, k, r)]
            0 <= e2 < self.n_ents() && self.tab(e2).contains_key(k) && 0 <= r < self.rels_of(
                e2,
            ).len() implies match self.fk_at(e2, k, r) {
            Some(d) => self.tab(self.rels_of(e2)[r].dst as int).contains_key(d),
            None => true,
        } by {
            assert(prev.tab(e2).dom().contains(k));
            if !(e2 == ent && k == id) {
                if e2 == ent {
                    assert(self.tab(e2)[k] == prev.tab(e2)[k]);
                } else {
                    assert(self.tab(e2) == prev.tab(e2));
                }
            }
            assert(self.fk_at(e2, k, r) == prev.fk_at(e2, k, r));
            match self.fk_at(e2, k, r) {
                Some(d) => {
                    let dst = self.rels_of(e2)[r].dst as int;
                    assert(rel_valid(prev.rels_of(e2)[r], prev.n_ents()));
                    assert(prev.tab(dst).contains_key(d));
                    if dst == ent {
                        assert(self.tab(dst).dom() == prev.tab(dst).dom());
                    } else {
                        assert(self.tab(dst) == prev.tab(dst));
                    }
                },
                None => {},
            }
        }
        assert forall|e2: int, r: int, p: (u32, u32)|
            #![trigger self.idx(e2, r).contains(p)]
            0 <= e2 < self.n_ents() && 0 <= r < self.rels_of(e2).len() implies (self.idx(
            e2,
            r,
        ).contains(p) <==> (self.tab(e2).contains_key(p.1) && self.tab(e2)[p.1].data.fks@[r]
            == Some(p.0))) by {
            assert(self.idx(e2, r) == prev.idx(e2, r));
            assert(prev.idx(e2, r).contains(p) <==> (prev.tab(e2).contains_key(p.1) && prev.tab(
                e2,
            )[p.1].data.fks@[r] == Some(p.0)));
            if e2 == ent && p.1 == id {
                assert(self.tab(ent)[id].data.fks@ == prev.tab(ent)[id].data.fks@);
            } else {
                if e2 == ent {
                    assert(self.tab(e2).contains_key(p.1) == prev.tab(e2).contains_key(p.1));
                    if prev.tab(e2).contains_key(p.1) {
                        assert(self.tab(e2)[p.1] == prev.tab(e2)[p.1]);
                    }
                } else {
                    assert(self.tab(e2) == prev.tab(e2));
                }
            }
        }
        assert forall|i: int, j: int|
            0 <= i <= j < self.log_seq().len() implies (#[trigger] self.log_seq()[i]).at <= (
        #[trigger] self.log_seq()[j]).at by {
            if j < prev.log_seq().len() {
                assert(prev.log_seq()[i].at <= prev.log_seq()[j].at);
            } else if i < prev.log_seq().len() {
                assert(prev.log_seq()[i].at <= prev.now());
            }
        }
        assert forall|i: int|
            0 <= i < self.log_seq().len() implies (#[trigger] self.log_seq()[i]).at
            <= self.now() by {
            if i < prev.log_seq().len() {
                assert(prev.log_seq()[i].at <= prev.now());
            }
        }
        assert(self.wf());
    }

    /// Updates one scalar attribute of a live row in place, bumping the
    /// row's revision and logging an `AttrChanged` record with the old and
    /// new value.
    pub fn update_attr(&mut self, ent: usize, id: u32, attr: usize, value: Value) -> (res: Result<
        (),
        Error,
    >)
        requires
            old(self).wf(),
            ent < old(self).n_ents(),
            attr < old(self).n_attrs_of(ent as int),
            old(self).ticks() < u64::MAX,
        ensures
            final(self).wf(),
            final(self).same_schema(*old(self)),
            res is Ok <==> old(self).live(ent as int, id),
            match res {
                Ok(()) => {
                    &&& final(self).tab(ent as int).dom() == old(self).tab(ent as int).dom()
                    &&& forall|k: u32|
                        old(self).tab(ent as int).contains_key(k) && k != id ==> final(self).tab(
                            ent as int,
                        )[k] == #[trigger] old(self).tab(ent as int)[k]
                    &&& final(self).row_at(ent as int, id).attrs@ == old(self).row_at(
                        ent as int,
                        id,
                    ).attrs@.update(attr as int, value)
                    &&& final(self).row_at(ent as int, id).fks@ == old(self).row_at(
                        ent as int,
                        id,
                    ).fks@
                    &&& final(self).tab(ent as int)[id].revision == old(self).tab(ent as int)[
                        id
                    ].revision + 1
                    &&& forall|e2: int|
                        0 <= e2 < old(self).n_ents() && e2 != ent ==> final(self).tab(e2) == old(
                            self,
                        ).tab(e2) && final(self).tab_next(e2) == old(self).tab_next(e2)
                    &&& final(self).tab_next(ent as int) == old(self).tab_next(ent as int)
                    &&& final(self).log_seq() == old(self).log_seq().push(
                        (ChangeRec {
                            at: old(self).now(),
                            event: ChangeEvent::AttrChanged {
                                entity: ent,
                                id,
                                attr,
                                old_value: old(self).row_at(ent as int, id).attrs@[attr as int],
                                new_value: value,
                            },
                        }),
                    )
                    &&& final(self).now() == old(self).now()
                    &&& final(self).ticks() == old(self).ticks() + 1
                },
                Err(e) => {
                    &&& *final(self) == *old(self)
                    &&& e == Error::EntityNotFound
                },
            },
    {
        if !self.tables[ent].contains(id) {
            return Err(Error::EntityNotFound);
        }
        let ghost prev = *self;
        let t = &mut self.tables[ent];
        let mut row = t.take(id).unwrap();
        proof {
            assert(row == prev.tab(ent as int)[id]);
            assert(prev.tab(ent as int).dom().contains(id));
            assert(row.data.attrs@.len() == prev.n_attrs_of(ent as int));
            assert(row.revision < prev.ticks());
        }
        let mut tmp = value;
        core::mem::swap(&mut row.data.attrs[attr], &mut tmp);
        let logged_new = row.data.attrs[attr].dup();
        row.revision = row.revision + 1;
        t.put(id, row);
        proof {
            assert(self.tabs() == prev.tabs().update(ent as int, self.tabs()[ent as int]));
            assert(self.tab(ent as int) =~= prev.tab(ent as int).insert(
                id,
                self.tab(ent as int)[id],
            ));
        }
        let ghost mid = *self;
        self.log.push(
            ChangeRec {
                at: self.clock,
                event: ChangeEvent::AttrChanged {
                    entity: ent,
                    id,
                    attr,
                    old_value: tmp,
                    new_value: logged_new,
                },
            },
        );
        self.tick = self.tick + 1;
        proof {
            assert(self.tabs() == mid.tabs());
            assert(self.idxs() =~= mid.idxs());
            assert(self.idxs() =~= prev.idxs());
            assert(self.tab(ent as int) == prev.tab(ent as int).insert(
                id,
                self.tab(ent as int)[id],
            ));
            self.lemma_update_attr_restores_wf(prev, ent as int, id);
            assert(self.tab(ent as int)[id].data.attrs@ =~= prev.tab(ent as int)[
                id
            ].data.attrs@.update(attr as int, value));
        }
        Ok(())
    }

    /// The error updating the foreign key of relation `rel` of live row `id`
    /// to `nfk` would return, or `None` when the update is owed success.
    /// Keeping the current target is always allowed.
    pub open spec fn fk_update_check(self, ent: int, id: u32, rel: int, nfk: Option<u32>) -> Option<
        Error,
    > {
        let rd = self.rels_of(ent)[rel];
        match nfk {
            None => if rd.mult == Multiplicity::One {
                Some(Error::RelationshipTooFewTargets)
            } else {
                None
            },
            Some(d) => if !self.tab(rd.dst as int).contains_key(d) {
                Some(Error::ForeignKeyViolation)
            } else if is_unique(rd) && (exists|s: u32|
                s != id && self.idx(ent, rel).contains((d, s))) {
                Some(Error::RelationshipTooManyTargets)
            } else {
                None
            },
        }
    }

    /// After retargeting relation `rel` of row `id` from its old foreign key
    /// to `nfk`, with the relation's index adjusted, the store invariant
    /// holds again.
    proof fn lemma_update_fk_restores_wf(
        self,
        prev: Store,
        ent: int,
        id: u32,
        rel: int,
        nfk: Option<u32>,
    )
        requires
            prev.wf(),
            0 <= ent < prev.n_ents(),
            prev.tab(ent).contains_key(id),
            0 <= rel < prev.rels_of(ent).len(),
            prev.fk_update_check(ent, id, rel, nfk) is None,
            self.sch() == prev.sch(),
            self.tabs() == prev.tabs().update(ent, self.tabs()[ent]),
            self.tabs()[ent].wf(),
            self.tab(ent) == prev.tab(ent).insert(id, self.tab(ent)[id]),
            self.tab(ent)[id].data.attrs@ == prev.tab(ent)[id].data.attrs@,
            self.tab(ent)[id].data.fks@ == prev.tab(ent)[id].data.fks@.update(rel, nfk),
            self.tab(ent)[id].revision < self.ticks(),
            self.tab_next(ent) == prev.tab_next(ent),
            self.idxs().len() == prev.idxs().len(),
            forall|e2: int|
                0 <= e2 < prev.n_ents() && e2 != ent ==> #[trigger] self.idxs()[e2]
                    == prev.idxs()[e2],
            self.idxs()[ent].len() == prev.idxs()[ent].len(),
            forall|r3: int|
                0 <= r3 < prev.rels_of(ent).len() && r3 != rel ==> #[trigger] self.idxs()[ent][r3]
                    == prev.idxs()[ent][r3],
            self.idxs()[ent][rel].is_uniq_shape() == prev.idxs()[ent][rel].is_uniq_shape(),
            self.idx(ent, rel) == (match nfk {
                Some(d) => (match prev.fk_at(ent, id, rel) {
                    Some(od) => prev.idx(ent, rel).remove((od, id)),
                    None => prev.idx(ent, rel),
                }).insert((d, id)),
                None => (match prev.fk_at(ent, id, rel) {
                    Some(od) => prev.idx(ent, rel).remove((od, id)),
                    None => prev.idx(ent, rel),
                }),
            }),
            self.log_seq().len() == prev.log_seq().len() + 1,
            forall|i: int|
                0 <= i < prev.log_seq().len() ==> #[trigger] self.log_seq()[i]
                    == prev.log_seq()[i],
            self.log_seq().last().at == prev.now(),
            self.now() == prev.now(),
            self.ticks() == prev.ticks() + 1,
        ensures
            self.wf(),
            self.same_schema(prev),
            forall|e2: int|
                0 <= e2 < prev.n_ents() && e2 != ent ==> #[trigger] self.tab(e2) == prev.tab(e2)
                    && self.tab_next(e2) == prev.tab_next(e2),
            self.tab(ent).dom() == prev.tab(ent).dom(),
    {
        assert(self.n_ents() == prev.n_ents());
        assert(self.tab(ent).dom() =~= prev.tab(ent).dom());
        assert forall|e2: int|
            0 <= e2 < prev.n_ents() && e2 != ent implies #[trigger] self.tab(e2) == prev.tab(e2)
            && self.tab_next(e2) == prev.tab_next(e2) by {
            assert(self.tabs()[e2] == prev.tabs()[e2]);
        }
        assert forall|e2: int| 0 <= e2 < self.n_ents() implies (#[trigger] self.tabs()[e2]).wf() by {
            if e2 != ent {
                assert(self.tabs()[e2] == prev.tabs()[e2]);
            }
        }
        assert(self.shapes_ok());
        assert forall|e2: int, k: u32|
            #![trigger self.tab(e2).dom().contains(k)]
            0 <= e2 < self.n_ents() && self.tab(e2).contains_key(k) implies {
            let d = self.tab(e2)[k].data;
            &&& d.attrs@.len() == self.n_attrs_of(e2)
            &&& d.fks@.len() == self.rels_of(e2).len()
            &&& forall|r: int|
                0 <= r < self.rels_of(e2).len() && (#[trigger] self.rels_of(e2)[r]).mult
                    == Multiplicity::One ==> d.fks@[r] is Some
            &&& self.tab(e2)[k].revision < self.ticks()
        } by {
            assert(prev.tab(e2).dom().contains(k));
            if e2 == ent && k == id {
                assert forall|r: int|
                    0 <= r < self.rels_of(e2).len() && (#[trigger] self.rels_of(e2)[r]).mult
                        == Multiplicity::One implies self.tab(e2)[k].data.fks@[r] is Some by {
                    if r == rel {
                        assert(prev.fk_update_check(ent, id, rel, nfk) is None);
                    } else {
                        assert(prev.fk_at(ent, id, r) is Some);
                    }
                }
            } else {
                if e2 == ent {
                    assert(self.tab(e2)[k] == prev.tab(e2)[k]);
                } else {
                    assert(self.tab(e2) == prev.tab(e2));
                }
            }
        }
        assert forall|e2: int, k: u32, r: int|
            #![trigger self.fk_at(e2, k, r)]
            0 <= e2 < self.n_ents() && self.tab(e2).contains_key(k) && 0 <= r < self.rels_of(
                e2,
            ).len() implies match self.fk_at(e2, k, r) {
            Some(d) => self.tab(self.rels_of(e2)[r].dst as int).contains_key(d),
            None => true,
        } by {
            assert(prev.tab(e2).dom().contains(k));
            let dst = self.rels_of(e2)[r].dst as int;
            assert(rel_valid(prev.rels_of(e2)[r], prev.n_ents()));
            let fk = self.fk_at(e2, k, r);
            if e2 == ent && k == id && r == rel {
                match fk {
                    Some(d) => {
                        assert(prev.tab(dst).contains_key(d));
                        if dst == ent {
                            assert(self.tab(dst).dom() == prev.tab(dst).dom());
                        } else {
                            assert(self.tab(dst) == prev.tab(dst));
                        }
                    },
                    None => {},
                }
            } else {
                if e2 == ent {
                    if k == id {
                        assert(fk == prev.fk_at(e2, k, r));
                    } else {
                        assert(self.tab(e2)[k] == prev.tab(e2)[k]);
                    }
                } else {
                    assert(self.tab(e2) == prev.tab(e2));
                }
                assert(fk == prev.fk_at(e2, k, r));
                match fk {
                    Some(d) => {
                        assert(prev.tab(dst).contains_key(d));
                        if dst == ent {
                            assert(self.tab(dst).dom() == prev.tab(dst).dom());
                        } else {
                            assert(self.tab(dst) == prev.tab(dst));
                        }
                    },
                    None => {},
                }
            }
        }
        assert forall|e2: int, r: int, p: (u32, u32)|
            #![trigger self.idx(e2, r).contains(p)]
            0 <= e2 < self.n_ents() && 0 <= r < self.rels_of(e2).len() implies (self.idx(
            e2,
            r,
        ).contains(p) <==> (self.tab(e2).contains_key(p.1) && self.tab(e2)[p.1].data.fks@[r]
            == Some(p.0))) by {
            assert(prev.idx(e2, r).contains(p) <==> (prev.tab(e2).contains_key(p.1) && prev.tab(
                e2,
            )[p.1].data.fks@[r] == Some(p.0)));
            if e2 == ent && r == rel {
                if p.1 == id {
                    assert(prev.idx(ent, rel).contains((p.0, id)) <==> prev.fk_at(ent, id, rel)
                        == Some(p.0));
                } else {
                    assert(self.tab(e2).contains_key(p.1) == prev.tab(e2).contains_key(p.1));
                    if prev.tab(e2).contains_key(p.1) {
                        assert(self.tab(e2)[p.1] == prev.tab(e2)[p.1]);
                    }
                }
            } else {
                if e2 == ent {
                    assert(self.idxs()[e2][r] == prev.idxs()[e2][r]);
                } else {
                    assert(self.idxs()[e2] == prev.idxs()[e2]);
                }
                assert(self.idx(e2, r) == prev.idx(e2, r));
                if e2 == ent && p.1 == id {
                    assert(self.tab(e2)[p.1].data.fks@[r] == prev.tab(e2)[p.1].data.fks@[r]);
                } else if e2 == ent {
                    assert(self.tab(e2).contains_key(p.1) == prev.tab(e2).contains_key(p.1));
                    if prev.tab(e2).contains_key(p.1) {
                        assert(self.tab(e2)[p.1] == prev.tab(e2)[p.1]);
                    }
                } else {
                    assert(self.tab(e2) == prev.tab(e2));
                }
            }
        }
        assert forall|i: int, j: int|
            0 <= i <= j < self.log_seq().len() implies (#[trigger] self.log_seq()[i]).at <= (
        #[trigger] self.log_seq()[j]).at by {
            if j < prev.log_seq().len() {
                assert(prev.log_seq()[i].at <= prev.log_seq()[j].at);
            } else if i < prev.log_seq().len() {
                assert(prev.log_seq()[i].at <= prev.now());
            }
        }
        assert forall|i: int|
            0 <= i < self.log_seq().len() implies (#[trigger] self.log_seq()[i]).at
            <= self.now() by {
            if i < prev.log_seq().len() {
                assert(prev.log_seq()[i].at <= prev.now());
            }
        }
        assert(self.wf());
    }

    /// Retargets the foreign key of relation `rel` of live row `id` to
    /// `nfk`, validating the new target and the relation's inverse-side
    /// multiplicity first; the row's index entries are moved in the same
    /// operation and an `FkChanged` record is logged.
    pub fn update_fk(&mut self, ent: usize, id: u32, rel: usize, nfk: Option<u32>) -> (res: Result<
        (),
        Error,
    >)
        requires
            old(self).wf(),
            ent < old(self).n_ents(),
            rel < old(self).rels_of(ent as int).len(),
            old(self).ticks() < u64::MAX,
        ensures
            final(self).wf(),
            final(self).same_schema(*old(self)),
            res is Ok <==> (old(self).live(ent as int, id) && old(self).fk_update_check(
                ent as int,
                id,
                rel as int,
                nfk,
            ) is None),
            match res {
                Ok(()) => {
                    &&& final(self).tab(ent as int).dom() == old(self).tab(ent as int).dom()
                    &&& forall|k: u32|
                        old(self).tab(ent as int).contains_key(k) && k != id ==> final(self).tab(
                            ent as int,
                        )[k] == #[trigger] old(self).tab(ent as int)[k]
                    &&& final(self).row_at(ent as int, id).attrs@ == old(self).row_at(
                        ent as int,
                        id,
                    ).attrs@
                    &&& final(self).row_at(ent as int, id).fks@ == old(self).row_at(
                        ent as int,
                        id,
                    ).fks@.update(rel as int, nfk)
                    &&& final(self).tab(ent as int)[id].revision == old(self).tab(ent as int)[
                        id
                    ].revision + 1
                    &&& forall|e2: int|
                        0 <= e2 < old(self).n_ents() && e2 != ent ==> final(self).tab(e2) == old(
                            self,
                        ).tab(e2) && final(self).tab_next(e2) == old(self).tab_next(e2)
                    &&& final(self).tab_next(ent as int) == old(self).tab_next(ent as int)
                    &&& final(self).log_seq() == old(self).log_seq().push(
                        (ChangeRec {
                            at: old(self).now(),
                            event: ChangeEvent::FkChanged {
                                entity: ent,
                                id,
                                rel,
                                old_target: old(self).fk_at(ent as int, id, rel as int),
                                new_target: nfk,
                            },
                        }),
                    )
                    &&& final(self).now() == old(self).now()
                    &&& final(self).ticks() == old(self).ticks() + 1
                },
                Err(e) => {
                    &&& *final(self) == *old(self)
                    &&& if !old(self).live(ent as int, id) {
                        e == Error::EntityNotFound
                    } else {
                        Some(e) == old(self).fk_update_check(ent as int, id, rel as int, nfk)
                    }
                },
            },
    {
        if !self.tables[ent].contains(id) {
            return Err(Error::EntityNotFound);
        }
        let rd = self.schema.entities[ent].rels[rel];
        proof {
            assert(self.indices@[ent as int]@ == self.idxs()[ent as int]);
        }
        match nfk {
            None => {
                if rd.mult == Multiplicity::One {
                    return Err(Error::RelationshipTooFewTargets);
                }
            },
            Some(d) => {
                if !self.tables[rd.dst].contains(d) {
                    return Err(Error::ForeignKeyViolation);
                }
                let occupied = match &self.indices[ent][rel] {
                    RelIndex::Uniq(m) => match pmap::uniq_map_get(m, d) {
                        Some(s) => s != id,
                        None => false,
                    },
                    RelIndex::Pairs(_) => false,
                };
                if occupied {
                    proof {
                        let m = self.idxs()[ent as int][rel as int];
                        let s = pmap::uniq_map_of(m->Uniq_0)[d];
                        assert(pmap::uniq_map_of(m->Uniq_0).contains_pair(d, s));
                        assert(self.idx(ent as int, rel as int).contains((d, s)));
                        assert(is_unique(self.rels_of(ent as int)[rel as int]));
                    }
                    return Err(Error::RelationshipTooManyTargets);
                }
                proof {
                    if is_unique(self.rels_of(ent as int)[rel as int]) {
                        assert(self.idxs()[ent as int][rel as int].is_uniq_shape());
                        assert forall|s: u32| s != id implies !self.idx(
                            ent as int,
                            rel as int,
                        ).contains((d, s)) by {
                            let m = self.idxs()[ent as int][rel as int];
                            if self.idx(ent as int, rel as int).contains((d, s)) {
                                assert(pmap::uniq_map_of(m->Uniq_0).contains_pair(d, s));
                            }
                        }
                    }
                }
            },
        }
        proof {
            assert(old(self).fk_update_check(ent as int, id, rel as int, nfk) is None);
        }
        let ghost prev = *self;
        let t = &mut self.tables[ent];
        let mut row = t.take(id).unwrap();
        proof {
            assert(row == prev.tab(ent as int)[id]);
            assert(prev.tab(ent as int).dom().contains(id));
            assert(row.data.fks@.len() == prev.rels_of(ent as int).len());
            assert(row.revision < prev.ticks());
        }
        let ofk = row.data.fks[rel];
        row.data.fks[rel] = nfk;
        row.revision = row.revision + 1;
        t.put(id, row);
        proof {
            assert(self.tabs() == prev.tabs().update(ent as int, self.tabs()[ent as int]));
            assert(self.tab(ent as int) =~= prev.tab(ent as int).insert(
                id,
                self.tab(ent as int)[id],
            ));
            assert(ofk == prev.fk_at(ent as int, id, rel as int));
        }
        let ghost base = *self;
        if ofk.is_some() || nfk.is_some() {
            let ghost preidx = *self;
            match &mut self.indices[ent][rel] {
                RelIndex::Pairs(m) => {
                    if let Some(od) = ofk {
                        pmap::pair_set_remove(m, (od, id));
                    }
                    if let Some(d) = nfk {
                        pmap::pair_set_insert(m, (d, id));
                    }
                },
                RelIndex::Uniq(m) => {
                    if let Some(od) = ofk {
                        proof {
                            assert(prev.idx(ent as int, rel as int).contains((od, id)));
                            assert(pmap::uniq_map_of(*m).contains_pair(od, id));
                        }
                        pmap::uniq_map_remove(m, od);
                    }
                    if let Some(d) = nfk {
                        pmap::uniq_map_insert(m, d, id);
                    }
                },
            }
            proof {
                assert(self.tabs() == preidx.tabs());
                assert forall|e2: int|
                    0 <= e2 < prev.n_ents() && e2 != ent implies #[trigger] self.idxs()[e2]
                    == prev.idxs()[e2] by {
                    assert(self.idxs()[e2] == preidx.idxs()[e2]);
                }
                assert forall|r3: int|
                    0 <= r3 < prev.rels_of(ent as int).len() && r3 != rel implies
                    #[trigger] self.idxs()[ent as int][r3] == prev.idxs()[ent as int][r3] by {}
                if self.idxs()[ent as int][rel as int].is_uniq_shape() {
                    assert(is_unique(prev.rels_of(ent as int)[rel as int]));
                    match nfk {
                        Some(d) => {
                            assert forall|sx: u32|
                                sx != id implies !(#[trigger] prev.idx(
                                ent as int,
                                rel as int,
                            ).contains((d, sx))) by {
                                if prev.idx(ent as int, rel as int).contains((d, sx)) {
                                    assert(exists|s2: u32|
                                        s2 != id && prev.idx(ent as int, rel as int).contains(
                                            (d, s2),
                                        ));
                                }
                            }
                        },
                        None => {},
                    }
                    assert(self.idx(ent as int, rel as int) =~= (match nfk {
                        Some(d) => (match ofk {
                            Some(od) => prev.idx(ent as int, rel as int).remove((od, id)),
                            None => prev.idx(ent as int, rel as int),
                        }).insert((d, id)),
                        None => (match ofk {
                            Some(od) => prev.idx(ent as int, rel as int).remove((od, id)),
                            None => prev.idx(ent as int, rel as int),
                        }),
                    }));
                } else {
                    assert(self.idx(ent as int, rel as int) =~= (match nfk {
                        Some(d) => (match ofk {
                            Some(od) => prev.idx(ent as int, rel as int).remove((od, id)),
                            None => prev.idx(ent as int, rel as int),
                        }).insert((d, id)),
                        None => (match ofk {
                            Some(od) => prev.idx(ent as int, rel as int).remove((od, id)),
                            None => prev.idx(ent as int, rel as int),
                        }),
                    }));
                }
            }
        } else {
            proof {
                assert(self.idx(ent as int, rel as int) == prev.idx(ent as int, rel as int));
            }
        }
        let ghost mid = *self;
        self.log.push(
            ChangeRec {
                at: self.clock,
                event: ChangeEvent::FkChanged {
                    entity: ent,
                    id,
                    rel,
                    old_target: ofk,
                    new_target: nfk,
                },
            },
        );
        self.tick = self.tick + 1;
        proof {
            assert(self.tabs() == mid.tabs());
            assert(self.idxs() == mid.idxs());
            assert(self.tab(ent as int) == prev.tab(ent as int).insert(
                id,
                self.tab(ent as int)[id],
            ));
            assert forall|e2: int|
                0 <= e2 < prev.n_ents() && e2 != ent implies #[trigger] self.idxs()[e2]
                == prev.idxs()[e2] by {
                assert(mid.idxs()[e2] == prev.idxs()[e2]);
            }
            assert forall|r3: int|
                0 <= r3 < prev.rels_of(ent as int).len() && r3 != rel implies #[trigger] self.idxs()[
                ent as int
            ][r3] == prev.idxs()[ent as int][r3] by {
                assert(mid.idxs()[ent as int][r3] == prev.idxs()[ent as int][r3]);
            }
            assert(self.idx(ent as int, rel as int) == mid.idx(ent as int, rel as int));
            assert(self.tab(ent as int)[id].data.fks@ =~= prev.tab(ent as int)[
                id
            ].data.fks@.update(rel as int, nfk));
            self.lemma_update_fk_restores_wf(prev, ent as int, id, rel as int, nfk);
        }
        Ok(())
    }
}

/// Referential integrity as a standalone law: at every quiescent point of a
/// well-formed store — which every operation requires and re-establishes —
/// every stored foreign key references a live row of its relation's
/// destination entity type.
pub proof fn lemma_referential_integrity(s: Store)
    requires
        s.wf(),
    ensures
        s.ref_integrity_ok(),
{
}

/// Index/row consistency as a standalone law: in a well-formed store the
/// index of every relation holds `(destination, source)` exactly when the
/// source row is live and its foreign key names that destination.
pub proof fn lemma_index_row_consistency(s: Store)
    requires
        s.wf(),
    ensures
        s.indices_ok(),
{
}

/// How one tuple of a joined view changed between two snapshots.
#[derive(Clone, Copy, Debug, PartialEq, Eq, Structural)]
pub enum JoinChange {
    Insert,
    Remove,
    Update,
}

impl Store {
    /// Whether the join of relation `rel` of entity `ent` contains the tuple
    /// `(d, s)`: live source row `s` references destination `d`.
    pub open spec fn join_has(self, ent: int, rel: int, d: u32, s: u32) -> bool {
        self.tab(ent).contains_key(s) && self.tab(ent)[s].data.fks@[rel] == Some(d)
    }

    /// Whether the joined view differs at tuple `(d, s)` between `prev` and
    /// `self`: present on one side only, or present on both with either
    /// row's revision changed.
    pub open spec fn join_differs(self, prev: Store, ent: int, rel: int, d: u32, s: u32) -> bool {
        let dst = self.rels_of(ent)[rel].dst as int;
        ||| self.join_has(ent, rel, d, s) != prev.join_has(ent, rel, d, s)
        ||| (self.join_has(ent, rel, d, s) && prev.join_has(ent, rel, d, s) && (self.tab(ent)[
            s
        ].revision != prev.tab(ent)[s].revision || self.tab(dst)[d].revision != prev.tab(dst)[
            d
        ].revision))
    }

    /// The two snapshots agree on every row whose revision they agree on.
    /// This holds of any two snapshots of one store related by store
    /// operations, which bump a row's revision on every change.
    pub open spec fn coherent_with(self, prev: Store) -> bool {
        forall|e: int, k: u32|
            #![trigger self.tab(e)[k], prev.tab(e)[k]]
            0 <= e < self.n_ents() && self.tab(e).contains_key(k) && prev.tab(e).contains_key(k)
                && self.tab(e)[k].revision == prev.tab(e)[k].revision ==> self.tab(e)[k]
                == prev.tab(e)[k]
    }

    /// Whether `s` is the identifier of some diff entry in `ds`.
    pub open spec fn diff_has_key(ds: Seq<(u32, Delta<RowData>)>, s: u32) -> bool {
        exists|ii: int| 0 <= ii < ds.len() && (#[trigger] ds[ii]).0 == s
    }

    /// Whether `d` is the identifier of one of the first `upto` entries of
    /// `ds`.
    pub open spec fn early_diff_key(ds: Seq<(u32, Delta<RowData>)>, upto: int, d: u32) -> bool {
        exists|jj: int| 0 <= jj < upto && (#[trigger] ds[jj]).0 == d
    }

    fn diff_keys_contain(ds: &Vec<(u32, Delta<RowData>)>, s: u32) -> (b: bool)
        ensures
            b == Self::diff_has_key(ds@, s),
    {
        let mut i: usize = 0;
        while i < ds.len()
            invariant
                i <= ds@.len(),
                forall|j: int| 0 <= j < i ==> (#[trigger] ds@[j]).0 != s,
            decreases ds@.len() - i,
        {
            if ds[i].0 == s {
                proof {
                    assert((ds@[i as int]).0 == s);
                }
                return true;
            }
            i += 1;
        }
        false
    }

    /// Every current tuple of the join along relation `rel` of entity
    /// `ent`: one `(destination, source)` pair per live source row whose
    /// foreign key is present, in ascending source order.
    pub fn join_all(&self, ent: usize, rel: usize) -> (out: Vec<(u32, u32)>)
        requires
            self.wf(),
            ent < self.n_ents(),
            rel < self.rels_of(ent as int).len(),
        ensures
            forall|a: int, b: int| 0 <= a < b < out@.len() ==> out@[a].1 < out@[b].1,
            forall|a: int|
                0 <= a < out@.len() ==> self.join_has(
                    ent as int,
                    rel as int,
                    (#[trigger] out@[a]).0,
                    out@[a].1,
                ),
            forall|d: u32, s: u32|
                self.join_has(ent as int, rel as int, d, s) ==> exists|a: int|
                    0 <= a < out@.len() && (#[trigger] out@[a]) == (d, s),
    {
        let ghost en = ent as int;
        let ghost rl = rel as int;
        let entries = self.entries(ent);
        let mut out: Vec<(u32, u32)> = Vec::new();
        let mut i: usize = 0;
        while i < entries.len()
            invariant
                self.wf(),
                en == ent as int,
                rl == rel as int,
                ent < self.n_ents(),
                rel < self.rels_of(en).len(),
                i <= entries@.len(),
                forall|a: int, b: int| 0 <= a < b < entries@.len() ==> entries@[a].0 < entries@[b].0,
                forall|a: int|
                    0 <= a < entries@.len() ==> self.live(en, (#[trigger] entries@[a]).0)
                        && entries@[a].1 == self.row_at(en, entries@[a].0),
                forall|k: u32|
                    self.live(en, k) ==> exists|a: int|
                        0 <= a < entries@.len() && (#[trigger] entries@[a]).0 == k,
                forall|a: int, b: int| 0 <= a < b < out@.len() ==> out@[a].1 < out@[b].1,
                forall|a: int|
                    #![trigger out@[a]]
                    0 <= a < out@.len() ==> exists|ii: int|
                        0 <= ii < i && (#[trigger] entries@[ii]).0 == out@[a].1,
                forall|a: int|
                    0 <= a < out@.len() ==> self.join_has(
                        en,
                        rl,
                        (#[trigger] out@[a]).0,
                        out@[a].1,
                    ),
                forall|ii: int, d: u32|
                    #![trigger entries@[ii], self.join_has(en, rl, d, entries@[ii].0)]
                    0 <= ii < i && self.join_has(en, rl, d, entries@[ii].0) ==> exists|a: int|
                        0 <= a < out@.len() && (#[trigger] out@[a]) == (d, entries@[ii].0),
            decreases entries@.len() - i,
        {
            let s0 = entries[i].0;
            let ghost ob = out@;
            proof {
                assert(self.tab(en).dom().contains(s0));
                assert(entries@[i as int].1.fks@.len() == self.rels_of(en).len());
            }
            if let Some(d) = entries[i].1.fks[rel] {
                proof {
                    assert forall|a: int| 0 <= a < ob.len() implies ob[a].1 < s0 by {
                        let ii = choose|ii: int|
                            0 <= ii < i && (#[trigger] entries@[ii]).0 == ob[a].1;
                        assert(entries@[ii].0 < entries@[i as int].0);
                    }
                }
                out.push((d, s0));
            }
            proof {
                assert forall|ii: int, d: u32|
                    #![trigger entries@[ii], self.join_has(en, rl, d, entries@[ii].0)]
                    0 <= ii < i + 1 && self.join_has(en, rl, d, entries@[ii].0) implies exists|
                    a: int,
                |
                    0 <= a < out@.len() && (#[trigger] out@[a]) == (d, entries@[ii].0) by {
                    if ii < i {
                        let a = choose|a: int|
                            0 <= a < ob.len() && (#[trigger] ob[a]) == (d, entries@[ii].0);
                        assert(out@[a] == ob[a]);
                    } else {
                        assert(self.row_at(en, s0).fks@[rl] == Some(d));
                        assert(out@[out@.len() - 1] == (d, s0));
                    }
                }
                assert forall|a: int|
                    #![trigger out@[a]]
                    0 <= a < out@.len() implies exists|ii: int|
                    0 <= ii < i + 1 && (#[trigger] entries@[ii]).0 == out@[a].1 by {
                    if a < ob.len() {
                        assert(out@[a] == ob[a]);
                        let ii = choose|ii: int|
                            0 <= ii < i && (#[trigger] entries@[ii]).0 == ob[a].1;
                    } else {
                        assert(entries@[i as int].0 == out@[a].1);
                    }
                }
            }
            i += 1;
        }
        proof {
            assert forall|d: u32, s: u32|
                self.join_has(en, rl, d, s) implies exists|a: int|
                0 <= a < out@.len() && (#[trigger] out@[a]) == (d, s) by {
                assert(self.live(en, s));
                let ii = choose|ii: int|
                    0 <= ii < entries@.len() && (#[trigger] entries@[ii]).0 == s;
                assert(self.join_has(en, rl, d, entries@[ii].0));
            }
        }
        out
    }

    /// The incremental delta of the join along relation `rel` of entity
    /// `ent` between snapshot `prev` and `self`: one entry per changed
    /// tuple, computed from the two tables' diffs and the relation's index
    /// rather than from the full join results.
    #[verifier::rlimit(100)]
    pub fn join_delta(&self, prev: &Store, ent: usize, rel: usize) -> (out: Vec<
        ((u32, u32), JoinChange),
    >)
        requires
            self.wf(),
            prev.wf(),
            self.same_schema(*prev),
            self.coherent_with(*prev),
            ent < self.n_ents(),
            rel < self.rels_of(ent as int).len(),
        ensures
            forall|i: int, j: int| 0 <= i < j < out@.len() ==> out@[i].0 != out@[j].0,
            forall|i: int|
                0 <= i < out@.len() ==> {
                    let d = (#[trigger] out@[i]).0.0;
                    let s = out@[i].0.1;
                    match out@[i].1 {
                        JoinChange::Insert => !prev.join_has(ent as int, rel as int, d, s)
                            && self.join_has(ent as int, rel as int, d, s),
                        JoinChange::Remove => prev.join_has(ent as int, rel as int, d, s)
                            && !self.join_has(ent as int, rel as int, d, s),
                        JoinChange::Update => prev.join_has(ent as int, rel as int, d, s)
                            && self.join_has(ent as int, rel as int, d, s) && self.join_differs(
                            *prev,
                            ent as int,
                            rel as int,
                            d,
                            s,
                        ),
                    }
                },
            forall|d: u32, s: u32|
                #[trigger] self.join_differs(*prev, ent as int, rel as int, d, s) ==> exists|i: int|
                    0 <= i < out@.len() && (#[trigger] out@[i]).0 == (d, s),
    {
        let dst = self.schema.entities[ent].rels[rel].dst;
        let sdiff = self.tables[ent].delta(&prev.tables[ent]);
        let ddiff = self.tables[dst].delta(&prev.tables[dst]);
        let ghost en = ent as int;
        let ghost rl = rel as int;
        let mut out: Vec<((u32, u32), JoinChange)> = Vec::new();
        proof {
            assert(prev.rels_of(en) == self.rels_of(en));
            assert(rel_valid(self.rels_of(en)[rl], self.n_ents()));
            assert(is_table_diff(prev.tab(en), self.tab(en), sdiff@));
            assert(is_table_diff(prev.tab(dst as int), self.tab(dst as int), ddiff@));
        }
        let mut i: usize = 0;
        while i < sdiff.len()
            invariant
                self.wf(),
                prev.wf(),
                self.same_schema(*prev),
                self.coherent_with(*prev),
                en == ent as int,
                rl == rel as int,
                ent < self.n_ents(),
                rel < self.rels_of(en).len(),
                dst == self.rels_of(en)[rl].dst,
                prev.rels_of(en) == self.rels_of(en),
                is_table_diff(prev.tab(en), self.tab(en), sdiff@),
                i <= sdiff@.len(),
                forall|a: int, b2: int| 0 <= a < b2 < out@.len() ==> out@[a].0 != out@[b2].0,
                forall|a: int|
                    0 <= a < out@.len() ==> Self::diff_has_key(sdiff@, (#[trigger] out@[a]).0.1),
                forall|a: int|
                    #![trigger out@[a]]
                    0 <= a < out@.len() ==> exists|ii: int|
                        0 <= ii < i && (#[trigger] sdiff@[ii]).0 == out@[a].0.1,
                forall|a: int|
                    0 <= a < out@.len() ==> {
                        let d = (#[trigger] out@[a]).0.0;
                        let s = out@[a].0.1;
                        match out@[a].1 {
                            JoinChange::Insert => !prev.join_has(en, rl, d, s) && self.join_has(
                                en,
                                rl,
                                d,
                                s,
                            ),
                            JoinChange::Remove => prev.join_has(en, rl, d, s) && !self.join_has(
                                en,
                                rl,
                                d,
                                s,
                            ),
                            JoinChange::Update => prev.join_has(en, rl, d, s) && self.join_has(
                                en,
                                rl,
                                d,
                                s,
                            ) && self.join_differs(*prev, en, rl, d, s),
                        }
                    },
                forall|d: u32, s: u32, ii: int|
                    #![trigger self.join_differs(*prev, en, rl, d, s), sdiff@[ii]]
                    0 <= ii < i && sdiff@[ii].0 == s && self.join_differs(*prev, en, rl, d, s)
                        ==> exists|a: int| 0 <= a < out@.len() && (#[trigger] out@[a]).0 == (d, s),
            decreases sdiff@.len() - i,
        {
            let s0: u32 = sdiff[i].0;
            let ghost ob = out@;
            proof {
                assert(entry_matches(prev.tab(en), self.tab(en), sdiff@[i as int].0, sdiff@[
                    i as int
                ].1));
                assert(prev.rows_ok());
                assert(self.rows_ok());
                if prev.tab(en).contains_key(s0) {
                    assert(prev.tab(en).dom().contains(s0));
                }
                if self.tab(en).contains_key(s0) {
                    assert(self.tab(en).dom().contains(s0));
                }
            }
            match &sdiff[i].1 {
                Delta::Insert(v) => {
                    if let Some(d) = v.fks[rel] {
                        out.push(((d, s0), JoinChange::Insert));
                    }
                },
                Delta::Remove(v) => {
                    if let Some(d) = v.fks[rel] {
                        out.push(((d, s0), JoinChange::Remove));
                    }
                },
                Delta::Update { old, new } => {
                    let ofk = old.fks[rel];
                    let nfk = new.fks[rel];
                    match (ofk, nfk) {
                        (Some(od), Some(nd)) => {
                            if od == nd {
                                out.push(((od, s0), JoinChange::Update));
                            } else {
                                out.push(((od, s0), JoinChange::Remove));
                                out.push(((nd, s0), JoinChange::Insert));
                            }
                        },
                        (Some(od), None) => {
                            out.push(((od, s0), JoinChange::Remove));
                        },
                        (None, Some(nd)) => {
                            out.push(((nd, s0), JoinChange::Insert));
                        },
                        (None, None) => {},
                    }
                },
            }
            proof {
                assert(sdiff@[i as int].0 == s0);
                assert forall|a: int|
                    #![trigger out@[a]]
                    0 <= a < out@.len() implies exists|ii: int|
                    0 <= ii < i + 1 && (#[trigger] sdiff@[ii]).0 == out@[a].0.1 by {
                    if a < ob.len() {
                        assert(out@[a] == ob[a]);
                    } else {
                        assert(out@[a].0.1 == s0);
                        assert(sdiff@[i as int].0 == out@[a].0.1);
                    }
                }
                assert forall|a: int|
                    0 <= a < out@.len() implies Self::diff_has_key(
                    sdiff@,
                    (#[trigger] out@[a]).0.1,
                ) by {
                    if a < ob.len() {
                        assert(out@[a] == ob[a]);
                    } else {
                        assert(sdiff@[i as int].0 == out@[a].0.1);
                    }
                }
                assert forall|d: u32, s: u32, ii: int|
                    #![trigger self.join_differs(*prev, en, rl, d, s), sdiff@[ii]]
                    0 <= ii < i + 1 && sdiff@[ii].0 == s && self.join_differs(
                        *prev,
                        en,
                        rl,
                        d,
                        s,
                    ) implies exists|a: int|
                    0 <= a < out@.len() && (#[trigger] out@[a]).0 == (d, s) by {
                    if ii < i {
                        let a = choose|a: int| 0 <= a < ob.len() && ob[a].0 == (d, s);
                        assert(out@[a] == ob[a]);
                    } else {
                        assert(s == s0);
                        match sdiff@[i as int].1 {
                            Delta::Insert(v) => {
                                assert(!prev.tab(en).contains_key(s0));
                                assert(self.tab(en)[s0].data == v);
                                assert(v.fks@[rl] == Some(d));
                                assert(out@[ob.len() as int].0 == (d, s));
                            },
                            Delta::Remove(v) => {
                                assert(!self.tab(en).contains_key(s0));
                                assert(prev.tab(en)[s0].data == v);
                                assert(v.fks@[rl] == Some(d));
                                assert(out@[ob.len() as int].0 == (d, s));
                            },
                            Delta::Update { old, new } => {
                                assert(prev.tab(en)[s0].data == old);
                                assert(self.tab(en)[s0].data == new);
                                if old.fks@[rl] == Some(d) {
                                    assert(out@[ob.len() as int].0 == (d, s));
                                } else {
                                    assert(new.fks@[rl] == Some(d));
                                    if old.fks@[rl] is Some {
                                        if old.fks@[rl] == new.fks@[rl] {
                                            assert(out@[ob.len() as int].0 == (d, s));
                                        } else {
                                            assert(out@[out@.len() - 1].0 == (d, s));
                                        }
                                    } else {
                                        assert(out@[out@.len() - 1].0 == (d, s));
                                    }
                                }
                            },
                        }
                    }
                }
            }
            i += 1;
        }
        let ghost src_done = out@;
        let mut j: usize = 0;
        while j < ddiff.len()
            invariant
                self.wf(),
                prev.wf(),
                self.same_schema(*prev),
                self.coherent_with(*prev),
                en == ent as int,
                rl == rel as int,
                ent < self.n_ents(),
                rel < self.rels_of(en).len(),
                dst == self.rels_of(en)[rl].dst,
                (dst as int) < self.n_ents(),
                prev.rels_of(en) == self.rels_of(en),
                is_table_diff(prev.tab(en), self.tab(en), sdiff@),
                is_table_diff(prev.tab(dst as int), self.tab(dst as int), ddiff@),
                j <= ddiff@.len(),
                src_done.len() <= out@.len(),
                forall|a: int| 0 <= a < src_done.len() ==> #[trigger] out@[a] == src_done[a],
                forall|a: int|
                    0 <= a < src_done.len() ==> Self::diff_has_key(
                    sdiff@,
                    (#[trigger] src_done[a]).0.1,
                ),
                forall|a: int|
                    src_done.len() <= a < out@.len() ==> !Self::diff_has_key(
                        sdiff@,
                        (#[trigger] out@[a]).0.1,
                    ),
                forall|a: int|
                    #![trigger out@[a]]
                    src_done.len() <= a < out@.len() ==> Self::early_diff_key(
                        ddiff@,
                        j as int,
                        out@[a].0.0,
                    ),
                forall|a: int, b2: int| 0 <= a < b2 < out@.len() ==> out@[a].0 != out@[b2].0,
                forall|a: int|
                    0 <= a < out@.len() ==> {
                        let d = (#[trigger] out@[a]).0.0;
                        let s = out@[a].0.1;
                        match out@[a].1 {
                            JoinChange::Insert => !prev.join_has(en, rl, d, s) && self.join_has(
                                en,
                                rl,
                                d,
                                s,
                            ),
                            JoinChange::Remove => prev.join_has(en, rl, d, s) && !self.join_has(
                                en,
                                rl,
                                d,
                                s,
                            ),
                            JoinChange::Update => prev.join_has(en, rl, d, s) && self.join_has(
                                en,
                                rl,
                                d,
                                s,
                            ) && self.join_differs(*prev, en, rl, d, s),
                        }
                    },
                forall|d: u32, s: u32|
                    #![trigger self.join_differs(*prev, en, rl, d, s)]
                    Self::diff_has_key(sdiff@, s) && self.join_differs(*prev, en, rl, d, s)
                        ==> exists|a: int| 0 <= a < out@.len() && (#[trigger] out@[a]).0 == (d, s),
                forall|d: u32, s: u32, jj: int|
                    #![trigger self.join_differs(*prev, en, rl, d, s), ddiff@[jj]]
                    0 <= jj < j && ddiff@[jj].0 == d && !Self::diff_has_key(sdiff@, s)
                        && self.join_differs(*prev, en, rl, d, s) ==> exists|a: int|
                        0 <= a < out@.len() && (#[trigger] out@[a]).0 == (d, s),
            decreases ddiff@.len() - j,
        {
            let d0: u32 = ddiff[j].0;
            let ghost ob = out@;
            proof {
                assert(entry_matches(prev.tab(dst as int), self.tab(dst as int), ddiff@[
                    j as int
                ].0, ddiff@[j as int].1));
            }
            let is_update = match &ddiff[j].1 {
                Delta::Update { .. } => true,
                _ => false,
            };
            if is_update {
                let srcs = self.sources_for(ent, rel, d0);
                let ghost ob2 = out@;

                let mut si: usize = 0;
                while si < srcs.len()
                    invariant
                        self.wf(),
                        prev.wf(),
                        self.same_schema(*prev),
                        self.coherent_with(*prev),
                        en == ent as int,
                        rl == rel as int,
                        ent < self.n_ents(),
                        rel < self.rels_of(en).len(),
                        dst == self.rels_of(en)[rl].dst,
                        (dst as int) < self.n_ents(),
                        prev.rels_of(en) == self.rels_of(en),
                        is_table_diff(prev.tab(en), self.tab(en), sdiff@),
                        prev.tab(dst as int).contains_key(d0),
                        self.tab(dst as int).contains_key(d0),
                        self.tab(dst as int)[d0].revision != prev.tab(dst as int)[d0].revision,
                        si <= srcs@.len(),
                        forall|a: int, b3: int| 0 <= a < b3 < srcs@.len() ==> srcs@[a] < srcs@[b3],
                        forall|a: int|
                            0 <= a < srcs@.len() ==> self.idx(en, rl).contains(
                                (d0, #[trigger] srcs@[a]),
                            ),
                        forall|sx: u32|
                            self.idx(en, rl).contains((d0, sx)) ==> exists|a: int|
                                0 <= a < srcs@.len() && #[trigger] srcs@[a] == sx,
                        ob2.len() <= out@.len(),
                        forall|a: int| 0 <= a < ob2.len() ==> #[trigger] out@[a] == ob2[a],
                        forall|a: int|
                            ob2.len() <= a < out@.len() ==> (#[trigger] out@[a]).0.0 == d0
                                && exists|b4: int|
                                0 <= b4 < si && srcs@[b4] == out@[a].0.1 && !Self::diff_has_key(
                                    sdiff@,
                                    out@[a].0.1,
                                ),
                        src_done.len() <= ob2.len(),
                        forall|a: int|
                            0 <= a < src_done.len() ==> #[trigger] out@[a] == src_done[a],
                        forall|a: int|
                            0 <= a < src_done.len() ==> Self::diff_has_key(
                            sdiff@,
                            (#[trigger] src_done[a]).0.1,
                        ),
                        forall|a: int|
                            #![trigger out@[a]]
                            src_done.len() <= a < ob2.len() ==> Self::early_diff_key(
                                ddiff@,
                                j as int,
                                out@[a].0.0,
                            ),
                        j < ddiff@.len(),
                        d0 == ddiff@[j as int].0,
                        forall|a: int, b3: int|
                            0 <= a < b3 < ddiff@.len() ==> ddiff@[a].0 < ddiff@[b3].0,
                        forall|a: int|
                            src_done.len() <= a < out@.len() ==> !Self::diff_has_key(
                                sdiff@,
                                (#[trigger] out@[a]).0.1,
                            ),
                        forall|a: int, b3: int|
                            0 <= a < b3 < out@.len() ==> out@[a].0 != out@[b3].0,
                        forall|a: int|
                            0 <= a < out@.len() ==> {
                                let d = (#[trigger] out@[a]).0.0;
                                let s = out@[a].0.1;
                                match out@[a].1 {
                                    JoinChange::Insert => !prev.join_has(en, rl, d, s)
                                        && self.join_has(en, rl, d, s),
                                    JoinChange::Remove => prev.join_has(en, rl, d, s)
                                        && !self.join_has(en, rl, d, s),
                                    JoinChange::Update => prev.join_has(en, rl, d, s)
                                        && self.join_has(en, rl, d, s) && self.join_differs(
                                        *prev,
                                        en,
                                        rl,
                                        d,
                                        s,
                                    ),
                                }
                            },
                        forall|sx: u32|
                            (exists|b4: int| 0 <= b4 < si && #[trigger] srcs@[b4] == sx)
                                && !Self::diff_has_key(sdiff@, sx) ==> exists|a: int|
                                0 <= a < out@.len() && (#[trigger] out@[a]).0 == (d0, sx),
                    decreases srcs@.len() - si,
                {
                    let sv = srcs[si];
                    let ghost ob3 = out@;
                    proof {
                        assert(self.idx(en, rl).contains((d0, sv)));
                        assert(self.tab(en).contains_key(sv));
                        assert(self.tab(en)[sv].data.fks@[rl] == Some(d0));
                    }
                    if !Self::diff_keys_contain(&sdiff, sv) {
                        proof {
                            // unchanged source row: present in prev with the same content
                            assert(!row_differs(prev.tab(en), self.tab(en), sv));
                            assert(prev.tab(en).contains_key(sv));
                            assert(self.tab(en)[sv].revision == prev.tab(en)[sv].revision);
                            assert(self.tab(en)[sv] == prev.tab(en)[sv]);
                            assert(prev.join_has(en, rl, d0, sv));
                            assert(self.join_has(en, rl, d0, sv));
                            assert(self.join_differs(*prev, en, rl, d0, sv));
                            assert forall|a: int| 0 <= a < ob3.len() implies (#[trigger] ob3[a]).0
                                != (d0, sv) by {
                                if a < src_done.len() {
                                    assert(ob3[a] == src_done[a]);
                                    assert(Self::diff_has_key(sdiff@, src_done[a].0.1));
                                } else if a < ob2.len() {
                                    assert(Self::early_diff_key(ddiff@, j as int, out@[a].0.0));
                                    let jj = choose|jj: int|
                                        0 <= jj < j && (#[trigger] ddiff@[jj]).0 == out@[a].0.0;
                                    assert(ddiff@[jj].0 < ddiff@[j as int].0);
                                    assert(ob3[a].0.0 != d0);
                                } else {
                                    assert(ob3[a].0.0 == d0);
                                    let b4 = choose|b4: int|
                                        0 <= b4 < si && srcs@[b4] == ob3[a].0.1
                                            && !Self::diff_has_key(sdiff@, ob3[a].0.1);
                                    assert(srcs@[b4] < srcs@[si as int]);
                                }
                            }
                        }
                        out.push(((d0, sv), JoinChange::Update));
                        proof {
                            assert(out@[out@.len() - 1].0 == (d0, sv));
                        }
                    }
                    proof {
                        assert forall|sx: u32|
                            (exists|b4: int| 0 <= b4 < si + 1 && #[trigger] srcs@[b4] == sx)
                                && !Self::diff_has_key(sdiff@, sx) implies exists|a: int|
                            0 <= a < out@.len() && (#[trigger] out@[a]).0 == (d0, sx) by {
                            let b4 = choose|b4: int| 0 <= b4 < si + 1 && #[trigger] srcs@[b4] == sx;
                            if b4 < si {
                                let a = choose|a: int|
                                    0 <= a < ob3.len() && (#[trigger] ob3[a]).0 == (d0, sx);
                                assert(out@[a] == ob3[a]);
                            } else {
                                assert(sx == sv);
                                assert(out@[out@.len() - 1].0 == (d0, sv));
                            }
                        }
                    }
                    si += 1;
                }
                proof {
                    assert forall|s: u32|
                        !Self::diff_has_key(sdiff@, s) && self.join_differs(
                            *prev,
                            en,
                            rl,
                            d0,
                            s,
                        ) implies exists|a: int|
                        0 <= a < out@.len() && (#[trigger] out@[a]).0 == (d0, s) by {
                        assert(!row_differs(prev.tab(en), self.tab(en), s));
                        if prev.join_has(en, rl, d0, s) || self.join_has(en, rl, d0, s) {
                            assert(prev.tab(en).contains_key(s) == self.tab(en).contains_key(s));
                            assert(self.tab(en).contains_key(s) && prev.tab(en).contains_key(s));
                            assert(self.tab(en)[s] == prev.tab(en)[s]);
                            assert(self.join_has(en, rl, d0, s));
                            assert(self.idx(en, rl).contains((d0, s)));
                            let b4 = choose|b4: int|
                                0 <= b4 < srcs@.len() && #[trigger] srcs@[b4] == s;
                        }
                    }
                }
            } else {
                proof {
                    assert forall|s: u32|
                        !Self::diff_has_key(sdiff@, s) && self.join_differs(
                            *prev,
                            en,
                            rl,
                            d0,
                            s,
                        ) implies exists|a: int|
                        0 <= a < out@.len() && (#[trigger] out@[a]).0 == (d0, s) by {
                        assert(!row_differs(prev.tab(en), self.tab(en), s));
                        if prev.join_has(en, rl, d0, s) || self.join_has(en, rl, d0, s) {
                            assert(prev.tab(en).contains_key(s) == self.tab(en).contains_key(s));
                            assert(self.tab(en).contains_key(s) && prev.tab(en).contains_key(s));
                            assert(self.tab(en)[s] == prev.tab(en)[s]);
                            assert(self.join_has(en, rl, d0, s) && prev.join_has(en, rl, d0, s));
                            assert(self.fk_at(en, s, rl) == Some(d0));
                            assert(prev.fk_at(en, s, rl) == Some(d0));
                            assert(match self.fk_at(en, s, rl) {
                                Some(dd) => self.tab(self.rels_of(en)[rl].dst as int).contains_key(
                                    dd,
                                ),
                                None => true,
                            });
                            assert(match prev.fk_at(en, s, rl) {
                                Some(dd) => prev.tab(prev.rels_of(en)[rl].dst as int).contains_key(
                                    dd,
                                ),
                                None => true,
                            });
                            assert(self.tab(dst as int).contains_key(d0));
                            assert(prev.tab(dst as int).contains_key(d0));
                            match ddiff@[j as int].1 {
                                Delta::Insert(_) => {
                                    assert(!prev.tab(dst as int).contains_key(d0));
                                },
                                Delta::Remove(_) => {
                                    assert(!self.tab(dst as int).contains_key(d0));
                                },
                                Delta::Update { .. } => {
                                    assert(false);
                                },
                            }
                        }
                    }
                }
            }
            proof {
                assert forall|a: int| 0 <= a < ob.len() implies #[trigger] out@[a] == ob[a] by {}
                assert forall|a: int|
                    #![trigger out@[a]]
                    src_done.len() <= a < out@.len() implies Self::early_diff_key(
                    ddiff@,
                    j as int + 1,
                    out@[a].0.0,
                ) by {
                    if a < ob.len() {
                        assert(out@[a] == ob[a]);
                        assert(Self::early_diff_key(ddiff@, j as int, out@[a].0.0));
                        let jj = choose|jj: int|
                            0 <= jj < j && (#[trigger] ddiff@[jj]).0 == out@[a].0.0;
                        assert(0 <= jj < j + 1 && ddiff@[jj].0 == out@[a].0.0);
                    } else {
                        assert(out@[a].0.0 == d0);
                        assert(ddiff@[j as int].0 == out@[a].0.0);
                    }
                }
                assert forall|d: u32, s: u32|
                    #![trigger self.join_differs(*prev, en, rl, d, s)]
                    Self::diff_has_key(sdiff@, s) && self.join_differs(
                        *prev,
                        en,
                        rl,
                        d,
                        s,
                    ) implies exists|a: int|
                    0 <= a < out@.len() && (#[trigger] out@[a]).0 == (d, s) by {
                    let a = choose|a: int| 0 <= a < ob.len() && (#[trigger] ob[a]).0 == (d, s);
                    assert(out@[a] == ob[a]);
                }
                assert forall|d: u32, s: u32, jj: int|
                    #![trigger self.join_differs(*prev, en, rl, d, s), ddiff@[jj]]
                    0 <= jj < j + 1 && ddiff@[jj].0 == d && !Self::diff_has_key(sdiff@, s)
                        && self.join_differs(*prev, en, rl, d, s) implies exists|a: int|
                    0 <= a < out@.len() && (#[trigger] out@[a]).0 == (d, s) by {
                    if jj < j {
                        let a = choose|a: int| 0 <= a < ob.len() && (#[trigger] ob[a]).0 == (d, s);
                        assert(out@[a] == ob[a]);
                    } else {
                        assert(d == d0);
                    }
                }
            }
            j += 1;
        }
        proof {
            assert forall|d: u32, s: u32|
                #[trigger] self.join_differs(*prev, en, rl, d, s) implies exists|i2: int|
                0 <= i2 < out@.len() && (#[trigger] out@[i2]).0 == (d, s) by {
                if Self::diff_has_key(sdiff@, s) {
                } else {
                    assert(!row_differs(prev.tab(en), self.tab(en), s));
                    if prev.join_has(en, rl, d, s) || self.join_has(en, rl, d, s) {
                        assert(prev.tab(en).contains_key(s) == self.tab(en).contains_key(s));
                        assert(self.tab(en).contains_key(s) && prev.tab(en).contains_key(s));
                        assert(self.tab(en)[s] == prev.tab(en)[s]);
                        assert(self.join_has(en, rl, d, s) && prev.join_has(en, rl, d, s));
                        assert(self.tab(en)[s].revision == prev.tab(en)[s].revision);
                        assert(self.tab(dst as int)[d].revision != prev.tab(dst as int)[
                            d
                        ].revision);
                        assert(self.fk_at(en, s, rl) == Some(d));
                        assert(prev.fk_at(en, s, rl) == Some(d));
                        assert(match self.fk_at(en, s, rl) {
                            Some(dd) => self.tab(self.rels_of(en)[rl].dst as int).contains_key(dd),
                            None => true,
                        });
                        assert(match prev.fk_at(en, s, rl) {
                            Some(dd) => prev.tab(prev.rels_of(en)[rl].dst as int).contains_key(
                                dd,
                            ),
                            None => true,
                        });
                        assert(self.tab(dst as int).contains_key(d));
                        assert(prev.tab(dst as int).contains_key(d));
                        assert(row_differs(prev.tab(dst as int), self.tab(dst as int), d));
                        let jj = choose|jj: int|
                            0 <= jj < ddiff@.len() && (#[trigger] ddiff@[jj]).0 == d;
                    }
                }
            }
        }
        out
    }
}

} // verus!