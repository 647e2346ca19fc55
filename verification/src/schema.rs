//! Schema descriptions: entities, their attribute counts, and their declared
//! foreign-key relations with multiplicity and delete-rule semantics.

use vstd::prelude::*;

use crate::error::SchemaError;

verus! {

/// Cardinality bound on one side of a relation.
#[derive(Clone, Copy, Debug, PartialEq, Eq, Structural)]
pub enum Multiplicity {
    ZeroOrOne,
    One,
    Many,
}

/// Policy applied to referencing rows when a referenced row is deleted.
#[derive(Clone, Copy, Debug, PartialEq, Eq, Structural)]
pub enum DeleteRule {
    Deny,
    Nullify,
    Cascade,
}

/// A relation declared on its foreign-key-bearing (source) side: each source
/// row holds at most one destination identifier in the matching slot of its
/// `fks` vector.
///
/// A to-many relation is declared on its to-one inverse side; the to-many
/// direction is the derived "all sources referencing this destination" view.
#[derive(Clone, Copy, Debug)]
pub struct RelDecl {
    /// The destination entity, as an index into the schema's entity list.
    pub dst: usize,
    /// Multiplicity on the source side: `One` makes the foreign key required,
    /// `ZeroOrOne` makes it optional. `Many` is rejected at validation.
    pub mult: Multiplicity,
    /// Multiplicity on the inverse (destination) side: how many sources may
    /// reference one destination. Anything but `Many` makes the relation
    /// unique and enforced by a unique index.
    pub inv_mult: Multiplicity,
    /// The rule applied to this relation's source rows when their destination
    /// row is deleted; `None` resolves to a default from the multiplicity.
    pub rule: Option<DeleteRule>,
}

/// The delete rule of a relation, with the default resolved from the inverse
/// side of the destination's view of the relation: a required foreign key
/// defaults to `Deny`, an optional one to `Nullify`.
pub open spec fn resolved_rule(r: RelDecl) -> DeleteRule {
    match r.rule {
        Some(d) => d,
        None => if r.mult == Multiplicity::One {
            DeleteRule::Deny
        } else {
            DeleteRule::Nullify
        },
    }
}

/// Exec mirror of [`resolved_rule`].
pub fn resolve_rule(r: &RelDecl) -> (d: DeleteRule)
    ensures
        d == resolved_rule(*r),
{
    match r.rule {
        Some(d) => d,
        None => if r.mult == Multiplicity::One {
            DeleteRule::Deny
        } else {
            DeleteRule::Nullify
        },
    }
}

/// Whether the relation keeps a unique (destination-keyed) index.
pub open spec fn is_unique(r: RelDecl) -> bool {
    r.inv_mult != Multiplicity::Many
}

/// One entity type: how many scalar attributes its rows carry, and the
/// relations its rows bear foreign keys for.
#[derive(Clone, Debug)]
pub struct EntityDecl {
    pub n_attrs: usize,
    pub rels: Vec<RelDecl>,
}

/// A full schema: one declaration per entity type, identified by position.
#[derive(Clone, Debug)]
pub struct Schema {
    pub entities: Vec<EntityDecl>,
}

/// Whether one relation declaration is legal within a schema of `n_ents`
/// entities.
pub open spec fn rel_valid(r: RelDecl, n_ents: int) -> bool {
    &&& r.dst < n_ents
    &&& (r.mult == Multiplicity::One || r.mult == Multiplicity::ZeroOrOne)
    &&& !(r.mult == Multiplicity::One && r.inv_mult == Multiplicity::One)
    &&& (resolved_rule(r) == DeleteRule::Nullify ==> r.mult == Multiplicity::ZeroOrOne)
}

/// Whether the whole schema is legal.
pub open spec fn schema_valid(s: Schema) -> bool {
    forall|e: int, r: int|
        0 <= e < s.entities@.len() && 0 <= r < s.entities@[e].rels@.len() ==> rel_valid(
            #[trigger] s.entities@[e].rels@[r],
            s.entities@.len() as int,
        )
}

/// Whether `err` names a real violation in `s`.
pub open spec fn schema_error_matches(s: Schema, err: SchemaError) -> bool {
    match err {
        SchemaError::NoSuchEntity { entity, rel } => 0 <= entity < s.entities@.len() && 0 <= rel
            < s.entities@[entity as int].rels@.len() && !(s.entities@[entity as int].rels@[
            rel as int
        ].dst < s.entities@.len()),
        SchemaError::NullifyOnRequired { entity, rel } => 0 <= entity < s.entities@.len() && 0
            <= rel < s.entities@[entity as int].rels@.len() && {
            let r = s.entities@[entity as int].rels@[rel as int];
            resolved_rule(r) == DeleteRule::Nullify && r.mult != Multiplicity::ZeroOrOne
        },
        SchemaError::BothSidesRequired { entity, rel } => 0 <= entity < s.entities@.len() && 0
            <= rel < s.entities@[entity as int].rels@.len() && {
            let r = s.entities@[entity as int].rels@[rel as int];
            r.mult == Multiplicity::One && r.inv_mult == Multiplicity::One
        },
        SchemaError::ToManySource { entity, rel } => 0 <= entity < s.entities@.len() && 0 <= rel
            < s.entities@[entity as int].rels@.len() && s.entities@[entity as int].rels@[
            rel as int
        ].mult == Multiplicity::Many,
    }
}

/// Whether two schemas declare the same entities: the same attribute counts
/// and the same relation lists.
pub open spec fn schema_matches(a: Schema, b: Schema) -> bool {
    &&& a.entities@.len() == b.entities@.len()
    &&& forall|e: int|
        0 <= e < a.entities@.len() ==> (#[trigger] a.entities@[e]).n_attrs == b.entities@[e].n_attrs
            && a.entities@[e].rels@ == b.entities@[e].rels@
}

/// Validity only depends on what a schema declares, so it carries over
/// between schemas that declare the same entities.
pub proof fn lemma_schema_matches_valid(a: Schema, b: Schema)
    requires
        schema_matches(a, b),
        schema_valid(b),
    ensures
        schema_valid(a),
{
    assert forall|e: int, r: int|
        0 <= e < a.entities@.len() && 0 <= r < a.entities@[e].rels@.len() implies rel_valid(
        #[trigger] a.entities@[e].rels@[r],
        a.entities@.len() as int,
    ) by {
        assert(a.entities@[e].rels@ == b.entities@[e].rels@);
        assert(rel_valid(b.entities@[e].rels@[r], b.entities@.len() as int));
    }
}

impl Schema {
    /// A copy declaring the same entities.
    pub fn dup(&self) -> (r: Schema)
        ensures
            schema_matches(r, *self),
    {
        let mut entities: Vec<EntityDecl> = Vec::new();
        let mut e: usize = 0;
        while e < self.entities.len()
            invariant
                e <= self.entities@.len(),
                entities@.len() == e,
                forall|e2: int|
                    0 <= e2 < e ==> (#[trigger] entities@[e2]).n_attrs
                        == self.entities@[e2].n_attrs && entities@[e2].rels@
                        == self.entities@[e2].rels@,
            decreases self.entities@.len() - e,
        {
            let src = &self.entities[e];
            let mut rels: Vec<RelDecl> = Vec::new();
            let mut r: usize = 0;
            while r < src.rels.len()
                invariant
                    r <= src.rels@.len(),
                    rels@.len() == r,
                    forall|r2: int| 0 <= r2 < r ==> rels@[r2] == src.rels@[r2],
                decreases src.rels@.len() - r,
            {
                rels.push(src.rels[r]);
                r += 1;
            }
            proof {
                assert(rels@ =~= src.rels@);
            }
            entities.push(EntityDecl { n_attrs: src.n_attrs, rels });
            e += 1;
        }
        Schema { entities }
    }

    /// Checks every declared relation: destinations must exist, a to-many
    /// relation must be declared on its to-one side, a required one-to-one
    /// relation is rejected, and a (resolved) `Nullify` rule is rejected on a
    /// required relation.
    pub fn validate(&self) -> (r: Result<(), SchemaError>)
        ensures
            r is Ok <==> schema_valid(*self),
            match r {
                Ok(()) => true,
                Err(err) => schema_error_matches(*self, err),
            },
    {
        let n = self.entities.len();
        let mut e: usize = 0;
        while e < n
            invariant
                n == self.entities@.len(),
                e <= n,
                forall|e2: int, r2: int|
                    0 <= e2 < e && 0 <= r2 < self.entities@[e2].rels@.len() ==> rel_valid(
                        #[trigger] self.entities@[e2].rels@[r2],
                        n as int,
                    ),
            decreases n - e,
        {
            let m = self.entities[e].rels.len();
            let mut r: usize = 0;
            while r < m
                invariant
                    n == self.entities@.len(),
                    e < n,
                    m == self.entities@[e as int].rels@.len(),
                    r <= m,
                    forall|e2: int, r2: int|
                        0 <= e2 < e && 0 <= r2 < self.entities@[e2].rels@.len() ==> rel_valid(
                            #[trigger] self.entities@[e2].rels@[r2],
                            n as int,
                        ),
                    forall|r2: int|
                        0 <= r2 < r ==> rel_valid(
                            #[trigger] self.entities@[e as int].rels@[r2],
                            n as int,
                        ),
                decreases m - r,
            {
                let rel = self.entities[e].rels[r];
                if !(rel.dst < n) {
                    return Err(SchemaError::NoSuchEntity { entity: e, rel: r });
                }
                if rel.mult == Multiplicity::Many {
                    return Err(SchemaError::ToManySource { entity: e, rel: r });
                }
                if rel.mult == Multiplicity::One && rel.inv_mult == Multiplicity::One {
                    return Err(SchemaError::BothSidesRequired { entity: e, rel: r });
                }
                let rule = resolve_rule(&rel);
                if rule == DeleteRule::Nullify && rel.mult != Multiplicity::ZeroOrOne {
                    return Err(SchemaError::NullifyOnRequired { entity: e, rel: r });
                }
                r += 1;
            }
            e += 1;
        }
        Ok(())
    }
}

} // verus!
