use relstore::circuit::{FkJoinIndexed, Integrate, ZDelta};
use relstore::store::JoinChange;
use std::collections::BTreeSet;
use relstore::error::Error;
use relstore::row::{RowData, Value};
use relstore::schema::{DeleteRule, EntityDecl, Multiplicity, RelDecl, Schema};
use relstore::store::Store;

fn named(name: &str, fks: Vec<Option<u32>>) -> RowData {
    RowData { attrs: vec![Value::Text(name.to_string())], fks }
}

fn parent_child_schema(rule: DeleteRule) -> Schema {
    Schema {
        entities: vec![
            EntityDecl { n_attrs: 1, rels: vec![] },
            EntityDecl {
                n_attrs: 1,
                rels: vec![RelDecl {
                    dst: 0,
                    mult: Multiplicity::One,
                    inv_mult: Multiplicity::Many,
                    rule: Some(rule),
                }],
            },
        ],
    }
}

#[test]
fn check_delete_is_a_dry_run() {
    let mut store = Store::new(parent_child_schema(DeleteRule::Cascade)).unwrap();
    let parent = store.insert(0, named("p", vec![])).unwrap();
    let c1 = store.insert(1, named("c1", vec![Some(parent)])).unwrap();
    let c2 = store.insert(1, named("c2", vec![Some(parent)])).unwrap();

    let plan = store.check_delete(0, parent).unwrap();
    assert_eq!(plan[0], (0, parent));
    assert!(plan.contains(&(1, c1)));
    assert!(plan.contains(&(1, c2)));
    assert_eq!(plan.len(), 3);
    // nothing was mutated by the dry run
    assert!(store.contains(0, parent));
    assert_eq!(store.len(1), 2);

    assert_eq!(store.check_delete(0, 99), Err(Error::EntityNotFound));
}

#[test]
fn sources_for_lists_referencing_rows() {
    let mut store = Store::new(parent_child_schema(DeleteRule::Deny)).unwrap();
    let parent = store.insert(0, named("p", vec![])).unwrap();
    let other = store.insert(0, named("q", vec![])).unwrap();
    let c1 = store.insert(1, named("c1", vec![Some(parent)])).unwrap();
    let c2 = store.insert(1, named("c2", vec![Some(parent)])).unwrap();
    store.insert(1, named("c3", vec![Some(other)])).unwrap();

    assert_eq!(store.sources_for(1, 0, parent), vec![c1, c2]);
    assert_eq!(store.sources_for(1, 0, 77), Vec::<u32>::new());
}

#[test]
fn snapshot_is_independent_of_later_mutations() {
    let mut store = Store::new(parent_child_schema(DeleteRule::Cascade)).unwrap();
    let parent = store.insert(0, named("p", vec![])).unwrap();
    let snap = store.snapshot();
    store.update_attr(0, parent, 0, Value::Text("renamed".to_string())).unwrap();
    assert_eq!(snap.get(0, parent).unwrap().attrs[0], Value::Text("p".to_string()));
    assert_eq!(store.get(0, parent).unwrap().attrs[0], Value::Text("renamed".to_string()));
    // the snapshot starts an empty change log of its own
    assert_eq!(snap.change_log().len(), 0);
}

#[test]
fn integrate_sums_multiplicities_per_key() {
    let mut z = Integrate::new();
    z.eval(ZDelta { key: 4, value: named("v", vec![]), multiplicity: 1 });
    z.eval(ZDelta { key: 4, value: named("w", vec![]), multiplicity: 1 });
    z.eval(ZDelta { key: 9, value: named("x", vec![]), multiplicity: 1 });
    z.eval(ZDelta { key: 4, value: named("y", vec![]), multiplicity: -1 });
    assert_eq!(z.multiplicity(4), 1);
    assert_eq!(z.multiplicity(9), 1);
    assert_eq!(z.multiplicity(100), 0);
    // the first value seen for a key is kept as its representative
    let entries = z.entries();
    assert_eq!(entries.len(), 2);
    assert_eq!(entries[0].0, 4);
    assert_eq!(entries[0].1.value.attrs[0], Value::Text("v".to_string()));
}

#[test]
fn join_emits_product_multiplicities() {
    let mut dsts = Integrate::new();
    dsts.eval(ZDelta { key: 2, value: named("album", vec![]), multiplicity: 1 });
    let join = FkJoinIndexed::new(0);

    let hit = join
        .eval(&dsts, ZDelta { key: 5, value: named("track", vec![Some(2)]), multiplicity: -1 })
        .unwrap();
    assert_eq!((hit.dst, hit.src), (2, 5));
    assert_eq!(hit.multiplicity, -1);
    assert_eq!(hit.left.attrs[0], Value::Text("album".to_string()));
    assert_eq!(hit.right.attrs[0], Value::Text("track".to_string()));

    // a delta whose destination is not materialized joins with nothing
    let miss = join.eval(&dsts, ZDelta {
        key: 6,
        value: named("stray", vec![Some(3)]),
        multiplicity: 1,
    });
    assert!(miss.is_none());
}

#[test]
fn error_messages_name_the_failure() {
    assert_eq!(Error::EntityNotFound.message(), "entity not found");
    assert_eq!(
        Error::RelationshipDeniedDelete.message(),
        "deletion of entity denied due to relationship delete rule"
    );
    assert_eq!(
        Error::RelationshipTooManyTargets.message(),
        "the operation would result in a relationship with too many targets"
    );
    assert_eq!(
        Error::RelationshipTooFewTargets.message(),
        "the operation would result in a relationship with too few targets"
    );
    assert_eq!(
        Error::ForeignKeyViolation.message(),
        "operation referenced a nonexistent destination entity"
    );
}

#[test]
fn join_delta_matches_symmetric_difference_of_full_joins() {
    let mut store = Store::new(parent_child_schema(DeleteRule::Cascade)).unwrap();
    let p1 = store.insert(0, named("p1", vec![])).unwrap();
    let p2 = store.insert(0, named("p2", vec![])).unwrap();
    let c1 = store.insert(1, named("c1", vec![Some(p1)])).unwrap();
    let c2 = store.insert(1, named("c2", vec![Some(p2)])).unwrap();

    let snap = store.snapshot();
    let before: BTreeSet<(u32, u32)> = store.join_all(1, 0).into_iter().collect();
    assert_eq!(before, [(p1, c1), (p2, c2)].into_iter().collect());

    store.update_fk(1, c1, 0, Some(p2)).unwrap();
    let c3 = store.insert(1, named("c3", vec![Some(p1)])).unwrap();

    let after: BTreeSet<(u32, u32)> = store.join_all(1, 0).into_iter().collect();
    assert_eq!(after, [(p2, c1), (p2, c2), (p1, c3)].into_iter().collect());

    let deltas = store.join_delta(&snap, 1, 0);
    let inserted: BTreeSet<(u32, u32)> = deltas
        .iter()
        .filter(|e| e.1 == JoinChange::Insert)
        .map(|e| e.0)
        .collect();
    let removed: BTreeSet<(u32, u32)> = deltas
        .iter()
        .filter(|e| e.1 == JoinChange::Remove)
        .map(|e| e.0)
        .collect();
    let sym: BTreeSet<(u32, u32)> = before.symmetric_difference(&after).copied().collect();
    let mut emitted: BTreeSet<(u32, u32)> = inserted.union(&removed).copied().collect();
    assert_eq!(emitted, sym);
    assert!(inserted.iter().all(|k| after.contains(k) && !before.contains(k)));
    assert!(removed.iter().all(|k| before.contains(k) && !after.contains(k)));
    // the unchanged tuple is not reported at all
    emitted.extend(deltas.iter().map(|e| e.0));
    assert!(!emitted.contains(&(p2, c2)));
}
