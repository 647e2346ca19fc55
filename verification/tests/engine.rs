use relstore::changes::ChangeEvent;
use relstore::error::{Error, SchemaError};
use relstore::row::{RowData, Value};
use relstore::schema::{DeleteRule, EntityDecl, Multiplicity, RelDecl, Schema};
use relstore::store::{JoinChange, Store};
use relstore::table::Delta;

const ARTIST: usize = 0;
const ALBUM: usize = 1;
const TRACK: usize = 2;

fn named(name: &str, fks: Vec<Option<u32>>) -> RowData {
    RowData { attrs: vec![Value::Text(name.to_string())], fks }
}

/// Artist; Album with an optional artist reference (nullify on artist
/// deletion); Track with a required album reference (cascade on album
/// deletion) and a required artist reference with the given rule.
fn music_schema(artist_rule: Option<DeleteRule>) -> Schema {
    Schema {
        entities: vec![
            EntityDecl { n_attrs: 1, rels: vec![] },
            EntityDecl {
                n_attrs: 1,
                rels: vec![RelDecl {
                    dst: ARTIST,
                    mult: Multiplicity::ZeroOrOne,
                    inv_mult: Multiplicity::Many,
                    rule: None,
                }],
            },
            EntityDecl {
                n_attrs: 1,
                rels: vec![
                    RelDecl {
                        dst: ALBUM,
                        mult: Multiplicity::One,
                        inv_mult: Multiplicity::Many,
                        rule: Some(DeleteRule::Cascade),
                    },
                    RelDecl {
                        dst: ARTIST,
                        mult: Multiplicity::One,
                        inv_mult: Multiplicity::Many,
                        rule: artist_rule,
                    },
                ],
            },
        ],
    }
}

#[test]
fn schema_validation_rejects_bad_declarations() {
    let missing = Schema {
        entities: vec![EntityDecl {
            n_attrs: 0,
            rels: vec![RelDecl {
                dst: 7,
                mult: Multiplicity::One,
                inv_mult: Multiplicity::Many,
                rule: None,
            }],
        }],
    };
    assert_eq!(missing.validate(), Err(SchemaError::NoSuchEntity { entity: 0, rel: 0 }));

    let nullify_required = Schema {
        entities: vec![EntityDecl {
            n_attrs: 0,
            rels: vec![RelDecl {
                dst: 0,
                mult: Multiplicity::One,
                inv_mult: Multiplicity::Many,
                rule: Some(DeleteRule::Nullify),
            }],
        }],
    };
    assert_eq!(
        nullify_required.validate(),
        Err(SchemaError::NullifyOnRequired { entity: 0, rel: 0 })
    );

    let both_required = Schema {
        entities: vec![EntityDecl {
            n_attrs: 0,
            rels: vec![RelDecl {
                dst: 0,
                mult: Multiplicity::One,
                inv_mult: Multiplicity::One,
                rule: Some(DeleteRule::Cascade),
            }],
        }],
    };
    assert_eq!(
        both_required.validate(),
        Err(SchemaError::BothSidesRequired { entity: 0, rel: 0 })
    );

    let many_source = Schema {
        entities: vec![EntityDecl {
            n_attrs: 0,
            rels: vec![RelDecl {
                dst: 0,
                mult: Multiplicity::Many,
                inv_mult: Multiplicity::Many,
                rule: Some(DeleteRule::Cascade),
            }],
        }],
    };
    assert_eq!(many_source.validate(), Err(SchemaError::ToManySource { entity: 0, rel: 0 }));

    assert!(music_schema(None).validate().is_ok());
}

#[test]
fn insert_validates_foreign_keys() {
    let mut store = Store::new(music_schema(None)).unwrap();
    // a required reference must be present
    assert_eq!(
        store.insert(TRACK, named("t", vec![None, None])),
        Err(Error::RelationshipTooFewTargets)
    );
    // and must name a live row
    assert_eq!(
        store.insert(TRACK, named("t", vec![Some(0), Some(0)])),
        Err(Error::ForeignKeyViolation)
    );
    let artist = store.insert(ARTIST, named("a", vec![])).unwrap();
    let album = store.insert(ALBUM, named("x", vec![Some(artist)])).unwrap();
    let track = store.insert(TRACK, named("t", vec![Some(album), Some(artist)])).unwrap();
    assert!(store.contains(TRACK, track));
    assert_eq!(store.len(TRACK), 1);
}

#[test]
fn unique_relation_rejects_second_source() {
    // a profile points at a person; at most one profile per person
    let schema = Schema {
        entities: vec![
            EntityDecl { n_attrs: 1, rels: vec![] },
            EntityDecl {
                n_attrs: 1,
                rels: vec![RelDecl {
                    dst: 0,
                    mult: Multiplicity::One,
                    inv_mult: Multiplicity::ZeroOrOne,
                    rule: Some(DeleteRule::Cascade),
                }],
            },
        ],
    };
    let mut store = Store::new(schema).unwrap();
    let person = store.insert(0, named("p", vec![])).unwrap();
    let profile = store.insert(1, named("q", vec![Some(person)])).unwrap();
    assert_eq!(
        store.insert(1, named("r", vec![Some(person)])),
        Err(Error::RelationshipTooManyTargets)
    );
    // re-targeting the existing profile to its current person is allowed
    assert!(store.update_fk(1, profile, 0, Some(person)).is_ok());
}

#[test]
fn update_attr_bumps_and_logs() {
    let mut store = Store::new(music_schema(None)).unwrap();
    let artist = store.insert(ARTIST, named("a", vec![])).unwrap();
    store.set_clock(5);
    assert_eq!(
        store.update_attr(ARTIST, 99, 0, Value::Text("x".to_string())),
        Err(Error::EntityNotFound)
    );
    store.update_attr(ARTIST, artist, 0, Value::Text("b".to_string())).unwrap();
    let row = store.get(ARTIST, artist).unwrap();
    assert_eq!(row.attrs[0], Value::Text("b".to_string()));
    let since = store.changes_since(5);
    assert_eq!(since.len(), 1);
    assert_eq!(since[0].at, 5);
    match &since[0].event {
        ChangeEvent::AttrChanged { entity, id, attr, old_value, new_value } => {
            assert_eq!((*entity, *id, *attr), (ARTIST, artist, 0));
            assert_eq!(*old_value, Value::Text("a".to_string()));
            assert_eq!(*new_value, Value::Text("b".to_string()));
        }
        other => panic!("unexpected change record {:?}", other),
    }
}

#[test]
fn deny_rule_blocks_delete_and_leaves_store_intact() {
    // the declared rule for Track.artist is the default for a required
    // reference: Deny
    let mut store = Store::new(music_schema(None)).unwrap();
    let artist = store.insert(ARTIST, named("A", vec![])).unwrap();
    let album = store.insert(ALBUM, named("X", vec![Some(artist)])).unwrap();
    let track = store.insert(TRACK, named("T1", vec![Some(album), Some(artist)])).unwrap();

    assert!(store.check_delete(ARTIST, artist).is_err());
    assert_eq!(store.delete(ARTIST, artist), Err(Error::RelationshipDeniedDelete));

    // nothing was mutated
    assert!(store.contains(ARTIST, artist));
    assert!(store.contains(ALBUM, album));
    assert!(store.contains(TRACK, track));
    assert_eq!(store.get(ALBUM, album).unwrap().fks[0], Some(artist));
}

#[test]
fn cascade_rule_removes_tracks_and_nullifies_album_artist() {
    // the declared rule for Track.artist is Cascade in this variant
    let mut store = Store::new(music_schema(Some(DeleteRule::Cascade))).unwrap();
    let artist = store.insert(ARTIST, named("A", vec![])).unwrap();
    let album = store.insert(ALBUM, named("X", vec![Some(artist)])).unwrap();
    let track = store.insert(TRACK, named("T1", vec![Some(album), Some(artist)])).unwrap();

    let removed = store.delete(ARTIST, artist).unwrap();
    assert!(removed.contains(&(ARTIST, artist)));
    assert!(removed.contains(&(TRACK, track)));
    assert_eq!(removed.len(), 2);

    assert!(!store.contains(ARTIST, artist));
    assert!(!store.contains(TRACK, track));
    assert!(store.contains(ALBUM, album));
    assert_eq!(store.get(ALBUM, album).unwrap().fks[0], None);
}

#[test]
fn transitive_deny_fails_atomically() {
    // deleting an album cascades into its tracks; a Deny-protected track
    // blocks the whole deletion with no partial effect
    let schema = Schema {
        entities: vec![
            EntityDecl { n_attrs: 1, rels: vec![] },
            EntityDecl {
                n_attrs: 1,
                rels: vec![RelDecl {
                    dst: 0,
                    mult: Multiplicity::One,
                    inv_mult: Multiplicity::Many,
                    rule: Some(DeleteRule::Cascade),
                }],
            },
            EntityDecl {
                n_attrs: 1,
                rels: vec![RelDecl {
                    dst: 1,
                    mult: Multiplicity::One,
                    inv_mult: Multiplicity::Many,
                    rule: None, // required, so the default is Deny
                }],
            },
        ],
    };
    let mut store = Store::new(schema).unwrap();
    let album = store.insert(0, named("album", vec![])).unwrap();
    let track = store.insert(1, named("track", vec![Some(album)])).unwrap();
    let rating = store.insert(2, named("rating", vec![Some(track)])).unwrap();

    assert_eq!(store.delete(0, album), Err(Error::RelationshipDeniedDelete));
    assert!(store.contains(0, album));
    assert!(store.contains(1, track));
    assert!(store.contains(2, rating));

    // removing the protector unblocks the cascade
    store.delete(2, rating).unwrap();
    let removed = store.delete(0, album).unwrap();
    assert_eq!(removed.len(), 2);
    assert!(!store.contains(1, track));
}

#[test]
fn diff_reports_exactly_the_changed_rows() {
    let mut store = Store::new(music_schema(None)).unwrap();
    let artist = store.insert(ARTIST, named("a", vec![])).unwrap();
    let album = store.insert(ALBUM, named("x", vec![Some(artist)])).unwrap();
    let t1 = store.insert(TRACK, named("t1", vec![Some(album), Some(artist)])).unwrap();
    let t2 = store.insert(TRACK, named("t2", vec![Some(album), Some(artist)])).unwrap();

    let snap = store.snapshot();
    store.delete(TRACK, t1).unwrap();

    let diff = store.diff(&snap);
    assert!(diff[ARTIST].is_empty());
    assert!(diff[ALBUM].is_empty());
    assert_eq!(diff[TRACK].len(), 1);
    let (id, delta) = &diff[TRACK][0];
    assert_eq!(*id, t1);
    match delta {
        Delta::Remove(v) => assert_eq!(v.attrs[0], Value::Text("t1".to_string())),
        other => panic!("unexpected delta {:?}", other),
    }
    assert!(store.contains(TRACK, t2));
}

#[test]
fn diff_of_identical_snapshots_is_empty() {
    let mut store = Store::new(music_schema(None)).unwrap();
    store.insert(ARTIST, named("a", vec![])).unwrap();
    let snap = store.snapshot();
    let diff = store.diff(&snap);
    for per_entity in diff {
        assert!(per_entity.is_empty());
    }
}

#[test]
fn moving_a_track_reports_remove_and_insert_not_update() {
    let mut store = Store::new(music_schema(None)).unwrap();
    let artist = store.insert(ARTIST, named("a", vec![])).unwrap();
    let a1 = store.insert(ALBUM, named("x", vec![Some(artist)])).unwrap();
    let a2 = store.insert(ALBUM, named("y", vec![Some(artist)])).unwrap();
    let t = store.insert(TRACK, named("t", vec![Some(a1), Some(artist)])).unwrap();

    let snap = store.snapshot();
    store.update_fk(TRACK, t, 0, Some(a2)).unwrap();

    let mut deltas = store.join_delta(&snap, TRACK, 0);
    deltas.sort_by_key(|e| e.0);
    assert_eq!(deltas, vec![((a1, t), JoinChange::Remove), ((a2, t), JoinChange::Insert)]);
}

#[test]
fn renaming_an_album_updates_its_join_tuples() {
    let mut store = Store::new(music_schema(None)).unwrap();
    let artist = store.insert(ARTIST, named("a", vec![])).unwrap();
    let a1 = store.insert(ALBUM, named("x", vec![Some(artist)])).unwrap();
    let t = store.insert(TRACK, named("t", vec![Some(a1), Some(artist)])).unwrap();

    let snap = store.snapshot();
    store.update_attr(ALBUM, a1, 0, Value::Text("z".to_string())).unwrap();

    let deltas = store.join_delta(&snap, TRACK, 0);
    assert_eq!(deltas, vec![((a1, t), JoinChange::Update)]);
}

#[test]
fn change_log_is_ordered_and_sliced_by_timestamp() {
    let mut store = Store::new(music_schema(None)).unwrap();
    store.insert(ARTIST, named("a", vec![])).unwrap();
    store.set_clock(10);
    store.insert(ARTIST, named("b", vec![])).unwrap();
    store.set_clock(20);
    store.insert(ARTIST, named("c", vec![])).unwrap();

    assert_eq!(store.changes_since(0).len(), 3);
    assert_eq!(store.changes_since(10).len(), 2);
    assert_eq!(store.changes_since(11).len(), 1);
    assert_eq!(store.changes_since(21).len(), 0);
    match &store.changes_since(20)[0].event {
        ChangeEvent::Inserted { entity, id } => assert_eq!((*entity, *id), (ARTIST, 2)),
        other => panic!("unexpected change record {:?}", other),
    }
}

#[test]
fn delete_logs_removed_rows_and_fk_changes() {
    let mut store = Store::new(music_schema(Some(DeleteRule::Cascade))).unwrap();
    let artist = store.insert(ARTIST, named("A", vec![])).unwrap();
    let album = store.insert(ALBUM, named("X", vec![Some(artist)])).unwrap();
    store.insert(TRACK, named("T", vec![Some(album), Some(artist)])).unwrap();
    store.set_clock(7);
    store.delete(ARTIST, artist).unwrap();

    let recs = store.changes_since(7);
    assert_eq!(recs.len(), 3);
    let mut removed = 0;
    let mut nullified = 0;
    for rec in recs {
        match &rec.event {
            ChangeEvent::Removed { row, .. } => {
                removed += 1;
                assert_eq!(row.attrs.len(), 1);
            }
            ChangeEvent::FkChanged { entity, rel, old_target, new_target, .. } => {
                nullified += 1;
                assert_eq!((*entity, *rel), (ALBUM, 0));
                assert_eq!(*old_target, Some(artist));
                assert_eq!(*new_target, None);
            }
            other => panic!("unexpected change record {:?}", other),
        }
    }
    assert_eq!((removed, nullified), (2, 1));
}

#[test]
fn referential_integrity_holds_after_mixed_operations() {
    let mut store = Store::new(music_schema(Some(DeleteRule::Cascade))).unwrap();
    let a1 = store.insert(ARTIST, named("a1", vec![])).unwrap();
    let a2 = store.insert(ARTIST, named("a2", vec![])).unwrap();
    let al1 = store.insert(ALBUM, named("x", vec![Some(a1)])).unwrap();
    let al2 = store.insert(ALBUM, named("y", vec![Some(a2)])).unwrap();
    let t = store.insert(TRACK, named("t", vec![Some(al1), Some(a2)])).unwrap();
    store.update_fk(TRACK, t, 0, Some(al2)).unwrap();
    // deleting a1 nullifies al1's artist; t survives, referencing a2 and al2
    store.delete(ARTIST, a1).unwrap();
    assert_eq!(store.get(ALBUM, al1).unwrap().fks[0], None);

    // every stored foreign key references a live row of its destination type
    for e in 0..store.n_entities() {
        for (_id, row) in store.entries(e) {
            for (r, fk) in row.fks.iter().enumerate() {
                if let Some(d) = fk {
                    let dst = match (e, r) {
                        (ALBUM, 0) => ARTIST,
                        (TRACK, 0) => ALBUM,
                        (TRACK, 1) => ARTIST,
                        _ => panic!("unexpected relation"),
                    };
                    assert!(store.contains(dst, *d));
                }
            }
        }
    }
    // and the index agrees with the rows
    assert_eq!(store.sources_for(TRACK, 0, al2), vec![t]);
    assert_eq!(store.sources_for(TRACK, 0, al1), Vec::<u32>::new());
}
