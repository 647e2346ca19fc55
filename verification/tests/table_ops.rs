use relstore::ids::{DbIndex, Index, RevIndex, TableIndex};
use relstore::row::{RowData, Value};
use relstore::table::{Delta, Table};

fn row(name: &str) -> RowData {
    RowData { attrs: vec![Value::Text(name.to_string())], fks: vec![] }
}

#[test]
fn table_basic_operations() {
    let mut t = Table::new();
    assert!(t.is_empty());
    assert_eq!(t.next_id(), 0);

    let a = t.insert_at(row("a"));
    let b = t.insert_at(row("b"));
    assert_eq!((a, b), (0, 1));
    assert_eq!(t.len(), 2);
    assert!(t.contains(a));
    assert_eq!(t.get(a).unwrap().attrs[0], Value::Text("a".to_string()));
    assert_eq!(t.keys(), vec![0, 1]);
    assert_eq!(t.values().len(), 2);

    let gone = t.remove(a).unwrap();
    assert_eq!(gone.attrs[0], Value::Text("a".to_string()));
    assert!(t.remove(a).is_none());
    assert_eq!(t.len(), 1);

    // identifiers are never reused after a removal
    let c = t.insert_at(row("c"));
    assert_eq!(c, 2);

    t.clear();
    assert!(t.is_empty());
    assert_eq!(t.next_id(), 3);
}

#[test]
fn table_delta_classifies_changes() {
    let mut t = Table::new();
    let a = t.insert_at(row("a"));
    let b = t.insert_at(row("b"));
    let prev = t.snapshot();

    t.remove(a).unwrap();
    let c = t.insert_at(row("c"));

    let delta = t.delta(&prev);
    assert_eq!(delta.len(), 2);
    match &delta[0] {
        (id, Delta::Remove(v)) => {
            assert_eq!(*id, a);
            assert_eq!(v.attrs[0], Value::Text("a".to_string()));
        }
        other => panic!("unexpected delta {:?}", other),
    }
    match &delta[1] {
        (id, Delta::Insert(v)) => {
            assert_eq!(*id, c);
            assert_eq!(v.attrs[0], Value::Text("c".to_string()));
        }
        other => panic!("unexpected delta {:?}", other),
    }
    assert!(t.contains(b));
    // the snapshot itself is untouched
    assert!(prev.contains(a));
}

#[test]
fn entries_are_sorted_by_identifier() {
    let mut t = Table::new();
    t.insert_at(row("a"));
    t.insert_at(row("b"));
    t.insert_at(row("c"));
    t.remove(1).unwrap();
    let entries = t.entries();
    assert_eq!(entries.len(), 2);
    assert_eq!(entries[0].0, 0);
    assert_eq!(entries[1].0, 2);
}

#[test]
fn identifier_newtypes_round_trip() {
    let i = Index::from_u32(7);
    assert_eq!(i.as_u32(), 7);
    assert_eq!(i.to_usize(), 7);
    assert_eq!(Index::from_usize(7), i);
    let d = DbIndex::new(TableIndex(1), i);
    assert_eq!(d.table, TableIndex(1));
    assert_eq!(d.value, i);
    assert_eq!(RevIndex::new(3).0, 3);
}
