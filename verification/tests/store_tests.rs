use rlauncher_cache::parser::Application;
use rlauncher_cache::store::InsertOutcome;
use rlauncher_cache::store::RecordStore;

fn record(name: &str, exec_cmd: &str) -> Application {
    Application {
        name: name.to_string(),
        exec_cmd: exec_cmd.to_string(),
        comment: None,
        categories: None,
        keywords: None,
        use_terminal: false,
    }
}

#[test]
fn insert_into_empty_store() {
    let mut s = RecordStore::new();
    assert_eq!(s.len(), 0);
    let out = s.insert_if_absent(record("Foo", "foo"));
    assert_eq!(out, InsertOutcome::Inserted);
    assert_eq!(s.len(), 1);
    assert!(s.contains(&"Foo".to_string()));
}

#[test]
fn duplicate_name_is_ignored() {
    let mut s = RecordStore::new();
    assert_eq!(s.insert_if_absent(record("Foo", "foo")), InsertOutcome::Inserted);
    assert_eq!(s.insert_if_absent(record("Foo", "other")), InsertOutcome::AlreadyPresent);
    assert_eq!(s.len(), 1);
    let all = s.get_all();
    assert_eq!(all.len(), 1);
    assert_eq!(all[0].name, "Foo");
    assert_eq!(all[0].exec_cmd, "foo");
}

#[test]
fn distinct_names_accumulate() {
    let mut s = RecordStore::new();
    assert_eq!(s.insert_if_absent(record("A", "a")), InsertOutcome::Inserted);
    assert_eq!(s.insert_if_absent(record("B", "b")), InsertOutcome::Inserted);
    assert_eq!(s.insert_if_absent(record("C", "c")), InsertOutcome::Inserted);
    assert_eq!(s.len(), 3);
    assert!(s.contains(&"A".to_string()));
    assert!(s.contains(&"B".to_string()));
    assert!(s.contains(&"C".to_string()));
    assert!(!s.contains(&"D".to_string()));
}

#[test]
fn interleaved_insertions_keep_names_unique() {
    // The insertions of two rebuilds over the same directory, interleaved in
    // an arbitrary order: every name survives exactly once.
    let mut s = RecordStore::new();
    let first = [record("A", "a"), record("B", "b")];
    let second = [record("A", "a"), record("B", "b")];
    let mut outcomes = Vec::new();
    for (x, y) in first.into_iter().zip(second.into_iter()) {
        outcomes.push(s.insert_if_absent(x));
        outcomes.push(s.insert_if_absent(y));
    }
    assert_eq!(
        outcomes,
        vec![
            InsertOutcome::Inserted,
            InsertOutcome::AlreadyPresent,
            InsertOutcome::Inserted,
            InsertOutcome::AlreadyPresent,
        ]
    );
    assert_eq!(s.len(), 2);
}
