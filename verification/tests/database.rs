use charmap::database::{calculate_hash, ExampleDatabase, InMemoryExampleDatabase};

#[test]
fn test_can_delete_keys() {
    let mut db = InMemoryExampleDatabase::new();
    db.save(b"foo", b"bar");
    db.save(b"foo", b"baz");
    db.delete(b"foo", b"bar");
    assert_eq!(db.fetch(b"foo").into_vec(), vec![b"baz".to_vec()])
}

#[test]
fn test_does_not_error_when_fetching_when_not_exist() {
    let db = InMemoryExampleDatabase::new();
    let expected: Vec<Vec<u8>> = vec![];
    assert_eq!(db.fetch(b"foo").into_vec(), expected);
}

#[test]
fn saving_a_value_twice_fetches_it_once() {
    let mut db = InMemoryExampleDatabase::new();
    db.save(b"foo", b"bar");
    db.save(b"foo", b"bar");
    assert_eq!(db.fetch(b"foo").into_vec(), vec![b"bar".to_vec()]);
}

#[test]
fn values_move_between_keys() {
    let mut db = InMemoryExampleDatabase::new();
    db.move_value(b"a", b"b", b"c");
    assert_eq!(db.fetch(b"b").into_vec(), vec![b"c".to_vec()]);
    db.move_value(b"b", b"b", b"c");
    assert_eq!(db.fetch(b"b").into_vec(), vec![b"c".to_vec()]);
}

#[test]
fn calculate_hash_is_the_hex_digest_prefix() {
    // The SHA-384 digest of the empty input starts with these bytes.
    assert_eq!(calculate_hash(b""), "38b060a751ac9638");
    assert_eq!(calculate_hash(b"foo").len(), 16);
    assert_ne!(calculate_hash(b"foo"), calculate_hash(b"bar"));
}
