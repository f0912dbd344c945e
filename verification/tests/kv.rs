use protohackers::kv::Store;

#[test]
fn version_is_answered_with_the_program() {
    let mut store = Store::new();
    assert_eq!(
        store.handle(b"version"),
        Some(b"version=Unusual Database Program v0.1".to_vec())
    );
}

#[test]
fn version_cannot_be_overwritten() {
    let mut store = Store::new();
    assert_eq!(store.handle(b"version=mine"), None);
    assert_eq!(
        store.handle(b"version"),
        Some(b"version=Unusual Database Program v0.1".to_vec())
    );
    assert_eq!(store.get(b"version"), b"mine".to_vec());
}

#[test]
fn stored_value_is_given_back() {
    let mut store = Store::new();
    assert_eq!(store.handle(b"foo=bar"), None);
    assert_eq!(store.handle(b"foo"), Some(b"foo=bar".to_vec()));
    assert_eq!(store.handle(b"foo=baz"), None);
    assert_eq!(store.handle(b"foo"), Some(b"foo=baz".to_vec()));
    assert_eq!(store.get(b"foo"), b"baz".to_vec());
}

#[test]
fn value_is_all_after_the_first_equals_sign() {
    let mut store = Store::new();
    assert_eq!(store.handle(b"foo=bar=baz"), None);
    assert_eq!(store.handle(b"foo"), Some(b"foo=bar=baz".to_vec()));
    assert_eq!(store.handle(b"foo==="), None);
    assert_eq!(store.handle(b"foo"), Some(b"foo===".to_vec()));
    assert_eq!(store.handle(b"foo="), None);
    assert_eq!(store.handle(b"foo"), Some(b"foo=".to_vec()));
}

#[test]
fn empty_key_is_a_key() {
    let mut store = Store::new();
    assert_eq!(store.handle(b""), Some(b"=".to_vec()));
    assert_eq!(store.handle(b"=val"), None);
    assert_eq!(store.handle(b""), Some(b"=val".to_vec()));
}

#[test]
fn unknown_key_has_the_empty_value() {
    let mut store = Store::new();
    store.handle(b"a=1");
    assert_eq!(store.handle(b"b"), Some(b"b=".to_vec()));
    assert_eq!(store.get(b"b"), Vec::<u8>::new());
}

#[test]
fn keys_are_kept_apart() {
    let mut store = Store::new();
    store.insert(b"a", b"1");
    store.insert(b"ab", b"2");
    store.insert(b"b", b"3");
    store.insert(b"a", b"4");
    assert_eq!(store.get(b"a"), b"4".to_vec());
    assert_eq!(store.get(b"ab"), b"2".to_vec());
    assert_eq!(store.get(b"b"), b"3".to_vec());
}
