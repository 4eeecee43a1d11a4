use xlkv::kv::index::Index;

fn s(text: &str) -> String {
    text.to_string()
}

#[test]
fn empty_index() {
    let index = Index::new();
    assert_eq!(index.len(), 0);
    assert_eq!(index.get(&s("a")), None);
    assert_eq!(index.position(&s("a")), None);
}

#[test]
fn insert_then_get() {
    let mut index = Index::new();
    assert_eq!(index.insert_or_update(s("a"), 0), None);
    assert_eq!(index.insert_or_update(s("b"), 25), None);
    assert_eq!(index.len(), 2);
    assert_eq!(index.get(&s("a")), Some(0));
    assert_eq!(index.get(&s("b")), Some(25));
    assert_eq!(index.get(&s("c")), None);
    assert_eq!(index.get(&s("")), None);
}

#[test]
fn update_replaces_the_offset_and_keeps_the_place() {
    let mut index = Index::new();
    index.insert_or_update(s("a"), 0);
    index.insert_or_update(s("b"), 10);
    index.insert_or_update(s("c"), 20);
    assert_eq!(index.insert_or_update(s("b"), 30), Some(10));
    assert_eq!(index.len(), 3);
    assert_eq!(index.get(&s("b")), Some(30));
    assert_eq!(index.position(&s("b")), Some(1));
    assert_eq!(index.key(1), "b");
    assert_eq!(index.offset(1), 30);
    assert_eq!(index.key(0), "a");
    assert_eq!(index.offset(0), 0);
    assert_eq!(index.key(2), "c");
    assert_eq!(index.offset(2), 20);
}

#[test]
fn remove_takes_the_key_out_and_keeps_the_order() {
    let mut index = Index::new();
    index.insert_or_update(s("a"), 0);
    index.insert_or_update(s("b"), 10);
    index.insert_or_update(s("c"), 20);
    assert_eq!(index.remove(&s("b")), Some(10));
    assert_eq!(index.len(), 2);
    assert_eq!(index.get(&s("b")), None);
    assert_eq!(index.key(0), "a");
    assert_eq!(index.key(1), "c");
    assert_eq!(index.remove(&s("b")), None);
    assert_eq!(index.len(), 2);
    // a key that comes back comes last
    assert_eq!(index.insert_or_update(s("b"), 40), None);
    assert_eq!(index.position(&s("b")), Some(2));
    assert_eq!(index.get(&s("b")), Some(40));
}

#[test]
fn empty_key_is_a_key() {
    let mut index = Index::new();
    assert_eq!(index.insert_or_update(s(""), 5), None);
    assert_eq!(index.get(&s("")), Some(5));
    assert_eq!(index.remove(&s("")), Some(5));
    assert_eq!(index.len(), 0);
}
