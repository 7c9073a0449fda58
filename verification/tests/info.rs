//! What is known of a predicate.
use polydat::comprehension::predicate::info::PerAxisMap;

#[test]
fn per_axis_map_insertion_order() {
    let mut m: PerAxisMap<i64> = PerAxisMap::new();
    m.insert("k", 10);
    m.insert("limit", 20);
    let keys: Vec<&str> = m.keys();
    assert_eq!(keys, vec!["k", "limit"]);
}

#[test]
fn per_axis_map_replace_preserves_position() {
    let mut m: PerAxisMap<i64> = PerAxisMap::new();
    m.insert("k", 10);
    m.insert("limit", 20);
    m.insert("k", 100); // replace
    let keys: Vec<&str> = m.keys();
    assert_eq!(keys, vec!["k", "limit"]);
    assert_eq!(*m.get("k").unwrap(), 100);
}

