use diskscan::sizemap::SizeMap;

#[test]
fn insert_and_lookup() {
    let mut m = SizeMap::new();
    assert_eq!(m.len(), 0);
    assert!(!m.contains_path("/a/x"));
    assert_eq!(m.get("/a/x"), None);
    m.insert_new("/a/x".to_string(), 7);
    assert!(m.contains_path("/a/x"));
    assert_eq!(m.get("/a/x"), Some(7));
    assert_eq!(m.get("/a/y"), None);
    assert_eq!(m.len(), 1);
}

#[test]
fn add_to_bumps_or_creates() {
    let mut m = SizeMap::new();
    m.add_to("/d", 10);
    assert_eq!(m.get("/d"), Some(10));
    m.add_to("/d", 5);
    assert_eq!(m.get("/d"), Some(15));
    m.add_to("/e", 1);
    assert_eq!(m.get("/e"), Some(1));
    assert_eq!(m.len(), 2);
}
