use diskscan::node::FileNode;
use diskscan::scan::IndexedScan;
use diskscan::sizemap::SizeMap;
use diskscan::tree::build_tree_from_files;

/// Every node's direct children sum to at most the node's own size.
fn assert_well_formed(node: &FileNode) {
    if let Some(children) = &node.children {
        let sum: u64 = children.iter().map(|c| c.size).sum();
        assert!(sum <= node.size, "children of {} exceed it", node.path);
        for c in children {
            assert_well_formed(c);
        }
    }
}

#[test]
fn root_path_is_named_root() {
    let files = SizeMap::new();
    let dirs = SizeMap::new();
    let tree = build_tree_from_files(&files, &dirs, "/", "/home/user");
    assert_eq!(tree.name, "Root");
    assert_eq!(tree.path, "/");
    assert!(tree.is_dir);
    assert_eq!(tree.size, 0);
}

#[test]
fn home_path_is_named_home() {
    let files = SizeMap::new();
    let dirs = SizeMap::new();
    let tree = build_tree_from_files(&files, &dirs, "/home/user", "/home/user");
    assert_eq!(tree.name, "Home");
}

#[test]
fn other_path_is_named_by_last_component() {
    let files = SizeMap::new();
    let dirs = SizeMap::new();
    let tree = build_tree_from_files(&files, &dirs, "/data/stuff", "/home/user");
    assert_eq!(tree.name, "stuff");
}

#[test]
fn one_level_expansion_with_aggregates() {
    let mut scan = IndexedScan::new("/r".to_string(), "/home/user".to_string());
    scan.ingest_hit("/r/a/x", 100);
    scan.ingest_hit("/r/a/y", 50);
    scan.ingest_hit("/r/f", 30);
    let tree = scan.snapshot();
    assert_eq!(tree.path, "/r");
    assert_eq!(tree.size, 180);
    assert!(tree.is_dir);
    assert_well_formed(&tree);
    let children = tree.children.as_ref().unwrap();
    assert_eq!(children.len(), 2);
    // Sorted descending: the subdirectory aggregate first.
    assert_eq!(children[0].path, "/r/a");
    assert_eq!(children[0].size, 150);
    assert!(children[0].is_dir);
    assert_eq!(children[1].path, "/r/f");
    assert_eq!(children[1].size, 30);
    assert!(!children[1].is_dir);
    // The subdirectory carries the files directly inside it.
    let sub = children[0].children.as_ref().unwrap();
    assert_eq!(sub.len(), 2);
    assert_eq!(sub[0].name, "x");
    assert_eq!(sub[1].name, "y");
}

#[test]
fn deeper_files_only_surface_in_aggregates() {
    let mut scan = IndexedScan::new("/r".to_string(), "/h".to_string());
    scan.ingest_hit("/r/a/b/deep", 400);
    let tree = scan.snapshot();
    assert_eq!(tree.size, 400);
    assert_well_formed(&tree);
    let children = tree.children.as_ref().unwrap();
    assert_eq!(children.len(), 1);
    // Only the first level is expanded; the deep file is aggregate weight.
    assert_eq!(children[0].path, "/r/a");
    assert_eq!(children[0].size, 400);
    assert!(children[0].is_dir);
    assert!(children[0].children.is_none());
}

#[test]
fn scan_at_filesystem_root() {
    let mut scan = IndexedScan::new("/".to_string(), "/h".to_string());
    scan.ingest_hit("/f", 5);
    scan.ingest_hit("/a/g", 7);
    let tree = scan.snapshot();
    assert_eq!(tree.name, "Root");
    assert_eq!(tree.size, 12);
    assert_well_formed(&tree);
    let children = tree.children.as_ref().unwrap();
    assert_eq!(children.len(), 2);
    assert_eq!(children[0].path, "/a");
    assert!(children[0].is_dir);
    assert_eq!(children[1].path, "/f");
}

#[test]
fn duplicates_and_outside_paths_are_ignored() {
    let mut scan = IndexedScan::new("/r".to_string(), "/h".to_string());
    scan.ingest_hit("/r/x", 10);
    scan.ingest_hit("/r/x", 99);
    scan.ingest_hit("/elsewhere/y", 5);
    scan.ingest_hit("not-absolute", 5);
    scan.ingest_hit("/r//bad", 5);
    let tree = scan.snapshot();
    assert_eq!(tree.size, 10);
    assert_eq!(scan.file_count(), 1);
}

#[test]
fn children_are_capped_at_one_hundred() {
    let mut scan = IndexedScan::new("/r".to_string(), "/h".to_string());
    for i in 0..150u64 {
        scan.ingest_hit(&format!("/r/f{}", i), 1000 + i);
    }
    let tree = scan.snapshot();
    assert_eq!(tree.size, (0..150u64).map(|i| 1000 + i).sum::<u64>());
    let children = tree.children.as_ref().unwrap();
    assert_eq!(children.len(), 100);
    assert_well_formed(&tree);
    // The largest survive the cap.
    assert_eq!(children[0].size, 1149);
    assert_eq!(children[99].size, 1050);
}
