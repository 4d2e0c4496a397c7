use diskscan::cache::CachedFile;
use diskscan::cache::FileCache;

fn entry(path: &str, size: u64) -> CachedFile {
    CachedFile { path: path.to_string(), size }
}

fn assert_sorted_desc(cache: &FileCache) {
    for w in cache.entries.windows(2) {
        assert!(w[0].size >= w[1].size);
    }
}

#[test]
fn add_caps_at_capacity_and_drops_smallest() {
    let mut cache = FileCache::new();
    let mut batch = Vec::new();
    for i in 0..=1000u64 {
        batch.push(entry(&format!("/f/{}", i), i));
    }
    cache.add(batch);
    assert_eq!(cache.entries.len(), 1000);
    assert_sorted_desc(&cache);
    // The smallest entry (size 0) was evicted.
    assert_eq!(cache.entries[0].size, 1000);
    assert_eq!(cache.entries[999].size, 1);
}

#[test]
fn add_keeps_cache_sorted_after_any_sequence_of_merges() {
    let mut cache = FileCache::new();
    cache.add(vec![entry("/a/x", 5), entry("/a/y", 50)]);
    assert_sorted_desc(&cache);
    assert_eq!(cache.entries.len(), 2);
    cache.add(vec![entry("/b/z", 20)]);
    assert_sorted_desc(&cache);
    assert_eq!(cache.entries.len(), 3);
    assert_eq!(cache.entries[0].size, 50);
    assert_eq!(cache.entries[1].size, 20);
    assert_eq!(cache.entries[2].size, 5);
    cache.add(Vec::new());
    assert_sorted_desc(&cache);
    assert_eq!(cache.entries.len(), 3);
}

#[test]
fn query_filters_by_nesting() {
    let mut cache = FileCache::new();
    cache.add(vec![
        entry("/a/x", 3),
        entry("/a/y", 2),
        entry("/ab/z", 9),
        entry("/b/z", 1),
    ]);
    let hits = cache.query("/a");
    assert_eq!(hits.len(), 2);
    for h in &hits {
        assert!(h.path.starts_with("/a/"));
    }
    // A textual prefix that is not a path prefix does not match.
    assert!(hits.iter().all(|h| !h.path.starts_with("/ab")));
}

#[test]
fn query_is_deterministic_and_leaves_cache_unchanged() {
    let mut cache = FileCache::new();
    cache.add(vec![entry("/a/x", 3), entry("/b/y", 2)]);
    let before: Vec<(String, u64)> =
        cache.entries.iter().map(|c| (c.path.clone(), c.size)).collect();
    let first = cache.query("/a");
    let second = cache.query("/a");
    assert_eq!(first.len(), second.len());
    for (x, y) in first.iter().zip(second.iter()) {
        assert_eq!(x.path, y.path);
        assert_eq!(x.size, y.size);
    }
    let after: Vec<(String, u64)> =
        cache.entries.iter().map(|c| (c.path.clone(), c.size)).collect();
    assert_eq!(before, after);
}

#[test]
fn query_reports_each_path_once() {
    let mut cache = FileCache::new();
    // The same path recorded twice with different sizes: an ordinary
    // state, since merges never deduplicate across scans.
    cache.add(vec![entry("/a/x", 20), entry("/a/x", 10), entry("/a/y", 5)]);
    assert_eq!(cache.entries.len(), 3);
    let hits = cache.query("/a");
    assert_eq!(hits.len(), 2);
    // The first occurrence in the sorted cache - the largest size - wins.
    assert_eq!(hits[0].path, "/a/x");
    assert_eq!(hits[0].size, 20);
    assert_eq!(hits[1].path, "/a/y");
    assert_eq!(hits[1].size, 5);
}

#[test]
fn query_root_matches_everything_absolute() {
    let mut cache = FileCache::new();
    cache.add(vec![entry("/a/x", 3), entry("/b/y", 2)]);
    let hits = cache.query("/");
    assert_eq!(hits.len(), 2);
}
