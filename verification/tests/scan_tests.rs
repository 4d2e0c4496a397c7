use diskscan::cache::CachedFile;
use diskscan::cache::FileCache;
use diskscan::node::FileNode;
use diskscan::scan::normalize_root;
use diskscan::scan::preview_from_cache;
use diskscan::scan::FallbackScan;
use diskscan::scan::IndexedScan;
use diskscan::ScanError;
use diskscan::ScanState;

fn assert_well_formed(node: &FileNode) {
    if let Some(children) = &node.children {
        let sum: u64 = children.iter().map(|c| c.size).sum();
        assert!(sum <= node.size);
        for c in children {
            assert_well_formed(c);
        }
    }
}

#[test]
fn cancellation_flag_round_trip() {
    let mut st = ScanState::new();
    assert!(!st.is_cancelled());
    st.cancel();
    assert!(st.is_cancelled());
    st.cancel();
    assert!(st.is_cancelled());
    st.reset();
    assert!(!st.is_cancelled());
}

#[test]
fn cancelled_scan_stops_at_next_pass_boundary() {
    let mut st = ScanState::new();
    let mut scan = IndexedScan::new("/r".to_string(), "/h".to_string());
    assert!(scan.next_pass(&st).is_ok());
    st.cancel();
    assert_eq!(scan.next_pass(&st), Err(ScanError::Cancelled));
}

#[test]
fn cancelled_fallback_stops_at_next_line() {
    let mut st = ScanState::new();
    let scan = FallbackScan::new("/r".to_string(), "/h".to_string());
    assert!(scan.check_line(&st, "1\tx").is_ok());
    st.cancel();
    assert_eq!(scan.check_line(&st, "1\tx"), Err(ScanError::Cancelled));
}

#[test]
fn pass_thresholds_descend() {
    let st = ScanState::new();
    let mut scan = IndexedScan::new("/r".to_string(), "/h".to_string());
    assert_eq!(scan.next_pass(&st), Ok(Some(104857600)));
    assert_eq!(scan.next_pass(&st), Ok(Some(52428800)));
    assert_eq!(scan.next_pass(&st), Ok(Some(10485760)));
    assert_eq!(scan.next_pass(&st), Ok(Some(5242880)));
    assert_eq!(scan.next_pass(&st), Ok(None));
}

#[test]
fn two_passes_find_both_large_files() {
    // One 150 MB file, one 60 MB file, ten 1 KB files, under
    // thresholds of 100 MB, 50 MB, 10 MB and 5 MB.
    let st = ScanState::new();
    let mut scan = IndexedScan::new("/d".to_string(), "/h".to_string());
    let big = 150 * 1024 * 1024u64;
    let med = 60 * 1024 * 1024u64;

    // Pass 1 surfaces only what exceeds 100 MB.
    let th1 = scan.next_pass(&st).unwrap().unwrap();
    assert!(big > th1 && med < th1);
    scan.ingest_hit("/d/big", big);
    assert_eq!(scan.file_count(), 1);

    // Pass 2 repeats the large file and adds the medium one.
    let th2 = scan.next_pass(&st).unwrap().unwrap();
    assert!(med > th2);
    scan.ingest_hit("/d/big", big);
    scan.ingest_hit("/d/med", med);
    assert_eq!(scan.file_count(), 2);

    // The ten 1 KB files sit below the smallest threshold: no pass ever
    // enumerates them, so the aggregate is an approximation that counts
    // only the discovered files.
    let mut cache = FileCache::new();
    let tree = scan.finish(&mut cache);
    assert_eq!(tree.size, big + med);
    assert!(tree.size >= 210 * 1024 * 1024);
    assert_well_formed(&tree);
    let children = tree.children.as_ref().unwrap();
    assert_eq!(children.len(), 2);
    assert_eq!(children[0].name, "big");
    assert_eq!(children[1].name, "med");
    // The finished scan seeded the cache with what it found.
    assert_eq!(cache.entries.len(), 2);
}

#[test]
fn preview_needs_more_than_ten_files() {
    let mut scan = IndexedScan::new("/d".to_string(), "/h".to_string());
    for i in 0..10u64 {
        scan.ingest_hit(&format!("/d/f{}", i), 100 + i);
    }
    assert!(!scan.should_emit_preview());
    scan.ingest_hit("/d/f10", 200);
    assert!(scan.should_emit_preview());
}

#[test]
fn tilde_expands_to_home() {
    assert_eq!(normalize_root("~", "/home/u"), "/home/u");
    assert_eq!(normalize_root("/x", "/home/u"), "/x");
    assert_eq!(normalize_root("~x", "/home/u"), "~x");
}

#[test]
fn cache_seeds_a_preview_without_touching_the_scan() {
    let mut cache = FileCache::new();
    cache.add(vec![
        CachedFile { path: "/r/a/x".to_string(), size: 100 },
        CachedFile { path: "/other/y".to_string(), size: 999 },
    ]);
    let preview = preview_from_cache(&cache, "/r", "/h").unwrap();
    assert_eq!(preview.path, "/r");
    assert_eq!(preview.size, 100);
    assert_well_formed(&preview);

    let empty = preview_from_cache(&cache, "/nothing", "/h");
    assert!(empty.is_none());
}

#[test]
fn fallback_collects_parsed_lines() {
    let st = ScanState::new();
    let mut scan = FallbackScan::new("/r".to_string(), "/h".to_string());
    let (size, name) = scan.check_line(&st, "1024\tfoo bar").unwrap().unwrap();
    assert_eq!((size, name.as_str()), (1024 * 1024, "foo bar"));
    scan.push_entry(&name, size, true);
    assert_eq!(scan.check_line(&st, "garbage").unwrap(), None);
    scan.push_entry("small", 10, false);
    let tree = scan.finalize();
    assert_eq!(tree.name, "r");
    assert_eq!(tree.size, 1024 * 1024 + 10);
    assert_well_formed(&tree);
    let children = tree.children.as_ref().unwrap();
    assert_eq!(children.len(), 2);
    assert_eq!(children[0].name, "foo bar");
    assert_eq!(children[0].path, "/r/foo bar");
    assert!(children[0].is_dir);
}

#[test]
fn listing_fallback_skips_hidden_and_sizes_directories() {
    let mut scan = FallbackScan::new("/r".to_string(), "/h".to_string());
    scan.push_listing_entry(".hidden", 12345, false);
    assert!(scan.is_empty());
    scan.push_listing_entry("adir", 0, true);
    scan.push_listing_entry("afile", 77, false);
    let tree = scan.finalize();
    // Directories get a one-megabyte placeholder pending deeper scans.
    assert_eq!(tree.size, 1048576 + 77);
    let children = tree.children.as_ref().unwrap();
    assert_eq!(children.len(), 2);
    assert_eq!(children[0].name, "adir");
    assert_eq!(children[0].size, 1048576);
}

#[test]
fn fallback_filters_small_files_when_crowded() {
    let mut scan = FallbackScan::new("/r".to_string(), "/h".to_string());
    for i in 0..55u64 {
        scan.push_entry(&format!("tiny{}", i), 100 + i, false);
    }
    for i in 0..3u64 {
        scan.push_entry(&format!("dir{}", i), 10 + i, true);
    }
    scan.push_entry("big", 2 * 1024 * 1024, false);
    let expected_total: u64 = (0..55u64).map(|i| 100 + i).sum::<u64>()
        + (0..3u64).map(|i| 10 + i).sum::<u64>() + 2 * 1024 * 1024;
    let tree = scan.finalize();
    // The total keeps every collected entry even after filtering.
    assert_eq!(tree.size, expected_total);
    let children = tree.children.as_ref().unwrap();
    // Only directories and files of at least one megabyte survive.
    assert_eq!(children.len(), 4);
    for c in children {
        assert!(c.size >= 1024 * 1024 || c.is_dir);
    }
    assert_eq!(children[0].name, "big");
}

#[test]
fn fallback_keeps_everything_when_few() {
    let mut scan = FallbackScan::new("/r".to_string(), "/h".to_string());
    for i in 0..20u64 {
        scan.push_entry(&format!("e{}", i), i, false);
    }
    let tree = scan.finalize();
    let children = tree.children.as_ref().unwrap();
    assert_eq!(children.len(), 20);
    for w in children.windows(2) {
        assert!(w[0].size >= w[1].size);
    }
}

#[test]
fn fallback_at_filesystem_root_joins_cleanly() {
    let mut scan = FallbackScan::new("/".to_string(), "/h".to_string());
    scan.push_entry("usr", 10, true);
    let tree = scan.finalize();
    assert_eq!(tree.name, "Root");
    let children = tree.children.as_ref().unwrap();
    assert_eq!(children[0].path, "/usr");
}

#[test]
fn listing_runs_only_when_the_summary_tool_yields_nothing() {
    let mut scan = FallbackScan::new("/r".to_string(), "/h".to_string());
    // Cache seeds alone do not count as summary-tool output.
    scan.seed_cached("/r/old", 500, false);
    assert!(!scan.is_empty());
    assert!(scan.summary_yielded_nothing());
    scan.push_entry("fresh", 10, false);
    assert!(!scan.summary_yielded_nothing());
}

#[test]
fn duplicate_cache_paths_seed_one_preview_entry() {
    let mut cache = FileCache::new();
    cache.add(vec![
        CachedFile { path: "/r/a/x".to_string(), size: 20 },
        CachedFile { path: "/r/a/x".to_string(), size: 10 },
    ]);
    let preview = preview_from_cache(&cache, "/r", "/h").unwrap();
    // The duplicated path is reported once, at its larger recorded size.
    assert_eq!(preview.size, 20);
}

#[test]
fn snapshot_exactness_is_checkable() {
    let mut scan = IndexedScan::new("/r".to_string(), "/h".to_string());
    scan.ingest_hit("/r/a", 1);
    assert!(scan.snapshot_exact());
    for i in 0..120u64 {
        scan.ingest_hit(&format!("/r/f{}", i), 10 + i);
    }
    assert!(!scan.snapshot_exact());
}

#[test]
fn progress_reporting_is_rate_limited() {
    let mut st = ScanState::new();
    assert_eq!(st.emit_interval_ms, 100);
    assert!(st.should_emit(100));
    st.mark_emitted(100);
    assert!(!st.should_emit(150));
    assert!(st.should_emit(200));
    st.record_item();
    st.record_item();
    let p = st.progress("/r/somewhere");
    assert_eq!(p.current_path, "/r/somewhere");
    assert_eq!(p.items_processed, 2);
    st.set_items(41);
    assert_eq!(st.progress("/r").items_processed, 41);
}

#[test]
fn error_messages_name_the_failure() {
    assert_eq!(ScanError::Cancelled.message(), "Scan cancelled");
    assert_eq!(ScanError::Io.message(), "Failed to read entry");
    assert_eq!(ScanError::ExternalTool.message(), "External tool failed");
    assert_eq!(ScanError::Parse.message(), "Malformed tool output");
    assert_eq!(ScanError::NotFound.message(), "Failed to read metadata");
}
