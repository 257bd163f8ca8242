use diskray::analyzer::{DiskAnalyzer, FileCategory};
use diskray::builder::ScanBuilder;
use diskray::entry::{ScanProgress, ScanResult};
use diskray::paths::get_extension;

fn scan_small_tree() -> ScanResult {
    let mut b = ScanBuilder::new("root".to_string());
    assert!(b.record_entry("root".to_string(), 0, true, 10));
    assert!(b.record_entry("root/a.txt".to_string(), 100, false, 20));
    assert!(b.record_entry("root/b".to_string(), 0, true, 30));
    assert!(b.record_entry("root/b/c.txt".to_string(), 100, false, 40));
    assert!(b.record_entry("root/b/d.txt".to_string(), 200, false, 50));
    b.finish(1000, 5)
}

#[test]
fn aggregates_sizes_bottom_up() {
    let r = scan_small_tree();
    assert_eq!(r.total_size, 400);
    assert_eq!(r.file_count, 3);
    assert_eq!(r.dir_count, 2);
    assert_eq!(r.scan_time, 1000);
    assert_eq!(r.scan_duration, 5);
    let root = r.entries.iter().find(|e| e.path == "root").unwrap();
    assert_eq!(root.size, 400);
    assert!(root.is_directory);
    let b = r.entries.iter().find(|e| e.path == "root/b").unwrap();
    assert_eq!(b.size, 300);
    assert_eq!(b.children, vec!["root/b/c.txt".to_string(), "root/b/d.txt".to_string()]);
    assert_eq!(root.children, vec!["root/a.txt".to_string(), "root/b".to_string()]);
}

#[test]
fn entry_fields_derive_from_path() {
    let r = scan_small_tree();
    let c = r.entries.iter().find(|e| e.path == "root/b/c.txt").unwrap();
    assert_eq!(c.name, "c.txt");
    assert_eq!(c.parent.as_deref(), Some("root/b"));
    assert_eq!(c.extension.as_deref(), Some("txt"));
    assert_eq!(c.modified, 40);
    assert!(!c.is_directory);
    let root = r.entries.iter().find(|e| e.path == "root").unwrap();
    assert_eq!(root.parent, None);
    assert_eq!(root.extension, None);
}

#[test]
fn unreadable_root_yields_empty_result() {
    let mut b = ScanBuilder::new("root".to_string());
    b.record_error();
    b.record_error();
    b.record_error();
    assert_eq!(b.error_count, 3);
    assert_eq!(b.visited, 3);
    let r = b.finish(0, 0);
    assert_eq!(r.file_count, 0);
    assert_eq!(r.dir_count, 0);
    assert_eq!(r.total_size, 0);
    assert!(r.entries.is_empty());
}

#[test]
fn duplicate_paths_are_skipped_and_tallied() {
    let mut b = ScanBuilder::new("r".to_string());
    assert!(b.record_entry("r/x".to_string(), 5, false, 0));
    assert!(!b.record_entry("r/x".to_string(), 7, false, 0));
    assert_eq!(b.error_count, 1);
    assert_eq!(b.visited, 2);
    let r = b.finish(0, 0);
    assert_eq!(r.file_count, 1);
    assert_eq!(r.total_size, 5);
}

#[test]
fn counts_match_visits_without_errors() {
    let mut b = ScanBuilder::new("r".to_string());
    assert!(b.record_entry("r".to_string(), 0, true, 0));
    assert!(b.record_entry("r/a".to_string(), 1, false, 0));
    assert_eq!(b.file_count + b.dir_count, b.visited);
    b.record_error();
    assert!(b.file_count + b.dir_count < b.visited);
}

#[test]
fn cancelled_prefix_still_aggregates() {
    // only the records seen before a stop: parent b was never visited
    let mut b = ScanBuilder::new("root".to_string());
    assert!(b.record_entry("root".to_string(), 0, true, 0));
    assert!(b.record_entry("root/a.txt".to_string(), 100, false, 0));
    assert!(b.record_entry("root/b/c.txt".to_string(), 100, false, 0));
    let r = b.finish(0, 0);
    let root = r.entries.iter().find(|e| e.path == "root").unwrap();
    // c.txt's parent was skipped, so it hangs loose and only a.txt counts
    assert_eq!(root.size, 100);
    assert_eq!(root.children, vec!["root/a.txt".to_string()]);
    assert_eq!(r.total_size, 200);
}

#[test]
fn directory_sums_saturate() {
    let mut b = ScanBuilder::new("r".to_string());
    assert!(b.record_entry("r".to_string(), 0, true, 0));
    assert!(b.record_entry("r/a".to_string(), u64::MAX, false, 0));
    assert!(b.record_entry("r/b".to_string(), 1, false, 0));
    let r = b.finish(0, 0);
    let root = r.entries.iter().find(|e| e.path == "r").unwrap();
    assert_eq!(root.size, u64::MAX);
    assert_eq!(r.total_size, u64::MAX);
}

#[test]
fn scenario_small_tree_analysis() {
    let r = scan_small_tree();
    let mut a = DiskAnalyzer::new();
    a.analyze_at(&r, 2_000_000_000);
    let dups = a.find_potential_duplicates();
    assert_eq!(dups.len(), 1);
    assert_eq!(dups[0].size, 100);
    assert_eq!(dups[0].paths, vec!["root/a.txt".to_string(), "root/b/c.txt".to_string()]);
    let largest = a.get_largest_files(1);
    assert_eq!(largest.len(), 1);
    assert_eq!(largest[0].path, "root/b/d.txt");
    assert_eq!(largest[0].size, 200);
}

#[test]
fn largest_ranking_is_non_increasing() {
    let r = scan_small_tree();
    let mut a = DiskAnalyzer::new();
    a.analyze_at(&r, 2_000_000_000);
    let l = a.get_largest_files(10);
    assert_eq!(l.len(), 3);
    for w in l.windows(2) {
        assert!(w[0].size >= w[1].size);
    }
    assert_eq!(l[0].path, "root/b/d.txt");
}

#[test]
fn oldest_ranking_respects_cutoff() {
    let mut b = ScanBuilder::new("r".to_string());
    let now: i64 = 100_000_000;
    let year: i64 = 31_536_000;
    assert!(b.record_entry("r/new.txt".to_string(), 1, false, now - 10));
    assert!(b.record_entry("r/old2.txt".to_string(), 1, false, now - year - 20));
    assert!(b.record_entry("r/old1.txt".to_string(), 1, false, now - year - 50));
    let r = b.finish(now, 0);
    let mut a = DiskAnalyzer::new();
    a.analyze_at(&r, now);
    let o = a.get_oldest_files(10);
    assert_eq!(o.len(), 2);
    assert_eq!(o[0].path, "r/old1.txt");
    assert_eq!(o[1].path, "r/old2.txt");
    assert!(o[0].modified <= o[1].modified);
}

#[test]
fn duplicate_groups_exclude_dirs_and_empty_files() {
    let mut b = ScanBuilder::new("r".to_string());
    assert!(b.record_entry("r".to_string(), 0, true, 0));
    assert!(b.record_entry("r/d1".to_string(), 0, true, 0));
    assert!(b.record_entry("r/d2".to_string(), 0, true, 0));
    assert!(b.record_entry("r/e1".to_string(), 0, false, 0));
    assert!(b.record_entry("r/e2".to_string(), 0, false, 0));
    assert!(b.record_entry("r/solo".to_string(), 9, false, 0));
    let r = b.finish(0, 0);
    let mut a = DiskAnalyzer::new();
    a.analyze_at(&r, 0);
    // empty files and directories never form groups; singletons drop out
    assert!(a.find_potential_duplicates().is_empty());
}

#[test]
fn duplicate_groups_sorted_by_member_count() {
    let mut b = ScanBuilder::new("r".to_string());
    for i in 0..2 {
        assert!(b.record_entry(format!("r/two{}", i), 50, false, 0));
    }
    for i in 0..3 {
        assert!(b.record_entry(format!("r/three{}", i), 7, false, 0));
    }
    let r = b.finish(0, 0);
    let mut a = DiskAnalyzer::new();
    a.analyze_at(&r, 0);
    let dups = a.find_potential_duplicates();
    assert_eq!(dups.len(), 2);
    assert_eq!(dups[0].size, 7);
    assert_eq!(dups[0].paths.len(), 3);
    assert_eq!(dups[1].size, 50);
    assert_eq!(dups[1].paths.len(), 2);
}

#[test]
fn reanalysis_is_reproducible() {
    let r = scan_small_tree();
    let mut a1 = DiskAnalyzer::new();
    let mut a2 = DiskAnalyzer::new();
    a1.analyze_at(&r, 77);
    a2.analyze_at(&r, 77);
    let l1: Vec<String> = a1.get_largest_files(100).into_iter().map(|e| e.path).collect();
    let l2: Vec<String> = a2.get_largest_files(100).into_iter().map(|e| e.path).collect();
    assert_eq!(l1, l2);
    let d1: Vec<(u64, Vec<String>)> =
        a1.find_potential_duplicates().into_iter().map(|g| (g.size, g.paths)).collect();
    let d2: Vec<(u64, Vec<String>)> =
        a2.find_potential_duplicates().into_iter().map(|g| (g.size, g.paths)).collect();
    assert_eq!(d1, d2);
    let s1: Vec<(FileCategory, u64, u64)> = a1
        .get_category_stats(&r)
        .into_iter()
        .map(|(c, st)| (c, st.total_size, st.file_count))
        .collect();
    let s2: Vec<(FileCategory, u64, u64)> = a2
        .get_category_stats(&r)
        .into_iter()
        .map(|(c, st)| (c, st.total_size, st.file_count))
        .collect();
    assert_eq!(s1, s2);
}

#[test]
fn progress_counters_track_visits() {
    let mut p = ScanProgress::default();
    assert!(!p.is_complete);
    p.on_visit("r/a".to_string());
    p.on_file(10);
    p.on_visit("r/b".to_string());
    p.on_error();
    p.mark_complete();
    assert_eq!(p.files_scanned, 2);
    assert_eq!(p.bytes_scanned, 10);
    assert_eq!(p.error_count, 1);
    assert_eq!(p.current_path, "r/b");
    assert!(p.is_complete);
}

#[test]
fn extension_parsing_cases() {
    assert_eq!(get_extension("a/b/c.TXT"), Some("txt".to_string()));
    assert_eq!(get_extension("a/b/.bashrc"), None);
    assert_eq!(get_extension("a/b/noext"), None);
    assert_eq!(get_extension("a.b/x.tar.GZ"), Some("gz".to_string()));
    assert_eq!(get_extension(""), None);
}

#[test]
fn progress_bytes_saturate() {
    let mut p = ScanProgress::default();
    p.on_file(u64::MAX - 1);
    p.on_file(10);
    assert_eq!(p.bytes_scanned, u64::MAX);
}

#[test]
fn three_level_nesting_aggregates_transitively() {
    let mut b = ScanBuilder::new("r".to_string());
    assert!(b.record_entry("r".to_string(), 0, true, 0));
    assert!(b.record_entry("r/x".to_string(), 0, true, 0));
    assert!(b.record_entry("r/x/y".to_string(), 0, true, 0));
    assert!(b.record_entry("r/x/y/f1".to_string(), 7, false, 0));
    assert!(b.record_entry("r/x/g".to_string(), 5, false, 0));
    let r = b.finish(0, 0);
    let size_of = |p: &str| r.entries.iter().find(|e| e.path == p).unwrap().size;
    assert_eq!(size_of("r/x/y"), 7);
    assert_eq!(size_of("r/x"), 12);
    assert_eq!(size_of("r"), 12);
    assert_eq!(r.total_size, 12);
}

#[test]
fn walk_order_does_not_matter() {
    // children arrive before their parents; linking still resolves them
    let mut b = ScanBuilder::new("r".to_string());
    assert!(b.record_entry("r/x/f".to_string(), 3, false, 0));
    assert!(b.record_entry("r/x".to_string(), 0, true, 0));
    assert!(b.record_entry("r".to_string(), 0, true, 0));
    let r = b.finish(0, 0);
    let size_of = |p: &str| r.entries.iter().find(|e| e.path == p).unwrap().size;
    assert_eq!(size_of("r/x"), 3);
    assert_eq!(size_of("r"), 3);
}

#[test]
fn largest_ranking_is_not_capped() {
    let mut b = ScanBuilder::new("r".to_string());
    for i in 0..150u64 {
        assert!(b.record_entry(format!("r/f{}", i), i + 1, false, 0));
    }
    let r = b.finish(0, 0);
    let mut a = DiskAnalyzer::new();
    a.analyze_at(&r, 0);
    let l = a.get_largest_files(200);
    assert_eq!(l.len(), 150);
    assert_eq!(l[0].size, 150);
    assert_eq!(a.get_largest_files(120).len(), 120);
    for w in l.windows(2) {
        assert!(w[0].size >= w[1].size);
    }
}
