use diskray::analyzer::{DiskAnalyzer, FileCategory};
use diskray::builder::ScanBuilder;
use diskray::panels::TreePanel;

fn analyzer_and_scan(paths: &[(&str, u64, bool)]) -> (DiskAnalyzer, diskray::entry::ScanResult) {
    let mut b = ScanBuilder::new("r".to_string());
    for (p, sz, dir) in paths {
        assert!(b.record_entry(p.to_string(), *sz, *dir, 0));
    }
    (DiskAnalyzer::new(), b.finish(0, 0))
}

#[test]
fn categorizes_by_extension_table() {
    let (a, r) = analyzer_and_scan(&[
        ("r/report.pdf", 1, false),
        ("r/photo.JPG", 1, false),
        ("r/movie.mkv", 1, false),
        ("r/song.flac", 1, false),
        ("r/backup.tar", 1, false),
        ("r/tool.exe", 1, false),
        ("r/main.rs", 1, false),
        ("r/table.sqlite", 1, false),
    ]);
    let cat = |p: &str| {
        a.categorize_file(r.entries.iter().find(|e| e.path == p).unwrap())
    };
    assert_eq!(cat("r/report.pdf"), FileCategory::Documents);
    assert_eq!(cat("r/photo.JPG"), FileCategory::Images);
    assert_eq!(cat("r/movie.mkv"), FileCategory::Videos);
    assert_eq!(cat("r/song.flac"), FileCategory::Audio);
    assert_eq!(cat("r/backup.tar"), FileCategory::Archives);
    assert_eq!(cat("r/tool.exe"), FileCategory::Executables);
    assert_eq!(cat("r/main.rs"), FileCategory::Code);
    assert_eq!(cat("r/table.sqlite"), FileCategory::Data);
}

#[test]
fn first_matching_row_wins() {
    // json sits in both the code and the data rows; code comes first
    let (a, r) = analyzer_and_scan(&[("r/conf.json", 1, false)]);
    assert_eq!(a.categorize_file(&r.entries[0]), FileCategory::Code);
}

#[test]
fn hidden_and_artifact_fallbacks() {
    let (a, r) = analyzer_and_scan(&[
        ("r/.bashrc", 1, false),
        ("r/node_modules/left.qqq", 1, false),
        ("r/proj/target/out.qqq", 1, false),
        ("r/proj/.git/objects", 1, false),
        ("r/plain.qqq", 1, false),
        ("r/bare", 1, false),
    ]);
    let cat = |p: &str| {
        a.categorize_file(r.entries.iter().find(|e| e.path == p).unwrap())
    };
    assert_eq!(cat("r/.bashrc"), FileCategory::Hidden);
    assert_eq!(cat("r/node_modules/left.qqq"), FileCategory::System);
    assert_eq!(cat("r/proj/target/out.qqq"), FileCategory::System);
    assert_eq!(cat("r/proj/.git/objects"), FileCategory::System);
    assert_eq!(cat("r/plain.qqq"), FileCategory::Other);
    assert_eq!(cat("r/bare"), FileCategory::Other);
}

#[test]
fn file_type_lookup_is_case_insensitive() {
    let a = DiskAnalyzer::new();
    let info = a.get_file_type_info("PDF").unwrap();
    assert_eq!(info.category, FileCategory::Documents);
    assert_eq!(info.description, "Documents and Office files");
    assert!(a.get_file_type_info("nosuchext").is_none());
}

#[test]
fn category_stats_aggregate_and_sort() {
    let (mut a, r) = analyzer_and_scan(&[
        ("r/one.pdf", 10, false),
        ("r/two.pdf", 30, false),
        ("r/pic.png", 5, false),
        ("r/sub", 0, true),
    ]);
    a.analyze_at(&r, 0);
    let stats = a.get_category_stats(&r);
    assert_eq!(stats.len(), 2);
    assert_eq!(stats[0].0, FileCategory::Documents);
    assert_eq!(stats[0].1.total_size, 40);
    assert_eq!(stats[0].1.file_count, 2);
    assert_eq!(stats[0].1.files[0].path, "r/two.pdf");
    assert_eq!(stats[0].1.files[1].path, "r/one.pdf");
    assert_eq!(stats[1].0, FileCategory::Images);
    assert_eq!(stats[1].1.total_size, 5);
    assert!(!stats[0].1.formatted_size().is_empty());
}

#[test]
fn formats_sizes_for_display() {
    assert_eq!(diskray::outside::format_size(1_000_000), "1 MB");
    assert_ne!(diskray::outside::format_size(0), "0");
}

#[test]
fn tree_panel_toggles_expansion() {
    let mut t = TreePanel::new();
    assert!(!t.is_expanded(&"r/a".to_string()));
    t.toggle("r/a".to_string());
    assert!(t.is_expanded(&"r/a".to_string()));
    t.toggle("r/b".to_string());
    assert!(t.is_expanded(&"r/b".to_string()));
    t.toggle("r/a".to_string());
    assert!(!t.is_expanded(&"r/a".to_string()));
    assert!(t.is_expanded(&"r/b".to_string()));
}
