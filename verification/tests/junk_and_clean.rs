use std::cell::RefCell;

use elimitate::categories::{specs, CategorySpec, SpecialCategory};
use elimitate::clean::{clean_category, delete_matching, select_categories, uses_name_filters};
use elimitate::deletion::FsNode;
use elimitate::env::EnvVars;
use elimitate::junk::{
    count_dir, count_matching, file_name_matches, junk_category, scan_category, scan_targets,
    CleanReport, FileEntry, PathProbe,
};
use elimitate::util::LockTracker;

fn env(pairs: &[(&str, &str)]) -> EnvVars {
    EnvVars { vars: pairs.iter().map(|(k, v)| (k.to_string(), v.to_string())).collect() }
}

fn file(path: &str, size: u64) -> FsNode {
    let name = path.rsplit('\\').next().unwrap().to_string();
    FsNode::File { path: path.to_string(), name, size }
}

fn dir(path: &str, entries: Vec<FsNode>) -> FsNode {
    FsNode::Dir { path: path.to_string(), entries }
}

fn entry(name: &str, size: u64) -> FileEntry {
    FileEntry { name: name.to_string(), size }
}

#[test]
fn catalog_has_thirteen_distinct_categories() {
    let s = specs();
    assert_eq!(s.len(), 13);
    for i in 0..s.len() {
        for j in (i + 1)..s.len() {
            assert_ne!(s[i].id, s[j].id);
        }
    }
    let rb: Vec<_> = s.iter().filter(|c| c.special == Some(SpecialCategory::RecycleBin)).collect();
    assert_eq!(rb.len(), 1);
    assert_eq!(rb[0].id, "recycle_bin");
    assert_eq!(s[0].id, "temp_files");
    assert_eq!(s[0].path_templates, &["%TEMP%", "C:\\Windows\\Temp"]);
}

#[test]
fn thumbnail_filters_are_case_insensitive() {
    let s = specs();
    let thumbs = s.iter().find(|c| c.id == "thumbnail_cache").unwrap();
    assert!(file_name_matches("thumbcache_32.db", thumbs.file_prefixes, thumbs.file_suffixes));
    assert!(file_name_matches("IconCache_48.db", thumbs.file_prefixes, thumbs.file_suffixes));
    assert!(!file_name_matches("desktop.ini", thumbs.file_prefixes, thumbs.file_suffixes));
    assert!(file_name_matches("a.LOG", &[], &[".log"]));
}

#[test]
fn scan_targets_resolve_templates() {
    let s = specs();
    let e = env(&[("TEMP", "C:\\T")]);
    assert_eq!(scan_targets(&s[0], &e), vec!["C:\\T".to_string(), "C:\\Windows\\Temp".to_string()]);
    let rb = s.iter().find(|c| c.id == "recycle_bin").unwrap();
    assert_eq!(scan_targets(rb, &e), vec!["C:\\$Recycle.Bin".to_string()]);
    // a template whose variable is unset is skipped
    let inet = s.iter().find(|c| c.id == "internet_temp").unwrap();
    assert!(scan_targets(inet, &e).is_empty());
}

#[test]
fn counting_files() {
    let files = vec![entry("thumbcache_1.db", 10), entry("other.txt", 5), entry("ICONCACHE_2.db", 7)];
    assert_eq!(count_dir(&files), (3, 22));
    assert_eq!(count_matching(&files, &["thumbcache_", "iconcache_"], &[]), (2, 17));
}

#[test]
fn scan_category_counts_existing_targets() {
    let s = specs();
    let e = env(&[("TEMP", "C:\\T")]);
    let probes = vec![PathProbe::Dir(vec![entry("a", 100), entry("b", 23)]), PathProbe::Missing];
    let (paths, count, bytes) = scan_category(&s[0], &e, &probes);
    assert_eq!(paths, vec!["C:\\T".to_string()]);
    assert_eq!((count, bytes), (2, 123));
    let probes = vec![PathProbe::File(9), PathProbe::Other];
    let (paths, count, bytes) = scan_category(&s[0], &e, &probes);
    assert_eq!(paths.len(), 2);
    assert_eq!((count, bytes), (1, 9));
    let jc = junk_category(&s[0], paths, count, bytes);
    assert_eq!(jc.id, "temp_files");
    assert_eq!(jc.file_count, 1);
    assert!(jc.requires_admin);
}

#[test]
fn select_categories_keeps_catalog_order() {
    let ids = vec!["recycle_bin".to_string(), "temp_files".to_string(), "nope".to_string()];
    let sel = select_categories(&ids);
    let got: Vec<&str> = sel.iter().map(|c| c.id).collect();
    assert_eq!(got, vec!["temp_files", "recycle_bin"]);
    assert!(select_categories(&[]).is_empty());
}

#[test]
fn clean_report_starts_empty() {
    let s = specs();
    let r = CleanReport::new(&s[1]);
    assert_eq!(r.category_id, "internet_temp");
    assert_eq!((r.items_removed, r.bytes_freed, r.locked), (0, 0, 0));
    assert!(r.errors.is_empty() && r.locked_paths.is_empty());
}

#[test]
fn recycle_bin_category_reports_failure_code() {
    let s = specs();
    let rb = s.iter().find(|c| c.id == "recycle_bin").unwrap();
    let mut report = CleanReport::new(rb);
    let never = |_: String| -> bool { panic!("no file operation expected") };
    let never_r = |_: String| -> Result<(), String> { panic!("no file operation expected") };
    let never_b = |_: Vec<String>| -> Result<(), String> { panic!("no file operation expected") };
    clean_category(rb, &[], &mut report, &never, &never_r, &never_b, &never_r, &never, &|| {
        (4096u64, -2147418113i32)
    });
    assert_eq!(report.bytes_freed, 0);
    assert_eq!(report.errors, vec!["清空回收站失败（错误码 0x8000ffff）".to_string()]);
    let mut ok = CleanReport::new(rb);
    clean_category(rb, &[], &mut ok, &never, &never_r, &never_b, &never_r, &never, &|| (4096u64, 0i32));
    assert_eq!(ok.bytes_freed, 4096);
    assert!(ok.errors.is_empty());
}

#[test]
fn plain_category_removes_whole_tree() {
    let s = specs();
    let temp = &s[0];
    let removed = RefCell::new(Vec::new());
    let in_use = |p: String| p.ends_with("busy.tmp");
    let remove_file = |p: String| -> Result<(), String> {
        removed.borrow_mut().push(p);
        Ok(())
    };
    let recycle = |_: Vec<String>| -> Result<(), String> { panic!("junk is deleted for good") };
    let remove_dir = |p: String| -> Result<(), String> {
        if p == "C:\\T" { Err("目录不是空的。".to_string()) } else { Ok(()) }
    };
    let is_empty = |_: String| false;
    let tree = dir("C:\\T", vec![file("C:\\T\\a.tmp", 10), file("C:\\T\\busy.tmp", 5), dir("C:\\T\\sub", vec![file("C:\\T\\sub\\b", 7)])]);
    let mut report = CleanReport::new(temp);
    clean_category(temp, &[tree, FsNode::Missing], &mut report, &in_use, &remove_file, &recycle, &remove_dir, &is_empty, &|| (0, 0));
    assert_eq!(report.bytes_freed, 17);
    // two files and the sub directory; the root stays because a file is in use
    assert_eq!(report.items_removed, 3);
    assert_eq!(report.locked, 1);
    assert_eq!(report.locked_paths, vec!["C:\\T\\busy.tmp".to_string()]);
    assert!(report.errors.is_empty());
    assert_eq!(*removed.borrow(), vec!["C:\\T\\a.tmp".to_string(), "C:\\T\\sub\\b".to_string()]);
}

#[test]
fn filtered_category_deletes_only_matching_files() {
    let s = specs();
    let thumbs = s.iter().find(|c| c.id == "thumbnail_cache").unwrap();
    let removed = RefCell::new(Vec::new());
    let in_use = |_: String| false;
    let remove_file = |p: String| -> Result<(), String> {
        if p.contains("iconcache") {
            return Err("拒绝访问。".to_string());
        }
        removed.borrow_mut().push(p);
        Ok(())
    };
    let recycle = |_: Vec<String>| -> Result<(), String> { panic!("junk is deleted for good") };
    let remove_dir = |_: String| -> Result<(), String> { panic!("a filtered category removes no directory") };
    let is_empty = |_: String| true;
    let root = "C:\\E";
    let tree = dir(root, vec![
        file("C:\\E\\thumbcache_32.db", 100),
        file("C:\\E\\desktop.ini", 1),
        dir("C:\\E\\x", vec![file("C:\\E\\x\\iconcache_16.db", 50)]),
    ]);
    let mut report = CleanReport::new(thumbs);
    clean_category(thumbs, &[tree], &mut report, &in_use, &remove_file, &recycle, &remove_dir, &is_empty, &|| (0, 0));
    assert_eq!(report.bytes_freed, 100);
    assert_eq!(report.items_removed, 1);
    assert_eq!(report.errors, vec!["C:\\E\\x\\iconcache_16.db: 拒绝访问。".to_string()]);
    assert_eq!(*removed.borrow(), vec!["C:\\E\\thumbcache_32.db".to_string()]);
}

#[test]
fn delete_matching_skips_other_names() {
    let mut errors = Vec::new();
    let mut locked = LockTracker::new();
    let tree = dir("C:\\D", vec![file("C:\\D\\keep.txt", 3), file("C:\\D\\x.log", 4)]);
    let r = delete_matching(
        &tree, &[], &[".log"], false, &mut errors, &mut locked,
        &|_: String| false,
        &|_: String| -> Result<(), String> { Ok(()) },
        &|_: Vec<String>| -> Result<(), String> { Ok(()) },
        &|_: String| -> Result<(), String> { Ok(()) },
        &|_: String| true,
    );
    assert_eq!(r, (4, 1));
}

#[test]
fn only_filtered_categories_use_name_filters() {
    let s = specs();
    let filtered: Vec<&str> = s.iter().filter(|c| uses_name_filters(c)).map(|c| c.id).collect();
    assert_eq!(filtered, vec!["thumbnail_cache"]);
}

#[test]
fn recycle_bin_scan_counts_every_file() {
    let spec = CategorySpec {
        id: "bin",
        name: "bin",
        description: "",
        risk: "medium",
        requires_admin: false,
        path_templates: &["C:\\$Recycle.Bin"],
        file_prefixes: &["x_"],
        file_suffixes: &[".tmp"],
        special: Some(SpecialCategory::RecycleBin),
    };
    let probes = vec![PathProbe::Dir(vec![entry("$RABC.txt", 10), entry("x_1", 5), entry("y.tmp", 1)])];
    let (paths, count, bytes) = scan_category(&spec, &env(&[]), &probes);
    assert_eq!(paths, vec!["C:\\$Recycle.Bin".to_string()]);
    assert_eq!((count, bytes), (3, 16));
}
