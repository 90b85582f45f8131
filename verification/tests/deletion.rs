use std::cell::RefCell;

use elimitate::deletion::{
    delete_file_batch, delete_path_force, dir_size, precheck_locked, prune_order, recycle_paths,
    FsNode,
};
use elimitate::util::LockTracker;

fn file(path: &str, size: u64) -> FsNode {
    let name = path.rsplit('\\').next().unwrap().to_string();
    FsNode::File { path: path.to_string(), name, size }
}

fn dir(path: &str, entries: Vec<FsNode>) -> FsNode {
    FsNode::Dir { path: path.to_string(), entries }
}

fn entries(n: usize) -> Vec<(String, u64)> {
    (0..n).map(|i| (format!("C:\\f{i}"), i as u64 + 1)).collect()
}

#[test]
fn recycle_paths_sends_batches_of_32() {
    let calls = RefCell::new(Vec::new());
    let recycle = |b: Vec<String>| -> Result<(), String> {
        calls.borrow_mut().push(b.len());
        Ok(())
    };
    let files = entries(70);
    let mut errors = Vec::new();
    let (freed, items) = recycle_paths(&files, &mut errors, &recycle);
    assert_eq!(*calls.borrow(), vec![32, 32, 6]);
    assert_eq!(items, 70);
    assert_eq!(freed, (1..=70u64).sum::<u64>());
    assert!(errors.is_empty());
}

#[test]
fn recycle_paths_retries_a_failed_batch_file_by_file() {
    let calls = RefCell::new(0usize);
    let recycle = |b: Vec<String>| -> Result<(), String> {
        *calls.borrow_mut() += 1;
        if b.iter().any(|p| p == "C:\\f3") {
            Err("文件正在使用".to_string())
        } else {
            Ok(())
        }
    };
    let files = entries(5);
    let mut errors = vec!["earlier".to_string()];
    let (freed, items) = recycle_paths(&files, &mut errors, &recycle);
    // one failed batch, then each of the five alone
    assert_eq!(*calls.borrow(), 6);
    assert_eq!(items, 4);
    assert_eq!(freed, 1 + 2 + 3 + 5);
    assert_eq!(errors, vec!["earlier".to_string(), "C:\\f3: 文件正在使用".to_string()]);
}

#[test]
fn every_batch_file_is_accounted_for() {
    let recycle = |b: Vec<String>| -> Result<(), String> {
        if b.len() == 1 && b[0].ends_with('7') { Err("x".to_string()) } else if b.len() > 1 { Err("y".to_string()) } else { Ok(()) }
    };
    let files = entries(40);
    let mut errors = Vec::new();
    let (_, items) = recycle_paths(&files, &mut errors, &recycle);
    assert_eq!(items as usize + errors.len(), files.len());
}

#[test]
fn delete_file_batch_skips_files_in_use() {
    let files = vec![("C:\\a".to_string(), 10), ("C:\\busy".to_string(), 20), ("C:\\c".to_string(), 30)];
    let in_use = |p: String| p == "C:\\busy";
    let remove = |p: String| -> Result<(), String> {
        if p == "C:\\c" { Err("拒绝访问。".to_string()) } else { Ok(()) }
    };
    let recycle = |_: Vec<String>| -> Result<(), String> { panic!("permanent deletion expected") };
    let mut errors = Vec::new();
    let mut locked = LockTracker::new();
    let r = delete_file_batch(&files, false, &mut errors, &mut locked, &in_use, &remove, &recycle);
    assert_eq!(r, (10, 1));
    assert_eq!(locked.count, 1);
    assert_eq!(locked.samples, vec!["C:\\busy".to_string()]);
    assert_eq!(errors, vec!["C:\\c: 拒绝访问。".to_string()]);
}

#[test]
fn delete_file_batch_to_recycle_bin() {
    let files = vec![("C:\\a".to_string(), 10), ("C:\\b".to_string(), 20)];
    let sent = RefCell::new(Vec::new());
    let recycle = |b: Vec<String>| -> Result<(), String> {
        sent.borrow_mut().push(b);
        Ok(())
    };
    let remove = |_: String| -> Result<(), String> { panic!("recycle bin expected") };
    let mut errors = Vec::new();
    let mut locked = LockTracker::new();
    let r = delete_file_batch(&files, true, &mut errors, &mut locked, &|_: String| false, &remove, &recycle);
    assert_eq!(r, (30, 2));
    assert_eq!(*sent.borrow(), vec![vec!["C:\\a".to_string(), "C:\\b".to_string()]]);
}

#[test]
fn delete_file_batch_all_in_use_does_nothing_else() {
    let files = vec![("C:\\a".to_string(), 10)];
    let mut errors = Vec::new();
    let mut locked = LockTracker::new();
    let r = delete_file_batch(
        &files, true, &mut errors, &mut locked,
        &|_: String| true,
        &|_: String| -> Result<(), String> { panic!("nothing to delete") },
        &|_: Vec<String>| -> Result<(), String> { panic!("nothing to delete") },
    );
    assert_eq!(r, (0, 0));
    assert_eq!(locked.count, 1);
    assert!(errors.is_empty());
}

#[test]
fn delete_path_force_reports_empty_directory_failures() {
    let tree = dir("C:\\R", vec![file("C:\\R\\a", 5), dir("C:\\R\\e", vec![])]);
    let order = RefCell::new(Vec::new());
    let remove_file = |p: String| -> Result<(), String> {
        order.borrow_mut().push(p);
        Ok(())
    };
    let remove_dir = |p: String| -> Result<(), String> {
        order.borrow_mut().push(p.clone());
        if p == "C:\\R\\e" { Err("拒绝访问。".to_string()) } else { Ok(()) }
    };
    let mut errors = Vec::new();
    let mut locked = LockTracker::new();
    let r = delete_path_force(
        &tree, false, &mut errors, &mut locked,
        &|_: String| false, &remove_file,
        &|_: Vec<String>| -> Result<(), String> { Ok(()) },
        &remove_dir, &|_: String| true,
    );
    assert_eq!(r, (5, 2));
    assert_eq!(errors, vec!["C:\\R\\e: 拒绝访问。".to_string()]);
    assert_eq!(*order.borrow(), vec!["C:\\R\\a".to_string(), "C:\\R\\e".to_string(), "C:\\R".to_string()]);
}

#[test]
fn delete_path_force_on_missing_and_single_file() {
    let mut errors = Vec::new();
    let mut locked = LockTracker::new();
    let ok_s = |_: String| -> Result<(), String> { Ok(()) };
    let ok_b = |_: Vec<String>| -> Result<(), String> { Ok(()) };
    let r = delete_path_force(&FsNode::Missing, true, &mut errors, &mut locked, &|_: String| false, &ok_s, &ok_b, &ok_s, &|_: String| true);
    assert_eq!(r, (0, 0));
    let r = delete_path_force(&file("C:\\x", 42), true, &mut errors, &mut locked, &|_: String| false, &ok_s, &ok_b, &ok_s, &|_: String| true);
    assert_eq!(r, (42, 1));
}

#[test]
fn dir_size_and_prune_order() {
    let tree = dir("C:\\A", vec![file("C:\\A\\f", 3), dir("C:\\A\\B", vec![file("C:\\A\\B\\g", 4), dir("C:\\A\\B\\C", vec![])]), dir("C:\\A\\D", vec![])]);
    assert_eq!(dir_size(&tree), 7);
    assert_eq!(dir_size(&FsNode::Missing), 0);
    assert_eq!(
        prune_order(&tree),
        vec!["C:\\A\\D".to_string(), "C:\\A\\B\\C".to_string(), "C:\\A\\B".to_string(), "C:\\A".to_string()]
    );
    assert!(prune_order(&file("C:\\f", 1)).is_empty());
}

#[test]
fn precheck_locked_lists_files_in_use() {
    let paths = vec!["a".to_string(), "b".to_string(), "c".to_string()];
    let r = precheck_locked(&paths, &|p: String| p != "b");
    assert_eq!(r, vec!["a".to_string(), "c".to_string()]);
}
