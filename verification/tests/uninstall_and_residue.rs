use std::cell::RefCell;

use elimitate::deletion::FsNode;
use elimitate::env::EnvVars;
use elimitate::remove::{
    delete_registry_key, delete_registry_value, delete_residue, registry_target, uninstall_app,
    RegistryFailure,
};
use elimitate::residue::{
    app_paths_roots, item, shortcut_bases, sort_items, split_name_words, word_match, PathInfo,
    ResidueScan,
};
use elimitate::uninstall::{
    extract_guid, extract_msi_guid, format_install_date, hive_name, parse_hive_path, read_app,
    sort_apps_by_name, uninstall_command, uninstall_roots, AppValues, Hive, ResidueItem,
};

fn values(name: &str) -> AppValues {
    AppValues {
        display_name: Some(name.to_string()),
        system_component: None,
        parent_key_name: None,
        release_type: None,
        display_version: Some("1.2".to_string()),
        publisher: Some("Acme".to_string()),
        install_location: Some("C:\\Program Files\\Foo".to_string()),
        uninstall_string: Some("C:\\Program Files\\Foo\\uninst.exe".to_string()),
        display_icon: None,
        estimated_size: Some(2048),
        install_date: Some("20240131".to_string()),
        windows_installer: None,
    }
}

fn residue(path: &str, kind: &str) -> ResidueItem {
    item(path.to_string(), kind, 0, "low", "n")
}

#[test]
fn parse_hive_path_cases() {
    assert_eq!(parse_hive_path("hklm\\SOFTWARE\\X"), Some((Hive::LocalMachine, "SOFTWARE\\X".to_string())));
    assert_eq!(parse_hive_path("HKEY_CURRENT_USER\\a"), Some((Hive::CurrentUser, "a".to_string())));
    assert_eq!(parse_hive_path("HKCR\\"), Some((Hive::ClassesRoot, "".to_string())));
    assert_eq!(parse_hive_path("HKXX\\a"), None);
    assert_eq!(parse_hive_path("HKLM"), None);
    assert_eq!(hive_name(Hive::Users), "HKU");
}

#[test]
fn hive_path_roundtrip_law() {
    for h in [Hive::LocalMachine, Hive::CurrentUser, Hive::ClassesRoot, Hive::Users] {
        let full = format!("{}\\SOFTWARE\\Foo", hive_name(h));
        assert_eq!(parse_hive_path(&full), Some((h, "SOFTWARE\\Foo".to_string())));
    }
}

#[test]
fn guid_extraction() {
    assert_eq!(extract_msi_guid("MsiExec.exe /I{ab-12}"), Some("AB-12".to_string()));
    assert_eq!(extract_msi_guid("msiexec /x  {C0FFEE} /quiet"), Some("C0FFEE".to_string()));
    assert_eq!(extract_msi_guid("setup.exe /S"), None);
    assert_eq!(extract_msi_guid("uninst.exe"), None);
    assert_eq!(extract_guid(" {1234} "), Some("1234".to_string()));
    assert_eq!(extract_guid("{}"), None);
    assert_eq!(extract_guid("Foo"), None);
}

#[test]
fn msi_repair_command_becomes_uninstall() {
    let mut v = values("Foo");
    v.windows_installer = Some(1);
    v.uninstall_string = Some("MsiExec.exe /I{ab-12}".to_string());
    assert_eq!(uninstall_command(&v, "SOFTWARE\\X\\Uninstall\\{ab-12}"), "msiexec /x {AB-12}");
    v.uninstall_string = None;
    assert_eq!(uninstall_command(&v, "SOFTWARE\\X\\Uninstall\\{key-guid}"), "msiexec /x {key-guid}");
    v.windows_installer = None;
    v.uninstall_string = Some("MsiExec.exe /I{ab-12}".to_string());
    assert_eq!(uninstall_command(&v, "SOFTWARE\\X\\Uninstall\\Foo"), "MsiExec.exe /I{ab-12}");
}

#[test]
fn install_dates() {
    assert_eq!(format_install_date("20240131"), "2024-01-31");
    assert_eq!(format_install_date("2024013"), "2024013");
    assert_eq!(format_install_date("2024O131"), "2024O131");
}

#[test]
fn read_app_builds_record_and_filters() {
    let v = values("Foo App");
    let a = read_app(&v, Hive::LocalMachine, "SOFTWARE\\U\\Foo", false).unwrap();
    assert_eq!(a.key, "HKLM\\SOFTWARE\\U\\Foo");
    assert_eq!(a.name, "Foo App");
    assert_eq!(a.version, "1.2");
    assert_eq!(a.estimated_size_kb, 2048);
    assert_eq!(a.install_date, "2024-01-31");
    assert_eq!(a.display_icon, "");
    assert!(!a.is_user && !a.system_component);
    let mut sys = values("Foo");
    sys.system_component = Some(1);
    assert!(read_app(&sys, Hive::LocalMachine, "p", false).is_none());
    let mut upd = values("KB123");
    upd.parent_key_name = Some("Office".to_string());
    assert!(read_app(&upd, Hive::LocalMachine, "p", false).is_none());
    let mut rel = values("KB123");
    rel.release_type = Some("Security Update".to_string());
    assert!(read_app(&rel, Hive::LocalMachine, "p", false).is_none());
    rel.release_type = Some("  ".to_string());
    assert!(read_app(&rel, Hive::LocalMachine, "p", false).is_some());
    assert!(read_app(&values("   "), Hive::CurrentUser, "p", true).is_none());
}

#[test]
fn apps_sorted_by_lowercase_name_stably() {
    let mk = |n: &str, k: &str| {
        let mut a = read_app(&values(n), Hive::CurrentUser, k, true).unwrap();
        a.key = k.to_string();
        a
    };
    let apps = vec![mk("beta", "1"), mk("Alpha", "2"), mk("BETA", "3"), mk("alpha", "4")];
    let keys: Vec<String> = sort_apps_by_name(apps).into_iter().map(|a| a.key).collect();
    assert_eq!(keys, vec!["2", "4", "1", "3"]);
}

#[test]
fn uninstall_roots_order() {
    let r = uninstall_roots();
    assert_eq!(r.len(), 3);
    assert_eq!(r[0], (Hive::LocalMachine, "SOFTWARE\\Microsoft\\Windows\\CurrentVersion\\Uninstall", false));
    assert_eq!(r[1].1, "SOFTWARE\\WOW6432Node\\Microsoft\\Windows\\CurrentVersion\\Uninstall");
    assert_eq!(r[2].0, Hive::CurrentUser);
    assert!(r[2].2);
}

#[test]
fn registry_target_splits_parent_and_name() {
    assert_eq!(
        registry_target("HKCU\\SOFTWARE\\Acme\\Foo"),
        Ok((Hive::CurrentUser, "SOFTWARE\\Acme".to_string(), "Foo".to_string()))
    );
    assert_eq!(registry_target("HKCU\\Foo"), Err("无效的注册表路径: HKCU\\Foo".to_string()));
    assert_eq!(registry_target("XX\\a\\b"), Err("无效的注册表路径: XX\\a\\b".to_string()));
}

#[test]
fn registry_deletion_messages() {
    let open_fails = |_: Hive, _: String, _: String| -> Result<(), RegistryFailure> {
        Err(RegistryFailure::Open("拒绝访问。".to_string()))
    };
    let delete_fails = |_: Hive, _: String, _: String| -> Result<(), RegistryFailure> {
        Err(RegistryFailure::Delete("系统找不到指定的文件。".to_string()))
    };
    let ok = |_: Hive, _: String, _: String| -> Result<(), RegistryFailure> { Ok(()) };
    assert_eq!(delete_registry_key("HKLM\\SOFTWARE\\Foo", &ok), Ok(0));
    assert_eq!(
        delete_registry_key("HKLM\\SOFTWARE\\Foo", &open_fails),
        Err("打开 SOFTWARE 失败: 拒绝访问。".to_string())
    );
    assert_eq!(
        delete_registry_key("HKLM\\SOFTWARE\\Foo", &delete_fails),
        Err("删除注册表项 Foo 失败: 系统找不到指定的文件。".to_string())
    );
    assert_eq!(
        delete_registry_value("HKLM\\SOFTWARE\\Foo\\Path", &delete_fails),
        Err("删除注册表值 Path 失败: 系统找不到指定的文件。".to_string())
    );
}

#[test]
fn delete_residue_counts_every_item() {
    let items = vec![
        residue("C:\\Program Files\\Foo", "dir"),
        residue("C:\\Users\\u\\Desktop\\Foo.lnk", "shortcut"),
        residue("HKLM\\SOFTWARE\\Foo", "registry_key"),
        residue("HKLM\\Bad", "registry_value"),
    ];
    let nodes = vec![
        FsNode::Dir {
            path: "C:\\Program Files\\Foo".to_string(),
            entries: vec![FsNode::File { path: "C:\\Program Files\\Foo\\a.exe".to_string(), name: "a.exe".to_string(), size: 100 }],
        },
        FsNode::Missing,
    ];
    let keys = RefCell::new(Vec::new());
    let delete_key = |h: Hive, p: String, l: String| -> Result<(), RegistryFailure> {
        keys.borrow_mut().push((h, p, l));
        Ok(())
    };
    let delete_value = |_: Hive, _: String, _: String| -> Result<(), RegistryFailure> { panic!("path is invalid") };
    let ok = |_: String| -> Result<(), String> { Ok(()) };
    let r = delete_residue(
        &items, &nodes,
        &|_: String| false, &ok, &|_: Vec<String>| -> Result<(), String> { Ok(()) }, &ok, &|_: String| true,
        &delete_key, &delete_value,
    );
    assert_eq!(r.deleted, 2);
    assert_eq!(r.failed, 2);
    assert_eq!(r.bytes_freed, 100);
    assert_eq!(r.deleted + r.failed, items.len() as u64);
    assert_eq!(
        r.errors,
        vec!["删除失败: C:\\Users\\u\\Desktop\\Foo.lnk".to_string(), "无效的注册表路径: HKLM\\Bad".to_string()]
    );
    assert_eq!(*keys.borrow(), vec![(Hive::LocalMachine, "SOFTWARE".to_string(), "Foo".to_string())]);
    assert_eq!(r.locked, 0);
}

#[test]
fn uninstall_app_outcomes() {
    let no_argv = |_: String| -> Option<Vec<String>> { None };
    let spawned = RefCell::new(Vec::new());
    let spawn = |p: String, a: Vec<String>| -> Result<(), String> {
        spawned.borrow_mut().push((p, a));
        Ok(())
    };
    let open = |_: Hive, _: String| -> Result<(String, String), String> {
        Ok(("  ".to_string(), "\"C:\\u.exe\" /S".to_string()))
    };
    let r = uninstall_app("HKLM\\SOFTWARE\\U\\Foo", &open, &no_argv, &spawn).unwrap();
    assert!(r.launched);
    assert_eq!(r.message, "已启动卸载程序: \"C:\\u.exe\" /S");
    assert_eq!(*spawned.borrow(), vec![("C:\\u.exe".to_string(), vec!["/S".to_string()])]);

    assert_eq!(uninstall_app("BAD", &open, &no_argv, &spawn).err(), Some("无效的注册表路径".to_string()));
    let open_err = |_: Hive, _: String| -> Result<(String, String), String> { Err("系统找不到指定的文件。".to_string()) };
    assert_eq!(
        uninstall_app("HKCU\\x", &open_err, &no_argv, &spawn).err(),
        Some("打开注册表项失败: 系统找不到指定的文件。".to_string())
    );
    let blank = |_: Hive, _: String| -> Result<(String, String), String> { Ok((String::new(), " ".to_string())) };
    let r = uninstall_app("HKCU\\x", &blank, &no_argv, &spawn).unwrap();
    assert!(!r.launched);
    assert_eq!(r.message, "该软件没有提供卸载命令（UninstallString）");
    let quotes = |_: Hive, _: String| -> Result<(String, String), String> { Ok(("x".to_string(), String::new())) };
    let empty_argv = |_: String| -> Option<Vec<String>> { Some(vec![]) };
    let r = uninstall_app("HKCU\\x", &quotes, &empty_argv, &spawn).unwrap();
    assert!(!r.launched);
    assert_eq!(r.message, "无法解析卸载命令: x");
    let spawn_err = |_: String, _: Vec<String>| -> Result<(), String> { Err("拒绝访问。".to_string()) };
    assert_eq!(
        uninstall_app("HKCU\\x", &quotes, &no_argv, &spawn_err).err(),
        Some("启动卸载程序失败: 拒绝访问。".to_string())
    );
}

#[test]
fn name_words_and_matching() {
    let w = split_name_words(&"foo bar-2 x".chars().collect::<Vec<char>>());
    let words: Vec<String> = w.iter().map(|v| v.iter().collect()).collect();
    assert_eq!(words, vec!["foo".to_string(), "bar".to_string()]);
    let fname: Vec<char> = "my foo and bar.lnk".chars().collect();
    assert!(word_match(&fname, &w));
    let one: Vec<char> = "foo.lnk".chars().collect();
    assert!(!word_match(&one, &w));
}

#[test]
fn residue_scan_collects_sorted_distinct_items() {
    let env = EnvVars { vars: vec![("ProgramFiles".to_string(), "C:\\PF".to_string())] };
    let mut scan = ResidueScan::new(
        "HKLM\\SOFTWARE\\Microsoft\\Windows\\CurrentVersion\\Uninstall\\Foo".to_string(),
        "Foo App".to_string(),
        "Acme".to_string(),
        "\"%ProgramFiles%\\Foo\"",
        &env,
    );
    assert_eq!(scan.install_dir(), "C:\\PF\\Foo");
    scan.add_install_dir(PathInfo::Dir(500));
    assert!(scan.add_shortcut("Foo App.lnk", "C:\\Desktop\\Foo App.lnk".to_string()));
    assert!(!scan.add_shortcut("Other.lnk", "C:\\Desktop\\Other.lnk".to_string()));
    assert!(!scan.add_shortcut("foo app.txt", "C:\\Desktop\\foo app.txt".to_string()));
    let keys = scan.software_keys();
    assert_eq!(keys[4], (Hive::CurrentUser, "SOFTWARE\\Foo App".to_string(), false));
    scan.add_registry_key(4);
    scan.add_registry_key(4);
    let report = scan.finish();
    let kinds: Vec<&str> = report.items.iter().map(|i| i.kind.as_str()).collect();
    assert_eq!(kinds, vec!["dir", "shortcut", "registry_key", "registry_key"]);
    assert_eq!(report.total_size_bytes, 500);
    assert_eq!(report.items[0].path, "C:\\PF\\Foo");
    assert_eq!(report.items[2].path, "HKCU\\SOFTWARE\\Foo App");
    assert_eq!(report.items[3].path, "HKLM\\SOFTWARE\\Microsoft\\Windows\\CurrentVersion\\Uninstall\\Foo");
    assert_eq!(report.name, "Foo App");
}

#[test]
fn residue_items_sorted_by_kind_then_path() {
    let items = vec![residue("b", "registry_key"), residue("z", "dir"), residue("a", "shortcut"), residue("a", "dir"), residue("m", "file")];
    let sorted: Vec<(String, String)> = sort_items(items).into_iter().map(|i| (i.kind, i.path)).collect();
    assert_eq!(
        sorted,
        vec![
            ("dir".to_string(), "a".to_string()),
            ("dir".to_string(), "z".to_string()),
            ("file".to_string(), "m".to_string()),
            ("shortcut".to_string(), "a".to_string()),
            ("registry_key".to_string(), "b".to_string()),
        ]
    );
}

#[test]
fn shortcut_bases_in_order() {
    let joined = |b: &str, n: &str| std::path::Path::new(b).join(n).display().to_string();
    let r = shortcut_bases(Some("C:\\ProgramData"), Some("C:\\U\\Roaming"), Some("C:\\U\\Desktop"), Some("C:\\Users\\Public"));
    assert_eq!(
        r,
        vec![
            "C:\\ProgramData\\Microsoft\\Windows\\Start Menu\\Programs".to_string(),
            joined("C:\\U\\Roaming", "Microsoft\\Windows\\Start Menu\\Programs"),
            "C:\\U\\Desktop".to_string(),
            joined("C:\\Users\\Public", "Desktop"),
        ]
    );
    assert_ne!(r[1], "C:\\U\\Roaming");
    assert_eq!(shortcut_bases(None, None, Some("D"), None), vec!["D".to_string()]);
}

#[test]
fn app_paths_are_read_from_both_hives() {
    let r = app_paths_roots();
    assert_eq!(
        r,
        vec![
            (Hive::LocalMachine, "SOFTWARE\\Microsoft\\Windows\\CurrentVersion\\App Paths"),
            (Hive::CurrentUser, "SOFTWARE\\Microsoft\\Windows\\CurrentVersion\\App Paths"),
        ]
    );
}

#[test]
fn residue_candidates_and_app_paths() {
    let env = EnvVars { vars: vec![] };
    let mut scan = ResidueScan::new("HKCU\\x\\Foo".to_string(), "Foo".to_string(), "Acme".to_string(), "C:\\Apps\\Foo", &env);
    let c = scan.candidate_dirs(None, None, Some("C:\\ProgramData"));
    assert_eq!(
        c,
        vec![
            ("C:\\ProgramData\\Foo".to_string(), false),
            ("C:\\Program Files\\Foo".to_string(), false),
            ("C:\\Program Files (x86)\\Foo".to_string(), false),
        ]
    );
    scan.add_candidate(0, PathInfo::File(3));
    scan.add_candidate(1, PathInfo::Missing);
    assert!(scan.app_path_related("c:\\apps\\foo\\foo.exe", &env));
    assert!(scan.app_path_related("D:\\bin\\FOO\\x.exe", &env));
    assert!(!scan.app_path_related("D:\\bin\\bar.exe", &env));
    scan.add_app_path(Hive::LocalMachine, "foo.exe");
    let keys = scan.software_keys();
    assert_eq!(keys.len(), 6);
    assert_eq!(keys[0], (Hive::LocalMachine, "SOFTWARE\\Foo".to_string(), false));
    assert_eq!(keys[1], (Hive::LocalMachine, "SOFTWARE\\Acme".to_string(), true));
    let report = scan.finish();
    let items: Vec<(String, String, String)> = report.items.iter().map(|i| (i.kind.clone(), i.path.clone(), i.risk.clone())).collect();
    assert_eq!(
        items,
        vec![
            ("file".to_string(), "C:\\ProgramData\\Foo".to_string(), "medium".to_string()),
            ("registry_key".to_string(), "HKCU\\x\\Foo".to_string(), "low".to_string()),
            ("registry_key".to_string(), "HKLM\\SOFTWARE\\Microsoft\\Windows\\CurrentVersion\\App Paths\\foo.exe".to_string(), "low".to_string()),
        ]
    );
    assert_eq!(report.total_size_bytes, 3);
}

#[test]
fn empty_name_matches_nothing_by_name() {
    let env = EnvVars { vars: vec![] };
    let mut scan = ResidueScan::new("HKCU\\x\\K".to_string(), String::new(), String::new(), "", &env);
    assert!(scan.candidate_dirs(Some("C:\\D"), Some("C:\\L"), Some("C:\\PD")).is_empty());
    assert!(!scan.add_shortcut("Anything.lnk", "C:\\Desktop\\Anything.lnk".to_string()));
    assert!(!scan.app_path_related("C:\\any\\app.exe", &env));
    assert!(scan.software_keys().is_empty());
    let report = scan.finish();
    assert_eq!(report.items.len(), 1);
    assert_eq!(report.items[0].path, "HKCU\\x\\K");
}

#[test]
fn empty_publisher_gives_no_publisher_directory() {
    let env = EnvVars { vars: vec![] };
    let mut scan = ResidueScan::new("HKCU\\x\\K".to_string(), "Foo".to_string(), String::new(), "", &env);
    let c = scan.candidate_dirs(None, None, None);
    assert_eq!(
        c,
        vec![("C:\\Program Files\\Foo".to_string(), false), ("C:\\Program Files (x86)\\Foo".to_string(), false)]
    );
    assert!(c.iter().all(|(_, high)| !high));
    let with_data = scan.candidate_dirs(Some("C:\\D"), Some("C:\\L"), None);
    assert_eq!(with_data.len(), 4);
    assert!(with_data.iter().all(|(_, high)| !high));
}

#[test]
fn publisher_places_are_high_risk() {
    let env = EnvVars { vars: vec![] };
    let mut scan = ResidueScan::new("HKCU\\x\\Foo".to_string(), "Foo".to_string(), "Acme".to_string(), "", &env);
    let c = scan.candidate_dirs(Some("C:\\D"), None, None);
    let acme_dir = std::path::Path::new("C:\\D").join("Acme").display().to_string();
    assert_eq!(c.len(), 4);
    assert_eq!(c[3], (acme_dir.clone(), true));
    scan.add_candidate(3, PathInfo::Dir(10));
    scan.add_candidate(0, PathInfo::Dir(5));
    let keys = scan.software_keys();
    assert_eq!(keys[1], (Hive::LocalMachine, "SOFTWARE\\Acme".to_string(), true));
    scan.add_registry_key(1);
    scan.add_registry_key(0);
    let report = scan.finish();
    let high: Vec<&str> = report.items.iter().filter(|i| i.risk == "high").map(|i| i.path.as_str()).collect();
    let mut expected = vec![acme_dir.as_str(), "HKLM\\SOFTWARE\\Acme"];
    expected.sort();
    let mut got = high.clone();
    got.sort();
    assert_eq!(got, expected);
    assert!(report.items.iter().any(|i| i.path == "HKLM\\SOFTWARE\\Foo" && i.risk == "medium"));
    assert_eq!(report.total_size_bytes, 15);
}
