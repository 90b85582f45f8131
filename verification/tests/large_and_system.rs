use elimitate::admin::relaunch_as_admin;
use elimitate::large::{
    clamp_top, explorer_select_arg, is_skipped_dir, progress_due, skips_entry, LargeScan, ScanState,
};
use elimitate::system::{list_drives, os_version};

#[test]
fn top_count_is_clamped() {
    assert_eq!(clamp_top(0), 10);
    assert_eq!(clamp_top(50), 50);
    assert_eq!(clamp_top(100000), 500);
    assert_eq!(LargeScan::new(3).top_n(), 10);
}

#[test]
fn system_directories_are_skipped_by_name() {
    assert!(is_skipped_dir("Windows"));
    assert!(is_skipped_dir("Program Files (x86)"));
    assert!(is_skipped_dir("$RECYCLE.BIN"));
    assert!(!is_skipped_dir("Users"));
    assert!(!is_skipped_dir("windows.old"));
}

#[test]
fn progress_every_twenty_thousand_files() {
    assert!(progress_due(20000));
    assert!(progress_due(40000));
    assert!(!progress_due(19999));
}

#[test]
fn large_scan_keeps_the_largest_in_descending_order() {
    let mut s = LargeScan::new(10);
    for i in 0..25u64 {
        s.count_file();
        // sizes 0, 7, 14, ... in a scrambled order
        let size = (i * 7) % 25;
        s.offer(size, i, format!("C:\\f{i}"));
    }
    assert_eq!(s.scanned(), 25);
    let r = s.finish("C:".to_string(), 12, false);
    assert_eq!(r.drive, "C:");
    assert_eq!(r.scanned_files, 25);
    assert_eq!(r.elapsed_ms, 12);
    assert!(!r.cancelled);
    let sizes: Vec<u64> = r.items.iter().map(|i| i.size_bytes).collect();
    assert_eq!(sizes, vec![24, 23, 22, 21, 20, 19, 18, 17, 16, 15]);
}

#[test]
fn large_scan_with_few_files_keeps_all() {
    let mut s = LargeScan::new(10);
    s.offer(5, 1, "a".to_string());
    s.offer(5, 2, "b".to_string());
    s.offer(9, 0, "c".to_string());
    let r = s.finish("D:".to_string(), 0, true);
    let items: Vec<(u64, u64, String)> = r.items.into_iter().map(|i| (i.size_bytes, i.modified, i.path)).collect();
    assert_eq!(items, vec![(9, 0, "c".to_string()), (5, 2, "b".to_string()), (5, 1, "a".to_string())]);
    assert!(r.cancelled);
}

#[test]
fn scan_state_cancellation() {
    let st = ScanState::new();
    assert!(!st.is_cancelled());
    st.request_cancel();
    assert!(st.is_cancelled());
    st.publish_scanned(7);
    st.reset();
    assert!(!st.is_cancelled());
    assert_eq!(st.scanned.load(std::sync::atomic::Ordering::SeqCst), 0);
}

#[test]
fn explorer_argument() {
    assert_eq!(explorer_select_arg("C:\\a b.txt"), "/select,C:\\a b.txt");
}

#[test]
fn os_version_lines() {
    assert_eq!(os_version(0, 10, 0, 22631, &[0]), Ok("Windows 11 (Build 22631)".to_string()));
    assert_eq!(os_version(0, 10, 0, 19045, &[0]), Ok("Windows 10 (Build 19045)".to_string()));
    let sp: Vec<u16> = "Service Pack 1".encode_utf16().chain([0, 65]).collect();
    assert_eq!(os_version(0, 6, 1, 7601, &sp), Ok("Windows 7 (Build 7601) Service Pack 1".to_string()));
    assert_eq!(os_version(0, 6, 3, 9600, &[0]), Ok("Windows 8.1 (Build 9600)".to_string()));
    assert_eq!(os_version(0, 5, 1, 2600, &[0]), Ok("Windows XP (Build 2600)".to_string()));
    assert_eq!(os_version(0, 4, 9, 1, &[0]), Ok("Windows 4.9 (Build 1)".to_string()));
    assert_eq!(os_version(-1073741823, 0, 0, 0, &[0]), Err("RtlGetVersion 失败: 0xc0000001".to_string()));
}

#[test]
fn drives_listed_are_fixed_or_removable_with_space() {
    let drive_type = |root: String| -> u32 {
        match root.as_str() {
            "C:\\" => 3,
            "D:\\" => 2,
            "E:\\" => 5,
            "F:\\" => 3,
            _ => 1,
        }
    };
    let space = |root: String| -> Option<(u64, u64)> {
        match root.as_str() {
            "C:\\" => Some((100, 40)),
            "D:\\" => Some((8, 8)),
            _ => None,
        }
    };
    let d = list_drives(&drive_type, &space);
    let got: Vec<(String, u64, u64)> = d.into_iter().map(|x| (x.letter, x.total_bytes, x.free_bytes)).collect();
    assert_eq!(got, vec![("C:".to_string(), 100, 40), ("D:".to_string(), 8, 8)]);
}

#[test]
fn relaunch_reports_failures() {
    assert_eq!(relaunch_as_admin(Ok("C:\\e.exe".to_string()), &|_: String| 42i64), Ok(()));
    assert_eq!(
        relaunch_as_admin(Ok("C:\\e.exe".to_string()), &|_: String| 5i64),
        Err("请求管理员权限失败（错误码 5）".to_string())
    );
    assert_eq!(
        relaunch_as_admin(Err("access denied".to_string()), &|_: String| -> i64 { panic!("not started") }),
        Err("无法获取当前程序路径: access denied".to_string())
    );
}

#[test]
fn only_root_system_directories_are_skipped() {
    assert!(skips_entry(Some(0), "Windows", true));
    assert!(skips_entry(Some(0), "ProgramData", true));
    assert!(!skips_entry(Some(1), "Windows", true));
    assert!(!skips_entry(Some(0), "windows", false));
    assert!(!skips_entry(None, "Windows", true));
    assert!(!skips_entry(Some(0), "Users", true));
}
