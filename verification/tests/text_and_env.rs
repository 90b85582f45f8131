use elimitate::env::{expand_env, resolve_template, EnvVars};
use elimitate::text::{hex_string, signed_decimal_string, str_eq};
use elimitate::util::{
    is_reparse, parse_command_line, shell_path_list, split_command_line, to_wide, wide_to_string,
    LockTracker,
};

fn env(pairs: &[(&str, &str)]) -> EnvVars {
    EnvVars { vars: pairs.iter().map(|(k, v)| (k.to_string(), v.to_string())).collect() }
}

#[test]
fn to_wide_appends_nul() {
    assert_eq!(to_wide("ab"), vec![0x61, 0x62, 0]);
    assert_eq!(to_wide(""), vec![0]);
}

#[test]
fn to_wide_encodes_surrogate_pairs() {
    // U+1F600 is a surrogate pair in UTF-16
    assert_eq!(to_wide("\u{1F600}"), vec![0xD83D, 0xDE00, 0]);
    assert_eq!(to_wide("中"), vec![0x4E2D, 0]);
}

#[test]
fn wide_to_string_reads_up_to_nul() {
    let w = [0x48u16, 0x69, 0, 0x41, 0x42];
    assert_eq!(wide_to_string(&w), "Hi");
    assert_eq!(wide_to_string(&[0x41u16, 0x42]), "AB");
    assert_eq!(wide_to_string(&[]), "");
}

#[test]
fn wide_to_string_replaces_lone_surrogates() {
    assert_eq!(wide_to_string(&[0xD800u16, 0x41, 0]), "\u{FFFD}A");
}

#[test]
fn wide_roundtrip_law() {
    for s in ["", "C:\\Program Files\\App", "卸载程序 \u{1F600} x"] {
        assert_eq!(wide_to_string(&to_wide(s)), s);
    }
}

#[test]
fn split_command_line_trims_quotes() {
    let r = split_command_line("  \"C:\\Program Files\\x.exe\"   /S  \"\"  ");
    assert_eq!(r, vec!["C:\\Program".to_string(), "Files\\x.exe".to_string(), "/S".to_string(), "".to_string()]);
    assert!(split_command_line("   ").is_empty());
}

#[test]
fn parse_command_line_prefers_system_parser() {
    let argv = vec!["C:\\Program Files\\x.exe".to_string(), "/S".to_string()];
    assert_eq!(parse_command_line("\"C:\\Program Files\\x.exe\" /S", Some(argv.clone())), argv);
    assert_eq!(
        parse_command_line("MsiExec.exe /X{1}", None),
        vec!["MsiExec.exe".to_string(), "/X{1}".to_string()]
    );
}

#[test]
fn reparse_attribute_bit() {
    assert!(is_reparse(0x0400));
    assert!(is_reparse(0x0410));
    assert!(!is_reparse(0x0010));
}

#[test]
fn lock_tracker_keeps_first_twenty_samples() {
    let mut t = LockTracker::new();
    for i in 0..25 {
        t.add(&format!("C:\\f{i}"));
    }
    assert_eq!(t.count, 25);
    assert_eq!(t.samples.len(), 20);
    assert_eq!(t.samples[0], "C:\\f0");
    assert_eq!(t.samples[19], "C:\\f19");
    let d = LockTracker::default();
    assert_eq!(d.count, 0);
    assert!(d.samples.is_empty());
}

#[test]
fn shell_path_list_is_double_nul_terminated() {
    let paths = vec!["a".to_string(), "bc".to_string()];
    assert_eq!(shell_path_list(&paths), Some(vec![0x61, 0, 0x62, 0x63, 0, 0]));
    assert_eq!(shell_path_list(&[]), None);
}

#[test]
fn number_rendering() {
    assert_eq!(hex_string(0x8000FFFF), "8000ffff");
    assert_eq!(hex_string(0), "0");
    assert_eq!(hex_string(255), "ff");
    assert_eq!(signed_decimal_string(-5), "-5");
    assert_eq!(signed_decimal_string(0), "0");
    assert_eq!(signed_decimal_string(i64::MIN), "-9223372036854775808");
    assert!(str_eq("dir", "dir"));
    assert!(!str_eq("dir", "Dir"));
}

#[test]
fn expand_env_replaces_known_variables() {
    let e = env(&[("TEMP", "C:\\T"), ("A", "1"), ("B", "2")]);
    assert_eq!(expand_env("  \"%temp%\\cache\"  ", &e), "C:\\T\\cache");
    assert_eq!(expand_env("%A%%B%", &e), "12");
    assert_eq!(expand_env("%NOPE%\\x", &e), "%NOPE%\\x");
    assert_eq!(expand_env("100%", &e), "100%");
}

#[test]
fn expand_env_does_not_expand_values_again() {
    let e = env(&[("X", "%Y%"), ("Y", "no")]);
    assert_eq!(expand_env("%X%", &e), "%Y%");
}

#[test]
fn resolve_template_cases() {
    let e = env(&[("LOCALAPPDATA", "C:\\Users\\u\\AppData\\Local")]);
    assert_eq!(
        resolve_template("%LOCALAPPDATA%\\Temp", &e),
        Some("C:\\Users\\u\\AppData\\Local\\Temp".to_string())
    );
    assert_eq!(resolve_template("C:\\Windows\\Temp", &e), Some("C:\\Windows\\Temp".to_string()));
    assert_eq!(resolve_template("%APPDATA%\\x", &e), None);
    assert_eq!(resolve_template("%LOCALAPPDATA", &e), None);
}
