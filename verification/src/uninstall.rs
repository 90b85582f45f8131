//! Installed programs: registry paths, uninstall commands and program records.

use vstd::prelude::*;
use crate::text::{after_last, after_last_exec, append_str, ascii_upper_char, ascii_upper_seq, chars_lt, chars_of, compare_chars, concat3, find, find_chars, first_token, first_token_exec, lowercase, string_of, string_of_range, to_lower, to_upper, trim, trim_bounds, uppercase, lemma_chars_lt_trichotomy, lemma_chars_lt_transitive};

verus! {

broadcast use vstd::seq_lib::group_to_multiset_ensures;

/// A root key of the registry.
#[derive(PartialEq, Eq, Structural, Clone, Copy, Debug)]
pub enum Hive {
    LocalMachine,
    CurrentUser,
    ClassesRoot,
    Users,
}

/// An installed program, as listed under an `Uninstall` registry key.
pub struct InstalledApp {
    /// Full registry path, such as `HKLM\SOFTWARE\...\Uninstall\Foo`.
    pub key: String,
    pub name: String,
    pub version: String,
    pub publisher: String,
    pub install_location: String,
    /// The uninstall command (for MSI packages the `/I` repair command becomes `/X`).
    pub uninstall_string: String,
    pub display_icon: String,
    pub estimated_size_kb: u64,
    pub install_date: String,
    pub is_user: bool,
    pub system_component: bool,
}

/// Something an uninstalled program left behind.
pub struct ResidueItem {
    pub path: String,
    /// `file`, `dir`, `shortcut`, `registry_key` or `registry_value`.
    pub kind: String,
    pub size_bytes: u64,
    /// `low`, `medium` or `high`.
    pub risk: String,
    pub note: String,
}

/// All residue found for one program.
pub struct ResidueReport {
    pub app_key: String,
    pub name: String,
    pub items: Vec<ResidueItem>,
    pub total_size_bytes: u64,
}

/// Result of deleting residue items.
pub struct DeleteReport {
    pub deleted: u64,
    pub failed: u64,
    pub bytes_freed: u64,
    /// Files skipped because they were in use.
    pub locked: u64,
    /// Sample paths of files in use (at most 20).
    pub locked_paths: Vec<String>,
    pub errors: Vec<String>,
}

/// Result of starting an uninstaller.
pub struct UninstallResult {
    pub launched: bool,
    pub message: String,
}

// ---------------------------------------------------------------------------
// Registry paths
// ---------------------------------------------------------------------------

/// The short name of a hive.
pub open spec fn hive_name_spec(h: Hive) -> Seq<char> {
    match h {
        Hive::LocalMachine => "HKLM"@,
        Hive::CurrentUser => "HKCU"@,
        Hive::ClassesRoot => "HKCR"@,
        Hive::Users => "HKU"@,
    }
}

/// The hive a (case-insensitive) hive name stands for.
pub open spec fn hive_of_name(upper: Seq<char>) -> Option<Hive> {
    if upper == "HKLM"@ || upper == "HKEY_LOCAL_MACHINE"@ {
        Some(Hive::LocalMachine)
    } else if upper == "HKCU"@ || upper == "HKEY_CURRENT_USER"@ {
        Some(Hive::CurrentUser)
    } else if upper == "HKCR"@ || upper == "HKEY_CLASSES_ROOT"@ {
        Some(Hive::ClassesRoot)
    } else if upper == "HKU"@ || upper == "HKEY_USERS"@ {
        Some(Hive::Users)
    } else {
        None
    }
}

/// `parse_hive_path`: `HIVE\rest` with a known hive name (any ASCII case) gives the
/// hive and `rest`; anything else gives `None`.
pub open spec fn parse_hive_path_spec(s: Seq<char>) -> Option<(Hive, Seq<char>)> {
    let i: int = crate::text::index_of(s, '\\');
    if i < 0 {
        None
    } else {
        match hive_of_name(ascii_upper_seq(s.subrange(0, i))) {
            Some(h) => Some((h, s.subrange(i + 1, s.len() as int))),
            None => None,
        }
    }
}

/// The short name of a hive: `HKLM`, `HKCU`, `HKCR` or `HKU`.
pub fn hive_name(h: Hive) -> (r: &'static str)
    ensures
        r@ == hive_name_spec(h),
{
    match h {
        Hive::LocalMachine => "HKLM",
        Hive::CurrentUser => "HKCU",
        Hive::ClassesRoot => "HKCR",
        Hive::Users => "HKU",
    }
}

/// Whether `v` equals the literal `lit`.
fn chars_eq_str(v: &[char], lit: &str) -> (r: bool)
    ensures
        r == (v@ == lit@),
{
    let l = chars_of(lit);
    compare_chars(v, l.as_slice()) == 0
}

/// Parses `HIVE\subkey` (hive as `HKLM`, `HKEY_LOCAL_MACHINE`, `HKCU`,
/// `HKEY_CURRENT_USER`, `HKCR`, `HKEY_CLASSES_ROOT`, `HKU` or `HKEY_USERS`, in any ASCII
/// case) into the hive and the subkey path.
pub fn parse_hive_path(s: &str) -> (r: Option<(Hive, String)>)
    ensures
        match r {
            Some((h, rest)) => parse_hive_path_spec(s@) == Some((h, rest@)),
            None => parse_hive_path_spec(s@) is None,
        },
{
    let v = chars_of(s);
    let i = match crate::text::find_char_from(v.as_slice(), '\\', 0) {
        Some(i) => i,
        None => {
            proof {
                assert(v@.subrange(0, v@.len() as int) =~= v@);
            }
            return None;
        },
    };
    proof {
        assert(v@.subrange(0, v@.len() as int) =~= v@);
    }
    let mut up: Vec<char> = Vec::new();
    let mut k: usize = 0;
    while k < i
        invariant
            k <= i < v@.len(),
            up@ == ascii_upper_seq(v@.subrange(0, k as int)),
        decreases i - k,
    {
        up.push(ascii_upper_char(v[k]));
        k += 1;
        proof {
            assert(ascii_upper_seq(v@.subrange(0, k as int)) =~= ascii_upper_seq(
                v@.subrange(0, k - 1),
            ).push(crate::text::ascii_upper(v@[k - 1])));
        }
    }
    let u = up.as_slice();
    let h = if chars_eq_str(u, "HKLM") || chars_eq_str(u, "HKEY_LOCAL_MACHINE") {
        Hive::LocalMachine
    } else if chars_eq_str(u, "HKCU") || chars_eq_str(u, "HKEY_CURRENT_USER") {
        Hive::CurrentUser
    } else if chars_eq_str(u, "HKCR") || chars_eq_str(u, "HKEY_CLASSES_ROOT") {
        Hive::ClassesRoot
    } else if chars_eq_str(u, "HKU") || chars_eq_str(u, "HKEY_USERS") {
        Hive::Users
    } else {
        return None;
    };
    assert(i < v.len());
    Some((h, string_of_range(v.as_slice(), i + 1, v.len())))
}

/// Reading back a written path: `parse_hive_path` of `hive_name(h)\rest` is `(h, rest)`.
pub proof fn lemma_hive_path_roundtrip(h: Hive, rest: Seq<char>)
    ensures
        parse_hive_path_spec(hive_name_spec(h) + "\\"@ + rest) == Some((h, rest)),
{
    reveal_strlit("HKLM");
    reveal_strlit("HKCU");
    reveal_strlit("HKCR");
    reveal_strlit("HKU");
    reveal_strlit("HKEY_LOCAL_MACHINE");
    reveal_strlit("HKEY_CURRENT_USER");
    reveal_strlit("HKEY_CLASSES_ROOT");
    reveal_strlit("HKEY_USERS");
    reveal_strlit("\\");
    let n = hive_name_spec(h);
    let s = n + "\\"@ + rest;
    assert(s[n.len() as int] == '\\');
    assert forall|j: int| 0 <= j < n.len() implies s[j] != '\\' by {
        assert(s[j] == n[j]);
    }
    crate::text::lemma_index_of_unique(s, '\\', n.len() as int);
    assert(s.subrange(0, n.len() as int) =~= n);
    assert(ascii_upper_seq(n) =~= n);
    assert(hive_of_name(n) == Some(h)) by {
        match h {
            Hive::LocalMachine => {},
            Hive::CurrentUser => {
                assert(n == "HKCU"@);
                assert("HKCU"@[2] == 'C');
                assert("HKLM"@[2] == 'L');
                assert(n != "HKLM"@ && n != "HKEY_LOCAL_MACHINE"@);
            },
            Hive::ClassesRoot => {
                assert(n == "HKCR"@);
                assert("HKCR"@[3] == 'R');
                assert("HKLM"@[3] == 'M');
                assert("HKCU"@[3] == 'U');
                assert(n[3] != "HKLM"@[3] && n[3] != "HKCU"@[3]);
                assert(n.len() != "HKEY_LOCAL_MACHINE"@.len());
                assert(n.len() != "HKEY_CURRENT_USER"@.len());
            },
            Hive::Users => {
                assert(n.len() != "HKLM"@.len());
                assert(n.len() != "HKCU"@.len());
                assert(n.len() != "HKCR"@.len());
                assert(n.len() != "HKEY_LOCAL_MACHINE"@.len());
                assert(n.len() != "HKEY_CURRENT_USER"@.len());
                assert(n.len() != "HKEY_CLASSES_ROOT"@.len());
            },
        }
    }
    assert(s.subrange(n.len() as int + 1, s.len() as int) =~= rest);
}

// ---------------------------------------------------------------------------
// Uninstall commands
// ---------------------------------------------------------------------------

/// `{` or `}`.
pub open spec fn is_brace(c: char) -> bool {
    c == '{' || c == '}'
}

/// `s` without leading braces.
pub open spec fn strip_braces_start(s: Seq<char>) -> Seq<char>
    decreases s.len(),
{
    if s.len() > 0 && is_brace(s[0]) {
        strip_braces_start(s.drop_first())
    } else {
        s
    }
}

/// `s` without trailing braces.
pub open spec fn strip_braces_end(s: Seq<char>) -> Seq<char>
    decreases s.len(),
{
    if s.len() > 0 && is_brace(s.last()) {
        strip_braces_end(s.drop_last())
    } else {
        s
    }
}

/// `s` without leading and trailing braces.
pub open spec fn strip_braces(s: Seq<char>) -> Seq<char> {
    strip_braces_end(strip_braces_start(s))
}

/// `extract_msi_guid`: in the upper-cased command, the first token after the first
/// `/I` (or, if there is none, the first `/X`), stripped of braces.
pub open spec fn extract_msi_guid_spec(s: Seq<char>) -> Option<Seq<char>> {
    let u = uppercase(s);
    let i = find(u, "/I"@);
    let idx = if i >= 0 {
        i
    } else {
        find(u, "/X"@)
    };
    if idx < 0 {
        None
    } else {
        match first_token(u.subrange(idx + 2, u.len() as int)) {
            Some(g) => Some(strip_braces(g)),
            None => None,
        }
    }
}

/// `extract_guid`: a trimmed string of the form `{...}` with something between the
/// braces gives what is between them.
pub open spec fn extract_guid_spec(s: Seq<char>) -> Option<Seq<char>> {
    let t = trim(s);
    if t.len() > 2 && t[0] == '{' && t.last() == '}' {
        Some(t.subrange(1, t.len() - 1))
    } else {
        None
    }
}

/// `strip_braces_start` skips exactly the leading braces.
proof fn lemma_braces_start(s: Seq<char>, i: int)
    requires
        0 <= i <= s.len(),
        forall|j: int| 0 <= j < i ==> is_brace(s[j]),
        i == s.len() || !is_brace(s[i]),
    ensures
        strip_braces_start(s) == s.subrange(i, s.len() as int),
    decreases i,
{
    if i == 0 {
        assert(s.subrange(0, s.len() as int) =~= s);
    } else {
        let t = s.drop_first();
        assert forall|j: int| 0 <= j < i - 1 implies is_brace(t[j]) by {
            assert(t[j] == s[j + 1]);
        }
        lemma_braces_start(t, i - 1);
        assert(t.subrange(i - 1, t.len() as int) =~= s.subrange(i, s.len() as int));
    }
}

/// `strip_braces_end` drops exactly the trailing braces.
proof fn lemma_braces_end(s: Seq<char>, k: int)
    requires
        0 <= k <= s.len(),
        forall|j: int| k <= j < s.len() ==> is_brace(s[j]),
        k == 0 || !is_brace(s[k - 1]),
    ensures
        strip_braces_end(s) == s.subrange(0, k),
    decreases s.len() - k,
{
    if k == s.len() {
        assert(s.subrange(0, k) =~= s);
    } else {
        let t = s.drop_last();
        assert forall|j: int| k <= j < t.len() implies is_brace(t[j]) by {
            assert(t[j] == s[j]);
        }
        lemma_braces_end(t, k);
        assert(t.subrange(0, k) =~= s.subrange(0, k));
    }
}

/// `s` without leading and trailing braces.
fn strip_braces_exec(s: &str) -> (r: String)
    ensures
        r@ == strip_braces(s@),
{
    let v = chars_of(s);
    let mut lo: usize = 0;
    while lo < v.len() && (v[lo] == '{' || v[lo] == '}')
        invariant
            lo <= v@.len(),
            forall|j: int| 0 <= j < lo ==> is_brace(v@[j]),
        decreases v@.len() - lo,
    {
        lo += 1;
    }
    let mut hi: usize = v.len();
    while hi > lo && (v[hi - 1] == '{' || v[hi - 1] == '}')
        invariant
            lo <= hi <= v@.len(),
            forall|j: int| hi <= j < v@.len() ==> is_brace(v@[j]),
        decreases hi,
    {
        hi -= 1;
    }
    proof {
        lemma_braces_start(v@, lo as int);
        let t = v@.subrange(lo as int, v@.len() as int);
        assert forall|j: int| hi - lo <= j < t.len() implies is_brace(t[j]) by {
            assert(t[j] == v@[lo + j]);
        }
        if hi > lo {
            assert(t[hi - lo - 1] == v@[hi - 1]);
        }
        lemma_braces_end(t, hi - lo);
        assert(t.subrange(0, hi - lo) =~= v@.subrange(lo as int, hi as int));
    }
    string_of_range(v.as_slice(), lo, hi)
}

/// The product code of an MSI uninstall command: in the upper-cased command, the first
/// token after `/I` (or else `/X`), without braces.
pub fn extract_msi_guid(s: &str) -> (r: Option<String>)
    ensures
        match r {
            Some(g) => extract_msi_guid_spec(s@) == Some(g@),
            None => extract_msi_guid_spec(s@) is None,
        },
{
    let upper = to_upper(s);
    let u = chars_of(upper.as_str());
    let slash_i = chars_of("/I");
    let slash_x = chars_of("/X");
    let idx = match find_chars(u.as_slice(), slash_i.as_slice()) {
        Some(i) => i,
        None => match find_chars(u.as_slice(), slash_x.as_slice()) {
            Some(i) => i,
            None => return None,
        },
    };
    proof {
        crate::text::lemma_find_from(u@, "/I"@, 0);
        crate::text::lemma_find_from(u@, "/X"@, 0);
        reveal_strlit("/I");
        reveal_strlit("/X");
    }
    assert(idx + 2 <= u.len());
    let rest = &u[idx + 2..u.len()];
    assert(rest@ =~= u@.subrange(idx + 2, u@.len() as int));
    match first_token_exec(rest) {
        None => None,
        Some(g) => Some(strip_braces_exec(g.as_str())),
    }
}

/// The GUID in a key name of the form `{...}` (after trimming white space).
pub fn extract_guid(s: &str) -> (r: Option<String>)
    ensures
        match r {
            Some(g) => extract_guid_spec(s@) == Some(g@),
            None => extract_guid_spec(s@) is None,
        },
{
    let v = chars_of(s);
    let (lo, hi) = trim_bounds(v.as_slice());
    if hi - lo > 2 && v[lo] == '{' && v[hi - 1] == '}' {
        proof {
            let t = v@.subrange(lo as int, hi as int);
            assert(t[0] == v@[lo as int]);
            assert(t.last() == v@[hi - 1]);
            assert(t.subrange(1, t.len() - 1) =~= v@.subrange(lo + 1, hi - 1));
        }
        Some(string_of_range(v.as_slice(), lo + 1, hi - 1))
    } else {
        proof {
            let t = v@.subrange(lo as int, hi as int);
            if t.len() > 2 {
                assert(t[0] == v@[lo as int]);
                assert(t.last() == v@[hi - 1]);
            }
        }
        None
    }
}

// ---------------------------------------------------------------------------
// Program records
// ---------------------------------------------------------------------------

/// The values of an `Uninstall` subkey that describe a program; a value that is missing
/// or of another type is `None`.
pub struct AppValues {
    pub display_name: Option<String>,
    pub system_component: Option<u32>,
    pub parent_key_name: Option<String>,
    pub release_type: Option<String>,
    pub display_version: Option<String>,
    pub publisher: Option<String>,
    pub install_location: Option<String>,
    pub uninstall_string: Option<String>,
    pub display_icon: Option<String>,
    pub estimated_size: Option<u32>,
    pub install_date: Option<String>,
    pub windows_installer: Option<u32>,
}

/// A string value, or the empty string when it is missing.
pub open spec fn or_empty(o: Option<String>) -> Seq<char> {
    match o {
        Some(s) => s@,
        None => seq![],
    }
}

/// Whether the values describe a program to list: it has a non-blank name, is not a
/// system component, has no parent key and no (non-blank) release type.
pub open spec fn listed_program(v: AppValues) -> bool {
    &&& v.display_name is Some
    &&& trim(v.display_name->0@).len() > 0
    &&& v.system_component != Some(1u32)
    &&& v.parent_key_name is None
    &&& (v.release_type is None || trim(v.release_type->0@).len() == 0)
}

/// An ASCII decimal digit.
pub open spec fn is_ascii_digit(c: char) -> bool {
    '0' <= c && c <= '9'
}

/// `YYYYMMDD` is shown as `YYYY-MM-DD`; any other date is kept as it is.
pub open spec fn install_date_spec(d: Seq<char>) -> Seq<char> {
    if d.len() == 8 && forall|i: int| 0 <= i < 8 ==> is_ascii_digit(d[i]) {
        d.subrange(0, 4) + "-"@ + d.subrange(4, 6) + "-"@ + d.subrange(6, 8)
    } else {
        d
    }
}

/// The last component of a registry path (after the last backslash).
pub open spec fn key_name_of(path: Seq<char>) -> Seq<char> {
    path.subrange(after_last(path, '\\'), path.len() as int)
}

/// The uninstall command of a program: for an MSI package (`WindowsInstaller` = 1)
/// whose product code is found in the command or in the key name, `msiexec /x {code}`;
/// otherwise the stored command.
pub open spec fn uninstall_command_spec(v: AppValues, path: Seq<char>) -> Seq<char> {
    let us = or_empty(v.uninstall_string);
    if v.windows_installer == Some(1u32) {
        let guid = match extract_msi_guid_spec(us) {
            Some(g) => Some(g),
            None => extract_guid_spec(key_name_of(path)),
        };
        match guid {
            Some(g) => "msiexec /x {"@ + g + "}"@,
            None => us,
        }
    } else {
        us
    }
}

/// The program record built from the values of key `hive\path`.
pub open spec fn app_matches(a: InstalledApp, v: AppValues, hive: Hive, path: Seq<char>, is_user: bool) -> bool {
    &&& a.key@ == hive_name_spec(hive) + "\\"@ + path
    &&& a.name@ == v.display_name->0@
    &&& a.version@ == or_empty(v.display_version)
    &&& a.publisher@ == or_empty(v.publisher)
    &&& a.install_location@ == or_empty(v.install_location)
    &&& a.uninstall_string@ == uninstall_command_spec(v, path)
    &&& a.display_icon@ == or_empty(v.display_icon)
    &&& a.estimated_size_kb == (match v.estimated_size {
        Some(n) => n as u64,
        None => 0u64,
    })
    &&& a.install_date@ == install_date_spec(or_empty(v.install_date))
    &&& a.is_user == is_user
    &&& !a.system_component
}

/// A string value, or the empty string.
fn string_or_empty(o: &Option<String>) -> (r: String)
    ensures
        r@ == or_empty(*o),
{
    match o {
        Some(s) => s.clone(),
        None => String::new(),
    }
}

/// Whether a string is blank (only white space).
fn is_blank(s: &str) -> (r: bool)
    ensures
        r == (trim(s@).len() == 0),
{
    let v = chars_of(s);
    let (lo, hi) = trim_bounds(v.as_slice());
    lo == hi
}

/// `YYYYMMDD` as `YYYY-MM-DD`; any other date unchanged.
pub fn format_install_date(d: &str) -> (r: String)
    ensures
        r@ == install_date_spec(d@),
{
    let v = chars_of(d);
    if v.len() != 8 {
        return string_of(v.as_slice());
    }
    let mut i: usize = 0;
    while i < 8
        invariant
            v@ == d@,
            v@.len() == 8,
            i <= 8,
            forall|j: int| 0 <= j < i ==> is_ascii_digit(v@[j]),
        decreases 8 - i,
    {
        if !('0' <= v[i] && v[i] <= '9') {
            proof {
                assert(!is_ascii_digit(d@[i as int]));
                assert(!(forall|j: int| 0 <= j < 8 ==> is_ascii_digit(d@[j])));
            }
            return string_of(v.as_slice());
        }
        i += 1;
    }
    let y = string_of_range(v.as_slice(), 0, 4);
    let m = string_of_range(v.as_slice(), 4, 6);
    let dd = string_of_range(v.as_slice(), 6, 8);
    let mut r = concat3(y.as_str(), "-", m.as_str());
    append_str(&mut r, "-");
    append_str(&mut r, dd.as_str());
    r
}

/// The uninstall command of a program (`uninstall_command_spec`).
pub fn uninstall_command(v: &AppValues, path: &str) -> (r: String)
    ensures
        r@ == uninstall_command_spec(*v, path@),
{
    let us = string_or_empty(&v.uninstall_string);
    if v.windows_installer == Some(1u32) {
        let guid = match extract_msi_guid(us.as_str()) {
            Some(g) => Some(g),
            None => {
                let pv = chars_of(path);
                let k = after_last_exec(pv.as_slice(), '\\');
                let key_name = string_of_range(pv.as_slice(), k, pv.len());
                extract_guid(key_name.as_str())
            },
        };
        match guid {
            Some(g) => concat3("msiexec /x {", g.as_str(), "}"),
            None => us,
        }
    } else {
        us
    }
}

/// The product code of an MSI command: when the upper-cased command reads
/// `... /I{code} ...`, with no `/I` before it and the code free of white space and
/// braces, the code found is that code (the repair switch `/I` names the product to
/// uninstall).
pub proof fn lemma_msi_code_after_slash_i(s: Seq<char>, pre: Seq<char>, g: Seq<char>, rest: Seq<char>)
    requires
        uppercase(s) == pre + "/I{"@ + g + "}"@ + rest,
        !crate::text::has_substring(pre, "/I"@),
        g.len() > 0,
        forall|j: int| 0 <= j < g.len() ==> !crate::text::is_ws(#[trigger] g[j]) && !is_brace(g[j]),
        rest.len() == 0 || crate::text::is_ws(rest[0]),
    ensures
        extract_msi_guid_spec(s) == Some(g),
{
    reveal_strlit("/I");
    reveal_strlit("/I{");
    reveal_strlit("}");
    let u = uppercase(s);
    let n = pre.len() as int;
    assert(u[n] == '/');
    assert(u[n + 1] == 'I');
    assert(u.subrange(n, n + 2) =~= "/I"@);
    assert(crate::text::occurs_at(u, "/I"@, n));
    crate::text::lemma_find_from(u, "/I"@, 0);
    let r = find(u, "/I"@);
    assert(r != -1);
    assert(r <= n);
    if r < n {
        assert(crate::text::occurs_at(u, "/I"@, r));
        if r + 2 <= n {
            assert(pre.subrange(r, r + 2) =~= u.subrange(r, r + 2));
            assert(crate::text::occurs_at(pre, "/I"@, r));
            assert(false);
        } else {
            assert(u.subrange(r, r + 2)[1] == u[n]);
            assert(false);
        }
    }
    assert(r == n);
    let tail = u.subrange(n + 2, u.len() as int);
    let tok = "{"@ + g + "}"@;
    reveal_strlit("{");
    assert(tail =~= tok + rest);
    assert(!crate::text::is_ws('{'));
    crate::text::lemma_trim_start_skip(tail, 0);
    assert(crate::text::trim_start(tail) == tail);
    let k: int = g.len() as int + 2;
    assert forall|j: int| 0 <= j < k implies !crate::text::is_ws(tail[j]) by {
        if 1 <= j < k - 1 {
            assert(tail[j] == g[j - 1]);
        } else if j == 0 {
            assert(tail[j] == '{');
        } else {
            assert(tail[j] == '}');
            assert(!crate::text::is_ws('}'));
        }
    }
    if k < tail.len() {
        assert(tail[k] == rest[0]);
    }
    crate::text::lemma_token_end(tail, k);
    assert(tail.take(k) =~= tok);
    assert(crate::text::first_token(tail) == Some(tok));
    assert(is_brace(tok[0]));
    assert(tok[1] == g[0]);
    lemma_braces_start(tok, 1);
    let mid = tok.subrange(1, tok.len() as int);
    assert(mid =~= g + "}"@);
    assert(mid[g.len() as int] == '}');
    assert(mid[g.len() - 1] == g[g.len() - 1]);
    lemma_braces_end(mid, g.len() as int);
    assert(mid.subrange(0, g.len() as int) =~= g);
}

/// The product code of an MSI command without `/I`: when the upper-cased command
/// reads `... /X{code} ...`, with no `/X` before it and the code free of white space
/// and braces, the code found is that code.
pub proof fn lemma_msi_code_after_slash_x(s: Seq<char>, pre: Seq<char>, g: Seq<char>, rest: Seq<char>)
    requires
        uppercase(s) == pre + "/X{"@ + g + "}"@ + rest,
        !crate::text::has_substring(pre, "/X"@),
        !crate::text::has_substring(uppercase(s), "/I"@),
        g.len() > 0,
        forall|j: int| 0 <= j < g.len() ==> !crate::text::is_ws(#[trigger] g[j]) && !is_brace(g[j]),
        rest.len() == 0 || crate::text::is_ws(rest[0]),
    ensures
        extract_msi_guid_spec(s) == Some(g),
{
    reveal_strlit("/X");
    reveal_strlit("/X{");
    reveal_strlit("}");
    let u = uppercase(s);
    let n = pre.len() as int;
    crate::text::lemma_find_from(u, "/I"@, 0);
    if find(u, "/I"@) != -1 {
        assert(crate::text::occurs_at(u, "/I"@, find(u, "/I"@)));
        assert(false);
    }
    assert(u[n] == '/');
    assert(u[n + 1] == 'X');
    assert(u.subrange(n, n + 2) =~= "/X"@);
    assert(crate::text::occurs_at(u, "/X"@, n));
    crate::text::lemma_find_from(u, "/X"@, 0);
    let r = find(u, "/X"@);
    assert(r != -1);
    assert(r <= n);
    if r < n {
        assert(crate::text::occurs_at(u, "/X"@, r));
        if r + 2 <= n {
            assert(pre.subrange(r, r + 2) =~= u.subrange(r, r + 2));
            assert(crate::text::occurs_at(pre, "/X"@, r));
            assert(false);
        } else {
            assert(u.subrange(r, r + 2)[1] == u[n]);
            assert(false);
        }
    }
    assert(r == n);
    let tail = u.subrange(n + 2, u.len() as int);
    let tok = "{"@ + g + "}"@;
    reveal_strlit("{");
    assert(tail =~= tok + rest);
    assert(!crate::text::is_ws('{'));
    crate::text::lemma_trim_start_skip(tail, 0);
    assert(crate::text::trim_start(tail) == tail);
    let k: int = g.len() as int + 2;
    assert forall|j: int| 0 <= j < k implies !crate::text::is_ws(tail[j]) by {
        if 1 <= j < k - 1 {
            assert(tail[j] == g[j - 1]);
        } else if j == 0 {
            assert(tail[j] == '{');
        } else {
            assert(tail[j] == '}');
            assert(!crate::text::is_ws('}'));
        }
    }
    if k < tail.len() {
        assert(tail[k] == rest[0]);
    }
    crate::text::lemma_token_end(tail, k);
    assert(tail.take(k) =~= tok);
    assert(crate::text::first_token(tail) == Some(tok));
    assert(is_brace(tok[0]));
    assert(tok[1] == g[0]);
    lemma_braces_start(tok, 1);
    let mid = tok.subrange(1, tok.len() as int);
    assert(mid =~= g + "}"@);
    assert(mid[g.len() as int] == '}');
    assert(mid[g.len() - 1] == g[g.len() - 1]);
    lemma_braces_end(mid, g.len() as int);
    assert(mid.subrange(0, g.len() as int) =~= g);
}

/// A listed Windows Installer program is uninstalled, never repaired: when its
/// `UninstallString` names a product code after `/I` (the repair command) or `/X`, the
/// record's command is `msiexec /x {code}`; with no code there, the code of a key
/// named `{...}` is used. Other programs keep their `UninstallString` as it is.
pub proof fn lemma_msi_uninstalls_by_product_code(a: InstalledApp, v: AppValues, hive: Hive, path: Seq<char>, is_user: bool)
    requires
        app_matches(a, v, hive, path, is_user),
    ensures
        v.windows_installer == Some(1u32) ==> match extract_msi_guid_spec(or_empty(v.uninstall_string)) {
            Some(g) => a.uninstall_string@ == "msiexec /x {"@ + g + "}"@,
            None => match extract_guid_spec(key_name_of(path)) {
                Some(g) => a.uninstall_string@ == "msiexec /x {"@ + g + "}"@,
                None => a.uninstall_string@ == or_empty(v.uninstall_string),
            },
        },
        v.windows_installer != Some(1u32) ==> a.uninstall_string@ == or_empty(v.uninstall_string),
{
}

/// `read_app`: the program record for the values of `Uninstall` subkey `hive\path`, or
/// `None` when the program is not one to list (`listed_program`).
pub fn read_app(values: &AppValues, hive: Hive, path: &str, is_user: bool) -> (r: Option<InstalledApp>)
    ensures
        match r {
            Some(a) => listed_program(*values) && app_matches(a, *values, hive, path@, is_user),
            None => !listed_program(*values),
        },
{
    let name = match &values.display_name {
        Some(n) => n.clone(),
        None => return None,
    };
    if is_blank(name.as_str()) {
        return None;
    }
    if values.system_component == Some(1u32) {
        return None;
    }
    if values.parent_key_name.is_some() {
        return None;
    }
    if let Some(rt) = &values.release_type {
        if !is_blank(rt.as_str()) {
            return None;
        }
    }
    let version = string_or_empty(&values.display_version);
    let publisher = string_or_empty(&values.publisher);
    let install_location = string_or_empty(&values.install_location);
    let uninstall_string = uninstall_command(values, path);
    let display_icon = string_or_empty(&values.display_icon);
    let estimated_size_kb: u64 = match values.estimated_size {
        Some(n) => n as u64,
        None => 0,
    };
    let date = string_or_empty(&values.install_date);
    let install_date = format_install_date(date.as_str());
    let key = concat3(hive_name(hive), "\\", path);
    Some(InstalledApp {
        key,
        name,
        version,
        publisher,
        install_location,
        uninstall_string,
        display_icon,
        estimated_size_kb,
        install_date,
        is_user,
        system_component: false,
    })
}

// ---------------------------------------------------------------------------
// Listing order
// ---------------------------------------------------------------------------

/// The key by which programs are listed: the name in lower case.
pub open spec fn app_key(a: InstalledApp) -> Seq<char> {
    lowercase(a.name@)
}

/// Where a stable sort puts a new element with key `k` into the sorted `s`: after every
/// element whose key is not greater than `k`.
pub open spec fn app_insert_pos(s: Seq<InstalledApp>, k: Seq<char>) -> int
    decreases s.len(),
{
    if s.len() == 0 {
        0
    } else if chars_lt(k, app_key(s.last())) {
        app_insert_pos(s.drop_last(), k)
    } else {
        s.len() as int
    }
}

/// The programs in a stable sort by lower-cased name (the order of `sort_by` with
/// `to_lowercase` keys).
pub open spec fn sort_apps_spec(s: Seq<InstalledApp>) -> Seq<InstalledApp>
    decreases s.len(),
{
    if s.len() == 0 {
        s
    } else {
        let r = sort_apps_spec(s.drop_last());
        r.insert(app_insert_pos(r, app_key(s.last())), s.last())
    }
}

/// Keys never decrease along the sequence.
pub open spec fn apps_sorted(s: Seq<InstalledApp>) -> bool {
    forall|i: int, j: int| 0 <= i < j < s.len() ==> !chars_lt(app_key(#[trigger] s[j]), app_key(#[trigger] s[i]))
}

/// The position of `app_insert_pos` in a sorted sequence: every element before it has
/// a key not greater than `k`, every element from it on a greater key.
proof fn lemma_app_insert_pos(s: Seq<InstalledApp>, k: Seq<char>)
    requires
        apps_sorted(s),
    ensures
        0 <= app_insert_pos(s, k) <= s.len(),
        forall|i: int| 0 <= i < app_insert_pos(s, k) ==> !chars_lt(k, app_key(#[trigger] s[i])),
        forall|i: int| app_insert_pos(s, k) <= i < s.len() ==> chars_lt(k, app_key(#[trigger] s[i])),
    decreases s.len(),
{
    if s.len() > 0 {
        let t = s.drop_last();
        assert forall|i: int, j: int| 0 <= i < j < t.len() implies !chars_lt(app_key(#[trigger] t[j]), app_key(#[trigger] t[i])) by {
            assert(t[i] == s[i] && t[j] == s[j]);
        }
        lemma_app_insert_pos(t, k);
        if chars_lt(k, app_key(s.last())) {
            assert forall|i: int| app_insert_pos(s, k) <= i < s.len() implies chars_lt(k, app_key(#[trigger] s[i])) by {
                if i < s.len() - 1 {
                    assert(s[i] == t[i]);
                }
            }
            assert forall|i: int| 0 <= i < app_insert_pos(s, k) implies !chars_lt(k, app_key(#[trigger] s[i])) by {
                assert(s[i] == t[i]);
            }
        } else {
            assert forall|i: int| 0 <= i < s.len() implies !chars_lt(k, app_key(#[trigger] s[i])) by {
                if i < s.len() - 1 {
                    assert(!chars_lt(app_key(s.last()), app_key(s[i])));
                    lemma_chars_lt_trichotomy(app_key(s.last()), app_key(s[i]));
                    if chars_lt(k, app_key(s[i])) {
                        lemma_chars_lt_trichotomy(k, app_key(s.last()));
                        if chars_lt(app_key(s[i]), app_key(s.last())) {
                            lemma_chars_lt_transitive(k, app_key(s[i]), app_key(s.last()));
                        }
                    }
                }
            }
        }
    }
}

/// The listing order sorts the programs by lower-cased name and keeps every program:
/// the result is sorted and a permutation of the input.
pub proof fn lemma_sort_apps(s: Seq<InstalledApp>)
    ensures
        apps_sorted(sort_apps_spec(s)),
        sort_apps_spec(s).to_multiset() == s.to_multiset(),
        sort_apps_spec(s).len() == s.len(),
    decreases s.len(),
{
    if s.len() > 0 {
        let t = s.drop_last();
        let x = s.last();
        lemma_sort_apps(t);
        let r = sort_apps_spec(t);
        let k = app_key(x);
        lemma_app_insert_pos(r, k);
        let p = app_insert_pos(r, k);
        let q = r.insert(p, x);
        assert forall|i: int, j: int| 0 <= i < j < q.len() implies !chars_lt(app_key(#[trigger] q[j]), app_key(#[trigger] q[i])) by {
            if j < p {
                assert(q[i] == r[i] && q[j] == r[j]);
            } else if j == p {
                assert(q[i] == r[i]);
            } else if i == p {
                assert(q[j] == r[j - 1]);
                lemma_chars_lt_trichotomy(k, app_key(r[j - 1]));
            } else if i < p {
                assert(q[i] == r[i] && q[j] == r[j - 1]);
            } else {
                assert(q[i] == r[i - 1] && q[j] == r[j - 1]);
            }
        }
        assert(s =~= t.push(x));
    }
}

/// Sorts programs by lower-cased name, keeping the input order among equal names.
pub fn sort_apps_by_name(apps: Vec<InstalledApp>) -> (r: Vec<InstalledApp>)
    ensures
        r@ == sort_apps_spec(apps@),
{
    let ghost s = apps@;
    let mut rest = apps;
    let mut res: Vec<InstalledApp> = Vec::new();
    let mut keys: Vec<Vec<char>> = Vec::new();
    let mut n: usize = 0;
    assert(s.len() == rest.len());
    while rest.len() > 0
        invariant
            s.len() <= usize::MAX,
            n + rest@.len() == s.len(),
            rest@ == s.skip(n as int),
            res@ == sort_apps_spec(s.take(n as int)),
            keys@.len() == res@.len(),
            forall|i: int| 0 <= i < keys@.len() ==> (#[trigger] keys@[i])@ == app_key(res@[i]),
        decreases rest@.len(),
    {
        let x = rest.remove(0);
        let lx = to_lower(x.name.as_str());
        let kx = chars_of(lx.as_str());
        let ghost r0 = res@;
        let mut p = res.len();
        proof {
            assert(r0.take(r0.len() as int) =~= r0);
        }
        while p > 0 && compare_chars(kx.as_slice(), keys[p - 1].as_slice()) == -1
            invariant
                p <= r0.len(),
                res@ == r0,
                keys@.len() == r0.len(),
                forall|i: int| 0 <= i < keys@.len() ==> (#[trigger] keys@[i])@ == app_key(r0[i]),
                kx@ == app_key(x),
                app_insert_pos(r0, kx@) == app_insert_pos(r0.take(p as int), kx@),
            decreases p,
        {
            proof {
                let t = r0.take(p as int);
                assert(t.last() == r0[p - 1]);
                assert(t.drop_last() =~= r0.take(p - 1));
            }
            p -= 1;
        }
        proof {
            assert(r0.take(r0.len() as int) =~= r0);
            let t = r0.take(p as int);
            if p > 0 {
                assert(t.last() == r0[p - 1]);
            }
            assert(app_insert_pos(t, kx@) == p);
            assert(s.take(n + 1).drop_last() =~= s.take(n as int));
            assert(s.take(n + 1).last() == x);
        }
        let ghost k0 = keys@;
        res.insert(p, x);
        keys.insert(p, kx);
        n += 1;
        proof {
            assert(rest@ =~= s.skip(n as int));
            assert forall|i: int| 0 <= i < keys@.len() implies (#[trigger] keys@[i])@ == app_key(res@[i]) by {
                if i < p {
                    assert(keys@[i] == k0[i] && res@[i] == r0[i]);
                } else if i > p {
                    assert(keys@[i] == k0[i - 1] && res@[i] == r0[i - 1]);
                }
            }
        }
    }
    proof {
        assert(s.take(s.len() as int) =~= s);
    }
    res
}

/// The `Uninstall` key of the registry.
pub open spec fn uninstall_base() -> Seq<char> {
    "SOFTWARE\\Microsoft\\Windows\\CurrentVersion\\Uninstall"@
}

/// The `Uninstall` key that 32-bit programs use on 64-bit Windows.
pub open spec fn uninstall_base_32() -> Seq<char> {
    "SOFTWARE\\WOW6432Node\\Microsoft\\Windows\\CurrentVersion\\Uninstall"@
}

/// The places installed programs are listed from, in order: hive, key, and whether
/// the programs there are the current user's.
pub fn uninstall_roots() -> (r: Vec<(Hive, &'static str, bool)>)
    ensures
        r@.len() == 3,
        r@[0].0 == Hive::LocalMachine && r@[0].1@ == uninstall_base() && !r@[0].2,
        r@[1].0 == Hive::LocalMachine && r@[1].1@ == uninstall_base_32() && !r@[1].2,
        r@[2].0 == Hive::CurrentUser && r@[2].1@ == uninstall_base() && r@[2].2,
{
    vec![
        (Hive::LocalMachine, "SOFTWARE\\Microsoft\\Windows\\CurrentVersion\\Uninstall", false),
        (Hive::LocalMachine, "SOFTWARE\\WOW6432Node\\Microsoft\\Windows\\CurrentVersion\\Uninstall", false),
        (Hive::CurrentUser, "SOFTWARE\\Microsoft\\Windows\\CurrentVersion\\Uninstall", true),
    ]
}

} // verus!
