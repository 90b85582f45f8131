//! System information: the Windows version line and the drives listed, from what
//! the system answers.

use vstd::prelude::*;
use crate::text::{concat2, concat3, decimal, decimal_string, hex, hex_string, push_char};
use crate::util::{before_nul, utf16_decode, wide_to_string};

verus! {

/// A fixed or removable drive: its letter (`C:`) and its size and free space in bytes.
pub struct DriveInfo {
    pub letter: String,
    pub total_bytes: u64,
    pub free_bytes: u64,
}

/// What the system information view shows.
pub struct SystemInfo {
    pub os_version: String,
    pub is_admin: bool,
    pub drives: Vec<DriveInfo>,
}

/// The marketing name of a Windows version.
pub open spec fn windows_label(major: u32, minor: u32, build: u32) -> Seq<char> {
    if major == 10 && minor == 0 && build >= 22000 {
        "11"@
    } else if major == 10 && minor == 0 {
        "10"@
    } else if major == 6 && minor == 3 {
        "8.1"@
    } else if major == 6 && minor == 2 {
        "8"@
    } else if major == 6 && minor == 1 {
        "7"@
    } else if major == 6 && minor == 0 {
        "Vista"@
    } else if major == 5 && minor == 1 {
        "XP"@
    } else {
        decimal(major as nat) + "."@ + decimal(minor as nat)
    }
}

/// The version line: `Windows <label> (Build <build>)`, then the service pack after a
/// space when there is one.
pub open spec fn os_version_text(major: u32, minor: u32, build: u32, sp: Seq<char>) -> Seq<char> {
    let base = "Windows "@ + windows_label(major, minor, build) + " (Build "@ + decimal(
        build as nat,
    ) + ")"@;
    if sp.len() == 0 {
        base
    } else {
        base + " "@ + sp
    }
}

/// The error when the version query fails with `status`.
pub open spec fn version_query_error(status: i32) -> Seq<char> {
    "RtlGetVersion 失败: 0x"@ + hex((status as u32) as nat)
}

/// The name of a Windows version (see `windows_label`).
fn label_of(major: u32, minor: u32, build: u32) -> (r: String)
    ensures
        r@ == windows_label(major, minor, build),
{
    if major == 10 && minor == 0 && build >= 22000 {
        "11".to_owned()
    } else if major == 10 && minor == 0 {
        "10".to_owned()
    } else if major == 6 && minor == 3 {
        "8.1".to_owned()
    } else if major == 6 && minor == 2 {
        "8".to_owned()
    } else if major == 6 && minor == 1 {
        "7".to_owned()
    } else if major == 6 && minor == 0 {
        "Vista".to_owned()
    } else if major == 5 && minor == 1 {
        "XP".to_owned()
    } else {
        let a = decimal_string(major);
        let b = decimal_string(minor);
        concat3(a.as_str(), ".", b.as_str())
    }
}

/// `os_version`: the version line from what the version query answered: its status,
/// the major, minor and build numbers, and the service-pack text as a NUL-terminated
/// wide string. A non-zero status is reported in hexadecimal.
pub fn os_version(status: i32, major: u32, minor: u32, build: u32, csd: &[u16]) -> (r: Result<
    String,
    String,
>)
    ensures
        match r {
            Ok(s) => status == 0 && s@ == os_version_text(
                major,
                minor,
                build,
                utf16_decode(before_nul(csd@)),
            ),
            Err(m) => status != 0 && m@ == version_query_error(status),
        },
{
    if status != 0 {
        let digits = hex_string(status as u32);
        return Err(concat2("RtlGetVersion 失败: 0x", digits.as_str()));
    }
    let sp = wide_to_string(csd);
    let label = label_of(major, minor, build);
    let b = decimal_string(build);
    let head = concat3("Windows ", label.as_str(), " (Build ");
    let mut out = concat3(head.as_str(), b.as_str(), ")");
    if !sp.as_str().is_empty() {
        let tail = concat2(" ", sp.as_str());
        let ghost before = out@;
        out = concat2(out.as_str(), tail.as_str());
        proof {
            assert(out@ =~= before + " "@ + sp@);
        }
    }
    Ok(out)
}

/// Drive type codes of fixed and removable drives.
pub open spec fn listed_drive_type(t: u32) -> bool {
    t == 3 || t == 2
}

/// The letter of the `i`-th drive (`A` for 0).
pub open spec fn drive_letter(i: int) -> char {
    (65 + i) as char
}

/// The root path of the `i`-th drive (`A:\`).
pub open spec fn drive_root(i: int) -> Seq<char> {
    seq![drive_letter(i), ':', '\\']
}

/// A drive as shown: letter with colon, size, free space.
pub open spec fn drive_view(d: DriveInfo) -> (Seq<char>, u64, u64) {
    (d.letter@, d.total_bytes, d.free_bytes)
}

/// What the `i`-th drive contributes: nothing unless its type is fixed or removable and
/// its space could be read.
pub open spec fn drive_entry(i: int, t: u32, space: Option<(u64, u64)>) -> Seq<(Seq<char>, u64, u64)> {
    if !listed_drive_type(t) {
        seq![]
    } else {
        match space {
            None => seq![],
            Some((total, free)) => seq![(seq![drive_letter(i), ':'], total, free)],
        }
    }
}

/// The drives among the first `n` letters, from the answers `types` and `spaces`.
pub open spec fn drives_listed(types: Seq<u32>, spaces: Seq<Option<(u64, u64)>>, n: int) -> Seq<
    (Seq<char>, u64, u64),
>
    decreases n,
{
    if n <= 0 {
        seq![]
    } else {
        drives_listed(types, spaces, n - 1) + drive_entry(n - 1, types[n - 1], spaces[n - 1])
    }
}

/// A call of `ask` on the root of the `i`-th drive answered `a`.
pub open spec fn root_answer<A, F: Fn(String) -> A>(ask: F, i: int, a: A) -> bool {
    exists|s: String| s@ == drive_root(i) && #[trigger] call_ensures(ask, (s,), a)
}

/// `list_drives`: for each letter from `A` to `Z`, asks `drive_type` for the type of
/// its root (`A:\`), and for a fixed or removable drive asks `disk_space` for its size
/// and free space (`None` where that fails); lists the drives that answered.
pub fn list_drives<T: Fn(String) -> u32, S: Fn(String) -> Option<(u64, u64)>>(
    drive_type: &T,
    disk_space: &S,
) -> (r: Vec<DriveInfo>)
    requires
        forall|s: String| call_requires(drive_type, (s,)),
        forall|s: String| call_requires(disk_space, (s,)),
    ensures
        exists|types: Seq<u32>, spaces: Seq<Option<(u64, u64)>>|
            {
                &&& types.len() == 26
                &&& spaces.len() == 26
                &&& forall|i: int|
                    0 <= i < 26 ==> #[trigger] root_answer(drive_type, i, types[i])
                &&& forall|i: int|
                    0 <= i < 26 && listed_drive_type(types[i]) ==> #[trigger] root_answer(
                        disk_space,
                        i,
                        spaces[i],
                    )
                &&& r@.map_values(|d: DriveInfo| drive_view(d)) == drives_listed(types, spaces, 26)
            },
{
    let mut out: Vec<DriveInfo> = Vec::new();
    let ghost mut types: Seq<u32> = seq![];
    let ghost mut spaces: Seq<Option<(u64, u64)>> = seq![];
    let mut i: u8 = 0;
    while i < 26
        invariant
            i <= 26,
            types.len() == i,
            spaces.len() == i,
            forall|j: int| 0 <= j < i ==> #[trigger] root_answer(drive_type, j, types[j]),
            forall|j: int|
                0 <= j < i && listed_drive_type(types[j]) ==> #[trigger] root_answer(
                    disk_space,
                    j,
                    spaces[j],
                ),
            out@.map_values(|d: DriveInfo| drive_view(d)) == drives_listed(types, spaces, i as int),
            forall|s: String| call_requires(drive_type, (s,)),
            forall|s: String| call_requires(disk_space, (s,)),
        decreases 26 - i,
    {
        let b: u8 = 65 + i;
        let c = b as char;
        let mut letter = String::new();
        push_char(&mut letter, c);
        push_char(&mut letter, ':');
        let mut root = String::new();
        push_char(&mut root, c);
        push_char(&mut root, ':');
        push_char(&mut root, '\\');
        let root2 = root.clone();
        let ghost root_sent = root;
        proof {
            assert(c == drive_letter(i as int));
            assert(root@ =~= drive_root(i as int));
        }
        let t = drive_type(root);
        proof {
            assert(call_ensures(drive_type, (root_sent,), t));
        }
        let ghost mut space: Option<(u64, u64)> = None;
        if t == 3 || t == 2 {
            let ghost root2_sent = root2;
            let sp = disk_space(root2);
            proof {
                assert(call_ensures(disk_space, (root2_sent,), sp));
                space = sp;
            }
            match sp {
                Some((total, free)) => {
                    let ghost before = out@;
                    out.push(DriveInfo { letter, total_bytes: total, free_bytes: free });
                    proof {
                        assert(letter@ =~= seq![drive_letter(i as int), ':']);
                        assert(out@.map_values(|d: DriveInfo| drive_view(d)) =~= before.map_values(
                            |d: DriveInfo| drive_view(d),
                        ) + drive_entry(i as int, t, space));
                    }
                },
                None => {
                    proof {
                        assert(out@.map_values(|d: DriveInfo| drive_view(d)) =~= out@.map_values(
                            |d: DriveInfo| drive_view(d),
                        ) + drive_entry(i as int, t, space));
                    }
                },
            }
        } else {
            proof {
                assert(out@.map_values(|d: DriveInfo| drive_view(d)) =~= out@.map_values(
                    |d: DriveInfo| drive_view(d),
                ) + drive_entry(i as int, t, space));
            }
        }
        proof {
            let types2 = types.push(t);
            let spaces2 = spaces.push(space);
            assert(drives_listed(types2, spaces2, i as int) == drives_listed(types, spaces, i as int)) by {
                lemma_drives_listed_prefix(types, spaces, types2, spaces2, i as int);
            }
            assert forall|j: int| 0 <= j < i + 1 implies #[trigger] root_answer(drive_type, j, types2[j]) by {
                if j < i {
                    assert(types2[j] == types[j]);
                } else {
                    assert(types2[j] == t);
                    assert(root_sent@ == drive_root(j));
                }
            }
            assert forall|j: int| 0 <= j < i + 1 && listed_drive_type(types2[j]) implies #[trigger] root_answer(
                disk_space,
                j,
                spaces2[j],
            ) by {
                if j < i {
                    assert(types2[j] == types[j]);
                    assert(spaces2[j] == spaces[j]);
                } else {
                    assert(spaces2[j] == space);
                }
            }
            types = types2;
            spaces = spaces2;
        }
        i = i + 1;
    }
    out
}

/// `drives_listed` depends only on the answers for the letters it covers.
proof fn lemma_drives_listed_prefix(
    t1: Seq<u32>,
    s1: Seq<Option<(u64, u64)>>,
    t2: Seq<u32>,
    s2: Seq<Option<(u64, u64)>>,
    n: int,
)
    requires
        0 <= n <= t1.len(),
        n <= t2.len(),
        n <= s1.len(),
        n <= s2.len(),
        forall|j: int| 0 <= j < n ==> t1[j] == t2[j] && s1[j] == s2[j],
    ensures
        drives_listed(t1, s1, n) == drives_listed(t2, s2, n),
    decreases n,
{
    if n > 0 {
        lemma_drives_listed_prefix(t1, s1, t2, s2, n - 1);
    }
}

/// Whether Windows `major.minor` has a marketing name (XP, Vista, 7, 8, 8.1, 10/11).
pub open spec fn is_named_version(major: u32, minor: u32) -> bool {
    ||| major == 10 && minor == 0
    ||| major == 6 && minor <= 3
    ||| major == 5 && minor == 1
}

/// Different named versions get different names: the name of a named version tells
/// its major and minor number apart from every other named version (so 6.2 and 6.3
/// are not both called 8.1, nor 6.1 and 6.2 both 7).
pub proof fn lemma_version_names_distinct(major: u32, minor: u32, build: u32, major2: u32, minor2: u32, build2: u32)
    requires
        is_named_version(major, minor),
        is_named_version(major2, minor2),
        windows_label(major, minor, build) == windows_label(major2, minor2, build2),
    ensures
        major == major2,
        minor == minor2,
{
    reveal_strlit("11");
    reveal_strlit("10");
    reveal_strlit("8.1");
    reveal_strlit("8");
    reveal_strlit("7");
    reveal_strlit("Vista");
    reveal_strlit("XP");
    let a = windows_label(major, minor, build);
    let b = windows_label(major2, minor2, build2);
    assert(a.len() == b.len());
    assert(a[0] == b[0]);
    if a.len() >= 2 {
        assert(a[1] == b[1]);
    }
}

/// Windows 10.0 is called 11 from build 22000 on, and 10 before it.
pub proof fn lemma_ten_or_eleven(build: u32)
    ensures
        build >= 22000 ==> windows_label(10, 0, build) == "11"@,
        build < 22000 ==> windows_label(10, 0, build) == "10"@,
{
}

} // verus!
