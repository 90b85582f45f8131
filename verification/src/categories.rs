//! Junk categories: id, name, risk, path templates and file-name filters.

use vstd::prelude::*;

verus! {

/// Categories that need handling of their own.
#[derive(PartialEq, Eq, Structural, Clone, Copy, Debug)]
pub enum SpecialCategory {
    /// The recycle bin, emptied through the shell.
    RecycleBin,
}

/// The definition of one junk category.
#[derive(Clone, Copy)]
pub struct CategorySpec {
    pub id: &'static str,
    pub name: &'static str,
    pub description: &'static str,
    /// `low`, `medium` or `high`.
    pub risk: &'static str,
    pub requires_admin: bool,
    /// Path templates; one that starts with `%VAR%` is resolved against the environment.
    pub path_templates: &'static [&'static str],
    /// Only files whose name starts with one of these are matched (none: whole directory).
    pub file_prefixes: &'static [&'static str],
    /// Only files whose name ends with one of these are matched.
    pub file_suffixes: &'static [&'static str],
    pub special: Option<SpecialCategory>,
}

/// The character sequences of a list of string slices.
pub open spec fn strs_view(s: Seq<&'static str>) -> Seq<Seq<char>> {
    s.map_values(|x: &'static str| x@)
}

/// The number of junk categories.
pub open spec fn catalog_len() -> nat {
    13
}

/// The ids of the categories, in order.
pub open spec fn catalog_ids() -> Seq<Seq<char>> {
    seq![
        "temp_files"@,
        "internet_temp"@,
        "browser_cache"@,
        "recycle_bin"@,
        "update_cache"@,
        "delivery_optimization"@,
        "thumbnail_cache"@,
        "logs"@,
        "error_reports"@,
        "prefetch"@,
        "directx_shader"@,
        "crash_dumps"@,
        "package_caches"@,
    ]
}

/// The display names of the categories, in order.
pub open spec fn catalog_names() -> Seq<Seq<char>> {
    seq![
        "临时文件"@,
        "Internet 临时文件"@,
        "浏览器缓存"@,
        "回收站"@,
        "Windows 更新缓存"@,
        "传递优化缓存"@,
        "缩略图缓存"@,
        "系统日志"@,
        "系统错误报告"@,
        "预读取缓存 (Prefetch)"@,
        "DirectX 着色器缓存"@,
        "崩溃转储"@,
        "开发工具缓存"@,
    ]
}

/// The descriptions of the categories, in order.
pub open spec fn catalog_descriptions() -> Seq<Seq<char>> {
    seq![
        "用户与应用产生的临时文件，删除后不影响系统，部分文件可能被占用。"@,
        "IE/Edge 的 Internet 缓存，删除后网页首次访问会稍慢。"@,
        "Chrome / Edge 网页缓存，删除后网页首次访问会重新下载资源。"@,
        "清空回收站中的所有已删除文件。此操作不可恢复，请谨慎。"@,
        "Windows Update 下载的安装包缓存，删除后可重新下载更新。"@,
        "Windows 更新传递优化（P2P）下载的缓存文件。"@,
        "资源管理器生成的缩略图与图标缓存，删除后自动重建。"@,
        "Windows 组件产生的日志文件（CBS、DPX 等），删除后可能影响排障。"@,
        "程序崩溃与错误报告（WER）数据，用于诊断问题，可安全删除。"@,
        "系统启动预读取数据，删除后下次开机启动速度会短暂变慢。"@,
        "DirectX / NVIDIA 着色器编译缓存，删除后游戏首次运行会重新编译。"@,
        "程序崩溃时生成的内存转储文件（CrashDumps / Minidump）。"@,
        "npm / pnpm / pip 等包管理器的下载缓存，删除后需要时重新下载。"@,
    ]
}

/// The risk levels of the categories, in order.
pub open spec fn catalog_risks() -> Seq<Seq<char>> {
    seq![
        "low"@,
        "low"@,
        "low"@,
        "medium"@,
        "medium"@,
        "low"@,
        "low"@,
        "medium"@,
        "low"@,
        "low"@,
        "low"@,
        "low"@,
        "low"@,
    ]
}

/// Whether each category needs administrator rights, in order.
pub open spec fn catalog_admin() -> Seq<bool> {
    seq![true, false, false, false, true, true, false, true, false, true, false, false, false]
}

/// The path templates of the categories, in order.
pub open spec fn catalog_templates() -> Seq<Seq<Seq<char>>> {
    seq![
        seq!["%TEMP%"@, "C:\\Windows\\Temp"@],
        seq!["%LOCALAPPDATA%\\Microsoft\\Windows\\INetCache"@],
        seq!["%LOCALAPPDATA%\\Google\\Chrome\\User Data\\Default\\Cache\\Cache_Data"@, "%LOCALAPPDATA%\\Google\\Chrome\\User Data\\Default\\Code Cache"@, "%LOCALAPPDATA%\\Microsoft\\Edge\\User Data\\Default\\Cache\\Cache_Data"@, "%LOCALAPPDATA%\\Microsoft\\Edge\\User Data\\Default\\Code Cache"@],
        seq!["C:\\$Recycle.Bin"@],
        seq!["C:\\Windows\\SoftwareDistribution\\Download"@],
        seq!["C:\\Windows\\SoftwareDistribution\\DeliveryOptimization"@],
        seq!["%LOCALAPPDATA%\\Microsoft\\Windows\\Explorer"@],
        seq!["C:\\Windows\\Logs"@],
        seq!["C:\\ProgramData\\Microsoft\\Windows\\WER"@, "%LOCALAPPDATA%\\Microsoft\\Windows\\WER"@],
        seq!["C:\\Windows\\Prefetch"@],
        seq!["%LOCALAPPDATA%\\D3DSCache"@, "%LOCALAPPDATA%\\NVIDIA\\DXCache"@, "%LOCALAPPDATA%\\NVIDIA\\GLCache"@],
        seq!["%LOCALAPPDATA%\\CrashDumps"@, "C:\\Windows\\Minidump"@],
        seq!["%LOCALAPPDATA%\\npm-cache"@, "%LOCALAPPDATA%\\pnpm-cache"@, "%LOCALAPPDATA%\\pnpm\\store"@, "%LOCALAPPDATA%\\pip\\cache"@, "%USERPROFILE%\\.cache\\pip"@],
    ]
}

/// The file-name prefixes of the categories, in order.
pub open spec fn catalog_prefixes() -> Seq<Seq<Seq<char>>> {
    seq![
        seq![],
        seq![],
        seq![],
        seq![],
        seq![],
        seq![],
        seq!["thumbcache_"@, "iconcache_"@],
        seq![],
        seq![],
        seq![],
        seq![],
        seq![],
        seq![],
    ]
}

/// The special handling of the categories, in order.
pub open spec fn catalog_special() -> Seq<Option<SpecialCategory>> {
    seq![None, None, None, Some(SpecialCategory::RecycleBin), None, None, None, None, None, None, None, None, None]
}

/// Whether `c` is the `i`-th category of the catalog.
pub open spec fn is_catalog_entry(c: CategorySpec, i: int) -> bool {
    &&& c.id@ == catalog_ids()[i]
    &&& c.name@ == catalog_names()[i]
    &&& c.description@ == catalog_descriptions()[i]
    &&& c.risk@ == catalog_risks()[i]
    &&& c.requires_admin == catalog_admin()[i]
    &&& strs_view(c.path_templates@) == catalog_templates()[i]
    &&& strs_view(c.file_prefixes@) == catalog_prefixes()[i]
    &&& c.file_suffixes@.len() == 0
    &&& c.special == catalog_special()[i]
}

/// The catalog of junk categories, in display order.
pub fn specs() -> (r: Vec<CategorySpec>)
    ensures
        r@.len() == catalog_len(),
        forall|i: int| 0 <= i < catalog_len() ==> is_catalog_entry(#[trigger] r@[i], i),
{
    let r = vec![
        CategorySpec {
            id: "temp_files",
            name: "临时文件",
            description: "用户与应用产生的临时文件，删除后不影响系统，部分文件可能被占用。",
            risk: "low",
            requires_admin: true,
            path_templates: &["%TEMP%", "C:\\Windows\\Temp"],
            file_prefixes: &[],
            file_suffixes: &[],
            special: None,
        },
        CategorySpec {
            id: "internet_temp",
            name: "Internet 临时文件",
            description: "IE/Edge 的 Internet 缓存，删除后网页首次访问会稍慢。",
            risk: "low",
            requires_admin: false,
            path_templates: &["%LOCALAPPDATA%\\Microsoft\\Windows\\INetCache"],
            file_prefixes: &[],
            file_suffixes: &[],
            special: None,
        },
        CategorySpec {
            id: "browser_cache",
            name: "浏览器缓存",
            description: "Chrome / Edge 网页缓存，删除后网页首次访问会重新下载资源。",
            risk: "low",
            requires_admin: false,
            path_templates: &["%LOCALAPPDATA%\\Google\\Chrome\\User Data\\Default\\Cache\\Cache_Data", "%LOCALAPPDATA%\\Google\\Chrome\\User Data\\Default\\Code Cache", "%LOCALAPPDATA%\\Microsoft\\Edge\\User Data\\Default\\Cache\\Cache_Data", "%LOCALAPPDATA%\\Microsoft\\Edge\\User Data\\Default\\Code Cache"],
            file_prefixes: &[],
            file_suffixes: &[],
            special: None,
        },
        CategorySpec {
            id: "recycle_bin",
            name: "回收站",
            description: "清空回收站中的所有已删除文件。此操作不可恢复，请谨慎。",
            risk: "medium",
            requires_admin: false,
            path_templates: &["C:\\$Recycle.Bin"],
            file_prefixes: &[],
            file_suffixes: &[],
            special: Some(SpecialCategory::RecycleBin),
        },
        CategorySpec {
            id: "update_cache",
            name: "Windows 更新缓存",
            description: "Windows Update 下载的安装包缓存，删除后可重新下载更新。",
            risk: "medium",
            requires_admin: true,
            path_templates: &["C:\\Windows\\SoftwareDistribution\\Download"],
            file_prefixes: &[],
            file_suffixes: &[],
            special: None,
        },
        CategorySpec {
            id: "delivery_optimization",
            name: "传递优化缓存",
            description: "Windows 更新传递优化（P2P）下载的缓存文件。",
            risk: "low",
            requires_admin: true,
            path_templates: &["C:\\Windows\\SoftwareDistribution\\DeliveryOptimization"],
            file_prefixes: &[],
            file_suffixes: &[],
            special: None,
        },
        CategorySpec {
            id: "thumbnail_cache",
            name: "缩略图缓存",
            description: "资源管理器生成的缩略图与图标缓存，删除后自动重建。",
            risk: "low",
            requires_admin: false,
            path_templates: &["%LOCALAPPDATA%\\Microsoft\\Windows\\Explorer"],
            file_prefixes: &["thumbcache_", "iconcache_"],
            file_suffixes: &[],
            special: None,
        },
        CategorySpec {
            id: "logs",
            name: "系统日志",
            description: "Windows 组件产生的日志文件（CBS、DPX 等），删除后可能影响排障。",
            risk: "medium",
            requires_admin: true,
            path_templates: &["C:\\Windows\\Logs"],
            file_prefixes: &[],
            file_suffixes: &[],
            special: None,
        },
        CategorySpec {
            id: "error_reports",
            name: "系统错误报告",
            description: "程序崩溃与错误报告（WER）数据，用于诊断问题，可安全删除。",
            risk: "low",
            requires_admin: false,
            path_templates: &["C:\\ProgramData\\Microsoft\\Windows\\WER", "%LOCALAPPDATA%\\Microsoft\\Windows\\WER"],
            file_prefixes: &[],
            file_suffixes: &[],
            special: None,
        },
        CategorySpec {
            id: "prefetch",
            name: "预读取缓存 (Prefetch)",
            description: "系统启动预读取数据，删除后下次开机启动速度会短暂变慢。",
            risk: "low",
            requires_admin: true,
            path_templates: &["C:\\Windows\\Prefetch"],
            file_prefixes: &[],
            file_suffixes: &[],
            special: None,
        },
        CategorySpec {
            id: "directx_shader",
            name: "DirectX 着色器缓存",
            description: "DirectX / NVIDIA 着色器编译缓存，删除后游戏首次运行会重新编译。",
            risk: "low",
            requires_admin: false,
            path_templates: &["%LOCALAPPDATA%\\D3DSCache", "%LOCALAPPDATA%\\NVIDIA\\DXCache", "%LOCALAPPDATA%\\NVIDIA\\GLCache"],
            file_prefixes: &[],
            file_suffixes: &[],
            special: None,
        },
        CategorySpec {
            id: "crash_dumps",
            name: "崩溃转储",
            description: "程序崩溃时生成的内存转储文件（CrashDumps / Minidump）。",
            risk: "low",
            requires_admin: false,
            path_templates: &["%LOCALAPPDATA%\\CrashDumps", "C:\\Windows\\Minidump"],
            file_prefixes: &[],
            file_suffixes: &[],
            special: None,
        },
        CategorySpec {
            id: "package_caches",
            name: "开发工具缓存",
            description: "npm / pnpm / pip 等包管理器的下载缓存，删除后需要时重新下载。",
            risk: "low",
            requires_admin: false,
            path_templates: &["%LOCALAPPDATA%\\npm-cache", "%LOCALAPPDATA%\\pnpm-cache", "%LOCALAPPDATA%\\pnpm\\store", "%LOCALAPPDATA%\\pip\\cache", "%USERPROFILE%\\.cache\\pip"],
            file_prefixes: &[],
            file_suffixes: &[],
            special: None,
        },
    ];
    proof {
        assert(strs_view(r@[0].path_templates@) =~= catalog_templates()[0]);
        assert(strs_view(r@[0].file_prefixes@) =~= catalog_prefixes()[0]);
        assert(is_catalog_entry(r@[0], 0));
        assert(strs_view(r@[1].path_templates@) =~= catalog_templates()[1]);
        assert(strs_view(r@[1].file_prefixes@) =~= catalog_prefixes()[1]);
        assert(is_catalog_entry(r@[1], 1));
        assert(strs_view(r@[2].path_templates@) =~= catalog_templates()[2]);
        assert(strs_view(r@[2].file_prefixes@) =~= catalog_prefixes()[2]);
        assert(is_catalog_entry(r@[2], 2));
        assert(strs_view(r@[3].path_templates@) =~= catalog_templates()[3]);
        assert(strs_view(r@[3].file_prefixes@) =~= catalog_prefixes()[3]);
        assert(is_catalog_entry(r@[3], 3));
        assert(strs_view(r@[4].path_templates@) =~= catalog_templates()[4]);
        assert(strs_view(r@[4].file_prefixes@) =~= catalog_prefixes()[4]);
        assert(is_catalog_entry(r@[4], 4));
        assert(strs_view(r@[5].path_templates@) =~= catalog_templates()[5]);
        assert(strs_view(r@[5].file_prefixes@) =~= catalog_prefixes()[5]);
        assert(is_catalog_entry(r@[5], 5));
        assert(strs_view(r@[6].path_templates@) =~= catalog_templates()[6]);
        assert(strs_view(r@[6].file_prefixes@) =~= catalog_prefixes()[6]);
        assert(is_catalog_entry(r@[6], 6));
        assert(strs_view(r@[7].path_templates@) =~= catalog_templates()[7]);
        assert(strs_view(r@[7].file_prefixes@) =~= catalog_prefixes()[7]);
        assert(is_catalog_entry(r@[7], 7));
        assert(strs_view(r@[8].path_templates@) =~= catalog_templates()[8]);
        assert(strs_view(r@[8].file_prefixes@) =~= catalog_prefixes()[8]);
        assert(is_catalog_entry(r@[8], 8));
        assert(strs_view(r@[9].path_templates@) =~= catalog_templates()[9]);
        assert(strs_view(r@[9].file_prefixes@) =~= catalog_prefixes()[9]);
        assert(is_catalog_entry(r@[9], 9));
        assert(strs_view(r@[10].path_templates@) =~= catalog_templates()[10]);
        assert(strs_view(r@[10].file_prefixes@) =~= catalog_prefixes()[10]);
        assert(is_catalog_entry(r@[10], 10));
        assert(strs_view(r@[11].path_templates@) =~= catalog_templates()[11]);
        assert(strs_view(r@[11].file_prefixes@) =~= catalog_prefixes()[11]);
        assert(is_catalog_entry(r@[11], 11));
        assert(strs_view(r@[12].path_templates@) =~= catalog_templates()[12]);
        assert(strs_view(r@[12].file_prefixes@) =~= catalog_prefixes()[12]);
        assert(is_catalog_entry(r@[12], 12));

    }
    r
}

/// The catalog has one entry per id: no two categories share an id, and the recycle
/// bin is the one category with special handling.
pub proof fn lemma_catalog_ids_distinct()
    ensures
        catalog_ids().len() == catalog_len(),
        catalog_ids().no_duplicates(),
        forall|i: int|
            0 <= i < catalog_len() ==> (catalog_special()[i] is Some <==> catalog_ids()[i]
                == "recycle_bin"@),
{
    reveal_strlit("temp_files");
    reveal_strlit("internet_temp");
    reveal_strlit("browser_cache");
    reveal_strlit("recycle_bin");
    reveal_strlit("update_cache");
    reveal_strlit("delivery_optimization");
    reveal_strlit("thumbnail_cache");
    reveal_strlit("logs");
    reveal_strlit("error_reports");
    reveal_strlit("prefetch");
    reveal_strlit("directx_shader");
    reveal_strlit("crash_dumps");
    reveal_strlit("package_caches");
    assert forall|i: int, j: int|
        0 <= i < catalog_ids().len() && 0 <= j < catalog_ids().len() && i != j implies catalog_ids()[i]
        != catalog_ids()[j] by {
        assert(catalog_ids()[i].len() != catalog_ids()[j].len() || catalog_ids()[i][0]
            != catalog_ids()[j][0] || catalog_ids()[i][1] != catalog_ids()[j][1]);
    }
}

} // verus!
