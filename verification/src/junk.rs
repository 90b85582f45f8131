//! Junk scanning: which paths a category covers, and how many files and bytes they hold.
//!
//! Walking directories is left to the caller, who describes each target path by a
//! [`PathProbe`]; the library decides what is counted.

use vstd::prelude::*;
use crate::categories::{CategorySpec, SpecialCategory, strs_view};
use crate::env::{EnvVars, resolve_template, resolve_template_spec};
use crate::text::{chars_of, ends_with_chars, lowercase, starts_with_chars, to_lower};
use crate::util::strings_view;

verus! {

/// Scan result of one category.
pub struct JunkCategory {
    pub id: String,
    pub name: String,
    pub description: String,
    /// The scanned paths that exist.
    pub paths: Vec<String>,
    pub file_count: u64,
    pub size_bytes: u64,
    pub risk: String,
    pub requires_admin: bool,
}

/// Result of cleaning one category.
pub struct CleanReport {
    pub category_id: String,
    pub category_name: String,
    pub items_removed: u64,
    pub bytes_freed: u64,
    /// Files skipped because they were in use.
    pub locked: u64,
    /// Sample paths of files in use (at most 20).
    pub locked_paths: Vec<String>,
    pub errors: Vec<String>,
}

/// A file met while walking a directory: its name and size (0 when unknown).
pub struct FileEntry {
    pub name: String,
    pub size: u64,
}

/// What the caller found at a target path.
pub enum PathProbe {
    /// The path does not exist.
    Missing,
    /// A directory, with every file found below it (reparse points are not entered).
    Dir(Vec<FileEntry>),
    /// A file of the given size (0 when unknown).
    File(u64),
    /// Something that exists but is neither a file nor a directory.
    Other,
}

/// The path of the recycle bin on the system drive.
pub open spec fn recycle_bin_path() -> Seq<char> {
    "C:\\$Recycle.Bin"@
}

/// The resolved templates, skipping those that do not resolve.
pub open spec fn resolved_templates(ts: Seq<Seq<char>>, env: Seq<(Seq<char>, Seq<char>)>) -> Seq<
    Seq<char>,
>
    decreases ts.len(),
{
    if ts.len() == 0 {
        seq![]
    } else {
        let prev = resolved_templates(ts.drop_last(), env);
        match resolve_template_spec(ts.last(), env) {
            Some(p) => prev.push(p),
            None => prev,
        }
    }
}

/// The paths a category covers: the recycle bin for the recycle-bin category, the
/// resolved templates otherwise.
pub open spec fn targets_spec(spec: CategorySpec, env: Seq<(Seq<char>, Seq<char>)>) -> Seq<
    Seq<char>,
> {
    if spec.special == Some(SpecialCategory::RecycleBin) {
        seq![recycle_bin_path()]
    } else {
        resolved_templates(strs_view(spec.path_templates@), env)
    }
}

/// A file name matches a category's filters when, in lower case, it starts with one of
/// the prefixes or ends with one of the suffixes (each taken in lower case).
pub open spec fn name_matches(name: Seq<char>, prefixes: Seq<Seq<char>>, suffixes: Seq<Seq<char>>) -> bool {
    ||| exists|i: int| 0 <= i < prefixes.len() && lowercase(prefixes[i]).is_prefix_of(lowercase(name))
    ||| exists|i: int| 0 <= i < suffixes.len() && lowercase(suffixes[i]).is_suffix_of(lowercase(name))
}

/// Total size of the files.
pub open spec fn bytes_of(files: Seq<FileEntry>) -> nat
    decreases files.len(),
{
    if files.len() == 0 {
        0
    } else {
        bytes_of(files.drop_last()) + files.last().size as nat
    }
}

/// Number of files that match the filters.
pub open spec fn matching_count(files: Seq<FileEntry>, pre: Seq<Seq<char>>, suf: Seq<Seq<char>>) -> nat
    decreases files.len(),
{
    if files.len() == 0 {
        0
    } else {
        matching_count(files.drop_last(), pre, suf) + if name_matches(files.last().name@, pre, suf) {
            1nat
        } else {
            0nat
        }
    }
}

/// Total size of the files that match the filters.
pub open spec fn matching_bytes(files: Seq<FileEntry>, pre: Seq<Seq<char>>, suf: Seq<Seq<char>>) -> nat
    decreases files.len(),
{
    if files.len() == 0 {
        0
    } else {
        matching_bytes(files.drop_last(), pre, suf) + if name_matches(files.last().name@, pre, suf) {
            files.last().size as nat
        } else {
            0nat
        }
    }
}

/// Files and bytes counted at one probed path: a directory counts all its files, or
/// only the matching ones when the category has filters; a file counts itself.
pub open spec fn probe_totals(p: PathProbe, pre: Seq<Seq<char>>, suf: Seq<Seq<char>>) -> (nat, nat) {
    match p {
        PathProbe::Dir(files) => if pre.len() == 0 && suf.len() == 0 {
            (files@.len(), bytes_of(files@))
        } else {
            (matching_count(files@, pre, suf), matching_bytes(files@, pre, suf))
        },
        PathProbe::File(size) => (1, size as nat),
        _ => (0, 0),
    }
}

/// The probe of target `i` (missing when none was given).
pub open spec fn probe_at(probes: Seq<PathProbe>, i: int) -> PathProbe {
    if 0 <= i < probes.len() {
        probes[i]
    } else {
        PathProbe::Missing
    }
}

/// Scan of the first `n` targets: the existing paths, file count and byte count.
pub open spec fn scan_upto(
    targets: Seq<Seq<char>>,
    probes: Seq<PathProbe>,
    pre: Seq<Seq<char>>,
    suf: Seq<Seq<char>>,
    n: int,
) -> (Seq<Seq<char>>, nat, nat)
    decreases n,
{
    if n <= 0 {
        (seq![], 0, 0)
    } else {
        let prev = scan_upto(targets, probes, pre, suf, n - 1);
        let p = probe_at(probes, n - 1);
        if p is Missing {
            prev
        } else {
            let t = probe_totals(p, pre, suf);
            (prev.0.push(targets[n - 1]), prev.1 + t.0, prev.2 + t.1)
        }
    }
}

/// Scan of all targets.
pub open spec fn scan_spec(
    spec: CategorySpec,
    env: Seq<(Seq<char>, Seq<char>)>,
    probes: Seq<PathProbe>,
) -> (Seq<Seq<char>>, nat, nat) {
    let targets = targets_spec(spec, env);
    scan_upto(
        targets,
        probes,
        scan_prefixes(spec),
        scan_suffixes(spec),
        targets.len() as int,
    )
}

/// The name prefixes a scan counts by: none for the recycle bin, whose every file is
/// counted; the category's own otherwise.
pub open spec fn scan_prefixes(spec: CategorySpec) -> Seq<Seq<char>> {
    if spec.special == Some(SpecialCategory::RecycleBin) {
        seq![]
    } else {
        strs_view(spec.file_prefixes@)
    }
}

/// The name suffixes a scan counts by: none for the recycle bin, the category's own
/// otherwise.
pub open spec fn scan_suffixes(spec: CategorySpec) -> Seq<Seq<char>> {
    if spec.special == Some(SpecialCategory::RecycleBin) {
        seq![]
    } else {
        strs_view(spec.file_suffixes@)
    }
}

/// Counts never shrink as more targets are scanned.
pub proof fn lemma_scan_monotone(
    targets: Seq<Seq<char>>,
    probes: Seq<PathProbe>,
    pre: Seq<Seq<char>>,
    suf: Seq<Seq<char>>,
    i: int,
    n: int,
)
    requires
        0 <= i <= n,
    ensures
        scan_upto(targets, probes, pre, suf, i).1 <= scan_upto(targets, probes, pre, suf, n).1,
        scan_upto(targets, probes, pre, suf, i).2 <= scan_upto(targets, probes, pre, suf, n).2,
    decreases n - i,
{
    if i < n {
        lemma_scan_monotone(targets, probes, pre, suf, i, n - 1);
    }
}

/// The paths a category covers: `C:\$Recycle.Bin` for the recycle bin, otherwise each
/// template that resolves against `env`, in order.
pub fn scan_targets(spec: &CategorySpec, env: &EnvVars) -> (r: Vec<String>)
    ensures
        strings_view(r@) == targets_spec(*spec, env@),
{
    let mut r: Vec<String> = Vec::new();
    if spec.special == Some(SpecialCategory::RecycleBin) {
        r.push("C:\\$Recycle.Bin".to_owned());
        proof {
            assert(strings_view(r@) =~= seq![recycle_bin_path()]);
        }
        return r;
    }
    let ghost ts = strs_view(spec.path_templates@);
    let mut i: usize = 0;
    while i < spec.path_templates.len()
        invariant
            i <= spec.path_templates@.len(),
            ts == strs_view(spec.path_templates@),
            strings_view(r@) == resolved_templates(ts.take(i as int), env@),
        decreases spec.path_templates@.len() - i,
    {
        let t = spec.path_templates[i];
        proof {
            assert(ts.take(i + 1).drop_last() =~= ts.take(i as int));
            assert(ts.take(i + 1).last() == t@);
        }
        let ghost before = r@;
        match resolve_template(t, env) {
            Some(p) => {
                r.push(p);
                proof {
                    assert(strings_view(r@) =~= strings_view(before).push(r@.last()@));
                }
            },
            None => {},
        }
        i += 1;
    }
    proof {
        assert(ts.take(ts.len() as int) =~= ts);
    }
    r
}

/// Whether a file name matches a category's filters (`name_matches`).
pub fn file_name_matches(name: &str, prefixes: &[&'static str], suffixes: &[&'static str]) -> (r: bool)
    ensures
        r == name_matches(name@, strs_view(prefixes@), strs_view(suffixes@)),
{
    let l = to_lower(name);
    let lv = chars_of(l.as_str());
    let mut i: usize = 0;
    while i < prefixes.len()
        invariant
            i <= prefixes@.len(),
            lv@ == lowercase(name@),
            forall|k: int| 0 <= k < i ==> !lowercase(#[trigger] strs_view(prefixes@)[k]).is_prefix_of(lowercase(name@)),
        decreases prefixes@.len() - i,
    {
        let p = to_lower(prefixes[i]);
        let pv = chars_of(p.as_str());
        if starts_with_chars(lv.as_slice(), pv.as_slice()) {
            proof {
                assert(strs_view(prefixes@)[i as int] == prefixes@[i as int]@);
            }
            return true;
        }
        i += 1;
    }
    let mut j: usize = 0;
    while j < suffixes.len()
        invariant
            j <= suffixes@.len(),
            lv@ == lowercase(name@),
            forall|k: int| 0 <= k < prefixes@.len() ==> !lowercase(#[trigger] strs_view(prefixes@)[k]).is_prefix_of(lowercase(name@)),
            forall|k: int| 0 <= k < j ==> !lowercase(#[trigger] strs_view(suffixes@)[k]).is_suffix_of(lowercase(name@)),
        decreases suffixes@.len() - j,
    {
        let p = to_lower(suffixes[j]);
        let pv = chars_of(p.as_str());
        if ends_with_chars(lv.as_slice(), pv.as_slice()) {
            proof {
                assert(strs_view(suffixes@)[j as int] == suffixes@[j as int]@);
            }
            return true;
        }
        j += 1;
    }
    false
}

/// Number of files in a directory listing and their total size.
pub fn count_dir(files: &[FileEntry]) -> (r: (u64, u64))
    requires
        bytes_of(files@) <= u64::MAX,
    ensures
        r.0 == files@.len(),
        r.1 == bytes_of(files@),
{
    let mut bytes: u64 = 0;
    let mut i: usize = 0;
    while i < files.len()
        invariant
            i <= files@.len(),
            bytes == bytes_of(files@.take(i as int)),
            bytes_of(files@) <= u64::MAX,
        decreases files@.len() - i,
    {
        proof {
            assert(files@.take(i + 1).drop_last() =~= files@.take(i as int));
            lemma_bytes_prefix(files@, i + 1);
        }
        bytes = bytes + files[i].size;
        i += 1;
    }
    proof {
        assert(files@.take(files@.len() as int) =~= files@);
    }
    (files.len() as u64, bytes)
}

/// The size of a prefix of a listing is at most that of the listing.
pub proof fn lemma_bytes_prefix(files: Seq<FileEntry>, n: int)
    requires
        0 <= n <= files.len(),
    ensures
        bytes_of(files.take(n)) <= bytes_of(files),
    decreases files.len() - n,
{
    if n < files.len() {
        lemma_bytes_prefix(files, n + 1);
        assert(files.take(n + 1).drop_last() =~= files.take(n));
    } else {
        assert(files.take(n) =~= files);
    }
}

/// The matching counts of a prefix of a listing are at most those of the listing.
pub proof fn lemma_matching_prefix(files: Seq<FileEntry>, pre: Seq<Seq<char>>, suf: Seq<Seq<char>>, n: int)
    requires
        0 <= n <= files.len(),
    ensures
        matching_count(files.take(n), pre, suf) <= matching_count(files, pre, suf),
        matching_bytes(files.take(n), pre, suf) <= matching_bytes(files, pre, suf),
    decreases files.len() - n,
{
    if n < files.len() {
        lemma_matching_prefix(files, pre, suf, n + 1);
        assert(files.take(n + 1).drop_last() =~= files.take(n));
    } else {
        assert(files.take(n) =~= files);
    }
}

/// Number and total size of the files in a listing whose names match the filters.
pub fn count_matching(files: &[FileEntry], prefixes: &[&'static str], suffixes: &[&'static str]) -> (r: (u64, u64))
    requires
        matching_bytes(files@, strs_view(prefixes@), strs_view(suffixes@)) <= u64::MAX,
    ensures
        r.0 == matching_count(files@, strs_view(prefixes@), strs_view(suffixes@)),
        r.1 == matching_bytes(files@, strs_view(prefixes@), strs_view(suffixes@)),
{
    let ghost pre = strs_view(prefixes@);
    let ghost suf = strs_view(suffixes@);
    let mut count: u64 = 0;
    let mut bytes: u64 = 0;
    let mut i: usize = 0;
    while i < files.len()
        invariant
            i <= files@.len(),
            pre == strs_view(prefixes@),
            suf == strs_view(suffixes@),
            count == matching_count(files@.take(i as int), pre, suf),
            bytes == matching_bytes(files@.take(i as int), pre, suf),
            matching_bytes(files@, pre, suf) <= u64::MAX,
            count <= i,
        decreases files@.len() - i,
    {
        proof {
            assert(files@.take(i + 1).drop_last() =~= files@.take(i as int));
            lemma_matching_prefix(files@, pre, suf, i + 1);
        }
        if file_name_matches(files[i].name.as_str(), prefixes, suffixes) {
            count = count + 1;
            bytes = bytes + files[i].size;
        }
        i += 1;
    }
    proof {
        assert(files@.take(files@.len() as int) =~= files@);
    }
    (count, bytes)
}

/// Files and bytes counted at one probed path.
fn probe_counts(p: &PathProbe, prefixes: &[&'static str], suffixes: &[&'static str]) -> (r: (u64, u64))
    requires
        probe_totals(*p, strs_view(prefixes@), strs_view(suffixes@)).1 <= u64::MAX,
    ensures
        r.0 == probe_totals(*p, strs_view(prefixes@), strs_view(suffixes@)).0,
        r.1 == probe_totals(*p, strs_view(prefixes@), strs_view(suffixes@)).1,
{
    match p {
        PathProbe::Dir(files) => {
            if prefixes.len() == 0 && suffixes.len() == 0 {
                count_dir(files.as_slice())
            } else {
                count_matching(files.as_slice(), prefixes, suffixes)
            }
        },
        PathProbe::File(size) => (1, *size),
        _ => (0, 0),
    }
}

/// `scan_category`: scans the targets of a category (`scan_targets`), where
/// `probes[i]` tells what is at the `i`-th target (a target without a probe counts as
/// missing). Returns the existing targets, the number of files and their total size.
/// A directory counts its files that match the category's name filters, or all of them
/// for a category without filters and for the recycle bin.
pub fn scan_category(spec: &CategorySpec, env: &EnvVars, probes: &[PathProbe]) -> (r: (
    Vec<String>,
    u64,
    u64,
))
    requires
        scan_spec(*spec, env@, probes@).1 <= u64::MAX,
        scan_spec(*spec, env@, probes@).2 <= u64::MAX,
    ensures
        strings_view(r.0@) == scan_spec(*spec, env@, probes@).0,
        r.1 == scan_spec(*spec, env@, probes@).1,
        r.2 == scan_spec(*spec, env@, probes@).2,
{
    let targets = scan_targets(spec, env);
    let ghost tv = strings_view(targets@);
    let no_filter: &'static [&'static str] = &[];
    let (prefixes, suffixes) = if spec.special == Some(SpecialCategory::RecycleBin) {
        (no_filter, no_filter)
    } else {
        (spec.file_prefixes, spec.file_suffixes)
    };
    let ghost pre = strs_view(prefixes@);
    let ghost suf = strs_view(suffixes@);
    proof {
        assert(pre =~= scan_prefixes(*spec));
        assert(suf =~= scan_suffixes(*spec));
    }
    let mut paths: Vec<String> = Vec::new();
    let mut count: u64 = 0;
    let mut bytes: u64 = 0;
    let mut i: usize = 0;
    while i < targets.len()
        invariant
            i <= targets@.len(),
            tv == strings_view(targets@),
            tv == targets_spec(*spec, env@),
            pre == strs_view(prefixes@),
            suf == strs_view(suffixes@),
            pre == scan_prefixes(*spec),
            suf == scan_suffixes(*spec),
            scan_upto(tv, probes@, pre, suf, tv.len() as int).1 <= u64::MAX,
            scan_upto(tv, probes@, pre, suf, tv.len() as int).2 <= u64::MAX,
            strings_view(paths@) == scan_upto(tv, probes@, pre, suf, i as int).0,
            count == scan_upto(tv, probes@, pre, suf, i as int).1,
            bytes == scan_upto(tv, probes@, pre, suf, i as int).2,
        decreases targets@.len() - i,
    {
        proof {
            lemma_scan_monotone(tv, probes@, pre, suf, i + 1, tv.len() as int);
        }
        if i < probes.len() {
            let p = &probes[i];
            let missing = match p {
                PathProbe::Missing => true,
                _ => false,
            };
            if !missing {
                let (c, b) = probe_counts(p, prefixes, suffixes);
                let ghost before = paths@;
                paths.push(targets[i].clone());
                proof {
                    assert(strings_view(paths@) =~= strings_view(before).push(tv[i as int]));
                }
                count = count + c;
                bytes = bytes + b;
            }
        }
        i += 1;
    }
    (paths, count, bytes)
}

/// The scan result of a category: its definition with the paths and totals found.
pub fn junk_category(spec: &CategorySpec, paths: Vec<String>, file_count: u64, size_bytes: u64) -> (r: JunkCategory)
    ensures
        r.id@ == spec.id@,
        r.name@ == spec.name@,
        r.description@ == spec.description@,
        r.paths@ == paths@,
        r.file_count == file_count,
        r.size_bytes == size_bytes,
        r.risk@ == spec.risk@,
        r.requires_admin == spec.requires_admin,
{
    JunkCategory {
        id: spec.id.to_owned(),
        name: spec.name.to_owned(),
        description: spec.description.to_owned(),
        paths,
        file_count,
        size_bytes,
        risk: spec.risk.to_owned(),
        requires_admin: spec.requires_admin,
    }
}

impl CleanReport {
    /// An empty report for a category: nothing removed, freed, in use or failed yet.
    pub fn new(spec: &CategorySpec) -> (r: Self)
        ensures
            r.category_id@ == spec.id@,
            r.category_name@ == spec.name@,
            r.items_removed == 0,
            r.bytes_freed == 0,
            r.locked == 0,
            r.locked_paths@.len() == 0,
            r.errors@.len() == 0,
    {
        CleanReport {
            category_id: spec.id.to_owned(),
            category_name: spec.name.to_owned(),
            items_removed: 0,
            bytes_freed: 0,
            locked: 0,
            locked_paths: Vec::new(),
            errors: Vec::new(),
        }
    }
}

/// A category with name filters counts, in a directory, exactly its matching files:
/// an empty directory counts nothing, and one more file adds one file and its size
/// when its name matches and nothing when it does not (so a directory holding
/// `thumbcache_32.db` and `desktop.ini` counts only the former for the filter
/// `thumbcache_`, whether or not the category also has suffixes).
pub proof fn lemma_filtered_dir_counts_matching(
    files: Vec<FileEntry>,
    more: Vec<FileEntry>,
    f: FileEntry,
    pre: Seq<Seq<char>>,
    suf: Seq<Seq<char>>,
)
    requires
        pre.len() > 0 || suf.len() > 0,
        more@ == files@.push(f),
    ensures
        files@.len() == 0 ==> probe_totals(PathProbe::Dir(files), pre, suf) == (0nat, 0nat),
        name_matches(f.name@, pre, suf) ==> probe_totals(PathProbe::Dir(more), pre, suf) == (
            (probe_totals(PathProbe::Dir(files), pre, suf).0 + 1) as nat,
            (probe_totals(PathProbe::Dir(files), pre, suf).1 + f.size) as nat,
        ),
        !name_matches(f.name@, pre, suf) ==> probe_totals(PathProbe::Dir(more), pre, suf)
            == probe_totals(PathProbe::Dir(files), pre, suf),
{
    assert(more@.drop_last() =~= files@);
    assert(more@.last() == f);
}

/// A category without name filters counts every file of a directory, and its size.
pub proof fn lemma_unfiltered_dir_counts_all(files: Vec<FileEntry>, more: Vec<FileEntry>, f: FileEntry)
    requires
        more@ == files@.push(f),
    ensures
        probe_totals(PathProbe::Dir(more), seq![], seq![]) == (
            (probe_totals(PathProbe::Dir(files), seq![], seq![]).0 + 1) as nat,
            (probe_totals(PathProbe::Dir(files), seq![], seq![]).1 + f.size) as nat,
        ),
{
    assert(more@.drop_last() =~= files@);
}

/// A target that is a file counts that one file with its size, filters or not; a
/// missing target, or one that is neither file nor directory, counts nothing.
pub proof fn lemma_probe_file_and_missing(size: u64, pre: Seq<Seq<char>>, suf: Seq<Seq<char>>)
    ensures
        probe_totals(PathProbe::File(size), pre, suf) == (1nat, size as nat),
        probe_totals(PathProbe::Missing, pre, suf) == (0nat, 0nat),
        probe_totals(PathProbe::Other, pre, suf) == (0nat, 0nat),
{
}

} // verus!
