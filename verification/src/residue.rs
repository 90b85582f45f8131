//! Residue of an uninstalled program: files, shortcuts and registry keys it left behind.
//!
//! The caller looks at the file system and the registry; a [`ResidueScan`] decides
//! which of the things found count as residue, with which risk, and orders the report.

use vstd::prelude::*;
use crate::env::{EnvVars, expand_env, expand_env_spec};
use crate::text::{alphanumeric, chars_lt, chars_of, compare_chars, concat2, concat3, contains_chars, ends_with_chars, has_substring, is_alphanumeric, lemma_chars_lt_transitive, lemma_chars_lt_trichotomy, lowercase, starts_with_chars, to_lower, utf8_len, utf8_width_exec};
use crate::uninstall::{Hive, ResidueItem, ResidueReport, hive_name, hive_name_spec};
use crate::util::strings_view;

verus! {

broadcast use vstd::seq_lib::group_to_multiset_ensures;

/// A residue item with the given fields.
pub open spec fn item_matches(it: ResidueItem, path: Seq<char>, kind: Seq<char>, size: u64, risk: Seq<char>, note: Seq<char>) -> bool {
    &&& it.path@ == path
    &&& it.kind@ == kind
    &&& it.size_bytes == size
    &&& it.risk@ == risk
    &&& it.note@ == note
}

/// A residue item.
pub fn item(path: String, kind: &str, size: u64, risk: &str, note: &str) -> (r: ResidueItem)
    ensures
        item_matches(r, path@, kind@, size, risk@, note@),
{
    ResidueItem {
        path,
        kind: kind.to_owned(),
        size_bytes: size,
        risk: risk.to_owned(),
        note: note.to_owned(),
    }
}

// ---------------------------------------------------------------------------
// Words of a program name
// ---------------------------------------------------------------------------

/// `cur` as a word when it is at least two bytes long in UTF-8.
pub open spec fn emit_word(cur: Seq<char>) -> Seq<Seq<char>> {
    if utf8_len(cur) >= 2 {
        seq![cur]
    } else {
        seq![]
    }
}

/// The words of `s` after the partial word `cur`: maximal runs of alphanumeric
/// characters at least two UTF-8 bytes long.
pub open spec fn words_from(s: Seq<char>, cur: Seq<char>) -> Seq<Seq<char>>
    decreases s.len(),
{
    if s.len() == 0 {
        emit_word(cur)
    } else if !alphanumeric(s[0]) {
        emit_word(cur) + words_from(s.drop_first(), seq![])
    } else {
        words_from(s.drop_first(), cur.push(s[0]))
    }
}

/// The words of a (lower-cased) program name: the pieces between non-alphanumeric
/// characters that are at least two bytes long.
pub open spec fn name_words(s: Seq<char>) -> Seq<Seq<char>> {
    words_from(s, seq![])
}

/// Number of words of `words` that occur in `name`.
pub open spec fn words_found(name: Seq<char>, words: Seq<Seq<char>>) -> nat
    decreases words.len(),
{
    if words.len() == 0 {
        0
    } else {
        words_found(name, words.drop_last()) + if has_substring(name, words.last()) {
            1nat
        } else {
            0nat
        }
    }
}

/// `word_match`: at least two of the words occur in the name.
pub open spec fn word_match_spec(name: Seq<char>, words: Seq<Seq<char>>) -> bool {
    words_found(name, words) >= 2
}

/// The character sequences of a list of character vectors.
pub open spec fn words_view(w: Seq<Vec<char>>) -> Seq<Seq<char>> {
    w.map_values(|v: Vec<char>| v@)
}

/// The words of a lower-cased program name.
pub fn split_name_words(s: &[char]) -> (r: Vec<Vec<char>>)
    ensures
        words_view(r@) == name_words(s@),
{
    let mut out: Vec<Vec<char>> = Vec::new();
    let mut cur: Vec<char> = Vec::new();
    let mut cur_len: usize = 0;
    let mut i: usize = 0;
    proof {
        assert(s@.skip(0) =~= s@);
    }
    while i < s.len()
        invariant
            i <= s@.len(),
            cur_len == (if utf8_len(cur@) >= 2 { 2 } else { utf8_len(cur@) }),
            cur@.len() <= i,
            words_view(out@) + words_from(s@.skip(i as int), cur@) == name_words(s@),
        decreases s@.len() - i,
    {
        let c = s[i];
        proof {
            assert(s@.skip(i as int)[0] == c);
            assert(s@.skip(i as int).drop_first() =~= s@.skip(i + 1));
        }
        if !is_alphanumeric(c) {
            let ghost before = words_view(out@);
            if cur_len >= 2 {
                out.push(cur);
                proof {
                    assert(words_view(out@) =~= before + emit_word(out@.last()@));
                }
            } else {
                proof {
                    assert(emit_word(cur@) =~= Seq::<Seq<char>>::empty());
                    assert(words_view(out@) =~= before + emit_word(cur@));
                }
            }
            proof {
                assert(before + (emit_word(cur@) + words_from(s@.skip(i + 1), seq![])) =~= words_view(out@) + words_from(s@.skip(i + 1), seq![]));
            }
            cur = Vec::new();
            cur_len = 0;
            proof {
                assert(cur@ =~= Seq::<char>::empty());
            }
        } else {
            let w = utf8_width_exec(c);
            proof {
                assert(cur@.push(c).drop_last() =~= cur@);
            }
            cur.push(c);
            cur_len = if cur_len + w >= 2 { 2 } else { cur_len + w };
        }
        i += 1;
    }
    if cur_len >= 2 {
        out.push(cur);
    }
    out
}

/// `word_match`: whether at least two of `words` occur in `name`.
pub fn word_match(name: &[char], words: &[Vec<char>]) -> (r: bool)
    ensures
        r == word_match_spec(name@, words_view(words@)),
{
    let ghost ws = words_view(words@);
    let mut count: usize = 0;
    let mut i: usize = 0;
    while i < words.len()
        invariant
            i <= words@.len(),
            ws == words_view(words@),
            count == words_found(name@, ws.take(i as int)),
            count <= i,
        decreases words@.len() - i,
    {
        proof {
            assert(ws.take(i + 1).drop_last() =~= ws.take(i as int));
            assert(ws.take(i + 1).last() == words@[i as int]@);
        }
        if contains_chars(name, words[i].as_slice()) {
            count = count + 1;
        }
        i += 1;
    }
    proof {
        assert(ws.take(ws.len() as int) =~= ws);
    }
    count >= 2
}

/// `s` with every trailing copy of `suffix` removed (`trim_end_matches`).
pub open spec fn trim_suffix_all(s: Seq<char>, suffix: Seq<char>) -> Seq<char>
    decreases s.len(),
{
    if suffix.len() > 0 && suffix.is_suffix_of(s) {
        trim_suffix_all(s.subrange(0, s.len() - suffix.len()), suffix)
    } else {
        s
    }
}

/// Whether a start-menu or desktop file named `file_name` is a shortcut of the program
/// named `name` with words `words`: its lower-cased name ends with `.lnk`, and either
/// the program has a name and the file name without the `.lnk` endings contains it (in
/// lower case), or at least two words occur in it.
pub open spec fn is_shortcut_spec(file_name: Seq<char>, name: Seq<char>, words: Seq<Seq<char>>) -> bool {
    let f = lowercase(file_name);
    &&& ".lnk"@.is_suffix_of(f)
    &&& ((name.len() > 0 && has_substring(trim_suffix_all(f, ".lnk"@), lowercase(name)))
        || word_match_spec(f, words))
}

/// Removes every trailing `.lnk`.
fn trim_lnk(v: &[char]) -> (r: Vec<char>)
    ensures
        r@ == trim_suffix_all(v@, ".lnk"@),
{
    let lnk = chars_of(".lnk");
    proof {
        reveal_strlit(".lnk");
        assert(v@.subrange(0, v@.len() as int) =~= v@);
    }
    let mut end: usize = v.len();
    loop
        invariant
            end <= v@.len(),
            lnk@ == ".lnk"@,
            trim_suffix_all(v@, ".lnk"@) == trim_suffix_all(v@.subrange(0, end as int), ".lnk"@),
        decreases end,
    {
        let cur = &v[0..end];
        proof {
            reveal_strlit(".lnk");
        }
        if ends_with_chars(cur, lnk.as_slice()) {
            assert(lnk@.len() == 4);
            assert(end >= 4);
            proof {
                assert(cur@ =~= v@.subrange(0, end as int));
                assert(cur@.subrange(0, end - 4) =~= v@.subrange(0, end - 4));
            }
            end = end - 4;
        } else {
            proof {
                assert(cur@ =~= v@.subrange(0, end as int));
            }
            let mut r: Vec<char> = Vec::new();
            let mut i: usize = 0;
            while i < end
                invariant
                    i <= end <= v@.len(),
                    r@ == v@.subrange(0, i as int),
                decreases end - i,
            {
                r.push(v[i]);
                i += 1;
                proof {
                    assert(v@.subrange(0, i as int) =~= v@.subrange(0, i - 1).push(v@[i - 1]));
                }
            }
            return r;
        }
    }
}

// ---------------------------------------------------------------------------
// Risk levels, kinds and notes
// ---------------------------------------------------------------------------

/// Note of the install directory.
pub open spec fn note_install_dir() -> Seq<char> {
    "安装目录（请确认软件已卸载后再删除）"@
}

/// Note of a shortcut.
pub open spec fn note_shortcut() -> Seq<char> {
    "快捷方式"@
}

/// Note of a publisher directory.
pub open spec fn note_publisher_dir() -> Seq<char> {
    "发布者目录（可能被同厂商其他软件共用，删除前请仔细确认）"@
}

/// Note of an application data directory.
pub open spec fn note_data_dir() -> Seq<char> {
    "应用数据目录（卸载后遗留的配置与数据）"@
}

/// Note of a publisher registry key.
pub open spec fn note_publisher_key() -> Seq<char> {
    "发布者注册表键（可能被其他软件共用）"@
}

/// Note of a program registry key.
pub open spec fn note_software_key() -> Seq<char> {
    "软件注册表键"@
}

/// Note of an App Paths entry.
pub open spec fn note_app_paths() -> Seq<char> {
    "App Paths 注册表项"@
}

/// Note of the uninstall key itself.
pub open spec fn note_uninstall_key() -> Seq<char> {
    "卸载注册表项（若软件仍在使用，请勿删除）"@
}

/// The place of a kind in the report: directories, files, shortcuts, registry keys,
/// then anything else.
pub open spec fn kind_rank(k: Seq<char>) -> nat {
    if k == "dir"@ {
        0
    } else if k == "file"@ {
        1
    } else if k == "shortcut"@ {
        2
    } else if k == "registry_key"@ {
        3
    } else {
        4
    }
}

/// The place of a kind in the report.
fn kind_rank_exec(k: &str) -> (r: u8)
    ensures
        r == kind_rank(k@),
{
    let v = chars_of(k);
    let d = chars_of("dir");
    let f = chars_of("file");
    let s = chars_of("shortcut");
    let rk = chars_of("registry_key");
    if compare_chars(v.as_slice(), d.as_slice()) == 0 {
        0
    } else if compare_chars(v.as_slice(), f.as_slice()) == 0 {
        1
    } else if compare_chars(v.as_slice(), s.as_slice()) == 0 {
        2
    } else if compare_chars(v.as_slice(), rk.as_slice()) == 0 {
        3
    } else {
        4
    }
}

/// What the caller found at a candidate path.
pub enum PathInfo {
    /// Nothing is there.
    Missing,
    /// A directory whose files take this many bytes.
    Dir(u64),
    /// Something else (a file) of this size (0 when unknown).
    File(u64),
}

// ---------------------------------------------------------------------------
// Paths
// ---------------------------------------------------------------------------

/// What `Path::join` followed by `display` gives for a base directory and a name, on
/// the platform the library is built for.
pub uninterp spec fn path_join(base: Seq<char>, name: Seq<char>) -> Seq<char>;

/// `Path::new(base).join(name).display().to_string()`: the result is named `path_join`.
#[verifier::external_body]
fn join_path(base: &str, name: &str) -> (r: String)
    ensures
        r@ == path_join(base@, name@),
{
    std::path::Path::new(base).join(name).display().to_string()
}

/// The registry path under which App Paths entries live.
pub open spec fn app_paths_key() -> Seq<char> {
    "SOFTWARE\\Microsoft\\Windows\\CurrentVersion\\App Paths"@
}

// ---------------------------------------------------------------------------
// The collection of residue items
// ---------------------------------------------------------------------------

/// Items are told apart by path and kind.
pub open spec fn item_key(it: ResidueItem) -> (Seq<char>, Seq<char>) {
    (it.path@, it.kind@)
}

/// No two items share a path and kind.
pub open spec fn keys_distinct(items: Seq<ResidueItem>) -> bool {
    forall|i: int, j: int| 0 <= i < j < items.len() ==> item_key(#[trigger] items[i]) != item_key(#[trigger] items[j])
}

/// Whether an item with the same path and kind is present.
pub open spec fn has_key(items: Seq<ResidueItem>, it: ResidueItem) -> bool {
    exists|j: int| 0 <= j < items.len() && item_key(#[trigger] items[j]) == item_key(it)
}

/// Adding an item: it is appended unless an item with its path and kind is present.
pub open spec fn add_item(items: Seq<ResidueItem>, it: ResidueItem) -> Seq<ResidueItem> {
    if has_key(items, it) {
        items
    } else {
        items.push(it)
    }
}

/// Total size of the items.
pub open spec fn sizes_sum(items: Seq<ResidueItem>) -> nat
    decreases items.len(),
{
    if items.len() == 0 {
        0
    } else {
        sizes_sum(items.drop_last()) + items.last().size_bytes as nat
    }
}

/// Adding an item to `items` gives a sequence whose last element, when it is new, has
/// the given fields.
pub open spec fn added(old_items: Seq<ResidueItem>, new_items: Seq<ResidueItem>, path: Seq<char>, kind: Seq<char>, size: u64, risk: Seq<char>, note: Seq<char>) -> bool {
    if exists|j: int| 0 <= j < old_items.len() && item_key(#[trigger] old_items[j]) == (path, kind) {
        new_items == old_items
    } else {
        new_items.len() == old_items.len() + 1 && new_items.drop_last() == old_items && item_matches(
            new_items.last(),
            path,
            kind,
            size,
            risk,
            note,
        )
    }
}

/// Whether an item with the path and kind of `it` is present.
fn contains_key(items: &Vec<ResidueItem>, it: &ResidueItem) -> (r: bool)
    ensures
        r == has_key(items@, *it),
{
    let mut j: usize = 0;
    while j < items.len()
        invariant
            j <= items@.len(),
            forall|k: int| 0 <= k < j ==> item_key(#[trigger] items@[k]) != item_key(*it),
        decreases items@.len() - j,
    {
        if items[j].path == it.path && items[j].kind == it.kind {
            proof {
                assert(item_key(items@[j as int]) == item_key(*it));
            }
            return true;
        }
        j += 1;
    }
    false
}


/// The kind of item for what was found at a path.
pub open spec fn info_kind(info: PathInfo) -> Seq<char> {
    match info {
        PathInfo::Dir(_) => "dir"@,
        _ => "file"@,
    }
}

/// The size of what was found at a path.
pub open spec fn info_size(info: PathInfo) -> u64 {
    match info {
        PathInfo::Dir(n) => n,
        PathInfo::File(n) => n,
        PathInfo::Missing => 0,
    }
}

/// The characters of an optional string slice.
pub open spec fn opt_view(o: Option<&str>) -> Option<Seq<char>> {
    match o {
        Some(s) => Some(s@),
        None => None,
    }
}

/// `base` joined with `name`, when `base` is known.
pub open spec fn opt_map_join(base: Option<Seq<char>>, name: Seq<char>) -> Option<Seq<char>> {
    match base {
        Some(b) => Some(path_join(b, name)),
        None => None,
    }
}

/// `base\name`, when `base` is known.
pub open spec fn opt_map_backslash(base: Option<Seq<char>>, name: Seq<char>) -> Option<Seq<char>> {
    match base {
        Some(b) => Some(b + "\\"@ + name),
        None => None,
    }
}

/// Appends `(p, high)` when `p` is known.
pub open spec fn opt_push(acc: Seq<(Seq<char>, bool)>, p: Option<Seq<char>>, high: bool) -> Seq<(Seq<char>, bool)> {
    match p {
        Some(x) => acc.push((x, high)),
        None => acc,
    }
}

/// The candidate directories of step 3, in order, with whether each is a publisher
/// directory: those named after the program only when it has a name, those named after
/// the publisher only when it has one.
pub open spec fn candidates_spec(
    data: Option<Seq<char>>,
    local: Option<Seq<char>>,
    program_data: Option<Seq<char>>,
    name: Seq<char>,
    publisher: Seq<char>,
) -> Seq<(Seq<char>, bool)> {
    let s0 = opt_push(seq![], opt_map_join(data, name), false);
    let s1 = opt_push(s0, opt_map_join(local, name), false);
    let s2 = opt_push(s1, opt_map_backslash(program_data, name), false);
    let s3 = s2.push(("C:\\Program Files\\"@ + name, false)).push(("C:\\Program Files (x86)\\"@ + name, false));
    let named = if name.len() > 0 { s3 } else { seq![] };
    if publisher.len() > 0 {
        let s4 = opt_push(named, opt_map_join(data, publisher), true);
        opt_push(s4, opt_map_join(local, publisher), true)
    } else {
        named
    }
}

/// The characters of (path, flag) pairs.
pub open spec fn pairs_view(v: Seq<(String, bool)>) -> Seq<(Seq<char>, bool)> {
    v.map_values(|p: (String, bool)| (p.0@, p.1))
}

/// The characters of (hive, path, flag) triples.
pub open spec fn keys_view(v: Seq<(Hive, String, bool)>) -> Seq<(Hive, Seq<char>, bool)> {
    v.map_values(|p: (Hive, String, bool)| (p.0, p.1@, p.2))
}

/// The hive of the `k`-th `SOFTWARE` root of step 4.
pub open spec fn software_hive(k: int) -> Hive {
    if k == 2 {
        Hive::CurrentUser
    } else {
        Hive::LocalMachine
    }
}

/// The path of the `k`-th `SOFTWARE` root of step 4.
pub open spec fn software_prefix(k: int) -> Seq<char> {
    if k == 1 {
        "SOFTWARE\\WOW6432Node"@
    } else {
        "SOFTWARE"@
    }
}

/// The keys that root `k` adds in step 4.
pub open spec fn software_step(acc: Seq<(Hive, Seq<char>, bool)>, name: Seq<char>, publisher: Seq<char>, k: int) -> Seq<
    (Hive, Seq<char>, bool),
> {
    let a = if name.len() > 0 {
        acc.push((software_hive(k), software_prefix(k) + "\\"@ + name, false))
    } else {
        acc
    };
    if publisher.len() > 0 && lowercase(publisher) != lowercase(name) {
        a.push((software_hive(k), software_prefix(k) + "\\"@ + publisher, true))
    } else {
        a
    }
}

/// The keys of the first `n` roots of step 4.
pub open spec fn software_keys_upto(name: Seq<char>, publisher: Seq<char>, n: int) -> Seq<(Hive, Seq<char>, bool)>
    decreases n,
{
    if n <= 0 {
        seq![]
    } else {
        software_step(software_keys_upto(name, publisher, n - 1), name, publisher, n - 1)
    }
}

/// The registry keys of step 4, with whether each is a publisher key.
pub open spec fn software_keys_spec(name: Seq<char>, publisher: Seq<char>) -> Seq<(Hive, Seq<char>, bool)> {
    software_keys_upto(name, publisher, 3)
}

/// Whether an App Paths target (already expanded) belongs to the program.
pub open spec fn app_path_related_spec(target: Seq<char>, install_dir: Seq<char>, name: Seq<char>) -> bool {
    ||| install_dir.len() > 0 && lowercase(install_dir).is_prefix_of(lowercase(target))
    ||| name.len() > 0 && has_substring(lowercase(target), lowercase(name))
}


/// An App Paths entry whose (expanded) target lies under the program's install
/// directory, compared without case, belongs to the program, whatever its name; and
/// one whose target contains the program's (non-empty) name, without case, does too;
/// no other entry does.
pub proof fn lemma_app_path_under_install_dir(target: Seq<char>, install_dir: Seq<char>, name: Seq<char>)
    ensures
        install_dir.len() > 0 && lowercase(install_dir).is_prefix_of(lowercase(target))
            ==> app_path_related_spec(target, install_dir, name),
        name.len() > 0 && has_substring(lowercase(target), lowercase(name)) ==> app_path_related_spec(
            target,
            install_dir,
            name,
        ),
        install_dir.len() == 0 && name.len() == 0 ==> !app_path_related_spec(target, install_dir, name),
        app_path_related_spec(target, install_dir, name) ==> (install_dir.len() > 0 && lowercase(
            install_dir,
        ).is_prefix_of(lowercase(target))) || (name.len() > 0 && has_substring(lowercase(target), lowercase(name))),
{
}

/// The order of the report: by kind rank, then by path.
pub open spec fn item_before(a: ResidueItem, b: ResidueItem) -> bool {
    ||| kind_rank(a.kind@) < kind_rank(b.kind@)
    ||| kind_rank(a.kind@) == kind_rank(b.kind@) && chars_lt(a.path@, b.path@)
}

/// Where a stable sort puts `x` into the sorted `s`: after every element not after it.
pub open spec fn item_insert_pos(s: Seq<ResidueItem>, x: ResidueItem) -> int
    decreases s.len(),
{
    if s.len() == 0 {
        0
    } else if item_before(x, s.last()) {
        item_insert_pos(s.drop_last(), x)
    } else {
        s.len() as int
    }
}

/// The items in a stable sort by kind rank and path (the order of `sort_by` with that
/// comparison).
pub open spec fn sort_items_spec(s: Seq<ResidueItem>) -> Seq<ResidueItem>
    decreases s.len(),
{
    if s.len() == 0 {
        s
    } else {
        let r = sort_items_spec(s.drop_last());
        r.insert(item_insert_pos(r, s.last()), s.last())
    }
}

/// No item comes after a later one.
pub open spec fn items_sorted(s: Seq<ResidueItem>) -> bool {
    forall|i: int, j: int| 0 <= i < j < s.len() ==> !item_before(#[trigger] s[j], #[trigger] s[i])
}

/// `item_before` is a strict order that is total up to equal rank and path.
proof fn lemma_item_order(a: ResidueItem, b: ResidueItem, c: ResidueItem)
    ensures
        !(item_before(a, b) && item_before(b, a)),
        item_before(a, b) && item_before(b, c) ==> item_before(a, c),
        !item_before(a, b) && !item_before(b, a) ==> kind_rank(a.kind@) == kind_rank(b.kind@) && a.path@ == b.path@,
        !item_before(a, b) && item_before(c, b) ==> item_before(c, a) || (kind_rank(a.kind@) == kind_rank(c.kind@) && a.path@ == c.path@) || item_before(c, a),
{
    lemma_chars_lt_trichotomy(a.path@, b.path@);
    lemma_chars_lt_trichotomy(b.path@, c.path@);
    lemma_chars_lt_trichotomy(a.path@, c.path@);
    if chars_lt(a.path@, b.path@) && chars_lt(b.path@, c.path@) {
        lemma_chars_lt_transitive(a.path@, b.path@, c.path@);
    }
    if chars_lt(c.path@, b.path@) && chars_lt(b.path@, a.path@) {
        lemma_chars_lt_transitive(c.path@, b.path@, a.path@);
    }
}

/// The position of `item_insert_pos` in a sorted sequence.
proof fn lemma_item_insert_pos(s: Seq<ResidueItem>, x: ResidueItem)
    requires
        items_sorted(s),
    ensures
        0 <= item_insert_pos(s, x) <= s.len(),
        forall|i: int| 0 <= i < item_insert_pos(s, x) ==> !item_before(x, #[trigger] s[i]),
        forall|i: int| item_insert_pos(s, x) <= i < s.len() ==> item_before(x, #[trigger] s[i]),
    decreases s.len(),
{
    if s.len() > 0 {
        let t = s.drop_last();
        assert forall|i: int, j: int| 0 <= i < j < t.len() implies !item_before(#[trigger] t[j], #[trigger] t[i]) by {
            assert(t[i] == s[i] && t[j] == s[j]);
        }
        lemma_item_insert_pos(t, x);
        if item_before(x, s.last()) {
            assert forall|i: int| item_insert_pos(s, x) <= i < s.len() implies item_before(x, #[trigger] s[i]) by {
                if i < s.len() - 1 {
                    assert(s[i] == t[i]);
                }
            }
            assert forall|i: int| 0 <= i < item_insert_pos(s, x) implies !item_before(x, #[trigger] s[i]) by {
                assert(s[i] == t[i]);
            }
        } else {
            assert forall|i: int| 0 <= i < s.len() implies !item_before(x, #[trigger] s[i]) by {
                if i < s.len() - 1 {
                    assert(!item_before(s.last(), s[i]));
                    lemma_item_order(x, s[i], s.last());
                    lemma_item_order(s[i], s.last(), x);
                    lemma_item_order(x, s.last(), s[i]);
                    lemma_chars_lt_trichotomy(x.path@, s[i].path@);
                    lemma_chars_lt_trichotomy(s[i].path@, s.last().path@);
                    if chars_lt(x.path@, s[i].path@) && chars_lt(s[i].path@, s.last().path@) {
                        lemma_chars_lt_transitive(x.path@, s[i].path@, s.last().path@);
                    }
                }
            }
        }
    }
}

/// Inserting an item adds its size to the total.
proof fn lemma_sizes_insert(s: Seq<ResidueItem>, p: int, x: ResidueItem)
    requires
        0 <= p <= s.len(),
    ensures
        sizes_sum(s.insert(p, x)) == sizes_sum(s) + x.size_bytes,
    decreases s.len(),
{
    if p == s.len() {
        assert(s.insert(p, x).drop_last() =~= s);
    } else {
        lemma_sizes_insert(s.drop_last(), p, x);
        assert(s.insert(p, x).drop_last() =~= s.drop_last().insert(p, x));
        assert(s.insert(p, x).last() == s.last());
    }
}

/// The report order sorts the items, keeps every item, keeps items distinct by path
/// and kind, and keeps the total size.
pub proof fn lemma_sort_items(s: Seq<ResidueItem>)
    ensures
        items_sorted(sort_items_spec(s)),
        sort_items_spec(s).to_multiset() == s.to_multiset(),
        sort_items_spec(s).len() == s.len(),
        sizes_sum(sort_items_spec(s)) == sizes_sum(s),
        keys_distinct(s) ==> keys_distinct(sort_items_spec(s)),
    decreases s.len(),
{
    if s.len() > 0 {
        let t = s.drop_last();
        let x = s.last();
        lemma_sort_items(t);
        let r = sort_items_spec(t);
        lemma_item_insert_pos(r, x);
        let p = item_insert_pos(r, x);
        let q = r.insert(p, x);
        assert forall|i: int, j: int| 0 <= i < j < q.len() implies !item_before(#[trigger] q[j], #[trigger] q[i]) by {
            if j < p {
                assert(q[i] == r[i] && q[j] == r[j]);
            } else if j == p {
                assert(q[i] == r[i]);
            } else if i == p {
                assert(q[j] == r[j - 1]);
                lemma_item_order(x, r[j - 1], x);
            } else if i < p {
                assert(q[i] == r[i] && q[j] == r[j - 1]);
            } else {
                assert(q[i] == r[i - 1] && q[j] == r[j - 1]);
            }
        }
        assert(s =~= t.push(x));
        lemma_sizes_insert(r, p, x);
        if keys_distinct(s) {
            assert forall|i: int, j: int| 0 <= i < j < t.len() implies item_key(#[trigger] t[i]) != item_key(#[trigger] t[j]) by {
                assert(t[i] == s[i] && t[j] == s[j]);
            }
            assert forall|k: int| 0 <= k < r.len() implies item_key(#[trigger] r[k]) != item_key(x) by {
                assert(r.to_multiset().count(r[k]) > 0);
                assert(t.to_multiset().count(r[k]) > 0);
                assert(t.contains(r[k]));
                let m: int = choose|m: int| 0 <= m < t.len() && t[m] == r[k];
                assert(s[m] == t[m]);
                assert(item_key(s[m]) != item_key(s[s.len() - 1]));
            }
            assert forall|i: int, j: int| 0 <= i < j < q.len() implies item_key(#[trigger] q[i]) != item_key(#[trigger] q[j]) by {
                if j < p {
                    assert(q[i] == r[i] && q[j] == r[j]);
                } else if j == p {
                    assert(q[i] == r[i]);
                } else if i == p {
                    assert(q[j] == r[j - 1]);
                } else if i < p {
                    assert(q[i] == r[i] && q[j] == r[j - 1]);
                } else {
                    assert(q[i] == r[i - 1] && q[j] == r[j - 1]);
                }
            }
        }
    }
}

/// Whether `a` comes before `b` in the report.
fn item_before_exec(a: &ResidueItem, b: &ResidueItem) -> (r: bool)
    ensures
        r == item_before(*a, *b),
{
    let ra = kind_rank_exec(a.kind.as_str());
    let rb = kind_rank_exec(b.kind.as_str());
    if ra != rb {
        ra < rb
    } else {
        let pa = chars_of(a.path.as_str());
        let pb = chars_of(b.path.as_str());
        compare_chars(pa.as_slice(), pb.as_slice()) == -1
    }
}

/// Sorts residue items by kind rank, then path, keeping the order among equals.
pub fn sort_items(items: Vec<ResidueItem>) -> (r: Vec<ResidueItem>)
    ensures
        r@ == sort_items_spec(items@),
{
    let ghost s = items@;
    let mut rest = items;
    let mut res: Vec<ResidueItem> = Vec::new();
    let mut n: usize = 0;
    assert(s.len() == rest.len());
    while rest.len() > 0
        invariant
            s.len() <= usize::MAX,
            n + rest@.len() == s.len(),
            rest@ == s.skip(n as int),
            res@ == sort_items_spec(s.take(n as int)),
        decreases rest@.len(),
    {
        let x = rest.remove(0);
        let ghost r0 = res@;
        let mut p: usize = res.len();
        proof {
            assert(r0.take(r0.len() as int) =~= r0);
        }
        while p > 0 && item_before_exec(&x, &res[p - 1])
            invariant
                p <= r0.len(),
                res@ == r0,
                item_insert_pos(r0, x) == item_insert_pos(r0.take(p as int), x),
            decreases p,
        {
            proof {
                let t = r0.take(p as int);
                assert(t.last() == r0[p - 1]);
                assert(t.drop_last() =~= r0.take(p - 1));
            }
            p -= 1;
        }
        proof {
            let t = r0.take(p as int);
            if p > 0 {
                assert(t.last() == r0[p - 1]);
            }
            assert(item_insert_pos(t, x) == p);
            assert(s.take(n + 1).drop_last() =~= s.take(n as int));
            assert(s.take(n + 1).last() == x);
        }
        res.insert(p, x);
        n += 1;
        proof {
            assert(rest@ =~= s.skip(n as int));
        }
    }
    proof {
        assert(s.take(s.len() as int) =~= s);
    }
    res
}

/// Whether `p` is a place named after the publisher `publisher`: a directory joined
/// with it, or its key under one of the `SOFTWARE` roots of step 4.
pub open spec fn publisher_location(p: Seq<char>, publisher: Seq<char>) -> bool {
    &&& publisher.len() > 0
    &&& {
        ||| exists|b: Seq<char>| #[trigger] path_join(b, publisher) == p
        ||| exists|k: int|
            0 <= k < 3 && p == hive_name_spec(software_hive(k)) + "\\"@ + #[trigger] software_prefix(k) + "\\"@ + publisher
    }
}

/// Every directory flagged as a publisher directory is `publisher` joined to a base.
pub open spec fn dirs_flagged_ok(dirs: Seq<(Seq<char>, bool)>, publisher: Seq<char>) -> bool {
    forall|i: int|
        0 <= i < dirs.len() && (#[trigger] dirs[i]).1 ==> publisher.len() > 0 && exists|b: Seq<char>|
            #[trigger] path_join(b, publisher) == dirs[i].0
}

/// Every key flagged as a publisher key is the publisher's key under one of the
/// `SOFTWARE` roots, in that root's hive.
pub open spec fn keys_flagged_ok(keys: Seq<(Hive, Seq<char>, bool)>, publisher: Seq<char>) -> bool {
    forall|i: int|
        0 <= i < keys.len() && (#[trigger] keys[i]).2 ==> publisher.len() > 0 && exists|k: int|
            0 <= k < 3 && keys[i].0 == software_hive(k) && keys[i].1 == #[trigger] software_prefix(k) + "\\"@ + publisher
}

/// The kinds a residue scan reports: directories, files, shortcuts and registry keys.
pub open spec fn known_kind(k: Seq<char>) -> bool {
    k == "dir"@ || k == "file"@ || k == "shortcut"@ || k == "registry_key"@
}

/// Every item is of a kind the scan reports.
pub open spec fn kinds_ok(items: Seq<ResidueItem>) -> bool {
    forall|i: int| 0 <= i < items.len() ==> known_kind(#[trigger] items[i].kind@)
}

/// Every `high` risk item lies at a publisher location.
pub open spec fn high_items_ok(items: Seq<ResidueItem>, publisher: Seq<char>) -> bool {
    forall|i: int| 0 <= i < items.len() && (#[trigger] items[i]).risk@ == "high"@ ==> publisher_location(items[i].path@, publisher)
}

/// A copy of a list of (path, flag) pairs.
fn copy_pairs(v: &Vec<(String, bool)>) -> (r: Vec<(String, bool)>)
    ensures
        pairs_view(r@) == pairs_view(v@),
{
    let mut r: Vec<(String, bool)> = Vec::new();
    let mut i: usize = 0;
    while i < v.len()
        invariant
            i <= v.len(),
            r@.len() == i,
            forall|j: int| 0 <= j < i ==> (#[trigger] r@[j]).0@ == v@[j].0@ && r@[j].1 == v@[j].1,
        decreases v.len() - i,
    {
        let p = v[i].0.clone();
        let f = v[i].1;
        r.push((p, f));
        i += 1;
    }
    proof {
        assert(pairs_view(r@) =~= pairs_view(v@));
    }
    r
}

/// A copy of a list of (hive, path, flag) triples.
fn copy_keys(v: &Vec<(Hive, String, bool)>) -> (r: Vec<(Hive, String, bool)>)
    ensures
        keys_view(r@) == keys_view(v@),
{
    let mut r: Vec<(Hive, String, bool)> = Vec::new();
    let mut i: usize = 0;
    while i < v.len()
        invariant
            i <= v.len(),
            r@.len() == i,
            forall|j: int| 0 <= j < i ==> (#[trigger] r@[j]).0 == v@[j].0 && r@[j].1@ == v@[j].1@ && r@[j].2 == v@[j].2,
        decreases v.len() - i,
    {
        let h = v[i].0;
        let p = v[i].1.clone();
        let f = v[i].2;
        r.push((h, p, f));
        i += 1;
    }
    proof {
        assert(keys_view(r@) =~= keys_view(v@));
    }
    r
}

/// The three risk words differ.
proof fn lemma_risk_words()
    ensures
        "low"@ != "high"@,
        "medium"@ != "high"@,
        "low"@ != "medium"@,
{
    reveal_strlit("low");
    reveal_strlit("medium");
    reveal_strlit("high");
    assert("low"@[0] != "high"@[0]);
    assert("medium"@[0] != "high"@[0]);
    assert("low"@[0] != "medium"@[0]);
}

/// State of a residue scan of one program.
pub struct ResidueScan {
    app_key: String,
    name: String,
    publisher: String,
    name_lower: Vec<char>,
    words: Vec<Vec<char>>,
    install_dir: String,
    dirs: Vec<(String, bool)>,
    keys: Vec<(Hive, String, bool)>,
    items: Vec<ResidueItem>,
    total: u64,
}

impl ResidueScan {
    /// The uninstall key of the program.
    pub closed spec fn app_key_spec(&self) -> Seq<char> {
        self.app_key@
    }

    /// The program's name.
    pub closed spec fn name_spec(&self) -> Seq<char> {
        self.name@
    }

    /// The program's publisher.
    pub closed spec fn publisher_spec(&self) -> Seq<char> {
        self.publisher@
    }

    /// The expanded install location.
    pub closed spec fn install_dir_spec(&self) -> Seq<char> {
        self.install_dir@
    }

    /// The items found so far.
    pub closed spec fn items_spec(&self) -> Seq<ResidueItem> {
        self.items@
    }

    /// The candidate directories of step 3, once listed.
    pub closed spec fn dirs_spec(&self) -> Seq<(Seq<char>, bool)> {
        pairs_view(self.dirs@)
    }

    /// The registry keys of step 4, once listed.
    pub closed spec fn keys_spec(&self) -> Seq<(Hive, Seq<char>, bool)> {
        keys_view(self.keys@)
    }

    /// The invariant of a scan: cached name forms match the name, items are distinct by
    /// path and kind, the running total is their total size, and whatever is flagged
    /// as the publisher's (listed directories and keys, `high` risk items) is named
    /// after the publisher, and every item is of a kind the scan reports.
    pub closed spec fn wf(&self) -> bool {
        &&& self.name_lower@ == lowercase(self.name@)
        &&& words_view(self.words@) == name_words(lowercase(self.name@))
        &&& keys_distinct(self.items@)
        &&& self.total == sizes_sum(self.items@)
        &&& dirs_flagged_ok(pairs_view(self.dirs@), self.publisher@)
        &&& keys_flagged_ok(keys_view(self.keys@), self.publisher@)
        &&& high_items_ok(self.items@, self.publisher@)
        &&& kinds_ok(self.items@)
    }

    /// Starts the scan of the program with uninstall key `app_key`, display name `name`,
    /// publisher `publisher` and install location `install_location` (expanded against
    /// `env`).
    pub fn new(app_key: String, name: String, publisher: String, install_location: &str, env: &EnvVars) -> (r: Self)
        ensures
            r.wf(),
            r.app_key_spec() == app_key@,
            r.name_spec() == name@,
            r.publisher_spec() == publisher@,
            r.install_dir_spec() == expand_env_spec(install_location@, env@),
            r.items_spec() == Seq::<ResidueItem>::empty(),
            r.dirs_spec() == Seq::<(Seq<char>, bool)>::empty(),
            r.keys_spec() == Seq::<(Hive, Seq<char>, bool)>::empty(),
    {
        let lower = to_lower(name.as_str());
        let name_lower = chars_of(lower.as_str());
        let words = split_name_words(name_lower.as_slice());
        let install_dir = expand_env(install_location, env);
        let r = ResidueScan {
            app_key,
            name,
            publisher,
            name_lower,
            words,
            install_dir,
            dirs: Vec::new(),
            keys: Vec::new(),
            items: Vec::new(),
            total: 0,
        };
        proof {
            assert(pairs_view(r.dirs@) =~= Seq::<(Seq<char>, bool)>::empty());
            assert(keys_view(r.keys@) =~= Seq::<(Hive, Seq<char>, bool)>::empty());
        }
        r
    }

    /// The expanded install location.
    pub fn install_dir(&self) -> (r: &String)
        ensures
            r@ == self.install_dir_spec(),
    {
        &self.install_dir
    }

    /// The total size of the items found so far.
    pub fn total_size(&self) -> (r: u64)
        requires
            self.wf(),
        ensures
            r == sizes_sum(self.items_spec()),
    {
        self.total
    }

    /// Adds an item unless one with its path and kind is present.
    fn push(&mut self, it: ResidueItem)
        requires
            old(self).wf(),
            sizes_sum(old(self).items@) + it.size_bytes <= u64::MAX,
            it.risk@ == "high"@ ==> publisher_location(it.path@, old(self).publisher@),
            known_kind(it.kind@),
        ensures
            final(self).wf(),
            final(self).items@ == add_item(old(self).items@, it),
            final(self).app_key == old(self).app_key,
            final(self).name == old(self).name,
            final(self).publisher == old(self).publisher,
            final(self).install_dir == old(self).install_dir,
            final(self).dirs == old(self).dirs,
            final(self).keys == old(self).keys,
    {
        if contains_key(&self.items, &it) {
            return;
        }
        let ghost before = self.items@;
        self.total = self.total + it.size_bytes;
        self.items.push(it);
        proof {
            assert(self.items@.drop_last() =~= before);
            assert forall|a: int, b: int| 0 <= a < b < self.items@.len() implies item_key(#[trigger] self.items@[a]) != item_key(#[trigger] self.items@[b]) by {
                if b < before.len() {
                    assert(self.items@[a] == before[a] && self.items@[b] == before[b]);
                } else {
                    assert(self.items@[a] == before[a]);
                }
            }
            assert forall|i: int| 0 <= i < self.items@.len() && (#[trigger] self.items@[i]).risk@ == "high"@ implies publisher_location(self.items@[i].path@, self.publisher@) by {
                if i < before.len() {
                    assert(self.items@[i] == before[i]);
                }
            }
            assert forall|i: int| 0 <= i < self.items@.len() implies known_kind(#[trigger] self.items@[i].kind@) by {
                if i < before.len() {
                    assert(self.items@[i] == before[i]);
                }
            }
        }
    }

    /// Adds an item with the given fields unless one with its path and kind is present.
    fn add(&mut self, path: String, kind: &str, size: u64, risk: &str, note: &str)
        requires
            old(self).wf(),
            sizes_sum(old(self).items@) + size <= u64::MAX,
            risk@ == "high"@ ==> publisher_location(path@, old(self).publisher@),
            known_kind(kind@),
        ensures
            final(self).wf(),
            added(old(self).items@, final(self).items@, path@, kind@, size, risk@, note@),
            final(self).app_key == old(self).app_key,
            final(self).name == old(self).name,
            final(self).publisher == old(self).publisher,
            final(self).install_dir == old(self).install_dir,
            final(self).dirs == old(self).dirs,
            final(self).keys == old(self).keys,
    {
        let ghost p = path@;
        let it = item(path, kind, size, risk, note);
        let ghost before = self.items@;
        proof {
            assert(item_key(it) == (p, kind@));
        }
        self.push(it);
        proof {
            if !has_key(before, it) {
                assert(self.items@.drop_last() =~= before);
            } else {
                let j: int = choose|j: int| 0 <= j < before.len() && item_key(#[trigger] before[j]) == item_key(it);
                assert(item_key(before[j]) == (p, kind@));
            }
        }
    }

    /// Step 1: the install directory, when the expanded install location is not empty
    /// and something is there (`medium` risk).
    pub fn add_install_dir(&mut self, info: PathInfo)
        requires
            old(self).wf(),
            sizes_sum(old(self).items_spec()) + info_size(info) <= u64::MAX,
        ensures
            final(self).wf(),
            final(self).app_key_spec() == old(self).app_key_spec(),
            final(self).name_spec() == old(self).name_spec(),
            final(self).publisher_spec() == old(self).publisher_spec(),
            final(self).install_dir_spec() == old(self).install_dir_spec(),
            final(self).dirs_spec() == old(self).dirs_spec(),
            final(self).keys_spec() == old(self).keys_spec(),
            if old(self).install_dir_spec().len() > 0 && !(info is Missing) {
                added(
                    old(self).items_spec(),
                    final(self).items_spec(),
                    old(self).install_dir_spec(),
                    info_kind(info),
                    info_size(info),
                    "medium"@,
                    note_install_dir(),
                )
            } else {
                final(self).items_spec() == old(self).items_spec()
            },
    {
        proof {
            lemma_risk_words();
        }
        if self.install_dir.as_str().is_empty() {
            return;
        }
        match info {
            PathInfo::Missing => {},
            PathInfo::Dir(size) => {
                let p = self.install_dir.clone();
                self.add(p, "dir", size, "medium", "安装目录（请确认软件已卸载后再删除）");
            },
            PathInfo::File(size) => {
                let p = self.install_dir.clone();
                self.add(p, "file", size, "medium", "安装目录（请确认软件已卸载后再删除）");
            },
        }
    }

    /// Step 2: a start-menu or desktop file, added as a shortcut (`low` risk) when it is
    /// one of the program's (`is_shortcut_spec`). Returns whether it is.
    pub fn add_shortcut(&mut self, file_name: &str, path: String) -> (matched: bool)
        requires
            old(self).wf(),
        ensures
            final(self).wf(),
            matched == is_shortcut_spec(file_name@, old(self).name_spec(), name_words(lowercase(old(self).name_spec()))),
            final(self).app_key_spec() == old(self).app_key_spec(),
            final(self).name_spec() == old(self).name_spec(),
            final(self).publisher_spec() == old(self).publisher_spec(),
            final(self).install_dir_spec() == old(self).install_dir_spec(),
            final(self).dirs_spec() == old(self).dirs_spec(),
            final(self).keys_spec() == old(self).keys_spec(),
            if matched {
                added(old(self).items_spec(), final(self).items_spec(), path@, "shortcut"@, 0, "low"@, note_shortcut())
            } else {
                final(self).items_spec() == old(self).items_spec()
            },
    {
        proof {
            lemma_risk_words();
        }
        let lf = to_lower(file_name);
        let f = chars_of(lf.as_str());
        let lnk = chars_of(".lnk");
        if !ends_with_chars(f.as_slice(), lnk.as_slice()) {
            return false;
        }
        let no_ext = trim_lnk(f.as_slice());
        let by_name = !self.name.as_str().is_empty() && contains_chars(
            no_ext.as_slice(),
            self.name_lower.as_slice(),
        );
        let matched = by_name || word_match(f.as_slice(), self.words.as_slice());
        if matched {
            self.add(path, "shortcut", 0, "low", "快捷方式");
        }
        matched
    }

    /// Step 3: lists, and keeps for `add_candidate`, the directories where the program
    /// may keep data, in order: `name` under the roaming and local application data
    /// directories, under ProgramData, under both Program Files directories (`medium`
    /// risk), then `publisher` under the roaming and local application data directories
    /// (`high` risk). A base that is unknown gives no candidate, and an empty name or
    /// publisher gives none named after it.
    pub fn candidate_dirs(&mut self, data_dir: Option<&str>, local_dir: Option<&str>, program_data: Option<&str>) -> (r: Vec<(String, bool)>)
        requires
            old(self).wf(),
        ensures
            final(self).wf(),
            pairs_view(r@) == candidates_spec(
                opt_view(data_dir),
                opt_view(local_dir),
                opt_view(program_data),
                old(self).name_spec(),
                old(self).publisher_spec(),
            ),
            final(self).dirs_spec() == pairs_view(r@),
            final(self).app_key_spec() == old(self).app_key_spec(),
            final(self).name_spec() == old(self).name_spec(),
            final(self).publisher_spec() == old(self).publisher_spec(),
            final(self).install_dir_spec() == old(self).install_dir_spec(),
            final(self).items_spec() == old(self).items_spec(),
            final(self).keys_spec() == old(self).keys_spec(),
    {
        let mut r: Vec<(String, bool)> = Vec::new();
        if !self.name.as_str().is_empty() {
            if let Some(d) = data_dir {
                r.push((join_path(d, self.name.as_str()), false));
            }
            proof {
                assert(pairs_view(r@) =~= opt_push(seq![], opt_map_join(opt_view(data_dir), self.name@), false));
            }
            let ghost s1 = pairs_view(r@);
            if let Some(d) = local_dir {
                r.push((join_path(d, self.name.as_str()), false));
            }
            proof {
                assert(pairs_view(r@) =~= opt_push(s1, opt_map_join(opt_view(local_dir), self.name@), false));
            }
            let ghost s2 = pairs_view(r@);
            if let Some(p) = program_data {
                r.push((concat3(p, "\\", self.name.as_str()), false));
            }
            proof {
                assert(pairs_view(r@) =~= opt_push(s2, opt_map_backslash(opt_view(program_data), self.name@), false));
            }
            let ghost s3 = pairs_view(r@);
            r.push((concat2("C:\\Program Files\\", self.name.as_str()), false));
            r.push((concat2("C:\\Program Files (x86)\\", self.name.as_str()), false));
            proof {
                assert(pairs_view(r@) =~= s3.push(("C:\\Program Files\\"@ + self.name@, false)).push(("C:\\Program Files (x86)\\"@ + self.name@, false)));
            }
        } else {
            proof {
                assert(pairs_view(r@) =~= Seq::<(Seq<char>, bool)>::empty());
            }
        }
        if !self.publisher.as_str().is_empty() {
            let ghost s4 = pairs_view(r@);
            if let Some(d) = data_dir {
                let jp = join_path(d, self.publisher.as_str());
                proof {
                    assert(path_join(d@, self.publisher@) == jp@);
                }
                r.push((jp, true));
            }
            proof {
                assert(pairs_view(r@) =~= opt_push(s4, opt_map_join(opt_view(data_dir), self.publisher@), true));
            }
            let ghost s5 = pairs_view(r@);
            if let Some(d) = local_dir {
                let jp = join_path(d, self.publisher.as_str());
                proof {
                    assert(path_join(d@, self.publisher@) == jp@);
                }
                r.push((jp, true));
            }
            proof {
                assert(pairs_view(r@) =~= opt_push(s5, opt_map_join(opt_view(local_dir), self.publisher@), true));
            }
        }
        proof {
            assert(dirs_flagged_ok(pairs_view(r@), self.publisher@));
        }
        self.dirs = copy_pairs(&r);
        r
    }

    /// Step 3: the candidate directory at `index` of the list made by `candidate_dirs`,
    /// added when its path is not empty and something is there: publisher directories
    /// (`high`) may be shared with other programs of the same publisher, the others are
    /// `medium`.
    pub fn add_candidate(&mut self, index: usize, info: PathInfo)
        requires
            old(self).wf(),
            index < old(self).dirs_spec().len(),
            sizes_sum(old(self).items_spec()) + info_size(info) <= u64::MAX,
        ensures
            final(self).wf(),
            final(self).app_key_spec() == old(self).app_key_spec(),
            final(self).name_spec() == old(self).name_spec(),
            final(self).publisher_spec() == old(self).publisher_spec(),
            final(self).install_dir_spec() == old(self).install_dir_spec(),
            final(self).dirs_spec() == old(self).dirs_spec(),
            final(self).keys_spec() == old(self).keys_spec(),
            ({
                let (dir, high) = old(self).dirs_spec()[index as int];
                if dir.len() > 0 && !(info is Missing) {
                    added(
                        old(self).items_spec(),
                        final(self).items_spec(),
                        dir,
                        info_kind(info),
                        info_size(info),
                        if high { "high"@ } else { "medium"@ },
                        if high { note_publisher_dir() } else { note_data_dir() },
                    )
                } else {
                    final(self).items_spec() == old(self).items_spec()
                }
            }),
    {
        proof {
            lemma_risk_words();
        }
        let dir = self.dirs[index].0.clone();
        let high = self.dirs[index].1;
        proof {
            assert(pairs_view(self.dirs@)[index as int] == (dir@, high));
        }
        if dir.as_str().is_empty() {
            return;
        }
        let (kind, size) = match info {
            PathInfo::Missing => return,
            PathInfo::Dir(size) => ("dir", size),
            PathInfo::File(size) => ("file", size),
        };
        if high {
            proof {
                let b = choose|b: Seq<char>| #[trigger] path_join(b, self.publisher@) == dir@;
                assert(path_join(b, self.publisher@) == dir@);
            }
            self.add(dir, kind, size, "high", "发布者目录（可能被同厂商其他软件共用，删除前请仔细确认）");
        } else {
            self.add(dir, kind, size, "medium", "应用数据目录（卸载后遗留的配置与数据）");
        }
    }

    /// Step 4: the registry keys under `SOFTWARE` named after the program (`medium`) or
    /// its publisher (`high`), for `HKLM\SOFTWARE`, `HKLM\SOFTWARE\WOW6432Node` and
    /// `HKCU\SOFTWARE`. A publisher whose lower-cased name is the program's is skipped,
    /// as are empty names. The list is kept for `add_registry_key`.
    pub fn software_keys(&mut self) -> (r: Vec<(Hive, String, bool)>)
        requires
            old(self).wf(),
        ensures
            final(self).wf(),
            keys_view(r@) == software_keys_spec(old(self).name_spec(), old(self).publisher_spec()),
            final(self).keys_spec() == keys_view(r@),
            final(self).app_key_spec() == old(self).app_key_spec(),
            final(self).name_spec() == old(self).name_spec(),
            final(self).publisher_spec() == old(self).publisher_spec(),
            final(self).install_dir_spec() == old(self).install_dir_spec(),
            final(self).items_spec() == old(self).items_spec(),
            final(self).dirs_spec() == old(self).dirs_spec(),
    {
        let mut r: Vec<(Hive, String, bool)> = Vec::new();
        let lp = to_lower(self.publisher.as_str());
        let lpv = chars_of(lp.as_str());
        let use_publisher = !self.publisher.as_str().is_empty() && compare_chars(lpv.as_slice(), self.name_lower.as_slice()) != 0;
        let use_name = !self.name.as_str().is_empty();
        let hives = [Hive::LocalMachine, Hive::LocalMachine, Hive::CurrentUser];
        let prefixes = ["SOFTWARE", "SOFTWARE\\WOW6432Node", "SOFTWARE"];
        let mut i: usize = 0;
        while i < 3
            invariant
                i <= 3,
                use_name == (self.name@.len() > 0),
                use_publisher == (self.publisher@.len() > 0 && lowercase(self.publisher@) != lowercase(self.name@)),
                forall|k: int| 0 <= k < 3 ==> #[trigger] hives@[k] == software_hive(k),
                forall|k: int| 0 <= k < 3 ==> #[trigger] prefixes@[k]@ == software_prefix(k),
                keys_view(r@) == software_keys_upto(self.name@, self.publisher@, i as int),
                keys_flagged_ok(keys_view(r@), self.publisher@),
            decreases 3 - i,
        {
            let ghost before = keys_view(r@);
            if use_name {
                r.push((hives[i], concat3(prefixes[i], "\\", self.name.as_str()), false));
            }
            let ghost mid = keys_view(r@);
            proof {
                assert forall|j: int| 0 <= j < mid.len() && (#[trigger] mid[j]).2 implies self.publisher@.len() > 0 && exists|k: int|
                    0 <= k < 3 && mid[j].0 == software_hive(k) && mid[j].1 == #[trigger] software_prefix(k) + "\\"@ + self.publisher@ by {
                    assert(j < before.len());
                    assert(mid[j] == before[j]);
                }
            }
            if use_publisher {
                r.push((hives[i], concat3(prefixes[i], "\\", self.publisher.as_str()), true));
                proof {
                    let last = keys_view(r@).last();
                    assert(last.0 == software_hive(i as int));
                    assert(last.1 == software_prefix(i as int) + "\\"@ + self.publisher@);
                    let now = keys_view(r@);
                    assert forall|j: int| 0 <= j < now.len() && (#[trigger] now[j]).2 implies self.publisher@.len() > 0 && exists|k: int|
                        0 <= k < 3 && now[j].0 == software_hive(k) && now[j].1 == #[trigger] software_prefix(k) + "\\"@ + self.publisher@ by {
                        if j < mid.len() {
                            assert(now[j] == mid[j]);
                        } else {
                            assert(now[j] == last);
                            assert(software_prefix(i as int) == software_prefix(i as int));
                        }
                    }
                }
            }
            proof {
                assert(keys_view(r@) =~= software_step(before, self.name@, self.publisher@, i as int));
            }
            i += 1;
        }
        self.keys = copy_keys(&r);
        r
    }

    /// Step 4: the registry key at `index` of the list made by `software_keys`, which
    /// exists: a publisher key (`high`) or one named after the program (`medium`).
    pub fn add_registry_key(&mut self, index: usize)
        requires
            old(self).wf(),
            index < old(self).keys_spec().len(),
        ensures
            final(self).wf(),
            final(self).app_key_spec() == old(self).app_key_spec(),
            final(self).name_spec() == old(self).name_spec(),
            final(self).publisher_spec() == old(self).publisher_spec(),
            final(self).install_dir_spec() == old(self).install_dir_spec(),
            final(self).dirs_spec() == old(self).dirs_spec(),
            final(self).keys_spec() == old(self).keys_spec(),
            ({
                let (hive, sub, high) = old(self).keys_spec()[index as int];
                added(
                    old(self).items_spec(),
                    final(self).items_spec(),
                    hive_name_spec(hive) + "\\"@ + sub,
                    "registry_key"@,
                    0,
                    if high { "high"@ } else { "medium"@ },
                    if high { note_publisher_key() } else { note_software_key() },
                )
            }),
    {
        proof {
            lemma_risk_words();
        }
        let hive = self.keys[index].0;
        let high = self.keys[index].2;
        let full = concat3(hive_name(hive), "\\", self.keys[index].1.as_str());
        proof {
            assert(keys_view(self.keys@)[index as int] == (hive, self.keys@[index as int].1@, high));
        }
        if high {
            proof {
                let sub = self.keys@[index as int].1@;
                let k = choose|k: int| 0 <= k < 3 && hive == software_hive(k) && sub == #[trigger] software_prefix(k) + "\\"@ + self.publisher@;
                assert(full@ == hive_name_spec(software_hive(k)) + "\\"@ + software_prefix(k) + "\\"@ + self.publisher@);
            }
            self.add(full, "registry_key", 0, "high", "发布者注册表键（可能被其他软件共用）");
        } else {
            self.add(full, "registry_key", 0, "medium", "软件注册表键");
        }
    }

    /// Step 5: whether an App Paths entry whose target is `target` belongs to the
    /// program: the expanded target, in lower case, starts with the lower-cased
    /// (non-empty) install directory or contains the lower-cased (non-empty) name.
    pub fn app_path_related(&self, target: &str, env: &EnvVars) -> (r: bool)
        requires
            self.wf(),
        ensures
            r == app_path_related_spec(expand_env_spec(target@, env@), self.install_dir_spec(), self.name_spec()),
    {
        let t = expand_env(target, env);
        let lt = to_lower(t.as_str());
        let ltv = chars_of(lt.as_str());
        let by_dir = if !self.install_dir.as_str().is_empty() {
            let ld = to_lower(self.install_dir.as_str());
            let ldv = chars_of(ld.as_str());
            starts_with_chars(ltv.as_slice(), ldv.as_slice())
        } else {
            false
        };
        by_dir || (!self.name.as_str().is_empty() && contains_chars(
            ltv.as_slice(),
            self.name_lower.as_slice(),
        ))
    }

    /// Step 5: an App Paths entry (`low` risk).
    pub fn add_app_path(&mut self, hive: Hive, sub: &str)
        requires
            old(self).wf(),
        ensures
            final(self).wf(),
            final(self).app_key_spec() == old(self).app_key_spec(),
            final(self).name_spec() == old(self).name_spec(),
            final(self).publisher_spec() == old(self).publisher_spec(),
            final(self).install_dir_spec() == old(self).install_dir_spec(),
            final(self).dirs_spec() == old(self).dirs_spec(),
            final(self).keys_spec() == old(self).keys_spec(),
            added(
                old(self).items_spec(),
                final(self).items_spec(),
                hive_name_spec(hive) + "\\"@ + app_paths_key() + "\\"@ + sub@,
                "registry_key"@,
                0,
                "low"@,
                note_app_paths(),
            ),
    {
        proof {
            lemma_risk_words();
        }
        let mut full = concat3(hive_name(hive), "\\", "SOFTWARE\\Microsoft\\Windows\\CurrentVersion\\App Paths");
        crate::text::append_str(&mut full, "\\");
        crate::text::append_str(&mut full, sub);
        self.add(full, "registry_key", 0, "low", "App Paths 注册表项");
    }


    /// Step 6 and the report: adds the uninstall key itself (`low` risk), then orders
    /// the items by kind (directories, files, shortcuts, registry keys, others) and
    /// path, and totals their sizes. Every item is a directory, a file, a shortcut or a
    /// registry key, and every `high` risk item lies at a place named after the
    /// publisher.
    pub fn finish(self) -> (r: ResidueReport)
        requires
            self.wf(),
        ensures
            ({
                &&& r.app_key@ == self.app_key_spec()
                &&& r.name@ == self.name_spec()
                &&& r.total_size_bytes == sizes_sum(r.items@)
                &&& exists|last: ResidueItem|
                    item_matches(last, self.app_key_spec(), "registry_key"@, 0, "low"@, note_uninstall_key())
                    && r.items@ == sort_items_spec(add_item(self.items_spec(), last))
            }),
            items_sorted(r.items@),
            keys_distinct(r.items@),
            exists|j: int| 0 <= j < r.items@.len() && item_key(#[trigger] r.items@[j]) == (self.app_key_spec(), "registry_key"@),
            high_items_ok(r.items@, self.publisher_spec()),
            kinds_ok(r.items@),
    {
        proof {
            lemma_risk_words();
        }
        let mut me = self;
        let key = me.app_key.clone();
        let ghost before = me.items@;
        let it = item(key, "registry_key", 0, "low", "卸载注册表项（若软件仍在使用，请勿删除）");
        let ghost last = it;
        me.push(it);
        let total = me.total;
        let items = sort_items(me.items);
        proof {
            lemma_sort_items(add_item(before, last));
            assert(item_matches(last, me.app_key@, "registry_key"@, 0, "low"@, note_uninstall_key()));
            assert(items@ == sort_items_spec(add_item(before, last)));
            assert(total == sizes_sum(items@));
            let a = add_item(before, last);
            assert(has_key(a, last));
            let j: int = choose|j: int| 0 <= j < a.len() && item_key(#[trigger] a[j]) == item_key(last);
            assert(a.to_multiset().count(a[j]) > 0);
            assert(items@.to_multiset().count(a[j]) > 0);
            assert(items@.contains(a[j]));
            assert forall|i: int| 0 <= i < items@.len() && (#[trigger] items@[i]).risk@ == "high"@ implies publisher_location(items@[i].path@, me.publisher@) by {
                assert(items@.to_multiset().count(items@[i]) > 0);
                assert(a.to_multiset().count(items@[i]) > 0);
                assert(a.contains(items@[i]));
                let k: int = choose|k: int| 0 <= k < a.len() && a[k] == items@[i];
                assert(me.items@[k] == items@[i]);
            }
            assert forall|i: int| 0 <= i < items@.len() implies known_kind(#[trigger] items@[i].kind@) by {
                assert(items@.to_multiset().count(items@[i]) > 0);
                assert(a.to_multiset().count(items@[i]) > 0);
                assert(a.contains(items@[i]));
                let k: int = choose|k: int| 0 <= k < a.len() && a[k] == items@[i];
                assert(me.items@[k] == items@[i]);
            }
        }
        ResidueReport { app_key: me.app_key, name: me.name, items, total_size_bytes: total }
    }

}

/// The places App Paths entries are listed under, in order.
pub fn app_paths_roots() -> (r: Vec<(Hive, &'static str)>)
    ensures
        r@.len() == 2,
        r@[0].0 == Hive::LocalMachine && r@[0].1@ == app_paths_key(),
        r@[1].0 == Hive::CurrentUser && r@[1].1@ == app_paths_key(),
{
    vec![
        (Hive::LocalMachine, "SOFTWARE\\Microsoft\\Windows\\CurrentVersion\\App Paths"),
        (Hive::CurrentUser, "SOFTWARE\\Microsoft\\Windows\\CurrentVersion\\App Paths"),
    ]
}

/// The start menu below a base directory.
pub open spec fn start_menu_below() -> Seq<char> {
    "Microsoft\\Windows\\Start Menu\\Programs"@
}

/// The directories searched for shortcuts, in order: the start menu of all users
/// (below `ProgramData`), the user's start menu (below the roaming data directory),
/// the user's desktop and the public desktop; each only where its base is known.
pub open spec fn shortcut_bases_spec(
    program_data: Option<Seq<char>>,
    data_dir: Option<Seq<char>>,
    desktop: Option<Seq<char>>,
    public: Option<Seq<char>>,
) -> Seq<Seq<char>> {
    let a = match program_data {
        Some(p) => seq![p + "\\"@ + start_menu_below()],
        None => Seq::<Seq<char>>::empty(),
    };
    let b = match data_dir {
        Some(d) => seq![path_join(d, start_menu_below())],
        None => Seq::<Seq<char>>::empty(),
    };
    let c = match desktop {
        Some(d) => seq![d],
        None => Seq::<Seq<char>>::empty(),
    };
    let e = match public {
        Some(p) => seq![path_join(p, "Desktop"@)],
        None => Seq::<Seq<char>>::empty(),
    };
    a + b + c + e
}

/// Step 2: the directories searched for shortcuts (see `shortcut_bases_spec`).
pub fn shortcut_bases(
    program_data: Option<&str>,
    data_dir: Option<&str>,
    desktop: Option<&str>,
    public: Option<&str>,
) -> (r: Vec<String>)
    ensures
        strings_view(r@) == shortcut_bases_spec(
            opt_view(program_data),
            opt_view(data_dir),
            opt_view(desktop),
            opt_view(public),
        ),
{
    let mut r: Vec<String> = Vec::new();
    if let Some(p) = program_data {
        r.push(concat3(p, "\\", "Microsoft\\Windows\\Start Menu\\Programs"));
    }
    if let Some(d) = data_dir {
        r.push(join_path(d, "Microsoft\\Windows\\Start Menu\\Programs"));
    }
    if let Some(d) = desktop {
        r.push(d.to_owned());
    }
    if let Some(p) = public {
        r.push(join_path(p, "Desktop"));
    }
    proof {
        assert(strings_view(r@) =~= shortcut_bases_spec(
            opt_view(program_data),
            opt_view(data_dir),
            opt_view(desktop),
            opt_view(public),
        ));
    }
    r
}

} // verus!
