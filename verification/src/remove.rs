//! Removing what an uninstall leaves behind, and starting a program's own uninstaller.
//!
//! The registry, the file system and process creation are reached through operations
//! the caller hands in; the library decides which calls are made and what is reported.

use vstd::prelude::*;
use crate::text::{
    after_last, after_last_exec, chars_of, concat2, str_eq, string_of_range, trim, trim_str,
};
use crate::deletion::{
    FsNode, ForceOp, ForceOutcome, delete_path_force, force_errors, force_freed, force_items,
    force_justified, force_locked, force_ops, force_result, add_samples, ops_bytes,
    force_calls_allowed,
};
use crate::uninstall::{
    DeleteReport, Hive, ResidueItem, UninstallResult, parse_hive_path, parse_hive_path_spec,
};
use crate::util::{LockTracker, parse_command_line, split_command_line_spec, strings_view};

verus! {

// ---------------------------------------------------------------------------
// Starting an uninstaller
// ---------------------------------------------------------------------------

/// The command line that uninstalls: `UninstallString`, or `QuietUninstallString` when
/// the former is blank.
pub open spec fn chosen_command(uninstall: Seq<char>, quiet: Seq<char>) -> Seq<char> {
    if trim(uninstall).len() == 0 {
        quiet
    } else {
        uninstall
    }
}

/// `args` are the arguments of `cmdline`: what a call of `argv_of` on it returned, or
/// the fallback split where it returned nothing.
pub open spec fn args_of<A: FnOnce(String) -> Option<Vec<String>>>(
    argv_of: A,
    cmdline: Seq<char>,
    args: Seq<Seq<char>>,
) -> bool {
    exists|s: String, a: Option<Vec<String>>|
        s@ == cmdline && #[trigger] call_ensures(argv_of, (s,), a) && args == match a {
            Some(v) => strings_view(v@),
            None => split_command_line_spec(cmdline),
        }
}

/// What starting the uninstaller of `cmdline` gives: a blank command is reported as
/// missing, a command without arguments as unparsable; otherwise the program (the
/// first argument) is started with the other arguments through `spawn`.
pub open spec fn launch_result<
    A: FnOnce(String) -> Option<Vec<String>>,
    S: FnOnce(String, Vec<String>) -> Result<(), String>,
>(argv_of: A, spawn: S, cmdline: Seq<char>, r: Result<UninstallResult, String>) -> bool {
    if trim(cmdline).len() == 0 {
        r matches Ok(u) && !u.launched && u.message@ == "该软件没有提供卸载命令（UninstallString）"@
    } else {
        exists|args: Seq<Seq<char>>|
            #[trigger] args_of(argv_of, cmdline, args) && if args.len() == 0 {
                r matches Ok(u) && !u.launched && u.message@ == "无法解析卸载命令: "@ + cmdline
            } else {
                exists|prog: String, rest: Vec<String>, spawned: Result<(), String>|
                    prog@ == args[0] && strings_view(rest@) == args.skip(1)
                        && #[trigger] call_ensures(spawn, (prog, rest), spawned) && match spawned {
                        Err(e) => r matches Err(m) && m@ == "启动卸载程序失败: "@ + e@,
                        Ok(_) => r matches Ok(u) && u.launched && u.message@ == "已启动卸载程序: "@
                            + cmdline,
                    }
            }
    }
}

/// What `uninstall_app` gives for `app_key`: an invalid key is refused; otherwise the
/// key is opened with `open_key` (which answers `UninstallString` and
/// `QuietUninstallString`, empty where absent) and its command is started.
pub open spec fn uninstall_result<
    O: FnOnce(Hive, String) -> Result<(String, String), String>,
    A: FnOnce(String) -> Option<Vec<String>>,
    S: FnOnce(String, Vec<String>) -> Result<(), String>,
>(
    open_key: O,
    argv_of: A,
    spawn: S,
    app_key: Seq<char>,
    r: Result<UninstallResult, String>,
) -> bool {
    match parse_hive_path_spec(app_key) {
        None => r matches Err(m) && m@ == "无效的注册表路径"@,
        Some((h, path)) => exists|p: String, opened: Result<(String, String), String>|
            p@ == path && #[trigger] call_ensures(open_key, (h, p), opened) && match opened {
                Err(e) => r matches Err(m) && m@ == "打开注册表项失败: "@ + e@,
                Ok((u, q)) => launch_result(argv_of, spawn, chosen_command(u@, q@), r),
            },
    }
}

/// The uninstaller started is the one of `UninstallString` whenever that is not blank,
/// whatever `QuietUninstallString` holds; only a blank `UninstallString` leaves the
/// choice to `QuietUninstallString`. Stated over what `uninstall_app` gives when the
/// key, opened, answers `u` and `q`.
pub proof fn lemma_uninstall_string_first<
    O: FnOnce(Hive, String) -> Result<(String, String), String>,
    A: FnOnce(String) -> Option<Vec<String>>,
    S: FnOnce(String, Vec<String>) -> Result<(), String>,
>(
    open_key: O,
    argv_of: A,
    spawn: S,
    app_key: Seq<char>,
    h: Hive,
    path: Seq<char>,
    u: String,
    q: String,
    r: Result<UninstallResult, String>,
)
    requires
        parse_hive_path_spec(app_key) == Some((h, path)),
        forall|p: String, o: Result<(String, String), String>|
            p@ == path && #[trigger] call_ensures(open_key, (h, p), o) ==> o == Ok::<(String, String), String>((u, q)),
        uninstall_result(open_key, argv_of, spawn, app_key, r),
    ensures
        trim(u@).len() > 0 ==> launch_result(argv_of, spawn, u@, r),
        trim(u@).len() == 0 ==> launch_result(argv_of, spawn, q@, r),
{
    let (p, opened) = choose|p: String, opened: Result<(String, String), String>|
        p@ == path && #[trigger] call_ensures(open_key, (h, p), opened) && match opened {
            Err(e) => r matches Err(m) && m@ == "打开注册表项失败: "@ + e@,
            Ok((u2, q2)) => launch_result(argv_of, spawn, chosen_command(u2@, q2@), r),
        };
    assert(opened == Ok::<(String, String), String>((u, q)));
}

/// A copy of `v[from..]`.
fn tail_strings(v: &Vec<String>, from: usize) -> (r: Vec<String>)
    requires
        from <= v@.len(),
    ensures
        strings_view(r@) == strings_view(v@).skip(from as int),
{
    let mut r: Vec<String> = Vec::new();
    let mut k: usize = from;
    while k < v.len()
        invariant
            from <= k <= v@.len(),
            strings_view(r@) == strings_view(v@).subrange(from as int, k as int),
        decreases v@.len() - k,
    {
        let ghost before = r@;
        r.push(v[k].clone());
        proof {
            assert(strings_view(r@) =~= strings_view(before).push(v@[k as int]@));
            assert(strings_view(v@).subrange(from as int, k + 1) =~= strings_view(v@).subrange(
                from as int,
                k as int,
            ).push(v@[k as int]@));
        }
        k += 1;
    }
    proof {
        assert(strings_view(v@).subrange(from as int, v@.len() as int) =~= strings_view(v@).skip(
            from as int,
        ));
    }
    r
}

/// Starts the uninstaller of `cmdline` (see `launch_result`).
fn launch_uninstaller<
    A: FnOnce(String) -> Option<Vec<String>>,
    S: FnOnce(String, Vec<String>) -> Result<(), String>,
>(cmdline: String, argv_of: A, spawn: S) -> (r: Result<UninstallResult, String>)
    requires
        forall|s: String| call_requires(argv_of, (s,)),
        forall|p: String, a: Vec<String>| call_requires(spawn, (p, a)),
    ensures
        launch_result(argv_of, spawn, cmdline@, r),
{
    let trimmed = trim_str(cmdline.as_str());
    if trimmed.as_str().is_empty() {
        return Ok(
            UninstallResult {
                launched: false,
                message: "该软件没有提供卸载命令（UninstallString）".to_owned(),
            },
        );
    }
    let probe = cmdline.clone();
    let ghost sent = probe;
    let argv = argv_of(probe);
    let ghost answered = argv;
    let args = parse_command_line(cmdline.as_str(), argv);
    proof {
        assert(call_ensures(argv_of, (sent,), answered));
        assert(args_of(argv_of, cmdline@, strings_view(args@)));
    }
    if args.len() == 0 {
        let r = Ok(
            UninstallResult {
                launched: false,
                message: concat2("无法解析卸载命令: ", cmdline.as_str()),
            },
        );
        proof {
            assert(strings_view(args@).len() == 0);
        }
        return r;
    }
    let prog = args[0].clone();
    let rest = tail_strings(&args, 1);
    let ghost prog_sent = prog;
    let ghost rest_sent = rest;
    let spawned = spawn(prog, rest);
    let ghost got = spawned;
    proof {
        assert(call_ensures(spawn, (prog_sent, rest_sent), got));
        assert(prog_sent@ == strings_view(args@)[0]);
    }
    match spawned {
        Err(e) => Err(concat2("启动卸载程序失败: ", e.as_str())),
        Ok(()) => Ok(
            UninstallResult { launched: true, message: concat2("已启动卸载程序: ", cmdline.as_str()) },
        ),
    }
}

/// `uninstall_app`: starts the official uninstaller of the program registered at
/// `app_key` (see `uninstall_result`). Each of the three operations is taken by value
/// and called at most once: the key is read once and at most one process is started.
pub fn uninstall_app<
    O: FnOnce(Hive, String) -> Result<(String, String), String>,
    A: FnOnce(String) -> Option<Vec<String>>,
    S: FnOnce(String, Vec<String>) -> Result<(), String>,
>(app_key: &str, open_key: O, argv_of: A, spawn: S) -> (r: Result<UninstallResult, String>)
    requires
        forall|h: Hive, p: String| call_requires(open_key, (h, p)),
        forall|s: String| call_requires(argv_of, (s,)),
        forall|p: String, a: Vec<String>| call_requires(spawn, (p, a)),
    ensures
        uninstall_result(open_key, argv_of, spawn, app_key@, r),
{
    let (hive, path) = match parse_hive_path(app_key) {
        Some(x) => x,
        None => {
            return Err("无效的注册表路径".to_owned());
        },
    };
    let ghost path_sent = path;
    let opened = open_key(hive, path);
    let ghost got = opened;
    proof {
        assert(call_ensures(open_key, (hive, path_sent), got));
    }
    match opened {
        Err(e) => Err(concat2("打开注册表项失败: ", e.as_str())),
        Ok((u, q)) => {
            let trimmed = trim_str(u.as_str());
            let cmdline = if trimmed.as_str().is_empty() {
                q
            } else {
                u
            };
            launch_uninstaller(cmdline, argv_of, spawn)
        },
    }
}

// ---------------------------------------------------------------------------
// Registry keys and values
// ---------------------------------------------------------------------------

/// Why deleting a registry key or value failed: opening its parent key, or the
/// deletion itself (each with the system's message).
pub enum RegistryFailure {
    Open(String),
    Delete(String),
}

/// The hive, parent key path and last component of a full registry path
/// (`HIVE\parent\last`); `None` where the hive is unknown or there is no parent.
pub open spec fn registry_target_spec(full: Seq<char>) -> Option<(Hive, Seq<char>, Seq<char>)> {
    match parse_hive_path_spec(full) {
        None => None,
        Some((h, rest)) => {
            let k: int = after_last(rest, '\\');
            if k == 0 {
                None
            } else {
                Some((h, rest.subrange(0, k - 1), rest.subrange(k, rest.len() as int)))
            }
        },
    }
}

/// The error for a registry path that cannot be split.
pub open spec fn invalid_registry_path(full: Seq<char>) -> Seq<char> {
    "无效的注册表路径: "@ + full
}

/// The error for a failed deletion of a registry key (`is_key`) or value.
pub open spec fn registry_failure_text(
    is_key: bool,
    parent: Seq<char>,
    last: Seq<char>,
    f: RegistryFailure,
) -> Seq<char> {
    match f {
        RegistryFailure::Open(e) => "打开 "@ + parent + " 失败: "@ + e@,
        RegistryFailure::Delete(e) => if is_key {
            "删除注册表项 "@ + last + " 失败: "@ + e@
        } else {
            "删除注册表值 "@ + last + " 失败: "@ + e@
        },
    }
}

/// Splits a full registry path into hive, parent key path and last component.
pub fn registry_target(full: &str) -> (r: Result<(Hive, String, String), String>)
    ensures
        match r {
            Ok((h, p, l)) => registry_target_spec(full@) == Some((h, p@, l@)),
            Err(m) => registry_target_spec(full@) is None && m@ == invalid_registry_path(full@),
        },
{
    match parse_hive_path(full) {
        None => Err(concat2("无效的注册表路径: ", full)),
        Some((h, rest)) => {
            let v = chars_of(rest.as_str());
            let k: usize = after_last_exec(v.as_slice(), '\\');
            if k == 0 {
                Err(concat2("无效的注册表路径: ", full))
            } else {
                let parent = string_of_range(v.as_slice(), 0, k - 1);
                let last = string_of_range(v.as_slice(), k, v.len());
                Ok((h, parent, last))
            }
        },
    }
}

/// What deleting the registry key (`is_key`) or value at `full` through `delete`
/// gives: the path is split (see `registry_target_spec`), `delete` is called on hive,
/// parent and last component, and its failure is reported.
pub open spec fn registry_delete_result<K: Fn(Hive, String, String) -> Result<(), RegistryFailure>>(
    delete: K,
    is_key: bool,
    full: Seq<char>,
    r: Result<u64, String>,
) -> bool {
    match registry_target_spec(full) {
        None => r matches Err(m) && m@ == invalid_registry_path(full),
        Some((h, parent, last)) => exists|p: String, l: String, res: Result<(), RegistryFailure>|
            p@ == parent && l@ == last && #[trigger] call_ensures(delete, (h, p, l), res)
                && match res {
                Ok(_) => r matches Ok(v) && v == 0,
                Err(f) => r matches Err(m) && m@ == registry_failure_text(is_key, parent, last, f),
            },
    }
}

/// Builds the error text of a failed registry deletion.
fn registry_failure_message(is_key: bool, parent: &str, last: &str, f: &RegistryFailure) -> (r:
    String)
    ensures
        r@ == registry_failure_text(is_key, parent@, last@, *f),
{
    match f {
        RegistryFailure::Open(e) => {
            let head = concat2("打开 ", parent);
            crate::text::concat3(head.as_str(), " 失败: ", e.as_str())
        },
        RegistryFailure::Delete(e) => {
            let head = if is_key {
                concat2("删除注册表项 ", last)
            } else {
                concat2("删除注册表值 ", last)
            };
            crate::text::concat3(head.as_str(), " 失败: ", e.as_str())
        },
    }
}

/// Deletes the registry key (`is_key`) or value at `full` through `delete`.
fn delete_registry_entry<K: Fn(Hive, String, String) -> Result<(), RegistryFailure>>(
    full: &str,
    is_key: bool,
    delete: &K,
) -> (r: Result<u64, String>)
    requires
        forall|h: Hive, p: String, l: String|
            registry_target_spec(full@) == Some((h, p@, l@)) ==> #[trigger] call_requires(delete, (h, p, l)),
    ensures
        registry_delete_result(delete, is_key, full@, r),
{
    let (h, parent, last) = match registry_target(full) {
        Ok(t) => t,
        Err(m) => {
            return Err(m);
        },
    };
    let ghost p_sent = parent;
    let ghost l_sent = last;
    let p2 = parent.clone();
    let l2 = last.clone();
    let res = delete(h, parent, last);
    let ghost got = res;
    proof {
        assert(call_ensures(delete, (h, p_sent, l_sent), got));
    }
    match res {
        Ok(()) => Ok(0),
        Err(f) => Err(registry_failure_message(is_key, p2.as_str(), l2.as_str(), &f)),
    }
}

/// `delete_registry_key`: deletes the key at `full` with all its subkeys, through
/// `delete_key` (called on hive, parent key path and key name, and on nothing else).
pub fn delete_registry_key<K: Fn(Hive, String, String) -> Result<(), RegistryFailure>>(
    full: &str,
    delete_key: &K,
) -> (r: Result<u64, String>)
    requires
        forall|h: Hive, p: String, l: String|
            registry_target_spec(full@) == Some((h, p@, l@)) ==> #[trigger] call_requires(delete_key, (h, p, l)),
    ensures
        registry_delete_result(delete_key, true, full@, r),
{
    delete_registry_entry(full, true, delete_key)
}

/// `delete_registry_value`: deletes the value at `full` (`HIVE\key\value`), through
/// `delete_value` (called on hive, key path and value name, and on nothing else).
pub fn delete_registry_value<K: Fn(Hive, String, String) -> Result<(), RegistryFailure>>(
    full: &str,
    delete_value: &K,
) -> (r: Result<u64, String>)
    requires
        forall|h: Hive, p: String, l: String|
            registry_target_spec(full@) == Some((h, p@, l@)) ==> #[trigger] call_requires(delete_value, (h, p, l)),
    ensures
        registry_delete_result(delete_value, false, full@, r),
{
    delete_registry_entry(full, false, delete_value)
}

// ---------------------------------------------------------------------------
// Deleting residue
// ---------------------------------------------------------------------------

/// Whether an item is a registry key.
pub open spec fn is_registry_key(it: ResidueItem) -> bool {
    it.kind@ == "registry_key"@
}

/// Whether an item is a registry value.
pub open spec fn is_registry_value(it: ResidueItem) -> bool {
    it.kind@ == "registry_value"@
}

/// What deleting one item gave: the result of a registry deletion, or the outcomes of
/// the steps of a forced removal of its path.
pub enum ItemOutcome {
    Registry(Result<u64, String>),
    Path(Seq<ForceOutcome>),
}

/// What was read at the path of item `i` (nothing where no reading was given).
pub open spec fn node_at(nodes: Seq<FsNode>, i: int) -> FsNode {
    if 0 <= i < nodes.len() {
        nodes[i]
    } else {
        FsNode::Missing
    }
}

/// The steps of a forced removal that deleting an item takes (none for registry
/// entries).
pub open spec fn item_ops(it: ResidueItem, node: FsNode) -> Seq<ForceOp> {
    if is_registry_key(it) || is_registry_value(it) {
        seq![]
    } else {
        force_ops(node)
    }
}

/// The calls that deleting `it` may make: the removal operations only on the steps of
/// its forced removal, `delete_key` only on the split path of a registry key item,
/// `delete_value` only on that of a registry value item.
pub open spec fn item_calls_allowed<
    P: Fn(String) -> bool,
    R: Fn(String) -> Result<(), String>,
    B: Fn(Vec<String>) -> Result<(), String>,
    D: Fn(String) -> Result<(), String>,
    E: Fn(String) -> bool,
    K: Fn(Hive, String, String) -> Result<(), RegistryFailure>,
    V: Fn(Hive, String, String) -> Result<(), RegistryFailure>,
>(
    in_use: P,
    remove_file: R,
    recycle_batch: B,
    remove_dir: D,
    dir_is_empty: E,
    delete_key: K,
    delete_value: V,
    it: ResidueItem,
    node: FsNode,
) -> bool {
    &&& force_calls_allowed(in_use, remove_file, recycle_batch, remove_dir, dir_is_empty, item_ops(it, node))
    &&& forall|h: Hive, p: String, l: String|
        is_registry_key(it) && registry_target_spec(it.path@) == Some((h, p@, l@)) ==> #[trigger] call_requires(
            delete_key,
            (h, p, l),
        )
    &&& forall|h: Hive, p: String, l: String|
        is_registry_value(it) && registry_target_spec(it.path@) == Some((h, p@, l@)) ==> #[trigger] call_requires(
            delete_value,
            (h, p, l),
        )
}

/// An outcome for deleting `it` that the calls made justify: a registry key or value
/// is deleted as in `registry_delete_result`; anything else is removed by force from
/// what was read at its path, for good.
pub open spec fn item_justified<
    P: Fn(String) -> bool,
    R: Fn(String) -> Result<(), String>,
    B: Fn(Vec<String>) -> Result<(), String>,
    D: Fn(String) -> Result<(), String>,
    E: Fn(String) -> bool,
    K: Fn(Hive, String, String) -> Result<(), RegistryFailure>,
    V: Fn(Hive, String, String) -> Result<(), RegistryFailure>,
>(
    in_use: P,
    remove_file: R,
    recycle_batch: B,
    remove_dir: D,
    dir_is_empty: E,
    delete_key: K,
    delete_value: V,
    it: ResidueItem,
    node: FsNode,
    o: ItemOutcome,
) -> bool {
    if is_registry_key(it) {
        o matches ItemOutcome::Registry(r) && registry_delete_result(delete_key, true, it.path@, r)
    } else if is_registry_value(it) {
        o matches ItemOutcome::Registry(r) && registry_delete_result(
            delete_value,
            false,
            it.path@,
            r,
        )
    } else {
        o matches ItemOutcome::Path(outs) && outs.len() == force_ops(node).len() && forall|i: int|
            0 <= i < outs.len() ==> #[trigger] force_justified(
                in_use,
                remove_file,
                recycle_batch,
                remove_dir,
                dir_is_empty,
                false,
                force_ops(node)[i],
                outs[i],
            )
    }
}

/// The result of deleting an item: a registry deletion's own result; for a path, the
/// bytes freed when anything was removed, else a failure naming the path.
pub open spec fn item_result(it: ResidueItem, node: FsNode, o: ItemOutcome) -> Result<int, Seq<char>> {
    match o {
        ItemOutcome::Registry(r) => match r {
            Ok(v) => Ok(v as int),
            Err(m) => Err(m@),
        },
        ItemOutcome::Path(outs) => if force_items(force_ops(node), outs) > 0 {
            Ok(force_freed(force_ops(node), outs))
        } else {
            Err("删除失败: "@ + it.path@)
        },
    }
}

/// Files found in use while deleting an item.
pub open spec fn item_locked(node: FsNode, o: ItemOutcome) -> Seq<Seq<char>> {
    match o {
        ItemOutcome::Path(outs) => force_locked(force_ops(node), outs),
        ItemOutcome::Registry(_) => seq![],
    }
}

/// Error lines of deleting an item: those of the removal steps, then its failure.
pub open spec fn item_errors(it: ResidueItem, node: FsNode, o: ItemOutcome) -> Seq<Seq<char>> {
    (match o {
        ItemOutcome::Path(outs) => force_errors(force_ops(node), outs),
        ItemOutcome::Registry(_) => Seq::<Seq<char>>::empty(),
    }) + match item_result(it, node, o) {
        Err(m) => seq![m],
        Ok(_) => Seq::<Seq<char>>::empty(),
    }
}

/// Totals of deleting the items in turn: (deleted, failed, bytes freed, files in use,
/// error lines).
pub open spec fn residue_totals(
    items: Seq<ResidueItem>,
    nodes: Seq<FsNode>,
    os: Seq<ItemOutcome>,
) -> (int, int, int, Seq<Seq<char>>, Seq<Seq<char>>)
    decreases items.len(),
{
    if items.len() == 0 || os.len() == 0 {
        (0, 0, 0, seq![], seq![])
    } else {
        let n = items.len() - 1;
        let prev = residue_totals(items.drop_last(), nodes, os.drop_last());
        let node = node_at(nodes, n);
        let res = item_result(items[n], node, os.last());
        (
            prev.0 + if res is Ok { 1int } else { 0 },
            prev.1 + if res is Ok { 0int } else { 1 },
            prev.2 + match res {
                Ok(v) => v,
                Err(_) => 0,
            },
            prev.3 + item_locked(node, os.last()),
            prev.4 + item_errors(items[n], node, os.last()),
        )
    }
}

/// File bytes and step counts of removing the items' paths.
pub open spec fn residue_ops_size(items: Seq<ResidueItem>, nodes: Seq<FsNode>) -> (int, int)
    decreases items.len(),
{
    if items.len() == 0 {
        (0, 0)
    } else {
        let n = items.len() - 1;
        let prev = residue_ops_size(items.drop_last(), nodes);
        let ops = item_ops(items[n], node_at(nodes, n));
        (prev.0 + ops_bytes(ops), prev.1 + ops.len())
    }
}

/// Sizes of a prefix are no larger than those of the whole.
proof fn lemma_residue_ops_size_prefix(items: Seq<ResidueItem>, nodes: Seq<FsNode>, k: int)
    requires
        0 <= k <= items.len(),
    ensures
        residue_ops_size(items.take(k), nodes).0 <= residue_ops_size(items, nodes).0,
        residue_ops_size(items.take(k), nodes).1 <= residue_ops_size(items, nodes).1,
    decreases items.len(),
{
    if k < items.len() {
        lemma_residue_ops_size_prefix(items.drop_last(), nodes, k);
        assert(items.drop_last().take(k) =~= items.take(k));
        crate::deletion::lemma_ops_bytes_nonneg(
            item_ops(items[items.len() - 1], node_at(nodes, items.len() - 1)),
        );
    } else {
        assert(items.take(k) =~= items);
    }
}

/// Error lines that the removal steps of an item add.
pub open spec fn item_step_errors(node: FsNode, o: ItemOutcome) -> Seq<Seq<char>> {
    match o {
        ItemOutcome::Path(outs) => force_errors(force_ops(node), outs),
        ItemOutcome::Registry(_) => Seq::<Seq<char>>::empty(),
    }
}

/// Deleting one item gave `r`, justified by the outcome `o`, and changed the tracker
/// and the errors as `o` says.
pub open spec fn item_step<
    P: Fn(String) -> bool,
    R: Fn(String) -> Result<(), String>,
    B: Fn(Vec<String>) -> Result<(), String>,
    D: Fn(String) -> Result<(), String>,
    E: Fn(String) -> bool,
    K: Fn(Hive, String, String) -> Result<(), RegistryFailure>,
    V: Fn(Hive, String, String) -> Result<(), RegistryFailure>,
>(
    in_use: P,
    remove_file: R,
    recycle_batch: B,
    remove_dir: D,
    dir_is_empty: E,
    delete_key: K,
    delete_value: V,
    it: ResidueItem,
    node: FsNode,
    o: ItemOutcome,
    r: Result<u64, String>,
    c0: u64,
    c1: u64,
    s0: Seq<Seq<char>>,
    s1: Seq<Seq<char>>,
    e0: Seq<Seq<char>>,
    e1: Seq<Seq<char>>,
) -> bool {
    &&& item_justified(
        in_use,
        remove_file,
        recycle_batch,
        remove_dir,
        dir_is_empty,
        delete_key,
        delete_value,
        it,
        node,
        o,
    )
    &&& match r {
        Ok(v) => item_result(it, node, o) == Ok::<int, Seq<char>>(v as int),
        Err(m) => item_result(it, node, o) == Err::<int, Seq<char>>(m@),
    }
    &&& c1 == c0 + item_locked(node, o).len()
    &&& s1 == add_samples(s0, item_locked(node, o))
    &&& e1 == e0 + item_step_errors(node, o)
}

/// Deletes one residue item (see `item_justified`).
fn delete_item<
    P: Fn(String) -> bool,
    R: Fn(String) -> Result<(), String>,
    B: Fn(Vec<String>) -> Result<(), String>,
    D: Fn(String) -> Result<(), String>,
    E: Fn(String) -> bool,
    K: Fn(Hive, String, String) -> Result<(), RegistryFailure>,
    V: Fn(Hive, String, String) -> Result<(), RegistryFailure>,
>(
    it: &ResidueItem,
    node: &FsNode,
    errors: &mut Vec<String>,
    locked: &mut LockTracker,
    in_use: &P,
    remove_file: &R,
    recycle_batch: &B,
    remove_dir: &D,
    dir_is_empty: &E,
    delete_key: &K,
    delete_value: &V,
) -> (r: Result<u64, String>)
    requires
        ops_bytes(item_ops(*it, *node)) <= u64::MAX,
        old(locked).count + item_ops(*it, *node).len() <= u64::MAX,
        item_calls_allowed(
            in_use,
            remove_file,
            recycle_batch,
            remove_dir,
            dir_is_empty,
            delete_key,
            delete_value,
            *it,
            *node,
        ),
    ensures
        exists|o: ItemOutcome|
            #[trigger] item_step(
                in_use,
                remove_file,
                recycle_batch,
                remove_dir,
                dir_is_empty,
                delete_key,
                delete_value,
                *it,
                *node,
                o,
                r,
                old(locked).count,
                final(locked).count,
                strings_view(old(locked).samples@),
                strings_view(final(locked).samples@),
                strings_view(old(errors)@),
                strings_view(final(errors)@),
            ),
{
    let ghost c0 = locked.count;
    let ghost s0 = strings_view(locked.samples@);
    let ghost e0 = strings_view(errors@);
    proof {
        assert(e0 + Seq::<Seq<char>>::empty() =~= e0);
        assert(s0 == add_samples(s0, Seq::<Seq<char>>::empty()));
    }
    if str_eq(it.kind.as_str(), "registry_key") {
        proof {
            reveal_strlit("registry_key");
        }
        let r = delete_registry_key(it.path.as_str(), delete_key);
        proof {
            let o = ItemOutcome::Registry(r);
            assert(item_step(
                in_use,
                remove_file,
                recycle_batch,
                remove_dir,
                dir_is_empty,
                delete_key,
                delete_value,
                *it,
                *node,
                o,
                r,
                c0,
                locked.count,
                s0,
                strings_view(locked.samples@),
                e0,
                strings_view(errors@),
            ));
        }
        r
    } else if str_eq(it.kind.as_str(), "registry_value") {
        proof {
            reveal_strlit("registry_value");
        }
        let r = delete_registry_value(it.path.as_str(), delete_value);
        proof {
            let o = ItemOutcome::Registry(r);
            assert(item_step(
                in_use,
                remove_file,
                recycle_batch,
                remove_dir,
                dir_is_empty,
                delete_key,
                delete_value,
                *it,
                *node,
                o,
                r,
                c0,
                locked.count,
                s0,
                strings_view(locked.samples@),
                e0,
                strings_view(errors@),
            ));
        }
        r
    } else {
        proof {
            reveal_strlit("registry_key");
            reveal_strlit("registry_value");
            assert(item_ops(*it, *node) == force_ops(*node));
        }
        let (freed, removed) = delete_path_force(
            node,
            false,
            errors,
            locked,
            in_use,
            remove_file,
            recycle_batch,
            remove_dir,
            dir_is_empty,
        );
        let r = if removed > 0 {
            Ok(freed)
        } else {
            Err(concat2("删除失败: ", it.path.as_str()))
        };
        proof {
            let outs = choose|outs: Seq<ForceOutcome>|
                #[trigger] force_result(
                    in_use,
                    remove_file,
                    recycle_batch,
                    remove_dir,
                    dir_is_empty,
                    false,
                    force_ops(*node),
                    outs,
                    (freed, removed),
                    c0,
                    locked.count,
                    s0,
                    strings_view(locked.samples@),
                    e0,
                    strings_view(errors@),
                );
            let o = ItemOutcome::Path(outs);
            assert(item_step(
                in_use,
                remove_file,
                recycle_batch,
                remove_dir,
                dir_is_empty,
                delete_key,
                delete_value,
                *it,
                *node,
                o,
                r,
                c0,
                locked.count,
                s0,
                strings_view(locked.samples@),
                e0,
                strings_view(errors@),
            ));
        }
        r
    }
}

/// `delete_residue` reported what the outcomes `os` of its items add up to.
pub open spec fn residue_report<
    P: Fn(String) -> bool,
    R: Fn(String) -> Result<(), String>,
    B: Fn(Vec<String>) -> Result<(), String>,
    D: Fn(String) -> Result<(), String>,
    E: Fn(String) -> bool,
    K: Fn(Hive, String, String) -> Result<(), RegistryFailure>,
    V: Fn(Hive, String, String) -> Result<(), RegistryFailure>,
>(
    in_use: P,
    remove_file: R,
    recycle_batch: B,
    remove_dir: D,
    dir_is_empty: E,
    delete_key: K,
    delete_value: V,
    items: Seq<ResidueItem>,
    nodes: Seq<FsNode>,
    os: Seq<ItemOutcome>,
    r: DeleteReport,
) -> bool {
    let t = residue_totals(items, nodes, os);
    &&& os.len() == items.len()
    &&& forall|i: int|
        0 <= i < items.len() ==> #[trigger] item_justified(
            in_use,
            remove_file,
            recycle_batch,
            remove_dir,
            dir_is_empty,
            delete_key,
            delete_value,
            items[i],
            node_at(nodes, i),
            os[i],
        )
    &&& r.deleted == t.0
    &&& r.failed == t.1
    &&& r.bytes_freed == t.2
    &&& r.locked == t.3.len()
    &&& strings_view(r.locked_paths@) == add_samples(seq![], t.3)
    &&& strings_view(r.errors@) == t.4
}

/// The outcome of an item has the item's kind: a registry deletion, which frees no
/// bytes, for a registry entry, and removal steps for anything else.
pub open spec fn outcome_fits(it: ResidueItem, node: FsNode, o: ItemOutcome) -> bool {
    if is_registry_key(it) || is_registry_value(it) {
        o is Registry && (item_result(it, node, o) matches Ok(v) ==> v == 0)
    } else {
        o is Path
    }
}

/// Bounds of the totals: every item is counted once, and bytes and files in use stay
/// within the steps taken.
proof fn lemma_residue_totals_bounds(items: Seq<ResidueItem>, nodes: Seq<FsNode>, os: Seq<ItemOutcome>)
    requires
        os.len() == items.len(),
        forall|i: int|
            0 <= i < items.len() ==> #[trigger] outcome_fits(items[i], node_at(nodes, i), os[i]),
    ensures
        residue_totals(items, nodes, os).0 + residue_totals(items, nodes, os).1 == items.len(),
        0 <= residue_totals(items, nodes, os).2 <= residue_ops_size(items, nodes).0,
        residue_totals(items, nodes, os).3.len() <= residue_ops_size(items, nodes).1,
    decreases items.len(),
{
    if items.len() > 0 {
        let n = items.len() - 1;
        assert forall|i: int| 0 <= i < items.drop_last().len() implies #[trigger] outcome_fits(
            items.drop_last()[i],
            node_at(nodes, i),
            os.drop_last()[i],
        ) by {
            assert(os.drop_last()[i] == os[i]);
            assert(items.drop_last()[i] == items[i]);
            assert(outcome_fits(items[i], node_at(nodes, i), os[i]));
        }
        lemma_residue_totals_bounds(items.drop_last(), nodes, os.drop_last());
        let node = node_at(nodes, n);
        let o = os.last();
        assert(o == os[n]);
        assert(outcome_fits(items[n], node, o));
        match o {
            ItemOutcome::Path(outs) => {
                crate::deletion::lemma_force_bounds(force_ops(node), outs);
            },
            ItemOutcome::Registry(_) => {
                crate::deletion::lemma_ops_bytes_nonneg(item_ops(items[n], node));
            },
        }
    }
}

/// `delete_residue`: deletes the residue items in turn (see `item_justified`);
/// `nodes[i]` is what was read at the path of item `i`. Each item counts as deleted,
/// with the bytes it freed, or as failed, with its error added after those of its
/// removal steps. Each operation may only be called as `item_calls_allowed` says for
/// one of the items.
pub fn delete_residue<
    P: Fn(String) -> bool,
    R: Fn(String) -> Result<(), String>,
    B: Fn(Vec<String>) -> Result<(), String>,
    D: Fn(String) -> Result<(), String>,
    E: Fn(String) -> bool,
    K: Fn(Hive, String, String) -> Result<(), RegistryFailure>,
    V: Fn(Hive, String, String) -> Result<(), RegistryFailure>,
>(
    items: &[ResidueItem],
    nodes: &[FsNode],
    in_use: &P,
    remove_file: &R,
    recycle_batch: &B,
    remove_dir: &D,
    dir_is_empty: &E,
    delete_key: &K,
    delete_value: &V,
) -> (r: DeleteReport)
    requires
        residue_ops_size(items@, nodes@).0 <= u64::MAX,
        residue_ops_size(items@, nodes@).1 + items@.len() <= u64::MAX,
        forall|j: int|
            0 <= j < items@.len() ==> #[trigger] item_calls_allowed(
                in_use,
                remove_file,
                recycle_batch,
                remove_dir,
                dir_is_empty,
                delete_key,
                delete_value,
                items@[j],
                node_at(nodes@, j),
            ),
    ensures
        r.deleted + r.failed == items@.len(),
        exists|os: Seq<ItemOutcome>|
            #[trigger] residue_report(
                in_use,
                remove_file,
                recycle_batch,
                remove_dir,
                dir_is_empty,
                delete_key,
                delete_value,
                items@,
                nodes@,
                os,
                r,
            ),
{
    let missing = FsNode::Missing;
    let mut locked = LockTracker::new();
    let mut errors: Vec<String> = Vec::new();
    let mut deleted: u64 = 0;
    let mut failed: u64 = 0;
    let mut bytes: u64 = 0;
    let ghost mut os: Seq<ItemOutcome> = seq![];
    let mut i: usize = 0;
    proof {
        assert(items@.take(0) =~= Seq::<ResidueItem>::empty());
        assert(strings_view(locked.samples@) =~= Seq::<Seq<char>>::empty());
        assert(strings_view(errors@) =~= Seq::<Seq<char>>::empty());
    }
    while i < items.len()
        invariant
            i <= items@.len(),
            missing == FsNode::Missing,
            os.len() == i,
            forall|j: int|
                0 <= j < i ==> #[trigger] item_justified(
                    in_use,
                    remove_file,
                    recycle_batch,
                    remove_dir,
                    dir_is_empty,
                    delete_key,
                    delete_value,
                    items@[j],
                    node_at(nodes@, j),
                    os[j],
                ),
            deleted == residue_totals(items@.take(i as int), nodes@, os).0,
            failed == residue_totals(items@.take(i as int), nodes@, os).1,
            bytes == residue_totals(items@.take(i as int), nodes@, os).2,
            locked.count == residue_totals(items@.take(i as int), nodes@, os).3.len(),
            strings_view(locked.samples@) == add_samples(
                seq![],
                residue_totals(items@.take(i as int), nodes@, os).3,
            ),
            strings_view(errors@) == residue_totals(items@.take(i as int), nodes@, os).4,
            residue_ops_size(items@, nodes@).0 <= u64::MAX,
            residue_ops_size(items@, nodes@).1 + items@.len() <= u64::MAX,
            forall|j: int|
                0 <= j < items@.len() ==> #[trigger] item_calls_allowed(
                    in_use,
                    remove_file,
                    recycle_batch,
                    remove_dir,
                    dir_is_empty,
                    delete_key,
                    delete_value,
                    items@[j],
                    node_at(nodes@, j),
                ),
        decreases items@.len() - i,
    {
        let node: &FsNode = if i < nodes.len() {
            &nodes[i]
        } else {
            &missing
        };
        let ghost pre = items@.take(i as int);
        let ghost t = residue_totals(pre, nodes@, os);
        proof {
            assert(*node == node_at(nodes@, i as int));
            assert(items@.take(i + 1).drop_last() =~= pre);
            assert(items@.take(i + 1)[i as int] == items@[i as int]);
            lemma_residue_ops_size_prefix(items@, nodes@, i + 1);
            assert forall|j: int| 0 <= j < pre.len() implies #[trigger] outcome_fits(
                pre[j],
                node_at(nodes@, j),
                os[j],
            ) by {
                assert(pre[j] == items@[j]);
                assert(item_justified(
                    in_use,
                    remove_file,
                    recycle_batch,
                    remove_dir,
                    dir_is_empty,
                    delete_key,
                    delete_value,
                    items@[j],
                    node_at(nodes@, j),
                    os[j],
                ));
            }
            lemma_residue_totals_bounds(pre, nodes@, os);
        }
        let ghost c0 = locked.count;
        let ghost s0 = strings_view(locked.samples@);
        let ghost e0 = strings_view(errors@);
        let res = delete_item(
            &items[i],
            node,
            &mut errors,
            &mut locked,
            in_use,
            remove_file,
            recycle_batch,
            remove_dir,
            dir_is_empty,
            delete_key,
            delete_value,
        );
        let ghost o = choose|o: ItemOutcome|
            #[trigger] item_step(
                in_use,
                remove_file,
                recycle_batch,
                remove_dir,
                dir_is_empty,
                delete_key,
                delete_value,
                items@[i as int],
                *node,
                o,
                res,
                c0,
                locked.count,
                s0,
                strings_view(locked.samples@),
                e0,
                strings_view(errors@),
            );
        proof {
            crate::deletion::lemma_add_samples_concat(seq![], t.3, item_locked(*node, o));
            match o {
                ItemOutcome::Path(outs) => {
                    crate::deletion::lemma_force_bounds(force_ops(*node), outs);
                },
                ItemOutcome::Registry(_) => {},
            }
        }
        match res {
            Ok(freed) => {
                deleted = deleted + 1;
                bytes = bytes + freed;
            },
            Err(e) => {
                failed = failed + 1;
                let ghost before = errors@;
                errors.push(e);
                proof {
                    assert(strings_view(errors@) =~= strings_view(before).push(e@));
                }
            },
        }
        proof {
            let os2 = os.push(o);
            assert(os2.drop_last() =~= os);
            assert(os2.last() == o);
            assert(residue_totals(items@.take(i + 1), nodes@, os2).4 =~= t.4 + item_errors(
                items@[i as int],
                *node,
                o,
            ));
            assert(t.4 + item_step_errors(*node, o) + match item_result(items@[i as int], *node, o) {
                Err(m) => seq![m],
                Ok(_) => Seq::<Seq<char>>::empty(),
            } =~= t.4 + item_errors(items@[i as int], *node, o));
            os = os2;
        }
        i += 1;
    }
    proof {
        assert(items@.take(items@.len() as int) =~= items@);
        assert forall|j: int| 0 <= j < items@.len() implies #[trigger] outcome_fits(
            items@[j],
            node_at(nodes@, j),
            os[j],
        ) by {
            assert(item_justified(
                in_use,
                remove_file,
                recycle_batch,
                remove_dir,
                dir_is_empty,
                delete_key,
                delete_value,
                items@[j],
                node_at(nodes@, j),
                os[j],
            ));
        }
        lemma_residue_totals_bounds(items@, nodes@, os);
    }
    let r = DeleteReport {
        deleted,
        failed,
        bytes_freed: bytes,
        locked: locked.count,
        locked_paths: locked.samples,
        errors,
    };
    proof {
        assert(residue_report(
            in_use,
            remove_file,
            recycle_batch,
            remove_dir,
            dir_is_empty,
            delete_key,
            delete_value,
            items@,
            nodes@,
            os,
            r,
        ));
    }
    r
}

} // verus!
