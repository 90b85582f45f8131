//! Cleaning junk: which categories a request selects, and deleting what a category
//! covers.
//!
//! The caller reads each target path into an [`FsNode`] and hands in the operations
//! that touch the file system; the library decides what is deleted and how the report
//! adds up.

use vstd::prelude::*;
use crate::categories::{
    CategorySpec, SpecialCategory, catalog_ids, catalog_len, is_catalog_entry, specs, strs_view,
};
use crate::deletion::{
    FsNode, ForceOp, ForceOutcome, add_samples, entries_wf, fs_wf, lemma_ops_under,
    lemma_below_transitive, lies_under, path_below, op_path, delete_path_force, force_errors, force_freed,
    force_items, force_justified, force_locked, force_ops, force_result, ops_bytes,
    force_calls_allowed, plan_within, lemma_plan_concat, lemma_plan_within_trans, lemma_calls_within,
};
use crate::junk::{CleanReport, file_name_matches, name_matches, targets_spec};
use crate::text::{hex, hex_string};
use crate::util::{LockTracker, strings_view};

verus! {

/// Whether a category deletes only files whose names match its filters.
pub open spec fn has_filters(spec: CategorySpec) -> bool {
    spec.file_prefixes@.len() > 0 || spec.file_suffixes@.len() > 0
}

/// Whether a category deletes only files whose names match its filters (the targets
/// of such a category are read as walks that do not enter links).
pub fn uses_name_filters(spec: &CategorySpec) -> (r: bool)
    ensures
        r == has_filters(*spec),
{
    spec.file_prefixes.len() > 0 || spec.file_suffixes.len() > 0
}

/// Steps that delete the files under `node` whose names match, in walking order.
pub open spec fn matching_ops(node: FsNode, pre: Seq<Seq<char>>, suf: Seq<Seq<char>>) -> Seq<
    ForceOp,
>
    decreases node,
{
    match node {
        FsNode::Missing => seq![],
        FsNode::File { path, name, size } => if name_matches(name@, pre, suf) {
            seq![ForceOp::File(path@, size)]
        } else {
            seq![]
        },
        FsNode::Dir { entries, .. } => matching_entries_ops(entries@, pre, suf),
    }
}

/// `matching_ops` of each of `es` in turn.
pub open spec fn matching_entries_ops(es: Seq<FsNode>, pre: Seq<Seq<char>>, suf: Seq<Seq<char>>) -> Seq<
    ForceOp,
>
    decreases es,
{
    if es.len() == 0 {
        seq![]
    } else {
        matching_entries_ops(es.drop_last(), pre, suf) + matching_ops(es.last(), pre, suf)
    }
}

/// Steps of cleaning one target: its matching files when the category has filters,
/// everything at the path otherwise.
pub open spec fn target_ops(spec: CategorySpec, node: FsNode) -> Seq<ForceOp> {
    if has_filters(spec) {
        matching_ops(node, strs_view(spec.file_prefixes@), strs_view(spec.file_suffixes@))
    } else {
        force_ops(node)
    }
}

/// Steps of cleaning the targets of a category, one after the other.
pub open spec fn clean_ops(spec: CategorySpec, targets: Seq<FsNode>) -> Seq<ForceOp>
    decreases targets.len(),
{
    if targets.len() == 0 {
        seq![]
    } else {
        clean_ops(spec, targets.drop_last()) + target_ops(spec, targets.last())
    }
}

/// `matching_entries_ops` splits over a concatenation.
proof fn lemma_matching_entries_concat(
    a: Seq<FsNode>,
    b: Seq<FsNode>,
    pre: Seq<Seq<char>>,
    suf: Seq<Seq<char>>,
)
    ensures
        matching_entries_ops(a + b, pre, suf) == matching_entries_ops(a, pre, suf)
            + matching_entries_ops(b, pre, suf),
    decreases b.len(),
{
    if b.len() == 0 {
        assert(a + b =~= a);
        assert(matching_entries_ops(a, pre, suf) + Seq::<ForceOp>::empty() =~= matching_entries_ops(
            a,
            pre,
            suf,
        ));
    } else {
        lemma_matching_entries_concat(a, b.drop_last(), pre, suf);
        assert((a + b).drop_last() =~= a + b.drop_last());
        assert(matching_entries_ops(a, pre, suf) + matching_entries_ops(b.drop_last(), pre, suf)
            + matching_ops(b.last(), pre, suf) =~= matching_entries_ops(a, pre, suf) + (
        matching_entries_ops(b.drop_last(), pre, suf) + matching_ops(b.last(), pre, suf)));
    }
}

/// The matching files of entry `k` are among the matching files of all the entries.
proof fn lemma_matching_entry_plan(es: Seq<FsNode>, k: int, pre: Seq<Seq<char>>, suf: Seq<Seq<char>>)
    requires
        0 <= k < es.len(),
    ensures
        plan_within(matching_ops(es[k], pre, suf), matching_entries_ops(es, pre, suf)),
    decreases es.len(),
{
    let a = matching_entries_ops(es.drop_last(), pre, suf);
    let b = matching_ops(es.last(), pre, suf);
    assert(matching_entries_ops(es, pre, suf) == a + b);
    lemma_plan_concat(a, b);
    if k < es.len() - 1 {
        assert(es.drop_last()[k] == es[k]);
        lemma_matching_entry_plan(es.drop_last(), k, pre, suf);
        lemma_plan_within_trans(matching_ops(es[k], pre, suf), a, a + b);
    }
}

/// Deletes the files under `node` whose names match the filters, in walking order,
/// each as `delete_path_force` does. Returns the bytes freed and the files deleted.
/// The operations may only be called on those files, so no directory is removed.
pub fn delete_matching<
    P: Fn(String) -> bool,
    R: Fn(String) -> Result<(), String>,
    B: Fn(Vec<String>) -> Result<(), String>,
    D: Fn(String) -> Result<(), String>,
    E: Fn(String) -> bool,
>(
    node: &FsNode,
    prefixes: &[&'static str],
    suffixes: &[&'static str],
    to_recycle_bin: bool,
    errors: &mut Vec<String>,
    locked: &mut LockTracker,
    in_use: &P,
    remove_file: &R,
    recycle_batch: &B,
    remove_dir: &D,
    dir_is_empty: &E,
) -> (r: (u64, u64))
    requires
        ops_bytes(matching_ops(*node, strs_view(prefixes@), strs_view(suffixes@))) <= u64::MAX,
        old(locked).count + matching_ops(*node, strs_view(prefixes@), strs_view(suffixes@)).len()
            <= u64::MAX,
        force_calls_allowed(
            in_use,
            remove_file,
            recycle_batch,
            remove_dir,
            dir_is_empty,
            matching_ops(*node, strs_view(prefixes@), strs_view(suffixes@)),
        ),
    ensures
        exists|outs: Seq<ForceOutcome>|
            #[trigger] force_result(
                in_use,
                remove_file,
                recycle_batch,
                remove_dir,
                dir_is_empty,
                to_recycle_bin,
                matching_ops(*node, strs_view(prefixes@), strs_view(suffixes@)),
                outs,
                r,
                old(locked).count,
                final(locked).count,
                strings_view(old(locked).samples@),
                strings_view(final(locked).samples@),
                strings_view(old(errors)@),
                strings_view(final(errors)@),
            ),
    decreases node,
{
    let ghost pre = strs_view(prefixes@);
    let ghost suf = strs_view(suffixes@);
    let ghost c0 = locked.count;
    let ghost s0 = strings_view(locked.samples@);
    let ghost e0 = strings_view(errors@);
    match node {
        FsNode::Missing => {
            proof {
                assert(e0 + Seq::<Seq<char>>::empty() =~= e0);
                assert(force_result(
                    in_use,
                    remove_file,
                    recycle_batch,
                    remove_dir,
                    dir_is_empty,
                    to_recycle_bin,
                    matching_ops(*node, pre, suf),
                    seq![],
                    (0u64, 0u64),
                    c0,
                    locked.count,
                    s0,
                    strings_view(locked.samples@),
                    e0,
                    strings_view(errors@),
                ));
            }
            (0, 0)
        },
        FsNode::File { name, .. } => {
            if file_name_matches(name.as_str(), prefixes, suffixes) {
                proof {
                    assert(matching_ops(*node, pre, suf) == force_ops(*node));
                }
                delete_path_force(
                    node,
                    to_recycle_bin,
                    errors,
                    locked,
                    in_use,
                    remove_file,
                    recycle_batch,
                    remove_dir,
                    dir_is_empty,
                )
            } else {
                proof {
                    assert(e0 + Seq::<Seq<char>>::empty() =~= e0);
                    assert(matching_ops(*node, pre, suf) =~= Seq::<ForceOp>::empty());
                    assert(force_result(
                        in_use,
                        remove_file,
                        recycle_batch,
                        remove_dir,
                        dir_is_empty,
                        to_recycle_bin,
                        matching_ops(*node, pre, suf),
                        seq![],
                        (0u64, 0u64),
                        c0,
                        locked.count,
                        s0,
                        strings_view(locked.samples@),
                        e0,
                        strings_view(errors@),
                    ));
                }
                (0, 0)
            }
        },
        FsNode::Dir { path, entries } => {
            let ghost es = entries@;
            let ghost mut outs: Seq<ForceOutcome> = seq![];
            let mut freed: u64 = 0;
            let mut items: u64 = 0;
            let mut i: usize = 0;
            proof {
                assert(es.take(0) =~= Seq::<FsNode>::empty());
                assert(e0 + Seq::<Seq<char>>::empty() =~= e0);
                assert(matching_ops(*node, pre, suf) == matching_entries_ops(es, pre, suf));
            }
            while i < entries.len()
                invariant
                    es == entries@,
                    *node == (FsNode::Dir { path: *path, entries: *entries }),
                    pre == strs_view(prefixes@),
                    suf == strs_view(suffixes@),
                    i <= es.len(),
                    outs.len() == matching_entries_ops(es.take(i as int), pre, suf).len(),
                    forall|j: int|
                        0 <= j < outs.len() ==> #[trigger] force_justified(
                            in_use,
                            remove_file,
                            recycle_batch,
                            remove_dir,
                            dir_is_empty,
                            to_recycle_bin,
                            matching_entries_ops(es.take(i as int), pre, suf)[j],
                            outs[j],
                        ),
                    freed == force_freed(matching_entries_ops(es.take(i as int), pre, suf), outs),
                    items == force_items(matching_entries_ops(es.take(i as int), pre, suf), outs),
                    locked.count == c0 + force_locked(
                        matching_entries_ops(es.take(i as int), pre, suf),
                        outs,
                    ).len(),
                    strings_view(locked.samples@) == add_samples(
                        s0,
                        force_locked(matching_entries_ops(es.take(i as int), pre, suf), outs),
                    ),
                    strings_view(errors@) == e0 + force_errors(
                        matching_entries_ops(es.take(i as int), pre, suf),
                        outs,
                    ),
                    ops_bytes(matching_entries_ops(es, pre, suf)) <= u64::MAX,
                    c0 + matching_entries_ops(es, pre, suf).len() <= u64::MAX,
                    force_calls_allowed(in_use, remove_file, recycle_batch, remove_dir, dir_is_empty, matching_entries_ops(es, pre, suf)),
                decreases es.len() - i,
            {
                let ghost prefix = matching_entries_ops(es.take(i as int), pre, suf);
                let ghost child = matching_ops(es[i as int], pre, suf);
                proof {
                    assert(es.take(i + 1).drop_last() =~= es.take(i as int));
                    assert(es.take(i + 1).last() == es[i as int]);
                    assert(matching_entries_ops(es.take(i + 1), pre, suf) == prefix + child);
                    assert(es.take(i + 1) + es.skip(i + 1) =~= es);
                    lemma_matching_entries_concat(es.take(i + 1), es.skip(i + 1), pre, suf);
                    crate::deletion::lemma_ops_bytes_concat(
                        prefix + child,
                        matching_entries_ops(es.skip(i + 1), pre, suf),
                    );
                    crate::deletion::lemma_ops_bytes_concat(prefix, child);
                    crate::deletion::lemma_ops_bytes_nonneg(
                        matching_entries_ops(es.skip(i + 1), pre, suf),
                    );
                    crate::deletion::lemma_ops_bytes_nonneg(prefix);
                    crate::deletion::lemma_force_bounds(prefix, outs);
                    assert(decreases_to!(*node => (*node)->Dir_entries));
                    assert(decreases_to!(*entries => entries@));
                    assert(decreases_to!(entries@ => entries@[i as int]));
                }
                let ghost cm = locked.count;
                let ghost sm = strings_view(locked.samples@);
                let ghost em = strings_view(errors@);
                proof {
                    lemma_matching_entry_plan(es, i as int, pre, suf);
                    lemma_calls_within(
                        in_use,
                        remove_file,
                        recycle_batch,
                        remove_dir,
                        dir_is_empty,
                        child,
                        matching_entries_ops(es, pre, suf),
                    );
                }
                let (f, it) = delete_matching(
                    &entries[i],
                    prefixes,
                    suffixes,
                    to_recycle_bin,
                    errors,
                    locked,
                    in_use,
                    remove_file,
                    recycle_batch,
                    remove_dir,
                    dir_is_empty,
                );
                proof {
                    let child_outs = choose|o: Seq<ForceOutcome>|
                        #[trigger] force_result(
                            in_use,
                            remove_file,
                            recycle_batch,
                            remove_dir,
                            dir_is_empty,
                            to_recycle_bin,
                            child,
                            o,
                            (f, it),
                            cm,
                            locked.count,
                            sm,
                            strings_view(locked.samples@),
                            em,
                            strings_view(errors@),
                        );
                    crate::deletion::lemma_force_concat(prefix, outs, child, child_outs);
                    crate::deletion::lemma_force_bounds(child, child_outs);
                    crate::deletion::lemma_add_samples_concat(
                        s0,
                        force_locked(prefix, outs),
                        force_locked(child, child_outs),
                    );
                    assert(e0 + force_errors(prefix, outs) + force_errors(child, child_outs) =~= e0 + (
                    force_errors(prefix, outs) + force_errors(child, child_outs)));
                    let all = prefix + child;
                    let all_outs = outs + child_outs;
                    assert forall|j: int| 0 <= j < all_outs.len() implies #[trigger] force_justified(
                        in_use,
                        remove_file,
                        recycle_batch,
                        remove_dir,
                        dir_is_empty,
                        to_recycle_bin,
                        all[j],
                        all_outs[j],
                    ) by {
                        if j < outs.len() {
                            assert(all[j] == prefix[j]);
                            assert(all_outs[j] == outs[j]);
                        } else {
                            assert(all[j] == child[j - outs.len()]);
                            assert(all_outs[j] == child_outs[j - outs.len()]);
                        }
                    }
                    outs = all_outs;
                }
                freed = freed + f;
                items = items + it;
                i += 1;
            }
            proof {
                assert(es.take(es.len() as int) =~= es);
                assert(force_result(
                    in_use,
                    remove_file,
                    recycle_batch,
                    remove_dir,
                    dir_is_empty,
                    to_recycle_bin,
                    matching_ops(*node, pre, suf),
                    outs,
                    (freed, items),
                    c0,
                    locked.count,
                    s0,
                    strings_view(locked.samples@),
                    e0,
                    strings_view(errors@),
                ));
            }
            (freed, items)
        },
    }
}

/// The error reported when emptying the recycle bin fails with `code`.
pub open spec fn recycle_bin_error(code: i32) -> Seq<char> {
    "清空回收站失败（错误码 0x"@ + hex((code as u32) as nat) + "）"@
}

/// `clean_ops` splits over a concatenation of targets.
proof fn lemma_clean_ops_concat(spec: CategorySpec, a: Seq<FsNode>, b: Seq<FsNode>)
    ensures
        clean_ops(spec, a + b) == clean_ops(spec, a) + clean_ops(spec, b),
    decreases b.len(),
{
    if b.len() == 0 {
        assert(a + b =~= a);
        assert(clean_ops(spec, a) + Seq::<ForceOp>::empty() =~= clean_ops(spec, a));
    } else {
        lemma_clean_ops_concat(spec, a, b.drop_last());
        assert((a + b).drop_last() =~= a + b.drop_last());
        assert(clean_ops(spec, a) + clean_ops(spec, b.drop_last()) + target_ops(spec, b.last())
            =~= clean_ops(spec, a) + (clean_ops(spec, b.drop_last()) + target_ops(spec, b.last())));
    }
}

/// The outcomes `outs` justify each step of `ops` (with deletion for good), and the
/// report after is the report before plus what they add up to.
pub open spec fn clean_result<
    P: Fn(String) -> bool,
    R: Fn(String) -> Result<(), String>,
    B: Fn(Vec<String>) -> Result<(), String>,
    D: Fn(String) -> Result<(), String>,
    E: Fn(String) -> bool,
>(
    in_use: P,
    remove_file: R,
    recycle_batch: B,
    remove_dir: D,
    dir_is_empty: E,
    ops: Seq<ForceOp>,
    outs: Seq<ForceOutcome>,
    before: CleanReport,
    after: CleanReport,
) -> bool {
    &&& outs.len() == ops.len()
    &&& forall|i: int|
        0 <= i < ops.len() ==> #[trigger] force_justified(
            in_use,
            remove_file,
            recycle_batch,
            remove_dir,
            dir_is_empty,
            false,
            ops[i],
            outs[i],
        )
    &&& after.bytes_freed == before.bytes_freed + force_freed(ops, outs)
    &&& after.items_removed == before.items_removed + force_items(ops, outs)
    &&& after.locked == before.locked + force_locked(ops, outs).len()
    &&& strings_view(after.locked_paths@) == add_samples(
        strings_view(before.locked_paths@),
        force_locked(ops, outs),
    )
    &&& strings_view(after.errors@) == strings_view(before.errors@) + force_errors(ops, outs)
}

/// `clean_category`: cleans one category into `report`. The recycle bin is emptied
/// with `empty_recycle_bin`, which answers the bytes it held and the system's result
/// code: on success the report frees those bytes, else it frees none and records the
/// code. Any other category deletes, for good, what lies at each of its targets
/// (`targets[i]` is what was read at its `i`-th target), or only the files whose
/// names match when it has filters. The operations may only be called on the steps of
/// the clean (`force_calls_allowed` of `clean_ops`); `empty_recycle_bin`, taken by
/// value, is called at most once and only for the recycle bin.
pub fn clean_category<
    P: Fn(String) -> bool,
    R: Fn(String) -> Result<(), String>,
    B: Fn(Vec<String>) -> Result<(), String>,
    D: Fn(String) -> Result<(), String>,
    E: Fn(String) -> bool,
    G: FnOnce() -> (u64, i32),
>(
    spec: &CategorySpec,
    targets: &[FsNode],
    report: &mut CleanReport,
    in_use: &P,
    remove_file: &R,
    recycle_batch: &B,
    remove_dir: &D,
    dir_is_empty: &E,
    empty_recycle_bin: G,
)
    requires
        spec.special != Some(SpecialCategory::RecycleBin) ==> {
            &&& old(report).bytes_freed + ops_bytes(clean_ops(*spec, targets@)) <= u64::MAX
            &&& old(report).items_removed + clean_ops(*spec, targets@).len() <= u64::MAX
            &&& old(report).locked + clean_ops(*spec, targets@).len() <= u64::MAX
        },
        spec.special != Some(SpecialCategory::RecycleBin) ==> force_calls_allowed(
            in_use,
            remove_file,
            recycle_batch,
            remove_dir,
            dir_is_empty,
            clean_ops(*spec, targets@),
        ),
        spec.special == Some(SpecialCategory::RecycleBin) ==> call_requires(empty_recycle_bin, ()),
    ensures
        final(report).category_id == old(report).category_id,
        final(report).category_name == old(report).category_name,
        spec.special == Some(SpecialCategory::RecycleBin) ==> exists|size: u64, code: i32|
            {
                &&& #[trigger] call_ensures(empty_recycle_bin, (), (size, code))
                &&& final(report).bytes_freed == if code == 0 {
                    size
                } else {
                    0
                }
                &&& strings_view(final(report).errors@) == strings_view(old(report).errors@) + if code
                    == 0 {
                    Seq::<Seq<char>>::empty()
                } else {
                    seq![recycle_bin_error(code)]
                }
                &&& final(report).items_removed == old(report).items_removed
                &&& final(report).locked == old(report).locked
                &&& final(report).locked_paths@ == old(report).locked_paths@
            },
        spec.special != Some(SpecialCategory::RecycleBin) ==> exists|outs: Seq<ForceOutcome>|
            #[trigger] clean_result(
                in_use,
                remove_file,
                recycle_batch,
                remove_dir,
                dir_is_empty,
                clean_ops(*spec, targets@),
                outs,
                *old(report),
                *final(report),
            ),
{
    if spec.special == Some(SpecialCategory::RecycleBin) {
        let (size, code) = empty_recycle_bin();
        if code != 0 {
            let digits = hex_string(code as u32);
            let line = crate::text::concat3("清空回收站失败（错误码 0x", digits.as_str(), "）");
            let ghost before = report.errors@;
            report.errors.push(line);
            report.bytes_freed = 0;
            proof {
                assert(strings_view(report.errors@) =~= strings_view(before) + seq![
                    recycle_bin_error(code),
                ]);
            }
        } else {
            report.bytes_freed = size;
            proof {
                assert(strings_view(report.errors@) =~= strings_view(report.errors@)
                    + Seq::<Seq<char>>::empty());
            }
        }
        return ;
    }
    let ghost ops_all = clean_ops(*spec, targets@);
    let ghost pre = strs_view(spec.file_prefixes@);
    let ghost suf = strs_view(spec.file_suffixes@);
    let ghost c0 = report.locked;
    let ghost s0 = strings_view(report.locked_paths@);
    let ghost e0 = strings_view(report.errors@);
    let filtered = spec.file_prefixes.len() > 0 || spec.file_suffixes.len() > 0;
    let mut tracker = LockTracker::new();
    tracker.count = report.locked;
    std::mem::swap(&mut tracker.samples, &mut report.locked_paths);
    let mut errors: Vec<String> = Vec::new();
    std::mem::swap(&mut errors, &mut report.errors);
    let mut freed: u64 = 0;
    let mut items: u64 = 0;
    let ghost mut outs: Seq<ForceOutcome> = seq![];
    let mut i: usize = 0;
    proof {
        assert(targets@.take(0) =~= Seq::<FsNode>::empty());
        assert(e0 + Seq::<Seq<char>>::empty() =~= e0);
        crate::deletion::lemma_ops_bytes_nonneg(ops_all);
    }
    while i < targets.len()
        invariant
            ops_all == clean_ops(*spec, targets@),
            pre == strs_view(spec.file_prefixes@),
            suf == strs_view(spec.file_suffixes@),
            filtered == has_filters(*spec),
            i <= targets@.len(),
            outs.len() == clean_ops(*spec, targets@.take(i as int)).len(),
            forall|j: int|
                0 <= j < outs.len() ==> #[trigger] force_justified(
                    in_use,
                    remove_file,
                    recycle_batch,
                    remove_dir,
                    dir_is_empty,
                    false,
                    clean_ops(*spec, targets@.take(i as int))[j],
                    outs[j],
                ),
            freed == force_freed(clean_ops(*spec, targets@.take(i as int)), outs),
            items == force_items(clean_ops(*spec, targets@.take(i as int)), outs),
            tracker.count == c0 + force_locked(clean_ops(*spec, targets@.take(i as int)), outs).len(),
            strings_view(tracker.samples@) == add_samples(
                s0,
                force_locked(clean_ops(*spec, targets@.take(i as int)), outs),
            ),
            strings_view(errors@) == e0 + force_errors(clean_ops(*spec, targets@.take(i as int)), outs),
            c0 + ops_all.len() <= u64::MAX,
            ops_bytes(ops_all) <= u64::MAX,
            force_calls_allowed(in_use, remove_file, recycle_batch, remove_dir, dir_is_empty, ops_all),
        decreases targets@.len() - i,
    {
        let ghost prefix = clean_ops(*spec, targets@.take(i as int));
        let ghost child = target_ops(*spec, targets@[i as int]);
        proof {
            assert(targets@.take(i + 1).drop_last() =~= targets@.take(i as int));
            assert(targets@.take(i + 1).last() == targets@[i as int]);
            assert(clean_ops(*spec, targets@.take(i + 1)) == prefix + child);
            assert(targets@.take(i + 1) + targets@.skip(i + 1) =~= targets@);
            lemma_clean_ops_concat(*spec, targets@.take(i + 1), targets@.skip(i + 1));
            crate::deletion::lemma_ops_bytes_concat(
                prefix + child,
                clean_ops(*spec, targets@.skip(i + 1)),
            );
            crate::deletion::lemma_ops_bytes_concat(prefix, child);
            crate::deletion::lemma_ops_bytes_nonneg(clean_ops(*spec, targets@.skip(i + 1)));
            crate::deletion::lemma_ops_bytes_nonneg(prefix);
            crate::deletion::lemma_force_bounds(prefix, outs);
            lemma_plan_concat(prefix, child);
            lemma_plan_concat(prefix + child, clean_ops(*spec, targets@.skip(i + 1)));
            lemma_plan_within_trans(child, prefix + child, ops_all);
            lemma_calls_within(in_use, remove_file, recycle_batch, remove_dir, dir_is_empty, child, ops_all);
        }
        let ghost cm = tracker.count;
        let ghost sm = strings_view(tracker.samples@);
        let ghost em = strings_view(errors@);
        let (f, it) = if filtered {
            delete_matching(
                &targets[i],
                spec.file_prefixes,
                spec.file_suffixes,
                false,
                &mut errors,
                &mut tracker,
                in_use,
                remove_file,
                recycle_batch,
                remove_dir,
                dir_is_empty,
            )
        } else {
            delete_path_force(
                &targets[i],
                false,
                &mut errors,
                &mut tracker,
                in_use,
                remove_file,
                recycle_batch,
                remove_dir,
                dir_is_empty,
            )
        };
        proof {
            let child_outs = choose|o: Seq<ForceOutcome>|
                #[trigger] force_result(
                    in_use,
                    remove_file,
                    recycle_batch,
                    remove_dir,
                    dir_is_empty,
                    false,
                    child,
                    o,
                    (f, it),
                    cm,
                    tracker.count,
                    sm,
                    strings_view(tracker.samples@),
                    em,
                    strings_view(errors@),
                );
            crate::deletion::lemma_force_concat(prefix, outs, child, child_outs);
            crate::deletion::lemma_force_bounds(child, child_outs);
            crate::deletion::lemma_add_samples_concat(
                s0,
                force_locked(prefix, outs),
                force_locked(child, child_outs),
            );
            assert(e0 + force_errors(prefix, outs) + force_errors(child, child_outs) =~= e0 + (
            force_errors(prefix, outs) + force_errors(child, child_outs)));
            let all = prefix + child;
            let all_outs = outs + child_outs;
            assert forall|j: int| 0 <= j < all_outs.len() implies #[trigger] force_justified(
                in_use,
                remove_file,
                recycle_batch,
                remove_dir,
                dir_is_empty,
                false,
                all[j],
                all_outs[j],
            ) by {
                if j < outs.len() {
                    assert(all[j] == prefix[j]);
                    assert(all_outs[j] == outs[j]);
                } else {
                    assert(all[j] == child[j - outs.len()]);
                    assert(all_outs[j] == child_outs[j - outs.len()]);
                }
            }
            outs = all_outs;
        }
        freed = freed + f;
        items = items + it;
        i += 1;
    }
    proof {
        assert(targets@.take(targets@.len() as int) =~= targets@);
        crate::deletion::lemma_force_bounds(ops_all, outs);
    }
    report.bytes_freed = report.bytes_freed + freed;
    report.items_removed = report.items_removed + items;
    report.locked = tracker.count;
    std::mem::swap(&mut tracker.samples, &mut report.locked_paths);
    std::mem::swap(&mut errors, &mut report.errors);
    proof {
        assert(clean_result(
            in_use,
            remove_file,
            recycle_batch,
            remove_dir,
            dir_is_empty,
            ops_all,
            outs,
            *old(report),
            *report,
        ));
    }
}

/// The catalog positions below `n` whose ids are among `ids`, in catalog order.
pub open spec fn selected_positions(ids: Seq<Seq<char>>, n: int) -> Seq<int>
    decreases n,
{
    if n <= 0 {
        seq![]
    } else {
        selected_positions(ids, n - 1) + if ids.contains(catalog_ids()[n - 1]) {
            seq![n - 1]
        } else {
            Seq::<int>::empty()
        }
    }
}

/// Whether `id` is among `ids`.
fn contains_id(ids: &[String], id: &str) -> (r: bool)
    ensures
        r == strings_view(ids@).contains(id@),
{
    let wanted = id.to_owned();
    let mut j: usize = 0;
    while j < ids.len()
        invariant
            j <= ids@.len(),
            wanted@ == id@,
            forall|k: int| 0 <= k < j ==> ids@[k]@ != id@,
        decreases ids@.len() - j,
    {
        if ids[j] == wanted {
            proof {
                assert(strings_view(ids@)[j as int] == id@);
            }
            return true;
        }
        j += 1;
    }
    proof {
        if strings_view(ids@).contains(id@) {
            let k: int = choose|k: int| 0 <= k < strings_view(ids@).len() && strings_view(ids@)[k] == id@;
            assert(ids@[k]@ == id@);
        }
    }
    false
}

/// The categories of the catalog whose ids are among `ids`, in catalog order (the
/// order of `ids` and ids that name no category do not matter).
pub fn select_categories(ids: &[String]) -> (r: Vec<CategorySpec>)
    ensures
        r@.len() == selected_positions(strings_view(ids@), catalog_len() as int).len(),
        forall|k: int|
            0 <= k < r@.len() ==> is_catalog_entry(
                #[trigger] r@[k],
                selected_positions(strings_view(ids@), catalog_len() as int)[k],
            ),
{
    let all = specs();
    let ghost idv = strings_view(ids@);
    let mut r: Vec<CategorySpec> = Vec::new();
    let mut i: usize = 0;
    while i < all.len()
        invariant
            all@.len() == catalog_len(),
            forall|k: int| 0 <= k < catalog_len() ==> is_catalog_entry(#[trigger] all@[k], k),
            idv == strings_view(ids@),
            i <= all@.len(),
            r@.len() == selected_positions(idv, i as int).len(),
            forall|k: int|
                0 <= k < r@.len() ==> is_catalog_entry(
                    #[trigger] r@[k],
                    selected_positions(idv, i as int)[k],
                ),
        decreases all@.len() - i,
    {
        let c = all[i];
        proof {
            assert(is_catalog_entry(all@[i as int], i as int));
        }
        if contains_id(ids, c.id) {
            let ghost before = r@;
            r.push(c);
            proof {
                assert(selected_positions(idv, i + 1) == selected_positions(idv, i as int) + seq![
                    i as int,
                ]);
                assert forall|k: int| 0 <= k < r@.len() implies is_catalog_entry(
                    #[trigger] r@[k],
                    selected_positions(idv, i + 1)[k],
                ) by {
                    if k < before.len() {
                        assert(r@[k] == before[k]);
                    }
                }
            }
        } else {
            proof {
                assert(selected_positions(idv, i + 1) =~= selected_positions(idv, i as int));
            }
        }
        i += 1;
    }
    r
}

/// A category with name filters deletes files only, never a directory: every step of
/// cleaning it deletes one file whose name matches.
pub proof fn lemma_filtered_clean_deletes_matching_files(spec: CategorySpec, targets: Seq<FsNode>)
    requires
        has_filters(spec),
    ensures
        forall|i: int| 0 <= i < clean_ops(spec, targets).len() ==> #[trigger] clean_ops(spec, targets)[i] is File,
    decreases targets.len(),
{
    if targets.len() > 0 {
        lemma_filtered_clean_deletes_matching_files(spec, targets.drop_last());
        lemma_matching_only_files(
            targets.last(),
            strs_view(spec.file_prefixes@),
            strs_view(spec.file_suffixes@),
        );
        let a = clean_ops(spec, targets.drop_last());
        let b = target_ops(spec, targets.last());
        assert forall|i: int| 0 <= i < (a + b).len() implies #[trigger] (a + b)[i] is File by {
            if i < a.len() {
                assert((a + b)[i] == a[i]);
            } else {
                assert((a + b)[i] == b[i - a.len()]);
            }
        }
    }
}

/// The matching steps of a tree are file deletions.
proof fn lemma_matching_only_files(node: FsNode, pre: Seq<Seq<char>>, suf: Seq<Seq<char>>)
    ensures
        forall|i: int| 0 <= i < matching_ops(node, pre, suf).len() ==> #[trigger] matching_ops(node, pre, suf)[i] is File,
    decreases node,
{
    match node {
        FsNode::Dir { entries, .. } => {
            lemma_matching_entries_only_files(entries@, pre, suf);
        },
        _ => {},
    }
}

/// The matching steps of a list of trees are file deletions.
proof fn lemma_matching_entries_only_files(es: Seq<FsNode>, pre: Seq<Seq<char>>, suf: Seq<Seq<char>>)
    ensures
        forall|i: int| 0 <= i < matching_entries_ops(es, pre, suf).len() ==> #[trigger] matching_entries_ops(es, pre, suf)[i] is File,
    decreases es,
{
    if es.len() > 0 {
        lemma_matching_entries_only_files(es.drop_last(), pre, suf);
        lemma_matching_only_files(es.last(), pre, suf);
        let a = matching_entries_ops(es.drop_last(), pre, suf);
        let b = matching_ops(es.last(), pre, suf);
        assert forall|i: int| 0 <= i < (a + b).len() implies #[trigger] (a + b)[i] is File by {
            if i < a.len() {
                assert((a + b)[i] == a[i]);
            } else {
                assert((a + b)[i] == b[i - a.len()]);
            }
        }
    }
}

/// The matching steps of a well-formed `node` that lies below `dir` all work below `dir`.
proof fn lemma_matching_under(dir: Seq<char>, node: FsNode, pre: Seq<Seq<char>>, suf: Seq<Seq<char>>)
    requires
        fs_wf(node),
        lies_under(dir, node),
    ensures
        forall|i: int|
            0 <= i < matching_ops(node, pre, suf).len() ==> path_below(
                dir,
                #[trigger] op_path(matching_ops(node, pre, suf)[i]),
            ),
    decreases node,
{
    match node {
        FsNode::Dir { path, entries } => {
            lemma_matching_entries_under(path@, entries@, pre, suf);
            let a = matching_ops(node, pre, suf);
            assert(a == matching_entries_ops(entries@, pre, suf));
            assert forall|i: int| 0 <= i < a.len() implies path_below(dir, #[trigger] op_path(a[i])) by {
                assert(path_below(path@, op_path(matching_entries_ops(entries@, pre, suf)[i])));
                lemma_below_transitive(dir, path@, op_path(a[i]));
            }
        },
        _ => {},
    }
}

/// The matching steps of well-formed entries below `dir` all work below `dir`.
proof fn lemma_matching_entries_under(
    dir: Seq<char>,
    es: Seq<FsNode>,
    pre: Seq<Seq<char>>,
    suf: Seq<Seq<char>>,
)
    requires
        entries_wf(dir, es),
    ensures
        forall|i: int|
            0 <= i < matching_entries_ops(es, pre, suf).len() ==> path_below(
                dir,
                #[trigger] op_path(matching_entries_ops(es, pre, suf)[i]),
            ),
    decreases es,
{
    if es.len() > 0 {
        lemma_matching_entries_under(dir, es.drop_last(), pre, suf);
        lemma_matching_under(dir, es.last(), pre, suf);
        let a = matching_entries_ops(es.drop_last(), pre, suf);
        let b = matching_ops(es.last(), pre, suf);
        assert forall|i: int| 0 <= i < (a + b).len() implies path_below(dir, #[trigger] op_path((a + b)[i])) by {
            if i < a.len() {
                assert((a + b)[i] == a[i]);
            } else {
                assert((a + b)[i] == b[i - a.len()]);
            }
        }
    }
}

/// Whether `p` lies at or below one of `dirs`.
pub open spec fn below_one_of(dirs: Seq<Seq<char>>, p: Seq<char>) -> bool {
    exists|i: int| 0 <= i < dirs.len() && path_below(#[trigger] dirs[i], p)
}

/// Junk cleaning touches only the category's known paths: when each target was read
/// (well formed) at the category's `i`-th target path, every file deleted and every
/// directory removed lies at or below one of those paths.
pub proof fn lemma_clean_stays_under_targets(
    spec: CategorySpec,
    env: Seq<(Seq<char>, Seq<char>)>,
    targets: Seq<FsNode>,
)
    requires
        targets.len() <= targets_spec(spec, env).len(),
        forall|i: int|
            0 <= i < targets.len() ==> fs_wf(#[trigger] targets[i]) && lies_under(
                targets_spec(spec, env)[i],
                targets[i],
            ),
    ensures
        forall|k: int|
            0 <= k < clean_ops(spec, targets).len() ==> below_one_of(
                targets_spec(spec, env).take(targets.len() as int),
                op_path(#[trigger] clean_ops(spec, targets)[k]),
            ),
    decreases targets.len(),
{
    if targets.len() > 0 {
        let n = targets.len() - 1;
        let rest = targets.drop_last();
        assert forall|i: int| 0 <= i < rest.len() implies fs_wf(#[trigger] rest[i]) && lies_under(
            targets_spec(spec, env)[i],
            rest[i],
        ) by {
            assert(rest[i] == targets[i]);
        }
        lemma_clean_stays_under_targets(spec, env, rest);
        let dir = targets_spec(spec, env)[n];
        assert(fs_wf(targets[n]) && lies_under(dir, targets[n]));
        lemma_ops_under(dir, targets[n]);
        lemma_matching_under(dir, targets[n], strs_view(spec.file_prefixes@), strs_view(spec.file_suffixes@));
        let a = clean_ops(spec, rest);
        let b = target_ops(spec, targets.last());
        assert(targets.last() == targets[n]);
        let dirs = targets_spec(spec, env).take(targets.len() as int);
        let rest_dirs = targets_spec(spec, env).take(rest.len() as int);
        assert(clean_ops(spec, targets) == a + b);
        assert forall|k: int| 0 <= k < (a + b).len() implies below_one_of(
            dirs,
            op_path(#[trigger] (a + b)[k]),
        ) by {
            if k < a.len() {
                assert((a + b)[k] == a[k]);
                assert(below_one_of(rest_dirs, op_path(a[k])));
                let i = choose|i: int|
                    0 <= i < rest_dirs.len() && path_below(#[trigger] rest_dirs[i], op_path(a[k]));
                assert(dirs[i] == rest_dirs[i]);
            } else {
                assert((a + b)[k] == b[k - a.len()]);
                assert(path_below(dir, op_path(b[k - a.len()])));
                assert(dirs[n] == dir);
            }
        }
    }
}

} // verus!
