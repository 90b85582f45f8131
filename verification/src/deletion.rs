//! Deleting files and directories: in-use checks, recycle-bin batches, removal one by
//! one, and forced removal of directory trees. The file system is reached only through
//! the operations the caller hands in; what they answered is stated of every outcome.

use vstd::prelude::*;
use crate::util::{add_sample, strings_view, LockTracker};

verus! {

// ---------------------------------------------------------------------------
// Deleting files: outcomes of outside removal calls
// ---------------------------------------------------------------------------

/// An error line as the library reports it: `"<path>: <reason>"`.
pub open spec fn error_line(path: Seq<char>, reason: Seq<char>) -> Seq<char> {
    path + seq![':', ' '] + reason
}

/// Builds `error_line(path, reason)`.
pub fn error_line_exec(path: &str, reason: &str) -> (r: String)
    ensures
        r@ == error_line(path@, reason@),
{
    proof {
        reveal_strlit(": ");
    }
    crate::text::concat3(path, ": ", reason)
}

/// The (path, size) entries of a list, paths taken by their characters.
pub open spec fn entries_view(files: Seq<(String, u64)>) -> Seq<(Seq<char>, u64)> {
    files.map_values(|e: (String, u64)| (e.0@, e.1))
}

/// The paths of (path, size) entries.
pub open spec fn entry_paths(files: Seq<(Seq<char>, u64)>) -> Seq<Seq<char>> {
    files.map_values(|e: (Seq<char>, u64)| e.0)
}

/// The total size of (path, size) entries.
pub open spec fn entries_size(files: Seq<(Seq<char>, u64)>) -> int
    decreases files.len(),
{
    if files.len() == 0 {
        0
    } else {
        entries_size(files.drop_last()) + files.last().1
    }
}

/// How many paths one recycle-bin call takes at most.
pub open spec fn recycle_chunk() -> int {
    32
}

/// First index of the batch that holds entry `i`.
pub open spec fn chunk_start(i: int) -> int {
    (i / recycle_chunk()) * recycle_chunk()
}

/// End (exclusive) of the batch that holds entry `i`, among `n` entries.
pub open spec fn chunk_end(n: int, i: int) -> int {
    if chunk_start(i) + recycle_chunk() < n {
        chunk_start(i) + recycle_chunk()
    } else {
        n
    }
}

/// A call of `remove` on a list with these paths returned `Ok`.
pub open spec fn batch_ok<F: Fn(Vec<String>) -> Result<(), String>>(
    remove: F,
    paths: Seq<Seq<char>>,
) -> bool {
    exists|b: Vec<String>, r: Result<(), String>|
        strings_view(b@) == paths && r is Ok && #[trigger] call_ensures(remove, (b,), r)
}

/// A call of `remove` on a list with these paths returned an error with this text.
pub open spec fn batch_err<F: Fn(Vec<String>) -> Result<(), String>>(
    remove: F,
    paths: Seq<Seq<char>>,
    reason: Seq<char>,
) -> bool {
    exists|b: Vec<String>, m: String|
        strings_view(b@) == paths && m@ == reason && #[trigger] call_ensures(
            remove,
            (b,),
            Err::<(), String>(m),
        )
}

/// A call of `remove` on a list with these paths returned an error.
pub open spec fn batch_failed<F: Fn(Vec<String>) -> Result<(), String>>(
    remove: F,
    paths: Seq<Seq<char>>,
) -> bool {
    exists|reason: Seq<char>| #[trigger] batch_err(remove, paths, reason)
}

/// What became of entry `i` when the entries were sent to the recycle bin in batches
/// of 32: `None` when it was recycled (with its batch, or alone after its batch
/// failed), `Some(reason)` when its batch failed and so did the call on it alone.
pub open spec fn recycle_outcome_at<F: Fn(Vec<String>) -> Result<(), String>>(
    remove: F,
    files: Seq<(Seq<char>, u64)>,
    i: int,
    outcome: Option<Seq<char>>,
) -> bool {
    let chunk = entry_paths(files).subrange(chunk_start(i), chunk_end(files.len() as int, i));
    let alone = seq![files[i].0];
    match outcome {
        None => batch_ok(remove, chunk) || (batch_failed(remove, chunk) && batch_ok(remove, alone)),
        Some(reason) => batch_failed(remove, chunk) && batch_err(remove, alone, reason),
    }
}

/// Bytes of the entries whose outcome is `None` (removed).
pub open spec fn removed_bytes(files: Seq<(Seq<char>, u64)>, outs: Seq<Option<Seq<char>>>) -> int
    decreases files.len(),
{
    if files.len() == 0 || outs.len() == 0 {
        0
    } else {
        removed_bytes(files.drop_last(), outs.drop_last()) + if outs.last() is None {
            files.last().1 as int
        } else {
            0
        }
    }
}

/// How many outcomes are `None` (removed).
pub open spec fn removed_count(outs: Seq<Option<Seq<char>>>) -> int
    decreases outs.len(),
{
    if outs.len() == 0 {
        0
    } else {
        removed_count(outs.drop_last()) + if outs.last() is None {
            1int
        } else {
            0
        }
    }
}

/// The error lines of the entries that failed, in order.
pub open spec fn failure_lines(files: Seq<(Seq<char>, u64)>, outs: Seq<Option<Seq<char>>>) -> Seq<
    Seq<char>,
>
    decreases files.len(),
{
    if files.len() == 0 || outs.len() == 0 {
        seq![]
    } else {
        failure_lines(files.drop_last(), outs.drop_last()) + match outs.last() {
            Some(reason) => seq![error_line(files.last().0, reason)],
            None => Seq::<Seq<char>>::empty(),
        }
    }
}

/// One more outcome adds its entry's bytes, count and error line.
proof fn lemma_outcome_step(files: Seq<(Seq<char>, u64)>, outs: Seq<Option<Seq<char>>>, o: Option<Seq<char>>)
    requires
        outs.len() < files.len(),
    ensures
        ({
            let k: int = outs.len() as int;
            &&& removed_bytes(files.take(k + 1), outs.push(o)) == removed_bytes(files.take(k), outs)
                + if o is None { files[k].1 as int } else { 0 }
            &&& removed_count(outs.push(o)) == removed_count(outs) + if o is None { 1int } else { 0 }
            &&& failure_lines(files.take(k + 1), outs.push(o)) == failure_lines(files.take(k), outs)
                + match o {
                Some(reason) => seq![error_line(files[k].0, reason)],
                None => Seq::<Seq<char>>::empty(),
            }
        }),
{
    let k: int = outs.len() as int;
    assert(files.take(k + 1).drop_last() =~= files.take(k));
    assert(outs.push(o).drop_last() =~= outs);
}

/// Removed bytes never exceed the entries' total, nor the count the outcomes.
proof fn lemma_removed_le(files: Seq<(Seq<char>, u64)>, outs: Seq<Option<Seq<char>>>)
    ensures
        removed_bytes(files, outs) <= entries_size(files),
        0 <= removed_bytes(files, outs),
        0 <= removed_count(outs) <= outs.len(),
    decreases files.len() + outs.len(),
{
    if files.len() > 0 && outs.len() > 0 {
        lemma_removed_le(files.drop_last(), outs.drop_last());
    } else if outs.len() > 0 {
        lemma_removed_le(files, outs.drop_last());
    } else if files.len() > 0 {
        lemma_entries_size_nonneg(files);
    }
}

/// Sizes are never negative.
proof fn lemma_entries_size_nonneg(files: Seq<(Seq<char>, u64)>)
    ensures
        entries_size(files) >= 0,
    decreases files.len(),
{
    if files.len() > 0 {
        lemma_entries_size_nonneg(files.drop_last());
    }
}

/// A prefix is no larger than the whole.
proof fn lemma_entries_size_prefix(files: Seq<(Seq<char>, u64)>, k: int)
    requires
        0 <= k <= files.len(),
    ensures
        entries_size(files.take(k)) <= entries_size(files),
    decreases files.len(),
{
    if k < files.len() {
        lemma_entries_size_prefix(files.drop_last(), k);
        assert(files.drop_last().take(k) =~= files.take(k));
    } else {
        assert(files.take(k) =~= files);
    }
}

/// Entries of one batch share its start and end.
proof fn lemma_chunk_bounds(n: int, start: int, i: int)
    requires
        start % 32 == 0,
        0 <= start <= i < start + 32,
        i < n,
    ensures
        chunk_start(i) == start,
        chunk_end(n, i) == if start + 32 < n { start + 32 } else { n },
{
    assert(i / 32 == start / 32) by (nonlinear_arith)
        requires
            start % 32 == 0,
            0 <= start <= i < start + 32,
    ;
    assert((start / 32) * 32 == start) by (nonlinear_arith)
        requires
            start % 32 == 0,
            start >= 0,
    ;
}

/// `outs` gives an outcome to each entry that the calls made justify, and `freed`,
/// `removed` and the errors added are what those outcomes add up to.
pub open spec fn recycle_result<F: Fn(Vec<String>) -> Result<(), String>>(
    remove: F,
    files: Seq<(Seq<char>, u64)>,
    outs: Seq<Option<Seq<char>>>,
    freed: u64,
    removed: u64,
    errors_before: Seq<Seq<char>>,
    errors_after: Seq<Seq<char>>,
) -> bool {
    &&& outs.len() == files.len()
    &&& forall|i: int|
        0 <= i < files.len() ==> #[trigger] recycle_outcome_at(remove, files, i, outs[i])
    &&& freed == removed_bytes(files, outs)
    &&& removed == removed_count(outs)
    &&& errors_after == errors_before + failure_lines(files, outs)
}

/// `recycle_paths`: sends files to the recycle bin in batches of 32 through
/// `recycle_batch`; when a batch fails, each of its files is tried alone, and each that
/// still fails adds `"<path>: <reason>"` to `errors`. Returns the bytes and the number
/// of files recycled. `recycle_batch` may only be called on at most 32 of the given
/// paths at a time.
pub fn recycle_paths<F: Fn(Vec<String>) -> Result<(), String>>(
    files: &[(String, u64)],
    errors: &mut Vec<String>,
    recycle_batch: &F,
) -> (r: (u64, u64))
    requires
        entries_size(entries_view(files@)) <= u64::MAX,
        forall|b: Vec<String>|
            plan_batch(file_ops(entries_view(files@)), strings_view(b@)) ==> #[trigger] call_requires(recycle_batch, (b,)),
    ensures
        exists|outs: Seq<Option<Seq<char>>>|
            #[trigger] recycle_result(
                recycle_batch,
                entries_view(files@),
                outs,
                r.0,
                r.1,
                strings_view(old(errors)@),
                strings_view(final(errors)@),
            ),
{
    let n: usize = files.len();
    let mut freed: u64 = 0;
    let mut items: u64 = 0;
    let mut start: usize = 0;
    let ghost mut outs: Seq<Option<Seq<char>>> = seq![];
    let ghost errors0 = strings_view(errors@);
    let ghost fv = entries_view(files@);
    proof {
        assert(fv.take(0) =~= Seq::<(Seq<char>, u64)>::empty());
        assert(errors0 + Seq::<Seq<char>>::empty() =~= errors0);
    }
    while start < n
        invariant
            n == fv.len(),
            fv == entries_view(files@),
            start <= n,
            start % 32 == 0 || start == n,
            outs.len() == start,
            forall|i: int|
                0 <= i < start ==> #[trigger] recycle_outcome_at(recycle_batch, fv, i, outs[i]),
            freed == removed_bytes(fv.take(start as int), outs),
            items == removed_count(outs),
            strings_view(errors@) == errors0 + failure_lines(fv.take(start as int), outs),
            errors0 == strings_view(old(errors)@),
            entries_size(fv) <= u64::MAX,
            forall|b: Vec<String>|
                plan_batch(file_ops(fv), strings_view(b@)) ==> #[trigger] call_requires(recycle_batch, (b,)),
        decreases n - start,
    {
        let end: usize = if n - start > 32 {
            start + 32
        } else {
            n
        };
        let ghost chunk = entry_paths(fv).subrange(start as int, end as int);
        let mut batch: Vec<String> = Vec::new();
        let mut k: usize = start;
        while k < end
            invariant
                start <= k <= end <= n,
                n == fv.len(),
                fv == entries_view(files@),
                strings_view(batch@) == entry_paths(fv).subrange(start as int, k as int),
            decreases end - k,
        {
            let ghost before = batch@;
            batch.push(files[k].0.clone());
            proof {
                assert(strings_view(batch@) =~= strings_view(before).push(fv[k as int].0));
                assert(entry_paths(fv).subrange(start as int, k + 1) =~= entry_paths(
                    fv,
                ).subrange(start as int, k as int).push(fv[k as int].0));
            }
            k += 1;
        }
        let ghost sent = batch;
        proof {
            let v = strings_view(batch@);
            assert forall|j: int| 0 <= j < v.len() implies plan_file(file_ops(fv), #[trigger] v[j]) by {
                assert(v[j] == entry_paths(fv)[start + j]);
                assert(entry_paths(fv)[start + j] == fv[start + j].0);
                lemma_file_ops_has(fv, start + j);
            }
            assert(plan_batch(file_ops(fv), v));
        }
        let res = recycle_batch(batch);
        let chunk_ok: bool = res.is_ok();
        proof {
            if chunk_ok {
                assert(call_ensures(recycle_batch, (sent,), res));
                assert(batch_ok(recycle_batch, chunk));
            } else {
                let m = res->Err_0;
                assert(call_ensures(recycle_batch, (sent,), Err::<(), String>(m)));
                assert(batch_err(recycle_batch, chunk, m@));
                assert(batch_failed(recycle_batch, chunk));
            }
        }
        let mut k: usize = start;
        while k < end
            invariant
                n == fv.len(),
                fv == entries_view(files@),
                start % 32 == 0,
                start <= k <= end <= n,
                end == if start + 32 < n { start + 32 } else { n as int },
                chunk == entry_paths(fv).subrange(start as int, end as int),
                chunk_ok ==> batch_ok(recycle_batch, chunk),
                !chunk_ok ==> batch_failed(recycle_batch, chunk),
                chunk_ok == res is Ok,
                outs.len() == k,
                forall|i: int|
                    0 <= i < k ==> #[trigger] recycle_outcome_at(recycle_batch, fv, i, outs[i]),
                freed == removed_bytes(fv.take(k as int), outs),
                items == removed_count(outs),
                strings_view(errors@) == errors0 + failure_lines(fv.take(k as int), outs),
                entries_size(fv) <= u64::MAX,
                forall|b: Vec<String>|
                    plan_batch(file_ops(fv), strings_view(b@)) ==> #[trigger] call_requires(recycle_batch, (b,)),
            decreases end - k,
        {
            proof {
                lemma_chunk_bounds(n as int, start as int, k as int);
            }
            let ghost outcome: Option<Seq<char>>;
            let removed_one: bool;
            if chunk_ok {
                removed_one = true;
                proof {
                    outcome = None;
                }
            } else {
                let one = vec![files[k].0.clone()];
                let ghost sent_one = one;
                proof {
                    assert(strings_view(one@) =~= seq![fv[k as int].0]);
                    lemma_file_ops_has(fv, k as int);
                    assert(plan_batch(file_ops(fv), strings_view(one@)));
                }
                let single = recycle_batch(one);
                let ghost single_res = single;
                match single {
                    Ok(()) => {
                        removed_one = true;
                        proof {
                            assert(call_ensures(recycle_batch, (sent_one,), single_res));
                            assert(batch_ok(recycle_batch, seq![fv[k as int].0]));
                            outcome = None;
                        }
                    },
                    Err(e) => {
                        removed_one = false;
                        proof {
                            assert(call_ensures(recycle_batch, (sent_one,), Err::<(), String>(e)));
                            assert(batch_err(recycle_batch, seq![fv[k as int].0], e@));
                            outcome = Some(e@);
                        }
                        let line = error_line_exec(&files[k].0, &e);
                        let ghost before = errors@;
                        errors.push(line);
                        proof {
                            assert(strings_view(errors@) =~= strings_view(before).push(line@));
                        }
                    },
                }
            }
            proof {
                assert(removed_one == outcome is None);
                assert(recycle_outcome_at(recycle_batch, fv, k as int, outcome));
                lemma_outcome_step(fv, outs, outcome);
                lemma_removed_le(fv.take(k + 1), outs.push(outcome));
                lemma_entries_size_prefix(fv, k + 1);
            }
            if removed_one {
                freed = freed + files[k].1;
                items = items + 1;
            }
            proof {
                outs = outs.push(outcome);
            }
            k += 1;
        }
        start = end;
    }
    let r = (freed, items);
    proof {
        assert(fv.take(n as int) =~= fv);
        assert(recycle_result(
            recycle_batch,
            fv,
            outs,
            r.0,
            r.1,
            strings_view(old(errors)@),
            strings_view(errors@),
        ));
    }
    r
}

/// A call of `in_use` on this path answered `locked`.
pub open spec fn probe_result<P: Fn(String) -> bool>(in_use: P, path: Seq<char>, locked: bool) -> bool {
    exists|s: String| s@ == path && #[trigger] call_ensures(in_use, (s,), locked)
}

/// The entries whose flag is `false` (not in use), in order.
pub open spec fn unlocked_entries(files: Seq<(Seq<char>, u64)>, flags: Seq<bool>) -> Seq<
    (Seq<char>, u64),
>
    decreases files.len(),
{
    if files.len() == 0 || flags.len() == 0 {
        seq![]
    } else {
        unlocked_entries(files.drop_last(), flags.drop_last()) + if flags.last() {
            Seq::<(Seq<char>, u64)>::empty()
        } else {
            seq![files.last()]
        }
    }
}

/// The paths of the entries whose flag is `true` (in use), in order.
pub open spec fn locked_entries(files: Seq<(Seq<char>, u64)>, flags: Seq<bool>) -> Seq<Seq<char>>
    decreases files.len(),
{
    if files.len() == 0 || flags.len() == 0 {
        seq![]
    } else {
        locked_entries(files.drop_last(), flags.drop_last()) + if flags.last() {
            seq![files.last().0]
        } else {
            Seq::<Seq<char>>::empty()
        }
    }
}

/// The samples a tracker keeps after `add` of each path in turn.
pub open spec fn add_samples(samples: Seq<Seq<char>>, paths: Seq<Seq<char>>) -> Seq<Seq<char>>
    decreases paths.len(),
{
    if paths.len() == 0 {
        samples
    } else {
        add_sample(add_samples(samples, paths.drop_last()), paths.last())
    }
}

/// What a call of `remove` on the path of entry `i` gave: `None` for `Ok`,
/// `Some(reason)` for an error with that text.
pub open spec fn removal_outcome_at<R: Fn(String) -> Result<(), String>>(
    remove: R,
    files: Seq<(Seq<char>, u64)>,
    i: int,
    outcome: Option<Seq<char>>,
) -> bool {
    match outcome {
        None => exists|s: String, r: Result<(), String>|
            s@ == files[i].0 && r is Ok && #[trigger] call_ensures(remove, (s,), r),
        Some(reason) => exists|s: String, m: String|
            s@ == files[i].0 && m@ == reason && #[trigger] call_ensures(
                remove,
                (s,),
                Err::<(), String>(m),
            ),
    }
}

/// Removing each entry once with `remove` gave the outcomes `outs`, and `freed`,
/// `removed` and the errors added are what they add up to.
pub open spec fn removal_result<R: Fn(String) -> Result<(), String>>(
    remove: R,
    files: Seq<(Seq<char>, u64)>,
    outs: Seq<Option<Seq<char>>>,
    freed: u64,
    removed: u64,
    errors_before: Seq<Seq<char>>,
    errors_after: Seq<Seq<char>>,
) -> bool {
    &&& outs.len() == files.len()
    &&& forall|i: int|
        0 <= i < files.len() ==> #[trigger] removal_outcome_at(remove, files, i, outs[i])
    &&& freed == removed_bytes(files, outs)
    &&& removed == removed_count(outs)
    &&& errors_after == errors_before + failure_lines(files, outs)
}

/// What `delete_file_batch` did: `flags` are the answers of `in_use` for each file;
/// the files in use went to the tracker; the others were recycled in batches (with
/// outcomes `outs`) or removed one by one, and the result and errors follow.
pub open spec fn delete_batch_result<
    P: Fn(String) -> bool,
    R: Fn(String) -> Result<(), String>,
    B: Fn(Vec<String>) -> Result<(), String>,
>(
    in_use: P,
    remove_file: R,
    recycle_batch: B,
    files: Seq<(Seq<char>, u64)>,
    to_recycle_bin: bool,
    flags: Seq<bool>,
    outs: Seq<Option<Seq<char>>>,
    r: (u64, u64),
    count_before: u64,
    count_after: u64,
    samples_before: Seq<Seq<char>>,
    samples_after: Seq<Seq<char>>,
    errors_before: Seq<Seq<char>>,
    errors_after: Seq<Seq<char>>,
) -> bool {
    let todo = unlocked_entries(files, flags);
    let in_use_paths = locked_entries(files, flags);
    &&& flags.len() == files.len()
    &&& forall|i: int| 0 <= i < files.len() ==> #[trigger] probe_result(in_use, files[i].0, flags[i])
    &&& count_after == count_before + in_use_paths.len()
    &&& samples_after == add_samples(samples_before, in_use_paths)
    &&& if todo.len() == 0 {
        r == (0u64, 0u64) && errors_after == errors_before
    } else if to_recycle_bin {
        recycle_result(recycle_batch, todo, outs, r.0, r.1, errors_before, errors_after)
    } else {
        removal_result(remove_file, todo, outs, r.0, r.1, errors_before, errors_after)
    }
}

/// One more flag extends the kept and the in-use entries.
proof fn lemma_flags_step(files: Seq<(Seq<char>, u64)>, flags: Seq<bool>, b: bool)
    requires
        flags.len() < files.len(),
    ensures
        ({
            let k: int = flags.len() as int;
            &&& unlocked_entries(files.take(k + 1), flags.push(b)) == unlocked_entries(
                files.take(k),
                flags,
            ) + if b {
                Seq::<(Seq<char>, u64)>::empty()
            } else {
                seq![files[k]]
            }
            &&& locked_entries(files.take(k + 1), flags.push(b)) == locked_entries(files.take(k), flags)
                + if b {
                seq![files[k].0]
            } else {
                Seq::<Seq<char>>::empty()
            }
        }),
{
    let k: int = flags.len() as int;
    assert(files.take(k + 1).drop_last() =~= files.take(k));
    assert(flags.push(b).drop_last() =~= flags);
}

/// The kept entries are no larger than all of them, and no more numerous.
proof fn lemma_unlocked_size(files: Seq<(Seq<char>, u64)>, flags: Seq<bool>)
    ensures
        entries_size(unlocked_entries(files, flags)) <= entries_size(files),
        locked_entries(files, flags).len() <= files.len(),
    decreases files.len(),
{
    if files.len() > 0 && flags.len() > 0 {
        lemma_unlocked_size(files.drop_last(), flags.drop_last());
        let u = unlocked_entries(files.drop_last(), flags.drop_last());
        if !flags.last() {
            assert((u + seq![files.last()]).drop_last() =~= u);
        } else {
            assert(u + Seq::<(Seq<char>, u64)>::empty() =~= u);
            lemma_entries_size_nonneg(seq![files.last()]);
        }
    } else if files.len() > 0 {
        lemma_entries_size_nonneg(files);
    }
}

/// `delete_file_batch`: deletes files, skipping those in use. For each file `in_use`
/// clears its read-only attribute and says whether it is in use; such a file goes to
/// `locked`. The others go to the recycle bin in batches (`recycle_batch`, see
/// `recycle_paths`) or are removed one by one (`remove_file`), each failure adding
/// `"<path>: <reason>"` to `errors`. Returns the bytes freed and the files deleted.
/// The operations may only be called as `file_calls_allowed` says: on the given files,
/// and the deleting ones only on files that `in_use` found free.
pub fn delete_file_batch<
    P: Fn(String) -> bool,
    R: Fn(String) -> Result<(), String>,
    B: Fn(Vec<String>) -> Result<(), String>,
>(
    files: &[(String, u64)],
    to_recycle_bin: bool,
    errors: &mut Vec<String>,
    locked: &mut LockTracker,
    in_use: &P,
    remove_file: &R,
    recycle_batch: &B,
) -> (r: (u64, u64))
    requires
        entries_size(entries_view(files@)) <= u64::MAX,
        old(locked).count + files@.len() <= u64::MAX,
        file_calls_allowed(in_use, remove_file, recycle_batch, file_ops(entries_view(files@))),
    ensures
        exists|flags: Seq<bool>, outs: Seq<Option<Seq<char>>>|
            #[trigger] delete_batch_result(
                in_use,
                remove_file,
                recycle_batch,
                entries_view(files@),
                to_recycle_bin,
                flags,
                outs,
                r,
                old(locked).count,
                final(locked).count,
                strings_view(old(locked).samples@),
                strings_view(final(locked).samples@),
                strings_view(old(errors)@),
                strings_view(final(errors)@),
            ),
{
    let ghost fv = entries_view(files@);
    let ghost count0 = locked.count;
    let ghost samples0 = strings_view(locked.samples@);
    let ghost errors0 = strings_view(errors@);
    let ghost mut flags: Seq<bool> = seq![];
    let mut todo: Vec<(String, u64)> = Vec::new();
    let mut k: usize = 0;
    proof {
        assert(fv.take(0) =~= Seq::<(Seq<char>, u64)>::empty());
    }
    while k < files.len()
        invariant
            fv == entries_view(files@),
            k <= files@.len(),
            flags.len() == k,
            forall|i: int| 0 <= i < k ==> #[trigger] probe_result(in_use, fv[i].0, flags[i]),
            entries_view(todo@) == unlocked_entries(fv.take(k as int), flags),
            locked.count == count0 + locked_entries(fv.take(k as int), flags).len(),
            strings_view(locked.samples@) == add_samples(
                samples0,
                locked_entries(fv.take(k as int), flags),
            ),
            count0 + files@.len() <= u64::MAX,
            file_calls_allowed(in_use, remove_file, recycle_batch, file_ops(fv)),
            forall|t: int|
                0 <= t < entries_view(todo@).len() ==> plan_file(file_ops(fv), #[trigger] entries_view(todo@)[t].0)
                    && probe_result(in_use, entries_view(todo@)[t].0, false),
        decreases files@.len() - k,
    {
        let path = files[k].0.clone();
        let probe = path.clone();
        let ghost probed = probe;
        proof {
            lemma_file_ops_has(fv, k as int);
        }
        let busy = in_use(probe);
        proof {
            assert(probe_result(in_use, fv[k as int].0, busy));
            lemma_flags_step(fv, flags, busy);
            lemma_unlocked_size(fv.take(k as int), flags);
        }
        if busy {
            locked.add(path.as_str());
        } else {
            let ghost before = todo@;
            todo.push((path, files[k].1));
            proof {
                assert(entries_view(todo@) =~= entries_view(before).push(fv[k as int]));
                assert forall|t: int| 0 <= t < entries_view(todo@).len() implies plan_file(file_ops(fv), #[trigger] entries_view(todo@)[t].0)
                    && probe_result(in_use, entries_view(todo@)[t].0, false) by {
                    if t < entries_view(before).len() {
                        assert(entries_view(todo@)[t] == entries_view(before)[t]);
                    }
                }
            }
        }
        proof {
            let ghost f2 = flags.push(busy);
            assert(add_samples(samples0, locked_entries(fv.take(k + 1), f2)) == if busy {
                add_sample(add_samples(samples0, locked_entries(fv.take(k as int), flags)), fv[k as int].0)
            } else {
                add_samples(samples0, locked_entries(fv.take(k as int), flags))
            }) by {
                if busy {
                    assert(locked_entries(fv.take(k + 1), f2).drop_last() =~= locked_entries(fv.take(k as int), flags));
                } else {
                    assert(locked_entries(fv.take(k + 1), f2) =~= locked_entries(fv.take(k as int), flags));
                }
            }
            if !busy {
                assert(unlocked_entries(fv.take(k as int), flags) + seq![fv[k as int]] =~= unlocked_entries(fv.take(k as int), flags).push(fv[k as int]));
            }
            flags = f2;
        }
        k += 1;
    }
    proof {
        assert(fv.take(files@.len() as int) =~= fv);
        lemma_unlocked_size(fv, flags);
    }
    if todo.len() == 0 {
        proof {
            assert(delete_batch_result(
                in_use,
                remove_file,
                recycle_batch,
                fv,
                to_recycle_bin,
                flags,
                seq![],
                (0u64, 0u64),
                count0,
                locked.count,
                samples0,
                strings_view(locked.samples@),
                errors0,
                strings_view(errors@),
            ));
        }
        return (0, 0);
    }
    if to_recycle_bin {
        proof {
            let tv = entries_view(todo@);
            assert forall|b: Vec<String>| plan_batch(file_ops(tv), strings_view(b@)) implies #[trigger] call_requires(recycle_batch, (b,)) by {
                let v = strings_view(b@);
                assert forall|q: int| 0 <= q < v.len() implies plan_file(file_ops(fv), #[trigger] v[q]) && probe_result(in_use, v[q], false) by {
                    assert(plan_file(file_ops(tv), v[q]));
                    let t = choose|t: int| 0 <= t < file_ops(tv).len() && #[trigger] op_file(file_ops(tv)[t]) == Some(v[q]);
                    assert(file_ops(tv)[t] == ForceOp::File(tv[t].0, tv[t].1));
                    assert(tv[t].0 == v[q]);
                }
                assert(free_batch(in_use, file_ops(fv), v));
            }
        }
        let r = recycle_paths(&todo, errors, recycle_batch);
        proof {
            let outs = choose|outs: Seq<Option<Seq<char>>>|
                recycle_result(
                    recycle_batch,
                    entries_view(todo@),
                    outs,
                    r.0,
                    r.1,
                    errors0,
                    strings_view(errors@),
                );
            assert(delete_batch_result(
                in_use,
                remove_file,
                recycle_batch,
                fv,
                to_recycle_bin,
                flags,
                outs,
                r,
                count0,
                locked.count,
                samples0,
                strings_view(locked.samples@),
                errors0,
                strings_view(errors@),
            ));
        }
        r
    } else {
        let ghost tv = entries_view(todo@);
        let ghost mut outs: Seq<Option<Seq<char>>> = seq![];
        let mut freed: u64 = 0;
        let mut items: u64 = 0;
        let mut j: usize = 0;
        proof {
            assert(tv.take(0) =~= Seq::<(Seq<char>, u64)>::empty());
            assert(errors0 + Seq::<Seq<char>>::empty() =~= errors0);
        }
        while j < todo.len()
            invariant
                tv == entries_view(todo@),
                tv == unlocked_entries(fv, flags),
                entries_size(tv) <= u64::MAX,
                j <= tv.len(),
                outs.len() == j,
                forall|i: int| 0 <= i < j ==> #[trigger] removal_outcome_at(remove_file, tv, i, outs[i]),
                freed == removed_bytes(tv.take(j as int), outs),
                items == removed_count(outs),
                strings_view(errors@) == errors0 + failure_lines(tv.take(j as int), outs),
                file_calls_allowed(in_use, remove_file, recycle_batch, file_ops(fv)),
                forall|t: int|
                    0 <= t < tv.len() ==> plan_file(file_ops(fv), #[trigger] tv[t].0) && probe_result(in_use, tv[t].0, false),
            decreases tv.len() - j,
        {
            let target = todo[j].0.clone();
            let ghost sent = target;
            proof {
                assert(target@ == tv[j as int].0);
            }
            let res = remove_file(target);
            let ghost got = res;
            let ghost outcome: Option<Seq<char>>;
            let ok: bool;
            match res {
                Ok(()) => {
                    ok = true;
                    proof {
                        assert(call_ensures(remove_file, (sent,), got));
                        outcome = None;
                    }
                },
                Err(e) => {
                    ok = false;
                    proof {
                        assert(call_ensures(remove_file, (sent,), Err::<(), String>(e)));
                        outcome = Some(e@);
                    }
                    let line = error_line_exec(&todo[j].0, &e);
                    let ghost before = errors@;
                    errors.push(line);
                    proof {
                        assert(strings_view(errors@) =~= strings_view(before).push(line@));
                    }
                },
            }
            proof {
                assert(ok == outcome is None);
                assert(removal_outcome_at(remove_file, tv, j as int, outcome));
                lemma_outcome_step(tv, outs, outcome);
                lemma_removed_le(tv.take(j + 1), outs.push(outcome));
                lemma_entries_size_prefix(tv, j + 1);
            }
            if ok {
                freed = freed + todo[j].1;
                items = items + 1;
            }
            proof {
                outs = outs.push(outcome);
            }
            j += 1;
        }
        proof {
            assert(tv.take(tv.len() as int) =~= tv);
            assert(removal_result(remove_file, tv, outs, freed, items, errors0, strings_view(errors@)));
            assert(delete_batch_result(
                in_use,
                remove_file,
                recycle_batch,
                fv,
                to_recycle_bin,
                flags,
                outs,
                (freed, items),
                count0,
                locked.count,
                samples0,
                strings_view(locked.samples@),
                errors0,
                strings_view(errors@),
            ));
        }
        (freed, items)
    }
}

// ---------------------------------------------------------------------------
// Forced removal of a path
// ---------------------------------------------------------------------------

/// What lies at a path, as read for a forced removal.
pub enum FsNode {
    /// Nothing could be read there.
    Missing,
    /// A file: its path, its name (the last component of the path) and its size in
    /// bytes.
    File { path: String, name: String, size: u64 },
    /// Anything else (a directory), with the entries read in it; none where it could
    /// not be read.
    Dir { path: String, entries: Vec<FsNode> },
}

/// One step of a forced removal: a file to delete, or a directory to remove once
/// its entries are handled.
pub enum ForceOp {
    File(Seq<char>, u64),
    Dir(Seq<char>),
}

/// What one step gave. For a file: whether it was in use, and else the outcome of
/// deleting it (`None` for done). For a directory: the error of removing it, if any,
/// and then whether it was found empty.
pub enum ForceOutcome {
    File(bool, Option<Seq<char>>),
    Dir(Option<Seq<char>>, bool),
}

/// The steps of a forced removal of `node`: the entries of a directory first, in
/// order and each entirely, then the directory itself.
pub open spec fn force_ops(node: FsNode) -> Seq<ForceOp>
    decreases node,
{
    match node {
        FsNode::Missing => seq![],
        FsNode::File { path, size, .. } => seq![ForceOp::File(path@, size)],
        FsNode::Dir { path, entries } => entries_ops(entries@) + seq![ForceOp::Dir(path@)],
    }
}

/// The steps of removing each of `es` in turn.
pub open spec fn entries_ops(es: Seq<FsNode>) -> Seq<ForceOp>
    decreases es,
{
    if es.len() == 0 {
        seq![]
    } else {
        entries_ops(es.drop_last()) + force_ops(es.last())
    }
}

/// The bytes of the files among `ops`.
pub open spec fn ops_bytes(ops: Seq<ForceOp>) -> int
    decreases ops.len(),
{
    if ops.len() == 0 {
        0
    } else {
        ops_bytes(ops.drop_last()) + match ops.last() {
            ForceOp::File(_, size) => size as int,
            ForceOp::Dir(_) => 0,
        }
    }
}

/// The file a step deletes, if it deletes one.
pub open spec fn op_file(op: ForceOp) -> Option<Seq<char>> {
    match op {
        ForceOp::File(p, _) => Some(p),
        ForceOp::Dir(_) => None,
    }
}

/// Whether one of the steps `ops` deletes the file at `p`.
pub open spec fn plan_file(ops: Seq<ForceOp>, p: Seq<char>) -> bool {
    exists|i: int| 0 <= i < ops.len() && #[trigger] op_file(ops[i]) == Some(p)
}

/// Whether one of the steps `ops` removes the directory at `p`.
pub open spec fn plan_dir(ops: Seq<ForceOp>, p: Seq<char>) -> bool {
    exists|i: int| 0 <= i < ops.len() && #[trigger] ops[i] == ForceOp::Dir(p)
}

/// Every file and directory of the steps `a` is one of the steps `b`.
pub open spec fn plan_within(a: Seq<ForceOp>, b: Seq<ForceOp>) -> bool {
    &&& forall|p: Seq<char>| #[trigger] plan_file(a, p) ==> plan_file(b, p)
    &&& forall|p: Seq<char>| #[trigger] plan_dir(a, p) ==> plan_dir(b, p)
}

/// The steps of deleting each of `files` as a file.
pub open spec fn file_ops(files: Seq<(Seq<char>, u64)>) -> Seq<ForceOp> {
    files.map_values(|e: (Seq<char>, u64)| ForceOp::File(e.0, e.1))
}

/// A list of at most 32 paths, each a file of the steps `ops`.
pub open spec fn plan_batch(ops: Seq<ForceOp>, b: Seq<Seq<char>>) -> bool {
    &&& b.len() <= recycle_chunk()
    &&& forall|j: int| 0 <= j < b.len() ==> plan_file(ops, #[trigger] b[j])
}

/// A list of at most 32 paths, each a file of the steps `ops` that `in_use` found free.
pub open spec fn free_batch<P: Fn(String) -> bool>(in_use: P, ops: Seq<ForceOp>, b: Seq<Seq<char>>) -> bool {
    &&& b.len() <= recycle_chunk()
    &&& forall|j: int| 0 <= j < b.len() ==> plan_file(ops, #[trigger] b[j]) && probe_result(in_use, b[j], false)
}

/// The calls that deleting the files of `ops` may make: `in_use` on those files, and
/// `remove_file` or `recycle_batch` (at most 32 at a time) only on those of them that
/// `in_use` found free.
pub open spec fn file_calls_allowed<
    P: Fn(String) -> bool,
    R: Fn(String) -> Result<(), String>,
    B: Fn(Vec<String>) -> Result<(), String>,
>(in_use: P, remove_file: R, recycle_batch: B, ops: Seq<ForceOp>) -> bool {
    &&& forall|s: String| plan_file(ops, s@) ==> #[trigger] call_requires(in_use, (s,))
    &&& forall|s: String|
        plan_file(ops, s@) && probe_result(in_use, s@, false) ==> #[trigger] call_requires(remove_file, (s,))
    &&& forall|b: Vec<String>|
        free_batch(in_use, ops, strings_view(b@)) ==> #[trigger] call_requires(recycle_batch, (b,))
}

/// The calls that carrying out the steps `ops` may make: those of
/// `file_calls_allowed`, and `remove_dir` and `dir_is_empty` only on the directories
/// of `ops`.
pub open spec fn force_calls_allowed<
    P: Fn(String) -> bool,
    R: Fn(String) -> Result<(), String>,
    B: Fn(Vec<String>) -> Result<(), String>,
    D: Fn(String) -> Result<(), String>,
    E: Fn(String) -> bool,
>(in_use: P, remove_file: R, recycle_batch: B, remove_dir: D, dir_is_empty: E, ops: Seq<ForceOp>) -> bool {
    &&& file_calls_allowed(in_use, remove_file, recycle_batch, ops)
    &&& forall|s: String| plan_dir(ops, s@) ==> #[trigger] call_requires(remove_dir, (s,))
    &&& forall|s: String| plan_dir(ops, s@) ==> #[trigger] call_requires(dir_is_empty, (s,))
}

/// The steps of `a` and those of `b` are steps of `a + b`.
pub(crate) proof fn lemma_plan_concat(a: Seq<ForceOp>, b: Seq<ForceOp>)
    ensures
        plan_within(a, a + b),
        plan_within(b, a + b),
{
    assert forall|p: Seq<char>| #[trigger] plan_file(a, p) implies plan_file(a + b, p) by {
        let i = choose|i: int| 0 <= i < a.len() && #[trigger] op_file(a[i]) == Some(p);
        assert((a + b)[i] == a[i]);
    }
    assert forall|p: Seq<char>| #[trigger] plan_dir(a, p) implies plan_dir(a + b, p) by {
        let i = choose|i: int| 0 <= i < a.len() && #[trigger] a[i] == ForceOp::Dir(p);
        assert((a + b)[i] == a[i]);
    }
    assert forall|p: Seq<char>| #[trigger] plan_file(b, p) implies plan_file(a + b, p) by {
        let i = choose|i: int| 0 <= i < b.len() && #[trigger] op_file(b[i]) == Some(p);
        assert((a + b)[a.len() + i] == b[i]);
    }
    assert forall|p: Seq<char>| #[trigger] plan_dir(b, p) implies plan_dir(a + b, p) by {
        let i = choose|i: int| 0 <= i < b.len() && #[trigger] b[i] == ForceOp::Dir(p);
        assert((a + b)[a.len() + i] == b[i]);
    }
}

/// Being among the steps is transitive.
pub(crate) proof fn lemma_plan_within_trans(a: Seq<ForceOp>, b: Seq<ForceOp>, c: Seq<ForceOp>)
    requires
        plan_within(a, b),
        plan_within(b, c),
    ensures
        plan_within(a, c),
{
    assert forall|p: Seq<char>| #[trigger] plan_file(a, p) implies plan_file(c, p) by {
        assert(plan_file(b, p));
    }
    assert forall|p: Seq<char>| #[trigger] plan_dir(a, p) implies plan_dir(c, p) by {
        assert(plan_dir(b, p));
    }
}

/// The steps of removing entry `k` are steps of removing all the entries.
proof fn lemma_entry_plan(es: Seq<FsNode>, k: int)
    requires
        0 <= k < es.len(),
    ensures
        plan_within(force_ops(es[k]), entries_ops(es)),
    decreases es.len(),
{
    let pre = entries_ops(es.drop_last());
    let last = force_ops(es.last());
    assert(entries_ops(es) == pre + last);
    lemma_plan_concat(pre, last);
    if k < es.len() - 1 {
        assert(es.drop_last()[k] == es[k]);
        lemma_entry_plan(es.drop_last(), k);
        lemma_plan_within_trans(force_ops(es[k]), pre, entries_ops(es));
    }
}

/// Calls allowed for the steps `b` are allowed for any steps among them.
pub(crate) proof fn lemma_calls_within<
    P: Fn(String) -> bool,
    R: Fn(String) -> Result<(), String>,
    B: Fn(Vec<String>) -> Result<(), String>,
    D: Fn(String) -> Result<(), String>,
    E: Fn(String) -> bool,
>(in_use: P, remove_file: R, recycle_batch: B, remove_dir: D, dir_is_empty: E, a: Seq<ForceOp>, b: Seq<ForceOp>)
    requires
        plan_within(a, b),
        force_calls_allowed(in_use, remove_file, recycle_batch, remove_dir, dir_is_empty, b),
    ensures
        force_calls_allowed(in_use, remove_file, recycle_batch, remove_dir, dir_is_empty, a),
{
    assert forall|s: String| plan_file(a, s@) implies #[trigger] call_requires(in_use, (s,)) by {
        assert(plan_file(b, s@));
    }
    assert forall|s: String| plan_file(a, s@) && probe_result(in_use, s@, false) implies #[trigger] call_requires(remove_file, (s,)) by {
        assert(plan_file(b, s@));
    }
    assert forall|x: Vec<String>| free_batch(in_use, a, strings_view(x@)) implies #[trigger] call_requires(recycle_batch, (x,)) by {
        let v = strings_view(x@);
        assert forall|j: int| 0 <= j < v.len() implies plan_file(b, #[trigger] v[j]) && probe_result(in_use, v[j], false) by {
            assert(plan_file(a, v[j]));
        }
        assert(free_batch(in_use, b, v));
    }
    assert forall|s: String| plan_dir(a, s@) implies #[trigger] call_requires(remove_dir, (s,)) by {
        assert(plan_dir(b, s@));
    }
    assert forall|s: String| plan_dir(a, s@) implies #[trigger] call_requires(dir_is_empty, (s,)) by {
        assert(plan_dir(b, s@));
    }
}

/// The file of entry `i` is a step of deleting the entries.
proof fn lemma_file_ops_has(files: Seq<(Seq<char>, u64)>, i: int)
    requires
        0 <= i < files.len(),
    ensures
        plan_file(file_ops(files), files[i].0),
{
    assert(file_ops(files)[i] == ForceOp::File(files[i].0, files[i].1));
    assert(op_file(file_ops(files)[i]) == Some(files[i].0));
}

/// An outcome that the calls made justify for a step. A file is probed with `in_use`;
/// when free it is deleted as the only entry of a batch (see `recycle_outcome_at` and
/// `removal_outcome_at`). A directory is removed with `remove_dir`; when that fails it
/// is probed with `dir_is_empty`.
pub open spec fn force_justified<
    P: Fn(String) -> bool,
    R: Fn(String) -> Result<(), String>,
    B: Fn(Vec<String>) -> Result<(), String>,
    D: Fn(String) -> Result<(), String>,
    E: Fn(String) -> bool,
>(
    in_use: P,
    remove_file: R,
    recycle_batch: B,
    remove_dir: D,
    dir_is_empty: E,
    to_recycle_bin: bool,
    op: ForceOp,
    outcome: ForceOutcome,
) -> bool {
    match op {
        ForceOp::File(p, size) => match outcome {
            ForceOutcome::File(busy, removed) => {
                &&& probe_result(in_use, p, busy)
                &&& !busy ==> if to_recycle_bin {
                    recycle_outcome_at(recycle_batch, seq![(p, size)], 0, removed)
                } else {
                    removal_outcome_at(remove_file, seq![(p, size)], 0, removed)
                }
            },
            ForceOutcome::Dir(_, _) => false,
        },
        ForceOp::Dir(p) => match outcome {
            ForceOutcome::Dir(failed, empty) => {
                &&& removal_outcome_at(remove_dir, seq![(p, 0u64)], 0, failed)
                &&& failed is Some ==> probe_result(dir_is_empty, p, empty)
            },
            ForceOutcome::File(_, _) => false,
        },
    }
}

/// Bytes freed by the steps: the sizes of the files deleted.
pub open spec fn force_freed(ops: Seq<ForceOp>, outs: Seq<ForceOutcome>) -> int
    decreases ops.len(),
{
    if ops.len() == 0 || outs.len() == 0 {
        0
    } else {
        force_freed(ops.drop_last(), outs.drop_last()) + match (ops.last(), outs.last()) {
            (ForceOp::File(_, size), ForceOutcome::File(false, None)) => size as int,
            _ => 0,
        }
    }
}

/// Items removed by the steps: files deleted and directories removed.
pub open spec fn force_items(ops: Seq<ForceOp>, outs: Seq<ForceOutcome>) -> int
    decreases ops.len(),
{
    if ops.len() == 0 || outs.len() == 0 {
        0
    } else {
        force_items(ops.drop_last(), outs.drop_last()) + match (ops.last(), outs.last()) {
            (ForceOp::File(_, _), ForceOutcome::File(false, None)) => 1int,
            (ForceOp::Dir(_), ForceOutcome::Dir(None, _)) => 1int,
            _ => 0,
        }
    }
}

/// Paths of the files found in use, in order.
pub open spec fn force_locked(ops: Seq<ForceOp>, outs: Seq<ForceOutcome>) -> Seq<Seq<char>>
    decreases ops.len(),
{
    if ops.len() == 0 || outs.len() == 0 {
        seq![]
    } else {
        force_locked(ops.drop_last(), outs.drop_last()) + match (ops.last(), outs.last()) {
            (ForceOp::File(p, _), ForceOutcome::File(true, _)) => seq![p],
            _ => Seq::<Seq<char>>::empty(),
        }
    }
}

/// Error lines of the steps, in order: files that could not be deleted, and
/// directories that could not be removed though empty.
pub open spec fn force_errors(ops: Seq<ForceOp>, outs: Seq<ForceOutcome>) -> Seq<Seq<char>>
    decreases ops.len(),
{
    if ops.len() == 0 || outs.len() == 0 {
        seq![]
    } else {
        force_errors(ops.drop_last(), outs.drop_last()) + match (ops.last(), outs.last()) {
            (ForceOp::File(p, _), ForceOutcome::File(false, Some(reason))) => seq![
                error_line(p, reason),
            ],
            (ForceOp::Dir(p), ForceOutcome::Dir(Some(reason), true)) => seq![error_line(p, reason)],
            _ => Seq::<Seq<char>>::empty(),
        }
    }
}

/// `outs` justifies each step of `ops`, and the result, the tracker and the errors
/// are what those outcomes add up to.
pub open spec fn force_result<
    P: Fn(String) -> bool,
    R: Fn(String) -> Result<(), String>,
    B: Fn(Vec<String>) -> Result<(), String>,
    D: Fn(String) -> Result<(), String>,
    E: Fn(String) -> bool,
>(
    in_use: P,
    remove_file: R,
    recycle_batch: B,
    remove_dir: D,
    dir_is_empty: E,
    to_recycle_bin: bool,
    ops: Seq<ForceOp>,
    outs: Seq<ForceOutcome>,
    r: (u64, u64),
    count_before: u64,
    count_after: u64,
    samples_before: Seq<Seq<char>>,
    samples_after: Seq<Seq<char>>,
    errors_before: Seq<Seq<char>>,
    errors_after: Seq<Seq<char>>,
) -> bool {
    &&& outs.len() == ops.len()
    &&& forall|i: int|
        0 <= i < ops.len() ==> #[trigger] force_justified(
            in_use,
            remove_file,
            recycle_batch,
            remove_dir,
            dir_is_empty,
            to_recycle_bin,
            ops[i],
            outs[i],
        )
    &&& r.0 == force_freed(ops, outs)
    &&& r.1 == force_items(ops, outs)
    &&& count_after == count_before + force_locked(ops, outs).len()
    &&& samples_after == add_samples(samples_before, force_locked(ops, outs))
    &&& errors_after == errors_before + force_errors(ops, outs)
}

/// The sums over steps split over a concatenation.
pub proof fn lemma_force_concat(
    a: Seq<ForceOp>,
    oa: Seq<ForceOutcome>,
    b: Seq<ForceOp>,
    ob: Seq<ForceOutcome>,
)
    requires
        oa.len() == a.len(),
        ob.len() == b.len(),
    ensures
        force_freed(a + b, oa + ob) == force_freed(a, oa) + force_freed(b, ob),
        force_items(a + b, oa + ob) == force_items(a, oa) + force_items(b, ob),
        force_locked(a + b, oa + ob) == force_locked(a, oa) + force_locked(b, ob),
        force_errors(a + b, oa + ob) == force_errors(a, oa) + force_errors(b, ob),
        ops_bytes(a + b) == ops_bytes(a) + ops_bytes(b),
    decreases b.len(),
{
    if b.len() == 0 {
        assert(a + b =~= a);
        assert(oa + ob =~= oa);
        assert(force_locked(a, oa) + Seq::<Seq<char>>::empty() =~= force_locked(a, oa));
        assert(force_errors(a, oa) + Seq::<Seq<char>>::empty() =~= force_errors(a, oa));
    } else {
        lemma_force_concat(a, oa, b.drop_last(), ob.drop_last());
        assert((a + b).drop_last() =~= a + b.drop_last());
        assert((oa + ob).drop_last() =~= oa + ob.drop_last());
        assert((a + b).last() == b.last());
        assert((oa + ob).last() == ob.last());
        let tl = match (b.last(), ob.last()) {
            (ForceOp::File(p, _), ForceOutcome::File(true, _)) => seq![p],
            _ => Seq::<Seq<char>>::empty(),
        };
        assert(force_locked(a, oa) + force_locked(b.drop_last(), ob.drop_last()) + tl =~= force_locked(
            a,
            oa,
        ) + (force_locked(b.drop_last(), ob.drop_last()) + tl));
        let te = match (b.last(), ob.last()) {
            (ForceOp::File(p, _), ForceOutcome::File(false, Some(reason))) => seq![
                error_line(p, reason),
            ],
            (ForceOp::Dir(p), ForceOutcome::Dir(Some(reason), true)) => seq![error_line(p, reason)],
            _ => Seq::<Seq<char>>::empty(),
        };
        assert(force_errors(a, oa) + force_errors(b.drop_last(), ob.drop_last()) + te =~= force_errors(
            a,
            oa,
        ) + (force_errors(b.drop_last(), ob.drop_last()) + te));
    }
}

/// Bounds of the sums over steps.
pub proof fn lemma_force_bounds(ops: Seq<ForceOp>, outs: Seq<ForceOutcome>)
    ensures
        0 <= force_freed(ops, outs) <= ops_bytes(ops),
        0 <= force_items(ops, outs),
        force_items(ops, outs) + force_locked(ops, outs).len() <= ops.len(),
    decreases ops.len(),
{
    if ops.len() > 0 && outs.len() > 0 {
        lemma_force_bounds(ops.drop_last(), outs.drop_last());
    } else if ops.len() > 0 {
        lemma_ops_bytes_nonneg(ops);
    }
}

/// File sizes are never negative.
pub proof fn lemma_ops_bytes_nonneg(ops: Seq<ForceOp>)
    ensures
        ops_bytes(ops) >= 0,
    decreases ops.len(),
{
    if ops.len() > 0 {
        lemma_ops_bytes_nonneg(ops.drop_last());
    }
}

/// Adding samples for two lists of paths in turn is adding them for the two together.
pub proof fn lemma_add_samples_concat(s: Seq<Seq<char>>, a: Seq<Seq<char>>, b: Seq<Seq<char>>)
    ensures
        add_samples(s, a + b) == add_samples(add_samples(s, a), b),
    decreases b.len(),
{
    if b.len() == 0 {
        assert(a + b =~= a);
    } else {
        lemma_add_samples_concat(s, a, b.drop_last());
        assert((a + b).drop_last() =~= a + b.drop_last());
    }
}

/// The steps of the entries `es` split over a concatenation.
proof fn lemma_entries_ops_concat(a: Seq<FsNode>, b: Seq<FsNode>)
    ensures
        entries_ops(a + b) == entries_ops(a) + entries_ops(b),
    decreases b.len(),
{
    if b.len() == 0 {
        assert(a + b =~= a);
        assert(entries_ops(a) + Seq::<ForceOp>::empty() =~= entries_ops(a));
    } else {
        lemma_entries_ops_concat(a, b.drop_last());
        assert((a + b).drop_last() =~= a + b.drop_last());
        assert(entries_ops(a) + entries_ops(b.drop_last()) + force_ops(b.last()) =~= entries_ops(a) + (
        entries_ops(b.drop_last()) + force_ops(b.last())));
    }
}

/// What `delete_file_batch` states of a single file is one justified step.
proof fn lemma_single_file<
    P: Fn(String) -> bool,
    R: Fn(String) -> Result<(), String>,
    B: Fn(Vec<String>) -> Result<(), String>,
    D: Fn(String) -> Result<(), String>,
    E: Fn(String) -> bool,
>(
    in_use: P,
    remove_file: R,
    recycle_batch: B,
    remove_dir: D,
    dir_is_empty: E,
    to_recycle_bin: bool,
    p: Seq<char>,
    size: u64,
    flags: Seq<bool>,
    outs: Seq<Option<Seq<char>>>,
    r: (u64, u64),
    c0: u64,
    c1: u64,
    s0: Seq<Seq<char>>,
    s1: Seq<Seq<char>>,
    e0: Seq<Seq<char>>,
    e1: Seq<Seq<char>>,
)
    requires
        delete_batch_result(
            in_use,
            remove_file,
            recycle_batch,
            seq![(p, size)],
            to_recycle_bin,
            flags,
            outs,
            r,
            c0,
            c1,
            s0,
            s1,
            e0,
            e1,
        ),
    ensures
        force_result(
            in_use,
            remove_file,
            recycle_batch,
            remove_dir,
            dir_is_empty,
            to_recycle_bin,
            seq![ForceOp::File(p, size)],
            seq![
                if flags[0] {
                    ForceOutcome::File(true, None)
                } else {
                    ForceOutcome::File(false, outs[0])
                },
            ],
            r,
            c0,
            c1,
            s0,
            s1,
            e0,
            e1,
        ),
{
    let files = seq![(p, size)];
    let ops = seq![ForceOp::File(p, size)];
    let o = if flags[0] {
        ForceOutcome::File(true, None)
    } else {
        ForceOutcome::File(false, outs[0])
    };
    let os = seq![o];
    assert(files.drop_last() =~= Seq::<(Seq<char>, u64)>::empty());
    assert(flags.drop_last() =~= Seq::<bool>::empty());
    assert(ops.drop_last() =~= Seq::<ForceOp>::empty());
    assert(os.drop_last() =~= Seq::<ForceOutcome>::empty());
    assert(probe_result(in_use, files[0].0, flags[0]));
    assert(flags.len() == 1);
    assert(files.last() == (p, size));
    assert(flags.last() == flags[0]);
    assert(locked_entries(files.drop_last(), flags.drop_last()) =~= Seq::<Seq<char>>::empty());
    assert(unlocked_entries(files.drop_last(), flags.drop_last()) =~= Seq::<(Seq<char>, u64)>::empty());
    assert(ops.last() == ForceOp::File(p, size));
    assert(os.last() == o);
    assert(force_locked(ops.drop_last(), os.drop_last()) =~= Seq::<Seq<char>>::empty());
    assert(force_errors(ops.drop_last(), os.drop_last()) =~= Seq::<Seq<char>>::empty());
    assert(force_freed(ops.drop_last(), os.drop_last()) == 0);
    assert(force_items(ops.drop_last(), os.drop_last()) == 0);
    if flags[0] {
        assert(locked_entries(files, flags) =~= seq![p]);
        assert(unlocked_entries(files, flags) =~= Seq::<(Seq<char>, u64)>::empty());
        assert(force_locked(ops, os) =~= seq![p]);
        assert(seq![p].drop_last() =~= Seq::<Seq<char>>::empty());
        assert(force_errors(ops, os) =~= Seq::<Seq<char>>::empty());
        assert(e0 + Seq::<Seq<char>>::empty() =~= e0);
    } else {
        assert(locked_entries(files, flags) =~= Seq::<Seq<char>>::empty());
        assert(unlocked_entries(files, flags) =~= files);
        assert(force_locked(ops, os) =~= Seq::<Seq<char>>::empty());
        assert(outs.drop_last() =~= Seq::<Option<Seq<char>>>::empty());
        assert(outs.len() == 1);
        assert(outs.last() == outs[0]);
        assert(removed_bytes(files.drop_last(), outs.drop_last()) == 0);
        assert(removed_count(outs.drop_last()) == 0);
        assert(failure_lines(files.drop_last(), outs.drop_last()) =~= Seq::<Seq<char>>::empty());
        assert(force_errors(ops, os) =~= failure_lines(files, outs));
    }
    assert(force_justified(
        in_use,
        remove_file,
        recycle_batch,
        remove_dir,
        dir_is_empty,
        to_recycle_bin,
        ops[0],
        os[0],
    ));
}

/// File bytes split over a concatenation of steps.
pub proof fn lemma_ops_bytes_concat(a: Seq<ForceOp>, b: Seq<ForceOp>)
    ensures
        ops_bytes(a + b) == ops_bytes(a) + ops_bytes(b),
    decreases b.len(),
{
    if b.len() == 0 {
        assert(a + b =~= a);
    } else {
        lemma_ops_bytes_concat(a, b.drop_last());
        assert((a + b).drop_last() =~= a + b.drop_last());
    }
}

/// `delete_path_force`: removes what lies at a path. A file is deleted as in
/// `delete_file_batch`; a directory has each of its entries removed in turn, then is
/// removed itself with `remove_dir` (which also clears its read-only attribute). Where
/// that fails and `dir_is_empty` finds it empty, `"<path>: <reason>"` goes to
/// `errors` (a directory that still holds files in use is no error). Returns the bytes
/// freed and the items (files and directories) removed. The operations may only be
/// called on the steps of the removal (`force_calls_allowed`).
pub fn delete_path_force<
    P: Fn(String) -> bool,
    R: Fn(String) -> Result<(), String>,
    B: Fn(Vec<String>) -> Result<(), String>,
    D: Fn(String) -> Result<(), String>,
    E: Fn(String) -> bool,
>(
    node: &FsNode,
    to_recycle_bin: bool,
    errors: &mut Vec<String>,
    locked: &mut LockTracker,
    in_use: &P,
    remove_file: &R,
    recycle_batch: &B,
    remove_dir: &D,
    dir_is_empty: &E,
) -> (r: (u64, u64))
    requires
        ops_bytes(force_ops(*node)) <= u64::MAX,
        old(locked).count + force_ops(*node).len() <= u64::MAX,
        force_calls_allowed(in_use, remove_file, recycle_batch, remove_dir, dir_is_empty, force_ops(*node)),
    ensures
        exists|outs: Seq<ForceOutcome>|
            #[trigger] force_result(
                in_use,
                remove_file,
                recycle_batch,
                remove_dir,
                dir_is_empty,
                to_recycle_bin,
                force_ops(*node),
                outs,
                r,
                old(locked).count,
                final(locked).count,
                strings_view(old(locked).samples@),
                strings_view(final(locked).samples@),
                strings_view(old(errors)@),
                strings_view(final(errors)@),
            ),
    decreases node,
{
    let ghost c0 = locked.count;
    let ghost s0 = strings_view(locked.samples@);
    let ghost e0 = strings_view(errors@);
    match node {
        FsNode::Missing => {
            proof {
                assert(e0 + Seq::<Seq<char>>::empty() =~= e0);
                assert(force_result(
                    in_use,
                    remove_file,
                    recycle_batch,
                    remove_dir,
                    dir_is_empty,
                    to_recycle_bin,
                    force_ops(*node),
                    seq![],
                    (0u64, 0u64),
                    c0,
                    locked.count,
                    s0,
                    strings_view(locked.samples@),
                    e0,
                    strings_view(errors@),
                ));
            }
            (0, 0)
        },
        FsNode::File { path, size, .. } => {
            let batch = vec![(path.clone(), *size)];
            proof {
                assert(entries_view(batch@) =~= seq![(path@, *size)]);
                assert(seq![(path@, *size)].drop_last() =~= Seq::<(Seq<char>, u64)>::empty());
                let sv = seq![(path@, *size)];
                assert(sv.last() == (path@, *size));
                assert(entries_size(sv.drop_last()) == 0);
                assert(entries_size(sv) == *size);
                assert(force_ops(*node) =~= seq![ForceOp::File(path@, *size)]);
                assert(file_ops(entries_view(batch@)) =~= force_ops(*node));
            }
            let r = delete_file_batch(
                &batch,
                to_recycle_bin,
                errors,
                locked,
                in_use,
                remove_file,
                recycle_batch,
            );
            proof {
                let (flags, outs) = choose|flags: Seq<bool>, outs: Seq<Option<Seq<char>>>|
                    #[trigger] delete_batch_result(
                        in_use,
                        remove_file,
                        recycle_batch,
                        entries_view(batch@),
                        to_recycle_bin,
                        flags,
                        outs,
                        r,
                        c0,
                        locked.count,
                        s0,
                        strings_view(locked.samples@),
                        e0,
                        strings_view(errors@),
                    );
                lemma_single_file(
                    in_use,
                    remove_file,
                    recycle_batch,
                    remove_dir,
                    dir_is_empty,
                    to_recycle_bin,
                    path@,
                    *size,
                    flags,
                    outs,
                    r,
                    c0,
                    locked.count,
                    s0,
                    strings_view(locked.samples@),
                    e0,
                    strings_view(errors@),
                );
            }
            r
        },
        FsNode::Dir { path, entries } => {
            let ghost es = entries@;
            let ghost dir_op = ForceOp::Dir(path@);
            let ghost mut outs: Seq<ForceOutcome> = seq![];
            let mut freed: u64 = 0;
            let mut items: u64 = 0;
            let mut i: usize = 0;
            proof {
                assert(es.take(0) =~= Seq::<FsNode>::empty());
                assert(e0 + Seq::<Seq<char>>::empty() =~= e0);
                assert(force_ops(*node) == entries_ops(es) + seq![dir_op]);
                lemma_ops_bytes_concat(entries_ops(es), seq![dir_op]);
                lemma_ops_bytes_nonneg(seq![dir_op]);
            }
            while i < entries.len()
                invariant
                    es == entries@,
                    *node == (FsNode::Dir { path: *path, entries: *entries }),
                    i <= es.len(),
                    outs.len() == entries_ops(es.take(i as int)).len(),
                    forall|j: int|
                        0 <= j < outs.len() ==> #[trigger] force_justified(
                            in_use,
                            remove_file,
                            recycle_batch,
                            remove_dir,
                            dir_is_empty,
                            to_recycle_bin,
                            entries_ops(es.take(i as int))[j],
                            outs[j],
                        ),
                    freed == force_freed(entries_ops(es.take(i as int)), outs),
                    items == force_items(entries_ops(es.take(i as int)), outs),
                    locked.count == c0 + force_locked(entries_ops(es.take(i as int)), outs).len(),
                    strings_view(locked.samples@) == add_samples(
                        s0,
                        force_locked(entries_ops(es.take(i as int)), outs),
                    ),
                    strings_view(errors@) == e0 + force_errors(entries_ops(es.take(i as int)), outs),
                    ops_bytes(entries_ops(es)) <= u64::MAX,
                    c0 + entries_ops(es).len() + 1 <= u64::MAX,
                    force_calls_allowed(in_use, remove_file, recycle_batch, remove_dir, dir_is_empty, force_ops(*node)),
                    force_ops(*node) == entries_ops(es) + seq![dir_op],
                decreases es.len() - i,
            {
                let ghost prefix = entries_ops(es.take(i as int));
                let ghost child = force_ops(es[i as int]);
                proof {
                    assert(es.take(i + 1).drop_last() =~= es.take(i as int));
                    assert(es.take(i + 1).last() == es[i as int]);
                    assert(entries_ops(es.take(i + 1)) == prefix + child);
                    assert(es.take(i + 1) + es.skip(i + 1) =~= es);
                    lemma_entries_ops_concat(es.take(i + 1), es.skip(i + 1));
                    lemma_ops_bytes_concat(prefix + child, entries_ops(es.skip(i + 1)));
                    lemma_ops_bytes_concat(prefix, child);
                    lemma_ops_bytes_nonneg(entries_ops(es.skip(i + 1)));
                    lemma_ops_bytes_nonneg(prefix);
                    lemma_force_bounds(prefix, outs);
                }
                proof {
                    assert(decreases_to!(*node => (*node)->Dir_entries));
                    assert(decreases_to!(*entries => entries@));
                    assert(decreases_to!(entries@ => entries@[i as int]));
                }
                let ghost cm = locked.count;
                let ghost sm = strings_view(locked.samples@);
                let ghost em = strings_view(errors@);
                proof {
                    lemma_entry_plan(es, i as int);
                    lemma_plan_concat(entries_ops(es), seq![dir_op]);
                    lemma_plan_within_trans(child, entries_ops(es), force_ops(*node));
                    lemma_calls_within(in_use, remove_file, recycle_batch, remove_dir, dir_is_empty, child, force_ops(*node));
                }
                let (f, it) = delete_path_force(
                    &entries[i],
                    to_recycle_bin,
                    errors,
                    locked,
                    in_use,
                    remove_file,
                    recycle_batch,
                    remove_dir,
                    dir_is_empty,
                );
                proof {
                    let child_outs = choose|o: Seq<ForceOutcome>|
                        #[trigger] force_result(
                            in_use,
                            remove_file,
                            recycle_batch,
                            remove_dir,
                            dir_is_empty,
                            to_recycle_bin,
                            child,
                            o,
                            (f, it),
                            cm,
                            locked.count,
                            sm,
                            strings_view(locked.samples@),
                            em,
                            strings_view(errors@),
                        );
                    lemma_force_concat(prefix, outs, child, child_outs);
                    lemma_force_bounds(child, child_outs);
                    lemma_add_samples_concat(
                        s0,
                        force_locked(prefix, outs),
                        force_locked(child, child_outs),
                    );
                    assert(e0 + force_errors(prefix, outs) + force_errors(child, child_outs) =~= e0 + (
                    force_errors(prefix, outs) + force_errors(child, child_outs)));
                    let all = prefix + child;
                    let all_outs = outs + child_outs;
                    assert forall|j: int| 0 <= j < all_outs.len() implies #[trigger] force_justified(
                        in_use,
                        remove_file,
                        recycle_batch,
                        remove_dir,
                        dir_is_empty,
                        to_recycle_bin,
                        all[j],
                        all_outs[j],
                    ) by {
                        if j < outs.len() {
                            assert(all[j] == prefix[j]);
                            assert(all_outs[j] == outs[j]);
                        } else {
                            assert(all[j] == child[j - outs.len()]);
                            assert(all_outs[j] == child_outs[j - outs.len()]);
                        }
                    }
                    outs = all_outs;
                }
                freed = freed + f;
                items = items + it;
                i += 1;
            }
            proof {
                assert(es.take(es.len() as int) =~= es);
            }
            let ghost outcome: ForceOutcome;
            let ghost added: Seq<Seq<char>>;
            let ghost errors_mid = strings_view(errors@);
            let ghost items_mid = items;
            let target = path.clone();
            let ghost sent = target;
            proof {
                let n = entries_ops(es).len() as int;
                assert(force_ops(*node)[n] == dir_op);
                assert(plan_dir(force_ops(*node), path@));
            }
            let res = remove_dir(target);
            let ghost got = res;
            match res {
                Ok(()) => {
                    proof {
                        assert(call_ensures(remove_dir, (sent,), got));
                        assert(removal_outcome_at(remove_dir, seq![(path@, 0u64)], 0, None));
                        outcome = ForceOutcome::Dir(None, false);
                        added = seq![];
                        lemma_force_bounds(entries_ops(es), outs);
                    }
                    items = items + 1;
                },
                Err(e) => {
                    proof {
                        assert(call_ensures(remove_dir, (sent,), Err::<(), String>(e)));
                        assert(removal_outcome_at(remove_dir, seq![(path@, 0u64)], 0, Some(e@)));
                    }
                    let probe = path.clone();
                    let ghost probed = probe;
                    let empty = dir_is_empty(probe);
                    proof {
                        assert(probe_result(dir_is_empty, path@, empty));
                        outcome = ForceOutcome::Dir(Some(e@), empty);
                    }
                    if empty {
                        let line = error_line_exec(path.as_str(), e.as_str());
                        let ghost before = errors@;
                        errors.push(line);
                        proof {
                            assert(strings_view(errors@) =~= strings_view(before).push(line@));
                            added = seq![line@];
                        }
                    } else {
                        proof {
                            added = seq![];
                        }
                    }
                },
            }
            proof {
                let ops = entries_ops(es);
                let last = seq![dir_op];
                let lo = seq![outcome];
                assert(last.drop_last() =~= Seq::<ForceOp>::empty());
                assert(lo.drop_last() =~= Seq::<ForceOutcome>::empty());
                assert(last.last() == dir_op);
                assert(lo.last() == outcome);
                assert(force_locked(last.drop_last(), lo.drop_last()) =~= Seq::<Seq<char>>::empty());
                assert(force_locked(last, lo) =~= Seq::<Seq<char>>::empty());
                lemma_force_concat(ops, outs, last, lo);
                assert(add_samples(s0, force_locked(ops, outs) + Seq::<Seq<char>>::empty()) == add_samples(
                    s0,
                    force_locked(ops, outs),
                )) by {
                    assert(force_locked(ops, outs) + Seq::<Seq<char>>::empty() =~= force_locked(
                        ops,
                        outs,
                    ));
                }
                let all = ops + last;
                let all_outs = outs.push(outcome);
                assert(all_outs =~= outs + lo);
                assert forall|j: int| 0 <= j < all_outs.len() implies #[trigger] force_justified(
                    in_use,
                    remove_file,
                    recycle_batch,
                    remove_dir,
                    dir_is_empty,
                    to_recycle_bin,
                    all[j],
                    all_outs[j],
                ) by {
                    if j < outs.len() {
                        assert(all[j] == ops[j]);
                        assert(all_outs[j] == outs[j]);
                    } else {
                        assert(all[j] == dir_op);
                        assert(all_outs[j] == outcome);
                    }
                }
                assert(force_errors(last.drop_last(), lo.drop_last()) =~= Seq::<Seq<char>>::empty());
                assert(force_freed(last.drop_last(), lo.drop_last()) == 0);
                assert(force_items(last.drop_last(), lo.drop_last()) == 0);
                assert(force_freed(last, lo) == 0);
                assert(force_items(last, lo) == items - items_mid);
                assert(force_errors(last, lo) =~= added);
                assert(strings_view(errors@) =~= errors_mid + added);
                if let ForceOutcome::Dir(Some(reason), true) = outcome {
                    assert(force_errors(last, lo) =~= seq![error_line(path@, reason)]);
                } else {
                    assert(force_errors(last, lo) =~= Seq::<Seq<char>>::empty());
                }
                assert(e0 + force_errors(ops, outs) + force_errors(last, lo) =~= e0 + (force_errors(
                    ops,
                    outs,
                ) + force_errors(last, lo)));
                assert(force_result(
                    in_use,
                    remove_file,
                    recycle_batch,
                    remove_dir,
                    dir_is_empty,
                    to_recycle_bin,
                    force_ops(*node),
                    all_outs,
                    (freed, items),
                    c0,
                    locked.count,
                    s0,
                    strings_view(locked.samples@),
                    e0,
                    strings_view(errors@),
                ));
            }
            (freed, items)
        },
    }
}

// ---------------------------------------------------------------------------
// Sizes and empty directories of a tree
// ---------------------------------------------------------------------------

/// `dir_size`: the total size of the files under `node` (the caller does not enter
/// reparse points when reading it).
pub fn dir_size(node: &FsNode) -> (r: u64)
    requires
        ops_bytes(force_ops(*node)) <= u64::MAX,
    ensures
        r == ops_bytes(force_ops(*node)),
    decreases node,
{
    match node {
        FsNode::Missing => {
            proof {
                assert(force_ops(*node) =~= Seq::<ForceOp>::empty());
                assert(ops_bytes(force_ops(*node)) == 0);
            }
            0
        },
        FsNode::File { path, size, .. } => {
            proof {
                let ops = seq![ForceOp::File(path@, *size)];
                assert(ops.drop_last() =~= Seq::<ForceOp>::empty());
                assert(ops_bytes(ops.drop_last()) == 0);
                assert(force_ops(*node) == ops);
            }
            *size
        },
        FsNode::Dir { path, entries } => {
            let ghost es = entries@;
            let mut total: u64 = 0;
            let mut i: usize = 0;
            proof {
                assert(es.take(0) =~= Seq::<FsNode>::empty());
                lemma_ops_bytes_concat(entries_ops(es), seq![ForceOp::Dir(path@)]);
                assert(seq![ForceOp::Dir(path@)].drop_last() =~= Seq::<ForceOp>::empty());
            }
            while i < entries.len()
                invariant
                    es == entries@,
                    *node == (FsNode::Dir { path: *path, entries: *entries }),
                    i <= es.len(),
                    total == ops_bytes(entries_ops(es.take(i as int))),
                    ops_bytes(entries_ops(es)) <= u64::MAX,
                decreases es.len() - i,
            {
                proof {
                    assert(es.take(i + 1).drop_last() =~= es.take(i as int));
                    assert(es.take(i + 1).last() == es[i as int]);
                    assert(es.take(i + 1) + es.skip(i + 1) =~= es);
                    lemma_entries_ops_concat(es.take(i + 1), es.skip(i + 1));
                    lemma_ops_bytes_concat(
                        entries_ops(es.take(i + 1)),
                        entries_ops(es.skip(i + 1)),
                    );
                    lemma_ops_bytes_concat(entries_ops(es.take(i as int)), force_ops(es[i as int]));
                    lemma_ops_bytes_nonneg(entries_ops(es.skip(i + 1)));
                    lemma_ops_bytes_nonneg(force_ops(es[i as int]));
                    assert(decreases_to!(*node => (*node)->Dir_entries));
                    assert(decreases_to!(*entries => entries@));
                    assert(decreases_to!(entries@ => entries@[i as int]));
                }
                let s = dir_size(&entries[i]);
                total = total + s;
                i += 1;
            }
            proof {
                assert(es.take(es.len() as int) =~= es);
                let tail = seq![ForceOp::Dir(path@)];
                assert(tail.drop_last() =~= Seq::<ForceOp>::empty());
                assert(ops_bytes(tail.drop_last()) == 0);
                assert(ops_bytes(tail) == 0);
                assert(force_ops(*node) == entries_ops(es) + tail);
            }
            total
        },
    }
}

/// The directories at and under `node`, each before its entries (the order a walk
/// meets them).
pub open spec fn dirs_preorder(node: FsNode) -> Seq<Seq<char>>
    decreases node,
{
    match node {
        FsNode::Dir { path, entries } => seq![path@] + entries_dirs(entries@),
        _ => seq![],
    }
}

/// `dirs_preorder` of each of `es` in turn.
pub open spec fn entries_dirs(es: Seq<FsNode>) -> Seq<Seq<char>>
    decreases es,
{
    if es.len() == 0 {
        seq![]
    } else {
        entries_dirs(es.drop_last()) + dirs_preorder(es.last())
    }
}

/// Appends `dirs_preorder(node)` to `out`.
fn collect_dirs(node: &FsNode, out: &mut Vec<String>)
    ensures
        strings_view(final(out)@) == strings_view(old(out)@) + dirs_preorder(*node),
    decreases node,
{
    match node {
        FsNode::Dir { path, entries } => {
            let ghost es = entries@;
            let ghost start = strings_view(out@);
            let ghost before = out@;
            out.push(path.clone());
            proof {
                assert(strings_view(out@) =~= strings_view(before).push(path@));
                assert(es.take(0) =~= Seq::<FsNode>::empty());
                assert(start.push(path@) =~= start + (seq![path@] + entries_dirs(es.take(0))));
            }
            let mut i: usize = 0;
            while i < entries.len()
                invariant
                    es == entries@,
                    *node == (FsNode::Dir { path: *path, entries: *entries }),
                    i <= es.len(),
                    strings_view(out@) == start + (seq![path@] + entries_dirs(es.take(i as int))),
                decreases es.len() - i,
            {
                proof {
                    assert(es.take(i + 1).drop_last() =~= es.take(i as int));
                    assert(es.take(i + 1).last() == es[i as int]);
                    assert(decreases_to!(*node => (*node)->Dir_entries));
                    assert(decreases_to!(*entries => entries@));
                    assert(decreases_to!(entries@ => entries@[i as int]));
                }
                collect_dirs(&entries[i], out);
                proof {
                    assert(start + (seq![path@] + entries_dirs(es.take(i as int))) + dirs_preorder(
                        es[i as int],
                    ) =~= start + (seq![path@] + entries_dirs(es.take(i + 1))));
                }
                i += 1;
            }
            proof {
                assert(es.take(es.len() as int) =~= es);
            }
        },
        _ => {
            proof {
                assert(strings_view(out@) =~= strings_view(out@) + Seq::<Seq<char>>::empty());
            }
        },
    }
}

/// The order in which empty directories are pruned: the directories at and under
/// `root`, deepest first (the walk order reversed); a removal that fails (a directory
/// not empty) is ignored by the caller.
pub fn prune_order(root: &FsNode) -> (r: Vec<String>)
    ensures
        strings_view(r@) == dirs_preorder(*root).reverse(),
{
    let mut all: Vec<String> = Vec::new();
    collect_dirs(root, &mut all);
    proof {
        assert(strings_view(all@) =~= dirs_preorder(*root));
    }
    let ghost fwd = strings_view(all@);
    let mut r: Vec<String> = Vec::new();
    while all.len() > 0
        invariant
            strings_view(all@) == fwd.take(all@.len() as int),
            strings_view(r@) == fwd.skip(all@.len() as int).reverse(),
            all@.len() <= fwd.len(),
        decreases all@.len(),
    {
        let ghost before_all = all@;
        let ghost before_r = r@;
        let last = all.pop().unwrap();
        proof {
            assert(all@ =~= before_all.drop_last());
            assert(strings_view(all@) =~= fwd.take(all@.len() as int));
            assert(last == before_all[all@.len() as int]);
            assert(strings_view(before_all)[all@.len() as int] == before_all[all@.len() as int]@);
            assert(fwd.take(all@.len() + 1int)[all@.len() as int] == fwd[all@.len() as int]);
            assert(last@ == fwd[all@.len() as int]);
        }
        r.push(last);
        proof {
            assert(strings_view(r@) =~= strings_view(before_r).push(last@));
            assert(fwd.skip(all@.len() as int).reverse() =~= fwd.skip(all@.len() + 1int).reverse().push(
                fwd[all@.len() as int],
            ));
        }
    }
    proof {
        assert(fwd.skip(0) =~= fwd);
    }
    r
}

/// `precheck_locked`: the paths that `is_locked` reports in use, in order.
pub fn precheck_locked<F: Fn(String) -> bool>(paths: &[String], is_locked: &F) -> (r: Vec<String>)
    requires
        forall|s: String| call_requires(is_locked, (s,)),
    ensures
        exists|flags: Seq<bool>|
            flags.len() == paths@.len() && (forall|i: int|
                0 <= i < paths@.len() ==> #[trigger] probe_result(is_locked, paths@[i]@, flags[i]))
                && strings_view(r@) == selected_paths(strings_view(paths@), flags),
{
    let ghost pv = strings_view(paths@);
    let ghost mut flags: Seq<bool> = seq![];
    let mut r: Vec<String> = Vec::new();
    let mut i: usize = 0;
    proof {
        assert(pv.take(0) =~= Seq::<Seq<char>>::empty());
    }
    while i < paths.len()
        invariant
            pv == strings_view(paths@),
            i <= paths@.len(),
            flags.len() == i,
            forall|j: int| 0 <= j < i ==> #[trigger] probe_result(is_locked, paths@[j]@, flags[j]),
            strings_view(r@) == selected_paths(pv.take(i as int), flags),
            forall|s: String| call_requires(is_locked, (s,)),
        decreases paths@.len() - i,
    {
        let probe = paths[i].clone();
        let ghost sent = probe;
        let busy = is_locked(probe);
        proof {
            assert(probe_result(is_locked, paths@[i as int]@, busy));
            assert(pv.take(i + 1).drop_last() =~= pv.take(i as int));
            assert(flags.push(busy).drop_last() =~= flags);
            assert(pv.take(i + 1).last() == paths@[i as int]@);
        }
        if busy {
            let ghost before = r@;
            r.push(paths[i].clone());
            proof {
                assert(strings_view(r@) =~= strings_view(before).push(paths@[i as int]@));
            }
        } else {
            proof {
                assert(strings_view(r@) =~= strings_view(r@) + Seq::<Seq<char>>::empty());
            }
        }
        proof {
            flags = flags.push(busy);
        }
        i += 1;
    }
    proof {
        assert(pv.take(pv.len() as int) =~= pv);
    }
    r
}

/// The paths whose flag is set, in order.
pub open spec fn selected_paths(paths: Seq<Seq<char>>, flags: Seq<bool>) -> Seq<Seq<char>>
    decreases paths.len(),
{
    if paths.len() == 0 || flags.len() == 0 {
        seq![]
    } else {
        selected_paths(paths.drop_last(), flags.drop_last()) + if flags.last() {
            seq![paths.last()]
        } else {
            Seq::<Seq<char>>::empty()
        }
    }
}

// ---------------------------------------------------------------------------
// What deletions account for
// ---------------------------------------------------------------------------

/// A tracker keeps the first paths it is given: starting from at most 20 samples,
/// adding paths keeps the samples and the paths in order, cut at 20.
pub proof fn lemma_samples_first(samples: Seq<Seq<char>>, paths: Seq<Seq<char>>)
    requires
        samples.len() <= 20,
    ensures
        add_samples(samples, paths) == (samples + paths).take(
            if samples.len() + paths.len() < 20 {
                (samples.len() + paths.len()) as int
            } else {
                20
            },
        ),
    decreases paths.len(),
{
    if paths.len() == 0 {
        assert(samples + paths =~= samples);
        assert(samples.take(samples.len() as int) =~= samples);
    } else {
        let p = paths.drop_last();
        lemma_samples_first(samples, p);
        assert((samples + paths).drop_last() =~= samples + p);
        let n: int = (samples.len() + p.len()) as int;
        if n < 20 {
            assert((samples + p).take(n) =~= samples + p);
            assert((samples + paths).take(n + 1) =~= (samples + p).push(paths.last()));
        } else {
            assert((samples + paths).take(20) =~= (samples + p).take(20));
        }
    }
}

/// Each outcome is either a removal or an error line.
proof fn lemma_outcomes_account(files: Seq<(Seq<char>, u64)>, outs: Seq<Option<Seq<char>>>)
    requires
        outs.len() == files.len(),
    ensures
        removed_count(outs) + failure_lines(files, outs).len() == files.len(),
    decreases files.len(),
{
    if files.len() > 0 {
        lemma_outcomes_account(files.drop_last(), outs.drop_last());
    }
}

/// Every file sent to the recycle bin is accounted for once: it is recycled, or its
/// error line is added.
pub proof fn lemma_recycle_accounts_every_file<F: Fn(Vec<String>) -> Result<(), String>>(
    remove: F,
    files: Seq<(Seq<char>, u64)>,
    outs: Seq<Option<Seq<char>>>,
    freed: u64,
    removed: u64,
    errors_before: Seq<Seq<char>>,
    errors_after: Seq<Seq<char>>,
)
    requires
        recycle_result(remove, files, outs, freed, removed, errors_before, errors_after),
    ensures
        removed + errors_after.len() == files.len() + errors_before.len(),
{
    lemma_outcomes_account(files, outs);
}

/// Kept and in-use entries together are all the entries.
proof fn lemma_flags_account(files: Seq<(Seq<char>, u64)>, flags: Seq<bool>)
    requires
        flags.len() == files.len(),
    ensures
        unlocked_entries(files, flags).len() + locked_entries(files, flags).len() == files.len(),
    decreases files.len(),
{
    if files.len() > 0 {
        lemma_flags_account(files.drop_last(), flags.drop_last());
    }
}

/// Deleting a batch through the recycle bin is recycling the files not in use, as
/// `recycle_paths` does on them: no free file leaves nothing recycled and no error,
/// and otherwise the result and the errors are those that `recycle_paths` gives for
/// the free files, in order, with the same calls; the files in use go to the tracker.
pub proof fn lemma_batch_recycle_is_recycle_paths<
    P: Fn(String) -> bool,
    R: Fn(String) -> Result<(), String>,
    B: Fn(Vec<String>) -> Result<(), String>,
>(
    in_use: P,
    remove_file: R,
    recycle_batch: B,
    files: Seq<(Seq<char>, u64)>,
    flags: Seq<bool>,
    outs: Seq<Option<Seq<char>>>,
    r: (u64, u64),
    count_before: u64,
    count_after: u64,
    samples_before: Seq<Seq<char>>,
    samples_after: Seq<Seq<char>>,
    errors_before: Seq<Seq<char>>,
    errors_after: Seq<Seq<char>>,
)
    requires
        delete_batch_result(
            in_use,
            remove_file,
            recycle_batch,
            files,
            true,
            flags,
            outs,
            r,
            count_before,
            count_after,
            samples_before,
            samples_after,
            errors_before,
            errors_after,
        ),
    ensures
        unlocked_entries(files, flags).len() == 0 ==> r == (0u64, 0u64) && errors_after == errors_before,
        unlocked_entries(files, flags).len() > 0 ==> recycle_result(
            recycle_batch,
            unlocked_entries(files, flags),
            outs,
            r.0,
            r.1,
            errors_before,
            errors_after,
        ),
        count_after == count_before + locked_entries(files, flags).len(),
        samples_after == add_samples(samples_before, locked_entries(files, flags)),
{
}

/// Every file of a batch is accounted for once: found in use, deleted, or reported in
/// an error line.
pub proof fn lemma_batch_accounts_every_file<
    P: Fn(String) -> bool,
    R: Fn(String) -> Result<(), String>,
    B: Fn(Vec<String>) -> Result<(), String>,
>(
    in_use: P,
    remove_file: R,
    recycle_batch: B,
    files: Seq<(Seq<char>, u64)>,
    to_recycle_bin: bool,
    flags: Seq<bool>,
    outs: Seq<Option<Seq<char>>>,
    r: (u64, u64),
    count_before: u64,
    count_after: u64,
    samples_before: Seq<Seq<char>>,
    samples_after: Seq<Seq<char>>,
    errors_before: Seq<Seq<char>>,
    errors_after: Seq<Seq<char>>,
)
    requires
        delete_batch_result(
            in_use,
            remove_file,
            recycle_batch,
            files,
            to_recycle_bin,
            flags,
            outs,
            r,
            count_before,
            count_after,
            samples_before,
            samples_after,
            errors_before,
            errors_after,
        ),
    ensures
        (count_after - count_before) + r.1 + (errors_after.len() - errors_before.len()) == files.len(),
{
    lemma_flags_account(files, flags);
    let todo = unlocked_entries(files, flags);
    if todo.len() > 0 {
        lemma_outcomes_account(todo, outs);
    }
}

/// A tracker that starts empty and is given paths one by one (`LockTracker::add`)
/// keeps the first 20 of them, in order: its samples are the paths cut at 20.
pub proof fn lemma_tracker_keeps_first_twenty(paths: Seq<Seq<char>>)
    ensures
        add_samples(seq![], paths) == paths.take(if paths.len() < 20 { paths.len() as int } else { 20 }),
        add_samples(seq![], paths).len() <= 20,
{
    lemma_samples_first(seq![], paths);
    assert(Seq::<Seq<char>>::empty() + paths =~= paths);
}

// ---------------------------------------------------------------------------
// Forced removal stays below its path
// ---------------------------------------------------------------------------

/// The path a step works on.
pub open spec fn op_path(op: ForceOp) -> Seq<char> {
    match op {
        ForceOp::File(p, _) => p,
        ForceOp::Dir(p) => p,
    }
}

/// Whether `c` separates the components of a path.
pub open spec fn is_separator(c: char) -> bool {
    c == '\\' || c == '/'
}

/// Whether the path `p` is `dir` or lies below it, component by component: `dir` is
/// followed in `p` by a separator, or itself ends with one (so `C:\A` holds `C:\A\B`
/// but not `C:\AB`).
pub open spec fn path_below(dir: Seq<char>, p: Seq<char>) -> bool {
    ||| p == dir
    ||| dir.is_prefix_of(p) && p.len() > dir.len() && (is_separator(p[dir.len() as int]) || (dir.len() > 0
        && is_separator(dir.last())))
}

/// Whether `node` lies at or below `dir` (nothing lies anywhere).
pub open spec fn lies_under(dir: Seq<char>, node: FsNode) -> bool {
    match node {
        FsNode::Missing => true,
        FsNode::File { path, .. } => path_below(dir, path@),
        FsNode::Dir { path, .. } => path_below(dir, path@),
    }
}

/// A reading of a path is well formed when every entry of a directory lies below it
/// (its path starts with the directory's path), all the way down.
pub open spec fn fs_wf(node: FsNode) -> bool
    decreases node,
{
    match node {
        FsNode::Dir { path, entries } => entries_wf(path@, entries@),
        _ => true,
    }
}

/// Each of `es` lies below `dir` and is well formed.
pub open spec fn entries_wf(dir: Seq<char>, es: Seq<FsNode>) -> bool
    decreases es,
{
    if es.len() == 0 {
        true
    } else {
        entries_wf(dir, es.drop_last()) && lies_under(dir, es.last()) && fs_wf(es.last())
    }
}

/// Being a prefix is transitive.
pub proof fn lemma_prefix_transitive(a: Seq<char>, b: Seq<char>, c: Seq<char>)
    requires
        a.is_prefix_of(b),
        b.is_prefix_of(c),
    ensures
        a.is_prefix_of(c),
{
    assert forall|i: int| 0 <= i < a.len() implies a[i] == c[i] by {
        assert(a[i] == b[i]);
    }
    assert(a =~= c.subrange(0, a.len() as int));
}

/// Lying below is transitive.
pub proof fn lemma_below_transitive(a: Seq<char>, b: Seq<char>, c: Seq<char>)
    requires
        path_below(a, b),
        path_below(b, c),
    ensures
        path_below(a, c),
{
    if b != a && c != b {
        lemma_prefix_transitive(a, b, c);
        assert(b[a.len() as int] == c[a.len() as int]);
    }
}

/// The steps of removing a well-formed `node` that lies below `dir` all work below `dir`.
pub proof fn lemma_ops_under(dir: Seq<char>, node: FsNode)
    requires
        fs_wf(node),
        lies_under(dir, node),
    ensures
        forall|i: int| 0 <= i < force_ops(node).len() ==> path_below(dir, #[trigger] op_path(force_ops(node)[i])),
    decreases node,
{
    match node {
        FsNode::Missing => {},
        FsNode::File { path, size, .. } => {
            assert(force_ops(node) == seq![ForceOp::File(path@, size)]);
        },
        FsNode::Dir { path, entries } => {
            lemma_entries_under(path@, entries@);
            let a = entries_ops(entries@);
            let ops = a + seq![ForceOp::Dir(path@)];
            assert(force_ops(node) == ops);
            assert forall|i: int| 0 <= i < ops.len() implies path_below(dir, #[trigger] op_path(ops[i])) by {
                if i < a.len() {
                    assert(ops[i] == a[i]);
                    assert(path_below(path@, op_path(a[i])));
                    lemma_below_transitive(dir, path@, op_path(a[i]));
                } else {
                    assert(ops[i] == ForceOp::Dir(path@));
                }
            }
        },
    }
}

/// The steps of removing well-formed entries that lie below `dir` all work below `dir`.
proof fn lemma_entries_under(dir: Seq<char>, es: Seq<FsNode>)
    requires
        entries_wf(dir, es),
    ensures
        forall|i: int| 0 <= i < entries_ops(es).len() ==> path_below(dir, #[trigger] op_path(entries_ops(es)[i])),
    decreases es,
{
    if es.len() > 0 {
        lemma_entries_under(dir, es.drop_last());
        lemma_ops_under(dir, es.last());
        let a = entries_ops(es.drop_last());
        let b = force_ops(es.last());
        assert(entries_ops(es) == a + b);
        assert forall|i: int| 0 <= i < (a + b).len() implies path_below(dir, #[trigger] op_path((a + b)[i])) by {
            if i < a.len() {
                assert((a + b)[i] == a[i]);
            } else {
                assert((a + b)[i] == b[i - a.len()]);
            }
        }
    }
}

/// A forced removal touches nothing outside its path: for a well-formed reading, every
/// file it deletes and every directory it removes lies at or below the path read.
pub proof fn lemma_forced_removal_stays_under(node: FsNode)
    requires
        fs_wf(node),
    ensures
        match node {
            FsNode::Missing => force_ops(node).len() == 0,
            FsNode::File { path, .. } => forall|i: int|
                0 <= i < force_ops(node).len() ==> path_below(path@, #[trigger] op_path(force_ops(node)[i])),
            FsNode::Dir { path, .. } => forall|i: int|
                0 <= i < force_ops(node).len() ==> path_below(path@, #[trigger] op_path(force_ops(node)[i])),
        },
{
    match node {
        FsNode::Missing => {},
        FsNode::File { path, .. } => {
            lemma_ops_under(path@, node);
        },
        FsNode::Dir { path, .. } => {
            lemma_ops_under(path@, node);
        },
    }
}

} // verus!
