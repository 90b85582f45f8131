//! Large-file analysis: keeps the `top_n` largest files met during a disk walk.
//!
//! The walk itself (threads, cancellation, timing) runs outside the library; it hands
//! each file to a [`LargeScan`], which keeps the largest ones in descending order.

use std::sync::Arc;
use std::sync::atomic::{AtomicBool, AtomicU64};
use vstd::prelude::*;
use crate::text::{chars_of, chars_lt, compare_chars, lemma_chars_lt_transitive, lemma_chars_lt_trichotomy, lowercase, to_lower};

verus! {

broadcast use vstd::seq_lib::group_to_multiset_ensures;

/// One of the largest files found.
pub struct LargeFileItem {
    pub path: String,
    pub size_bytes: u64,
    /// Modification time in Unix milliseconds, 0 when unknown.
    pub modified: u64,
}

/// Result of a large-file scan of one drive.
pub struct LargeFileReport {
    pub drive: String,
    pub scanned_files: u64,
    pub elapsed_ms: u64,
    pub cancelled: bool,
    pub items: Vec<LargeFileItem>,
}

/// A candidate file: (size, modification time, path).
pub type FileKey = (u64, u64, Seq<char>);

/// The order of `(u64, u64, String)` tuples: by size, then time, then path.
pub open spec fn key_lt(a: FileKey, b: FileKey) -> bool {
    ||| a.0 < b.0
    ||| a.0 == b.0 && a.1 < b.1
    ||| a.0 == b.0 && a.1 == b.1 && chars_lt(a.2, b.2)
}

/// The key of a stored candidate.
pub open spec fn key_of(t: (u64, u64, String)) -> FileKey {
    (t.0, t.1, t.2@)
}

/// The keys of stored candidates.
pub open spec fn keys_of(v: Seq<(u64, u64, String)>) -> Seq<FileKey> {
    v.map_values(|t: (u64, u64, String)| key_of(t))
}

/// Each key is at least as large as every later one.
pub open spec fn sorted_desc(s: Seq<FileKey>) -> bool {
    forall|i: int, j: int| 0 <= i < j < s.len() ==> !key_lt(#[trigger] s[i], #[trigger] s[j])
}

/// The number of files kept: `top` clamped to `10..=500`.
pub open spec fn clamp_top_spec(top: u32) -> nat {
    if top < 10 {
        10
    } else if top > 500 {
        500
    } else {
        top as nat
    }
}

/// Names of the root directories that a scan skips on request, in lower case.
pub open spec fn skipped_dir_names() -> Seq<Seq<char>> {
    seq![
        "windows"@,
        "program files"@,
        "program files (x86)"@,
        "programdata"@,
        "$recycle.bin"@,
        "system volume information"@,
        "recycler"@,
    ]
}

/// `key_lt` is a strict total order.
pub proof fn lemma_key_order(a: FileKey, b: FileKey, c: FileKey)
    ensures
        key_lt(a, b) || a == b || key_lt(b, a),
        !(key_lt(a, b) && key_lt(b, a)),
        !key_lt(a, a),
        key_lt(a, b) && key_lt(b, c) ==> key_lt(a, c),
{
    lemma_chars_lt_trichotomy(a.2, b.2);
    lemma_chars_lt_trichotomy(a.2, a.2);
    if key_lt(a, b) && key_lt(b, c) && a.0 == b.0 && b.0 == c.0 && a.1 == b.1 && b.1 == c.1 {
        lemma_chars_lt_transitive(a.2, b.2, c.2);
    }
}

/// Whether `a` comes before `b` in the order of keys.
fn key_less(a: &(u64, u64, String), b: &(u64, u64, String)) -> (r: bool)
    ensures
        r == key_lt(key_of(*a), key_of(*b)),
{
    if a.0 != b.0 {
        a.0 < b.0
    } else if a.1 != b.1 {
        a.1 < b.1
    } else {
        let x = chars_of(a.2.as_str());
        let y = chars_of(b.2.as_str());
        compare_chars(x.as_slice(), y.as_slice()) == -1
    }
}

/// The number of files a scan keeps: `top` clamped to `10..=500`.
pub fn clamp_top(top: u32) -> (r: usize)
    ensures
        r == clamp_top_spec(top),
{
    if top < 10 {
        10
    } else if top > 500 {
        500
    } else {
        top as usize
    }
}

/// Whether a scan that skips system directories leaves out an entry: a directory at
/// the root of the drive (read while listing the directory at depth 0) whose name is
/// one of the skipped ones.
pub fn skips_entry(listing_depth: Option<usize>, name: &str, is_dir: bool) -> (r: bool)
    ensures
        r == (listing_depth == Some(0usize) && is_dir && skipped_dir_names().contains(
            lowercase(name@),
        )),
{
    match listing_depth {
        Some(d) => d == 0 && is_dir && is_skipped_dir(name),
        None => false,
    }
}

/// Whether a directory entry named `name` is one a scan skips when asked to skip
/// system directories (compared in lower case).
pub fn is_skipped_dir(name: &str) -> (r: bool)
    ensures
        r == skipped_dir_names().contains(lowercase(name@)),
{
    let l = to_lower(name);
    let v = chars_of(l.as_str());
    let names = [
        "windows",
        "program files",
        "program files (x86)",
        "programdata",
        "$recycle.bin",
        "system volume information",
        "recycler",
    ];
    let mut i: usize = 0;
    while i < 7
        invariant
            i <= 7,
            v@ == lowercase(name@),
            forall|k: int| 0 <= k < 7 ==> #[trigger] names@[k]@ == skipped_dir_names()[k],
            forall|k: int| 0 <= k < i ==> skipped_dir_names()[k] != v@,
        decreases 7 - i,
    {
        let n = chars_of(names[i]);
        if compare_chars(n.as_slice(), v.as_slice()) == 0 {
            return true;
        }
        i += 1;
    }
    false
}

/// Whether a progress event is due after `scanned` files (every 20000 files).
pub fn progress_due(scanned: u64) -> (r: bool)
    ensures
        r == (scanned % 20000 == 0),
{
    scanned % 20000 == 0
}

/// State of a running large-file scan: how many files were seen and the largest ones.
pub struct LargeScan {
    top_n: usize,
    scanned: u64,
    kept: Vec<(u64, u64, String)>,
    /// Every file offered so far, in order.
    offered: Ghost<Seq<FileKey>>,
    /// The offered files that are not (or no longer) kept.
    dropped: Ghost<Seq<FileKey>>,
}

impl LargeScan {
    /// How many files are kept at most.
    pub closed spec fn capacity(&self) -> nat {
        self.top_n as nat
    }

    /// Files counted so far.
    pub closed spec fn scanned_count(&self) -> nat {
        self.scanned as nat
    }

    /// Files kept so far, largest first.
    pub closed spec fn kept_keys(&self) -> Seq<FileKey> {
        keys_of(self.kept@)
    }

    /// Every file offered so far.
    pub closed spec fn offered_keys(&self) -> Seq<FileKey> {
        self.offered@
    }

    /// The offered files that are not kept.
    pub closed spec fn dropped_keys(&self) -> Seq<FileKey> {
        self.dropped@
    }

    /// The invariant of a scan: the kept files are sorted, at most `capacity` of them,
    /// kept and dropped files together are exactly the offered ones, files are dropped
    /// only while the list is full, and no dropped file is larger than a kept one.
    pub closed spec fn wf(&self) -> bool {
        &&& 10 <= self.top_n <= 500
        &&& self.kept@.len() <= self.top_n
        &&& sorted_desc(keys_of(self.kept@))
        &&& (keys_of(self.kept@) + self.dropped@).to_multiset() == self.offered@.to_multiset()
        &&& (self.dropped@.len() > 0 ==> self.kept@.len() == self.top_n)
        &&& forall|i: int, j: int|
            0 <= i < self.dropped@.len() && 0 <= j < self.kept@.len() ==> #[trigger] self.dropped@[i].0
                <= #[trigger] self.kept@[j].0
    }

    /// What a scan keeps: after any files were offered, the kept files are in
    /// descending order, there are as many of them as were offered up to the capacity,
    /// kept and dropped files are together exactly the offered ones, and no dropped file
    /// is larger than a kept one.
    pub proof fn lemma_keeps_largest(&self)
        requires
            self.wf(),
        ensures
            sorted_desc(self.kept_keys()),
            self.kept_keys().len() == if self.offered_keys().len() < self.capacity() {
                self.offered_keys().len()
            } else {
                self.capacity()
            },
            (self.kept_keys() + self.dropped_keys()).to_multiset() == self.offered_keys().to_multiset(),
            forall|i: int, j: int|
                0 <= i < self.dropped_keys().len() && 0 <= j < self.kept_keys().len()
                    ==> #[trigger] self.dropped_keys()[i].0 <= #[trigger] self.kept_keys()[j].0,
    {
        let all = keys_of(self.kept@) + self.dropped@;
        all.to_multiset_ensures();
        self.offered@.to_multiset_ensures();
        assert(all.len() == self.offered@.len());
        assert forall|i: int, j: int|
            0 <= i < self.dropped_keys().len() && 0 <= j < self.kept_keys().len()
                implies #[trigger] self.dropped_keys()[i].0 <= #[trigger] self.kept_keys()[j].0 by {
            assert(self.kept_keys()[j] == key_of(self.kept@[j]));
            assert(self.dropped@[i].0 <= self.kept@[j].0);
        }
    }

    /// A new scan keeping `top` files, clamped to `10..=500`.
    pub fn new(top: u32) -> (s: Self)
        ensures
            s.wf(),
            s.capacity() == clamp_top_spec(top),
            s.scanned_count() == 0,
            s.kept_keys() == Seq::<FileKey>::empty(),
            s.offered_keys() == Seq::<FileKey>::empty(),
    {
        let s = LargeScan {
            top_n: clamp_top(top),
            scanned: 0,
            kept: Vec::new(),
            offered: Ghost(Seq::empty()),
            dropped: Ghost(Seq::empty()),
        };
        proof {
            assert(keys_of(s.kept@) + s.dropped@ =~= Seq::<FileKey>::empty());
        }
        s
    }

    /// How many files are kept at most.
    pub fn top_n(&self) -> (r: usize)
        ensures
            r == self.capacity(),
    {
        self.top_n
    }

    /// How many files were counted.
    pub fn scanned(&self) -> (r: u64)
        ensures
            r == self.scanned_count(),
    {
        self.scanned
    }

    /// Counts one more file; returns whether a progress event is due.
    pub fn count_file(&mut self) -> (due: bool)
        requires
            old(self).wf(),
            old(self).scanned_count() < u64::MAX,
        ensures
            final(self).wf(),
            final(self).scanned_count() == old(self).scanned_count() + 1,
            due == (final(self).scanned_count() % 20000 == 0),
            final(self).capacity() == old(self).capacity(),
            final(self).kept_keys() == old(self).kept_keys(),
            final(self).offered_keys() == old(self).offered_keys(),
            final(self).dropped_keys() == old(self).dropped_keys(),
    {
        self.scanned = self.scanned + 1;
        progress_due(self.scanned)
    }

    /// Inserts `x` into the sorted kept list.
    fn insert_sorted(&mut self, x: (u64, u64, String))
        requires
            old(self).wf() || (
                10 <= old(self).top_n <= 500 && sorted_desc(keys_of(old(self).kept@))
            ),
        ensures
            final(self).top_n == old(self).top_n,
            final(self).scanned == old(self).scanned,
            final(self).offered == old(self).offered,
            final(self).dropped == old(self).dropped,
            sorted_desc(keys_of(final(self).kept@)),
            keys_of(final(self).kept@).to_multiset() == keys_of(old(self).kept@).to_multiset().insert(
                key_of(x),
            ),
            final(self).kept@.len() == old(self).kept@.len() + 1,
            forall|j: int|
                0 <= j < final(self).kept@.len() ==> #[trigger] final(self).kept@[j].0 == x.0 || exists|
                    i: int,
                | 0 <= i < old(self).kept@.len() && final(self).kept@[j] == old(self).kept@[i],
    {
        let ghost old_kept = self.kept@;
        let ghost s = keys_of(self.kept@);
        let mut p: usize = 0;
        while p < self.kept.len() && !key_less(&self.kept[p], &x)
            invariant
                self.kept@ == old_kept,
                s == keys_of(old_kept),
                sorted_desc(s),
                p <= s.len(),
                forall|i: int| 0 <= i < p ==> !key_lt(#[trigger] s[i], key_of(x)),
            decreases s.len() - p,
        {
            p += 1;
        }
        let ghost kx = key_of(x);
        let ghost at_p = p < s.len();
        proof {
            if at_p {
                assert(key_lt(s[p as int], kx));
            }
        }
        self.kept.insert(p, x);
        proof {
            let t = keys_of(self.kept@);
            assert(t =~= s.insert(p as int, kx));
            assert forall|i: int, j: int| 0 <= i < j < t.len() implies !key_lt(
                #[trigger] t[i],
                #[trigger] t[j],
            ) by {
                if j < p {
                    assert(t[i] == s[i] && t[j] == s[j]);
                } else if j == p {
                    assert(t[i] == s[i]);
                } else if i == p {
                    assert(t[j] == s[j - 1]);
                    assert(!key_lt(s[p as int], s[j - 1]) || j - 1 == p);
                    lemma_key_order(s[j - 1], s[p as int], kx);
                    lemma_key_order(kx, s[j - 1], s[p as int]);
                } else if i < p {
                    assert(t[i] == s[i] && t[j] == s[j - 1]);
                } else {
                    assert(t[i] == s[i - 1] && t[j] == s[j - 1]);
                }
            }
            assert forall|j: int| 0 <= j < self.kept@.len() implies #[trigger] self.kept@[j].0 == x.0
                || exists|i: int| 0 <= i < old_kept.len() && self.kept@[j] == old_kept[i] by {
                if j < p {
                    assert(self.kept@[j] == old_kept[j]);
                } else if j > p {
                    assert(self.kept@[j] == old_kept[j - 1]);
                }
            }
        }
    }

    /// Offers one file: while fewer than `capacity` files are kept it is kept; after
    /// that it replaces the smallest kept file when it is strictly larger than it, and
    /// is dropped otherwise.
    pub fn offer(&mut self, size: u64, modified: u64, path: String)
        requires
            old(self).wf(),
        ensures
            final(self).wf(),
            final(self).capacity() == old(self).capacity(),
            final(self).scanned_count() == old(self).scanned_count(),
            final(self).offered_keys() == old(self).offered_keys().push((size, modified, path@)),
            ({
                let k = old(self).kept_keys();
                let x = (size, modified, path@);
                if k.len() < old(self).capacity() {
                    final(self).kept_keys().to_multiset() == k.to_multiset().insert(x)
                } else if size > k.last().0 {
                    final(self).kept_keys().to_multiset() == k.drop_last().to_multiset().insert(x)
                } else {
                    final(self).kept_keys() == k
                }
            }),
    {
        let ghost k = keys_of(self.kept@);
        let ghost x = (size, modified, path@);
        let ghost old_kept = self.kept@;
        let ghost dropped0 = self.dropped@;
        let item = (size, modified, path);
        proof {
            assert(key_of(item) == x);
        }
        if self.kept.len() < self.top_n {
            self.insert_sorted(item);
            self.offered = Ghost(self.offered@.push(x));
            proof {
                assert(dropped0.len() == 0);
                assert(self.dropped@.len() == 0);
                assert(keys_of(self.kept@) + self.dropped@ =~= keys_of(self.kept@));
                assert(k + dropped0 =~= k);
                assert(self.offered@ == old(self).offered@.push(x));
                assert(self.offered@.to_multiset() == old(self).offered@.to_multiset().insert(x));
                assert(old(self).offered@.to_multiset() == k.to_multiset());
                assert(keys_of(self.kept@).to_multiset() == k.to_multiset().insert(x));
                    assert((keys_of(self.kept@) + self.dropped@).to_multiset() == self.offered@.to_multiset());
            }
        } else {
            let n: usize = self.kept.len();
            let min_size: u64 = self.kept[n - 1].0;
            if size > min_size {
                let last = self.kept.pop().unwrap();
                let ghost kl = key_of(last);
                proof {
                    assert(keys_of(self.kept@) =~= k.drop_last());
                    assert(k =~= k.drop_last().push(kl));
                    assert forall|i: int, j: int| 0 <= i < j < keys_of(self.kept@).len() implies !key_lt(
                        #[trigger] keys_of(self.kept@)[i],
                        #[trigger] keys_of(self.kept@)[j],
                    ) by {
                        assert(keys_of(self.kept@)[i] == k[i]);
                        assert(keys_of(self.kept@)[j] == k[j]);
                    }
                    // the removed file is the smallest kept one
                    assert forall|j: int| 0 <= j < old_kept.len() implies last.0 <= #[trigger] old_kept[j].0 by {
                        if j < n - 1 {
                            assert(!key_lt(k[j], k[n - 1]));
                            lemma_key_order(k[j], k[n - 1], k[j]);
                        }
                    }
                }
                self.insert_sorted(item);
                self.offered = Ghost(self.offered@.push(x));
                self.dropped = Ghost(self.dropped@.push(kl));
                proof {
                    let nk = keys_of(self.kept@);
                    let kd = k.drop_last();
                    vstd::seq_lib::lemma_multiset_commutative(nk, self.dropped@);
                    vstd::seq_lib::lemma_multiset_commutative(k, dropped0);
                    assert(nk.to_multiset() == kd.to_multiset().insert(x));
                    assert(k.to_multiset() == kd.to_multiset().insert(kl));
                    assert(self.dropped@.to_multiset() == dropped0.to_multiset().insert(kl));
                    assert((nk + self.dropped@).to_multiset() =~= kd.to_multiset().insert(x).add(
                        dropped0.to_multiset().insert(kl),
                    ));
                    assert(self.offered@.to_multiset() =~= kd.to_multiset().insert(kl).add(
                        dropped0.to_multiset(),
                    ).insert(x));
                    assert((keys_of(self.kept@) + self.dropped@).to_multiset() == self.offered@.to_multiset());
                    assert forall|i: int, j: int|
                        0 <= i < self.dropped@.len() && 0 <= j < self.kept@.len() implies #[trigger] self.dropped@[i].0
                        <= #[trigger] self.kept@[j].0 by {
                        let kj = self.kept@[j];
                        if kj.0 != size {
                            let i2 = choose|i2: int| 0 <= i2 < old_kept.len() - 1 && kj == old_kept.drop_last()[i2];
                            assert(old_kept.drop_last()[i2] == old_kept[i2]);
                        }
                        if i < dropped0.len() {
                            assert(self.dropped@[i] == dropped0[i]);
                            assert(dropped0[i].0 <= old_kept[n - 1].0);
                        } else {
                            assert(self.dropped@[i] == kl);
                        }
                    }
                }
            } else {
                self.offered = Ghost(self.offered@.push(x));
                self.dropped = Ghost(self.dropped@.push(x));
                proof {
                    assert(k + self.dropped@ =~= (k + dropped0).push(x));
                    assert(keys_of(self.kept@) == k);
                    assert((k + self.dropped@).to_multiset() == (k + dropped0).to_multiset().insert(x));
                    assert(self.offered@.to_multiset() == old(self).offered@.to_multiset().insert(x));
                    assert((keys_of(self.kept@) + self.dropped@).to_multiset() == self.offered@.to_multiset());
                    assert forall|i: int, j: int|
                        0 <= i < self.dropped@.len() && 0 <= j < self.kept@.len() implies #[trigger] self.dropped@[i].0
                        <= #[trigger] self.kept@[j].0 by {
                        if j < n - 1 {
                            assert(!key_lt(k[j], k[n - 1]));
                            assert(k[j] == key_of(self.kept@[j]));
                            lemma_key_order(k[j], k[n - 1], k[j]);
                        }
                        if i < dropped0.len() {
                            assert(self.dropped@[i] == dropped0[i]);
                        }
                    }
                }
            }
        }
    }

    /// Ends the scan: the kept files, largest first, with the scan's totals.
    pub fn finish(self, drive: String, elapsed_ms: u64, cancelled: bool) -> (r: LargeFileReport)
        requires
            self.wf(),
        ensures
            r.drive@ == drive@,
            r.scanned_files == self.scanned_count(),
            r.elapsed_ms == elapsed_ms,
            r.cancelled == cancelled,
            r.items@.len() == self.kept_keys().len(),
            forall|i: int|
                0 <= i < r.items@.len() ==> (#[trigger] r.items@[i]).size_bytes == self.kept_keys()[i].0
                    && r.items@[i].modified == self.kept_keys()[i].1 && r.items@[i].path@
                    == self.kept_keys()[i].2,
    {
        let mut items: Vec<LargeFileItem> = Vec::new();
        let mut kept = self.kept;
        let ghost k = keys_of(kept@);
        // take the kept files from the back, then reverse into place
        let mut rev: Vec<LargeFileItem> = Vec::new();
        while kept.len() > 0
            invariant
                kept@.len() + rev@.len() == k.len(),
                keys_of(kept@) == k.subrange(0, kept@.len() as int),
                forall|i: int|
                    0 <= i < rev@.len() ==> (#[trigger] rev@[i]).size_bytes == k[k.len() - 1 - i].0
                        && rev@[i].modified == k[k.len() - 1 - i].1 && rev@[i].path@ == k[k.len() - 1 - i].2,
            decreases kept@.len(),
        {
            let ghost before = kept@;
            let (size, modified, path) = kept.pop().unwrap();
            proof {
                assert(keys_of(kept@) =~= k.subrange(0, kept@.len() as int));
                assert(keys_of(before)[before.len() - 1] == key_of(before[before.len() - 1]));
            }
            rev.push(LargeFileItem { path, size_bytes: size, modified });
        }
        while rev.len() > 0
            invariant
                rev@.len() + items@.len() == k.len(),
                forall|i: int|
                    0 <= i < rev@.len() ==> (#[trigger] rev@[i]).size_bytes == k[k.len() - 1 - i].0
                        && rev@[i].modified == k[k.len() - 1 - i].1 && rev@[i].path@ == k[k.len() - 1 - i].2,
                forall|i: int|
                    0 <= i < items@.len() ==> (#[trigger] items@[i]).size_bytes == k[i].0
                        && items@[i].modified == k[i].1 && items@[i].path@ == k[i].2,
            decreases rev@.len(),
        {
            let it = rev.pop().unwrap();
            items.push(it);
        }
        LargeFileReport { drive, scanned_files: self.scanned, elapsed_ms, cancelled, items }
    }
}

/// State shared between a running scan and the commands that cancel it or watch its
/// progress.
pub struct ScanState {
    /// Set to stop the scan at the next file.
    pub cancel: Arc<AtomicBool>,
    /// Files scanned so far, published from time to time.
    pub scanned: Arc<AtomicU64>,
}

impl ScanState {
    /// A state with no cancellation requested and nothing scanned.
    pub fn new() -> Self {
        ScanState { cancel: Arc::new(AtomicBool::new(false)), scanned: Arc::new(AtomicU64::new(0)) }
    }

    /// Clears the cancellation request and the published count before a scan.
    pub fn reset(&self) {
        self.cancel.store(false, std::sync::atomic::Ordering::SeqCst);
        self.scanned.store(0, std::sync::atomic::Ordering::SeqCst);
    }

    /// `cancel_large_scan`: asks the running scan to stop.
    pub fn request_cancel(&self) {
        self.cancel.store(true, std::sync::atomic::Ordering::SeqCst);
    }

    /// Whether a stop was asked for (another thread may ask at any time).
    pub fn is_cancelled(&self) -> bool {
        self.cancel.load(std::sync::atomic::Ordering::Relaxed)
    }

    /// Publishes the number of files scanned so far.
    pub fn publish_scanned(&self, n: u64) {
        self.scanned.store(n, std::sync::atomic::Ordering::Relaxed);
    }
}

/// The argument that makes the explorer open a folder with `path` selected.
pub fn explorer_select_arg(path: &str) -> (r: String)
    ensures
        r@ == "/select,"@ + path@,
{
    crate::text::concat2("/select,", path)
}

} // verus!
