//! The scan's bookkeeping: what it counts, which entries it descends into or
//! skips, the bounded error log and the two top lists. The walk over the file
//! system feeds it one event at a time.

use vstd::prelude::*;
use crate::ignore::{IgnoreMatcher, opt_view};
use crate::text::{push_char, push_str};
pub use crate::topn::SizedPath;
use crate::topn::{TopN, topn_step, in_report_order, sized_entries};

verus! {

/// The most error samples a scan keeps.
pub const MAX_ERROR_SAMPLES: usize = 20;

/// What a scan counted.
#[derive(Clone, Debug)]
pub struct ScanStats {
    pub files_seen: u64,
    pub dirs_seen: u64,
    pub bytes_total: u64,
    pub errors_total: u64,
    pub duration_ms: u128,
}

impl Default for ScanStats {
    fn default() -> (s: Self)
        ensures
            s.files_seen == 0 && s.dirs_seen == 0 && s.bytes_total == 0 && s.errors_total == 0
                && s.duration_ms == 0,
    {
        ScanStats { files_seen: 0, dirs_seen: 0, bytes_total: 0, errors_total: 0, duration_ms: 0 }
    }
}

/// One error met during a scan.
#[derive(Clone, Debug)]
pub struct ScanErrorSample {
    pub path: String,
    pub message: String,
}

/// The errors met during a scan: how many, and the first few of them.
#[derive(Clone, Debug)]
pub struct ScanErrors {
    pub total: u64,
    pub samples: Vec<ScanErrorSample>,
}

impl Default for ScanErrors {
    fn default() -> (e: Self)
        ensures
            e.total == 0 && e.samples@.len() == 0,
    {
        ScanErrors { total: 0, samples: Vec::new() }
    }
}

/// The outcome of a scan.
#[derive(Clone, Debug)]
pub struct ScanResult {
    pub root: String,
    pub stats: ScanStats,
    pub top_files: Vec<SizedPath>,
    pub top_dirs: Vec<SizedPath>,
    pub errors: ScanErrors,
}

/// Why a scan could not start.
#[derive(Debug)]
pub struct ScanInitError {
    pub root: String,
    pub message: String,
}

impl ScanInitError {
    /// The root is a symbolic link, which a scan does not follow.
    pub fn symlink_root(root: String) -> (e: Self)
        ensures
            e.root@ == root@,
            e.message@ == "root path is a symlink (not followed by default)"@,
    {
        ScanInitError { root, message: String::from_str("root path is a symlink (not followed by default)") }
    }

    /// The root's metadata could not be read, for the reason `reason`.
    pub fn unreadable_root(root: String, reason: &str) -> (e: Self)
        ensures
            e.root@ == root@,
            e.message@ == reason@,
    {
        let mut message = String::new();
        push_str(&mut message, reason);
        ScanInitError { root, message }
    }

    /// The ignore file could not be read, for the reason `reason`.
    pub fn ignore_rules(root: String, reason: &str) -> (e: Self)
        ensures
            e.root@ == root@,
            e.message@ == "failed to read ignore rules: "@ + reason@,
    {
        let mut message = String::from_str("failed to read ignore rules: ");
        push_str(&mut message, reason);
        ScanInitError { root, message }
    }
}

/// The path of an entry relative to the scan root: its non-empty components
/// joined by `/`.
pub open spec fn join_rel(cs: Seq<Seq<char>>) -> Seq<char>
    decreases cs.len(),
{
    if cs.len() == 0 {
        Seq::empty()
    } else {
        let prev = join_rel(cs.drop_last());
        let c = cs.last();
        if c.len() == 0 {
            prev
        } else if prev.len() == 0 {
            c
        } else {
            prev + seq!['/'] + c
        }
    }
}

/// Joins the components of a relative path with `/`, skipping empty ones.
pub fn normalize_rel_path(components: &Vec<String>) -> (out: String)
    ensures
        out@ == join_rel(components@.map_values(|c: String| c@)),
{
    let ghost cs = components@.map_values(|c: String| c@);
    let mut out = String::new();
    let mut k: usize = 0;
    while k < components.len()
        invariant
            k <= components@.len(),
            cs == components@.map_values(|c: String| c@),
            out@ == join_rel(cs.take(k as int)),
        decreases components@.len() - k,
    {
        let c = components[k].as_str();
        proof {
            assert(cs.take(k + 1).drop_last() =~= cs.take(k as int));
            assert(cs.take(k + 1).last() == c@);
        }
        if !c.is_empty() {
            if !out.as_str().is_empty() {
                push_char(&mut out, '/');
            }
            push_str(&mut out, c);
        }
        k = k + 1;
    }
    assert(cs.take(k as int) =~= cs);
    out
}

/// What an entry of a directory is, as its metadata (not followed through
/// symbolic links) says.
#[derive(Clone, Copy, Debug, PartialEq, Eq, Structural)]
pub enum EntryKind {
    Symlink,
    Dir,
    File,
    Other,
}

/// What the walk does with an entry.
#[derive(Clone, Copy, Debug, PartialEq, Eq, Structural)]
pub enum EntryAction {
    /// Leave it out: a symbolic link, an ignored entry, or neither file nor directory.
    Skip,
    /// Scan the directory: enter it, visit its entries, leave it.
    Descend,
    /// The file was counted.
    Counted,
}

/// What the walk does with an entry of kind `kind`, ignored or not.
pub open spec fn entry_action(kind: EntryKind, ignored: bool) -> EntryAction {
    match kind {
        EntryKind::Dir => if ignored {
            EntryAction::Skip
        } else {
            EntryAction::Descend
        },
        EntryKind::File => if ignored {
            EntryAction::Skip
        } else {
            EntryAction::Counted
        },
        _ => EntryAction::Skip,
    }
}

/// An ignored entry is never walked nor counted: an entry is descended into
/// exactly when it is a directory that no rule ignores, and counted exactly
/// when it is a file that no rule ignores; everything else is skipped.
pub proof fn lemma_ignored_entries_are_skipped(kind: EntryKind, ignored: bool)
    ensures
        ignored ==> entry_action(kind, ignored) == EntryAction::Skip,
        entry_action(kind, ignored) == EntryAction::Descend <==> (kind == EntryKind::Dir && !ignored),
        entry_action(kind, ignored) == EntryAction::Counted <==> (kind == EntryKind::File && !ignored),
{
}

/// How a scan proceeds from its root.
#[derive(Clone, Copy, Debug, PartialEq, Eq, Structural)]
pub enum RootAction {
    /// The root is a directory: walk it.
    ScanDir,
    /// The root is a regular file: count it alone (`ScanState::root_file`).
    CountFile,
    /// Neither: nothing is counted and the total is 0.
    Nothing,
}

/// How a scan starts at `root`, whose metadata (not followed through a
/// symbolic link) says it is of kind `kind`: a symbolic link is refused.
pub fn begin_scan(root: &String, kind: EntryKind) -> (r: Result<RootAction, ScanInitError>)
    ensures
        kind == EntryKind::Symlink ==> (r matches Err(e) && e.root@ == root@
            && e.message@ == "root path is a symlink (not followed by default)"@),
        kind == EntryKind::Dir ==> r == Ok::<RootAction, ScanInitError>(RootAction::ScanDir),
        kind == EntryKind::File ==> r == Ok::<RootAction, ScanInitError>(RootAction::CountFile),
        kind == EntryKind::Other ==> r == Ok::<RootAction, ScanInitError>(RootAction::Nothing),
{
    match kind {
        EntryKind::Symlink => Err(ScanInitError::symlink_root(root.clone())),
        EntryKind::Dir => Ok(RootAction::ScanDir),
        EntryKind::File => Ok(RootAction::CountFile),
        EntryKind::Other => Ok(RootAction::Nothing),
    }
}

pub open spec fn error_sample_view(e: ScanErrorSample) -> (Seq<char>, Seq<char>) {
    (e.path@, e.message@)
}

/// The error samples kept in `e`, as pairs of path and message.
pub open spec fn samples_of(e: ScanErrors) -> Seq<(Seq<char>, Seq<char>)> {
    e.samples@.map_values(|x: ScanErrorSample| error_sample_view(x))
}

/// The samples kept after one more error `e`: it is added while fewer than
/// `MAX_ERROR_SAMPLES` are kept, and dropped after that.
pub open spec fn sample_step(
    kept: Seq<(Seq<char>, Seq<char>)>,
    e: (Seq<char>, Seq<char>),
) -> Seq<(Seq<char>, Seq<char>)> {
    if kept.len() < MAX_ERROR_SAMPLES {
        kept.push(e)
    } else {
        kept
    }
}

/// The samples kept after the errors `errs` are met one by one, none kept before.
pub open spec fn samples_after(errs: Seq<(Seq<char>, Seq<char>)>) -> Seq<(Seq<char>, Seq<char>)>
    decreases errs.len(),
{
    if errs.len() == 0 {
        Seq::empty()
    } else {
        sample_step(samples_after(errs.drop_last()), errs.last())
    }
}

/// The first `MAX_ERROR_SAMPLES` errors are the ones kept, in the order they
/// were met: after the errors `errs`, one by one from none kept, the samples
/// are the first `min(|errs|, MAX_ERROR_SAMPLES)` of them.
pub proof fn lemma_first_errors_kept(errs: Seq<(Seq<char>, Seq<char>)>)
    ensures
        samples_after(errs) == errs.take(
            if errs.len() < MAX_ERROR_SAMPLES { errs.len() as int } else { MAX_ERROR_SAMPLES as int },
        ),
    decreases errs.len(),
{
    if errs.len() == 0 {
        assert(errs.take(0) =~= Seq::<(Seq<char>, Seq<char>)>::empty());
    } else {
        let p = errs.drop_last();
        lemma_first_errors_kept(p);
        if p.len() < MAX_ERROR_SAMPLES {
            assert(p.take(p.len() as int) =~= p);
            assert(errs.take(errs.len() as int) =~= p.push(errs.last()));
        } else {
            assert(p.take(MAX_ERROR_SAMPLES as int) =~= errs.take(MAX_ERROR_SAMPLES as int));
        }
    }
}

/// The first `MAX_ERROR_SAMPLES` errors recorded in a scan are the samples it
/// keeps, in the order met, and every error is counted: in any state reached
/// from `ScanState::new` (which has met none) by its steps, each recorded
/// error adding one to `errors_met`.
pub proof fn lemma_scan_keeps_first_errors(s: ScanState)
    requires
        s.wf(),
    ensures
        s.errors.total == s.errors_met().len(),
        samples_of(s.errors) == s.errors_met().take(
            if s.errors_met().len() < MAX_ERROR_SAMPLES {
                s.errors_met().len() as int
            } else {
                MAX_ERROR_SAMPLES as int
            },
        ),
{
    lemma_first_errors_kept(s.errors_met());
}

/// The plain sum of `s`.
pub open spec fn parts_sum(s: Seq<u64>) -> nat
    decreases s.len(),
{
    if s.len() == 0 {
        0
    } else {
        parts_sum(s.drop_last()) + (s.last() as nat)
    }
}

/// The sum of `s`, saturating at `u64::MAX`: a directory's total.
pub open spec fn capped_sum(s: Seq<u64>) -> u64 {
    if parts_sum(s) > u64::MAX {
        u64::MAX
    } else {
        parts_sum(s) as u64
    }
}

/// Adding one more part with `saturating_add` keeps a total equal to the
/// capped sum of its parts.
pub proof fn lemma_capped_sum_push(s: Seq<u64>, x: u64)
    ensures
        capped_sum(s.push(x)) == capped_sum(s).saturating_add(x),
        capped_sum(Seq::<u64>::empty()) == 0,
{
    assert(s.push(x).drop_last() =~= s);
    assert(parts_sum(s.push(x)) == parts_sum(s) + x);
}

/// `parts` with `x` added to its last entry's parts.
pub open spec fn add_to_last(parts: Seq<Seq<u64>>, x: u64) -> Seq<Seq<u64>> {
    parts.update(parts.len() - 1, parts.last().push(x))
}

/// The running state of a scan.
pub struct ScanState {
    pub stats: ScanStats,
    pub top_files: TopN,
    pub top_dirs: TopN,
    pub min_file_size_for_top: u64,
    pub errors: ScanErrors,
    /// Every error recorded so far, as path and message, in the order met.
    pub errors_met: Ghost<Seq<(Seq<char>, Seq<char>)>>,
    /// The running byte totals of the directories being scanned, innermost last.
    pub open_sums: Vec<u64>,
    /// For each directory being scanned, what was added to its total so far:
    /// the sizes of its counted files and the totals of its scanned
    /// subdirectories, in order.
    pub open_parts: Ghost<Seq<Seq<u64>>>,
    /// The total of the scan's root: set when the root directory is left, or
    /// to the root file's size.
    pub root_total: u64,
}

impl ScanState {
    /// The directory totals being kept, what they are made of, and the root's total.
    pub open spec fn walk_of(&self) -> (Seq<u64>, Seq<Seq<u64>>, u64) {
        (self.open_sums@, self.open_parts@, self.root_total)
    }

    /// The errors recorded so far, in the order met.
    pub open spec fn errors_met(&self) -> Seq<(Seq<char>, Seq<char>)> {
        self.errors_met@
    }

    /// What every step keeps: both selections keep the largest of what they
    /// were offered, no file under the size threshold was ever offered to the
    /// top files, the errors counted are those met, the samples are what
    /// keeping them one by one leaves (see `samples_after`), and the running
    /// total of each directory being scanned is the capped sum of its parts.
    pub open spec fn wf(&self) -> bool {
        &&& self.top_files.keeps_largest()
        &&& self.top_dirs.keeps_largest()
        &&& forall|i: int|
            0 <= i < self.top_files.offered().len() ==> (#[trigger] self.top_files.offered()[i]).0
                >= self.min_file_size_for_top
        &&& self.errors.samples@.len() <= MAX_ERROR_SAMPLES
        &&& self.errors.samples@.len() <= self.errors.total
        &&& self.errors.total == self.errors_met().len()
        &&& samples_of(self.errors) == samples_after(self.errors_met())
        &&& self.open_parts@.len() == self.open_sums@.len()
        &&& forall|i: int|
            0 <= i < self.open_sums@.len() ==> #[trigger] self.open_sums@[i] == capped_sum(self.open_parts@[i])
    }

    /// A fresh state: nothing counted, the top lists empty with room for
    /// `top_files` files and `top_dirs` directories.
    pub fn new(top_files: usize, top_dirs: usize, min_file_size_for_top: u64) -> (s: Self)
        ensures
            s.wf(),
            s.stats.files_seen == 0 && s.stats.dirs_seen == 0 && s.stats.bytes_total == 0
                && s.stats.errors_total == 0 && s.stats.duration_ms == 0,
            s.top_files.capacity() == top_files,
            s.top_dirs.capacity() == top_dirs,
            s.top_files.offered().len() == 0,
            s.top_dirs.offered().len() == 0,
            s.min_file_size_for_top == min_file_size_for_top,
            s.errors.total == 0,
            s.errors.samples@.len() == 0,
            s.errors_met() == Seq::<(Seq<char>, Seq<char>)>::empty(),
            s.walk_of() == (Seq::<u64>::empty(), Seq::<Seq<u64>>::empty(), 0u64),
    {
        let s = ScanState {
            stats: ScanStats::default(),
            top_files: TopN::new(top_files),
            top_dirs: TopN::new(top_dirs),
            min_file_size_for_top,
            errors: ScanErrors::default(),
            errors_met: Ghost(Seq::empty()),
            open_sums: Vec::new(),
            open_parts: Ghost(Seq::empty()),
            root_total: 0,
        };
        assert(samples_of(s.errors) =~= Seq::<(Seq<char>, Seq<char>)>::empty());
        s
    }

    /// Counts an error; keeps it as a sample while fewer than
    /// `MAX_ERROR_SAMPLES` are kept.
    pub fn record_error(&mut self, path: String, message: String)
        requires
            old(self).wf(),
            old(self).errors.total < u64::MAX,
        ensures
            final(self).wf(),
            final(self).errors.total == old(self).errors.total + 1,
            samples_of(final(self).errors) == sample_step(samples_of(old(self).errors), (path@, message@)),
            final(self).errors_met() == old(self).errors_met().push((path@, message@)),
            final(self).stats == old(self).stats,
            final(self).top_files == old(self).top_files,
            final(self).top_dirs == old(self).top_dirs,
            final(self).min_file_size_for_top == old(self).min_file_size_for_top,
            final(self).walk_of() == old(self).walk_of(),
    {
        let ghost met = self.errors_met@.push((path@, message@));
        proof {
            assert(met.drop_last() =~= self.errors_met@);
        }
        self.errors_met = Ghost(met);
        self.errors.total = self.errors.total + 1;
        if self.errors.samples.len() < MAX_ERROR_SAMPLES {
            let ghost before = samples_of(self.errors);
            self.errors.samples.push(ScanErrorSample { path, message });
            assert(samples_of(self.errors) =~= before.push((path@, message@)));
        }
    }

    /// Offers a file to the top files, if it is at least the size threshold.
    pub fn consider_file(&mut self, path: String, size: u64)
        requires
            old(self).wf(),
        ensures
            final(self).wf(),
            size >= old(self).min_file_size_for_top ==> {
                &&& final(self).top_files.offered() == old(self).top_files.offered().push((size, path@))
                &&& final(self).top_files.held() == topn_step(
                    old(self).top_files.capacity(),
                    old(self).top_files.held(),
                    (size, path@),
                    old(self).top_files.backslash_separates(),
                )
                &&& final(self).top_files.capacity() == old(self).top_files.capacity()
                &&& final(self).top_files.backslash_separates() == old(self).top_files.backslash_separates()
            },
            size < old(self).min_file_size_for_top ==> final(self).top_files == old(self).top_files,
            final(self).stats == old(self).stats,
            final(self).top_dirs == old(self).top_dirs,
            final(self).errors == old(self).errors,
            final(self).errors_met() == old(self).errors_met(),
            final(self).min_file_size_for_top == old(self).min_file_size_for_top,
            final(self).walk_of() == old(self).walk_of(),
    {
        if size >= self.min_file_size_for_top {
            let ghost before = self.top_files.offered();
            self.top_files.consider(path, size);
            assert(forall|i: int|
                0 <= i < self.top_files.offered().len() - 1 ==> self.top_files.offered()[i] == before[i]);
        }
    }

    /// Offers a directory with its total to the top directories.
    pub fn consider_dir(&mut self, path: String, size: u64)
        requires
            old(self).wf(),
        ensures
            final(self).wf(),
            final(self).top_dirs.offered() == old(self).top_dirs.offered().push((size, path@)),
            final(self).top_dirs.held() == topn_step(
                old(self).top_dirs.capacity(),
                old(self).top_dirs.held(),
                (size, path@),
                    old(self).top_dirs.backslash_separates(),
            ),
            final(self).top_dirs.capacity() == old(self).top_dirs.capacity(),
            final(self).top_dirs.backslash_separates() == old(self).top_dirs.backslash_separates(),
            final(self).stats == old(self).stats,
            final(self).top_files == old(self).top_files,
            final(self).errors == old(self).errors,
            final(self).errors_met() == old(self).errors_met(),
            final(self).min_file_size_for_top == old(self).min_file_size_for_top,
            final(self).walk_of() == old(self).walk_of(),
    {
        self.top_dirs.consider(path, size);
    }

    /// The directory at `path`, just entered, could not be listed, for the
    /// reason `message`: the error is recorded, the directory is no longer
    /// open, adds nothing to its parent's total and is not offered to the top
    /// directories.
    pub fn dir_unreadable(&mut self, path: String, message: String) -> (total: u64)
        requires
            old(self).wf(),
            old(self).errors.total < u64::MAX,
            old(self).open_sums@.len() > 0,
        ensures
            final(self).wf(),
            total == 0,
            final(self).errors.total == old(self).errors.total + 1,
            samples_of(final(self).errors) == sample_step(samples_of(old(self).errors), (path@, message@)),
            final(self).errors_met() == old(self).errors_met().push((path@, message@)),
            final(self).open_parts@ == old(self).open_parts@.drop_last(),
            final(self).open_sums@.len() == old(self).open_sums@.len() - 1,
            final(self).root_total == old(self).root_total,
            final(self).stats == old(self).stats,
            final(self).top_files == old(self).top_files,
            final(self).top_dirs == old(self).top_dirs,
            final(self).min_file_size_for_top == old(self).min_file_size_for_top,
    {
        self.record_error(path, message);
        let ghost before = self.open_sums@;
        self.open_sums.pop();
        let ghost parts = self.open_parts@.drop_last();
        self.open_parts = Ghost(parts);
        assert forall|i: int| 0 <= i < self.open_sums@.len() implies #[trigger] self.open_sums@[i]
            == capped_sum(self.open_parts@[i]) by {
            assert(self.open_sums@[i] == before[i]);
        }
        0
    }

    /// The walk enters a directory: it is counted, and its running total
    /// starts at zero, with no parts yet.
    pub fn enter_dir(&mut self)
        requires
            old(self).wf(),
            old(self).stats.dirs_seen < u64::MAX,
        ensures
            final(self).wf(),
            final(self).stats == (ScanStats { dirs_seen: (old(self).stats.dirs_seen + 1) as u64, ..old(self).stats }),
            final(self).open_sums@ == old(self).open_sums@.push(0),
            final(self).open_parts@ == old(self).open_parts@.push(Seq::<u64>::empty()),
            final(self).root_total == old(self).root_total,
            final(self).top_files == old(self).top_files,
            final(self).top_dirs == old(self).top_dirs,
            final(self).errors == old(self).errors,
            final(self).errors_met() == old(self).errors_met(),
            final(self).min_file_size_for_top == old(self).min_file_size_for_top,
    {
        let ghost before = self.open_sums@;
        self.stats.dirs_seen = self.stats.dirs_seen + 1;
        self.open_sums.push(0);
        self.open_parts = Ghost(self.open_parts@.push(Seq::empty()));
        proof {
            lemma_capped_sum_push(Seq::empty(), 0);
        }
        assert forall|i: int| 0 <= i < self.open_sums@.len() implies #[trigger] self.open_sums@[i]
            == capped_sum(self.open_parts@[i]) by {
            if i < before.len() {
                assert(self.open_sums@[i] == before[i]);
            }
        }
    }

    /// The scan root is a regular file of `size` bytes: it is counted and
    /// offered to the top files; its size is the scan's total.
    pub fn root_file(&mut self, path: String, size: u64) -> (total: u64)
        requires
            old(self).wf(),
            old(self).stats.files_seen < u64::MAX,
        ensures
            final(self).wf(),
            total == size,
            final(self).root_total == size,
            final(self).open_sums@ == old(self).open_sums@,
            final(self).open_parts@ == old(self).open_parts@,
            final(self).stats == (ScanStats { files_seen: (old(self).stats.files_seen + 1) as u64, ..old(self).stats }),
            size >= old(self).min_file_size_for_top ==> {
                &&& final(self).top_files.held() == topn_step(
                    old(self).top_files.capacity(),
                    old(self).top_files.held(),
                    (size, path@),
                    old(self).top_files.backslash_separates(),
                )
                &&& final(self).top_files.offered() == old(self).top_files.offered().push((size, path@))
                &&& final(self).top_files.capacity() == old(self).top_files.capacity()
                &&& final(self).top_files.backslash_separates() == old(self).top_files.backslash_separates()
            },
            size < old(self).min_file_size_for_top ==> final(self).top_files == old(self).top_files,
            final(self).top_dirs == old(self).top_dirs,
            final(self).errors == old(self).errors,
            final(self).errors_met() == old(self).errors_met(),
            final(self).min_file_size_for_top == old(self).min_file_size_for_top,
    {
        self.stats.files_seen = self.stats.files_seen + 1;
        self.consider_file(path, size);
        self.root_total = size;
        size
    }

    /// One entry of the innermost directory being scanned: symbolic links and
    /// entries that are neither files nor directories are skipped, as are
    /// ignored ones; a directory is to be descended into; a file is counted,
    /// added to its directory's total as a part and offered to the top files.
    pub fn visit_entry(
        &mut self,
        ignore: &IgnoreMatcher,
        kind: EntryKind,
        rel: &str,
        name: Option<&str>,
        path: String,
        size: u64,
    ) -> (action: EntryAction)
        requires
            old(self).wf(),
            old(self).stats.files_seen < u64::MAX,
            old(self).open_sums@.len() > 0,
        ensures
            final(self).wf(),
            action == entry_action(
                kind,
                (kind == EntryKind::Dir || kind == EntryKind::File) && ignore.ignores(rel@, opt_view(name)),
            ),
            action == EntryAction::Descend <==> (kind == EntryKind::Dir && !ignore.ignores(rel@, opt_view(name))),
            action == EntryAction::Counted <==> (kind == EntryKind::File && !ignore.ignores(rel@, opt_view(name))),
            ignore.ignores(rel@, opt_view(name)) ==> action == EntryAction::Skip,
            action == EntryAction::Counted ==> {
                &&& final(self).open_parts@ == add_to_last(old(self).open_parts@, size)
                &&& final(self).open_sums@.len() == old(self).open_sums@.len()
                &&& final(self).stats == (ScanStats { files_seen: (old(self).stats.files_seen + 1) as u64, ..old(self).stats })
                &&& size >= old(self).min_file_size_for_top ==> {
                    &&& final(self).top_files.held() == topn_step(
                        old(self).top_files.capacity(),
                        old(self).top_files.held(),
                        (size, path@),
                        old(self).top_files.backslash_separates(),
                    )
                    &&& final(self).top_files.offered() == old(self).top_files.offered().push((size, path@))
                    &&& final(self).top_files.capacity() == old(self).top_files.capacity()
                    &&& final(self).top_files.backslash_separates() == old(self).top_files.backslash_separates()
                }
                &&& size < old(self).min_file_size_for_top ==> final(self).top_files == old(self).top_files
            },
            action != EntryAction::Counted ==> {
                &&& final(self).walk_of() == old(self).walk_of()
                &&& final(self).stats == old(self).stats
                &&& final(self).top_files == old(self).top_files
            },
            final(self).root_total == old(self).root_total,
            final(self).top_dirs == old(self).top_dirs,
            final(self).errors == old(self).errors,
            final(self).errors_met() == old(self).errors_met(),
            final(self).min_file_size_for_top == old(self).min_file_size_for_top,
    {
        match kind {
            EntryKind::Dir => {
                if ignore.is_ignored_path(rel, name) {
                    EntryAction::Skip
                } else {
                    EntryAction::Descend
                }
            },
            EntryKind::File => {
                if ignore.is_ignored_path(rel, name) {
                    return EntryAction::Skip;
                }
                self.stats.files_seen = self.stats.files_seen + 1;
                self.add_part(size);
                self.consider_file(path, size);
                EntryAction::Counted
            },
            _ => EntryAction::Skip,
        }
    }

    /// Adds `x` to the running total of the innermost open directory.
    fn add_part(&mut self, x: u64)
        requires
            old(self).wf(),
            old(self).open_sums@.len() > 0,
        ensures
            final(self).wf(),
            final(self).open_parts@ == add_to_last(old(self).open_parts@, x),
            final(self).open_sums@.len() == old(self).open_sums@.len(),
            final(self).root_total == old(self).root_total,
            final(self).stats == old(self).stats,
            final(self).top_files == old(self).top_files,
            final(self).top_dirs == old(self).top_dirs,
            final(self).errors == old(self).errors,
            final(self).errors_met() == old(self).errors_met(),
            final(self).min_file_size_for_top == old(self).min_file_size_for_top,
    {
        let last = self.open_sums.len() - 1;
        let ghost before = self.open_sums@;
        let ghost lp = self.open_parts@[last as int];
        let v = self.open_sums[last].saturating_add(x);
        self.open_sums.set(last, v);
        self.open_parts = Ghost(add_to_last(self.open_parts@, x));
        proof {
            lemma_capped_sum_push(lp, x);
        }
        assert forall|i: int| 0 <= i < self.open_sums@.len() implies #[trigger] self.open_sums@[i]
            == capped_sum(self.open_parts@[i]) by {
            if i != last {
                assert(self.open_sums@[i] == before[i]);
            }
        }
    }

    /// The walk leaves the innermost directory, at `path`: its total, the
    /// capped sum of its parts, is offered to the top directories and becomes
    /// a part of its parent's total, or, for the root, the scan's total.
    pub fn leave_dir(&mut self, path: String) -> (total: u64)
        requires
            old(self).wf(),
            old(self).open_sums@.len() > 0,
        ensures
            final(self).wf(),
            total == capped_sum(old(self).open_parts@.last()),
            final(self).open_sums@.len() == old(self).open_sums@.len() - 1,
            old(self).open_sums@.len() > 1 ==> {
                &&& final(self).open_parts@ == add_to_last(old(self).open_parts@.drop_last(), total)
                &&& final(self).root_total == old(self).root_total
            },
            old(self).open_sums@.len() == 1 ==> {
                &&& final(self).open_parts@ == Seq::<Seq<u64>>::empty()
                &&& final(self).root_total == total
            },
            final(self).top_dirs.held() == topn_step(
                old(self).top_dirs.capacity(),
                old(self).top_dirs.held(),
                (total, path@),
                old(self).top_dirs.backslash_separates(),
            ),
            final(self).top_dirs.offered() == old(self).top_dirs.offered().push((total, path@)),
            final(self).top_dirs.capacity() == old(self).top_dirs.capacity(),
            final(self).top_dirs.backslash_separates() == old(self).top_dirs.backslash_separates(),
            final(self).stats == old(self).stats,
            final(self).top_files == old(self).top_files,
            final(self).errors == old(self).errors,
            final(self).errors_met() == old(self).errors_met(),
            final(self).min_file_size_for_top == old(self).min_file_size_for_top,
    {
        let last = self.open_sums.len() - 1;
        let total = self.open_sums[last];
        assert(total == capped_sum(self.open_parts@[last as int]));
        let ghost before = self.open_sums@;
        self.open_sums.pop();
        let ghost rest = self.open_parts@.drop_last();
        self.open_parts = Ghost(rest);
        assert forall|i: int| 0 <= i < self.open_sums@.len() implies #[trigger] self.open_sums@[i]
            == capped_sum(self.open_parts@[i]) by {
            assert(self.open_sums@[i] == before[i]);
        }
        if self.open_sums.len() > 0 {
            self.add_part(total);
        } else {
            assert(self.open_parts@ =~= Seq::<Seq<u64>>::empty());
            self.root_total = total;
        }
        self.consider_dir(path, total);
        total
    }

    /// The scan of `root` is over, after `duration_ms` milliseconds: the
    /// result, with the root's total as the bytes counted and both top lists
    /// largest first.
    pub fn finish(self, root: String, duration_ms: u128) -> (r: ScanResult)
        requires
            self.wf(),
        ensures
            r.root@ == root@,
            r.stats == (ScanStats {
                bytes_total: self.root_total,
                duration_ms,
                errors_total: self.errors.total,
                ..self.stats
            }),
            r.errors == self.errors,
            in_report_order(sized_entries(r.top_files@), self.top_files.backslash_separates()),
            sized_entries(r.top_files@).to_multiset() == self.top_files.held().to_multiset(),
            in_report_order(sized_entries(r.top_dirs@), self.top_dirs.backslash_separates()),
            sized_entries(r.top_dirs@).to_multiset() == self.top_dirs.held().to_multiset(),
            r.top_files@.len() <= self.top_files.capacity(),
            r.top_dirs@.len() <= self.top_dirs.capacity(),
            forall|j: int| 0 <= j < r.top_files@.len() ==> (#[trigger] r.top_files@[j]).size >= self.min_file_size_for_top,
    {
        let ghost min = self.min_file_size_for_top;
        let ghost offered = self.top_files.offered();
        let mut stats = self.stats;
        stats.bytes_total = self.root_total;
        stats.duration_ms = duration_ms;
        stats.errors_total = self.errors.total;
        let top_files = self.top_files.into_sorted_desc();
        let top_dirs = self.top_dirs.into_sorted_desc();
        proof {
            assert forall|j: int| 0 <= j < top_files@.len() implies (#[trigger] top_files@[j]).size >= min by {
                assert(offered.contains(sized_entries(top_files@)[j]));
                let i = choose|i: int| 0 <= i < offered.len() && offered[i] == sized_entries(top_files@)[j];
                assert(offered[i].0 >= min);
            }
        }
        ScanResult { root, stats, top_files, top_dirs, errors: self.errors }
    }
}

} // verus!
