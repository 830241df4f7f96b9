use std::sync::Arc;
use vstd::prelude::*;

verus! {

/// Metrics kept for every cached file: its size, its access count and the priority derived
/// from both.
#[derive(Debug, PartialEq, Eq, Clone, Copy, Structural)]
pub struct FileStats {
    pub size: usize,
    pub access_count: usize,
    pub priority: usize,
}

/// A file held by the cache: its key, its shared bytes and its stats.
pub struct CachedFile {
    pub path: String,
    pub file: Arc<Vec<u8>>,
    pub stats: FileStats,
}

/// Relies on `Arc::clone`: the clone points to the same bytes.
#[verifier::external_body]
pub(crate) fn share(file: &Arc<Vec<u8>>) -> (r: Arc<Vec<u8>>)
    ensures
        r == *file,
{
    Arc::clone(file)
}

/// Sum of the sizes of the given files.
pub open spec fn total_size(files: Seq<CachedFile>) -> int
    decreases files.len(),
{
    if files.len() == 0 {
        0
    } else {
        total_size(files.drop_last()) + files.last().stats.size
    }
}

/// Sum of the priorities of the given files.
pub open spec fn total_priority(files: Seq<CachedFile>) -> int
    decreases files.len(),
{
    if files.len() == 0 {
        0
    } else {
        total_priority(files.drop_last()) + files.last().stats.priority
    }
}

pub open spec fn has_path(files: Seq<CachedFile>, k: Seq<char>) -> bool {
    exists|i: int| 0 <= i < files.len() && #[trigger] files[i].path@ == k
}

pub open spec fn paths_unique(files: Seq<CachedFile>) -> bool {
    forall|i: int, j: int|
        0 <= i < files.len() && 0 <= j < files.len() && i != j ==> #[trigger] files[i].path@
            != #[trigger] files[j].path@
}

pub open spec fn counted(counts: Seq<(String, usize)>, k: Seq<char>) -> bool {
    exists|i: int| 0 <= i < counts.len() && #[trigger] counts[i].0@ == k
}

/// The access count recorded for `k`: zero where none is recorded.
pub open spec fn count_in(counts: Seq<(String, usize)>, k: Seq<char>) -> nat {
    if counted(counts, k) {
        counts[choose|i: int| 0 <= i < counts.len() && #[trigger] counts[i].0@ == k].1 as nat
    } else {
        0
    }
}

pub open spec fn counts_unique(counts: Seq<(String, usize)>) -> bool {
    forall|i: int, j: int|
        0 <= i < counts.len() && 0 <= j < counts.len() && i != j ==> #[trigger] counts[i].0@
            != #[trigger] counts[j].0@
}

pub proof fn lemma_total_size_prefix(files: Seq<CachedFile>, i: int)
    requires
        0 <= i <= files.len(),
    ensures
        total_size(files.subrange(0, i)) <= total_size(files),
    decreases files.len(),
{
    if i == files.len() {
        assert(files.subrange(0, i) =~= files);
    } else {
        lemma_total_size_prefix(files.drop_last(), i);
        assert(files.drop_last().subrange(0, i) =~= files.subrange(0, i));
    }
}

pub proof fn lemma_total_size_nonneg(files: Seq<CachedFile>)
    ensures
        total_size(files) >= 0,
        total_priority(files) >= 0,
    decreases files.len(),
{
    if files.len() > 0 {
        lemma_total_size_nonneg(files.drop_last());
    }
}

pub proof fn lemma_total_size_update(files: Seq<CachedFile>, i: int, f: CachedFile)
    requires
        0 <= i < files.len(),
    ensures
        total_size(files.update(i, f)) == total_size(files) - files[i].stats.size + f.stats.size,
        total_priority(files.update(i, f)) == total_priority(files) - files[i].stats.priority
            + f.stats.priority,
    decreases files.len(),
{
    if i < files.len() - 1 {
        lemma_total_size_update(files.drop_last(), i, f);
        assert(files.update(i, f).drop_last() =~= files.drop_last().update(i, f));
    } else {
        assert(files.update(i, f).drop_last() =~= files.drop_last());
    }
}

pub proof fn lemma_total_size_remove(files: Seq<CachedFile>, i: int)
    requires
        0 <= i < files.len(),
    ensures
        total_size(files.remove(i)) == total_size(files) - files[i].stats.size,
        total_priority(files.remove(i)) == total_priority(files) - files[i].stats.priority,
    decreases files.len(),
{
    if i < files.len() - 1 {
        lemma_total_size_remove(files.drop_last(), i);
        assert(files.remove(i).drop_last() =~= files.drop_last().remove(i));
    } else {
        assert(files.remove(i) =~= files.drop_last());
    }
}

/// Sum of the sizes of the files among the first `n` that `taken` marks.
pub open spec fn taken_size(files: Seq<CachedFile>, taken: Seq<bool>, n: int) -> int
    decreases n,
{
    if n <= 0 {
        0
    } else {
        taken_size(files, taken, n - 1) + if taken[n - 1] {
            files[n - 1].stats.size as int
        } else {
            0
        }
    }
}

/// Sum of the priorities of the files among the first `n` that `taken` marks.
pub open spec fn taken_priority(files: Seq<CachedFile>, taken: Seq<bool>, n: int) -> int
    decreases n,
{
    if n <= 0 {
        0
    } else {
        taken_priority(files, taken, n - 1) + if taken[n - 1] {
            files[n - 1].stats.priority as int
        } else {
            0
        }
    }
}

/// How many of the first `n` marks are set.
pub open spec fn taken_count(taken: Seq<bool>, n: int) -> int
    decreases n,
{
    if n <= 0 {
        0
    } else {
        taken_count(taken, n - 1) + if taken[n - 1] {
            1int
        } else {
            0
        }
    }
}

/// Every marked file has a priority no higher than any unmarked one.
pub open spec fn lowest_first(files: Seq<CachedFile>, taken: Seq<bool>) -> bool {
    &&& taken.len() == files.len()
    &&& forall|i: int, j: int|
        0 <= i < files.len() && 0 <= j < files.len() && taken[i] && !taken[j]
            ==> #[trigger] files[i].stats.priority <= #[trigger] files[j].stats.priority
}

/// The greedy selection stands at `t` (lowest-first, `required` not yet reached, within
/// `new_priority`) and its next victim `b`, an unmarked file of lowest priority, would push the
/// aggregate priority over `new_priority`.
pub open spec fn outweighed_at(
    files: Seq<CachedFile>,
    t: Seq<bool>,
    b: int,
    required: int,
    new_priority: int,
) -> bool {
    &&& lowest_first(files, t)
    &&& 0 <= b < files.len()
    &&& !t[b]
    &&& forall|x: int| 0 <= x < files.len() && !t[x] ==> files[b].stats.priority <= #[trigger] files[x].stats.priority
    &&& taken_size(files, t, files.len() as int) < required
    &&& taken_priority(files, t, files.len() as int) <= new_priority
    &&& taken_priority(files, t, files.len() as int) + files[b].stats.priority > new_priority
}

/// `t` marks files lowest-first that free `required` bytes within `new_priority`, and no more
/// of them than needed: without the marked file of highest priority, `b`, too little is freed.
pub open spec fn enough_at(
    files: Seq<CachedFile>,
    t: Seq<bool>,
    required: int,
    new_priority: int,
) -> bool {
    &&& lowest_first(files, t)
    &&& taken_size(files, t, files.len() as int) >= required
    &&& taken_priority(files, t, files.len() as int) <= new_priority
    &&& (required <= 0 || exists|b: int|
        0 <= b < files.len() && #[trigger] t[b] && (forall|x: int|
            0 <= x < files.len() && t[x] ==> #[trigger] files[x].stats.priority
                <= files[b].stats.priority) && taken_size(files, t, files.len() as int)
            - files[b].stats.size < required)
}

pub proof fn lemma_take(files: Seq<CachedFile>, taken: Seq<bool>, b: int, n: int)
    requires
        taken.len() == files.len(),
        0 <= b < files.len(),
        !taken[b],
        0 <= n <= files.len(),
    ensures
        taken_size(files, taken.update(b, true), n) == taken_size(files, taken, n) + if b < n {
            files[b].stats.size as int
        } else {
            0
        },
        taken_priority(files, taken.update(b, true), n) == taken_priority(files, taken, n) + if b
            < n {
            files[b].stats.priority as int
        } else {
            0
        },
        taken_count(taken.update(b, true), n) == taken_count(taken, n) + if b < n {
            1int
        } else {
            0
        },
    decreases n,
{
    if n > 0 {
        lemma_take(files, taken, b, n - 1);
    }
}

pub proof fn lemma_taken_zero(files: Seq<CachedFile>, taken: Seq<bool>, n: int)
    requires
        0 <= n <= taken.len(),
        forall|i: int| 0 <= i < n ==> !#[trigger] taken[i],
    ensures
        taken_size(files, taken, n) == 0,
        taken_priority(files, taken, n) == 0,
        taken_count(taken, n) == 0,
    decreases n,
{
    if n > 0 {
        lemma_taken_zero(files, taken, n - 1);
    }
}

pub proof fn lemma_taken_priority_elem(files: Seq<CachedFile>, taken: Seq<bool>, i: int, n: int)
    requires
        0 <= i < n <= files.len(),
        taken.len() == files.len(),
        taken[i],
    ensures
        files[i].stats.priority <= taken_priority(files, taken, n),
    decreases n,
{
    lemma_taken_priority_nonneg(files, taken, n - 1);
    if i < n - 1 {
        lemma_taken_priority_elem(files, taken, i, n - 1);
    }
}

pub proof fn lemma_taken_priority_nonneg(files: Seq<CachedFile>, taken: Seq<bool>, n: int)
    requires
        n <= files.len(),
        taken.len() == files.len(),
    ensures
        taken_priority(files, taken, n) >= 0,
        taken_size(files, taken, n) >= 0,
    decreases n,
{
    if n > 0 {
        lemma_taken_priority_nonneg(files, taken, n - 1);
    }
}

pub proof fn lemma_taken_count_bound(taken: Seq<bool>, n: int)
    requires
        0 <= n <= taken.len(),
    ensures
        0 <= taken_count(taken, n) <= n,
        taken_count(taken, n) == n ==> forall|i: int| 0 <= i < n ==> #[trigger] taken[i],
    decreases n,
{
    if n > 0 {
        lemma_taken_count_bound(taken, n - 1);
    }
}

pub proof fn lemma_taken_size_bound(files: Seq<CachedFile>, taken: Seq<bool>, n: int)
    requires
        0 <= n <= files.len(),
        taken.len() == files.len(),
        forall|i: int| 0 <= i < n ==> #[trigger] taken[i],
    ensures
        taken_size(files, taken, n) == total_size(files.subrange(0, n)),
        taken_priority(files, taken, n) == total_priority(files.subrange(0, n)),
    decreases n,
{
    if n > 0 {
        lemma_taken_size_bound(files, taken, n - 1);
        assert(files.subrange(0, n).drop_last() =~= files.subrange(0, n - 1));
    }
}


} // verus!
