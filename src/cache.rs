use std::sync::Arc;
use vstd::prelude::*;

use crate::priority_function::{DefaultPriority, PriorityFunction};
use crate::store::{
    CachedFile,
    FileStats,
    count_in,
    counted,
    counts_unique,
    has_path,
    lemma_take,
    lemma_taken_count_bound,
    lemma_taken_priority_elem,
    lemma_taken_priority_nonneg,
    lemma_taken_size_bound,
    lemma_taken_zero,
    lemma_total_size_nonneg,
    lemma_total_size_prefix,
    lemma_total_size_remove,
    lemma_total_size_update,
    enough_at,
    lowest_first,
    outweighed_at,
    paths_unique,
    share,
    taken_count,
    taken_priority,
    taken_size,
    total_priority,
    total_size,
};

verus! {

/// Why a file was not admitted into the cache.
#[derive(Debug, PartialEq, Eq, Clone, Copy, Structural)]
pub enum CacheInvalidationError {
    NoMoreFilesToRemove,
    NewPriorityIsNotHighEnough,
    NewFileSmallerThanMin,
    NewFileLargerThanMax,
    NewFileLargerThanCache,
    InvalidMetadata,
    InvalidPath,
}

#[derive(Debug, PartialEq, Eq, Clone, Copy, Structural)]
pub struct AccessCountAndPriority {
    pub access_count: usize,
    pub priority_score: usize,
}

/// The cache holds a number of files whose bytes fit into its size limit. It stands in front of
/// a slower backing store: a caller asks it for a file, and serves the file from the backing
/// store when the cache does not hold it and declines to take it.
///
/// Each cached file has a priority, derived by the priority function from its access count and
/// its size. A new file that does not fit evicts the files of lowest priority, as long as their
/// aggregate priority does not exceed the new file's.
pub struct Cache<P: PriorityFunction> {
    size_limit: usize,
    min_file_size: usize,
    max_file_size: usize,
    priority_function: P,
    files: Vec<CachedFile>,
    access_counts: Vec<(String, usize)>,
}

impl<P: PriorityFunction> Cache<P> {
    pub closed spec fn limit(&self) -> nat {
        self.size_limit as nat
    }

    pub closed spec fn min_size(&self) -> nat {
        self.min_file_size as nat
    }

    pub closed spec fn max_size(&self) -> nat {
        self.max_file_size as nat
    }

    pub closed spec fn scoring(&self) -> P {
        self.priority_function
    }

    /// The cached files, in the order the store holds them.
    pub closed spec fn entries(&self) -> Seq<CachedFile> {
        self.files@
    }

    pub closed spec fn counts(&self) -> Seq<(String, usize)> {
        self.access_counts@
    }

    pub open spec fn used(&self) -> int {
        total_size(self.entries())
    }

    pub open spec fn contains(&self, k: Seq<char>) -> bool {
        has_path(self.entries(), k)
    }

    /// The lifetime access count of `k`.
    pub open spec fn count_of(&self, k: Seq<char>) -> nat {
        count_in(self.counts(), k)
    }

    pub open spec fn priority_of(&self, count: nat, size: nat) -> nat {
        self.scoring().spec_priority(count, size)
    }

    /// The stats of the `i`-th cached file agree with its bytes and its access count.
    pub open spec fn entry_ok(&self, i: int) -> bool {
        let f = self.entries()[i];
        &&& f.stats.size == f.file@.len()
        &&& f.stats.access_count == self.count_of(f.path@)
        &&& f.stats.priority == self.priority_of(
            f.stats.access_count as nat,
            f.stats.size as nat,
        )
    }

    pub open spec fn shape_ok(&self) -> bool {
        &&& paths_unique(self.entries())
        &&& counts_unique(self.counts())
        &&& self.used() <= self.limit()
    }

    /// The cache's invariant: unique keys, fresh stats, and the size limit respected.
    pub open spec fn wf(&self) -> bool {
        &&& self.shape_ok()
        &&& forall|i: int| 0 <= i < self.entries().len() ==> self.entry_ok(i)
    }

    /// The cache's invariant, but for the stats of the file under `k`.
    pub open spec fn wf_except(&self, k: Seq<char>) -> bool {
        &&& self.shape_ok()
        &&& forall|i: int|
            0 <= i < self.entries().len() && self.entries()[i].path@ != k ==> self.entry_ok(i)
    }

    /// Creates a cache with the given size limit, no bounds on file sizes, and the given
    /// priority function.
    pub fn with_priority_function(size_limit: usize, priority_function: P) -> (r: Self)
        ensures
            r.wf(),
            r.limit() == size_limit,
            r.min_size() == 0,
            r.max_size() == usize::MAX,
            r.scoring() == priority_function,
            r.entries().len() == 0,
            forall|k: Seq<char>| r.count_of(k) == 0,
    {
        let r = Cache {
            size_limit,
            min_file_size: 0,
            max_file_size: usize::MAX,
            priority_function,
            files: Vec::new(),
            access_counts: Vec::new(),
        };
        assert(r.used() == 0);
        r
    }

    /// Creates an empty cache with the given size limit, bounds on the sizes of the files it
    /// accepts, and priority function.
    pub fn with_config(
        size_limit: usize,
        min_file_size: usize,
        max_file_size: usize,
        priority_function: P,
    ) -> (r: Self)
        ensures
            r.wf(),
            r.limit() == size_limit,
            r.min_size() == min_file_size,
            r.max_size() == max_file_size,
            r.scoring() == priority_function,
            r.entries().len() == 0,
            forall|k: Seq<char>| r.count_of(k) == 0,
    {
        let r = Cache {
            size_limit,
            min_file_size,
            max_file_size,
            priority_function,
            files: Vec::new(),
            access_counts: Vec::new(),
        };
        assert(r.used() == 0);
        r
    }

    /// The number of bytes the cache may hold.
    pub fn size_limit(&self) -> (r: usize)
        ensures
            r == self.limit(),
    {
        self.size_limit
    }

    /// The stats of the cached file of `path`, if any.
    pub fn file_stats(&self, path: &String) -> (r: Option<FileStats>)
        ensures
            r is None <==> !self.contains(path@),
            r matches Some(st) ==> exists|i: int|
                0 <= i < self.entries().len() && self.entries()[i].path@ == path@
                    && self.entries()[i].stats == st,
    {
        match self.find_file(path) {
            Some(i) => Some(self.files[i].stats),
            None => None,
        }
    }

    fn find_file(&self, path: &String) -> (r: Option<usize>)
        ensures
            r matches Some(i) ==> i < self.entries().len() && self.entries()[i as int].path@
                == path@,
            r is None ==> !self.contains(path@),
    {
        let mut i: usize = 0;
        while i < self.files.len()
            invariant
                i <= self.files@.len(),
                forall|j: int| 0 <= j < i ==> self.files@[j].path@ != path@,
            decreases self.files@.len() - i,
        {
            if self.files[i].path == *path {
                return Some(i);
            }
            i = i + 1;
        }
        None
    }

    fn find_count(&self, path: &String) -> (r: Option<usize>)
        ensures
            r matches Some(i) ==> i < self.counts().len() && self.counts()[i as int].0@ == path@,
            r is None ==> !counted(self.counts(), path@),
    {
        let mut i: usize = 0;
        while i < self.access_counts.len()
            invariant
                i <= self.access_counts@.len(),
                forall|j: int| 0 <= j < i ==> self.access_counts@[j].0@ != path@,
            decreases self.access_counts@.len() - i,
        {
            if self.access_counts[i].0 == *path {
                return Some(i);
            }
            i = i + 1;
        }
        None
    }

    /// The lifetime access count of `path`.
    pub fn access_count(&self, path: &String) -> (r: usize)
        requires
            counts_unique(self.counts()),
        ensures
            r == self.count_of(path@),
    {
        match self.find_count(path) {
            Some(i) => {
                proof {
                    lemma_count_at(self.counts(), i as int);
                }
                self.access_counts[i].1
            },
            None => 0,
        }
    }

    /// Gets the sum of the sizes of the files that are stored in the cache.
    pub fn used_bytes(&self) -> (r: usize)
        requires
            self.wf(),
        ensures
            r == self.used(),
    {
        let mut sum: usize = 0;
        let mut i: usize = 0;
        while i < self.files.len()
            invariant
                self.wf(),
                i <= self.files@.len(),
                sum == total_size(self.files@.subrange(0, i as int)),
            decreases self.files@.len() - i,
        {
            proof {
                assert(self.files@.subrange(0, i + 1).drop_last() =~= self.files@.subrange(0, i as int));
                lemma_total_size_prefix(self.files@, i + 1);
            }
            sum = sum + self.files[i].stats.size;
            i = i + 1;
        }
        assert(self.files@.subrange(0, i as int) =~= self.files@);
        sum
    }


    /// Size limit, file size bounds and priority function agree.
    pub open spec fn same_config(&self, other: &Self) -> bool {
        &&& self.limit() == other.limit()
        &&& self.min_size() == other.min_size()
        &&& self.max_size() == other.max_size()
        &&& self.scoring() == other.scoring()
    }

    /// Every access count but the one of `k` agrees.
    pub open spec fn same_counts_except(&self, other: &Self, k: Seq<char>) -> bool {
        forall|j: Seq<char>| j != k ==> #[trigger] self.count_of(j) == other.count_of(j)
    }

    /// The same files with the same bytes, in the same order; stats may differ.
    pub open spec fn same_files(&self, other: &Self) -> bool {
        &&& self.entries().len() == other.entries().len()
        &&& forall|j: int|
            0 <= j < self.entries().len() ==> (#[trigger] self.entries()[j]).path
                == other.entries()[j].path && self.entries()[j].file == other.entries()[j].file
    }

    /// Adds one to the lifetime access count of `path` (saturating), which leaves the stats of
    /// its cached file, if any, to be recomputed.
    fn increment_access_count(&mut self, path: &String)
        requires
            old(self).wf(),
        ensures
            final(self).wf_except(path@),
            final(self).same_config(old(self)),
            final(self).entries() == old(self).entries(),
            final(self).count_of(path@) == if old(self).count_of(path@) < usize::MAX {
                old(self).count_of(path@) + 1
            } else {
                old(self).count_of(path@)
            },
            final(self).same_counts_except(old(self), path@),
    {
        let ghost before = self.access_counts@;
        match self.find_count(path) {
            Some(i) => {
                proof {
                    lemma_count_at(before, i as int);
                }
                let c: usize = self.access_counts[i].1;
                let next: usize = c.saturating_add(1);
                self.access_counts.set(i, (path.clone(), next));
                proof {
                    let after = self.access_counts@;
                    assert forall|a: int, b: int|
                        0 <= a < after.len() && 0 <= b < after.len() && a != b implies
                            #[trigger] after[a].0@ != #[trigger] after[b].0@ by {
                        assert(after[a].0@ == before[a].0@);
                        assert(after[b].0@ == before[b].0@);
                    }
                    lemma_count_at(after, i as int);
                    assert forall|j: Seq<char>| j != path@ implies #[trigger] count_in(after, j)
                        == count_in(before, j) by {
                        if counted(after, j) {
                            let w = choose|w: int| 0 <= w < after.len() && #[trigger] after[w].0@ == j;
                            lemma_count_at(after, w);
                            lemma_count_at(before, w);
                        } else {
                            assert forall|w: int| 0 <= w < before.len() implies #[trigger] before[w].0@ != j by {
                                assert(after[w].0@ == before[w].0@);
                            }
                        }
                    }
                }
            },
            None => {
                self.access_counts.push((path.clone(), 1));
                proof {
                    let after = self.access_counts@;
                    assert forall|a: int, b: int|
                        0 <= a < after.len() && 0 <= b < after.len() && a != b implies
                            #[trigger] after[a].0@ != #[trigger] after[b].0@ by {
                        if a < before.len() && b < before.len() {
                            assert(after[a] == before[a]);
                            assert(after[b] == before[b]);
                        } else if a < before.len() {
                            assert(after[a] == before[a]);
                        } else {
                            assert(after[b] == before[b]);
                        }
                    }
                    lemma_count_at(after, before.len() as int);
                    assert forall|j: Seq<char>| j != path@ implies #[trigger] count_in(after, j)
                        == count_in(before, j) by {
                        if counted(after, j) {
                            let w = choose|w: int| 0 <= w < after.len() && #[trigger] after[w].0@ == j;
                            assert(after[w] == before[w]);
                            lemma_count_at(after, w);
                            lemma_count_at(before, w);
                        } else {
                            assert forall|w: int| 0 <= w < before.len() implies #[trigger] before[w].0@ != j by {
                                assert(after[w] == before[w]);
                            }
                        }
                    }
                }
            },
        }
        proof {
            assert forall|i: int|
                0 <= i < self.entries().len() && self.entries()[i].path@ != path@ implies self.entry_ok(i) by {
                assert(old(self).entry_ok(i));
            }
        }
    }

    /// Recomputes the stats of the `i`-th cached file from its size and its access count.
    fn update_stats(&mut self, i: usize)
        requires
            i < old(self).entries().len(),
            old(self).wf_except(old(self).entries()[i as int].path@),
            old(self).entries()[i as int].stats.size == old(self).entries()[i as int].file@.len(),
        ensures
            final(self).wf(),
            final(self).same_config(old(self)),
            final(self).same_files(old(self)),
            final(self).counts() == old(self).counts(),
            final(self).used() == old(self).used(),
    {
        let size: usize = self.files[i].stats.size;
        let count: usize = self.access_count(&self.files[i].path);
        let priority: usize = self.priority_function.priority(count, size);
        let f = CachedFile {
            path: self.files[i].path.clone(),
            file: share(&self.files[i].file),
            stats: FileStats { size, access_count: count, priority },
        };
        proof {
            lemma_total_size_update(self.files@, i as int, f);
        }
        self.files.set(i, f);
        proof {
            assert forall|a: int, b: int|
                0 <= a < self.files@.len() && 0 <= b < self.files@.len() && a != b implies
                    #[trigger] self.files@[a].path@ != #[trigger] self.files@[b].path@ by {
                assert(self.files@[a].path == old(self).files@[a].path);
                assert(self.files@[b].path == old(self).files@[b].path);
            }
            assert forall|j: int| 0 <= j < self.entries().len() implies self.entry_ok(j) by {
                if j != i {
                    assert(self.files@[j] == old(self).files@[j]);
                    assert(old(self).files@[j].path@ != old(self).files@[i as int].path@);
                    assert(old(self).entry_ok(j));
                }
            }
        }
    }

    /// Returns the cached bytes of `path`, if the cache holds them, counting the access and
    /// recomputing the file's stats. Never reads the backing store. Where the cache does not hold
    /// `path`, nothing changes.
    pub fn get(&mut self, path: &String) -> (r: Option<Arc<Vec<u8>>>)
        requires
            old(self).wf(),
        ensures
            final(self).wf(),
            final(self).same_config(old(self)),
            !old(self).contains(path@) ==> r is None && *final(self) == *old(self),
            old(self).contains(path@) ==> {
                &&& final(self).same_files(old(self))
                &&& final(self).used() == old(self).used()
                &&& final(self).same_counts_except(old(self), path@)
                &&& final(self).count_of(path@) == if old(self).count_of(path@) < usize::MAX {
                    old(self).count_of(path@) + 1
                } else {
                    old(self).count_of(path@)
                }
                &&& exists|i: int|
                    0 <= i < old(self).entries().len() && old(self).entries()[i].path@ == path@
                        && r == Some(old(self).entries()[i].file)
            },
    {
        match self.get_from_cache(path) {
            Some(i) => {
                let file = share(&self.files[i].file);
                self.increment_access_count(path);
                proof {
                    assert(self.entries()[i as int] == old(self).entries()[i as int]);
                    assert(old(self).entry_ok(i as int));
                }
                let ghost mid = *self;
                self.update_stats(i);
                proof {
                    assert(self.same_files(old(self))) by {
                        assert forall|j: int| 0 <= j < self.entries().len() implies
                            (#[trigger] self.entries()[j]).path == old(self).entries()[j].path
                            && self.entries()[j].file == old(self).entries()[j].file by {
                            assert(mid.entries()[j] == old(self).entries()[j]);
                            assert(self.entries()[j].path == mid.entries()[j].path);
                        }
                    }
                    assert(self.same_counts_except(old(self), path@)) by {
                        assert forall|j: Seq<char>| j != path@ implies #[trigger] self.count_of(j)
                            == old(self).count_of(j) by {
                            assert(mid.count_of(j) == old(self).count_of(j));
                        }
                    }
                    assert(old(self).entries()[i as int].path@ == path@);
                }
                Some(file)
            },
            None => None,
        }
    }

    /// The position of the cached file of `path`, if any.
    fn get_from_cache(&self, path: &String) -> (r: Option<usize>)
        ensures
            r matches Some(i) ==> i < self.entries().len() && self.entries()[i as int].path@
                == path@,
            r is None ==> !self.contains(path@),
    {
        self.find_file(path)
    }

    /// Removes the file from the cache and resets its access count to zero.
    pub fn remove(&mut self, path: &String)
        requires
            old(self).wf(),
        ensures
            final(self).wf(),
            final(self).same_config(old(self)),
            !final(self).contains(path@),
            final(self).count_of(path@) == 0,
            final(self).same_counts_except(old(self), path@),
            !old(self).contains(path@) ==> final(self).entries() == old(self).entries(),
            old(self).contains(path@) ==> exists|i: int|
                0 <= i < old(self).entries().len() && old(self).entries()[i].path@ == path@
                    && final(self).entries() == old(self).entries().remove(i),
    {
        if let Some(i) = self.find_file(path) {
            proof {
                lemma_total_size_remove(self.files@, i as int);
            }
            let _ = self.files.remove(i);
            proof {
                let o = old(self).files@;
                assert(self.files@ == o.remove(i as int));
                assert forall|a: int, b: int|
                    0 <= a < self.files@.len() && 0 <= b < self.files@.len() && a != b implies
                        #[trigger] self.files@[a].path@ != #[trigger] self.files@[b].path@ by {
                    let oa = if a < i { a } else { a + 1 };
                    let ob = if b < i { b } else { b + 1 };
                    assert(self.files@[a] == o[oa]);
                    assert(self.files@[b] == o[ob]);
                }
                assert forall|j: int| 0 <= j < self.files@.len() implies self.files@[j].path@ != path@ by {
                    let oj = if j < i { j } else { j + 1 };
                    assert(self.files@[j] == o[oj]);
                }
            }
        }
        let ghost mid = *self;
        let ghost before = self.access_counts@;
        if let Some(c) = self.find_count(path) {
            self.access_counts.set(c, (path.clone(), 0));
            proof {
                let after = self.access_counts@;
                assert forall|a: int, b: int|
                    0 <= a < after.len() && 0 <= b < after.len() && a != b implies
                        #[trigger] after[a].0@ != #[trigger] after[b].0@ by {
                    assert(after[a].0@ == before[a].0@);
                    assert(after[b].0@ == before[b].0@);
                }
                lemma_count_at(after, c as int);
                assert forall|j: Seq<char>| j != path@ implies #[trigger] count_in(after, j)
                    == count_in(before, j) by {
                    if counted(after, j) {
                        let w = choose|w: int| 0 <= w < after.len() && #[trigger] after[w].0@ == j;
                        lemma_count_at(after, w);
                        lemma_count_at(before, w);
                    } else {
                        assert forall|w: int| 0 <= w < before.len() implies #[trigger] before[w].0@ != j by {
                            assert(after[w].0@ == before[w].0@);
                        }
                    }
                }
            }
        }
        proof {
            assert forall|i: int| 0 <= i < self.entries().len() implies self.entry_ok(i) by {
                assert(mid.entry_ok(i)) by {
                    if old(self).contains(path@) {
                        let k = choose|k: int| 0 <= k < old(self).entries().len() && #[trigger] old(self).entries()[k].path@ == path@;
                        assert(old(self).entry_ok(if i < k { i } else { i + 1 }));
                    } else {
                        assert(old(self).entry_ok(i));
                    }
                }
                assert(self.entries()[i].path@ != path@);
            }
        }
    }


    /// Marks the files to evict so that `required_space` bytes are freed: repeatedly the
    /// unmarked file of lowest priority (of equal ones, the last in the store), until enough
    /// space is marked. Fails with `NewPriorityIsNotHighEnough` as soon as the marked files
    /// together outweigh `new_priority`, and with `NoMoreFilesToRemove` where even all files
    /// together are too small. Changes nothing.
    fn select_victims(&self, required_space: usize, new_priority: usize) -> (r: Result<
        Vec<bool>,
        CacheInvalidationError,
    >)
        requires
            self.wf(),
        ensures
            r matches Ok(t) ==> enough_at(
                self.entries(),
                t@,
                required_space as int,
                new_priority as int,
            ),
            r matches Err(e) ==> e == CacheInvalidationError::NoMoreFilesToRemove
                || e == CacheInvalidationError::NewPriorityIsNotHighEnough,
            r == Err::<Vec<bool>, _>(CacheInvalidationError::NoMoreFilesToRemove) ==> self.used()
                < required_space && total_priority(self.entries()) <= new_priority,
            r == Err::<Vec<bool>, _>(CacheInvalidationError::NewPriorityIsNotHighEnough) ==> exists|
                t: Seq<bool>,
                b: int,
            | outweighed_at(self.entries(), t, b, required_space as int, new_priority as int),
    {
        let n: usize = self.files.len();
        let mut taken: Vec<bool> = Vec::new();
        let mut k: usize = 0;
        while k < n
            invariant
                k <= n == self.files@.len(),
                taken@.len() == k,
                forall|i: int| 0 <= i < k ==> !taken@[i],
            decreases n - k,
        {
            taken.push(false);
            k = k + 1;
        }
        proof {
            lemma_taken_zero(self.files@, taken@, n as int);
        }
        let mut freed: usize = 0;
        let mut weight: usize = 0;
        let ghost mut last: int = -1;
        while freed < required_space
            invariant
                self.wf(),
                n == self.files@.len(),
                taken@.len() == n,
                lowest_first(self.files@, taken@),
                freed as int == if taken_size(self.files@, taken@, n as int) > usize::MAX {
                    usize::MAX as int
                } else {
                    taken_size(self.files@, taken@, n as int)
                },
                weight == taken_priority(self.files@, taken@, n as int),
                weight <= new_priority,
                last == -1 ==> taken_size(self.files@, taken@, n as int) == 0,
                last != -1 ==> 0 <= last < n && taken@[last] && (forall|x: int|
                    0 <= x < n && taken@[x] ==> #[trigger] self.files@[x].stats.priority
                        <= self.files@[last].stats.priority) && taken_size(self.files@, taken@, n as int)
                    - self.files@[last].stats.size < required_space,
            decreases n - taken_count(taken@, n as int),
        {
            let mut best: Option<usize> = None;
            let mut j: usize = 0;
            while j < n
                invariant
                    n == self.files@.len(),
                    taken@.len() == n,
                    j <= n,
                    best matches Some(b) ==> b < j && !taken@[b as int] && forall|x: int|
                        0 <= x < j && !taken@[x] ==> self.files@[b as int].stats.priority
                            <= #[trigger] self.files@[x].stats.priority,
                    best is None ==> forall|x: int| 0 <= x < j ==> #[trigger] taken@[x],
                decreases n - j,
            {
                if !taken[j] {
                    match best {
                        Some(b) => {
                            if self.files[j].stats.priority <= self.files[b].stats.priority {
                                best = Some(j);
                            }
                        },
                        None => {
                            best = Some(j);
                        },
                    }
                }
                j = j + 1;
            }
            match best {
                None => {
                    proof {
                        lemma_taken_size_bound(self.files@, taken@, n as int);
                        assert(self.files@.subrange(0, n as int) =~= self.files@);
                    }
                    return Err(CacheInvalidationError::NoMoreFilesToRemove);
                },
                Some(b) => {
                    let ghost before = taken@;
                    proof {
                        lemma_take(self.files@, before, b as int, n as int);
                        lemma_taken_count_bound(before, n as int);
                        lemma_taken_count_bound(before.update(b as int, true), n as int);
                    }
                    taken.set(b, true);
                    let p: usize = self.files[b].stats.priority;
                    proof {
                        assert(taken@ == before.update(b as int, true));
                        assert forall|i: int, x: int|
                            0 <= i < n && 0 <= x < n && taken@[i] && !taken@[x] implies
                                #[trigger] self.files@[i].stats.priority
                                <= #[trigger] self.files@[x].stats.priority by {
                            if i != b {
                                assert(before[i] && !before[x]);
                            }
                        }
                    }
                    if p > new_priority - weight {
                        proof {
                            assert(outweighed_at(self.entries(), before, b as int, required_space as int, new_priority as int));
                        }
                        return Err(CacheInvalidationError::NewPriorityIsNotHighEnough);
                    }
                    weight = weight + p;
                    freed = freed.saturating_add(self.files[b].stats.size);
                    proof {
                        assert forall|x: int| 0 <= x < n && taken@[x] implies
                            #[trigger] self.files@[x].stats.priority <= self.files@[b as int].stats.priority by {
                            if x != b {
                                assert(before[x] && !before[b as int]);
                            }
                        }
                        last = b as int;
                    }
                },
            }
        }
        Ok(taken)
    }

    /// Removes the marked files from the store and hands them back, in store order.
    #[verifier::rlimit(60)]
    fn evict(&mut self, taken: &Vec<bool>) -> (victims: Vec<CachedFile>)
        requires
            old(self).wf(),
            taken@.len() == old(self).entries().len(),
        ensures
            final(self).wf(),
            final(self).same_config(old(self)),
            final(self).counts() == old(self).counts(),
            total_size(victims@) == taken_size(old(self).entries(), taken@, taken@.len() as int),
            total_priority(victims@) == taken_priority(
                old(self).entries(),
                taken@,
                taken@.len() as int,
            ),
            final(self).used() == old(self).used() - total_size(victims@),
            forall|a: int| 0 <= a < victims@.len() ==> exists|i: int|
                0 <= i < taken@.len() && taken@[i] && #[trigger] victims@[a]
                    == old(self).entries()[i],
            forall|a: int| 0 <= a < final(self).entries().len() ==> exists|i: int|
                0 <= i < taken@.len() && !taken@[i] && #[trigger] final(self).entries()[a]
                    == old(self).entries()[i],
            forall|i: int| 0 <= i < taken@.len() && !taken@[i] ==> #[trigger] final(self).contains(
                old(self).entries()[i].path@),
            forall|i: int| 0 <= i < taken@.len() && taken@[i] ==> !#[trigger] final(self).contains(
                old(self).entries()[i].path@),
    {
        let n: usize = self.files.len();
        let ghost files = self.files@;
        let mut kept: Vec<CachedFile> = Vec::new();
        let mut victims: Vec<CachedFile> = Vec::new();
        let ghost mut kept_at: Seq<int> = Seq::empty();
        let mut i: usize = 0;
        while i < n
            invariant
                self.files@ == files,
                *self == *old(self),
                n == files.len() == taken@.len(),
                i <= n,
                kept_at.len() == kept@.len(),
                forall|a: int| 0 <= a < kept@.len() ==> 0 <= #[trigger] kept_at[a] < i && !taken@[kept_at[a]]
                    && kept@[a] == files[kept_at[a]],
                forall|a: int, b: int| 0 <= a < b < kept@.len() ==> kept_at[a] < kept_at[b],
                forall|x: int| 0 <= x < i && !taken@[x] ==> exists|a: int| 0 <= a < kept@.len() && kept_at[a] == x,
                forall|a: int| 0 <= a < victims@.len() ==> exists|x: int|
                    0 <= x < i && taken@[x] && #[trigger] victims@[a] == files[x],
                total_size(kept@) + total_size(victims@) == total_size(files.subrange(0, i as int)),
                total_size(victims@) == taken_size(files, taken@, i as int),
                total_priority(victims@) == taken_priority(files, taken@, i as int),
            decreases n - i,
        {
            let f = CachedFile {
                path: self.files[i].path.clone(),
                file: share(&self.files[i].file),
                stats: self.files[i].stats,
            };
            let ghost prev_at = kept_at;
            let ghost prev_len = kept@.len();
            proof {
                assert(files.subrange(0, i + 1).drop_last() =~= files.subrange(0, i as int));
            }
            if taken[i] {
                proof {
                    assert(victims@.push(f).drop_last() =~= victims@);
                }
                victims.push(f);
            } else {
                proof {
                    assert(kept@.push(f).drop_last() =~= kept@);
                    kept_at = kept_at.push(i as int);
                }
                kept.push(f);
            }
            proof {
                assert forall|x: int| 0 <= x < i + 1 && !taken@[x] implies exists|a: int| 0 <= a < kept@.len() && kept_at[a] == x by {
                    if x == i {
                        assert(kept_at[kept@.len() - 1] == x);
                    } else {
                        let a = choose|a: int| 0 <= a < prev_len && prev_at[a] == x;
                        assert(kept_at[a] == prev_at[a]);
                    }
                }
            }
            i = i + 1;
        }
        proof {
            assert(files.subrange(0, n as int) =~= files);
            let o = *old(self);
            assert forall|a: int, b: int|
                0 <= a < kept@.len() && 0 <= b < kept@.len() && a != b implies
                    #[trigger] kept@[a].path@ != #[trigger] kept@[b].path@ by {
                if a < b {
                    assert(kept_at[a] < kept_at[b]);
                } else {
                    assert(kept_at[b] < kept_at[a]);
                }
            }
            assert forall|x: int| 0 <= x < n && taken@[x] implies !has_path(kept@, #[trigger] files[x].path@) by {
                if has_path(kept@, files[x].path@) {
                    let a = choose|a: int| 0 <= a < kept@.len() && #[trigger] kept@[a].path@ == files[x].path@;
                    assert(kept_at[a] != x);
                }
            }
            assert forall|x: int| 0 <= x < n && !taken@[x] implies has_path(kept@, #[trigger] files[x].path@) by {
                let a = choose|a: int| 0 <= a < kept@.len() && kept_at[a] == x;
                assert(kept@[a].path@ == files[x].path@);
            }
        }
        proof {
            lemma_total_size_nonneg(victims@);
        }
        self.files = kept;
        proof {
            assert forall|a: int| 0 <= a < self.entries().len() implies self.entry_ok(a) by {
                assert(old(self).entry_ok(kept_at[a]));
            }
            assert forall|a: int| 0 <= a < self.entries().len() implies exists|x: int|
                0 <= x < taken@.len() && !taken@[x] && #[trigger] self.entries()[a]
                    == old(self).entries()[x] by {
                assert(self.entries()[a] == files[kept_at[a]]);
            }
        }
        victims
    }


    /// What the admission rules decide for a file of `size` bytes and the given priority,
    /// `None` meaning that it is admitted.
    pub open spec fn admission_outcome(
        &self,
        size: nat,
        priority: nat,
        outcome: Option<CacheInvalidationError>,
    ) -> bool {
        if size > self.max_size() {
            outcome == Some(CacheInvalidationError::NewFileLargerThanMax)
        } else if size < self.min_size() {
            outcome == Some(CacheInvalidationError::NewFileSmallerThanMin)
        } else if self.used() + size < self.limit() {
            outcome is None
        } else {
            let required = self.used() + size - self.limit();
            match outcome {
                None => exists|t: Seq<bool>| enough_at(self.entries(), t, required, priority as int),
                Some(CacheInvalidationError::NoMoreFilesToRemove) => self.used() < required
                    && total_priority(self.entries()) <= priority,
                Some(CacheInvalidationError::NewPriorityIsNotHighEnough) => exists|
                    t: Seq<bool>,
                    b: int,
                | outweighed_at(self.entries(), t, b, required, priority as int),
                _ => false,
            }
        }
    }

    /// Removes the files of lowest priority until `required_space` bytes are freed, and hands
    /// them back. Removes nothing where that is not possible, or where the removed files would
    /// together outweigh `new_priority`. Access counts are left as they are.
    pub fn make_room_for_new_file(&mut self, required_space: usize, new_priority: usize) -> (r:
        Result<Vec<CachedFile>, CacheInvalidationError>)
        requires
            old(self).wf(),
        ensures
            final(self).wf(),
            final(self).same_config(old(self)),
            final(self).counts() == old(self).counts(),
            r is Err ==> *final(self) == *old(self),
            r matches Err(e) ==> e == CacheInvalidationError::NoMoreFilesToRemove
                || e == CacheInvalidationError::NewPriorityIsNotHighEnough,
            r == Err::<Vec<CachedFile>, _>(CacheInvalidationError::NoMoreFilesToRemove)
                ==> old(self).used() < required_space && total_priority(old(self).entries())
                <= new_priority,
            r == Err::<Vec<CachedFile>, _>(CacheInvalidationError::NewPriorityIsNotHighEnough)
                ==> exists|t: Seq<bool>, b: int|
                outweighed_at(old(self).entries(), t, b, required_space as int, new_priority as int),
            r is Ok ==> exists|t: Seq<bool>|
                enough_at(old(self).entries(), t, required_space as int, new_priority as int),
            r matches Ok(v) ==> {
                &&& total_size(v@) >= required_space
                &&& total_priority(v@) <= new_priority
                &&& final(self).used() == old(self).used() - total_size(v@)
                &&& forall|a: int| 0 <= a < v@.len() ==> exists|i: int|
                    0 <= i < old(self).entries().len() && #[trigger] v@[a] == old(self).entries()[i]
                &&& forall|a: int| 0 <= a < v@.len() ==> !#[trigger] final(self).contains(v@[a].path@)
                &&& forall|b: int| 0 <= b < final(self).entries().len() ==> exists|i: int|
                    0 <= i < old(self).entries().len() && #[trigger] final(self).entries()[b]
                        == old(self).entries()[i]
                &&& forall|a: int, b: int|
                    0 <= a < v@.len() && 0 <= b < final(self).entries().len()
                        ==> #[trigger] v@[a].stats.priority
                        <= #[trigger] final(self).entries()[b].stats.priority
                &&& forall|i: int|
                    0 <= i < old(self).entries().len() && !final(self).contains(
                        #[trigger] old(self).entries()[i].path@,
                    ) ==> old(self).entries()[i].stats.priority <= new_priority
                &&& forall|i: int, b: int|
                    0 <= i < old(self).entries().len() && 0 <= b < final(self).entries().len()
                        && !final(self).contains(#[trigger] old(self).entries()[i].path@)
                        ==> old(self).entries()[i].stats.priority
                        <= #[trigger] final(self).entries()[b].stats.priority
            },
    {
        match self.select_victims(required_space, new_priority) {
            Err(e) => Err(e),
            Ok(taken) => {
                let ghost o = self.files@;
                let victims = self.evict(&taken);
                proof {
                    assert(enough_at(o, taken@, required_space as int, new_priority as int));
                    assert forall|a: int, b: int|
                        0 <= a < victims@.len() && 0 <= b < self.entries().len() implies
                            #[trigger] victims@[a].stats.priority
                            <= #[trigger] self.entries()[b].stats.priority by {
                        let i = choose|i: int| 0 <= i < taken@.len() && taken@[i] && #[trigger] victims@[a] == o[i];
                        let x = choose|x: int| 0 <= x < taken@.len() && !taken@[x] && #[trigger] self.entries()[b] == o[x];
                        assert(o[i].stats.priority <= o[x].stats.priority);
                    }
                    assert forall|i: int|
                        0 <= i < o.len() && !self.contains(#[trigger] o[i].path@) implies
                            o[i].stats.priority <= new_priority by {
                        if !taken@[i] {
                            assert(self.contains(o[i].path@));
                        }
                        lemma_taken_priority_elem(o, taken@, i, o.len() as int);
                    }
                    assert forall|i: int, b: int|
                        0 <= i < o.len() && 0 <= b < self.entries().len() && !self.contains(
                            #[trigger] o[i].path@) implies o[i].stats.priority
                            <= #[trigger] self.entries()[b].stats.priority by {
                        if !taken@[i] {
                            assert(self.contains(o[i].path@));
                        }
                        let x = choose|x: int| 0 <= x < taken@.len() && !taken@[x] && #[trigger] self.entries()[b] == o[x];
                        assert(o[i].stats.priority <= o[x].stats.priority);
                    }
                    assert forall|a: int| 0 <= a < victims@.len() implies !#[trigger] self.contains(victims@[a].path@) by {
                        let i = choose|i: int| 0 <= i < taken@.len() && taken@[i] && #[trigger] victims@[a] == o[i];
                        assert(!self.contains(o[i].path@));
                    }
                }
                Ok(victims)
            },
        }
    }

    fn check_size_bounds(&self, size: usize) -> (r: Result<(), CacheInvalidationError>)
        ensures
            r == Err::<(), _>(CacheInvalidationError::NewFileLargerThanMax) <==> size
                > self.max_size(),
            r == Err::<(), _>(CacheInvalidationError::NewFileSmallerThanMin) <==> size
                <= self.max_size() && size < self.min_size(),
            r is Ok <==> self.min_size() <= size <= self.max_size(),
    {
        if size > self.max_file_size {
            Err(CacheInvalidationError::NewFileLargerThanMax)
        } else if size < self.min_file_size {
            Err(CacheInvalidationError::NewFileSmallerThanMin)
        } else {
            Ok(())
        }
    }

    /// Decides whether a file of `size` bytes (as the backing store's metadata gives it),
    /// requested under `path` and not cached, is to be read into the cache (`Ok`) or served
    /// straight from the backing store (`Err`, with the reason). Counts the access; the store
    /// itself is left as it is.
    pub fn try_insert(&mut self, path: &String, size: usize) -> (r: Result<(), CacheInvalidationError>)
        requires
            old(self).wf(),
            !old(self).contains(path@),
        ensures
            final(self).wf(),
            final(self).same_config(old(self)),
            final(self).entries() == old(self).entries(),
            final(self).count_of(path@) == if old(self).count_of(path@) < usize::MAX {
                old(self).count_of(path@) + 1
            } else {
                old(self).count_of(path@)
            },
            final(self).same_counts_except(old(self), path@),
            final(self).admission_outcome(
                size as nat,
                final(self).priority_of(final(self).count_of(path@), size as nat),
                match r {
                    Ok(_) => None,
                    Err(e) => Some(e),
                },
            ),
    {
        self.increment_access_count(path);
        proof {
            assert forall|i: int| 0 <= i < self.entries().len() implies self.entry_ok(i) by {
                assert(self.entries()[i].path@ != path@);
            }
        }
        self.check_size_bounds(size)?;
        let used: usize = self.used_bytes();
        if used < self.size_limit && size < self.size_limit - used {
            return Ok(());
        }
        let count: usize = self.access_count(path);
        let priority: usize = self.priority_function.priority(count, size);
        let required: usize = size - (self.size_limit - used);
        match self.select_victims(required, priority) {
            Ok(t) => {
                proof {
                    assert(enough_at(
                        self.entries(),
                        t@,
                        self.used() + size - self.limit(),
                        priority as int,
                    ));
                }
                Ok(())
            },
            Err(e) => {
                proof {
                    if e == CacheInvalidationError::NewPriorityIsNotHighEnough {
                        let (t, b) = choose|t: Seq<bool>, b: int|
                            outweighed_at(self.entries(), t, b, required as int, priority as int);
                        assert(outweighed_at(
                            self.entries(),
                            t,
                            b,
                            self.used() + size - self.limit(),
                            priority as int,
                        ));
                    }
                }
                Err(e)
            },
        }
    }

    /// Frees room for a file of `size` bytes and the given priority that is not cached, by
    /// evicting where it does not fit directly.
    fn make_space(&mut self, size: usize, priority: usize) -> (r: Result<(), CacheInvalidationError>)
        requires
            old(self).wf(),
            old(self).min_size() <= size <= old(self).max_size(),
        ensures
            final(self).wf(),
            final(self).same_config(old(self)),
            final(self).counts() == old(self).counts(),
            old(self).admission_outcome(
                size as nat,
                priority as nat,
                match r {
                    Ok(_) => None,
                    Err(e) => Some(e),
                },
            ),
            r is Err ==> *final(self) == *old(self),
            r is Ok ==> {
                &&& final(self).used() + size <= final(self).limit()
                &&& forall|b: int| 0 <= b < final(self).entries().len() ==> exists|i: int|
                    0 <= i < old(self).entries().len() && #[trigger] final(self).entries()[b]
                        == old(self).entries()[i]
                &&& forall|i: int, b: int|
                    0 <= i < old(self).entries().len() && 0 <= b < final(self).entries().len()
                        && !final(self).contains(#[trigger] old(self).entries()[i].path@)
                        ==> old(self).entries()[i].stats.priority
                        <= #[trigger] final(self).entries()[b].stats.priority
                &&& forall|i: int|
                    0 <= i < old(self).entries().len() && !final(self).contains(
                        #[trigger] old(self).entries()[i].path@,
                    ) ==> old(self).entries()[i].stats.priority <= priority
            },
    {
        let used: usize = self.used_bytes();
        if used < self.size_limit && size < self.size_limit - used {
            proof {
                assert forall|b: int| 0 <= b < self.entries().len() implies exists|i: int|
                    0 <= i < old(self).entries().len() && #[trigger] self.entries()[b]
                        == old(self).entries()[i] by {
                    assert(self.entries()[b] == old(self).entries()[b]);
                }
                assert forall|i: int| 0 <= i < old(self).entries().len() implies
                    self.contains(#[trigger] old(self).entries()[i].path@) by {
                    assert(self.entries()[i].path@ == old(self).entries()[i].path@);
                }
            }
            return Ok(());
        }
        let required: usize = size - (self.size_limit - used);
        match self.make_room_for_new_file(required, priority) {
            Ok(_) => {
                proof {
                    let t = choose|t: Seq<bool>|
                        enough_at(old(self).entries(), t, required as int, priority as int);
                    assert(enough_at(
                        old(self).entries(),
                        t,
                        old(self).used() + size - old(self).limit(),
                        priority as int,
                    ));
                }
                Ok(())
            },
            Err(e) => {
                proof {
                    if e == CacheInvalidationError::NewPriorityIsNotHighEnough {
                        let (t, b) = choose|t: Seq<bool>, b: int|
                            outweighed_at(old(self).entries(), t, b, required as int, priority as int);
                        assert(outweighed_at(
                            old(self).entries(),
                            t,
                            b,
                            old(self).used() + size - old(self).limit(),
                            priority as int,
                        ));
                    }
                }
                Err(e)
            },
        }
    }

    /// Puts the bytes read for `path`, which the cache does not hold, into the store: directly
    /// where they fit, else by evicting the files of lowest priority as
    /// `make_room_for_new_file` does. On success the shared bytes are handed back; on failure
    /// nothing changes.
    pub fn insert_file(&mut self, path: &String, content: Vec<u8>) -> (r: Result<
        Arc<Vec<u8>>,
        CacheInvalidationError,
    >)
        requires
            old(self).wf(),
            !old(self).contains(path@),
        ensures
            final(self).wf(),
            final(self).same_config(old(self)),
            final(self).counts() == old(self).counts(),
            old(self).admission_outcome(
                content@.len(),
                old(self).priority_of(old(self).count_of(path@), content@.len()),
                match r {
                    Ok(_) => None,
                    Err(e) => Some(e),
                },
            ),
            r is Err ==> *final(self) == *old(self),
            r matches Ok(a) ==> {
                &&& a@ == content@
                &&& final(self).entries().len() > 0
                &&& final(self).entries().last().path@ == path@
                &&& final(self).entries().last().file == a
                &&& final(self).contains(path@)
                &&& forall|b: int| 0 <= b < final(self).entries().len() - 1 ==> exists|i: int|
                    0 <= i < old(self).entries().len() && #[trigger] final(self).entries()[b]
                        == old(self).entries()[i]
                &&& forall|i: int, b: int|
                    0 <= i < old(self).entries().len() && 0 <= b < final(self).entries().len() - 1
                        && !final(self).contains(#[trigger] old(self).entries()[i].path@)
                        ==> old(self).entries()[i].stats.priority
                        <= #[trigger] final(self).entries()[b].stats.priority
                &&& forall|i: int|
                    0 <= i < old(self).entries().len() && !final(self).contains(
                        #[trigger] old(self).entries()[i].path@,
                    ) ==> old(self).entries()[i].stats.priority <= old(self).priority_of(
                        old(self).count_of(path@),
                        content@.len(),
                    )
            },
    {
        let size: usize = content.len();
        self.check_size_bounds(size)?;
        let count: usize = self.access_count(path);
        let priority: usize = self.priority_function.priority(count, size);
        let ghost o = *self;
        self.make_space(size, priority)?;
        proof {
            assert(!self.contains(path@)) by {
                if self.contains(path@) {
                    let b = choose|b: int| 0 <= b < self.entries().len() && #[trigger] self.entries()[b].path@ == path@;
                    let i = choose|i: int| 0 <= i < o.entries().len() && #[trigger] self.entries()[b] == o.entries()[i];
                    assert(o.entries()[i].path@ == path@);
                }
            }
        }
        let file = Arc::new(content);
        let f = CachedFile {
            path: path.clone(),
            file: share(&file),
            stats: FileStats { size, access_count: count, priority },
        };
        let ghost mid = *self;
        proof {
            assert(mid.files@.push(f).drop_last() =~= mid.files@);
        }
        self.files.push(f);
        proof {
            let e = self.entries();
            let n: int = mid.entries().len() as int;
            assert(e.drop_last() =~= mid.entries());
            assert forall|a: int, b: int|
                0 <= a < e.len() && 0 <= b < e.len() && a != b implies
                    #[trigger] e[a].path@ != #[trigger] e[b].path@ by {
                if a < n && b < n {
                    assert(e[a] == mid.entries()[a] && e[b] == mid.entries()[b]);
                } else if a < n {
                    assert(e[a] == mid.entries()[a]);
                } else {
                    assert(e[b] == mid.entries()[b]);
                }
            }
            assert forall|j: int| 0 <= j < e.len() implies self.entry_ok(j) by {
                if j < n {
                    assert(e[j] == mid.entries()[j]);
                    assert(mid.entry_ok(j));
                }
            }
            assert(self.contains(path@)) by {
                assert(e[n as int].path@ == path@);
            }
            assert forall|b: int| 0 <= b < e.len() - 1 implies exists|i: int|
                0 <= i < o.entries().len() && #[trigger] e[b] == o.entries()[i] by {
                assert(e[b] == mid.entries()[b]);
            }
            assert forall|i: int| 0 <= i < o.entries().len() && !self.contains(
                #[trigger] o.entries()[i].path@) implies !mid.contains(o.entries()[i].path@) by {
                if mid.contains(o.entries()[i].path@) {
                    let b = choose|b: int| 0 <= b < n && #[trigger] mid.entries()[b].path@ == o.entries()[i].path@;
                    assert(e[b] == mid.entries()[b]);
                }
            }
            assert forall|i: int, b: int|
                0 <= i < o.entries().len() && 0 <= b < e.len() - 1 && !self.contains(
                    #[trigger] o.entries()[i].path@,
                ) implies o.entries()[i].stats.priority <= #[trigger] e[b].stats.priority by {
                assert(e[b] == mid.entries()[b]);
                assert(!mid.contains(o.entries()[i].path@));
            }
        }
        Ok(file)
    }

    /// Replaces the cached bytes of `path` by `content`, freshly read from the backing store,
    /// and recomputes the file's stats from the new size and its unchanged access count.
    /// Returns whether a refresh took place: not where the cache does not hold `path`. Where the
    /// new bytes would break the size limit, the stale file is dropped from the store instead
    /// (its access count stays) and `false` is returned.
    pub fn refresh(&mut self, path: &String, content: Vec<u8>) -> (r: bool)
        requires
            old(self).wf(),
        ensures
            final(self).wf(),
            final(self).same_config(old(self)),
            final(self).counts() == old(self).counts(),
            !old(self).contains(path@) ==> !r && *final(self) == *old(self),
            old(self).contains(path@) ==> exists|i: int|
                0 <= i < old(self).entries().len() && old(self).entries()[i].path@ == path@ && if old(self).used()
                    - old(self).entries()[i].stats.size + content@.len() <= old(self).limit() {
                    &&& r
                    &&& final(self).entries().len() == old(self).entries().len()
                    &&& forall|j: int|
                        0 <= j < old(self).entries().len() && j != i
                            ==> #[trigger] final(self).entries()[j] == old(self).entries()[j]
                    &&& final(self).entries()[i].path == old(self).entries()[i].path
                    &&& final(self).entries()[i].file@ == content@
                    &&& final(self).entries()[i].stats == (FileStats {
                        size: content@.len() as usize,
                        access_count: old(self).entries()[i].stats.access_count,
                        priority: old(self).priority_of(
                            old(self).entries()[i].stats.access_count as nat,
                            content@.len(),
                        ) as usize,
                    })
                } else {
                    !r && final(self).entries() == old(self).entries().remove(i)
                },
    {
        let i: usize = match self.find_file(path) {
            Some(i) => i,
            None => {
                return false;
            },
        };
        let used: usize = self.used_bytes();
        let old_size: usize = self.files[i].stats.size;
        let size: usize = content.len();
        proof {
            lemma_total_size_update(self.files@, i as int, self.files@[i as int]);
            lemma_total_size_nonneg(self.files@.remove(i as int));
            lemma_total_size_remove(self.files@, i as int);
        }
        if size <= self.size_limit - (used - old_size) {
            let count: usize = self.files[i].stats.access_count;
            let priority: usize = self.priority_function.priority(count, size);
            let f = CachedFile {
                path: self.files[i].path.clone(),
                file: Arc::new(content),
                stats: FileStats { size, access_count: count, priority },
            };
            proof {
                lemma_total_size_update(self.files@, i as int, f);
            }
            self.files.set(i, f);
            proof {
                assert forall|a: int, b: int|
                    0 <= a < self.files@.len() && 0 <= b < self.files@.len() && a != b implies
                        #[trigger] self.files@[a].path@ != #[trigger] self.files@[b].path@ by {
                    assert(self.files@[a].path == old(self).files@[a].path);
                    assert(self.files@[b].path == old(self).files@[b].path);
                }
                assert forall|j: int| 0 <= j < self.entries().len() implies self.entry_ok(j) by {
                    assert(old(self).entry_ok(j));
                }
            }
            true
        } else {
            let _ = self.files.remove(i);
            proof {
                let o = old(self).files@;
                assert(self.files@ == o.remove(i as int));
                assert forall|a: int, b: int|
                    0 <= a < self.files@.len() && 0 <= b < self.files@.len() && a != b implies
                        #[trigger] self.files@[a].path@ != #[trigger] self.files@[b].path@ by {
                    let oa = if a < i { a } else { a + 1 };
                    let ob = if b < i { b } else { b + 1 };
                    assert(self.files@[a] == o[oa]);
                    assert(self.files@[b] == o[ob]);
                }
                assert forall|j: int| 0 <= j < self.entries().len() implies self.entry_ok(j) by {
                    assert(old(self).entry_ok(if j < i { j } else { j + 1 }));
                }
            }
            false
        }
    }

    /// Returns whether the cache holds a file under `path`.
    pub fn contains_key(&self, path: &String) -> (r: bool)
        ensures
            r == self.contains(path@),
    {
        self.find_file(path).is_some()
    }
}

/// However the cache is used through its operations, the cached files never take more bytes
/// than the size limit: every operation keeps the invariant, and the invariant bounds them.
pub proof fn lemma_used_within_limit<P: PriorityFunction>(cache: &Cache<P>)
    requires
        cache.wf(),
    ensures
        cache.used() <= cache.limit(),
{
}

/// Under unique keys, the count recorded at index `i` is the count of its key.
pub proof fn lemma_count_at(counts: Seq<(String, usize)>, i: int)
    requires
        counts_unique(counts),
        0 <= i < counts.len(),
    ensures
        count_in(counts, counts[i].0@) == counts[i].1,
{
    let k = counts[i].0@;
    assert(counted(counts, k));
    let j = choose|j: int| 0 <= j < counts.len() && #[trigger] counts[j].0@ == k;
    assert(j == i);
}

impl Cache<DefaultPriority> {
    /// Creates a new cache with the given size limit and the default priority function.
    /// The min and max file sizes are not set.
    pub fn new(size_limit: usize) -> (r: Self)
        ensures
            r.wf(),
            r.limit() == size_limit,
            r.min_size() == 0,
            r.max_size() == usize::MAX,
            r.entries().len() == 0,
            forall|k: Seq<char>| r.count_of(k) == 0,
    {
        Cache::with_priority_function(size_limit, DefaultPriority)
    }
}

} // verus!
