//! Coalescing of dirty rows into contiguous runs.
use crate::gpu::dirty::DirtyMask;
use vstd::prelude::*;

verus! {

/// A run of rows: its first row, then one past its last.
pub type Run = (u32, u32);

/// `runs` are the maximal runs of marked rows, in ascending order.
pub open spec fn are_runs(runs: Seq<Run>, marks: Seq<bool>) -> bool {
    &&& forall|i: int|
        0 <= i < runs.len() ==> (#[trigger] runs[i]).0 < runs[i].1 && runs[i].1 <= marks.len()
    &&& forall|i: int, r: int|
        #![trigger runs[i], marks[r]]
        0 <= i < runs.len() && runs[i].0 <= r < runs[i].1 ==> marks[r]
    &&& forall|i: int, j: int|
        #![trigger runs[i], runs[j]]
        0 <= i < j < runs.len() ==> runs[i].1 < runs[j].0
    &&& forall|r: int| 0 <= r < marks.len() && #[trigger] marks[r] ==> in_some_run(runs, r)
}

/// Row `r` lies in one of the runs.
pub open spec fn in_some_run(runs: Seq<Run>, r: int) -> bool {
    exists|i: int| 0 <= i < runs.len() && (#[trigger] runs[i]).0 <= r < runs[i].1
}

/// How many rows the runs hold together.
pub open spec fn rows_in(runs: Seq<Run>) -> int
    decreases runs.len(),
{
    if runs.len() == 0 {
        0
    } else {
        rows_in(runs.drop_last()) + (runs.last().1 - runs.last().0)
    }
}

/// How many of the first `n` rows are marked.
pub open spec fn marked_rows(marks: Seq<bool>, n: int) -> int
    decreases n,
{
    if n <= 0 {
        0
    } else if marks[n - 1] {
        marked_rows(marks, n - 1) + 1
    } else {
        marked_rows(marks, n - 1)
    }
}

/// How many of the first `n` rows are marked while the row before is not.
pub open spec fn run_starts(marks: Seq<bool>, n: int) -> int
    decreases n,
{
    if n <= 0 {
        0
    } else if marks[n - 1] && (n == 1 || !marks[n - 2]) {
        run_starts(marks, n - 1) + 1
    } else {
        run_starts(marks, n - 1)
    }
}

/// The maximal runs of marked rows among the first `n`.
pub fn coalesce(mask: &DirtyMask, n: u32) -> (runs: Vec<Run>)
    requires
        mask.wf(),
        n <= mask@.len(),
    ensures
        are_runs(runs@, mask@.take(n as int)),
{
    let mut runs: Vec<Run> = Vec::new();
    let mut open: Option<u32> = None;
    let mut row: u32 = 0;
    let ghost marks = mask@.take(n as int);
    while row < n
        invariant
            mask.wf(),
            row <= n <= mask@.len(),
            marks == mask@.take(n as int),
            forall|i: int|
                0 <= i < runs@.len() ==> (#[trigger] runs@[i]).0 < runs@[i].1 && runs@[i].1
                    <= row,
            forall|i: int, r: int|
                #![trigger runs@[i], marks[r]]
                0 <= i < runs@.len() && runs@[i].0 <= r < runs@[i].1 ==> marks[r],
            forall|i: int, j: int|
                #![trigger runs@[i], runs@[j]]
                0 <= i < j < runs@.len() ==> runs@[i].1 < runs@[j].0,
            match open {
                Some(start) => {
                    &&& start < row
                    &&& forall|r: int| start <= r < row ==> #[trigger] marks[r]
                    &&& forall|i: int| 0 <= i < runs@.len() ==> (#[trigger] runs@[i]).1 < start
                    &&& forall|r: int|
                        0 <= r < start && #[trigger] marks[r] ==> in_some_run(runs@, r)
                },
                None => {
                    &&& row > 0 ==> !marks[row - 1]
                    &&& forall|i: int| 0 <= i < runs@.len() ==> (#[trigger] runs@[i]).1 < row
                    &&& forall|r: int|
                        0 <= r < row && #[trigger] marks[r] ==> in_some_run(runs@, r)
                },
            },
        decreases n - row,
    {
        assert(row / 64 < (mask@.len() + 63) / 64);
        let marked: bool = mask.is_marked(row);
        assert(marked == marks[row as int]);
        if marked {
            if open.is_none() {
                open = Some(row);
            }
        } else {
            match open {
                Some(start) => {
                    let ghost before = runs@;
                    runs.push((start, row));
                    open = None;
                    proof {
                        lemma_run_added(before, (start, row), marks);
                    }
                },
                None => {},
            }
        }
        row = row + 1;
    }
    match open {
        Some(start) => {
            let ghost before = runs@;
            runs.push((start, n));
            proof {
                lemma_run_added(before, (start, n), marks);
            }
        },
        None => {},
    }
    runs
}

proof fn lemma_run_added(runs: Seq<Run>, run: Run, marks: Seq<bool>)
    ensures
        forall|r: int| in_some_run(runs, r) ==> #[trigger] in_some_run(runs.push(run), r),
        forall|r: int| run.0 <= r < run.1 ==> #[trigger] in_some_run(runs.push(run), r),
{
    let after = runs.push(run);
    assert forall|r: int| in_some_run(runs, r) implies #[trigger] in_some_run(after, r) by {
        let i = choose|i: int| 0 <= i < runs.len() && (#[trigger] runs[i]).0 <= r < runs[i].1;
        assert(after[i].0 <= r < after[i].1);
    }
    assert forall|r: int| run.0 <= r < run.1 implies #[trigger] in_some_run(after, r) by {
        assert(after[runs.len() as int].0 <= r < after[runs.len() as int].1);
    }
}

/// No gap is bridged and no run is split: the row before a run and the row after it are unmarked.
pub proof fn law_runs_are_maximal(runs: Seq<Run>, marks: Seq<bool>, i: int)
    requires
        are_runs(runs, marks),
        0 <= i < runs.len(),
    ensures
        runs[i].0 > 0 ==> !marks[runs[i].0 - 1],
        runs[i].1 < marks.len() ==> !marks[runs[i].1 as int],
{
    let (start, end) = runs[i];
    if start > 0 && marks[start - 1] {
        assert(in_some_run(runs, start - 1));
        let j = choose|j: int| 0 <= j < runs.len() && (#[trigger] runs[j]).0 <= start - 1
            < runs[j].1;
        if j < i {
            assert(runs[j].1 < runs[i].0);
        } else if j > i {
            assert(runs[i].1 < runs[j].0);
        }
    }
    if end < marks.len() && marks[end as int] {
        assert(in_some_run(runs, end as int));
        let j = choose|j: int| 0 <= j < runs.len() && (#[trigger] runs[j]).0 <= end < runs[j].1;
        if j < i {
            assert(runs[j].1 < runs[i].0);
        } else if j > i {
            assert(runs[i].1 < runs[j].0);
        }
    }
}

proof fn lemma_unmarked_stretch(marks: Seq<bool>, a: int, b: int)
    requires
        0 <= a <= b <= marks.len(),
        forall|r: int| a <= r < b ==> !#[trigger] marks[r],
    ensures
        marked_rows(marks, b) == marked_rows(marks, a),
        run_starts(marks, b) == run_starts(marks, a),
    decreases b - a,
{
    if a < b {
        lemma_unmarked_stretch(marks, a, b - 1);
        assert(!marks[b - 1]);
    }
}

proof fn lemma_marked_stretch(marks: Seq<bool>, a: int, b: int)
    requires
        0 <= a < b <= marks.len(),
        a > 0 ==> !marks[a - 1],
        forall|r: int| a <= r < b ==> #[trigger] marks[r],
    ensures
        marked_rows(marks, b) == marked_rows(marks, a) + (b - a),
        run_starts(marks, b) == run_starts(marks, a) + 1,
    decreases b - a,
{
    assert(marks[b - 1]);
    if a < b - 1 {
        lemma_marked_stretch(marks, a, b - 1);
        assert(marks[b - 2]);
    }
}

/// Where the first `k` runs end.
spec fn runs_end(runs: Seq<Run>, k: int) -> int {
    if k <= 0 {
        0
    } else {
        runs[k - 1].1 as int
    }
}

/// Rows between the first `k` runs and `r` are not marked, if `r` is not beyond the next run.
proof fn lemma_gap(runs: Seq<Run>, marks: Seq<bool>, k: int, r: int)
    requires
        are_runs(runs, marks),
        0 <= k <= runs.len(),
        runs_end(runs, k) <= r < marks.len(),
        k < runs.len() ==> r < runs[k].0,
    ensures
        !marks[r],
{
    if marks[r] {
        assert(in_some_run(runs, r));
        let j = choose|j: int| 0 <= j < runs.len() && (#[trigger] runs[j]).0 <= r < runs[j].1;
        if j < k {
            if j < k - 1 {
                assert(runs[j].1 < runs[k - 1].0);
            }
        } else if j > k {
            assert(runs[k].1 < runs[j].0);
        }
    }
}

proof fn lemma_runs_counted(runs: Seq<Run>, marks: Seq<bool>, k: int)
    requires
        are_runs(runs, marks),
        0 <= k <= runs.len(),
    ensures
        marked_rows(marks, runs_end(runs, k)) == rows_in(runs.take(k)),
        run_starts(marks, runs_end(runs, k)) == k,
    decreases k,
{
    if k > 0 {
        lemma_runs_counted(runs, marks, k - 1);
        let (start, end) = runs[k - 1];
        let from = runs_end(runs, k - 1);
        assert(runs.take(k).drop_last() =~= runs.take(k - 1));
        assert(from <= start) by {
            if k > 1 {
                assert(runs[k - 2].1 < runs[k - 1].0);
            }
        }
        assert forall|r: int| from <= r < start implies !#[trigger] marks[r] by {
            lemma_gap(runs, marks, k - 1, r);
        }
        lemma_unmarked_stretch(marks, from, start as int);
        law_runs_are_maximal(runs, marks, k - 1);
        lemma_marked_stretch(marks, start as int, end as int);
    }
}

/// The runs hold the marked rows, each once, and there are as many of them as stretches of marked
/// rows.
pub proof fn law_runs_count_the_marks(runs: Seq<Run>, marks: Seq<bool>)
    requires
        are_runs(runs, marks),
    ensures
        rows_in(runs) == marked_rows(marks, marks.len() as int),
        runs.len() == run_starts(marks, marks.len() as int),
{
    let k = runs.len() as int;
    lemma_runs_counted(runs, marks, k);
    assert(runs.take(k) =~= runs);
    let from = runs_end(runs, k);
    assert forall|r: int| from <= r < marks.len() implies !#[trigger] marks[r] by {
        lemma_gap(runs, marks, k, r);
    }
    assert(from <= marks.len());
    lemma_unmarked_stretch(marks, from, marks.len() as int);
}

/// Where nothing is marked there is nothing to count.
pub proof fn lemma_nothing_marked(marks: Seq<bool>)
    requires
        forall|r: int| 0 <= r < marks.len() ==> !#[trigger] marks[r],
    ensures
        marked_rows(marks, marks.len() as int) == 0,
        run_starts(marks, marks.len() as int) == 0,
{
    lemma_unmarked_stretch(marks, 0, marks.len() as int);
}

/// The runs of given marks are unique.
pub proof fn law_runs_are_unique(a: Seq<Run>, b: Seq<Run>, marks: Seq<bool>)
    requires
        are_runs(a, marks),
        are_runs(b, marks),
    ensures
        a == b,
{
    lemma_runs_prefix(a, b, marks, a.len() as int);
    lemma_runs_prefix(b, a, marks, b.len() as int);
    assert(a =~= b);
}

proof fn lemma_runs_prefix(a: Seq<Run>, b: Seq<Run>, marks: Seq<bool>, n: int)
    requires
        are_runs(a, marks),
        are_runs(b, marks),
        0 <= n <= a.len(),
    ensures
        n <= b.len(),
        forall|i: int| 0 <= i < n ==> a[i] == b[i],
    decreases n,
{
    if n > 0 {
        let m = n - 1;
        lemma_runs_prefix(a, b, marks, m);
        let start = a[m].0 as int;
        assert(marks[start]);
        assert(in_some_run(b, start));
        let j = choose|j: int| 0 <= j < b.len() && (#[trigger] b[j]).0 <= start < b[j].1;
        if j < m {
            assert(a[j] == b[j]);
            assert(a[j].1 < a[m].0);
        }
        lemma_same_run(a, b, marks, m, j);
        if j > m {
            // The run `b[m]` would lie below `a[m]`, beyond every earlier run of `a`.
            let low = b[m].0 as int;
            assert(b[m].1 < b[j].0);
            assert(marks[low]);
            assert(in_some_run(a, low));
            let k = choose|k: int| 0 <= k < a.len() && (#[trigger] a[k]).0 <= low < a[k].1;
            if k < m {
                assert(a[k] == b[k]);
                assert(b[k].1 < b[m].0);
            } else if k > m {
                assert(a[m].1 < a[k].0);
            }
        }
    }
}

/// Two maximal runs that share a row are the same run.
proof fn lemma_same_run(a: Seq<Run>, b: Seq<Run>, marks: Seq<bool>, i: int, j: int)
    requires
        are_runs(a, marks),
        are_runs(b, marks),
        0 <= i < a.len(),
        0 <= j < b.len(),
        b[j].0 <= a[i].0 < b[j].1,
    ensures
        a[i] == b[j],
{
    law_runs_are_maximal(a, marks, i);
    law_runs_are_maximal(b, marks, j);
    if b[j].0 < a[i].0 {
        assert(b[j].0 <= a[i].0 - 1 < b[j].1);
        assert(marks[a[i].0 - 1]);
    }
    if a[i].1 < b[j].1 {
        assert(b[j].0 <= a[i].1 < b[j].1);
        assert(marks[a[i].1 as int]);
    }
    if b[j].1 < a[i].1 {
        assert(a[i].0 <= b[j].1 < a[i].1);
        assert(marks[b[j].1 as int]);
    }
}

/// The marked rows among the first `n`.
pub open spec fn marked_set(marks: Seq<bool>, n: int) -> Set<int> {
    Set::new(|r: int| 0 <= r < n && marks[r])
}

/// The rows among the first `n` that are marked while the row before is not.
pub open spec fn start_set(marks: Seq<bool>, n: int) -> Set<int> {
    Set::new(|r: int| 0 <= r < n && marks[r] && (r == 0 || !marks[r - 1]))
}

/// What is counted of the marks is the size of a set of rows.
pub proof fn lemma_marks_are_sets(marks: Seq<bool>, n: int)
    requires
        0 <= n <= marks.len(),
    ensures
        marked_set(marks, n).finite(),
        marked_set(marks, n).len() == marked_rows(marks, n),
        start_set(marks, n).finite(),
        start_set(marks, n).len() == run_starts(marks, n),
    decreases n,
{
    if n == 0 {
        assert(marked_set(marks, 0) =~= Set::empty());
        assert(start_set(marks, 0) =~= Set::empty());
    } else {
        lemma_marks_are_sets(marks, n - 1);
        if marks[n - 1] {
            assert(marked_set(marks, n) =~= marked_set(marks, n - 1).insert(n - 1));
        } else {
            assert(marked_set(marks, n) =~= marked_set(marks, n - 1));
        }
        if marks[n - 1] && (n == 1 || !marks[n - 2]) {
            assert(start_set(marks, n) =~= start_set(marks, n - 1).insert(n - 1));
        } else {
            assert(start_set(marks, n) =~= start_set(marks, n - 1));
        }
    }
}

} // verus!
