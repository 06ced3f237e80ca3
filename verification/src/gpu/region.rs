//! Pools of equally sized regions of one shared buffer.
use vstd::prelude::*;

verus! {

/// Why a cell got no region.
#[derive(Clone, Copy, Debug, PartialEq, Eq, Structural)]
pub enum RegionError {
    /// No row region of the class is free.
    RowsExhausted,
    /// No slot region of the class is free.
    SlotsExhausted,
}

/// What a pool holds.
#[verifier::ext_equal]
pub struct RegionState {
    /// Where the pool's first region starts.
    pub base: u32,
    /// The size of every region.
    pub size: u32,
    /// How many regions there are.
    pub count: u32,
    /// The numbers of the regions to hand out, the next one last.
    pub free: Seq<u32>,
    /// The numbers of the regions given back, each with the serial that must complete before it is
    /// free.
    pub pinned: Seq<(u32, u64)>,
}

impl RegionState {
    /// `at` is the number of one of the pool's regions.
    pub open spec fn is_region(self, at: u32) -> bool {
        at < self.count
    }

    /// The start of region `k`.
    pub open spec fn start_of(self, k: int) -> int {
        self.base + k * self.size
    }

    pub open spec fn is_pinned(self, at: u32) -> bool {
        exists|i: int| 0 <= i < self.pinned.len() && (#[trigger] self.pinned[i]).0 == at
    }

    /// A region that is handed out: neither free nor waiting for its serial.
    pub open spec fn handed_out(self, at: u32) -> bool {
        &&& self.is_region(at)
        &&& !self.free.contains(at)
        &&& !self.is_pinned(at)
    }

    /// Free and pinned regions are regions, and none is listed twice.
    pub open spec fn consistent(self) -> bool {
        &&& self.base + self.count * self.size <= u32::MAX
        &&& self.free.no_duplicates()
        &&& forall|i: int|
            0 <= i < self.free.len() ==> self.is_region(#[trigger] self.free[i])
        &&& forall|i: int|
            0 <= i < self.pinned.len() ==> self.is_region((#[trigger] self.pinned[i]).0)
        &&& forall|i: int, j: int|
            #![trigger self.pinned[i], self.pinned[j]]
            0 <= i < j < self.pinned.len() ==> self.pinned[i].0 != self.pinned[j].0
        &&& forall|i: int, j: int|
            #![trigger self.free[i], self.pinned[j]]
            0 <= i < self.free.len() && 0 <= j < self.pinned.len() ==> self.free[i]
                != self.pinned[j].0
    }

    /// The pool after a region is handed out.
    pub open spec fn after_take(self) -> RegionState {
        RegionState { free: self.free.drop_last(), ..self }
    }

    /// The pool after a region is given back under `serial`.
    pub open spec fn after_pin(self, at: u32, serial: u64) -> RegionState {
        RegionState { pinned: self.pinned.push((at, serial)), ..self }
    }

    /// The pool after every serial up to `done` has completed.
    pub open spec fn after_drain(self, done: u64) -> RegionState {
        RegionState {
            free: self.free + completed(self.pinned, done),
            pinned: still_pinned(self.pinned, done),
            ..self
        }
    }
}

/// The regions whose serial has completed, in order.
pub open spec fn completed(pinned: Seq<(u32, u64)>, done: u64) -> Seq<u32>
    decreases pinned.len(),
{
    if pinned.len() == 0 {
        seq![]
    } else {
        let front = completed(pinned.drop_last(), done);
        if pinned.last().1 <= done {
            front.push(pinned.last().0)
        } else {
            front
        }
    }
}

/// The regions whose serial has not completed, in order.
pub open spec fn still_pinned(pinned: Seq<(u32, u64)>, done: u64) -> Seq<(u32, u64)>
    decreases pinned.len(),
{
    if pinned.len() == 0 {
        seq![]
    } else {
        let front = still_pinned(pinned.drop_last(), done);
        if pinned.last().1 <= done {
            front
        } else {
            front.push(pinned.last())
        }
    }
}

/// A pool of equally sized regions.
#[derive(Debug)]
pub struct RegionPool {
    base: u32,
    size: u32,
    count: u32,
    free: Vec<u32>,
    pinned: Vec<(u32, u64)>,
}

impl View for RegionPool {
    type V = RegionState;

    closed spec fn view(&self) -> RegionState {
        RegionState {
            base: self.base,
            size: self.size,
            count: self.count,
            free: self.free@,
            pinned: self.pinned@,
        }
    }
}

/// The start of region `k`, within the pool's extent.
proof fn lemma_start_bound(base: int, size: int, count: int, k: int)
    requires
        0 <= k < count,
        size >= 0,
        base >= 0,
    ensures
        base <= base + k * size,
        base + k * size + size <= base + count * size,
{
    assert(0 <= k * size) by (nonlinear_arith)
        requires
            k >= 0,
            size >= 0,
    ;
    assert(k * size + size <= count * size) by (nonlinear_arith)
        requires
            k + 1 <= count,
            size >= 0,
    ;
}

impl RegionPool {
    /// The invariant every operation keeps.
    pub open spec fn wf(&self) -> bool {
        self@.consistent()
    }

    /// A pool of `count` regions of `size` each from `base` on, all free, the lowest one first. The
    /// regions may be empty.
    pub fn new(base: u32, size: u32, count: u32) -> (pool: Self)
        requires
            base + count * size <= u32::MAX,
        ensures
            pool.wf(),
            pool@.base == base,
            pool@.size == size,
            pool@.count == count,
            pool@.free == Seq::new(count as nat, |i: int| (count - 1 - i) as u32),
            pool@.pinned.len() == 0,
    {
        let mut free: Vec<u32> = Vec::new();
        let mut k: u32 = count;
        while k > 0
            invariant
                k <= count,
                free@.len() == count - k,
                forall|i: int| 0 <= i < free@.len() ==> free@[i] == (count - 1 - i) as u32,
            decreases k,
        {
            k = k - 1;
            free.push(k);
        }
        let pool = RegionPool { base, size, count, free, pinned: Vec::new() };
        assert(pool@.free =~= Seq::new(count as nat, |i: int| (count - 1 - i) as u32));
        pool
    }

    /// Hands out the number of a free region, if there is one.
    pub fn acquire(&mut self) -> (region: Option<u32>)
        requires
            old(self).wf(),
        ensures
            final(self).wf(),
            match region {
                Some(at) => {
                    &&& old(self)@.free.len() > 0
                    &&& at == old(self)@.free.last()
                    &&& final(self)@ == old(self)@.after_take()
                    &&& final(self)@.handed_out(at)
                    &&& !old(self)@.handed_out(at)
                },
                None => old(self)@.free.len() == 0 && final(self)@ == old(self)@,
            },
            forall|other: u32| #[trigger]
                old(self)@.handed_out(other) ==> final(self)@.handed_out(other),
    {
        proof {
            if self@.free.len() > 0 {
                lemma_take(self@);
            }
        }
        match self.free.pop() {
            Some(at) => {
                assert(self@ =~= old(self)@.after_take());
                assert(at == old(self)@.free[old(self)@.free.len() - 1]);
                Some(at)
            },
            None => None,
        }
    }

    /// Takes a region back; it is free again once `serial` has completed.
    pub fn free_pinned(&mut self, at: u32, serial: u64)
        requires
            old(self).wf(),
            old(self)@.handed_out(at),
        ensures
            final(self).wf(),
            final(self)@ == old(self)@.after_pin(at, serial),
            forall|other: u32| #[trigger]
                old(self)@.handed_out(other) && other != at ==> final(self)@.handed_out(other),
            !final(self)@.handed_out(at),
    {
        proof {
            lemma_pin(self@, at, serial);
        }
        self.pinned.push((at, serial));
        assert(self@ =~= old(self)@.after_pin(at, serial));
    }

    /// Frees every region whose serial is at most `done`.
    pub fn drain_completed(&mut self, done: u64)
        requires
            old(self).wf(),
        ensures
            final(self).wf(),
            final(self)@ == old(self)@.after_drain(done),
            forall|other: u32| #[trigger]
                old(self)@.handed_out(other) ==> final(self)@.handed_out(other),
    {
        let ghost start = self@;
        let mut kept: Vec<(u32, u64)> = Vec::new();
        let mut i: usize = 0;
        while i < self.pinned.len()
            invariant
                i <= self.pinned@.len(),
                self.pinned@ == start.pinned,
                self.base == start.base,
                self.size == start.size,
                self.count == start.count,
                self.free@ == start.free + completed(start.pinned.take(i as int), done),
                kept@ == still_pinned(start.pinned.take(i as int), done),
            decreases self.pinned@.len() - i,
        {
            let entry: (u32, u64) = self.pinned[i];
            proof {
                assert(start.pinned.take(i + 1).drop_last() =~= start.pinned.take(i as int));
                assert(start.pinned.take(i + 1).last() == entry);
            }
            if entry.1 <= done {
                self.free.push(entry.0);
                assert(self.free@ =~= start.free + completed(start.pinned.take(i + 1), done));
            } else {
                kept.push(entry);
            }
            i = i + 1;
        }
        assert(start.pinned.take(i as int) =~= start.pinned);
        self.pinned = kept;
        proof {
            lemma_drain(start, done);
            assert(self@ =~= start.after_drain(done));
        }
    }

    /// How many regions are free.
    pub fn free_count(&self) -> (n: usize)
        ensures
            n == self@.free.len(),
    {
        self.free.len()
    }

    /// Where region `k` starts.
    pub fn region_start(&self, k: u32) -> (start: u32)
        requires
            self.wf(),
            self@.is_region(k),
        ensures
            start == self@.start_of(k as int),
    {
        proof {
            lemma_start_bound(self.base as int, self.size as int, self.count as int, k as int);
        }
        self.base + k * self.size
    }

    /// The size of a region.
    pub fn region_size(&self) -> (size: u32)
        ensures
            size == self@.size,
    {
        self.size
    }
}

proof fn lemma_take(state: RegionState)
    requires
        state.consistent(),
        state.free.len() > 0,
    ensures
        state.after_take().consistent(),
        state.after_take().handed_out(state.free.last()),
        !state.handed_out(state.free.last()),
        forall|other: u32| #[trigger]
            state.handed_out(other) ==> state.after_take().handed_out(other),
{
    let after = state.after_take();
    let last = state.free.len() - 1;
    let at = state.free[last];
    assert(state.free.contains(at));
    assert forall|i: int| 0 <= i < after.free.len() implies after.is_region(
        #[trigger] after.free[i],
    ) by {
        assert(state.is_region(state.free[i]));
    }
    assert forall|i: int| 0 <= i < after.free.len() implies after.free[i] != at by {
        assert(state.free[i] != state.free[last]);
    }
    if after.is_pinned(at) {
        let j = choose|j: int| 0 <= j < after.pinned.len() && (#[trigger] after.pinned[j]).0 == at;
        assert(state.free[last] != state.pinned[j].0);
    }
    assert forall|other: u32| #[trigger] state.handed_out(other) implies after.handed_out(
        other,
    ) by {
        if after.free.contains(other) {
            let i = choose|i: int| 0 <= i < after.free.len() && after.free[i] == other;
            assert(state.free[i] == other);
        }
        if after.is_pinned(other) {
            let j = choose|j: int|
                0 <= j < after.pinned.len() && (#[trigger] after.pinned[j]).0 == other;
            assert(state.pinned[j].0 == other);
        }
    }
    assert(state.is_region(at));
}

proof fn lemma_pin(state: RegionState, at: u32, serial: u64)
    requires
        state.consistent(),
        state.handed_out(at),
    ensures
        state.after_pin(at, serial).consistent(),
        !state.after_pin(at, serial).handed_out(at),
        forall|other: u32| #[trigger]
            state.handed_out(other) && other != at ==> state.after_pin(at, serial).handed_out(
                other,
            ),
{
    let after = state.after_pin(at, serial);
    let n = state.pinned.len();
    assert forall|i: int| 0 <= i < after.pinned.len() implies after.is_region(
        (#[trigger] after.pinned[i]).0,
    ) by {
        if i < n {
            assert(state.is_region(state.pinned[i].0));
        } else {
            assert(state.is_region(at));
        }
    }
    assert forall|i: int, j: int|
        #![trigger after.pinned[i], after.pinned[j]]
        0 <= i < j < after.pinned.len() implies after.pinned[i].0 != after.pinned[j].0 by {
        if j == n {
            assert(state.pinned[i].0 != at);
        }
    }
    assert forall|i: int, j: int|
        #![trigger after.free[i], after.pinned[j]]
        0 <= i < after.free.len() && 0 <= j < after.pinned.len() implies after.free[i]
        != after.pinned[j].0 by {
        if j == n {
            assert(state.free.contains(state.free[i]));
        } else {
            assert(state.free[i] != state.pinned[j].0);
        }
    }
    assert forall|i: int| 0 <= i < after.free.len() implies after.is_region(
        #[trigger] after.free[i],
    ) by {
        assert(state.is_region(state.free[i]));
    }
    assert(after.pinned[n as int].0 == at);
    assert(after.is_pinned(at));
    assert forall|other: u32| #[trigger]
        state.handed_out(other) && other != at implies after.handed_out(other) by {
        if after.is_pinned(other) {
            let j = choose|j: int|
                0 <= j < after.pinned.len() && (#[trigger] after.pinned[j]).0 == other;
            assert(j < n);
            assert(state.pinned[j].0 == other);
        }
    }
}

/// `at` was pinned under a serial that has completed.
spec fn from_completed(pinned: Seq<(u32, u64)>, done: u64, at: u32) -> bool {
    exists|k: int|
        0 <= k < pinned.len() && (#[trigger] pinned[k]).0 == at && pinned[k].1 <= done
}

/// `entry` was pinned under a serial that has not completed.
spec fn from_pending(pinned: Seq<(u32, u64)>, done: u64, entry: (u32, u64)) -> bool {
    exists|k: int| 0 <= k < pinned.len() && #[trigger] pinned[k] == entry && pinned[k].1 > done
}

/// Where the completed and the still pinned regions come from.
proof fn lemma_split(pinned: Seq<(u32, u64)>, done: u64)
    requires
        forall|i: int, j: int|
            #![trigger pinned[i], pinned[j]]
            0 <= i < j < pinned.len() ==> pinned[i].0 != pinned[j].0,
    ensures
        forall|i: int|
            0 <= i < completed(pinned, done).len() ==> from_completed(
                pinned,
                done,
                #[trigger] completed(pinned, done)[i],
            ),
        forall|i: int|
            0 <= i < still_pinned(pinned, done).len() ==> from_pending(
                pinned,
                done,
                #[trigger] still_pinned(pinned, done)[i],
            ),
        completed(pinned, done).no_duplicates(),
        forall|i: int, j: int|
            #![trigger still_pinned(pinned, done)[i], still_pinned(pinned, done)[j]]
            0 <= i < j < still_pinned(pinned, done).len() ==> still_pinned(pinned, done)[i].0
                != still_pinned(pinned, done)[j].0,
        forall|i: int, j: int|
            #![trigger completed(pinned, done)[i], still_pinned(pinned, done)[j]]
            0 <= i < completed(pinned, done).len() && 0 <= j < still_pinned(pinned, done).len()
                ==> completed(pinned, done)[i] != still_pinned(pinned, done)[j].0,
    decreases pinned.len(),
{
    if pinned.len() > 0 {
        let front = pinned.drop_last();
        let n = pinned.len() - 1;
        assert(forall|i: int| 0 <= i < front.len() ==> #[trigger] front[i] == pinned[i]);
        lemma_split(front, done);
        let c = completed(pinned, done);
        let s = still_pinned(pinned, done);
        let cf = completed(front, done);
        let sf = still_pinned(front, done);
        assert forall|i: int| 0 <= i < c.len() implies from_completed(
            pinned,
            done,
            #[trigger] c[i],
        ) by {
            if i < cf.len() {
                assert(c[i] == cf[i]);
                assert(from_completed(front, done, cf[i]));
                let k = choose|k: int|
                    0 <= k < front.len() && (#[trigger] front[k]).0 == cf[i] && front[k].1 <= done;
                assert(pinned[k].0 == c[i]);
            } else {
                assert(pinned[n].0 == c[i]);
            }
        }
        assert forall|i: int| 0 <= i < s.len() implies from_pending(
            pinned,
            done,
            #[trigger] s[i],
        ) by {
            if i < sf.len() {
                assert(s[i] == sf[i]);
                assert(from_pending(front, done, sf[i]));
                let k = choose|k: int|
                    0 <= k < front.len() && #[trigger] front[k] == sf[i] && front[k].1 > done;
                assert(pinned[k] == s[i]);
            } else {
                assert(pinned[n] == s[i]);
            }
        }
        assert forall|i: int, j: int|
            0 <= i < c.len() && 0 <= j < c.len() && i != j implies c[i] != c[j] by {
            if i < cf.len() {
                assert(from_completed(front, done, cf[i]));
            }
            if j < cf.len() {
                assert(from_completed(front, done, cf[j]));
            }
            if i < cf.len() && j < cf.len() {
                assert(cf[i] != cf[j]);
            } else if i < cf.len() {
                let k = choose|k: int|
                    0 <= k < front.len() && (#[trigger] front[k]).0 == cf[i] && front[k].1 <= done;
                assert(pinned[k].0 != pinned[n].0);
            } else if j < cf.len() {
                let k = choose|k: int|
                    0 <= k < front.len() && (#[trigger] front[k]).0 == cf[j] && front[k].1 <= done;
                assert(pinned[k].0 != pinned[n].0);
            }
        }
        assert forall|i: int, j: int|
            #![trigger s[i], s[j]]
            0 <= i < j < s.len() implies s[i].0 != s[j].0 by {
            if j >= sf.len() {
                assert(from_pending(front, done, sf[i]));
                let k = choose|k: int|
                    0 <= k < front.len() && #[trigger] front[k] == sf[i] && front[k].1 > done;
                assert(pinned[k].0 != pinned[n].0);
            }
        }
        assert forall|i: int, j: int|
            #![trigger c[i], s[j]]
            0 <= i < c.len() && 0 <= j < s.len() implies c[i] != s[j].0 by {
            assert(from_completed(pinned, done, c[i]) && from_pending(pinned, done, s[j]));
            let k = choose|k: int|
                0 <= k < pinned.len() && (#[trigger] pinned[k]).0 == c[i] && pinned[k].1 <= done;
            let m = choose|m: int|
                0 <= m < pinned.len() && #[trigger] pinned[m] == s[j] && pinned[m].1 > done;
            assert(k != m);
            if k < m {
                assert(pinned[k].0 != pinned[m].0);
            } else {
                assert(pinned[m].0 != pinned[k].0);
            }
        }
    }
}

proof fn lemma_drain(state: RegionState, done: u64)
    requires
        state.consistent(),
    ensures
        state.after_drain(done).consistent(),
        forall|other: u32| #[trigger]
            state.handed_out(other) ==> state.after_drain(done).handed_out(other),
{
    let after = state.after_drain(done);
    lemma_split(state.pinned, done);
    let c = completed(state.pinned, done);
    let n = state.free.len();
    assert forall|i: int| 0 <= i < after.free.len() implies after.is_region(
        #[trigger] after.free[i],
    ) by {
        if i < n {
            assert(state.is_region(state.free[i]));
        } else {
            assert(after.free[i] == c[i - n]);
            assert(from_completed(state.pinned, done, c[i - n]));
            let k = choose|k: int|
                0 <= k < state.pinned.len() && (#[trigger] state.pinned[k]).0 == c[i - n]
                    && state.pinned[k].1 <= done;
            assert(state.is_region(state.pinned[k].0));
        }
    }
    assert forall|i: int, j: int|
        0 <= i < after.free.len() && 0 <= j < after.free.len() && i != j implies after.free[i]
        != after.free[j] by {
        let (a, b) = if i < j {
            (i, j)
        } else {
            (j, i)
        };
        if b >= n {
            assert(from_completed(state.pinned, done, c[b - n]));
            let k = choose|k: int|
                0 <= k < state.pinned.len() && (#[trigger] state.pinned[k]).0 == c[b - n]
                    && state.pinned[k].1 <= done;
            if a < n {
                assert(state.free[a] != state.pinned[k].0);
            } else {
                assert(c[a - n] != c[b - n]);
            }
        } else {
            assert(state.free[a] != state.free[b]);
        }
    }
    assert forall|i: int| 0 <= i < after.pinned.len() implies after.is_region(
        (#[trigger] after.pinned[i]).0,
    ) by {
        assert(from_pending(state.pinned, done, after.pinned[i]));
        let k = choose|k: int|
            0 <= k < state.pinned.len() && #[trigger] state.pinned[k] == after.pinned[i]
                && state.pinned[k].1 > done;
        assert(state.is_region(state.pinned[k].0));
    }
    assert forall|i: int, j: int|
        #![trigger after.free[i], after.pinned[j]]
        0 <= i < after.free.len() && 0 <= j < after.pinned.len() implies after.free[i]
        != after.pinned[j].0 by {
        assert(from_pending(state.pinned, done, after.pinned[j]));
        let m = choose|m: int|
            0 <= m < state.pinned.len() && #[trigger] state.pinned[m] == after.pinned[j]
                && state.pinned[m].1 > done;
        if i < n {
            assert(state.free[i] != state.pinned[m].0);
        } else {
            assert(c[i - n] != still_pinned(state.pinned, done)[j].0);
        }
    }
    assert forall|other: u32| #[trigger] state.handed_out(other) implies after.handed_out(
        other,
    ) by {
        if after.free.contains(other) {
            let i = choose|i: int| 0 <= i < after.free.len() && after.free[i] == other;
            if i < n {
                assert(state.free[i] == other);
            } else {
                assert(from_completed(state.pinned, done, c[i - n]));
                let k = choose|k: int|
                    0 <= k < state.pinned.len() && (#[trigger] state.pinned[k]).0 == c[i - n]
                        && state.pinned[k].1 <= done;
                assert(state.pinned[k].0 == other);
            }
        }
        if after.is_pinned(other) {
            let j = choose|j: int|
                0 <= j < after.pinned.len() && (#[trigger] after.pinned[j]).0 == other;
            assert(from_pending(state.pinned, done, after.pinned[j]));
            let m = choose|m: int|
                0 <= m < state.pinned.len() && #[trigger] state.pinned[m] == after.pinned[j]
                    && state.pinned[m].1 > done;
            assert(state.pinned[m].0 == other);
        }
    }
}

/// Two regions of one pool do not overlap, and each lies within the pool's extent.
pub proof fn law_regions_do_not_overlap(state: RegionState, a: u32, b: u32)
    requires
        state.consistent(),
        state.is_region(a),
        state.is_region(b),
        a != b,
    ensures
        ({
            let x = state.start_of(a as int);
            let y = state.start_of(b as int);
            &&& x + state.size <= y || y + state.size <= x
            &&& state.base <= x
            &&& x + state.size <= state.base + state.count * state.size
        }),
{
    let size = state.size as int;
    lemma_start_bound(state.base as int, size, state.count as int, a as int);
    if a < b {
        assert(a * size + size <= b * size) by (nonlinear_arith)
            requires
                a + 1 <= b,
                size >= 0,
        ;
    } else {
        assert(b * size + size <= a * size) by (nonlinear_arith)
            requires
                b + 1 <= a,
                size >= 0,
        ;
    }
}

/// A drain gives back exactly the regions whose work is done: a pinned region whose serial is no more
/// than the completed one can be handed out again, any other stays pinned under its serial, and what
/// was free stays free.
pub proof fn law_drain_frees_what_is_done(state: RegionState, done: u64, at: u32, serial: u64)
    requires
        state.consistent(),
    ensures
        ({
            let after = state.after_drain(done);
            &&& state.pinned.contains((at, serial)) && serial <= done ==> after.free.contains(at)
                && !after.is_pinned(at)
            &&& after.pinned.contains((at, serial)) <==> state.pinned.contains((at, serial))
                && serial > done
            &&& state.free.contains(at) ==> after.free.contains(at)
            &&& after.free.contains(at) ==> state.free.contains(at) || exists|s: u64|
                s <= done && #[trigger] state.pinned.contains((at, s))
            &&& after.handed_out(at) <==> state.handed_out(at)
            &&& after.base == state.base
            &&& after.size == state.size
            &&& after.count == state.count
        }),
{
    let after = state.after_drain(done);
    let back = completed(state.pinned, done);
    lemma_completed_at(state.pinned, done, at);
    lemma_still_pinned_at(state.pinned, done, (at, serial));
    assert forall|x: u32| after.free.contains(x) <==> state.free.contains(x) || back.contains(x) by {
        if state.free.contains(x) {
            let i = choose|i: int| 0 <= i < state.free.len() && state.free[i] == x;
            assert(after.free[i] == x);
        }
        if back.contains(x) {
            let i = choose|i: int| 0 <= i < back.len() && back[i] == x;
            assert(after.free[i + state.free.len()] == x);
        }
        if after.free.contains(x) {
            let i = choose|i: int| 0 <= i < after.free.len() && after.free[i] == x;
            if i < state.free.len() {
                assert(state.free[i] == x);
            } else {
                assert(back[i - state.free.len()] == x);
            }
        }
    }
    if back.contains(at) {
        let k = choose|k: int|
            0 <= k < state.pinned.len() && (#[trigger] state.pinned[k]).0 == at
                && state.pinned[k].1 <= done;
        assert(state.pinned.contains((at, state.pinned[k].1)));
    }
    if after.is_pinned(at) {
        let i = choose|i: int| 0 <= i < after.pinned.len() && (#[trigger] after.pinned[i]).0 == at;
        let s = after.pinned[i].1;
        lemma_still_pinned_at(state.pinned, done, (at, s));
        assert(after.pinned.contains((at, s)));
        let k = choose|k: int| 0 <= k < state.pinned.len() && state.pinned[k] == (at, s);
        assert(state.pinned[k].0 == at);
        if state.pinned.contains((at, serial)) && serial <= done {
            let l = choose|l: int| 0 <= l < state.pinned.len() && state.pinned[l] == (at, serial);
            assert(state.pinned[l].0 == at);
            if k < l {
                assert(state.pinned[k].0 != state.pinned[l].0);
            } else if l < k {
                assert(state.pinned[l].0 != state.pinned[k].0);
            }
        }
    }
    if state.pinned.contains((at, serial)) && serial <= done {
        let l = choose|l: int| 0 <= l < state.pinned.len() && state.pinned[l] == (at, serial);
        assert(state.pinned[l].0 == at && state.pinned[l].1 <= done);
    }
    if state.is_pinned(at) {
        let k = choose|k: int| 0 <= k < state.pinned.len() && (#[trigger] state.pinned[k]).0 == at;
        let s = state.pinned[k].1;
        lemma_still_pinned_at(state.pinned, done, (at, s));
        if s > done {
            assert(state.pinned.contains((at, s)));
            let i = choose|i: int| 0 <= i < after.pinned.len() && after.pinned[i] == (at, s);
            assert(after.pinned[i].0 == at);
        } else {
            assert(back.contains(at));
        }
    }
}

proof fn lemma_completed_at(pinned: Seq<(u32, u64)>, done: u64, at: u32)
    ensures
        completed(pinned, done).contains(at) <==> exists|k: int|
            0 <= k < pinned.len() && (#[trigger] pinned[k]).0 == at && pinned[k].1 <= done,
    decreases pinned.len(),
{
    if pinned.len() > 0 {
        let front = pinned.drop_last();
        lemma_completed_at(front, done, at);
        let some = completed(front, done);
        let all = completed(pinned, done);
        if some.contains(at) {
            let i = choose|i: int| 0 <= i < some.len() && some[i] == at;
            assert(all[i] == at);
            let k = choose|k: int|
                0 <= k < front.len() && (#[trigger] front[k]).0 == at && front[k].1 <= done;
            assert(pinned[k] == front[k]);
        }
        if all.contains(at) && !some.contains(at) {
            let i = choose|i: int| 0 <= i < all.len() && all[i] == at;
            if i < some.len() {
                assert(some[i] == at);
            }
            assert(pinned[pinned.len() - 1].0 == at);
        }
        if exists|k: int|
            0 <= k < pinned.len() && (#[trigger] pinned[k]).0 == at && pinned[k].1 <= done {
            let k = choose|k: int|
                0 <= k < pinned.len() && (#[trigger] pinned[k]).0 == at && pinned[k].1 <= done;
            if k < front.len() {
                assert(front[k] == pinned[k]);
            } else {
                assert(all[all.len() - 1] == at);
            }
        }
    }
}

proof fn lemma_still_pinned_at(pinned: Seq<(u32, u64)>, done: u64, entry: (u32, u64))
    ensures
        still_pinned(pinned, done).contains(entry) <==> pinned.contains(entry) && entry.1 > done,
    decreases pinned.len(),
{
    if pinned.len() > 0 {
        let front = pinned.drop_last();
        lemma_still_pinned_at(front, done, entry);
        let some = still_pinned(front, done);
        let all = still_pinned(pinned, done);
        if some.contains(entry) {
            let i = choose|i: int| 0 <= i < some.len() && some[i] == entry;
            assert(all[i] == entry);
            let k = choose|k: int| 0 <= k < front.len() && front[k] == entry;
            assert(pinned[k] == entry);
        }
        if all.contains(entry) && !some.contains(entry) {
            let i = choose|i: int| 0 <= i < all.len() && all[i] == entry;
            if i < some.len() {
                assert(some[i] == entry);
            }
            assert(pinned[pinned.len() - 1] == entry);
        }
        if pinned.contains(entry) && entry.1 > done {
            let k = choose|k: int| 0 <= k < pinned.len() && pinned[k] == entry;
            if k < front.len() {
                assert(front[k] == entry);
            } else {
                assert(all[all.len() - 1] == entry);
            }
        }
    }
}

/// A region that is taken is the one given back last, and one that is pinned cannot be taken before
/// its work is done.
pub proof fn law_taken_region_leaves_the_free_ones(state: RegionState, at: u32, serial: u64)
    requires
        state.consistent(),
        state.free.len() > 0,
    ensures
        ({
            let taken = state.free[state.free.len() - 1];
            let after = state.after_take();
            &&& after.free.contains(at) <==> state.free.contains(at) && at != taken
            &&& after.pinned == state.pinned
            &&& state.after_pin(at, serial).free == state.free
            &&& state.after_pin(at, serial).pinned.contains((at, serial))
            &&& state.after_pin(at, serial).pinned.take(state.pinned.len() as int) == state.pinned
        }),
{
    let n = state.free.len() - 1;
    let taken = state.free[n];
    let after = state.after_take();
    if after.free.contains(at) {
        let i = choose|i: int| 0 <= i < after.free.len() && after.free[i] == at;
        assert(state.free[i] == at);
        assert(state.free[i] != state.free[n]);
    }
    if state.free.contains(at) && at != taken {
        let i = choose|i: int| 0 <= i < state.free.len() && state.free[i] == at;
        assert(after.free[i] == at);
    }
    let pinned = state.after_pin(at, serial).pinned;
    assert(pinned[state.pinned.len() as int] == (at, serial));
    assert(pinned.take(state.pinned.len() as int) =~= state.pinned);
}

/// Regions come back, and stay pinned, in the order in which they were pinned.
pub proof fn law_drain_keeps_the_order(a: Seq<(u32, u64)>, b: Seq<(u32, u64)>, done: u64)
    ensures
        completed(a + b, done) == completed(a, done) + completed(b, done),
        still_pinned(a + b, done) == still_pinned(a, done) + still_pinned(b, done),
        a.len() == 1 ==> completed(a, done) == if a[0].1 <= done {
            seq![a[0].0]
        } else {
            seq![]
        },
        a.len() == 1 ==> still_pinned(a, done) == if a[0].1 <= done {
            seq![]
        } else {
            a
        },
    decreases b.len(),
{
    reveal_with_fuel(completed, 2);
    reveal_with_fuel(still_pinned, 2);
    if b.len() > 0 {
        law_drain_keeps_the_order(a, b.drop_last(), done);
        assert((a + b).drop_last() =~= a + b.drop_last());
    } else {
        assert(a + b =~= a);
    }
    assert(completed(a + b, done) =~= completed(a, done) + completed(b, done));
    assert(still_pinned(a + b, done) =~= still_pinned(a, done) + still_pinned(b, done));
    if a.len() == 1 {
        assert(still_pinned(a, done) =~= if a[0].1 <= done {
            seq![]
        } else {
            a
        });
        assert(completed(a, done) =~= if a[0].1 <= done {
            seq![a[0].0]
        } else {
            seq![]
        });
    }
}

} // verus!
