//! Row dirty bitmask: one bit per row, packed in 64-bit words.
use vstd::prelude::*;

verus! {

/// Bit `b` of `word`.
pub open spec fn bit(word: u64, b: u64) -> bool {
    (word >> b) & 1u64 == 1u64
}

/// Words needed for `capacity` bits.
pub open spec fn words_for(capacity: int) -> int {
    (capacity + 63) / 64
}

/// `rows` lists the marked rows in ascending order, each once.
pub open spec fn lists_marked(rows: Seq<u32>, marks: Seq<bool>) -> bool {
    &&& forall|i: int, j: int|
        #![trigger rows[i], rows[j]]
        0 <= i < j < rows.len() ==> rows[i] < rows[j]
    &&& forall|i: int| 0 <= i < rows.len() ==> (#[trigger] rows[i]) < marks.len() && marks[rows[i] as int]
    &&& forall|r: int| 0 <= r < marks.len() && #[trigger] marks[r] ==> rows.contains(r as u32)
}

/// One dirty bit per row.
pub struct DirtyMask {
    words: Vec<u64>,
    capacity: u32,
}

impl View for DirtyMask {
    type V = Seq<bool>;

    /// Whether each row is marked.
    closed spec fn view(&self) -> Seq<bool> {
        Seq::new(self.capacity as nat, |r: int| bit(self.words@[r / 64], (r % 64) as u64))
    }
}

impl DirtyMask {
    /// The words cover the capacity and hold no mark beyond it.
    pub closed spec fn wf(&self) -> bool {
        &&& self.words@.len() == words_for(self.capacity as int)
        &&& forall|w: int, b: u64|
            0 <= w < self.words@.len() && b < 64 && #[trigger] bit(self.words@[w], b) ==> w * 64 + b
                < self.capacity
    }

    /// A mask of `capacity` unmarked rows.
    pub fn new(capacity: u32) -> (mask: Self)
        ensures
            mask.wf(),
            mask@ == Seq::new(capacity as nat, |r: int| false),
    {
        let count: u32 = if capacity % 64 == 0 {
            capacity / 64
        } else {
            capacity / 64 + 1
        };
        let mut words: Vec<u64> = Vec::new();
        let mut i: u32 = 0;
        while i < count
            invariant
                i <= count,
                words@.len() == i,
                forall|w: int| 0 <= w < i ==> words@[w] == 0u64,
            decreases count - i,
        {
            words.push(0);
            i = i + 1;
        }
        let mask = DirtyMask { words, capacity };
        proof {
            lemma_zero_word();
            assert(mask@ =~= Seq::new(capacity as nat, |r: int| false));
        }
        mask
    }

    /// Marks `row`.
    pub fn mark(&mut self, row: u32)
        requires
            old(self).wf(),
            row < old(self)@.len(),
        ensures
            final(self).wf(),
            final(self)@ == old(self)@.update(row as int, true),
    {
        let w: usize = (row / 64) as usize;
        let b: u64 = (row % 64) as u64;
        let before: u64 = self.words[w];
        let after: u64 = before | (1u64 << b);
        self.words.set(w, after);
        proof {
            assert forall|k: u64| k < 64 implies #[trigger] bit(after, k) == (k == b || bit(
                before,
                k,
            )) by {
                assert(b < 64 && k < 64 ==> (((before | (1u64 << b)) >> k) & 1u64 == 1u64) == (k
                    == b || (before >> k) & 1u64 == 1u64)) by (bit_vector);
            }
            assert forall|v: int, k: u64|
                0 <= v < self.words@.len() && k < 64 && #[trigger] bit(
                    self.words@[v],
                    k,
                ) implies v * 64 + k < self.capacity by {
                if v == w as int && k != b {
                    assert(bit(old(self).words@[v], k));
                } else if v != w as int {
                    assert(bit(old(self).words@[v], k));
                }
            }
            assert(self@ =~= old(self)@.update(row as int, true));
        }
    }

    /// Whether `row` is marked. Rows of the last word beyond the capacity never are.
    pub fn is_marked(&self, row: u32) -> (marked: bool)
        requires
            self.wf(),
            row / 64 < words_for(self@.len() as int),
        ensures
            marked == (row < self@.len() && self@[row as int]),
    {
        let w: usize = (row / 64) as usize;
        let b: u64 = (row % 64) as u64;
        let word: u64 = self.words[w];
        assert((word & (1u64 << b) != 0) == ((word >> b) & 1u64 == 1u64)) by (bit_vector)
            requires
                b < 64,
        ;
        proof {
            if row >= self@.len() {
                assert(!bit(self.words@[w as int], b));
            }
        }
        word & (1u64 << b) != 0
    }

    /// Marks rows `0..rows`.
    pub fn mark_range(&mut self, rows: u32)
        requires
            old(self).wf(),
            rows <= old(self)@.len(),
        ensures
            final(self).wf(),
            final(self)@ == Seq::new(old(self)@.len(), |r: int| r < rows || old(self)@[r]),
    {
        let mut row: u32 = 0;
        while row < rows
            invariant
                self.wf(),
                row <= rows <= old(self)@.len(),
                self@ == Seq::new(old(self)@.len(), |r: int| r < row || old(self)@[r]),
            decreases rows - row,
        {
            self.mark(row);
            row = row + 1;
            assert(self@ =~= Seq::new(old(self)@.len(), |r: int| r < row || old(self)@[r]));
        }
        assert(self@ =~= Seq::new(old(self)@.len(), |r: int| r < rows || old(self)@[r]));
    }

    /// Unmarks every row.
    pub fn clear_all(&mut self)
        requires
            old(self).wf(),
        ensures
            final(self).wf(),
            final(self)@ == Seq::new(old(self)@.len(), |r: int| false),
    {
        let mut i: usize = 0;
        while i < self.words.len()
            invariant
                i <= self.words@.len(),
                self.words@.len() == old(self).words@.len(),
                self.capacity == old(self).capacity,
                forall|w: int| 0 <= w < i ==> self.words@[w] == 0u64,
            decreases self.words@.len() - i,
        {
            self.words.set(i, 0);
            i = i + 1;
        }
        proof {
            lemma_zero_word();
            assert(self@ =~= Seq::new(old(self)@.len(), |r: int| false));
        }
    }

    /// The number of rows.
    pub fn capacity(&self) -> (capacity: u32)
        ensures
            capacity == self@.len(),
    {
        self.capacity
    }

    /// The marked rows in ascending order. All-zero words are skipped whole.
    pub fn for_each_marked(&self) -> (rows: Vec<u32>)
        requires
            self.wf(),
        ensures
            lists_marked(rows@, self@),
    {
        let mut rows: Vec<u32> = Vec::new();
        let mut w: usize = 0;
        while w < self.words.len()
            invariant
                self.wf(),
                w <= self.words@.len(),
                forall|i: int, j: int|
                    #![trigger rows@[i], rows@[j]]
                    0 <= i < j < rows@.len() ==> rows@[i] < rows@[j],
                forall|i: int|
                    0 <= i < rows@.len() ==> (#[trigger] rows@[i]) < w * 64 && rows@[i]
                        < self@.len() && self@[rows@[i] as int],
                forall|r: int|
                    0 <= r < self@.len() && r < w * 64 && #[trigger] self@[r] ==> rows@.contains(
                        r as u32,
                    ),
            decreases self.words@.len() - w,
        {
            let word: u64 = self.words[w];
            let base: u32 = (w as u32) * 64;
            let mut remaining: u64 = word;
            while remaining != 0
                invariant
                    self.wf(),
                    w < self.words@.len(),
                    word == self.words@[w as int],
                    base == w * 64,
                    forall|i: int, j: int|
                        #![trigger rows@[i], rows@[j]]
                        0 <= i < j < rows@.len() ==> rows@[i] < rows@[j],
                    forall|i: int|
                        0 <= i < rows@.len() ==> (#[trigger] rows@[i]) < (w + 1) * 64 && rows@[i]
                            < self@.len() && self@[rows@[i] as int],
                    forall|r: int|
                        0 <= r < self@.len() && r < w * 64 && #[trigger] self@[r]
                            ==> rows@.contains(r as u32),
                    forall|b: u64|
                        b < 64 && #[trigger] bit(word, b) ==> bit(remaining, b) || rows@.contains(
                            (base + b) as u32,
                        ),
                    forall|b: u64| b < 64 && #[trigger] bit(remaining, b) ==> bit(word, b),
                    forall|b: u64, i: int|
                        #![trigger bit(remaining, b), rows@[i]]
                        b < 64 && bit(remaining, b) && 0 <= i < rows@.len() ==> rows@[i] < base + b,
                decreases remaining,
            {
                let lowest: u32 = remaining.trailing_zeros();
                let ghost left = remaining;
                let ghost lb = lowest as u64;
                let ghost prior = rows@;
                proof {
                    vstd::std_specs::bits::axiom_u64_trailing_zeros(remaining);
                    assert(bit(remaining, lb));
                    assert(bit(word, lb));
                    assert(w * 64 + lb < self.capacity);
                    assert((w * 64 + lb) / 64 == w && (w * 64 + lb) % 64 == lb) by (nonlinear_arith)
                        requires
                            lb < 64,
                            w >= 0,
                    ;
                    assert(self@[(w * 64 + lb) as int]);
                }
                rows.push(base + lowest);
                remaining = remaining & (remaining - 1);
                proof {
                    assert(remaining < left) by {
                        assert(left > 0 ==> left & ((left - 1) as u64) < left) by (bit_vector);
                    }
                    assert forall|b: u64| b < 64 implies #[trigger] bit(remaining, b) == (bit(
                        left,
                        b,
                    ) && b != lb) by {
                        assert(left << ((64 - lb) as u64) == 0);
                        assert(((left & ((left - 1) as u64)) >> b) & 1u64 == 1u64 <==> ((left >> b)
                            & 1u64 == 1u64 && b != lb)) by (bit_vector)
                            requires
                                lb < 64,
                                b < 64,
                                left > 0,
                                (left >> lb) & 1u64 == 1u64,
                                left << ((64 - lb) as u64) == 0,
                        ;
                    }
                    assert forall|b: u64|
                        b < 64 && #[trigger] bit(remaining, b) implies b > lb by {
                        assert(bit(left, b));
                        if b < lb {
                            assert((left >> b) & 1u64 == 0u64);
                        }
                    }
                    assert forall|x: u32| prior.contains(x) implies #[trigger] rows@.contains(
                        x,
                    ) by {
                        let i = choose|i: int| 0 <= i < prior.len() && prior[i] == x;
                        assert(rows@[i] == x);
                    }
                    assert(rows@[prior.len() as int] == (base + lb) as u32);
                    assert forall|b: u64| b < 64 && #[trigger] bit(word, b) implies bit(
                        remaining,
                        b,
                    ) || rows@.contains((base + b) as u32) by {
                        if b != lb && !bit(left, b) {
                            assert(prior.contains((base + b) as u32));
                        }
                    }
                    assert forall|r: int|
                        0 <= r < self@.len() && r < w * 64 && #[trigger] self@[r] implies rows@.contains(
                        r as u32,
                    ) by {
                        assert(prior.contains(r as u32));
                    }
                }
            }
            proof {
                lemma_zero_word();
                assert forall|r: int|
                    0 <= r < self@.len() && r < (w + 1) * 64 && #[trigger] self@[r] implies rows@.contains(
                    r as u32,
                ) by {
                    if r >= w * 64 {
                        let b = (r - w * 64) as u64;
                        assert(r / 64 == w && r % 64 == b);
                        assert(bit(word, b));
                        assert(!bit(remaining, b));
                    }
                }
            }
            w = w + 1;
        }
        rows
    }
}

proof fn lemma_zero_word()
    ensures
        forall|b: u64| b < 64 ==> !#[trigger] bit(0u64, b),
{
    assert forall|b: u64| b < 64 implies !#[trigger] bit(0u64, b) by {
        assert((0u64 >> b) & 1u64 == 0u64) by (bit_vector);
    }
}

/// The listing of marked rows is determined by the marks.
pub proof fn law_marked_listing_is_unique(a: Seq<u32>, b: Seq<u32>, marks: Seq<bool>)
    requires
        lists_marked(a, marks),
        lists_marked(b, marks),
        marks.len() <= u32::MAX,
    ensures
        a == b,
{
    lemma_sorted_prefix(a, b, marks, a.len() as int);
    lemma_sorted_prefix(b, a, marks, b.len() as int);
    assert(a =~= b);
}

proof fn lemma_sorted_prefix(a: Seq<u32>, b: Seq<u32>, marks: Seq<bool>, n: int)
    requires
        lists_marked(a, marks),
        lists_marked(b, marks),
        marks.len() <= u32::MAX,
        0 <= n <= a.len(),
    ensures
        n <= b.len(),
        forall|i: int| 0 <= i < n ==> a[i] == b[i],
    decreases n,
{
    if n > 0 {
        lemma_sorted_prefix(a, b, marks, n - 1);
        let x = a[n - 1];
        assert(marks[x as int]);
        assert(b.contains(x));
        let j = choose|j: int| 0 <= j < b.len() && b[j] == x;
        if j < n - 1 {
            assert(a[j] == b[j]);
            assert(a[j] < a[n - 1]);
        }
        if j > n - 1 {
            let y = b[n - 1];
            assert(y < x);
            assert(marks[y as int]);
            assert(a.contains(y));
            let k = choose|k: int| 0 <= k < a.len() && a[k] == y;
            if k < n - 1 {
                assert(b[k] == a[k]);
                assert(b[k] < b[n - 1]);
            } else if k > n - 1 {
                assert(a[n - 1] < a[k]);
            }
        }
    }
}

/// A listing of the marked rows names a row if and only if it is marked, and goes up.
pub proof fn law_listing_names_the_marked_rows(rows: Seq<u32>, marks: Seq<bool>, r: u32, i: int)
    requires
        lists_marked(rows, marks),
        marks.len() <= u32::MAX,
    ensures
        rows.contains(r) <==> r < marks.len() && marks[r as int],
        0 < i < rows.len() ==> rows[i - 1] < rows[i],
{
    if rows.contains(r) {
        let k = choose|k: int| 0 <= k < rows.len() && rows[k] == r;
        assert(rows[k] < marks.len() && marks[rows[k] as int]);
    }
    if r < marks.len() && marks[r as int] {
        assert(rows.contains((r as int) as u32));
    }
}

} // verus!
