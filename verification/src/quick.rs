use vstd::prelude::*;
use crate::sorter::{Sorter, swapped, sorted, swap_elems, steps, lemma_sorted_from};
use crate::inversions::{inversions, lemma_swap_removes_inversion};

verus! {

/// Quicksort with Lomuto partitioning and an explicit stack of ranges still
/// to sort: each step is one comparison of the partition under way, or the
/// step that puts its pivot in place.
pub struct QuickSorter {
    stack: Vec<(usize, usize)>,
    lo: usize,
    hi: usize,
    i: usize,
    j: usize,
    active: bool,
}

/// The state of a quicksorter.
pub struct QuickState {
    /// Ranges `[lo, hi]` still to sort; the last one is taken up next.
    pub stack: Seq<(usize, usize)>,
    /// First position of the range being partitioned.
    pub lo: usize,
    /// Last position of the range being partitioned: its pivot.
    pub hi: usize,
    /// Where the next element no larger than the pivot goes.
    pub i: usize,
    /// The element compared next.
    pub j: usize,
    /// A partition is under way.
    pub active: bool,
}

/// `ranges` without the ranges of fewer than two positions at its end.
pub open spec fn drop_trivial(ranges: Seq<(usize, usize)>) -> Seq<(usize, usize)>
    decreases ranges.len(),
{
    if ranges.len() == 0 {
        ranges
    } else if ranges.last().0 >= ranges.last().1 {
        drop_trivial(ranges.drop_last())
    } else {
        ranges
    }
}

/// Bound on the steps that sorting a range of `m` positions takes:
/// `m + (m - 1) + ... + 2`.
pub open spec fn range_cost(m: nat) -> nat
    decreases m,
{
    if m <= 1 {
        0
    } else {
        m + range_cost((m - 1) as nat)
    }
}

/// Number of positions of the range `[r.0, r.1]`.
pub open spec fn range_len(r: (usize, usize)) -> nat {
    if r.0 <= r.1 {
        (r.1 - r.0 + 1) as nat
    } else {
        0
    }
}

/// Bound on the steps that sorting all of `ranges` takes.
pub open spec fn ranges_cost(ranges: Seq<(usize, usize)>) -> nat
    decreases ranges.len(),
{
    if ranges.len() == 0 {
        0
    } else {
        ranges_cost(ranges.drop_last()) + range_cost(range_len(ranges.last()))
    }
}

/// `range_cost(m)` is `m (m + 1) / 2 - 1` for a non-empty range.
pub proof fn lemma_range_cost_exact(m: nat)
    requires
        m >= 1,
    ensures
        2 * range_cost(m) + 2 == m * (m + 1),
    decreases m,
{
    if m > 1 {
        lemma_range_cost_exact((m - 1) as nat);
        assert(2 * m + (m - 1) * m == m * (m + 1)) by (nonlinear_arith);
    } else {
        assert(m * (m + 1) == 2) by (nonlinear_arith) requires m == 1;
    }
}

/// Sorting the two parts of a range costs no more than sorting their union.
proof fn lemma_range_cost_split(a: nat, b: nat)
    ensures
        range_cost(a) + range_cost(b) <= range_cost(a + b),
    decreases b,
{
    if b >= 1 {
        lemma_range_cost_split(a, (b - 1) as nat);
        assert(a + b - 1 == a + (b - 1) as nat);
    }
}

/// Ranges of fewer than two positions cost nothing.
proof fn lemma_drop_trivial_cost(ranges: Seq<(usize, usize)>)
    ensures
        ranges_cost(drop_trivial(ranges)) == ranges_cost(ranges),
        drop_trivial(ranges).len() <= ranges.len(),
        drop_trivial(ranges).len() > 0 ==> drop_trivial(ranges).last().0 < drop_trivial(ranges).last().1,
        forall|k: int| 0 <= k < drop_trivial(ranges).len() ==> #[trigger] drop_trivial(ranges)[k] == ranges[k],
        forall|k: int| drop_trivial(ranges).len() <= k < ranges.len() ==> #[trigger] ranges[k].0 >= ranges[k].1,
    decreases ranges.len(),
{
    if ranges.len() > 0 && ranges.last().0 >= ranges.last().1 {
        lemma_drop_trivial_cost(ranges.drop_last());
        assert forall|k: int| drop_trivial(ranges).len() <= k < ranges.len() implies #[trigger] ranges[k].0 >= ranges[k].1 by {
            if k < ranges.len() - 1 {
                assert(ranges.drop_last()[k] == ranges[k]);
            }
        }
    }
}

/// Positions `a` and `b` lie in one range that is still to be sorted.
pub open spec fn together(s: QuickState, a: int, b: int) -> bool {
    ||| exists|k: int| 0 <= k < s.stack.len() && #[trigger] s.stack[k].0 <= a && b <= s.stack[k].1
    ||| s.active && s.lo <= a && b <= s.hi
}

/// One step of the partition under way.
pub open spec fn partition_step(s: QuickState, data: Seq<u8>) -> (QuickState, Seq<u8>) {
    if s.j < s.hi {
        if data[s.j as int] <= data[s.hi as int] {
            (QuickState { i: (s.i + 1) as usize, j: (s.j + 1) as usize, ..s }, swapped(data, s.i as int, s.j as int))
        } else {
            (QuickState { j: (s.j + 1) as usize, ..s }, data)
        }
    } else {
        let p = s.i;
        let left = if p > s.lo { s.stack.push((s.lo, (p - 1) as usize)) } else { s.stack };
        let both = if p < s.hi { left.push(((p + 1) as usize, s.hi)) } else { left };
        (QuickState { stack: both, active: false, ..s }, swapped(data, s.i as int, s.hi as int))
    }
}

/// One step of the partition under way keeps the order and brings the
/// sorter closer to its end.
proof fn lemma_partition_step(s: QuickState, data: Seq<u8>)
    requires
        s.active,
        QuickSorter::keeps_order(s, data),
    ensures
        QuickSorter::keeps_order(partition_step(s, data).0, partition_step(s, data).1),
        partition_step(s, data).1.len() == data.len(),
        QuickSorter::remaining(partition_step(s, data).0, data.len()) < QuickSorter::remaining(s, data.len()),
{
    lemma_partition_apart(s, data);
    if s.j < s.hi {
        lemma_partition_compare(s, data);
    } else {
        lemma_partition_finish(s, data);
    }
}

/// No range still to sort holds a position of the range being partitioned
/// together with one outside it.
proof fn lemma_partition_apart(s: QuickState, data: Seq<u8>)
    requires
        s.active,
        QuickSorter::keeps_order(s, data),
    ensures
        forall|a: int, b: int| 0 <= a < b < data.len() && s.lo <= a <= s.hi && s.hi < b ==> !together(s, a, b),
        forall|a: int, b: int| 0 <= a < b < data.len() && a < s.lo && s.lo <= b <= s.hi ==> !together(s, a, b),
{
    let n = data.len() as int;
    let lo = s.lo as int;
    let hi = s.hi as int;
    assert forall|a: int, b: int| 0 <= a < b < n && lo <= a <= hi && hi < b implies !together(s, a, b) by {
        if exists|k: int| 0 <= k < s.stack.len() && #[trigger] s.stack[k].0 <= a && b <= s.stack[k].1 {
            let k = choose|k: int| 0 <= k < s.stack.len() && #[trigger] s.stack[k].0 <= a && b <= s.stack[k].1;
            assert(s.stack[k].1 < lo);
        }
    }
    assert forall|a: int, b: int| 0 <= a < b < n && a < lo && lo <= b <= hi implies !together(s, a, b) by {
        if exists|k: int| 0 <= k < s.stack.len() && #[trigger] s.stack[k].0 <= a && b <= s.stack[k].1 {
            let k = choose|k: int| 0 <= k < s.stack.len() && #[trigger] s.stack[k].0 <= a && b <= s.stack[k].1;
            assert(s.stack[k].1 < lo);
        }
    }
}

/// A comparison step of the partition.
#[verifier::rlimit(30)]
proof fn lemma_partition_compare(s: QuickState, data: Seq<u8>)
    requires
        s.active,
        s.j < s.hi,
        QuickSorter::keeps_order(s, data),
        forall|a: int, b: int| 0 <= a < b < data.len() && s.lo <= a <= s.hi && s.hi < b ==> !together(s, a, b),
        forall|a: int, b: int| 0 <= a < b < data.len() && a < s.lo && s.lo <= b <= s.hi ==> !together(s, a, b),
    ensures
        QuickSorter::keeps_order(partition_step(s, data).0, partition_step(s, data).1),
        partition_step(s, data).1.len() == data.len(),
        QuickSorter::remaining(partition_step(s, data).0, data.len()) < QuickSorter::remaining(s, data.len()),
{
    let n = data.len() as int;
    let lo = s.lo as int;
    let hi = s.hi as int;
    let i = s.i as int;
    let j = s.j as int;
    let pivot = data[hi];
    let (s1, d1) = partition_step(s, data);
    assert(s1.stack == s.stack && s1.lo == s.lo && s1.hi == s.hi && s1.active == s.active);
    assert forall|a: int, b: int| #[trigger] together(s1, a, b) == together(s, a, b) by {}
    if data[j] <= pivot {
        assert forall|a: int, b: int| 0 <= a < b < n && !together(s1, a, b) implies #[trigger] d1[a] <= #[trigger] d1[b] by {
            assert(!together(s, a, b));
            if a == i || a == j {
                assert(!together(s, i, b));
                assert(!together(s, j, b));
                assert(data[i] <= data[b]);
                assert(data[j] <= data[b]);
            } else if b == i || b == j {
                assert(!together(s, a, i));
                assert(!together(s, a, j));
                assert(data[a] <= data[i]);
                assert(data[a] <= data[j]);
            } else {
                assert(data[a] <= data[b]);
            }
        }
        assert forall|k: int| lo <= k < i + 1 implies #[trigger] d1[k] <= d1[hi] by {
            if k < i {
                assert(data[k] <= pivot);
            }
        }
        assert forall|k: int| i + 1 <= k < j + 1 implies #[trigger] d1[k] > d1[hi] by {
            if k < j {
                assert(data[k] > pivot);
            } else if i < j {
                assert(data[i] > pivot);
            }
        }
        assert(QuickSorter::keeps_order(s1, d1));
    } else {
        assert forall|k: int| i <= k < j + 1 implies #[trigger] d1[k] > d1[hi] by {
            if k < j {
                assert(data[k] > pivot);
            }
        }
        assert(QuickSorter::keeps_order(s1, d1));
    }
}

/// The step that puts the pivot in place and ends the partition.
#[verifier::rlimit(60)]
proof fn lemma_partition_finish(s: QuickState, data: Seq<u8>)
    requires
        s.active,
        s.j >= s.hi,
        QuickSorter::keeps_order(s, data),
        forall|a: int, b: int| 0 <= a < b < data.len() && s.lo <= a <= s.hi && s.hi < b ==> !together(s, a, b),
        forall|a: int, b: int| 0 <= a < b < data.len() && a < s.lo && s.lo <= b <= s.hi ==> !together(s, a, b),
    ensures
        QuickSorter::keeps_order(partition_step(s, data).0, partition_step(s, data).1),
        partition_step(s, data).1.len() == data.len(),
        QuickSorter::remaining(partition_step(s, data).0, data.len()) < QuickSorter::remaining(s, data.len()),
{
    let n = data.len() as int;
    let lo = s.lo as int;
    let hi = s.hi as int;
    let i = s.i as int;
    let j = s.j as int;
    let pivot = data[hi];
    let (s1, d1) = partition_step(s, data);
    let p = i;
    let left = if p > lo { s.stack.push((s.lo, (p - 1) as usize)) } else { s.stack };
    assert(s1.stack == if p < hi { left.push(((p + 1) as usize, s.hi)) } else { left });
    assert forall|k: int| 0 <= k < s.stack.len() implies #[trigger] s1.stack[k] == s.stack[k] by {
        assert(left[k] == s.stack[k]);
    }
    // Ranges: valid and in increasing order.
    assert forall|k: int| 0 <= k < s1.stack.len() implies #[trigger] s1.stack[k].0 <= s1.stack[k].1 < n by {
        if k < s.stack.len() {
            assert(s1.stack[k] == s.stack[k]);
        }
    }
    assert forall|k1: int, k2: int| 0 <= k1 < k2 < s1.stack.len() implies #[trigger] s1.stack[k1].1 < #[trigger] s1.stack[k2].0 by {
        if k2 < s.stack.len() {
            assert(s1.stack[k1] == s.stack[k1]);
            assert(s1.stack[k2] == s.stack[k2]);
        } else if k1 < s.stack.len() {
            assert(s1.stack[k1] == s.stack[k1]);
            assert(s.stack[k1].1 < lo);
        }
    }
    // Where the elements of the partitioned range stand now.
    assert forall|k: int| lo <= k < p implies #[trigger] d1[k] <= pivot by {
        assert(data[k] <= pivot);
    }
    assert(d1[p] == pivot);
    assert forall|k: int| p < k <= hi implies #[trigger] d1[k] > pivot by {
        if k < hi {
            assert(data[k] > pivot);
        } else {
            assert(data[i] > pivot);
        }
    }
    // Every element of the partitioned range was in it before.
    assert forall|k: int| lo <= k <= hi implies exists|k0: int| lo <= k0 <= hi && #[trigger] d1[k] == #[trigger] data[k0] by {
        if k == i {
            assert(d1[k] == data[hi]);
        } else if k == hi {
            assert(d1[k] == data[i]);
        } else {
            assert(d1[k] == data[k]);
        }
    }
    assert forall|a: int, b: int| 0 <= a < b < n && !together(s1, a, b) implies #[trigger] d1[a] <= #[trigger] d1[b] by {
        let a_in = lo <= a <= hi;
        let b_in = lo <= b <= hi;
        if a_in && b_in {
            if a < p && b < p {
                let idx = s.stack.len() as int;
                assert(s1.stack[idx] == (s.lo, (p - 1) as usize));
                assert(s1.stack[idx].0 <= a && b <= s1.stack[idx].1);
                assert(together(s1, a, b));
            } else if a > p && b > p {
                let last = s1.stack.len() - 1;
                assert(s1.stack[last] == ((p + 1) as usize, s.hi));
                assert(s1.stack[last].0 <= a && b <= s1.stack[last].1);
                assert(together(s1, a, b));
            } else {
                assert(d1[a] <= pivot);
                assert(pivot <= d1[b]);
            }
        } else if a_in {
            let a0 = choose|k0: int| lo <= k0 <= hi && #[trigger] d1[a] == #[trigger] data[k0];
            assert(!together(s, a0, b));
            assert(data[a0] <= data[b]);
        } else if b_in {
            let b0 = choose|k0: int| lo <= k0 <= hi && #[trigger] d1[b] == #[trigger] data[k0];
            assert(!together(s, a, b0));
            assert(data[a] <= data[b0]);
        } else {
            if together(s, a, b) {
                let k = choose|k: int| 0 <= k < s.stack.len() && #[trigger] s.stack[k].0 <= a && b <= s.stack[k].1;
                assert(s1.stack[k] == s.stack[k]);
                assert(together(s1, a, b));
            }
            assert(data[a] <= data[b]);
        }
    }
    assert(QuickSorter::keeps_order(s1, d1));
    // Cost: the two parts cost no more than the range did.
    lemma_range_cost_split((p - lo) as nat, (hi - p) as nat);
    assert(((p - lo) as nat + (hi - p) as nat) == (hi - lo) as nat);
    if p > lo {
        assert(left.drop_last() == s.stack);
        assert(range_len((s.lo, (p - 1) as usize)) == (p - lo) as nat);
    }
    assert(ranges_cost(left) == ranges_cost(s.stack) + range_cost((p - lo) as nat));
    if p < hi {
        assert(s1.stack.drop_last() == left);
        assert(range_len(((p + 1) as usize, s.hi)) == (hi - p) as nat);
    }
    assert(ranges_cost(s1.stack) == ranges_cost(left) + range_cost((hi - p) as nat));
}

impl View for QuickSorter {
    type V = QuickState;

    closed spec fn view(&self) -> QuickState {
        QuickState {
            stack: self.stack@,
            lo: self.lo,
            hi: self.hi,
            i: self.i,
            j: self.j,
            active: self.active,
        }
    }
}

impl QuickSorter {
    /// A quicksorter for data of length `len`.
    pub fn new(len: usize) -> (s: Self)
        ensures
            s@ == Self::initial(len as nat),
            Self::fits(s@, len as nat),
    {
        let mut stack = Vec::new();
        if len > 1 {
            stack.push((0, len - 1));
        }
        QuickSorter { stack, lo: 0, hi: 0, i: 0, j: 0, active: false }
    }

    /// The state of a new quicksorter for data of length `len`.
    pub open spec fn initial(len: nat) -> QuickState {
        QuickState {
            stack: if len > 1 { seq![(0usize, (len - 1) as usize)] } else { Seq::empty() },
            lo: 0,
            hi: 0,
            i: 0,
            j: 0,
            active: false,
        }
    }
}

impl QuickSorter {
    /// One step leaves the data as it is, or exchanges one pair of elements.
    pub proof fn lemma_step_shape(s: QuickState, data: Seq<u8>)
        requires
            Self::fits(s, data.len()),
        ensures
            Self::next(s, data).1 == data || exists|a: int, b: int|
                #![trigger swapped(data, a, b)]
                0 <= a < data.len() && 0 <= b < data.len() && Self::next(s, data).1 == swapped(data, a, b),
    {
        if !s.active {
            lemma_drop_trivial_cost(s.stack);
            let rest = drop_trivial(s.stack);
            if rest.len() > 0 {
                assert(rest[rest.len() - 1] == s.stack[rest.len() - 1]);
            }
        }
    }

    /// While the sorter keeps its order, a step that changes the data leaves
    /// fewer pairs out of order: it exchanges an element larger than the
    /// pivot with a later one that is not.
    pub proof fn lemma_step_lowers_inversions(s: QuickState, data: Seq<u8>)
        requires
            Self::keeps_order(s, data),
        ensures
            Self::next(s, data).1 == data || inversions(Self::next(s, data).1) < inversions(data),
    {
        if s.active {
            let i = s.i as int;
            let j = s.j as int;
            let hi = s.hi as int;
            if j < hi {
                if data[j] <= data[hi] {
                    if i < j {
                        assert(data[i] > data[hi]);
                        lemma_swap_removes_inversion(data, i, j);
                    } else {
                        assert(swapped(data, i, j) =~= data);
                    }
                }
            } else if i < hi {
                assert(data[i] > data[hi]);
                lemma_swap_removes_inversion(data, i, hi);
            } else {
                assert(swapped(data, i, hi) =~= data);
            }
        } else {
            lemma_drop_trivial_cost(s.stack);
            let rest = drop_trivial(s.stack);
            if rest.len() > 0 {
                assert(rest[rest.len() - 1] == s.stack[rest.len() - 1]);
                let lo = rest.last().0 as int;
                assert(swapped(data, lo, lo) =~= data);
            }
        }
    }

    /// A quicksorter that keeps its order never disturbs sorted data.
    pub proof fn lemma_sorted_kept(s: QuickState, data: Seq<u8>)
        requires
            Self::keeps_order(s, data),
            sorted(data),
        ensures
            Self::next(s, data).1 == data,
    {
        let t = if s.active {
            s
        } else {
            let rest = drop_trivial(s.stack);
            lemma_drop_trivial_cost(s.stack);
            if rest.len() == 0 {
                s
            } else {
                let (lo, hi) = rest.last();
                QuickState { stack: rest.drop_last(), lo, hi, i: lo, j: lo, active: true }
            }
        };
        if t.active {
            let i = t.i as int;
            let j = t.j as int;
            let hi = t.hi as int;
            if i < j {
                assert(data[i] > data[hi]);
            } else if t.j == t.hi && i < hi {
                assert(data[i] > data[hi]);
            }
            assert(swapped(data, i, i) =~= data);
        }
    }

    /// From a sorter with no partition under way and only the whole data
    /// to sort, after `n (n + 1) / 2 - 1` steps or more on data of length
    /// `n`, the data is sorted.
    proof fn lemma_sorts_from(s: QuickState, data: Seq<u8>, k: nat)
        requires
            !s.active,
            s.stack == Self::initial(data.len()).stack,
            data.len() <= usize::MAX,
            2 * k + 2 >= data.len() * (data.len() + 1),
        ensures
            sorted(steps::<Self>(s, data, k).1),
    {
        let n = data.len();
        if n > 1 {
            assert(s.stack[0].0 == 0 && s.stack[0].1 == n - 1);
            assert forall|a: int, b: int| 0 <= a < b < n implies together(s, a, b) by {
                assert(s.stack[0].0 <= a && b <= s.stack[0].1);
            }
            lemma_range_cost_exact(n);
            assert(s.stack.drop_last() =~= Seq::<(usize, usize)>::empty());
            assert(ranges_cost(s.stack.drop_last()) == 0);
            assert(s.stack.last() == (0usize, (n - 1) as usize));
            assert(ranges_cost(s.stack) == range_cost(range_len((0usize, (n - 1) as usize))));
        }
        assert(Self::keeps_order(s, data));
        assert forall|t: QuickState, d: Seq<u8>| Self::keeps_order(t, d) && sorted(d) implies #[trigger] Self::next(t, d).1 == d by {
            Self::lemma_sorted_kept(t, d);
        }
        lemma_sorted_from::<Self>(s, data, k);
    }

    /// From a new sorter, after `n (n + 1) / 2 - 1` steps or more on data
    /// of length `n`, the data is sorted.
    pub proof fn lemma_sorts(data: Seq<u8>, k: nat)
        requires
            data.len() <= usize::MAX,
            2 * k + 2 >= data.len() * (data.len() + 1),
        ensures
            sorted(steps::<Self>(Self::initial(data.len()), data, k).1),
    {
        Self::lemma_sorts_from(Self::initial(data.len()), data, k);
    }

    /// A sorter with no partition under way and no range of two or more
    /// positions left to sort starts again on whatever data it is handed:
    /// after `n (n + 1) / 2` steps or more on data of length `n`, that data
    /// is sorted.
    pub proof fn lemma_restart_sorts(s: QuickState, data: Seq<u8>, k: nat)
        requires
            !s.active,
            forall|r: int| 0 <= r < s.stack.len() ==> #[trigger] s.stack[r].0 >= s.stack[r].1,
            data.len() <= usize::MAX,
            k >= 1,
            2 * k >= data.len() * (data.len() + 1),
        ensures
            !Self::next(s, data).0.active,
            Self::next(s, data).0.stack == Self::initial(data.len()).stack,
            Self::next(s, data).1 == data,
            sorted(steps::<Self>(s, data, k).1),
    {
        lemma_drop_trivial_cost(s.stack);
        let rest = drop_trivial(s.stack);
        if rest.len() > 0 {
            assert(rest[rest.len() - 1] == s.stack[rest.len() - 1]);
        }
        assert(rest.len() == 0);
        let t = Self::next(s, data).0;
        assert(Self::next(s, data).1 == data);
        assert(t.stack =~= Self::initial(data.len()).stack);
        assert(steps::<Self>(s, data, k) == steps::<Self>(t, data, (k - 1) as nat));
        Self::lemma_sorts_from(t, data, (k - 1) as nat);
    }
}

impl Sorter for QuickSorter {
    open spec fn fits(s: QuickState, len: nat) -> bool {
        &&& forall|k: int| 0 <= k < s.stack.len() && #[trigger] s.stack[k].0 < s.stack[k].1 ==> s.stack[k].1 < len
        &&& s.active ==> s.lo <= s.i <= s.j <= s.hi < len
    }

    open spec fn next(s: QuickState, data: Seq<u8>) -> (QuickState, Seq<u8>) {
        if s.active {
            partition_step(s, data)
        } else {
            let rest = drop_trivial(s.stack);
            if rest.len() == 0 {
                let n = data.len();
                let fresh = if n > 1 { seq![(0usize, (n - 1) as usize)] } else { Seq::empty() };
                (QuickState { stack: fresh, ..s }, data)
            } else {
                let (lo, hi) = rest.last();
                partition_step(QuickState { stack: rest.drop_last(), lo, hi, i: lo, j: lo, active: true }, data)
            }
        }
    }

    /// The ranges still to sort are disjoint, lie in the data in increasing
    /// order, all below the range being partitioned; two elements that no
    /// such range holds together are in order; in the partition under way,
    /// the elements from `lo` to `i` are no larger than the pivot and those
    /// from `i` to `j` are larger.
    open spec fn keeps_order(s: QuickState, data: Seq<u8>) -> bool {
        let n = data.len();
        &&& Self::fits(s, n)
        &&& forall|k: int| 0 <= k < s.stack.len() ==> #[trigger] s.stack[k].0 <= s.stack[k].1 < n
        &&& forall|k1: int, k2: int| 0 <= k1 < k2 < s.stack.len() ==> #[trigger] s.stack[k1].1 < #[trigger] s.stack[k2].0
        &&& s.active ==> forall|k: int| 0 <= k < s.stack.len() ==> #[trigger] s.stack[k].1 < s.lo
        &&& forall|a: int, b: int| 0 <= a < b < n && !together(s, a, b) ==> #[trigger] data[a] <= #[trigger] data[b]
        &&& s.active ==> {
            &&& forall|k: int| s.lo <= k < s.i ==> #[trigger] data[k] <= data[s.hi as int]
            &&& forall|k: int| s.i <= k < s.j ==> #[trigger] data[k] > data[s.hi as int]
        }
    }

    open spec fn finished(s: QuickState, len: nat) -> bool {
        !s.active && drop_trivial(s.stack).len() == 0
    }

    open spec fn remaining(s: QuickState, len: nat) -> nat {
        if s.active {
            ranges_cost(s.stack) + (s.hi - s.j + 1) as nat + range_cost((s.hi - s.lo) as nat)
        } else {
            ranges_cost(s.stack)
        }
    }

    proof fn lemma_step(s: QuickState, data: Seq<u8>) {
        let n = data.len() as int;
        if s.active {
            lemma_partition_step(s, data);
        } else {
            let rest = drop_trivial(s.stack);
            lemma_drop_trivial_cost(s.stack);
            if rest.len() == 0 {
                assert forall|a: int, b: int| 0 <= a <= b < n implies data[a] <= data[b] by {
                    if a < b {
                        if together(s, a, b) {
                            let k = choose|k: int| 0 <= k < s.stack.len() && #[trigger] s.stack[k].0 <= a && b <= s.stack[k].1;
                            assert(s.stack[k].0 >= s.stack[k].1);
                        }
                    }
                }
                let (s1, d1) = Self::next(s, data);
                assert(forall|a: int, b: int| 0 <= a < b < n ==> #[trigger] d1[a] <= #[trigger] d1[b]);
                assert(Self::keeps_order(s1, d1));
            } else {
                let (lo, hi) = rest.last();
                let top = rest.len() - 1;
                let s0 = QuickState { stack: rest.drop_last(), lo, hi, i: lo, j: lo, active: true };
                assert(rest[top] == s.stack[top]);
                assert forall|k: int| 0 <= k < s0.stack.len() implies #[trigger] s0.stack[k] == s.stack[k] by {
                    assert(rest[k] == s.stack[k]);
                }
                assert forall|k: int| 0 <= k < s0.stack.len() implies #[trigger] s0.stack[k].1 < s0.lo by {
                    assert(s.stack[k].1 < s.stack[top].0);
                }
                assert forall|a: int, b: int| 0 <= a < b < n && !together(s0, a, b) implies #[trigger] data[a] <= #[trigger] data[b] by {
                    if together(s, a, b) {
                        if exists|k: int| 0 <= k < s.stack.len() && #[trigger] s.stack[k].0 <= a && b <= s.stack[k].1 {
                            let k = choose|k: int| 0 <= k < s.stack.len() && #[trigger] s.stack[k].0 <= a && b <= s.stack[k].1;
                            if k < top {
                                assert(s0.stack[k] == s.stack[k]);
                                assert(together(s0, a, b));
                            } else if k == top {
                                assert(together(s0, a, b));
                            } else {
                                assert(s.stack[k].0 >= s.stack[k].1);
                            }
                        }
                    }
                }
                assert(Self::keeps_order(s0, data));
                assert(rest.drop_last().push(rest.last()) == rest);
                assert(ranges_cost(rest) == ranges_cost(s0.stack) + range_cost(range_len((lo, hi))));
                let m = range_len((lo, hi));
                assert(m == hi - lo + 1);
                assert((m - 1) as nat == (hi - lo) as nat);
                assert(range_cost(m) == m + range_cost((m - 1) as nat));
                lemma_partition_step(s0, data);
            }
        }
    }

    fn sort_step(&mut self, data: &mut [u8]) {
        if !self.active {
            let ghost rest = drop_trivial(self.stack@);
            proof {
                lemma_drop_trivial_cost(self.stack@);
            }
            loop
                invariant_except_break
                    !self.active,
                    !old(self).active,
                    rest == drop_trivial(old(self)@.stack),
                    rest.len() <= old(self)@.stack.len(),
                    forall|k: int| 0 <= k < rest.len() ==> #[trigger] rest[k] == old(self)@.stack[k],
                    drop_trivial(self.stack@) == rest,
                    Self::fits(old(self)@, data@.len()),
                    data@ == old(data)@,
                    self.lo == old(self).lo,
                    self.hi == old(self).hi,
                    self.i == old(self).i,
                    self.j == old(self).j,
                ensures
                    rest.len() > 0,
                    self.lo < self.hi < data@.len(),
                    self@ == (QuickState { stack: rest.drop_last(), lo: rest.last().0, hi: rest.last().1,
                        i: rest.last().0, j: rest.last().0, active: true }),
                    data@ == old(data)@,
                decreases self.stack@.len(),
            {
                let ghost before = self.stack@;
                let top = self.stack.pop();
                match top {
                    None => {
                        // Finished sorting: start again.
                        assert(rest.len() == 0);
                        if data.len() > 1 {
                            self.stack.push((0, data.len() - 1));
                        }
                        assert(self@.stack =~= Self::next(old(self)@, old(data)@).0.stack);
                        return;
                    }
                    Some((lo, hi)) => {
                        assert(before.drop_last() == self.stack@);
                        assert((lo, hi) == before.last());
                        if lo < hi {
                            assert(drop_trivial(before) == before);
                            assert(old(self)@.stack[rest.len() - 1] == rest.last());
                            self.lo = lo;
                            self.hi = hi;
                            self.i = lo;
                            self.j = lo;
                            self.active = true;
                            break;
                        }
                    }
                }
            }
        }
        // Lomuto partition: the pivot is data[hi].
        if self.j < self.hi {
            if data[self.j] <= data[self.hi] {
                swap_elems(data, self.i, self.j);
                self.i += 1;
            }
            self.j += 1;
        } else {
            // j == hi: put the pivot in its final place.
            swap_elems(data, self.i, self.hi);
            let p = self.i;
            if p > self.lo {
                self.stack.push((self.lo, p - 1));
            }
            if p < self.hi {
                self.stack.push((p + 1, self.hi));
            }
            self.active = false;
        }
    }
}

} // verus!
