use vstd::prelude::*;
use vstd::arithmetic::power2::{pow2, lemma_pow2_unfold, lemma2_to64};
use vstd::arithmetic::div_mod::{lemma_fundamental_div_mod, lemma_fundamental_div_mod_converse, lemma_mod_pos_bound};
use crate::sorter::{Sorter, sorted, swapped, swap_elems, steps, lemma_sorted_from};
use crate::inversions::{inversions, lemma_swap_removes_inversion};

verus! {

/// Bottom-up in-place merge sort.
///
/// Each step is either one comparison (advancing the left position) or one
/// whole insertion (moving `data[m]` left into position `i` by a series of
/// exchanges), so that a pass over the data takes fewer steps than there
/// are elements, and there are about `log2(n)` passes.
pub struct MergeSorter {
    n: usize,
    width: usize,
    // The current merge: [l, m) is the sorted left part, [m, r) the sorted right part.
    l: usize,
    m: usize,
    r: usize,
    // Left position: the next position to compare or fill.
    i: usize,
    done: bool,
}

/// The state of a merge sorter: the length it was made for, the run width of the pass, the current merge [l, m) + [m, r) with left position i, and whether the sort has finished.
pub struct MergeState {
    pub n: usize,
    pub width: usize,
    pub l: usize,
    pub m: usize,
    pub r: usize,
    pub i: usize,
    pub done: bool,
}

/// `w` is a power of two.
pub open spec fn is_pow2(w: nat) -> bool
    decreases w,
{
    w == 1 || (w >= 2 && w % 2 == 0 && is_pow2(w / 2))
}

/// The smaller of `a` and `b`.
pub open spec fn min_of(a: int, b: int) -> int {
    if a < b { a } else { b }
}

/// `data` with the element at `m` moved to position `i` and the elements
/// from `i` to `m - 1` moved one place to the right.
pub open spec fn rotated(data: Seq<u8>, i: int, m: int) -> Seq<u8> {
    Seq::new(data.len(), |k: int| if k < i || k > m { data[k] } else if k == i { data[m] } else { data[k - 1] })
}

/// Moving an element left past elements that are all larger leaves fewer
/// pairs out of order: the move is a series of exchanges of adjacent pairs
/// that are out of order.
proof fn lemma_rotation_lowers_inversions(data: Seq<u8>, i: int, m: int)
    requires
        0 <= i < m < data.len(),
        forall|k: int| i <= k < m ==> #[trigger] data[k] > data[m],
    ensures
        inversions(rotated(data, i, m)) < inversions(data),
    decreases m - i,
{
    let d1 = swapped(data, m - 1, m);
    lemma_swap_removes_inversion(data, m - 1, m);
    if m - 1 == i {
        assert(rotated(data, i, m) =~= d1);
    } else {
        assert(rotated(data, i, m) =~= rotated(d1, i, m - 1));
        assert forall|k: int| i <= k < m - 1 implies #[trigger] d1[k] > d1[m - 1] by {
            assert(data[k] > data[m]);
        }
        lemma_rotation_lowers_inversions(d1, i, m - 1);
    }
}

/// The elements from `from` to `to` that lie in one block of `size`
/// positions (the blocks start at the multiples of `size`) are in order.
pub open spec fn blocks_sorted(data: Seq<u8>, size: int, from: int, to: int) -> bool {
    forall|a: int, b: int|
        from <= a <= b < to && a / size == b / size ==> #[trigger] data[a] <= #[trigger] data[b]
}

/// The elements from `from` to `to` are in order.
pub open spec fn run_sorted(data: Seq<u8>, from: int, to: int) -> bool {
    forall|a: int, b: int| from <= a <= b < to ==> #[trigger] data[a] <= #[trigger] data[b]
}

/// The positions from `q * d` to `q * d + d - 1` form block `q`.
proof fn lemma_in_block(x: int, d: int, q: int)
    requires
        d > 0,
        q * d <= x < q * d + d,
    ensures
        x / d == q,
{
    lemma_fundamental_div_mod_converse(x, d, q, x - q * d);
}

/// Positions on both sides of a block boundary lie in different blocks.
proof fn lemma_blocks_apart(a: int, b: int, d: int, l: int)
    requires
        d > 0,
        0 <= a < l <= b,
        l % d == 0,
    ensures
        a / d < b / d,
{
    lemma_fundamental_div_mod(l, d);
    lemma_fundamental_div_mod(a, d);
    lemma_fundamental_div_mod(b, d);
    lemma_mod_pos_bound(a, d);
    lemma_mod_pos_bound(b, d);
    let q = l / d;
    let qa = a / d;
    let qb = b / d;
    assert(d * qa < d * q) by (nonlinear_arith)
        requires a == d * qa + a % d, 0 <= a % d, a < l, l == d * q + 0;
    assert(qa < q) by (nonlinear_arith)
        requires d * qa < d * q, d > 0;
    assert(d * q < d * (qb + 1)) by (nonlinear_arith)
        requires b == d * qb + b % d, b % d < d, l <= b, l == d * q + 0;
    assert(q <= qb) by (nonlinear_arith)
        requires d * q < d * (qb + 1), d > 0;
}

/// A multiple of `2 * w` is a multiple of `w`, and so is it plus `w`,
/// and it plus `2 * w` is a multiple of `2 * w`.
proof fn lemma_multiples(l: int, w: int)
    requires
        w > 0,
        l >= 0,
        l % (2 * w) == 0,
    ensures
        l % w == 0,
        (l + w) % w == 0,
        (l + 2 * w) % (2 * w) == 0,
        l / w * w == l,
{
    lemma_fundamental_div_mod(l, 2 * w);
    let q = l / (2 * w);
    assert(l == (2 * q) * w) by (nonlinear_arith) requires l == (2 * w) * q + 0;
    assert(l + w == (2 * q + 1) * w) by (nonlinear_arith) requires l == (2 * q) * w;
    assert(l + 2 * w == (q + 1) * (2 * w)) by (nonlinear_arith) requires l == (2 * q) * w;
    lemma_fundamental_div_mod_converse(l, w, 2 * q, 0);
    lemma_fundamental_div_mod_converse(l + w, w, 2 * q + 1, 0);
    lemma_fundamental_div_mod_converse(l + 2 * w, 2 * w, q + 1, 0);
}

/// The number of passes, starting with runs of `w`, until the runs cover
/// all `n` elements.
pub open spec fn passes_after(w: nat, n: nat) -> nat
    decreases n - w,
{
    if w == 0 || w >= n {
        0
    } else if 2 * w >= n {
        1
    } else {
        1 + passes_after(2 * w, n)
    }
}

/// Each pass costs `n - 1` steps of the bound.
proof fn lemma_passes_after_step(w: nat, n: nat)
    requires
        1 <= w < n,
    ensures
        (n - 1) as nat * passes_after(w, n) == (n - 1) as nat + (n - 1) as nat * passes_after(2 * w, n),
{
    let c = (n - 1) as nat;
    assert(c * (1 + passes_after(2 * w, n)) == c + c * passes_after(2 * w, n)) by (nonlinear_arith);
}

/// There are fewer passes left than `n - w`.
proof fn lemma_passes_bound(w: nat, n: nat)
    requires
        w >= 1,
    ensures
        passes_after(w, n) <= if w < n { (n - w) as nat } else { 0 },
    decreases n - w,
{
    if w < n && 2 * w < n {
        lemma_passes_bound(2 * w, n);
    }
}

/// The passes from runs of `w` on number `p` with `w 2^(p-1) < n <= w 2^p`:
/// from runs of 1, `p` is the base-2 logarithm of `n`, rounded up.
pub proof fn lemma_passes_log(w: nat, n: nat)
    requires
        1 <= w < n,
    ensures
        passes_after(w, n) >= 1,
        w * pow2((passes_after(w, n) - 1) as nat) < n <= w * pow2(passes_after(w, n)),
    decreases n - w,
{
    let p = passes_after(w, n);
    if 2 * w >= n {
        lemma2_to64();
        assert(p == 1);
        assert(w * pow2(0) == w && w * pow2(1) == 2 * w) by (nonlinear_arith)
            requires pow2(0) == 1, pow2(1) == 2;
    } else {
        lemma_passes_log(2 * w, n);
        let p2 = passes_after(2 * w, n);
        assert(p == p2 + 1);
        lemma_pow2_unfold(p2);
        lemma_pow2_unfold(p);
        let a = pow2((p2 - 1) as nat);
        let b = pow2(p2);
        assert(((p - 1) as nat) == p2);
        assert(w * b == (2 * w) * a) by (nonlinear_arith) requires b == 2 * a;
        assert(w * pow2(p) == (2 * w) * b) by (nonlinear_arith) requires pow2(p) == 2 * b;
    }
}

impl View for MergeSorter {
    type V = MergeState;

    closed spec fn view(&self) -> MergeState {
        MergeState { n: self.n, width: self.width, l: self.l, m: self.m, r: self.r, i: self.i, done: self.done }
    }
}

impl MergeSorter {
    /// A merge sorter for data of length `n`.
    pub fn new(n: usize) -> (s: Self)
        ensures
            s@ == Self::initial(n),
            n <= usize::MAX / 2 ==> Self::fits(s@, n as nat),
    {
        if n <= 1 {
            return MergeSorter { n, width: 1, l: 0, m: 0, r: 0, i: 0, done: true };
        }
        MergeSorter { n, width: 1, l: 0, m: 1, r: 2.min(n), i: 0, done: false }
    }

    /// The state of a new merge sorter for data of length `n`.
    pub open spec fn initial(n: usize) -> MergeState {
        if n <= 1 {
            MergeState { n, width: 1, l: 0, m: 0, r: 0, i: 0, done: true }
        } else {
            MergeState { n, width: 1, l: 0, m: 1, r: 2, i: 0, done: false }
        }
    }

    /// One move to the next merge: the next pair of runs of this pass, or
    /// the first pair of the next pass, with runs twice as long.
    pub open spec fn next_block(s: MergeState) -> MergeState {
        let w = s.width as int;
        let n = s.n as int;
        let next_l = s.l + 2 * w;
        if next_l < n {
            MergeState {
                l: next_l as usize,
                m: min_of(next_l + w, n) as usize,
                r: min_of(next_l + 2 * w, n) as usize,
                i: next_l as usize,
                ..s
            }
        } else if 2 * w >= n {
            MergeState { width: (2 * w) as usize, done: true, ..s }
        } else {
            MergeState {
                width: (2 * w) as usize,
                l: 0,
                m: min_of(2 * w, n) as usize,
                r: min_of(4 * w, n) as usize,
                i: 0,
                ..s
            }
        }
    }

    /// The state after moving on to the next merge that has a right part,
    /// or to the end of the sort.
    pub open spec fn advance(s: MergeState) -> MergeState
        decreases (s.n - s.width) as nat, (s.n - s.l) as nat,
        when 1 <= s.width < s.n && s.l < s.n
    {
        let s1 = Self::next_block(s);
        if s1.done || s1.m < s1.r {
            s1
        } else {
            Self::advance(s1)
        }
    }

    /// The order that a pass keeps: see `keeps_order`.
    pub open spec fn merging(s: MergeState, data: Seq<u8>) -> bool {
        let w = s.width as int;
        let l = s.l as int;
        let i = s.i as int;
        let m = s.m as int;
        let r = s.r as int;
        let n = s.n as int;
        &&& Self::can_advance(s)
        &&& n == data.len()
        &&& l % (2 * w) == 0
        &&& l <= i <= m <= r <= n
        &&& r == min_of(l + 2 * w, n)
        &&& blocks_sorted(data, 2 * w, 0, l)
        &&& blocks_sorted(data, w, r, n)
        &&& run_sorted(data, l, i)
        &&& run_sorted(data, i, m)
        &&& run_sorted(data, m, r)
        &&& forall|a: int, b: int| l <= a && a < i && i <= b && b < r ==> #[trigger] data[a] <= #[trigger] data[b]
    }

    /// A new sorter keeps the order on data of the length it was made for.
    pub proof fn lemma_initial(data: Seq<u8>)
        requires
            data.len() <= usize::MAX / 2,
        ensures
            Self::keeps_order(Self::initial(data.len() as usize), data),
    {
        let s = Self::initial(data.len() as usize);
        if data.len() > 1 {
            assert(blocks_sorted(data, 1, 2, data.len() as int)) by {
                assert forall|a: int, b: int| 2 <= a <= b < data.len() && a / 1 == b / 1 implies #[trigger] data[a] <= #[trigger] data[b] by {
                    assert(a == b);
                }
            }
            assert(0int % 2 == 0);
            assert(run_sorted(data, 0, 1));
            assert(run_sorted(data, 1, 2));
            assert(Self::merging(s, data));
        }
    }

    /// One step leaves the data as it is, or moves one element of the right
    /// part, smaller than the element at the left position, in front of it.
    pub proof fn lemma_step_shape(s: MergeState, data: Seq<u8>)
        requires
            Self::fits(s, data.len()),
        ensures
            Self::next(s, data).1 == data || {
                let i = s.i as int;
                let m = s.m as int;
                &&& 0 <= i < m < data.len()
                &&& data[i] > data[m]
                &&& Self::next(s, data).1 == rotated(data, i, m)
            },
    {
    }

    /// While the sorter keeps its order, a step that moves an element leaves
    /// fewer pairs out of order: the element moves past larger ones only.
    pub proof fn lemma_step_lowers_inversions(s: MergeState, data: Seq<u8>)
        requires
            Self::keeps_order(s, data),
        ensures
            Self::next(s, data).1 == data || inversions(Self::next(s, data).1) < inversions(data),
    {
        let i = s.i as int;
        let m = s.m as int;
        if !s.done && data[i] > data[m] {
            assert forall|k: int| i <= k < m implies #[trigger] data[k] > data[m] by {
                assert(data[i] <= data[k]);
            }
            lemma_rotation_lowers_inversions(data, i, m);
        }
    }

    /// No step of a merge sorter disturbs sorted data.
    pub proof fn lemma_sorted_kept(s: MergeState, data: Seq<u8>)
        requires
            Self::fits(s, data.len()),
            sorted(data),
        ensures
            Self::next(s, data).1 == data,
    {
    }

    /// From a new sorter on data of length `n`, after `(n - 1) * p` steps
    /// or more, where `p = passes_after(1, n)` is the number of passes (the
    /// base-2 logarithm of `n`, rounded up: see `lemma_passes_log`), the
    /// data is sorted.
    pub proof fn lemma_sorts(data: Seq<u8>, k: nat)
        requires
            data.len() <= usize::MAX / 2,
            k >= (data.len() - 1) * passes_after(1, data.len()),
        ensures
            sorted(steps::<Self>(Self::initial(data.len() as usize), data, k).1),
    {
        let n = data.len();
        let s = Self::initial(n as usize);
        Self::lemma_initial(data);
        if n > 1 {
            lemma_passes_after_step(1, n);
            assert(Self::remaining(s, n) == (n - 1) as nat + (n - 1) as nat * passes_after(2, n));
        }
        assert forall|t: MergeState, d: Seq<u8>| Self::keeps_order(t, d) && sorted(d) implies #[trigger] Self::next(t, d).1 == d by {
            Self::lemma_sorted_kept(t, d);
        }
        lemma_sorted_from::<Self>(s, data, k);
    }

    /// A sorter that has finished starts again on whatever data of its
    /// length it is handed: after `1 + (n - 1) * p` steps or more, where
    /// `p` is the number of passes, that data is sorted.
    pub proof fn lemma_restart_sorts(s: MergeState, data: Seq<u8>, k: nat)
        requires
            s.done,
            s.n == data.len(),
            data.len() <= usize::MAX / 2,
            k >= 1 + (data.len() - 1) * passes_after(1, data.len()),
        ensures
            Self::next(s, data) == (Self::initial(s.n), data),
            sorted(steps::<Self>(s, data, k).1),
    {
        let n = data.len();
        if n >= 1 {
            assert((n - 1) * passes_after(1, n) >= 0) by (nonlinear_arith) requires n >= 1;
        } else {
            assert(passes_after(1, n) == 0);
            let p = passes_after(1, n);
            assert((n - 1) * p == 0) by (nonlinear_arith) requires p == 0;
        }
        assert(k >= 1);
        assert(Self::next(s, data) == (Self::initial(n as usize), data));
        assert(steps::<Self>(s, data, k) == steps::<Self>(Self::initial(n as usize), data, (k - 1) as nat));
        Self::lemma_sorts(data, (k - 1) as nat);
    }

    /// `n - 1` times the number of passes is at most `n * n`.
    pub proof fn lemma_passes_square(n: nat)
        ensures
            (n - 1) * passes_after(1, n) <= n * n,
    {
        lemma_passes_bound(1, n);
        assert((n - 1) * passes_after(1, n) <= n * n) by (nonlinear_arith)
            requires passes_after(1, n) <= if 1 < n { (n - 1) as nat } else { 0 };
    }

    /// Moving on to the next merge, once the current one is complete, keeps
    /// the order and brings the sort no further from its end.
    proof fn lemma_advance(s: MergeState, data: Seq<u8>)
        requires
            Self::merging(s, data),
            s.i >= s.m || s.m >= s.r,
            s.i < s.n,
        ensures
            Self::keeps_order(Self::advance(s), data),
            Self::remaining(Self::advance(s), data.len()) <= Self::remaining(s, data.len()),
        decreases (s.n - s.width) as nat, (s.n - s.l) as nat,
    {
        let w = s.width as int;
        let l = s.l as int;
        let i = s.i as int;
        let m = s.m as int;
        let r = s.r as int;
        let n = s.n as int;
        // The merge is complete: its block is sorted.
        assert(run_sorted(data, l, r)) by {
            assert forall|a: int, b: int| l <= a <= b < r implies #[trigger] data[a] <= #[trigger] data[b] by {
                if a < i && b >= i {
                } else if a >= i && b < m {
                } else if a >= m {
                } else {
                }
            }
        }
        assert(blocks_sorted(data, 2 * w, 0, r)) by {
            assert forall|a: int, b: int| 0 <= a <= b < r && a / (2 * w) == b / (2 * w) implies #[trigger] data[a] <= #[trigger] data[b] by {
                if a < l && b >= l {
                    lemma_blocks_apart(a, b, 2 * w, l);
                }
            }
        }
        lemma_multiples(l, w);
        let s1 = Self::next_block(s);
        let next_l = l + 2 * w;
        if next_l < n {
            let l1 = next_l;
            let m1 = s1.m as int;
            let r1 = s1.r as int;
            assert(r == next_l);
            let q = l1 / w;
            assert(l1 / w * w == l1) by {
                lemma_multiples(l1, w);
            }
            assert((q + 1) * w == q * w + w) by (nonlinear_arith);
            assert(run_sorted(data, l1, m1)) by {
                assert forall|a: int, b: int| l1 <= a <= b < m1 implies #[trigger] data[a] <= #[trigger] data[b] by {
                    lemma_in_block(a, w, q);
                    lemma_in_block(b, w, q);
                }
            }
            assert(run_sorted(data, m1, r1)) by {
                assert forall|a: int, b: int| m1 <= a <= b < r1 implies #[trigger] data[a] <= #[trigger] data[b] by {
                    lemma_in_block(a, w, q + 1);
                    lemma_in_block(b, w, q + 1);
                }
            }
            assert(Self::merging(s1, data));
            if s1.m < s1.r {
            } else {
                Self::lemma_advance(s1, data);
            }
        } else if 2 * w >= n {
            assert(r == n);
            assert(sorted(data)) by {
                assert forall|a: int, b: int| 0 <= a <= b < n implies data[a] <= data[b] by {
                    lemma_in_block(a, 2 * w, 0);
                    lemma_in_block(b, 2 * w, 0);
                }
            }
        } else {
            assert(r == n);
            let w2 = 2 * w;
            lemma_passes_after_step(w2 as nat, n as nat);
            assert(s1.m == w2);
            assert(blocks_sorted(data, w2, s1.r as int, n));
            assert(run_sorted(data, 0, w2)) by {
                assert forall|a: int, b: int| 0 <= a <= b < w2 implies #[trigger] data[a] <= #[trigger] data[b] by {
                    lemma_in_block(a, w2, 0);
                    lemma_in_block(b, w2, 0);
                }
            }
            assert(run_sorted(data, w2, s1.r as int)) by {
                assert forall|a: int, b: int| w2 <= a <= b < s1.r implies #[trigger] data[a] <= #[trigger] data[b] by {
                    lemma_in_block(a, w2, 1);
                    lemma_in_block(b, w2, 1);
                }
            }
            assert(0int % (2 * w2) == 0);
            assert(Self::merging(s1, data));
        }
    }

    /// The state may be advanced without overflow: the window starts at a
    /// multiple of twice the run width, which is a power of two.
    pub open spec fn can_advance(s: MergeState) -> bool {
        &&& !s.done
        &&& 1 <= s.width < s.n
        &&& s.l < s.n
        &&& s.n <= usize::MAX / 2
        &&& (s.l as int) % (2 * s.width) == 0
        &&& is_pow2(s.width as nat)
    }

    /// A window that starts at a multiple of twice the run width ends
    /// before twice the length.
    proof fn lemma_window_end(l: int, w: int, n: int)
        requires
            1 <= w < n,
            0 <= l < n,
            l % (2 * w) == 0,
        ensures
            l + 2 * w < 2 * n,
    {
        lemma_fundamental_div_mod(l, 2 * w);
        let q = l / (2 * w);
        if q >= 1 {
            assert(l >= 2 * w) by (nonlinear_arith)
                requires l == (2 * w) * q + 0, q >= 1, w >= 1;
        } else {
            assert(q >= 0) by {
                vstd::arithmetic::div_mod::lemma_div_pos_is_pos(l, 2 * w);
            }
            assert(l == 0) by (nonlinear_arith) requires l == (2 * w) * q + 0, q == 0;
        }
    }

    /// Moving on keeps the length, stops either at the end of the sort,
    /// with a width that covers the data, or at a window
    /// `[l, min(l + w, n))` + `[min(l + w, n), min(l + 2w, n))` with a
    /// right part, `i == l`, that can be advanced again.
    pub proof fn lemma_advance_fits(s: MergeState)
        requires
            Self::can_advance(s),
        ensures
            Self::advance(s).n == s.n,
            Self::advance(s).done ==> Self::advance(s).width >= s.n && is_pow2(Self::advance(s).width as nat),
            !Self::advance(s).done ==> {
                let t = Self::advance(s);
                &&& Self::can_advance(t)
                &&& t.i == t.l
                &&& t.l < t.m < t.r <= s.n
                &&& t.m == min_of(t.l + t.width, s.n as int)
                &&& t.m == t.l + t.width
                &&& t.r == min_of(t.l + 2 * t.width, s.n as int)
            },
        decreases (s.n - s.width) as nat, (s.n - s.l) as nat,
    {
        let s1 = Self::next_block(s);
        let w = s.width as int;
        lemma_multiples(s.l as int, w);
        Self::lemma_window_end(s.l as int, w, s.n as int);
        assert(is_pow2(2 * s.width as nat));
        assert(0int % (4 * w) == 0);
        if s1.done || s1.m < s1.r {
        } else {
            Self::lemma_advance_fits(s1);
        }
    }

    /// The state may be advanced without overflow: its length is at most a
    /// third of the largest `usize`, or its window starts at a multiple of
    /// twice the run width, which is a power of two.
    pub open spec fn may_advance(s: MergeState) -> bool {
        &&& !s.done
        &&& 1 <= s.width < s.n
        &&& s.l < s.n
        &&& s.n <= usize::MAX / 3 || Self::can_advance(s)
    }

    /// Moving on from the window at `l` with runs of `w` on `n` elements:
    /// to the next window of the pass where it has a right part; else, where
    /// runs of `2w` cover the data, to the end of the sort; else to the first
    /// window of the next pass.
    pub proof fn lemma_advance_cases(s: MergeState)
        requires
            !s.done,
            1 <= s.width < s.n,
            s.l < s.n,
        ensures
            Self::advance(s).n == s.n,
            s.l + 3 * s.width < s.n ==> Self::advance(s) == (MergeState {
                l: (s.l + 2 * s.width) as usize,
                m: (s.l + 3 * s.width) as usize,
                r: min_of(s.l + 4 * s.width, s.n as int) as usize,
                i: (s.l + 2 * s.width) as usize,
                ..s
            }),
            s.l + 3 * s.width >= s.n && 2 * s.width >= s.n ==> Self::advance(s) == (MergeState {
                width: (2 * s.width) as usize,
                done: true,
                ..s
            }),
            s.l + 3 * s.width >= s.n && 2 * s.width < s.n ==> Self::advance(s) == (MergeState {
                width: (2 * s.width) as usize,
                l: 0,
                m: (2 * s.width) as usize,
                r: min_of(4 * s.width, s.n as int) as usize,
                i: 0,
                ..s
            }),
    {
        let s1 = Self::next_block(s);
        if !(s1.done || s1.m < s1.r) {
            let s2 = Self::next_block(s1);
            assert(Self::advance(s) == Self::advance(s1));
            assert(s2.done || s2.m < s2.r);
        }
    }

    /// Moves on to the next merge that has a right part, or to the end of
    /// the sort.
    fn advance_block(&mut self)
        requires
            Self::may_advance(old(self)@),
        ensures
            final(self)@ == Self::advance(old(self)@),
    {
        loop
            invariant
                Self::may_advance(self@),
                Self::advance(self@) == Self::advance(old(self)@),
            decreases self.n - self.width, self.n - self.l,
        {
            let ghost before = self@;
            proof {
                if Self::can_advance(self@) {
                    Self::lemma_window_end(self.l as int, self.width as int, self.n as int);
                    lemma_multiples(self.l as int, self.width as int);
                    assert(is_pow2(2 * self.width as nat));
                }
            }
            let next_l = self.l + 2 * self.width;
            if next_l < self.n {
                self.l = next_l;
                proof {
                    if Self::can_advance(before) {
                        Self::lemma_window_end(self.l as int, self.width as int, self.n as int);
                    }
                }
                self.m = (self.l + self.width).min(self.n);
                self.r = (self.l + 2 * self.width).min(self.n);
                self.i = self.l;
            } else {
                self.width *= 2;
                if self.width >= self.n {
                    self.done = true;
                    return;
                }
                self.l = 0;
                self.m = self.width.min(self.n);
                self.r = (2 * self.width).min(self.n);
                self.i = 0;
                assert(0int % (2 * self.width as int) == 0);
            }
            assert(self@ == Self::next_block(before));
            // Stop only where the merge has a right part.
            if self.m < self.r {
                return;
            }
        }
    }
}

impl Sorter for MergeSorter {
    open spec fn fits(s: MergeState, len: nat) -> bool {
        &&& s.n <= len
        &&& s.n <= usize::MAX / 2
        &&& !s.done ==> {
            &&& Self::can_advance(s)
            &&& s.r <= s.n
            &&& s.i < s.m
        }
    }

    open spec fn next(s: MergeState, data: Seq<u8>) -> (MergeState, Seq<u8>) {
        let i = s.i as int;
        let m = s.m as int;
        if s.done {
            (Self::initial(s.n), data)
        } else if s.i >= s.m || s.m >= s.r {
            (Self::advance(s), data)
        } else if data[i] <= data[m] {
            let s1 = MergeState { i: (s.i + 1) as usize, ..s };
            (if s1.i >= s1.m { Self::advance(s1) } else { s1 }, data)
        } else {
            let s1 = MergeState { i: (s.i + 1) as usize, m: (s.m + 1) as usize, ..s };
            (if s1.i >= s1.m || s1.m >= s1.r { Self::advance(s1) } else { s1 }, rotated(data, i, m))
        }
    }

    /// In the current pass, the blocks of `2 * width` before the current
    /// merge are sorted, and so are the runs of `width` after it; in the
    /// merge, the elements from `l` to `i` are sorted and no larger than
    /// any after them up to `r`, and the parts from `i` to `m` and from `m`
    /// to `r` are sorted. A finished sort leaves sorted data.
    open spec fn keeps_order(s: MergeState, data: Seq<u8>) -> bool {
        &&& Self::fits(s, data.len())
        &&& s.n == data.len()
        &&& s.done ==> sorted(data)
        &&& !s.done ==> Self::merging(s, data) && s.i < s.m < s.r
    }

    open spec fn finished(s: MergeState, len: nat) -> bool {
        s.done
    }

    open spec fn remaining(s: MergeState, len: nat) -> nat {
        if s.done {
            0
        } else {
            (s.n - s.i - 1) as nat + (s.n - 1) as nat * passes_after(2 * s.width as nat, s.n as nat)
        }
    }

    proof fn lemma_step(s: MergeState, data: Seq<u8>) {
        let i = s.i as int;
        let m = s.m as int;
        let l = s.l as int;
        let r = s.r as int;
        let n = s.n as int;
        if s.done {
            Self::lemma_initial(data);
        } else if data[i] <= data[m] {
            let s1 = MergeState { i: (s.i + 1) as usize, ..s };
            assert forall|a: int, b: int| l <= a && a < i + 1 && i + 1 <= b && b < r implies #[trigger] data[a] <= #[trigger] data[b] by {
                if a == i {
                    if b < m {
                        assert(data[i] <= data[b]);
                    } else {
                        assert(data[m] <= data[b]);
                    }
                }
            }
            assert(run_sorted(data, l, i + 1)) by {
                assert forall|a: int, b: int| l <= a <= b < i + 1 implies #[trigger] data[a] <= #[trigger] data[b] by {
                    if b == i && a < i {
                        assert(data[a] <= data[i]);
                    }
                }
            }
            assert(Self::merging(s1, data));
            if s1.i >= s1.m {
                Self::lemma_advance(s1, data);
            }
        } else {
            let s1 = MergeState { i: (s.i + 1) as usize, m: (s.m + 1) as usize, ..s };
            let d1 = rotated(data, i, m);
            assert(blocks_sorted(d1, 2 * s.width, 0, l)) by {
                assert forall|a: int, b: int| 0 <= a <= b < l && a / (2 * s.width as int) == b / (2 * s.width as int) implies #[trigger] d1[a] <= #[trigger] d1[b] by {
                    assert(data[a] <= data[b]);
                }
            }
            assert(blocks_sorted(d1, s.width as int, r, n)) by {
                assert forall|a: int, b: int| r <= a <= b < n && a / (s.width as int) == b / (s.width as int) implies #[trigger] d1[a] <= #[trigger] d1[b] by {
                    assert(data[a] <= data[b]);
                }
            }
            assert forall|a: int, b: int| l <= a <= b < i + 1 implies #[trigger] d1[a] <= #[trigger] d1[b] by {
                if b == i && a < i {
                    assert(data[a] <= data[m]);
                } else {
                    assert(data[a] <= data[b]);
                }
            }
            assert forall|a: int, b: int| i + 1 <= a <= b < m + 1 implies #[trigger] d1[a] <= #[trigger] d1[b] by {
                assert(data[a - 1] <= data[b - 1]);
            }
            assert forall|a: int, b: int| m + 1 <= a <= b < r implies #[trigger] d1[a] <= #[trigger] d1[b] by {
                assert(data[a] <= data[b]);
            }
            assert forall|a: int, b: int| l <= a && a < i + 1 && i + 1 <= b && b < r implies #[trigger] d1[a] <= #[trigger] d1[b] by {
                if a == i {
                    if b <= m {
                        assert(data[i] <= data[b - 1]);
                    } else {
                        assert(data[m] <= data[b]);
                    }
                } else if b <= m {
                    assert(data[a] <= data[b - 1]);
                } else {
                    assert(data[a] <= data[b]);
                }
            }
            assert(Self::merging(s1, d1));
            if s1.i >= s1.m || s1.m >= s1.r {
                Self::lemma_advance(s1, d1);
            }
        }
    }

    fn sort_step(&mut self, data: &mut [u8]) {
        if self.done {
            // Finished sorting: start again.
            *self = MergeSorter::new(self.n);
            return;
        }
        if self.i >= self.m || self.m >= self.r {
            self.advance_block();
            proof { Self::lemma_advance_fits(old(self)@); }
            return;
        }
        if data[self.i] <= data[self.m] {
            self.i += 1;
            if self.i >= self.m {
                proof { Self::lemma_advance_fits(self@); }
                self.advance_block();
            }
        } else {
            // Move data[m] into position i by exchanges to the left, all in one step.
            let ghost start = data@;
            let mut k = self.m;
            while k > self.i
                invariant
                    self.i <= k <= self.m < data@.len(),
                    data@.len() == start.len(),
                    data@.to_multiset() == start.to_multiset(),
                    data@[k as int] == start[self.m as int],
                    forall|p: int| 0 <= p < data@.len() && (p < k || p > self.m) ==> #[trigger] data@[p] == start[p],
                    forall|p: int| k < p <= self.m ==> #[trigger] data@[p] == start[p - 1],
                decreases k,
            {
                swap_elems(data, k - 1, k);
                k -= 1;
            }
            assert(data@ =~= rotated(start, self.i as int, self.m as int));
            self.i += 1;
            self.m += 1;
            if self.i >= self.m || self.m >= self.r {
                proof { Self::lemma_advance_fits(self@); }
                self.advance_block();
            }
        }
    }
}

} // verus!
