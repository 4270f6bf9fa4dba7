use vstd::prelude::*;
use vstd::arithmetic::div_mod::{lemma_fundamental_div_mod, lemma_fundamental_div_mod_converse, lemma_mod_pos_bound, lemma_small_mod, lemma_mod_sub_multiples_vanish};
use crate::sorter::{Sorter, swapped, sorted, swap_elems, steps, lemma_sorted_from, lemma_steps_keep_order};
use crate::inversions::{inversions, lemma_swap_removes_inversion};

verus! {

/// The largest gap of Knuth's sequence `1, 4, 13, 40, ...` (`h = 3h + 1`),
/// starting from `g`, whose successor is not below `len`.
pub open spec fn knuth_gap_from(g: nat, len: nat) -> nat
    decreases len - g,
{
    if g * 3 + 1 < len {
        knuth_gap_from(g * 3 + 1, len)
    } else {
        g
    }
}

/// The gap a shell sort of data of length `len` starts with.
pub open spec fn knuth_gap(len: nat) -> nat {
    knuth_gap_from(1, len)
}

/// `g` is a term of Knuth's sequence `1, 4, 13, 40, ...`.
pub open spec fn is_knuth(g: nat) -> bool
    decreases g,
{
    g == 1 || (g > 1 && g % 3 == 1 && is_knuth(((g - 1) / 3) as nat))
}

/// The gaps that `knuth_gap_from` reaches are terms of Knuth's sequence.
proof fn lemma_knuth_gap_from(g: nat, len: nat)
    requires
        is_knuth(g),
    ensures
        is_knuth(knuth_gap_from(g, len)),
        knuth_gap_from(g, len) >= g,
        g < len ==> knuth_gap_from(g, len) < len,
    decreases len - g,
{
    if g * 3 + 1 < len {
        assert((((g * 3 + 1) - 1) / 3) as nat == g);
        lemma_knuth_gap_from(g * 3 + 1, len);
    }
}

/// Computing the first gap for data of length `len` does not overflow: the
/// last gap tried, `3 * knuth_gap(len) + 1`, fits in a `usize`.
pub open spec fn gap_fits(len: nat) -> bool {
    3 * knuth_gap(len) + 1 <= usize::MAX
}

/// Every length up to a third of the largest `usize` has a first gap that
/// can be computed.
pub proof fn lemma_gap_fits(len: nat)
    requires
        len <= usize::MAX / 3,
    ensures
        gap_fits(len),
{
    lemma_knuth_gap_from(1, len);
}

/// The `j`-th term of Knuth's sequence, counting `0` as term 0.
pub open spec fn knuth_term(j: nat) -> nat
    decreases j,
{
    if j == 0 {
        0
    } else {
        3 * knuth_term((j - 1) as nat) + 1
    }
}

/// No term of Knuth's sequence lies strictly between two consecutive ones.
proof fn lemma_knuth_between(g: nat, j: nat)
    requires
        is_knuth(g),
    ensures
        g <= knuth_term(j) || g >= knuth_term(j + 1),
    decreases g,
{
    if j > 0 {
        assert(knuth_term(j) == 3 * knuth_term((j - 1) as nat) + 1);
        if g > 1 {
            let prev = ((g - 1) / 3) as nat;
            lemma_knuth_between(prev, (j - 1) as nat);
            assert(((j - 1) as nat + 1) as nat == j);
        }
    }
}

/// Where a `usize` has 64 bits, the first gap of every length that a slice
/// can have (at most half the largest `usize`) can be computed.
pub proof fn lemma_gap_fits_64(len: nat)
    requires
        usize::MAX == 0xffff_ffff_ffff_ffff,
        len <= usize::MAX / 2,
    ensures
        gap_fits(len),
{
    let g = knuth_gap(len);
    lemma_knuth_gap_from(1, len);
    lemma_knuth_between(g, 40);
    assert(knuth_term(40) == 6078832729528464400) by {
        reveal_with_fuel(knuth_term, 41);
    }
    assert(knuth_term(41) == 18236498188585393201);
    assert(knuth_term(41) == 3 * knuth_term(40) + 1);
}

/// The first gap of a shell sort of data of length `len`: the largest term
/// of Knuth's sequence `1, 4, 13, 40, ...` (`h = 3h + 1`) whose successor is
/// not below `len`.
pub fn initial_gap(len: usize) -> (gap: usize)
    requires
        gap_fits(len as nat),
    ensures
        gap == knuth_gap(len as nat),
        is_knuth(gap as nat),
        gap == 1 || gap < len,
        3 * gap + 1 >= len,
{
    let mut gap: usize = 1;
    while gap * 3 + 1 < len
        invariant
            1 <= gap,
            gap == 1 || gap < len,
            is_knuth(gap as nat),
            gap_fits(len as nat),
            knuth_gap_from(gap as nat, len as nat) == knuth_gap(len as nat),
        decreases len - gap,
    {
        proof {
            lemma_knuth_gap_from(gap as nat, len as nat);
        }
        gap = gap * 3 + 1;
        assert((((gap - 1) / 3) as nat) == (gap - 1) / 3);
    }
    gap
}

/// Shell sort with Knuth's gaps: insertion sort over elements `gap` apart,
/// for gaps that shrink down to 1, one comparison or exchange per step.
pub struct ShellSorter {
    gap: usize,
    sorted_end: usize,
    live_index: usize,
}

/// The state of a shell sorter: the current gap (0 once the sort has finished), the element taken up last and the position of the element being inserted.
pub struct ShellState {
    pub gap: usize,
    pub sorted_end: usize,
    pub live_index: usize,
}

/// Two positions of one chain of elements `g` apart lie at least `g` apart.
proof fn lemma_chain_apart(a: int, b: int, g: int)
    requires
        0 <= a < b,
        g > 0,
        a % g == b % g,
    ensures
        a + g <= b,
{
    lemma_fundamental_div_mod(a, g);
    lemma_fundamental_div_mod(b, g);
    let qa = a / g;
    let qb = b / g;
    assert(g * qa < g * qb);
    assert(qa < qb) by (nonlinear_arith) requires g * qa < g * qb, g > 0;
    assert(g * qa + g <= g * qb) by (nonlinear_arith) requires qa < qb, g > 0;
}

/// The positions below `g` lie in distinct chains.
proof fn lemma_chain_start(a: int, b: int, g: int)
    requires
        0 <= a < g,
        0 <= b < g,
        a % g == b % g,
    ensures
        a == b,
{
    lemma_small_mod(a as nat, g as nat);
    lemma_small_mod(b as nat, g as nat);
}

/// On data of fewer than two elements, steps change nothing.
proof fn lemma_steps_unchanged(s: ShellState, data: Seq<u8>, k: nat)
    requires
        data.len() <= 1,
    ensures
        steps::<ShellSorter>(s, data, k).1 == data,
    decreases k,
{
    if k > 0 {
        lemma_steps_unchanged(s, data, (k - 1) as nat);
    }
}

/// Bound on the steps of the pass with gap `g` from the point where it
/// takes up the element at `s`: each element from `s` on is moved at most
/// `position / g` times, then taken up, and one more step ends the pass.
pub open spec fn pass_cost(s: nat, g: nat, n: nat) -> nat
    decreases n - s,
{
    if s >= n {
        1
    } else {
        s / g + 1 + pass_cost(s + 1, g, n)
    }
}

/// Bound on the steps of the passes with gap `g` and the gaps after it.
pub open spec fn passes_cost(g: nat, n: nat) -> nat
    decreases g,
{
    if g == 0 {
        0
    } else {
        pass_cost(g, g, n) + passes_cost(((g - 1) / 3) as nat, n)
    }
}

/// The number of terms of Knuth's sequence up to `g`.
pub open spec fn knuth_count(g: nat) -> nat
    decreases g,
{
    if g <= 1 {
        1
    } else {
        1 + knuth_count(((g - 1) / 3) as nat)
    }
}

/// Twice the gap times the cost of a pass from `s` is at most twice the gap
/// times the elements left, plus the sum `2 * (s + ... + (n - 1))`.
proof fn lemma_pass_cost_bound(s: nat, g: nat, n: nat)
    requires
        1 <= g,
        s <= n,
    ensures
        2 * g * pass_cost(s, g, n) <= 2 * g * (n - s + 1) + (n - s) * (n + s - 1),
    decreases n - s,
{
    if s >= n {
        assert((n - s) * (n + s - 1) == 0) by (nonlinear_arith) requires s == n;
        assert(2 * g * 1 <= 2 * g * (n - s + 1)) by (nonlinear_arith) requires s == n;
    } else {
        lemma_pass_cost_bound(s + 1, g, n);
        lemma_fundamental_div_mod(s as int, g as int);
        lemma_mod_pos_bound(s as int, g as int);
        let q = s / g;
        let rest = pass_cost(s + 1, g, n);
        assert(g * q <= s) by (nonlinear_arith)
            requires s == g * q + s % g, s % g >= 0;
        assert(2 * g * (q + 1 + rest) <= 2 * g * (n - s + 1) + (n - s) * (n + s - 1)) by (nonlinear_arith)
            requires
                g * q <= s,
                2 * g * rest <= 2 * g * (n - (s + 1) + 1) + (n - (s + 1)) * (n + (s + 1) - 1),
                s < n;
    }
}

/// Knuth's sequence grows fast: there are few terms up to `g`.
proof fn lemma_knuth_count_bound(g: nat)
    requires
        is_knuth(g),
    ensures
        8 * knuth_count(g) <= g + 12,
    decreases g,
{
    if g > 1 {
        let h = ((g - 1) / 3) as nat;
        lemma_knuth_count_bound(h);
        if h > 1 {
            assert(h >= 4) by {
                reveal_with_fuel(is_knuth, 2);
            }
        }
    }
}

/// The passes from a gap `g` of 4 or more on cost at most the last pass
/// (gap 1), `n + 1` for each pass with a larger gap, and
/// `(3 / 16 - 1 / (4 g)) n (n - 1)` in all for the moves of those passes.
proof fn lemma_passes_cost_bound(g: nat, n: nat)
    requires
        is_knuth(g),
        4 <= g < n,
    ensures
        16 * g * (passes_cost(g, n) - pass_cost(1, 1, n) - (knuth_count(g) - 1) * (n + 1))
            <= (3 * g - 4) * (n * (n - 1)),
    decreases g,
{
    let h = ((g - 1) / 3) as nat;
    let bb = n * (n - 1);
    assert(g == 3 * h + 1);
    assert(is_knuth(h));
    let p = pass_cost(g, g, n);
    assert(passes_cost(g, n) == p + passes_cost(h, n));
    assert(knuth_count(g) == knuth_count(h) + 1);
    lemma_pass_cost_bound(g, g, n);
    let d = p - (n + 1);
    assert(2 * g * d <= bb) by (nonlinear_arith)
        requires
            2 * g * p <= 2 * g * (n - g + 1) + (n - g) * (n + g - 1),
            d == p - (n + 1),
            bb == n * (n - 1),
            1 <= g < n;
    let x = passes_cost(h, n) - pass_cost(1, 1, n) - (knuth_count(h) - 1) * (n + 1);
    let y = passes_cost(g, n) - pass_cost(1, 1, n) - (knuth_count(g) - 1) * (n + 1);
    let cg = knuth_count(g);
    let ch = knuth_count(h);
    assert((cg - 1) * (n + 1) == (ch - 1) * (n + 1) + (n + 1)) by (nonlinear_arith)
        requires cg == ch + 1;
    assert(y == d + x);
    if h == 1 {
        assert(passes_cost(1, n) == pass_cost(1, 1, n) + passes_cost(0, n));
        assert(knuth_count(1) == 1);
        assert((knuth_count(h) - 1) * (n + 1) == 0) by (nonlinear_arith)
            requires knuth_count(h) == 1;
        assert(x == 0);
        assert(16 * g * y <= (3 * g - 4) * bb) by (nonlinear_arith)
            requires g == 4, y == d, 2 * g * d <= bb;
    } else {
        assert(h >= 4) by {
            reveal_with_fuel(is_knuth, 2);
        }
        lemma_passes_cost_bound(h, n);
        assert(bb >= 0) by (nonlinear_arith) requires bb == n * (n - 1), n >= 1;
        assert(16 * x <= 3 * bb) by (nonlinear_arith)
            requires 16 * h * x <= (3 * h - 4) * bb, h >= 1, bb >= 0;
        assert(16 * g * y <= (3 * g - 4) * bb) by (nonlinear_arith)
            requires
                16 * h * x <= (3 * h - 4) * bb,
                16 * x <= 3 * bb,
                2 * g * d <= bb,
                y == d + x,
                g == 3 * h + 1;
    }
}

impl ShellSorter {
    /// A shell sorter for data of length `len`.
    pub fn new(len: usize) -> (s: Self)
        requires
            gap_fits(len as nat),
        ensures
            s@ == Self::initial(len as nat),
            Self::fits(s@, len as nat),
            len <= 1 ==> s@.gap == 0,
            len > 1 ==> is_knuth(s@.gap as nat) && 3 * s@.gap + 1 >= len && (s@.gap == 1 || s@.gap < len),
            s@.sorted_end == s@.gap && s@.live_index == s@.gap,
    {
        let gap = if len > 1 { initial_gap(len) } else { 0 };
        ShellSorter { gap, sorted_end: gap, live_index: gap }
    }

    /// The state of a new shell sorter for data of length `len`.
    pub open spec fn initial(len: nat) -> ShellState {
        let g = if len > 1 { knuth_gap(len) } else { 0 };
        ShellState { gap: g as usize, sorted_end: g as usize, live_index: g as usize }
    }

    /// No step of a shell sorter disturbs sorted data.
    pub proof fn lemma_sorted_kept(s: ShellState, data: Seq<u8>)
        requires
            Self::fits(s, data.len()),
            sorted(data),
        ensures
            Self::next(s, data).1 == data,
    {
    }

    /// A state that may be applied to data of one length may be applied to
    /// data of any other length whose first gap can be computed: the
    /// sorter may be handed slices of changing lengths (where a `usize` has
    /// 64 bits, every slice length qualifies: see `lemma_gap_fits_64`).
    pub proof fn lemma_fits_other_length(s: ShellState, len: nat, other: nat)
        requires
            Self::fits(s, len),
            other > 1 ==> gap_fits(other),
        ensures
            Self::fits(s, other),
    {
    }

    /// One step leaves the data as it is, or exchanges one pair of elements
    /// that lie the current gap apart and are out of order, and so leaves
    /// fewer pairs out of order.
    pub proof fn lemma_step_shape(s: ShellState, data: Seq<u8>)
        requires
            Self::fits(s, data.len()),
        ensures
            Self::next(s, data).1 == data || {
                let l = s.live_index as int;
                let p = l - s.gap;
                &&& 0 <= p < l < data.len()
                &&& data[p] > data[l]
                &&& Self::next(s, data).1 == swapped(data, p, l)
                &&& inversions(Self::next(s, data).1) < inversions(data)
            },
    {
        let n = data.len();
        let g = s.gap as int;
        let l = s.live_index as int;
        if n > 1 && g != 0 && s.sorted_end < n && !(l < g || data[l - g] <= data[l]) {
            lemma_swap_removes_inversion(data, l - g, l);
        }
    }

    /// A pass that starts with gap `g` at position `g` keeps the order on
    /// any data: each chain holds one element before position `g`.
    proof fn lemma_pass_start(s: ShellState, data: Seq<u8>)
        requires
            data.len() > 1,
            gap_fits(data.len()),
            data.len() <= usize::MAX,
            s.gap >= 1,
            is_knuth(s.gap as nat),
            s.sorted_end == s.gap,
            s.live_index == s.gap,
        ensures
            Self::keeps_order(s, data),
    {
        let g = s.gap as int;
        let n = data.len() as int;
        assert forall|a: int, b: int|
            0 <= a <= b < n && b <= g && a != g && b != g && a % g == b % g
                implies #[trigger] data[a] <= #[trigger] data[b] by {
            lemma_chain_start(a, b, g);
        }
    }

    /// A new sorter keeps its order on any data of the length it was made for.
    pub proof fn lemma_initial(data: Seq<u8>)
        requires
            gap_fits(data.len()),
            data.len() <= usize::MAX,
        ensures
            Self::keeps_order(Self::initial(data.len()), data),
    {
        lemma_knuth_gap_from(1, data.len());
        if data.len() > 1 {
            Self::lemma_pass_start(Self::initial(data.len()), data);
        }
    }

    /// When a pass with gap `g` ends, the data is `g`-sorted: every element
    /// is no smaller than the one `g` places before it.
    pub proof fn lemma_pass_end_chains_sorted(s: ShellState, data: Seq<u8>)
        requires
            Self::keeps_order(s, data),
            data.len() > 1,
            s.gap >= 1,
            s.sorted_end >= data.len(),
        ensures
            forall|j: int| s.gap <= j < data.len() ==> #[trigger] data[j - s.gap] <= data[j],
    {
        let g = s.gap as int;
        assert forall|j: int| g <= j < data.len() implies #[trigger] data[j - g] <= data[j] by {
            lemma_mod_sub_multiples_vanish(j, g);
            assert(data[j - g] <= data[j]);
        }
    }

    /// From a new sorter on any data, whenever a pass with gap `g` ends the
    /// data is `g`-sorted: every element is no smaller than the one `g`
    /// places before it.
    pub proof fn lemma_passes_leave_chains_sorted(data: Seq<u8>, k: nat)
        requires
            gap_fits(data.len()),
            1 < data.len() <= usize::MAX,
        ensures
            ({
                let (t, d) = steps::<Self>(Self::initial(data.len()), data, k);
                t.gap >= 1 && t.sorted_end >= data.len() ==> forall|j: int|
                    t.gap <= j < data.len() ==> #[trigger] d[j - t.gap] <= d[j]
            }),
    {
        Self::lemma_initial(data);
        lemma_steps_keep_order::<Self>(Self::initial(data.len()), data, k);
        let (t, d) = steps::<Self>(Self::initial(data.len()), data, k);
        if t.gap >= 1 && t.sorted_end >= data.len() {
            Self::lemma_pass_end_chains_sorted(t, d);
        }
    }

    /// A sorter that has finished (gap 0) starts again on whatever data it
    /// is handed: after `1 + n * n` steps or more on data of length `n`,
    /// that data is sorted.
    pub proof fn lemma_restart_sorts(s: ShellState, data: Seq<u8>, k: nat)
        requires
            s.gap == 0,
            gap_fits(data.len()),
            data.len() <= usize::MAX,
            k >= 1 + data.len() * data.len(),
        ensures
            data.len() > 1 ==> Self::next(s, data) == (Self::initial(data.len()), data),
            sorted(steps::<Self>(s, data, k).1),
    {
        let n = data.len();
        if n <= 1 {
            lemma_steps_unchanged(s, data, k);
        } else {
            assert(Self::next(s, data) == (Self::initial(n), data));
            assert(steps::<Self>(s, data, k) == steps::<Self>(Self::initial(n), data, (k - 1) as nat));
            Self::lemma_sorts(data, (k - 1) as nat);
        }
    }

    /// From a new sorter, after `n * n` steps or more on data of length
    /// `n`, the data is sorted.
    pub proof fn lemma_sorts(data: Seq<u8>, k: nat)
        requires
            gap_fits(data.len()),
            data.len() <= usize::MAX,
            k >= data.len() * data.len(),
        ensures
            sorted(steps::<Self>(Self::initial(data.len()), data, k).1),
    {
        let n = data.len();
        let s = Self::initial(n);
        Self::lemma_initial(data);
        if n > 1 {
            let g = knuth_gap(n);
            lemma_knuth_gap_from(1, n);
            lemma_fundamental_div_mod_converse(g as int, g as int, 1, 0);
            assert(Self::remaining(s, n) == passes_cost(g, n));
            if g == 1 {
                lemma_pass_cost_bound(1, 1, n);
                assert(passes_cost(1, n) == pass_cost(1, 1, n) + passes_cost(0, n));
                assert(pass_cost(1, 1, n) <= n * n) by (nonlinear_arith)
                    requires 2 * pass_cost(1, 1, n) <= 2 * n + (n - 1) * n, n >= 2;
            } else {
                assert(g >= 4) by {
                    reveal_with_fuel(is_knuth, 2);
                }
                lemma_passes_cost_bound(g, n);
                lemma_knuth_count_bound(g);
                lemma_pass_cost_bound(1, 1, n);
                let t = passes_cost(g, n);
                let p1 = pass_cost(1, 1, n);
                let cnt = knuth_count(g);
                let y = t - p1 - (cnt - 1) * (n + 1);
                let bb = n * (n - 1);
                assert(bb >= 0) by (nonlinear_arith) requires bb == n * (n - 1), n >= 1;
                assert(16 * y <= 3 * bb) by (nonlinear_arith)
                    requires 16 * g * y <= (3 * g - 4) * bb, g >= 1, bb >= 0;
                assert(t <= n * n) by (nonlinear_arith)
                    requires
                        16 * y <= 3 * bb,
                        y == t - p1 - (cnt - 1) * (n + 1),
                        bb == n * (n - 1),
                        2 * p1 <= 2 * n + (n - 1) * n,
                        8 * cnt <= g + 12,
                        4 <= g < n,
                        cnt >= 1;
            }
        }
        assert forall|t: ShellState, d: Seq<u8>| Self::keeps_order(t, d) && sorted(d) implies #[trigger] Self::next(t, d).1 == d by {
            Self::lemma_sorted_kept(t, d);
        }
        lemma_sorted_from::<Self>(s, data, k);
    }
}

impl View for ShellSorter {
    type V = ShellState;

    closed spec fn view(&self) -> ShellState {
        ShellState { gap: self.gap, sorted_end: self.sorted_end, live_index: self.live_index }
    }
}

impl Sorter for ShellSorter {
    open spec fn fits(s: ShellState, len: nat) -> bool {
        &&& len > 1 ==> gap_fits(len)
        &&& s.gap != 0 ==> s.live_index <= s.sorted_end
    }

    open spec fn next(s: ShellState, data: Seq<u8>) -> (ShellState, Seq<u8>) {
        let n = data.len();
        let g = s.gap;
        let e = s.sorted_end;
        let l = s.live_index;
        if n <= 1 {
            (s, data)
        } else if g == 0 {
            let g0 = knuth_gap(n) as usize;
            (ShellState { gap: g0, sorted_end: g0, live_index: g0 }, data)
        } else if e >= n {
            let ng = ((g - 1) / 3) as usize;
            if ng == 0 {
                (ShellState { gap: 0, sorted_end: e, live_index: l }, data)
            } else {
                (ShellState { gap: ng, sorted_end: ng, live_index: ng }, data)
            }
        } else if l < g || data[l - g] <= data[l as int] {
            (ShellState { gap: g, sorted_end: (e + 1) as usize, live_index: (e + 1) as usize }, data)
        } else {
            (ShellState { gap: g, sorted_end: e, live_index: (l - g) as usize }, swapped(data, l - g, l as int))
        }
    }

    /// The gap is a term of Knuth's sequence; in the pass with gap `g`, on
    /// each chain of elements `g` apart, the data up to `end` but the element
    /// being inserted is sorted, and that element is no larger than anything
    /// after it on its chain up to `end`; once the gap is 0, all the data is
    /// sorted.
    open spec fn keeps_order(s: ShellState, data: Seq<u8>) -> bool {
        let n = data.len();
        let g = s.gap as int;
        let e = s.sorted_end as int;
        let l = s.live_index as int;
        &&& Self::fits(s, n)
        &&& n <= usize::MAX
        &&& n > 1 ==> {
            &&& g == 0 ==> sorted(data)
            &&& g != 0 ==> {
                &&& is_knuth(g as nat)
                &&& g <= e
                &&& e >= n ==> l == e
                &&& l % g == e % g
                &&& forall|a: int, b: int|
                    0 <= a <= b < n && b <= e && a != l && b != l && a % g == b % g
                        ==> #[trigger] data[a] <= #[trigger] data[b]
                &&& e < n ==> forall|k: int| l < k <= e && k % g == l % g ==> data[l] <= #[trigger] data[k]
            }
        }
    }

    open spec fn finished(s: ShellState, len: nat) -> bool {
        len <= 1 || s.gap == 0
    }

    open spec fn remaining(s: ShellState, len: nat) -> nat {
        if len <= 1 || s.gap == 0 {
            0
        } else {
            let g = s.gap as nat;
            let rest = if s.sorted_end >= len {
                1
            } else {
                s.live_index as nat / g + 1 + pass_cost(s.sorted_end as nat + 1, g, len)
            };
            rest + passes_cost(((g - 1) / 3) as nat, len)
        }
    }

    proof fn lemma_step(s: ShellState, data: Seq<u8>) {
        let n = data.len() as int;
        let g = s.gap as int;
        let e = s.sorted_end as int;
        let l = s.live_index as int;
        let (s1, d1) = Self::next(s, data);
        if n <= 1 {
            assert(sorted(data));
        } else if g == 0 {
            lemma_knuth_gap_from(1, n as nat);
            Self::lemma_pass_start(s1, d1);
        } else if e >= n {
            let ng = (g - 1) / 3;
            if ng == 0 {
                assert(sorted(d1)) by {
                    assert forall|a: int, b: int| 0 <= a <= b < n implies d1[a] <= d1[b] by {
                        lemma_mod_pos_bound(a, 1);
                        lemma_mod_pos_bound(b, 1);
                        assert(data[a] <= data[b]);
                    }
                }
                assert(Self::keeps_order(s1, d1));
            } else {
                assert(is_knuth(ng as nat));
                Self::lemma_pass_start(s1, d1);
                lemma_fundamental_div_mod_converse(ng, ng, 1, 0);
            }
        } else if l < g || data[l - g] <= data[l] {
            assert forall|a: int, b: int|
                0 <= a <= b < n && b <= e + 1 && a != e + 1 && b != e + 1 && a % g == b % g
                    implies #[trigger] d1[a] <= #[trigger] d1[b] by {
                if a == l && b != l && a < b {
                    assert(data[l] <= data[b]);
                } else if b == l && a != l && a < b {
                    lemma_chain_apart(a, l, g);
                    if l < g {
                    } else if a == l - g {
                    } else {
                        lemma_mod_sub_multiples_vanish(l, g);
                        assert(data[a] <= data[l - g]);
                    }
                }
            }
            assert(Self::keeps_order(s1, d1));
        } else {
            lemma_fundamental_div_mod(l, g);
            lemma_mod_pos_bound(l, g);
            assert(l - g == (l / g - 1) * g + l % g) by (nonlinear_arith)
                requires l == g * (l / g) + l % g;
            lemma_fundamental_div_mod_converse(l - g, g, l / g - 1, l % g);
            lemma_mod_sub_multiples_vanish(l, g);
            let p = l - g;
            assert(p % g == l % g);
            assert forall|a: int, b: int|
                0 <= a <= b < n && b <= e && a != p && b != p && a % g == b % g
                    implies #[trigger] d1[a] <= #[trigger] d1[b] by {
                if a == l && b != l {
                    assert(data[p] <= data[b]);
                } else if b == l && a != l {
                    lemma_chain_apart(a, l, g);
                    assert(data[a] <= data[p]);
                } else {
                    assert(data[a] <= data[b]);
                }
            }
            assert forall|k: int| p < k <= e && k % g == p % g implies d1[p] <= #[trigger] d1[k] by {
                if k > l {
                    assert(data[l] <= data[k]);
                } else if k < l {
                    lemma_chain_apart(k, l, g);
                }
            }
            assert(Self::keeps_order(s1, d1));
        }
    }

    fn sort_step(&mut self, data: &mut [u8]) {
        let n = data.len();
        if n <= 1 {
            return;
        }
        if self.gap == 0 {
            // Finished sorting: start again.
            let gap = initial_gap(n);
            self.gap = gap;
            self.sorted_end = gap;
            self.live_index = gap;
            return;
        }
        if self.sorted_end >= n {
            // Done with this gap: shrink to the next Knuth gap (h = (h - 1) / 3).
            let new_gap = (self.gap - 1) / 3;
            if new_gap == 0 {
                // The pass with gap 1 is complete: the sort is done.
                self.gap = 0;
            } else {
                self.gap = new_gap;
                self.sorted_end = new_gap;
                self.live_index = new_gap;
            }
        } else if self.live_index < self.gap || data[self.live_index - self.gap] <= data[self.live_index] {
            // The element is in place for this gap: take up the next one.
            self.sorted_end += 1;
            self.live_index = self.sorted_end;
        } else {
            // Move the element one gap to the left.
            swap_elems(data, self.live_index - self.gap, self.live_index);
            self.live_index -= self.gap;
        }
    }
}

} // verus!
