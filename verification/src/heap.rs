use vstd::prelude::*;
use crate::sorter::{Sorter, swapped, sorted, swap_elems, steps, lemma_sorts_within};

verus! {

/// Heap sort: a max-heap is built by sifting down each inner node, then the
/// root is moved behind the heap again and again; each step is one
/// sift-down step (with the exchange that starts a new sift).
pub struct HeapSorter {
    building: bool,
    build_index: usize,
    heap_end: usize,
    sift_pos: usize,
    sifting: bool,
}

/// The state of a heap sorter: whether the heap is being built and from which node, the last position of the heap, and whether and where a sift-down is under way.
pub struct HeapState {
    pub building: bool,
    pub build_index: usize,
    pub heap_end: usize,
    pub sift_pos: usize,
    pub sifting: bool,
}

/// Neither child of node `k` that lies in the first `size` positions is
/// larger than node `k`.
pub open spec fn node_ok(data: Seq<u8>, size: int, k: int) -> bool {
    &&& 2 * k + 1 < size ==> data[2 * k + 1] <= data[k]
    &&& 2 * k + 2 < size ==> data[2 * k + 2] <= data[k]
}

/// Neither child of node `p` that lies in the first `size` positions is
/// larger than the parent of `p`.
pub open spec fn grand_ok(data: Seq<u8>, size: int, p: int) -> bool {
    &&& 2 * p + 1 < size ==> data[2 * p + 1] <= data[(p - 1) / 2]
    &&& 2 * p + 2 < size ==> data[2 * p + 2] <= data[(p - 1) / 2]
}

/// The number of levels from node `p` down to the deepest leaf below it, in
/// a heap over the first `size` positions: a bound on the steps of a
/// sift-down from `p`.
pub open spec fn depth(p: nat, size: nat) -> nat
    decreases size - p,
{
    if 2 * p + 1 >= size {
        1
    } else {
        1 + depth(2 * p + 1, size)
    }
}

/// Bound on the steps of the sift-downs that build the heap from nodes
/// `count - 1` down to 0, in a heap over the first `size` positions.
pub open spec fn build_cost(count: nat, size: nat) -> nat
    decreases count,
{
    if count == 0 {
        0
    } else {
        build_cost((count - 1) as nat, size) + depth((count - 1) as nat, size)
    }
}

/// Bound on the steps of the extractions from a heap whose last position
/// is `h`.
pub open spec fn extract_cost(h: nat) -> nat
    decreases h,
{
    if h == 0 {
        0
    } else {
        extract_cost((h - 1) as nat) + depth(0, h)
    }
}

/// Nodes further on have no more levels below them.
proof fn lemma_depth_monotone(p: nat, q: nat, size: nat)
    requires
        p <= q,
    ensures
        depth(q, size) <= depth(p, size),
    decreases size - p,
{
    if 2 * q + 1 < size {
        lemma_depth_monotone(2 * p + 1, 2 * q + 1, size);
    }
}

/// A sift-down from `p` takes at most as many steps as there are positions
/// from `p` on.
proof fn lemma_depth_bound(p: nat, size: nat)
    requires
        p < size,
    ensures
        1 <= depth(p, size) <= size - p,
    decreases size - p,
{
    if 2 * p + 1 < size {
        lemma_depth_bound(2 * p + 1, size);
    }
}

/// `build_cost(c, n)` is at most `n + (n - 1) + ... + (n - c + 1)`.
proof fn lemma_build_cost_bound(c: nat, n: nat)
    requires
        c <= n,
    ensures
        build_cost(c, n) * 2 + c * (c - 1) <= 2 * c * n,
    decreases c,
{
    if c > 0 {
        lemma_build_cost_bound((c - 1) as nat, n);
        lemma_depth_bound((c - 1) as nat, n);
        let c1 = (c - 1) as nat;
        let d = depth(c1, n);
        let b1 = build_cost(c1, n);
        assert(build_cost(c, n) == b1 + d);
        assert((b1 + d) * 2 + c * (c - 1) <= 2 * c * n) by (nonlinear_arith)
            requires
                b1 * 2 + c1 * (c1 - 1) <= 2 * c1 * n,
                d <= n - c1,
                c == c1 + 1,
                c <= n;
    } else {
        assert(c * (c - 1) == 0) by (nonlinear_arith) requires c == 0;
    }
}

/// `extract_cost(h)` is at most `1 + 2 + ... + h`.
proof fn lemma_extract_cost_bound(h: nat)
    ensures
        extract_cost(h) * 2 <= h * (h + 1),
    decreases h,
{
    if h > 0 {
        lemma_extract_cost_bound((h - 1) as nat);
        lemma_depth_bound(0, h);
        assert(((h - 1) as nat) * h + 2 * h == h * (h + 1)) by (nonlinear_arith) requires h >= 1;
    }
}

/// In a max-heap over the first `size` positions, the root is the largest.
pub proof fn lemma_root_is_max(data: Seq<u8>, size: int, k: int)
    requires
        0 <= k < size <= data.len(),
        forall|j: int| 0 <= j < size ==> #[trigger] node_ok(data, size, j),
    ensures
        data[k] <= data[0],
    decreases k,
{
    if k > 0 {
        let q = (k - 1) / 2;
        assert(node_ok(data, size, q));
        lemma_root_is_max(data, size, q);
    }
}

impl HeapSorter {
    /// A heap sorter for data of length `len`.
    pub fn new(len: usize) -> (s: Self)
        ensures
            s@ == Self::initial(len as nat),
            len <= usize::MAX / 2 ==> Self::fits(s@, len as nat),
    {
        HeapSorter {
            building: true,
            build_index: if len > 1 { len / 2 - 1 } else { 0 },
            heap_end: len.saturating_sub(1),
            sift_pos: 0,
            sifting: false,
        }
    }

    /// The state of a new heap sorter for data of length `len`.
    pub open spec fn initial(len: nat) -> HeapState {
        HeapState {
            building: true,
            build_index: if len > 1 { (len / 2 - 1) as usize } else { 0 },
            heap_end: if len > 0 { (len - 1) as usize } else { 0 },
            sift_pos: 0,
            sifting: false,
        }
    }

    /// A new sorter keeps its order on any data of the length it was made for.
    pub proof fn lemma_initial(data: Seq<u8>)
        requires
            data.len() <= usize::MAX / 2,
        ensures
            Self::keeps_order(Self::initial(data.len()), data),
    {
        let n = data.len() as int;
        let s = Self::initial(data.len());
        if n > 1 {
            assert forall|k: int| s.build_index < k < n implies #[trigger] node_ok(data, n, k) by {}
        }
    }

    /// From a sorter about to build the heap over all the data, within
    /// `n * n` steps on data of length `n >= 2`, and after at least one,
    /// there is a point where the data is sorted.
    proof fn lemma_sorts_from(t: HeapState, data: Seq<u8>)
        requires
            2 <= data.len() <= usize::MAX / 2,
            t.building,
            !t.sifting,
            t.build_index == Self::initial(data.len()).build_index,
            t.heap_end == Self::initial(data.len()).heap_end,
        ensures
            exists|k: nat| 1 <= k <= data.len() * data.len() && sorted(#[trigger] steps::<Self>(t, data, k).1),
    {
        let n = data.len();
        assert forall|k: int| t.build_index < k < n implies #[trigger] node_ok(data, n as int, k) by {}
        assert(Self::keeps_order(t, data));
        lemma_sorts_within::<Self>(t, data);
        let c = (n / 2) as nat;
        lemma_build_cost_bound(c, n);
        lemma_extract_cost_bound((n - 1) as nat);
        let bc = build_cost(c, n);
        let ec = extract_cost((n - 1) as nat);
        assert(t.build_index as nat + 1 == c);
        assert(Self::remaining(t, n) == bc + ec);
        assert(bc + ec <= n * n) by (nonlinear_arith)
            requires
                bc * 2 + c * (c - 1) <= 2 * c * n,
                ec * 2 <= (n - 1) * n,
                2 * c <= n,
                c >= 1;
        let k0 = choose|k: nat|
            k <= Self::remaining(t, n) && Self::finished(steps::<Self>(t, data, k).0, n)
                && sorted(#[trigger] steps::<Self>(t, data, k).1);
        assert(k0 != 0);
        assert(k0 <= n * n);
    }

    /// From a new sorter, within `n * n` steps on data of length `n`, and
    /// after at least one, there is a point where the data is sorted.
    pub proof fn lemma_sorts(data: Seq<u8>)
        requires
            1 <= data.len() <= usize::MAX / 2,
        ensures
            exists|k: nat| 1 <= k <= data.len() * data.len() && sorted(#[trigger] steps::<Self>(Self::initial(data.len()), data, k).1),
    {
        let n = data.len();
        let s = Self::initial(n);
        if n <= 1 {
            assert(steps::<Self>(s, data, 1) == steps::<Self>(s, data, 0));
            assert(sorted(steps::<Self>(s, data, 1).1));
            assert(n * n == 1) by (nonlinear_arith) requires n == 1;
        } else {
            Self::lemma_sorts_from(s, data);
        }
    }

    /// A sorter that has finished (no heap left to build or extract from)
    /// starts again on whatever data it is handed: within `1 + n * n` steps
    /// on data of length `n >= 2`, and after at least two, there is a point
    /// where that data is sorted.
    pub proof fn lemma_restart_sorts(s: HeapState, data: Seq<u8>)
        requires
            2 <= data.len() <= usize::MAX / 2,
            !s.building,
            !s.sifting,
            s.heap_end == 0,
        ensures
            ({
                let (t, d) = Self::next(s, data);
                let i = Self::initial(data.len());
                &&& d == data
                &&& t.building && !t.sifting
                &&& t.build_index == i.build_index && t.heap_end == i.heap_end
            }),
            exists|k: nat| 2 <= k <= 1 + data.len() * data.len() && sorted(#[trigger] steps::<Self>(s, data, k).1),
    {
        let n = data.len();
        let t = Self::next(s, data).0;
        assert(Self::next(s, data).1 == data);
        Self::lemma_sorts_from(t, data);
        let k0 = choose|k: nat| 1 <= k <= n * n && sorted(#[trigger] steps::<Self>(t, data, k).1);
        assert(steps::<Self>(s, data, k0 + 1) == steps::<Self>(t, data, k0));
        assert(sorted(steps::<Self>(s, data, k0 + 1).1));
    }

    /// One step exchanges at most two pairs of elements: the root with the
    /// last element of the heap, when an extraction starts, and a node with
    /// one of its children.
    pub proof fn lemma_step_shape(s: HeapState, data: Seq<u8>)
        requires
            Self::fits(s, data.len()),
        ensures
            Self::next(s, data).1 == data || exists|a: int, b: int, c: int, e: int|
                #![trigger swapped(swapped(data, a, b), c, e)]
                0 <= a < data.len() && 0 <= b < data.len() && 0 <= c < data.len() && 0 <= e < data.len()
                    && Self::next(s, data).1 == swapped(swapped(data, a, b), c, e),
    {
        let n = data.len() as int;
        if n > 1 && !(!s.sifting && !s.building && s.heap_end == 0) {
            let (s0, d0, a) = if s.sifting {
                (s, data, 0int)
            } else if s.building {
                (HeapState { sift_pos: s.build_index, sifting: true, ..s }, data, 0int)
            } else {
                (HeapState { heap_end: (s.heap_end - 1) as usize, sift_pos: 0, sifting: true, ..s },
                    swapped(data, 0, s.heap_end as int), s.heap_end as int)
            };
            assert(d0 == swapped(data, 0, a));
            let p = s0.sift_pos as int;
            let size = s0.heap_end + 1;
            let m1 = if 2 * p + 1 < size && d0[2 * p + 1] > d0[p] { 2 * p + 1 } else { p };
            let m = if 2 * p + 2 < size && d0[2 * p + 2] > d0[m1] { 2 * p + 2 } else { m1 };
            assert(Self::next(s, data) == Self::sift(s0, d0));
            if m == p {
                assert(swapped(d0, 0, 0) == d0);
                assert(Self::next(s, data).1 == swapped(swapped(data, 0, a), 0, 0));
            } else {
                assert(Self::next(s, data).1 == swapped(swapped(data, 0, a), p, m));
            }
        }
    }

    /// One sift-down step at `sift_pos` in the heap `[0, heap_end]`.
    pub open spec fn sift(s: HeapState, data: Seq<u8>) -> (HeapState, Seq<u8>) {
        let p = s.sift_pos as int;
        let size = s.heap_end + 1;
        let left = 2 * p + 1;
        let right = 2 * p + 2;
        let m1 = if left < size && data[left] > data[p] { left } else { p };
        let m = if right < size && data[right] > data[m1] { right } else { m1 };
        if m != p {
            (HeapState { sift_pos: m as usize, ..s }, swapped(data, p, m))
        } else if s.building {
            if s.build_index == 0 {
                (HeapState { sifting: false, building: false, ..s }, data)
            } else {
                (HeapState { sifting: false, build_index: (s.build_index - 1) as usize, ..s }, data)
            }
        } else {
            (HeapState { sifting: false, ..s }, data)
        }
    }

    /// One sift-down step keeps the order and brings the sorter closer to
    /// its end.
    proof fn lemma_sift(s: HeapState, data: Seq<u8>)
        requires
            s.sifting,
            data.len() > 1,
            Self::keeps_order(s, data),
        ensures
            Self::keeps_order(Self::sift(s, data).0, Self::sift(s, data).1),
            Self::sift(s, data).1.len() == data.len(),
            Self::remaining(Self::sift(s, data).0, data.len()) < Self::remaining(s, data.len()),
    {
        let n = data.len() as int;
        let h = s.heap_end as int;
        let b = s.build_index as int;
        let p = s.sift_pos as int;
        let size = h + 1;
        let r = if s.building { b } else { 0 };
        let left = 2 * p + 1;
        let right = 2 * p + 2;
        let m1 = if left < size && data[left] > data[p] { left } else { p };
        let m = if right < size && data[right] > data[m1] { right } else { m1 };
        let (s1, d1) = Self::sift(s, data);
        assert(forall|k: int| r <= k < size && k != p ==> #[trigger] node_ok(data, size, k));
        if m != p {
            assert((m - 1) / 2 == p);
            assert forall|k: int| r <= k < size && k != m implies #[trigger] node_ok(d1, size, k) by {
                if k == p {
                } else if p != r && k == (p - 1) / 2 {
                    assert(grand_ok(data, size, p));
                    assert(node_ok(data, size, k));
                } else {
                    assert(node_ok(data, size, k));
                }
            }
            assert(node_ok(data, size, m));
            assert(grand_ok(d1, size, m));
            assert forall|a: int, c: int| 0 <= a < c < n && c > h implies #[trigger] d1[a] <= #[trigger] d1[c] by {
                assert(data[p] <= data[c]);
                assert(data[m] <= data[c]);
                assert(data[a] <= data[c]);
            }
            assert(Self::keeps_order(s1, d1));
            lemma_depth_monotone(2 * p as nat + 1, m as nat, size as nat);
        } else {
            assert(node_ok(data, size, p));
            assert(forall|k: int| r <= k < size ==> #[trigger] node_ok(data, size, k));
            assert(Self::keeps_order(s1, d1));
            if s.building && b > 0 {
                assert(((b - 1) as nat + 1) as nat == b as nat);
            }
        }
    }
}

impl View for HeapSorter {
    type V = HeapState;

    closed spec fn view(&self) -> HeapState {
        HeapState { building: self.building, build_index: self.build_index, heap_end: self.heap_end, sift_pos: self.sift_pos, sifting: self.sifting }
    }
}

impl Sorter for HeapSorter {
    open spec fn fits(s: HeapState, len: nat) -> bool {
        len <= 1 || {
            &&& len <= usize::MAX / 2
            &&& s.heap_end < len
            &&& s.sifting ==> s.sift_pos <= s.heap_end
            &&& s.building ==> s.build_index <= s.heap_end
        }
    }

    open spec fn next(s: HeapState, data: Seq<u8>) -> (HeapState, Seq<u8>) {
        let n = data.len();
        if n <= 1 {
            (s, data)
        } else if !s.sifting && !s.building && s.heap_end == 0 {
            (HeapState {
                building: true,
                build_index: (n / 2 - 1) as usize,
                heap_end: (n - 1) as usize,
                ..s
            }, data)
        } else if s.sifting {
            Self::sift(s, data)
        } else if s.building {
            Self::sift(HeapState { sift_pos: s.build_index, sifting: true, ..s }, data)
        } else {
            Self::sift(HeapState { heap_end: (s.heap_end - 1) as usize, sift_pos: 0, sifting: true, ..s },
                swapped(data, 0, s.heap_end as int),
            )
        }
    }

    /// After `heap_last` the data is sorted and no smaller than anything in
    /// the heap; the heap property holds at every node of the part being
    /// heaped but the one being sifted down, whose children are no larger
    /// than its parent.
    open spec fn keeps_order(s: HeapState, data: Seq<u8>) -> bool {
        let n = data.len() as int;
        let h = s.heap_end as int;
        let b = s.build_index as int;
        let p = s.sift_pos as int;
        &&& Self::fits(s, data.len())
        &&& n > 1 ==> {
            &&& forall|a: int, c: int| 0 <= a < c < n && c > h ==> #[trigger] data[a] <= #[trigger] data[c]
            &&& s.building ==> h == n - 1
            &&& s.building && !s.sifting ==> forall|k: int| b < k < n ==> #[trigger] node_ok(data, n, k)
            &&& s.building && s.sifting ==> {
                &&& b <= p
                &&& forall|k: int| b <= k < n && k != p ==> #[trigger] node_ok(data, n, k)
                &&& p != b ==> grand_ok(data, n, p)
            }
            &&& !s.building && !s.sifting ==> forall|k: int| 0 <= k <= h ==> #[trigger] node_ok(data, h + 1, k)
            &&& !s.building && s.sifting ==> {
                &&& forall|k: int| 0 <= k <= h && k != p ==> #[trigger] node_ok(data, h + 1, k)
                &&& p != 0 ==> grand_ok(data, h + 1, p)
            }
        }
    }

    open spec fn finished(s: HeapState, len: nat) -> bool {
        len <= 1 || (!s.building && !s.sifting && s.heap_end == 0)
    }

    open spec fn remaining(s: HeapState, len: nat) -> nat {
        let h = s.heap_end as nat;
        let sift_left = if s.sifting { depth(s.sift_pos as nat, h + 1) } else { 0 };
        let builds = if s.building {
            if s.sifting { build_cost(s.build_index as nat, len) } else { build_cost(s.build_index as nat + 1, len) }
        } else {
            0
        };
        if len <= 1 {
            0
        } else {
            sift_left + builds + extract_cost(h)
        }
    }

    proof fn lemma_step(s: HeapState, data: Seq<u8>) {
        let n = data.len() as int;
        let h = s.heap_end as int;
        let b = s.build_index as int;
        if n <= 1 {
            assert(sorted(data));
        } else if !s.sifting && !s.building && h == 0 {
            assert(sorted(data)) by {
                assert forall|a: int, c: int| 0 <= a <= c < n implies data[a] <= data[c] by {
                    if a < c {
                        assert(data[a] <= data[c]);
                    }
                }
            }
            let (s1, d1) = Self::next(s, data);
            assert forall|k: int| s1.build_index < k < n implies #[trigger] node_ok(d1, n, k) by {}
            assert(Self::keeps_order(s1, d1));
        } else if s.sifting {
            Self::lemma_sift(s, data);
        } else if s.building {
            let s0 = HeapState { sift_pos: s.build_index, sifting: true, ..s };
            assert(Self::keeps_order(s0, data));
            Self::lemma_sift(s0, data);
        } else {
            let s0 = HeapState { heap_end: (h - 1) as usize, sift_pos: 0, sifting: true, ..s };
            let d0 = swapped(data, 0, h);
            assert forall|k: int| 0 <= k <= h implies #[trigger] data[k] <= data[0] by {
                lemma_root_is_max(data, h + 1, k);
            }
            assert forall|a: int, c: int| 0 <= a < c < n && c > h - 1 implies #[trigger] d0[a] <= #[trigger] d0[c] by {
                if c == h {
                    assert(data[a] <= data[0]);
                    assert(data[h] <= data[0]);
                } else {
                    assert(data[h] <= data[c]);
                    assert(data[0] <= data[c]);
                    assert(data[a] <= data[c]);
                }
            }
            assert forall|k: int| 0 <= k <= h - 1 && k != 0 implies #[trigger] node_ok(d0, h, k) by {
                assert(node_ok(data, h + 1, k));
            }
            assert(Self::keeps_order(s0, d0));
            Self::lemma_sift(s0, d0);
        }
    }

    fn sort_step(&mut self, data: &mut [u8]) {
        let n = data.len();
        if n <= 1 {
            return;
        }
        if !self.sifting {
            if self.building {
                self.sift_pos = self.build_index;
            } else {
                if self.heap_end == 0 {
                    // Finished sorting: start again.
                    self.building = true;
                    self.build_index = n / 2 - 1;
                    self.heap_end = n - 1;
                    return;
                }
                // Move the root behind the heap and shrink the heap.
                swap_elems(data, 0, self.heap_end);
                self.heap_end -= 1;
                self.sift_pos = 0;
            }
            self.sifting = true;
        }
        // One sift-down step: exchange with the largest child if it is larger.
        let pos = self.sift_pos;
        let left = 2 * pos + 1;
        let right = 2 * pos + 2;
        let heap_size = self.heap_end + 1;
        let mut largest = pos;
        if left < heap_size && data[left] > data[largest] {
            largest = left;
        }
        if right < heap_size && data[right] > data[largest] {
            largest = right;
        }
        if largest != pos {
            swap_elems(data, pos, largest);
            self.sift_pos = largest;
        } else {
            // The element is in place: this sift-down is done.
            self.sifting = false;
            if self.building {
                if self.build_index == 0 {
                    self.building = false;
                } else {
                    self.build_index -= 1;
                }
            }
        }
    }
}

} // verus!
