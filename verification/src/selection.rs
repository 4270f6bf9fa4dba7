use vstd::prelude::*;
use crate::sorter::{Sorter, swapped, sorted, swap_elems, steps, lemma_sorted_from};
use crate::inversions::{inversions, lemma_swap_removes_inversion};

verus! {

/// Selection sort: each step compares one element with the smallest found
/// so far, or, at the end of a scan, puts that smallest element in place.
pub struct SelectionSorter {
    sorted_end: usize,
    scan: usize,
    min_index: usize,
}

/// The state of a selection sorter: the position being filled, the position compared next and that of the smallest element found so far.
pub struct SelectionState {
    pub sorted_end: usize,
    pub scan: usize,
    pub min_index: usize,
}

/// Steps that a selection sort on data of length `n` takes from the start of
/// the scan that fills position `s` until it finishes.
pub open spec fn scans_from(s: nat, n: nat) -> nat
    decreases n - s,
{
    if s + 1 >= n {
        0
    } else {
        (n - s) as nat + scans_from(s + 1, n)
    }
}

/// `scans_from(s, n)` is `(n - s) + (n - s - 1) + ... + 2`.
proof fn lemma_scans_exact(s: nat, n: nat)
    requires
        s < n,
    ensures
        2 * scans_from(s, n) + 2 == (n - s) * (n - s + 1),
    decreases n - s,
{
    let d = (n - s) as int;
    if s + 1 < n {
        lemma_scans_exact(s + 1, n);
        assert(scans_from(s, n) == d + scans_from(s + 1, n));
        assert(2 * d + (d - 1) * d == d * (d + 1)) by (nonlinear_arith);
    } else {
        assert(d == 1);
        assert(d * (d + 1) == 2) by (nonlinear_arith) requires d == 1;
    }
}

impl SelectionSorter {
    /// A new selection sorter: it fills position 0 first.
    pub fn new() -> (s: Self)
        ensures
            s@ == Self::initial(),
            forall|len: nat| 1 <= len ==> #[trigger] Self::fits(s@, len),
    {
        SelectionSorter { sorted_end: 0, scan: 1, min_index: 0 }
    }

    /// The state of a new selection sorter.
    pub open spec fn initial() -> SelectionState {
        SelectionState { sorted_end: 0, scan: 1, min_index: 0 }
    }

    /// One step leaves the data as it is, or, at the end of a scan, exchanges
    /// the element at `sorted_end` with the smallest one found.
    pub proof fn lemma_step_shape(s: SelectionState, data: Seq<u8>)
        requires
            Self::fits(s, data.len()),
        ensures
            Self::next(s, data).1 == data || {
                let e = s.sorted_end as int;
                let m = s.min_index as int;
                &&& e < data.len() && m < data.len()
                &&& s.scan >= data.len()
                &&& Self::next(s, data).1 == swapped(data, e, m)
            },
    {
    }

    /// While the sorter keeps its order, a step that changes the data leaves
    /// fewer pairs out of order: the smallest element found is smaller than
    /// the one it is exchanged with.
    pub proof fn lemma_step_lowers_inversions(s: SelectionState, data: Seq<u8>)
        requires
            Self::keeps_order(s, data),
        ensures
            Self::next(s, data).1 == data || inversions(Self::next(s, data).1) < inversions(data),
    {
        let e = s.sorted_end as int;
        let m = s.min_index as int;
        if e < data.len() - 1 && s.scan >= data.len() {
            if data[m] < data[e] {
                lemma_swap_removes_inversion(data, e, m);
            } else {
                assert(swapped(data, e, m) =~= data);
            }
        }
    }

    /// At the end of a scan, the element placed at `sorted_end` is the first
    /// of the smallest elements from `sorted_end` on.
    pub proof fn lemma_scan_end_places_first_minimum(s: SelectionState, data: Seq<u8>)
        requires
            Self::keeps_order(s, data),
            s.sorted_end + 1 < data.len(),
            s.scan >= data.len(),
        ensures
            ({
                let e = s.sorted_end as int;
                let m = s.min_index as int;
                &&& e <= m < data.len()
                &&& forall|k: int| e <= k < data.len() ==> data[m] <= #[trigger] data[k]
                &&& forall|k: int| e <= k < m ==> data[m] < #[trigger] data[k]
                &&& Self::next(s, data).1 == swapped(data, e, m)
            }),
    {
    }

    /// A selection sorter that keeps its order never disturbs sorted data.
    pub proof fn lemma_sorted_kept(s: SelectionState, data: Seq<u8>)
        requires
            Self::keeps_order(s, data),
            sorted(data),
        ensures
            Self::next(s, data).1 == data,
    {
        let e = s.sorted_end as int;
        let m = s.min_index as int;
        if e + 1 < data.len() && s.scan >= data.len() {
            assert(data[m] <= data[e]);
            assert(data[e] <= data[m]);
            assert(swapped(data, e, m) =~= data);
        }
    }

    /// A sorter that has finished starts again on whatever data it is
    /// handed: after `n (n + 1) / 2` steps or more on data of length `n`,
    /// that data is sorted.
    pub proof fn lemma_restart_sorts(s: SelectionState, data: Seq<u8>, k: nat)
        requires
            s.sorted_end + 1 >= data.len(),
            1 <= data.len() <= usize::MAX,
            2 * k >= data.len() * (data.len() + 1),
        ensures
            Self::next(s, data) == (Self::initial(), data),
            sorted(steps::<Self>(s, data, k).1),
    {
        let n = data.len();
        assert(n * (n + 1) >= 2) by (nonlinear_arith) requires n >= 1;
        assert(steps::<Self>(s, data, k) == steps::<Self>(Self::initial(), data, (k - 1) as nat));
        Self::lemma_sorts(data, (k - 1) as nat);
    }

    /// From a new sorter, after `n (n + 1) / 2 - 1` steps or more on data
    /// of length `n`, the data is sorted.
    pub proof fn lemma_sorts(data: Seq<u8>, k: nat)
        requires
            1 <= data.len() <= usize::MAX,
            2 * k + 2 >= data.len() * (data.len() + 1),
        ensures
            sorted(steps::<Self>(Self::initial(), data, k).1),
    {
        let s = Self::initial();
        let n = data.len();
        lemma_scans_exact(0, n);
        assert(Self::keeps_order(s, data));
        assert forall|t: SelectionState, d: Seq<u8>| Self::keeps_order(t, d) && sorted(d) implies #[trigger] Self::next(t, d).1 == d by {
            Self::lemma_sorted_kept(t, d);
        }
        lemma_sorted_from::<Self>(s, data, k);
    }
}

impl View for SelectionSorter {
    type V = SelectionState;

    closed spec fn view(&self) -> SelectionState {
        SelectionState { sorted_end: self.sorted_end, scan: self.scan, min_index: self.min_index }
    }
}

impl Sorter for SelectionSorter {
    open spec fn fits(s: SelectionState, len: nat) -> bool {
        &&& len >= 1
        &&& s.sorted_end + 1 < len ==> s.min_index < len
    }

    open spec fn next(s: SelectionState, data: Seq<u8>) -> (SelectionState, Seq<u8>) {
        let e = s.sorted_end;
        let c = s.scan;
        let m = s.min_index;
        if e >= data.len() - 1 {
            (SelectionState { sorted_end: 0, scan: 1, min_index: 0 }, data)
        } else if c >= data.len() {
            (SelectionState { sorted_end: (e + 1) as usize, scan: (e + 2) as usize, min_index: (e + 1) as usize },
             swapped(data, e as int, m as int))
        } else if data[c as int] < data[m as int] {
            (SelectionState { sorted_end: e, scan: (c + 1) as usize, min_index: c }, data)
        } else {
            (SelectionState { sorted_end: e, scan: (c + 1) as usize, min_index: m }, data)
        }
    }

    /// Before `end` the data is sorted and no larger than anything after;
    /// the element at `min_pos` is the first of the smallest from `end` up
    /// to `scan_pos`.
    open spec fn keeps_order(s: SelectionState, data: Seq<u8>) -> bool {
        let e = s.sorted_end as int;
        let c = s.scan as int;
        let m = s.min_index as int;
        &&& Self::fits(s, data.len())
        &&& data.len() <= usize::MAX
        &&& forall|a: int, b: int| 0 <= a < b < data.len() && a < e ==> #[trigger] data[a] <= #[trigger] data[b]
        &&& e + 1 < data.len() ==> {
            &&& e <= m < c <= data.len()
            &&& forall|k: int| e <= k < c ==> data[m] <= #[trigger] data[k]
            &&& forall|k: int| e <= k < m ==> data[m] < #[trigger] data[k]
        }
    }

    open spec fn finished(s: SelectionState, len: nat) -> bool {
        s.sorted_end + 1 >= len
    }

    open spec fn remaining(s: SelectionState, len: nat) -> nat {
        if s.sorted_end + 1 >= len {
            0
        } else {
            (len - s.scan) as nat + 1 + scans_from(s.sorted_end as nat + 1, len)
        }
    }

    proof fn lemma_step(s: SelectionState, data: Seq<u8>) {
        let e = s.sorted_end as int;
        let c = s.scan as int;
        let m = s.min_index as int;
        let n = data.len() as int;
        let (s1, d1) = Self::next(s, data);
        if e >= n - 1 {
            assert(sorted(data)) by {
                assert forall|a: int, b: int| 0 <= a <= b < n implies data[a] <= data[b] by {
                    if a < b {
                        assert(data[a] <= data[b]);
                    }
                }
            }
        } else if c >= n {
            assert forall|a: int, b: int| 0 <= a < b < n && a < e + 1 implies #[trigger] d1[a] <= #[trigger] d1[b] by {
                if a == e {
                    assert(data[m] <= data[b]);
                    if b == m {
                        assert(data[m] <= data[e]);
                    }
                } else {
                    assert(data[a] <= data[m]);
                    assert(data[a] <= data[e]);
                    assert(data[a] <= data[b]);
                }
            }
            assert(Self::keeps_order(s1, d1));
        } else if data[c] < data[m] {
            assert forall|k: int| e <= k < c + 1 implies data[c] <= #[trigger] data[k] by {
                if k < c {
                    assert(data[m] <= data[k]);
                }
            }
            assert(Self::keeps_order(s1, d1));
        } else {
            assert(Self::keeps_order(s1, d1));
        }
    }

    fn sort_step(&mut self, data: &mut [u8]) {
        let n = data.len();
        if self.sorted_end >= n - 1 {
            // Finished sorting: start again.
            self.sorted_end = 0;
            self.scan = 1;
            self.min_index = 0;
            return;
        }
        if self.scan >= n {
            // Scan complete: place the minimum found.
            swap_elems(data, self.sorted_end, self.min_index);
            self.sorted_end += 1;
            self.scan = self.sorted_end + 1;
            self.min_index = self.sorted_end;
        } else {
            // One comparison.
            if data[self.scan] < data[self.min_index] {
                self.min_index = self.scan;
            }
            self.scan += 1;
        }
    }
}

} // verus!
