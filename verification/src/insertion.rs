use vstd::prelude::*;
use crate::sorter::{Sorter, swapped, sorted, swap_elems, steps, lemma_sorted_from};
use crate::inversions::{inversions, lemma_adjacent_swap_removes_one};

verus! {

/// Insertion sort: each step either moves the element being inserted one
/// place to the left, or finds it in place and takes up the next one.
pub struct InsertionSorter {
    sorted_end: usize,
    live_index: usize,
}

/// The state of an insertion sorter: the element taken up last and the position of the element being inserted.
pub struct InsertionState {
    pub sorted_end: usize,
    pub live_index: usize,
}

/// Steps that an insertion sort on data of length `n` takes from the point
/// where it has just taken up the element at `s` until it finishes: at most
/// `s` moves and one more step for each element from `s` on.
pub open spec fn insertions_from(s: nat, n: nat) -> nat
    decreases n - s,
{
    if s >= n {
        0
    } else {
        s + 1 + insertions_from(s + 1, n)
    }
}

/// `insertions_from(s, n)` is `(s + 1) + (s + 2) + ... + n`.
proof fn lemma_insertions_exact(s: nat, n: nat)
    requires
        s <= n,
    ensures
        2 * insertions_from(s, n) == n * (n + 1) - s * (s + 1),
    decreases n - s,
{
    if s < n {
        lemma_insertions_exact(s + 1, n);
        assert(2 * (s + 1) + n * (n + 1) - (s + 1) * (s + 2) == n * (n + 1) - s * (s + 1)) by (nonlinear_arith);
    }
}

impl InsertionSorter {
    /// A new insertion sorter; it takes up the element at position 1 first.
    pub fn new() -> (s: Self)
        ensures
            s@ == Self::initial(),
            forall|len: nat| #[trigger] Self::fits(s@, len),
    {
        InsertionSorter { sorted_end: 1, live_index: 1 }
    }

    /// The state of a new insertion sorter.
    pub open spec fn initial() -> InsertionState {
        InsertionState { sorted_end: 1, live_index: 1 }
    }

    /// One step leaves the data as it is, or exchanges the element being
    /// inserted with the one before it, which is larger, and so leaves one
    /// pair fewer out of order.
    pub proof fn lemma_step_shape(s: InsertionState, data: Seq<u8>)
        requires
            Self::fits(s, data.len()),
        ensures
            Self::next(s, data).1 == data || {
                let l = s.live_index as int;
                &&& 1 <= l < data.len()
                &&& data[l - 1] > data[l]
                &&& Self::next(s, data).1 == swapped(data, l - 1, l)
                &&& inversions(Self::next(s, data).1) + 1 == inversions(data)
            },
    {
        let l = s.live_index as int;
        if s.sorted_end < data.len() && l != 0 && data[l - 1] > data[l] {
            lemma_adjacent_swap_removes_one(data, l - 1);
        }
    }

    /// A state that may be applied to data of one length may be applied to
    /// data of any length: the sorter may be handed slices of changing
    /// lengths.
    pub proof fn lemma_fits_other_length(s: InsertionState, len: nat, other: nat)
        requires
            Self::fits(s, len),
        ensures
            Self::fits(s, other),
    {
    }

    /// No step of an insertion sorter disturbs sorted data.
    pub proof fn lemma_sorted_kept(s: InsertionState, data: Seq<u8>)
        requires
            Self::fits(s, data.len()),
            sorted(data),
        ensures
            Self::next(s, data).1 == data,
    {
    }

    /// A sorter that has finished starts again on whatever data it is
    /// handed: after `n (n + 1) / 2` steps or more on data of length `n`,
    /// that data is sorted.
    pub proof fn lemma_restart_sorts(s: InsertionState, data: Seq<u8>, k: nat)
        requires
            s.sorted_end >= data.len(),
            data.len() <= usize::MAX,
            k >= 1,
            2 * k >= data.len() * (data.len() + 1),
        ensures
            Self::next(s, data) == (Self::initial(), data),
            sorted(steps::<Self>(s, data, k).1),
    {
        assert(steps::<Self>(s, data, k) == steps::<Self>(Self::initial(), data, (k - 1) as nat));
        Self::lemma_sorts(data, (k - 1) as nat);
    }

    /// From a new sorter, after `n (n + 1) / 2 - 1` steps or more on data
    /// of length `n`, the data is sorted.
    pub proof fn lemma_sorts(data: Seq<u8>, k: nat)
        requires
            data.len() <= usize::MAX,
            2 * k + 2 >= data.len() * (data.len() + 1),
        ensures
            sorted(steps::<Self>(Self::initial(), data, k).1),
    {
        let s = Self::initial();
        let n = data.len();
        if n >= 2 {
            lemma_insertions_exact(2, n);
        }
        assert(Self::keeps_order(s, data));
        assert forall|t: InsertionState, d: Seq<u8>| Self::keeps_order(t, d) && sorted(d) implies #[trigger] Self::next(t, d).1 == d by {
            Self::lemma_sorted_kept(t, d);
        }
        lemma_sorted_from::<Self>(s, data, k);
    }
}

impl View for InsertionSorter {
    type V = InsertionState;

    closed spec fn view(&self) -> InsertionState {
        InsertionState { sorted_end: self.sorted_end, live_index: self.live_index }
    }
}

impl Sorter for InsertionSorter {
    open spec fn fits(s: InsertionState, len: nat) -> bool {
        s.live_index <= s.sorted_end
    }

    open spec fn next(s: InsertionState, data: Seq<u8>) -> (InsertionState, Seq<u8>) {
        let e = s.sorted_end;
        let l = s.live_index;
        if e >= data.len() {
            (InsertionState { sorted_end: 1, live_index: 1 }, data)
        } else if l == 0 || data[l - 1] <= data[l as int] {
            (InsertionState { sorted_end: (e + 1) as usize, live_index: (e + 1) as usize }, data)
        } else {
            (InsertionState { sorted_end: e, live_index: (l - 1) as usize }, swapped(data, l - 1, l as int))
        }
    }

    /// Up to `end`, the data but the element being inserted is sorted, and
    /// that element is no larger than anything after it up to `end`; once
    /// `end` reaches the length, all the data is sorted.
    open spec fn keeps_order(s: InsertionState, data: Seq<u8>) -> bool {
        let e = s.sorted_end as int;
        let l = s.live_index as int;
        &&& Self::fits(s, data.len())
        &&& data.len() <= usize::MAX
        &&& 1 <= e
        &&& e >= data.len() ==> l == e
        &&& forall|a: int, b: int|
            0 <= a <= b < data.len() && b <= e && a != l && b != l ==> #[trigger] data[a] <= #[trigger] data[b]
        &&& e < data.len() ==> forall|k: int| l < k <= e ==> data[l] <= #[trigger] data[k]
    }

    open spec fn finished(s: InsertionState, len: nat) -> bool {
        s.sorted_end >= len
    }

    open spec fn remaining(s: InsertionState, len: nat) -> nat {
        if s.sorted_end >= len {
            0
        } else {
            s.live_index as nat + 1 + insertions_from(s.sorted_end as nat + 1, len)
        }
    }

    proof fn lemma_step(s: InsertionState, data: Seq<u8>) {
        let e = s.sorted_end as int;
        let l = s.live_index as int;
        let n = data.len() as int;
        let (s1, d1) = Self::next(s, data);
        if e >= n {
            assert(sorted(data)) by {
                assert forall|a: int, b: int| 0 <= a <= b < n implies data[a] <= data[b] by {
                    assert(data[a] <= data[b]);
                }
            }
        } else if l == 0 || data[l - 1] <= data[l] {
            assert forall|a: int, b: int|
                0 <= a <= b < n && b <= e + 1 && a != e + 1 && b != e + 1 implies #[trigger] d1[a] <= #[trigger] d1[b] by {
                if a == l && b != l && a < b {
                    assert(data[l] <= data[b]);
                } else if b == l && a != l && a < b {
                    assert(data[a] <= data[l - 1]);
                }
            }
            assert(Self::keeps_order(s1, d1));
        } else {
            assert forall|a: int, b: int|
                0 <= a <= b < n && b <= e && a != l - 1 && b != l - 1 implies #[trigger] d1[a] <= #[trigger] d1[b] by {
                if a == l && b != l {
                    assert(data[l - 1] <= data[b]);
                } else if b == l && a != l {
                    assert(data[a] <= data[l - 1]);
                } else {
                    assert(data[a] <= data[b]);
                }
            }
            assert forall|k: int| l - 1 < k <= e implies d1[l - 1] <= #[trigger] d1[k] by {
                if k > l {
                    assert(data[l] <= data[k]);
                }
            }
            assert(Self::keeps_order(s1, d1));
        }
    }

    fn sort_step(&mut self, data: &mut [u8]) {
        if self.sorted_end >= data.len() {
            // Finished sorting: start again.
            self.sorted_end = 1;
            self.live_index = 1;
        } else if self.live_index == 0 || data[self.live_index - 1] <= data[self.live_index] {
            // The element is in place: take up the next one.
            self.sorted_end += 1;
            self.live_index = self.sorted_end;
        } else {
            // Move the element one place to the left.
            swap_elems(data, self.live_index - 1, self.live_index);
            self.live_index -= 1;
        }
    }
}

} // verus!
