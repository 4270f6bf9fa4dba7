use vstd::prelude::*;
use crate::sorter::{Sorter, swapped, sorted, swap_elems, steps, lemma_sorted_from};
use crate::inversions::{inversions, lemma_adjacent_swap_removes_one};

verus! {

/// Bubble sort: each step compares one adjacent pair and exchanges it when
/// it is out of order.
pub struct BubbleSorter {
    current_index: usize,
    current_end: usize,
}

/// The state of a bubble sorter: the pair compared next and the end of the current pass.
pub struct BubbleState {
    pub current_index: usize,
    pub current_end: usize,
}

/// `2 + 3 + ... + k`: the steps of the passes of a bubble sort that start
/// with ranges of length `k` down to `2`.
pub open spec fn passes(k: nat) -> nat
    decreases k,
{
    if k <= 1 {
        0
    } else {
        k + passes((k - 1) as nat)
    }
}

/// `passes(k)` is `k (k + 1) / 2 - 1` for `k >= 1`.
pub proof fn lemma_passes_exact(k: nat)
    requires
        k >= 1,
    ensures
        2 * passes(k) + 2 == k * (k + 1),
    decreases k,
{
    if k > 1 {
        lemma_passes_exact((k - 1) as nat);
        assert(2 * k + (k - 1) * k == k * (k + 1)) by (nonlinear_arith);
    } else {
        assert(k * (k + 1) == 2) by (nonlinear_arith) requires k == 1;
    }
}

impl BubbleSorter {
    /// A bubble sorter for data of length `l`.
    pub fn new(l: usize) -> (s: Self)
        ensures
            s@ == Self::initial(l),
            forall|len: nat| 1 <= l <= len ==> #[trigger] Self::fits(s@, len),
    {
        BubbleSorter { current_index: 0, current_end: l }
    }

    /// The state of a new bubble sorter for data of length `l`.
    pub open spec fn initial(l: usize) -> BubbleState {
        BubbleState { current_index: 0, current_end: l }
    }

    /// One step leaves the data as it is, or exchanges the adjacent pair at
    /// `current_index`, which is out of order, and so leaves one pair fewer out
    /// of order.
    pub proof fn lemma_step_shape(s: BubbleState, data: Seq<u8>)
        requires
            Self::fits(s, data.len()),
        ensures
            Self::next(s, data).1 == data || {
                let i = s.current_index as int;
                &&& 0 <= i < i + 1 < data.len()
                &&& data[i] > data[i + 1]
                &&& Self::next(s, data).1 == swapped(data, i, i + 1)
                &&& inversions(Self::next(s, data).1) + 1 == inversions(data)
            },
    {
        let i = s.current_index as int;
        let e = s.current_end as int;
        if e != 1 && i != e - 1 && data[i] > data[i + 1] {
            lemma_adjacent_swap_removes_one(data, i);
        }
    }

    /// No step of a bubble sorter disturbs sorted data.
    pub proof fn lemma_sorted_kept(s: BubbleState, data: Seq<u8>)
        requires
            Self::fits(s, data.len()),
            sorted(data),
        ensures
            Self::next(s, data).1 == data,
    {
    }

    /// A sorter that has finished starts again on whatever data it is
    /// handed: after `n (n + 1) / 2 - 1` steps or more on data of length `n`,
    /// that data is sorted.
    pub proof fn lemma_restart_sorts(s: BubbleState, data: Seq<u8>, k: nat)
        requires
            Self::fits(s, data.len()),
            s.current_end == 1,
            1 <= data.len() <= usize::MAX,
            k >= 1,
            2 * k + 2 >= data.len() * (data.len() + 1),
        ensures
            Self::next(s, data) == (Self::initial(data.len() as usize), data),
            sorted(steps::<Self>(s, data, k).1),
    {
        assert(steps::<Self>(s, data, k) == steps::<Self>(Self::initial(data.len() as usize), data, (k - 1) as nat));
        Self::lemma_sorts(data, (k - 1) as nat);
    }

    /// From `new(n)`, after `n (n + 1) / 2 - 2` steps or more on data of
    /// length `n`, the data is sorted.
    pub proof fn lemma_sorts(data: Seq<u8>, k: nat)
        requires
            1 <= data.len() <= usize::MAX,
            2 * k + 4 >= data.len() * (data.len() + 1),
        ensures
            sorted(steps::<Self>(Self::initial(data.len() as usize), data, k).1),
    {
        let s = Self::initial(data.len() as usize);
        lemma_passes_exact(data.len());
        assert(Self::keeps_order(s, data));
        assert forall|t: BubbleState, d: Seq<u8>| Self::keeps_order(t, d) && sorted(d) implies #[trigger] Self::next(t, d).1 == d by {
            Self::lemma_sorted_kept(t, d);
        }
        lemma_sorted_from::<Self>(s, data, k);
    }
}

impl View for BubbleSorter {
    type V = BubbleState;

    closed spec fn view(&self) -> BubbleState {
        BubbleState { current_index: self.current_index, current_end: self.current_end }
    }
}

impl Sorter for BubbleSorter {
    open spec fn fits(s: BubbleState, len: nat) -> bool {
        &&& 1 <= s.current_end <= len
        &&& s.current_index < s.current_end
    }

    open spec fn next(s: BubbleState, data: Seq<u8>) -> (BubbleState, Seq<u8>) {
        let i = s.current_index;
        let e = s.current_end;
        if e == 1 {
            (BubbleState { current_index: i, current_end: data.len() as usize }, data)
        } else if i == e - 1 {
            (BubbleState { current_index: 0, current_end: (e - 1) as usize }, data)
        } else if data[i as int] > data[i + 1] {
            (BubbleState { current_index: (i + 1) as usize, current_end: e }, swapped(data, i as int, i + 1))
        } else {
            (BubbleState { current_index: (i + 1) as usize, current_end: e }, data)
        }
    }

    /// Beyond `end` the data is sorted and no smaller than anything before
    /// it; the element at `index` is the largest up to it.
    open spec fn keeps_order(s: BubbleState, data: Seq<u8>) -> bool {
        &&& Self::fits(s, data.len())
        &&& data.len() <= usize::MAX
        &&& forall|a: int, b: int| 0 <= a < b < data.len() && b >= s.current_end ==> data[a] <= data[b]
        &&& forall|k: int| 0 <= k <= s.current_index ==> #[trigger] data[k] <= data[s.current_index as int]
    }

    /// The last comparison has been made: the pass that ends at 2 has
    /// reached its end, or the sort has finished.
    open spec fn finished(s: BubbleState, len: nat) -> bool {
        s.current_end == 1 || (s.current_end == 2 && s.current_index == 1)
    }

    open spec fn remaining(s: BubbleState, len: nat) -> nat {
        if s.current_end <= 1 {
            0
        } else {
            (s.current_end - s.current_index - 1 + passes((s.current_end - 1) as nat)) as nat
        }
    }

    proof fn lemma_step(s: BubbleState, data: Seq<u8>) {
        let i = s.current_index as int;
        let e = s.current_end as int;
        let (s1, d1) = Self::next(s, data);
        if e == 1 {
        } else if i == e - 1 {
            assert(Self::keeps_order(s1, d1));
        } else if data[i] > data[i + 1] {
            assert forall|k: int| 0 <= k <= i + 1 implies #[trigger] d1[k] <= d1[i + 1] by {}
            assert(Self::keeps_order(s1, d1));
        } else {
            assert(Self::keeps_order(s1, d1));
        }
    }

    fn sort_step(&mut self, data: &mut [u8]) {
        if self.current_end == 1 {
            // The sort has finished: start it again.
            self.current_end = data.len();
        } else if self.current_index == self.current_end - 1 {
            // End of a pass: the next one stops one element earlier.
            self.current_index = 0;
            self.current_end -= 1;
        } else {
            if data[self.current_index] > data[self.current_index + 1] {
                swap_elems(data, self.current_index, self.current_index + 1);
            }
            self.current_index += 1;
        }
    }
}

} // verus!
