use vstd::prelude::*;
use crate::bubble::{BubbleSorter, BubbleState};
use crate::heap::{HeapSorter, HeapState};
use crate::insertion::{InsertionSorter, InsertionState};
use crate::merge::{MergeSorter, MergeState};
use crate::quick::{QuickSorter, QuickState};
use crate::selection::{SelectionSorter, SelectionState};
use crate::shell::{ShellSorter, ShellState};

verus! {

/// The elements of `s` are in non-decreasing order.
pub open spec fn sorted(s: Seq<u8>) -> bool {
    forall|i: int, j: int| 0 <= i <= j < s.len() ==> s[i] <= s[j]
}

/// `s` with the elements at `i` and `j` exchanged.
pub open spec fn swapped(s: Seq<u8>, i: int, j: int) -> Seq<u8> {
    s.update(i, s[j]).update(j, s[i])
}

/// Exchanging two elements keeps the multiset of elements.
pub proof fn lemma_swap_keeps_multiset(s: Seq<u8>, i: int, j: int)
    requires
        0 <= i < s.len(),
        0 <= j < s.len(),
    ensures
        swapped(s, i, j).to_multiset() == s.to_multiset(),
{
    broadcast use vstd::seq_lib::to_multiset_update;
    broadcast use vstd::seq_lib::to_multiset_contains;
    broadcast use vstd::multiset::group_multiset_axioms;
    let t = s.update(i, s[j]);
    let m = s.to_multiset();
    assert(t[j] == s[j]);
    assert(t.to_multiset() == m.insert(s[j]).remove(s[i]));
    assert(swapped(s, i, j).to_multiset() == t.to_multiset().insert(s[i]).remove(s[j]));
    assert(s.contains(s[i]));
    assert(m.count(s[i]) > 0);
    assert forall|v: u8| #[trigger] swapped(s, i, j).to_multiset().count(v) == m.count(v) by {
    }
    assert(swapped(s, i, j).to_multiset() =~= m);
}

/// Exchanges `data[i]` and `data[j]`.
pub fn swap_elems(data: &mut [u8], i: usize, j: usize)
    requires
        i < old(data)@.len(),
        j < old(data)@.len(),
    ensures
        final(data)@ == swapped(old(data)@, i as int, j as int),
        final(data)@.to_multiset() == old(data)@.to_multiset(),
{
    proof { lemma_swap_keeps_multiset(data@, i as int, j as int); }
    let a = data[i];
    let b = data[j];
    data[i] = b;
    data[j] = a;
}

/// A sorter advances through its algorithm one small step at a time.
///
/// Its state is described by its view. Besides the step itself, every
/// sorter states what keeps holding while it runs alone on one slice
/// (`keeps_order`), when its algorithm has done its work (`finished`),
/// and a bound on the steps that are left before that (`remaining`);
/// `lemma_step` proves that these fit together.
pub trait Sorter: View + Sized {
    /// The state `s` may be applied to data of length `len`.
    spec fn fits(s: Self::V, len: nat) -> bool;

    /// The state and the data after one step from state `s` on `data`.
    spec fn next(s: Self::V, data: Seq<u8>) -> (Self::V, Seq<u8>);

    /// What holds of the state and the data while the sorter runs alone on them.
    spec fn keeps_order(s: Self::V, data: Seq<u8>) -> bool;

    /// The algorithm has done its work: no step that follows, up to the
    /// one that starts it again, changes the data.
    spec fn finished(s: Self::V, len: nat) -> bool;

    /// A bound on the number of steps before the sorter is finished.
    spec fn remaining(s: Self::V, len: nat) -> nat;

    /// One step keeps the order, brings a sorter that is not finished
    /// closer to its end, and a finished sorter leaves sorted data.
    proof fn lemma_step(s: Self::V, data: Seq<u8>)
        requires
            Self::keeps_order(s, data),
        ensures
            Self::fits(s, data.len()),
            Self::keeps_order(Self::next(s, data).0, Self::next(s, data).1),
            Self::next(s, data).1.len() == data.len(),
            Self::finished(s, data.len()) ==> sorted(data),
            !Self::finished(s, data.len()) ==> Self::remaining(Self::next(s, data).0, data.len())
                < Self::remaining(s, data.len()),
    ;

    /// Performs one step of the algorithm on `data`.
    fn sort_step(&mut self, data: &mut [u8])
        requires
            Self::fits(old(self)@, old(data)@.len()),
        ensures
            (final(self)@, final(data)@) == Self::next(old(self)@, old(data)@),
            Self::fits(final(self)@, final(data)@.len()),
            final(data)@.len() == old(data)@.len(),
            final(data)@.to_multiset() == old(data)@.to_multiset(),
    ;
}

/// The state and the data after `k` steps of a sorter from state `s` on `data`.
pub open spec fn steps<S: Sorter>(s: S::V, data: Seq<u8>, k: nat) -> (S::V, Seq<u8>)
    decreases k,
{
    if k == 0 {
        (s, data)
    } else {
        let (s1, d1) = S::next(s, data);
        steps::<S>(s1, d1, (k - 1) as nat)
    }
}

/// A sorter that keeps its order sorts its data: within `remaining` steps
/// it reaches a point where it is finished and the data is sorted.
pub proof fn lemma_sorts_within<S: Sorter>(s: S::V, data: Seq<u8>)
    requires
        S::keeps_order(s, data),
    ensures
        exists|k: nat|
            k <= S::remaining(s, data.len()) && S::finished(steps::<S>(s, data, k).0, data.len())
                && sorted(#[trigger] steps::<S>(s, data, k).1),
    decreases S::remaining(s, data.len()),
{
    S::lemma_step(s, data);
    if S::finished(s, data.len()) {
        assert(steps::<S>(s, data, 0) == (s, data));
        assert(S::finished(steps::<S>(s, data, 0).0, data.len()));
        assert(sorted(steps::<S>(s, data, 0).1));
    } else {
        let (s1, d1) = S::next(s, data);
        lemma_sorts_within::<S>(s1, d1);
        let k1 = choose|k: nat|
            k <= S::remaining(s1, d1.len()) && S::finished(steps::<S>(s1, d1, k).0, d1.len())
                && sorted(#[trigger] steps::<S>(s1, d1, k).1);
        assert(steps::<S>(s, data, k1 + 1) == steps::<S>(s1, d1, k1));
        assert(S::finished(steps::<S>(s, data, k1 + 1).0, data.len()));
        assert(sorted(steps::<S>(s, data, k1 + 1).1));
    }
}

/// Running `a + b` steps is running `a` steps, then `b` more.
pub proof fn lemma_steps_add<S: Sorter>(s: S::V, data: Seq<u8>, a: nat, b: nat)
    ensures
        steps::<S>(s, data, a + b) == steps::<S>(steps::<S>(s, data, a).0, steps::<S>(s, data, a).1, b),
    decreases a,
{
    if a > 0 {
        let (s1, d1) = S::next(s, data);
        lemma_steps_add::<S>(s1, d1, (a - 1) as nat, b);
        assert((a + b - 1) as nat == (a - 1) as nat + b);
    }
}

/// Steps keep the order.
pub proof fn lemma_steps_keep_order<S: Sorter>(s: S::V, data: Seq<u8>, k: nat)
    requires
        S::keeps_order(s, data),
    ensures
        S::keeps_order(steps::<S>(s, data, k).0, steps::<S>(s, data, k).1),
        steps::<S>(s, data, k).1.len() == data.len(),
    decreases k,
{
    if k > 0 {
        S::lemma_step(s, data);
        let (s1, d1) = S::next(s, data);
        lemma_steps_keep_order::<S>(s1, d1, (k - 1) as nat);
    }
}

/// Where no step of a sorter that keeps its order disturbs sorted data,
/// data that is sorted stays so, however many steps follow.
pub proof fn lemma_sorted_stays<S: Sorter>(s: S::V, data: Seq<u8>, k: nat)
    requires
        S::keeps_order(s, data),
        sorted(data),
        forall|t: S::V, d: Seq<u8>| S::keeps_order(t, d) && sorted(d) ==> #[trigger] S::next(t, d).1 == d,
    ensures
        steps::<S>(s, data, k).1 == data,
    decreases k,
{
    if k > 0 {
        S::lemma_step(s, data);
        let (s1, d1) = S::next(s, data);
        lemma_sorted_stays::<S>(s1, d1, (k - 1) as nat);
    }
}

/// A sorter that keeps its order, and never disturbs sorted data, has
/// sorted its data after any number of steps from `remaining` on.
pub proof fn lemma_sorted_from<S: Sorter>(s: S::V, data: Seq<u8>, k: nat)
    requires
        S::keeps_order(s, data),
        k >= S::remaining(s, data.len()),
        forall|t: S::V, d: Seq<u8>| S::keeps_order(t, d) && sorted(d) ==> #[trigger] S::next(t, d).1 == d,
    ensures
        sorted(steps::<S>(s, data, k).1),
{
    lemma_sorts_within::<S>(s, data);
    let k0 = choose|k: nat| k <= S::remaining(s, data.len()) && sorted(#[trigger] steps::<S>(s, data, k).1);
    lemma_steps_keep_order::<S>(s, data, k0);
    let (s0, d0) = steps::<S>(s, data, k0);
    lemma_sorted_stays::<S>(s0, d0, (k - k0) as nat);
    lemma_steps_add::<S>(s, data, k0, (k - k0) as nat);
    assert(k0 + (k - k0) as nat == k);
}

/// Whether `data` is in non-decreasing order.
pub fn is_sorted(data: &[u8]) -> (b: bool)
    ensures
        b == sorted(data@),
{
    let n = data.len();
    if n < 2 {
        return true;
    }
    let mut k: usize = 1;
    while k < n
        invariant
            1 <= k <= n,
            n == data@.len(),
            forall|a: int, b: int| 0 <= a <= b < k ==> #[trigger] data@[a] <= #[trigger] data@[b],
        decreases n - k,
    {
        if data[k - 1] > data[k] {
            return false;
        }
        assert forall|a: int, b: int| 0 <= a <= b < k + 1 implies #[trigger] data@[a] <= #[trigger] data@[b] by {
            if b == k && a < k {
                assert(data@[a] <= data@[k - 1]);
            }
        }
        k += 1;
    }
    true
}

/// One sorter of any of the kinds of this library.
pub enum AnySorter {
    Bubble(BubbleSorter),
    Heap(HeapSorter),
    Insertion(InsertionSorter),
    Merge(MergeSorter),
    Quick(QuickSorter),
    Selection(SelectionSorter),
    Shell(ShellSorter),
}

/// The state of one sorter of any kind.
pub enum AnyState {
    Bubble(BubbleState),
    Heap(HeapState),
    Insertion(InsertionState),
    Merge(MergeState),
    Quick(QuickState),
    Selection(SelectionState),
    Shell(ShellState),
}

impl View for AnySorter {
    type V = AnyState;

    open spec fn view(&self) -> AnyState {
        match self {
            AnySorter::Bubble(s) => AnyState::Bubble(s@),
            AnySorter::Heap(s) => AnyState::Heap(s@),
            AnySorter::Insertion(s) => AnyState::Insertion(s@),
            AnySorter::Merge(s) => AnyState::Merge(s@),
            AnySorter::Quick(s) => AnyState::Quick(s@),
            AnySorter::Selection(s) => AnyState::Selection(s@),
            AnySorter::Shell(s) => AnyState::Shell(s@),
        }
    }
}

impl Sorter for AnySorter {
    open spec fn fits(s: AnyState, len: nat) -> bool {
        match s {
            AnyState::Bubble(t) => BubbleSorter::fits(t, len),
            AnyState::Heap(t) => HeapSorter::fits(t, len),
            AnyState::Insertion(t) => InsertionSorter::fits(t, len),
            AnyState::Merge(t) => MergeSorter::fits(t, len),
            AnyState::Quick(t) => QuickSorter::fits(t, len),
            AnyState::Selection(t) => SelectionSorter::fits(t, len),
            AnyState::Shell(t) => ShellSorter::fits(t, len),
        }
    }

    open spec fn next(s: AnyState, data: Seq<u8>) -> (AnyState, Seq<u8>) {
        match s {
            AnyState::Bubble(t) => { let (t1, d1) = BubbleSorter::next(t, data); (AnyState::Bubble(t1), d1) },
            AnyState::Heap(t) => { let (t1, d1) = HeapSorter::next(t, data); (AnyState::Heap(t1), d1) },
            AnyState::Insertion(t) => { let (t1, d1) = InsertionSorter::next(t, data); (AnyState::Insertion(t1), d1) },
            AnyState::Merge(t) => { let (t1, d1) = MergeSorter::next(t, data); (AnyState::Merge(t1), d1) },
            AnyState::Quick(t) => { let (t1, d1) = QuickSorter::next(t, data); (AnyState::Quick(t1), d1) },
            AnyState::Selection(t) => { let (t1, d1) = SelectionSorter::next(t, data); (AnyState::Selection(t1), d1) },
            AnyState::Shell(t) => { let (t1, d1) = ShellSorter::next(t, data); (AnyState::Shell(t1), d1) },
        }
    }

    open spec fn keeps_order(s: AnyState, data: Seq<u8>) -> bool {
        match s {
            AnyState::Bubble(t) => BubbleSorter::keeps_order(t, data),
            AnyState::Heap(t) => HeapSorter::keeps_order(t, data),
            AnyState::Insertion(t) => InsertionSorter::keeps_order(t, data),
            AnyState::Merge(t) => MergeSorter::keeps_order(t, data),
            AnyState::Quick(t) => QuickSorter::keeps_order(t, data),
            AnyState::Selection(t) => SelectionSorter::keeps_order(t, data),
            AnyState::Shell(t) => ShellSorter::keeps_order(t, data),
        }
    }

    open spec fn finished(s: AnyState, len: nat) -> bool {
        match s {
            AnyState::Bubble(t) => BubbleSorter::finished(t, len),
            AnyState::Heap(t) => HeapSorter::finished(t, len),
            AnyState::Insertion(t) => InsertionSorter::finished(t, len),
            AnyState::Merge(t) => MergeSorter::finished(t, len),
            AnyState::Quick(t) => QuickSorter::finished(t, len),
            AnyState::Selection(t) => SelectionSorter::finished(t, len),
            AnyState::Shell(t) => ShellSorter::finished(t, len),
        }
    }

    open spec fn remaining(s: AnyState, len: nat) -> nat {
        match s {
            AnyState::Bubble(t) => BubbleSorter::remaining(t, len),
            AnyState::Heap(t) => HeapSorter::remaining(t, len),
            AnyState::Insertion(t) => InsertionSorter::remaining(t, len),
            AnyState::Merge(t) => MergeSorter::remaining(t, len),
            AnyState::Quick(t) => QuickSorter::remaining(t, len),
            AnyState::Selection(t) => SelectionSorter::remaining(t, len),
            AnyState::Shell(t) => ShellSorter::remaining(t, len),
        }
    }

    proof fn lemma_step(s: AnyState, data: Seq<u8>) {
        match s {
            AnyState::Bubble(t) => BubbleSorter::lemma_step(t, data),
            AnyState::Heap(t) => HeapSorter::lemma_step(t, data),
            AnyState::Insertion(t) => InsertionSorter::lemma_step(t, data),
            AnyState::Merge(t) => MergeSorter::lemma_step(t, data),
            AnyState::Quick(t) => QuickSorter::lemma_step(t, data),
            AnyState::Selection(t) => SelectionSorter::lemma_step(t, data),
            AnyState::Shell(t) => ShellSorter::lemma_step(t, data),
        }
    }

    fn sort_step(&mut self, data: &mut [u8]) {
        match self {
            AnySorter::Bubble(s) => s.sort_step(data),
            AnySorter::Heap(s) => s.sort_step(data),
            AnySorter::Insertion(s) => s.sort_step(data),
            AnySorter::Merge(s) => s.sort_step(data),
            AnySorter::Quick(s) => s.sort_step(data),
            AnySorter::Selection(s) => s.sort_step(data),
            AnySorter::Shell(s) => s.sort_step(data),
        }
    }
}

/// The states of `sorters` and the data after one round: one step of each
/// sorter, in order.
pub open spec fn round(sorters: Seq<AnyState>, data: Seq<u8>) -> (Seq<AnyState>, Seq<u8>)
    decreases sorters.len(),
{
    if sorters.len() == 0 {
        (sorters, data)
    } else {
        let (s0, d0) = AnySorter::next(sorters[0], data);
        let (rest, d1) = round(sorters.drop_first(), d0);
        (seq![s0] + rest, d1)
    }
}

/// The states and the data after `t` rounds.
pub open spec fn rounds(sorters: Seq<AnyState>, data: Seq<u8>, t: nat) -> (Seq<AnyState>, Seq<u8>)
    decreases t,
{
    if t == 0 {
        (sorters, data)
    } else {
        let (s1, d1) = rounds(sorters, data, (t - 1) as nat);
        round(s1, d1)
    }
}

/// Running a single sorter in rounds is running it step by step.
pub proof fn lemma_rounds_single(s: AnyState, data: Seq<u8>, t: nat)
    ensures
        rounds(seq![s], data, t) == (seq![steps::<AnySorter>(s, data, t).0], steps::<AnySorter>(s, data, t).1),
    decreases t,
{
    if t > 0 {
        lemma_rounds_single(s, data, (t - 1) as nat);
        let (s1, d1) = steps::<AnySorter>(s, data, (t - 1) as nat);
        lemma_steps_add::<AnySorter>(s, data, (t - 1) as nat, 1);
        assert(((t - 1) as nat + 1) as nat == t);
        let (s2, d2) = AnySorter::next(s1, d1);
        assert(steps::<AnySorter>(s1, d1, 1) == steps::<AnySorter>(s2, d2, 0));
        assert(seq![s1].drop_first() =~= Seq::<AnyState>::empty());
        assert(round(seq![s1].drop_first(), d2) == (Seq::<AnyState>::empty(), d2));
        assert(seq![s2] + Seq::<AnyState>::empty() =~= seq![s2]);
    }
}

/// Every sorter may be applied to data of length `len`.
pub open spec fn all_fit(sorters: Seq<AnyState>, len: nat) -> bool {
    forall|k: int| 0 <= k < sorters.len() ==> AnySorter::fits(#[trigger] sorters[k], len)
}

/// The views of `sorters`.
pub open spec fn views(sorters: Seq<AnySorter>) -> Seq<AnyState> {
    sorters.map_values(|s: AnySorter| s@)
}

proof fn lemma_round_skip(ss: Seq<AnyState>, data: Seq<u8>, k: int)
    requires
        0 <= k < ss.len(),
    ensures
        round(ss.skip(k), data) == ({
            let (s0, d0) = AnySorter::next(ss[k], data);
            let (rest, d1) = round(ss.skip(k + 1), d0);
            (seq![s0] + rest, d1)
        }),
{
    assert(ss.skip(k).drop_first() =~= ss.skip(k + 1));
    assert(ss.skip(k)[0] == ss[k]);
}

/// Runs `sorters` in rounds, one step of each in turn per round, until the
/// data is sorted after a round, for at most `max_steps` rounds. Returns the
/// number of rounds, or `None` if the data was not sorted after any of them.
pub fn run(sorters: &mut Vec<AnySorter>, data: &mut [u8], max_steps: usize) -> (res: Option<usize>)
    requires
        all_fit(views(old(sorters)@), old(data)@.len()),
    ensures
        final(data)@.to_multiset() == old(data)@.to_multiset(),
        match res {
            Some(t) => {
                &&& 1 <= t <= max_steps
                &&& sorted(rounds(views(old(sorters)@), old(data)@, t as nat).1)
                &&& forall|t1: nat| 1 <= t1 < t ==> !sorted(#[trigger] rounds(views(old(sorters)@), old(data)@, t1).1)
                &&& (views(final(sorters)@), final(data)@) == rounds(views(old(sorters)@), old(data)@, t as nat)
            },
            None => {
                &&& forall|t1: nat| 1 <= t1 <= max_steps ==> !sorted(#[trigger] rounds(views(old(sorters)@), old(data)@, t1).1)
                &&& (views(final(sorters)@), final(data)@) == rounds(views(old(sorters)@), old(data)@, max_steps as nat)
            },
        },
{
    let mut steps: usize = 0;
    while steps < max_steps
        invariant
            steps <= max_steps,
            (views(sorters@), data@) == rounds(views(old(sorters)@), old(data)@, steps as nat),
            all_fit(views(sorters@), data@.len()),
            data@.to_multiset() == old(data)@.to_multiset(),
            forall|t1: nat| 1 <= t1 <= steps ==> !sorted(#[trigger] rounds(views(old(sorters)@), old(data)@, t1).1),
        decreases max_steps - steps,
    {
        let ghost before = views(sorters@);
        let ghost before_data = data@;
        let mut k: usize = 0;
        proof {
            assert(views(sorters@).skip(0) =~= views(sorters@));
            let (rest, d) = round(views(sorters@), data@);
            assert(views(sorters@).take(0) + rest =~= rest);
        }
        while k < sorters.len()
            invariant
                k <= sorters@.len(),
                before.len() == sorters@.len(),
                all_fit(views(sorters@), data@.len()),
                data@.len() == before_data.len(),
                data@.to_multiset() == old(data)@.to_multiset(),
                round(before, before_data) == ({
                    let (rest, d) = round(views(sorters@).skip(k as int), data@);
                    (views(sorters@).take(k as int) + rest, d)
                }),
            decreases sorters@.len() - k,
        {
            proof {
                lemma_round_skip(views(sorters@), data@, k as int);
            }
            let ghost prev = views(sorters@);
            sorters[k].sort_step(data);
            proof {
                assert(views(sorters@) =~= prev.update(k as int, sorters@[k as int]@));
                assert(views(sorters@).take(k as int + 1) =~= prev.take(k as int).push(sorters@[k as int]@));
                assert(views(sorters@).skip(k as int + 1) =~= prev.skip(k as int + 1));
            }
            k += 1;
        }
        proof {
            assert(views(sorters@).skip(sorters@.len() as int) =~= Seq::<AnyState>::empty());
            assert(views(sorters@).take(sorters@.len() as int) =~= views(sorters@));
        }
        steps += 1;
        if is_sorted(data) {
            return Some(steps);
        }
    }
    None
}

} // verus!
