use vstd::prelude::*;
use crate::sorter::{Sorter, sorted, is_sorted};
use crate::bubble::BubbleSorter;
use crate::selection::SelectionSorter;

verus! {

/// For each position, whether `before` and `after` differ there.
pub open spec fn changed(before: Seq<u8>, after: Seq<u8>) -> Seq<bool> {
    Seq::new(before.len(), |k: int| before[k] != after[k])
}

/// A copy of `data`.
fn copy_of(data: &[u8]) -> (v: Vec<u8>)
    ensures
        v@ == data@,
{
    let mut v: Vec<u8> = Vec::new();
    let mut k: usize = 0;
    while k < data.len()
        invariant
            k <= data@.len(),
            v@ == data@.subrange(0, k as int),
        decreases data@.len() - k,
    {
        v.push(data[k]);
        k += 1;
        assert(v@ == data@.subrange(0, k as int));
    }
    v
}

/// For each position, whether `before` and `after` differ there.
fn changes(before: &[u8], after: &[u8]) -> (res: Vec<bool>)
    requires
        before@.len() == after@.len(),
    ensures
        res@ == changed(before@, after@),
{
    let mut res: Vec<bool> = Vec::new();
    let mut k: usize = 0;
    while k < before.len()
        invariant
            k <= before@.len() == after@.len(),
            res@ == changed(before@, after@).subrange(0, k as int),
        decreases before@.len() - k,
    {
        res.push(before[k] != after[k]);
        k += 1;
        assert(res@ == changed(before@, after@).subrange(0, k as int));
    }
    assert(res@ == changed(before@, after@));
    res
}

/// One round of the race between a bubble sorter and a selection sorter on
/// one slice: a bubble step, then a selection step. Returns, for each
/// position, whether the bubble step changed it and whether the selection
/// step changed it, and whether the data is sorted afterwards.
pub fn viz_round(bubble: &mut BubbleSorter, selection: &mut SelectionSorter, data: &mut [u8]) -> (res: (
    Vec<bool>,
    Vec<bool>,
    bool,
))
    requires
        BubbleSorter::fits(old(bubble)@, old(data)@.len()),
        SelectionSorter::fits(old(selection)@, old(data)@.len()),
    ensures
        final(bubble)@ == BubbleSorter::next(old(bubble)@, old(data)@).0,
        (final(selection)@, final(data)@) == SelectionSorter::next(
            old(selection)@,
            BubbleSorter::next(old(bubble)@, old(data)@).1,
        ),
        res.0@ == changed(old(data)@, BubbleSorter::next(old(bubble)@, old(data)@).1),
        res.1@ == changed(BubbleSorter::next(old(bubble)@, old(data)@).1, final(data)@),
        res.2 == sorted(final(data)@),
{
    let before = copy_of(data);
    bubble.sort_step(data);
    let b_changed = changes(before.as_slice(), data);
    let mid = copy_of(data);
    selection.sort_step(data);
    let s_changed = changes(mid.as_slice(), data);
    let done = is_sorted(data);
    (b_changed, s_changed, done)
}

/// The level, from `0` to `levels - 1`, that shows the value `val`:
/// `val * (levels - 1) / 255`.
pub fn level(val: u8, levels: usize) -> (r: usize)
    requires
        1 <= levels,
        levels - 1 <= usize::MAX / 255,
    ensures
        r == val as int * (levels - 1) / 255,
        r < levels,
{
    let top = levels - 1;
    assert(val as int * top <= 255 * top) by (nonlinear_arith)
        requires val <= 255, top >= 0;
    assert(255 * top <= usize::MAX) by (nonlinear_arith)
        requires top <= usize::MAX / 255;
    let r = (val as usize) * top / 255;
    assert(r <= top) by (nonlinear_arith)
        requires r == val as int * top / 255, val <= 255, top >= 0;
    r
}

/// The mark under a position: `X` where both sorters changed it, `B` where
/// only the bubble sorter did, `S` where only the selection sorter did.
pub fn marker(by_bubble: bool, by_selection: bool) -> (c: char)
    ensures
        c == (if by_bubble && by_selection {
            'X'
        } else if by_bubble {
            'B'
        } else if by_selection {
            'S'
        } else {
            ' '
        }),
{
    if by_bubble && by_selection {
        'X'
    } else if by_bubble {
        'B'
    } else if by_selection {
        'S'
    } else {
        ' '
    }
}

} // verus!
