use stepsort::bubble::BubbleSorter;
use stepsort::heap::HeapSorter;
use stepsort::insertion::InsertionSorter;
use stepsort::merge::MergeSorter;
use stepsort::quick::QuickSorter;
use stepsort::selection::SelectionSorter;
use stepsort::shell::{initial_gap, ShellSorter};
use stepsort::sorter::{is_sorted, run, swap_elems, AnySorter, Sorter};
use stepsort::visualize::{level, marker, viz_round};

/// Inputs of every length up to `max`, in several shapes.
fn inputs(max: usize) -> Vec<Vec<u8>> {
    let mut all = Vec::new();
    for n in 0..=max {
        all.push((0..n).map(|k| k as u8).collect());
        all.push((0..n).map(|k| (n - k) as u8).collect());
        all.push(vec![7u8; n]);
        all.push((0..n).map(|k| ((k * 37 + 11) % 23) as u8).collect());
        all.push((0..n).map(|k| if k % 2 == 0 { 200 } else { k as u8 }).collect());
    }
    all
}

fn sorted_copy(v: &[u8]) -> Vec<u8> {
    let mut c = v.to_vec();
    c.sort();
    c
}

/// Runs `make(n)` for `n * n` steps and more on every input; checks that
/// every step keeps the elements, that the data is sorted after `n * n`
/// steps, and, where `stays` is set, that it stays so.
fn check_sorter<S: Sorter>(make: fn(usize) -> S, stays: bool, min_len: usize) {
    for input in inputs(40) {
        let n = input.len();
        if n < min_len {
            continue;
        }
        let mut data = input.clone();
        let mut s = make(n);
        let expected = sorted_copy(&input);
        let mut seen_sorted = n <= 1;
        for step in 0..(n * n + 3 * n + 5) {
            s.sort_step(&mut data);
            assert_eq!(sorted_copy(&data), expected);
            if is_sorted(&data) {
                seen_sorted = true;
            }
            if stays && step + 1 >= n * n {
                assert!(is_sorted(&data), "not sorted after {} steps on {:?}", step + 1, input);
            }
            if step + 1 == n * n {
                assert!(seen_sorted, "not sorted within {} steps on {:?}", n * n, input);
            }
        }
    }
}

#[test]
fn bubble_sorts_within_square_steps() {
    check_sorter(BubbleSorter::new, true, 1);
}

#[test]
fn insertion_sorts_within_square_steps() {
    check_sorter(|_| InsertionSorter::new(), true, 0);
}

#[test]
fn selection_sorts_within_square_steps() {
    check_sorter(|_| SelectionSorter::new(), true, 1);
}

#[test]
fn shell_sorts_within_square_steps() {
    check_sorter(ShellSorter::new, true, 0);
}

#[test]
fn quick_sorts_within_square_steps() {
    check_sorter(QuickSorter::new, true, 0);
}

#[test]
fn merge_sorts_within_square_steps() {
    check_sorter(MergeSorter::new, true, 0);
}

#[test]
fn heap_reaches_sorted_within_square_steps() {
    check_sorter(HeapSorter::new, false, 0);
}

#[test]
fn knuth_gaps() {
    assert_eq!(initial_gap(0), 1);
    assert_eq!(initial_gap(2), 1);
    assert_eq!(initial_gap(4), 1);
    assert_eq!(initial_gap(5), 4);
    assert_eq!(initial_gap(7), 4);
    assert_eq!(initial_gap(13), 4);
    assert_eq!(initial_gap(14), 13);
    assert_eq!(initial_gap(32), 13);
    assert_eq!(initial_gap(40), 13);
    assert_eq!(initial_gap(41), 40);
    assert_eq!(initial_gap(42), 40);
    assert_eq!(initial_gap(1000), 364);
}

#[test]
fn sortedness_check() {
    assert!(is_sorted(&[]));
    assert!(is_sorted(&[5]));
    assert!(is_sorted(&[1, 1, 2, 9]));
    assert!(!is_sorted(&[2, 1]));
    assert!(!is_sorted(&[1, 2, 3, 0]));
}

#[test]
fn swapping_exchanges_two_elements() {
    let mut data = [1u8, 2, 3, 4];
    swap_elems(&mut data, 0, 3);
    assert_eq!(data, [4, 2, 3, 1]);
    swap_elems(&mut data, 2, 2);
    assert_eq!(data, [4, 2, 3, 1]);
}

#[test]
fn bubble_passes_and_restarts() {
    let mut data = [2u8, 1];
    let mut s = BubbleSorter::new(2);
    s.sort_step(&mut data); // compare (2, 1): exchange
    assert_eq!(data, [1, 2]);
    s.sort_step(&mut data); // end of the pass
    s.sort_step(&mut data); // finished: start again
    s.sort_step(&mut data); // compare (1, 2): in order
    assert_eq!(data, [1, 2]);
}

#[test]
fn run_counts_rounds_until_sorted() {
    let mut data = [2u8, 1];
    let mut sorters = vec![AnySorter::Bubble(BubbleSorter::new(2))];
    assert_eq!(run(&mut sorters, &mut data, 10), Some(1));
    assert_eq!(data, [1, 2]);

    let mut data = [3u8, 2, 1];
    let mut sorters = vec![AnySorter::Bubble(BubbleSorter::new(3))];
    assert_eq!(run(&mut sorters, &mut data, 1), None);
    assert_eq!(data, [2, 3, 1]);

    let mut data = [3u8, 2, 1];
    let mut sorters = vec![AnySorter::Bubble(BubbleSorter::new(3))];
    assert_eq!(run(&mut sorters, &mut data, 0), None);
    assert_eq!(data, [3, 2, 1]);

    // Bubble: (3,2) -> [2,3,1], (3,1) -> [2,1,3], end of pass, (2,1) -> [1,2,3].
    let mut data = [3u8, 2, 1];
    let mut sorters = vec![AnySorter::Bubble(BubbleSorter::new(3))];
    assert_eq!(run(&mut sorters, &mut data, 100), Some(4));
    assert_eq!(data, [1, 2, 3]);
}

#[test]
fn run_interleaves_sorters() {
    // Round 1: bubble exchanges (3, 2) -> [2, 3, 1]; selection compares 3 with 2.
    // Round 2: bubble exchanges (3, 1) -> [2, 1, 3]; selection compares 3 with 2.
    // Round 3: bubble ends its pass; selection puts its minimum, 2, at 0.
    // Round 4: bubble exchanges (2, 1) -> [1, 2, 3].
    let mut data = [3u8, 2, 1];
    let mut sorters = vec![
        AnySorter::Bubble(BubbleSorter::new(3)),
        AnySorter::Selection(SelectionSorter::new()),
    ];
    assert_eq!(run(&mut sorters, &mut data, 100), Some(4));
    assert_eq!(data, [1, 2, 3]);
}

#[test]
fn every_kind_runs_to_sorted() {
    let input = [9u8, 4, 7, 1, 8, 2, 6, 3, 5, 0];
    let n = input.len();
    let makers: Vec<fn(usize) -> AnySorter> = vec![
        |n| AnySorter::Bubble(BubbleSorter::new(n)),
        |n| AnySorter::Heap(HeapSorter::new(n)),
        |_| AnySorter::Insertion(InsertionSorter::new()),
        |n| AnySorter::Merge(MergeSorter::new(n)),
        |n| AnySorter::Quick(QuickSorter::new(n)),
        |_| AnySorter::Selection(SelectionSorter::new()),
        |n| AnySorter::Shell(ShellSorter::new(n)),
    ];
    for make in makers {
        let mut data = input;
        let mut sorters = vec![make(n)];
        let rounds = run(&mut sorters, &mut data, n * n).expect("sorted within n * n rounds");
        assert!(rounds >= 1 && rounds <= n * n);
        assert_eq!(data, [0, 1, 2, 3, 4, 5, 6, 7, 8, 9]);
    }
}

#[test]
fn tiny_inputs_are_left_alone() {
    let mut empty: [u8; 0] = [];
    let mut one = [42u8];
    let mut h = HeapSorter::new(0);
    h.sort_step(&mut empty);
    let mut h = HeapSorter::new(1);
    h.sort_step(&mut one);
    let mut s = ShellSorter::new(1);
    s.sort_step(&mut one);
    let mut m = MergeSorter::new(1);
    m.sort_step(&mut one);
    let mut q = QuickSorter::new(1);
    q.sort_step(&mut one);
    let mut i = InsertionSorter::new();
    i.sort_step(&mut one);
    let mut sel = SelectionSorter::new();
    sel.sort_step(&mut one);
    assert_eq!(one, [42]);
}

/// Runs `make(n)` on every input; checks that the data is sorted after
/// `bound(n)` steps and stays so for a while.
fn check_bound<S: Sorter>(make: fn(usize) -> S, bound: fn(usize) -> usize, min_len: usize) {
    for input in inputs(40) {
        let n = input.len();
        if n < min_len {
            continue;
        }
        let mut data = input.clone();
        let mut s = make(n);
        for _ in 0..bound(n) {
            s.sort_step(&mut data);
        }
        for extra in 0..(2 * n + 3) {
            assert!(is_sorted(&data), "not sorted after {} steps on {:?}", bound(n) + extra, input);
            s.sort_step(&mut data);
        }
    }
}

fn triangle_less_two(n: usize) -> usize {
    (n * (n + 1) / 2).saturating_sub(2)
}

fn triangle_less_one(n: usize) -> usize {
    (n * (n + 1) / 2).saturating_sub(1)
}

fn ceil_log2(n: usize) -> usize {
    let mut p = 0;
    while (1usize << p) < n {
        p += 1;
    }
    p
}

fn merge_bound(n: usize) -> usize {
    n.saturating_sub(1) * ceil_log2(n)
}

#[test]
fn bubble_sorts_within_triangle_steps() {
    check_bound(BubbleSorter::new, triangle_less_two, 1);
}

#[test]
fn bubble_bound_is_reached_on_reversed_data() {
    for n in 2..20usize {
        let mut data: Vec<u8> = (0..n).map(|k| (n - k) as u8).collect();
        let mut s = BubbleSorter::new(n);
        for _ in 0..triangle_less_two(n) - 1 {
            s.sort_step(&mut data);
        }
        assert!(!is_sorted(&data));
        s.sort_step(&mut data);
        assert!(is_sorted(&data));
    }
}

#[test]
fn insertion_sorts_within_triangle_steps() {
    check_bound(|_| InsertionSorter::new(), triangle_less_one, 1);
}

#[test]
fn selection_sorts_within_triangle_steps() {
    check_bound(|_| SelectionSorter::new(), triangle_less_one, 1);
}

#[test]
fn quick_sorts_within_triangle_steps() {
    check_bound(QuickSorter::new, triangle_less_one, 1);
}

#[test]
fn merge_sorts_within_n_log_n_steps() {
    assert_eq!(merge_bound(32), 31 * 5);
    assert_eq!(merge_bound(33), 32 * 6);
    check_bound(MergeSorter::new, merge_bound, 0);
}

#[test]
fn merge_step_moves_one_element() {
    let mut data = [5u8, 7, 1, 2];
    let mut s = MergeSorter::new(4);
    // Merge of [5] with [7]: a comparison.
    s.sort_step(&mut data);
    assert_eq!(data, [5, 7, 1, 2]);
    // Merge of [1] with [2]: a comparison.
    s.sort_step(&mut data);
    assert_eq!(data, [5, 7, 1, 2]);
    // Merge of [5, 7] with [1, 2]: 1 moves in front of 5, then 2.
    s.sort_step(&mut data);
    assert_eq!(data, [1, 5, 7, 2]);
    s.sort_step(&mut data);
    assert_eq!(data, [1, 2, 5, 7]);
}

#[test]
fn heap_sorts_again_on_sorted_data() {
    let mut data = [1u8, 2, 3, 4, 5];
    let mut s = HeapSorter::new(5);
    s.sort_step(&mut data);
    assert!(!is_sorted(&data));
    let mut reached = false;
    for _ in 1..25 {
        s.sort_step(&mut data);
        if is_sorted(&data) {
            reached = true;
            break;
        }
    }
    assert!(reached);
}

#[test]
fn heap_step_exchanges_at_most_two_pairs() {
    for input in inputs(12) {
        let n = input.len();
        let mut data = input.clone();
        let mut s = HeapSorter::new(n);
        for _ in 0..(n * n + 5) {
            let before = data.clone();
            s.sort_step(&mut data);
            let moved = (0..n).filter(|&k| before[k] != data[k]).count();
            assert!(moved <= 4);
        }
    }
}

#[test]
fn shell_step_exchanges_one_pair() {
    for input in inputs(20) {
        let n = input.len();
        let mut data = input.clone();
        let mut s = ShellSorter::new(n);
        for _ in 0..(n * n + 5) {
            let before = data.clone();
            s.sort_step(&mut data);
            let moved: Vec<usize> = (0..n).filter(|&k| before[k] != data[k]).collect();
            assert!(moved.is_empty() || (moved.len() == 2 && before[moved[0]] > before[moved[1]]));
        }
    }
}

#[test]
fn shell_and_insertion_take_slices_of_other_lengths() {
    let mut s = ShellSorter::new(10);
    let mut i = InsertionSorter::new();
    let mut long: Vec<u8> = (0..10).rev().collect();
    let mut long2 = long.clone();
    for _ in 0..7 {
        s.sort_step(&mut long);
        i.sort_step(&mut long2);
    }
    let mut short = [3u8, 1, 2];
    let mut short2 = [3u8, 1, 2];
    for _ in 0..40 {
        s.sort_step(&mut short);
        i.sort_step(&mut short2);
    }
    assert_eq!(short, [1, 2, 3]);
    assert_eq!(short2, [1, 2, 3]);
}

#[test]
fn viz_round_reports_changes() {
    let mut data = [3u8, 1, 2];
    let mut b = BubbleSorter::new(3);
    let mut s = SelectionSorter::new();
    // Bubble exchanges positions 0 and 1: [1, 3, 2]; selection compares.
    let (bc, sc, done) = viz_round(&mut b, &mut s, &mut data);
    assert_eq!(data, [1, 3, 2]);
    assert_eq!(bc, vec![true, true, false]);
    assert_eq!(sc, vec![false, false, false]);
    assert!(!done);
    // Bubble exchanges positions 1 and 2: [1, 2, 3]; selection compares.
    let (bc, sc, done) = viz_round(&mut b, &mut s, &mut data);
    assert_eq!(data, [1, 2, 3]);
    assert_eq!(bc, vec![false, true, true]);
    assert_eq!(sc, vec![false, false, false]);
    assert!(done);
}

#[test]
fn viz_round_marks_both_exchanges() {
    let mut data = [2u8, 1];
    // A bubble sorter made for length 1 is finished: its first step starts
    // it again on the whole slice.
    let mut b = BubbleSorter::new(1);
    let mut s = SelectionSorter::new();
    let (bc, sc, done) = viz_round(&mut b, &mut s, &mut data);
    assert_eq!(data, [2, 1]);
    assert_eq!(bc, vec![false, false]);
    assert_eq!(sc, vec![false, false]);
    assert!(!done);
    // Bubble exchanges the pair, then selection puts its minimum, found
    // before, at position 0, and so exchanges them back.
    let (bc, sc, done) = viz_round(&mut b, &mut s, &mut data);
    assert_eq!(data, [2, 1]);
    assert_eq!(bc, vec![true, true]);
    assert_eq!(sc, vec![true, true]);
    assert!(!done);
    assert_eq!(marker(bc[0], sc[0]), 'X');
}

#[test]
fn levels_and_markers() {
    assert_eq!(level(0, 8), 0);
    assert_eq!(level(255, 8), 7);
    assert_eq!(level(128, 8), 3);
    assert_eq!(level(37, 8), 1);
    assert_eq!(level(200, 1), 0);
    assert_eq!(marker(true, true), 'X');
    assert_eq!(marker(true, false), 'B');
    assert_eq!(marker(false, true), 'S');
    assert_eq!(marker(false, false), ' ');
}

fn count_inversions(v: &[u8]) -> usize {
    let mut c = 0;
    for a in 0..v.len() {
        for b in (a + 1)..v.len() {
            if v[a] > v[b] {
                c += 1;
            }
        }
    }
    c
}

/// Steps `make(n)` on every input; every step that changes the data lowers
/// the number of pairs out of order.
fn check_inversions_fall<S: Sorter>(make: fn(usize) -> S, min_len: usize) {
    for input in inputs(16) {
        let n = input.len();
        if n < min_len {
            continue;
        }
        let mut data = input.clone();
        let mut s = make(n);
        for _ in 0..(n * n + 5) {
            let before = data.clone();
            s.sort_step(&mut data);
            if data != before {
                assert!(count_inversions(&data) < count_inversions(&before));
            }
        }
    }
}

#[test]
fn exchanges_lower_inversions() {
    check_inversions_fall(BubbleSorter::new, 1);
    check_inversions_fall(|_| InsertionSorter::new(), 0);
    check_inversions_fall(ShellSorter::new, 0);
    check_inversions_fall(MergeSorter::new, 0);
    check_inversions_fall(|_| SelectionSorter::new(), 1);
    check_inversions_fall(QuickSorter::new, 0);
    assert_eq!(count_inversions(&[3, 1, 2]), 2);
    let mut data = [3u8, 1, 2];
    let mut s = BubbleSorter::new(3);
    s.sort_step(&mut data);
    assert_eq!(data, [1, 3, 2]);
    assert_eq!(count_inversions(&data), 1);
}

#[test]
fn adjacent_exchanges_remove_one_inversion() {
    for input in inputs(14) {
        let n = input.len();
        let mut data = input.clone();
        let mut b = BubbleSorter::new(n.max(1));
        let mut data2 = input.clone();
        let mut i = InsertionSorter::new();
        for _ in 0..(n * n + 5) {
            if n >= 1 {
                let before = data.clone();
                b.sort_step(&mut data);
                if data != before {
                    assert_eq!(count_inversions(&data) + 1, count_inversions(&before));
                }
            }
            let before2 = data2.clone();
            i.sort_step(&mut data2);
            if data2 != before2 {
                assert_eq!(count_inversions(&data2) + 1, count_inversions(&before2));
            }
        }
    }
}
