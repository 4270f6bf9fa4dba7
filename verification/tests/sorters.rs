use rand::Rng;
use stepsort::bubble::BubbleSorter;
use stepsort::heap::HeapSorter;
use stepsort::insertion::InsertionSorter;
use stepsort::merge::MergeSorter;
use stepsort::quick::QuickSorter;
use stepsort::selection::SelectionSorter;
use stepsort::shell::ShellSorter;
use stepsort::sorter::Sorter;

#[test]
fn heap_sorts_random_data() {
    let mut data = [0u8; 32];
    rand::rng().fill_bytes(&mut data);
    let mut sorter = HeapSorter::new(data.len());
    for _ in 0..data.len() * data.len() {
        sorter.sort_step(&mut data);
        if data.is_sorted() {
            return;
        }
    }
    panic!("did not sort within n² steps");
}

#[test]
fn single_step_sifts() {
    // [2, 1, 3]: build starts at index 0 (the only non-leaf in a 3-element heap)
    let mut data = [2u8, 1, 3];
    let mut sorter = HeapSorter::new(data.len());
    sorter.sort_step(&mut data); // build: 3 > 2, swap(0, 2) → 3 at root
    assert_eq!(data, [3, 1, 2]);
    sorter.sort_step(&mut data); // pos 2 is a leaf, no swap; build phase complete
    assert_eq!(data, [3, 1, 2]);
    sorter.sort_step(&mut data); // extract: swap root(3) to end → 3 in sorted region
    assert_eq!(data, [2, 1, 3]);
}

#[test]
fn insertion_sorts_random_data() {
    let mut data = [0u8; 32];
    rand::rng().fill_bytes(&mut data);
    let mut sorter = InsertionSorter::new();
    for _ in 0..data.len() * data.len() {
        sorter.sort_step(&mut data);
    }
    assert!(data.is_sorted());
}

#[test]
fn single_step_swaps_leftward() {
    let mut data = [1u8, 3, 2];
    let mut sorter = InsertionSorter::new();
    sorter.sort_step(&mut data); // live=1: 3 >= 1, advance sorted_end → live=2
    assert_eq!(data, [1, 3, 2]);
    sorter.sort_step(&mut data); // live=2: 3 > 2, swap → [1, 2, 3], live=1
    assert_eq!(data, [1, 2, 3]);
}

#[test]
fn merge_sorts_random_data() {
    let mut data = [0u8; 32];
    rand::rng().fill_bytes(&mut data);
    let mut sorter = MergeSorter::new(data.len());
    for _ in 0..data.len() * data.len() {
        sorter.sort_step(&mut data);
    }
    assert!(data.is_sorted());
}

#[test]
fn sorts_non_power_of_two() {
    let mut data = [5u8, 3, 8, 1, 9, 2, 7, 4, 6];
    let n = data.len();
    let mut sorter = MergeSorter::new(n);
    for _ in 0..n * n {
        sorter.sort_step(&mut data);
    }
    assert!(data.is_sorted());
}

#[test]
fn merge_step_trace() {
    // width=1 pass: merge [3,1] → [1,3], merge [4,2] → [2,4]
    // width=2 pass: merge [1,3,2,4] → [1,2,3,4]
    let mut data = [3u8, 1, 4, 2];
    let mut sorter = MergeSorter::new(data.len());
    for _ in 0..data.len() * data.len() {
        sorter.sort_step(&mut data);
        if data.is_sorted() {
            break;
        }
    }
    assert_eq!(data, [1, 2, 3, 4]);
}

#[test]
fn quick_sorts_random_data() {
    let mut data = [0u8; 32];
    rand::rng().fill_bytes(&mut data);
    let mut sorter = QuickSorter::new(data.len());
    for _ in 0..data.len() * data.len() {
        sorter.sort_step(&mut data);
    }
    assert!(data.is_sorted());
}

#[test]
fn single_step_partitions() {
    // Trace [3, 1, 2], pivot = data[2] = 2
    let mut data = [3u8, 1, 2];
    let mut sorter = QuickSorter::new(data.len());
    sorter.sort_step(&mut data); // j=0: 3 > pivot(2), no swap, j→1
    assert_eq!(data, [3, 1, 2]);
    sorter.sort_step(&mut data); // j=1: 1 <= pivot(2), swap(0,1) → [1,3,2], j→2
    assert_eq!(data, [1, 3, 2]);
    sorter.sort_step(&mut data); // j=2=hi: finalize, swap pivot → [1,2,3]
    assert_eq!(data, [1, 2, 3]);
}

#[test]
fn selection_sorts_random_data() {
    let mut data = [0u8; 32];
    rand::rng().fill_bytes(&mut data);
    let mut sorter = SelectionSorter::new();
    for _ in 0..data.len() * data.len() {
        sorter.sort_step(&mut data);
    }
    assert!(data.is_sorted());
}

#[test]
fn single_step_scans() {
    let mut data = [3u8, 1, 2];
    let mut sorter = SelectionSorter::new();
    sorter.sort_step(&mut data); // scan: data[1]=1 < data[0]=3, min_index→1
    assert_eq!(data, [3, 1, 2]); // no swap yet
    sorter.sort_step(&mut data); // scan: data[2]=2 vs min(1), no change
    assert_eq!(data, [3, 1, 2]); // still no swap
    sorter.sort_step(&mut data); // scan complete: swap(0,1) → minimum placed
    assert_eq!(data, [1, 3, 2]);
}

#[test]
fn shell_sorts_random_data() {
    let mut data = [0u8; 32];
    rand::rng().fill_bytes(&mut data);
    let mut sorter = ShellSorter::new(data.len());
    for _ in 0..data.len() * data.len() {
        sorter.sort_step(&mut data);
    }
    assert!(data.is_sorted());
}

#[test]
fn single_step_swaps_across_gap() {
    // n=7: initial_gap=4; first insertion is live_index=4
    let mut data = [7u8, 1, 2, 3, 4, 5, 6];
    let mut sorter = ShellSorter::new(data.len());
    sorter.sort_step(&mut data); // gap=4: data[0]=7 > data[4]=4, swap across gap
    assert_eq!(data, [4, 1, 2, 3, 7, 5, 6]);
}

#[test]
fn bubble_sorts_random_data() {
    let mut data = [0u8; 32];
    rand::rng().fill_bytes(&mut data);
    let mut sorter = BubbleSorter::new(data.len());
    for _ in 0..data.len() * data.len() {
        sorter.sort_step(&mut data);
    }
    assert!(data.is_sorted());
}
