use stepsort::benchmark::{combo_masks, combo_members, pop_count, tally};

#[test]
fn pop_count_counts_bits() {
    assert_eq!(pop_count(0), 0);
    assert_eq!(pop_count(1), 1);
    assert_eq!(pop_count(0b1011), 3);
    assert_eq!(pop_count(u32::MAX), 32);
    for m in 0..2000u32 {
        assert_eq!(pop_count(m), m.count_ones());
    }
}

#[test]
fn combo_masks_of_four_items_in_pairs() {
    assert_eq!(combo_masks(4, 2), vec![1, 2, 3, 4, 5, 6, 8, 9, 10, 12]);
    assert_eq!(combo_masks(3, 3), vec![1, 2, 3, 4, 5, 6, 7]);
    assert_eq!(combo_masks(3, 1), vec![1, 2, 4]);
    assert_eq!(combo_masks(0, 2), Vec::<u32>::new());
    assert_eq!(combo_masks(2, 0), Vec::<u32>::new());
}

#[test]
fn combo_members_lists_set_bits() {
    assert_eq!(combo_members(0b1010, 4), vec![1, 3]);
    assert_eq!(combo_members(0b1010, 2), vec![1]);
    assert_eq!(combo_members(9, 4), vec![0, 3]);
    assert_eq!(combo_members(0, 4), Vec::<usize>::new());
    assert_eq!(combo_members(u32::MAX, 31).len(), 31);
}

#[test]
fn tally_totals_finished_runs() {
    assert_eq!(tally(&[]), Some((0, 0)));
    assert_eq!(tally(&[Some(3), None, Some(4), None, None]), Some((7, 3)));
    assert_eq!(tally(&[Some(usize::MAX), None]), Some((usize::MAX as u64, 1)));
    let many = vec![Some(usize::MAX); 3];
    let sum = 3 * usize::MAX as u128;
    let expected = if sum > u64::MAX as u128 { None } else { Some((sum as u64, 0)) };
    assert_eq!(tally(&many), expected);
}
