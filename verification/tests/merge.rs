use sorting_visualizer::sorting_algorithms::merge_sort::merge;

#[test]
fn merge_interleaves_two_sorted_segments() {
    assert_eq!(merge(&[1, 3, 5], &[2, 4, 6]), vec![1, 2, 3, 4, 5, 6]);
}

#[test]
fn merge_keeps_duplicates() {
    assert_eq!(merge(&[1, 2], &[1, 2]), vec![1, 1, 2, 2]);
}

#[test]
fn merge_prefers_the_left_segment_on_a_tie() {
    // Only with an unsorted input does the side that a tie goes to show.
    assert_eq!(merge(&[1, 0], &[1, 5]), vec![1, 0, 1, 5]);
}

#[test]
fn merge_with_an_empty_segment_is_the_other() {
    assert_eq!(merge(&[], &[2, 4]), vec![2, 4]);
    assert_eq!(merge(&[2, 4], &[]), vec![2, 4]);
    assert_eq!(merge(&[], &[]), Vec::<usize>::new());
}

#[test]
fn merge_appends_what_is_left_of_the_longer_segment() {
    assert_eq!(merge(&[7], &[1, 2, 3]), vec![1, 2, 3, 7]);
    assert_eq!(merge(&[1, 2, 3], &[0]), vec![0, 1, 2, 3]);
    assert_eq!(merge(&[1, 9, 10, 11], &[5]), vec![1, 5, 9, 10, 11]);
}

#[test]
fn merge_of_segments_in_order_is_their_concatenation() {
    assert_eq!(merge(&[1, 2, 2], &[2, 3, 8]), vec![1, 2, 2, 2, 3, 8]);
}

#[test]
fn merge_holds_the_elements_of_both_segments() {
    let a = [5, 1, 4];
    let b = [3, 3, 0, 9];
    let mut merged = merge(&a, &b);
    assert_eq!(merged.len(), a.len() + b.len());
    merged.sort_unstable();
    assert_eq!(merged, vec![0, 1, 3, 3, 4, 5, 9]);
}
