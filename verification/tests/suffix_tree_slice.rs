use ficus_backend::utils::suffix_tree_slice::{MultipleWordsSuffixTreeSlice, SingleWordSuffixTreeSlice, SuffixTreeSlice};

#[test]
fn single_word_reads_its_elements_then_an_end_marker() {
    let word = [5u64, 7, 5];
    let slice = SingleWordSuffixTreeSlice::new(&word);
    assert_eq!(slice.len(), 4);
    assert_eq!(slice.get(0), Some(5));
    assert_eq!(slice.get(2), Some(5));
    assert_eq!(slice.get(3), None);
    assert_eq!(slice.get(10), None);
    assert!(slice.equals(0, 2));
    assert!(!slice.equals(0, 1));
    assert!(!slice.equals(3, 3));
    assert_eq!(slice.sub_slice(1, 3), &[7, 5]);
}

#[test]
fn several_words_are_separated_by_end_markers() {
    let first = [1u64, 2];
    let second = [3u64];
    let slice = MultipleWordsSuffixTreeSlice::new(vec![&first[..], &second[..]]);
    assert_eq!(slice.len(), 5);
    assert_eq!(slice.get(0), Some(1));
    assert_eq!(slice.get(1), Some(2));
    assert_eq!(slice.get(2), None);
    assert_eq!(slice.get(3), Some(3));
    assert_eq!(slice.get(4), None);
    assert_eq!(slice.get(9), None);
    assert!(slice.equals(2, 4));
    assert!(slice.equals(2, 100));
    assert!(!slice.equals(0, 3));
    assert!(slice.equals(1, 1));
}
