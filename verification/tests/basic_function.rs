use scolia_calendar::basic_function::{lengths_cover, reconstruct_subarray};

#[test]
fn add_test() {
    let result = scolia_calendar::basic_function::add(2, 2);
    assert_eq!(result, 4);
}

#[test]
fn add_takes_the_largest_sum() {
    assert_eq!(scolia_calendar::basic_function::add(u64::MAX - 1, 1), u64::MAX);
    assert_eq!(scolia_calendar::basic_function::add(0, 0), 0);
}

#[test]
fn reconstruct_subarray_test() {
    let flat = [1.0, 2.0, 3.0, 4.0, 5.0, 6.0];
    let lengths = [2, 1, 3];
    let result = reconstruct_subarray(&flat, &lengths);
    assert_eq!(result, vec![vec![1.0, 2.0], vec![3.0], vec![4.0, 5.0, 6.0]]);
}

#[test]
fn reconstruct_subarray_of_slots() {
    let flat: Vec<usize> = vec![1, 4, 0, 6];
    let lengths: Vec<usize> = vec![2, 0, 2];
    let result = reconstruct_subarray(&flat, &lengths);
    assert_eq!(result, vec![vec![1, 4], vec![], vec![0, 6]]);
}

#[test]
fn reconstruct_subarray_of_nothing() {
    let flat: Vec<usize> = Vec::new();
    let none: Vec<usize> = Vec::new();
    assert_eq!(reconstruct_subarray(&flat, &none), Vec::<Vec<usize>>::new());
    let empty_groups: Vec<usize> = vec![0, 0];
    assert_eq!(reconstruct_subarray(&flat, &empty_groups), vec![Vec::<usize>::new(), Vec::new()]);
}

#[test]
fn reconstruct_subarray_gives_the_buffer_back() {
    let flat: Vec<usize> = vec![9, 8, 7, 6, 5];
    let lengths: Vec<usize> = vec![1, 3, 0, 1];
    let groups = reconstruct_subarray(&flat, &lengths);
    let again: Vec<usize> = groups.iter().flatten().copied().collect();
    assert_eq!(again, flat);
    let found: Vec<usize> = groups.iter().map(|g| g.len()).collect();
    assert_eq!(found, lengths);
}

#[test]
fn lengths_cover_tells_exact_use() {
    assert!(lengths_cover(6, &[2, 1, 3]));
    assert!(lengths_cover(0, &[]));
    assert!(lengths_cover(0, &[0, 0]));
    assert!(!lengths_cover(6, &[2, 1, 2]));
    assert!(!lengths_cover(6, &[2, 1, 4]));
    assert!(!lengths_cover(1, &[]));
    assert!(!lengths_cover(5, &[usize::MAX, usize::MAX]));
    assert!(!lengths_cover(usize::MAX, &[usize::MAX, 1]));
}
