use yahtzee::dice::{is_permutation, is_subset};
use yahtzee::subsets::subsets;
use yahtzee::tosses::{dice_faces, variations_with_repetition, variations_with_repetition_hist};

/// Order-insensitive comparison of two lists of hands.
fn same_hands(a: &Vec<Vec<u8>>, b: &Vec<Vec<u8>>) -> bool {
    let mut x = a.clone();
    let mut y = b.clone();
    x.sort();
    y.sort();
    x == y
}

#[test]
fn test_is_permutation() {
    let vec: Vec<u8> = vec![1, 2, 5, 5, 6];
    assert!(is_permutation(&vec, &vec![1, 2, 5, 5, 6]));
    assert!(is_permutation(&vec, &vec![2, 1, 5, 5, 6]));
    assert!(is_permutation(&vec, &vec![5, 2, 1, 5, 6]));
    assert!(is_permutation(&vec, &vec![5, 2, 5, 1, 6]));
    assert!(is_permutation(&vec, &vec![6, 2, 5, 5, 1]));
    assert!(is_permutation(&vec, &vec![1, 5, 2, 5, 6]));
    assert!(is_permutation(&vec, &vec![1, 5, 5, 2, 6]));
    assert!(is_permutation(&vec, &vec![1, 6, 5, 5, 2]));
}

#[test]
fn test_is_subset() {
    let super_set: Vec<u8> = vec![1, 2, 5, 5, 6];
    assert!(is_subset(&vec![], &super_set));
    assert!(is_subset(&vec![1], &super_set));
    assert!(is_subset(&vec![1, 5], &super_set));
    assert!(is_subset(&vec![1, 5, 5], &super_set));
    assert!(is_subset(&vec![1, 5, 6], &super_set));
    assert!(is_subset(&vec![2, 5, 5], &super_set));
    assert!(is_subset(&vec![2, 5, 6], &super_set));
    assert!(is_subset(&vec![5], &super_set));
    assert!(is_subset(&vec![6], &super_set));
}

#[test]
fn test_subsets() {
    let vec: Vec<u8> = vec![1, 2, 5, 5, 6];
    assert!(subsets(&vec).contains(&vec));
    assert!(subsets(&vec).contains(&vec![1]));
    assert!(subsets(&vec).contains(&vec![1, 2]));
    assert!(subsets(&vec).contains(&vec![1, 5]));
    assert!(subsets(&vec).contains(&vec![5]));
    assert!(subsets(&vec).contains(&vec![5, 5]));
    assert!(subsets(&vec).contains(&vec![2, 6]));
    assert!(subsets(&vec).contains(&vec![1, 2, 5]));
    assert!(subsets(&vec).contains(&vec![5, 5, 6]));
}

#[test]
fn test_subsets_size_3() {
    let vec: Vec<u8> = vec![1, 2, 3];
    let subs: Vec<Vec<u8>> = vec![
        vec![],
        vec![1],
        vec![2],
        vec![3],
        vec![1, 2],
        vec![1, 3],
        vec![2, 3],
        vec![1, 2, 3],
    ];
    assert!(same_hands(&subsets(&vec), &subs));
}

#[test]
fn test_subsets_size_4_with_double() {
    let vec: Vec<u8> = vec![1, 2, 3, 3];
    let subs: Vec<Vec<u8>> = vec![
        vec![],
        vec![1],
        vec![2],
        vec![3],
        vec![1, 2],
        vec![1, 3],
        vec![2, 3],
        vec![3, 3],
        vec![1, 2, 3],
        vec![1, 3, 3],
        vec![2, 3, 3],
        vec![1, 2, 3, 3],
    ];
    println!("{:?}", subsets(&vec));
    assert!(same_hands(&subsets(&vec), &subs));
}

#[test]
fn test_subsets_is_subset() {
    let vec: Vec<u8> = vec![1, 2, 3, 4, 5];
    for subset in subsets(&vec) {
        println!("{:?}", subset);
        assert!(is_subset(&subset, &vec));
    }
}

#[test]
fn test_variation_with_repetition() {
    let variations = variations_with_repetition(&dice_faces(), 3);
    assert_eq!(variations.len(), 216);
}

#[test]
fn test_variation_with_repetition_hist() {
    let variations = variations_with_repetition_hist(&dice_faces(), 3);
    println!("{:?}", variations);
    assert!(variations.contains(&(vec![1, 1, 2], 3)));
    assert!(variations.contains(&(vec![1, 1, 5], 3)));
    assert!(variations.contains(&(vec![1, 3, 5], 6)));
}
