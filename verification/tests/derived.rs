use lau_dg_algebra::derived::{
    is_perfect_dimensions, morphisms_between, quotient_morphisms, quotient_object_indices,
};
use lau_dg_algebra::graded::GradedVectorSpace;
use std::collections::HashMap;

#[test]
fn perfect_complexes_are_bounded_and_finite() {
    let mut dims = HashMap::new();
    assert!(is_perfect_dimensions(&dims));
    dims.insert(0, 3);
    dims.insert(999, 9999);
    assert!(is_perfect_dimensions(&dims));
    dims.insert(-1, 1);
    assert!(!is_perfect_dimensions(&dims));
    let mut big = HashMap::new();
    big.insert(4, 10000);
    assert!(!is_perfect_dimensions(&big));
}

#[test]
fn quotient_keeps_order_of_surviving_objects() {
    let map = quotient_object_indices(5, &vec![1, 3, 3]);
    assert_eq!(map, vec![Some(0), None, Some(1), None, Some(2)]);
    assert_eq!(quotient_object_indices(2, &vec![]), vec![Some(0), Some(1)]);
    assert_eq!(quotient_object_indices(0, &vec![4]), Vec::<Option<usize>>::new());
}

#[test]
fn quotient_morphisms_between_surviving_objects() {
    let map = quotient_object_indices(4, &vec![1]);
    let morphisms = vec![(0, 1), (0, 2), (2, 3), (3, 3), (3, 9), (1, 1)];
    let kept = quotient_morphisms(&map, &morphisms);
    assert_eq!(kept, vec![(1, 0, 1), (2, 1, 2), (3, 2, 2)]);
}

#[test]
fn morphisms_between_in_order() {
    let morphisms = vec![(0, 1), (1, 0), (0, 1), (0, 0)];
    assert_eq!(morphisms_between(&morphisms, 0, 1), vec![0, 2]);
    assert_eq!(morphisms_between(&morphisms, 1, 1), Vec::<usize>::new());
}

#[test]
fn shifted_perfect_complex_stays_perfect() {
    let mut dims = HashMap::new();
    dims.insert(-3, 5);
    dims.insert(990, 7);
    assert!(is_perfect_dimensions(&dims));
    let shifted = GradedVectorSpace::new(dims).shift(-500).dimensions;
    assert!(is_perfect_dimensions(&shifted));
}
