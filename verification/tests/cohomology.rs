use lau_dg_algebra::cohomology::{
    betti_numbers_from_ranks, check_poincare_duality, induces_cohomology_iso, is_trivial,
    nonzero_degrees, same_betti_numbers,
};
use lau_dg_algebra::graded::GradedVectorSpace;
use std::collections::HashMap;

fn table(pairs: &[(i32, usize)]) -> HashMap<i32, usize> {
    let mut m = HashMap::new();
    for &(k, v) in pairs {
        m.insert(k, v);
    }
    m
}

/// Betti numbers of a complex with no differentials.
fn betti_without_differentials(dims: &HashMap<i32, usize>) -> HashMap<i32, usize> {
    betti_numbers_from_ranks(dims, &HashMap::new(), &HashMap::new())
}

#[test]
fn test_cohomology_trivial_complex() {
    // 0 → Z → 0 (single Z in degree 0)
    let dims = table(&[(0, 1)]);
    let h = GradedVectorSpace::new(betti_without_differentials(&dims));
    assert_eq!(h.dim(0), 1);
    assert_eq!(h.total_dim(), 1);
}

#[test]
fn test_cohomology_exact_sequence() {
    // 0 → V⁰ --d₀--> V¹ → 0 with d₀ = identity (dim 1): kernel 0, image 1
    let dims = table(&[(0, 1), (1, 1)]);
    let kernels = table(&[(0, 0)]);
    let images = table(&[(0, 1)]);
    let h = GradedVectorSpace::new(betti_numbers_from_ranks(&dims, &kernels, &images));
    assert_eq!(h.dim(0), 0);
    assert_eq!(h.dim(1), 0);
}

#[test]
fn test_cohomology_circle() {
    let dims = table(&[(0, 1), (1, 1)]);
    let h = GradedVectorSpace::new(betti_without_differentials(&dims));
    assert_eq!(h.dim(0), 1);
    assert_eq!(h.dim(1), 1);
}

#[test]
fn cohomology_test_euler_characteristic() {
    let dims = table(&[(0, 1), (1, 1)]);
    let h = GradedVectorSpace::new(betti_without_differentials(&dims));
    assert_eq!(h.euler_characteristic(), 0); // 1 - 1 = 0
}

#[test]
fn test_poincare_duality() {
    // S²: H⁰ = 1, H¹ = 0, H² = 1 (Poincaré duality in dim 2)
    let dims = table(&[(0, 1), (1, 0), (2, 1)]);
    let betti = betti_without_differentials(&dims);
    assert!(check_poincare_duality(&betti, 2));
}

#[test]
fn test_is_trivial() {
    let dims = table(&[(0, 1), (1, 1)]);
    let kernels = table(&[(0, 0)]);
    let images = table(&[(0, 1)]);
    let betti = betti_numbers_from_ranks(&dims, &kernels, &images);
    assert!(is_trivial(&betti));
}

#[test]
fn test_nonzero_degrees() {
    let dims = table(&[(0, 1), (1, 0), (2, 1)]);
    let betti = betti_without_differentials(&dims);
    assert_eq!(nonzero_degrees(&betti), vec![0, 2]);
}

#[test]
fn test_poincare_polynomial() {
    let dims = table(&[(0, 2), (1, 3), (2, 1)]);
    let pp = betti_without_differentials(&dims);
    assert_eq!(pp[&0], 2);
    assert_eq!(pp[&1], 3);
    assert_eq!(pp[&2], 1);
}

#[test]
fn poincare_duality_fails_on_asymmetry_or_top_class() {
    assert!(!check_poincare_duality(&table(&[(0, 1), (1, 2), (2, 1), (3, 3)]), 3));
    assert!(!check_poincare_duality(&table(&[(0, 2), (2, 2)]), 2));
    assert!(check_poincare_duality(&table(&[(0, 1), (1, 2), (2, 2), (3, 1)]), 3));
    assert!(!check_poincare_duality(&HashMap::new(), 0));
    assert!(check_poincare_duality(&table(&[(0, 1)]), 0));
}

#[test]
fn trivial_and_nonzero_degrees_edge_cases() {
    assert!(is_trivial(&HashMap::new()));
    assert!(!is_trivial(&table(&[(3, 0), (4, 1)])));
    assert!(nonzero_degrees(&HashMap::new()).is_empty());
    assert_eq!(nonzero_degrees(&table(&[(5, 1), (-2, 3), (0, 0), (1, 2)])), vec![-2, 1, 5]);
}

#[test]
fn betti_numbers_saturate_when_image_exceeds_kernel() {
    let dims = table(&[(0, 2), (1, 3)]);
    let kernels = table(&[(1, 1)]);
    let images = table(&[(0, 2)]);
    let betti = betti_numbers_from_ranks(&dims, &kernels, &images);
    assert_eq!(betti[&0], 2);
    assert_eq!(betti[&1], 0);
}

#[test]
fn betti_numbers_ignore_degrees_outside_the_complex() {
    let dims = table(&[(0, 2), (1, 3)]);
    let kernels = table(&[(0, 1), (7, 4)]);
    let images = table(&[(0, 1)]);
    let betti = betti_numbers_from_ranks(&dims, &kernels, &images);
    assert_eq!(betti.len(), 2);
    assert_eq!(betti[&0], 1);
    assert_eq!(betti[&1], 2);
}

#[test]
fn euler_characteristic_of_cohomology_is_that_of_the_complex() {
    // C⁰ = 3 --d₀ (rank 2)--> C¹ = 4 --d₁ (rank 1)--> C² = 2
    let dims = table(&[(0, 3), (1, 4), (2, 2)]);
    let kernels = table(&[(0, 1), (1, 3)]);
    let images = table(&[(0, 2), (1, 1)]);
    let betti = betti_numbers_from_ranks(&dims, &kernels, &images);
    assert_eq!(betti[&0], 1);
    assert_eq!(betti[&1], 1);
    assert_eq!(betti[&2], 1);
    assert_eq!(
        GradedVectorSpace::new(betti).euler_characteristic(),
        GradedVectorSpace::new(dims).euler_characteristic()
    );
}

#[test]
fn same_betti_numbers_counts_missing_degrees_as_zero() {
    let a = table(&[(0, 1), (1, 0)]);
    let b = table(&[(0, 1), (2, 0)]);
    let c = table(&[(0, 1), (1, 1)]);
    assert!(same_betti_numbers(&a, &b));
    assert!(same_betti_numbers(&b, &a));
    assert!(same_betti_numbers(&a, &a));
    assert!(!same_betti_numbers(&a, &c));
    assert!(!same_betti_numbers(&c, &b));
    assert!(same_betti_numbers(&HashMap::new(), &table(&[(4, 0)])));
}

#[test]
fn cohomology_iso_needs_equal_betti_and_full_rank() {
    let s = table(&[(0, 1), (1, 2)]);
    let t = table(&[(0, 1), (1, 2), (2, 0)]);
    assert!(induces_cohomology_iso(&s, &t, &table(&[(0, 1), (1, 2)])));
    assert!(!induces_cohomology_iso(&s, &t, &table(&[(0, 1), (1, 1)])));
    assert!(!induces_cohomology_iso(&s, &t, &table(&[(1, 2)])));
    assert!(!induces_cohomology_iso(&s, &table(&[(0, 1)]), &table(&[(0, 1), (1, 2)])));
    assert!(induces_cohomology_iso(&HashMap::new(), &HashMap::new(), &HashMap::new()));
}

#[test]
fn odd_dimensional_poincare_duality_has_zero_euler_characteristic() {
    let betti = table(&[(0, 1), (1, 2), (2, 2), (3, 1)]);
    assert!(check_poincare_duality(&betti, 3));
    assert_eq!(GradedVectorSpace::new(betti).euler_characteristic(), 0);
    let circle = table(&[(0, 1), (1, 1)]);
    assert!(check_poincare_duality(&circle, 1));
    assert_eq!(GradedVectorSpace::new(circle).euler_characteristic(), 0);
}
