use lau_dg_algebra::applications::{binomial, popcount, wedge_sign};
use lau_dg_algebra::minimal_model::{
    build_monomial_basis, compute_koszul_sign_for_product, free_product_matrix, generators_from_betti,
    monomials_of_degree, FreeGradedAlgebra,
};
use std::collections::HashMap;

#[test]
fn test_free_exterior_dimensions() {
    let ext = FreeGradedAlgebra::exterior(vec![1, 1]);
    let dims = ext.dimensions(10);
    assert_eq!(dims[&0], 1); // empty monomial
    assert_eq!(dims[&1], 2); // x, y
    assert_eq!(dims[&2], 1); // x∧y
}

#[test]
fn test_free_exterior_single() {
    let ext = FreeGradedAlgebra::exterior(vec![1]);
    let dims = ext.dimensions(10);
    assert_eq!(dims[&0], 1);
    assert_eq!(dims[&1], 1);
}

#[test]
fn test_free_exterior_three() {
    let ext = FreeGradedAlgebra::exterior(vec![1, 1, 1]);
    let dims = ext.dimensions(10);
    assert_eq!(dims[&0], 1);
    assert_eq!(dims[&1], 3);
    assert_eq!(dims[&2], 3);
    assert_eq!(dims[&3], 1);
}

#[test]
fn test_free_polynomial_dimensions() {
    let poly = FreeGradedAlgebra::polynomial(vec![2]);
    let dims = poly.dimensions(10);
    // With even generators, monomials can repeat (simplified as subsets here)
    assert_eq!(dims[&0], 1); // 1
    assert_eq!(dims.get(&2).copied().unwrap_or(0), 1); // x
}

#[test]
fn test_graded_vector_space_from_free() {
    let ext = FreeGradedAlgebra::exterior(vec![1]);
    let gvs = ext.graded_vector_space(10);
    assert_eq!(gvs.dim(0), 1);
    assert_eq!(gvs.dim(1), 1);
}

#[test]
fn free_algebra_constructors_set_parity() {
    let ext = FreeGradedAlgebra::exterior(vec![1, 3]);
    assert_eq!(ext.generator_parity, vec![true, true]);
    let poly = FreeGradedAlgebra::polynomial(vec![2, 4, 6]);
    assert_eq!(poly.generator_parity, vec![false, false, false]);
    let mixed = FreeGradedAlgebra::new(vec![1, 2], vec![true, false]);
    assert_eq!(mixed.generator_degrees, vec![1, 2]);
}

#[test]
fn exterior_dimensions_are_binomial() {
    for n in 1..=12usize {
        let ext = FreeGradedAlgebra::exterior(vec![1; n]);
        let dims = ext.dimensions(20);
        for k in 0..=n {
            assert_eq!(dims[&(k as i32)], binomial(n, k));
        }
        assert_eq!(dims.len(), n + 1);
    }
}

#[test]
fn free_dimensions_are_truncated_at_max_degree() {
    let ext = FreeGradedAlgebra::exterior(vec![1, 1, 1]);
    let dims = ext.dimensions(1);
    assert_eq!(dims[&0], 1);
    assert_eq!(dims[&1], 3);
    assert!(dims.get(&2).is_none());
    assert!(dims.get(&3).is_none());
}

#[test]
fn free_dimensions_of_no_generators_is_ground_field() {
    let empty = FreeGradedAlgebra::exterior(vec![]);
    let dims = empty.dimensions(5);
    assert_eq!(dims.len(), 1);
    assert_eq!(dims[&0], 1);
    // the ground field is kept even below degree 0
    assert_eq!(empty.dimensions(-1)[&0], 1);
}

#[test]
fn free_dimensions_of_seven_generators() {
    let big = FreeGradedAlgebra::exterior(vec![1; 7]);
    assert_eq!(
        big.dimensions(10),
        HashMap::from([(0, 1), (1, 7), (2, 21), (3, 35), (4, 35), (5, 21), (6, 7), (7, 1)])
    );
    assert_eq!(big.graded_vector_space(10).total_dim(), 128);
}

#[test]
fn free_dimensions_mixed_degrees() {
    let alg = FreeGradedAlgebra::new(vec![1, 2, 3], vec![true, false, true]);
    let dims = alg.dimensions(10);
    // subsets: {} 0, {1} 1, {2} 2, {3} 3, {1,2} 3, {1,3} 4, {2,3} 5, {1,2,3} 6
    assert_eq!(dims[&0], 1);
    assert_eq!(dims[&1], 1);
    assert_eq!(dims[&2], 1);
    assert_eq!(dims[&3], 2);
    assert_eq!(dims[&4], 1);
    assert_eq!(dims[&5], 1);
    assert_eq!(dims[&6], 1);
}

#[test]
fn enumerate_monomials_adds_to_existing_counts() {
    let ext = FreeGradedAlgebra::exterior(vec![1, 1]);
    let mut dims = HashMap::new();
    dims.insert(1, 10);
    dims.insert(7, 1);
    ext.enumerate_monomials(&mut dims, 10);
    assert_eq!(dims[&0], 1);
    assert_eq!(dims[&1], 12);
    assert_eq!(dims[&2], 1);
    assert_eq!(dims[&7], 1);
}

#[test]
fn monomial_basis_sorted_by_degree_then_mask() {
    let alg = FreeGradedAlgebra::new(vec![2, 1], vec![false, true]);
    let basis = build_monomial_basis(&alg, 10);
    assert_eq!(basis, vec![(0, 0), (1, 2), (2, 1), (3, 3)]);
    let cut = build_monomial_basis(&alg, 1);
    assert_eq!(cut, vec![(0, 0), (1, 2)]);
}

#[test]
fn monomials_of_degree_filters_in_order() {
    let alg = FreeGradedAlgebra::exterior(vec![1, 1, 1]);
    let basis = build_monomial_basis(&alg, 10);
    assert_eq!(monomials_of_degree(&basis, 1), vec![1, 2, 4]);
    assert_eq!(monomials_of_degree(&basis, 2), vec![3, 5, 6]);
    assert!(monomials_of_degree(&basis, 9).is_empty());
}

#[test]
fn koszul_sign_for_products_of_odd_generators() {
    let degs = vec![1, 1];
    let par = vec![true, true];
    assert_eq!(compute_koszul_sign_for_product(&degs, &par, 1, 2), 1);
    assert_eq!(compute_koszul_sign_for_product(&degs, &par, 2, 1), -1);
    assert_eq!(compute_koszul_sign_for_product(&degs, &par, 0, 3), 1);
}

#[test]
fn koszul_sign_for_products_with_even_generator() {
    let degs = vec![2, 1];
    let par = vec![false, true];
    // generator 1 (odd) of a moves past generator 0 of b
    assert_eq!(compute_koszul_sign_for_product(&degs, &par, 2, 1), -1);
    // generator 1 of b, generator 0 (even) of a: nothing moves
    assert_eq!(compute_koszul_sign_for_product(&degs, &par, 1, 2), 1);
}

#[test]
fn free_product_matrix_exterior_plane() {
    let alg = FreeGradedAlgebra::exterior(vec![1, 1]);
    let basis = build_monomial_basis(&alg, 10);
    // x·x = 0, x·y = +xy, y·x = -xy, y·y = 0
    let m = free_product_matrix(&alg, &basis, 1, 1, 2, 2, 1);
    assert_eq!(m, vec![vec![0, 1, -1, 0]]);
    // the unit times a generator
    let u = free_product_matrix(&alg, &basis, 0, 1, 1, 2, 2);
    assert_eq!(u, vec![vec![1, 0], vec![0, 1]]);
}

#[test]
fn free_product_matrix_polynomial_square_is_not_a_basis_element() {
    let alg = FreeGradedAlgebra::polynomial(vec![2]);
    let basis = build_monomial_basis(&alg, 10);
    // x·x has mask {x}, of degree 2, not 4: no entry
    let m = free_product_matrix(&alg, &basis, 2, 2, 1, 1, 0);
    assert!(m.is_empty());
    let unit = free_product_matrix(&alg, &basis, 0, 2, 1, 1, 1);
    assert_eq!(unit, vec![vec![1]]);
}

#[test]
fn free_product_matrix_respects_given_sizes() {
    let alg = FreeGradedAlgebra::exterior(vec![1, 1]);
    let basis = build_monomial_basis(&alg, 10);
    // with dq = 1 the pairs (0,1) and (1,0) both land in column 1, and the later one stays
    let m = free_product_matrix(&alg, &basis, 1, 1, 2, 1, 1);
    assert_eq!(m, vec![vec![0, -1]]);
}

#[test]
fn generators_follow_betti_numbers_in_increasing_degree() {
    let mut betti = HashMap::new();
    betti.insert(3, 0);
    betti.insert(1, 2);
    betti.insert(0, 1);
    betti.insert(-1, 1);
    betti.insert(2, 1);
    let gens = generators_from_betti(&betti);
    assert_eq!(gens.generator_degrees, vec![-1, 0, 1, 1, 2]);
    // a degree is odd when `d % 2 == 1`, which a negative degree never is
    assert_eq!(gens.generator_parity, vec![false, false, true, true, false]);
}

#[test]
fn generators_of_trivial_cohomology_are_empty() {
    let mut betti = HashMap::new();
    betti.insert(0, 0);
    let gens = generators_from_betti(&betti);
    assert!(gens.generator_degrees.is_empty());
    assert!(gens.generator_parity.is_empty());
}

#[test]
fn exterior_koszul_sign_is_wedge_sign() {
    for n in 0..=5usize {
        let degs = vec![1; n];
        let par = vec![true; n];
        for a in 0..(1u64 << n) {
            for b in 0..(1u64 << n) {
                assert_eq!(compute_koszul_sign_for_product(&degs, &par, a, b), wedge_sign(a, b));
            }
        }
    }
}

#[test]
fn exterior_koszul_sign_graded_commutativity() {
    let degs = vec![1; 5];
    let par = vec![true; 5];
    for a in 0u64..32 {
        for b in 0u64..32 {
            if a & b == 0 {
                let k = popcount(a) * popcount(b);
                let expected = if k % 2 == 0 { 1 } else { -1 };
                let ab = compute_koszul_sign_for_product(&degs, &par, a, b);
                let ba = compute_koszul_sign_for_product(&degs, &par, b, a);
                assert_eq!(ab * ba, expected);
            }
        }
    }
}

#[test]
fn koszul_sign_with_short_parity_list_when_unread() {
    // the parity of generator 2 is never read: nothing of b lies below it
    assert_eq!(compute_koszul_sign_for_product(&vec![1, 1, 1], &vec![true], 0b100, 0), 1);
    assert_eq!(compute_koszul_sign_for_product(&vec![1, 1, 1], &vec![true, true], 0b010, 0b001), -1);
}

#[test]
fn monomial_basis_matches_dimensions() {
    let algebras = vec![
        FreeGradedAlgebra::exterior(vec![1, 1, 1]),
        FreeGradedAlgebra::new(vec![1, 2, 3, 2], vec![true, false, true, false]),
        FreeGradedAlgebra::polynomial(vec![2, 4]),
    ];
    for alg in &algebras {
        for max in [-1, 0, 2, 4, 10] {
            let basis = build_monomial_basis(alg, max);
            let dims = alg.dimensions(max);
            for k in -1..=max {
                let expected = dims.get(&k).copied().unwrap_or(0);
                assert_eq!(monomials_of_degree(&basis, k).len(), expected);
            }
        }
    }
}

#[test]
fn generators_from_betti_with_many_classes_have_dimensions() {
    let mut betti = HashMap::new();
    betti.insert(1, 8);
    let gens = generators_from_betti(&betti);
    assert_eq!(gens.generator_degrees.len(), 8);
    let dims = gens.dimensions(3);
    assert_eq!(dims[&0], 1);
    assert_eq!(dims[&1], 8);
    assert_eq!(dims[&2], 28);
    assert_eq!(dims[&3], 56);
    assert!(dims.get(&4).is_none());
}
