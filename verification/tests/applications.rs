use lau_dg_algebra::applications::{
    all_subsets_by_degree, betti_sets_all_compatible, betti_sets_compatible, binomial,
    binomial_checked, cech_dimensions, form_dimensions, popcount, wedge_product_matrix, wedge_sign,
    HodgeDecomposition,
};
use lau_dg_algebra::cohomology::{betti_numbers_from_ranks, check_poincare_duality};
use lau_dg_algebra::graded::GradedVectorSpace;
use std::collections::HashMap;

#[test]
fn test_hodge_decomposition() {
    let hodge = HodgeDecomposition::for_dimension(2);
    assert_eq!(hodge.harmonic_dimensions[&0], 1);
    assert_eq!(hodge.harmonic_dimensions[&1], 2);
    assert_eq!(hodge.harmonic_dimensions[&2], 1);
}

#[test]
fn test_hodge_betti() {
    let hodge = HodgeDecomposition::for_dimension(3);
    let betti = hodge.betti_numbers();
    assert_eq!(betti[&0], 1);
    assert_eq!(betti[&1], 3);
    assert_eq!(betti[&2], 3);
    assert_eq!(betti[&3], 1);
}

#[test]
fn test_hodge_check_decomposition() {
    let hodge = HodgeDecomposition::for_dimension(2);
    let mut total = HashMap::new();
    total.insert(0, 1);
    total.insert(1, 2);
    total.insert(2, 1);
    assert!(hodge.check_decomposition(&total));
}

#[test]
fn test_binomial() {
    assert_eq!(binomial(0, 0), 1);
    assert_eq!(binomial(5, 0), 1);
    assert_eq!(binomial(5, 5), 1);
    assert_eq!(binomial(5, 2), 10);
    assert_eq!(binomial(6, 3), 20);
}

#[test]
fn test_wedge_sign() {
    // Empty wedge empty = positive
    assert_eq!(wedge_sign(0, 0), 1);
    // {0} wedge {1} = positive (no transpositions needed)
    assert_eq!(wedge_sign(1, 2), 1);
    // {1} wedge {0} = negative (one transposition)
    assert_eq!(wedge_sign(2, 1), -1);
}

#[test]
fn binomial_above_n_is_zero_and_symmetric() {
    assert_eq!(binomial(4, 7), 0);
    for n in 0..12usize {
        for k in 0..=n {
            assert_eq!(binomial(n, k), binomial(n, n - k));
        }
    }
    assert_eq!(binomial(30, 15), 155117520);
}

#[test]
fn binomial_checked_matches_and_reports_overflow() {
    assert_eq!(binomial_checked(6, 3), Some(20));
    assert_eq!(binomial_checked(3, 9), Some(0));
    assert_eq!(binomial_checked(7, 0), Some(1));
    assert_eq!(binomial_checked(40, 20), Some(137846528820));
    assert_eq!(binomial_checked(200, 100), None);
}

#[test]
fn hodge_check_decomposition_rejects_too_small_totals() {
    let hodge = HodgeDecomposition::for_dimension(2);
    let mut total = HashMap::new();
    total.insert(0, 1);
    total.insert(2, 1);
    assert!(!hodge.check_decomposition(&total));
    total.insert(1, 5);
    assert!(hodge.check_decomposition(&total));
}

#[test]
fn hodge_star_dimensions_match_harmonic_ones() {
    for n in 0..8usize {
        let hodge = HodgeDecomposition::for_dimension(n);
        assert_eq!(hodge.hodge_star_dims, hodge.harmonic_dimensions);
    }
}

#[test]
fn hodge_dimensions_satisfy_poincare_duality() {
    for n in 0..8i32 {
        let hodge = HodgeDecomposition::for_dimension(n as usize);
        assert!(check_poincare_duality(hodge.betti_numbers(), n));
    }
}

#[test]
fn hodge_total_dimension_is_power_of_two_and_euler_vanishes() {
    for n in 0..10usize {
        let hodge = HodgeDecomposition::for_dimension(n);
        let v = GradedVectorSpace::new(hodge.harmonic_dimensions.clone());
        assert_eq!(v.total_dim(), 1usize << n);
        assert_eq!(v.euler_characteristic(), if n == 0 { 1 } else { 0 });
    }
}

#[test]
fn hodge_for_dimension_zero_is_a_point() {
    let hodge = HodgeDecomposition::for_dimension(0);
    assert_eq!(hodge.harmonic_dimensions.len(), 1);
    assert_eq!(hodge.harmonic_dimensions[&0], 1);
}

#[test]
fn betti_tables_compatibility() {
    let mut a = HashMap::new();
    a.insert(0, 1);
    a.insert(1, 2);
    let mut b = HashMap::new();
    b.insert(1, 2);
    b.insert(5, 9);
    assert!(betti_sets_compatible(&a, &b));
    assert!(betti_sets_compatible(&b, &a));
    assert!(betti_sets_compatible(&a, &a));
    b.insert(0, 3);
    assert!(!betti_sets_compatible(&a, &b));
    assert!(!betti_sets_compatible(&b, &a));
}

#[test]
fn all_betti_tables_compatible_with_first() {
    let mut a = HashMap::new();
    a.insert(0, 1);
    let mut b = HashMap::new();
    b.insert(0, 1);
    b.insert(1, 4);
    let mut c = HashMap::new();
    c.insert(1, 7);
    assert!(betti_sets_all_compatible(&vec![]));
    assert!(betti_sets_all_compatible(&vec![a.clone()]));
    assert!(betti_sets_all_compatible(&vec![a.clone(), b.clone(), c.clone()]));
    assert!(!betti_sets_all_compatible(&vec![b.clone(), a.clone(), c.clone()]));
}

#[test]
fn wedge_sign_counts_transpositions() {
    // {0,2} ∧ {1}: 1 sits below 2 -> one transposition
    assert_eq!(wedge_sign(0b101, 0b010), -1);
    // {1} ∧ {0,2}: 0 sits below 1 -> one transposition
    assert_eq!(wedge_sign(0b010, 0b101), -1);
    // {2,3} ∧ {0,1}: four transpositions
    assert_eq!(wedge_sign(0b1100, 0b0011), 1);
    assert_eq!(wedge_sign(1u64 << 63, 1), -1);
}

#[test]
fn wedge_sign_graded_commutativity() {
    for a in 0u64..32 {
        for b in 0u64..32 {
            if a & b == 0 {
                let k = (popcount(a) * popcount(b)) as i64;
                let expected = if k % 2 == 0 { 1 } else { -1 };
                assert_eq!(wedge_sign(a, b) * wedge_sign(b, a), expected);
            }
        }
    }
}

#[test]
fn popcount_counts_bits() {
    assert_eq!(popcount(0), 0);
    assert_eq!(popcount(0b1011), 3);
    assert_eq!(popcount(u64::MAX), 64);
}

#[test]
fn subsets_by_degree_lists_k_subsets_in_order() {
    let subs = all_subsets_by_degree(3);
    assert_eq!(subs[&0], vec![0]);
    assert_eq!(subs[&1], vec![1, 2, 4]);
    assert_eq!(subs[&2], vec![3, 5, 6]);
    assert_eq!(subs[&3], vec![7]);
    assert_eq!(subs.len(), 4);
}

#[test]
fn subsets_by_degree_counts_are_binomial() {
    for dim in 0..9usize {
        let subs = all_subsets_by_degree(dim);
        for k in 0..=dim {
            assert_eq!(subs[&(k as i32)].len(), binomial(dim, k));
        }
    }
}

#[test]
fn wedge_product_matrix_on_one_forms_in_the_plane() {
    // dx = {0}, dy = {1}; dx∧dy = +dxdy, dy∧dx = -dxdy, dx∧dx = dy∧dy = 0
    let m = wedge_product_matrix(&vec![1, 2], &vec![1, 2], &vec![3]);
    assert_eq!(m, vec![vec![0, 1, -1, 0]]);
}

#[test]
fn wedge_product_matrix_with_unit() {
    // 1 ∧ dx, 1 ∧ dy in the plane
    let m = wedge_product_matrix(&vec![0], &vec![1, 2], &vec![1, 2]);
    assert_eq!(m, vec![vec![1, 0], vec![0, 1]]);
}

#[test]
fn wedge_product_matrix_missing_target_row() {
    let m = wedge_product_matrix(&vec![1], &vec![2], &vec![5, 6]);
    assert_eq!(m, vec![vec![0], vec![0]]);
}

#[test]
fn form_dimensions_are_binomial_rows() {
    assert_eq!(form_dimensions(0), HashMap::from([(0, 1)]));
    assert_eq!(form_dimensions(1), HashMap::from([(0, 1), (1, 1)]));
    assert_eq!(form_dimensions(2), HashMap::from([(0, 1), (1, 2), (2, 1)]));
    assert_eq!(form_dimensions(3), HashMap::from([(0, 1), (1, 3), (2, 3), (3, 1)]));
    assert_eq!(form_dimensions(5), HodgeDecomposition::for_dimension(5).harmonic_dimensions);
}

#[test]
fn cech_dimensions_count_intersections() {
    // Čech⁰ = C(3,1) = 3, Čech¹ = C(3,2) = 3, Čech² = C(3,3) = 1
    assert_eq!(cech_dimensions(3), HashMap::from([(0, 3), (1, 3), (2, 1)]));
    assert_eq!(cech_dimensions(2), HashMap::from([(0, 2), (1, 1)]));
    assert!(cech_dimensions(0).is_empty());
}

#[test]
fn cech_complex_has_euler_characteristic_one() {
    for n in 1..12usize {
        let v = GradedVectorSpace::new(cech_dimensions(n));
        assert_eq!(v.euler_characteristic(), 1);
    }
    assert_eq!(GradedVectorSpace::new(cech_dimensions(0)).euler_characteristic(), 0);
}

#[test]
fn de_rham_betti_numbers_are_compatible_with_hodge() {
    for n in 0..7usize {
        let forms = form_dimensions(n);
        let de_rham = betti_numbers_from_ranks(&forms, &HashMap::new(), &HashMap::new());
        let hodge = HodgeDecomposition::for_dimension(n);
        assert!(betti_sets_compatible(&de_rham, hodge.betti_numbers()));
        assert!(betti_sets_all_compatible(&vec![de_rham, hodge.harmonic_dimensions.clone()]));
    }
}
