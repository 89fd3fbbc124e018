use lau_dg_algebra::graded::{koszul_sign, GradedVectorSpace};
use std::collections::HashMap;

fn space(pairs: &[(i32, usize)]) -> GradedVectorSpace {
    let mut dims = HashMap::new();
    for &(k, d) in pairs {
        dims.insert(k, d);
    }
    GradedVectorSpace::new(dims)
}

#[test]
fn test_graded_vector_space_new() {
    let mut dims = HashMap::new();
    dims.insert(0, 3);
    dims.insert(1, 2);
    let v = GradedVectorSpace::new(dims);
    assert_eq!(v.dim(0), 3);
    assert_eq!(v.dim(1), 2);
    assert_eq!(v.dim(2), 0);
}

#[test]
fn test_graded_vector_space_zero() {
    let v = GradedVectorSpace::zero();
    assert_eq!(v.total_dim(), 0);
}

#[test]
fn test_total_dim() {
    let mut dims = HashMap::new();
    dims.insert(0, 3);
    dims.insert(1, 2);
    dims.insert(2, 1);
    let v = GradedVectorSpace::new(dims);
    assert_eq!(v.total_dim(), 6);
}

#[test]
fn test_direct_sum() {
    let mut d1 = HashMap::new();
    d1.insert(0, 2);
    d1.insert(1, 1);
    let v1 = GradedVectorSpace::new(d1);

    let mut d2 = HashMap::new();
    d2.insert(1, 3);
    d2.insert(2, 2);
    let v2 = GradedVectorSpace::new(d2);

    let sum = v1.direct_sum(&v2);
    assert_eq!(sum.dim(0), 2);
    assert_eq!(sum.dim(1), 4);
    assert_eq!(sum.dim(2), 2);
}

#[test]
fn test_tensor_product() {
    let mut d1 = HashMap::new();
    d1.insert(0, 2);
    d1.insert(1, 1);
    let v1 = GradedVectorSpace::new(d1);

    let mut d2 = HashMap::new();
    d2.insert(0, 3);
    d2.insert(1, 2);
    let v2 = GradedVectorSpace::new(d2);

    let tensor = v1.tensor_product(&v2);
    assert_eq!(tensor.dim(0), 6); // 2*3
    assert_eq!(tensor.dim(1), 7); // 2*2 + 1*3
    assert_eq!(tensor.dim(2), 2); // 1*2
}

#[test]
fn test_shift() {
    let mut dims = HashMap::new();
    dims.insert(0, 3);
    dims.insert(1, 2);
    let v = GradedVectorSpace::new(dims);

    let shifted = v.shift(2);
    assert_eq!(shifted.dim(2), 3);
    assert_eq!(shifted.dim(3), 2);
    assert_eq!(shifted.dim(0), 0);
}

#[test]
fn test_dual() {
    let mut dims = HashMap::new();
    dims.insert(0, 3);
    let v = GradedVectorSpace::new(dims);
    let dual = v.dual();
    assert_eq!(dual.dim(0), 3);
}

#[test]
fn test_is_concentrated() {
    let mut dims1 = HashMap::new();
    dims1.insert(0, 3);
    let v1 = GradedVectorSpace::new(dims1);
    assert!(v1.is_concentrated());

    let mut dims2 = HashMap::new();
    dims2.insert(0, 3);
    dims2.insert(1, 2);
    let v2 = GradedVectorSpace::new(dims2);
    assert!(!v2.is_concentrated());
}

#[test]
fn test_degrees() {
    let mut dims = HashMap::new();
    dims.insert(2, 1);
    dims.insert(0, 3);
    dims.insert(1, 2);
    let v = GradedVectorSpace::new(dims);
    assert_eq!(v.degrees(), vec![0, 1, 2]);
}

#[test]
fn graded_test_euler_characteristic() {
    let mut dims = HashMap::new();
    dims.insert(0, 3);
    dims.insert(1, 2);
    dims.insert(2, 1);
    let v = GradedVectorSpace::new(dims);
    assert_eq!(v.euler_characteristic(), 3 - 2 + 1); // 2
}

#[test]
fn test_truncate() {
    let mut dims = HashMap::new();
    dims.insert(0, 3);
    dims.insert(1, 2);
    dims.insert(2, 1);
    dims.insert(3, 4);
    let v = GradedVectorSpace::new(dims);
    let trunc = v.truncate(1, 2);
    assert_eq!(trunc.dim(0), 0);
    assert_eq!(trunc.dim(1), 2);
    assert_eq!(trunc.dim(2), 1);
    assert_eq!(trunc.dim(3), 0);
}

#[test]
fn test_koszul_sign_even_even() {
    assert_eq!(koszul_sign(0, 0), 1);
    assert_eq!(koszul_sign(2, 4), 1);
}

#[test]
fn test_koszul_sign_odd_odd() {
    assert_eq!(koszul_sign(1, 1), -1);
    assert_eq!(koszul_sign(1, 3), -1);
}

#[test]
fn test_koszul_sign_even_odd() {
    assert_eq!(koszul_sign(0, 1), 1);
    assert_eq!(koszul_sign(2, 1), 1);
}

#[test]
fn koszul_sign_is_symmetric_and_odd_only_for_two_odd_degrees() {
    for a in -5..6 {
        for b in -5..6 {
            assert_eq!(koszul_sign(a, b), koszul_sign(b, a));
            let both_odd = a % 2 != 0 && b % 2 != 0;
            assert_eq!(koszul_sign(a, b) == -1, both_odd);
        }
    }
}

#[test]
fn koszul_sign_negative_odd_degrees() {
    assert_eq!(koszul_sign(-1, 3), -1);
    assert_eq!(koszul_sign(-2, 3), 1);
}

#[test]
fn dim_of_missing_degree_is_zero() {
    let v = space(&[(5, 7)]);
    assert_eq!(v.dim(5), 7);
    assert_eq!(v.dim(-5), 0);
    assert_eq!(v.dim(i32::MAX), 0);
}

#[test]
fn zero_space_has_no_degrees() {
    let v = GradedVectorSpace::zero();
    assert!(v.degrees().is_empty());
    assert!(v.is_concentrated());
    assert_eq!(v.euler_characteristic(), 0);
}

#[test]
fn degrees_sorted_with_negative_degrees() {
    let v = space(&[(3, 1), (-4, 2), (0, 1), (-1, 5)]);
    assert_eq!(v.degrees(), vec![-4, -1, 0, 3]);
}

#[test]
fn euler_characteristic_with_negative_degrees() {
    let v = space(&[(-1, 4), (-2, 3), (0, 1)]);
    assert_eq!(v.euler_characteristic(), -4 + 3 + 1);
}

#[test]
fn direct_sum_is_commutative_and_additive() {
    let a = space(&[(0, 2), (1, 1), (3, 5)]);
    let b = space(&[(1, 3), (2, 2), (-1, 4)]);
    let ab = a.direct_sum(&b);
    let ba = b.direct_sum(&a);
    assert_eq!(ab.dimensions, ba.dimensions);
    assert_eq!(ab.total_dim(), a.total_dim() + b.total_dim());
    assert_eq!(
        ab.euler_characteristic(),
        a.euler_characteristic() + b.euler_characteristic()
    );
}

#[test]
fn direct_sum_with_zero_is_identity() {
    let a = space(&[(0, 2), (4, 1)]);
    let z = GradedVectorSpace::zero();
    assert_eq!(a.direct_sum(&z).dimensions, a.dimensions);
}

#[test]
fn direct_sum_is_associative() {
    let a = space(&[(0, 1), (1, 2)]);
    let b = space(&[(1, 3)]);
    let c = space(&[(0, 4), (2, 5)]);
    let left = a.direct_sum(&b).direct_sum(&c);
    let right = a.direct_sum(&b.direct_sum(&c));
    assert_eq!(left.dimensions, right.dimensions);
}

#[test]
fn tensor_product_multiplies_totals_and_euler() {
    let a = space(&[(0, 2), (1, 1), (3, 4)]);
    let b = space(&[(0, 3), (2, 2), (-1, 1)]);
    let t = a.tensor_product(&b);
    assert_eq!(t.total_dim(), a.total_dim() * b.total_dim());
    assert_eq!(
        t.euler_characteristic(),
        a.euler_characteristic() * b.euler_characteristic()
    );
}

#[test]
fn tensor_product_is_commutative() {
    let a = space(&[(0, 2), (1, 1), (3, 4)]);
    let b = space(&[(0, 3), (2, 2), (-1, 1)]);
    assert_eq!(a.tensor_product(&b).dimensions, b.tensor_product(&a).dimensions);
}

#[test]
fn tensor_product_with_ground_field_is_identity() {
    let a = space(&[(0, 2), (5, 3), (-2, 1)]);
    let k = space(&[(0, 1)]);
    assert_eq!(a.tensor_product(&k).dimensions, a.dimensions);
}

#[test]
fn tensor_product_with_zero_space_is_zero() {
    let a = space(&[(0, 2), (1, 3)]);
    let z = GradedVectorSpace::zero();
    assert!(a.tensor_product(&z).dimensions.is_empty());
}

#[test]
fn shifts_compose_and_undo() {
    let a = space(&[(0, 3), (1, 2), (-3, 1)]);
    let once = a.shift(2).shift(-5);
    assert_eq!(once.dimensions, a.shift(-3).dimensions);
    assert_eq!(a.shift(4).shift(-4).dimensions, a.dimensions);
    assert_eq!(a.shift(0).dimensions, a.dimensions);
}

#[test]
fn shift_keeps_total_and_signs_euler() {
    let a = space(&[(0, 3), (1, 2), (2, 7)]);
    assert_eq!(a.shift(3).total_dim(), a.total_dim());
    assert_eq!(a.shift(1).euler_characteristic(), -a.euler_characteristic());
    assert_eq!(a.shift(2).euler_characteristic(), a.euler_characteristic());
}

#[test]
fn dual_keeps_every_dimension() {
    let a = space(&[(0, 3), (2, 1)]);
    assert_eq!(a.dual().dimensions, a.dimensions);
    assert_eq!(a.dual().dual().dimensions, a.dimensions);
}

#[test]
fn truncate_twice_is_truncate_to_intersection() {
    let a = space(&[(-2, 1), (0, 3), (1, 2), (2, 1), (3, 4), (7, 9)]);
    let twice = a.truncate(-1, 3).truncate(1, 8);
    assert_eq!(twice.dimensions, a.truncate(1, 3).dimensions);
}

#[test]
fn truncate_to_whole_range_and_empty_range() {
    let a = space(&[(0, 3), (1, 2)]);
    assert_eq!(a.truncate(-10, 10).dimensions, a.dimensions);
    assert!(a.truncate(2, 1).dimensions.is_empty());
}

#[test]
fn hom_dimension_sums_products_of_dimensions() {
    let a = space(&[(0, 2), (1, 3), (2, 1)]);
    let b = space(&[(1, 4), (2, 5), (3, 6)]);
    assert_eq!(a.hom_dimension(&b), 3 * 4 + 1 * 5);
    assert_eq!(a.hom_dimension(&b), b.hom_dimension(&a));
    assert_eq!(a.hom_dimension(&GradedVectorSpace::zero()), 0);
}

#[test]
fn koszul_sign_is_multiplicative_in_each_degree() {
    for a in -4..5 {
        for b in -4..5 {
            for c in -4..5 {
                assert_eq!(koszul_sign(a + b, c), koszul_sign(a, c) * koszul_sign(b, c));
            }
        }
    }
}

#[test]
fn tensor_product_checked_reports_overflow() {
    let a = space(&[(0, 2), (1, 3)]);
    let b = space(&[(0, 5)]);
    assert_eq!(a.tensor_product_checked(&b).unwrap().dimensions, a.tensor_product(&b).dimensions);
    let big = space(&[(0, usize::MAX / 2 + 1)]);
    let two = space(&[(0, 2)]);
    assert!(big.tensor_product_checked(&two).is_none());
    let high = space(&[(i32::MAX, 1)]);
    let one = space(&[(1, 1)]);
    assert!(high.tensor_product_checked(&one).is_none());
    // the product of the totals may overflow while every degree fits
    let wide = space(&[(0, 1usize << 40), (1, 1usize << 40)]);
    let tall = space(&[(5, 1usize << 23)]);
    let t = wide.tensor_product_checked(&tall).unwrap();
    assert_eq!(t.dim(5), 1usize << 63);
    assert_eq!(t.dim(6), 1usize << 63);
}

#[test]
fn euler_characteristic_checked_reports_overflow() {
    let a = space(&[(0, 3), (1, 2)]);
    assert_eq!(a.euler_characteristic_checked(), Some(1));
    let huge = space(&[(0, usize::MAX)]);
    assert_eq!(huge.euler_characteristic_checked(), None);
    let cancel = space(&[(0, i64::MAX as usize), (1, i64::MAX as usize)]);
    assert_eq!(cancel.euler_characteristic_checked(), Some(0));
}

#[test]
fn hom_dimension_checked_reports_overflow() {
    let a = space(&[(0, 2), (1, 3)]);
    let b = space(&[(1, 4)]);
    assert_eq!(a.hom_dimension_checked(&b), Some(12));
    let big = space(&[(0, usize::MAX)]);
    assert_eq!(big.hom_dimension_checked(&space(&[(0, 2)])), None);
    assert_eq!(big.hom_dimension_checked(&space(&[(1, 2)])), Some(0));
}
