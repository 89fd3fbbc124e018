use lau_dg_algebra::massey::massey_result_degree;

#[test]
fn test_massey_result_degree() {
    let degrees = vec![1, 1, 1];
    assert_eq!(massey_result_degree(&degrees), 3 - 2); // = 1
}

#[test]
fn test_massey_result_degree_four() {
    let degrees = vec![2, 3, 4, 5];
    assert_eq!(massey_result_degree(&degrees), 14 - 3); // = 11
}

#[test]
fn test_triple_massey_degree() {
    let degrees = vec![0, 0, 0];
    assert_eq!(massey_result_degree(&degrees), 0 + 0 + 0 - 2); // -2
}

#[test]
fn massey_degree_of_one_and_no_classes() {
    assert_eq!(massey_result_degree(&vec![7]), 7);
    assert_eq!(massey_result_degree(&vec![]), 1);
    assert_eq!(massey_result_degree(&vec![-3, 5]), 1);
}
