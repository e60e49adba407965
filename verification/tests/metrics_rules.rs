use settlement_sim::metrics::gini;

#[test]
fn gini_of_equal_values_is_zero() {
    assert_eq!(gini(&vec![5, 5, 5]), 0);
    assert_eq!(gini(&vec![1_000_000; 40]), 0);
    assert_eq!(gini(&vec![9]), 0);
}

#[test]
fn gini_without_any_status_is_zero() {
    assert_eq!(gini(&vec![0, 0, 0]), 0);
    assert_eq!(gini(&vec![]), 0);
}

#[test]
fn gini_of_one_holder_is_all_but_one_share() {
    assert_eq!(gini(&vec![0, 0, 0, 7_000_000]), 750_000);
    assert_eq!(gini(&vec![0, 3, 0]), 666_666);
    assert_eq!(gini(&vec![12, 0]), 500_000);
    let mut many = vec![0u64; 1000];
    many[417] = 1;
    assert_eq!(gini(&many), 999_000);
}

#[test]
fn gini_of_a_ramp() {
    assert_eq!(gini(&vec![1, 2, 3, 4]), 250_000);
    assert_eq!(gini(&vec![4, 1, 3, 2]), 250_000);
    assert_eq!(gini(&vec![1, 3]), 250_000);
}

#[test]
fn gini_holds_for_the_largest_values() {
    assert_eq!(gini(&vec![u64::MAX, u64::MAX]), 0);
    assert_eq!(gini(&vec![u64::MAX, 0]), 500_000);
}
