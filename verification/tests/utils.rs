use vault_accounts::utils::{median, random_name};

#[test]
fn get_median() {
    assert_eq!(0, median(vec![0u64; 0]));
    assert_eq!(9, median(vec![9]));
    assert_eq!(0, median(vec![1, 0]));
    assert_eq!(1, median(vec![1, 0, 9]));
    assert_eq!(5, median(vec![1, 0, 9, 10]));
    assert_eq!(5, median(vec![20, 1, 0, 9]));
    assert_eq!(5, median(vec![20, 1, 0, 10]));
    assert_eq!(6, median(vec![20, 1, 0, 11]));
}

#[test]
fn median_stays_within_range() {
    assert_eq!(5, median(vec![100, 5, 1]));
    assert_eq!(u64::MAX, median(vec![u64::MAX]));
    assert_eq!(u64::MAX - 1, median(vec![u64::MAX, u64::MAX - 2]));
}

#[test]
fn random_names_differ() {
    assert!(random_name() != random_name());
}
