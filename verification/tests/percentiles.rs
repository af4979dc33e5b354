use forust::errors::ForustError;
use forust::percentile::{argsort, percentiles};

const S: i64 = 1_000_000;

#[test]
fn percentiles_of_one_to_five() {
    let v = vec![1 * S, 2 * S, 3 * S, 4 * S, 5 * S];
    let w = vec![S, S, S, S, S];
    let p = vec![0, S / 2, S];
    assert_eq!(percentiles(&v, &w, &p), Ok(vec![1 * S, 3 * S, 5 * S]));
}

#[test]
fn percentiles_interpolate_between_neighbours() {
    let v = vec![0, 10 * S];
    let w = vec![S, S];
    let p = vec![S / 4, S / 2, 3 * S / 4];
    assert_eq!(percentiles(&v, &w, &p), Ok(vec![2_500_000, 5_000_000, 7_500_000]));
}

#[test]
fn percentiles_do_not_depend_on_input_order() {
    let w = vec![S; 5];
    let p = vec![0, 100_000, 250_000, 500_000, 900_000, S];
    let sorted = percentiles(&[1 * S, 2 * S, 3 * S, 4 * S, 5 * S], &w, &p);
    let shuffled = percentiles(&[4 * S, 1 * S, 5 * S, 3 * S, 2 * S], &w, &p);
    assert_eq!(sorted, shuffled);
    assert_eq!(sorted, Ok(vec![1 * S, 1_400_000, 2 * S, 3 * S, 4_600_000, 5 * S]));
}

#[test]
fn equal_weights_do_not_matter() {
    let v = vec![7 * S, -3 * S, 12 * S, 0, 5 * S, 5 * S, 1];
    let p = vec![0, 1, 333_333, 500_000, 666_667, 999_999, S];
    let unit = percentiles(&v, &vec![S; 7], &p);
    let heavy = percentiles(&v, &vec![123_456_789; 7], &p);
    let light = percentiles(&v, &vec![1; 7], &p);
    assert!(unit.is_ok());
    assert_eq!(unit, heavy);
    assert_eq!(unit, light);
}

#[test]
fn weights_shift_percentiles() {
    let v = vec![0, 10 * S, 20 * S];
    // the weight of the first value never counts; the last value carries three quarters
    let w = vec![S, S, 3 * S];
    let p = vec![S / 4, S / 2];
    assert_eq!(percentiles(&v, &w, &p), Ok(vec![10 * S, 13_333_333]));
}

#[test]
fn percentiles_of_a_single_value() {
    assert_eq!(percentiles(&[42], &[0], &[0, S / 2, S]), Ok(vec![42, 42, 42]));
}

#[test]
fn percentiles_with_no_percentile() {
    assert_eq!(percentiles(&[1, 2], &[S, S], &[]), Ok(vec![]));
}

#[test]
fn percentiles_reject_bad_input() {
    let e = Err(ForustError::InvalidInput);
    assert_eq!(percentiles(&[1, 2], &[S], &[0]), e);
    assert_eq!(percentiles(&[], &[], &[0]), e);
    assert_eq!(percentiles(&[1, 2], &[S, -1], &[0]), e);
    assert_eq!(percentiles(&[1, 2], &[S, 1_099_511_627_777], &[0]), e);
    assert_eq!(percentiles(&[1, 2], &[S, S], &[-1]), e);
    assert_eq!(percentiles(&[1, 2], &[S, S], &[S + 1]), e);
    assert!(percentiles(&[1, 2], &[S, 1_099_511_627_776], &[0, S]).is_ok());
}

#[test]
fn percentiles_of_extreme_values() {
    let v = vec![i64::MIN, i64::MAX];
    let w = vec![S, 1_099_511_627_776];
    assert_eq!(percentiles(&v, &w, &[0, S / 2, S]), Ok(vec![i64::MIN, -1, i64::MAX]));
}

#[test]
fn argsort_is_stable() {
    assert_eq!(argsort(&[3, 1, 2, 1, 3, 0]), vec![5, 1, 3, 2, 0, 4]);
    assert_eq!(argsort(&[]), Vec::<usize>::new());
    assert_eq!(argsort(&[5, 5, 5]), vec![0, 1, 2]);
}
