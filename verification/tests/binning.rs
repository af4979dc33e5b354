use forust::binning::{bin_matrix, bin_of};
use forust::data::Matrix;
use forust::errors::ForustError;

const S: i64 = 1_000_000;

#[test]
fn four_values_four_bins() {
    let data = vec![0, 1 * S, 2 * S, 3 * S];
    let m = Matrix::new(&data, 4, 1);
    let b = bin_matrix(&m, &[S, S, S, S], 4).unwrap();
    assert_eq!(b.rows(), 4);
    assert_eq!(b.cols(), 1);
    assert_eq!(b.cuts(), &vec![vec![750_000, 1_500_000, 2_250_000]]);
    assert_eq!(b.nunique(), &vec![4]);
    assert_eq!(b.binned_data(), &vec![0u16, 1, 2, 3]);
    assert_eq!(b.code(2, 0), 2);
}

#[test]
fn codes_are_below_the_bin_count() {
    let rows = 50usize;
    let cols = 3usize;
    let mut data: Vec<i64> = Vec::new();
    for r in 0..rows {
        data.push(((r * 37) % 11) as i64 * S);
        data.push(-(r as i64) * 3);
        data.push(7);
    }
    let w: Vec<i64> = (0..rows).map(|r| ((r % 4) as i64) * S).collect();
    let m = Matrix::new(&data, rows, cols);
    let b = bin_matrix(&m, &w, 8).unwrap();
    for f in 0..cols {
        let n = b.nunique()[f];
        assert!(n >= 1 && n <= 8);
        assert_eq!(b.cuts()[f].len() + 1, n);
        for pair in b.cuts()[f].windows(2) {
            assert!(pair[0] < pair[1]);
        }
        for r in 0..rows {
            let code = b.binned_data()[r * cols + f] as usize;
            assert!(code < n);
            assert_eq!(code, bin_of(&b.cuts()[f], data[r * cols + f]));
        }
    }
    // a constant column has a single bin
    assert_eq!(b.nunique()[2], 1);
    assert!(b.cuts()[2].is_empty());
}

#[test]
fn binning_twice_gives_the_same() {
    let data: Vec<i64> = (0..60).map(|i| ((i * 7919) % 101) as i64 * 1000).collect();
    let w: Vec<i64> = (0..20).map(|i| (1 + i % 3) as i64 * S).collect();
    let m = Matrix::new(&data, 20, 3);
    let a = bin_matrix(&m, &w, 16).unwrap().into_parts();
    let b = bin_matrix(&m, &w, 16).unwrap().into_parts();
    assert_eq!(a, b);
}

#[test]
fn few_distinct_values_give_few_bins() {
    let data = vec![5, 5, 9, 9, 9, 5, 5, 9];
    let m = Matrix::new(&data, 8, 1);
    let b = bin_matrix(&m, &[S; 8], 256).unwrap();
    // the candidates are 5, the values interpolated between 5 and 9, and 9
    assert_eq!(b.nunique(), &vec![5]);
    assert_eq!(b.cuts(), &vec![vec![5, 6, 7, 8]]);
    assert_eq!(b.binned_data(), &vec![0u16, 0, 4, 4, 4, 0, 0, 4]);
    let two = bin_matrix(&m, &[S; 8], 2).unwrap();
    assert_eq!(two.nunique(), &vec![2]);
    assert_eq!(two.cuts(), &vec![vec![7]]);
    assert_eq!(two.binned_data(), &vec![0u16, 0, 1, 1, 1, 0, 0, 1]);
}

#[test]
fn bin_of_finds_the_first_cut_not_exceeded() {
    let cuts = vec![10, 20, 30];
    assert_eq!(bin_of(&cuts, i64::MIN), 0);
    assert_eq!(bin_of(&cuts, 10), 0);
    assert_eq!(bin_of(&cuts, 11), 1);
    assert_eq!(bin_of(&cuts, 20), 1);
    assert_eq!(bin_of(&cuts, 30), 2);
    assert_eq!(bin_of(&cuts, 31), 3);
    assert_eq!(bin_of(&vec![], 0), 0);
}

#[test]
fn binning_rejects_bad_input() {
    let data = vec![1, 2, 3, 4];
    let m = Matrix::new(&data, 2, 2);
    let e = |r: Result<forust::binning::BinnedData, ForustError>| r.err();
    assert_eq!(e(bin_matrix(&m, &[S, S], 0)), Some(ForustError::InvalidInput));
    assert_eq!(e(bin_matrix(&m, &[S], 4)), Some(ForustError::InvalidInput));
    assert_eq!(e(bin_matrix(&m, &[S, -S], 4)), Some(ForustError::InvalidInput));
    assert_eq!(e(bin_matrix(&Matrix::new(&data, 3, 2), &[S, S, S], 4)), Some(ForustError::InvalidInput));
    let empty: Vec<i64> = Vec::new();
    assert_eq!(e(bin_matrix(&Matrix::new(&empty, 0, 2), &[], 4)), Some(ForustError::InvalidInput));
    assert!(bin_matrix(&m, &[S, S], 1).is_ok());
}
