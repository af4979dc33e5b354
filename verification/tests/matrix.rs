use forust::data::Matrix;

#[test]
fn matrix_cells_are_row_major() {
    let data: Vec<i64> = vec![1, 2, 3, 4, 5, 6];
    let m = Matrix::new(&data, 2, 3);
    assert!(m.is_valid());
    assert_eq!(*m.get(0, 0), 1);
    assert_eq!(*m.get(0, 2), 3);
    assert_eq!(*m.get(1, 0), 4);
    assert_eq!(*m.get(1, 2), 6);
    assert_eq!(m.get_row(1), &[4, 5, 6]);
    assert_eq!(m.get_col(1), vec![2, 5]);
}

#[test]
fn matrix_with_wrong_length_is_invalid() {
    let data: Vec<i64> = vec![1, 2, 3, 4, 5];
    assert!(!Matrix::new(&data, 2, 3).is_valid());
    assert!(!Matrix::new(&data, usize::MAX, 2).is_valid());
    let empty: Vec<i64> = Vec::new();
    assert!(Matrix::new(&empty, 0, 7).is_valid());
}
