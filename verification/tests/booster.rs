use forust::booster::GradientBooster;
use forust::data::Matrix;
use forust::errors::ForustError;
use forust::tree::Node;

const S: i64 = 1_000_000;

fn squared(iterations: usize, max_depth: usize, lr: i64, l2: i64, gamma: i64, base: Option<i64>, nbins: u16) -> GradientBooster {
    GradientBooster::new(
        Some("SquaredLoss"),
        Some(iterations),
        Some(lr),
        Some(max_depth),
        None,
        Some(l2),
        Some(gamma),
        Some(0),
        base,
        Some(nbins),
        Some(false),
    )
    .unwrap()
}

#[test]
fn four_rows_one_split() {
    let data = vec![0, 1 * S, 2 * S, 3 * S];
    let m = Matrix::new(&data, 4, 1);
    let y = vec![0, 0, S, S];
    let w = vec![S; 4];
    let mut b = squared(1, 1, S, 0, 0, None, 4);
    assert_eq!(b.fit(&m, &y, &w, true), Ok(()));
    assert_eq!(b.base_score(), 500_000);
    assert_eq!(b.trees().len(), 1);
    let nodes = b.trees()[0].nodes();
    assert_eq!(nodes.len(), 3);
    assert_eq!(
        nodes[0],
        Node::Split { feature: 0, bin: 1, threshold: 1_500_000, left: 1, right: 2, gain: 500_000, depth: 0 }
    );
    assert_eq!(nodes[1], Node::Leaf { value: -500_000, weight: 2 * S as i128, depth: 1 });
    assert_eq!(nodes[2], Node::Leaf { value: 500_000, weight: 2 * S as i128, depth: 1 });
    assert_eq!(b.predict(&m, true), Ok(vec![0, 0, S as i128, S as i128]));
    assert_eq!(b.predict(&m, false), Ok(vec![0, 0, S as i128, S as i128]));
}

#[test]
fn four_rows_one_split_from_zero() {
    let data = vec![0, 1 * S, 2 * S, 3 * S];
    let m = Matrix::new(&data, 4, 1);
    let y = vec![0, 0, S, S];
    let w = vec![S; 4];
    let mut b = squared(1, 1, S, 0, 0, Some(0), 4);
    b.fit(&m, &y, &w, false).unwrap();
    let nodes = b.trees()[0].nodes();
    assert_eq!(nodes[1], Node::Leaf { value: 0, weight: 2 * S as i128, depth: 1 });
    assert_eq!(nodes[2], Node::Leaf { value: S as i128, weight: 2 * S as i128, depth: 1 });
    let out = b.predict(&m, false).unwrap();
    let approx: Vec<f64> = out.iter().map(|x| *x as f64 / S as f64).collect();
    let want = [0.0, 0.0, 1.0, 1.0];
    for i in 0..4 {
        assert!((approx[i] - want[i]).abs() < 1e-6);
    }
}

#[test]
fn no_rounds_predict_the_base_score() {
    let data = vec![5, 6, 7, 8, 9, 10];
    let m = Matrix::new(&data, 3, 2);
    let mut b = squared(0, 5, 300_000, S, 0, Some(1_234_567), 16);
    b.fit(&m, &[S, 2 * S, 3 * S], &[S, S, S], true).unwrap();
    assert_eq!(b.trees().len(), 0);
    assert_eq!(b.predict(&m, true), Ok(vec![1_234_567; 3]));
    let mut c = squared(0, 5, 300_000, S, 0, None, 16);
    c.fit(&m, &[S, 2 * S, 3 * S], &[S, S, S], true).unwrap();
    assert_eq!(c.predict(&m, true), Ok(vec![2 * S as i128; 3]));
}

#[test]
fn high_gamma_gives_single_leaves() {
    let data = vec![0, 1 * S, 2 * S, 3 * S, 4 * S, 5 * S];
    let m = Matrix::new(&data, 6, 1);
    let y = vec![0, S, 2 * S, 3 * S, 4 * S, 5 * S];
    let w = vec![S; 6];
    let lr = 300_000;
    let mut b = squared(1, 5, lr, S, 1_099_511_627_776, Some(0), 8);
    b.fit(&m, &y, &w, true).unwrap();
    let nodes = b.trees()[0].nodes();
    assert_eq!(nodes.len(), 1);
    // G = -15, H = 6, l2 = 1: leaf = 15 / 7
    assert_eq!(nodes[0], Node::Leaf { value: 2_142_857, weight: 6 * S as i128, depth: 0 });
    // 0.3 * 2.142857 = 0.642857 for every row
    assert_eq!(b.predict(&m, true), Ok(vec![642_857; 6]));
    let other = vec![-77 * S, 1, 123_456_789];
    assert_eq!(b.predict(&Matrix::new(&other, 3, 1), true), Ok(vec![642_857; 3]));
}

#[test]
fn leaf_only_tree_at_the_mean_predicts_the_base_score() {
    let data = vec![0, 1 * S, 2 * S, 3 * S];
    let m = Matrix::new(&data, 4, 1);
    let y = vec![S, 3 * S, 3 * S, 5 * S];
    let mut b = squared(3, 0, 300_000, S, 0, None, 8);
    b.fit(&m, &y, &[S; 4], true).unwrap();
    assert_eq!(b.trees().len(), 3);
    assert_eq!(b.base_score(), 3 * S);
    assert_eq!(b.predict(&m, true), Ok(vec![3 * S as i128; 4]));
}

#[test]
fn predictions_grow_with_the_feature() {
    let n = 40usize;
    let data: Vec<i64> = (0..n).map(|i| i as i64 * S).collect();
    let m = Matrix::new(&data, n, 1);
    let w = vec![S; n];
    let mut b = squared(30, 3, 300_000, 0, 0, None, 16);
    b.fit(&m, &data, &w, true).unwrap();
    let out = b.predict(&m, true).unwrap();
    for i in 1..n {
        assert!(out[i - 1] <= out[i]);
    }
    // and they approach the targets
    for i in 0..n {
        assert!((out[i] - data[i] as i128).abs() < 2 * S as i128);
    }
}

#[test]
fn fit_reports_errors_and_keeps_the_ensemble() {
    let data = vec![0, 1 * S, 2 * S, 3 * S];
    let m = Matrix::new(&data, 4, 1);
    let y = vec![0, 0, S, S];
    let w = vec![S; 4];
    let mut b = squared(2, 2, S, 0, 0, None, 4);
    b.fit(&m, &y, &w, true).unwrap();
    let before = b.predict(&m, true).unwrap();
    assert_eq!(b.fit(&Matrix::new(&data, 3, 1), &y, &w, true), Err(ForustError::FitError));
    assert_eq!(b.fit(&m, &y[..3], &w, true), Err(ForustError::FitError));
    assert_eq!(b.fit(&m, &y, &w[..3], true), Err(ForustError::FitError));
    let empty: Vec<i64> = Vec::new();
    assert_eq!(b.fit(&Matrix::new(&empty, 0, 1), &[], &[], true), Err(ForustError::FitError));
    assert_eq!(b.fit(&Matrix::new(&empty, 4, 0), &y, &w, true), Err(ForustError::FitError));
    assert_eq!(b.fit(&m, &y, &[S, S, -1, S], true), Err(ForustError::InvalidInput));
    assert_eq!(b.fit(&m, &[0, 0, S, 549_755_813_889], &w, true), Err(ForustError::FitError));
    assert_eq!(b.fit(&m, &y, &[0; 4], true), Err(ForustError::FitError));
    assert_eq!(b.predict(&m, true), Ok(before));
    assert_eq!(b.trees().len(), 2);
}

#[test]
fn fit_rejects_hyperparameters_out_of_range() {
    let data = vec![0, 1 * S, 2 * S, 3 * S];
    let m = Matrix::new(&data, 4, 1);
    let y = vec![0, 0, S, S];
    let w = vec![S; 4];
    let e = Err(ForustError::InvalidInput);
    assert_eq!(squared(1, 1, 0, 0, 0, None, 4).fit(&m, &y, &w, true), e);
    assert_eq!(squared(1, 1, -S, 0, 0, None, 4).fit(&m, &y, &w, true), e);
    assert_eq!(squared(1, 1, S, -1, 0, None, 4).fit(&m, &y, &w, true), e);
    assert_eq!(squared(1, 1, S, 0, -1, None, 4).fit(&m, &y, &w, true), e);
    assert_eq!(squared(1, 1, S, 0, 0, None, 0).fit(&m, &y, &w, true), e);
    assert_eq!(squared(1_048_577, 1, S, 0, 0, None, 4).fit(&m, &y, &w, true), e);
    assert_eq!(squared(1, 1, S, 0, 0, Some(549_755_813_889), 4).fit(&m, &y, &w, true), e);
}

#[test]
fn gradient_out_of_range_is_a_fit_error() {
    let data = vec![0, 1 * S];
    let m = Matrix::new(&data, 2, 1);
    let y = vec![-549_755_813_888, -549_755_813_888];
    let mut b = squared(1, 1, S, 0, 0, Some(549_755_813_888), 4);
    // base - target = 2^40 is still in range
    assert_eq!(b.fit(&m, &y, &[S, S], true), Ok(()));
    let mut c = squared(1, 1, S, 0, 0, Some(549_755_813_888), 4);
    assert_eq!(c.fit(&m, &[-549_755_813_888, 0], &[S, S], true), Ok(()));
}

#[test]
fn predict_checks_the_shape() {
    let data = vec![0, 1 * S, 2 * S, 3 * S];
    let m = Matrix::new(&data, 4, 1);
    let mut b = squared(1, 1, S, 0, 0, None, 4);
    // before fit any well-formed matrix is taken
    assert_eq!(b.predict(&Matrix::new(&data, 2, 2), true), Ok(vec![0, 0]));
    assert_eq!(b.predict(&Matrix::new(&data, 3, 2), true), Err(ForustError::ShapeError));
    b.fit(&m, &[0, 0, S, S], &[S; 4], true).unwrap();
    assert_eq!(b.predict(&Matrix::new(&data, 2, 2), true), Err(ForustError::ShapeError));
    assert_eq!(b.predict(&Matrix::new(&data, 5, 1), true), Err(ForustError::ShapeError));
    assert!(b.predict(&Matrix::new(&data[..2], 2, 1), true).is_ok());
}

#[test]
fn unknown_objective_is_refused() {
    let r = GradientBooster::new(Some("Hinge"), None, None, None, None, None, None, None, None, None, None);
    assert_eq!(r.err(), Some(ForustError::InvalidObjective));
    let r = GradientBooster::new(Some("logloss"), None, None, None, None, None, None, None, None, None, None);
    assert_eq!(r.err(), Some(ForustError::InvalidObjective));
}

#[test]
fn defaults_are_set() {
    let b = GradientBooster::new(None, None, None, None, None, None, None, None, None, None, None).unwrap();
    let c = b.config();
    assert_eq!(c.objective_type, forust::objective::ObjectiveType::LogLoss);
    assert_eq!(c.iterations, 100);
    assert_eq!(c.learning_rate, 300_000);
    assert_eq!(c.max_depth, 5);
    assert_eq!(c.max_leaves, usize::MAX);
    assert_eq!(c.l2, S);
    assert_eq!(c.gamma, 0);
    assert_eq!(c.min_leaf_weight, 0);
    assert_eq!(c.base_score, None);
    assert_eq!(c.nbins, 256);
    assert!(c.parallel);
    assert_eq!(b.trees().len(), 0);
}

#[test]
fn log_loss_separates_two_classes() {
    let n = 20usize;
    let data: Vec<i64> = (0..n).map(|i| i as i64 * S).collect();
    let y: Vec<i64> = (0..n).map(|i| if i < 10 { 0 } else { S }).collect();
    let m = Matrix::new(&data, n, 1);
    let mut b = GradientBooster::new(Some("LogLoss"), Some(20), Some(300_000), Some(2), None, Some(S), Some(0), Some(0), None, Some(16), None).unwrap();
    b.fit(&m, &y, &vec![S; n], true).unwrap();
    assert_eq!(b.base_score(), 0);
    let out = b.predict(&m, true).unwrap();
    for i in 0..n {
        if i < 10 {
            assert!(out[i] < -S as i128);
        } else {
            assert!(out[i] > S as i128);
        }
    }
}

#[test]
fn log_loss_needs_both_classes_for_its_base_score() {
    let data = vec![0, 1 * S];
    let m = Matrix::new(&data, 2, 1);
    let mut b = GradientBooster::new(None, Some(1), None, None, None, None, None, None, None, None, None).unwrap();
    assert_eq!(b.fit(&m, &[S, S], &[S, S], true), Err(ForustError::FitError));
    assert_eq!(b.fit(&m, &[0, 0], &[S, S], true), Err(ForustError::FitError));
    assert_eq!(b.fit(&m, &[0, S], &[S, S], true), Ok(()));
}
