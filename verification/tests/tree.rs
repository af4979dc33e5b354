use forust::binning::bin_matrix;
use forust::data::Matrix;
use forust::errors::ForustError;
use forust::grower::TreeParams;
use forust::tree::{Node, Tree};

const S: i64 = 1_000_000;

fn eight_rows() -> (Vec<i64>, Vec<i64>, Vec<i64>) {
    let data: Vec<i64> = (0..8).map(|i| i as i64 * S).collect();
    let targets: Vec<i64> = vec![0, 0, 1, 1, 10, 10, 20, 20];
    let grad: Vec<i64> = targets.iter().map(|y| -y * S).collect();
    let hess: Vec<i64> = vec![S; 8];
    (data, grad, hess)
}

fn params(max_depth: usize, max_leaves: usize) -> TreeParams {
    TreeParams { l2: 0, gamma: 0, min_leaf_weight: 0, max_depth, max_leaves }
}

fn leaf(value: i64, rows: i64, depth: usize) -> Node {
    Node::Leaf { value: value as i128 * S as i128, weight: (rows * S) as i128, depth }
}

#[test]
fn level_order_splits_the_oldest_leaf_first() {
    let (data, grad, hess) = eight_rows();
    let m = Matrix::new(&data, 8, 1);
    let b = bin_matrix(&m, &[S; 8], 8).unwrap();
    assert_eq!(b.binned_data(), &vec![0u16, 1, 2, 3, 4, 5, 6, 7]);
    let t = Tree::fit(&b, &grad, &hess, &params(2, usize::MAX)).unwrap();
    let n = t.nodes();
    assert_eq!(n.len(), 7);
    assert_eq!(
        n[0],
        Node::Split { feature: 0, bin: 3, threshold: 3_500_000, left: 1, right: 2, gain: 210_250_000, depth: 0 }
    );
    assert_eq!(
        n[1],
        Node::Split { feature: 0, bin: 1, threshold: 1_750_000, left: 3, right: 4, gain: 500_000, depth: 1 }
    );
    assert_eq!(
        n[2],
        Node::Split { feature: 0, bin: 5, threshold: 5_250_000, left: 5, right: 6, gain: 50_000_000, depth: 1 }
    );
    assert_eq!(n[3], leaf(0, 2, 2));
    assert_eq!(n[4], leaf(1, 2, 2));
    assert_eq!(n[5], leaf(10, 2, 2));
    assert_eq!(n[6], leaf(20, 2, 2));
    assert_eq!(t.cols(), 1);
}

#[test]
fn a_leaf_budget_splits_the_largest_gain_first() {
    let (data, grad, hess) = eight_rows();
    let m = Matrix::new(&data, 8, 1);
    let b = bin_matrix(&m, &[S; 8], 8).unwrap();
    let t = Tree::fit(&b, &grad, &hess, &params(2, 3)).unwrap();
    let n = t.nodes();
    assert_eq!(n.len(), 5);
    assert!(matches!(n[0], Node::Split { bin: 3, left: 1, right: 2, .. }));
    // the left child stays a leaf: (0 + 0 + 1 + 1) / 4
    assert_eq!(n[1], Node::Leaf { value: 500_000, weight: 4 * S as i128, depth: 1 });
    assert!(matches!(n[2], Node::Split { bin: 5, left: 3, right: 4, gain: 50_000_000, depth: 1, .. }));
    assert_eq!(n[3], leaf(10, 2, 2));
    assert_eq!(n[4], leaf(20, 2, 2));
    let four = Tree::fit(&b, &grad, &hess, &params(2, 4)).unwrap();
    let n = four.nodes();
    assert_eq!(n.len(), 7);
    assert!(matches!(n[2], Node::Split { left: 3, right: 4, .. }));
    assert!(matches!(n[1], Node::Split { left: 5, right: 6, .. }));
    assert_eq!(n[5], leaf(0, 2, 2));
    assert_eq!(n[6], leaf(1, 2, 2));
}

#[test]
fn budgets_of_one_leaf_or_no_depth_give_the_root_alone() {
    let (data, grad, hess) = eight_rows();
    let m = Matrix::new(&data, 8, 1);
    let b = bin_matrix(&m, &[S; 8], 8).unwrap();
    let root = Node::Leaf { value: 7_750_000, weight: 8 * S as i128, depth: 0 };
    for p in [params(0, usize::MAX), params(5, 1), params(5, 0)] {
        let t = Tree::fit(&b, &grad, &hess, &p).unwrap();
        assert_eq!(t.nodes(), &vec![root]);
    }
}

#[test]
fn children_come_after_their_parent() {
    let rows = 64usize;
    let cols = 2usize;
    let mut data: Vec<i64> = Vec::new();
    let mut grad: Vec<i64> = Vec::new();
    for r in 0..rows {
        let a = ((r * 29) % 17) as i64;
        let c = ((r * 13) % 7) as i64;
        data.push(a * S);
        data.push(c * S);
        grad.push(-(a * a - 3 * c) * S);
    }
    let m = Matrix::new(&data, rows, cols);
    let b = bin_matrix(&m, &vec![S; rows], 16).unwrap();
    let hess = vec![S; rows];
    let p = TreeParams { l2: S, gamma: 0, min_leaf_weight: 2 * S, max_depth: 6, max_leaves: 20 };
    let t = Tree::fit(&b, &grad, &hess, &p).unwrap();
    let n = t.nodes();
    let mut leaves = 0;
    let mut seen = vec![false; n.len()];
    seen[0] = true;
    for (i, node) in n.iter().enumerate() {
        match node {
            Node::Split { feature, left, right, gain, depth, .. } => {
                assert!(*feature < cols);
                assert!(i < *left && *left < n.len());
                assert!(i < *right && *right < n.len());
                assert!(!seen[*left] && !seen[*right]);
                seen[*left] = true;
                seen[*right] = true;
                assert!(*gain > 0);
                assert!(*depth < 6);
            }
            Node::Leaf { weight, .. } => {
                leaves += 1;
                assert!(i == 0 || *weight >= 2 * S as i128);
            }
        }
    }
    assert!(seen.iter().all(|s| *s));
    assert!(leaves <= 20);
    assert_eq!(n.len(), 2 * leaves - 1);
    // every training row reaches a leaf
    for r in 0..rows {
        assert!(t.predict_row(&data[r * cols..(r + 1) * cols]).is_ok());
    }
}

#[test]
fn gamma_is_taken_off_the_gain() {
    let (data, grad, hess) = eight_rows();
    let m = Matrix::new(&data, 8, 1);
    let b = bin_matrix(&m, &[S; 8], 8).unwrap();
    let p = TreeParams { l2: 0, gamma: 10 * S, min_leaf_weight: 0, max_depth: 2, max_leaves: usize::MAX };
    let t = Tree::fit(&b, &grad, &hess, &p).unwrap();
    let n = t.nodes();
    // the left child's split gains 0.5 and is no longer admissible
    assert_eq!(n.len(), 5);
    assert!(matches!(n[0], Node::Split { gain: 200_250_000, .. }));
    assert!(matches!(n[1], Node::Leaf { .. }));
    assert!(matches!(n[2], Node::Split { gain: 40_000_000, .. }));
}

#[test]
fn min_leaf_weight_rejects_small_children() {
    let (data, grad, hess) = eight_rows();
    let m = Matrix::new(&data, 8, 1);
    let b = bin_matrix(&m, &[S; 8], 8).unwrap();
    let p = TreeParams { l2: 0, gamma: 0, min_leaf_weight: 3 * S, max_depth: 3, max_leaves: usize::MAX };
    let t = Tree::fit(&b, &grad, &hess, &p).unwrap();
    let n = t.nodes();
    assert_eq!(n.len(), 3);
    assert!(matches!(n[0], Node::Split { bin: 3, .. }));
}

#[test]
fn tree_fit_rejects_bad_input() {
    let (data, grad, hess) = eight_rows();
    let m = Matrix::new(&data, 8, 1);
    let b = bin_matrix(&m, &[S; 8], 8).unwrap();
    let e = |r: Result<Tree, ForustError>| r.err();
    let ok = params(2, usize::MAX);
    assert_eq!(e(Tree::fit(&b, &grad[..7], &hess, &ok)), Some(ForustError::InvalidInput));
    assert_eq!(e(Tree::fit(&b, &grad, &hess[..7], &ok)), Some(ForustError::InvalidInput));
    let mut big = grad.clone();
    big[0] = 1_099_511_627_777;
    assert_eq!(e(Tree::fit(&b, &big, &hess, &ok)), Some(ForustError::InvalidInput));
    let mut neg = hess.clone();
    neg[3] = -1;
    assert_eq!(e(Tree::fit(&b, &grad, &neg, &ok)), Some(ForustError::InvalidInput));
    let bad = TreeParams { l2: -1, ..ok };
    assert_eq!(e(Tree::fit(&b, &grad, &hess, &bad)), Some(ForustError::InvalidInput));
    let bad = TreeParams { gamma: -1, ..ok };
    assert_eq!(e(Tree::fit(&b, &grad, &hess, &bad)), Some(ForustError::InvalidInput));
    let bad = TreeParams { min_leaf_weight: 1_099_511_627_777, ..ok };
    assert_eq!(e(Tree::fit(&b, &grad, &hess, &bad)), Some(ForustError::InvalidInput));
}

#[test]
fn zero_hessians_give_a_zero_leaf() {
    let data = vec![0, S];
    let m = Matrix::new(&data, 2, 1);
    let b = bin_matrix(&m, &[S, S], 4).unwrap();
    let t = Tree::fit(&b, &[5 * S, -3 * S], &[0, 0], &params(3, usize::MAX)).unwrap();
    assert_eq!(t.nodes(), &vec![Node::Leaf { value: 0, weight: 0, depth: 0 }]);
}

#[test]
fn predict_row_follows_the_thresholds() {
    let (data, grad, hess) = eight_rows();
    let m = Matrix::new(&data, 8, 1);
    let b = bin_matrix(&m, &[S; 8], 8).unwrap();
    let t = Tree::fit(&b, &grad, &hess, &params(2, usize::MAX)).unwrap();
    assert_eq!(t.predict_row(&[i64::MIN]), Ok(0));
    assert_eq!(t.predict_row(&[1_750_000]), Ok(0));
    assert_eq!(t.predict_row(&[1_750_001]), Ok(S as i128));
    assert_eq!(t.predict_row(&[3_500_000]), Ok(S as i128));
    assert_eq!(t.predict_row(&[3_500_001]), Ok(10 * S as i128));
    assert_eq!(t.predict_row(&[5_250_001]), Ok(20 * S as i128));
    assert_eq!(t.predict_row(&[i64::MAX]), Ok(20 * S as i128));
    assert_eq!(t.predict_row(&[]), Err(ForustError::ShapeError));
    assert_eq!(t.predict_row(&[1, 2]), Err(ForustError::ShapeError));
    assert_eq!(t.output(&[4 * S]), 10 * S as i128);
}
