use forust::errors::ForustError;
use forust::objective::{exp_neg_of, ln_unit_of, objective_from_name, sigmoid_of, ObjectiveType};

const S: i64 = 1_000_000;

#[test]
fn objective_names() {
    assert_eq!(objective_from_name("LogLoss"), Ok(ObjectiveType::LogLoss));
    assert_eq!(objective_from_name("SquaredLoss"), Ok(ObjectiveType::SquaredLoss));
    assert_eq!(objective_from_name(""), Err(ForustError::InvalidObjective));
    assert_eq!(objective_from_name("SquaredLoss "), Err(ForustError::InvalidObjective));
}

#[test]
fn exp_neg_is_close_to_the_exponential() {
    assert_eq!(exp_neg_of(0), S);
    for i in 0..400 {
        let x = i as f64 * 0.05;
        let got = exp_neg_of((x * 1e6) as i128) as f64 / 1e6;
        assert!((got - (-x).exp()).abs() < 5e-6, "x = {}, got {}", x, got);
    }
    assert_eq!(exp_neg_of(20 * S as i128), 0);
    assert_eq!(exp_neg_of(i128::MAX), 0);
}

#[test]
fn sigmoid_is_close_to_the_logistic_function() {
    assert_eq!(sigmoid_of(0), 500_000);
    for i in -300..300 {
        let x = i as f64 * 0.07;
        let got = sigmoid_of((x * 1e6) as i128) as f64 / 1e6;
        let want = 1.0 / (1.0 + (-x).exp());
        assert!((got - want).abs() < 5e-6, "x = {}, got {}", x, got);
    }
    assert_eq!(sigmoid_of(100 * S as i128), S);
    assert_eq!(sigmoid_of(-100 * S as i128), 0);
}

#[test]
fn sigmoid_is_symmetric() {
    for i in 0..200 {
        let x = i as i128 * 37_123;
        assert_eq!(sigmoid_of(x) + sigmoid_of(-x), S);
    }
}

#[test]
fn ln_unit_is_close_to_the_logarithm() {
    assert_eq!(ln_unit_of(S), 0);
    for i in 1..=1000 {
        let y = i as f64 / 1000.0;
        let got = ln_unit_of((i * 1000) as i64) as f64 / 1e6;
        assert!((got - y.ln()).abs() < 2e-5, "y = {}, got {}", y, got);
    }
    let tiny = ln_unit_of(1) as f64 / 1e6;
    assert!((tiny - (1e-6f64).ln()).abs() < 2e-5);
}

#[test]
fn squared_loss_gradients() {
    let o = ObjectiveType::SquaredLoss;
    let (g, h) = o.grad_hess(&[S, 2 * S, -S], &vec![3 * S as i128, 0, -S as i128]).unwrap();
    assert_eq!(g, vec![2 * S, -2 * S, 0]);
    assert_eq!(h, vec![S, S, S]);
    assert!(o.grad_hess(&[0], &vec![1_099_511_627_776]).is_some());
    assert!(o.grad_hess(&[0], &vec![1_099_511_627_777]).is_none());
    assert!(o.grad_hess(&[0], &vec![-1_099_511_627_777]).is_none());
}

#[test]
fn log_loss_gradients() {
    let o = ObjectiveType::LogLoss;
    let (g, h) = o.grad_hess(&[S, 0, S], &vec![0, 0, 100 * S as i128]).unwrap();
    assert_eq!(g, vec![-500_000, 500_000, 0]);
    assert_eq!(h, vec![250_000, 250_000, 0]);
}

#[test]
fn initial_values() {
    let sq = ObjectiveType::SquaredLoss;
    assert_eq!(sq.initial_value_of(&[S, 2 * S, 6 * S], &[S, S, S]), Some(3 * S));
    assert_eq!(sq.initial_value_of(&[S, 2 * S, 6 * S], &[S, S, 0]), Some(1_500_000));
    assert_eq!(sq.initial_value_of(&[-S, -2 * S], &[S, 2 * S]), Some(-1_666_666));
    assert_eq!(sq.initial_value_of(&[S, 2 * S], &[0, 0]), None);
    assert_eq!(sq.initial_value_of(&[], &[]), None);
    let ll = ObjectiveType::LogLoss;
    assert_eq!(ll.initial_value_of(&[0, S], &[S, S]), Some(0));
    let v = ll.initial_value_of(&[0, S, S, S], &[S, S, S, S]).unwrap() as f64 / 1e6;
    assert!((v - 3.0f64.ln()).abs() < 5e-5);
    assert_eq!(ll.initial_value_of(&[S, S], &[S, S]), None);
    assert_eq!(ll.initial_value_of(&[0, 0], &[S, S]), None);
}
