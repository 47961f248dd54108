use lau_ergodic_theory::measure::Transformation;
use lau_ergodic_theory::mixing::MixingChecker;

fn uniform_measure(points: &[usize], n: usize) -> f64 {
    points.iter().filter(|&&i| i < n).count() as f64 / n as f64
}

#[test]
fn test_correlation_computation() {
    let t = Transformation::new(vec![1, 2, 0]);
    // T^{-1}({0}) = {2}, mu({2} ∩ {0}) = 0
    let corr = uniform_measure(&MixingChecker::correlation_set(&t, &[0], &[0], 1), 3);
    assert!((corr - 0.0).abs() < 1e-10);
    // T^{-2}({0}) = {1}, mu({1} ∩ {0}) = 0
    let corr2 = uniform_measure(&MixingChecker::correlation_set(&t, &[0], &[0], 2), 3);
    assert!((corr2 - 0.0).abs() < 1e-10);
    // T^{-3}({0}) = {0}, mu({0} ∩ {0}) = 1/3
    let corr3 = uniform_measure(&MixingChecker::correlation_set(&t, &[0], &[0], 3), 3);
    assert!((corr3 - 1.0 / 3.0).abs() < 1e-10);
}

#[test]
fn correlation_set_points() {
    let t = Transformation::new(vec![1, 2, 3, 0]);
    assert_eq!(MixingChecker::correlation_set(&t, &[0, 1], &[2, 3, 0], 2), vec![2, 3]);
    assert_eq!(MixingChecker::correlation_set(&t, &[3, 1, 3], &[3, 1], 0), vec![3, 1, 3]);
    // a period of the cycle brings every set back onto itself
    assert_eq!(MixingChecker::correlation_set(&t, &[2], &[0, 1, 2, 3], 4), vec![2]);
}
