use regressor::{fit_line, linear_regressor, AxisBounds, Binary64, FitError, Sample, SampleVec};

fn b(x: f64) -> Binary64 {
    Binary64::from_bits(x.to_bits())
}

fn f(x: Binary64) -> f64 {
    f64::from_bits(x.to_bits())
}

fn numbers(xs: &[f64]) -> Vec<Binary64> {
    xs.iter().map(|x| b(*x)).collect()
}

fn floats(xs: &[Binary64]) -> Vec<f64> {
    xs.iter().map(|x| f(*x)).collect()
}

/// The bits of a hardware result, with every NaN brought to the one pattern
/// that the library produces.
fn expected_bits(x: f64) -> u64 {
    if x.is_nan() {
        0x7ff8_0000_0000_0000
    } else {
        x.to_bits()
    }
}

/// The same fit in hardware arithmetic, step for step.
fn hardware_fit(xs: &[f64], ys: &[f64]) -> (f64, f64, Vec<f64>) {
    let mut x_mean = 0.0;
    let mut y_mean = 0.0;
    for x in xs {
        x_mean += x;
    }
    for y in ys {
        y_mean += y;
    }
    x_mean = x_mean / (xs.len() as f64);
    y_mean = y_mean / (ys.len() as f64);
    let mut covariance = 0.0;
    let mut variance = 0.0;
    for i in 0..xs.len() {
        let x_distance = xs[i] - x_mean;
        covariance += x_distance * (ys[i] - y_mean);
        variance += x_distance * x_distance;
    }
    let gradient = covariance / variance;
    let intercept = y_mean - gradient * x_mean;
    let predictions = xs.iter().map(|x| gradient * x + intercept).collect();
    (gradient, intercept, predictions)
}

fn assert_agrees_with_hardware(xs: &[f64], ys: &[f64]) {
    let (gradient, intercept, predictions) = hardware_fit(xs, ys);
    let line = fit_line(&numbers(xs), &numbers(ys)).unwrap();
    assert_eq!(line.gradient.to_bits(), expected_bits(gradient), "gradient of {:?} {:?}", xs, ys);
    assert_eq!(line.intercept.to_bits(), expected_bits(intercept), "intercept of {:?} {:?}", xs, ys);
    let result = linear_regressor(numbers(xs), numbers(ys)).unwrap();
    let got = result.get_predictions();
    assert_eq!(got.len(), predictions.len());
    for i in 0..got.len() {
        assert_eq!(got[i].to_bits(), expected_bits(predictions[i]), "prediction {} of {:?} {:?}", i, xs, ys);
    }
}

struct Patterns(u64);

impl Patterns {
    fn next(&mut self) -> u64 {
        self.0 ^= self.0 << 13;
        self.0 ^= self.0 >> 7;
        self.0 ^= self.0 << 17;
        self.0
    }

    /// A number between -1000 and 1000.
    fn coordinate(&mut self) -> f64 {
        ((self.next() % 2_000_001) as f64 - 1_000_000.0) / 1000.0
    }
}

#[test]
fn linear_regressor_test() {
    let x_samples = vec![3.4, -2.1, 5.0, 10.0, -6.1];
    let y_samples = vec![9.8, -1.2, 13.0, 23.0, -9.2];

    let predictions = floats(
        &linear_regressor(numbers(&x_samples), numbers(&y_samples))
            .unwrap()
            .get_predictions(),
    );

    assert_eq!(
        y_samples.len(),
        predictions.len(),
        "Arrays don't have the same length"
    );

    println!("{:?}", y_samples);
    println!("{:?}", predictions);

    assert!(
        y_samples
            .iter()
            .zip(predictions.iter())
            .all(|(a, b)| a.abs() - b.abs() < 0.0001),
        "Arrays are not equal"
    );
}

#[test]
fn five_point_scenario_line_predictions_and_bounds() {
    let xs = [3.4, -2.1, 5.0, 10.0, -6.1];
    let ys = [9.8, -1.2, 13.0, 23.0, -9.2];
    let line = fit_line(&numbers(&xs), &numbers(&ys)).unwrap();
    let (gradient, intercept, _) = hardware_fit(&xs, &ys);
    assert!((f(line.gradient) - 2.0).abs() < 1e-9);
    assert_eq!(line.gradient.to_bits(), gradient.to_bits());
    assert_eq!(line.intercept.to_bits(), intercept.to_bits());
    // The five points lie on y = 2x + 3.
    assert!((f(line.intercept) - 3.0).abs() < 1e-9);

    let result = linear_regressor(numbers(&xs), numbers(&ys)).unwrap();
    let bounds = result.clone().get_axis_bounds();
    let predictions = floats(&result.get_predictions());
    assert_eq!(predictions.len(), 5);
    for i in 0..5 {
        assert!((predictions[i] - ys[i]).abs() <= 0.3);
        assert!((predictions[i] - ys[i]).abs() < 1e-9);
    }
    assert_eq!(bounds.min_x().to_bits(), (-6.1f64).to_bits());
    assert_eq!(bounds.max_x().to_bits(), 10.0f64.to_bits());
    assert_eq!(bounds.min_y().to_bits(), (-9.2f64).to_bits());
    assert_eq!(bounds.max_y().to_bits(), 23.0f64.to_bits());
}

#[test]
fn exact_value_of_each_step_on_a_small_fit() {
    // xs = 1, 2, 3 and ys = 2, 4, 7: means 2 and 13/3, covariance sum 5,
    // variance sum 2, slope 5/2, height 13/3 - 5.
    let xs = [1.0, 2.0, 3.0];
    let ys = [2.0, 4.0, 7.0];
    let line = fit_line(&numbers(&xs), &numbers(&ys)).unwrap();
    assert_eq!(f(line.gradient), 2.5);
    assert_eq!(f(line.intercept), 13.0 / 3.0 - 5.0);
    assert_eq!(f(line.predict(b(2.0))), 2.5 * 2.0 + (13.0 / 3.0 - 5.0));
    assert_eq!(f(regressor::regression::sum(&numbers(&ys))), 13.0);
    assert_eq!(f(regressor::regression::mean(&numbers(&ys))), 13.0 / 3.0);
}

#[test]
fn fit_agrees_with_hardware_bit_for_bit() {
    assert_agrees_with_hardware(&[3.4, -2.1, 5.0, 10.0, -6.1], &[9.8, -1.2, 13.0, 23.0, -9.2]);
    assert_agrees_with_hardware(&[0.1, 0.2, 0.3], &[0.3, 0.2, 0.1]);
    assert_agrees_with_hardware(&[1.0], &[2.0]);
    assert_agrees_with_hardware(&[1e300, -1e300, 3.0], &[1.0, 2.0, 3.0]);
    assert_agrees_with_hardware(&[1e-320, 2e-320, 5e-324], &[1e-300, 3.0, -7.5]);
    assert_agrees_with_hardware(&[f64::INFINITY, 1.0], &[1.0, 2.0]);
    assert_agrees_with_hardware(&[f64::NAN, 1.0, 2.0], &[1.0, 2.0, 3.0]);
    assert_agrees_with_hardware(&[-0.0, 0.0, -0.0], &[-0.0, -0.0, -0.0]);
    let mut patterns = Patterns(0x6a09_e667_f3bc_c908);
    for round in 0..300 {
        let n = 1 + round % 17;
        let xs: Vec<f64> = (0..n).map(|_| patterns.coordinate()).collect();
        let ys: Vec<f64> = (0..n).map(|_| patterns.coordinate()).collect();
        assert_agrees_with_hardware(&xs, &ys);
    }
    for _ in 0..300 {
        let xs: Vec<f64> = (0..4).map(|_| f64::from_bits(patterns.next())).collect();
        let ys: Vec<f64> = (0..4).map(|_| f64::from_bits(patterns.next())).collect();
        assert_agrees_with_hardware(&xs, &ys);
    }
}

#[test]
fn different_lengths_are_a_length_mismatch() {
    let result = linear_regressor(numbers(&[1.0, 2.0]), numbers(&[1.0]));
    assert!(matches!(result, Err(FitError::LengthMismatch)));
    let result = linear_regressor(numbers(&[]), numbers(&[1.0]));
    assert!(matches!(result, Err(FitError::LengthMismatch)));
    let result = linear_regressor(numbers(&[1.0]), numbers(&[]));
    assert!(matches!(result, Err(FitError::LengthMismatch)));
    let line = fit_line(&numbers(&[1.0, 2.0]), &numbers(&[1.0]));
    assert!(matches!(line, Err(FitError::LengthMismatch)));
}

#[test]
fn no_samples_are_an_empty_input() {
    let result = linear_regressor(numbers(&[]), numbers(&[]));
    assert!(matches!(result, Err(FitError::EmptyInput)));
    let line = fit_line(&numbers(&[]), &numbers(&[]));
    assert!(matches!(line, Err(FitError::EmptyInput)));
    assert_eq!(FitError::EmptyInput, FitError::EmptyInput);
    assert_ne!(FitError::EmptyInput, FitError::LengthMismatch);
}

#[test]
fn constant_x_gives_nothing_finite_and_no_failure() {
    for ys in [[1.0, 2.0, 3.0], [0.0, 0.0, 0.0], [-7.5, 1e300, 4.0], [2.0, 2.0, 2.0]] {
        let xs = [5.0, 5.0, 5.0];
        let line = fit_line(&numbers(&xs), &numbers(&ys)).unwrap();
        assert!(!f(line.gradient).is_finite());
        assert!(!f(line.intercept).is_finite());
        let result = linear_regressor(numbers(&xs), numbers(&ys)).unwrap();
        let bounds = result.clone().get_axis_bounds();
        let predictions = floats(&result.get_predictions());
        assert_eq!(predictions.len(), 3);
        for p in predictions {
            assert!(!p.is_finite());
        }
        assert_eq!(f(bounds.min_x()), 5.0);
        assert_eq!(f(bounds.max_x()), 5.0);
    }
    // One sample alone does not vary either.
    let result = linear_regressor(numbers(&[2.0]), numbers(&[3.0])).unwrap();
    assert!(f(result.get_predictions()[0]).is_nan());
}

#[test]
fn one_prediction_for_each_sample() {
    let mut patterns = Patterns(0xbb67_ae85_84ca_a73b);
    for n in 1..40 {
        let xs: Vec<f64> = (0..n).map(|_| patterns.coordinate()).collect();
        let ys: Vec<f64> = (0..n).map(|_| patterns.coordinate()).collect();
        let result = linear_regressor(numbers(&xs), numbers(&ys)).unwrap();
        assert_eq!(result.get_predictions().len(), n);
    }
}

#[test]
fn two_fits_of_the_same_samples_agree_in_every_bit() {
    let mut patterns = Patterns(0x3c6e_f372_fe94_f82b);
    for round in 0..50 {
        let n = 1 + round % 9;
        let xs: Vec<f64> = (0..n).map(|_| f64::from_bits(patterns.next())).collect();
        let ys: Vec<f64> = (0..n).map(|_| f64::from_bits(patterns.next())).collect();
        let first = linear_regressor(numbers(&xs), numbers(&ys)).unwrap();
        let second = linear_regressor(numbers(&xs), numbers(&ys)).unwrap();
        let first_bounds = first.clone().get_axis_bounds();
        let second_bounds = second.clone().get_axis_bounds();
        let first_bits: Vec<u64> = first.get_predictions().iter().map(|p| p.to_bits()).collect();
        let second_bits: Vec<u64> = second.get_predictions().iter().map(|p| p.to_bits()).collect();
        assert_eq!(first_bits, second_bits);
        assert_eq!(first_bounds.min_x().to_bits(), second_bounds.min_x().to_bits());
        assert_eq!(first_bounds.max_x().to_bits(), second_bounds.max_x().to_bits());
        assert_eq!(first_bounds.min_y().to_bits(), second_bounds.min_y().to_bits());
        assert_eq!(first_bounds.max_y().to_bits(), second_bounds.max_y().to_bits());
    }
}

#[test]
fn points_on_a_line_give_that_line_back() {
    let cases: [(f64, f64); 5] = [(2.0, 3.0), (-0.5, 10.0), (1.0, 0.0), (0.0, 4.0), (123.0, -77.0)];
    for (a, c) in cases {
        let xs = [-4.0, -1.0, 0.0, 0.5, 2.0, 3.0, 8.0];
        let ys: Vec<f64> = xs.iter().map(|x| a * x + c).collect();
        let line = fit_line(&numbers(&xs), &numbers(&ys)).unwrap();
        assert!((f(line.gradient) - a).abs() < 1e-9);
        assert!((f(line.intercept) - c).abs() < 1e-9);
        let predictions = floats(&linear_regressor(numbers(&xs), numbers(&ys)).unwrap().get_predictions());
        for i in 0..xs.len() {
            assert!((predictions[i] - ys[i]).abs() < 1e-9);
        }
    }
}

#[test]
fn bounds_are_the_extremes_of_each_axis_alone() {
    let xs = [1.0, 2.0, 3.0];
    let ys = [30.0, 10.0, 20.0];
    let bounds = linear_regressor(numbers(&xs), numbers(&ys)).unwrap().get_axis_bounds();
    assert_eq!(f(bounds.min_x()), 1.0);
    assert_eq!(f(bounds.max_x()), 3.0);
    assert_eq!(f(bounds.min_y()), 10.0);
    assert_eq!(f(bounds.max_y()), 30.0);

    let mut patterns = Patterns(0xa54f_f53a_5f1d_36f1);
    for round in 0..100 {
        let n = 1 + round % 12;
        let xs: Vec<f64> = (0..n).map(|_| patterns.coordinate()).collect();
        let ys: Vec<f64> = (0..n).map(|_| patterns.coordinate() * 1e6).collect();
        let bounds = linear_regressor(numbers(&xs), numbers(&ys)).unwrap().get_axis_bounds();
        assert_eq!(f(bounds.min_x()), xs.iter().cloned().fold(f64::INFINITY, f64::min));
        assert_eq!(f(bounds.max_x()), xs.iter().cloned().fold(f64::NEG_INFINITY, f64::max));
        assert_eq!(f(bounds.min_y()), ys.iter().cloned().fold(f64::INFINITY, f64::min));
        assert_eq!(f(bounds.max_y()), ys.iter().cloned().fold(f64::NEG_INFINITY, f64::max));
        assert!(f(bounds.min_x()) <= f(bounds.max_x()));
        assert!(f(bounds.min_y()) <= f(bounds.max_y()));
    }
}

#[test]
fn new_bounds_hold_nothing() {
    let bounds = AxisBounds::new();
    assert_eq!(f(bounds.min_x()), f64::INFINITY);
    assert_eq!(f(bounds.max_x()), f64::NEG_INFINITY);
    assert_eq!(f(bounds.min_y()), f64::INFINITY);
    assert_eq!(f(bounds.max_y()), f64::NEG_INFINITY);
    assert_eq!(f(bounds.mins.x), f64::INFINITY);
    assert_eq!(f(bounds.maxs.y), f64::NEG_INFINITY);
}

#[test]
fn add_sample_moves_each_axis_by_its_own_coordinate() {
    let mut bounds = AxisBounds::new();
    bounds.add_sample(b(1.0), b(100.0));
    assert_eq!(f(bounds.min_x()), 1.0);
    assert_eq!(f(bounds.max_x()), 1.0);
    assert_eq!(f(bounds.min_y()), 100.0);
    assert_eq!(f(bounds.max_y()), 100.0);
    bounds.add_sample(b(2.0), b(-100.0));
    assert_eq!(f(bounds.min_x()), 1.0);
    assert_eq!(f(bounds.max_x()), 2.0);
    assert_eq!(f(bounds.min_y()), -100.0);
    assert_eq!(f(bounds.max_y()), 100.0);
    bounds.add_sample(b(-3.0), b(0.0));
    assert_eq!(f(bounds.min_x()), -3.0);
    assert_eq!(f(bounds.max_x()), 2.0);
    assert_eq!(f(bounds.min_y()), -100.0);
    assert_eq!(f(bounds.max_y()), 100.0);
}

#[test]
fn a_nan_coordinate_leaves_its_axis_as_it_was() {
    let mut bounds = AxisBounds::new();
    bounds.add_sample(b(f64::NAN), b(4.0));
    assert_eq!(f(bounds.min_x()), f64::INFINITY);
    assert_eq!(f(bounds.max_x()), f64::NEG_INFINITY);
    assert_eq!(f(bounds.min_y()), 4.0);
    assert_eq!(f(bounds.max_y()), 4.0);
    bounds.add_sample(b(7.0), b(f64::NAN));
    bounds.add_sample(b(f64::NAN), b(f64::NAN));
    assert_eq!(f(bounds.min_x()), 7.0);
    assert_eq!(f(bounds.max_x()), 7.0);
    assert_eq!(f(bounds.min_y()), 4.0);
    assert_eq!(f(bounds.max_y()), 4.0);
}

#[test]
fn of_two_zeros_the_first_stays_a_bound() {
    let mut bounds = AxisBounds::new();
    bounds.add_sample(b(-0.0), b(0.0));
    bounds.add_sample(b(0.0), b(-0.0));
    assert_eq!(bounds.min_x().to_bits(), (-0.0f64).to_bits());
    assert_eq!(bounds.max_x().to_bits(), (-0.0f64).to_bits());
    assert_eq!(bounds.min_y().to_bits(), 0.0f64.to_bits());
    assert_eq!(bounds.max_y().to_bits(), 0.0f64.to_bits());
}

#[test]
fn infinite_coordinates_are_bounds_like_any_other() {
    let mut bounds = AxisBounds::new();
    bounds.add_sample(b(f64::INFINITY), b(f64::NEG_INFINITY));
    assert_eq!(f(bounds.min_x()), f64::INFINITY);
    assert_eq!(f(bounds.max_x()), f64::INFINITY);
    assert_eq!(f(bounds.min_y()), f64::NEG_INFINITY);
    assert_eq!(f(bounds.max_y()), f64::NEG_INFINITY);
    bounds.add_sample(b(1.0), b(1.0));
    assert_eq!(f(bounds.min_x()), 1.0);
    assert_eq!(f(bounds.max_x()), f64::INFINITY);
    assert_eq!(f(bounds.min_y()), f64::NEG_INFINITY);
    assert_eq!(f(bounds.max_y()), 1.0);
}

#[test]
fn get_sample_hands_out_x_then_y() {
    let samples = SampleVec(vec![Sample::new(b(1.5), b(-2.5)), Sample::new(b(3.0), b(4.0))]);
    let first = samples.get_sample(0);
    assert_eq!(floats(&first), vec![1.5, -2.5]);
    let second = samples.get_sample(1);
    assert_eq!(floats(&second), vec![3.0, 4.0]);
}

#[test]
fn points_on_a_line_can_overflow_the_sums() {
    // The points lie on y = x, but the squares of their distances from the
    // mean are too large for binary64: both sums are infinite.
    let xs = [0.0, 1e200];
    let ys = [0.0, 1e200];
    let line = fit_line(&numbers(&xs), &numbers(&ys)).unwrap();
    assert!(f(line.gradient).is_nan());
    assert_agrees_with_hardware(&xs, &ys);
}

#[test]
fn equal_x_need_not_equal_their_mean() {
    // Three times 0.1 is not exactly 0.3, so the mean is not 0.1 and the
    // variance sum is not zero: the fit is finite, if meaningless.
    let xs = [0.1, 0.1, 0.1];
    let ys = [1.0, 2.0, 4.0];
    let line = fit_line(&numbers(&xs), &numbers(&ys)).unwrap();
    assert!(f(line.gradient).is_finite());
    assert_agrees_with_hardware(&xs, &ys);
}
