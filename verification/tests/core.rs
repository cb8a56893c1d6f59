use burn::tensor::{Device, Tensor};
use stlcg::{
    scalar, var, Aggregation, Binary64, EvalOptions, Expr, IntegralOptions, IntegrationScheme,
    Interval, PaddingMode, SignalEnv, StlcgError, Trace,
};

fn num(value: f64) -> Binary64 {
    Binary64::from_bits(value.to_bits())
}

fn s(value: f64) -> Expr {
    scalar(num(value))
}

fn trace3(values: [[[f32; 1]; 3]; 1]) -> Trace {
    Trace(Tensor::<3>::from_data(values, &Device::flex()))
}

fn env(values: [[[f32; 1]; 3]; 1]) -> SignalEnv {
    SignalEnv::new().with("x", trace3(values))
}

fn env4(values: [[[f32; 1]; 4]; 1]) -> SignalEnv {
    SignalEnv::new().with("x", Trace(Tensor::<3>::from_data(values, &Device::flex())))
}

fn values(trace: Trace) -> Vec<f32> {
    trace.0.into_data().into_vec::<f32>().unwrap()
}

fn assert_close(actual: Trace, expected: &[f32]) {
    let actual = values(actual);
    assert_eq!(actual.len(), expected.len());
    for (actual, expected) in actual.into_iter().zip(expected.iter().copied()) {
        assert!((actual - expected).abs() <= 1.0e-4, "{actual} != {expected}");
    }
}

#[test]
fn predicate_and_temporal_exact_match_expected_reversed_trace_behavior() {
    let env = env([[[3.0], [2.0], [1.0]]]);

    assert_close(
        var("x").le(s(2.0)).robustness_trace(&env, EvalOptions::default()).unwrap(),
        &[-1.0, 0.0, 1.0],
    );

    assert_close(
        var("x")
            .le(s(2.0))
            .always(Interval::unbounded())
            .robustness_trace(&env, EvalOptions::default())
            .unwrap(),
        &[-1.0, -1.0, -1.0],
    );

    assert_close(
        var("x")
            .le(s(2.0))
            .eventually(Interval::unbounded())
            .robustness_trace(&env, EvalOptions::default())
            .unwrap(),
        &[-1.0, 0.0, 1.0],
    );

    assert_close(
        var("x")
            .le(s(2.0))
            .always(Interval::closed(0, 1))
            .robustness_trace(&env, EvalOptions::default())
            .unwrap(),
        &[-1.0, -1.0, 0.0],
    );
}

#[test]
fn boolean_combinators_and_smooth_aggregation_work() {
    let env = env([[[3.0], [2.0], [1.0]]]);
    let formula = var("x").ge(s(2.0)).and(var("x").le(s(2.0)));
    assert_close(
        formula.robustness_trace(&env, EvalOptions::default()).unwrap(),
        &[-1.0, 0.0, -1.0],
    );

    let smooth = EvalOptions {
        predicate_scale: num(1.0),
        aggregation: Aggregation::Smooth { scale: num(10.0) },
    };
    let trace = var("x")
        .ge(s(2.0))
        .or(var("x").le(s(2.0)))
        .robustness_trace(&env, smooth)
        .unwrap();
    let actual = values(trace);
    assert!(actual[0] > 0.99);
    assert!(actual[1] > 0.0);
    assert!(actual[2] > 0.99);
}

#[test]
fn integral_supports_cumulative_and_window_modes() {
    let env = env([[[1.0], [2.0], [3.0]]]);

    assert_close(
        var("x")
            .ge(s(0.0))
            .integral(IntegralOptions::cumulative())
            .robustness_trace(&env, EvalOptions::default())
            .unwrap(),
        &[1.0, 3.0, 6.0],
    );

    let opts = IntegralOptions {
        interval: Some(Interval::closed(0, 1)),
        use_relu: false,
        padding: PaddingMode::Same,
        scheme: IntegrationScheme::Riemann,
    };

    assert_close(
        var("x")
            .ge(s(0.0))
            .integral(opts)
            .robustness_trace(&env, EvalOptions::default())
            .unwrap(),
        &[2.0, 3.0, 5.0],
    );
}

#[test]
fn robustness_at_uses_non_reversed_time_indexing() {
    let env = env([[[3.0], [2.0], [1.0]]]);
    let at_now = var("x")
        .le(s(2.0))
        .robustness_at(&env, 0, EvalOptions::default())
        .unwrap();
    assert_close(at_now, &[1.0]);
}

#[test]
fn autodiff_backend_produces_gradients() {
    let device = Device::flex().autodiff();
    let x = Tensor::<3>::from_data([[[1.0_f32], [2.0], [3.0]]], &device).require_grad();
    let env = SignalEnv::new().with("x", Trace(x.clone()));
    let formula = var("x").ge(s(0.0)).eventually(Interval::unbounded());
    let loss = formula
        .robustness_trace(&env, EvalOptions::smooth(num(5.0)))
        .unwrap()
        .0
        .sum();

    let grads = loss.backward();
    let grad = x.grad(&grads).unwrap();
    let values = grad.into_data().into_vec::<f32>().unwrap();
    assert!(values.iter().all(|value| value.is_finite()));
}

#[test]
fn until_and_then_validate_intervals() {
    let env = env([[[3.0], [2.0], [1.0]]]);
    let interval = Interval::closed(2, 1);

    let until = var("x")
        .ge(s(0.0))
        .until(var("x").le(s(2.0)), interval, true)
        .robustness_trace(&env, EvalOptions::default());
    assert!(matches!(until, Err(StlcgError::InvalidInterval(_))));

    let then = var("x")
        .ge(s(0.0))
        .then(var("x").le(s(2.0)), interval, true)
        .robustness_trace(&env, EvalOptions::default());
    assert!(matches!(then, Err(StlcgError::InvalidInterval(_))));
}

#[test]
fn invalid_eval_options_are_rejected() {
    let env = env([[[3.0], [2.0], [1.0]]]);
    let formula = var("x").le(s(2.0));

    let zero_smooth = formula.robustness_trace(&env, EvalOptions::smooth(num(0.0)));
    assert!(matches!(zero_smooth, Err(StlcgError::InvalidOption(_))));

    let infinite_smooth = formula.robustness_trace(&env, EvalOptions::smooth(num(f64::INFINITY)));
    assert!(matches!(infinite_smooth, Err(StlcgError::InvalidOption(_))));

    let negative_predicate_scale =
        formula.robustness_trace(&env, EvalOptions::exact().with_predicate_scale(num(-1.0)));
    assert!(matches!(negative_predicate_scale, Err(StlcgError::InvalidOption(_))));

    let infinite_predicate_scale = formula
        .robustness_trace(&env, EvalOptions::exact().with_predicate_scale(num(f64::INFINITY)));
    assert!(matches!(infinite_predicate_scale, Err(StlcgError::InvalidOption(_))));
}

#[test]
fn empty_until_and_then_candidate_windows_are_negative_infinity() {
    let env = env4([[[3_000_000.0], [0.0], [0.0], [0.0]]]);

    let until = var("x")
        .ge(s(0.0))
        .until(var("x").le(s(-2_000_000.0)), Interval::closed(1, 1), true)
        .robustness_trace(&env, EvalOptions::default())
        .unwrap();
    let actual = values(until);

    assert!(actual[0].is_infinite() && actual[0].is_sign_negative());
    assert!(actual[1] < -1_000_000.0);

    let then = var("x")
        .ge(s(0.0))
        .then(var("x").le(s(-2_000_000.0)), Interval::closed(1, 1), true)
        .robustness_trace(&env, EvalOptions::default())
        .unwrap();
    let actual = values(then);
    assert!(actual[0].is_infinite() && actual[0].is_sign_negative());
}
