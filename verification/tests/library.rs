use burn::tensor::{Device, Tensor};
use stlcg::interval::{
    candidate_indices, closed_window_indices, integral_window_offsets, range_inclusive,
};
use stlcg::{
    reverse_time, sample_at, scalar, var, Aggregation, Binary64, EvalOptions, Expr, Formula,
    IntegralOptions, IntegrationScheme, Interval, PaddingMode, SignalEnv, StlcgError, Trace,
};

fn num(value: f64) -> Binary64 {
    Binary64::from_bits(value.to_bits())
}

fn s(value: f64) -> Expr {
    scalar(num(value))
}

fn trace(values: &[f32]) -> Trace {
    let tensor = Tensor::<2>::from_data(
        burn::tensor::TensorData::new(values.to_vec(), [values.len(), 1]),
        &Device::flex(),
    );
    Trace(tensor.unsqueeze_dim::<3>(0))
}

fn env_x(values: &[f32]) -> SignalEnv {
    SignalEnv::new().with("x", trace(values))
}

fn values(trace: Trace) -> Vec<f32> {
    trace.0.into_data().into_vec::<f32>().unwrap()
}

fn assert_close(actual: Trace, expected: &[f32]) {
    let actual = values(actual);
    assert_eq!(actual.len(), expected.len(), "{actual:?} vs {expected:?}");
    for (a, e) in actual.iter().zip(expected.iter()) {
        assert!((a - e).abs() <= 1.0e-4 || (a == e), "{actual:?} vs {expected:?}");
    }
}

#[test]
fn closed_interval_validation_names_the_fault() {
    assert!(Interval::closed(1, 1).validate().is_ok());
    assert!(Interval::unbounded().validate().is_ok());
    assert!(Interval::from(7).validate().is_ok());
    match Interval::closed(3, 2).validate() {
        Err(StlcgError::InvalidInterval(msg)) => {
            assert_eq!(msg, "closed interval start must be <= end")
        }
        other => panic!("unexpected {other:?}"),
    }
}

#[test]
fn index_ranges_are_inclusive() {
    assert_eq!(range_inclusive(2, 4), vec![2, 3, 4]);
    assert_eq!(range_inclusive(4, 2), Vec::<usize>::new());
    assert_eq!(range_inclusive(usize::MAX, usize::MAX), vec![usize::MAX]);
}

#[test]
fn candidate_indices_follow_the_interval() {
    assert_eq!(candidate_indices(Interval::unbounded(), 2), vec![0, 1, 2]);
    assert_eq!(candidate_indices(Interval::closed(1, 2), 1), Vec::<usize>::new());
    assert_eq!(candidate_indices(Interval::closed(1, 2), 4), vec![2, 3]);
    assert_eq!(candidate_indices(Interval::from(2), 1), Vec::<usize>::new());
    assert_eq!(candidate_indices(Interval::from(2), 3), vec![0, 1]);
}

#[test]
fn closed_windows_clamp_at_the_oldest_sample() {
    assert_eq!(closed_window_indices(1, 0, 3), vec![1, 0, 0, 0]);
    assert_eq!(closed_window_indices(5, 2, 3), vec![3, 2]);
    assert_eq!(closed_window_indices(5, 3, 2), Vec::<usize>::new());
}

#[test]
fn integral_offsets_follow_the_interval() {
    assert_eq!(integral_window_offsets(Interval::unbounded(), 2), vec![0, 1, 2]);
    assert_eq!(integral_window_offsets(Interval::closed(1, 3), 0), vec![1, 2, 3]);
    assert_eq!(integral_window_offsets(Interval::from(4), 2), vec![4]);
    assert_eq!(integral_window_offsets(Interval::from(1), 3), vec![1, 2, 3]);
}

#[test]
fn positive_finite_encodings() {
    assert!(num(1.0).is_positive_finite());
    assert!(num(f64::MIN_POSITIVE).is_positive_finite());
    assert!(Binary64::from_bits(1).is_positive_finite());
    assert!(num(f64::MAX).is_positive_finite());
    assert!(!num(0.0).is_positive_finite());
    assert!(!num(-0.0).is_positive_finite());
    assert!(!num(-2.0).is_positive_finite());
    assert!(!num(f64::INFINITY).is_positive_finite());
    assert!(!num(f64::NAN).is_positive_finite());
    assert_eq!(Binary64::one().bits, 1.0f64.to_bits());
    assert_eq!(Binary64::negative_infinity().bits, f64::NEG_INFINITY.to_bits());
}

#[test]
fn option_presets_and_their_faults() {
    assert!(EvalOptions::exact().validate().is_ok());
    assert!(EvalOptions::distributed_exact().validate().is_ok());
    assert!(EvalOptions::smooth(num(3.0)).validate().is_ok());
    assert!(EvalOptions::default().validate().is_ok());
    match EvalOptions::exact().with_predicate_scale(num(0.0)).validate() {
        Err(StlcgError::InvalidOption(msg)) => {
            assert_eq!(msg, "predicate scale must be positive and finite")
        }
        other => panic!("unexpected {other:?}"),
    }
    match EvalOptions::smooth(num(f64::NAN)).validate() {
        Err(StlcgError::InvalidOption(msg)) => {
            assert_eq!(msg, "smooth aggregation scale must be positive and finite")
        }
        other => panic!("unexpected {other:?}"),
    }
    // The predicate scale is checked before the smooth scale.
    match EvalOptions::smooth(num(-1.0)).with_predicate_scale(num(-1.0)).validate() {
        Err(StlcgError::InvalidOption(msg)) => {
            assert_eq!(msg, "predicate scale must be positive and finite")
        }
        other => panic!("unexpected {other:?}"),
    }
    assert!(matches!(Aggregation::smooth(num(2.0)), Aggregation::Smooth { scale } if scale.bits == 2.0f64.to_bits()));
}

#[test]
fn env_insert_replaces_and_get_reports_missing() {
    let mut env = SignalEnv::new();
    env.insert("x", trace(&[1.0, 2.0]));
    env.insert("y", trace(&[5.0, 6.0]));
    env.insert("x", trace(&[3.0, 4.0]));
    assert_close(env.get("x").unwrap(), &[3.0, 4.0]);
    assert_close(env.get("y").unwrap(), &[5.0, 6.0]);
    match env.get("z") {
        Err(StlcgError::MissingSignal(name)) => assert_eq!(name, "z"),
        other => panic!("unexpected {other:?}"),
    }
    // The first name bound stays first: it gives the template.
    assert_close(env.template().unwrap(), &[3.0, 4.0]);
    assert!(matches!(SignalEnv::new().template(), Err(StlcgError::EmptySignalEnv)));
    assert!(SignalEnv::default().template().is_err());
}

#[test]
fn env_shape_validation_reports_each_fault() {
    assert!(matches!(
        SignalEnv::new().validate_compatible_shapes(),
        Err(StlcgError::EmptySignalEnv)
    ));
    let empty_time = Trace(Tensor::<3>::zeros([1, 0, 1], &Device::flex()));
    assert!(matches!(
        SignalEnv::new().with("x", empty_time).validate_compatible_shapes(),
        Err(StlcgError::EmptyTimeDimension)
    ));
    let env = SignalEnv::new().with("x", trace(&[1.0, 2.0])).with("y", trace(&[1.0, 2.0, 3.0]));
    match env.validate_compatible_shapes() {
        Err(StlcgError::ShapeMismatch { name, expected, actual }) => {
            assert_eq!(name, "y");
            assert_eq!(expected, [1, 2, 1]);
            assert_eq!(actual, [1, 3, 1]);
        }
        other => panic!("unexpected {other:?}"),
    }
    assert!(env_x(&[1.0]).validate_compatible_shapes().is_ok());
    assert!(env.shares_storage());
}

#[test]
fn conjunction_flattens_in_order() {
    let a = var("a").le(s(0.0));
    let b = var("b").le(s(0.0));
    let c = var("c").le(s(0.0));
    let left = a.and(b).and(c);
    match &left {
        Formula::And(children) => assert_eq!(children.len(), 3),
        _ => panic!("not a conjunction"),
    }
    let a = var("a").le(s(0.0));
    let b = var("b").le(s(0.0));
    let c = var("c").le(s(0.0));
    let right = a.and(b.and(c));
    let (Formula::And(l), Formula::And(r)) = (&left, &right) else { panic!("not conjunctions") };
    assert_eq!(format!("{l:?}"), format!("{r:?}"));
    let d = var("d").le(s(0.0)).or(var("e").le(s(0.0))).or(var("f").le(s(0.0)));
    assert!(matches!(&d, Formula::Or(children) if children.len() == 3));
}

#[test]
fn validation_reports_the_first_fault() {
    let env = env_x(&[1.0, 2.0]);
    let empty = Formula::And(Vec::new());
    assert!(matches!(
        empty.robustness_trace(&env, EvalOptions::default()),
        Err(StlcgError::EmptyFormulaSet)
    ));
    // A conjunction built with `and` around an empty one has children.
    let joined = Formula::And(Vec::new()).and(var("x").le(s(0.0)));
    assert!(joined.validate().is_ok());
    let bad = var("x").le(s(0.0)).always(Interval::closed(2, 0)).or(Formula::Or(Vec::new()));
    assert!(matches!(bad.validate(), Err(StlcgError::InvalidInterval(_))));
    let bad_integral = var("x").le(s(0.0)).integral(IntegralOptions::window(Interval::closed(1, 0)));
    assert!(matches!(bad_integral.validate(), Err(StlcgError::InvalidInterval(_))));
}

#[test]
fn errors_come_in_order_env_formula_options_signals() {
    let options = EvalOptions::smooth(num(0.0));
    let formula = var("missing").le(s(0.0)).always(Interval::closed(3, 1));
    assert!(matches!(
        formula.robustness_trace(&SignalEnv::new(), options),
        Err(StlcgError::EmptySignalEnv)
    ));
    let env = env_x(&[1.0, 2.0]);
    assert!(matches!(formula.robustness_trace(&env, options), Err(StlcgError::InvalidInterval(_))));
    let formula = var("missing").le(s(0.0));
    assert!(matches!(formula.robustness_trace(&env, options), Err(StlcgError::InvalidOption(_))));
    match formula.robustness_trace(&env, EvalOptions::default()) {
        Err(StlcgError::MissingSignal(name)) => assert_eq!(name, "missing"),
        other => panic!("unexpected {other:?}"),
    }
    // The left side of a conjunction is read first.
    let both = var("p").le(s(0.0)).and(var("q").le(s(0.0)));
    match both.robustness_trace(&env, EvalOptions::default()) {
        Err(StlcgError::MissingSignal(name)) => assert_eq!(name, "p"),
        other => panic!("unexpected {other:?}"),
    }
}

#[test]
fn predicates_and_expressions() {
    let env = SignalEnv::new().with("x", trace(&[3.0, 2.0, 1.0])).with("y", trace(&[1.0, 1.0, 4.0]));
    assert_close(
        var("x").eq_value(s(2.0)).robustness_trace(&env, EvalOptions::default()).unwrap(),
        &[-1.0, 0.0, -1.0],
    );
    assert_close(
        (var("x") + var("y")).ge(s(4.0)).robustness_trace(&env, EvalOptions::default()).unwrap(),
        &[0.0, -1.0, 1.0],
    );
    assert_close(
        (var("x") * num(2.0) - var("y") / num(2.0))
            .into_formula()
            .robustness_trace(&env, EvalOptions::default())
            .unwrap(),
        &[5.5, 3.5, 0.0],
    );
    assert_close(
        (-var("x")).abs().into_formula().robustness_trace(&env, EvalOptions::default()).unwrap(),
        &[3.0, 2.0, 1.0],
    );
    assert_close(
        var("x")
            .le(s(2.0))
            .robustness_trace(&env, EvalOptions::default().with_predicate_scale(num(2.0)))
            .unwrap(),
        &[-2.0, 0.0, 2.0],
    );
    assert_close(
        (var("x") + num(1.0)).into_formula().robustness_trace(&env, EvalOptions::default()).unwrap(),
        &[4.0, 3.0, 2.0],
    );
    assert_close(
        Expr::from(num(7.0)).into_formula().robustness_trace(&env, EvalOptions::default()).unwrap(),
        &[7.0, 7.0, 7.0],
    );
}

#[test]
fn negation_and_implication() {
    let env = env_x(&[3.0, 2.0, 1.0]);
    assert_close(
        (!var("x").le(s(2.0))).robustness_trace(&env, EvalOptions::default()).unwrap(),
        &[1.0, 0.0, -1.0],
    );
    assert_close(
        var("x").le(s(2.0)).negated().robustness_trace(&env, EvalOptions::default()).unwrap(),
        &[1.0, 0.0, -1.0],
    );
    // x >= 2 implies x <= 2: max(-(x - 2), 2 - x).
    assert_close(
        var("x")
            .ge(s(2.0))
            .implies(var("x").le(s(2.0)))
            .robustness_trace(&env, EvalOptions::default())
            .unwrap(),
        &[-1.0, 0.0, 1.0],
    );
}

#[test]
fn temporal_windows_from_an_offset() {
    let env = env_x(&[3.0, 2.0, 1.0]);
    // From(1): at index i the window is 0..=i-1, clamped at 0.
    assert_close(
        var("x")
            .le(s(2.0))
            .eventually(Interval::from(1))
            .robustness_trace(&env, EvalOptions::default())
            .unwrap(),
        &[-1.0, -1.0, 0.0],
    );
    assert_close(
        var("x")
            .le(s(2.0))
            .always(Interval::closed(1, 2))
            .robustness_trace(&env, EvalOptions::default())
            .unwrap(),
        &[-1.0, -1.0, -1.0],
    );
}

#[test]
fn distributed_exact_matches_exact_values() {
    let env = env_x(&[3.0, 2.0, 2.0]);
    let formula = var("x").le(s(2.0)).always(Interval::unbounded());
    let exact = values(formula.robustness_trace(&env, EvalOptions::exact()).unwrap());
    let distributed =
        values(formula.robustness_trace(&env, EvalOptions::distributed_exact()).unwrap());
    assert_eq!(exact, distributed);
    let conj = var("x").le(s(2.0)).and(var("x").ge(s(2.0)));
    assert_close(
        conj.robustness_trace(&env, EvalOptions::distributed_exact()).unwrap(),
        &[-1.0, 0.0, 0.0],
    );
}

#[test]
fn smooth_minimum_lies_below_exact_minimum() {
    let env = env_x(&[1.0, 2.0, 3.0]);
    let formula = var("x").ge(s(0.0)).always(Interval::unbounded());
    let smooth = values(formula.robustness_trace(&env, EvalOptions::smooth(num(1.0))).unwrap());
    let exact = values(formula.robustness_trace(&env, EvalOptions::exact()).unwrap());
    for (a, b) in smooth.iter().zip(exact.iter()) {
        assert!(a <= b);
    }
    assert!((smooth[0] - 1.0).abs() < 1.0e-5);
}

#[test]
fn until_and_then_with_windows() {
    let env = env_x(&[3.0, 2.0, 1.0]);
    // x >= 2 until x <= 1, unbounded, overlapping.
    let until = var("x")
        .ge(s(2.0))
        .until(var("x").le(s(1.0)), Interval::unbounded(), true)
        .robustness_trace(&env, EvalOptions::default())
        .unwrap();
    assert_close(until, &[-2.0, -1.0, -1.0]);
    let then = var("x")
        .ge(s(2.0))
        .then(var("x").le(s(1.0)), Interval::unbounded(), false)
        .robustness_trace(&env, EvalOptions::default())
        .unwrap();
    assert_eq!(values(then).len(), 3);
}

#[test]
fn integrals_with_trapezoid_relu_and_padding() {
    let env = env_x(&[1.0, 2.0, 3.0]);
    let trapezoid = IntegralOptions {
        interval: None,
        use_relu: false,
        padding: PaddingMode::Same,
        scheme: IntegrationScheme::Trapezoid,
    };
    assert_close(
        var("x").ge(s(0.0)).integral(trapezoid).robustness_trace(&env, EvalOptions::default()).unwrap(),
        &[0.0, 1.5, 4.0],
    );
    let relu = IntegralOptions { use_relu: true, ..IntegralOptions::cumulative() };
    assert_close(
        var("x").le(s(2.0)).integral(relu).robustness_trace(&env, EvalOptions::default()).unwrap(),
        &[1.0, 1.0, 1.0],
    );
    let zero_pad = IntegralOptions {
        interval: Some(Interval::closed(1, 2)),
        use_relu: false,
        padding: PaddingMode::Zero,
        scheme: IntegrationScheme::Riemann,
    };
    assert_close(
        var("x").ge(s(0.0)).integral(zero_pad).robustness_trace(&env, EvalOptions::default()).unwrap(),
        &[0.0, 1.0, 3.0],
    );
    let custom_pad = IntegralOptions { padding: PaddingMode::Custom(num(10.0)), ..zero_pad };
    assert_close(
        var("x").ge(s(0.0)).integral(custom_pad).robustness_trace(&env, EvalOptions::default()).unwrap(),
        &[20.0, 11.0, 3.0],
    );
    let window_trapezoid = IntegralOptions {
        interval: Some(Interval::closed(0, 1)),
        use_relu: false,
        padding: PaddingMode::Same,
        scheme: IntegrationScheme::Trapezoid,
    };
    assert_close(
        var("x")
            .ge(s(0.0))
            .integral(window_trapezoid)
            .robustness_trace(&env, EvalOptions::default())
            .unwrap(),
        &[1.0, 1.5, 2.5],
    );
    let default_window = IntegralOptions::default();
    assert!(default_window.interval.is_none());
}

#[test]
fn robustness_at_and_eval() {
    let env = env_x(&[3.0, 2.0, 1.0]);
    let formula = var("x").le(s(2.0));
    assert_close(formula.robustness_at(&env, 2, EvalOptions::default()).unwrap(), &[-1.0]);
    match formula.robustness_at(&env, 3, EvalOptions::default()) {
        Err(StlcgError::TimeOutOfBounds { time, len }) => {
            assert_eq!(time, 3);
            assert_eq!(len, 3);
        }
        other => panic!("unexpected {other:?}"),
    }
    let mask = formula.eval_trace(&env, EvalOptions::default()).unwrap();
    assert_eq!(mask.0.into_data().into_vec::<bool>().unwrap(), vec![false, false, true]);
    let at = formula.eval_at(&env, 0, EvalOptions::default()).unwrap();
    assert_eq!(at.0.into_data().into_vec::<bool>().unwrap(), vec![true]);
}

#[test]
fn reverse_time_flips_the_time_axis() {
    assert_close(reverse_time(trace(&[1.0, 2.0, 3.0])), &[3.0, 2.0, 1.0]);
}

#[test]
fn shares_storage_detects_mixed_element_types() {
    let wide = Tensor::<3>::from_data(
        burn::tensor::TensorData::new(vec![1.0f64, 2.0], [1, 2, 1]),
        (&Device::flex(), burn::tensor::DType::F64),
    );
    let env = SignalEnv::new().with("x", trace(&[1.0, 2.0])).with("y", Trace(wide));
    assert!(!env.shares_storage());
    assert!(SignalEnv::new().shares_storage());
    assert!(env_x(&[1.0]).shares_storage());
}

#[test]
fn clone_keeps_the_samples() {
    let source = trace(&[1.0, 2.0, 3.0]);
    let copy = source.clone();
    assert_close(copy, &[1.0, 2.0, 3.0]);
    assert_close(source, &[1.0, 2.0, 3.0]);
}

#[test]
fn sample_at_reads_non_reversed_time() {
    assert_close(sample_at(trace(&[5.0, 6.0, 7.0]), 0).unwrap(), &[7.0]);
    assert_close(sample_at(trace(&[5.0, 6.0, 7.0]), 2).unwrap(), &[5.0]);
    match sample_at(trace(&[5.0, 6.0, 7.0]), 3) {
        Err(StlcgError::TimeOutOfBounds { time, len }) => {
            assert_eq!((time, len), (3, 3));
        }
        other => panic!("unexpected {other:?}"),
    }
}

#[test]
fn always_unbounded_over_reversed_samples() {
    let env = env_x(&[3.0, 2.0, 1.0]);
    let formula = var("x").le(s(2.0)).always(Interval::unbounded());
    assert_close(formula.robustness_trace(&env, EvalOptions::default()).unwrap(), &[-1.0, -1.0, -1.0]);
    let cumulative = var("x").into_formula().integral(IntegralOptions::default());
    assert_close(
        cumulative.robustness_trace(&env_x(&[1.0, 2.0, 3.0]), EvalOptions::default()).unwrap(),
        &[1.0, 3.0, 6.0],
    );
}

#[test]
fn checked_evaluation_refuses_mixed_storage() {
    let wide = Tensor::<3>::from_data(
        burn::tensor::TensorData::new(vec![1.0f64, 2.0], [1, 2, 1]),
        (&Device::flex(), burn::tensor::DType::F64),
    );
    let mixed = SignalEnv::new().with("x", trace(&[1.0, 2.0])).with("y", Trace(wide));
    let formula = var("x").le(s(2.0));
    assert!(formula.checked_robustness_trace(&mixed, EvalOptions::default()).is_none());
    assert!(formula.checked_robustness_at(&mixed, 0, EvalOptions::default()).is_none());
    assert!(formula.checked_eval_trace(&mixed, EvalOptions::default()).is_none());
    assert!(formula.checked_eval_at(&mixed, 0, EvalOptions::default()).is_none());
    let env = env_x(&[3.0, 2.0, 1.0]);
    assert_close(
        formula.checked_robustness_trace(&env, EvalOptions::default()).unwrap().unwrap(),
        &[-1.0, 0.0, 1.0],
    );
    assert_close(formula.checked_robustness_at(&env, 0, EvalOptions::default()).unwrap().unwrap(), &[1.0]);
    let mask = formula.checked_eval_trace(&env, EvalOptions::default()).unwrap().unwrap();
    assert_eq!(mask.0.into_data().into_vec::<bool>().unwrap(), vec![false, false, true]);
    let at = formula.checked_eval_at(&env, 2, EvalOptions::default()).unwrap().unwrap();
    assert_eq!(at.0.into_data().into_vec::<bool>().unwrap(), vec![false]);
}

#[test]
fn double_negation_gives_back_the_robustness() {
    let env = env_x(&[3.0, 2.0, 1.0, 5.0]);
    let once = var("x").le(s(2.0)).always(Interval::closed(0, 1));
    let twice = var("x").le(s(2.0)).always(Interval::closed(0, 1)).negated().negated();
    assert_eq!(
        values(twice.robustness_trace(&env, EvalOptions::default()).unwrap()),
        values(once.robustness_trace(&env, EvalOptions::default()).unwrap()),
    );
}

#[test]
fn always_is_not_eventually_not() {
    let env = env_x(&[3.0, 2.0, 1.0, 5.0]);
    for interval in [Interval::unbounded(), Interval::closed(1, 2), Interval::from(1)] {
        let always = var("x").le(s(2.0)).always(interval);
        let dual = (!(!var("x").le(s(2.0))).eventually(interval));
        assert_eq!(
            values(always.robustness_trace(&env, EvalOptions::default()).unwrap()),
            values(dual.robustness_trace(&env, EvalOptions::default()).unwrap()),
        );
    }
}

#[test]
fn implication_is_disjunction_with_negated_premise() {
    let env = env_x(&[3.0, 2.0, 1.0, 5.0]);
    let implication = var("x").ge(s(2.0)).implies(var("x").le(s(4.0)));
    let disjunction = (!var("x").ge(s(2.0))).or(var("x").le(s(4.0)));
    assert_eq!(
        values(implication.robustness_trace(&env, EvalOptions::default()).unwrap()),
        values(disjunction.robustness_trace(&env, EvalOptions::default()).unwrap()),
    );
}

#[test]
fn pointwise_robustness_is_the_same_on_every_evaluation() {
    let env = env_x(&[3.0, 2.0, 1.0, 5.0]);
    let formula = (!var("x").le(s(2.0))).integral(IntegralOptions {
        interval: Some(Interval::closed(0, 1)),
        use_relu: true,
        padding: PaddingMode::Same,
        scheme: IntegrationScheme::Trapezoid,
    });
    let first = values(formula.robustness_trace(&env, EvalOptions::default()).unwrap());
    let second = values(formula.robustness_trace(&env, EvalOptions::default()).unwrap());
    assert_eq!(first, second);
    // x - 2 clamped at zero: [1, 0, 0, 3]; the two ends of [0, 1] halved,
    // an offset past index 0 padded with the sample at index 0.
    assert_eq!(first, vec![1.0, 0.5, 0.0, 1.5]);
}

#[test]
fn a_nan_sample_makes_the_running_integral_nan_from_there_on() {
    let env = env_x(&[1.0, 2.0, f32::NAN, 4.0]);
    let formula = var("x").ge(s(0.0)).integral(IntegralOptions::cumulative());
    let out = values(formula.robustness_trace(&env, EvalOptions::default()).unwrap());
    assert_eq!(&out[..2], &[1.0, 3.0]);
    assert!(out[2].is_nan() && out[3].is_nan());
}

#[test]
fn interval_default_is_unbounded() {
    assert_eq!(Interval::default(), Interval::unbounded());
}

#[test]
fn exact_robustness_is_the_same_on_every_evaluation() {
    let env = env_x(&[3.0, 2.0, 1.0, 5.0, 0.5]);
    let formula = var("x")
        .ge(s(1.0))
        .and(var("x").le(s(4.0)))
        .always(Interval::closed(0, 1))
        .until(var("x").ge(s(2.0)), Interval::unbounded(), false);
    let first = values(formula.robustness_trace(&env, EvalOptions::default()).unwrap());
    let second = values(formula.robustness_trace(&env, EvalOptions::default()).unwrap());
    assert_eq!(first, second);
}

#[test]
fn robustness_at_and_eval_read_the_robustness_trace() {
    let env = env_x(&[3.0, 2.0, 1.0, 5.0]);
    let formula = var("x").le(s(2.0)).eventually(Interval::closed(0, 1));
    let full = values(formula.robustness_trace(&env, EvalOptions::default()).unwrap());
    assert_eq!(full, vec![-1.0, 0.0, 1.0, 1.0]);
    let mask = formula.eval_trace(&env, EvalOptions::default()).unwrap();
    assert_eq!(
        mask.0.into_data().into_vec::<bool>().unwrap(),
        full.iter().map(|v| *v > 0.0).collect::<Vec<bool>>()
    );
    for time in 0..4 {
        let at = values(formula.robustness_at(&env, time, EvalOptions::default()).unwrap());
        assert_eq!(at, vec![full[3 - time]]);
        let positive = formula.eval_at(&env, time, EvalOptions::default()).unwrap();
        assert_eq!(positive.0.into_data().into_vec::<bool>().unwrap(), vec![full[3 - time] > 0.0]);
    }
}

#[test]
fn conjunction_is_negated_disjunction_of_negations() {
    let env = env_x(&[3.0, 2.0, 1.0, 5.0]);
    let conjunction = var("x").ge(s(2.0)).and(var("x").le(s(4.0)));
    let dual = !((!var("x").ge(s(2.0))).or(!var("x").le(s(4.0))));
    let expected = vec![1.0, 0.0, -1.0, -1.0];
    assert_eq!(values(conjunction.robustness_trace(&env, EvalOptions::default()).unwrap()), expected);
    assert_eq!(values(dual.robustness_trace(&env, EvalOptions::default()).unwrap()), expected);
}

#[test]
fn until_is_at_most_then() {
    let env = env_x(&[3.0, 2.0, 1.0, 5.0, 0.5]);
    for interval in [Interval::unbounded(), Interval::closed(1, 2), Interval::from(1)] {
        for overlap in [true, false] {
            let until = var("x").ge(s(1.0)).until(var("x").le(s(2.0)), interval, overlap);
            let then = var("x").ge(s(1.0)).then(var("x").le(s(2.0)), interval, overlap);
            let u = values(until.robustness_trace(&env, EvalOptions::default()).unwrap());
            let t = values(then.robustness_trace(&env, EvalOptions::default()).unwrap());
            for (a, b) in u.iter().zip(t.iter()) {
                assert!(a <= b, "{u:?} vs {t:?}");
            }
        }
    }
}

#[test]
fn distributed_extreme_over_time_picks_a_single_extreme() {
    let x = trace(&[3.0, -1.0, 7.0, 2.0]);
    assert_eq!(values(stlcg::ops::distributed_extreme3(x.clone(), true)), vec![7.0]);
    assert_eq!(values(stlcg::ops::distributed_extreme3(x, false)), vec![-1.0]);
}

#[test]
fn masked_mean_of_a_single_sample_is_that_sample() {
    let x = trace(&[3.0, -1.0, 7.0, 2.0]);
    let mask = stlcg::BoolTrace(
        Tensor::<2, burn::tensor::Bool>::from_data(
            burn::tensor::TensorData::new(vec![false, true, false, false], [4, 1]),
            &Device::flex(),
        )
        .unsqueeze_dim::<3>(0),
    );
    assert_eq!(values(stlcg::ops::masked_mean3(x, mask)), vec![-1.0]);
}

#[test]
fn logsumexp_spreads_a_nan() {
    let out = values(stlcg::ops::logsumexp3(trace(&[1.0, f32::NAN, 2.0])));
    assert!(out[0].is_nan());
    let finite = values(stlcg::ops::logsumexp3(trace(&[0.0, 0.0])));
    assert!((finite[0] - std::f32::consts::LN_2).abs() < 1.0e-5);
}

#[test]
fn distributed_exact_windows_and_junctions_match_exact() {
    let env = env_x(&[3.0, 2.0, 1.0, 5.0, 0.5]);
    for formula in [
        var("x").le(s(2.0)).always(Interval::closed(0, 1)),
        var("x").le(s(2.0)).eventually(Interval::unbounded()),
        var("x").ge(s(1.0)).and(var("x").le(s(4.0))),
        var("x").ge(s(2.0)).implies(var("x").le(s(4.0))),
    ] {
        assert_eq!(
            values(formula.robustness_trace(&env, EvalOptions::distributed_exact()).unwrap()),
            values(formula.robustness_trace(&env, EvalOptions::exact()).unwrap()),
        );
    }
}

#[test]
fn distributed_exact_empty_until_window_is_negative_infinity() {
    let env = env_x(&[1.0, 2.0, 3.0]);
    let formula = var("x").ge(s(0.0)).until(var("x").le(s(2.0)), Interval::closed(1, 2), true);
    let out = values(formula.robustness_trace(&env, EvalOptions::distributed_exact()).unwrap());
    assert_eq!(out[0], f32::NEG_INFINITY);
}

#[test]
fn unbounded_window_bounds_every_window() {
    let env = env_x(&[3.0, 2.0, 1.0, 5.0, 0.5]);
    let whole = values(var("x").ge(s(1.0)).always(Interval::unbounded()).robustness_trace(&env, EvalOptions::exact()).unwrap());
    let part = values(var("x").ge(s(1.0)).always(Interval::closed(1, 2)).robustness_trace(&env, EvalOptions::exact()).unwrap());
    for (w, p) in whole.iter().zip(part.iter()) {
        assert!(w <= p, "{whole:?} vs {part:?}");
    }
    let whole = values(var("x").ge(s(1.0)).eventually(Interval::unbounded()).robustness_trace(&env, EvalOptions::exact()).unwrap());
    let part = values(var("x").ge(s(1.0)).eventually(Interval::from(1)).robustness_trace(&env, EvalOptions::exact()).unwrap());
    for (w, p) in whole.iter().zip(part.iter()) {
        assert!(w >= p, "{whole:?} vs {part:?}");
    }
}

#[test]
fn integral_over_an_aggregation_is_the_same_on_every_evaluation() {
    let env = env_x(&[3.0, 2.0, 1.0, 5.0]);
    let formula = var("x")
        .le(s(2.0))
        .always(Interval::closed(0, 1))
        .integral(IntegralOptions::cumulative());
    let first = values(formula.robustness_trace(&env, EvalOptions::exact()).unwrap());
    let second = values(formula.robustness_trace(&env, EvalOptions::exact()).unwrap());
    assert_eq!(first, second);
    // always over [0, 1] of 2 - x: [-1, -1, 0, -3]; running sum from index 0.
    assert_eq!(first, vec![-1.0, -2.0, -2.0, -5.0]);
}

#[test]
fn double_negation_of_a_predicate_is_the_same_under_smooth_aggregation() {
    let env = env_x(&[3.0, 2.0, 1.0, 5.0]);
    let options = EvalOptions::smooth(num(2.0));
    let once = var("x").le(s(2.0));
    let twice = !!var("x").le(s(2.0));
    assert_eq!(
        values(twice.robustness_trace(&env, options).unwrap()),
        values(once.robustness_trace(&env, options).unwrap()),
    );
}
