use bifrost::shaping::{
    evaluate_health, evaluate_health_at, AdaptiveShaping, AdaptiveThresholds, HealthMetrics,
    ShapingAction, ShapingState,
};

#[test]
fn test_error_rate_calculation() {
    let mut metrics = HealthMetrics::new(60_000, 10);
    for i in 0..10 {
        metrics.record(format!("substance_{}", i), i < 7, 100);
    }
    let error_rate = metrics.total_failures() as f64 / metrics.attempt_count() as f64;
    assert!((error_rate - 0.3).abs() < 0.01);
}

#[test]
fn test_circuit_breaker() {
    let mut metrics = HealthMetrics::new(60_000, 10);
    let thresholds = AdaptiveThresholds::default();
    let state = ShapingState::new(10);
    for i in 0..20 {
        metrics.record(format!("substance_{}", i), i < 5, 100);
    }
    let action = evaluate_health(&metrics, &thresholds, &state);
    assert_eq!(action, ShapingAction::CircuitBreak);
}

#[test]
fn test_latency_shaping() {
    let mut metrics = HealthMetrics::new(60_000, 10);
    let thresholds = AdaptiveThresholds::with_baseline(100);
    let state = ShapingState::new(10);
    for i in 0..10 {
        metrics.record(format!("substance_{}", i), true, 600);
    }
    let action = evaluate_health(&metrics, &thresholds, &state);
    assert_eq!(action, ShapingAction::RateLimit(100));
}

#[test]
fn test_hysteresis() {
    let mut state = ShapingState::new(10);
    assert!(state.apply(ShapingAction::ReduceConcurrency));
    assert_eq!(state.current_concurrency, 9);
    assert!(!state.apply(ShapingAction::ReduceConcurrency));
    assert_eq!(state.current_concurrency, 9);
}

#[test]
fn circuit_opens_then_recovers_after_quiet_period() {
    let mut shaping = AdaptiveShaping::new(10, 100);
    let t0: u64 = 1_000_000;
    let mut last = ShapingAction::Maintain;
    for i in 0..10u64 {
        last = shaping.record_and_evaluate_at(format!("s{}", i), false, 50, t0 + i * 100);
    }
    assert_eq!(last, ShapingAction::CircuitBreak);
    assert_eq!(shaping.current_concurrency(), 10);
    assert!(shaping.should_pause());
    // 30 s later, an outcome arrives after the failures aged out of the window.
    let later = t0 + 61_000;
    let action = shaping.record_and_evaluate_at("ok".to_string(), true, 50, later);
    assert_eq!(action, ShapingAction::Maintain);
    let action = shaping.record_and_evaluate_at("ok2".to_string(), true, 50, later + 30_000);
    assert_eq!(action, ShapingAction::CircuitRecover);
    assert_eq!(shaping.current_concurrency(), 5);
    assert!(!shaping.should_pause());
}

#[test]
fn emergency_error_rate_breaks_circuit_even_when_open() {
    let mut metrics = HealthMetrics::new(60_000, 10);
    let thresholds = AdaptiveThresholds::default();
    let mut state = ShapingState::new(10);
    state.circuit_broken = true;
    metrics.record_at("a".to_string(), false, 10, 1000);
    metrics.record_at("b".to_string(), true, 10, 1001);
    assert_eq!(evaluate_health_at(&metrics, &thresholds, &state, 1002), ShapingAction::CircuitBreak);
}

#[test]
fn narrow_failures_do_not_reduce_concurrency() {
    let mut metrics = HealthMetrics::new(60_000, 10);
    let thresholds = AdaptiveThresholds::default();
    let state = ShapingState::new(10);
    // 3 failures of one record among 10 attempts: 30 % error rate, diversity 1/3.
    for i in 0..7u64 {
        metrics.record_at(format!("good{}", i), true, 10, 1000 + i);
    }
    for i in 0..3u64 {
        metrics.record_at("poison".to_string(), false, 10, 1010 + i);
    }
    assert_eq!(evaluate_health_at(&metrics, &thresholds, &state, 1020), ShapingAction::Maintain);
    // Widespread failures: diversity 1.
    let mut wide = HealthMetrics::new(60_000, 10);
    for i in 0..7u64 {
        wide.record_at(format!("good{}", i), true, 10, 1000 + i);
    }
    for i in 0..3u64 {
        wide.record_at(format!("bad{}", i), false, 10, 1010 + i);
    }
    assert_eq!(evaluate_health_at(&wide, &thresholds, &state, 1020), ShapingAction::ReduceConcurrency);
}

#[test]
fn percentiles_use_linear_index_on_sorted_latencies() {
    let mut metrics = HealthMetrics::new(60_000, 10);
    for (i, l) in [50u64, 10, 40, 30, 20, 100, 90, 80, 70, 60].iter().enumerate() {
        metrics.record_at(format!("r{}", i), true, *l, 1000);
    }
    // 10 * 0.95 = 9.5 -> index 9; 10 * 0.99 -> index 9.
    assert_eq!(metrics.p95_latency_ms(), 100);
    assert_eq!(metrics.p99_latency_ms(), 100);
    let empty = HealthMetrics::new(60_000, 10);
    assert_eq!(empty.p99_latency_ms(), 0);
}

#[test]
fn window_prunes_old_attempts_and_reports_unique_failures() {
    let mut metrics = HealthMetrics::new(60_000, 10);
    metrics.record_at("old".to_string(), false, 10, 1_000);
    metrics.record_at("x".to_string(), false, 10, 70_000);
    metrics.record_at("x".to_string(), false, 10, 70_001);
    metrics.record_at("y".to_string(), false, 10, 70_002);
    assert_eq!(metrics.attempt_count(), 3);
    assert_eq!(metrics.total_failures(), 3);
    assert_eq!(metrics.unique_failing_substances(), vec!["x".to_string(), "y".to_string()]);
    assert_eq!(metrics.healthy_duration_at(75_002), 5_000);
}

#[test]
fn thresholds_scale_with_baseline_and_saturate() {
    let t = AdaptiveThresholds::with_baseline(100);
    assert_eq!(t.latency_p99_warning_ms, 200);
    assert_eq!(t.latency_p99_critical_ms, 500);
    let big = AdaptiveThresholds::with_baseline(u64::MAX);
    assert_eq!(big.latency_p99_critical_ms, u64::MAX);
}

#[test]
fn recover_and_increase_respect_bounds() {
    let mut state = ShapingState::new(10);
    assert!(!state.apply_at(ShapingAction::IncreaseConcurrency, 0));
    assert!(state.apply_at(ShapingAction::CircuitBreak, 0));
    assert!(state.apply_at(ShapingAction::RateLimit(100), 20_000));
    assert_eq!(state.get_rate_limit(), 100);
    assert!(state.apply_at(ShapingAction::CircuitRecover, 20_001));
    assert_eq!(state.current_concurrency, 5);
    assert_eq!(state.get_rate_limit(), 0);
    let mut one = ShapingState::new(1);
    assert!(!one.apply_at(ShapingAction::ReduceConcurrency, 0));
    assert!(one.apply_at(ShapingAction::CircuitBreak, 0));
    assert!(one.apply_at(ShapingAction::CircuitRecover, 1));
    assert_eq!(one.current_concurrency, 1);
}
