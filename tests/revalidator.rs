use bifrost::revalidation::RevalidationOutcome;
use bifrost::revalidator::{cold_start_decision, ColdStartDecision, LoopStep, Revalidator, RevalidatorConfig};
use bifrost::snapshot::{Substance, SubstanceSnapshot};

fn named(name: &str) -> Substance {
    Substance { name: Some(name.to_string()), ..Default::default() }
}

fn revalidator_over(names: &[&str], now: u64) -> Revalidator {
    let snapshot = SubstanceSnapshot::build(names.iter().map(|n| named(n)).collect());
    let mut rev = Revalidator::new_at(snapshot, RevalidatorConfig::default(), now);
    rev.initialize_queue();
    rev
}

#[test]
fn steps_stop_pause_reconcile_and_idle() {
    let mut rev = revalidator_over(&["A"], 0);
    assert!(matches!(rev.next_step_at(true, 1), LoopStep::Stop));
    // At time 0 nothing queued from the current clock is due.
    match rev.next_step_at(false, 0) {
        LoopStep::Idle(ms) => assert_eq!(ms, 1000),
        other => panic!("unexpected step {:?}", other),
    }
    let six_hours: u64 = 21_600_000;
    assert!(matches!(rev.next_step_at(false, six_hours), LoopStep::Reconcile));
    assert!(!matches!(rev.next_step_at(false, six_hours), LoopStep::Reconcile));
    rev.shaping.state.circuit_broken = true;
    assert!(matches!(rev.next_step_at(false, six_hours + 1), LoopStep::Pause(5000)));
}

#[test]
fn due_names_run_with_permits_and_results_update_snapshot() {
    let mut rev = revalidator_over(&["A", "B"], 0);
    // Items were queued with delays of up to one TTL from the current time.
    let later: u64 = bifrost::clock::now_ms() + 86_400_000;
    assert!(matches!(rev.next_step_at(false, later), LoopStep::Reconcile));
    let names = match rev.next_step_at(false, later) {
        LoopStep::Run(names) => names,
        other => panic!("unexpected step {:?}", other),
    };
    assert_eq!(names.len(), 2);
    assert_eq!(rev.queue().in_flight_count(), 2);
    let mut fresh = named("A");
    fresh.summary = Some("new".to_string());
    let persist = rev.apply_result_at("A", RevalidationOutcome::Success, Some(fresh), 20, later);
    assert!(persist, "the first update persists");
    assert_eq!(rev.snapshot.get_by_name("a").unwrap().summary.as_deref(), Some("new"));
    let persist = rev.apply_result_at("B", RevalidationOutcome::Error("boom".to_string()), None, 20, later);
    assert!(!persist);
    assert_eq!(rev.queue().in_flight_count(), 0);
    assert_eq!(rev.queue().get_item("B").unwrap().consecutive_failures, 1);
}

#[test]
fn three_not_founds_remove_from_snapshot_and_persist() {
    let mut rev = revalidator_over(&["Gone", "Kept"], 0);
    assert!(!rev.apply_result_at("Gone", RevalidationOutcome::NotFound, None, 5, 10));
    assert!(!rev.apply_result_at("Gone", RevalidationOutcome::NotFound, None, 5, 11));
    assert!(rev.apply_result_at("Gone", RevalidationOutcome::NotFound, None, 5, 12));
    assert!(rev.snapshot.get_by_name("Gone").is_none());
    assert_eq!(rev.snapshot.substances.len(), 1);
    assert!(rev.queue().get_item("Gone").is_none());
}

#[test]
fn reconciliation_adds_new_names_and_expedites_missing() {
    let mut rev = revalidator_over(&["A", "B"], 0);
    let backend = vec!["A".to_string(), "C".to_string()];
    let (fresh, missing) = rev.reconcile_at(&backend, 1000);
    assert_eq!(fresh, vec!["C".to_string()]);
    assert_eq!(missing, vec!["B".to_string()]);
    assert_eq!(rev.queue().get_item("C").unwrap().next_refresh_at_ms, 1000);
    assert_eq!(rev.queue().get_item("B").unwrap().next_refresh_at_ms, 1000);
    // The new record arrives on its first successful revalidation.
    let mut c = named("C");
    c.summary = Some("payload".to_string());
    rev.apply_result_at("C", RevalidationOutcome::Success, Some(c), 5, 1001);
    let found = rev.snapshot.search("c");
    assert_eq!(found.len(), 1);
    assert_eq!(found[0].name.as_deref(), Some("C"));
    assert_eq!(found[0].summary.as_deref(), Some("payload"));
}

#[test]
fn cold_start_retries_with_backoff_then_fails() {
    assert_eq!(cold_start_decision(0, Some(12), 10, 5), ColdStartDecision::Accept);
    assert_eq!(cold_start_decision(0, Some(3), 10, 5), ColdStartDecision::Retry(1000));
    assert_eq!(cold_start_decision(2, None, 10, 5), ColdStartDecision::Retry(4000));
    assert_eq!(cold_start_decision(4, None, 10, 5), ColdStartDecision::Fail);
}
