use bifrost::revalidation::{RevalidationAction, RevalidationItem, RevalidationOutcome, RevalidationQueue};

#[test]
fn test_queue_add_and_select() {
    let mut queue = RevalidationQueue::new(3600, 10);
    queue.add("LSD".to_string());
    queue.add("MDMA".to_string());
    assert_eq!(queue.len(), 2);
    assert!(!queue.is_empty());
}

#[test]
fn test_outcome_handling() {
    let mut queue = RevalidationQueue::new(3600, 10);
    queue.add("LSD".to_string());
    let action = queue.handle_outcome("LSD", RevalidationOutcome::Success);
    assert_eq!(action, RevalidationAction::UpdateSnapshot);
    let item = queue.get_item("LSD").unwrap();
    assert_eq!(item.consecutive_failures, 0);
    assert!(item.last_success_ms.is_some());
}

#[test]
fn test_deletion_detection() {
    let mut queue = RevalidationQueue::new(3600, 10);
    queue.add("DeletedSubstance".to_string());
    queue.handle_outcome("DeletedSubstance", RevalidationOutcome::NotFound);
    queue.handle_outcome("DeletedSubstance", RevalidationOutcome::NotFound);
    let action = queue.handle_outcome("DeletedSubstance", RevalidationOutcome::NotFound);
    assert_eq!(action, RevalidationAction::RemoveFromSnapshot);
    assert!(queue.get_item("DeletedSubstance").is_none());
}

#[test]
fn deletion_protocol_counts_only_consecutive_not_founds() {
    let mut queue = RevalidationQueue::new(3600, 10);
    queue.add_at("Gone".to_string(), 0);
    let now: u64 = 1_000_000;
    assert_eq!(queue.handle_outcome_at("Gone", RevalidationOutcome::NotFound, now), RevalidationAction::NoChange);
    assert_eq!(queue.handle_outcome_at("Gone", RevalidationOutcome::NotFound, now), RevalidationAction::NoChange);
    assert_eq!(queue.get_item("Gone").unwrap().consecutive_not_found, 2);
    assert_eq!(queue.get_item("Gone").unwrap().next_refresh_at_ms, now + 300_000);
    assert_eq!(queue.handle_outcome_at("Gone", RevalidationOutcome::Success, now), RevalidationAction::UpdateSnapshot);
    let item = queue.get_item("Gone").unwrap();
    assert_eq!(item.consecutive_not_found, 0);
    assert_eq!(item.consecutive_failures, 0);
    assert!(item.next_refresh_at_ms >= now + 2_160_000 && item.next_refresh_at_ms < now + 3_240_000);
    assert_eq!(queue.handle_outcome_at("Gone", RevalidationOutcome::NotFound, now), RevalidationAction::NoChange);
    assert_eq!(queue.handle_outcome_at("Gone", RevalidationOutcome::NotFound, now), RevalidationAction::NoChange);
    assert_eq!(
        queue.handle_outcome_at("Gone", RevalidationOutcome::NotFound, now),
        RevalidationAction::RemoveFromSnapshot
    );
    assert!(queue.get_item("Gone").is_none());
    assert_eq!(queue.len(), 0);
}

#[test]
fn errors_escalate_retry_delay_and_do_not_count_as_not_found() {
    let mut queue = RevalidationQueue::new(3600, 10);
    queue.add_at("Flaky".to_string(), 0);
    let now: u64 = 5_000;
    queue.handle_outcome_at("Flaky", RevalidationOutcome::Error("timeout".to_string()), now);
    let item = queue.get_item("Flaky").unwrap();
    assert_eq!(item.consecutive_failures, 1);
    assert_eq!(item.consecutive_not_found, 0);
    assert!(item.next_refresh_at_ms >= now + 30_000 && item.next_refresh_at_ms < now + 60_000);
    queue.handle_outcome_at("Flaky", RevalidationOutcome::Error("timeout".to_string()), now);
    let item = queue.get_item("Flaky").unwrap();
    assert!(item.next_refresh_at_ms >= now + 60_000 && item.next_refresh_at_ms < now + 120_000);
    queue.handle_outcome_at("Flaky", RevalidationOutcome::Error("timeout".to_string()), now);
    let item = queue.get_item("Flaky").unwrap();
    assert_eq!(item.consecutive_failures, 3);
    assert!(item.next_refresh_at_ms >= now + 1_800_000 && item.next_refresh_at_ms < now + 3_600_000);
}

#[test]
fn unknown_names_change_nothing() {
    let mut queue = RevalidationQueue::new(3600, 10);
    assert_eq!(queue.handle_outcome("Nobody", RevalidationOutcome::Success), RevalidationAction::NoChange);
    assert_eq!(queue.len(), 0);
}

#[test]
fn add_is_idempotent_and_initial_delay_within_ttl() {
    let mut queue = RevalidationQueue::new(3600, 10);
    queue.add_at("LSD".to_string(), 1000);
    queue.add_at("LSD".to_string(), 1000);
    queue.add_many(vec!["LSD".to_string(), "MDMA".to_string(), "DMT".to_string()]);
    assert_eq!(queue.len(), 3);
    let item = queue.get_item("LSD").unwrap();
    assert!(item.next_refresh_at_ms >= 1000 && item.next_refresh_at_ms < 1000 + 3_600_000);
    let mut names = queue.all_names();
    names.sort();
    assert_eq!(names, vec!["DMT".to_string(), "LSD".to_string(), "MDMA".to_string()]);
}

#[test]
fn select_takes_only_due_items_up_to_max() {
    let mut queue = RevalidationQueue::new(3600, 10);
    for name in ["a", "b", "c", "d"] {
        queue.add_at(name.to_string(), 0);
    }
    let far: u64 = 10_000_000_000;
    assert_eq!(queue.due_count_at(far), 4);
    queue.expedite_at("a", 5);
    queue.expedite_at("b", 5);
    let now: u64 = 5;
    let due_now = queue.due_count_at(now);
    let batch = queue.select_next_batch_at(10, now);
    assert_eq!(batch.len(), due_now);
    assert!(batch.contains(&"a".to_string()) && batch.contains(&"b".to_string()));
    let batch = queue.select_next_batch_at(1, far);
    assert_eq!(batch.len(), 1);
    queue.stop_accepting();
    assert!(queue.select_next_batch_at(10, far).is_empty());
}

#[test]
fn permits_are_bounded_and_released() {
    let mut queue = RevalidationQueue::new(3600, 2);
    assert!(queue.acquire_permit());
    assert!(queue.acquire_permit());
    assert!(!queue.acquire_permit());
    assert_eq!(queue.in_flight_count(), 2);
    assert_eq!(queue.available_permits(), 0);
    queue.release_in_flight();
    assert_eq!(queue.available_permits(), 1);
    queue.stop_accepting();
    assert!(!queue.acquire_permit());
}

#[test]
fn stats_count_failing_and_not_found() {
    let mut queue = RevalidationQueue::new(3600, 10);
    queue.add_at("a".to_string(), 0);
    queue.add_at("b".to_string(), 0);
    queue.add_at("c".to_string(), 0);
    queue.handle_outcome_at("a", RevalidationOutcome::Error("x".to_string()), 0);
    queue.handle_outcome_at("b", RevalidationOutcome::NotFound, 0);
    queue.mark_attempt_start_at("c", 42);
    assert_eq!(queue.get_item("c").unwrap().last_attempt_ms, Some(42));
    let stats = queue.stats_at(0);
    assert_eq!(stats.total, 3);
    assert_eq!(stats.failing, 1);
    assert_eq!(stats.not_found, 1);
    assert_eq!(stats.in_flight, 0);
    queue.remove("c");
    assert_eq!(queue.len(), 2);
}

#[test]
fn fresh_item_has_no_history() {
    let item = RevalidationItem::new_at("X".to_string(), 500, 1000);
    assert_eq!(item.next_refresh_at_ms, 1500);
    assert_eq!(item.consecutive_failures, 0);
    assert!(item.last_attempt_ms.is_none() && item.last_success_ms.is_none());
}

#[test]
fn success_delay_is_sixty_to_ninety_percent_of_short_ttl() {
    for _ in 0..50 {
        let mut queue = RevalidationQueue::new(3, 10);
        queue.add_at("X".to_string(), 0);
        let now: u64 = 10_000;
        queue.handle_outcome_at("X", RevalidationOutcome::Success, now);
        let due = queue.get_item("X").unwrap().next_refresh_at_ms;
        assert!(due >= now + 1_800 && due < now + 2_700, "due {}", due);
    }
}
