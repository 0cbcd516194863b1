use arcstr::ArcStr;
use grafeo_compact::controller::OverlayAdmissionController;
use grafeo_compact::overlay_budget::{
    AdmissionOutcome, BudgetError, OverlayBudgetConfig, PressureLevel, RejectReason,
    RetainedCategory, RetryReason, WaitStep, CATEGORY_COUNT,
};
use grafeo_compact::overlay_cost::{
    deletion_entry_retained_bytes, edge_creation_retained_bytes, label_retained_bytes,
    node_creation_retained_bytes, property_retained_bytes, value_retained_bytes,
};
use grafeo_compact::value::Value;
use std::mem::size_of;

fn config(soft: u64, hard: u64) -> OverlayBudgetConfig {
    OverlayBudgetConfig { soft_limit_bytes: soft, hard_limit_bytes: hard, max_block_millis: 100 }
}

fn ctl(soft: u64, hard: u64) -> OverlayAdmissionController {
    OverlayAdmissionController::new(config(soft, hard)).expect("valid config")
}

#[test]
fn config_rejects_zero_hard_and_inverted_limits() {
    assert!(OverlayBudgetConfig {
        soft_limit_bytes: 10,
        hard_limit_bytes: 0,
        max_block_millis: 1,
    }
    .validate()
    .is_err());
    assert!(OverlayBudgetConfig {
        soft_limit_bytes: 20,
        hard_limit_bytes: 10,
        max_block_millis: 1,
    }
    .validate()
    .is_err());
    assert!(OverlayBudgetConfig::default().validate().is_ok());
}

#[test]
fn config_errors_name_the_limits() {
    assert_eq!(config(10, 0).validate(), Err(BudgetError::ZeroHardLimit));
    assert_eq!(
        config(20, 10).validate(),
        Err(BudgetError::SoftAboveHard { soft: 20, hard: 10 })
    );
    assert!(OverlayAdmissionController::new(config(1, 0)).is_err());
    let d = OverlayBudgetConfig::default();
    assert_eq!(d.soft_limit_bytes, 32 * 1024 * 1024);
    assert_eq!(d.hard_limit_bytes, 64 * 1024 * 1024);
    assert_eq!(d.max_block_millis, 5000);
    assert_eq!(OverlayBudgetConfig::for_tests().hard_limit_bytes, 8192);
}

#[test]
fn category_indexes_are_stable_and_distinct() {
    let mut seen = [false; CATEGORY_COUNT];
    for cat in RetainedCategory::all() {
        let idx = cat.index();
        assert!(idx < CATEGORY_COUNT);
        assert!(!seen[idx], "duplicate index {idx}");
        seen[idx] = true;
    }
    assert!(seen.iter().all(|&s| s), "every index must be covered");
}

#[test]
fn admits_below_soft_with_normal_pressure() {
    let mut c = ctl(100, 200);
    match c.try_reserve(RetainedCategory::MutationPayload, 50) {
        AdmissionOutcome::Admitted { pressure, requested_build } => {
            assert_eq!(pressure, PressureLevel::Normal);
            assert!(!requested_build);
        }
        other => panic!("expected admit, got {other:?}"),
    }
    assert_eq!(c.snapshot().total_bytes, 50);
}

#[test]
fn soft_crossing_edge_triggers_exactly_one_build_request() {
    let mut c = ctl(100, 1000);
    // First admit crossing soft: requests build.
    match c.try_reserve(RetainedCategory::MutationPayload, 120) {
        AdmissionOutcome::Admitted { pressure, requested_build } => {
            assert_eq!(pressure, PressureLevel::Soft);
            assert!(requested_build, "first crossing must request build");
        }
        other => panic!("expected admit, got {other:?}"),
    }
    // Second admit still soft but must NOT re-request.
    match c.try_reserve(RetainedCategory::MutationPayload, 10) {
        AdmissionOutcome::Admitted { pressure, requested_build } => {
            assert_eq!(pressure, PressureLevel::Soft);
            assert!(!requested_build, "only one coordinator requests");
        }
        other => panic!("expected admit, got {other:?}"),
    }
    assert!(c.snapshot().build_requested);
}

#[test]
fn hard_pressure_try_reserve_is_retryable() {
    let mut c = ctl(50, 100);
    assert!(matches!(
        c.try_reserve(RetainedCategory::WalBuffers, 90),
        AdmissionOutcome::Admitted { .. }
    ));
    // Now at 90/100; another 20 would exceed hard.
    match c.try_reserve(RetainedCategory::WalBuffers, 20) {
        AdmissionOutcome::Retryable { reason: RetryReason::HardPressure } => {}
        other => panic!("expected retryable hard pressure, got {other:?}"),
    }
}

#[test]
fn oversized_request_is_rejected_not_retryable() {
    let mut c = ctl(50, 100);
    match c.try_reserve(RetainedCategory::NextEpoch, 101) {
        AdmissionOutcome::Rejected { reason: RejectReason::Oversized } => {}
        other => panic!("expected oversized rejection, got {other:?}"),
    }
}

#[test]
fn release_rearms_build_request_below_soft() {
    let mut c = ctl(100, 1000);
    let _ = c.try_reserve(RetainedCategory::MutationPayload, 150);
    assert!(c.snapshot().build_requested);
    c.release(RetainedCategory::MutationPayload, 100); // now 50 < 100
    assert!(!c.snapshot().build_requested, "re-armed below soft");
    // Next upward crossing requests again.
    match c.try_reserve(RetainedCategory::MutationPayload, 60) {
        AdmissionOutcome::Admitted { requested_build, .. } => {
            assert!(requested_build, "re-request after re-arm")
        }
        other => panic!("expected admit, got {other:?}"),
    }
}

#[test]
fn release_underflow_counts_accounting_error_and_saturates() {
    let mut c = ctl(100, 200);
    c.release(RetainedCategory::DirtySets, 10); // nothing reserved
    let snap = c.snapshot();
    assert_eq!(snap.accounting_errors, 1);
    assert_eq!(snap.total_bytes, 0);
}

#[test]
fn shutdown_rejects_new_and_blocked_writers() {
    let mut c = ctl(50, 100);
    let _ = c.try_reserve(RetainedCategory::MutationPayload, 100);
    let ticket = c.register_waiter(RetainedCategory::MutationPayload, 50).expect("waits");
    assert_eq!(c.request_shutdown(), vec![ticket]);
    let step = c.poll_waiter(ticket, RetainedCategory::MutationPayload, 50);
    assert_eq!(
        step,
        WaitStep::Done {
            outcome: AdmissionOutcome::Rejected { reason: RejectReason::Shutdown },
            wake: None,
        }
    );
    // Subsequent reserve also rejected.
    assert!(matches!(
        c.register_waiter(RetainedCategory::MutationPayload, 1),
        Err(AdmissionOutcome::Rejected { reason: RejectReason::Shutdown })
    ));
}

#[test]
fn blocked_writer_admitted_fifo_after_release() {
    let mut c = ctl(50, 100);
    let _ = c.try_reserve(RetainedCategory::MutationPayload, 100); // fill to hard
    let ticket = c.register_waiter(RetainedCategory::MutationPayload, 40).expect("waits");
    assert_eq!(c.snapshot().blocked_writers, 1);
    assert_eq!(c.release(RetainedCategory::MutationPayload, 60), Some(ticket)); // room for 40 now
    let step = c.poll_waiter(ticket, RetainedCategory::MutationPayload, 40);
    assert!(matches!(
        step,
        WaitStep::Done { outcome: AdmissionOutcome::Admitted { .. }, wake: None }
    ));
    assert_eq!(c.snapshot().total_bytes, 80);
}

#[test]
fn blocked_writer_times_out_retryably() {
    let mut c = ctl(50, 100);
    let _ = c.try_reserve(RetainedCategory::MutationPayload, 100);
    let ticket = c.register_waiter(RetainedCategory::MutationPayload, 50).expect("waits");
    let (outcome, wake) = c.abandon_wait(ticket, true);
    assert!(matches!(outcome, AdmissionOutcome::Retryable { reason: RetryReason::Timeout }));
    assert_eq!(wake, None);
    assert_eq!(c.snapshot().timed_out_count, 1);
}

#[test]
fn writers_are_served_in_arrival_order() {
    let cat = RetainedCategory::QueuedWork;
    let mut c = ctl(50, 100);
    let _ = c.try_reserve(cat, 100);
    let first = c.register_waiter(cat, 60).expect("waits");
    let second = c.register_waiter(cat, 10).expect("waits");
    assert_eq!(c.waiting(), vec![first, second]);
    assert_eq!(c.release(cat, 30), Some(first));
    // There is room for the second writer, but the first has waited longer.
    assert_eq!(c.poll_waiter(second, cat, 10), WaitStep::Wait);
    assert_eq!(c.poll_waiter(first, cat, 60), WaitStep::Wait);
    c.release(cat, 40);
    match c.poll_waiter(first, cat, 60) {
        WaitStep::Done { outcome: AdmissionOutcome::Admitted { .. }, wake } => {
            assert_eq!(wake, Some(second));
        }
        other => panic!("expected admission, got {other:?}"),
    }
    assert_eq!(c.front_waiter(), Some(second));
}

#[test]
fn cancellation_refuses_everything() {
    let mut c = ctl(50, 100);
    assert!(c.cancel().is_empty());
    assert_eq!(
        c.try_reserve(RetainedCategory::DirtySets, 1),
        AdmissionOutcome::Rejected { reason: RejectReason::Cancelled }
    );
    assert_eq!(c.snapshot().rejected_count, 1);
}

#[test]
fn a_transfer_keeps_the_total() {
    let mut c = ctl(50, 100);
    let _ = c.try_reserve(RetainedCategory::NextEpoch, 70);
    c.transfer_retained(RetainedCategory::NextEpoch, RetainedCategory::MutationPayload, 30);
    let s = c.snapshot();
    assert_eq!(s.total_bytes, 70);
    assert_eq!(s.categories[RetainedCategory::NextEpoch.index()].current_bytes, 40);
    assert_eq!(s.categories[RetainedCategory::MutationPayload.index()].current_bytes, 30);
    assert!(s.build_requested);
    c.transfer_retained(RetainedCategory::NextEpoch, RetainedCategory::MutationPayload, 41);
    let s = c.snapshot();
    assert_eq!(s.accounting_errors, 1);
    assert_eq!(s.total_bytes, 70);
    assert_eq!(s.categories[RetainedCategory::MutationPayload.index()].high_water_bytes, 70);
}

#[test]
fn draining_leaves_nothing() {
    let mut c = ctl(50, 100);
    for cat in RetainedCategory::all() {
        let _ = c.try_reserve(cat, 10);
    }
    assert_eq!(c.snapshot().pressure, PressureLevel::Soft);
    c.set_active_epoch(9);
    assert_eq!(c.drain_all_retained(), None);
    let s = c.snapshot();
    assert_eq!(s.total_bytes, 0);
    assert_eq!(s.total_high_water_bytes, 60);
    assert!(s.categories.iter().all(|x| x.current_bytes == 0));
    assert!(!s.build_requested);
    assert_eq!(s.accounting_errors, 0);
    assert_eq!(s.active_epoch, 9);
    assert_eq!(s.admitted_count, 6);
}

#[test]
fn the_hard_limit_is_reached_but_never_passed() {
    let mut c = ctl(10, 100);
    for _ in 0..40 {
        let _ = c.try_reserve(RetainedCategory::MutationPayload, 7);
    }
    assert_eq!(c.snapshot().total_bytes, 98);
    let _ = c.try_reserve(RetainedCategory::MutationPayload, 2);
    assert_eq!(c.pressure(), PressureLevel::Hard);
    c.complete_generation_build();
    assert!(c.snapshot().build_requested);
}

#[test]
fn scalar_values_charge_at_least_their_size() {
    assert!(value_retained_bytes(&Value::Int64(1)) >= size_of::<Value>());
    assert!(value_retained_bytes(&Value::Bool(true)) >= size_of::<Value>());
}

#[test]
fn string_value_charges_payload() {
    let v = Value::String("hello world".to_string());
    assert!(value_retained_bytes(&v) >= size_of::<Value>() + 11);
}

#[test]
fn vector_value_charges_floats() {
    let v = Value::Vector(vec![0.0f32.to_bits(); 384]);
    assert!(value_retained_bytes(&v) >= size_of::<Value>() + 384 * size_of::<f32>());
}

#[test]
fn nested_list_recurses() {
    let inner = Value::String("abcdef".to_string());
    let v = Value::List(vec![inner, Value::Int64(7)]);
    let bytes = value_retained_bytes(&v);
    assert!(bytes >= size_of::<Value>() * 2 + 6);
}

#[test]
fn node_and_edge_creation_are_nonzero_and_monotonic() {
    let small = node_creation_retained_bytes(&["A"]);
    let big = node_creation_retained_bytes(&["A", "VeryLongLabelName"]);
    assert!(big > small);
    assert!(edge_creation_retained_bytes("KNOWS") > 0);
}

#[test]
fn property_cost_grows_with_key_and_value() {
    let k = "documentation_json";
    let small = property_retained_bytes(k, &Value::Int64(1));
    let big = property_retained_bytes(k, &Value::String("x".repeat(4096)));
    assert!(big > small);
}

#[test]
fn costs_are_exact() {
    let slot = size_of::<Value>();
    assert_eq!(node_creation_retained_bytes(&["AB", "C"]), 64 + 3 + 16);
    assert_eq!(edge_creation_retained_bytes("KNOWS"), 80 + 5 + 16);
    assert_eq!(deletion_entry_retained_bytes(), 16);
    assert_eq!(property_retained_bytes("k", &Value::Null), 48 + 1 + slot);
    assert_eq!(value_retained_bytes(&Value::Date(3)), slot + 32);
    assert_eq!(value_retained_bytes(&Value::Blob(vec![1, 2])), slot + 2);
    let counter = Value::OnCounter {
        pos: vec![("r1".to_string(), 4)],
        neg: vec![("r22".to_string(), 1)],
    };
    assert_eq!(value_retained_bytes(&counter), slot + 10 + 11);
    let object = Value::Object(vec![("key".to_string(), Value::Bool(true))]);
    assert_eq!(value_retained_bytes(&object), 2 * slot + 3);
    let path = Value::Path { nodes: vec![Value::Null], edges: vec![Value::Null] };
    assert_eq!(value_retained_bytes(&path), 3 * slot);
}

#[test]
fn a_shared_label_costs_its_bytes() {
    assert_eq!(label_retained_bytes(&ArcStr::from("Stra\u{df}e")), 7);
    assert_eq!(label_retained_bytes(&ArcStr::new()), 0);
}

#[test]
fn a_timed_out_wait_is_one_retryable_rejection() {
    let mut c = ctl(50, 100);
    let cat = RetainedCategory::MutationPayload;
    let _ = c.try_reserve(cat, 100);
    let ticket = c.register_waiter(cat, 50).expect("waits");
    assert_eq!(c.snapshot().retryable_count, 0);
    assert_eq!(c.poll_waiter(ticket, cat, 50), WaitStep::Wait);
    assert_eq!(c.snapshot().retryable_count, 0);
    let (outcome, _) = c.abandon_wait(ticket, true);
    assert_eq!(outcome, AdmissionOutcome::Retryable { reason: RetryReason::Timeout });
    let snap = c.snapshot();
    assert_eq!(snap.timed_out_count, 1);
    assert_eq!(snap.retryable_count, 1);
    assert_eq!(snap.blocked_writers, 0);
    assert_eq!(snap.total_bytes, 100);
    let _ = c.try_reserve(cat, 50);
    assert_eq!(c.snapshot().retryable_count, 2);
}

#[test]
fn releasing_what_a_category_never_held_keeps_the_total() {
    let mut c = ctl(100, 200);
    let _ = c.try_reserve(RetainedCategory::MutationPayload, 50);
    c.release(RetainedCategory::DirtySets, 10);
    let snap = c.snapshot();
    assert_eq!(snap.accounting_errors, 1);
    assert_eq!(snap.categories[RetainedCategory::DirtySets.index()].current_bytes, 0);
    assert_eq!(snap.categories[RetainedCategory::MutationPayload.index()].current_bytes, 50);
    assert_eq!(snap.total_bytes, 50);
    c.release(RetainedCategory::MutationPayload, 70);
    assert_eq!(c.snapshot().accounting_errors, 2);
    assert_eq!(c.snapshot().total_bytes, 0);
}
