use pdf_ast::limits::{
    ConcurrencyGuard, PerformanceGuard, PerformanceLimits, ResourceBudget, ResourceBudgetError,
};

#[test]
fn test_performance_limits() {
    let limits = PerformanceLimits::conservative();
    let mut guard = PerformanceGuard::new(limits, "test");

    for _ in 0..100_000 {
        guard.increment_nodes().unwrap();
    }

    assert!(guard.increment_nodes().is_err());
}

#[test]
fn test_recursion_guard() {
    let limits = PerformanceLimits::conservative();
    let mut guard = PerformanceGuard::new(limits, "test");

    let rguard1 = guard
        .enter_recursion()
        .expect("Should be able to enter recursion");
    assert_eq!(rguard1.depth(), 1);
    drop(rguard1);

    let _rguard2 = guard
        .enter_recursion()
        .expect("Should be able to enter recursion again");
}

#[test]
fn test_concurrency_guard() {
    let limits = PerformanceLimits::conservative();
    let guard = ConcurrencyGuard::new(limits);

    let mut slots = Vec::new();
    for _ in 0..2 {
        slots.push(guard.acquire_parser_slot().unwrap());
    }

    assert!(guard.acquire_parser_slot().is_err());
}

#[test]
fn byte_limits_reject_partial_megabytes() {
    let limits = PerformanceLimits {
        max_file_size_mb: 1,
        max_object_size_mb: 1,
        ..Default::default()
    };
    let guard = PerformanceGuard::new(limits, "test");
    let one_mb = 1024 * 1024;

    assert!(guard.check_file_size(one_mb).is_ok());
    assert!(guard.check_file_size(one_mb + 1).is_err());
    assert!(guard.check_object_size(one_mb).is_ok());
    assert!(guard.check_object_size(one_mb + 1).is_err());
}

#[test]
fn rejected_memory_allocation_is_not_recorded() {
    let limits = PerformanceLimits {
        max_memory_mb: 1,
        ..Default::default()
    };
    let guard = PerformanceGuard::new(limits, "test");
    let one_mb = 1024 * 1024;

    guard.track_memory_allocation(one_mb).unwrap();
    assert!(guard.track_memory_allocation(1).is_err());
    assert_eq!(guard.get_stats().memory_usage_mb, 1);
}

#[test]
fn test_resource_budget_is_shared_and_cancelable() {
    let budget = ResourceBudget::new(4, 8, 8, 10, 1, 1, 1, 1);
    let clone = budget.clone();

    budget.consume_input(4).unwrap();
    assert!(clone.consume_input(1).is_err());

    clone.cancellation.cancel();
    assert_eq!(budget.check(), Err(ResourceBudgetError::Cancelled));
}

#[test]
fn resource_budget_does_not_overconsume_decoded_bytes() {
    let budget = ResourceBudget::new(100, 8, 8, 10, 1, 1, 1, 1);

    budget.consume_decoded(6).unwrap();
    assert_eq!(budget.remaining_decoded_bytes(), 2);
    assert_eq!(
        budget.consume_decoded(3),
        Err(ResourceBudgetError::DecodedBytes)
    );
    assert_eq!(budget.remaining_decoded_bytes(), 2);
}

#[test]
fn budget_error_names_the_exhausted_resource() {
    assert_eq!(
        ResourceBudgetError::DecodedBytes.to_string(),
        "resource budget exceeded: DecodedBytes"
    );
    assert_eq!(
        ResourceBudgetError::Objects.to_string(),
        "resource budget exceeded: Objects"
    );
}

#[test]
fn node_budget_refuses_after_its_limit() {
    let budget = ResourceBudget::new(10, 10, 10, 10, 10, 2, 10, 10);
    assert!(budget.consume_node().is_ok());
    assert!(budget.consume_node().is_ok());
    assert_eq!(budget.consume_node(), Err(ResourceBudgetError::Nodes));
}
