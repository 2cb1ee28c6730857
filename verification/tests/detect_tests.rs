use kernel_sync::detect::DeadlockDetect;

#[test]
fn empty_detector_is_trivially_safe() {
    let mut d = DeadlockDetect::new();
    assert_eq!(d.threads_len(), 0);
    assert_eq!(d.resources_len(), 0);
    assert!(d.is_safe());
}

#[test]
fn dense_ids_grow_the_matrices() {
    let mut d = DeadlockDetect::new();
    d.push_thread_id(0);
    d.push_thread_id(1);
    d.push_resource_id(0, 1);
    d.push_resource_id(1, 3);
    assert_eq!(d.threads_len(), 2);
    assert_eq!(d.resources_len(), 2);
    assert!(d.is_safe());
}

#[test]
fn try_allocate_with_no_need_is_a_successful_noop() {
    let mut d = DeadlockDetect::new();
    d.push_thread_id(0);
    d.push_resource_id(0, 1);
    assert!(d.try_allocate(0, 0));
    assert!(d.is_safe());
}

#[test]
fn request_then_allocate_grants_a_free_unit() {
    let mut d = DeadlockDetect::new();
    d.push_thread_id(0);
    d.push_resource_id(0, 1);
    d.request_one(0, 0);
    assert!(d.try_allocate(0, 0));
}

#[test]
fn try_allocate_fails_when_no_unit_is_available() {
    let mut d = DeadlockDetect::new();
    d.push_thread_id(0);
    d.push_thread_id(1);
    d.push_resource_id(0, 1);
    d.request_one(0, 0);
    assert!(d.try_allocate(0, 0));
    d.request_one(1, 0);
    assert!(!d.try_allocate(1, 0));
}

#[test]
fn deallocate_returns_the_unit_to_the_pool() {
    let mut d = DeadlockDetect::new();
    d.push_thread_id(0);
    d.push_thread_id(1);
    d.push_resource_id(0, 1);
    d.request_one(0, 0);
    assert!(d.try_allocate(0, 0));
    d.deallocate_one(0, 0);
    d.request_one(1, 0);
    assert!(d.try_allocate(1, 0));
}

#[test]
fn deallocate_without_allocation_changes_nothing() {
    let mut d = DeadlockDetect::new();
    d.push_thread_id(0);
    d.push_resource_id(0, 2);
    d.deallocate_one(0, 0);
    d.request_one(0, 0);
    assert!(d.try_allocate(0, 0));
    d.request_one(0, 0);
    assert!(d.try_allocate(0, 0));
    // both units are now held; a third grant must fail
    d.request_one(0, 0);
    assert!(!d.try_allocate(0, 0));
}

#[test]
fn crossing_needs_are_reported_unsafe() {
    // Two threads, two single-unit resources; each holds one and requests
    // the other.
    let mut d = DeadlockDetect::new();
    d.push_thread_id(0);
    d.push_thread_id(1);
    d.push_resource_id(0, 1);
    d.push_resource_id(1, 1);
    d.request_one(0, 0);
    assert!(d.try_allocate(0, 0));
    d.request_one(1, 1);
    assert!(d.try_allocate(1, 1));
    d.request_one(0, 1);
    assert!(!d.try_allocate(0, 1));
    d.request_one(1, 0);
    assert!(!d.try_allocate(1, 0));
    assert!(!d.is_safe());
}

#[test]
fn safety_is_monotone_in_available_units() {
    // With two units of one resource and two threads each needing one,
    // the state is safe; the same needs with every unit already held by a
    // third party would not be. Freeing units never makes a safe state
    // unsafe.
    let mut d = DeadlockDetect::new();
    d.push_thread_id(0);
    d.push_thread_id(1);
    d.push_resource_id(0, 2);
    d.request_one(0, 0);
    d.request_one(1, 0);
    assert!(d.is_safe());
    assert!(d.try_allocate(0, 0));
    assert!(d.is_safe());
    // give the unit back: available grows, still safe
    d.deallocate_one(0, 0);
    assert!(d.is_safe());
}
