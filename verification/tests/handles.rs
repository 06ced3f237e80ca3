use pulsar_scenedb::entity::ComponentId;
use pulsar_scenedb::handle_ledger::{
    collect_fn_for, release_row, report_captured_swap, report_value_acquire,
    report_value_release, report_value_swap, HandleCounts, HandleId, HandleLedgerRegistration,
};

#[test]
fn zero_is_the_default_and_is_zero() {
    assert_eq!(HandleId::default(), HandleId::zero());
    assert!(HandleId::zero().is_zero());
    assert!(!HandleId(1).is_zero());
}

#[test]
fn handle_id_is_a_plain_pod_u128_shape() {
    assert_eq!(std::mem::size_of::<HandleId>(), 16);
    assert_eq!(std::mem::align_of::<HandleId>(), std::mem::align_of::<u128>());
    let extremes = [u128::MAX, u128::MIN, 0xDEAD_BEEF_CAFE_F00D];
    for v in extremes {
        let h = HandleId(v);
        let bytes = h.0.to_ne_bytes();
        let back = HandleId(u128::from_ne_bytes(bytes));
        assert_eq!(back, h);
    }
}

#[test]
fn acquire_then_release_returns_to_zero_and_drops_the_entry() {
    let mut counts = HandleCounts::default();
    counts.acquire(HandleId(7));
    counts.acquire(HandleId(7));
    assert_eq!(counts.get(HandleId(7)), 2);
    counts.release(HandleId(7));
    assert_eq!(counts.get(HandleId(7)), 1);
    counts.release(HandleId(7));
    assert_eq!(counts.get(HandleId(7)), 0);
    assert_eq!(counts.len(), 0, "zero count must not linger as a map entry");
}

#[test]
fn release_row_reports_duplicates_individually() {
    let mut counts = HandleCounts::default();
    counts.acquire(HandleId(7));
    counts.acquire(HandleId(7));
    counts.acquire(HandleId(9));
    release_row(&mut counts, &[HandleId(7), HandleId(7), HandleId(9)]);
    assert_eq!(counts.get(HandleId(7)), 0);
    assert_eq!(counts.get(HandleId(9)), 0);
}

#[test]
fn empty_release_row_is_a_no_op() {
    let mut counts = HandleCounts::default();
    release_row(&mut counts, &[]);
    assert_eq!(counts.len(), 0);
}

#[test]
fn releasing_what_nobody_holds_is_reported_once() {
    let mut counts = HandleCounts::default();
    assert!(counts.release(HandleId(3)), "the first time");
    assert!(!counts.release(HandleId(3)), "not again");
    assert_eq!(counts.get(HandleId(3)), 0);
}

#[test]
fn every_path_reports_an_underflow_once() {
    let mut counts = HandleCounts::default();
    report_value_release(&mut counts, &[HandleId(1), HandleId::zero(), HandleId(1)]);
    release_row(&mut counts, &[HandleId(2), HandleId(1)]);
    report_value_swap(&mut counts, &[HandleId(3)], &[HandleId(4)]);
    report_captured_swap(&mut counts, &[HandleId(5), HandleId(3)], &[HandleId(5), HandleId(4)]);
    assert_eq!(counts.get(HandleId(4)), 2);
    assert_eq!(counts.take_underflows(), vec![HandleId(1), HandleId(2), HandleId(3)]);
    assert!(!counts.release(HandleId(1)));
    assert!(counts.take_underflows().is_empty());
    assert!(counts.release(HandleId(6)));
    assert_eq!(counts.take_underflows(), vec![HandleId(6)]);
}

#[test]
fn acquire_and_release_of_a_value_pass_over_zero() {
    let mut counts = HandleCounts::default();
    let ids = [HandleId(5), HandleId::zero(), HandleId(5)];
    report_value_acquire(&mut counts, &ids);
    assert_eq!(counts.get(HandleId(5)), 2);
    assert_eq!(counts.get(HandleId::zero()), 0);
    report_value_release(&mut counts, &ids);
    assert_eq!(counts.len(), 0);
}

#[test]
fn a_released_row_passes_over_zero() {
    let mut counts = HandleCounts::default();
    report_value_acquire(&mut counts, &[HandleId(5), HandleId(5)]);
    release_row(&mut counts, &[HandleId::zero(), HandleId(5), HandleId::zero()]);
    assert_eq!(counts.get(HandleId(5)), 1);
    assert_eq!(counts.len(), 1);
    assert!(counts.take_underflows().is_empty());
}

#[test]
fn a_swap_moves_references_field_by_field() {
    let mut counts = HandleCounts::default();
    let before = [HandleId(1), HandleId(2), HandleId::zero()];
    let after = [HandleId(1), HandleId::zero(), HandleId(3)];
    report_value_acquire(&mut counts, &before);
    report_value_swap(&mut counts, &before, &after);
    assert_eq!(counts.get(HandleId(1)), 1);
    assert_eq!(counts.get(HandleId(2)), 0);
    assert_eq!(counts.get(HandleId(3)), 1);
    report_captured_swap(&mut counts, &after, &before);
    assert_eq!(counts.get(HandleId(1)), 1);
    assert_eq!(counts.get(HandleId(2)), 1);
    assert_eq!(counts.get(HandleId(3)), 0);
}

#[test]
fn collectors_are_found_by_component() {
    let register = |id, collect_from_value| HandleLedgerRegistration {
        component_id: ComponentId(id),
        collect_from_value,
    };
    let registrations = vec![register(1, "a"), register(2, "b"), register(1, "c")];
    assert_eq!(collect_fn_for(&registrations, ComponentId(1)), Some(&"c"));
    assert_eq!(collect_fn_for(&registrations, ComponentId(2)), Some(&"b"));
    assert_eq!(collect_fn_for(&registrations, ComponentId(3)), None);
}
