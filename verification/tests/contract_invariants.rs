use ledgerlens_zk::invariants::{invariant_check, ContractState, Invariant};

fn healthy() -> ContractState {
    ContractState {
        min_confidence: 60,
        service_set_len: 3,
        service_threshold: 2,
        admin_set_len: 2,
        admin_threshold: 2,
        decay_denominator: 1000,
        query_fee: 0,
        accumulated_fees: 500,
    }
}

#[test]
fn invariants_hold_for_healthy_state() {
    assert_eq!(invariant_check(&healthy()), None);
    let mut empty_sets = healthy();
    empty_sets.service_set_len = 0;
    empty_sets.service_threshold = 7;
    empty_sets.admin_set_len = 0;
    empty_sets.admin_threshold = 9;
    assert_eq!(invariant_check(&empty_sets), None);
    let mut edge = healthy();
    edge.min_confidence = 100;
    assert_eq!(invariant_check(&edge), None);
}

#[test]
fn invariants_report_each_violation() {
    let mut s = healthy();
    s.min_confidence = 101;
    assert_eq!(invariant_check(&s), Some(Invariant::MinConfidence));
    let mut s = healthy();
    s.service_threshold = 4;
    assert_eq!(invariant_check(&s), Some(Invariant::ServiceThreshold));
    let mut s = healthy();
    s.admin_threshold = 3;
    assert_eq!(invariant_check(&s), Some(Invariant::AdminThreshold));
    let mut s = healthy();
    s.decay_denominator = 0;
    assert_eq!(invariant_check(&s), Some(Invariant::DecayDenominator));
    let mut s = healthy();
    s.query_fee = -1;
    assert_eq!(invariant_check(&s), Some(Invariant::QueryFee));
    let mut s = healthy();
    s.accumulated_fees = -5;
    assert_eq!(invariant_check(&s), Some(Invariant::AccumulatedFees));
}

#[test]
fn invariants_report_first_violation_in_order() {
    let mut s = healthy();
    s.min_confidence = 200;
    s.accumulated_fees = -1;
    assert_eq!(invariant_check(&s), Some(Invariant::MinConfidence));
}
