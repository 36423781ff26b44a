//! The contract-level invariants checked after a state mutation, as a
//! decision on the stored values: the first invariant that the values
//! break, if any.
use vstd::prelude::*;

verus! {

/// The six contract-level invariants, in the order they are checked.
#[derive(Clone, Copy, Debug, PartialEq, Eq)]
pub enum Invariant {
    /// The global minimum confidence is at most 100.
    MinConfidence,
    /// A non-empty service signer set has a threshold no larger than itself.
    ServiceThreshold,
    /// A non-empty admin set has a threshold no larger than itself.
    AdminThreshold,
    /// The decay rate denominator is not zero.
    DecayDenominator,
    /// The fee charged per query is not negative.
    QueryFee,
    /// The accumulated fees are not negative.
    AccumulatedFees,
}

/// The stored values that the invariants speak of.
#[derive(Clone, Copy, Debug, PartialEq, Eq)]
pub struct ContractState {
    pub min_confidence: u32,
    pub service_set_len: u32,
    pub service_threshold: u32,
    pub admin_set_len: u32,
    pub admin_threshold: u32,
    pub decay_denominator: i128,
    pub query_fee: i128,
    pub accumulated_fees: i128,
}

/// The first invariant that the state breaks, in the order of the checks.
pub open spec fn first_violation_spec(s: ContractState) -> Option<Invariant> {
    if s.min_confidence > 100 {
        Some(Invariant::MinConfidence)
    } else if s.service_set_len > 0 && s.service_threshold > s.service_set_len {
        Some(Invariant::ServiceThreshold)
    } else if s.admin_set_len > 0 && s.admin_threshold > s.admin_set_len {
        Some(Invariant::AdminThreshold)
    } else if s.decay_denominator <= 0 {
        Some(Invariant::DecayDenominator)
    } else if s.query_fee < 0 {
        Some(Invariant::QueryFee)
    } else if s.accumulated_fees < 0 {
        Some(Invariant::AccumulatedFees)
    } else {
        None
    }
}

/// Checks the invariants in order and reports the first one broken;
/// `None` when all six hold.
pub fn invariant_check(s: &ContractState) -> (r: Option<Invariant>)
    ensures
        r == first_violation_spec(*s),
{
    if s.min_confidence > 100 {
        return Some(Invariant::MinConfidence);
    }
    if s.service_set_len > 0 && s.service_threshold > s.service_set_len {
        return Some(Invariant::ServiceThreshold);
    }
    if s.admin_set_len > 0 && s.admin_threshold > s.admin_set_len {
        return Some(Invariant::AdminThreshold);
    }
    if s.decay_denominator <= 0 {
        return Some(Invariant::DecayDenominator);
    }
    if s.query_fee < 0 {
        return Some(Invariant::QueryFee);
    }
    if s.accumulated_fees < 0 {
        return Some(Invariant::AccumulatedFees);
    }
    None
}


/// What the check reports, in terms of the six invariants as the contract
/// states them: the global minimum confidence is at most 100, each non-empty
/// signer set (service, then admin) has a threshold no larger than its size,
/// the decay denominator is positive, and the query fee and the accumulated
/// fees are not negative. The check reports nothing exactly when all six
/// hold; it reports an invariant only when that one fails and every one
/// checked before it holds.
pub proof fn lemma_invariant_check_meaning(s: ContractState)
    ensures
        first_violation_spec(s) is None <==> (s.min_confidence <= 100 && (s.service_set_len == 0
            || s.service_threshold <= s.service_set_len) && (s.admin_set_len == 0 || s.admin_threshold
            <= s.admin_set_len) && s.decay_denominator > 0 && s.query_fee >= 0 && s.accumulated_fees >= 0),
        first_violation_spec(s) == Some(Invariant::MinConfidence) <==> s.min_confidence > 100,
        first_violation_spec(s) == Some(Invariant::ServiceThreshold) ==> s.min_confidence <= 100
            && s.service_set_len > 0 && s.service_threshold > s.service_set_len,
        first_violation_spec(s) == Some(Invariant::AdminThreshold) ==> s.min_confidence <= 100 && (
        s.service_set_len == 0 || s.service_threshold <= s.service_set_len) && s.admin_set_len > 0
            && s.admin_threshold > s.admin_set_len,
        first_violation_spec(s) == Some(Invariant::DecayDenominator) ==> s.decay_denominator <= 0,
        first_violation_spec(s) == Some(Invariant::QueryFee) ==> s.decay_denominator > 0 && s.query_fee
            < 0,
        first_violation_spec(s) == Some(Invariant::AccumulatedFees) ==> s.decay_denominator > 0
            && s.query_fee >= 0 && s.accumulated_fees < 0,
{
}

} // verus!
