//! The fraud decision for a scored transaction.
use vstd::prelude::*;

verus! {

/// Outcome of scoring: how many of the nearest references are fraudulent
/// and whether the transaction is approved. The fraud score is
/// `fraud_neighbors / 5`.
pub struct FraudDecision {
    pub fraud_neighbors: usize,
    pub approved: bool,
}

/// The decision for `fraud_neighbors` fraudulent references among the five
/// nearest: approved when the score `fraud_neighbors / 5` is below 0.6,
/// that is, when fewer than three neighbours are fraudulent.
pub fn decide(fraud_neighbors: usize) -> (d: FraudDecision)
    ensures
        d.fraud_neighbors == fraud_neighbors,
        d.approved == (fraud_neighbors < 3),
{
    FraudDecision { fraud_neighbors, approved: fraud_neighbors < 3 }
}

} // verus!
