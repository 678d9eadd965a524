//! Observations of forwarded payments and the pure timelock model.
//!
//! The model turns the residual timelock of one observation into a
//! budget assessment: how many blocks of headroom remain, whether the
//! payment is plausibly near its destination, and how many further hops
//! the headroom could still pay for.

use vstd::prelude::*;

verus! {

/// Default final-hop timelock delta (blocks) that the heuristics assume.
pub const DEFAULT_FINAL_CLTV_DELTA: u32 = 40;

/// Minimum per-hop timelock delta, assumed for nodes with unknown settings.
pub const CLTV_EXPIRY_DELTA_MIN: u32 = 14;

/// Smallest random padding a sender may add to the final timelock.
pub const CLTV_RANDOM_OFFSET_MIN: u32 = 0;

/// Largest random padding a sender may add to the final timelock.
pub const CLTV_RANDOM_OFFSET_MAX: u32 = 3 * DEFAULT_FINAL_CLTV_DELTA;

/// Hard cap on the hop estimate, to bound the route search.
pub const MAX_HOP_ESTIMATE: usize = 5;

/// One payment unit seen in flight by a single relay node.
pub struct HTLC {
    pub payment_hash: String,
    pub cltv_expiry: u32,
    pub amount: u64,
    pub observed_at_block: u32,
    pub observed_by_node: String,
}

/// Timelock headroom left at observation time: `max(0, expiry - observed)`.
/// Saturates at zero; a stale expiry means an exhausted budget, not an error.
pub open spec fn spec_remaining_budget(expiry: u32, observed: u32) -> int {
    if expiry >= observed {
        expiry - observed
    } else {
        0
    }
}

/// The budget that is left once the assumed final-hop delta is paid.
pub open spec fn spec_estimated_final_delta(remaining: int) -> int {
    if remaining >= DEFAULT_FINAL_CLTV_DELTA {
        remaining - DEFAULT_FINAL_CLTV_DELTA
    } else {
        0
    }
}

/// Upper bound on the hops the remaining budget could still pay for,
/// assuming the cheapest possible per-hop delta, capped at `MAX_HOP_ESTIMATE`.
pub open spec fn spec_max_remaining_hops(remaining: int) -> int {
    let theoretical = spec_estimated_final_delta(remaining) / (CLTV_EXPIRY_DELTA_MIN as int);
    if theoretical <= MAX_HOP_ESTIMATE {
        theoretical
    } else {
        MAX_HOP_ESTIMATE as int
    }
}

/// Whether the remaining budget is small enough that the observed relay
/// could plausibly be close to the destination.
pub open spec fn spec_is_likely_near_destination(remaining: int) -> bool {
    remaining <= DEFAULT_FINAL_CLTV_DELTA + CLTV_RANDOM_OFFSET_MAX
}

/// Whether the budget past the assumed final delta is explicable as
/// random padding alone, i.e. the very next hop could be the recipient.
pub open spec fn spec_could_be_final_hop(remaining: int) -> bool {
    spec_estimated_final_delta(remaining) <= CLTV_RANDOM_OFFSET_MAX
}

impl HTLC {
    /// Remaining timelock budget of this observation.
    pub open spec fn spec_remaining(self) -> int {
        spec_remaining_budget(self.cltv_expiry, self.observed_at_block)
    }

    pub fn new(
        payment_hash: &str,
        cltv_expiry: u32,
        amount: u64,
        observed_at_block: u32,
        observed_by_node: &str,
    ) -> (r: HTLC)
        ensures
            r.payment_hash@ == payment_hash@,
            r.cltv_expiry == cltv_expiry,
            r.amount == amount,
            r.observed_at_block == observed_at_block,
            r.observed_by_node@ == observed_by_node@,
    {
        HTLC {
            payment_hash: payment_hash.to_owned(),
            cltv_expiry,
            amount,
            observed_at_block,
            observed_by_node: observed_by_node.to_owned(),
        }
    }

    /// Timelock headroom left for further hops; never underflows.
    pub fn remaining_cltv_budget(&self) -> (r: u32)
        ensures
            r == self.spec_remaining(),
    {
        self.cltv_expiry.saturating_sub(self.observed_at_block)
    }

    /// Whether the payment is plausibly close to its destination.
    pub fn is_likely_near_destination(&self) -> (r: bool)
        ensures
            r == spec_is_likely_near_destination(self.spec_remaining()),
    {
        let remaining_budget = self.remaining_cltv_budget();
        remaining_budget <= DEFAULT_FINAL_CLTV_DELTA + CLTV_RANDOM_OFFSET_MAX
    }

    /// Upper bound on the hops still ahead of this payment.
    pub fn max_remaining_hops(&self) -> (r: usize)
        ensures
            r == spec_max_remaining_hops(self.spec_remaining()),
            r <= MAX_HOP_ESTIMATE,
    {
        let budget = self.remaining_cltv_budget();
        let theoretical_max = (budget.saturating_sub(DEFAULT_FINAL_CLTV_DELTA)
            / CLTV_EXPIRY_DELTA_MIN) as usize;
        if theoretical_max <= MAX_HOP_ESTIMATE {
            theoretical_max
        } else {
            MAX_HOP_ESTIMATE
        }
    }

    /// The full budget assessment derived from this observation alone.
    pub fn timelock_analysis(&self) -> (r: TimelockAnalysis)
        ensures
            r == self.spec_analysis(),
    {
        let remaining_budget = self.remaining_cltv_budget();
        let final_delta_estimate = remaining_budget.saturating_sub(DEFAULT_FINAL_CLTV_DELTA);
        let could_be_final = final_delta_estimate <= CLTV_RANDOM_OFFSET_MAX;
        let max_hops = self.max_remaining_hops();

        TimelockAnalysis {
            remaining_cltv_budget: remaining_budget,
            estimated_final_delta: final_delta_estimate,
            could_be_final_hop: could_be_final,
            max_remaining_hops: max_hops,
        }
    }

    /// The assessment as a pure function of the observation.
    pub open spec fn spec_analysis(self) -> TimelockAnalysis {
        TimelockAnalysis {
            remaining_cltv_budget: self.spec_remaining() as u32,
            estimated_final_delta: spec_estimated_final_delta(self.spec_remaining()) as u32,
            could_be_final_hop: spec_could_be_final_hop(self.spec_remaining()),
            max_remaining_hops: spec_max_remaining_hops(self.spec_remaining()) as usize,
        }
    }
}

impl Clone for HTLC {
    fn clone(&self) -> (r: Self)
        ensures
            r == *self,
    {
        HTLC {
            payment_hash: self.payment_hash.clone(),
            cltv_expiry: self.cltv_expiry,
            amount: self.amount,
            observed_at_block: self.observed_at_block,
            observed_by_node: self.observed_by_node.clone(),
        }
    }
}

/// Derived, ephemeral budget assessment for one observation.
#[derive(Clone, Copy, PartialEq, Eq, Structural)]
pub struct TimelockAnalysis {
    pub remaining_cltv_budget: u32,
    pub estimated_final_delta: u32,
    pub could_be_final_hop: bool,
    pub max_remaining_hops: usize,
}

} // verus!
