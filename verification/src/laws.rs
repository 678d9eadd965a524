//! General properties of the timelock model, the scorer, and the
//! correlation engine, stated and proved once for all inputs.

use vstd::prelude::*;
use crate::htlc::{
    HTLC, DEFAULT_FINAL_CLTV_DELTA, MAX_HOP_ESTIMATE, spec_remaining_budget,
    spec_estimated_final_delta, spec_max_remaining_hops, spec_could_be_final_hop,
    spec_is_likely_near_destination,
};
use crate::htlc::TimelockAnalysis;
use crate::network::LightningNetworkMap;
use crate::score::{spec_score, spec_score_bonus, spec_delta_diff};
use crate::analyzer::{spec_representative, spec_rep_idx};

verus! {

/// The remaining budget is `max(0, expiry - observed)` for every pair of
/// heights: it never underflows, and a stale expiry gives zero.
pub proof fn lemma_remaining_budget_saturates(expiry: u32, observed: u32)
    ensures
        spec_remaining_budget(expiry, observed) >= 0,
        expiry >= observed ==> spec_remaining_budget(expiry, observed) == expiry - observed,
        expiry < observed ==> spec_remaining_budget(expiry, observed) == 0,
{
}

/// The hop estimate never exceeds the cap, however large the budget.
pub proof fn lemma_max_hops_capped(remaining: int)
    ensures
        0 <= spec_max_remaining_hops(remaining) <= MAX_HOP_ESTIMATE,
{
    if remaining >= DEFAULT_FINAL_CLTV_DELTA {
        vstd::arithmetic::div_mod::lemma_div_pos_is_pos(
            spec_estimated_final_delta(remaining),
            crate::htlc::CLTV_EXPIRY_DELTA_MIN as int,
        );
    }
}

/// The hop estimate is monotonically non-decreasing in the remaining
/// budget.
pub proof fn lemma_max_hops_monotonic(remaining1: int, remaining2: int)
    requires
        remaining1 <= remaining2,
    ensures
        spec_max_remaining_hops(remaining1) <= spec_max_remaining_hops(remaining2),
{
    let d1 = spec_estimated_final_delta(remaining1);
    let d2 = spec_estimated_final_delta(remaining2);
    assert(d1 <= d2);
    if d1 >= 0 {
        vstd::arithmetic::div_mod::lemma_div_is_ordered(
            d1,
            d2,
            crate::htlc::CLTV_EXPIRY_DELTA_MIN as int,
        );
    }
    lemma_max_hops_capped(remaining1);
    lemma_max_hops_capped(remaining2);
    vstd::arithmetic::div_mod::lemma_div_pos_is_pos(d1, crate::htlc::CLTV_EXPIRY_DELTA_MIN as int);
}

/// An observation whose remaining budget is exactly the canonical
/// final-hop delta could already be at its final hop, and is judged
/// likely near its destination.
pub proof fn lemma_budget_at_final_delta_is_final(h: HTLC)
    requires
        h.spec_remaining() == DEFAULT_FINAL_CLTV_DELTA,
    ensures
        spec_could_be_final_hop(h.spec_remaining()),
        spec_is_likely_near_destination(h.spec_remaining()),
        h.spec_analysis().could_be_final_hop,
{
}

/// A route with a missing link scores exactly a tenth of an otherwise
/// identical, fully connected route: the same length, the same final-hop
/// and terminal-delta bonuses, one with every link present and one
/// without.  In particular the broken route scores at most 0.1 times the
/// connected one.
pub proof fn lemma_inconsistent_route_scores_tenth(
    g1: LightningNetworkMap,
    g2: LightningNetworkMap,
    analysis: TimelockAnalysis,
    r1: Seq<Seq<char>>,
    r2: Seq<Seq<char>>,
)
    requires
        r1.len() == r2.len(),
        1 <= r1.len() <= usize::MAX,
        !g1.spec_path_in_graph(r1),
        g2.spec_path_in_graph(r2),
        (g1.has_node(r1.last()) && spec_delta_diff(g1, r1.last()) <= 5) == (g2.has_node(
            r2.last(),
        ) && spec_delta_diff(g2, r2.last()) <= 5),
    ensures
        10 * spec_score_bonus(g1, analysis, r1) == spec_score_bonus(g2, analysis, r2),
        spec_score(g1, analysis, r1).spec_at_most_tenth_of(spec_score(g2, analysis, r2)),
{
    let b1 = spec_score_bonus(g1, analysis, r1);
    let b2 = spec_score_bonus(g2, analysis, r2);
    assert(10 * b1 == b2);
    let s1 = spec_score(g1, analysis, r1);
    let s2 = spec_score(g2, analysis, r2);
    let len = r1.len() as int;
    assert(s1.bonus_milli == b1 && s2.bonus_milli == b2);
    assert(s1.route_len == s2.route_len);
    assert(100 * (s1.bonus_milli as int) * (s1.bonus_milli as int) * (s2.route_len as int)
        <= (s2.bonus_milli as int) * (s2.bonus_milli as int) * (s1.route_len as int))
        by (nonlinear_arith)
        requires
            10 * (s1.bonus_milli as int) == s2.bonus_milli as int,
            s1.route_len == s2.route_len,
            s1.route_len as int >= 1,
    {
    }
}

/// Of two observations of one payment with differing expiry heights, the
/// correlation step selects the one with the strictly larger expiry as
/// the group's representative, whichever order they were logged in.
pub proof fn lemma_correlation_picks_larger_expiry(a: HTLC, b: HTLC)
    requires
        a.cltv_expiry < b.cltv_expiry,
    ensures
        spec_representative(seq![a, b]) == b,
        spec_representative(seq![b, a]) == b,
{
    let ab = seq![a, b];
    let ba = seq![b, a];
    assert(ab.drop_last() =~= seq![a]);
    assert(ba.drop_last() =~= seq![b]);
    assert(spec_rep_idx(seq![a]) == 0);
    assert(spec_rep_idx(seq![b]) == 0);
    assert(spec_rep_idx(ab) == 1);
    assert(spec_rep_idx(ba) == 0);
}

} // verus!
