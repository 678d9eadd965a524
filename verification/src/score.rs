//! Route confidence scoring.
//!
//! A score's real value is `bonus / (1000 * sqrt(route_len))`, built by
//! multiplicative adjustments from a base of one: a length penalty of
//! `route_len^-1/2`, a 1.5x bonus for a short route that could already be
//! at its final hop, a 1.3x bonus for a terminal node with a standard
//! final delta, and a 0.1x penalty for a route with a missing link.  The
//! value is kept exactly, as the integer pair `(bonus_milli, route_len)`
//! with `bonus_milli` a thousand times the accumulated bonus, so that
//! comparisons are exact integer arithmetic instead of rounded floating
//! point.  Scores are comparable only within one analysis call.

use vstd::prelude::*;
use crate::htlc::TimelockAnalysis;
use crate::htlc::DEFAULT_FINAL_CLTV_DELTA;
use crate::network::LightningNetworkMap;

verus! {

/// Exact confidence score: the value `bonus_milli / (1000 * sqrt(route_len))`.
#[derive(Clone, Copy, PartialEq, Eq, Structural, Debug)]
pub struct ConfidenceScore {
    pub bonus_milli: u32,
    pub route_len: usize,
}

impl ConfidenceScore {
    /// Every score the scorer produces: the bonus lies between the
    /// smallest and the largest of the eight products of the three
    /// adjustment factors, and a route has at least one node.
    pub open spec fn wf(self) -> bool {
        &&& 100 <= self.bonus_milli <= 1950
        &&& 1 <= self.route_len
    }

    /// `self >= other` as real values.  Squaring both sides turns
    /// `a / sqrt(la) >= b / sqrt(lb)` into exact integer arithmetic.
    pub open spec fn spec_ge(self, other: ConfidenceScore) -> bool {
        (self.bonus_milli as int) * (self.bonus_milli as int) * (other.route_len as int)
            >= (other.bonus_milli as int) * (other.bonus_milli as int) * (self.route_len as int)
    }

    /// The score's value exceeds one half: `4 * bonus^2 > 10^6 * len`.
    pub open spec fn spec_exceeds_half(self) -> bool {
        4 * (self.bonus_milli as int) * (self.bonus_milli as int)
            > 1000000 * (self.route_len as int)
    }

    /// `self` is at most a tenth of `other`, as real values:
    /// `100 * a^2 * lb <= b^2 * la`.
    pub open spec fn spec_at_most_tenth_of(self, other: ConfidenceScore) -> bool {
        100 * (self.bonus_milli as int) * (self.bonus_milli as int) * (other.route_len as int)
            <= (other.bonus_milli as int) * (other.bonus_milli as int) * (self.route_len as int)
    }

    /// Compare two scores of one analysis call.
    pub fn ge(&self, other: &ConfidenceScore) -> (r: bool)
        requires
            self.wf(),
            other.wf(),
        ensures
            r == self.spec_ge(*other),
    {
        proof {
            lemma_score_product_bound(*self, *other);
            lemma_score_product_bound(*other, *self);
        }
        let a = (self.bonus_milli as u128) * (self.bonus_milli as u128)
            * (other.route_len as u128);
        let b = (other.bonus_milli as u128) * (other.bonus_milli as u128)
            * (self.route_len as u128);
        a >= b
    }

    /// Whether the score's value exceeds one half.
    pub fn exceeds_half(&self) -> (r: bool)
        requires
            self.wf(),
        ensures
            r == self.spec_exceeds_half(),
    {
        proof {
            vstd::arithmetic::mul::lemma_mul_upper_bound(
                4 * (self.bonus_milli as int),
                7800,
                self.bonus_milli as int,
                1950,
            );
            vstd::arithmetic::mul::lemma_mul_nonnegative(
                4 * (self.bonus_milli as int),
                self.bonus_milli as int,
            );
        }
        let a = 4u128 * (self.bonus_milli as u128) * (self.bonus_milli as u128);
        let b = 1000000u128 * (self.route_len as u128);
        a > b
    }
}

/// The squared-score cross product of two well-formed scores fits `u128`.
proof fn lemma_score_product_bound(a: ConfidenceScore, b: ConfidenceScore)
    requires
        a.wf(),
        b.wf(),
    ensures
        0 <= (a.bonus_milli as int) * (a.bonus_milli as int) <= 3802500,
        0 <= (a.bonus_milli as int) * (a.bonus_milli as int) * (b.route_len as int)
            <= 3802500 * (usize::MAX as int),
{
    vstd::arithmetic::mul::lemma_mul_nonnegative(a.bonus_milli as int, a.bonus_milli as int);
    vstd::arithmetic::mul::lemma_mul_upper_bound(
        a.bonus_milli as int,
        1950,
        a.bonus_milli as int,
        1950,
    );
    vstd::arithmetic::mul::lemma_mul_upper_bound(
        (a.bonus_milli as int) * (a.bonus_milli as int),
        3802500,
        b.route_len as int,
        usize::MAX as int,
    );
    vstd::arithmetic::mul::lemma_mul_nonnegative(
        (a.bonus_milli as int) * (a.bonus_milli as int),
        b.route_len as int,
    );
}

/// The order `spec_ge` is total: of two scores, one is at least the other.
pub proof fn lemma_score_ge_total(a: ConfidenceScore, b: ConfidenceScore)
    ensures
        a.spec_ge(b) || b.spec_ge(a),
{
}

/// The order `spec_ge` is transitive on well-formed scores.
pub proof fn lemma_score_ge_trans(a: ConfidenceScore, b: ConfidenceScore, c: ConfidenceScore)
    requires
        a.wf(),
        b.wf(),
        c.wf(),
        a.spec_ge(b),
        b.spec_ge(c),
    ensures
        a.spec_ge(c),
{
    let a2 = (a.bonus_milli as int) * (a.bonus_milli as int);
    let b2 = (b.bonus_milli as int) * (b.bonus_milli as int);
    let c2 = (c.bonus_milli as int) * (c.bonus_milli as int);
    let la = a.route_len as int;
    let lb = b.route_len as int;
    let lc = c.route_len as int;
    assert(a2 * lb >= b2 * la);
    assert(b2 * lc >= c2 * lb);
    assert(a2 * lc >= c2 * la) by (nonlinear_arith)
        requires
            a2 * lb >= b2 * la,
            b2 * lc >= c2 * lb,
            la >= 1,
            lb >= 1,
            lc >= 1,
            a2 >= 0,
            b2 >= 0,
            c2 >= 0,
    {
    }
}

/// The accumulated bonus of a route, a thousand times the product of
/// the applicable adjustment factors.
pub open spec fn spec_score_bonus(
    g: LightningNetworkMap,
    analysis: TimelockAnalysis,
    route: Seq<Seq<char>>,
) -> int {
    let base: int = 1000;
    let with_final = if analysis.could_be_final_hop && route.len() <= 2 {
        base * 3 / 2
    } else {
        base
    };
    let with_terminal = if route.len() >= 1 && g.has_node(route.last())
        && spec_delta_diff(g, route.last()) <= 5 {
        with_final * 13 / 10
    } else {
        with_final
    };
    if g.spec_path_in_graph(route) {
        with_terminal
    } else {
        with_terminal / 10
    }
}

/// Absolute difference between a known node's configured delta and the
/// canonical final-hop delta.
pub open spec fn spec_delta_diff(g: LightningNetworkMap, id: Seq<char>) -> int {
    let d = g.spec_node(id).cltv_expiry_delta as int;
    if d >= DEFAULT_FINAL_CLTV_DELTA as int {
        d - DEFAULT_FINAL_CLTV_DELTA as int
    } else {
        DEFAULT_FINAL_CLTV_DELTA as int - d
    }
}

/// The exact score of a route under a given assessment.
pub open spec fn spec_score(
    g: LightningNetworkMap,
    analysis: TimelockAnalysis,
    route: Seq<Seq<char>>,
) -> ConfidenceScore {
    ConfidenceScore {
        bonus_milli: spec_score_bonus(g, analysis, route) as u32,
        route_len: route.len() as usize,
    }
}

/// Every score of a real route is well formed.
pub proof fn lemma_spec_score_wf(
    g: LightningNetworkMap,
    analysis: TimelockAnalysis,
    route: Seq<Seq<char>>,
)
    requires
        1 <= route.len() <= usize::MAX,
    ensures
        spec_score(g, analysis, route).wf(),
{
}

/// Score one candidate route.  Pure: it reads only the immutable graph,
/// so independent routes may be scored concurrently.
pub fn calculate_confidence_score(
    route: &Vec<String>,
    analysis: &TimelockAnalysis,
    network: &LightningNetworkMap,
) -> (r: ConfidenceScore)
    requires
        network.wf(),
        route@.len() >= 1,
    ensures
        r == spec_score(*network, *analysis, route.deep_view()),
        r.wf(),
{
    let len = route.len();
    let mut bonus: u32 = 1000;
    if analysis.could_be_final_hop && len <= 2 {
        bonus = 1500;
    }
    let last = &route[len - 1];
    proof {
        assert(last@ == route.deep_view().last());
    }
    match network.get_node(last) {
        Some(node) => {
            let d = node.cltv_expiry_delta;
            let diff = if d >= DEFAULT_FINAL_CLTV_DELTA {
                d - DEFAULT_FINAL_CLTV_DELTA
            } else {
                DEFAULT_FINAL_CLTV_DELTA - d
            };
            if diff <= 5 {
                bonus = bonus * 13 / 10;
            }
        },
        None => {},
    }
    let mut consistent = true;
    let ghost rv = route.deep_view();
    let mut i: usize = 0;
    while i < len - 1 && consistent
        invariant
            network.wf(),
            len == route@.len(),
            len >= 1,
            i <= len - 1,
            rv == route.deep_view(),
            consistent ==> forall|k: int|
                #![trigger network.neighbors_of(rv[k])]
                0 <= k < i ==> network.neighbors_of(rv[k]).contains(rv[k + 1]),
            !consistent ==> !network.spec_path_in_graph(rv),
        decreases len - i, (if consistent { 1int } else { 0int }),
    {
        let from = &route[i];
        let to = &route[i + 1];
        let step_ok: bool;
        match network.get_neighbors(from.as_str()) {
            Some(neighbors) => {
                let c = crate::network::vec_contains_string(neighbors, to);
                proof {
                    assert(neighbors.deep_view()
                        =~= neighbors@.map_values(|s: String| s@));
                }
                step_ok = c;
            },
            None => {
                step_ok = false;
            },
        }
        proof {
            assert(step_ok == network.neighbors_of(rv[i as int]).contains(rv[i + 1]));
        }
        if !step_ok {
            consistent = false;
            proof {
                assert(!network.neighbors_of(rv[i as int]).contains(rv[i + 1]));
            }
        } else {
            i = i + 1;
        }
    }
    proof {
        if consistent {
            assert(i == len - 1);
            assert forall|k: int|
                #![trigger network.neighbors_of(rv[k])]
                0 <= k && k + 1 < rv.len() implies
                network.neighbors_of(rv[k]).contains(rv[k + 1]) by {}
            assert(network.spec_path_in_graph(rv));
        }
    }
    if !consistent {
        bonus = bonus / 10;
    }
    ConfidenceScore { bonus_milli: bonus, route_len: len }
}

} // verus!
