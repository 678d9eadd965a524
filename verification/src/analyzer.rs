//! Per-observation analysis: enumerate the candidate routes consistent
//! with an observation's timelock budget, score them, and rank the
//! hypothesized recipients.

use vstd::prelude::*;
use crate::htlc::{HTLC, TimelockAnalysis};
use crate::network::LightningNetworkMap;
use crate::score::{ConfidenceScore, calculate_confidence_score, spec_score};
use rayon::iter::IntoParallelRefIterator;
use rayon::iter::ParallelIterator;

verus! {

/// One hypothesized recipient: the terminal node of a candidate route,
/// its alias when known, the route itself, and its confidence score.
pub struct PotentialRecipient {
    pub node_id: String,
    pub node_alias: Option<String>,
    pub route: Vec<String>,
    pub confidence_score: ConfidenceScore,
}

/// What one ranked candidate must be for its route: the route's terminal
/// node (which the graph knows), that node's alias, the route, and the
/// route's exact score.
pub open spec fn spec_candidate_ok(
    g: LightningNetworkMap,
    analysis: TimelockAnalysis,
    route: Seq<Seq<char>>,
    rec: PotentialRecipient,
) -> bool {
    &&& route.len() >= 1
    &&& g.has_node(route.last())
    &&& rec.node_id@ == route.last()
    &&& match rec.node_alias {
        Some(a) => a@ == g.spec_node(route.last()).alias@,
        None => false,
    }
    &&& rec.route.deep_view() == route
    &&& rec.confidence_score == spec_score(g, analysis, route)
}

/// What scoring one route returns: a full candidate when the graph knows
/// the route's terminal node, and nothing otherwise.
pub open spec fn spec_candidate_result_ok(
    g: LightningNetworkMap,
    analysis: TimelockAnalysis,
    route: Seq<Seq<char>>,
    out: Option<PotentialRecipient>,
) -> bool {
    match out {
        Some(rec) => spec_candidate_ok(g, analysis, route, rec),
        None => route.len() >= 1 ==> !g.has_node(route.last()),
    }
}

/// Build the ranked-candidate record for one route, or nothing when the
/// route's terminal node is unknown.
pub fn candidate_for_route(
    route: &Vec<String>,
    analysis: &TimelockAnalysis,
    network: &LightningNetworkMap,
) -> (r: Option<PotentialRecipient>)
    requires
        network.wf(),
        route@.len() >= 1,
    ensures
        spec_candidate_result_ok(*network, *analysis, route.deep_view(), r),
{
    let last = &route[route.len() - 1];
    proof {
        assert(last@ == route.deep_view().last());
    }
    match network.get_node(last) {
        Some(node) => {
            let alias = node.alias.clone();
            let score = calculate_confidence_score(route, analysis, network);
            let rec = PotentialRecipient {
                node_id: route[route.len() - 1].clone(),
                node_alias: Some(alias),
                route: crate::network::clone_string_vec(route),
                confidence_score: score,
            };
            Some(rec)
        },
        None => None,
    }
}

/// Relies on rayon's `par_iter().map(..).collect()`: the closure is
/// applied to every element and the results are collected in the input's
/// order.  The closure only calls the verified `candidate_for_route`,
/// whose contract is what each element of the result is promised to meet.
#[verifier::external_body]
fn score_routes_parallel(
    routes: &Vec<Vec<String>>,
    analysis: &TimelockAnalysis,
    network: &LightningNetworkMap,
) -> (r: Vec<Option<PotentialRecipient>>)
    requires
        network.wf(),
        forall|i: int| 0 <= i < routes@.len() ==> routes@[i]@.len() >= 1,
    ensures
        r@.len() == routes@.len(),
        forall|i: int| 0 <= i < routes@.len()
            ==> spec_candidate_result_ok(
                *network,
                *analysis,
                routes.deep_view()[i],
                #[trigger] r@[i],
            ),
{
    routes.par_iter().map(|route| candidate_for_route(route, analysis, network)).collect()
}

/// The analyzer: read-only access to one immutable graph snapshot for
/// the duration of an analysis session.
pub struct HTLCAnalyzer {
    pub network: LightningNetworkMap,
}

/// The ranked candidates found for one payment identifier.
pub struct PaymentAnalysis {
    pub payment_hash: String,
    pub recipients: Vec<PotentialRecipient>,
}

/// The observations carrying the given payment identifier, in order.
pub open spec fn spec_group(obs: Seq<HTLC>, key: Seq<char>) -> Seq<HTLC>
    decreases obs.len(),
{
    if obs.len() == 0 {
        Seq::empty()
    } else {
        let rest = spec_group(obs.drop_last(), key);
        if obs.last().payment_hash@ == key {
            rest.push(obs.last())
        } else {
            rest
        }
    }
}

/// Index of a group's representative: the observation with the largest
/// expiry height, the last one when several tie.
pub open spec fn spec_rep_idx(group: Seq<HTLC>) -> int
    decreases group.len(),
{
    if group.len() <= 1 {
        0
    } else {
        let r = spec_rep_idx(group.drop_last());
        if 0 <= r < group.len() - 1 && group.last().cltv_expiry >= group[r].cltv_expiry {
            group.len() - 1
        } else {
            r
        }
    }
}

/// A group's representative observation.
pub open spec fn spec_representative(group: Seq<HTLC>) -> HTLC {
    group[spec_rep_idx(group)]
}

/// The representative index is in range and has the largest expiry.
pub proof fn lemma_rep_idx_max(group: Seq<HTLC>)
    requires
        group.len() > 0,
    ensures
        0 <= spec_rep_idx(group) < group.len(),
        forall|m: int| 0 <= m < group.len()
            ==> (#[trigger] group[m]).cltv_expiry
                <= group[spec_rep_idx(group)].cltv_expiry,
    decreases group.len(),
{
    if group.len() > 1 {
        lemma_rep_idx_max(group.drop_last());
        let r = spec_rep_idx(group.drop_last());
        assert forall|m: int| 0 <= m < group.len() implies
            (#[trigger] group[m]).cltv_expiry
                <= group[spec_rep_idx(group)].cltv_expiry by {
            if m < group.len() - 1 {
                assert(group.drop_last()[m] == group[m]);
                assert(group.drop_last()[r] == group[r]);
            }
        }
    }
}

/// A nonempty group names an observation that carries its key.
pub proof fn lemma_group_nonempty_witness(obs: Seq<HTLC>, key: Seq<char>) -> (j: int)
    requires
        spec_group(obs, key).len() > 0,
    ensures
        0 <= j < obs.len(),
        obs[j].payment_hash@ == key,
    decreases obs.len(),
{
    if obs.last().payment_hash@ == key {
        obs.len() - 1
    } else {
        lemma_group_nonempty_witness(obs.drop_last(), key)
    }
}

/// Whether some entry of a correlation result carries the given key.
pub open spec fn spec_result_has_key(rs: Seq<PaymentAnalysis>, key: Seq<char>) -> bool {
    exists|k: int| 0 <= k < rs.len() && (#[trigger] rs[k]).payment_hash@ == key
}

/// The whole contract of one correlation call over `obs`: every entry
/// carries a payment identifier seen in `obs`, with the non-empty
/// analysis of its group's representative; identifiers never repeat; and
/// an identifier of `obs` is present exactly when its representative's
/// analysis has candidates.
pub open spec fn spec_correlation_result(
    a: HTLCAnalyzer,
    obs: Seq<HTLC>,
    rs: Seq<PaymentAnalysis>,
) -> bool {
    &&& forall|k: int| 0 <= k < rs.len() ==> {
        let key = (#[trigger] rs[k]).payment_hash@;
        let group = spec_group(obs, key);
        &&& group.len() > 0
        &&& rs[k].recipients@.len() > 0
        &&& a.spec_analysis_result(spec_representative(group), rs[k].recipients@)
    }
    &&& forall|k1: int, k2: int|
        #![trigger rs[k1], rs[k2]]
        0 <= k1 < k2 < rs.len() ==> rs[k1].payment_hash@ != rs[k2].payment_hash@
    &&& forall|i: int| 0 <= i < obs.len() ==> {
        let key = (#[trigger] obs[i]).payment_hash@;
        spec_result_has_key(rs, key) <==> a.spec_has_candidates(
            spec_representative(spec_group(obs, key)),
        )
    }
}

/// Whether some group is keyed by `key`.
pub open spec fn spec_groups_have_key(groups: Seq<(String, Vec<HTLC>)>, key: Seq<char>) -> bool {
    exists|g2: int| 0 <= g2 < groups.len() && (#[trigger] groups[g2]).0@ == key
}

/// Index of the group keyed by `key`, by linear search.
fn find_group_index(groups: &Vec<(String, Vec<HTLC>)>, key: &String) -> (r: Option<usize>)
    ensures
        match r {
            Some(i) => i < groups@.len() && (groups@[i as int]).0@ == key@,
            None => forall|gi: int| 0 <= gi < groups@.len()
                ==> (#[trigger] groups@[gi]).0@ != key@,
        },
{
    let n = groups.len();
    for i in 0..n
        invariant
            n == groups@.len(),
            forall|gi: int| 0 <= gi < i ==> (#[trigger] groups@[gi]).0@ != key@,
    {
        if groups[i].0 == *key {
            return Some(i);
        }
    }
    None
}

/// Descending order: every earlier candidate scores at least every
/// later one; in particular adjacent pairs satisfy
/// `score[i] >= score[i + 1]`.
pub open spec fn spec_ranked(rs: Seq<PotentialRecipient>) -> bool {
    forall|i: int, j: int|
        #![trigger rs[i], rs[j]]
        0 <= i < j < rs.len() ==> rs[i].confidence_score.spec_ge(rs[j].confidence_score)
}

impl HTLCAnalyzer {
    pub open spec fn wf(self) -> bool {
        self.network.wf()
    }

    /// The routes an observation's budget admits from its observer.
    pub open spec fn spec_accepted_for(self, h: HTLC, route: Seq<Seq<char>>) -> bool {
        self.network.spec_accepted_route(
            h.observed_by_node@,
            h.spec_analysis().remaining_cltv_budget,
            h.spec_analysis().max_remaining_hops as int,
            route,
        )
    }

    /// A record that `analyze_htlc(h)` may return: the exact candidate
    /// record of some admitted route with a known terminal node.
    pub open spec fn spec_is_candidate(self, h: HTLC, rec: PotentialRecipient) -> bool {
        exists|route: Seq<Seq<char>>|
            #[trigger] spec_candidate_ok(self.network, h.spec_analysis(), route, rec)
                && self.spec_accepted_for(h, route)
    }

    /// The whole contract of one analysis call: the sequence is ranked
    /// by descending score, holds only exact candidate records of
    /// admitted routes, and holds one for every admitted route whose
    /// terminal the graph knows.
    pub open spec fn spec_analysis_result(self, h: HTLC, rs: Seq<PotentialRecipient>) -> bool {
        &&& spec_ranked(rs)
        &&& forall|k: int| 0 <= k < rs.len()
            ==> self.spec_is_candidate(h, #[trigger] rs[k]) && rs[k].confidence_score.wf()
        &&& forall|route: Seq<Seq<char>>|
            #[trigger] self.spec_accepted_for(h, route) && self.network.has_node(route.last())
            ==> exists|k: int|
                0 <= k < rs.len() && spec_candidate_ok(
                    self.network,
                    h.spec_analysis(),
                    route,
                    rs[k],
                )
    }

    /// Whether any admitted route of `h` ends at a known node, i.e.
    /// whether analyzing `h` can return anything.
    pub open spec fn spec_has_candidates(self, h: HTLC) -> bool {
        exists|route: Seq<Seq<char>>|
            #[trigger] self.spec_accepted_for(h, route) && self.network.has_node(route.last())
    }

    /// An analysis result is empty exactly when the observation admits
    /// no route with a known terminal.
    pub proof fn lemma_analysis_empty(self, h: HTLC, rs: Seq<PotentialRecipient>)
        requires
            self.spec_analysis_result(h, rs),
        ensures
            rs.len() > 0 <==> self.spec_has_candidates(h),
    {
        if rs.len() > 0 {
            assert(self.spec_is_candidate(h, rs[0]));
            let route = choose|route: Seq<Seq<char>>|
                #[trigger] spec_candidate_ok(self.network, h.spec_analysis(), route, rs[0])
                    && self.spec_accepted_for(h, route);
            assert(self.spec_accepted_for(h, route)
                && self.network.has_node(route.last()));
        }
        if self.spec_has_candidates(h) {
            let route = choose|route: Seq<Seq<char>>|
                #[trigger] self.spec_accepted_for(h, route)
                    && self.network.has_node(route.last());
            assert(exists|k: int|
                0 <= k < rs.len() && spec_candidate_ok(
                    self.network,
                    h.spec_analysis(),
                    route,
                    rs[k],
                ));
        }
    }

    pub fn new(network: LightningNetworkMap) -> (r: HTLCAnalyzer)
        ensures
            r.network == network,
    {
        HTLCAnalyzer { network }
    }

    /// Analyze one observation: enumerate the routes its budget admits,
    /// score each with a known terminal, and rank the candidates by
    /// descending score.  The result holds a record for exactly the
    /// admitted routes with known terminals.
    #[verifier::loop_isolation(false)]
    pub fn analyze_htlc(&self, htlc: &HTLC) -> (r: Vec<PotentialRecipient>)
        requires
            self.wf(),
        ensures
            self.spec_analysis_result(*htlc, r@),
    {
        let analysis = htlc.timelock_analysis();
        let routes = self.network.find_possible_routes_with_budget(
            htlc.observed_by_node.as_str(),
            analysis.remaining_cltv_budget,
            analysis.max_remaining_hops,
        );
        let ghost g = self.network;
        let ghost rdv = routes.deep_view();
        proof {
            assert(rdv.len() == routes@.len());
            assert forall|i: int| 0 <= i < routes@.len() implies
                #[trigger] routes@[i]@.len() >= 1 by {
                assert(rdv[i] == routes@[i].deep_view());
                assert(rdv.contains(rdv[i]));
                assert(g.spec_accepted_route(
                    htlc.observed_by_node@,
                    analysis.remaining_cltv_budget,
                    analysis.max_remaining_hops as int,
                    rdv[i],
                ));
                assert(routes@[i].deep_view().len() == routes@[i]@.len());
            }
        }
        let scored = score_routes_parallel(&routes, &analysis, &self.network);
        let ghost orig = scored@;
        let mut rem = scored;
        let total = rem.len();
        let mut cands: Vec<PotentialRecipient> = Vec::new();
        let mut done: usize = 0;
        while rem.len() > 0
            invariant
                total == orig.len(),
                done + rem@.len() == total,
                rem@ == orig.subrange(done as int, orig.len() as int),
                forall|k: int| 0 <= k < cands@.len()
                    ==> self.spec_is_candidate(*htlc, #[trigger] cands@[k])
                        && cands@[k].confidence_score.wf(),
                forall|i: int| 0 <= i < done ==> match #[trigger] orig[i] {
                    Some(rec) => cands@.contains(rec),
                    None => true,
                },
            decreases rem@.len(),
        {
            let ghost rem_pre = rem@;
            let ghost cands_pre = cands@;
            let item = rem.remove(0);
            proof {
                assert(item == orig[done as int]);
                assert(rem@ =~= orig.subrange(done + 1, orig.len() as int));
            }
            match item {
                Some(rec) => {
                    proof {
                        let i = done as int;
                        assert(spec_candidate_result_ok(g, analysis, rdv[i], orig[i]));
                        assert(spec_candidate_ok(g, analysis, rdv[i], rec));
                        assert(rdv.contains(rdv[i]));
                        assert(self.spec_accepted_for(*htlc, rdv[i]));
                        assert(self.spec_is_candidate(*htlc, rec));
                        crate::score::lemma_spec_score_wf(g, analysis, rdv[i]);
                    }
                    cands.push(rec);
                    proof {
                        assert(cands@ =~= cands_pre.push(rec));
                        assert(cands@[cands@.len() - 1] == rec);
                        assert forall|i: int| 0 <= i < done + 1 implies
                            match #[trigger] orig[i] {
                                Some(r2) => cands@.contains(r2),
                                None => true,
                            } by {
                            if i < done {
                                match orig[i] {
                                    Some(r2) => {
                                        let w = choose|w: int|
                                            0 <= w < cands_pre.len() && cands_pre[w] == r2;
                                        assert(cands@[w] == r2);
                                    },
                                    None => {},
                                }
                            } else {
                                assert(cands@.contains(rec));
                            }
                        }
                    }
                },
                None => {},
            }
            done = done + 1;
        }
        let ghost cands0 = cands@;
        let mut result: Vec<PotentialRecipient> = Vec::new();
        while cands.len() > 0
            invariant
                forall|k: int| 0 <= k < result@.len()
                    ==> self.spec_is_candidate(*htlc, #[trigger] result@[k])
                        && result@[k].confidence_score.wf(),
                forall|k: int| 0 <= k < cands@.len()
                    ==> self.spec_is_candidate(*htlc, #[trigger] cands@[k])
                        && cands@[k].confidence_score.wf(),
                spec_ranked(result@),
                forall|k: int, m: int|
                    #![trigger result@[k], cands@[m]]
                    0 <= k < result@.len() && 0 <= m < cands@.len()
                        ==> result@[k].confidence_score.spec_ge(cands@[m].confidence_score),
                forall|rec: PotentialRecipient| #[trigger] cands0.contains(rec)
                    <==> (result@.contains(rec) || cands@.contains(rec)),
            decreases cands@.len(),
        {
            let n = cands.len();
            let mut best: usize = 0;
            for i in 1..n
                invariant
                    n == cands@.len(),
                    best < n,
                    forall|m: int| 0 <= m < i
                        ==> cands@[best as int].confidence_score.spec_ge(
                            (#[trigger] cands@[m]).confidence_score,
                        ),
            {
                if cands[i].confidence_score.ge(&cands[best].confidence_score) {
                    proof {
                        let newb = cands@[i as int].confidence_score;
                        let oldb = cands@[best as int].confidence_score;
                        assert forall|m: int| 0 <= m < i + 1 implies
                            newb.spec_ge((#[trigger] cands@[m]).confidence_score) by {
                            if m < i {
                                crate::score::lemma_score_ge_trans(
                                    newb,
                                    oldb,
                                    cands@[m].confidence_score,
                                );
                            }
                        }
                    }
                    best = i;
                } else {
                    proof {
                        crate::score::lemma_score_ge_total(
                            cands@[i as int].confidence_score,
                            cands@[best as int].confidence_score,
                        );
                    }
                }
            }
            let ghost cands_pre = cands@;
            let ghost result_pre = result@;
            let chosen = cands.remove(best);
            proof {
                assert(chosen == cands_pre[best as int]);
                assert(cands@ =~= cands_pre.remove(best as int));
                assert forall|m: int| 0 <= m < cands@.len() implies
                    chosen.confidence_score.spec_ge(
                        (#[trigger] cands@[m]).confidence_score,
                    ) by {
                    if m < best {
                        assert(cands@[m] == cands_pre[m]);
                    } else {
                        assert(cands@[m] == cands_pre[m + 1]);
                    }
                }
            }
            result.push(chosen);
            proof {
                assert(result@ =~= result_pre.push(chosen));
                assert forall|rec: PotentialRecipient| #[trigger] cands0.contains(rec)
                    implies (result@.contains(rec) || cands@.contains(rec)) by {
                    if result_pre.contains(rec) {
                        let w = choose|w: int|
                            0 <= w < result_pre.len() && result_pre[w] == rec;
                        assert(result@[w] == rec);
                    } else {
                        assert(cands_pre.contains(rec));
                        let w = choose|w: int|
                            0 <= w < cands_pre.len() && cands_pre[w] == rec;
                        if w == best {
                            assert(result@[result@.len() - 1] == rec);
                        } else if w < best {
                            assert(cands@[w] == rec);
                        } else {
                            assert(cands@[w - 1] == rec);
                        }
                    }
                }
                assert forall|rec: PotentialRecipient|
                    (result@.contains(rec) || cands@.contains(rec))
                    implies #[trigger] cands0.contains(rec) by {
                    if result@.contains(rec) {
                        let w = choose|w: int|
                            0 <= w < result@.len() && result@[w] == rec;
                        if w < result_pre.len() {
                            assert(result_pre[w] == rec);
                        } else {
                            assert(rec == chosen);
                            assert(cands_pre.contains(rec));
                        }
                    } else {
                        let w = choose|w: int|
                            0 <= w < cands@.len() && cands@[w] == rec;
                        if w < best {
                            assert(cands_pre[w] == rec);
                        } else {
                            assert(cands_pre[w + 1] == rec);
                        }
                    }
                }
            }
        }
        proof {
            assert forall|route: Seq<Seq<char>>|
                #[trigger] self.spec_accepted_for(*htlc, route)
                    && self.network.has_node(route.last())
                implies exists|k: int|
                    0 <= k < result@.len() && spec_candidate_ok(
                        self.network,
                        htlc.spec_analysis(),
                        route,
                        result@[k],
                    ) by {
                assert(rdv.contains(route));
                let i = choose|i: int| 0 <= i < rdv.len() && rdv[i] == route;
                assert(spec_candidate_result_ok(g, analysis, rdv[i], orig[i]));
                match orig[i] {
                    Some(rec) => {
                        assert(cands0.contains(rec));
                        assert(result@.contains(rec));
                        let k = choose|k: int|
                            0 <= k < result@.len() && result@[k] == rec;
                        assert(spec_candidate_ok(
                            self.network,
                            htlc.spec_analysis(),
                            route,
                            result@[k],
                        ));
                    },
                    None => {
                        assert(false);
                    },
                }
            }
        }
        result
    }

    /// Correlate observations made by several colluding relays: group
    /// them by payment identifier, analyze each group's representative
    /// (the observation with the largest expiry, the relay closest to
    /// the receiver), and keep the identifiers that produced candidates.
    #[verifier::loop_isolation(false)]
    pub fn correlate_observations(&self, observations: &Vec<HTLC>) -> (r: Vec<PaymentAnalysis>)
        requires
            self.wf(),
        ensures
            spec_correlation_result(*self, observations@, r@),
    {
        let odv_len = observations.len();
        let ghost odv = observations@;
        let mut groups: Vec<(String, Vec<HTLC>)> = Vec::new();
        for i in 0..odv_len
            invariant
                odv_len == odv.len(),
                forall|g1: int, g2: int|
                    #![trigger groups@[g1], groups@[g2]]
                    0 <= g1 < g2 < groups@.len()
                        ==> groups@[g1].0@ != groups@[g2].0@,
                forall|gi: int| 0 <= gi < groups@.len()
                    ==> (#[trigger] groups@[gi]).1@
                        == spec_group(odv.subrange(0, i as int), groups@[gi].0@),
                forall|gi: int| 0 <= gi < groups@.len()
                    ==> (#[trigger] groups@[gi]).1@.len() > 0,
                forall|j: int| 0 <= j < i ==> exists|gi: int|
                    0 <= gi < groups@.len()
                        && (#[trigger] groups@[gi]).0@ == (#[trigger] odv[j]).payment_hash@,
        {
            let h = &observations[i];
            let ghost prefix = odv.subrange(0, i as int);
            let ghost prefix1 = odv.subrange(0, i + 1);
            proof {
                assert(prefix1.drop_last() =~= prefix);
                assert(prefix1.last() == odv[i as int]);
            }
            let ghost groups_pre = groups@;
            match find_group_index(&groups, &h.payment_hash) {
                Some(gi) => {
                    groups[gi].1.push(h.clone());
                    proof {
                        assert(groups@[gi as int].1@
                            =~= groups_pre[gi as int].1@.push(odv[i as int]));
                        assert forall|g2: int| 0 <= g2 < groups@.len() implies
                            (#[trigger] groups@[g2]).1@
                                == spec_group(prefix1, groups@[g2].0@) by {
                            if g2 == gi {
                                assert(spec_group(prefix1, groups@[g2].0@)
                                    == spec_group(prefix, groups@[g2].0@).push(
                                    odv[i as int]));
                            } else {
                                assert(groups@[g2] == groups_pre[g2]);
                                assert(spec_group(prefix1, groups@[g2].0@)
                                    == spec_group(prefix, groups@[g2].0@));
                            }
                        }
                        assert forall|j: int| 0 <= j < i + 1 implies
                            spec_groups_have_key(
                                groups@,
                                (#[trigger] odv[j]).payment_hash@,
                            ) by {
                            if j < i {
                                let g2 = choose|g2: int|
                                    0 <= g2 < groups_pre.len()
                                        && (#[trigger] groups_pre[g2]).0@
                                        == odv[j].payment_hash@;
                                assert(groups@[g2].0@ == odv[j].payment_hash@);
                            } else {
                                assert(groups@[gi as int].0@ == odv[i as int].payment_hash@);
                            }
                        }
                    }
                },
                None => {
                    let mut fresh: Vec<HTLC> = Vec::new();
                    fresh.push(h.clone());
                    groups.push((h.payment_hash.clone(), fresh));
                    proof {
                        let key = odv[i as int].payment_hash@;
                        if spec_group(prefix, key).len() > 0 {
                            let j = lemma_group_nonempty_witness(prefix, key);
                            assert(prefix[j] == odv[j]);
                            assert(spec_groups_have_key(groups_pre, odv[j].payment_hash@));
                            let g2 = choose|g2: int|
                                0 <= g2 < groups_pre.len()
                                    && (#[trigger] groups_pre[g2]).0@
                                    == odv[j].payment_hash@;
                            assert(false);
                        }
                        assert(groups@[groups@.len() - 1].1@ =~= seq![odv[i as int]]);
                        assert(spec_group(prefix1, key)
                            == spec_group(prefix, key).push(odv[i as int]));
                        assert(spec_group(prefix, key) =~= Seq::<HTLC>::empty());
                        assert(groups@[groups@.len() - 1].1@ =~= spec_group(prefix1, key));
                        assert forall|g2: int| 0 <= g2 < groups@.len() implies
                            (#[trigger] groups@[g2]).1@
                                == spec_group(prefix1, groups@[g2].0@) by {
                            if g2 < groups_pre.len() {
                                assert(groups@[g2] == groups_pre[g2]);
                                assert(spec_group(prefix1, groups@[g2].0@)
                                    == spec_group(prefix, groups@[g2].0@));
                            }
                        }
                        assert forall|j: int| 0 <= j < i + 1 implies
                            spec_groups_have_key(
                                groups@,
                                (#[trigger] odv[j]).payment_hash@,
                            ) by {
                            if j < i {
                                let g2 = choose|g2: int|
                                    0 <= g2 < groups_pre.len()
                                        && (#[trigger] groups_pre[g2]).0@
                                        == odv[j].payment_hash@;
                                assert(groups@[g2].0@ == odv[j].payment_hash@);
                            } else {
                                assert(groups@[groups@.len() - 1].0@ == key);
                            }
                        }
                    }
                },
            }
        }
        proof {
            assert(odv.subrange(0, odv_len as int) =~= odv);
        }
        let mut results: Vec<PaymentAnalysis> = Vec::new();
        let group_count = groups.len();
        for gi in 0..group_count
            invariant
                group_count == groups@.len(),
                forall|g1: int, g2: int|
                    #![trigger groups@[g1], groups@[g2]]
                    0 <= g1 < g2 < groups@.len()
                        ==> groups@[g1].0@ != groups@[g2].0@,
                forall|g2: int| 0 <= g2 < groups@.len()
                    ==> (#[trigger] groups@[g2]).1@
                        == spec_group(odv, groups@[g2].0@),
                forall|g2: int| 0 <= g2 < groups@.len()
                    ==> (#[trigger] groups@[g2]).1@.len() > 0,
                forall|j: int| 0 <= j < odv.len()
                    ==> spec_groups_have_key(groups@, (#[trigger] odv[j]).payment_hash@),
                forall|k: int| 0 <= k < results@.len() ==> {
                    let key = (#[trigger] results@[k]).payment_hash@;
                    let group = spec_group(odv, key);
                    &&& group.len() > 0
                    &&& results@[k].recipients@.len() > 0
                    &&& self.spec_analysis_result(
                        spec_representative(group),
                        results@[k].recipients@,
                    )
                },
                forall|k: int| 0 <= k < results@.len() ==> exists|g2: int|
                    0 <= g2 < gi && (#[trigger] results@[k]).payment_hash@
                        == (#[trigger] groups@[g2]).0@,
                forall|k1: int, k2: int|
                    #![trigger results@[k1], results@[k2]]
                    0 <= k1 < k2 < results@.len()
                        ==> results@[k1].payment_hash@ != results@[k2].payment_hash@,
                forall|g2: int| 0 <= g2 < gi ==> (
                    spec_result_has_key(results@, (#[trigger] groups@[g2]).0@)
                        <==> self.spec_has_candidates(
                        spec_representative(spec_group(odv, groups@[g2].0@)),
                    )
                ),
        {
            let group = &groups[gi].1;
            let glen = group.len();
            let mut ri: usize = 0;
            for t in 1..glen
                invariant
                    glen == group@.len(),
                    glen > 0,
                    ri < t,
                    ri as int == spec_rep_idx(group@.subrange(0, t as int)),
            {
                let ghost sub = group@.subrange(0, t as int);
                let ghost sub1 = group@.subrange(0, t + 1);
                proof {
                    assert(sub1.drop_last() =~= sub);
                    assert(sub1.last() == group@[t as int]);
                    lemma_rep_idx_max(sub);
                }
                if group[t].cltv_expiry >= group[ri].cltv_expiry {
                    ri = t;
                }
            }
            proof {
                assert(group@.subrange(0, glen as int) =~= group@);
                lemma_rep_idx_max(group@);
            }
            let recipients = self.analyze_htlc(&group[ri]);
            let ghost results_pre = results@;
            let ghost gkey = groups@[gi as int].0@;
            proof {
                assert(group@[ri as int] == spec_representative(spec_group(odv, gkey)));
                self.lemma_analysis_empty(group@[ri as int], recipients@);
            }
            if recipients.len() > 0 {
                let entry = PaymentAnalysis {
                    payment_hash: groups[gi].0.clone(),
                    recipients,
                };
                results.push(entry);
                proof {
                    assert(results@ =~= results_pre.push(entry));
                    assert(results@[results@.len() - 1].payment_hash@ == gkey);
                    assert forall|k1: int, k2: int|
                        #![trigger results@[k1], results@[k2]]
                        0 <= k1 < k2 < results@.len() implies
                        results@[k1].payment_hash@ != results@[k2].payment_hash@ by {
                        if k2 == results@.len() - 1 {
                            let g2 = choose|g2: int|
                                0 <= g2 < gi && (#[trigger] results_pre[k1]).payment_hash@
                                    == (#[trigger] groups@[g2]).0@;
                            assert(groups@[g2].0@ != gkey);
                        }
                    }
                    assert forall|g2: int| 0 <= g2 < gi + 1 implies (
                        spec_result_has_key(results@, (#[trigger] groups@[g2]).0@)
                            <==> self.spec_has_candidates(
                            spec_representative(spec_group(odv, groups@[g2].0@)),
                        )
                    ) by {
                        let key2 = groups@[g2].0@;
                        if g2 < gi {
                            if spec_result_has_key(results_pre, key2) {
                                let k = choose|k: int|
                                    0 <= k < results_pre.len()
                                        && (#[trigger] results_pre[k]).payment_hash@ == key2;
                                assert(results@[k].payment_hash@ == key2);
                                assert(spec_result_has_key(results@, key2));
                            }
                            if spec_result_has_key(results@, key2) {
                                let k = choose|k: int|
                                    0 <= k < results@.len()
                                        && (#[trigger] results@[k]).payment_hash@ == key2;
                                if k == results@.len() - 1 {
                                    assert(groups@[g2].0@ != gkey);
                                    assert(false);
                                }
                                assert(spec_result_has_key(results_pre, key2));
                            }
                        } else {
                            assert(results@[results@.len() - 1].payment_hash@ == key2);
                            assert(spec_result_has_key(results@, key2));
                        }
                    }
                }
            } else {
                proof {
                    assert forall|g2: int| 0 <= g2 < gi + 1 implies (
                        spec_result_has_key(results@, (#[trigger] groups@[g2]).0@)
                            <==> self.spec_has_candidates(
                            spec_representative(spec_group(odv, groups@[g2].0@)),
                        )
                    ) by {
                        let key2 = groups@[g2].0@;
                        if g2 == gi {
                            if spec_result_has_key(results@, key2) {
                                let k = choose|k: int|
                                    0 <= k < results@.len()
                                        && (#[trigger] results@[k]).payment_hash@ == key2;
                                let g3 = choose|g3: int|
                                    0 <= g3 < gi && (#[trigger] results@[k]).payment_hash@
                                        == (#[trigger] groups@[g3]).0@;
                                assert(groups@[g3].0@ != gkey);
                                assert(false);
                            }
                        }
                    }
                }
            }
        }
        proof {
            assert forall|i: int| 0 <= i < odv.len() implies {
                let key = (#[trigger] odv[i]).payment_hash@;
                spec_result_has_key(results@, key) <==> self.spec_has_candidates(
                    spec_representative(spec_group(odv, key)),
                )
            } by {
                let key = odv[i].payment_hash@;
                assert(spec_groups_have_key(groups@, key));
                let g2 = choose|g2: int|
                    0 <= g2 < groups@.len()
                        && (#[trigger] groups@[g2]).0@ == odv[i].payment_hash@;
                assert(spec_result_has_key(results@, groups@[g2].0@)
                    <==> self.spec_has_candidates(
                    spec_representative(spec_group(odv, groups@[g2].0@)),
                ));
            }
        }
        results
    }

    /// Direct neighbors of the observer: the hops a payment could have
    /// arrived from.
    pub fn backtrack_potential_senders(&self, htlc: &HTLC) -> (r: Vec<String>)
        requires
            self.wf(),
        ensures
            r.deep_view() == self.network.neighbors_of(htlc.observed_by_node@),
    {
        match self.network.get_neighbors(htlc.observed_by_node.as_str()) {
            Some(neighbors) => {
                let r = crate::network::clone_string_vec(neighbors);
                proof {
                    assert(r.deep_view() =~= neighbors@.map_values(|s: String| s@));
                }
                r
            },
            None => {
                let r: Vec<String> = Vec::new();
                proof {
                    assert(r.deep_view() =~= Seq::<Seq<char>>::empty());
                }
                r
            },
        }
    }
}

} // verus!
