//! The surveillance session: a set of colluding observer nodes and their
//! append-only log of observations, over one immutable graph snapshot.

use vstd::prelude::*;
use crate::htlc::HTLC;
use crate::network::LightningNetworkMap;
use crate::analyzer::{
    HTLCAnalyzer, PaymentAnalysis, PotentialRecipient, spec_correlation_result,
};

verus! {

/// A session: the analyzer over the shared graph, the observer nodes,
/// and the observation log.  Only the log ever changes, by appending.
pub struct SurveillanceOperation {
    analyzer: HTLCAnalyzer,
    malicious_nodes: Vec<String>,
    observed_htlcs: Vec<HTLC>,
}

/// The observations among `hs` whose observer is one of `mal`, in order.
pub open spec fn spec_admitted(mal: Seq<Seq<char>>, hs: Seq<HTLC>) -> Seq<HTLC>
    decreases hs.len(),
{
    if hs.len() == 0 {
        Seq::empty()
    } else {
        let rest = spec_admitted(mal, hs.drop_last());
        if mal.contains(hs.last().observed_by_node@) {
            rest.push(hs.last())
        } else {
            rest
        }
    }
}

impl SurveillanceOperation {
    pub closed spec fn wf(self) -> bool {
        self.analyzer.wf()
    }

    /// The observer node identifiers.
    pub closed spec fn spec_malicious(self) -> Seq<Seq<char>> {
        self.malicious_nodes.deep_view()
    }

    /// The observation log.
    pub closed spec fn spec_observations(self) -> Seq<HTLC> {
        self.observed_htlcs@
    }

    /// The analyzer this session delegates to.
    pub closed spec fn spec_analyzer(self) -> HTLCAnalyzer {
        self.analyzer
    }

    pub fn new(network: LightningNetworkMap, malicious_nodes: Vec<String>) -> (r:
        SurveillanceOperation)
        ensures
            r.spec_analyzer().network == network,
            r.spec_malicious() == malicious_nodes.deep_view(),
            r.spec_observations() == Seq::<HTLC>::empty(),
            network.wf() ==> r.wf(),
    {
        let r = SurveillanceOperation {
            analyzer: HTLCAnalyzer::new(network),
            malicious_nodes,
            observed_htlcs: Vec::new(),
        };
        proof {
            assert(r.spec_observations() =~= Seq::<HTLC>::empty());
        }
        r
    }

    /// The graph under surveillance.
    pub fn network(&self) -> (r: &LightningNetworkMap)
        ensures
            r == self.spec_analyzer().network,
    {
        &self.analyzer.network
    }

    /// Register one more observer node; already-registered identifiers
    /// are kept once.
    pub fn register_malicious_node(&mut self, node_id: &str)
        ensures
            final(self).spec_analyzer() == old(self).spec_analyzer(),
            final(self).spec_observations() == old(self).spec_observations(),
            final(self).spec_malicious() == if old(self).spec_malicious().contains(node_id@) {
                old(self).spec_malicious()
            } else {
                old(self).spec_malicious().push(node_id@)
            },
    {
        let owned = node_id.to_owned();
        let ghost pre = self.spec_malicious();
        if !crate::network::vec_contains_string(&self.malicious_nodes, &owned) {
            self.malicious_nodes.push(owned);
            proof {
                assert(self.spec_malicious() =~= pre.push(node_id@));
            }
        }
    }

    /// The observer node identifiers.
    pub fn get_malicious_nodes(&self) -> (r: &Vec<String>)
        ensures
            r.deep_view() == self.spec_malicious(),
    {
        &self.malicious_nodes
    }

    /// Log one observation, provided one of the session's observers made
    /// it; anything else is dropped.
    pub fn record_htlc_observation(&mut self, htlc: HTLC)
        ensures
            final(self).spec_analyzer() == old(self).spec_analyzer(),
            final(self).spec_malicious() == old(self).spec_malicious(),
            final(self).spec_observations()
                == if old(self).spec_malicious().contains(htlc.observed_by_node@) {
                old(self).spec_observations().push(htlc)
            } else {
                old(self).spec_observations()
            },
    {
        if crate::network::vec_contains_string(&self.malicious_nodes, &htlc.observed_by_node) {
            self.observed_htlcs.push(htlc);
        }
    }

    /// Log a batch of observations, in order, each under the same rule
    /// as `record_htlc_observation`.
    pub fn record_multiple_observations(&mut self, htlcs: Vec<HTLC>)
        ensures
            final(self).spec_analyzer() == old(self).spec_analyzer(),
            final(self).spec_malicious() == old(self).spec_malicious(),
            final(self).spec_observations() == old(self).spec_observations()
                + spec_admitted(old(self).spec_malicious(), htlcs@),
    {
        let ghost hv = htlcs@;
        let ghost base = self.spec_observations();
        let ghost mal = self.spec_malicious();
        let mut rest = htlcs;
        let mut taken: usize = 0;
        let total = rest.len();
        while rest.len() > 0
            invariant
                total == hv.len(),
                taken + rest@.len() == total,
                rest@ == hv.subrange(taken as int, hv.len() as int),
                self.spec_malicious() == mal,
                self.spec_analyzer() == old(self).spec_analyzer(),
                self.spec_observations()
                    == base + spec_admitted(mal, hv.subrange(0, taken as int)),
            decreases rest@.len(),
        {
            let h = rest.remove(0);
            proof {
                assert(h == hv[taken as int]);
                assert(rest@ =~= hv.subrange(taken + 1, hv.len() as int));
                let p1 = hv.subrange(0, taken + 1);
                assert(p1.drop_last() =~= hv.subrange(0, taken as int));
                assert(p1.last() == hv[taken as int]);
            }
            let ghost obs_pre = self.spec_observations();
            self.record_htlc_observation(h);
            proof {
                if mal.contains(hv[taken as int].observed_by_node@) {
                    assert(self.spec_observations()
                        =~= base + spec_admitted(mal, hv.subrange(0, taken + 1)));
                } else {
                    assert(self.spec_observations()
                        =~= base + spec_admitted(mal, hv.subrange(0, taken + 1)));
                }
            }
            taken = taken + 1;
        }
        proof {
            assert(hv.subrange(0, total as int) =~= hv);
        }
    }

    /// The observation log so far.
    pub fn get_observations(&self) -> (r: &Vec<HTLC>)
        ensures
            r@ == self.spec_observations(),
    {
        &self.observed_htlcs
    }

    /// Analyze one observation against the session's graph.
    pub fn analyze_single_htlc(&self, htlc: &HTLC) -> (r: Vec<PotentialRecipient>)
        requires
            self.wf(),
        ensures
            self.spec_analyzer().spec_analysis_result(*htlc, r@),
    {
        self.analyzer.analyze_htlc(htlc)
    }

    /// Correlate everything the session's observers logged.
    pub fn run_analysis(&self) -> (r: Vec<PaymentAnalysis>)
        requires
            self.wf(),
        ensures
            spec_correlation_result(self.spec_analyzer(), self.spec_observations(), r@),
    {
        self.analyzer.correlate_observations(&self.observed_htlcs)
    }

    /// Empty the observation log between sessions.
    pub fn clear_observations(&mut self)
        ensures
            final(self).spec_analyzer() == old(self).spec_analyzer(),
            final(self).spec_malicious() == old(self).spec_malicious(),
            final(self).spec_observations() == Seq::<HTLC>::empty(),
    {
        self.observed_htlcs = Vec::new();
        proof {
            assert(self.spec_observations() =~= Seq::<HTLC>::empty());
        }
    }
}

} // verus!
